//! The anonymizer: transitional renames, sequential identities, randomized
//! modification times, and the rename operations the caller applies.

use vstd::prelude::*;
use vstd::string::{StringExecFns, StrSliceExecFns};
use vstd::multiset::Multiset;
use crate::model::{DirGroup, DirGroupV, FileName, FileNameV, clone_dir, distinct_names};
use crate::pairing::{FilePair, FilePairV, pairs_view, exact_pairs, matched, unmatched};
use crate::rng::rand_in_range;
use crate::tally::{contrib_sum, lemma_contrib_sum_concat, lemma_contrib_sum_remove,
    lemma_contrib_sum_multiset, lemma_contrib_sum_pointwise, lemma_contrib_sum_zero};
use crate::text::{dec_str, u64_to_dec};

verus! {

/// Seconds in one hour: the least distance of a fresh timestamp from now.
pub const SECS_IN_HOUR: u64 = 60 * 60;

/// Seconds in ten days: the strict bound on that distance.
pub const SECS_IN_TEN_DAYS: u64 = 10 * 24 * 60 * 60;

/// A transitional rename: the stem gains the marker suffix, the extension
/// and the modification time stay.
pub struct TransRename {
    pub dir: Vec<String>,
    pub old_name: FileName,
    pub new_name: FileName,
}

/// Mathematical value of a [`TransRename`].
#[verifier::ext_equal]
pub struct TransRenameV {
    pub dir: Seq<Seq<char>>,
    pub old_name: FileNameV,
    pub new_name: FileNameV,
}

impl View for TransRename {
    type V = TransRenameV;

    open spec fn view(&self) -> TransRenameV {
        TransRenameV { dir: self.dir.deep_view(), old_name: self.old_name@, new_name: self.new_name@ }
    }
}

/// A final rename: the file takes its identity as the new stem, keeps its
/// extension, and both of its timestamps are set to the fresh time; the
/// audit record names `audit_original` as the file's original name.
pub struct FinalRename {
    pub dir: Vec<String>,
    pub old_name: FileName,
    pub new_name: FileName,
    pub identity: usize,
    pub audit_original: FileName,
    pub new_mtime_secs: i64,
}

/// Mathematical value of a [`FinalRename`].
#[verifier::ext_equal]
pub struct FinalRenameV {
    pub dir: Seq<Seq<char>>,
    pub old_name: FileNameV,
    pub new_name: FileNameV,
    pub identity: int,
    pub audit_original: FileNameV,
    pub new_mtime_secs: int,
}

impl View for FinalRename {
    type V = FinalRenameV;

    open spec fn view(&self) -> FinalRenameV {
        FinalRenameV {
            dir: self.dir.deep_view(),
            old_name: self.old_name@,
            new_name: self.new_name@,
            identity: self.identity as int,
            audit_original: self.audit_original@,
            new_mtime_secs: self.new_mtime_secs as int,
        }
    }
}

/// One rename operation of the plan, applied in order.
pub enum Op {
    Transitional(TransRename),
    Final(FinalRename),
}

/// Mathematical value of an [`Op`].
#[verifier::ext_equal]
pub enum OpV {
    Transitional(TransRenameV),
    Final(FinalRenameV),
}

impl View for Op {
    type V = OpV;

    open spec fn view(&self) -> OpV {
        match self {
            Op::Transitional(t) => OpV::Transitional(t@),
            Op::Final(f) => OpV::Final(f@),
        }
    }
}

/// The operations of a sequence, as mathematical values.
pub open spec fn ops_view(s: Seq<Op>) -> Seq<OpV> {
    s.map_values(|op: Op| op@)
}

/// A well-formed transitional rename: marker appended, extension kept.
pub open spec fn trans_wf(t: TransRenameV) -> bool {
    &&& t.new_name.stem == t.old_name.stem + seq!['T']
    &&& t.new_name.ext == t.old_name.ext
}

/// A well-formed final rename: a positive identity rendered in decimal as
/// the new stem, the extension kept, and a modification time at least one
/// hour and less than ten days before `now`.
pub open spec fn final_wf(f: FinalRenameV, now: int) -> bool {
    &&& 1 <= f.identity
    &&& f.new_name.stem == dec_str(f.identity as nat)
    &&& f.new_name.ext == f.old_name.ext
    &&& f.audit_original.ext == f.old_name.ext
    &&& now - SECS_IN_TEN_DAYS < f.new_mtime_secs <= now - SECS_IN_HOUR
}

/// A well-formed operation.
pub open spec fn op_wf(op: OpV, now: int) -> bool {
    match op {
        OpV::Transitional(t) => trans_wf(t),
        OpV::Final(f) => final_wf(f, now),
    }
}

/// A planned rename target: the directory a file lies in and the name the
/// audit record reports for it — the file's original name.
pub type Target = (Seq<Seq<char>>, FileNameV);

/// The name with the transitional marker removed from the stem (the name
/// itself when the stem is empty).
pub open spec fn unmarked(f: FileNameV) -> FileNameV {
    FileNameV {
        stem: if f.stem.len() >= 1 {
            f.stem.drop_last()
        } else {
            f.stem
        },
        ext: f.ext,
    }
}

/// What one operation plans: a final rename plans its file (directory and
/// audit name); a transitional rename plans nothing by itself.
pub open spec fn op_target(op: OpV) -> Multiset<Target> {
    match op {
        OpV::Transitional(_) => Multiset::empty(),
        OpV::Final(f) => Multiset::empty().insert((f.dir, f.audit_original)),
    }
}

/// All files a plan renames to an identity, with their directories, as a
/// multiset: the plan's coverage.
pub open spec fn final_targets(ops: Seq<OpV>) -> Multiset<Target> {
    contrib_sum(ops, |op: OpV| op_target(op))
}

/// The files of a directory, each under that directory, as targets.
pub open spec fn plain_targets(files: Seq<FileNameV>, dir: Seq<Seq<char>>) -> Multiset<Target> {
    contrib_sum(files, |f: FileNameV| Multiset::empty().insert((dir, f)))
}

/// Transitionally renamed files of a directory, as the targets of their
/// original names.
pub open spec fn marked_targets(files: Seq<FileNameV>, dir: Seq<Seq<char>>) -> Multiset<Target> {
    contrib_sum(files, |f: FileNameV| Multiset::empty().insert((dir, unmarked(f))))
}

/// What one pair plans: each present member under its side's directory,
/// with the transitional marker removed for the audit.
pub open spec fn pair_target(p: FilePairV, d1: Seq<Seq<char>>, d2: Seq<Seq<char>>) -> Multiset<
    Target,
> {
    (match p.a {
        Some(f) => Multiset::empty().insert((d1, unmarked(f))),
        None => Multiset::empty(),
    }).add(
        match p.b {
            Some(f) => Multiset::empty().insert((d2, unmarked(f))),
            None => Multiset::empty(),
        },
    )
}

/// What a pair sequence plans.
pub open spec fn pairs_targets(
    pairs: Seq<FilePairV>,
    d1: Seq<Seq<char>>,
    d2: Seq<Seq<char>>,
) -> Multiset<Target> {
    contrib_sum(pairs, |p: FilePairV| pair_target(p, d1, d2))
}

/// Draws a fresh modification time: now minus a uniformly random offset of
/// at least one hour and less than ten days.
pub fn fresh_mtime(now_secs: i64, rng: &mut rand::rngs::StdRng) -> (t: i64)
    requires
        0 <= now_secs,
    ensures
        now_secs - SECS_IN_TEN_DAYS < t <= now_secs - SECS_IN_HOUR,
{
    let offset = rand_in_range(rng, SECS_IN_HOUR, SECS_IN_TEN_DAYS);
    now_secs - (offset as i64)
}

/// The file name with the transitional marker appended to the stem.
pub fn transitional_name(f: &FileName) -> (r: FileName)
    ensures
        r@.stem == f@.stem + seq!['T'],
        r@.ext == f@.ext,
{
    let mut stem = f.stem.clone();
    stem.append("T");
    proof {
        reveal_strlit("T");
        assert(stem@ =~= f@.stem + seq!['T']);
    }
    FileName { stem, ext: f.ext.clone() }
}

fn strip_last(s: &String) -> (r: String)
    ensures
        s@.len() >= 1 ==> r@ == s@.drop_last(),
        s@.len() == 0 ==> r@ == s@,
{
    let n = s.as_str().unicode_len();
    if n == 0 {
        return s.clone();
    }
    let sub = s.as_str().substring_char(0, n - 1);
    let r = sub.to_owned();
    proof {
        assert(r@ =~= s@.drop_last());
    }
    r
}

/// Plans the transitional rename of every file of a group: each stem gains
/// the marker suffix, so a later final rename to a numeric identity cannot
/// collide with a file not yet processed.  Returns the renamed group and
/// the operations, one per file in order.
pub fn transitional_plan(g: &DirGroup) -> (r: (DirGroup, Vec<Op>))
    ensures
        r.0@.dir == g@.dir,
        r.0@.files.len() == g@.files.len(),
        r.1@.len() == g@.files.len(),
        forall|k: int|
            0 <= k < g@.files.len() ==> {
                &&& (#[trigger] r.0@.files[k]).stem == g@.files[k].stem + seq!['T']
                &&& r.0@.files[k].ext == g@.files[k].ext
            },
        forall|k: int|
            0 <= k < r.1@.len() ==> #[trigger] ops_view(r.1@)[k] == OpV::Transitional(
                TransRenameV { dir: g@.dir, old_name: g@.files[k], new_name: r.0@.files[k] },
            ),
{
    let mut files: Vec<FileName> = Vec::new();
    let mut ops: Vec<Op> = Vec::new();
    let mut i: usize = 0;
    while i < g.files.len()
        invariant
            i <= g.files.len(),
            files@.len() == i,
            ops@.len() == i,
            forall|k: int|
                0 <= k < i ==> {
                    &&& (#[trigger] files@[k])@.stem == g@.files[k].stem + seq!['T']
                    &&& files@[k]@.ext == g@.files[k].ext
                },
            forall|k: int|
                0 <= k < i ==> #[trigger] ops@[k]@ == OpV::Transitional(
                    TransRenameV { dir: g@.dir, old_name: g@.files[k], new_name: files@[k]@ },
                ),
        decreases g.files.len() - i,
    {
        let tn = transitional_name(&g.files[i]);
        proof {
            assert(g@.files[i as int] == g.files@[i as int]@);
        }
        ops.push(
            Op::Transitional(
                TransRename {
                    dir: clone_dir(&g.dir),
                    old_name: g.files[i].clone(),
                    new_name: tn.clone(),
                },
            ),
        );
        files.push(tn);
        proof {
            assert(ops@[i as int]@ =~~= OpV::Transitional(
                TransRenameV { dir: g@.dir, old_name: g@.files[i as int], new_name: files@[i as int]@ },
            ));
        }
        i = i + 1;
    }
    let out = DirGroup { dir: clone_dir(&g.dir), files };
    proof {
        assert forall|k: int| 0 <= k < out@.files.len() implies out@.files[k] == out.files@[k]@ by {}
        assert forall|k: int|
            0 <= k < ops@.len() implies #[trigger] ops_view(ops@)[k] == ops@[k]@ by {}
    }
    (out, ops)
}

/// Plans the final rename of one file: the identity in decimal becomes the
/// stem, the extension stays, and a fresh random modification time is
/// drawn.  When `strip_marker` is set the audit name is the on-disk name
/// with the transitional marker removed from the stem.
pub fn anonymize_op(
    dir: &Vec<String>,
    on_disk: &FileName,
    strip_marker: bool,
    identity: usize,
    now_secs: i64,
    rng: &mut rand::rngs::StdRng,
) -> (op: FinalRename)
    requires
        0 <= now_secs,
        1 <= identity,
    ensures
        op@.dir == dir.deep_view(),
        op@.old_name == on_disk@,
        op@.identity == identity,
        op@.audit_original == if strip_marker {
            unmarked(on_disk@)
        } else {
            on_disk@
        },
        final_wf(op@, now_secs as int),
{
    let t = fresh_mtime(now_secs, rng);
    let stem = u64_to_dec(identity as u64);
    let audit_stem = if strip_marker {
        strip_last(&on_disk.stem)
    } else {
        on_disk.stem.clone()
    };
    let op = FinalRename {
        dir: clone_dir(dir),
        old_name: on_disk.clone(),
        new_name: FileName { stem, ext: on_disk.ext.clone() },
        identity,
        audit_original: FileName { stem: audit_stem, ext: on_disk.ext.clone() },
        new_mtime_secs: t,
    };
    proof {
        if strip_marker {
            assert(op@.audit_original =~~= unmarked(on_disk@));
        } else {
            assert(op@.audit_original =~~= on_disk@);
        }
    }
    op
}

/// How many operations one pair yields: one per present member.
pub open spec fn pair_size(p: FilePairV) -> int {
    (if p.a is Some {
        1int
    } else {
        0int
    }) + (if p.b is Some {
        1int
    } else {
        0int
    })
}

/// How many operations the first `n` pairs yield.
pub open spec fn ops_before(pairs: Seq<FilePairV>, n: int) -> int
    decreases n,
{
    if n <= 0 {
        0
    } else {
        ops_before(pairs, n - 1) + pair_size(pairs[n - 1])
    }
}

/// Plans the final renames of one pair.  Both members receive the same
/// identity, so after anonymization they share the identical numeric stem,
/// each keeping its own extension; the member of `dir1` comes first.
pub fn plan_pair(
    dir1: &Vec<String>,
    dir2: &Vec<String>,
    pair: &FilePair,
    identity: usize,
    now_secs: i64,
    rng: &mut rand::rngs::StdRng,
) -> (ops: Vec<Op>)
    requires
        0 <= now_secs,
        1 <= identity,
    ensures
        ops@.len() == pair_size(pair@),
        forall|k: int|
            0 <= k < ops@.len() ==> op_wf(#[trigger] ops_view(ops@)[k], now_secs as int),
        pair@.a matches Some(f) ==> (ops_view(ops@)[0] matches OpV::Final(op) && op.dir
            == dir1.deep_view() && op.old_name == f && op.identity == identity),
        pair@.b matches Some(f) ==> (pair@.a is None ==> (ops_view(ops@)[0] matches OpV::Final(op)
            && op.dir == dir2.deep_view() && op.old_name == f && op.identity == identity)),
        pair@.b matches Some(f) ==> (pair@.a is Some ==> (ops_view(ops@)[1] matches OpV::Final(op)
            && op.dir == dir2.deep_view() && op.old_name == f && op.identity == identity)),
        pair@.a is Some && pair@.b is Some ==> (ops_view(ops@)[0] matches OpV::Final(opa)
            && ops_view(ops@)[1] matches OpV::Final(opb) && opa.new_name.stem == opb.new_name.stem),
        final_targets(ops_view(ops@)) == pair_target(pair@, dir1.deep_view(), dir2.deep_view()),
{
    let mut ops: Vec<Op> = Vec::new();
    if let Some(f) = &pair.a {
        let op = anonymize_op(dir1, f, true, identity, now_secs, rng);
        ops.push(Op::Final(op));
    }
    if let Some(f) = &pair.b {
        let op = anonymize_op(dir2, f, true, identity, now_secs, rng);
        ops.push(Op::Final(op));
    }
    proof {
        assert forall|k: int|
            0 <= k < ops@.len() implies #[trigger] ops_view(ops@)[k] == ops@[k]@ by {}
        let ov = ops_view(ops@);
        reveal_with_fuel(crate::tally::contrib_sum, 4);
        if ov.len() == 0 {
            assert(final_targets(ov) =~= pair_target(pair@, dir1.deep_view(), dir2.deep_view()));
        } else if ov.len() == 1 {
            assert(ov.drop_last() =~= Seq::<OpV>::empty());
            assert(final_targets(ov) == Multiset::empty().add(op_target(ov[0])));
            assert(final_targets(ov) =~= pair_target(pair@, dir1.deep_view(), dir2.deep_view()));
        } else {
            assert(ov.drop_last().drop_last() =~= Seq::<OpV>::empty());
            assert(final_targets(ov) == Multiset::empty().add(op_target(ov[0])).add(
                op_target(ov[1]),
            ));
            assert(final_targets(ov) =~= pair_target(pair@, dir1.deep_view(), dir2.deep_view()));
        }
    }
    ops
}

/// Operation `k` is a final rename of `f` inside `dir` with the identity
/// `ident`.
pub open spec fn final_op_at(
    ops: Seq<OpV>,
    k: int,
    dir: Seq<Seq<char>>,
    f: FileNameV,
    ident: int,
) -> bool {
    &&& 0 <= k < ops.len()
    &&& ops[k] matches OpV::Final(op) && op.dir == dir && op.old_name == f && op.identity == ident
}

/// The operations for the pair at `i` stand at its base offset: the member
/// of `d1` first, each with identity `i + 1`.
pub open spec fn pair_planned(
    ops: Seq<OpV>,
    pairs: Seq<FilePairV>,
    i: int,
    d1: Seq<Seq<char>>,
    d2: Seq<Seq<char>>,
) -> bool {
    let base = ops_before(pairs, i);
    let p = pairs[i];
    &&& (p.a matches Some(f) ==> final_op_at(ops, base, d1, f, i + 1))
    &&& (p.b matches Some(f) ==> (p.a is None ==> final_op_at(ops, base, d2, f, i + 1)))
    &&& (p.b matches Some(f) ==> (p.a is Some ==> final_op_at(ops, base + 1, d2, f, i + 1)))
}

/// Plans the final renames of a pair sequence: the pair at position `i`
/// receives identity `i + 1`, both members alike, the member of `dir1`
/// first.
#[verifier::rlimit(100)]
pub fn plan_pairs(
    dir1: &Vec<String>,
    dir2: &Vec<String>,
    pairs: &Vec<FilePair>,
    now_secs: i64,
    rng: &mut rand::rngs::StdRng,
) -> (ops: Vec<Op>)
    requires
        0 <= now_secs,
    ensures
        ops@.len() == ops_before(pairs_view(pairs@), pairs@.len() as int),
        forall|k: int|
            0 <= k < ops@.len() ==> op_wf(#[trigger] ops_view(ops@)[k], now_secs as int),
        forall|i: int|
            0 <= i < pairs@.len() ==> pair_planned(
                ops_view(ops@),
                pairs_view(pairs@),
                i,
                dir1.deep_view(),
                dir2.deep_view(),
            ),
        final_targets(ops_view(ops@)) == pairs_targets(
            pairs_view(pairs@),
            dir1.deep_view(),
            dir2.deep_view(),
        ),
{
    let ghost pv = pairs_view(pairs@);
    let mut ops: Vec<Op> = Vec::new();
    proof {
        assert(ops_view(ops@) =~= Seq::<OpV>::empty());
        assert(pv.take(0) =~= Seq::<FilePairV>::empty());
    }
    let mut i: usize = 0;
    while i < pairs.len()
        invariant
            i <= pairs.len(),
            0 <= now_secs,
            pv == pairs_view(pairs@),
            pv.len() == pairs.len(),
            ops@.len() == ops_before(pv, i as int),
            final_targets(ops_view(ops@)) == pairs_targets(
                pv.take(i as int),
                dir1.deep_view(),
                dir2.deep_view(),
            ),
            forall|k: int|
                0 <= k < ops@.len() ==> op_wf(#[trigger] ops_view(ops@)[k], now_secs as int),
            forall|j: int|
                0 <= j < i ==> pair_planned(
                    ops_view(ops@),
                    pv,
                    j,
                    dir1.deep_view(),
                    dir2.deep_view(),
                ),
        decreases pairs.len() - i,
    {
        let ghost ops0 = ops@;
        proof {
            lemma_ops_before_bounds(pv, i as int);
            assert(pairs@[i as int]@ == pv[i as int]);
        }
        let mut newops = plan_pair(dir1, dir2, &pairs[i], i + 1, now_secs, rng);
        let ghost nv = newops@;
        ops.append(&mut newops);
        proof {
            assert(ops@ == ops0 + nv);
            assert(ops_before(pv, i + 1) == ops_before(pv, i as int) + pair_size(pv[i as int]));
            assert forall|k: int| 0 <= k < ops0.len() implies #[trigger] ops_view(ops@)[k]
                == ops_view(ops0)[k] by {
                assert(ops_view(ops@)[k] == ops@[k]@);
                assert(ops@[k] == ops0[k]);
                assert(ops_view(ops0)[k] == ops0[k]@);
            }
            assert forall|k: int| 0 <= k < nv.len() implies #[trigger] ops_view(ops@)[ops0.len()
                + k] == ops_view(nv)[k] by {
                assert(ops_view(ops@)[ops0.len() + k] == ops@[ops0.len() + k]@);
                assert(ops@[ops0.len() + k] == nv[k]);
                assert(ops_view(nv)[k] == nv[k]@);
            }
            assert forall|k: int| 0 <= k < ops@.len() implies op_wf(
                #[trigger] ops_view(ops@)[k],
                now_secs as int,
            ) by {
                if k >= ops0.len() {
                    assert(ops_view(ops@)[k] == ops_view(nv)[k - ops0.len()]);
                }
            }
            crate::tally::lemma_contrib_sum_concat(
                ops_view(ops0),
                ops_view(nv),
                |op: OpV| op_target(op),
            );
            assert(ops_view(ops@) =~= ops_view(ops0) + ops_view(nv));
            assert(pv.take(i + 1).drop_last() =~= pv.take(i as int));
            assert(pv.take(i + 1).last() == pv[i as int]);
            assert(final_targets(ops_view(ops@)) =~= pairs_targets(
                pv.take(i + 1),
                dir1.deep_view(),
                dir2.deep_view(),
            ));
            lemma_ops_before_prefix(pv, i + 1);
            assert forall|j: int| 0 <= j < i + 1 implies pair_planned(
                ops_view(ops@),
                pv,
                j,
                dir1.deep_view(),
                dir2.deep_view(),
            ) by {
                let base = ops_before(pv, j);
                if j < i {
                    assert(pair_planned(ops_view(ops0), pv, j, dir1.deep_view(), dir2.deep_view()));
                    lemma_ops_before_prefix(pv, i as int);
                    assert(base + pair_size(pv[j]) <= ops0.len());
                    if pv[j].a is Some || pv[j].b is Some {
                        assert(ops_view(ops@)[base] == ops_view(ops0)[base]);
                    }
                    if pv[j].a is Some && pv[j].b is Some {
                        assert(ops_view(ops@)[base + 1] == ops_view(ops0)[base + 1]);
                    }
                } else {
                    assert(base == ops0.len());
                    if pv[j].a is Some || pv[j].b is Some {
                        assert(ops_view(ops@)[ops0.len() as int] == ops_view(nv)[0]);
                    }
                    if pv[j].a is Some && pv[j].b is Some {
                        assert(ops_view(ops@)[ops0.len() as int + 1] == ops_view(nv)[1]);
                    }
                }
            }
        }
        i = i + 1;
    }
    proof {
        assert(pv.take(pairs@.len() as int) =~= pv);
    }
    ops
}

proof fn lemma_ops_before_prefix(pairs: Seq<FilePairV>, n: int)
    requires
        0 <= n <= pairs.len(),
    ensures
        forall|j: int|
            0 <= j < n ==> ops_before(pairs, j) + pair_size(#[trigger] pairs[j]) <= ops_before(
                pairs,
                n,
            ),
    decreases n,
{
    if n > 0 {
        lemma_ops_before_prefix(pairs, n - 1);
    }
}


/// The files every group of a sibling set holds, each under its own
/// directory: what a complete plan must rename.
pub open spec fn all_targets(groups: Seq<DirGroupV>) -> Multiset<Target> {
    contrib_sum(groups, |g: DirGroupV| plain_targets(g.files, g.dir))
}

/// Removing a group removes exactly its files from the total.
pub proof fn lemma_all_targets_remove(groups: Seq<DirGroupV>, j: int)
    requires
        0 <= j < groups.len(),
    ensures
        all_targets(groups) == all_targets(groups.remove(j)).add(
            plain_targets(groups[j].files, groups[j].dir),
        ),
{
    lemma_contrib_sum_remove(groups, |g: DirGroupV| plain_targets(g.files, g.dir), j);
}

/// A plan concatenation covers the two parts' files together.
pub proof fn lemma_final_targets_concat(a: Seq<OpV>, b: Seq<OpV>)
    ensures
        final_targets(a + b) == final_targets(a).add(final_targets(b)),
{
    lemma_contrib_sum_concat(a, b, |op: OpV| op_target(op));
}

/// Transitional renames cover nothing.
pub proof fn lemma_final_targets_transitional(s: Seq<OpV>)
    requires
        forall|k: int| 0 <= k < s.len() ==> (#[trigger] s[k]) is Transitional,
    ensures
        final_targets(s) == Multiset::<Target>::empty(),
{
    assert forall|k: int|
        0 <= k < s.len() implies (|op: OpV| op_target(op))(#[trigger] s[k]) == Multiset::<
        Target,
    >::empty() by {}
    lemma_contrib_sum_zero(s, |op: OpV| op_target(op));
}

/// Reordered files keep the same targets.
pub proof fn lemma_plain_targets_multiset(s1: Seq<FileNameV>, s2: Seq<FileNameV>, dd: Seq<Seq<char>>)
    requires
        s1.to_multiset() == s2.to_multiset(),
    ensures
        plain_targets(s1, dd) == plain_targets(s2, dd),
{
    lemma_contrib_sum_multiset(s1, s2, |f: FileNameV| Multiset::empty().insert((dd, f)));
}

/// Reordered marked files keep the same targets.
pub proof fn lemma_marked_targets_multiset(
    s1: Seq<FileNameV>,
    s2: Seq<FileNameV>,
    dd: Seq<Seq<char>>,
)
    requires
        s1.to_multiset() == s2.to_multiset(),
    ensures
        marked_targets(s1, dd) == marked_targets(s2, dd),
{
    lemma_contrib_sum_multiset(s1, s2, |f: FileNameV| Multiset::empty().insert((dd, unmarked(f))));
}

/// Reordered pairs keep the same targets.
pub proof fn lemma_pairs_targets_multiset(
    s1: Seq<FilePairV>,
    s2: Seq<FilePairV>,
    dd1: Seq<Seq<char>>,
    dd2: Seq<Seq<char>>,
)
    requires
        s1.to_multiset() == s2.to_multiset(),
    ensures
        pairs_targets(s1, dd1, dd2) == pairs_targets(s2, dd1, dd2),
{
    lemma_contrib_sum_multiset(s1, s2, |p: FilePairV| pair_target(p, dd1, dd2));
}

/// Transitionally renamed files target exactly the original files.
pub proof fn lemma_marked_is_plain(
    marked_files: Seq<FileNameV>,
    original: Seq<FileNameV>,
    dd: Seq<Seq<char>>,
)
    requires
        marked_files.len() == original.len(),
        forall|k: int| 0 <= k < original.len() ==> unmarked(#[trigger] marked_files[k]) == original[k],
    ensures
        marked_targets(marked_files, dd) == plain_targets(original, dd),
{
    assert forall|k: int|
        0 <= k < marked_files.len() implies (|f: FileNameV|
        Multiset::empty().insert((dd, unmarked(f))))(#[trigger] marked_files[k]) == (|f: FileNameV|
        Multiset::empty().insert((dd, f)))(#[trigger] original[k]) by {}
    lemma_contrib_sum_pointwise(
        marked_files,
        original,
        |f: FileNameV| Multiset::empty().insert((dd, unmarked(f))),
        |f: FileNameV| Multiset::empty().insert((dd, f)),
    );
}

proof fn lemma_exact_pairs_targets(
    d1: Seq<FileNameV>,
    d2: Seq<FileNameV>,
    dd1: Seq<Seq<char>>,
    dd2: Seq<Seq<char>>,
)
    ensures
        pairs_targets(exact_pairs(d1, d2), dd1, dd2) == marked_targets(matched(d1, d2), dd1).add(
            marked_targets(matched(d1, d2), dd2),
        ),
    decreases d1.len(),
{
    if d1.len() == 0 {
        assert(pairs_targets(exact_pairs(d1, d2), dd1, dd2) =~= marked_targets(
            matched(d1, d2),
            dd1,
        ).add(marked_targets(matched(d1, d2), dd2)));
    } else {
        lemma_exact_pairs_targets(d1.drop_last(), d2, dd1, dd2);
        let x = d1.last();
        let ep = exact_pairs(d1, d2);
        let mt = matched(d1, d2);
        if d2.contains(x) {
            assert(ep.drop_last() =~= exact_pairs(d1.drop_last(), d2));
            assert(ep.last() == FilePairV { a: Some(x), b: Some(x) });
            assert(mt.drop_last() =~= matched(d1.drop_last(), d2));
            assert(mt.last() == x);
            assert(pairs_targets(ep, dd1, dd2) == pairs_targets(
                exact_pairs(d1.drop_last(), d2),
                dd1,
                dd2,
            ).add(pair_target(FilePairV { a: Some(x), b: Some(x) }, dd1, dd2)));
            assert(marked_targets(mt, dd1) == marked_targets(matched(d1.drop_last(), d2), dd1).add(
                Multiset::empty().insert((dd1, unmarked(x))),
            ));
            assert(marked_targets(mt, dd2) == marked_targets(matched(d1.drop_last(), d2), dd2).add(
                Multiset::empty().insert((dd2, unmarked(x))),
            ));
            assert(pairs_targets(ep, dd1, dd2) =~= marked_targets(mt, dd1).add(
                marked_targets(mt, dd2),
            ));
        } else {
            assert(ep =~= exact_pairs(d1.drop_last(), d2));
            assert(mt =~= matched(d1.drop_last(), d2));
        }
    }
}

proof fn lemma_matched_partition(d: Seq<FileNameV>, other: Seq<FileNameV>, dd: Seq<Seq<char>>)
    ensures
        marked_targets(matched(d, other), dd).add(marked_targets(unmatched(d, other), dd))
            == marked_targets(d, dd),
    decreases d.len(),
{
    if d.len() == 0 {
        assert(marked_targets(matched(d, other), dd).add(marked_targets(unmatched(d, other), dd))
            =~= marked_targets(d, dd));
    } else {
        lemma_matched_partition(d.drop_last(), other, dd);
        let x = d.last();
        assert(marked_targets(d, dd) == marked_targets(d.drop_last(), dd).add(
            Multiset::empty().insert((dd, unmarked(x))),
        ));
        if other.contains(x) {
            assert(matched(d, other).drop_last() =~= matched(d.drop_last(), other));
            assert(matched(d, other).last() == x);
            assert(unmatched(d, other) =~= unmatched(d.drop_last(), other));
            assert(marked_targets(matched(d, other), dd) == marked_targets(
                matched(d.drop_last(), other),
                dd,
            ).add(Multiset::empty().insert((dd, unmarked(x)))));
            assert(marked_targets(matched(d, other), dd).add(
                marked_targets(unmatched(d, other), dd),
            ) =~= marked_targets(d, dd));
        } else {
            assert(matched(d, other) =~= matched(d.drop_last(), other));
            assert(unmatched(d, other).drop_last() =~= unmatched(d.drop_last(), other));
            assert(unmatched(d, other).last() == x);
            assert(marked_targets(unmatched(d, other), dd) == marked_targets(
                unmatched(d.drop_last(), other),
                dd,
            ).add(Multiset::empty().insert((dd, unmarked(x)))));
            assert(marked_targets(matched(d, other), dd).add(
                marked_targets(unmatched(d, other), dd),
            ) =~= marked_targets(d, dd));
        }
    }
}

proof fn lemma_matched_count(d: Seq<FileNameV>, other: Seq<FileNameV>, x: FileNameV)
    requires
        distinct_names(d),
    ensures
        matched(d, other).to_multiset().count(x) == if d.contains(x) && other.contains(x) {
            1int
        } else {
            0int
        },
    decreases d.len(),
{
    broadcast use vstd::seq_lib::group_to_multiset_ensures;

    if d.len() == 0 {
        assert(!matched(d, other).contains(x));
        assert(matched(d, other).to_multiset().count(x) == 0);
    } else {
        assert(distinct_names(d.drop_last())) by {
            assert forall|i: int, j: int|
                0 <= i < j < d.drop_last().len() implies d.drop_last()[i] != d.drop_last()[j] by {
                assert(d.drop_last()[i] == d[i] && d.drop_last()[j] == d[j]);
            }
        }
        lemma_matched_count(d.drop_last(), other, x);
        let y = d.last();
        let rest = matched(d.drop_last(), other);
        if other.contains(y) {
            assert(matched(d, other) =~= rest.push(y));
            assert(rest.push(y).to_multiset() == rest.to_multiset().insert(y));
            if x == y {
                assert(!d.drop_last().contains(y)) by {
                    if d.drop_last().contains(y) {
                        let w = choose|w: int| 0 <= w < d.drop_last().len() && d.drop_last()[w] == y;
                        assert(d[w] == d[d.len() - 1]);
                    }
                }
                assert(rest.to_multiset().count(y) == 0);
                assert(d.contains(y));
            } else {
                if d.contains(x) {
                    let w = choose|w: int| 0 <= w < d.len() && d[w] == x;
                    assert(d.drop_last()[w] == x);
                    assert(d.drop_last().contains(x));
                }
                if d.drop_last().contains(x) {
                    assert(d.contains(x));
                }
            }
        } else {
            assert(matched(d, other) =~= rest);
            if x == y {
            } else {
                if d.contains(x) {
                    let w = choose|w: int| 0 <= w < d.len() && d[w] == x;
                    assert(d.drop_last()[w] == x);
                    assert(d.drop_last().contains(x));
                }
                if d.drop_last().contains(x) {
                    assert(d.contains(x));
                }
            }
        }
    }
}

proof fn lemma_matched_swap(d1: Seq<FileNameV>, d2: Seq<FileNameV>)
    requires
        distinct_names(d1),
        distinct_names(d2),
    ensures
        matched(d1, d2).to_multiset() == matched(d2, d1).to_multiset(),
{
    assert forall|x: FileNameV|
        matched(d1, d2).to_multiset().count(x) == matched(d2, d1).to_multiset().count(x) by {
        lemma_matched_count(d1, d2, x);
        lemma_matched_count(d2, d1, x);
    }
    assert(matched(d1, d2).to_multiset() =~= matched(d2, d1).to_multiset());
}

/// One matched round covers both directories' files completely: the
/// exact-name pairs plus each side's unmatched residue target exactly the
/// (marked) files of the two directories.
pub proof fn lemma_round_coverage(
    d1t: Seq<FileNameV>,
    d2t: Seq<FileNameV>,
    dd1: Seq<Seq<char>>,
    dd2: Seq<Seq<char>>,
)
    requires
        distinct_names(d1t),
        distinct_names(d2t),
    ensures
        pairs_targets(exact_pairs(d1t, d2t), dd1, dd2).add(
            marked_targets(unmatched(d1t, d2t), dd1),
        ).add(marked_targets(unmatched(d2t, d1t), dd2)) == marked_targets(d1t, dd1).add(
            marked_targets(d2t, dd2),
        ),
{
    lemma_exact_pairs_targets(d1t, d2t, dd1, dd2);
    lemma_matched_partition(d1t, d2t, dd1);
    lemma_matched_partition(d2t, d1t, dd2);
    lemma_matched_swap(d1t, d2t);
    lemma_marked_targets_multiset(matched(d1t, d2t), matched(d2t, d1t), dd2);
    assert(pairs_targets(exact_pairs(d1t, d2t), dd1, dd2).add(
        marked_targets(unmatched(d1t, d2t), dd1),
    ).add(marked_targets(unmatched(d2t, d1t), dd2)) =~= marked_targets(d1t, dd1).add(
        marked_targets(d2t, dd2),
    ));
}

proof fn lemma_ops_before_bounds(pairs: Seq<FilePairV>, n: int)
    requires
        0 <= n <= pairs.len(),
    ensures
        0 <= ops_before(pairs, n) <= 2 * n,
    decreases n,
{
    if n > 0 {
        lemma_ops_before_bounds(pairs, n - 1);
    }
}

} // verus!
