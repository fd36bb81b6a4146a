//! The directory matcher: pairwise affinity between sibling directory
//! groups, ranked relations, and removal of a matched pair of groups.
//!
//! For every directory group the affinity against each group appearing
//! after it is computed (each unordered pair compared once); a group's
//! candidate list is sorted by descending affinity, and the relations list
//! is sorted by ascending best affinity, both with stable insertion, so
//! ties keep the relative order produced by grouping.  The caller selects
//! the last relation (globally highest best score) and pairs it with its
//! first candidate.

use vstd::prelude::*;
use vstd::seq_lib::lemma_multiset_commutative;
use crate::model::{DirGroup, DirGroupV, FileName, FileNameV, names_view, groups_view, distinct_dirs, dirs_equal, clone_dir, contains_name, contains_name_upto};

verus! {

/// One affinity entry: another group's directory and the count of shared
/// filenames.
pub struct Candidate {
    pub dir: Vec<String>,
    pub count: usize,
}

/// Mathematical value of a [`Candidate`].
#[verifier::ext_equal]
pub struct CandidateV {
    pub dir: Seq<Seq<char>>,
    pub count: nat,
}

impl View for Candidate {
    type V = CandidateV;

    open spec fn view(&self) -> CandidateV {
        CandidateV { dir: self.dir.deep_view(), count: self.count as nat }
    }
}

/// One group's affinity relation: its directory and its ranked candidates.
pub struct Relation {
    pub dir: Vec<String>,
    pub candidates: Vec<Candidate>,
}

/// Mathematical value of a [`Relation`].
#[verifier::ext_equal]
pub struct RelationV {
    pub dir: Seq<Seq<char>>,
    pub candidates: Seq<CandidateV>,
}

impl View for Relation {
    type V = RelationV;

    open spec fn view(&self) -> RelationV {
        RelationV { dir: self.dir.deep_view(), candidates: cands_view(self.candidates@) }
    }
}

/// The candidates of a sequence, as mathematical values.
pub open spec fn cands_view(s: Seq<Candidate>) -> Seq<CandidateV> {
    s.map_values(|c: Candidate| c@)
}

/// The relations of a sequence, as mathematical values.
pub open spec fn rels_view(s: Seq<Relation>) -> Seq<RelationV> {
    s.map_values(|r: Relation| r@)
}

/// The number of distinct names of `b` that also occur in `a`: the affinity
/// of the two directory groups.
pub open spec fn matching_count(a: Seq<FileNameV>, b: Seq<FileNameV>) -> nat
    decreases b.len(),
{
    if b.len() == 0 {
        0
    } else {
        matching_count(a, b.drop_last()) + if a.contains(b.last()) && !b.drop_last().contains(
            b.last(),
        ) {
            1nat
        } else {
            0nat
        }
    }
}

proof fn lemma_matching_count_bound(a: Seq<FileNameV>, b: Seq<FileNameV>)
    ensures
        matching_count(a, b) <= b.len(),
    decreases b.len(),
{
    if b.len() > 0 {
        lemma_matching_count_bound(a, b.drop_last());
    }
}

/// Counts the names shared by the two directories: the number of distinct
/// names of `b` that also occur in `a`.
pub fn count_matching_files(a: &Vec<FileName>, b: &Vec<FileName>) -> (c: usize)
    ensures
        c == matching_count(names_view(a@), names_view(b@)),
{
    let ghost av = names_view(a@);
    let ghost bv = names_view(b@);
    let mut c: usize = 0;
    let mut i: usize = 0;
    while i < b.len()
        invariant
            i <= b.len(),
            av == names_view(a@),
            bv == names_view(b@),
            bv.len() == b.len(),
            c == matching_count(av, bv.take(i as int)),
            c <= i,
        decreases b.len() - i,
    {
        proof {
            lemma_matching_count_bound(av, bv.take(i as int));
            assert(bv.take(i + 1).drop_last() =~= bv.take(i as int));
            assert(bv.take(i + 1).last() == bv[i as int]);
        }
        if contains_name(a, &b[i]) && !contains_name_upto(b, &b[i], i) {
            c = c + 1;
        }
        i = i + 1;
    }
    proof {
        assert(bv.take(b.len() as int) =~= bv);
    }
    c
}

/// Stable insertion of a candidate into a descending-by-count list: the new
/// entry goes after every entry with an equal or higher count.
pub open spec fn cand_insert_desc(s: Seq<CandidateV>, x: CandidateV) -> Seq<CandidateV>
    decreases s.len(),
{
    if s.len() == 0 {
        seq![x]
    } else if s[0].count >= x.count {
        seq![s[0]] + cand_insert_desc(s.drop_first(), x)
    } else {
        seq![x] + s
    }
}

/// Stable sort of candidates by descending count.
pub open spec fn sort_candidates_desc(s: Seq<CandidateV>) -> Seq<CandidateV>
    decreases s.len(),
{
    if s.len() == 0 {
        Seq::empty()
    } else {
        cand_insert_desc(sort_candidates_desc(s.drop_last()), s.last())
    }
}

proof fn lemma_cand_insert_at(s: Seq<CandidateV>, x: CandidateV, p: int)
    requires
        0 <= p <= s.len(),
        forall|k: int| 0 <= k < p ==> s[k].count >= x.count,
        p < s.len() ==> s[p].count < x.count,
    ensures
        cand_insert_desc(s, x) == s.take(p) + seq![x] + s.skip(p),
    decreases p,
{
    if p == 0 {
        if s.len() == 0 {
            assert(cand_insert_desc(s, x) =~= s.take(0) + seq![x] + s.skip(0));
        } else {
            assert(cand_insert_desc(s, x) =~= s.take(0) + seq![x] + s.skip(0));
        }
    } else {
        lemma_cand_insert_at(s.drop_first(), x, p - 1);
        assert(seq![s[0]] + (s.drop_first().take(p - 1) + seq![x] + s.drop_first().skip(p - 1))
            =~= s.take(p) + seq![x] + s.skip(p));
        assert(cand_insert_desc(s, x) =~= s.take(p) + seq![x] + s.skip(p));
    }
}

fn insert_candidate(v: &mut Vec<Candidate>, x: Candidate)
    ensures
        cands_view(final(v)@) == cand_insert_desc(cands_view(old(v)@), x@),
{
    let ghost sv = cands_view(v@);
    let mut p: usize = 0;
    while p < v.len() && v[p].count >= x.count
        invariant
            p <= v.len(),
            sv == cands_view(v@),
            sv.len() == v.len(),
            forall|k: int| 0 <= k < p ==> sv[k].count >= x@.count,
        decreases v.len() - p,
    {
        p = p + 1;
    }
    proof {
        lemma_cand_insert_at(sv, x@, p as int);
    }
    v.insert(p, x);
    proof {
        assert(cands_view(v@) =~= sv.take(p as int) + seq![x@] + sv.skip(p as int));
    }
}

/// Sorts candidates by descending count with stable insertion.
pub fn sort_candidates(input: Vec<Candidate>) -> (r: Vec<Candidate>)
    ensures
        cands_view(r@) == sort_candidates_desc(cands_view(input@)),
{
    let ghost full = cands_view(input@);
    let mut rest = input;
    let mut r: Vec<Candidate> = Vec::new();
    let ghost mut done: Seq<CandidateV> = Seq::empty();
    proof {
        assert(done + cands_view(rest@) =~= full);
        assert(cands_view(r@) =~= sort_candidates_desc(done));
    }
    while rest.len() > 0
        invariant
            done + cands_view(rest@) == full,
            cands_view(r@) == sort_candidates_desc(done),
        decreases rest.len(),
    {
        let ghost rest0 = cands_view(rest@);
        let x = rest.remove(0);
        proof {
            assert(cands_view(rest@) =~= rest0.drop_first());
            assert(done.push(x@) + cands_view(rest@) =~= full);
            assert(done.push(x@).drop_last() =~= done);
        }
        insert_candidate(&mut r, x);
        proof {
            done = done.push(x@);
        }
    }
    proof {
        assert(done =~= full);
    }
    r
}

/// The best (first, highest) affinity score of a relation; zero when the
/// candidate list is empty.
pub open spec fn rel_best(r: RelationV) -> nat {
    if r.candidates.len() == 0 {
        0
    } else {
        r.candidates[0].count
    }
}

/// The best affinity score of a relation.
pub fn best_of(r: &Relation) -> (c: usize)
    ensures
        c as nat == rel_best(r@),
{
    if r.candidates.len() == 0 {
        0
    } else {
        r.candidates[0].count
    }
}

/// Stable insertion of a relation into an ascending-by-best-score list: the
/// new entry goes after every entry with an equal or lower best score.
pub open spec fn rel_insert_asc(s: Seq<RelationV>, x: RelationV) -> Seq<RelationV>
    decreases s.len(),
{
    if s.len() == 0 {
        seq![x]
    } else if rel_best(s[0]) <= rel_best(x) {
        seq![s[0]] + rel_insert_asc(s.drop_first(), x)
    } else {
        seq![x] + s
    }
}

/// Stable sort of relations by ascending best score.
pub open spec fn sort_relations_asc(s: Seq<RelationV>) -> Seq<RelationV>
    decreases s.len(),
{
    if s.len() == 0 {
        Seq::empty()
    } else {
        rel_insert_asc(sort_relations_asc(s.drop_last()), s.last())
    }
}

proof fn lemma_rel_insert_at(s: Seq<RelationV>, x: RelationV, p: int)
    requires
        0 <= p <= s.len(),
        forall|k: int| 0 <= k < p ==> rel_best(s[k]) <= rel_best(x),
        p < s.len() ==> rel_best(s[p]) > rel_best(x),
    ensures
        rel_insert_asc(s, x) == s.take(p) + seq![x] + s.skip(p),
    decreases p,
{
    if p == 0 {
        assert(rel_insert_asc(s, x) =~= s.take(0) + seq![x] + s.skip(0));
    } else {
        lemma_rel_insert_at(s.drop_first(), x, p - 1);
        assert(seq![s[0]] + (s.drop_first().take(p - 1) + seq![x] + s.drop_first().skip(p - 1))
            =~= s.take(p) + seq![x] + s.skip(p));
        assert(rel_insert_asc(s, x) =~= s.take(p) + seq![x] + s.skip(p));
    }
}

fn insert_relation(v: &mut Vec<Relation>, x: Relation)
    ensures
        rels_view(final(v)@) == rel_insert_asc(rels_view(old(v)@), x@),
{
    let ghost sv = rels_view(v@);
    let xb = best_of(&x);
    let mut p: usize = 0;
    while p < v.len() && best_of(&v[p]) <= xb
        invariant
            p <= v.len(),
            sv == rels_view(v@),
            sv.len() == v.len(),
            xb as nat == rel_best(x@),
            forall|k: int| 0 <= k < p ==> rel_best(sv[k]) <= rel_best(x@),
        decreases v.len() - p,
    {
        p = p + 1;
    }
    proof {
        lemma_rel_insert_at(sv, x@, p as int);
    }
    v.insert(p, x);
    proof {
        assert(rels_view(v@) =~= sv.take(p as int) + seq![x@] + sv.skip(p as int));
    }
}

/// Sorts relations by ascending best score with stable insertion.
pub fn sort_relations(input: Vec<Relation>) -> (r: Vec<Relation>)
    ensures
        rels_view(r@) == sort_relations_asc(rels_view(input@)),
{
    let ghost full = rels_view(input@);
    let mut rest = input;
    let mut r: Vec<Relation> = Vec::new();
    let ghost mut done: Seq<RelationV> = Seq::empty();
    proof {
        assert(done + rels_view(rest@) =~= full);
        assert(rels_view(r@) =~= sort_relations_asc(done));
    }
    while rest.len() > 0
        invariant
            done + rels_view(rest@) == full,
            rels_view(r@) == sort_relations_asc(done),
        decreases rest.len(),
    {
        let ghost rest0 = rels_view(rest@);
        let x = rest.remove(0);
        proof {
            assert(x@ == rest0[0]);
            assert(rels_view(rest@) =~= rest0.drop_first());
            assert(done.push(x@) + rels_view(rest@) =~= full);
            assert(done.push(x@).drop_last() =~= done);
        }
        insert_relation(&mut r, x);
        proof {
            done = done.push(x@);
        }
    }
    proof {
        assert(done =~= full);
    }
    r
}

/// The unsorted candidate list of the group at `i`: one entry per group
/// appearing after it, with the shared-filename count.
pub open spec fn raw_candidates(dirs: Seq<DirGroupV>, i: int) -> Seq<CandidateV> {
    Seq::new(
        (dirs.len() - 1 - i) as nat,
        |k: int|
            CandidateV {
                dir: dirs[i + 1 + k].dir,
                count: matching_count(dirs[i + 1 + k].files, dirs[i].files),
            },
    )
}

/// The affinity relation of the group at `i`: its directory and its
/// candidates sorted by descending count.
pub open spec fn relation_of(dirs: Seq<DirGroupV>, i: int) -> RelationV {
    RelationV { dir: dirs[i].dir, candidates: sort_candidates_desc(raw_candidates(dirs, i)) }
}

/// The relations of all groups but the last (which has no later peer), in
/// grouping order.
pub open spec fn raw_relations(dirs: Seq<DirGroupV>) -> Seq<RelationV> {
    Seq::new((dirs.len() - 1) as nat, |i: int| relation_of(dirs, i))
}

/// The full matcher result for two or more groups: the relations sorted by
/// ascending best score.
pub open spec fn spec_relate(dirs: Seq<DirGroupV>) -> Seq<RelationV> {
    sort_relations_asc(raw_relations(dirs))
}

/// The single relation reported when only one group remains: an empty
/// candidate list, the signal for the orphan case.
pub open spec fn single_relation(g: DirGroupV) -> RelationV {
    RelationV { dir: g.dir, candidates: Seq::empty() }
}

/// Ranks every directory group of a sibling set against the groups after
/// it.  Returns nothing when the set is empty; for a single group, one
/// relation with no candidates; otherwise the relations sorted ascending by
/// each group's best score, candidates sorted descending, ties keeping
/// grouping order.  The result is pinned to [`spec_relate`], so a rerun on
/// the same candidate set returns the same ranking.
pub fn relate(dirs: &Vec<DirGroup>) -> (r: Option<Vec<Relation>>)
    ensures
        (r is Some) == (dirs@.len() > 0),
        r matches Some(rels) ==> {
            &&& dirs@.len() == 1 ==> rels_view(rels@) == seq![
                single_relation(groups_view(dirs@)[0]),
            ]
            &&& dirs@.len() >= 2 ==> rels_view(rels@) == spec_relate(groups_view(dirs@))
        },
{
    if dirs.len() == 0 {
        return None;
    }
    if dirs.len() == 1 {
        let mut rels: Vec<Relation> = Vec::new();
        rels.push(Relation { dir: clone_dir(&dirs[0].dir), candidates: Vec::new() });
        proof {
            assert(cands_view(Seq::<Candidate>::empty()) =~= Seq::<CandidateV>::empty());
            assert(rels_view(rels@) =~~= seq![single_relation(groups_view(dirs@)[0])]);
        }
        return Some(rels);
    }
    let ghost gv = groups_view(dirs@);
    let mut rels: Vec<Relation> = Vec::new();
    let mut i: usize = 0;
    while i < dirs.len() - 1
        invariant
            gv == groups_view(dirs@),
            gv.len() == dirs.len(),
            dirs.len() >= 2,
            i <= dirs.len() - 1,
            rels@.len() == i,
            forall|k: int| 0 <= k < i ==> #[trigger] rels@[k]@ == raw_relations(gv)[k],
        decreases dirs.len() - 1 - i,
    {
        let mut cands: Vec<Candidate> = Vec::new();
        let mut j: usize = i + 1;
        while j < dirs.len()
            invariant
                gv == groups_view(dirs@),
                gv.len() == dirs.len(),
                i < dirs.len() - 1,
                i + 1 <= j <= dirs.len(),
                cands@.len() == j - i - 1,
                forall|k: int|
                    0 <= k < j - i - 1 ==> #[trigger] cands@[k]@ == raw_candidates(gv, i as int)[k],
            decreases dirs.len() - j,
        {
            let count = count_matching_files(&dirs[j].files, &dirs[i].files);
            cands.push(Candidate { dir: clone_dir(&dirs[j].dir), count });
            proof {
                assert(gv[j as int] == dirs@[j as int]@);
                assert(gv[i as int] == dirs@[i as int]@);
                assert(cands@[j - i - 1]@ =~~= raw_candidates(gv, i as int)[j - i - 1]);
            }
            j = j + 1;
        }
        proof {
            assert forall|k: int|
                0 <= k < cands@.len() implies cands_view(cands@)[k] == raw_candidates(
                gv,
                i as int,
            )[k] by {
                assert(cands_view(cands@)[k] == cands@[k]@);
            }
            assert(cands_view(cands@) =~= raw_candidates(gv, i as int));
        }
        let sorted = sort_candidates(cands);
        rels.push(Relation { dir: clone_dir(&dirs[i].dir), candidates: sorted });
        proof {
            assert(gv[i as int] == dirs@[i as int]@);
            assert(rels@[i as int]@ =~~= raw_relations(gv)[i as int]);
        }
        i = i + 1;
    }
    proof {
        assert forall|k: int|
            0 <= k < rels@.len() implies rels_view(rels@)[k] == raw_relations(gv)[k] by {
            assert(rels_view(rels@)[k] == rels@[k]@);
        }
        assert(rels_view(rels@) =~= raw_relations(gv));
    }
    let sorted = sort_relations(rels);
    Some(sorted)
}

proof fn lemma_cand_insert_multiset(s: Seq<CandidateV>, x: CandidateV)
    ensures
        cand_insert_desc(s, x).to_multiset() == s.to_multiset().insert(x),
    decreases s.len(),
{
    broadcast use vstd::seq_lib::group_to_multiset_ensures;

    if s.len() == 0 {
        assert(seq![x] =~= Seq::<CandidateV>::empty().push(x));
    } else if s[0].count >= x.count {
        lemma_cand_insert_multiset(s.drop_first(), x);
        lemma_multiset_commutative(seq![s[0]], cand_insert_desc(s.drop_first(), x));
        lemma_multiset_commutative(seq![s[0]], s.drop_first());
        assert(seq![s[0]] + s.drop_first() =~= s);
        assert(cand_insert_desc(s, x).to_multiset() =~= s.to_multiset().insert(x));
    } else {
        lemma_multiset_commutative(seq![x], s);
        assert(seq![x] =~= Seq::<CandidateV>::empty().push(x));
        assert(cand_insert_desc(s, x).to_multiset() =~= s.to_multiset().insert(x));
    }
}

proof fn lemma_cand_sort_multiset(s: Seq<CandidateV>)
    ensures
        sort_candidates_desc(s).to_multiset() == s.to_multiset(),
        sort_candidates_desc(s).len() == s.len(),
    decreases s.len(),
{
    broadcast use vstd::seq_lib::group_to_multiset_ensures;

    if s.len() > 0 {
        lemma_cand_sort_multiset(s.drop_last());
        lemma_cand_insert_multiset(sort_candidates_desc(s.drop_last()), s.last());
        assert(s.drop_last().push(s.last()) =~= s);
    }
    assert(sort_candidates_desc(s).len() == sort_candidates_desc(s).to_multiset().len());
    assert(s.len() == s.to_multiset().len());
}

proof fn lemma_rel_insert_multiset(s: Seq<RelationV>, x: RelationV)
    ensures
        rel_insert_asc(s, x).to_multiset() == s.to_multiset().insert(x),
    decreases s.len(),
{
    broadcast use vstd::seq_lib::group_to_multiset_ensures;

    if s.len() == 0 {
        assert(seq![x] =~= Seq::<RelationV>::empty().push(x));
    } else if rel_best(s[0]) <= rel_best(x) {
        lemma_rel_insert_multiset(s.drop_first(), x);
        lemma_multiset_commutative(seq![s[0]], rel_insert_asc(s.drop_first(), x));
        lemma_multiset_commutative(seq![s[0]], s.drop_first());
        assert(seq![s[0]] + s.drop_first() =~= s);
        assert(rel_insert_asc(s, x).to_multiset() =~= s.to_multiset().insert(x));
    } else {
        lemma_multiset_commutative(seq![x], s);
        assert(seq![x] =~= Seq::<RelationV>::empty().push(x));
        assert(rel_insert_asc(s, x).to_multiset() =~= s.to_multiset().insert(x));
    }
}

proof fn lemma_rel_sort_multiset(s: Seq<RelationV>)
    ensures
        sort_relations_asc(s).to_multiset() == s.to_multiset(),
        sort_relations_asc(s).len() == s.len(),
    decreases s.len(),
{
    broadcast use vstd::seq_lib::group_to_multiset_ensures;

    if s.len() > 0 {
        lemma_rel_sort_multiset(s.drop_last());
        lemma_rel_insert_multiset(sort_relations_asc(s.drop_last()), s.last());
        assert(s.drop_last().push(s.last()) =~= s);
    }
    assert(sort_relations_asc(s).len() == sort_relations_asc(s).to_multiset().len());
    assert(s.len() == s.to_multiset().len());
}

/// The candidates are ordered by descending count.
pub open spec fn cands_sorted_desc(s: Seq<CandidateV>) -> bool {
    forall|i: int, j: int| 0 <= i <= j < s.len() ==> s[i].count >= s[j].count
}

/// The relations are ordered by ascending best score.
pub open spec fn rels_sorted_asc(s: Seq<RelationV>) -> bool {
    forall|i: int, j: int| 0 <= i <= j < s.len() ==> rel_best(s[i]) <= rel_best(s[j])
}

proof fn lemma_cand_insert_sorted(s: Seq<CandidateV>, x: CandidateV)
    requires
        cands_sorted_desc(s),
    ensures
        cands_sorted_desc(cand_insert_desc(s, x)),
    decreases s.len(),
{
    broadcast use vstd::seq_lib::group_to_multiset_ensures;

    if s.len() == 0 {
    } else if s[0].count >= x.count {
        assert(cands_sorted_desc(s.drop_first()));
        lemma_cand_insert_sorted(s.drop_first(), x);
        lemma_cand_insert_multiset(s.drop_first(), x);
        let r = cand_insert_desc(s, x);
        let t = cand_insert_desc(s.drop_first(), x);
        assert forall|i: int, j: int| 0 <= i <= j < r.len() implies r[i].count >= r[j].count by {
            if i == 0 && j > 0 {
                assert(r[j] == t[j - 1]);
                assert(t.contains(t[j - 1]));
                assert(t.to_multiset().count(t[j - 1]) > 0);
                assert(s.drop_first().contains(t[j - 1]) || t[j - 1] == x);
                if s.drop_first().contains(t[j - 1]) {
                    let w = choose|w: int|
                        0 <= w < s.drop_first().len() && s.drop_first()[w] == t[j - 1];
                    assert(s[w + 1] == t[j - 1]);
                }
            } else if i > 0 {
                assert(r[i] == t[i - 1] && r[j] == t[j - 1]);
            }
        }
    } else {
        let r = cand_insert_desc(s, x);
        assert forall|i: int, j: int| 0 <= i <= j < r.len() implies r[i].count >= r[j].count by {
            if i == 0 && j > 0 {
                assert(r[j] == s[j - 1]);
            } else if i > 0 {
                assert(r[i] == s[i - 1] && r[j] == s[j - 1]);
            }
        }
    }
}

proof fn lemma_cand_sort_sorted(s: Seq<CandidateV>)
    ensures
        cands_sorted_desc(sort_candidates_desc(s)),
    decreases s.len(),
{
    if s.len() > 0 {
        lemma_cand_sort_sorted(s.drop_last());
        lemma_cand_insert_sorted(sort_candidates_desc(s.drop_last()), s.last());
    }
}

proof fn lemma_rel_insert_sorted(s: Seq<RelationV>, x: RelationV)
    requires
        rels_sorted_asc(s),
    ensures
        rels_sorted_asc(rel_insert_asc(s, x)),
    decreases s.len(),
{
    broadcast use vstd::seq_lib::group_to_multiset_ensures;

    if s.len() == 0 {
    } else if rel_best(s[0]) <= rel_best(x) {
        assert(rels_sorted_asc(s.drop_first()));
        lemma_rel_insert_sorted(s.drop_first(), x);
        lemma_rel_insert_multiset(s.drop_first(), x);
        let r = rel_insert_asc(s, x);
        let t = rel_insert_asc(s.drop_first(), x);
        assert forall|i: int, j: int| 0 <= i <= j < r.len() implies rel_best(r[i]) <= rel_best(
            r[j],
        ) by {
            if i == 0 && j > 0 {
                assert(r[j] == t[j - 1]);
                assert(t.contains(t[j - 1]));
                assert(t.to_multiset().count(t[j - 1]) > 0);
                assert(s.drop_first().contains(t[j - 1]) || t[j - 1] == x);
                if s.drop_first().contains(t[j - 1]) {
                    let w = choose|w: int|
                        0 <= w < s.drop_first().len() && s.drop_first()[w] == t[j - 1];
                    assert(s[w + 1] == t[j - 1]);
                }
            } else if i > 0 {
                assert(r[i] == t[i - 1] && r[j] == t[j - 1]);
            }
        }
    } else {
        let r = rel_insert_asc(s, x);
        assert forall|i: int, j: int| 0 <= i <= j < r.len() implies rel_best(r[i]) <= rel_best(
            r[j],
        ) by {
            if i == 0 && j > 0 {
                assert(r[j] == s[j - 1]);
            } else if i > 0 {
                assert(r[i] == s[i - 1] && r[j] == s[j - 1]);
            }
        }
    }
}

proof fn lemma_rel_sort_sorted(s: Seq<RelationV>)
    ensures
        rels_sorted_asc(sort_relations_asc(s)),
    decreases s.len(),
{
    if s.len() > 0 {
        lemma_rel_sort_sorted(s.drop_last());
        lemma_rel_insert_sorted(sort_relations_asc(s.drop_last()), s.last());
    }
}

/// Law: the matcher's relations come out sorted ascending by best score, so
/// the selected relation — the last one — carries the globally highest best
/// score of the round.
pub proof fn lemma_selected_relation_best(dirs: Seq<DirGroupV>)
    requires
        dirs.len() >= 2,
    ensures
        spec_relate(dirs).len() == dirs.len() - 1,
        rels_sorted_asc(spec_relate(dirs)),
        forall|k: int|
            0 <= k < spec_relate(dirs).len() ==> rel_best(#[trigger] spec_relate(dirs)[k])
                <= rel_best(spec_relate(dirs).last()),
{
    lemma_rel_sort_multiset(raw_relations(dirs));
    lemma_rel_sort_sorted(raw_relations(dirs));
}

/// Law: every relation the matcher produces is one of the raw relations:
/// its directory is a group's directory, its candidates are the later
/// groups' directories with their shared-filename counts, sorted by
/// descending count.
pub proof fn lemma_relate_membership(dirs: Seq<DirGroupV>, k: int)
    requires
        dirs.len() >= 2,
        0 <= k < spec_relate(dirs).len(),
    ensures
        exists|i: int|
            0 <= i < dirs.len() - 1 && #[trigger] spec_relate(dirs)[k] == relation_of(dirs, i),
{
    broadcast use vstd::seq_lib::group_to_multiset_ensures;

    lemma_rel_sort_multiset(raw_relations(dirs));
    let s = spec_relate(dirs);
    assert(s.contains(s[k]));
    assert(s.to_multiset().count(s[k]) > 0);
    assert(raw_relations(dirs).contains(s[k]));
    let i = choose|i: int| 0 <= i < raw_relations(dirs).len() && raw_relations(dirs)[i] == s[k];
    assert(raw_relations(dirs)[i] == relation_of(dirs, i));
    assert(spec_relate(dirs)[k] == relation_of(dirs, i));
}

/// Law: the candidates of the group at `i` are ranked by descending count,
/// and each names a group appearing after `i`.
pub proof fn lemma_relation_of_candidates(dirs: Seq<DirGroupV>, i: int)
    requires
        0 <= i < dirs.len() - 1,
    ensures
        relation_of(dirs, i).dir == dirs[i].dir,
        relation_of(dirs, i).candidates.len() == dirs.len() - 1 - i,
        cands_sorted_desc(relation_of(dirs, i).candidates),
        forall|c: int|
            0 <= c < relation_of(dirs, i).candidates.len() ==> exists|j: int|
                i < j < dirs.len() && (#[trigger] relation_of(dirs, i).candidates[c]).dir
                    == dirs[j].dir,
{
    broadcast use vstd::seq_lib::group_to_multiset_ensures;

    lemma_cand_sort_multiset(raw_candidates(dirs, i));
    lemma_cand_sort_sorted(raw_candidates(dirs, i));
    let cs = relation_of(dirs, i).candidates;
    assert forall|c: int| 0 <= c < cs.len() implies exists|j: int|
        i < j < dirs.len() && (#[trigger] cs[c]).dir == dirs[j].dir by {
        assert(cs.contains(cs[c]));
        assert(cs.to_multiset().count(cs[c]) > 0);
        assert(raw_candidates(dirs, i).contains(cs[c]));
        let k = choose|k: int|
            0 <= k < raw_candidates(dirs, i).len() && raw_candidates(dirs, i)[k] == cs[c];
        assert(cs[c].dir == dirs[i + 1 + k].dir);
    }
}

fn find_dir_index(dirs: &Vec<DirGroup>, d: &Vec<String>) -> (i: usize)
    requires
        exists|k: int|
            0 <= k < dirs@.len() && (#[trigger] groups_view(dirs@)[k]).dir == d.deep_view(),
    ensures
        i < dirs@.len(),
        groups_view(dirs@)[i as int].dir == d.deep_view(),
{
    let mut i: usize = 0;
    while i < dirs.len()
        invariant
            i <= dirs.len(),
            exists|k: int|
                0 <= k < dirs@.len() && (#[trigger] groups_view(dirs@)[k]).dir == d.deep_view(),
            forall|k: int| 0 <= k < i ==> (#[trigger] groups_view(dirs@)[k]).dir != d.deep_view(),
        decreases dirs.len() - i,
    {
        if dirs_equal(&dirs[i].dir, d) {
            proof {
                assert(groups_view(dirs@)[i as int] == dirs@[i as int]@);
            }
            return i;
        }
        i = i + 1;
    }
    proof {
        assert(false);
    }
    0
}

/// Removes the lead group and its matched partner from the sibling set and
/// hands them back, the lead first.
pub fn remove_pair(dirs: &mut Vec<DirGroup>, lead: &Vec<String>, partner: &Vec<String>) -> (r: (
    DirGroup,
    DirGroup,
))
    requires
        exists|k: int|
            0 <= k < old(dirs)@.len() && (#[trigger] groups_view(old(dirs)@)[k]).dir
                == lead.deep_view(),
        exists|k: int|
            0 <= k < old(dirs)@.len() && (#[trigger] groups_view(old(dirs)@)[k]).dir
                == partner.deep_view(),
        lead.deep_view() != partner.deep_view(),
    ensures
        r.0@.dir == lead.deep_view(),
        r.1@.dir == partner.deep_view(),
        final(dirs)@.len() + 2 == old(dirs)@.len(),
        exists|i: int, j: int|
            {
                &&& 0 <= i < groups_view(old(dirs)@).len()
                &&& #[trigger] groups_view(old(dirs)@)[i] == r.0@
                &&& 0 <= j < groups_view(old(dirs)@).remove(i).len()
                &&& #[trigger] groups_view(old(dirs)@).remove(i)[j] == r.1@
                &&& groups_view(final(dirs)@) == groups_view(old(dirs)@).remove(i).remove(j)
            },
{
    let ghost gv0 = groups_view(dirs@);
    let il = find_dir_index(dirs, lead);
    let a = dirs.remove(il);
    proof {
        assert(a@ == gv0[il as int]);
        assert(groups_view(dirs@) =~= gv0.remove(il as int));
        let k0 = choose|k: int|
            0 <= k < gv0.len() && (#[trigger] gv0[k]).dir == partner.deep_view();
        if k0 < il {
            assert(gv0.remove(il as int)[k0] == gv0[k0]);
        } else {
            assert(k0 != il);
            assert(gv0.remove(il as int)[k0 - 1] == gv0[k0]);
        }
    }
    let ghost gv1 = groups_view(dirs@);
    let ip = find_dir_index(dirs, partner);
    let b = dirs.remove(ip);
    proof {
        assert(b@ == gv1[ip as int]);
        assert(groups_view(dirs@) =~= gv1.remove(ip as int));
    }
    (a, b)
}

/// Removing a group keeps the directories pairwise distinct.
pub proof fn lemma_distinct_remove(s: Seq<DirGroupV>, i: int)
    requires
        distinct_dirs(s),
        0 <= i < s.len(),
    ensures
        distinct_dirs(s.remove(i)),
{
    let t = s.remove(i);
    assert forall|a: int, b: int|
        0 <= a < t.len() && 0 <= b < t.len() && a != b implies t[a].dir != t[b].dir by {
        let a0: int = if a < i {
            a
        } else {
            a + 1
        };
        let b0: int = if b < i {
            b
        } else {
            b + 1
        };
        assert(t[a] == s[a0] && t[b] == s[b0]);
    }
}

} // verus!
