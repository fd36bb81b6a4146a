//! The engine: one sibling set processed to a plan of rename operations.
//!
//! Round by round the matcher ranks the remaining directory groups, the
//! best-scoring group is paired with its top candidate, both leave the
//! set, their files are transitionally renamed, paired by name, padded
//! with cross-pairs, shuffled, and planned their final renames.  A last
//! remaining group is the orphan case: its files are shuffled and each
//! planned a final rename with identities counted from one.

use vstd::prelude::*;
use vstd::multiset::Multiset;
use crate::anonymize::{Op, OpV, TransRenameV, Target, ops_view, op_wf, op_target, anonymize_op,
    transitional_plan, plan_pairs, final_targets, plain_targets, marked_targets, pairs_targets,
    pair_target, unmarked, all_targets, ops_before, pair_planned, lemma_all_targets_remove, lemma_final_targets_concat,
    lemma_final_targets_transitional, lemma_plain_targets_multiset, lemma_pairs_targets_multiset,
    lemma_marked_is_plain, lemma_round_coverage};
use crate::matching::{relate, remove_pair, spec_relate, relation_of, lemma_selected_relation_best,
    lemma_relate_membership, lemma_relation_of_candidates, lemma_distinct_remove, rels_view,
    cands_view};
use crate::model::{DirGroup, DirGroupV, FileName, names_view, groups_view,
    distinct_dirs, distinct_names};
use crate::pairing::{FilePair, FilePairV, pairs_view, match_paired_files, match_unpaired_files};
use crate::rng::shuffle_vec;
use crate::tally::lemma_map_values_multiset;

verus! {

/// The plan for an orphan group: one final rename per file, identities
/// exactly `1..=N` in order of the plan, all inside the group's directory,
/// each audit record naming the file's own on-disk name, and the planned
/// files being exactly the group's files.
pub open spec fn orphan_planned(ops: Seq<OpV>, g: DirGroupV) -> bool {
    &&& ops.len() == g.files.len()
    &&& forall|k: int|
        0 <= k < ops.len() ==> ((#[trigger] ops[k]) matches OpV::Final(f) && f.identity == k + 1
            && f.dir == g.dir && f.audit_original == f.old_name)
    &&& final_targets(ops) == plain_targets(g.files, g.dir)
}

/// The plan for a set of exactly two groups: one matched round.  After the
/// transitional renames of both groups come the final renames of a pair
/// sequence whose pair at `i` carries identity `i + 1` on both members,
/// the member of the first group's directory first; together the pairs
/// cover exactly the two groups' files.
pub open spec fn two_group_round(
    ops: Seq<OpV>,
    g1: DirGroupV,
    g2: DirGroupV,
    pairs: Seq<FilePairV>,
) -> bool {
    let nt = g1.files.len() + g2.files.len();
    &&& ops.len() == nt + ops_before(pairs, pairs.len() as int)
    &&& forall|i: int|
        0 <= i < pairs.len() ==> pair_planned(ops.skip(nt as int), pairs, i, g1.dir, g2.dir)
    &&& pairs_targets(pairs, g1.dir, g2.dir) == plain_targets(g1.files, g1.dir).add(
        plain_targets(g2.files, g2.dir),
    )
}

/// `g` is one of the set's groups.
pub open spec fn from_groups(g: DirGroupV, groups: Seq<DirGroupV>) -> bool {
    exists|m: int| 0 <= m < groups.len() && #[trigger] groups[m] == g
}

/// Every group of the set has pairwise distinct file names.
pub open spec fn groups_have_distinct_names(groups: Seq<DirGroupV>) -> bool {
    forall|k: int| 0 <= k < groups.len() ==> distinct_names((#[trigger] groups[k]).files)
}

/// Processes one sibling set into a plan of rename operations.  Every
/// operation is well-formed for `now_secs`: transitional renames append
/// the marker and keep the extension; final renames carry a positive
/// identity as the decimal stem, keep the extension, and set a time at
/// least one hour and less than ten days before `now_secs`.  The final
/// renames cover, as a multiset of (directory, audit name), exactly the
/// files of the input groups: every file of the set is planned exactly
/// once under its original name.  A set of one group — and, for any
/// odd-sized set, the last remaining group — is planned as all-singleton
/// with identities `1..=N`; a set of exactly two groups is planned as one
/// matched round whose pairs share one identity per pair across the two
/// directories.
pub fn process_sibling_set(
    groups: Vec<DirGroup>,
    now_secs: i64,
    rng: &mut rand::rngs::StdRng,
) -> (ops: Vec<Op>)
    requires
        0 <= now_secs,
        distinct_dirs(groups_view(groups@)),
        groups_have_distinct_names(groups_view(groups@)),
    ensures
        forall|k: int|
            0 <= k < ops@.len() ==> op_wf(#[trigger] ops_view(ops@)[k], now_secs as int),
        final_targets(ops_view(ops@)) == all_targets(groups_view(groups@)),
        groups@.len() == 0 ==> ops@.len() == 0,
        groups@.len() == 1 ==> orphan_planned(ops_view(ops@), groups_view(groups@)[0]),
        groups@.len() % 2 == 1 ==> exists|m: int, gi: int|
            {
                &&& 0 <= m <= ops_view(ops@).len()
                &&& 0 <= gi < groups@.len()
                &&& #[trigger] orphan_planned(
                    ops_view(ops@).skip(m),
                    groups_view(groups@)[gi],
                )
            },
        groups@.len() == 2 ==> exists|pairs: Seq<FilePairV>|
            #[trigger] two_group_round(
                ops_view(ops@),
                groups_view(groups@)[0],
                groups_view(groups@)[1],
                pairs,
            ),
{
    let ghost g0 = groups_view(groups@);
    let mut dirs = groups;
    let mut ops: Vec<Op> = Vec::new();
    proof {
        assert(ops_view(ops@) =~= Seq::<OpV>::empty());
        assert(final_targets(ops_view(ops@)).add(all_targets(groups_view(dirs@))) =~= all_targets(
            g0,
        ));
        assert forall|k: int|
            0 <= k < groups_view(dirs@).len() implies from_groups(
            #[trigger] groups_view(dirs@)[k],
            g0,
        ) by {
            assert(g0[k] == groups_view(dirs@)[k]);
        }
    }
    while dirs.len() >= 2
        invariant
            0 <= now_secs,
            distinct_dirs(groups_view(dirs@)),
            groups_have_distinct_names(groups_view(dirs@)),
            forall|k: int|
                0 <= k < ops@.len() ==> op_wf(#[trigger] ops_view(ops@)[k], now_secs as int),
            final_targets(ops_view(ops@)).add(all_targets(groups_view(dirs@))) == all_targets(g0),
            groups_view(dirs@).len() % 2 == g0.len() % 2,
            forall|k: int|
                0 <= k < groups_view(dirs@).len() ==> from_groups(
                    #[trigger] groups_view(dirs@)[k],
                    g0,
                ),
            g0.len() <= 1 ==> (groups_view(dirs@) == g0 && ops@.len() == 0),
            g0.len() == 2 ==> ((groups_view(dirs@) == g0 && ops@.len() == 0) || (dirs@.len() == 0
                && exists|pairs: Seq<FilePairV>|
                #[trigger] two_group_round(ops_view(ops@), g0[0], g0[1], pairs))),
        decreases dirs@.len(),
    {
        let ghost gv = groups_view(dirs@);
        let ghost ft0 = final_targets(ops_view(ops@));
        let mut rels = match relate(&dirs) {
            Some(r) => r,
            None => {
                proof {
                    assert(false);
                }
                return ops;
            },
        };
        proof {
            lemma_selected_relation_best(gv);
        }
        let ghost rv = rels_view(rels@);
        let top = match rels.pop() {
            Some(t) => t,
            None => {
                proof {
                    assert(false);
                }
                return ops;
            },
        };
        let ghost last = spec_relate(gv).last();
        proof {
            assert(rv == spec_relate(gv));
            assert(rv.len() == gv.len() - 1);
            assert(top@ == rv[rv.len() - 1]);
            assert(top@ == last);
            lemma_relate_membership(gv, spec_relate(gv).len() - 1);
        }
        let ghost i0 = choose|i: int|
            0 <= i < gv.len() - 1 && #[trigger] spec_relate(gv)[spec_relate(gv).len() - 1]
                == relation_of(gv, i);
        proof {
            assert(0 <= i0 < gv.len() - 1 && last == relation_of(gv, i0));
            lemma_relation_of_candidates(gv, i0);
            assert(top@.dir == gv[i0].dir);
            assert(top@.candidates.len() == gv.len() - 1 - i0);
            assert(cands_view(top.candidates@) == top@.candidates);
            assert(top.candidates@.len() > 0);
        }
        let partner = &top.candidates[0].dir;
        let ghost j0 = choose|j: int|
            i0 < j < gv.len() && (#[trigger] relation_of(gv, i0).candidates[0]).dir == gv[j].dir;
        proof {
            assert(relation_of(gv, i0).candidates[0].dir == top@.candidates[0].dir);
            assert(top@.candidates[0] == top.candidates@[0]@);
            assert(partner.deep_view() == gv[j0].dir);
            assert(top.dir.deep_view() == gv[i0].dir);
            assert(gv[i0].dir != gv[j0].dir);
            assert((groups_view(dirs@)[i0]).dir == top.dir.deep_view());
            assert((groups_view(dirs@)[j0]).dir == partner.deep_view());
        }
        let (d1, d2) = remove_pair(&mut dirs, &top.dir, partner);
        proof {
            let (ri, rj) = choose|ri: int, rj: int|
                {
                    &&& 0 <= ri < gv.len()
                    &&& #[trigger] gv[ri] == d1@
                    &&& 0 <= rj < gv.remove(ri).len()
                    &&& #[trigger] gv.remove(ri)[rj] == d2@
                    &&& groups_view(dirs@) == gv.remove(ri).remove(rj)
                };
            lemma_distinct_remove(gv, ri);
            lemma_distinct_remove(gv.remove(ri), rj);
            assert forall|k: int|
                0 <= k < groups_view(dirs@).len() implies distinct_names(
                (#[trigger] groups_view(dirs@)[k]).files,
            ) by {
                let s1 = gv.remove(ri);
                let k1: int = if k < rj {
                    k
                } else {
                    k + 1
                };
                assert(s1.remove(rj)[k] == s1[k1]);
                let k2: int = if k1 < ri {
                    k1
                } else {
                    k1 + 1
                };
                assert(s1[k1] == gv[k2]);
            }
            assert forall|k: int|
                0 <= k < groups_view(dirs@).len() implies from_groups(
                #[trigger] groups_view(dirs@)[k],
                g0,
            ) by {
                let s1 = gv.remove(ri);
                let k1: int = if k < rj {
                    k
                } else {
                    k + 1
                };
                assert(s1.remove(rj)[k] == s1[k1]);
                let k2: int = if k1 < ri {
                    k1
                } else {
                    k1 + 1
                };
                assert(s1[k1] == gv[k2]);
                assert(from_groups(gv[k2], g0));
            }
            lemma_all_targets_remove(gv, ri);
            lemma_all_targets_remove(gv.remove(ri), rj);
            assert(all_targets(gv) =~= all_targets(groups_view(dirs@)).add(
                plain_targets(d1@.files, d1@.dir),
            ).add(plain_targets(d2@.files, d2@.dir)));
            assert(distinct_names(d1@.files));
            assert(distinct_names(d2@.files));
        }
        let ghost dd1 = d1@.dir;
        let ghost dd2 = d2@.dir;
        let ghost fn1 = d1@.files;
        let ghost fn2 = d2@.files;
        let (d1t, mut t1) = transitional_plan(&d1);
        let ghost opsa = ops@;
        let ghost t1v = t1@;
        ops.append(&mut t1);
        proof {
            assert forall|k: int| 0 <= k < t1v.len() implies op_wf(
                #[trigger] ops_view(t1v)[k],
                now_secs as int,
            ) by {
                assert(ops_view(t1v)[k] == OpV::Transitional(
                    TransRenameV {
                        dir: d1@.dir,
                        old_name: d1@.files[k],
                        new_name: d1t@.files[k],
                    },
                ));
            }
            lemma_append_keeps_wf(opsa, t1v, ops@, now_secs as int);
            assert forall|k: int|
                0 <= k < t1v.len() implies (#[trigger] ops_view(t1v)[k]) is Transitional by {
                assert(ops_view(t1v)[k] == t1v[k]@);
            }
            assert(ops_view(ops@) =~= ops_view(opsa) + ops_view(t1v));
            lemma_final_targets_concat(ops_view(opsa), ops_view(t1v));
            lemma_final_targets_transitional(ops_view(t1v));
            assert(final_targets(ops_view(ops@)) =~= ft0);
        }
        let (d2t, mut t2) = transitional_plan(&d2);
        let ghost opsb = ops@;
        let ghost t2v = t2@;
        ops.append(&mut t2);
        proof {
            assert forall|k: int| 0 <= k < t2v.len() implies op_wf(
                #[trigger] ops_view(t2v)[k],
                now_secs as int,
            ) by {
                assert(ops_view(t2v)[k] == OpV::Transitional(
                    TransRenameV {
                        dir: d2@.dir,
                        old_name: d2@.files[k],
                        new_name: d2t@.files[k],
                    },
                ));
            }
            lemma_append_keeps_wf(opsb, t2v, ops@, now_secs as int);
            assert forall|k: int|
                0 <= k < t2v.len() implies (#[trigger] ops_view(t2v)[k]) is Transitional by {
                assert(ops_view(t2v)[k] == t2v[k]@);
            }
            assert(ops_view(ops@) =~= ops_view(opsb) + ops_view(t2v));
            lemma_final_targets_concat(ops_view(opsb), ops_view(t2v));
            lemma_final_targets_transitional(ops_view(t2v));
            assert(final_targets(ops_view(ops@)) =~= ft0);
        }
        let ghost mk1 = names_view(d1t.files@);
        let ghost mk2 = names_view(d2t.files@);
        proof {
            assert(mk1 == d1t@.files && mk2 == d2t@.files);
            assert forall|k: int| 0 <= k < fn1.len() implies unmarked(#[trigger] mk1[k]) == fn1[k] by {
                assert((fn1[k].stem + seq!['T']).drop_last() =~= fn1[k].stem);
                assert(unmarked(mk1[k]) =~~= fn1[k]);
            }
            assert forall|k: int| 0 <= k < fn2.len() implies unmarked(#[trigger] mk2[k]) == fn2[k] by {
                assert((fn2[k].stem + seq!['T']).drop_last() =~= fn2[k].stem);
                assert(unmarked(mk2[k]) =~~= fn2[k]);
            }
            assert(distinct_names(mk1)) by {
                assert forall|i: int, j: int| 0 <= i < j < mk1.len() implies mk1[i] != mk1[j] by {
                    if mk1[i] == mk1[j] {
                        assert((fn1[i].stem + seq!['T']).drop_last() =~= fn1[i].stem);
                        assert((fn1[j].stem + seq!['T']).drop_last() =~= fn1[j].stem);
                        assert(fn1[i] =~~= fn1[j]);
                    }
                }
            }
            assert(distinct_names(mk2)) by {
                assert forall|i: int, j: int| 0 <= i < j < mk2.len() implies mk2[i] != mk2[j] by {
                    if mk2[i] == mk2[j] {
                        assert((fn2[i].stem + seq!['T']).drop_last() =~= fn2[i].stem);
                        assert((fn2[j].stem + seq!['T']).drop_last() =~= fn2[j].stem);
                        assert(fn2[i] =~~= fn2[j]);
                    }
                }
            }
            lemma_marked_is_plain(mk1, fn1, dd1);
            lemma_marked_is_plain(mk2, fn2, dd2);
        }
        let ghost round_total = marked_targets(mk1, dd1).add(marked_targets(mk2, dd2));
        let mut pairs = match_paired_files(&d1t.files, &d2t.files);
        let (mut u1, mut u2) = match_unpaired_files(&d1t.files, &d2t.files);
        proof {
            lemma_round_coverage(mk1, mk2, dd1, dd2);
            assert(pairs_targets(pairs_view(pairs@), dd1, dd2).add(
                marked_targets(names_view(u1@), dd1),
            ).add(marked_targets(names_view(u2@), dd2)) == round_total);
        }
        while u1.len() > 0 && u2.len() > 0
            invariant
                pairs_targets(pairs_view(pairs@), dd1, dd2).add(
                    marked_targets(names_view(u1@), dd1),
                ).add(marked_targets(names_view(u2@), dd2)) == round_total,
            decreases u1@.len(),
        {
            let ghost pu1 = names_view(u1@);
            let ghost pu2 = names_view(u2@);
            let ghost pp = pairs_view(pairs@);
            let a = u1.pop();
            let b = u2.pop();
            pairs.push(FilePair { a, b });
            proof {
                assert(names_view(u1@) =~= pu1.drop_last());
                assert(names_view(u2@) =~= pu2.drop_last());
                let newp = FilePairV { a: Some(pu1.last()), b: Some(pu2.last()) };
                assert(pairs@.last()@ =~~= newp);
                assert(pairs_view(pairs@) =~= pp.push(newp));
                assert(pp.push(newp).drop_last() =~= pp);
                assert(pairs_targets(pairs_view(pairs@), dd1, dd2) == pairs_targets(
                    pp,
                    dd1,
                    dd2,
                ).add(pair_target(newp, dd1, dd2)));
                assert(marked_targets(pu1, dd1) == marked_targets(pu1.drop_last(), dd1).add(
                    Multiset::empty().insert((dd1, unmarked(pu1.last()))),
                ));
                assert(marked_targets(pu2, dd2) == marked_targets(pu2.drop_last(), dd2).add(
                    Multiset::empty().insert((dd2, unmarked(pu2.last()))),
                ));
                assert(pairs_targets(pairs_view(pairs@), dd1, dd2).add(
                    marked_targets(names_view(u1@), dd1),
                ).add(marked_targets(names_view(u2@), dd2)) =~= round_total);
            }
        }
        let ghost sp = pairs@;
        shuffle_vec(rng, &mut pairs);
        proof {
            lemma_map_values_multiset(sp, pairs@, |p: FilePair| p@);
            lemma_pairs_targets_multiset(pairs_view(sp), pairs_view(pairs@), dd1, dd2);
        }
        let ghost su1 = u1@;
        shuffle_vec(rng, &mut u1);
        let ghost su2 = u2@;
        shuffle_vec(rng, &mut u2);
        proof {
            lemma_map_values_multiset(su1, u1@, |f: FileName| f@);
            crate::anonymize::lemma_marked_targets_multiset(
                names_view(su1),
                names_view(u1@),
                dd1,
            );
            lemma_map_values_multiset(su2, u2@, |f: FileName| f@);
            crate::anonymize::lemma_marked_targets_multiset(
                names_view(su2),
                names_view(u2@),
                dd2,
            );
        }
        while u1.len() > 0 || u2.len() > 0
            invariant
                pairs_targets(pairs_view(pairs@), dd1, dd2).add(
                    marked_targets(names_view(u1@), dd1),
                ).add(marked_targets(names_view(u2@), dd2)) == round_total,
            decreases u1@.len() + u2@.len(),
        {
            let ghost pu1 = names_view(u1@);
            let ghost pu2 = names_view(u2@);
            let ghost pp = pairs_view(pairs@);
            let a = u1.pop();
            let b = u2.pop();
            pairs.push(FilePair { a, b });
            proof {
                let newp = pairs@.last()@;
                assert(pairs_view(pairs@) =~= pp.push(newp));
                assert(pp.push(newp).drop_last() =~= pp);
                assert(pairs_targets(pairs_view(pairs@), dd1, dd2) == pairs_targets(
                    pp,
                    dd1,
                    dd2,
                ).add(pair_target(newp, dd1, dd2)));
                if pu1.len() > 0 {
                    assert(names_view(u1@) =~= pu1.drop_last());
                    assert(newp.a == Some(pu1.last()));
                    assert(marked_targets(pu1, dd1) == marked_targets(pu1.drop_last(), dd1).add(
                        Multiset::empty().insert((dd1, unmarked(pu1.last()))),
                    ));
                } else {
                    assert(names_view(u1@) =~= pu1);
                    assert(newp.a is None);
                }
                if pu2.len() > 0 {
                    assert(names_view(u2@) =~= pu2.drop_last());
                    assert(newp.b == Some(pu2.last()));
                    assert(marked_targets(pu2, dd2) == marked_targets(pu2.drop_last(), dd2).add(
                        Multiset::empty().insert((dd2, unmarked(pu2.last()))),
                    ));
                } else {
                    assert(names_view(u2@) =~= pu2);
                    assert(newp.b is None);
                }
                assert(pairs_targets(pairs_view(pairs@), dd1, dd2).add(
                    marked_targets(names_view(u1@), dd1),
                ).add(marked_targets(names_view(u2@), dd2)) =~= round_total);
            }
        }
        let mut p = plan_pairs(&d1.dir, &d2.dir, &pairs, now_secs, rng);
        let ghost opsc = ops@;
        let ghost pv = p@;
        ops.append(&mut p);
        proof {
            lemma_append_keeps_wf(opsc, pv, ops@, now_secs as int);
            assert(ops_view(ops@) =~= ops_view(opsc) + ops_view(pv));
            lemma_final_targets_concat(ops_view(opsc), ops_view(pv));
            assert(names_view(u1@).len() == 0);
            assert(names_view(u2@).len() == 0);
            assert(marked_targets(names_view(u1@), dd1) =~= Multiset::<Target>::empty());
            assert(marked_targets(names_view(u2@), dd2) =~= Multiset::<Target>::empty());
            assert(pairs_targets(pairs_view(pairs@), dd1, dd2) =~= round_total);
            assert(final_targets(ops_view(pv)) == round_total);
            assert(final_targets(ops_view(ops@)) =~= ft0.add(plain_targets(fn1, dd1)).add(
                plain_targets(fn2, dd2),
            ));
            assert(final_targets(ops_view(ops@)).add(all_targets(groups_view(dirs@)))
                =~= all_targets(g0));
            if g0.len() == 2 {
                assert(gv == g0);
                assert(ft0 =~= Multiset::<Target>::empty());
                assert(i0 == 0);
                assert(j0 == 1);
                let (ri, rj) = choose|ri: int, rj: int|
                    {
                        &&& 0 <= ri < gv.len()
                        &&& #[trigger] gv[ri] == d1@
                        &&& 0 <= rj < gv.remove(ri).len()
                        &&& #[trigger] gv.remove(ri)[rj] == d2@
                        &&& groups_view(dirs@) == gv.remove(ri).remove(rj)
                    };
                assert(ri == 0) by {
                    if ri != 0 {
                        assert(gv[ri].dir != gv[0].dir);
                    }
                }
                assert(d1@ == gv[0]);
                assert(gv.remove(0).len() == 1);
                assert(gv.remove(0)[0] == gv[1]);
                assert(d2@ == gv[1]);
                let ghost nt = g0[0].files.len() + g0[1].files.len();
                assert(t1v.len() == g0[0].files.len());
                assert(t2v.len() == g0[1].files.len());
                assert(opsa.len() == 0);
                assert(ops@ =~= opsa + t1v + t2v + pv);
                assert(ops_view(ops@).skip(nt as int) =~= ops_view(pv)) by {
                    assert forall|k: int|
                        0 <= k < pv.len() implies ops_view(ops@)[nt + k] == ops_view(pv)[k] by {
                        assert(ops_view(ops@)[nt + k] == ops@[nt + k]@);
                        assert(ops@[nt + k] == pv[k]);
                        assert(ops_view(pv)[k] == pv[k]@);
                    }
                }
                assert forall|i: int|
                    0 <= i < pairs_view(pairs@).len() implies pair_planned(
                    ops_view(ops@).skip(nt as int),
                    pairs_view(pairs@),
                    i,
                    g0[0].dir,
                    g0[1].dir,
                ) by {
                    assert(pair_planned(ops_view(pv), pairs_view(pairs@), i, dd1, dd2));
                }
                assert(ops_view(ops@).len() == nt + ops_before(
                    pairs_view(pairs@),
                    pairs_view(pairs@).len() as int,
                ));
                assert(pairs_targets(pairs_view(pairs@), g0[0].dir, g0[1].dir)
                    == plain_targets(g0[0].files, g0[0].dir).add(
                    plain_targets(g0[1].files, g0[1].dir),
                ));
                assert(two_group_round(ops_view(ops@), g0[0], g0[1], pairs_view(pairs@)));
            }
        }
    }
    if dirs.len() == 1 {
        let ghost predirs = groups_view(dirs@);
        let g = match dirs.pop() {
            Some(g) => g,
            None => {
                proof {
                    assert(false);
                }
                return ops;
            },
        };
        let ghost gview = g@;
        proof {
            reveal_with_fuel(crate::tally::contrib_sum, 3);
            assert(gview == predirs[0]);
            assert(predirs.drop_last() =~= Seq::<DirGroupV>::empty());
            assert(all_targets(predirs) == Multiset::<Target>::empty().add(
                plain_targets(gview.files, gview.dir),
            ));
            assert(all_targets(predirs) =~= plain_targets(gview.files, gview.dir));
            assert(groups_view(dirs@) =~= Seq::<DirGroupV>::empty());
            assert(all_targets(groups_view(dirs@)) =~= Multiset::<Target>::empty());
        }
        let ghost oft0 = final_targets(ops_view(ops@));
        let DirGroup { dir: gdir, files } = g;
        let ghost forig = files@;
        let mut files = files;
        shuffle_vec(rng, &mut files);
        proof {
            lemma_map_values_multiset(forig, files@, |f: FileName| f@);
            lemma_plain_targets_multiset(names_view(forig), names_view(files@), gview.dir);
            assert(names_view(forig) == gview.files);
        }
        let ghost base = ops@.len() as int;
        let ghost opre = ops_view(ops@);
        let mut i: usize = 0;
        while i < files.len()
            invariant
                0 <= now_secs,
                i <= files.len(),
                gdir.deep_view() == gview.dir,
                0 <= base,
                ops@.len() == base + i,
                opre.len() == base,
                ops_view(ops@).take(base) == opre,
                final_targets(ops_view(ops@)) == oft0.add(
                    plain_targets(names_view(files@).take(i as int), gview.dir),
                ),
                forall|k: int|
                    0 <= k < ops@.len() ==> op_wf(#[trigger] ops_view(ops@)[k], now_secs as int),
                forall|k: int|
                    base <= k < base + i ==> ((#[trigger] ops_view(ops@)[k]) matches OpV::Final(f)
                        && f.identity == k - base + 1 && f.dir == gview.dir && f.audit_original
                        == f.old_name),
            decreases files.len() - i,
        {
            let ghost ops0 = ops@;
            let op = anonymize_op(&gdir, &files[i], false, i + 1, now_secs, rng);
            ops.push(Op::Final(op));
            proof {
                assert forall|k: int|
                    0 <= k < ops0.len() implies #[trigger] ops_view(ops@)[k] == ops_view(
                    ops0,
                )[k] by {
                    assert(ops_view(ops@)[k] == ops@[k]@);
                    assert(ops@[k] == ops0[k]);
                    assert(ops_view(ops0)[k] == ops0[k]@);
                }
                assert(ops_view(ops@)[base + i] == OpV::Final(op@));
                assert forall|k: int|
                    base <= k < base + i + 1 implies ((#[trigger] ops_view(ops@)[k]) matches OpV::Final(
                    f,
                ) && f.identity == k - base + 1 && f.dir == gview.dir && f.audit_original
                    == f.old_name) by {
                    if k < base + i {
                        assert(ops_view(ops@)[k] == ops_view(ops0)[k]);
                    } else {
                        assert(ops_view(ops@)[k] == OpV::Final(op@));
                        assert(op@.identity == i + 1);
                        assert(op@.dir == gview.dir);
                    }
                }
                assert(ops_view(ops@).drop_last() =~= ops_view(ops0));
                assert(ops_view(ops@).take(base) =~= ops_view(ops0).take(base));
                assert(final_targets(ops_view(ops@)) == final_targets(ops_view(ops0)).add(
                    op_target(OpV::Final(op@)),
                ));
                assert(op@.audit_original == files@[i as int]@);
                let nvf = names_view(files@);
                assert(nvf.take(i + 1).drop_last() =~= nvf.take(i as int));
                assert(nvf.take(i + 1).last() == nvf[i as int]);
                assert(nvf[i as int] == files@[i as int]@);
                assert(plain_targets(nvf.take(i + 1), gview.dir) == plain_targets(
                    nvf.take(i as int),
                    gview.dir,
                ).add(Multiset::empty().insert((gview.dir, nvf[i as int]))));
                assert(final_targets(ops_view(ops@)) =~= oft0.add(
                    plain_targets(nvf.take(i + 1), gview.dir),
                ));
            }
            i = i + 1;
        }
        proof {
            assert(names_view(files@).take(files@.len() as int) =~= names_view(files@));
            assert(final_targets(ops_view(ops@)) =~= oft0.add(
                plain_targets(gview.files, gview.dir),
            ));
            assert(final_targets(ops_view(ops@)).add(all_targets(groups_view(dirs@)))
                =~= all_targets(g0));
            let whole = ops_view(ops@);
            let tail = whole.skip(base);
            assert(whole =~= whole.take(base) + tail);
            lemma_final_targets_concat(whole.take(base), tail);
            assert(final_targets(whole.take(base)) == oft0);
            assert forall|e: Target|
                final_targets(tail).count(e) == plain_targets(gview.files, gview.dir).count(e) by {
                assert(oft0.add(final_targets(tail)).count(e) == oft0.count(e) + final_targets(
                    tail,
                ).count(e));
                assert(oft0.add(plain_targets(gview.files, gview.dir)).count(e) == oft0.count(e)
                    + plain_targets(gview.files, gview.dir).count(e));
            }
            assert(final_targets(tail) =~= plain_targets(gview.files, gview.dir));
            assert(tail.len() == gview.files.len());
            assert forall|k: int|
                0 <= k < tail.len() implies ((#[trigger] tail[k]) matches OpV::Final(f)
                && f.identity == k + 1 && f.dir == gview.dir && f.audit_original == f.old_name) by {
                assert(tail[k] == whole[base + k]);
            }
            assert(orphan_planned(tail, gview));
            assert(from_groups(gview, g0));
            let gi = choose|m: int| 0 <= m < g0.len() && #[trigger] g0[m] == gview;
            assert(orphan_planned(ops_view(ops@).skip(base), groups_view(groups@)[gi]));
            if g0.len() == 1 {
                assert(gview == g0[0]);
                assert(base == 0);
                assert(files@.len() == gview.files.len());
                assert(ops_view(ops@).take(0) =~= Seq::<OpV>::empty());
                assert(oft0 =~= Multiset::<Target>::empty());
                assert(final_targets(ops_view(ops@)) =~= plain_targets(gview.files, gview.dir));
            }
        }
    }
    proof {
        if groups_view(dirs@).len() == 0 {
            assert(all_targets(groups_view(dirs@)) =~= Multiset::<Target>::empty());
            assert(final_targets(ops_view(ops@)) =~= all_targets(g0));
        }
    }
    ops
}

/// Law: an orphan plan assigns every file a distinct identity, and the
/// identities are exactly `1..=N` for `N` files.
pub proof fn lemma_orphan_identities_distinct(ops: Seq<OpV>, g: DirGroupV)
    requires
        orphan_planned(ops, g),
    ensures
        forall|a: int, b: int|
            0 <= a < ops.len() && 0 <= b < ops.len() && a != b ==> ((#[trigger] ops[a]) matches OpV::Final(
                fa,
            ) && (#[trigger] ops[b]) matches OpV::Final(fb) ==> fa.identity != fb.identity),
        forall|k: int|
            0 <= k < ops.len() ==> ((#[trigger] ops[k]) matches OpV::Final(f) ==> 1 <= f.identity
                <= ops.len()),
{
}

proof fn lemma_append_keeps_wf(a: Seq<Op>, b: Seq<Op>, c: Seq<Op>, now: int)
    requires
        c == a + b,
        forall|k: int| 0 <= k < a.len() ==> op_wf(#[trigger] ops_view(a)[k], now),
        forall|k: int| 0 <= k < b.len() ==> op_wf(#[trigger] ops_view(b)[k], now),
    ensures
        forall|k: int| 0 <= k < c.len() ==> op_wf(#[trigger] ops_view(c)[k], now),
{
    assert forall|k: int| 0 <= k < c.len() implies op_wf(#[trigger] ops_view(c)[k], now) by {
        assert(ops_view(c)[k] == c[k]@);
        if k < a.len() {
            assert(c[k] == a[k]);
            assert(ops_view(a)[k] == a[k]@);
        } else {
            assert(c[k] == b[k - a.len()]);
            assert(ops_view(b)[k - a.len()] == b[k - a.len()]@);
        }
    }
}

} // verus!
