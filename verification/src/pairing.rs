//! The file pairer: exact-name pairs between two matched directories, and
//! the files of each side left unmatched.

use vstd::prelude::*;
use crate::model::{FileName, FileNameV, names_view, contains_name};

verus! {

/// Two optional files destined to share one anonymized identity; at most
/// one side is absent.
pub struct FilePair {
    pub a: Option<FileName>,
    pub b: Option<FileName>,
}

/// Mathematical value of a [`FilePair`].
#[verifier::ext_equal]
pub struct FilePairV {
    pub a: Option<FileNameV>,
    pub b: Option<FileNameV>,
}

impl View for FilePair {
    type V = FilePairV;

    open spec fn view(&self) -> FilePairV {
        FilePairV {
            a: match self.a {
                Option::Some(f) => Some(f@),
                Option::None => None,
            },
            b: match self.b {
                Option::Some(f) => Some(f@),
                Option::None => None,
            },
        }
    }
}

/// The pairs of a sequence, as mathematical values.
pub open spec fn pairs_view(s: Seq<FilePair>) -> Seq<FilePairV> {
    s.map_values(|p: FilePair| p@)
}

/// The exact-name pairs: every file of `d1` whose name occurs in `d2`, in
/// `d1`'s order, paired with the equally named file of `d2`.
pub open spec fn exact_pairs(d1: Seq<FileNameV>, d2: Seq<FileNameV>) -> Seq<FilePairV>
    decreases d1.len(),
{
    if d1.len() == 0 {
        Seq::empty()
    } else {
        let rest = exact_pairs(d1.drop_last(), d2);
        if d2.contains(d1.last()) {
            rest.push(FilePairV { a: Some(d1.last()), b: Some(d1.last()) })
        } else {
            rest
        }
    }
}

/// The files of `d` whose name occurs in `other`, in `d`'s order: the
/// members that exact-name pairing consumes.
pub open spec fn matched(d: Seq<FileNameV>, other: Seq<FileNameV>) -> Seq<FileNameV>
    decreases d.len(),
{
    if d.len() == 0 {
        Seq::empty()
    } else {
        let rest = matched(d.drop_last(), other);
        if other.contains(d.last()) {
            rest.push(d.last())
        } else {
            rest
        }
    }
}

/// The files of `d` whose name does not occur in `other`, in `d`'s order.
pub open spec fn unmatched(d: Seq<FileNameV>, other: Seq<FileNameV>) -> Seq<FileNameV>
    decreases d.len(),
{
    if d.len() == 0 {
        Seq::empty()
    } else {
        let rest = unmatched(d.drop_last(), other);
        if other.contains(d.last()) {
            rest
        } else {
            rest.push(d.last())
        }
    }
}

/// Pairs the files of two matched directories by exact name; a name of `d1`
/// found in `d2` yields a pair with both members present.
pub fn match_paired_files(d1: &Vec<FileName>, d2: &Vec<FileName>) -> (pairs: Vec<FilePair>)
    ensures
        pairs_view(pairs@) == exact_pairs(names_view(d1@), names_view(d2@)),
{
    let ghost nv1 = names_view(d1@);
    let ghost nv2 = names_view(d2@);
    let mut pairs: Vec<FilePair> = Vec::new();
    let mut i: usize = 0;
    while i < d1.len()
        invariant
            i <= d1.len(),
            nv1 == names_view(d1@),
            nv2 == names_view(d2@),
            nv1.len() == d1.len(),
            pairs_view(pairs@) == exact_pairs(nv1.take(i as int), nv2),
        decreases d1.len() - i,
    {
        let ghost before = pairs@;
        proof {
            assert(nv1.take(i + 1).drop_last() =~= nv1.take(i as int));
            assert(nv1.take(i + 1).last() == nv1[i as int]);
            assert(nv1[i as int] == d1@[i as int]@);
        }
        if contains_name(d2, &d1[i]) {
            pairs.push(FilePair { a: Some(d1[i].clone()), b: Some(d1[i].clone()) });
            proof {
                assert forall|k: int|
                    0 <= k < pairs@.len() implies pairs_view(pairs@)[k] == exact_pairs(
                    nv1.take(i + 1),
                    nv2,
                )[k] by {
                    assert(pairs_view(pairs@)[k] == pairs@[k]@);
                    if k < before.len() {
                        assert(pairs@[k] == before[k]);
                        assert(pairs_view(before)[k] == before[k]@);
                    } else {
                        assert(pairs@[k]@ =~~= FilePairV {
                            a: Some(nv1[i as int]),
                            b: Some(nv1[i as int]),
                        });
                    }
                }
                assert(pairs_view(pairs@) =~= exact_pairs(nv1.take(i + 1), nv2));
            }
        } else {
            proof {
                assert(pairs_view(pairs@) =~= exact_pairs(nv1.take(i + 1), nv2));
            }
        }
        i = i + 1;
    }
    proof {
        assert(nv1.take(d1@.len() as int) =~= nv1);
    }
    pairs
}

/// Collects the files of each side whose name has no match on the other
/// side: the residue that cross-pairing and the singleton drain consume.
pub fn match_unpaired_files(d1: &Vec<FileName>, d2: &Vec<FileName>) -> (r: (
    Vec<FileName>,
    Vec<FileName>,
))
    ensures
        names_view(r.0@) == unmatched(names_view(d1@), names_view(d2@)),
        names_view(r.1@) == unmatched(names_view(d2@), names_view(d1@)),
{
    let u1 = unmatched_of(d1, d2);
    let u2 = unmatched_of(d2, d1);
    (u1, u2)
}

fn unmatched_of(d: &Vec<FileName>, other: &Vec<FileName>) -> (u: Vec<FileName>)
    ensures
        names_view(u@) == unmatched(names_view(d@), names_view(other@)),
{
    let ghost nv = names_view(d@);
    let ghost nvo = names_view(other@);
    let mut u: Vec<FileName> = Vec::new();
    let mut i: usize = 0;
    while i < d.len()
        invariant
            i <= d.len(),
            nv == names_view(d@),
            nvo == names_view(other@),
            nv.len() == d.len(),
            names_view(u@) == unmatched(nv.take(i as int), nvo),
        decreases d.len() - i,
    {
        let ghost before = u@;
        proof {
            assert(nv.take(i + 1).drop_last() =~= nv.take(i as int));
            assert(nv.take(i + 1).last() == nv[i as int]);
            assert(nv[i as int] == d@[i as int]@);
        }
        if !contains_name(other, &d[i]) {
            u.push(d[i].clone());
            proof {
                assert forall|k: int|
                    0 <= k < u@.len() implies names_view(u@)[k] == unmatched(nv.take(i + 1), nvo)[k]
                by {
                    assert(names_view(u@)[k] == u@[k]@);
                    if k < before.len() {
                        assert(u@[k] == before[k]);
                        assert(names_view(before)[k] == before[k]@);
                    }
                }
                assert(names_view(u@) =~= unmatched(nv.take(i + 1), nvo));
            }
        } else {
            proof {
                assert(names_view(u@) =~= unmatched(nv.take(i + 1), nvo));
            }
        }
        i = i + 1;
    }
    proof {
        assert(nv.take(d@.len() as int) =~= nv);
    }
    u
}

} // verus!
