//! Summing a per-element contribution over a sequence into a multiset, and
//! the facts the planner's coverage proofs need: the sum splits over
//! concatenation, drops with removal, is blind to order, and depends only
//! on each element's contribution.

use vstd::prelude::*;
use vstd::multiset::Multiset;

verus! {

/// The contributions of the elements of `s`, added up.
pub open spec fn contrib_sum<A, B>(s: Seq<A>, c: spec_fn(A) -> Multiset<B>) -> Multiset<B>
    decreases s.len(),
{
    if s.len() == 0 {
        Multiset::empty()
    } else {
        contrib_sum(s.drop_last(), c).add(c(s.last()))
    }
}

/// The sum over a concatenation is the sum of the sums.
pub proof fn lemma_contrib_sum_concat<A, B>(a: Seq<A>, b: Seq<A>, c: spec_fn(A) -> Multiset<B>)
    ensures
        contrib_sum(a + b, c) == contrib_sum(a, c).add(contrib_sum(b, c)),
    decreases b.len(),
{
    if b.len() == 0 {
        assert(a + b =~= a);
        assert(contrib_sum(a, c).add(Multiset::empty()) =~= contrib_sum(a, c));
    } else {
        lemma_contrib_sum_concat(a, b.drop_last(), c);
        assert((a + b).drop_last() =~= a + b.drop_last());
        assert((a + b).last() == b.last());
        assert(contrib_sum(a, c).add(contrib_sum(b.drop_last(), c)).add(c(b.last()))
            =~= contrib_sum(a, c).add(contrib_sum(b.drop_last(), c).add(c(b.last()))));
    }
}

/// Removing one element removes exactly its contribution.
pub proof fn lemma_contrib_sum_remove<A, B>(s: Seq<A>, c: spec_fn(A) -> Multiset<B>, j: int)
    requires
        0 <= j < s.len(),
    ensures
        contrib_sum(s, c) == contrib_sum(s.remove(j), c).add(c(s[j])),
    decreases s.len(),
{
    if j == s.len() - 1 {
        assert(s.remove(j) =~= s.drop_last());
    } else {
        lemma_contrib_sum_remove(s.drop_last(), c, j);
        assert(s.remove(j).drop_last() =~= s.drop_last().remove(j));
        assert(s.remove(j).last() == s.last());
        assert(contrib_sum(s.drop_last().remove(j), c).add(c(s[j])).add(c(s.last()))
            =~= contrib_sum(s.drop_last().remove(j), c).add(c(s.last())).add(c(s[j])));
    }
}

/// Two sequences with the same elements (as a multiset) have the same sum.
pub proof fn lemma_contrib_sum_multiset<A, B>(
    s1: Seq<A>,
    s2: Seq<A>,
    c: spec_fn(A) -> Multiset<B>,
)
    requires
        s1.to_multiset() == s2.to_multiset(),
    ensures
        contrib_sum(s1, c) == contrib_sum(s2, c),
    decreases s1.len(),
{
    broadcast use vstd::seq_lib::group_to_multiset_ensures;

    if s1.len() == 0 {
        assert(s2.to_multiset().len() == 0);
        assert(s2.len() == 0);
    } else {
        let x = s1.last();
        assert(s1.contains(x));
        assert(s2.to_multiset().count(x) > 0);
        assert(s2.contains(x));
        let j = choose|j: int| 0 <= j < s2.len() && s2[j] == x;
        assert(s2.remove(j).to_multiset() =~= s2.to_multiset().remove(x));
        assert(s1.drop_last().push(x) =~= s1);
        assert(s1.drop_last().push(x).to_multiset() == s1.drop_last().to_multiset().insert(x));
        assert(s1.drop_last().to_multiset() =~= s1.to_multiset().remove(x));
        lemma_contrib_sum_multiset(s1.drop_last(), s2.remove(j), c);
        lemma_contrib_sum_remove(s2, c, j);
    }
}

/// Sums agree when the sequences contribute the same, element by element.
pub proof fn lemma_contrib_sum_pointwise<A, B>(
    s1: Seq<A>,
    s2: Seq<A>,
    c1: spec_fn(A) -> Multiset<B>,
    c2: spec_fn(A) -> Multiset<B>,
)
    requires
        s1.len() == s2.len(),
        forall|k: int| 0 <= k < s1.len() ==> c1(#[trigger] s1[k]) == c2(#[trigger] s2[k]),
    ensures
        contrib_sum(s1, c1) == contrib_sum(s2, c2),
    decreases s1.len(),
{
    if s1.len() > 0 {
        assert(forall|k: int|
            0 <= k < s1.drop_last().len() ==> c1(#[trigger] s1.drop_last()[k]) == c2(
                #[trigger] s2.drop_last()[k],
            ));
        lemma_contrib_sum_pointwise(s1.drop_last(), s2.drop_last(), c1, c2);
    }
}

/// A sum of empty contributions is empty.
pub proof fn lemma_contrib_sum_zero<A, B>(s: Seq<A>, c: spec_fn(A) -> Multiset<B>)
    requires
        forall|k: int| 0 <= k < s.len() ==> c(#[trigger] s[k]) == Multiset::<B>::empty(),
    ensures
        contrib_sum(s, c) == Multiset::<B>::empty(),
    decreases s.len(),
{
    if s.len() > 0 {
        lemma_contrib_sum_zero(s.drop_last(), c);
        assert(Multiset::<B>::empty().add(Multiset::<B>::empty()) =~= Multiset::<B>::empty());
    }
}

/// Mapping both sequences keeps equal multisets equal.
pub proof fn lemma_map_values_multiset<A, B>(s1: Seq<A>, s2: Seq<A>, f: spec_fn(A) -> B)
    requires
        s1.to_multiset() == s2.to_multiset(),
    ensures
        s1.map_values(f).to_multiset() == s2.map_values(f).to_multiset(),
    decreases s1.len(),
{
    broadcast use vstd::seq_lib::group_to_multiset_ensures;

    if s1.len() == 0 {
        assert(s2.to_multiset().len() == 0);
        assert(s2.len() == 0);
        assert(s1.map_values(f) =~= s2.map_values(f));
    } else {
        let x = s1.last();
        assert(s1.contains(x));
        assert(s2.to_multiset().count(x) > 0);
        assert(s2.contains(x));
        let j = choose|j: int| 0 <= j < s2.len() && s2[j] == x;
        assert(s2.remove(j).to_multiset() =~= s2.to_multiset().remove(x));
        assert(s1.drop_last().push(x) =~= s1);
        assert(s1.drop_last().push(x).to_multiset() == s1.drop_last().to_multiset().insert(x));
        assert(s1.drop_last().to_multiset() =~= s1.to_multiset().remove(x));
        lemma_map_values_multiset(s1.drop_last(), s2.remove(j), f);
        assert(s1.map_values(f).drop_last() =~= s1.drop_last().map_values(f));
        assert(s1.map_values(f).drop_last().push(f(x)) =~= s1.map_values(f));
        assert(s2.remove(j).map_values(f) =~= s2.map_values(f).remove(j));
        assert(s2.map_values(f).remove(j).to_multiset() =~= s2.map_values(f).to_multiset().remove(
            f(x),
        ));
        assert(s2.map_values(f)[j] == f(x));
        assert(s2.map_values(f).contains(f(x)));
        assert(s2.map_values(f).to_multiset().count(f(x)) > 0);
        assert(s1.map_values(f).to_multiset() == s1.drop_last().map_values(f).to_multiset().insert(
            f(x),
        ));
        assert(s1.map_values(f).to_multiset() =~= s2.map_values(f).to_multiset());
    }
}

} // verus!
