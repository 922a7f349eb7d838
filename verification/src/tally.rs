//! Sums over a sequence that do not depend on its order.

use vstd::multiset::Multiset;
use vstd::prelude::*;

verus! {

/// The sum of `weight` over the elements of `s`.
pub open spec fn total<A>(s: Seq<A>, weight: spec_fn(A) -> nat) -> nat
    decreases s.len(),
{
    if s.len() == 0 {
        0
    } else {
        total(s.drop_last(), weight) + weight(s.last())
    }
}

/// The union of `part` over the elements of `s`.
pub open spec fn gathered<A, B>(s: Seq<A>, part: spec_fn(A) -> Multiset<B>) -> Multiset<B>
    decreases s.len(),
{
    if s.len() == 0 {
        Multiset::empty()
    } else {
        gathered(s.drop_last(), part).add(part(s.last()))
    }
}

proof fn lemma_total_remove<A>(s: Seq<A>, weight: spec_fn(A) -> nat, i: int)
    requires
        0 <= i < s.len(),
    ensures
        total(s, weight) == total(s.remove(i), weight) + weight(s[i]),
    decreases s.len(),
{
    if i == s.len() - 1 {
        assert(s.remove(i) =~= s.drop_last());
    } else {
        lemma_total_remove(s.drop_last(), weight, i);
        assert(s.remove(i).drop_last() =~= s.drop_last().remove(i));
        assert(s.remove(i).last() == s.last());
    }
}

/// Taking an element out of a sequence takes out what it brought.
pub proof fn lemma_gathered_remove<A, B>(s: Seq<A>, part: spec_fn(A) -> Multiset<B>, i: int)
    requires
        0 <= i < s.len(),
    ensures
        gathered(s, part) =~= gathered(s.remove(i), part).add(part(s[i])),
    decreases s.len(),
{
    broadcast use vstd::multiset::group_multiset_axioms;
    if i == s.len() - 1 {
        assert(s.remove(i) =~= s.drop_last());
    } else {
        lemma_gathered_remove(s.drop_last(), part, i);
        assert(s.remove(i).drop_last() =~= s.drop_last().remove(i));
        assert(s.remove(i).last() == s.last());
    }
}

/// A sequence with the same elements as another, each as often, has the same
/// total.
pub proof fn lemma_total_permuted<A>(a: Seq<A>, b: Seq<A>, weight: spec_fn(A) -> nat)
    requires
        a.to_multiset() =~= b.to_multiset(),
    ensures
        total(a, weight) == total(b, weight),
    decreases a.len(),
{
    broadcast use vstd::seq_lib::to_multiset_len;
    broadcast use vstd::seq_lib::to_multiset_contains;
    if a.len() == 0 {
        assert(a.to_multiset() == b.to_multiset());
        assert(a.to_multiset().len() == 0);
        assert(b.to_multiset().len() == b.len());
        assert(b.len() == 0);
    } else {
        let x = a.last();
        assert(a =~= a.drop_last().push(x));
        assert(a.to_multiset().contains(x));
        assert(b.contains(x));
        let i = choose|i: int| 0 <= i < b.len() && b[i] == x;
        vstd::seq_lib::to_multiset_remove(a, a.len() - 1);
        vstd::seq_lib::to_multiset_remove(b, i);
        assert(a.remove(a.len() - 1) =~= a.drop_last());
        lemma_total_permuted(a.drop_last(), b.remove(i), weight);
        lemma_total_remove(b, weight, i);
    }
}

/// A sequence with the same elements as another, each as often, gathers the
/// same union.
pub proof fn lemma_gathered_permuted<A, B>(a: Seq<A>, b: Seq<A>, part: spec_fn(A) -> Multiset<B>)
    requires
        a.to_multiset() =~= b.to_multiset(),
    ensures
        gathered(a, part) =~= gathered(b, part),
    decreases a.len(),
{
    broadcast use vstd::seq_lib::to_multiset_len;
    broadcast use vstd::seq_lib::to_multiset_contains;
    if a.len() == 0 {
        assert(a.to_multiset() == b.to_multiset());
        assert(a.to_multiset().len() == 0);
        assert(b.to_multiset().len() == b.len());
        assert(b.len() == 0);
    } else {
        let x = a.last();
        assert(a =~= a.drop_last().push(x));
        assert(a.to_multiset().contains(x));
        assert(b.contains(x));
        let i = choose|i: int| 0 <= i < b.len() && b[i] == x;
        vstd::seq_lib::to_multiset_remove(a, a.len() - 1);
        vstd::seq_lib::to_multiset_remove(b, i);
        assert(a.remove(a.len() - 1) =~= a.drop_last());
        lemma_gathered_permuted(a.drop_last(), b.remove(i), part);
        lemma_gathered_remove(b, part, i);
    }
}

/// What one more element adds to a total and to a union, wherever it stands.
pub proof fn lemma_joined<A, B>(
    before: Seq<A>,
    after: Seq<A>,
    x: A,
    weight: spec_fn(A) -> nat,
    part: spec_fn(A) -> Multiset<B>,
)
    requires
        after.to_multiset() =~= before.to_multiset().insert(x),
    ensures
        total(after, weight) == total(before, weight) + weight(x),
        gathered(after, part) =~= gathered(before, part).add(part(x)),
        forall|y: A| after.contains(y) ==> before.contains(y) || y == x,
        forall|y: A| before.contains(y) ==> after.contains(y),
        after.contains(x),
{
    broadcast use vstd::seq_lib::to_multiset_contains;
    broadcast use vstd::multiset::group_multiset_axioms;
    vstd::seq_lib::to_multiset_build(before, x);
    lemma_total_permuted(after, before.push(x), weight);
    lemma_gathered_permuted(after, before.push(x), part);
    assert(before.push(x).drop_last() =~= before);
    assert forall|y: A| after.contains(y) implies before.contains(y) || y == x by {
        assert(after.to_multiset().count(y) > 0);
    }
    assert forall|y: A| before.contains(y) implies after.contains(y) by {
        assert(before.to_multiset().count(y) > 0);
        assert(after.to_multiset().count(y) > 0);
    }
    assert(after.to_multiset().count(x) > 0);
}

/// The elements of a mapped sequence are what the mapping gathers one by one.
pub proof fn lemma_mapped<A, B>(s: Seq<A>, image: spec_fn(A) -> B)
    ensures
        s.map_values(image).to_multiset() =~= gathered(s, |x: A| Multiset::singleton(image(x))),
    decreases s.len(),
{
    broadcast use vstd::multiset::group_multiset_axioms;
    let part = |x: A| Multiset::singleton(image(x));
    if s.len() == 0 {
        assert(s.map_values(image) =~= Seq::<B>::empty());
        broadcast use vstd::seq_lib::to_multiset_len;
        assert(s.map_values(image).to_multiset().len() == 0);
    } else {
        lemma_mapped(s.drop_last(), image);
        assert(s.map_values(image) =~= s.drop_last().map_values(image).push(image(s.last())));
        vstd::seq_lib::to_multiset_build(s.drop_last().map_values(image), image(s.last()));
    }
}

/// What one more element adds to a mapped sequence, wherever it stands.
pub proof fn lemma_mapped_joined<A, B>(before: Seq<A>, after: Seq<A>, x: A, image: spec_fn(A) -> B)
    requires
        after.to_multiset() =~= before.to_multiset().insert(x),
    ensures
        after.map_values(image).to_multiset() =~= before.map_values(image).to_multiset().insert(image(x)),
{
    broadcast use vstd::multiset::group_multiset_axioms;
    let part = |y: A| Multiset::singleton(image(y));
    lemma_mapped(before, image);
    lemma_mapped(after, image);
    lemma_joined(before, after, x, |y: A| 0nat, part);
}

} // verus!
