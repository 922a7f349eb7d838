//! A linear scan as the measure of a search: the elements sorted by distance,
//! and what an answer that holds the nearest of them must then be.

use crate::heap::ascending;
use crate::heap_element::HeapElement;
use crate::distance::admissible;
use crate::distance::measures;
use crate::distance::Metric;
use crate::kdtree::search::as_ranked;
use crate::kdtree::search::nearest_of;
use crate::kdtree::search::ranked;
use crate::kdtree::KdTree;
use vstd::prelude::*;

verus! {

/// `s`, which is in ascending order, with `x` put in behind the elements that
/// are at most as far.
pub open spec fn put_in<E>(s: Seq<HeapElement<E>>, x: HeapElement<E>) -> Seq<HeapElement<E>>
    decreases s.len(),
{
    if s.len() == 0 {
        seq![x]
    } else if s.last().distance <= x.distance {
        s.push(x)
    } else {
        put_in(s.drop_last(), x).push(s.last())
    }
}

/// The elements of `s` from the nearest to the farthest, those that are as
/// far as each other in the order in which `s` holds them.
pub open spec fn by_distance<E>(s: Seq<HeapElement<E>>) -> Seq<HeapElement<E>>
    decreases s.len(),
{
    if s.len() == 0 {
        Seq::empty()
    } else {
        put_in(by_distance(s.drop_last()), s.last())
    }
}

proof fn lemma_put_in<E>(s: Seq<HeapElement<E>>, x: HeapElement<E>)
    requires
        ascending(s),
    ensures
        ascending(put_in(s, x)),
        put_in(s, x).len() == s.len() + 1,
        put_in(s, x).to_multiset() =~= s.to_multiset().insert(x),
        forall|i: int| 0 <= i < put_in(s, x).len() ==> (#[trigger] put_in(s, x)[i]) == x || s.contains(put_in(s, x)[i]),
    decreases s.len(),
{
    broadcast use vstd::multiset::group_multiset_axioms;
    let r = put_in(s, x);
    if s.len() == 0 {
        assert(s =~= Seq::<HeapElement<E>>::empty());
        assert(r =~= Seq::<HeapElement<E>>::empty().push(x));
        vstd::seq_lib::to_multiset_build(Seq::<HeapElement<E>>::empty(), x);
    } else if s.last().distance <= x.distance {
        vstd::seq_lib::to_multiset_build(s, x);
        assert forall|i: int, j: int| 0 <= i <= j < r.len() implies (#[trigger] r[i]).distance <= (
        #[trigger] r[j]).distance by {
            if j == s.len() {
                if i < j {
                    assert(s[i].distance <= s.last().distance);
                }
            } else {
                assert(s[i].distance <= s[j].distance);
            }
        }
        assert forall|i: int| 0 <= i < r.len() implies (#[trigger] r[i]) == x || s.contains(r[i]) by {
            if i < s.len() {
                assert(s[i] == r[i]);
            }
        }
    } else {
        let init = s.drop_last();
        let t = put_in(init, x);
        assert forall|i: int, j: int| 0 <= i <= j < init.len() implies (#[trigger] init[i]).distance <= (
        #[trigger] init[j]).distance by {
            assert(s[i].distance <= s[j].distance);
        }
        lemma_put_in(init, x);
        assert(s =~= init.push(s.last()));
        vstd::seq_lib::to_multiset_build(init, s.last());
        vstd::seq_lib::to_multiset_build(t, s.last());
        assert forall|i: int, j: int| 0 <= i <= j < r.len() implies (#[trigger] r[i]).distance <= (
        #[trigger] r[j]).distance by {
            if j == t.len() {
                if i < j {
                    if t[i] != x {
                        assert(init.contains(t[i]));
                        let a = choose|a: int| 0 <= a < init.len() && init[a] == t[i];
                        assert(s[a].distance <= s.last().distance);
                    }
                }
            } else {
                assert(t[i].distance <= t[j].distance);
            }
        }
        assert forall|i: int| 0 <= i < r.len() implies (#[trigger] r[i]) == x || s.contains(r[i]) by {
            if i < t.len() {
                if t[i] != x {
                    assert(init.contains(t[i]));
                    let a = choose|a: int| 0 <= a < init.len() && init[a] == t[i];
                    assert(s[a] == r[i]);
                }
            } else {
                assert(s[s.len() - 1] == r[i]);
            }
        }
    }
}

/// A scan sorted by distance holds what was scanned, in ascending order.
pub proof fn lemma_by_distance<E>(s: Seq<HeapElement<E>>)
    ensures
        ascending(by_distance(s)),
        by_distance(s).len() == s.len(),
        by_distance(s).to_multiset() =~= s.to_multiset(),
    decreases s.len(),
{
    broadcast use vstd::multiset::group_multiset_axioms;
    if s.len() == 0 {
        assert(s =~= by_distance(s));
    } else {
        lemma_by_distance(s.drop_last());
        lemma_put_in(by_distance(s.drop_last()), s.last());
        assert(s =~= s.drop_last().push(s.last()));
        vstd::seq_lib::to_multiset_build(s.drop_last(), s.last());
    }
}

/// An ascending part of an ascending sequence, beside which nothing is nearer
/// than its last element, has the distances with which the sequence begins;
/// and if the sequence is longer, something beside the part is as far as the
/// element of the sequence that comes next.
proof fn lemma_prefix<E>(part: Seq<HeapElement<E>>, whole: Seq<HeapElement<E>>)
    requires
        ascending(part),
        ascending(whole),
        part.to_multiset().subset_of(whole.to_multiset()),
        part.len() > 0 ==> forall|x: HeapElement<E>|
            part.to_multiset().count(x) < #[trigger] whole.to_multiset().count(x) ==> part.last().distance
                <= x.distance,
    ensures
        part.len() <= whole.len(),
        forall|i: int| 0 <= i < part.len() ==> (#[trigger] part[i]).distance == whole[i].distance,
        part.len() < whole.len() ==> exists|x: HeapElement<E>|
            part.to_multiset().count(x) < #[trigger] whole.to_multiset().count(x) && x.distance
                == whole[part.len() as int].distance,
    decreases part.len(),
{
    broadcast use vstd::multiset::group_multiset_axioms;
    broadcast use vstd::seq_lib::to_multiset_contains;
    broadcast use vstd::seq_lib::to_multiset_len;
    if part.len() == 0 {
        assert(part.to_multiset().len() == 0);
        if whole.len() > 0 {
            let x = whole[0];
            assert(whole.to_multiset().count(x) > 0);
            assert(part.to_multiset().count(x) <= part.to_multiset().len());
        }
    } else {
        let p0 = part[0];
        let s0 = whole[0 as int];
        assert(part.to_multiset().count(p0) > 0);
        assert(whole.to_multiset().count(p0) > 0);
        assert(whole.contains(p0));
        let j = choose|j: int| 0 <= j < whole.len() && whole[j] == p0;
        assert(whole[0].distance <= whole[j].distance);
        assert(whole.to_multiset().count(s0) > 0);
        if part.to_multiset().count(s0) > 0 {
            assert(part.contains(s0));
            let i = choose|i: int| 0 <= i < part.len() && part[i] == s0;
            assert(part[0].distance <= part[i].distance);
        } else {
            assert(part[0].distance <= part.last().distance);
        }
        assert(p0.distance == s0.distance);
        let rest = part.skip(1);
        let fewer = whole.remove(j);
        assert(part =~= seq![p0] + rest);
        assert(rest =~= part.remove(0));
        vstd::seq_lib::to_multiset_remove(part, 0);
        vstd::seq_lib::to_multiset_remove(whole, j);
        assert forall|a: int, b: int| 0 <= a <= b < rest.len() implies (#[trigger] rest[a]).distance <= (
        #[trigger] rest[b]).distance by {
            assert(part[a + 1].distance <= part[b + 1].distance);
        }
        assert forall|a: int| 0 <= a < fewer.len() implies (#[trigger] fewer[a]).distance == whole[a + 1].distance by {
            if a < j {
                assert(whole[0].distance <= whole[a].distance);
                assert(whole[a].distance <= whole[a + 1].distance);
                assert(whole[a + 1].distance <= whole[j].distance);
            }
        }
        assert forall|a: int, b: int| 0 <= a <= b < fewer.len() implies (#[trigger] fewer[a]).distance <= (
        #[trigger] fewer[b]).distance by {
            assert(whole[a + 1].distance <= whole[b + 1].distance);
        }
        if rest.len() > 0 {
            assert(rest.last() == part.last());
        }
        lemma_prefix(rest, fewer);
        assert forall|i: int| 0 <= i < part.len() implies (#[trigger] part[i]).distance == whole[i].distance by {
            if i > 0 {
                assert(rest[i - 1].distance == fewer[i - 1].distance);
            }
        }
        if part.len() < whole.len() {
            let x = choose|x: HeapElement<E>|
                rest.to_multiset().count(x) < #[trigger] fewer.to_multiset().count(x) && x.distance
                    == fewer[rest.len() as int].distance;
            assert(part.to_multiset().count(x) < whole.to_multiset().count(x));
        }
    }
}

/// An answer that holds the `k` nearest of `all` within `radius` has the
/// distances with which a scan of `all`, sorted by distance, begins. It stops
/// only at `k` elements, at the end of the scan, or where the scan goes beyond
/// the radius.
pub proof fn lemma_nearest_matches_scan<E>(picked: Seq<HeapElement<E>>, all: Seq<HeapElement<E>>, k: nat, radius: i64)
    requires
        nearest_of(picked, all.to_multiset(), k, radius),
    ensures
        picked.len() <= all.len(),
        forall|i: int| 0 <= i < picked.len() ==> (#[trigger] picked[i]).distance == by_distance(all)[i].distance,
        picked.len() == k || picked.len() == all.len() || radius < by_distance(all)[picked.len() as int].distance,
{
    let scan = by_distance(all);
    lemma_by_distance(all);
    if picked.len() > 0 {
        assert forall|x: HeapElement<E>|
            picked.to_multiset().count(x) < #[trigger] scan.to_multiset().count(x) implies picked.last().distance
            <= x.distance by {
            assert(picked.last().distance <= radius);
        }
    }
    lemma_prefix(picked, scan);
}

/// Two answers that hold the `k` nearest of the same elements within the same
/// radius are as long as each other and agree in every distance.
pub proof fn lemma_answers_agree<E>(
    first: Seq<HeapElement<E>>,
    second: Seq<HeapElement<E>>,
    all: Seq<HeapElement<E>>,
    k: nat,
    radius: i64,
)
    requires
        nearest_of(first, all.to_multiset(), k, radius),
        nearest_of(second, all.to_multiset(), k, radius),
    ensures
        first.len() == second.len(),
        forall|i: int| 0 <= i < first.len() ==> (#[trigger] first[i]).distance == second[i].distance,
{
    let scan = by_distance(all);
    lemma_nearest_matches_scan(first, all, k, radius);
    lemma_nearest_matches_scan(second, all, k, radius);
    if first.len() < second.len() {
        assert(second[first.len() as int].distance <= radius);
    }
    if second.len() < first.len() {
        assert(first[second.len() as int].distance <= radius);
    }
}

/// What a tree answers to a query for the `num` nearest entries within a
/// radius is what a scan of all its entries finds: under an admissible metric
/// that the distance function computes, the answer has the distances with
/// which the scan, sorted by distance, begins, and it stops only at `num`
/// entries, at the end of the scan, or where the scan goes beyond the radius.
pub proof fn lemma_query_matches_scan<'a, T, F: Fn(&[i64], &[i64]) -> i64>(
    tree: &KdTree<T>,
    q: Seq<i64>,
    num: nat,
    radius: i64,
    distance: &F,
    found: Seq<(i64, &'a T)>,
    m: Metric,
)
    requires
        tree.selects(q, num, radius, distance, found),
        measures(distance, m),
        admissible(m),
    ensures
        found.len() <= tree.entries().len(),
        forall|i: int|
            0 <= i < found.len() ==> (#[trigger] found[i]).0 == by_distance(ranked::<T>(tree.entries(), q, m))[i].distance,
        found.len() == num || found.len() == tree.entries().len() || radius < by_distance(
            ranked::<T>(tree.entries(), q, m),
        )[found.len() as int].distance,
{
    let k = if num < tree.entries().len() {
        num
    } else {
        tree.entries().len()
    };
    let all = ranked::<T>(tree.entries(), q, m);
    assert(nearest_of(as_ranked(found), all.to_multiset(), k, radius));
    lemma_nearest_matches_scan(as_ranked(found), all, k, radius);
    assert forall|i: int| 0 <= i < found.len() implies (#[trigger] found[i]).0 == by_distance(all)[i].distance by {
        assert(as_ranked(found)[i].distance == found[i].0);
    }
}

/// The same query on the same tree has the same answer: under an admissible
/// metric that the distance function computes, two answers are as long as
/// each other and agree in every distance.
pub proof fn lemma_queries_agree<'a, T, F: Fn(&[i64], &[i64]) -> i64>(
    tree: &KdTree<T>,
    q: Seq<i64>,
    num: nat,
    radius: i64,
    distance: &F,
    first: Seq<(i64, &'a T)>,
    second: Seq<(i64, &'a T)>,
    m: Metric,
)
    requires
        tree.selects(q, num, radius, distance, first),
        tree.selects(q, num, radius, distance, second),
        measures(distance, m),
        admissible(m),
    ensures
        first.len() == second.len(),
        forall|i: int| 0 <= i < first.len() ==> (#[trigger] first[i]).0 == second[i].0,
{
    let k = if num < tree.entries().len() {
        num
    } else {
        tree.entries().len()
    };
    let all = ranked::<T>(tree.entries(), q, m);
    assert(nearest_of(as_ranked(first), all.to_multiset(), k, radius));
    assert(nearest_of(as_ranked(second), all.to_multiset(), k, radius));
    lemma_answers_agree(as_ranked(first), as_ranked(second), all, k, radius);
    assert forall|i: int| 0 <= i < first.len() implies (#[trigger] first[i]).0 == second[i].0 by {
        assert(as_ranked(first)[i].distance == first[i].0);
        assert(as_ranked(second)[i].distance == second[i].0);
    }
}

} // verus!
