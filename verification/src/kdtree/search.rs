//! Branch-and-bound search: the nearest entries to a point, and the entries
//! within a radius of it.

pub mod course;
pub mod lazy;

use super::belongs_in_left;
use super::checked;
use super::held;
use super::paired;
use super::ErrorKind;
use super::KdTree;
use super::Node;
use crate::distance::admissible;
use crate::distance::callable;
use crate::distance::may_return;
use crate::distance::measures;
use crate::distance::Metric;
use crate::heap::ascending;
use crate::heap::heap_ordered;
use crate::heap::RankedHeap;
use crate::heap_element::HeapElement;
use crate::scalar::max_value;
use crate::scalar::zero;
use crate::tally::gathered;
use crate::tally::lemma_joined;
use crate::tally::total;
use crate::util::clamped;
use crate::util::distance_to_space;
use crate::util::lemma_clamped_between;
use self::course::descends_alike;
use self::course::descends_to;
use self::course::scans_alike;
use self::course::scans_to;
use self::course::searches_alike;
use self::course::searches_to;
use self::course::steps_to;
use vstd::multiset::Multiset;
use vstd::prelude::*;

verus! {

/// The entries, each ranked by the distance `m` of its point from `q` and
/// carrying its payload, in the order of the entries.
pub open spec fn ranked<'a, T>(entries: Seq<(Seq<i64>, T)>, q: Seq<i64>, m: Metric) -> Seq<HeapElement<&'a T>> {
    entries.map_values(|e: (Seq<i64>, T)| HeapElement { distance: m(q, e.0), element: &e.1 })
}

/// The pairs that a query returns, as ranked elements.
pub open spec fn as_ranked<'a, T>(found: Seq<(i64, &'a T)>) -> Seq<HeapElement<&'a T>> {
    found.map_values(|p: (i64, &'a T)| HeapElement { distance: p.0, element: p.1 })
}

/// A distance `d` that a search for at most `k` elements within `radius` may
/// leave out: it is beyond the radius, or the search is `full` and `d` is no
/// nearer than the `worst` distance that it keeps.
pub open spec fn beyond(d: i64, radius: i64, full: bool, worst: i64) -> bool {
    d > radius || (full && d >= worst)
}

/// Whether an element is no farther than `radius`.
pub open spec fn no_farther<E>(radius: i64) -> spec_fn(HeapElement<E>) -> bool {
    |x: HeapElement<E>| x.distance <= radius
}

/// No element of `s` is farther than `radius`.
pub open spec fn all_within<E>(s: Seq<HeapElement<E>>, radius: i64) -> bool {
    forall|i: int| 0 <= i < s.len() ==> (#[trigger] s[i]).distance <= radius
}

/// Whatever `all` holds more often than `picked` does may be left out by a
/// search for at most `k` elements within `radius` that keeps `picked`.
pub open spec fn rest_is_beyond<E>(picked: Seq<HeapElement<E>>, all: Multiset<HeapElement<E>>, k: nat, radius: i64) -> bool {
    forall|x: HeapElement<E>|
        picked.to_multiset().count(x) < #[trigger] all.count(x) ==> beyond(
            x.distance,
            radius,
            picked.len() == k,
            if picked.len() > 0 {
                picked.last().distance
            } else {
                i64::MIN
            },
        )
}

/// `picked` are the `k` nearest elements of `all` within `radius`, from the
/// nearest to the farthest: as many as there are, if there are fewer.
pub open spec fn nearest_of<E>(picked: Seq<HeapElement<E>>, all: Multiset<HeapElement<E>>, k: nat, radius: i64) -> bool {
    &&& ascending(picked)
    &&& picked.len() <= k
    &&& all_within(picked, radius)
    &&& picked.to_multiset().subset_of(all)
    &&& rest_is_beyond(picked, all, k, radius)
}

/// The key under which a subtree with the lower bound `d` waits: the nearer
/// the subtree, the higher its key.
pub open spec fn mirrored(d: i64) -> i64 {
    (-1 - d) as i64
}

fn mirror(d: i64) -> (r: i64)
    ensures
        r == mirrored(d),
        mirrored(r) == d,
{
    -1 - d
}

spec fn all_beyond<E>(s: Seq<HeapElement<E>>, radius: i64, full: bool, worst: i64) -> bool {
    forall|i: int| 0 <= i < s.len() ==> beyond((#[trigger] s[i]).distance, radius, full, worst)
}

spec fn part_of<'a, T>(q: Seq<i64>, m: Metric) -> spec_fn(HeapElement<&'a KdTree<T>>) -> Multiset<HeapElement<&'a T>> {
    |x: HeapElement<&'a KdTree<T>>| ranked(x.element.entries(), q, m).to_multiset()
}

/// The number of nodes of a waiting subtree.
pub open spec fn weight_of<'a, T>() -> spec_fn(HeapElement<&'a KdTree<T>>) -> nat {
    |x: HeapElement<&'a KdTree<T>>| x.element.nodes()
}

/// The number of entries of a waiting subtree.
spec fn size_of<'a, T>() -> spec_fn(HeapElement<&'a KdTree<T>>) -> nat {
    |x: HeapElement<&'a KdTree<T>>| x.element.entries().len()
}

/// Whatever waits in `after` more often than in `before` waits under a lower
/// bound of at most `limit`.
spec fn newcomers_within<'a, T>(
    before: Multiset<HeapElement<&'a KdTree<T>>>,
    after: Multiset<HeapElement<&'a KdTree<T>>>,
    limit: i64,
) -> bool {
    forall|x: HeapElement<&'a KdTree<T>>| before.count(x) < #[trigger] after.count(x) ==> mirrored(x.distance) <= limit
}

/// The limit of one step of a search that keeps `kept`: the radius, or the
/// worst distance kept once `num` are kept, whichever is less.
pub open spec fn limit_of<'a, T>(kept: Seq<HeapElement<&'a T>>, num: nat, max_dist: i64) -> i64 {
    if kept.len() == num && kept[0].distance < max_dist {
        kept[0].distance
    } else {
        max_dist
    }
}

/// A subtree that may wait: it is well formed and of the query's dimensions.
spec fn fit<'a, T>(x: HeapElement<&'a KdTree<T>>, dims: nat) -> bool {
    x.element.wf() && x.element.dimensions == dims
}

/// Every waiting subtree is well formed and of the query's dimensions.
spec fn all_fit<'a, T>(pending: Seq<HeapElement<&'a KdTree<T>>>, dims: nat) -> bool {
    forall|x: HeapElement<&'a KdTree<T>>| #[trigger] pending.contains(x) ==> fit(x, dims)
}

/// Every element kept is within `max_dist`.
spec fn all_kept_within<'a, T>(kept: Seq<HeapElement<&'a T>>, max_dist: i64) -> bool {
    forall|x: HeapElement<&'a T>| #[trigger] kept.contains(x) ==> x.distance <= max_dist
}

/// The key of a waiting subtree is a lower bound of its distances.
spec fn bounded_below<'a, T>(x: HeapElement<&'a KdTree<T>>, q: Seq<i64>, m: Metric) -> bool {
    forall|i: int| 0 <= i < x.element.entries().len() ==> mirrored(x.distance) <= m(q, (#[trigger] x.element.entries()[i]).0)
}

/// Every entry of `all` is accounted for: kept, rejected, pruned with its
/// subtree, waiting in a subtree, still in hand, or set aside in `extra`.
spec fn accounted_with<'a, T>(
    m: Metric,
    q: Seq<i64>,
    all: Seq<(Seq<i64>, T)>,
    kept: Seq<HeapElement<&'a T>>,
    rejected: Seq<HeapElement<&'a T>>,
    pruned: Seq<(Seq<i64>, T)>,
    pending: Seq<HeapElement<&'a KdTree<T>>>,
    rest: Seq<(Seq<i64>, T)>,
    extra: Multiset<HeapElement<&'a T>>,
) -> bool {
    ranked(all, q, m).to_multiset() =~= kept.to_multiset().add(rejected.to_multiset()).add(
        ranked(pruned, q, m).to_multiset(),
    ).add(gathered(pending, part_of(q, m))).add(ranked(rest, q, m).to_multiset()).add(extra)
}

/// The state of a search for the `k` nearest within `radius`, with `extra`
/// set aside.
spec fn searching_with<'a, T, F: Fn(&[i64], &[i64]) -> i64>(
    f: &F,
    q: Seq<i64>,
    k: nat,
    radius: i64,
    all: Seq<(Seq<i64>, T)>,
    pending: Seq<HeapElement<&'a KdTree<T>>>,
    kept: Seq<HeapElement<&'a T>>,
    rejected: Seq<HeapElement<&'a T>>,
    pruned: Seq<(Seq<i64>, T)>,
    rest: Seq<(Seq<i64>, T)>,
    extra: Multiset<HeapElement<&'a T>>,
) -> bool {
    &&& heap_ordered(pending)
    &&& heap_ordered(kept)
    &&& 1 <= k
    &&& kept.len() <= k
    &&& forall|x: HeapElement<&'a T>| kept.contains(x) ==> x.distance <= radius
    &&& forall|x: HeapElement<&'a KdTree<T>>| pending.contains(x) ==> fit(x, q.len())
    &&& all_beyond(rejected, radius, kept.len() == k, kept[0].distance)
    &&& forall|m: Metric| #[trigger]
        measures(f, m) ==> accounted_with(m, q, all, kept, rejected, pruned, pending, rest, extra)
    &&& forall|m: Metric| #[trigger]
        measures(f, m) && admissible(m) ==> {
            &&& all_beyond(ranked(pruned, q, m), radius, kept.len() == k, kept[0].distance)
            &&& forall|x: HeapElement<&'a KdTree<T>>| pending.contains(x) ==> bounded_below(x, q, m)
        }
}

/// Every entry of `all` is accounted for: kept, rejected, pruned with its
/// subtree, waiting in a subtree, or still in hand.
spec fn accounted<'a, T>(
    m: Metric,
    q: Seq<i64>,
    all: Seq<(Seq<i64>, T)>,
    kept: Seq<HeapElement<&'a T>>,
    rejected: Seq<HeapElement<&'a T>>,
    pruned: Seq<(Seq<i64>, T)>,
    pending: Seq<HeapElement<&'a KdTree<T>>>,
    rest: Seq<(Seq<i64>, T)>,
) -> bool {
    accounted_with(m, q, all, kept, rejected, pruned, pending, rest, Multiset::empty())
}

/// The state of a search for the `k` nearest within `radius`.
spec fn searching<'a, T, F: Fn(&[i64], &[i64]) -> i64>(
    f: &F,
    q: Seq<i64>,
    k: nat,
    radius: i64,
    all: Seq<(Seq<i64>, T)>,
    pending: Seq<HeapElement<&'a KdTree<T>>>,
    kept: Seq<HeapElement<&'a T>>,
    rejected: Seq<HeapElement<&'a T>>,
    pruned: Seq<(Seq<i64>, T)>,
    rest: Seq<(Seq<i64>, T)>,
) -> bool {
    searching_with(f, q, k, radius, all, pending, kept, rejected, pruned, rest, Multiset::empty())
}

proof fn lemma_ranked_concat<'a, T>(a: Seq<(Seq<i64>, T)>, b: Seq<(Seq<i64>, T)>, q: Seq<i64>, m: Metric)
    ensures
        ranked::<T>(a + b, q, m) =~= ranked::<T>(a, q, m) + ranked::<T>(b, q, m),
        ranked::<T>(a + b, q, m).to_multiset() =~= ranked::<T>(a, q, m).to_multiset().add(
            ranked::<T>(b, q, m).to_multiset(),
        ),
{
    assert(ranked::<T>(a + b, q, m) =~= ranked::<T>(a, q, m) + ranked::<T>(b, q, m));
    vstd::seq_lib::lemma_multiset_commutative(ranked::<T>(a, q, m), ranked::<T>(b, q, m));
}

proof fn lemma_ranked_first<'a, T>(s: Seq<(Seq<i64>, T)>, q: Seq<i64>, m: Metric)
    requires
        s.len() > 0,
    ensures
        ranked::<T>(s, q, m).to_multiset() =~= ranked::<T>(s.skip(1), q, m).to_multiset().insert(
            ranked::<T>(s, q, m)[0],
        ),
{
    broadcast use vstd::multiset::group_multiset_axioms;
    let head = s.take(1);
    assert(s =~= head + s.skip(1));
    lemma_ranked_concat::<T>(head, s.skip(1), q, m);
    let one = ranked::<T>(head, q, m);
    assert(one =~= Seq::<HeapElement<&T>>::empty().push(ranked::<T>(s, q, m)[0]));
    vstd::seq_lib::to_multiset_build(Seq::<HeapElement<&T>>::empty(), ranked::<T>(s, q, m)[0]);
    crate::kdtree::lemma_empty_multiset::<HeapElement<&T>>();
}

proof fn lemma_beyond_relaxes<E>(s: Seq<HeapElement<E>>, radius: i64, full: bool, worst: i64, full2: bool, worst2: i64)
    requires
        all_beyond(s, radius, full, worst),
        full ==> full2 && worst2 <= worst,
    ensures
        all_beyond(s, radius, full2, worst2),
{
    assert forall|i: int| 0 <= i < s.len() implies beyond((#[trigger] s[i]).distance, radius, full2, worst2) by {
        assert(beyond(s[i].distance, radius, full, worst));
    }
}

/// What the distance to a subtree's box returns is, under an admissible
/// metric, a lower bound of the distances to its entries.
proof fn lemma_bound_holds<T, F: Fn(&[i64], &[i64]) -> i64>(node: &KdTree<T>, q: Seq<i64>, f: &F, m: Metric, lb: i64)
    requires
        node.wf(),
        q.len() == node.dimensions,
        measures(f, m),
        admissible(m),
        may_return(f, q, clamped(q, node.min_bounds@, node.max_bounds@), lb),
    ensures
        forall|i: int| 0 <= i < node.entries().len() ==> lb <= m(q, (#[trigger] node.entries()[i]).0),
{
    node.lemma_entries_held();
    let c = clamped(q, node.min_bounds@, node.max_bounds@);
    let (x, y) = choose|x: &[i64], y: &[i64]| x@ == q && y@ == c && #[trigger] call_ensures(*f, (x, y), lb);
    assert(lb == m(q, c));
    assert forall|i: int| 0 <= i < node.entries().len() implies lb <= m(q, (#[trigger] node.entries()[i]).0) by {
        let p = node.entries()[i].0;
        assert(held(p, node.dimensions as nat, node.min_bounds@, node.max_bounds@));
        lemma_clamped_between(q, node.min_bounds@, node.max_bounds@, p);
    }
}

/// A subtree passed by on the way down comes to wait under the distance to its
/// box.
proof fn lemma_passes_waiting<'b, T, F: Fn(&[i64], &[i64]) -> i64>(
    f: &F,
    q: Seq<i64>,
    k: nat,
    radius: i64,
    all: Seq<(Seq<i64>, T)>,
    waiting: Seq<HeapElement<&'b KdTree<T>>>,
    after: Seq<HeapElement<&'b KdTree<T>>>,
    kept: Seq<HeapElement<&'b T>>,
    rejected: Seq<HeapElement<&'b T>>,
    pruned: Seq<(Seq<i64>, T)>,
    rest: Seq<(Seq<i64>, T)>,
    onward: Seq<(Seq<i64>, T)>,
    extra: Multiset<HeapElement<&'b T>>,
    candidate: &'b KdTree<T>,
    lb: i64,
    item: HeapElement<&'b KdTree<T>>,
)
    requires
        searching_with(f, q, k, radius, all, waiting, kept, rejected, pruned, rest, extra),
        rest == onward + candidate.entries() || rest == candidate.entries() + onward,
        candidate.wf(),
        candidate.dimensions == q.len(),
        may_return(f, q, clamped(q, candidate.min_bounds@, candidate.max_bounds@), lb),
        item == (HeapElement { distance: mirrored(lb), element: candidate }),
        heap_ordered(after),
        after.to_multiset() =~= waiting.to_multiset().insert(item),
    ensures
        searching_with(f, q, k, radius, all, after, kept, rejected, pruned, onward, extra),
        total(after, weight_of::<T>()) == total(waiting, weight_of::<T>()) + candidate.nodes(),
{
    broadcast use vstd::multiset::group_multiset_axioms;
    let full = kept.len() == k;
    let worst = kept[0].distance;
    lemma_joined(waiting, after, item, weight_of::<T>(), part_of::<T>(q, |a: Seq<i64>, b: Seq<i64>| 0i64));
    assert forall|m: Metric| #[trigger] measures(f, m) implies accounted_with(
        m,
        q,
        all,
        kept,
        rejected,
        pruned,
        after,
        onward,
        extra,
    ) by {
        assert(accounted_with(m, q, all, kept, rejected, pruned, waiting, rest, extra));
        lemma_joined(waiting, after, item, weight_of::<T>(), part_of::<T>(q, m));
        lemma_ranked_concat::<T>(onward, candidate.entries(), q, m);
        lemma_ranked_concat::<T>(candidate.entries(), onward, q, m);
    }
    assert forall|m: Metric| #[trigger] measures(f, m) && admissible(m) implies {
        &&& all_beyond(ranked::<T>(pruned, q, m), radius, full, worst)
        &&& forall|x: HeapElement<&'b KdTree<T>>| after.contains(x) ==> bounded_below(x, q, m)
    } by {
        lemma_bound_holds(candidate, q, f, m, lb);
        assert(bounded_below(item, q, m));
        assert forall|x: HeapElement<&'b KdTree<T>>| after.contains(x) implies bounded_below(x, q, m) by {
            if x != item {
                assert(waiting.contains(x));
            }
        }
    }
}

/// A subtree passed by on the way down whose box is beyond the limit is left
/// out with all its entries.
proof fn lemma_passes_pruned<'b, T, F: Fn(&[i64], &[i64]) -> i64>(
    f: &F,
    q: Seq<i64>,
    k: nat,
    radius: i64,
    all: Seq<(Seq<i64>, T)>,
    waiting: Seq<HeapElement<&'b KdTree<T>>>,
    kept: Seq<HeapElement<&'b T>>,
    rejected: Seq<HeapElement<&'b T>>,
    pruned: Seq<(Seq<i64>, T)>,
    rest: Seq<(Seq<i64>, T)>,
    onward: Seq<(Seq<i64>, T)>,
    extra: Multiset<HeapElement<&'b T>>,
    candidate: &'b KdTree<T>,
    lb: i64,
    limit: i64,
)
    requires
        searching_with(f, q, k, radius, all, waiting, kept, rejected, pruned, rest, extra),
        rest == onward + candidate.entries() || rest == candidate.entries() + onward,
        candidate.wf(),
        candidate.dimensions == q.len(),
        may_return(f, q, clamped(q, candidate.min_bounds@, candidate.max_bounds@), lb),
        limit < lb,
        limit >= radius || (kept.len() == k && limit >= kept[0].distance),
    ensures
        searching_with(f, q, k, radius, all, waiting, kept, rejected, pruned + candidate.entries(), onward, extra),
{
    broadcast use vstd::multiset::group_multiset_axioms;
    let full = kept.len() == k;
    let worst = kept[0].distance;
    let cut = pruned + candidate.entries();
    assert forall|m: Metric| #[trigger] measures(f, m) implies accounted_with(
        m,
        q,
        all,
        kept,
        rejected,
        cut,
        waiting,
        onward,
        extra,
    ) by {
        assert(accounted_with(m, q, all, kept, rejected, pruned, waiting, rest, extra));
        lemma_ranked_concat::<T>(onward, candidate.entries(), q, m);
        lemma_ranked_concat::<T>(candidate.entries(), onward, q, m);
        lemma_ranked_concat::<T>(pruned, candidate.entries(), q, m);
    }
    assert forall|m: Metric| #[trigger] measures(f, m) && admissible(m) implies {
        &&& all_beyond(ranked::<T>(cut, q, m), radius, full, worst)
        &&& forall|x: HeapElement<&'b KdTree<T>>| waiting.contains(x) ==> bounded_below(x, q, m)
    } by {
        lemma_bound_holds(candidate, q, f, m, lb);
        lemma_ranked_concat::<T>(pruned, candidate.entries(), q, m);
        let old_part = ranked::<T>(pruned, q, m);
        let new_part = ranked::<T>(candidate.entries(), q, m);
        assert(all_beyond(old_part, radius, full, worst));
        assert forall|i: int| 0 <= i < (old_part + new_part).len() implies beyond(
            (#[trigger] (old_part + new_part)[i]).distance,
            radius,
            full,
            worst,
        ) by {
            if i < old_part.len() {
                assert(beyond(old_part[i].distance, radius, full, worst));
            } else {
                let j = i - old_part.len();
                assert(lb <= m(q, candidate.entries()[j].0));
            }
        }
    }
}

/// Under an admissible metric, whatever waits in `pending` is no nearer than
/// `floor`, if the key of every waiting subtree says so.
proof fn lemma_waiting_beyond<'a, T>(pending: Seq<HeapElement<&'a KdTree<T>>>, q: Seq<i64>, m: Metric, floor: i64)
    requires
        forall|x: HeapElement<&'a KdTree<T>>| pending.contains(x) ==> bounded_below(x, q, m),
        forall|x: HeapElement<&'a KdTree<T>>| pending.contains(x) ==> floor <= mirrored(x.distance),
    ensures
        forall|y: HeapElement<&'a T>| gathered(pending, part_of(q, m)).count(y) > 0 ==> floor <= y.distance,
    decreases pending.len(),
{
    broadcast use vstd::multiset::group_multiset_axioms;
    broadcast use vstd::seq_lib::to_multiset_contains;
    if pending.len() > 0 {
        let last = pending.last();
        let init = pending.drop_last();
        assert(pending.contains(last));
        assert forall|x: HeapElement<&'a KdTree<T>>| init.contains(x) implies pending.contains(x) by {
            let i = choose|i: int| 0 <= i < init.len() && init[i] == x;
            assert(pending[i] == x);
        }
        lemma_waiting_beyond(init, q, m, floor);
        assert forall|y: HeapElement<&'a T>| gathered(pending, part_of(q, m)).count(y) > 0 implies floor
            <= y.distance by {
            if gathered(init, part_of(q, m)).count(y) == 0 {
                let r = ranked::<T>(last.element.entries(), q, m);
                assert(r.to_multiset().count(y) > 0);
                assert(r.contains(y));
                let i = choose|i: int| 0 <= i < r.len() && r[i] == y;
                assert(bounded_below(last, q, m));
                assert(mirrored(last.distance) <= m(q, last.element.entries()[i].0));
            }
        }
    }
}

/// A multiset within another of the same size is that other.
proof fn lemma_subset_of_same_size<A>(a: Multiset<A>, b: Multiset<A>)
    requires
        a.subset_of(b),
        a.len() == b.len(),
    ensures
        a =~= b,
{
    broadcast use vstd::multiset::group_multiset_axioms;
    let d = b.sub(a);
    assert(d.len() == 0);
    assert forall|x: A| a.count(x) == b.count(x) by {
        assert(d.count(x) == b.count(x) - a.count(x));
        if d.count(x) > 0 {
            assert(d.count(x) <= d.len());
        }
    }
}

proof fn lemma_member<E>(s: Seq<HeapElement<E>>, y: HeapElement<E>) -> (i: int)
    requires
        s.to_multiset().count(y) > 0,
    ensures
        0 <= i < s.len(),
        s[i] == y,
{
    broadcast use vstd::seq_lib::to_multiset_contains;
    assert(s.contains(y));
    choose|i: int| 0 <= i < s.len() && s[i] == y
}

/// The first `num` of `items` as pairs of a distance and a payload.
fn into_pairs<'a, T>(items: Vec<HeapElement<&'a T>>, num: usize) -> (found: Vec<(i64, &'a T)>)
    requires
        items@.len() <= num,
    ensures
        as_ranked(found@) =~= items@,
{
    let mut found: Vec<(i64, &'a T)> = Vec::new();
    let mut i: usize = 0;
    while i < items.len() && i < num
        invariant
            i <= items@.len(),
            items@.len() <= num,
            found@.len() == i,
            forall|j: int| 0 <= j < i ==> #[trigger] found@[j] == (items@[j].distance, items@[j].element),
        decreases items@.len() - i,
    {
        let pair: (i64, &'a T) = From::from(HeapElement { distance: items[i].distance, element: items[i].element });
        found.push(pair);
        i += 1;
    }
    found
}

impl<T> KdTree<T> {
    /// What a query for the `num` nearest entries to `q` within `radius` owes,
    /// whatever the distance function: at most the `num` nearest, and no more
    /// than there are entries, none beyond the radius, in ascending order; and
    /// without a radius, as many as that.
    /// Where `distance` computes a metric, they are entries of the tree with
    /// their distances, none more often than the tree holds it. Where that
    /// metric is admissible, every entry left out is beyond the radius, or no
    /// nearer than the farthest of a full answer. Which of the entries that are
    /// equally far are picked, and in which order they stand, is as the course
    /// of the search gives it.
    pub open spec fn selects<'a, F: Fn(&[i64], &[i64]) -> i64>(
        &self,
        q: Seq<i64>,
        num: nat,
        radius: i64,
        distance: &F,
        found: Seq<(i64, &'a T)>,
    ) -> bool {
        let k = if num < self.entries().len() {
            num
        } else {
            self.entries().len()
        };
        let picked = as_ranked(found);
        &&& ascending(picked)
        &&& picked.len() <= k
        &&& radius == i64::MAX ==> picked.len() == k
        &&& all_within(picked, radius)
        &&& forall|m: Metric| #[trigger]
            measures(distance, m) ==> picked.to_multiset().subset_of(ranked::<T>(self.entries(), q, m).to_multiset())
        &&& forall|m: Metric| #[trigger]
            measures(distance, m) && admissible(m) ==> rest_is_beyond(
                picked,
                ranked::<T>(self.entries(), q, m).to_multiset(),
                k,
                radius,
            )
        &&& forall|m: Metric| #[trigger] measures(distance, m) ==> picked == self.nearest_in_course::<'a>(q, num, radius, m)
    }

    /// What a query for the entries within `radius` of `q` gives, under every
    /// metric that `distance` computes: what the search keeps, in the order in
    /// which it keeps it, or, where the query sorts, from the nearest on.
    pub open spec fn reaches<'a, F: Fn(&[i64], &[i64]) -> i64>(
        &self,
        q: Seq<i64>,
        radius: i64,
        distance: &F,
        sorts: bool,
        found: Seq<(i64, &'a T)>,
    ) -> bool {
        forall|m: Metric| #[trigger]
            measures(distance, m) ==> as_ranked(found) == (if sorts {
                crate::heap::sorted(
                    self.within_in_course::<'a>(q, radius, m),
                    self.within_in_course::<'a>(q, radius, m).len() as int,
                )
            } else {
                self.within_in_course::<'a>(q, radius, m)
            })
    }

    /// What a query for the entries within `radius` of `q` owes: none is beyond
    /// the radius. Where `distance` computes a metric, they are entries of the
    /// tree with their distances, none more often than the tree holds it.
    /// Where that metric is admissible, they are all the entries within the
    /// radius.
    pub open spec fn encloses<'a, F: Fn(&[i64], &[i64]) -> i64>(
        &self,
        q: Seq<i64>,
        radius: i64,
        distance: &F,
        picked: Seq<HeapElement<&'a T>>,
    ) -> bool {
        &&& all_within(picked, radius)
        &&& forall|m: Metric| #[trigger]
            measures(distance, m) ==> picked.to_multiset().subset_of(ranked::<T>(self.entries(), q, m).to_multiset())
        &&& forall|m: Metric| #[trigger]
            measures(distance, m) && admissible(m) ==> picked.to_multiset() =~= ranked::<T>(
                self.entries(),
                q,
                m,
            ).to_multiset().filter(no_farther::<&'a T>(radius))
    }

    /// The `num` nearest entries to `point`, from the nearest on: each with its
    /// distance and its payload.
    pub fn nearest<'a, F>(&'a self, point: &[i64], num: usize, distance: &F) -> (r: Result<
        Vec<(i64, &'a T)>,
        ErrorKind,
    >) where F: Fn(&[i64], &[i64]) -> i64
        requires
            self.wf(),
            callable(distance, self.dims()),
        ensures
            checked(point@, self.dims()) matches Err(e) ==> r == Err::<Vec<(i64, &'a T)>, ErrorKind>(e),
            checked(point@, self.dims()) is Ok ==> r is Ok,
            r matches Ok(found) ==> self.selects(point@, num as nat, i64::MAX, distance, found@),
    {
        self.nearest_within_radius_internal(point, num, max_value(), distance)
    }

    /// The `num` nearest entries to `point` among those within `radius` of it,
    /// from the nearest on. Without a radius, every entry is within it.
    pub fn nearest_within_radius<'a, F>(&'a self, point: &[i64], num: usize, radius: Option<i64>, distance: &F) -> (r:
        Result<Vec<(i64, &'a T)>, ErrorKind>) where F: Fn(&[i64], &[i64]) -> i64
        requires
            self.wf(),
            callable(distance, self.dims()),
        ensures
            checked(point@, self.dims()) matches Err(e) ==> r == Err::<Vec<(i64, &'a T)>, ErrorKind>(e),
            checked(point@, self.dims()) is Ok ==> r is Ok,
            r matches Ok(found) ==> self.selects(
                point@,
                num as nat,
                match radius {
                    Some(limit) => limit,
                    None => i64::MAX,
                },
                distance,
                found@,
            ),
    {
        let radius = match radius {
            Some(limit) => limit,
            None => max_value(),
        };
        self.nearest_within_radius_internal(point, num, radius, distance)
    }

    fn nearest_within_radius_internal<'a, F>(&'a self, point: &[i64], num: usize, radius: i64, distance: &F) -> (r:
        Result<Vec<(i64, &'a T)>, ErrorKind>) where F: Fn(&[i64], &[i64]) -> i64
        requires
            self.wf(),
            callable(distance, self.dims()),
        ensures
            checked(point@, self.dims()) matches Err(e) ==> r == Err::<Vec<(i64, &'a T)>, ErrorKind>(e),
            checked(point@, self.dims()) is Ok ==> r is Ok,
            r matches Ok(found) ==> self.selects(point@, num as nat, radius, distance, found@),
    {
        self.check_point(point)?;
        proof {
            self.lemma_size();
        }
        let ghost asked = num as nat;
        let num = if num < self.size {
            num
        } else {
            self.size
        };
        if num == 0 {
            let found: Vec<(i64, &'a T)> = Vec::new();
            proof {
                assert(as_ranked(found@) =~= Seq::<HeapElement<&'a T>>::empty());
                crate::kdtree::lemma_empty_multiset::<HeapElement<&'a T>>();
                broadcast use vstd::multiset::group_multiset_axioms;
            }
            return Ok(found);
        }
        let ghost q = point@;
        let ghost all = self.entries();
        let mut pending: RankedHeap<&'a KdTree<T>> = RankedHeap::new();
        let mut evaluated: RankedHeap<&'a T> = RankedHeap::new();
        let ghost mut rejected: Seq<HeapElement<&'a T>> = Seq::empty();
        let ghost mut pruned: Seq<(Seq<i64>, T)> = Seq::empty();
        let seed = HeapElement { distance: mirror(zero()), element: self };
        pending.push(seed);
        let ghost mut fuel: nat = self.nodes();
        proof {
            Self::lemma_seeded(self, q, distance, num as nat, radius, pending@, seed);
            lemma_joined(
                Seq::empty(),
                pending@,
                seed,
                weight_of::<T>(),
                |x: HeapElement<&'a KdTree<T>>| Multiset::<int>::empty(),
            );
            self::course::lemma_search_begins(distance, self, pending@, q, num as nat, radius, false);
            lemma_joined(
                Seq::empty(),
                pending@,
                seed,
                size_of::<T>(),
                |x: HeapElement<&'a KdTree<T>>| Multiset::<int>::empty(),
            );
        }
        while Self::goes_on(&pending, &evaluated, num, radius)
            invariant
                searches_alike(distance, self, pending@, evaluated@, fuel, q, num as nat, radius, false),
                total(pending@, weight_of::<T>()) <= fuel,
                1 <= num <= all.len(),
                radius == i64::MAX ==> evaluated@.len() == num || evaluated@.len() + total(pending@, size_of::<T>())
                    == all.len(),
                q == point@,
                q.len() == self.dimensions,
                all == self.entries(),
                callable(distance, q.len()),
                pending.wf(),
                evaluated.wf(),
                searching(distance, q, num as nat, radius, all, pending@, evaluated@, rejected, pruned, Seq::empty()),
            decreases total(pending@, weight_of::<T>()),
        {
            let ghost waiting = pending@;
            let ghost held = evaluated@;
            let out = Self::nearest_step(
                point,
                num,
                radius,
                distance,
                &mut pending,
                &mut evaluated,
                Ghost(all),
                Ghost(rejected),
                Ghost(pruned),
            );
            proof {
                rejected = out.0@;
                pruned = out.1@;
                self::course::lemma_search_goes_on(
                    distance,
                    self,
                    waiting,
                    held,
                    fuel,
                    q,
                    num as nat,
                    radius,
                    false,
                    pending@,
                    evaluated@,
                );
                fuel = (fuel - 1) as nat;
            }
        }
        let ghost kept = evaluated@;
        let sorted = evaluated.into_sorted_vec();
        proof {
            Self::lemma_settled(q, distance, num as nat, radius, all, pending@, kept, rejected, pruned, sorted@);
            self::course::lemma_search_ends(distance, self, pending@, kept, fuel, q, num as nat, radius, false);
            if radius == i64::MAX && kept.len() < num {
                assert(pending@.len() == 0);
                assert(total(pending@, size_of::<T>()) == 0);
            }
        }
        let found = into_pairs(sorted, num);
        proof {
            reveal(searches_to);
            assert forall|m: Metric| #[trigger] measures(distance, m) implies as_ranked(found@)
                == self.nearest_in_course::<'a>(q, asked, radius, m) by {
                assert(self.kept_by_search::<'a>(q, num as nat, radius, m, false) == kept);
            }
        }
        Ok(found)
    }

    /// The entries within `radius` of `point`, from the nearest on: each with
    /// its distance and its payload.
    pub fn within<'a, F>(&'a self, point: &[i64], radius: i64, distance: &F) -> (r: Result<
        Vec<(i64, &'a T)>,
        ErrorKind,
    >) where F: Fn(&[i64], &[i64]) -> i64
        requires
            self.wf(),
            callable(distance, self.dims()),
        ensures
            checked(point@, self.dims()) matches Err(e) ==> r == Err::<Vec<(i64, &'a T)>, ErrorKind>(e),
            checked(point@, self.dims()) is Ok ==> r is Ok,
            r matches Ok(found) ==> ascending(as_ranked(found@)) && self.encloses(
                point@,
                radius,
                distance,
                as_ranked(found@),
            ),
            r matches Ok(found) ==> self.reaches(point@, radius, distance, true, found@),
    {
        self.check_point(point)?;
        proof {
            self.lemma_size();
        }
        if self.size == 0 {
            proof {
                self.lemma_none_enclosed(point@, radius, distance);
                reveal(crate::heap::sorted);
            }
            return Ok(into_pairs(Vec::new(), 0));
        }
        let evaluated = self.evaluated_heap(point, radius, distance);
        let ghost kept = evaluated@;
        let sorted = evaluated.into_sorted_vec();
        proof {
            self.lemma_enclosed_anyhow(point@, radius, distance, kept, sorted@);
            reveal(searches_to);
        }
        let num = sorted.len();
        Ok(into_pairs(sorted, num))
    }

    /// The entries within `radius` of `point`, in no particular order: each
    /// with its distance and its payload.
    pub fn within_unsorted<'a, F>(&'a self, point: &[i64], radius: i64, distance: &F) -> (r: Result<
        Vec<(i64, &'a T)>,
        ErrorKind,
    >) where F: Fn(&[i64], &[i64]) -> i64
        requires
            self.wf(),
            callable(distance, self.dims()),
        ensures
            checked(point@, self.dims()) matches Err(e) ==> r == Err::<Vec<(i64, &'a T)>, ErrorKind>(e),
            checked(point@, self.dims()) is Ok ==> r is Ok,
            r matches Ok(found) ==> self.encloses(point@, radius, distance, as_ranked(found@)),
            r matches Ok(found) ==> self.reaches(point@, radius, distance, false, found@),
    {
        self.check_point(point)?;
        proof {
            self.lemma_size();
        }
        if self.size == 0 {
            proof {
                self.lemma_none_enclosed(point@, radius, distance);
            }
            return Ok(into_pairs(Vec::new(), 0));
        }
        let evaluated = self.evaluated_heap(point, radius, distance);
        proof {
            reveal(searches_to);
        }
        let items = evaluated.into_vec();
        let num = items.len();
        Ok(into_pairs(items, num))
    }

    /// The number of entries within `radius` of `point`. Where `distance`
    /// computes an admissible metric, it is the number of entries whose distance
    /// under that metric is at most `radius`.
    pub fn within_count<F>(&self, point: &[i64], radius: i64, distance: &F) -> (r: Result<usize, ErrorKind>) where
        F: Fn(&[i64], &[i64]) -> i64,

        requires
            self.wf(),
            callable(distance, self.dims()),
        ensures
            checked(point@, self.dims()) matches Err(e) ==> r == Err::<usize, ErrorKind>(e),
            checked(point@, self.dims()) is Ok ==> r is Ok,
            r matches Ok(n) ==> {
                &&& n <= self.entries().len()
                &&& forall|m: Metric| #[trigger]
                    measures(distance, m) && admissible(m) ==> n == ranked::<T>(
                        self.entries(),
                        point@,
                        m,
                    ).to_multiset().filter(no_farther::<&T>(radius)).len()
                &&& forall|m: Metric| #[trigger]
                    measures(distance, m) ==> n == self.within_in_course(point@, radius, m).len()
            },
    {
        self.check_point(point)?;
        proof {
            self.lemma_size();
        }
        if self.size == 0 {
            proof {
                self.lemma_none_enclosed(point@, radius, distance);
                crate::kdtree::lemma_empty_multiset::<HeapElement<&T>>();
                broadcast use vstd::multiset::group_multiset_axioms;
            }
            return Ok(0);
        }
        let evaluated = self.evaluated_heap(point, radius, distance);
        proof {
            broadcast use vstd::seq_lib::to_multiset_len;
            reveal(searches_to);
        }
        Ok(evaluated.len())
    }

    /// A tree without entries encloses nothing.
    proof fn lemma_none_enclosed<'a, F: Fn(&[i64], &[i64]) -> i64>(&'a self, q: Seq<i64>, radius: i64, f: &F)
        requires
            self.wf(),
            self.size == 0,
        ensures
            self.encloses(q, radius, f, Seq::<HeapElement<&'a T>>::empty()),
    {
        broadcast use vstd::multiset::group_multiset_axioms;
        self.lemma_size();
        crate::kdtree::lemma_empty_multiset::<HeapElement<&'a T>>();
        assert forall|m: Metric| #[trigger] measures(f, m) implies ranked::<T>(self.entries(), q, m)
            =~= Seq::<HeapElement<&'a T>>::empty() by {}
    }

    /// What encloses the entries within a radius does so in any order.
    proof fn lemma_enclosed_anyhow<'a, F: Fn(&[i64], &[i64]) -> i64>(
        &'a self,
        q: Seq<i64>,
        radius: i64,
        f: &F,
        a: Seq<HeapElement<&'a T>>,
        b: Seq<HeapElement<&'a T>>,
    )
        requires
            self.encloses(q, radius, f, a),
            a.to_multiset() =~= b.to_multiset(),
        ensures
            self.encloses(q, radius, f, b),
    {
        broadcast use vstd::seq_lib::to_multiset_contains;
        assert forall|i: int| 0 <= i < b.len() implies (#[trigger] b[i]).distance <= radius by {
            assert(b.to_multiset().count(b[i]) > 0);
            assert(a.contains(b[i]));
        }
    }

    /// Searches the whole tree for the entries within `radius` of `point`.
    fn evaluated_heap<'a, F>(&'a self, point: &[i64], radius: i64, distance: &F) -> (kept: RankedHeap<&'a T>) where
        F: Fn(&[i64], &[i64]) -> i64,

        requires
            self.wf(),
            checked(point@, self.dims()) is Ok,
            self.size > 0,
            callable(distance, self.dims()),
        ensures
            kept.wf(),
            kept@.len() <= self.entries().len(),
            self.encloses(point@, radius, distance, kept@),
            searches_to(distance, self, point@, self.entries().len(), radius, true, kept@),
    {
        proof {
            self.lemma_size();
        }
        let ghost q = point@;
        let ghost all = self.entries();
        let num = self.size;
        let mut pending: RankedHeap<&'a KdTree<T>> = RankedHeap::new();
        let mut evaluated: RankedHeap<&'a T> = RankedHeap::new();
        let ghost mut rejected: Seq<HeapElement<&'a T>> = Seq::empty();
        let ghost mut pruned: Seq<(Seq<i64>, T)> = Seq::empty();
        let seed = HeapElement { distance: mirror(zero()), element: self };
        pending.push(seed);
        let ghost mut fuel: nat = self.nodes();
        proof {
            Self::lemma_seeded(self, q, distance, num as nat, radius, pending@, seed);
            lemma_joined(
                Seq::empty(),
                pending@,
                seed,
                weight_of::<T>(),
                |x: HeapElement<&'a KdTree<T>>| Multiset::<int>::empty(),
            );
            self::course::lemma_search_begins(distance, self, pending@, q, num as nat, radius, true);
        }
        while Self::in_reach(&pending, radius)
            invariant
                searches_alike(distance, self, pending@, evaluated@, fuel, q, num as nat, radius, true),
                total(pending@, weight_of::<T>()) <= fuel,
                q == point@,
                q.len() == self.dimensions,
                all == self.entries(),
                num == all.len(),
                callable(distance, q.len()),
                pending.wf(),
                evaluated.wf(),
                searching(distance, q, num as nat, radius, all, pending@, evaluated@, rejected, pruned, Seq::empty()),
            decreases total(pending@, weight_of::<T>()),
        {
            let ghost waiting = pending@;
            let ghost held = evaluated@;
            let out = Self::nearest_step(
                point,
                num,
                radius,
                distance,
                &mut pending,
                &mut evaluated,
                Ghost(all),
                Ghost(rejected),
                Ghost(pruned),
            );
            proof {
                rejected = out.0@;
                pruned = out.1@;
                self::course::lemma_search_goes_on(
                    distance,
                    self,
                    waiting,
                    held,
                    fuel,
                    q,
                    num as nat,
                    radius,
                    true,
                    pending@,
                    evaluated@,
                );
                fuel = (fuel - 1) as nat;
            }
        }
        proof {
            Self::lemma_enclosed(q, distance, radius, all, pending@, evaluated@, rejected, pruned);
            self::course::lemma_search_ends(distance, self, pending@, evaluated@, fuel, q, num as nat, radius, true);
        }
        evaluated
    }

    /// Whether a search within `radius` has more to do: a subtree waits whose
    /// lower bound is within the radius.
    fn in_reach<'b>(pending: &RankedHeap<&'b KdTree<T>>, radius: i64) -> (b: bool)
        requires
            pending.wf(),
        ensures
            b == (pending@.len() > 0 && mirrored(pending@[0].distance) <= radius),
    {
        match pending.peek() {
            None => false,
            Some(top) => mirror(top.distance) <= radius,
        }
    }

    /// A search for as many as there are entries that has no more to do holds
    /// the entries within the radius.
    proof fn lemma_enclosed<'a, F: Fn(&[i64], &[i64]) -> i64>(
        q: Seq<i64>,
        f: &F,
        radius: i64,
        all: Seq<(Seq<i64>, T)>,
        pending: Seq<HeapElement<&'a KdTree<T>>>,
        kept: Seq<HeapElement<&'a T>>,
        rejected: Seq<HeapElement<&'a T>>,
        pruned: Seq<(Seq<i64>, T)>,
    )
        requires
            searching(f, q, all.len(), radius, all, pending, kept, rejected, pruned, Seq::empty()),
            !(pending.len() > 0 && mirrored(pending[0].distance) <= radius),
        ensures
            all_within(kept, radius),
            forall|m: Metric| #[trigger]
                measures(f, m) ==> kept.to_multiset().subset_of(ranked::<T>(all, q, m).to_multiset()),
            forall|m: Metric| #[trigger]
                measures(f, m) && admissible(m) ==> kept.to_multiset() =~= ranked::<T>(all, q, m).to_multiset().filter(
                    no_farther::<&'a T>(radius),
                ),
    {
        broadcast use vstd::multiset::group_multiset_axioms;
        broadcast use vstd::seq_lib::to_multiset_contains;
        broadcast use vstd::seq_lib::to_multiset_len;
        let none = Seq::<(Seq<i64>, T)>::empty();
        let k = all.len();
        crate::kdtree::lemma_empty_multiset::<HeapElement<&'a T>>();
        assert forall|i: int| 0 <= i < kept.len() implies (#[trigger] kept[i]).distance <= radius by {
            assert(kept.contains(kept[i]));
        }
        assert forall|m: Metric| #[trigger] measures(f, m) implies kept.to_multiset().subset_of(
            ranked::<T>(all, q, m).to_multiset(),
        ) by {
            assert(accounted(m, q, all, kept, rejected, pruned, pending, none));
        }
        assert forall|m: Metric| #[trigger] measures(f, m) && admissible(m) implies kept.to_multiset() =~= ranked::<T>(
            all,
            q,
            m,
        ).to_multiset().filter(no_farther::<&'a T>(radius)) by {
            let whole = ranked::<T>(all, q, m).to_multiset();
            let near = no_farther::<&'a T>(radius);
            assert(accounted(m, q, all, kept, rejected, pruned, pending, none));
            assert(ranked::<T>(none, q, m) =~= Seq::<HeapElement<&'a T>>::empty());
            assert(kept.to_multiset().subset_of(whole));
            assert(whole.len() == k);
            if kept.len() == k {
                lemma_subset_of_same_size(kept.to_multiset(), whole);
            }
            let floor = if pending.len() > 0 {
                mirrored(pending[0].distance)
            } else {
                0i64
            };
            assert forall|x: HeapElement<&'a KdTree<T>>| pending.contains(x) implies floor <= mirrored(
                x.distance,
            ) by {
                let i = choose|i: int| 0 <= i < pending.len() && pending[i] == x;
                crate::heap::lemma_first_is_farthest(pending, pending.len() as int, i);
            }
            lemma_waiting_beyond(pending, q, m, floor);
            let waiting = gathered(pending, part_of::<T>(q, m));
            if pending.len() == 0 {
                assert(waiting =~= Multiset::empty());
            }
            assert forall|x: HeapElement<&'a T>| kept.to_multiset().count(x) == #[trigger] whole.filter(near).count(
                x,
            ) by {
                if near(x) {
                    if kept.to_multiset().count(x) < whole.count(x) {
                        if rejected.to_multiset().count(x) > 0 {
                            let i = lemma_member(rejected, x);
                            assert(beyond(rejected[i].distance, radius, kept.len() == k, kept[0].distance));
                        } else if ranked::<T>(pruned, q, m).to_multiset().count(x) > 0 {
                            let i = lemma_member(ranked::<T>(pruned, q, m), x);
                            assert(beyond(
                                ranked::<T>(pruned, q, m)[i].distance,
                                radius,
                                kept.len() == k,
                                kept[0].distance,
                            ));
                        } else {
                            assert(waiting.count(x) > 0);
                            assert(floor <= x.distance);
                        }
                    }
                } else {
                    if kept.to_multiset().count(x) > 0 {
                        assert(kept.contains(x));
                    }
                }
            }
        }
    }

    /// A search that has just been seeded with the whole tree.
    proof fn lemma_seeded<'a, F: Fn(&[i64], &[i64]) -> i64>(
        tree: &'a KdTree<T>,
        q: Seq<i64>,
        f: &F,
        k: nat,
        radius: i64,
        pending: Seq<HeapElement<&'a KdTree<T>>>,
        seed: HeapElement<&'a KdTree<T>>,
    )
        requires
            tree.wf(),
            q.len() == tree.dimensions,
            1 <= k,
            seed.element == tree,
            seed.distance == mirrored(0),
            heap_ordered(pending),
            pending.to_multiset() =~= Seq::<HeapElement<&'a KdTree<T>>>::empty().to_multiset().insert(seed),
        ensures
            searching(
                f,
                q,
                k,
                radius,
                tree.entries(),
                pending,
                Seq::<HeapElement<&'a T>>::empty(),
                Seq::<HeapElement<&'a T>>::empty(),
                Seq::<(Seq<i64>, T)>::empty(),
                Seq::<(Seq<i64>, T)>::empty(),
            ),
            total(pending, weight_of::<T>()) == tree.nodes(),
    {
        broadcast use vstd::multiset::group_multiset_axioms;
        let none = Seq::<HeapElement<&'a KdTree<T>>>::empty();
        let kept = Seq::<HeapElement<&'a T>>::empty();
        let no_entries = Seq::<(Seq<i64>, T)>::empty();
        crate::kdtree::lemma_empty_multiset::<HeapElement<&'a T>>();
        assert(ranked::<T>(no_entries, q, |a: Seq<i64>, b: Seq<i64>| 0i64) =~= kept);
        assert forall|m: Metric| #[trigger] measures(f, m) implies accounted(
            m,
            q,
            tree.entries(),
            kept,
            kept,
            no_entries,
            pending,
            no_entries,
        ) by {
            lemma_joined(none, pending, seed, weight_of::<T>(), part_of::<T>(q, m));
            assert(ranked::<T>(no_entries, q, m) =~= kept);
        }
        lemma_joined(none, pending, seed, weight_of::<T>(), part_of::<T>(q, |a: Seq<i64>, b: Seq<i64>| 0i64));
        assert forall|m: Metric| #[trigger] measures(f, m) && admissible(m) implies {
            &&& all_beyond(ranked::<T>(no_entries, q, m), radius, kept.len() == k, kept[0].distance)
            &&& forall|x: HeapElement<&'a KdTree<T>>| pending.contains(x) ==> bounded_below(x, q, m)
        } by {
            assert(ranked::<T>(no_entries, q, m) =~= kept);
            tree.lemma_entries_held();
            assert forall|x: HeapElement<&'a KdTree<T>>| pending.contains(x) implies bounded_below(x, q, m) by {
                assert(x == seed);
                assert forall|i: int| 0 <= i < tree.entries().len() implies mirrored(x.distance) <= m(
                    q,
                    (#[trigger] tree.entries()[i]).0,
                ) by {
                    assert(held(tree.entries()[i].0, tree.dimensions as nat, tree.min_bounds@, tree.max_bounds@));
                }
            }
        }
    }

    /// Whether a search for the `num` nearest within `radius` has more to do:
    /// a subtree waits whose lower bound is within the radius and, once `num`
    /// are kept, no farther than the farthest of them.
    fn goes_on<'b>(pending: &RankedHeap<&'b KdTree<T>>, evaluated: &RankedHeap<&'b T>, num: usize, radius: i64) -> (b:
        bool)
        requires
            pending.wf(),
            evaluated.wf(),
            1 <= num,
        ensures
            b == (pending@.len() > 0 && mirrored(pending@[0].distance) <= radius && (evaluated@.len() < num || mirrored(
                pending@[0].distance,
            ) <= evaluated@[0].distance)),
    {
        match pending.peek() {
            None => false,
            Some(top) => {
                let bound = mirror(top.distance);
                if bound > radius {
                    false
                } else if evaluated.len() < num {
                    true
                } else {
                    match evaluated.peek() {
                        None => true,
                        Some(worst) => bound <= worst.distance,
                    }
                }
            },
        }
    }

    /// A search that has no more to do has found the nearest.
    proof fn lemma_settled<'a, F: Fn(&[i64], &[i64]) -> i64>(
        q: Seq<i64>,
        f: &F,
        k: nat,
        radius: i64,
        all: Seq<(Seq<i64>, T)>,
        pending: Seq<HeapElement<&'a KdTree<T>>>,
        kept: Seq<HeapElement<&'a T>>,
        rejected: Seq<HeapElement<&'a T>>,
        pruned: Seq<(Seq<i64>, T)>,
        sorted: Seq<HeapElement<&'a T>>,
    )
        requires
            searching(f, q, k, radius, all, pending, kept, rejected, pruned, Seq::empty()),
            !(pending.len() > 0 && mirrored(pending[0].distance) <= radius && (kept.len() < k || mirrored(
                pending[0].distance,
            ) <= kept[0].distance)),
            ascending(sorted),
            sorted.len() == kept.len(),
            sorted.to_multiset() =~= kept.to_multiset(),
        ensures
            all_within(sorted, radius),
            sorted.len() <= k,
            forall|m: Metric| #[trigger]
                measures(f, m) ==> sorted.to_multiset().subset_of(ranked::<T>(all, q, m).to_multiset()),
            forall|m: Metric| #[trigger]
                measures(f, m) && admissible(m) ==> rest_is_beyond(sorted, ranked::<T>(all, q, m).to_multiset(), k, radius),
    {
        broadcast use vstd::multiset::group_multiset_axioms;
        broadcast use vstd::seq_lib::to_multiset_contains;
        let none = Seq::<(Seq<i64>, T)>::empty();
        crate::kdtree::lemma_empty_multiset::<HeapElement<&'a T>>();
        assert forall|i: int| 0 <= i < sorted.len() implies (#[trigger] sorted[i]).distance <= radius by {
            assert(sorted.to_multiset().count(sorted[i]) > 0);
            assert(kept.contains(sorted[i]));
        }
        let full = kept.len() == k;
        let worst = kept[0].distance;
        if kept.len() > 0 {
            assert(sorted.to_multiset().count(sorted.last()) > 0);
            assert(kept.contains(sorted.last()));
            let i = choose|i: int| 0 <= i < kept.len() && kept[i] == sorted.last();
            crate::heap::lemma_first_is_farthest(kept, kept.len() as int, i);
            assert(kept.to_multiset().count(kept[0]) > 0);
            assert(sorted.contains(kept[0]));
            let j = choose|j: int| 0 <= j < sorted.len() && sorted[j] == kept[0];
            assert(sorted[j].distance <= sorted.last().distance);
            assert(sorted.last().distance == worst);
        }
        assert forall|m: Metric| #[trigger] measures(f, m) implies sorted.to_multiset().subset_of(
            ranked::<T>(all, q, m).to_multiset(),
        ) by {
            assert(accounted(m, q, all, kept, rejected, pruned, pending, none));
        }
        assert forall|m: Metric| #[trigger] measures(f, m) && admissible(m) implies rest_is_beyond(
            sorted,
            ranked::<T>(all, q, m).to_multiset(),
            k,
            radius,
        ) by {
            assert(accounted(m, q, all, kept, rejected, pruned, pending, none));
            assert(ranked::<T>(none, q, m) =~= Seq::<HeapElement<&'a T>>::empty());
            let floor = if pending.len() > 0 {
                mirrored(pending[0].distance)
            } else {
                0i64
            };
            assert forall|x: HeapElement<&'a KdTree<T>>| pending.contains(x) implies floor <= mirrored(
                x.distance,
            ) by {
                let i = choose|i: int| 0 <= i < pending.len() && pending[i] == x;
                crate::heap::lemma_first_is_farthest(pending, pending.len() as int, i);
            }
            lemma_waiting_beyond(pending, q, m, floor);
            let waiting = gathered(pending, part_of::<T>(q, m));
            if pending.len() == 0 {
                assert(waiting =~= Multiset::empty());
            }
            assert forall|x: HeapElement<&'a T>|
                sorted.to_multiset().count(x) < #[trigger] ranked::<T>(all, q, m).to_multiset().count(x) implies beyond(
                x.distance,
                radius,
                sorted.len() == k,
                if sorted.len() > 0 {
                    sorted.last().distance
                } else {
                    i64::MIN
                },
            ) by {
                if rejected.to_multiset().count(x) > 0 {
                    let i = lemma_member(rejected, x);
                    assert(beyond(rejected[i].distance, radius, full, worst));
                } else if ranked::<T>(pruned, q, m).to_multiset().count(x) > 0 {
                    let i = lemma_member(ranked::<T>(pruned, q, m), x);
                    assert(beyond(ranked::<T>(pruned, q, m)[i].distance, radius, full, worst));
                } else {
                    assert(waiting.count(x) > 0);
                    assert(floor <= x.distance);
                }
            }
        }
    }

    /// Takes the nearest waiting subtree and searches it: down to the leaf on
    /// the point's side, the subtrees passed by waiting in their turn unless
    /// their boxes are too far, then through the leaf's bucket.
    ///
    /// It asks for a subtree that waits, for subtrees of the query's
    /// dimensions, and for no more than `num` kept, all within `max_dist`.
    /// What then waits and what is kept is as `stepped` gives it. Where the
    /// account of the search held before the step, over `all`, `rejected` and
    /// `pruned`, it holds after it.
    fn nearest_step<'b, F>(
        point: &[i64],
        num: usize,
        max_dist: i64,
        distance: &F,
        pending: &mut RankedHeap<&'b KdTree<T>>,
        evaluated: &mut RankedHeap<&'b T>,
        Ghost(all): Ghost<Seq<(Seq<i64>, T)>>,
        Ghost(rejected): Ghost<Seq<HeapElement<&'b T>>>,
        Ghost(pruned): Ghost<Seq<(Seq<i64>, T)>>,
    ) -> (out: (Ghost<Seq<HeapElement<&'b T>>>, Ghost<Seq<(Seq<i64>, T)>>)) where F: Fn(&[i64], &[i64]) -> i64
        requires
            old(pending)@.len() > 0,
            old(pending).wf(),
            old(evaluated).wf(),
            callable(distance, point@.len()),
            1 <= num,
            old(evaluated)@.len() <= num,
            all_kept_within(old(evaluated)@, max_dist),
            all_fit(old(pending)@, point@.len()),
        ensures
            final(pending).wf(),
            final(evaluated).wf(),
            all_kept_within(final(evaluated)@, max_dist),
            all_fit(final(pending)@, point@.len()),
            searching(
                distance,
                point@,
                num as nat,
                max_dist,
                all,
                old(pending)@,
                old(evaluated)@,
                rejected,
                pruned,
                Seq::empty(),
            ) ==> searching(
                distance,
                point@,
                num as nat,
                max_dist,
                all,
                final(pending)@,
                final(evaluated)@,
                out.0@,
                out.1@,
                Seq::empty(),
            ),
            total(final(pending)@, weight_of::<T>()) < total(old(pending)@, weight_of::<T>()),
            old(evaluated)@.len() <= final(evaluated)@.len() <= num,
            old(evaluated)@.len() == num ==> final(evaluated)@.len() == num
                && final(evaluated)@[0].distance <= old(evaluated)@[0].distance,
            forall|i: int| 0 <= i < final(evaluated)@.len() ==> (#[trigger] final(evaluated)@[i]).distance <= max_dist,
            newcomers_within(
                old(pending)@.to_multiset().remove(old(pending)@[0]),
                final(pending)@.to_multiset(),
                limit_of(old(evaluated)@, num as nat, max_dist),
            ),
            steps_to(
                distance,
                old(pending)@,
                old(evaluated)@,
                point@,
                num as nat,
                max_dist,
                final(pending)@,
                final(evaluated)@,
            ),
            max_dist == i64::MAX ==> final(evaluated)@.len() == num || final(evaluated)@.len() + total(
                final(pending)@,
                size_of::<T>(),
            ) == old(evaluated)@.len() + total(old(pending)@, size_of::<T>()),
    {
        let ghost q = point@;
        let ghost waiting = pending@;
        let ghost kept = evaluated@;
        let ghost tracks = searching(distance, q, num as nat, max_dist, all, waiting, kept, rejected, pruned, Seq::empty());
        let top = pending.pop().unwrap();
        let ghost fewer = pending@;
        let curr: &'b KdTree<T> = top.element;
        let evaluated_dist = if evaluated.len() == num {
            let worst = evaluated.peek().unwrap().distance;
            if worst < max_dist {
                worst
            } else {
                max_dist
            }
        } else {
            max_dist
        };
        proof {
            broadcast use vstd::multiset::group_multiset_axioms;
            let none = Seq::<(Seq<i64>, T)>::empty();
            assert(waiting.contains(top));
            lemma_joined(pending@, waiting, top, weight_of::<T>(), part_of::<T>(q, |a: Seq<i64>, b: Seq<i64>| 0i64));
            assert(fit(top, q.len()));
            assert(all_fit(fewer, q.len())) by {
                assert forall|x: HeapElement<&'b KdTree<T>>| #[trigger] fewer.contains(x) implies fit(x, q.len()) by {
                    assert(waiting.contains(x));
                }
            }
            if tracks {
                assert forall|m: Metric| #[trigger] measures(distance, m) implies accounted(
                    m,
                    q,
                    all,
                    kept,
                    rejected,
                    pruned,
                    pending@,
                    curr.entries(),
                ) by {
                    assert(accounted(m, q, all, kept, rejected, pruned, waiting, none));
                    lemma_joined(pending@, waiting, top, weight_of::<T>(), part_of::<T>(q, m));
                    assert(ranked::<T>(none, q, m) =~= Seq::<HeapElement<&'b T>>::empty());
                    crate::kdtree::lemma_empty_multiset::<HeapElement<&'b T>>();
                }
                assert(searching_with(
                    distance,
                    q,
                    num as nat,
                    max_dist,
                    all,
                    fewer,
                    kept,
                    rejected,
                    pruned,
                    curr.entries(),
                    Multiset::empty(),
                ));
            }
        }
        let (leaf, Ghost(pruned)) = Self::descend(
            curr,
            point,
            evaluated_dist,
            distance,
            pending,
            Ghost(num as nat),
            Ghost(max_dist),
            Ghost(all),
            Ghost(kept),
            Ghost(rejected),
            Ghost(pruned),
            Ghost(Multiset::empty()),
        );
        let Ghost(rejected) = Self::scan_leaf(
            leaf,
            point,
            num,
            max_dist,
            distance,
            evaluated,
            Ghost(all),
            Ghost(pending@),
            Ghost(rejected),
            Ghost(pruned),
        );
        proof {
            broadcast use vstd::multiset::group_multiset_axioms;
            assert(waiting[0] == top);
            assert(evaluated_dist == limit_of(kept, num as nat, max_dist));
            lemma_joined(fewer, waiting, top, size_of::<T>(), |x: HeapElement<&'b KdTree<T>>| Multiset::<int>::empty());
            self::course::lemma_step_made(distance, waiting, kept, q, num as nat, max_dist, pending@, leaf, evaluated@);
            assert(fewer.to_multiset() =~= waiting.to_multiset().remove(top));
            assert forall|i: int| 0 <= i < evaluated@.len() implies (#[trigger] evaluated@[i]).distance <= max_dist by {
                assert(evaluated@.contains(evaluated@[i]));
            }
        }
        (Ghost(rejected), Ghost(pruned))
    }

    /// Goes from `start` down to the leaf on the side of `point`. Each subtree
    /// passed by is put to wait under the distance from `point` to its box,
    /// unless that distance is beyond `limit`.
    fn descend<'b, F>(
        start: &'b KdTree<T>,
        point: &[i64],
        limit: i64,
        distance: &F,
        pending: &mut RankedHeap<&'b KdTree<T>>,
        Ghost(k): Ghost<nat>,
        Ghost(radius): Ghost<i64>,
        Ghost(all): Ghost<Seq<(Seq<i64>, T)>>,
        Ghost(kept): Ghost<Seq<HeapElement<&'b T>>>,
        Ghost(rejected): Ghost<Seq<HeapElement<&'b T>>>,
        Ghost(pruned): Ghost<Seq<(Seq<i64>, T)>>,
        Ghost(extra): Ghost<Multiset<HeapElement<&'b T>>>,
    ) -> (out: (&'b KdTree<T>, Ghost<Seq<(Seq<i64>, T)>>)) where F: Fn(&[i64], &[i64]) -> i64
        requires
            start.wf(),
            start.dimensions == point@.len(),
            callable(distance, point@.len()),
            old(pending).wf(),
        ensures
            final(pending).wf(),
            out.0.wf(),
            out.0.dimensions == point@.len(),
            out.0.node is Leaf,
            all_fit(old(pending)@, point@.len()) ==> all_fit(final(pending)@, point@.len()),
            (limit >= radius || (kept.len() == k && limit >= kept[0].distance)) && searching_with(
                distance,
                point@,
                k,
                radius,
                all,
                old(pending)@,
                kept,
                rejected,
                pruned,
                start.entries(),
                extra,
            ) ==> searching_with(
                distance,
                point@,
                k,
                radius,
                all,
                final(pending)@,
                kept,
                rejected,
                out.1@,
                out.0.entries(),
                extra,
            ),
            total(final(pending)@, weight_of::<T>()) + out.0.nodes() <= total(old(pending)@, weight_of::<T>())
                + start.nodes(),
            newcomers_within(old(pending)@.to_multiset(), final(pending)@.to_multiset(), limit),
            descends_to(distance, start, old(pending)@, point@, limit, final(pending)@, out.0),
            limit == i64::MAX ==> total(final(pending)@, size_of::<T>()) + out.0.entries().len() == total(
                old(pending)@,
                size_of::<T>(),
            ) + start.entries().len(),
    {
        let ghost q = point@;
        let ghost before = pending@;
        let ghost tracks = (limit >= radius || (kept.len() == k && limit >= kept[0].distance)) && searching_with(
            distance,
            q,
            k,
            radius,
            all,
            before,
            kept,
            rejected,
            pruned,
            start.entries(),
            extra,
        );
        let ghost mut pruned = pruned;
        let mut curr: &'b KdTree<T> = start;
        proof {
            self::course::lemma_descent_begins(distance, start, before, q, limit);
        }
        while !curr.is_leaf()
            invariant
                descends_alike(distance, curr, pending@, start, before, q, limit),
                limit == i64::MAX ==> total(pending@, size_of::<T>()) + curr.entries().len() == total(
                    before,
                    size_of::<T>(),
                ) + start.entries().len(),
                q == point@,
                curr.wf(),
                curr.dimensions == q.len(),
                callable(distance, q.len()),
                pending.wf(),
                all_fit(before, q.len()) ==> all_fit(pending@, q.len()),
                tracks ==> limit >= radius || (kept.len() == k && limit >= kept[0].distance),
                tracks ==> searching_with(
                    distance,
                    q,
                    k,
                    radius,
                    all,
                    pending@,
                    kept,
                    rejected,
                    pruned,
                    curr.entries(),
                    extra,
                ),
                total(pending@, weight_of::<T>()) + curr.nodes() <= total(before, weight_of::<T>()) + start.nodes(),
                newcomers_within(before.to_multiset(), pending@.to_multiset(), limit),
            decreases curr.nodes(),
        {
            match &curr.node {
                Node::Stem { split_dimension, split_value, left, right } => {
                    let d = *split_dimension;
                    let go_left = belongs_in_left(curr.min_bounds[d], *split_value, point[d]);
                    let next: &'b KdTree<T> = if go_left {
                        &**left
                    } else {
                        &**right
                    };
                    let candidate: &'b KdTree<T> = if go_left {
                        &**right
                    } else {
                        &**left
                    };
                    let candidate_to_space = distance_to_space(
                        point,
                        candidate.min_bounds.as_slice(),
                        candidate.max_bounds.as_slice(),
                        distance,
                    );
                    let ghost waiting = pending@;
                    if candidate_to_space <= limit {
                        let item = HeapElement { distance: mirror(candidate_to_space), element: candidate };
                        pending.push(item);
                        proof {
                            assert(newcomers_within(before.to_multiset(), pending@.to_multiset(), limit)) by {
                                broadcast use vstd::multiset::group_multiset_axioms;
                                assert forall|x: HeapElement<&'b KdTree<T>>|
                                    before.to_multiset().count(x) < #[trigger] pending@.to_multiset().count(x)
                                    implies mirrored(x.distance) <= limit by {
                                    if x != item {
                                        assert(waiting.to_multiset().count(x) == pending@.to_multiset().count(x));
                                    }
                                }
                            }
                            lemma_joined(
                                waiting,
                                pending@,
                                item,
                                weight_of::<T>(),
                                |x: HeapElement<&'b KdTree<T>>| Multiset::<int>::empty(),
                            );
                            assert(fit(item, q.len()));
                            if tracks {
                                lemma_passes_waiting(
                                    distance,
                                    q,
                                    k,
                                    radius,
                                    all,
                                    waiting,
                                    pending@,
                                    kept,
                                    rejected,
                                    pruned,
                                    curr.entries(),
                                    next.entries(),
                                    extra,
                                    candidate,
                                    candidate_to_space,
                                    item,
                                );
                            }
                        }
                    } else {
                        proof {
                            if tracks {
                                lemma_passes_pruned(
                                    distance,
                                    q,
                                    k,
                                    radius,
                                    all,
                                    waiting,
                                    kept,
                                    rejected,
                                    pruned,
                                    curr.entries(),
                                    next.entries(),
                                    extra,
                                    candidate,
                                    candidate_to_space,
                                    limit,
                                );
                            }
                            pruned = pruned + candidate.entries();
                        }
                    }
                    proof {
                        assert(curr.entries().len() == next.entries().len() + candidate.entries().len());
                        if candidate_to_space <= limit {
                            lemma_joined(
                                waiting,
                                pending@,
                                HeapElement { distance: mirrored(candidate_to_space), element: candidate },
                                size_of::<T>(),
                                |x: HeapElement<&'b KdTree<T>>| Multiset::<int>::empty(),
                            );
                        }
                        self::course::lemma_descent_goes_on(
                            distance,
                            curr,
                            waiting,
                            start,
                            before,
                            q,
                            limit,
                            next,
                            candidate,
                            candidate_to_space,
                            pending@,
                        );
                    }
                    curr = next;
                },
                Node::Leaf { .. } => {},
            }
        }
        proof {
            self::course::lemma_descent_ends(distance, curr, pending@, start, before, q, limit);
        }
        (curr, Ghost(pruned))
    }

    /// Ranks every entry of `leaf` by its distance from `point`. An entry
    /// within `max_dist` is kept while fewer than `num` are, and later in place
    /// of the farthest kept one, if it is nearer.
    fn scan_leaf<'b, F>(
        leaf: &'b KdTree<T>,
        point: &[i64],
        num: usize,
        max_dist: i64,
        distance: &F,
        evaluated: &mut RankedHeap<&'b T>,
        Ghost(all): Ghost<Seq<(Seq<i64>, T)>>,
        Ghost(pending): Ghost<Seq<HeapElement<&'b KdTree<T>>>>,
        Ghost(rejected): Ghost<Seq<HeapElement<&'b T>>>,
        Ghost(pruned): Ghost<Seq<(Seq<i64>, T)>>,
    ) -> (out: Ghost<Seq<HeapElement<&'b T>>>) where F: Fn(&[i64], &[i64]) -> i64
        requires
            leaf.wf(),
            leaf.dimensions == point@.len(),
            leaf.node is Leaf,
            callable(distance, point@.len()),
            old(evaluated).wf(),
            1 <= num,
            old(evaluated)@.len() <= num,
            all_kept_within(old(evaluated)@, max_dist),
        ensures
            final(evaluated).wf(),
            all_kept_within(final(evaluated)@, max_dist),
            searching(
                distance,
                point@,
                num as nat,
                max_dist,
                all,
                pending,
                old(evaluated)@,
                rejected,
                pruned,
                leaf.entries(),
            ) ==> searching(
                distance,
                point@,
                num as nat,
                max_dist,
                all,
                pending,
                final(evaluated)@,
                out@,
                pruned,
                Seq::empty(),
            ),
            old(evaluated)@.len() <= final(evaluated)@.len() <= num,
            old(evaluated)@.len() == num ==> final(evaluated)@.len() == num
                && final(evaluated)@[0].distance <= old(evaluated)@[0].distance,
            scans_to(distance, old(evaluated)@, leaf.entries(), point@, num as nat, max_dist, final(evaluated)@),
            max_dist == i64::MAX ==> final(evaluated)@.len() == num || final(evaluated)@.len() == old(evaluated)@.len()
                + leaf.entries().len(),
    {
        let ghost kept_before = evaluated@;
        let ghost q = point@;
        let ghost k = num as nat;
        let ghost tracks = searching(
            distance,
            q,
            k,
            max_dist,
            all,
            pending,
            kept_before,
            rejected,
            pruned,
            leaf.entries(),
        );
        let ghost mut rejected = rejected;
        match &leaf.node {
            Node::Leaf { points, bucket } => {
                let ghost mine = paired(points@, bucket@);
                let mut i: usize = 0;
                assert(mine.skip(0) =~= mine);
                proof {
                    self::course::lemma_scan_begins(distance, kept_before, mine, q, k, max_dist);
                }
                while i < points.len()
                    invariant
                        scans_alike(distance, evaluated@, i as int, kept_before, mine, q, k, max_dist),
                        max_dist == i64::MAX ==> evaluated@.len() == num || evaluated@.len() == kept_before.len() + i,
                        q == point@,
                        k == num as nat,
                        leaf.wf(),
                        leaf.dimensions == q.len(),
                        leaf.node == (Node::Leaf { points: *points, bucket: *bucket }),
                        mine == paired(points@, bucket@),
                        points@.len() == bucket@.len(),
                        i <= points@.len(),
                        callable(distance, q.len()),
                        evaluated.wf(),
                        1 <= num,
                        evaluated@.len() <= num,
                        all_kept_within(evaluated@, max_dist),
                        tracks ==> searching(
                            distance,
                            q,
                            k,
                            max_dist,
                            all,
                            pending,
                            evaluated@,
                            rejected,
                            pruned,
                            mine.skip(i as int),
                        ),
                        kept_before.len() <= evaluated@.len(),
                        kept_before.len() == num ==> evaluated@.len() == num && evaluated@[0].distance
                            <= kept_before[0].distance,
                    decreases points@.len() - i,
                {
                    let ghost kept = evaluated@;
                    let ghost turned = rejected;
                    let ghost rest = mine.skip(i as int);
                    let ghost next = mine.skip(i + 1);
                    let ghost full = kept.len() == k;
                    let ghost worst = kept[0].distance;
                    assert(held(points@[i as int]@, leaf.dimensions as nat, leaf.min_bounds@, leaf.max_bounds@));
                    let dist = distance(point, points[i].as_slice());
                    let element = HeapElement { distance: dist, element: &bucket[i] };
                    proof {
                        assert(rest.skip(1) =~= next);
                        assert(rest[0] == mine[i as int]);
                        assert forall|m: Metric| #[trigger] measures(distance, m) implies ranked::<T>(rest, q, m)[0]
                            == element && ranked::<T>(rest, q, m).to_multiset() =~= ranked::<T>(
                            next,
                            q,
                            m,
                        ).to_multiset().insert(element) by {
                            lemma_ranked_first::<T>(rest, q, m);
                        }
                    }
                    if dist <= max_dist && evaluated.len() < num {
                        evaluated.push(element);
                        proof {
                            lemma_joined(
                                kept,
                                evaluated@,
                                element,
                                |x: HeapElement<&'b T>| 0nat,
                                |x: HeapElement<&'b T>| Multiset::<int>::empty(),
                            );
                        }
                        proof {
                            if tracks {
                                broadcast use vstd::multiset::group_multiset_axioms;
                                let full2 = evaluated@.len() == k;
                                let worst2 = evaluated@[0].distance;
                                lemma_beyond_relaxes(rejected, max_dist, full, worst, full2, worst2);
                                assert forall|m: Metric| #[trigger] measures(distance, m) implies accounted(
                                    m,
                                    q,
                                    all,
                                    evaluated@,
                                    rejected,
                                    pruned,
                                    pending,
                                    next,
                                ) by {
                                    assert(accounted(m, q, all, kept, turned, pruned, pending, rest));
                                }
                                assert forall|m: Metric| #[trigger] measures(distance, m) && admissible(m) implies {
                                    &&& all_beyond(ranked::<T>(pruned, q, m), max_dist, full2, worst2)
                                    &&& forall|x: HeapElement<&'b KdTree<T>>| pending.contains(x) ==> bounded_below(x, q, m)
                                } by {
                                    lemma_beyond_relaxes(ranked::<T>(pruned, q, m), max_dist, full, worst, full2, worst2);
                                }
                            }
                        }
                    } else if dist <= max_dist && element.distance < evaluated.peek().unwrap().distance {
                        let out = evaluated.pop().unwrap();
                        let ghost fewer = evaluated@;
                        evaluated.push(element);
                        proof {
                            lemma_joined(
                                fewer,
                                kept,
                                out,
                                |x: HeapElement<&'b T>| 0nat,
                                |x: HeapElement<&'b T>| Multiset::<int>::empty(),
                            );
                            lemma_joined(
                                fewer,
                                evaluated@,
                                element,
                                |x: HeapElement<&'b T>| 0nat,
                                |x: HeapElement<&'b T>| Multiset::<int>::empty(),
                            );
                            assert(evaluated@.contains(evaluated@[0]));
                            if evaluated@[0] != element {
                                assert(fewer.contains(evaluated@[0]));
                                assert(kept.contains(evaluated@[0]));
                                let j = choose|j: int| 0 <= j < kept.len() && kept[j] == evaluated@[0];
                                crate::heap::lemma_first_is_farthest(kept, kept.len() as int, j);
                            }
                        }
                        proof {
                            if tracks {
                                broadcast use vstd::multiset::group_multiset_axioms;
                                rejected = turned.push(out);
                                vstd::seq_lib::to_multiset_build(turned, out);
                                let worst2 = evaluated@[0].distance;
                                assert(evaluated@.contains(evaluated@[0]));
                                if evaluated@[0] != element {
                                    assert(fewer.contains(evaluated@[0]));
                                    assert(kept.contains(evaluated@[0]));
                                    let j = choose|j: int| 0 <= j < kept.len() && kept[j] == evaluated@[0];
                                    crate::heap::lemma_first_is_farthest(kept, kept.len() as int, j);
                                }
                                assert(worst2 <= worst);
                                lemma_beyond_relaxes(turned, max_dist, full, worst, true, worst2);
                                assert forall|j: int| 0 <= j < rejected.len() implies beyond(
                                    (#[trigger] rejected[j]).distance,
                                    max_dist,
                                    true,
                                    worst2,
                                ) by {
                                    if j < turned.len() {
                                        assert(beyond(turned[j].distance, max_dist, true, worst2));
                                    }
                                }
                                assert forall|m: Metric| #[trigger] measures(distance, m) implies accounted(
                                    m,
                                    q,
                                    all,
                                    evaluated@,
                                    rejected,
                                    pruned,
                                    pending,
                                    next,
                                ) by {
                                    assert(accounted(m, q, all, kept, turned, pruned, pending, rest));
                                }
                                assert forall|m: Metric| #[trigger] measures(distance, m) && admissible(m) implies {
                                    &&& all_beyond(ranked::<T>(pruned, q, m), max_dist, true, worst2)
                                    &&& forall|x: HeapElement<&'b KdTree<T>>| pending.contains(x) ==> bounded_below(x, q, m)
                                } by {
                                    lemma_beyond_relaxes(ranked::<T>(pruned, q, m), max_dist, full, worst, true, worst2);
                                }
                            }
                        }
                    } else {
                        proof {
                            if tracks {
                                broadcast use vstd::multiset::group_multiset_axioms;
                                rejected = turned.push(element);
                                vstd::seq_lib::to_multiset_build(turned, element);
                                assert forall|j: int| 0 <= j < rejected.len() implies beyond(
                                    (#[trigger] rejected[j]).distance,
                                    max_dist,
                                    full,
                                    worst,
                                ) by {
                                    if j < turned.len() {
                                        assert(beyond(turned[j].distance, max_dist, full, worst));
                                    }
                                }
                                assert forall|m: Metric| #[trigger] measures(distance, m) implies accounted(
                                    m,
                                    q,
                                    all,
                                    evaluated@,
                                    rejected,
                                    pruned,
                                    pending,
                                    next,
                                ) by {
                                    assert(accounted(m, q, all, kept, turned, pruned, pending, rest));
                                }
                            }
                        }
                    }
                    proof {
                        assert(mine[i as int].1 == bucket@[i as int]);
                        self::course::lemma_scan_goes_on(
                            distance,
                            kept,
                            i as int,
                            kept_before,
                            mine,
                            q,
                            k,
                            max_dist,
                            dist,
                            evaluated@,
                        );
                    }
                    i += 1;
                }
                assert(mine.skip(i as int) =~= Seq::<(Seq<i64>, T)>::empty());
                proof {
                    self::course::lemma_scan_ends(distance, evaluated@, kept_before, mine, q, k, max_dist);
                }
            },
            Node::Stem { .. } => {},
        }
        Ghost(rejected)
    }
}

/// The same query has the same answer: two answers that a query for the
/// nearest entries owes, on one tree, from one point, under one distance
/// function that computes a metric, are equal, entry by entry and in their
/// order.
pub proof fn lemma_same_query_same_answer<'a, T, F: Fn(&[i64], &[i64]) -> i64>(
    tree: &KdTree<T>,
    q: Seq<i64>,
    num: nat,
    radius: i64,
    distance: &F,
    m: Metric,
    first: Seq<(i64, &'a T)>,
    second: Seq<(i64, &'a T)>,
)
    requires
        measures(distance, m),
        tree.selects(q, num, radius, distance, first),
        tree.selects(q, num, radius, distance, second),
    ensures
        first == second,
{
    let a = as_ranked(first);
    let b = as_ranked(second);
    assert(a == tree.nearest_in_course::<'a>(q, num, radius, m));
    assert(b == tree.nearest_in_course::<'a>(q, num, radius, m));
    assert(first.len() == second.len());
    assert forall|i: int| 0 <= i < first.len() implies first[i] == second[i] by {
        assert(a[i] == b[i]);
    }
    assert(first =~= second);
}

/// The same query has the same answer, whatever the order in which the
/// search keeps what it finds: two answers that a query for the entries
/// within a radius gives, each as the distance function's metric fixes it, are
/// equal, entry by entry and in their order.
pub proof fn lemma_same_reach_same_answer<'a, T, F: Fn(&[i64], &[i64]) -> i64>(
    tree: &KdTree<T>,
    q: Seq<i64>,
    radius: i64,
    distance: &F,
    m: Metric,
    sorts: bool,
    first: Seq<(i64, &'a T)>,
    second: Seq<(i64, &'a T)>,
)
    requires
        measures(distance, m),
        tree.reaches(q, radius, distance, sorts, first),
        tree.reaches(q, radius, distance, sorts, second),
    ensures
        first == second,
{
    let a = as_ranked(first);
    let b = as_ranked(second);
    assert(a == b);
    assert(first.len() == second.len());
    assert forall|i: int| 0 <= i < first.len() implies first[i] == second[i] by {
        assert(a[i] == b[i]);
    }
    assert(first =~= second);
}

} // verus!
