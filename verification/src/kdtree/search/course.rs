//! The course of a search: what it holds after every step, as a function of
//! the tree, the point, the limits and the metric that the distance function
//! computes. Entries that are equally far come out in the order that this
//! course gives them, and in no other.

use super::limit_of;
use super::mirrored;
use crate::distance::may_return;
use crate::distance::measures;
use crate::distance::Metric;
use crate::heap::popped;
use crate::heap::pushed;
use crate::heap::sorted;
use crate::heap_element::HeapElement;
use crate::kdtree::routes_left;
use crate::kdtree::KdTree;
use crate::kdtree::Node;
use crate::tally::total;
use super::weight_of;
use crate::util::clamped;
use vstd::prelude::*;

verus! {

/// The distance under `m` from `q` to the box of `node`: to `q` brought into
/// the box.
pub open spec fn to_box<T>(node: &KdTree<T>, q: Seq<i64>, m: Metric) -> i64 {
    m(q, clamped(q, node.lower(), node.upper()))
}

/// The way down from `start` to the leaf on the side of `q`: the subtrees that
/// wait once it is gone, and the leaf. At every stem the way goes to the side
/// to which the plane routes `q`; the other side is put to wait under the
/// distance to its box, unless that is beyond `limit`.
pub closed spec fn descent<'a, T>(
    start: &'a KdTree<T>,
    q: Seq<i64>,
    limit: i64,
    m: Metric,
    pending: Seq<HeapElement<&'a KdTree<T>>>,
) -> (Seq<HeapElement<&'a KdTree<T>>>, &'a KdTree<T>)
    decreases start,
{
    match start.node {
        Node::Leaf { .. } => (pending, start),
        Node::Stem { split_dimension, split_value, left, right } => {
            let go_left = routes_left(
                start.min_bounds@[split_dimension as int],
                split_value,
                q[split_dimension as int],
            );
            let next: &KdTree<T> = if go_left {
                &*left
            } else {
                &*right
            };
            let aside: &KdTree<T> = if go_left {
                &*right
            } else {
                &*left
            };
            let waiting = if to_box(aside, q, m) <= limit {
                pushed(pending, HeapElement { distance: mirrored(to_box(aside, q, m)), element: aside })
            } else {
                pending
            };
            descent(next, q, limit, m, waiting)
        },
    }
}

/// What `descent` says, over the parts of the tree.
pub proof fn lemma_descent<'a, T>(
    start: &'a KdTree<T>,
    q: Seq<i64>,
    limit: i64,
    m: Metric,
    pending: Seq<HeapElement<&'a KdTree<T>>>,
)
    ensures
        start.leaf() ==> descent(start, q, limit, m, pending) == (pending, start),
        !start.leaf() ==> {
            let go_left = routes_left(start.lower()[start.split_axis()], start.split_at(), q[start.split_axis()]);
            let next = if go_left {
                start.left()
            } else {
                start.right()
            };
            let aside = if go_left {
                start.right()
            } else {
                start.left()
            };
            let waiting = if to_box(&aside, q, m) <= limit {
                pushed(pending, HeapElement { distance: mirrored(to_box(&aside, q, m)), element: &aside })
            } else {
                pending
            };
            descent(start, q, limit, m, pending) == descent(&next, q, limit, m, waiting)
        },
{
}

/// What is kept once the entries of a leaf from place `from` on have been
/// looked at, in their order: an entry within `max_dist` is kept while fewer
/// than `num` are, and later in place of the farthest one kept, if it is
/// nearer than that one.
pub open spec fn scanned<'a, T>(
    kept: Seq<HeapElement<&'a T>>,
    entries: Seq<(Seq<i64>, T)>,
    from: int,
    q: Seq<i64>,
    num: nat,
    max_dist: i64,
    m: Metric,
) -> Seq<HeapElement<&'a T>>
    decreases entries.len() - from,
{
    if 0 <= from < entries.len() {
        let d = m(q, entries[from].0);
        let found = HeapElement { distance: d, element: &entries[from].1 };
        let next = if d <= max_dist && kept.len() < num {
            pushed(kept, found)
        } else if d <= max_dist && d < kept[0].distance {
            pushed(popped(kept), found)
        } else {
            kept
        };
        scanned(next, entries, from + 1, q, num, max_dist, m)
    } else {
        kept
    }
}

/// One step of a search: the nearest waiting subtree is taken and searched
/// down to a leaf, within the limit of the step, and the leaf is looked at.
/// What waits and what is kept after it.
pub open spec fn stepped<'a, T>(
    pending: Seq<HeapElement<&'a KdTree<T>>>,
    kept: Seq<HeapElement<&'a T>>,
    q: Seq<i64>,
    num: nat,
    max_dist: i64,
    m: Metric,
) -> (Seq<HeapElement<&'a KdTree<T>>>, Seq<HeapElement<&'a T>>) {
    let down = descent(pending[0].element, q, limit_of(kept, num, max_dist), m, popped(pending));
    (down.0, scanned(kept, down.1.entries(), 0, q, num, max_dist, m))
}

/// Whether a search has more to do: a subtree waits whose box is within
/// `max_dist`, and, unless every entry within `max_dist` is wanted, fewer than
/// `num` are kept or the box is no farther than the farthest one kept.
pub open spec fn carries_on<'a, T>(
    pending: Seq<HeapElement<&'a KdTree<T>>>,
    kept: Seq<HeapElement<&'a T>>,
    num: nat,
    max_dist: i64,
    whole: bool,
) -> bool {
    &&& pending.len() > 0
    &&& mirrored(pending[0].distance) <= max_dist
    &&& whole || kept.len() < num || mirrored(pending[0].distance) <= kept[0].distance
}

/// What a search keeps in the end, in the order in which its heap holds it:
/// step after step while it has more to do, and no more steps than `fuel`.
pub open spec fn searched<'a, T>(
    pending: Seq<HeapElement<&'a KdTree<T>>>,
    kept: Seq<HeapElement<&'a T>>,
    q: Seq<i64>,
    num: nat,
    max_dist: i64,
    m: Metric,
    whole: bool,
    fuel: nat,
) -> Seq<HeapElement<&'a T>>
    decreases fuel,
{
    if fuel > 0 && carries_on(pending, kept, num, max_dist, whole) {
        let after = stepped(pending, kept, q, num, max_dist, m);
        searched(after.0, after.1, q, num, max_dist, m, whole, (fuel - 1) as nat)
    } else {
        kept
    }
}

impl<T> KdTree<T> {
    /// What a search from `q` keeps in the end: it starts with the whole tree
    /// waiting at distance zero and nothing kept, and has as many steps as the
    /// tree has nodes, which is more than it takes.
    pub open spec fn kept_by_search<'a>(
        &self,
        q: Seq<i64>,
        num: nat,
        max_dist: i64,
        m: Metric,
        whole: bool,
    ) -> Seq<HeapElement<&'a T>> {
        searched(
            pushed(Seq::empty(), HeapElement { distance: mirrored(0), element: self }),
            Seq::empty(),
            q,
            num,
            max_dist,
            m,
            whole,
            self.nodes(),
        )
    }

    /// The answer to a query for the `num` nearest entries to `q` within
    /// `radius`, under the metric `m`: what the search keeps, sorted from the
    /// nearest on.
    pub open spec fn nearest_in_course<'a>(&self, q: Seq<i64>, num: nat, radius: i64, m: Metric) -> Seq<
        HeapElement<&'a T>,
    > {
        let k = if num < self.entries().len() {
            num
        } else {
            self.entries().len()
        };
        if k == 0 {
            Seq::empty()
        } else {
            let kept = self.kept_by_search(q, k, radius, m, false);
            sorted(kept, kept.len() as int)
        }
    }

    /// The entries within `radius` of `q` under the metric `m`, in the order
    /// in which the search keeps them.
    pub open spec fn within_in_course<'a>(&self, q: Seq<i64>, radius: i64, m: Metric) -> Seq<HeapElement<&'a T>> {
        if self.entries().len() == 0 {
            Seq::empty()
        } else {
            self.kept_by_search(q, self.entries().len(), radius, m, true)
        }
    }
}

/// What a distance function returns is the value of the metric that it
/// computes.
pub proof fn lemma_measured<F: Fn(&[i64], &[i64]) -> i64>(distance: &F, m: Metric, a: Seq<i64>, b: Seq<i64>, r: i64)
    requires
        measures(distance, m),
        may_return(distance, a, b, r),
    ensures
        r == m(a, b),
{
    let (x, y) = choose|x: &[i64], y: &[i64]| x@ == a && y@ == b && #[trigger] call_ensures(*distance, (x, y), r);
    assert(call_ensures(*distance, (x, y), r));
}

/// Whether, under every metric that `distance` computes, the way down from
/// `a` with `waiting_a` ends as the way down from `b` with `waiting_b`.
#[verifier::opaque]
pub open spec fn descends_alike<'a, T, F: Fn(&[i64], &[i64]) -> i64>(
    distance: &F,
    a: &'a KdTree<T>,
    waiting_a: Seq<HeapElement<&'a KdTree<T>>>,
    b: &'a KdTree<T>,
    waiting_b: Seq<HeapElement<&'a KdTree<T>>>,
    q: Seq<i64>,
    limit: i64,
) -> bool {
    forall|m: Metric| #[trigger]
        measures(distance, m) ==> descent(a, q, limit, m, waiting_a) == descent(b, q, limit, m, waiting_b)
}

/// Whether, under every metric that `distance` computes, the way down from
/// `start` with `before` waiting ends at `leaf` with `after` waiting.
#[verifier::opaque]
pub open spec fn descends_to<'a, T, F: Fn(&[i64], &[i64]) -> i64>(
    distance: &F,
    start: &'a KdTree<T>,
    before: Seq<HeapElement<&'a KdTree<T>>>,
    q: Seq<i64>,
    limit: i64,
    after: Seq<HeapElement<&'a KdTree<T>>>,
    leaf: &'a KdTree<T>,
) -> bool {
    forall|m: Metric| #[trigger] measures(distance, m) ==> descent(start, q, limit, m, before) == (after, leaf)
}

/// A way down begins as itself.
pub proof fn lemma_descent_begins<'a, T, F: Fn(&[i64], &[i64]) -> i64>(
    distance: &F,
    start: &'a KdTree<T>,
    before: Seq<HeapElement<&'a KdTree<T>>>,
    q: Seq<i64>,
    limit: i64,
)
    ensures
        descends_alike(distance, start, before, start, before, q, limit),
{
    reveal(descends_alike);
}

/// One stem further down, the way ends as it did.
pub proof fn lemma_descent_goes_on<'a, T, F: Fn(&[i64], &[i64]) -> i64>(
    distance: &F,
    curr: &'a KdTree<T>,
    waiting: Seq<HeapElement<&'a KdTree<T>>>,
    start: &'a KdTree<T>,
    before: Seq<HeapElement<&'a KdTree<T>>>,
    q: Seq<i64>,
    limit: i64,
    next: &'a KdTree<T>,
    aside: &'a KdTree<T>,
    r: i64,
    after: Seq<HeapElement<&'a KdTree<T>>>,
)
    requires
        descends_alike(distance, curr, waiting, start, before, q, limit),
        !curr.leaf(),
        routes_left(curr.lower()[curr.split_axis()], curr.split_at(), q[curr.split_axis()]) ==> *next == curr.left()
            && *aside == curr.right(),
        !routes_left(curr.lower()[curr.split_axis()], curr.split_at(), q[curr.split_axis()]) ==> *next
            == curr.right() && *aside == curr.left(),
        may_return(distance, q, clamped(q, aside.lower(), aside.upper()), r),
        after == (if r <= limit {
            pushed(waiting, HeapElement { distance: mirrored(r), element: aside })
        } else {
            waiting
        }),
    ensures
        descends_alike(distance, next, after, start, before, q, limit),
{
    reveal(descends_alike);
    assert forall|m: Metric| #[trigger] measures(distance, m) implies descent(next, q, limit, m, after) == descent(
        start,
        q,
        limit,
        m,
        before,
    ) by {
        lemma_measured(distance, m, q, clamped(q, aside.lower(), aside.upper()), r);
        lemma_descent(curr, q, limit, m, waiting);
    }
}

/// At a leaf the way down ends.
pub proof fn lemma_descent_ends<'a, T, F: Fn(&[i64], &[i64]) -> i64>(
    distance: &F,
    curr: &'a KdTree<T>,
    waiting: Seq<HeapElement<&'a KdTree<T>>>,
    start: &'a KdTree<T>,
    before: Seq<HeapElement<&'a KdTree<T>>>,
    q: Seq<i64>,
    limit: i64,
)
    requires
        descends_alike(distance, curr, waiting, start, before, q, limit),
        curr.leaf(),
    ensures
        descends_to(distance, start, before, q, limit, waiting, curr),
{
    reveal(descends_alike);
    reveal(descends_to);
    assert forall|m: Metric| #[trigger] measures(distance, m) implies descent(start, q, limit, m, before) == (
        waiting,
        curr,
    ) by {
        lemma_descent(curr, q, limit, m, waiting);
    }
}

/// Whether, under every metric that `distance` computes, looking at `entries`
/// from `from` on with `kept` gives what looking at all of them with `first`
/// gives.
#[verifier::opaque]
pub open spec fn scans_alike<'a, T, F: Fn(&[i64], &[i64]) -> i64>(
    distance: &F,
    kept: Seq<HeapElement<&'a T>>,
    from: int,
    first: Seq<HeapElement<&'a T>>,
    entries: Seq<(Seq<i64>, T)>,
    q: Seq<i64>,
    num: nat,
    max_dist: i64,
) -> bool {
    forall|m: Metric| #[trigger]
        measures(distance, m) ==> scanned(kept, entries, from, q, num, max_dist, m) == scanned(
            first,
            entries,
            0,
            q,
            num,
            max_dist,
            m,
        )
}

/// Whether, under every metric that `distance` computes, looking at `entries`
/// with `first` kept leaves `last` kept.
#[verifier::opaque]
pub open spec fn scans_to<'a, T, F: Fn(&[i64], &[i64]) -> i64>(
    distance: &F,
    first: Seq<HeapElement<&'a T>>,
    entries: Seq<(Seq<i64>, T)>,
    q: Seq<i64>,
    num: nat,
    max_dist: i64,
    last: Seq<HeapElement<&'a T>>,
) -> bool {
    forall|m: Metric| #[trigger] measures(distance, m) ==> scanned(first, entries, 0, q, num, max_dist, m) == last
}

/// A scan begins as itself.
pub proof fn lemma_scan_begins<'a, T, F: Fn(&[i64], &[i64]) -> i64>(
    distance: &F,
    first: Seq<HeapElement<&'a T>>,
    entries: Seq<(Seq<i64>, T)>,
    q: Seq<i64>,
    num: nat,
    max_dist: i64,
)
    ensures
        scans_alike(distance, first, 0, first, entries, q, num, max_dist),
{
    reveal(scans_alike);
}

/// One entry further, the scan ends as it did.
pub proof fn lemma_scan_goes_on<'a, T, F: Fn(&[i64], &[i64]) -> i64>(
    distance: &F,
    kept: Seq<HeapElement<&'a T>>,
    from: int,
    first: Seq<HeapElement<&'a T>>,
    entries: Seq<(Seq<i64>, T)>,
    q: Seq<i64>,
    num: nat,
    max_dist: i64,
    r: i64,
    after: Seq<HeapElement<&'a T>>,
)
    requires
        scans_alike(distance, kept, from, first, entries, q, num, max_dist),
        0 <= from < entries.len(),
        may_return(distance, q, entries[from].0, r),
        after == (if r <= max_dist && kept.len() < num {
            pushed(kept, HeapElement { distance: r, element: &entries[from].1 })
        } else if r <= max_dist && r < kept[0].distance {
            pushed(popped(kept), HeapElement { distance: r, element: &entries[from].1 })
        } else {
            kept
        }),
    ensures
        scans_alike(distance, after, from + 1, first, entries, q, num, max_dist),
{
    reveal(scans_alike);
    assert forall|m: Metric| #[trigger] measures(distance, m) implies scanned(
        after,
        entries,
        from + 1,
        q,
        num,
        max_dist,
        m,
    ) == scanned(first, entries, 0, q, num, max_dist, m) by {
        lemma_measured(distance, m, q, entries[from].0, r);
    }
}

/// Past the last entry the scan ends.
pub proof fn lemma_scan_ends<'a, T, F: Fn(&[i64], &[i64]) -> i64>(
    distance: &F,
    kept: Seq<HeapElement<&'a T>>,
    first: Seq<HeapElement<&'a T>>,
    entries: Seq<(Seq<i64>, T)>,
    q: Seq<i64>,
    num: nat,
    max_dist: i64,
)
    requires
        scans_alike(distance, kept, entries.len() as int, first, entries, q, num, max_dist),
    ensures
        scans_to(distance, first, entries, q, num, max_dist, kept),
{
    reveal(scans_alike);
    reveal(scans_to);
}

/// Whether, under every metric that `distance` computes, one step from
/// `pending` and `kept` leaves `waiting` and `held`.
#[verifier::opaque]
pub open spec fn steps_to<'a, T, F: Fn(&[i64], &[i64]) -> i64>(
    distance: &F,
    pending: Seq<HeapElement<&'a KdTree<T>>>,
    kept: Seq<HeapElement<&'a T>>,
    q: Seq<i64>,
    num: nat,
    max_dist: i64,
    waiting: Seq<HeapElement<&'a KdTree<T>>>,
    held: Seq<HeapElement<&'a T>>,
) -> bool {
    forall|m: Metric| #[trigger] measures(distance, m) ==> stepped(pending, kept, q, num, max_dist, m) == (waiting, held)
}

/// A way down and a look at the leaf make a step.
pub proof fn lemma_step_made<'a, T, F: Fn(&[i64], &[i64]) -> i64>(
    distance: &F,
    pending: Seq<HeapElement<&'a KdTree<T>>>,
    kept: Seq<HeapElement<&'a T>>,
    q: Seq<i64>,
    num: nat,
    max_dist: i64,
    waiting: Seq<HeapElement<&'a KdTree<T>>>,
    leaf: &'a KdTree<T>,
    held: Seq<HeapElement<&'a T>>,
)
    requires
        pending.len() > 0,
        descends_to(distance, pending[0].element, popped(pending), q, limit_of(kept, num, max_dist), waiting, leaf),
        scans_to(distance, kept, leaf.entries(), q, num, max_dist, held),
    ensures
        steps_to(distance, pending, kept, q, num, max_dist, waiting, held),
{
    reveal(descends_to);
    reveal(scans_to);
    reveal(steps_to);
}

/// Whether, under every metric that `distance` computes, a search that goes
/// on from `pending` and `kept` with `fuel` steps left keeps in the end what
/// the search from `q` in `tree` keeps.
#[verifier::opaque]
pub open spec fn searches_alike<'a, T, F: Fn(&[i64], &[i64]) -> i64>(
    distance: &F,
    tree: &KdTree<T>,
    pending: Seq<HeapElement<&'a KdTree<T>>>,
    kept: Seq<HeapElement<&'a T>>,
    fuel: nat,
    q: Seq<i64>,
    num: nat,
    max_dist: i64,
    whole: bool,
) -> bool {
    forall|m: Metric| #[trigger]
        measures(distance, m) ==> searched(pending, kept, q, num, max_dist, m, whole, fuel) == tree.kept_by_search(
            q,
            num,
            max_dist,
            m,
            whole,
        )
}

/// Whether, under every metric that `distance` computes, the search from `q`
/// in `tree` keeps `kept` in the end.
#[verifier::opaque]
pub open spec fn searches_to<'a, T, F: Fn(&[i64], &[i64]) -> i64>(
    distance: &F,
    tree: &KdTree<T>,
    q: Seq<i64>,
    num: nat,
    max_dist: i64,
    whole: bool,
    kept: Seq<HeapElement<&'a T>>,
) -> bool {
    forall|m: Metric| #[trigger] measures(distance, m) ==> tree.kept_by_search(q, num, max_dist, m, whole) == kept
}

/// A search begins with the tree waiting and nothing kept.
pub proof fn lemma_search_begins<'a, T, F: Fn(&[i64], &[i64]) -> i64>(
    distance: &F,
    tree: &'a KdTree<T>,
    pending: Seq<HeapElement<&'a KdTree<T>>>,
    q: Seq<i64>,
    num: nat,
    max_dist: i64,
    whole: bool,
)
    requires
        pending == pushed(Seq::empty(), HeapElement { distance: mirrored(0), element: tree }),
    ensures
        searches_alike(distance, tree, pending, Seq::empty(), tree.nodes(), q, num, max_dist, whole),
{
    reveal(searches_alike);
}

/// One step further, the search ends as it did.
pub proof fn lemma_search_goes_on<'a, T, F: Fn(&[i64], &[i64]) -> i64>(
    distance: &F,
    tree: &KdTree<T>,
    pending: Seq<HeapElement<&'a KdTree<T>>>,
    kept: Seq<HeapElement<&'a T>>,
    fuel: nat,
    q: Seq<i64>,
    num: nat,
    max_dist: i64,
    whole: bool,
    waiting: Seq<HeapElement<&'a KdTree<T>>>,
    held: Seq<HeapElement<&'a T>>,
)
    requires
        searches_alike(distance, tree, pending, kept, fuel, q, num, max_dist, whole),
        fuel > 0,
        carries_on(pending, kept, num, max_dist, whole),
        steps_to(distance, pending, kept, q, num, max_dist, waiting, held),
    ensures
        searches_alike(distance, tree, waiting, held, (fuel - 1) as nat, q, num, max_dist, whole),
{
    reveal(searches_alike);
    reveal(steps_to);
}

/// With nothing more to do, the search ends.
pub proof fn lemma_search_ends<'a, T, F: Fn(&[i64], &[i64]) -> i64>(
    distance: &F,
    tree: &KdTree<T>,
    pending: Seq<HeapElement<&'a KdTree<T>>>,
    kept: Seq<HeapElement<&'a T>>,
    fuel: nat,
    q: Seq<i64>,
    num: nat,
    max_dist: i64,
    whole: bool,
)
    requires
        searches_alike(distance, tree, pending, kept, fuel, q, num, max_dist, whole),
        !carries_on(pending, kept, num, max_dist, whole),
    ensures
        searches_to(distance, tree, q, num, max_dist, whole, kept),
{
    reveal(searches_alike);
    reveal(searches_to);
}

/// The candidates of a lazy search once the entries of a leaf from place
/// `from` on have been looked at, in their order: every entry within `radius`
/// becomes a candidate.
pub open spec fn gleaned<'a, T>(
    cands: Seq<HeapElement<&'a T>>,
    entries: Seq<(Seq<i64>, T)>,
    from: int,
    q: Seq<i64>,
    radius: i64,
    m: Metric,
) -> Seq<HeapElement<&'a T>>
    decreases entries.len() - from,
{
    if 0 <= from < entries.len() {
        let d = m(q, entries[from].0);
        let next = if d <= radius {
            pushed(cands, HeapElement { distance: mirrored(d), element: &entries[from].1 })
        } else {
            cands
        };
        gleaned(next, entries, from + 1, q, radius, m)
    } else {
        cands
    }
}

/// One step of a lazy search: the nearest waiting subtree is taken and
/// searched down to a leaf, within the radius, and the leaf is looked at. What
/// waits and the candidates after it.
pub open spec fn browsed<'a, T>(
    pending: Seq<HeapElement<&'a KdTree<T>>>,
    cands: Seq<HeapElement<&'a T>>,
    q: Seq<i64>,
    radius: i64,
    m: Metric,
) -> (Seq<HeapElement<&'a KdTree<T>>>, Seq<HeapElement<&'a T>>) {
    let down = descent(pending[0].element, q, radius, m, popped(pending));
    (down.0, gleaned(cands, down.1.entries(), 0, q, radius, m))
}

/// Whether a lazy search must go on before it can hand out its nearest
/// candidate: a subtree waits whose box is within the radius and no farther
/// than that candidate.
pub open spec fn promising<P, E>(pending: Seq<HeapElement<P>>, cands: Seq<HeapElement<E>>, radius: i64) -> bool {
    &&& pending.len() > 0
    &&& mirrored(pending[0].distance) <= radius
    &&& cands.len() == 0 || mirrored(pending[0].distance) <= mirrored(cands[0].distance)
}

/// What waits and the candidates once a lazy search can hand out its nearest
/// candidate: step after step while it must go on, and no more steps than
/// `fuel`.
pub open spec fn readied<'a, T>(
    pending: Seq<HeapElement<&'a KdTree<T>>>,
    cands: Seq<HeapElement<&'a T>>,
    q: Seq<i64>,
    radius: i64,
    m: Metric,
    fuel: nat,
) -> (Seq<HeapElement<&'a KdTree<T>>>, Seq<HeapElement<&'a T>>)
    decreases fuel,
{
    if fuel > 0 && promising(pending, cands, radius) {
        let after = browsed(pending, cands, q, radius, m);
        readied(after.0, after.1, q, radius, m, (fuel - 1) as nat)
    } else {
        (pending, cands)
    }
}

/// The number of nodes in the subtrees that wait: more steps than a search
/// takes from there.
pub open spec fn nodes_waiting<'a, T>(pending: Seq<HeapElement<&'a KdTree<T>>>) -> nat {
    total(pending, weight_of::<T>())
}

/// What a lazy search hands out next, with what then waits and the candidates
/// that are left: the nearest candidate once the search is ready, if there is
/// one.
pub open spec fn handed_next<'a, T>(
    pending: Seq<HeapElement<&'a KdTree<T>>>,
    cands: Seq<HeapElement<&'a T>>,
    q: Seq<i64>,
    radius: i64,
    m: Metric,
) -> (Option<(i64, &'a T)>, Seq<HeapElement<&'a KdTree<T>>>, Seq<HeapElement<&'a T>>) {
    let ready = readied(pending, cands, q, radius, m, nodes_waiting(pending));
    (
        if ready.1.len() == 0 {
            None
        } else {
            Some((mirrored(ready.1[0].distance), ready.1[0].element))
        },
        ready.0,
        popped(ready.1),
    )
}

/// Whether, under every metric that `distance` computes, gleaning `entries`
/// from `from` on with `cands` gives what gleaning all of them with `first`
/// gives.
#[verifier::opaque]
pub open spec fn gleans_alike<'a, T, F: Fn(&[i64], &[i64]) -> i64>(
    distance: &F,
    cands: Seq<HeapElement<&'a T>>,
    from: int,
    first: Seq<HeapElement<&'a T>>,
    entries: Seq<(Seq<i64>, T)>,
    q: Seq<i64>,
    radius: i64,
) -> bool {
    forall|m: Metric| #[trigger]
        measures(distance, m) ==> gleaned(cands, entries, from, q, radius, m) == gleaned(first, entries, 0, q, radius, m)
}

/// A gleaning begins as itself.
pub proof fn lemma_gleaning_begins<'a, T, F: Fn(&[i64], &[i64]) -> i64>(
    distance: &F,
    first: Seq<HeapElement<&'a T>>,
    entries: Seq<(Seq<i64>, T)>,
    q: Seq<i64>,
    radius: i64,
)
    ensures
        gleans_alike(distance, first, 0, first, entries, q, radius),
{
    reveal(gleans_alike);
}

/// One entry further, the gleaning ends as it did.
pub proof fn lemma_gleaning_goes_on<'a, T, F: Fn(&[i64], &[i64]) -> i64>(
    distance: &F,
    cands: Seq<HeapElement<&'a T>>,
    from: int,
    first: Seq<HeapElement<&'a T>>,
    entries: Seq<(Seq<i64>, T)>,
    q: Seq<i64>,
    radius: i64,
    r: i64,
    after: Seq<HeapElement<&'a T>>,
)
    requires
        gleans_alike(distance, cands, from, first, entries, q, radius),
        0 <= from < entries.len(),
        may_return(distance, q, entries[from].0, r),
        after == (if r <= radius {
            pushed(cands, HeapElement { distance: mirrored(r), element: &entries[from].1 })
        } else {
            cands
        }),
    ensures
        gleans_alike(distance, after, from + 1, first, entries, q, radius),
{
    reveal(gleans_alike);
    assert forall|m: Metric| #[trigger] measures(distance, m) implies gleaned(after, entries, from + 1, q, radius, m)
        == gleaned(first, entries, 0, q, radius, m) by {
        lemma_measured(distance, m, q, entries[from].0, r);
    }
}

/// Whether, under every metric that `distance` computes, one step of a lazy
/// search from `pending` and `cands` leaves `waiting` and `found`.
#[verifier::opaque]
pub open spec fn browses_to<'a, T, F: Fn(&[i64], &[i64]) -> i64>(
    distance: &F,
    pending: Seq<HeapElement<&'a KdTree<T>>>,
    cands: Seq<HeapElement<&'a T>>,
    q: Seq<i64>,
    radius: i64,
    waiting: Seq<HeapElement<&'a KdTree<T>>>,
    found: Seq<HeapElement<&'a T>>,
) -> bool {
    forall|m: Metric| #[trigger] measures(distance, m) ==> browsed(pending, cands, q, radius, m) == (waiting, found)
}

/// A way down and a gleaning of the leaf make a step of a lazy search.
pub proof fn lemma_browsed<'a, T, F: Fn(&[i64], &[i64]) -> i64>(
    distance: &F,
    pending: Seq<HeapElement<&'a KdTree<T>>>,
    cands: Seq<HeapElement<&'a T>>,
    q: Seq<i64>,
    radius: i64,
    waiting: Seq<HeapElement<&'a KdTree<T>>>,
    leaf: &'a KdTree<T>,
    found: Seq<HeapElement<&'a T>>,
)
    requires
        pending.len() > 0,
        descends_to(distance, pending[0].element, popped(pending), q, radius, waiting, leaf),
        gleans_alike(distance, found, leaf.entries().len() as int, cands, leaf.entries(), q, radius),
    ensures
        browses_to(distance, pending, cands, q, radius, waiting, found),
{
    reveal(descends_to);
    reveal(gleans_alike);
    reveal(browses_to);
}

/// Whether, under every metric that `distance` computes, a lazy search that
/// goes on from `pending` and `cands` with `fuel` steps left is ready where
/// the one from `first` and `before` is.
#[verifier::opaque]
pub open spec fn readies_alike<'a, T, F: Fn(&[i64], &[i64]) -> i64>(
    distance: &F,
    pending: Seq<HeapElement<&'a KdTree<T>>>,
    cands: Seq<HeapElement<&'a T>>,
    fuel: nat,
    first: Seq<HeapElement<&'a KdTree<T>>>,
    before: Seq<HeapElement<&'a T>>,
    q: Seq<i64>,
    radius: i64,
) -> bool {
    forall|m: Metric| #[trigger]
        measures(distance, m) ==> readied(pending, cands, q, radius, m, fuel) == readied(
            first,
            before,
            q,
            radius,
            m,
            nodes_waiting(first),
        )
}

/// Whether, under every metric that `distance` computes, a lazy search from
/// `first` and `before` hands out `r` and leaves `waiting` and `left`.
#[verifier::opaque]
pub open spec fn hands_out<'a, T, F: Fn(&[i64], &[i64]) -> i64>(
    distance: &F,
    first: Seq<HeapElement<&'a KdTree<T>>>,
    before: Seq<HeapElement<&'a T>>,
    q: Seq<i64>,
    radius: i64,
    r: Option<(i64, &'a T)>,
    waiting: Seq<HeapElement<&'a KdTree<T>>>,
    left: Seq<HeapElement<&'a T>>,
) -> bool {
    forall|m: Metric| #[trigger] measures(distance, m) ==> handed_next(first, before, q, radius, m) == (r, waiting, left)
}

/// A lazy search begins to get ready as itself.
pub proof fn lemma_readying_begins<'a, T, F: Fn(&[i64], &[i64]) -> i64>(
    distance: &F,
    first: Seq<HeapElement<&'a KdTree<T>>>,
    before: Seq<HeapElement<&'a T>>,
    q: Seq<i64>,
    radius: i64,
)
    ensures
        readies_alike(distance, first, before, nodes_waiting(first), first, before, q, radius),
{
    reveal(readies_alike);
}

/// One step further, the lazy search is ready where it was.
pub proof fn lemma_readying_goes_on<'a, T, F: Fn(&[i64], &[i64]) -> i64>(
    distance: &F,
    pending: Seq<HeapElement<&'a KdTree<T>>>,
    cands: Seq<HeapElement<&'a T>>,
    fuel: nat,
    first: Seq<HeapElement<&'a KdTree<T>>>,
    before: Seq<HeapElement<&'a T>>,
    q: Seq<i64>,
    radius: i64,
    waiting: Seq<HeapElement<&'a KdTree<T>>>,
    found: Seq<HeapElement<&'a T>>,
)
    requires
        readies_alike(distance, pending, cands, fuel, first, before, q, radius),
        fuel > 0,
        promising(pending, cands, radius),
        browses_to(distance, pending, cands, q, radius, waiting, found),
    ensures
        readies_alike(distance, waiting, found, (fuel - 1) as nat, first, before, q, radius),
{
    reveal(readies_alike);
    reveal(browses_to);
}

/// Once it need not go on, the lazy search hands out its nearest candidate.
pub proof fn lemma_readying_ends<'a, T, F: Fn(&[i64], &[i64]) -> i64>(
    distance: &F,
    pending: Seq<HeapElement<&'a KdTree<T>>>,
    cands: Seq<HeapElement<&'a T>>,
    fuel: nat,
    first: Seq<HeapElement<&'a KdTree<T>>>,
    before: Seq<HeapElement<&'a T>>,
    q: Seq<i64>,
    radius: i64,
    r: Option<(i64, &'a T)>,
)
    requires
        readies_alike(distance, pending, cands, fuel, first, before, q, radius),
        !promising(pending, cands, radius),
        r == (if cands.len() == 0 {
            None
        } else {
            Some((mirrored(cands[0].distance), cands[0].element))
        }),
    ensures
        hands_out(distance, first, before, q, radius, r, pending, popped(cands)),
{
    reveal(readies_alike);
    reveal(hands_out);
}

} // verus!
