//! Entries from the nearest on, one at a time: each call searches the tree no
//! further than the next entry asks for.
//!
//! A search that hands payloads out for writing records the place of each,
//! among the entries of the tree as it was when the search began. What the
//! tree holds in the end is stated over a sheet of payloads, one for every
//! place: the tree comes back with the payloads of any sheet that has, at
//! each place handed out, what its reference holds in the end, and everywhere
//! else what the tree held. The constructors, `next` and `lemma_given_back`
//! each state their link of that chain.

use super::accounted_with;
use super::course::descends_alike;
use super::course::descends_to;
use super::course::browses_to;
use super::course::gleans_alike;
use super::course::hands_out;
use super::course::nodes_waiting;
use super::course::readies_alike;
use super::lemma_member;
use super::lemma_ranked_first;
use super::lemma_waiting_beyond;
use super::mirror;
use super::mirrored;
use super::part_of;
use super::ranked;
use super::searching_with;
use super::weight_of;
use crate::distance::admissible;
use crate::distance::callable;
use crate::distance::may_return;
use crate::distance::measures;
use crate::distance::Metric;
use crate::heap::ascending;
use crate::heap::RankedHeap;
use crate::heap_element::HeapElement;
use crate::kdtree::belongs_in_left;
use crate::kdtree::checked;
use crate::kdtree::held;
use crate::kdtree::paired;
use crate::kdtree::ErrorKind;
use crate::kdtree::KdTree;
use crate::kdtree::Node;
use crate::scalar::max_value;
use crate::scalar::zero;
use crate::tally::gathered;
use crate::tally::lemma_joined;
use crate::tally::total;
use crate::util::distance_to_space;
use vstd::multiset::Multiset;
use vstd::prelude::*;

verus! {

/// A candidate as it waits to be handed out: under the mirror of its distance,
/// so that the nearest is on top of the heap.
spec fn unmirrored<'a, T>(x: HeapElement<&'a T>) -> HeapElement<&'a T> {
    HeapElement { distance: mirrored(x.distance), element: x.element }
}

/// Every candidate is within `radius`.
spec fn candidates_within<'a, T>(cands: Seq<HeapElement<&'a T>>, radius: i64) -> bool {
    forall|i: int| 0 <= i < cands.len() ==> mirrored((#[trigger] cands[i]).distance) <= radius
}

spec fn candidate_of<'a, T>() -> spec_fn(HeapElement<&'a T>) -> Multiset<HeapElement<&'a T>> {
    |x: HeapElement<&'a T>| Multiset::singleton(unmirrored(x))
}

/// What `all` holds more often than `yielded` does is no nearer than `d`.
pub open spec fn rest_is_no_nearer<E>(yielded: Seq<HeapElement<E>>, all: Multiset<HeapElement<E>>, d: i64) -> bool {
    forall|x: HeapElement<E>| yielded.to_multiset().count(x) < #[trigger] all.count(x) ==> d <= x.distance
}

/// What `all` holds more often than `yielded` does is beyond `radius`.
pub open spec fn rest_is_out_of_reach<E>(yielded: Seq<HeapElement<E>>, all: Multiset<HeapElement<E>>, radius: i64) -> bool {
    forall|x: HeapElement<E>| yielded.to_multiset().count(x) < #[trigger] all.count(x) ==> radius < x.distance
}

/// The state of a search that hands out one entry at a time: every entry of
/// `all` has been handed out, is a candidate within the radius, was found
/// beyond it, was pruned with its subtree, waits in a subtree, or is in hand.
#[verifier::opaque]
spec fn browsing<'a, T, F: Fn(&[i64], &[i64]) -> i64>(
    f: &F,
    q: Seq<i64>,
    radius: i64,
    all: Seq<(Seq<i64>, T)>,
    pending: Seq<HeapElement<&'a KdTree<T>>>,
    far: Seq<HeapElement<&'a T>>,
    pruned: Seq<(Seq<i64>, T)>,
    rest: Seq<(Seq<i64>, T)>,
    given: Seq<HeapElement<&'a T>>,
    cands: Seq<HeapElement<&'a T>>,
) -> bool {
    &&& crate::heap::heap_ordered(cands)
    &&& candidates_within(cands, radius)
    &&& searching_with(
        f,
        q,
        1,
        radius,
        all,
        pending,
        Seq::empty(),
        far,
        pruned,
        rest,
        given.to_multiset().add(gathered(cands, candidate_of::<T>())),
    )
}

/// Where the distance function computes an admissible metric, what has been
/// handed out came in ascending order, and nothing left is nearer than the last.
#[verifier::opaque]
spec fn in_order<'a, T, F: Fn(&[i64], &[i64]) -> i64>(
    f: &F,
    q: Seq<i64>,
    all: Seq<(Seq<i64>, T)>,
    given: Seq<HeapElement<&'a T>>,
) -> bool {
    forall|m: Metric| #[trigger]
        measures(f, m) && admissible(m) ==> {
            &&& ascending(given)
            &&& given.len() > 0 ==> rest_is_no_nearer(given, ranked::<T>(all, q, m).to_multiset(), given.last().distance)
        }
}

proof fn lemma_candidates_within<'a, T>(before: Seq<HeapElement<&'a T>>, after: Seq<HeapElement<&'a T>>, radius: i64)
    requires
        candidates_within(before, radius),
        forall|x: HeapElement<&'a T>| after.contains(x) ==> before.contains(x) || mirrored(x.distance) <= radius,
    ensures
        candidates_within(after, radius),
{
    assert forall|i: int| 0 <= i < after.len() implies mirrored((#[trigger] after[i]).distance) <= radius by {
        assert(after.contains(after[i]));
        if before.contains(after[i]) {
            let j = choose|j: int| 0 <= j < before.len() && before[j] == after[i];
            assert(mirrored(before[j].distance) <= radius);
        }
    }
}

/// A search that has just been seeded with the whole tree.
proof fn lemma_started<'a, T, F: Fn(&[i64], &[i64]) -> i64>(
    tree: &'a KdTree<T>,
    q: Seq<i64>,
    f: &F,
    radius: i64,
    pending: Seq<HeapElement<&'a KdTree<T>>>,
    seed: HeapElement<&'a KdTree<T>>,
)
    requires
        tree.wf(),
        q.len() == tree.dimensions,
        seed.element == tree,
        seed.distance == mirrored(0),
        crate::heap::heap_ordered(pending),
        pending.to_multiset() =~= Seq::<HeapElement<&'a KdTree<T>>>::empty().to_multiset().insert(seed),
    ensures
        browsing(
            f,
            q,
            radius,
            tree.entries(),
            pending,
            Seq::empty(),
            Seq::empty(),
            Seq::empty(),
            Seq::empty(),
            Seq::empty(),
        ),
        in_order(f, q, tree.entries(), Seq::<HeapElement<&'a T>>::empty()),
{
    reveal(browsing);
    reveal(in_order);
    broadcast use vstd::multiset::group_multiset_axioms;
    KdTree::lemma_seeded(tree, q, f, 1, radius, pending, seed);
    crate::kdtree::lemma_empty_multiset::<HeapElement<&'a T>>();
    let none = Seq::<HeapElement<&'a T>>::empty();
    assert(none.to_multiset().add(gathered(none, candidate_of::<T>())) =~= Multiset::empty());
}

/// The nearest waiting subtree is taken in hand.
proof fn lemma_taken<'a, T, F: Fn(&[i64], &[i64]) -> i64>(
    f: &F,
    q: Seq<i64>,
    radius: i64,
    all: Seq<(Seq<i64>, T)>,
    waiting: Seq<HeapElement<&'a KdTree<T>>>,
    remaining: Seq<HeapElement<&'a KdTree<T>>>,
    top: HeapElement<&'a KdTree<T>>,
    far: Seq<HeapElement<&'a T>>,
    pruned: Seq<(Seq<i64>, T)>,
    given: Seq<HeapElement<&'a T>>,
    cands: Seq<HeapElement<&'a T>>,
)
    requires
        browsing(f, q, radius, all, waiting, far, pruned, Seq::empty(), given, cands),
        crate::heap::heap_ordered(remaining),
        waiting.to_multiset() =~= remaining.to_multiset().insert(top),
    ensures
        browsing(f, q, radius, all, remaining, far, pruned, top.element.entries(), given, cands),
        top.element.wf(),
        top.element.dimensions == q.len(),
        total(waiting, weight_of::<T>()) == total(remaining, weight_of::<T>()) + top.element.nodes(),
{
    reveal(browsing);
    reveal(in_order);
    broadcast use vstd::multiset::group_multiset_axioms;
    let none = Seq::<HeapElement<&'a T>>::empty();
    let no_entries = Seq::<(Seq<i64>, T)>::empty();
    let aside = given.to_multiset().add(gathered(cands, candidate_of::<T>()));
    lemma_joined(remaining, waiting, top, weight_of::<T>(), part_of::<T>(q, |a: Seq<i64>, b: Seq<i64>| 0i64));
    assert(waiting.contains(top));
    assert(super::fit(top, q.len()));
    assert forall|m: Metric| #[trigger] measures(f, m) implies accounted_with(
        m,
        q,
        all,
        none,
        far,
        pruned,
        remaining,
        top.element.entries(),
        aside,
    ) by {
        assert(accounted_with(m, q, all, none, far, pruned, waiting, no_entries, aside));
        lemma_joined(remaining, waiting, top, weight_of::<T>(), part_of::<T>(q, m));
        assert(ranked::<T>(no_entries, q, m) =~= none);
        crate::kdtree::lemma_empty_multiset::<HeapElement<&'a T>>();
    }
}

/// An entry in hand within the radius becomes a candidate.
proof fn lemma_candidate_found<'a, T, F: Fn(&[i64], &[i64]) -> i64>(
    f: &F,
    q: Seq<i64>,
    radius: i64,
    all: Seq<(Seq<i64>, T)>,
    pending: Seq<HeapElement<&'a KdTree<T>>>,
    far: Seq<HeapElement<&'a T>>,
    pruned: Seq<(Seq<i64>, T)>,
    rest: Seq<(Seq<i64>, T)>,
    given: Seq<HeapElement<&'a T>>,
    cands: Seq<HeapElement<&'a T>>,
    after: Seq<HeapElement<&'a T>>,
    dist: i64,
    item: HeapElement<&'a T>,
)
    requires
        browsing(f, q, radius, all, pending, far, pruned, rest, given, cands),
        rest.len() > 0,
        may_return(f, q, rest[0].0, dist),
        dist <= radius,
        item == (HeapElement { distance: mirrored(dist), element: &rest[0].1 }),
        crate::heap::heap_ordered(after),
        after.to_multiset() =~= cands.to_multiset().insert(item),
    ensures
        browsing(f, q, radius, all, pending, far, pruned, rest.skip(1), given, after),
{
    reveal(browsing);
    reveal(in_order);
    broadcast use vstd::multiset::group_multiset_axioms;
    let none = Seq::<HeapElement<&'a T>>::empty();
    let aside = given.to_multiset().add(gathered(cands, candidate_of::<T>()));
    let aside2 = given.to_multiset().add(gathered(after, candidate_of::<T>()));
    let element = HeapElement { distance: dist, element: &rest[0].1 };
    assert(unmirrored(item) == element);
    lemma_joined(cands, after, item, |x: HeapElement<&'a T>| 0nat, candidate_of::<T>());
    assert(aside2 =~= aside.insert(element));
    lemma_candidates_within(cands, after, radius);
    assert forall|m: Metric| #[trigger] measures(f, m) implies accounted_with(
        m,
        q,
        all,
        none,
        far,
        pruned,
        pending,
        rest.skip(1),
        aside2,
    ) by {
        assert(accounted_with(m, q, all, none, far, pruned, pending, rest, aside));
        lemma_ranked_first::<T>(rest, q, m);
        let (x, y) = choose|x: &[i64], y: &[i64]| x@ == q && y@ == rest[0].0 && #[trigger] call_ensures(*f, (x, y), dist);
        assert(dist == m(q, rest[0].0));
        assert(ranked::<T>(rest, q, m)[0] == element);
    }
}

/// An entry in hand beyond the radius is set down as far.
proof fn lemma_far_found<'a, T, F: Fn(&[i64], &[i64]) -> i64>(
    f: &F,
    q: Seq<i64>,
    radius: i64,
    all: Seq<(Seq<i64>, T)>,
    pending: Seq<HeapElement<&'a KdTree<T>>>,
    far: Seq<HeapElement<&'a T>>,
    pruned: Seq<(Seq<i64>, T)>,
    rest: Seq<(Seq<i64>, T)>,
    given: Seq<HeapElement<&'a T>>,
    cands: Seq<HeapElement<&'a T>>,
    dist: i64,
)
    requires
        browsing(f, q, radius, all, pending, far, pruned, rest, given, cands),
        rest.len() > 0,
        may_return(f, q, rest[0].0, dist),
        radius < dist,
    ensures
        browsing(
            f,
            q,
            radius,
            all,
            pending,
            far.push(HeapElement { distance: dist, element: &rest[0].1 }),
            pruned,
            rest.skip(1),
            given,
            cands,
        ),
{
    reveal(browsing);
    reveal(in_order);
    broadcast use vstd::multiset::group_multiset_axioms;
    let none = Seq::<HeapElement<&'a T>>::empty();
    let aside = given.to_multiset().add(gathered(cands, candidate_of::<T>()));
    let element = HeapElement { distance: dist, element: &rest[0].1 };
    let turned = far.push(element);
    vstd::seq_lib::to_multiset_build(far, element);
    assert forall|j: int| 0 <= j < turned.len() implies super::beyond(
        (#[trigger] turned[j]).distance,
        radius,
        false,
        none[0].distance,
    ) by {
        if j < far.len() {
            assert(super::beyond(far[j].distance, radius, false, none[0].distance));
        }
    }
    assert forall|m: Metric| #[trigger] measures(f, m) implies accounted_with(
        m,
        q,
        all,
        none,
        turned,
        pruned,
        pending,
        rest.skip(1),
        aside,
    ) by {
        assert(accounted_with(m, q, all, none, far, pruned, pending, rest, aside));
        lemma_ranked_first::<T>(rest, q, m);
        let (x, y) = choose|x: &[i64], y: &[i64]| x@ == q && y@ == rest[0].0 && #[trigger] call_ensures(*f, (x, y), dist);
        assert(dist == m(q, rest[0].0));
        assert(ranked::<T>(rest, q, m)[0] == element);
    }
}

/// Whether the search must go on before the nearest candidate can be handed
/// out: a subtree waits whose lower bound is within the radius and no farther
/// than the nearest candidate.
fn has_nearer<P, E>(pending: &RankedHeap<P>, evaluated: &RankedHeap<E>, radius: i64) -> (b: bool)
    requires
        pending.wf(),
        evaluated.wf(),
    ensures
        b == (pending@.len() > 0 && mirrored(pending@[0].distance) <= radius && (evaluated@.len() == 0 || mirrored(
            pending@[0].distance,
        ) <= mirrored(evaluated@[0].distance))),
{
    match pending.peek() {
        None => false,
        Some(top) => {
            let bound = mirror(top.distance);
            if bound > radius {
                false
            } else {
                let best = match evaluated.peek() {
                    None => max_value(),
                    Some(x) => mirror(x.distance),
                };
                best >= bound
            }
        },
    }
}

/// The entries of a tree within a radius of a point, from the nearest on.
pub struct NearestWithinRadiusIter<'a, T, F: Fn(&[i64], &[i64]) -> i64> {
    point: &'a [i64],
    pending: RankedHeap<&'a KdTree<T>>,
    evaluated: RankedHeap<&'a T>,
    distance: &'a F,
    radius: i64,
    source: Ghost<Seq<(Seq<i64>, T)>>,
    yielded: Ghost<Seq<HeapElement<&'a T>>>,
    far: Ghost<Seq<HeapElement<&'a T>>>,
    pruned: Ghost<Seq<(Seq<i64>, T)>>,
}

impl<'a, T, F: Fn(&[i64], &[i64]) -> i64> NearestWithinRadiusIter<'a, T, F> {
    /// The entries of the tree that is searched.
    pub closed spec fn source(&self) -> Seq<(Seq<i64>, T)> {
        self.source@
    }

    /// The point from which distances are taken.
    pub closed spec fn center(&self) -> Seq<i64> {
        self.point@
    }

    /// The radius beyond which nothing is handed out.
    pub closed spec fn reach(&self) -> i64 {
        self.radius
    }

    /// The distance function.
    pub closed spec fn metric(&self) -> &'a F {
        self.distance
    }

    /// What has been handed out so far, in that order.
    pub closed spec fn yielded(&self) -> Seq<HeapElement<&'a T>> {
        self.yielded@
    }

    /// The subtrees that wait to be searched, in the order in which the heap
    /// holds them.
    pub closed spec fn waiting(&self) -> Seq<HeapElement<&'a KdTree<T>>> {
        self.pending@
    }

    /// The entries found within the radius that wait to be handed out, in the
    /// order in which the heap holds them.
    pub closed spec fn candidates(&self) -> Seq<HeapElement<&'a T>> {
        self.evaluated@
    }

    /// The search is consistent: every entry of the tree has been handed out,
    /// is a candidate within the radius, was found beyond it, or still waits
    /// in a subtree.
    pub closed spec fn wf(&self) -> bool {
        &&& self.pending.wf()
        &&& self.evaluated.wf()
        &&& callable(self.distance, self.point@.len())
        &&& browsing(
            self.distance,
            self.point@,
            self.radius,
            self.source@,
            self.pending@,
            self.far@,
            self.pruned@,
            Seq::empty(),
            self.yielded@,
            self.evaluated@,
        )
        &&& in_order(self.distance, self.point@, self.source@, self.yielded@)
    }

    /// Takes the nearest waiting subtree and searches it: down to the leaf on
    /// the point's side, the subtrees passed by waiting in their turn unless
    /// their boxes are beyond the radius; the entries of the leaf within the
    /// radius become candidates.
    fn step(&mut self)
        requires
            old(self).wf(),
            old(self).pending@.len() > 0,
        ensures
            final(self).wf(),
            final(self).point == old(self).point,
            final(self).distance == old(self).distance,
            final(self).radius == old(self).radius,
            final(self).source == old(self).source,
            final(self).yielded == old(self).yielded,
            total(final(self).pending@, weight_of::<T>()) < total(old(self).pending@, weight_of::<T>()),
            browses_to(
                old(self).distance,
                old(self).pending@,
                old(self).evaluated@,
                old(self).point@,
                old(self).radius,
                final(self).pending@,
                final(self).evaluated@,
            ),
    {
        let ghost q = self.point@;
        let ghost all = self.source@;
        let ghost given = self.yielded@;
        let ghost waiting = self.pending@;
        let ghost first = self.evaluated@;
        let ghost aside = given.to_multiset().add(gathered(self.evaluated@, candidate_of::<T>()));
        let top = self.pending.pop().unwrap();
        let curr: &'a KdTree<T> = top.element;
        proof {
            lemma_taken(
                self.distance,
                q,
                self.radius,
                all,
                waiting,
                self.pending@,
                top,
                self.far@,
                self.pruned@,
                given,
                self.evaluated@,
            );
        }
        proof {
            reveal(browsing);
        }
        let (leaf, Ghost(pruned)) = KdTree::descend(
            curr,
            self.point,
            self.radius,
            self.distance,
            &mut self.pending,
            Ghost(1),
            Ghost(self.radius),
            Ghost(all),
            Ghost(Seq::empty()),
            Ghost(self.far@),
            Ghost(self.pruned@),
            Ghost(aside),
        );
        self.pruned = Ghost(pruned);
        let ghost queued = self.pending@;
        match &leaf.node {
            Node::Leaf { points, bucket } => {
                let ghost mine = paired(points@, bucket@);
                let mut i: usize = 0;
                assert(mine.skip(0) =~= mine);
                proof {
                    super::course::lemma_gleaning_begins(self.distance, first, mine, q, self.radius);
                }
                while i < points.len()
                    invariant
                        gleans_alike(self.distance, self.evaluated@, i as int, first, mine, q, self.radius),
                        self.pending@ == queued,
                        self.pending.wf(),
                        self.evaluated.wf(),
                        self.point == old(self).point,
                        self.distance == old(self).distance,
                        self.radius == old(self).radius,
                        self.source == old(self).source,
                        self.yielded == old(self).yielded,
                        q == self.point@,
                        all == self.source@,
                        given == self.yielded@,
                        callable(self.distance, q.len()),
                        leaf.wf(),
                        leaf.dimensions == q.len(),
                        leaf.node == (Node::Leaf { points: *points, bucket: *bucket }),
                        mine == paired(points@, bucket@),
                        points@.len() == bucket@.len(),
                        i <= points@.len(),
                        browsing(
                            self.distance,
                            q,
                            self.radius,
                            all,
                            self.pending@,
                            self.far@,
                            self.pruned@,
                            mine.skip(i as int),
                            given,
                            self.evaluated@,
                        ),
                    decreases points@.len() - i,
                {
                    let ghost rest = mine.skip(i as int);
                    let ghost cands = self.evaluated@;
                    assert(held(points@[i as int]@, leaf.dimensions as nat, leaf.min_bounds@, leaf.max_bounds@));
                    let dist = (self.distance)(self.point, points[i].as_slice());
                    proof {
                        assert(rest.skip(1) =~= mine.skip(i + 1));
                        assert(rest[0] == mine[i as int]);
                        assert(may_return(self.distance, q, rest[0].0, dist));
                    }
                    if dist <= self.radius {
                        let item = HeapElement { distance: mirror(dist), element: &bucket[i] };
                        self.evaluated.push(item);
                        proof {
                            lemma_candidate_found(
                                self.distance,
                                q,
                                self.radius,
                                all,
                                self.pending@,
                                self.far@,
                                self.pruned@,
                                rest,
                                given,
                                cands,
                                self.evaluated@,
                                dist,
                                item,
                            );
                        }
                    } else {
                        proof {
                            lemma_far_found(
                                self.distance,
                                q,
                                self.radius,
                                all,
                                self.pending@,
                                self.far@,
                                self.pruned@,
                                rest,
                                given,
                                cands,
                                dist,
                            );
                        }
                        self.far = Ghost(self.far@.push(HeapElement { distance: dist, element: &bucket@[i as int] }));
                    }
                    proof {
                        assert(mine[i as int].1 == bucket@[i as int]);
                        super::course::lemma_gleaning_goes_on(
                            self.distance,
                            cands,
                            i as int,
                            first,
                            mine,
                            q,
                            self.radius,
                            dist,
                            self.evaluated@,
                        );
                    }
                    i += 1;
                }
                assert(mine.skip(i as int) =~= Seq::<(Seq<i64>, T)>::empty());
                proof {
                    assert(waiting[0] == top);
                    super::course::lemma_browsed(
                        self.distance,
                        waiting,
                        first,
                        q,
                        self.radius,
                        self.pending@,
                        leaf,
                        self.evaluated@,
                    );
                }
            },
            Node::Stem { .. } => {},
        }
    }

    /// The nearest entry within the radius that has not been handed out yet,
    /// with its distance; `None` when there is none left.
    #[verifier::rlimit(60)]
    pub fn next(&mut self) -> (r: Option<(i64, &'a T)>)
        requires
            old(self).wf(),
        ensures
            final(self).wf(),
            final(self).source() == old(self).source(),
            final(self).center() == old(self).center(),
            final(self).reach() == old(self).reach(),
            final(self).metric() == old(self).metric(),
            match r {
                Some(pair) => pair.0 <= old(self).reach() && final(self).yielded() == old(self).yielded().push(
                    HeapElement { distance: pair.0, element: pair.1 },
                ),
                None => final(self).yielded() == old(self).yielded(),
            },
            hands_out(
                old(self).metric(),
                old(self).waiting(),
                old(self).candidates(),
                old(self).center(),
                old(self).reach(),
                r,
                final(self).waiting(),
                final(self).candidates(),
            ),
            forall|m: Metric| #[trigger]
                measures(old(self).metric(), m) ==> final(self).yielded().to_multiset().subset_of(
                    ranked::<T>(old(self).source(), old(self).center(), m).to_multiset(),
                ),
            forall|m: Metric| #[trigger]
                measures(old(self).metric(), m) && admissible(m) ==> match r {
                    Some(pair) => rest_is_no_nearer(
                        old(self).yielded(),
                        ranked::<T>(old(self).source(), old(self).center(), m).to_multiset(),
                        pair.0,
                    ),
                    None => rest_is_out_of_reach(
                        old(self).yielded(),
                        ranked::<T>(old(self).source(), old(self).center(), m).to_multiset(),
                        old(self).reach(),
                    ),
                },
    {
        let ghost q = self.point@;
        let ghost all = self.source@;
        let ghost given = self.yielded@;
        let ghost first = self.pending@;
        let ghost before = self.evaluated@;
        let ghost mut fuel: nat = nodes_waiting(first);
        proof {
            super::course::lemma_readying_begins(self.distance, first, before, q, self.radius);
        }
        while has_nearer(&self.pending, &self.evaluated, self.radius)
            invariant
                readies_alike(self.distance, self.pending@, self.evaluated@, fuel, first, before, q, self.radius),
                total(self.pending@, weight_of::<T>()) <= fuel,
                q == self.point@,
                self.wf(),
                self.point == old(self).point,
                self.distance == old(self).distance,
                self.radius == old(self).radius,
                self.source == old(self).source,
                self.yielded == old(self).yielded,
            decreases total(self.pending@, weight_of::<T>()),
        {
            let ghost waiting = self.pending@;
            let ghost found = self.evaluated@;
            self.step();
            proof {
                super::course::lemma_readying_goes_on(
                    self.distance,
                    waiting,
                    found,
                    fuel,
                    first,
                    before,
                    q,
                    self.radius,
                    self.pending@,
                    self.evaluated@,
                );
                fuel = (fuel - 1) as nat;
            }
        }
        let ghost cands = self.evaluated@;
        proof {
            super::course::lemma_readying_ends(
                self.distance,
                self.pending@,
                cands,
                fuel,
                first,
                before,
                q,
                self.radius,
                if cands.len() == 0 {
                    None
                } else {
                    Some((mirrored(cands[0].distance), cands[0].element))
                },
            );
        }
        match self.evaluated.pop() {
            None => {
                proof {
                    lemma_exhausted(
                        self.distance,
                        q,
                        self.radius,
                        all,
                        self.pending@,
                        self.far@,
                        self.pruned@,
                        given,
                        cands,
                    );
                }
                None
            },
            Some(top) => {
                let d = mirror(top.distance);
                self.yielded = Ghost(given.push(HeapElement { distance: d, element: top.element }));
                proof {
                    lemma_nearest_first(
                        self.distance,
                        q,
                        self.radius,
                        all,
                        self.pending@,
                        self.far@,
                        self.pruned@,
                        given,
                        cands,
                        self.evaluated@,
                        top,
                    );
                }
                Some((d, top.element))
            },
        }
    }
}

/// When no subtree waits within the radius and no candidate is left, what
/// has not been handed out is beyond the radius.
proof fn lemma_exhausted<'a, T, F: Fn(&[i64], &[i64]) -> i64>(
    f: &F,
    q: Seq<i64>,
    radius: i64,
    all: Seq<(Seq<i64>, T)>,
    pending: Seq<HeapElement<&'a KdTree<T>>>,
    far: Seq<HeapElement<&'a T>>,
    pruned: Seq<(Seq<i64>, T)>,
    given: Seq<HeapElement<&'a T>>,
    cands: Seq<HeapElement<&'a T>>,
)
    requires
        cands.len() == 0,
        browsing(f, q, radius, all, pending, far, pruned, Seq::empty(), given, cands),
        !(pending.len() > 0 && mirrored(pending[0].distance) <= radius),
    ensures
        forall|m: Metric| #[trigger]
            measures(f, m) ==> given.to_multiset().subset_of(ranked::<T>(all, q, m).to_multiset()),
        forall|m: Metric| #[trigger]
            measures(f, m) && admissible(m) ==> rest_is_out_of_reach(given, ranked::<T>(all, q, m).to_multiset(), radius),
{
    reveal(browsing);
    reveal(in_order);
    broadcast use vstd::multiset::group_multiset_axioms;
    let none = Seq::<HeapElement<&'a T>>::empty();
    let no_entries = Seq::<(Seq<i64>, T)>::empty();
    let aside = given.to_multiset().add(gathered(cands, candidate_of::<T>()));
    crate::kdtree::lemma_empty_multiset::<HeapElement<&'a T>>();
    assert forall|m: Metric| #[trigger] measures(f, m) implies given.to_multiset().subset_of(
        ranked::<T>(all, q, m).to_multiset(),
    ) by {
        assert(accounted_with(m, q, all, none, far, pruned, pending, no_entries, aside));
    }
    assert forall|m: Metric| #[trigger] measures(f, m) && admissible(m) implies rest_is_out_of_reach(
        given,
        ranked::<T>(all, q, m).to_multiset(),
        radius,
    ) by {
        let whole = ranked::<T>(all, q, m).to_multiset();
        assert(accounted_with(m, q, all, none, far, pruned, pending, no_entries, aside));
        assert(ranked::<T>(no_entries, q, m) =~= none);
        let floor = if pending.len() > 0 {
            mirrored(pending[0].distance)
        } else {
            0i64
        };
        assert forall|x: HeapElement<&'a KdTree<T>>| pending.contains(x) implies floor <= mirrored(x.distance) by {
            let i = choose|i: int| 0 <= i < pending.len() && pending[i] == x;
            crate::heap::lemma_first_is_farthest(pending, pending.len() as int, i);
        }
        lemma_waiting_beyond(pending, q, m, floor);
        let waiting = gathered(pending, part_of::<T>(q, m));
        if pending.len() == 0 {
            assert(waiting =~= Multiset::empty());
        }
        assert forall|x: HeapElement<&'a T>| given.to_multiset().count(x) < #[trigger] whole.count(x) implies radius
            < x.distance by {
            if far.to_multiset().count(x) > 0 {
                let i = lemma_member(far, x);
                assert(super::beyond(far[i].distance, radius, false, none[0].distance));
            } else if ranked::<T>(pruned, q, m).to_multiset().count(x) > 0 {
                let i = lemma_member(ranked::<T>(pruned, q, m), x);
                assert(super::beyond(ranked::<T>(pruned, q, m)[i].distance, radius, false, none[0].distance));
            } else {
                assert(waiting.count(x) > 0);
                assert(floor <= x.distance);
            }
        }
    }
}

/// When no waiting subtree can hold anything nearer than the nearest
/// candidate, that candidate is handed out: nothing left is nearer.
proof fn lemma_nearest_first<'a, T, F: Fn(&[i64], &[i64]) -> i64>(
    f: &F,
    q: Seq<i64>,
    radius: i64,
    all: Seq<(Seq<i64>, T)>,
    pending: Seq<HeapElement<&'a KdTree<T>>>,
    far: Seq<HeapElement<&'a T>>,
    pruned: Seq<(Seq<i64>, T)>,
    given: Seq<HeapElement<&'a T>>,
    cands: Seq<HeapElement<&'a T>>,
    fewer: Seq<HeapElement<&'a T>>,
    top: HeapElement<&'a T>,
)
    requires
        cands.len() > 0,
        top == cands[0],
        browsing(f, q, radius, all, pending, far, pruned, Seq::empty(), given, cands),
        in_order(f, q, all, given),
        crate::heap::heap_ordered(fewer),
        cands.to_multiset() =~= fewer.to_multiset().insert(top),
        !(pending.len() > 0 && mirrored(pending[0].distance) <= radius && mirrored(pending[0].distance)
            <= mirrored(cands[0].distance)),
    ensures
        mirrored(top.distance) <= radius,
        browsing(f, q, radius, all, pending, far, pruned, Seq::empty(), given.push(unmirrored(top)), fewer),
        in_order(f, q, all, given.push(unmirrored(top))),
        forall|m: Metric| #[trigger]
            measures(f, m) ==> given.push(unmirrored(top)).to_multiset().subset_of(
                ranked::<T>(all, q, m).to_multiset(),
            ),
        forall|m: Metric| #[trigger]
            measures(f, m) && admissible(m) ==> rest_is_no_nearer(
                given,
                ranked::<T>(all, q, m).to_multiset(),
                mirrored(top.distance),
            ),
{
    reveal(browsing);
    reveal(in_order);
    broadcast use vstd::multiset::group_multiset_axioms;
    let none = Seq::<HeapElement<&'a T>>::empty();
    let no_entries = Seq::<(Seq<i64>, T)>::empty();
    let held_back = gathered(cands, candidate_of::<T>());
    let aside = given.to_multiset().add(held_back);
    let d = mirrored(top.distance);
    let e = unmirrored(top);
    let after = given.push(e);
    crate::kdtree::lemma_empty_multiset::<HeapElement<&'a T>>();
    assert(cands.contains(top));
    lemma_candidates(cands, d);
    lemma_candidate_counts(cands, top);
    vstd::seq_lib::to_multiset_build(given, e);
    lemma_joined(fewer, cands, top, |x: HeapElement<&'a T>| 0nat, candidate_of::<T>());
    assert(after.to_multiset().add(gathered(fewer, candidate_of::<T>())) =~= aside);
    lemma_candidates_within(cands, fewer, radius);
    assert forall|m: Metric| #[trigger] measures(f, m) implies after.to_multiset().subset_of(
        ranked::<T>(all, q, m).to_multiset(),
    ) by {
        assert(accounted_with(m, q, all, none, far, pruned, pending, no_entries, aside));
    }
    assert forall|m: Metric| #[trigger] measures(f, m) && admissible(m) implies rest_is_no_nearer(
        given,
        ranked::<T>(all, q, m).to_multiset(),
        d,
    ) by {
        let whole = ranked::<T>(all, q, m).to_multiset();
        assert(accounted_with(m, q, all, none, far, pruned, pending, no_entries, aside));
        assert(ranked::<T>(no_entries, q, m) =~= none);
        let floor = if pending.len() > 0 {
            mirrored(pending[0].distance)
        } else {
            0i64
        };
        assert forall|x: HeapElement<&'a KdTree<T>>| pending.contains(x) implies floor <= mirrored(x.distance) by {
            let i = choose|i: int| 0 <= i < pending.len() && pending[i] == x;
            crate::heap::lemma_first_is_farthest(pending, pending.len() as int, i);
        }
        lemma_waiting_beyond(pending, q, m, floor);
        let waiting = gathered(pending, part_of::<T>(q, m));
        if pending.len() == 0 {
            assert(waiting =~= Multiset::empty());
        }
        assert forall|x: HeapElement<&'a T>| given.to_multiset().count(x) < #[trigger] whole.count(x) implies d
            <= x.distance by {
            if far.to_multiset().count(x) > 0 {
                let i = lemma_member(far, x);
                assert(super::beyond(far[i].distance, radius, false, none[0].distance));
            } else if ranked::<T>(pruned, q, m).to_multiset().count(x) > 0 {
                let i = lemma_member(ranked::<T>(pruned, q, m), x);
                assert(super::beyond(ranked::<T>(pruned, q, m)[i].distance, radius, false, none[0].distance));
            } else if held_back.count(x) > 0 {
            } else {
                assert(waiting.count(x) > 0);
                assert(floor <= x.distance);
            }
        }
    }
    assert forall|m: Metric| #[trigger] measures(f, m) && admissible(m) implies {
        &&& ascending(after)
        &&& after.len() > 0 ==> rest_is_no_nearer(after, ranked::<T>(all, q, m).to_multiset(), after.last().distance)
    } by {
        let whole = ranked::<T>(all, q, m).to_multiset();
        assert(accounted_with(m, q, all, none, far, pruned, pending, no_entries, aside));
        assert(rest_is_no_nearer(given, whole, d));
        assert(held_back.count(e) > 0);
        assert(given.to_multiset().count(e) < whole.count(e));
        if given.len() > 0 {
            assert(rest_is_no_nearer(given, whole, given.last().distance));
            assert(given.last().distance <= d);
        }
        assert forall|i: int, j: int| 0 <= i <= j < after.len() implies (#[trigger] after[i]).distance <= (
        #[trigger] after[j]).distance by {
            if j == given.len() {
                if i < j {
                    assert(given[i].distance <= given.last().distance);
                }
            } else {
                assert(given[i].distance <= given[j].distance);
            }
        }
        assert forall|x: HeapElement<&'a T>| after.to_multiset().count(x) < #[trigger] whole.count(x) implies d
            <= x.distance by {
            assert(given.to_multiset().count(x) <= after.to_multiset().count(x));
        }
    }
}

/// No candidate in a heap is nearer than the one on top.
proof fn lemma_candidates<'a, T>(cands: Seq<HeapElement<&'a T>>, d: i64)
    requires
        crate::heap::heap_ordered(cands),
        cands.len() > 0,
        d == mirrored(cands[0].distance),
    ensures
        forall|y: HeapElement<&'a T>| gathered(cands, candidate_of::<T>()).count(y) > 0 ==> d <= y.distance,
{
    assert forall|x: HeapElement<&'a T>| cands.contains(x) implies d <= mirrored(x.distance) by {
        let i = choose|i: int| 0 <= i < cands.len() && cands[i] == x;
        crate::heap::lemma_first_is_farthest(cands, cands.len() as int, i);
    }
    lemma_candidates_from(cands, d);
}

proof fn lemma_candidates_from<'a, T>(cands: Seq<HeapElement<&'a T>>, d: i64)
    requires
        forall|x: HeapElement<&'a T>| cands.contains(x) ==> d <= mirrored(x.distance),
    ensures
        forall|y: HeapElement<&'a T>| gathered(cands, candidate_of::<T>()).count(y) > 0 ==> d <= y.distance,
    decreases cands.len(),
{
    broadcast use vstd::multiset::group_multiset_axioms;
    if cands.len() > 0 {
        let init = cands.drop_last();
        assert(cands.contains(cands.last()));
        assert forall|x: HeapElement<&'a T>| init.contains(x) implies cands.contains(x) by {
            let i = choose|i: int| 0 <= i < init.len() && init[i] == x;
            assert(cands[i] == x);
        }
        lemma_candidates_from(init, d);
        assert(gathered(cands, candidate_of::<T>()) =~= gathered(init, candidate_of::<T>()).add(
            Multiset::singleton(unmirrored(cands.last())),
        ));
        assert forall|y: HeapElement<&'a T>| gathered(cands, candidate_of::<T>()).count(y) > 0 implies d
            <= y.distance by {
            if gathered(init, candidate_of::<T>()).count(y) == 0 {
                assert(y == unmirrored(cands.last()));
            }
        }
    }
}

/// A candidate in a heap counts among what the heap holds back.
proof fn lemma_candidate_counts<'a, T>(cands: Seq<HeapElement<&'a T>>, x: HeapElement<&'a T>)
    requires
        cands.contains(x),
    ensures
        gathered(cands, candidate_of::<T>()).count(unmirrored(x)) > 0,
    decreases cands.len(),
{
    broadcast use vstd::multiset::group_multiset_axioms;
    assert(cands.len() > 0);
    assert(gathered(cands, candidate_of::<T>()) =~= gathered(cands.drop_last(), candidate_of::<T>()).add(
        Multiset::singleton(unmirrored(cands.last())),
    ));
    if cands.last() != x {
        let init = cands.drop_last();
        let i = choose|i: int| 0 <= i < cands.len() && cands[i] == x;
        assert(init[i] == x);
        lemma_candidate_counts(init, x);
    }
}

/// A subtree held for writing, with the place of its first entry among the
/// entries of the whole tree.
pub struct Held<'a, T> {
    pub tree: &'a mut KdTree<T>,
    pub offset: Ghost<int>,
}

/// A payload held for writing, with the place of its entry among the entries
/// of the whole tree.
pub struct Lent<'a, T> {
    pub payload: &'a mut T,
    pub index: Ghost<int>,
}

/// A subtree that waits to be searched, held for writing, with the key under
/// which it waits.
pub type Waiting<'a, T> = HeapElement<Held<'a, T>>;

/// An entry found within the radius, its payload held for writing, with the
/// key under which it waits to be handed out.
pub type Candidate<'a, T> = HeapElement<Lent<'a, T>>;

/// A waiting subtree that is held for writing, as it reads.
pub open spec fn lent_tree<'a, T>(x: Waiting<'a, T>) -> HeapElement<&'a KdTree<T>> {
    HeapElement { distance: x.distance, element: &*x.element.tree }
}

/// The reading of a waiting subtree, as a function.
pub open spec fn lend_tree<'a, T>() -> spec_fn(Waiting<'a, T>) -> HeapElement<&'a KdTree<T>> {
    |x: Waiting<'a, T>| lent_tree(x)
}

/// Waiting subtrees that are held for writing, as they read.
pub open spec fn lent_trees<'a, T>(s: Seq<Waiting<'a, T>>) -> Seq<HeapElement<&'a KdTree<T>>> {
    s.map_values(lend_tree::<T>())
}

/// A candidate whose payload is held for writing, as it reads.
pub open spec fn lent_item<'a, T>(x: Candidate<'a, T>) -> HeapElement<&'a T> {
    HeapElement { distance: x.distance, element: &*x.element.payload }
}

/// The reading of a candidate, as a function.
pub open spec fn lend_item<'a, T>() -> spec_fn(Candidate<'a, T>) -> HeapElement<&'a T> {
    |x: Candidate<'a, T>| lent_item(x)
}

/// Candidates whose payloads are held for writing, as they read.
pub open spec fn lent_items<'a, T>(s: Seq<Candidate<'a, T>>) -> Seq<HeapElement<&'a T>> {
    s.map_values(lend_item::<T>())
}

/// What was handed out for writing, as it reads.
pub open spec fn read_of<'a, T>(r: Option<(i64, &'a mut T)>) -> Option<(i64, &'a T)> {
    match r {
        Some(pair) => Some((pair.0, &*pair.1)),
        None => None,
    }
}

/// Gives back what was held for writing, as it is.
fn let_go<A>(held: &mut A)
    ensures
        *final(held) == *old(held),
{
}

/// A heap-ordered sequence stays so under a mapping that keeps the distances.
proof fn lemma_image_ordered<A, B>(s: Seq<HeapElement<A>>, image: spec_fn(HeapElement<A>) -> HeapElement<B>)
    requires
        crate::heap::heap_ordered(s),
        forall|x: HeapElement<A>| (#[trigger] image(x)).distance == x.distance,
    ensures
        crate::heap::heap_ordered(s.map_values(image)),
{
    let t = s.map_values(image);
    assert forall|i: int| 0 < i < t.len() implies (#[trigger] t[i]).distance <= t[(i - 1) / 2].distance by {
        assert(t[i] == image(s[i]));
        assert(t[(i - 1) / 2] == image(s[(i - 1) / 2]));
        assert(s[i].distance <= s[(i - 1) / 2].distance);
    }
}

/// The places from `from` on, `count` of them, each once.
spec fn span(from: int, count: nat) -> Multiset<int>
    decreases count,
{
    if count == 0 {
        Multiset::empty()
    } else {
        span(from, (count - 1) as nat).insert(from + count - 1)
    }
}

/// A span holds each of its places once, and nothing else.
proof fn lemma_span(from: int, count: nat, i: int)
    ensures
        span(from, count).count(i) == if from <= i < from + count {
            1nat
        } else {
            0nat
        },
    decreases count,
{
    broadcast use vstd::multiset::group_multiset_axioms;
    if count > 0 {
        lemma_span(from, (count - 1) as nat, i);
    }
}

/// A span is its first part and the rest.
proof fn lemma_span_split(from: int, a: nat, b: nat)
    ensures
        span(from, a + b) =~= span(from, a).add(span(from + a, b)),
{
    broadcast use vstd::multiset::group_multiset_axioms;
    assert forall|i: int| #[trigger] span(from, a + b).count(i) == span(from, a).add(span(from + a, b)).count(i) by {
        lemma_span(from, a + b, i);
        lemma_span(from, a, i);
        lemma_span(from + a, b, i);
    }
}

/// The places of the entries of a waiting subtree.
spec fn range_of<'a, T>() -> spec_fn(Waiting<'a, T>) -> Multiset<int> {
    |x: Waiting<'a, T>| span(x.element.offset@, x.element.tree.entries().len())
}

/// The place of the entry of a candidate.
spec fn index_of<'a, T>() -> spec_fn(Candidate<'a, T>) -> Multiset<int> {
    |c: Candidate<'a, T>| Multiset::singleton(c.element.index@)
}

/// Whether the entries of `part` are those of `whole` from `off` on.
spec fn placed<T>(part: KdTree<T>, off: int, whole: KdTree<T>) -> bool {
    &&& 0 <= off
    &&& off + part.entries().len() <= whole.entries().len()
    &&& part.entries() == whole.entries().subrange(off, off + part.entries().len())
}

/// Whether each waiting subtree stands in `whole` at the place it records.
spec fn all_placed<'a, T>(s: Seq<Waiting<'a, T>>, whole: KdTree<T>) -> bool {
    forall|x: Waiting<'a, T>| #[trigger] s.contains(x) ==> placed(*x.element.tree, x.element.offset@, whole)
}

/// Whether a candidate holds the payload that `whole` has at the place it
/// records, under the distance of the point there from `q`.
spec fn copied<'a, T, F: Fn(&[i64], &[i64]) -> i64>(
    c: Candidate<'a, T>,
    whole: KdTree<T>,
    distance: &F,
    q: Seq<i64>,
) -> bool {
    &&& 0 <= c.element.index@ < whole.entries().len()
    &&& *c.element.payload == whole.entries()[c.element.index@].1
    &&& may_return(distance, q, whole.entries()[c.element.index@].0, mirrored(c.distance))
}

/// Whether each candidate holds the payload that `whole` has at the place it
/// records, under the distance of the point there from `q`.
spec fn all_copies<'a, T, F: Fn(&[i64], &[i64]) -> i64>(
    s: Seq<Candidate<'a, T>>,
    whole: KdTree<T>,
    distance: &F,
    q: Seq<i64>,
) -> bool {
    forall|c: Candidate<'a, T>| #[trigger] s.contains(c) ==> copied(c, whole, distance, q)
}

/// Whether every place of `whole` is accounted for once: handed out, given
/// back untouched, held by a candidate, inside a waiting subtree, or in hand.
spec fn shared_out<'a, T>(
    whole: KdTree<T>,
    pending: Seq<Waiting<'a, T>>,
    cands: Seq<Candidate<'a, T>>,
    handed: Seq<int>,
    settled: Multiset<int>,
    hand: Multiset<int>,
) -> bool {
    handed.to_multiset().add(settled).add(gathered(cands, index_of::<T>())).add(
        gathered(pending, range_of::<T>()),
    ).add(hand) =~= span(0, whole.entries().len())
}

/// Whether `sheet` has, at each place of `settled`, the payload that `whole`
/// has there.
spec fn agrees<T>(sheet: Seq<T>, whole: KdTree<T>, settled: Multiset<int>) -> bool {
    forall|i: int| #[trigger] settled.count(i) > 0 ==> sheet[i] == whole.entries()[i].1
}

/// A sheet that agrees at some places agrees at fewer.
proof fn lemma_agrees_less<T>(sheet: Seq<T>, whole: KdTree<T>, more: Multiset<int>, less: Multiset<int>)
    requires
        agrees(sheet, whole, more),
        less.subset_of(more),
    ensures
        agrees(sheet, whole, less),
{
    assert forall|i: int| #[trigger] less.count(i) > 0 implies sheet[i] == whole.entries()[i].1 by {
        assert(more.count(i) > 0);
    }
}

/// What an element brings is within what the sequence gathers.
proof fn lemma_part_within<A, B>(s: Seq<A>, x: A, part: spec_fn(A) -> Multiset<B>)
    requires
        s.contains(x),
    ensures
        part(x).subset_of(gathered(s, part)),
{
    broadcast use vstd::multiset::group_multiset_axioms;
    let i = choose|i: int| 0 <= i < s.len() && s[i] == x;
    crate::tally::lemma_gathered_remove(s, part, i);
}

/// When a subtree is taken from those that wait and searched down to a leaf,
/// its places are shared out anew: to the subtrees passed by, to what was
/// given back, and to the leaf.
proof fn lemma_rebalanced(
    handed: Multiset<int>,
    settled: Multiset<int>,
    settled_after: Multiset<int>,
    cands: Multiset<int>,
    waiting: Multiset<int>,
    fewer: Multiset<int>,
    queued: Multiset<int>,
    taken: Multiset<int>,
    leaf: Multiset<int>,
    whole: Multiset<int>,
)
    requires
        handed.add(settled).add(cands).add(waiting).add(Multiset::empty()) =~= whole,
        waiting =~= fewer.add(taken),
        queued.add(settled_after).add(leaf) =~= fewer.add(settled).add(taken),
    ensures
        handed.add(settled_after).add(cands).add(queued).add(leaf) =~= whole,
{
    broadcast use vstd::multiset::group_multiset_axioms;
    assert forall|v: int| #[trigger] handed.add(settled_after).add(cands).add(queued).add(leaf).count(v) == whole.count(v) by {
        assert(queued.add(settled_after).add(leaf).count(v) == fewer.add(settled).add(taken).count(v));
        assert(handed.add(settled).add(cands).add(waiting).add(Multiset::empty()).count(v) == whole.count(v));
    }
}

/// The two halves of a stretch of a sequence stand where the stretch puts
/// them.
proof fn lemma_halves<A>(whole: Seq<A>, at: int, a: Seq<A>, b: Seq<A>)
    requires
        0 <= at,
        at + a.len() + b.len() <= whole.len(),
        a + b == whole.subrange(at, at + a.len() + b.len()),
    ensures
        a == whole.subrange(at, at + a.len()),
        b == whole.subrange(at + a.len(), at + a.len() + b.len()),
{
    let both = a + b;
    assert forall|i: int| 0 <= i < a.len() implies a[i] == whole[at + i] by {
        assert(both[i] == a[i]);
    }
    assert forall|i: int| 0 <= i < b.len() implies b[i] == whole[at + a.len() + i] by {
        assert(both[a.len() + i] == b[i]);
    }
    assert(a =~= whole.subrange(at, at + a.len()));
    assert(b =~= whole.subrange(at + a.len(), at + a.len() + b.len()));
}

/// The entries of a tree within a radius of a point, from the nearest on, each
/// with its payload open to change.
pub struct NearestWithinRadiusIterMut<'a, T, F: Fn(&[i64], &[i64]) -> i64> {
    point: &'a [i64],
    pending: RankedHeap<Held<'a, T>>,
    evaluated: RankedHeap<Lent<'a, T>>,
    distance: &'a F,
    radius: i64,
    source: Ghost<Seq<(Seq<i64>, T)>>,
    yielded: Ghost<Seq<HeapElement<&'a T>>>,
    far: Ghost<Seq<HeapElement<&'a T>>>,
    pruned: Ghost<Seq<(Seq<i64>, T)>>,
    origin: Ghost<KdTree<T>>,
    handed: Ghost<Seq<int>>,
    settled: Ghost<Multiset<int>>,
}

impl<'a, T, F: Fn(&[i64], &[i64]) -> i64> NearestWithinRadiusIterMut<'a, T, F> {
    /// The entries of the tree that is searched, as they were when the search
    /// began.
    pub closed spec fn source(&self) -> Seq<(Seq<i64>, T)> {
        self.source@
    }

    /// The point from which distances are taken.
    pub closed spec fn center(&self) -> Seq<i64> {
        self.point@
    }

    /// The radius beyond which nothing is handed out.
    pub closed spec fn reach(&self) -> i64 {
        self.radius
    }

    /// The distance function.
    pub closed spec fn metric(&self) -> &'a F {
        self.distance
    }

    /// What has been handed out so far, in that order: each payload as it was
    /// when it was handed out.
    pub closed spec fn yielded(&self) -> Seq<HeapElement<&'a T>> {
        self.yielded@
    }

    /// The places, among the entries of `origin()`, of the payloads handed out
    /// so far, in that order.
    pub closed spec fn handed(&self) -> Seq<int> {
        self.handed@
    }

    /// The search is consistent: every entry of the tree has been handed out,
    /// is a candidate within the radius, was found beyond it, or still waits
    /// in a subtree; and every place of the tree is held once.
    pub closed spec fn wf(&self) -> bool {
        &&& self.pending.wf()
        &&& self.evaluated.wf()
        &&& callable(self.distance, self.point@.len())
        &&& browsing(
            self.distance,
            self.point@,
            self.radius,
            self.source@,
            lent_trees(self.pending@),
            self.far@,
            self.pruned@,
            Seq::empty(),
            self.yielded@,
            lent_items(self.evaluated@),
        )
        &&& in_order(self.distance, self.point@, self.source@, self.yielded@)
        &&& self.source@ == self.origin@.entries()
        &&& shared_out(
            self.origin@,
            self.pending@,
            self.evaluated@,
            self.handed@,
            self.settled@,
            Multiset::empty(),
        )
        &&& all_placed(self.pending@, self.origin@)
        &&& all_copies(self.evaluated@, self.origin@, self.distance, self.point@)
    }

    /// The subtrees that wait to be searched.
    pub closed spec fn waiting(&self) -> Seq<Waiting<'a, T>> {
        self.pending@
    }

    /// The entries found within the radius that wait to be handed out.
    pub closed spec fn candidates(&self) -> Seq<Candidate<'a, T>> {
        self.evaluated@
    }

    /// The tree as it was when the search began.
    pub closed spec fn origin(&self) -> KdTree<T> {
        self.origin@
    }

    /// Whether `sheet` has the payload of `origin()` at every place that the
    /// search has given back for good: the places of the entries that it found
    /// beyond the radius or passed by.
    pub closed spec fn settled_as_before(&self, sheet: Seq<T>) -> bool {
        agrees(sheet, self.origin@, self.settled@)
    }

    /// Whether `sheet` has the payload of `origin()` at every place but those
    /// handed out.
    pub open spec fn kept_elsewhere(&self, sheet: Seq<T>) -> bool {
        forall|i: int|
            0 <= i < self.origin().entries().len() && !self.handed().contains(i) ==> #[trigger] sheet[i]
                == self.origin().entries()[i].1
    }

    /// Once the search is let go, every subtree that still waited and every
    /// candidate comes back as it was: with the payloads of any sheet that has
    /// those of `origin()` at every place but those handed out.
    pub proof fn lemma_given_back(&self, sheet: Seq<T>)
        requires
            self.wf(),
            has_resolved(*self),
            self.kept_elsewhere(sheet),
        ensures
            (forall|x: Waiting<'a, T>|
                self.waiting().contains(x)
                    ==> (*final(x.element.tree)).seated(&*x.element.tree, x.element.offset@, sheet)),
            (forall|c: Candidate<'a, T>| self.candidates().contains(c) ==> *final(c.element.payload) == sheet[c.element.index@]),
            self.settled_as_before(sheet),
    {
        broadcast use vstd::multiset::group_multiset_axioms;
        broadcast use vstd::seq_lib::to_multiset_contains;

        self.pending.lemma_resolved();
        self.evaluated.lemma_resolved();
        let whole = self.origin@;
        let n = whole.entries().len();
        assert forall|x: Waiting<'a, T>|
            self.pending@.contains(x)
            implies (*final(x.element.tree)).seated(&*x.element.tree, x.element.offset@, sheet) by {
            let i = choose|i: int| 0 <= i < self.pending@.len() && self.pending@[i] == x;
            assert(has_resolved(self.pending@[i]));
            assert(has_resolved(x.element));
            assert(has_resolved(x.element.tree));
            (*x.element.tree).lemma_same_frame_as_itself();
            lemma_part_within(self.pending@, x, range_of::<T>());
            let off = x.element.offset@;
            let part = *x.element.tree;
            assert forall|j: int| 0 <= j < part.entries().len() implies (#[trigger] part.entries()[j]).1
                == sheet[off + j] by {
                let at = off + j;
                lemma_span(off, part.entries().len(), at);
                lemma_span(0, n, at);
                assert(range_of::<T>()(x).count(at) == 1);
                assert(self.handed@.to_multiset().count(at) == 0);
                assert(!self.handed@.contains(at));
                assert(sheet[at] == whole.entries()[at].1);
                assert(part.entries()[j] == whole.entries()[at]);
            }
        }
        assert forall|c: Candidate<'a, T>| self.evaluated@.contains(c) implies *final(c.element.payload)
            == sheet[c.element.index@] by {
            let i = choose|i: int| 0 <= i < self.evaluated@.len() && self.evaluated@[i] == c;
            assert(has_resolved(self.evaluated@[i]));
            assert(has_resolved(c.element));
            assert(has_resolved(c.element.payload));
            lemma_part_within(self.evaluated@, c, index_of::<T>());
            let at = c.element.index@;
            lemma_span(0, n, at);
            assert(index_of::<T>()(c).count(at) == 1);
            assert(self.handed@.to_multiset().count(at) == 0);
            assert(!self.handed@.contains(at));
            assert(sheet[at] == whole.entries()[at].1);
        }
        assert forall|i: int| #[trigger] self.settled@.count(i) > 0 implies sheet[i] == whole.entries()[i].1 by {
            lemma_span(0, n, i);
            assert(self.handed@.to_multiset().count(i) == 0);
            assert(!self.handed@.contains(i));
        }
    }

    /// Takes the nearest waiting subtree and searches it: down to the leaf on
    /// the point's side, the subtrees passed by waiting in their turn unless
    /// their boxes are beyond the radius; the entries of the leaf within the
    /// radius become candidates.
    fn step(&mut self)
        requires
            old(self).wf(),
            old(self).pending@.len() > 0,
        ensures
            final(self).wf(),
            final(self).point == old(self).point,
            final(self).distance == old(self).distance,
            final(self).radius == old(self).radius,
            final(self).source == old(self).source,
            final(self).yielded == old(self).yielded,
            final(self).handed == old(self).handed,
            total(lent_trees(final(self).pending@), weight_of::<T>()) < total(
                lent_trees(old(self).pending@),
                weight_of::<T>(),
            ),
            final(self).origin == old(self).origin,
            browses_to(
                old(self).distance,
                lent_trees(old(self).pending@),
                lent_items(old(self).evaluated@),
                old(self).point@,
                old(self).radius,
                lent_trees(final(self).pending@),
                lent_items(final(self).evaluated@),
            ),
            forall|sheet: Seq<T>| #[trigger]
                agrees(sheet, final(self).origin@, final(self).settled@)
                && (forall|x: Waiting<'a, T>|
                    final(self).pending@.contains(x)
                        ==> (*final(x.element.tree)).seated(&*x.element.tree, x.element.offset@, sheet))
                && (forall|c: Candidate<'a, T>|
                    final(self).evaluated@.contains(c) ==> *final(c.element.payload) == sheet[c.element.index@])
                ==> agrees(sheet, old(self).origin@, old(self).settled@)
                && (forall|x: Waiting<'a, T>|
                    old(self).pending@.contains(x)
                        ==> (*final(x.element.tree)).seated(&*x.element.tree, x.element.offset@, sheet))
                && (forall|c: Candidate<'a, T>|
                    old(self).evaluated@.contains(c) ==> *final(c.element.payload) == sheet[c.element.index@]),
    {
        let ghost q = self.point@;
        let ghost all = self.source@;
        let ghost given = self.yielded@;
        let ghost waiting = self.pending@;
        let ghost whole = self.origin@;
        let ghost total_len = whole.entries().len();
        let ghost settled0 = self.settled@;
        let ghost handed = self.handed@;
        let ghost held0 = self.evaluated@;
        let ghost cands0 = lent_items(self.evaluated@);
        let ghost aside = given.to_multiset().add(gathered(cands0, candidate_of::<T>()));
        let top = self.pending.pop().unwrap();
        let ghost taken = top;
        let ghost top_tree: KdTree<T> = *top.element.tree;
        let ghost top_fate: KdTree<T> = *final(top.element.tree);
        let ghost top_off = top.element.offset@;
        let ghost fewer = self.pending@;
        proof {
            lemma_joined(fewer, waiting, top, |x: Waiting<'a, T>| 0nat, range_of::<T>());
            crate::tally::lemma_mapped_joined(self.pending@, waiting, top, lend_tree::<T>());
            lemma_image_ordered(self.pending@, lend_tree::<T>());
            lemma_taken(
                self.distance,
                q,
                self.radius,
                all,
                lent_trees(waiting),
                lent_trees(self.pending@),
                lent_tree(top),
                self.far@,
                self.pruned@,
                given,
                cands0,
            );
            assert(waiting.contains(top));
            crate::heap::lemma_popped_image(waiting, lend_tree::<T>());
            assert(placed(top_tree, top_off, whole));
            assert(all_placed(fewer, whole)) by {
                assert forall|x: Waiting<'a, T>| #[trigger] fewer.contains(x) implies placed(
                    *x.element.tree,
                    x.element.offset@,
                    whole,
                ) by {
                    assert(waiting.contains(x));
                }
            }
        }
        proof {
            reveal(browsing);
        }
        let Held { tree: top_ref, offset: _ } = top.element;
        let (points, bucket, Ghost(pruned), Ghost(leaf_off), Ghost(settled1), Ghost(leaf)) = KdTree::descend_mut(
            top_ref,
            self.point,
            self.radius,
            self.distance,
            &mut self.pending,
            Ghost(1),
            Ghost(self.radius),
            Ghost(all),
            Ghost(Seq::empty()),
            Ghost(self.far@),
            Ghost(self.pruned@),
            Ghost(aside),
            Ghost(top_off),
            Ghost(whole),
            Ghost(settled0),
        );
        self.pruned = Ghost(pruned);
        self.settled = Ghost(settled1);
        let ghost queued = self.pending@;
        let ghost owned: Seq<T> = bucket@;
        let ghost mine = paired(points@, owned);
        let ghost listed = points@;
        let ghost fated_points = final(points)@;
        let ghost fated_bucket = final(bucket)@;
        let mut rest: &'a mut [T] = bucket.as_mut_slice();
        let ghost fated = final(rest)@;
        let mut i: usize = 0;
        assert(mine.skip(0) =~= mine);
        assert(owned.skip(0) =~= owned);
        proof {
            broadcast use vstd::multiset::group_multiset_axioms;
            assert(range_of::<T>()(taken) == span(top_off, top_tree.entries().len()));
            assert(mine.len() == points@.len());
            assert(self.evaluated@ == held0);
            assert(shared_out(whole, waiting, held0, handed, settled0, Multiset::empty()));
            assert(gathered(waiting, range_of::<T>()) =~= gathered(fewer, range_of::<T>()).add(
                span(top_off, top_tree.entries().len()),
            ));
            assert(gathered(queued, range_of::<T>()).add(settled1).add(span(leaf_off, mine.len())) =~= gathered(
                fewer,
                range_of::<T>(),
            ).add(settled0).add(span(top_off, top_tree.entries().len())));
            lemma_rebalanced(
                handed.to_multiset(),
                settled0,
                settled1,
                gathered(held0, index_of::<T>()),
                gathered(waiting, range_of::<T>()),
                gathered(fewer, range_of::<T>()),
                gathered(queued, range_of::<T>()),
                span(top_off, top_tree.entries().len()),
                span(leaf_off, mine.len()),
                span(0, whole.entries().len()),
            );
            assert(shared_out(whole, queued, held0, handed, settled1, span(leaf_off, mine.len())));
            super::course::lemma_gleaning_begins(self.distance, cands0, mine, q, self.radius);
        }
        while i < points.len()
            invariant
                gleans_alike(self.distance, lent_items(self.evaluated@), i as int, cands0, mine, q, self.radius),
                self.pending@ == queued,
                self.pending.wf(),
                self.evaluated.wf(),
                self.point == old(self).point,
                self.distance == old(self).distance,
                self.radius == old(self).radius,
                self.source == old(self).source,
                self.yielded == old(self).yielded,
                self.handed == old(self).handed,
                q == self.point@,
                all == self.source@,
                given == self.yielded@,
                handed == self.handed@,
                whole == self.origin@,
                callable(self.distance, q.len()),
                mine == paired(points@, owned),
                points@.len() == owned.len(),
                forall|j: int| 0 <= j < points@.len() ==> (#[trigger] points@[j])@.len() == q.len(),
                i <= points@.len(),
                rest@ =~= owned.skip(i as int),
                points@ == listed,
                fated.len() == i + final(rest)@.len(),
                self.origin == old(self).origin,
                browsing(
                    self.distance,
                    q,
                    self.radius,
                    all,
                    lent_trees(self.pending@),
                    self.far@,
                    self.pruned@,
                    mine.skip(i as int),
                    given,
                    lent_items(self.evaluated@),
                ),
                0 <= leaf_off,
                leaf_off + mine.len() <= whole.entries().len(),
                mine == whole.entries().subrange(leaf_off, leaf_off + mine.len()),
                all_placed(queued, whole),
                all_copies(self.evaluated@, whole, self.distance, q),
                shared_out(
                    whole,
                    queued,
                    self.evaluated@,
                    handed,
                    self.settled@,
                    span(leaf_off + i, (mine.len() - i) as nat),
                ),
                forall|sheet: Seq<T>| #[trigger]
                    agrees(sheet, whole, self.settled@)
                    && (forall|c: Candidate<'a, T>|
                        self.evaluated@.contains(c) ==> *final(c.element.payload) == sheet[c.element.index@])
                    && (forall|j: int|
                        0 <= j < final(rest)@.len() ==> #[trigger] final(rest)@[j] == sheet[leaf_off + i + j])
                    ==> agrees(sheet, whole, settled1)
                    && (forall|c: Candidate<'a, T>|
                        held0.contains(c) ==> *final(c.element.payload) == sheet[c.element.index@])
                    && (forall|j: int| 0 <= j < fated.len() ==> #[trigger] fated[j] == sheet[leaf_off + j]),
            decreases points@.len() - i,
        {
            let ghost left_over = mine.skip(i as int);
            let ghost cands = self.evaluated@;
            let ghost settled_here = self.settled@;
            let ghost at: int = leaf_off + i;
            let ghost rest_fate = final(rest)@;
            let dist = (self.distance)(self.point, points[i].as_slice());
            proof {
                assert(left_over.skip(1) =~= mine.skip(i + 1));
                assert(left_over[0] == mine[i as int]);
                assert(may_return(self.distance, q, left_over[0].0, dist));
                assert(mine[i as int] == whole.entries()[at]);
                assert(span(at, (mine.len() - i) as nat) =~= span(at + 1, (mine.len() - i - 1) as nat).add(
                    Multiset::singleton(at),
                )) by {
                    broadcast use vstd::multiset::group_multiset_axioms;
                    assert forall|v: int| #[trigger] span(at, (mine.len() - i) as nat).count(v) == span(
                        at + 1,
                        (mine.len() - i - 1) as nat,
                    ).add(Multiset::singleton(at)).count(v) by {
                        lemma_span(at, (mine.len() - i) as nat, v);
                        lemma_span(at + 1, (mine.len() - i - 1) as nat, v);
                    }
                }
            }
            let (head, tail) = rest.split_at_mut(1);
            let ghost head_fate = final(head)@;
            let ghost tail_fate = final(tail)@;
            rest = tail;
            assert(rest@ =~= owned.skip(i + 1));
            assert(head@.len() == 1 && head@[0] == owned[i as int]);
            if dist <= self.radius {
                match head.first_mut() {
                    Some(payload) => {
                        let item = HeapElement {
                            distance: mirror(dist),
                            element: Lent { payload, index: Ghost(at) },
                        };
                        self.evaluated.push(item);
                        proof {
                            crate::tally::lemma_mapped_joined(cands, self.evaluated@, item, lend_item::<T>());
                            lemma_image_ordered(self.evaluated@, lend_item::<T>());
                            lemma_candidate_found(
                                self.distance,
                                q,
                                self.radius,
                                all,
                                lent_trees(self.pending@),
                                self.far@,
                                self.pruned@,
                                left_over,
                                given,
                                lent_items(cands),
                                lent_items(self.evaluated@),
                                dist,
                                lent_item(item),
                            );
                            lemma_joined(cands, self.evaluated@, item, |x: Candidate<'a, T>| 0nat, index_of::<T>());
                            crate::heap::lemma_pushed_image(cands, item, lend_item::<T>());
                            broadcast use vstd::multiset::group_multiset_axioms;
                            assert(head_fate[0] == *final(item.element.payload));
                            assert(self.evaluated@.contains(item));
                            assert(forall|sheet: Seq<T>|
                                (forall|c: Candidate<'a, T>|
                                    self.evaluated@.contains(c) ==> *final(c.element.payload) == sheet[c.element.index@])
                                    ==> #[trigger] sheet[at] == head_fate[0]);
                            assert(all_copies(self.evaluated@, whole, self.distance, q)) by {
                                assert forall|c: Candidate<'a, T>| #[trigger]
                                    self.evaluated@.contains(c) implies copied(c, whole, self.distance, q) by {
                                    assert(cands.contains(c) || c == item);
                                }
                            }
                        }
                    },
                    None => {},
                }
            } else {
                proof {
                    lemma_far_found(
                        self.distance,
                        q,
                        self.radius,
                        all,
                        lent_trees(self.pending@),
                        self.far@,
                        self.pruned@,
                        left_over,
                        given,
                        lent_items(cands),
                        dist,
                    );
                    broadcast use vstd::multiset::group_multiset_axioms;
                }
                self.far = Ghost(self.far@.push(HeapElement { distance: dist, element: &owned[i as int] }));
                self.settled = Ghost(self.settled@.add(Multiset::singleton(at)));
                let_go_slice(head);
                proof {
                    assert(head_fate[0] == owned[i as int]);
                    assert forall|sheet: Seq<T>|
                        agrees(sheet, whole, self.settled@)
                        implies #[trigger] sheet[at] == head_fate[0] by {
                        assert(self.settled@.count(at) > 0);
                    }
                }
            }
            proof {
                assert(mine[i as int].1 == owned[i as int]);
                super::course::lemma_gleaning_goes_on(
                    self.distance,
                    lent_items(cands),
                    i as int,
                    cands0,
                    mine,
                    q,
                    self.radius,
                    dist,
                    lent_items(self.evaluated@),
                );
            }
            proof {
                broadcast use vstd::multiset::group_multiset_axioms;
                assert(rest_fate == head_fate + tail_fate);
                assert(head_fate.len() == 1);
                assert(settled_here.subset_of(self.settled@));
                assert forall|sheet: Seq<T>| #[trigger]
                    agrees(sheet, whole, self.settled@)
                    && (forall|c: Candidate<'a, T>|
                        self.evaluated@.contains(c) ==> *final(c.element.payload) == sheet[c.element.index@])
                    && (forall|j: int|
                        0 <= j < tail_fate.len() ==> #[trigger] tail_fate[j] == sheet[leaf_off + i + 1 + j])
                    implies agrees(sheet, whole, settled1)
                    && (forall|c: Candidate<'a, T>|
                        held0.contains(c) ==> *final(c.element.payload) == sheet[c.element.index@])
                    && (forall|j: int| 0 <= j < fated.len() ==> #[trigger] fated[j] == sheet[leaf_off + j]) by {
                    lemma_agrees_less(sheet, whole, self.settled@, settled_here);
                    assert(sheet[at] == head_fate[0]);
                    assert forall|c: Candidate<'a, T>| cands.contains(c)
                        implies *final(c.element.payload) == sheet[c.element.index@] by {
                        assert(self.evaluated@.contains(c));
                    }
                    assert forall|j: int| 0 <= j < rest_fate.len()
                        implies #[trigger] rest_fate[j] == sheet[leaf_off + i + j] by {
                        if j > 0 {
                            assert(rest_fate[j] == tail_fate[j - 1]);
                        }
                    }
                }
            }
            i += 1;
        }
        assert(mine.skip(i as int) =~= Seq::<(Seq<i64>, T)>::empty());
        proof {
            broadcast use vstd::multiset::group_multiset_axioms;
            assert(lent_trees(waiting)[0] == lent_tree(taken));
            super::course::lemma_browsed(
                self.distance,
                lent_trees(waiting),
                cands0,
                q,
                self.radius,
                lent_trees(self.pending@),
                &leaf,
                lent_items(self.evaluated@),
            );
            assert(fated_points == listed);
            assert(fated_bucket.len() == owned.len());
            assert(fated_bucket == fated);
            assert(span(leaf_off + i, 0nat) =~= Multiset::<int>::empty());
            assert forall|sheet: Seq<T>| #[trigger]
                agrees(sheet, whole, self.settled@)
                && (forall|c: Candidate<'a, T>|
                    self.evaluated@.contains(c) ==> *final(c.element.payload) == sheet[c.element.index@])
                && (forall|x: Waiting<'a, T>|
                    self.pending@.contains(x)
                        ==> (*final(x.element.tree)).seated(&*x.element.tree, x.element.offset@, sheet))
                implies agrees(sheet, whole, settled0)
                && (forall|x: Waiting<'a, T>|
                    waiting.contains(x) ==> (*final(x.element.tree)).seated(&*x.element.tree, x.element.offset@, sheet))
                && (forall|c: Candidate<'a, T>|
                    held0.contains(c) ==> *final(c.element.payload) == sheet[c.element.index@]) by {
                assert(agrees(sheet, whole, settled1));
                assert(top_fate.seated(&top_tree, top_off, sheet));
                assert forall|x: Waiting<'a, T>|
                    waiting.contains(x)
                    implies (*final(x.element.tree)).seated(&*x.element.tree, x.element.offset@, sheet) by {
                    assert(fewer.contains(x) || x == taken);
                }
            }
        }
    }

    /// Searches on until the nearest candidate can be handed out: until no
    /// waiting subtree can hold anything as near.
    fn advance(&mut self) -> (fuel: Ghost<nat>)
        requires
            old(self).wf(),
        ensures
            readies_alike(
                old(self).distance,
                lent_trees(final(self).pending@),
                lent_items(final(self).evaluated@),
                fuel@,
                lent_trees(old(self).pending@),
                lent_items(old(self).evaluated@),
                old(self).point@,
                old(self).radius,
            ),
            final(self).wf(),
            final(self).point == old(self).point,
            final(self).distance == old(self).distance,
            final(self).radius == old(self).radius,
            final(self).source == old(self).source,
            final(self).yielded == old(self).yielded,
            final(self).handed == old(self).handed,
            final(self).origin == old(self).origin,
            !(final(self).pending@.len() > 0 && mirrored(final(self).pending@[0].distance) <= final(self).radius && (
            final(self).evaluated@.len() == 0 || mirrored(final(self).pending@[0].distance) <= mirrored(
                final(self).evaluated@[0].distance,
            ))),
            forall|sheet: Seq<T>| #[trigger]
                agrees(sheet, final(self).origin@, final(self).settled@)
                && (forall|x: Waiting<'a, T>|
                    final(self).pending@.contains(x)
                        ==> (*final(x.element.tree)).seated(&*x.element.tree, x.element.offset@, sheet))
                && (forall|c: Candidate<'a, T>|
                    final(self).evaluated@.contains(c) ==> *final(c.element.payload) == sheet[c.element.index@])
                ==> agrees(sheet, old(self).origin@, old(self).settled@)
                && (forall|x: Waiting<'a, T>|
                    old(self).pending@.contains(x)
                        ==> (*final(x.element.tree)).seated(&*x.element.tree, x.element.offset@, sheet))
                && (forall|c: Candidate<'a, T>|
                    old(self).evaluated@.contains(c) ==> *final(c.element.payload) == sheet[c.element.index@]),
    {
        let ghost first = lent_trees(self.pending@);
        let ghost before = lent_items(self.evaluated@);
        let ghost q = self.point@;
        let ghost mut fuel: nat = nodes_waiting(first);
        proof {
            super::course::lemma_readying_begins(self.distance, first, before, q, self.radius);
        }
        while has_nearer(&self.pending, &self.evaluated, self.radius)
            invariant
                readies_alike(
                    self.distance,
                    lent_trees(self.pending@),
                    lent_items(self.evaluated@),
                    fuel,
                    first,
                    before,
                    q,
                    self.radius,
                ),
                total(lent_trees(self.pending@), weight_of::<T>()) <= fuel,
                q == self.point@,
                self.wf(),
                self.point == old(self).point,
                self.distance == old(self).distance,
                self.radius == old(self).radius,
                self.source == old(self).source,
                self.yielded == old(self).yielded,
                self.handed == old(self).handed,
                self.origin == old(self).origin,
                forall|sheet: Seq<T>| #[trigger]
                    agrees(sheet, self.origin@, self.settled@)
                    && (forall|x: Waiting<'a, T>|
                        self.pending@.contains(x)
                            ==> (*final(x.element.tree)).seated(&*x.element.tree, x.element.offset@, sheet))
                    && (forall|c: Candidate<'a, T>|
                        self.evaluated@.contains(c) ==> *final(c.element.payload) == sheet[c.element.index@])
                    ==> agrees(sheet, old(self).origin@, old(self).settled@)
                    && (forall|x: Waiting<'a, T>|
                        old(self).pending@.contains(x)
                            ==> (*final(x.element.tree)).seated(&*x.element.tree, x.element.offset@, sheet))
                    && (forall|c: Candidate<'a, T>|
                        old(self).evaluated@.contains(c) ==> *final(c.element.payload) == sheet[c.element.index@]),
            decreases total(lent_trees(self.pending@), weight_of::<T>()),
        {
            let ghost waiting = self.pending@;
            let ghost found = self.evaluated@;
            self.step();
            proof {
                assert(lent_trees(waiting)[0] == lent_tree(waiting[0]));
                if found.len() > 0 {
                    assert(lent_items(found)[0] == lent_item(found[0]));
                }
                super::course::lemma_readying_goes_on(
                    self.distance,
                    lent_trees(waiting),
                    lent_items(found),
                    fuel,
                    first,
                    before,
                    q,
                    self.radius,
                    lent_trees(self.pending@),
                    lent_items(self.evaluated@),
                );
                fuel = (fuel - 1) as nat;
            }
        }
        Ghost(fuel)
    }

    /// The nearest entry within the radius that has not been handed out yet,
    /// with its distance and with its payload open to change; `None` when
    /// there is none left.
    ///
    /// The payload handed out is that of an entry of `origin()` that was not
    /// handed out before, the distance is what the distance function returns
    /// for the point of that entry, and the search records the place of the
    /// entry as the last of `handed()`. What the caller writes through it is what the tree holds
    /// there in the end: of any sheet of payloads, if the subtrees and
    /// candidates that still wait come back with the payloads of the sheet,
    /// and the sheet has at the recorded place what the reference holds in the
    /// end, then those that waited before come back with them too.
    pub fn next(&mut self) -> (r: Option<(i64, &'a mut T)>)
        requires
            old(self).wf(),
        ensures
            hands_out(
                old(self).metric(),
                lent_trees(old(self).waiting()),
                lent_items(old(self).candidates()),
                old(self).center(),
                old(self).reach(),
                read_of(r),
                lent_trees(final(self).waiting()),
                lent_items(final(self).candidates()),
            ),
            final(self).wf(),
            final(self).source() == old(self).source(),
            final(self).center() == old(self).center(),
            final(self).reach() == old(self).reach(),
            final(self).metric() == old(self).metric(),
            final(self).origin() == old(self).origin(),
            match r {
                Some(pair) => {
                    &&& pair.0 <= old(self).reach()
                    &&& final(self).yielded() == old(self).yielded().push(
                        HeapElement { distance: pair.0, element: &*pair.1 },
                    )
                    &&& final(self).handed() == old(self).handed().push(final(self).handed().last())
                    &&& 0 <= final(self).handed().last() < old(self).origin().entries().len()
                    &&& !old(self).handed().contains(final(self).handed().last())
                    &&& *pair.1 == old(self).origin().entries()[final(self).handed().last()].1
                    &&& may_return(
                        old(self).metric(),
                        old(self).center(),
                        old(self).origin().entries()[final(self).handed().last()].0,
                        pair.0,
                    )
                },
                None => final(self).yielded() == old(self).yielded() && final(self).handed() == old(self).handed(),
            },
            forall|sheet: Seq<T>| #[trigger]
                final(self).settled_as_before(sheet)
                && (forall|x: Waiting<'a, T>|
                    final(self).waiting().contains(x)
                        ==> (*final(x.element.tree)).seated(&*x.element.tree, x.element.offset@, sheet))
                && (forall|c: Candidate<'a, T>|
                    final(self).candidates().contains(c) ==> *final(c.element.payload) == sheet[c.element.index@])
                && (r matches Some(pair) ==> sheet[final(self).handed().last()] == *final(pair.1))
                ==> old(self).settled_as_before(sheet)
                && (forall|x: Waiting<'a, T>|
                    old(self).waiting().contains(x)
                        ==> (*final(x.element.tree)).seated(&*x.element.tree, x.element.offset@, sheet))
                && (forall|c: Candidate<'a, T>|
                    old(self).candidates().contains(c) ==> *final(c.element.payload) == sheet[c.element.index@]),
            forall|m: Metric| #[trigger]
                measures(old(self).metric(), m) ==> final(self).yielded().to_multiset().subset_of(
                    ranked::<T>(old(self).source(), old(self).center(), m).to_multiset(),
                ),
            forall|m: Metric| #[trigger]
                measures(old(self).metric(), m) && admissible(m) ==> match r {
                    Some(pair) => rest_is_no_nearer(
                        old(self).yielded(),
                        ranked::<T>(old(self).source(), old(self).center(), m).to_multiset(),
                        pair.0,
                    ),
                    None => rest_is_out_of_reach(
                        old(self).yielded(),
                        ranked::<T>(old(self).source(), old(self).center(), m).to_multiset(),
                        old(self).reach(),
                    ),
                },
    {
        let Ghost(fuel) = self.advance();
        let ghost mid = *self;
        let r = self.hand_out();
        proof {
            crate::heap::lemma_popped_image(mid.evaluated@, lend_item::<T>());
            if mid.pending@.len() > 0 {
                assert(lent_trees(mid.pending@)[0] == lent_tree(mid.pending@[0]));
            }
            if mid.evaluated@.len() > 0 {
                assert(lent_items(mid.evaluated@)[0] == lent_item(mid.evaluated@[0]));
            }
            super::course::lemma_readying_ends(
                mid.distance,
                lent_trees(mid.pending@),
                lent_items(mid.evaluated@),
                fuel,
                lent_trees(old(self).pending@),
                lent_items(old(self).evaluated@),
                mid.point@,
                mid.radius,
                read_of(r),
            );
        }
        proof {
            assert forall|sheet: Seq<T>| #[trigger]
                self.settled_as_before(sheet)
                && (forall|x: Waiting<'a, T>|
                    self.waiting().contains(x)
                        ==> (*final(x.element.tree)).seated(&*x.element.tree, x.element.offset@, sheet))
                && (forall|c: Candidate<'a, T>|
                    self.candidates().contains(c) ==> *final(c.element.payload) == sheet[c.element.index@])
                && (r matches Some(pair) ==> sheet[self.handed().last()] == *final(pair.1))
                implies old(self).settled_as_before(sheet)
                && (forall|x: Waiting<'a, T>|
                    old(self).waiting().contains(x)
                        ==> (*final(x.element.tree)).seated(&*x.element.tree, x.element.offset@, sheet))
                && (forall|c: Candidate<'a, T>|
                    old(self).candidates().contains(c) ==> *final(c.element.payload) == sheet[c.element.index@]) by {
                assert(mid.settled_as_before(sheet));
                assert(agrees(sheet, mid.origin@, mid.settled@));
                assert(mid.waiting() == mid.pending@);
                assert(mid.candidates() == mid.evaluated@);
                assert(old(self).waiting() == old(self).pending@);
                assert(old(self).candidates() == old(self).evaluated@);
            }
        }
        r
    }

    /// Hands out the nearest candidate, if there is one, once no waiting
    /// subtree can hold anything as near.
    #[verifier::rlimit(100)]
    fn hand_out(&mut self) -> (r: Option<(i64, &'a mut T)>)
        requires
            old(self).wf(),
            !(old(self).pending@.len() > 0 && mirrored(old(self).pending@[0].distance) <= old(self).radius && (
            old(self).evaluated@.len() == 0 || mirrored(old(self).pending@[0].distance) <= mirrored(
                old(self).evaluated@[0].distance,
            ))),
        ensures
            final(self).pending@ == old(self).pending@,
            final(self).evaluated@ == crate::heap::popped(old(self).evaluated@),
            final(self).point == old(self).point,
            final(self).distance == old(self).distance,
            final(self).radius == old(self).radius,
            read_of(r) == (if old(self).evaluated@.len() == 0 {
                None
            } else {
                Some((mirrored(old(self).evaluated@[0].distance), &*old(self).evaluated@[0].element.payload))
            }),
            final(self).wf(),
            final(self).source() == old(self).source(),
            final(self).center() == old(self).center(),
            final(self).reach() == old(self).reach(),
            final(self).metric() == old(self).metric(),
            final(self).origin() == old(self).origin(),
            match r {
                Some(pair) => {
                    &&& pair.0 <= old(self).reach()
                    &&& final(self).yielded() == old(self).yielded().push(
                        HeapElement { distance: pair.0, element: &*pair.1 },
                    )
                    &&& final(self).handed() == old(self).handed().push(final(self).handed().last())
                    &&& 0 <= final(self).handed().last() < old(self).origin().entries().len()
                    &&& !old(self).handed().contains(final(self).handed().last())
                    &&& *pair.1 == old(self).origin().entries()[final(self).handed().last()].1
                    &&& may_return(
                        old(self).metric(),
                        old(self).center(),
                        old(self).origin().entries()[final(self).handed().last()].0,
                        pair.0,
                    )
                },
                None => final(self).yielded() == old(self).yielded() && final(self).handed() == old(self).handed(),
            },
            forall|sheet: Seq<T>| #[trigger]
                final(self).settled_as_before(sheet)
                && (forall|x: Waiting<'a, T>|
                    final(self).waiting().contains(x)
                        ==> (*final(x.element.tree)).seated(&*x.element.tree, x.element.offset@, sheet))
                && (forall|c: Candidate<'a, T>|
                    final(self).candidates().contains(c) ==> *final(c.element.payload) == sheet[c.element.index@])
                && (r matches Some(pair) ==> sheet[final(self).handed().last()] == *final(pair.1))
                ==> old(self).settled_as_before(sheet)
                && (forall|x: Waiting<'a, T>|
                    old(self).waiting().contains(x)
                        ==> (*final(x.element.tree)).seated(&*x.element.tree, x.element.offset@, sheet))
                && (forall|c: Candidate<'a, T>|
                    old(self).candidates().contains(c) ==> *final(c.element.payload) == sheet[c.element.index@]),
            forall|m: Metric| #[trigger]
                measures(old(self).metric(), m) ==> final(self).yielded().to_multiset().subset_of(
                    ranked::<T>(old(self).source(), old(self).center(), m).to_multiset(),
                ),
            forall|m: Metric| #[trigger]
                measures(old(self).metric(), m) && admissible(m) ==> match r {
                    Some(pair) => rest_is_no_nearer(
                        old(self).yielded(),
                        ranked::<T>(old(self).source(), old(self).center(), m).to_multiset(),
                        pair.0,
                    ),
                    None => rest_is_out_of_reach(
                        old(self).yielded(),
                        ranked::<T>(old(self).source(), old(self).center(), m).to_multiset(),
                        old(self).reach(),
                    ),
                },
    {
        let ghost q = self.point@;
        let ghost all = self.source@;
        let ghost given = self.yielded@;
        let ghost whole = self.origin@;
        let ghost handed = self.handed@;
        let ghost now = self.pending@;
        let ghost cands = self.evaluated@;
        match self.evaluated.pop() {
            None => {
                proof {
                    lemma_exhausted(
                        self.distance,
                        q,
                        self.radius,
                        all,
                        lent_trees(self.pending@),
                        self.far@,
                        self.pruned@,
                        given,
                        lent_items(cands),
                    );
                    assert(self.waiting() == now);
                    assert(self.evaluated@ =~= cands);
                    assert(self.candidates() == old(self).candidates());
                    assert(self.waiting() == old(self).waiting());
                    assert forall|sheet: Seq<T>| #[trigger]
                        self.settled_as_before(sheet)
                        implies old(self).settled_as_before(sheet) by {
                    }
                }
                None
            },
            Some(top) => {
                let d = mirror(top.distance);
                let ghost at = top.element.index@;
                self.yielded = Ghost(given.push(HeapElement { distance: d, element: &*top.element.payload }));
                self.handed = Ghost(handed.push(at));
                proof {
                    assert(lent_items(cands).to_multiset() =~= lent_items(self.evaluated@).to_multiset().insert(
                        lent_item(top),
                    ) && crate::heap::heap_ordered(lent_items(self.evaluated@))) by {
                        crate::tally::lemma_mapped_joined(self.evaluated@, cands, top, lend_item::<T>());
                        lemma_image_ordered(self.evaluated@, lend_item::<T>());
                    }
                    assert(lent_items(cands)[0] == lent_item(top));
                    lemma_nearest_first(
                        self.distance,
                        q,
                        self.radius,
                        all,
                        lent_trees(self.pending@),
                        self.far@,
                        self.pruned@,
                        given,
                        lent_items(cands),
                        lent_items(self.evaluated@),
                        lent_item(top),
                    );
                    broadcast use vstd::multiset::group_multiset_axioms;
                    broadcast use vstd::seq_lib::to_multiset_contains;
                    broadcast use vstd::seq_lib::to_multiset_build;

                    lemma_joined(self.evaluated@, cands, top, |x: Candidate<'a, T>| 0nat, index_of::<T>());
                    assert(cands.contains(top));
                    lemma_span(0, whole.entries().len(), at);
                    assert(handed.to_multiset().count(at) == 0);
                    assert(!handed.contains(at));
                    assert(copied(top, whole, self.distance, q));
                    assert(all_copies(self.evaluated@, whole, self.distance, q)) by {
                        assert forall|c: Candidate<'a, T>| #[trigger]
                            self.evaluated@.contains(c) implies copied(c, whole, self.distance, q) by {
                            assert(cands.contains(c));
                        }
                    }
                    assert(self.handed@.last() == at);
                }
                assert(self.waiting() == now);
                let Lent { payload, index: _ } = top.element;
                let r = Some((d, payload));
                proof {
                    assert(self.waiting() == old(self).waiting());
                    assert(self.candidates() == self.evaluated@);
                    assert(old(self).candidates() == cands);
                    assert(self.handed().last() == at);
                    assert forall|sheet: Seq<T>| #[trigger]
                        self.settled_as_before(sheet)
                        && (forall|x: Waiting<'a, T>|
                            self.waiting().contains(x)
                                ==> (*final(x.element.tree)).seated(&*x.element.tree, x.element.offset@, sheet))
                        && (forall|c: Candidate<'a, T>|
                            self.candidates().contains(c) ==> *final(c.element.payload) == sheet[c.element.index@])
                        && (r matches Some(pair) ==> sheet[self.handed().last()] == *final(pair.1))
                        implies old(self).settled_as_before(sheet)
                        && (forall|x: Waiting<'a, T>|
                            old(self).waiting().contains(x)
                                ==> (*final(x.element.tree)).seated(&*x.element.tree, x.element.offset@, sheet))
                        && (forall|c: Candidate<'a, T>|
                            old(self).candidates().contains(c)
                                ==> *final(c.element.payload) == sheet[c.element.index@]) by {
                        assert forall|c: Candidate<'a, T>| cands.contains(c)
                            implies *final(c.element.payload) == sheet[c.element.index@] by {
                            assert(self.evaluated@.contains(c) || c == top);
                        }
                    }
                }
                r
            },
        }
    }
}

/// Gives back a slice that was held for writing, as it is.
fn let_go_slice<A>(held: &mut [A])
    ensures
        final(held)@ == old(held)@,
{
}

impl<T> KdTree<T> {
    /// Goes from `start` down to the leaf on the side of `point`, and hands
    /// out the leaf's points and its bucket. Each subtree passed by is put to
    /// wait under the distance from `point` to its box, unless that distance is
    /// beyond `limit`.
    #[verifier::rlimit(100)]
    #[verifier::loop_isolation(false)]
    fn descend_mut<'b, F>(
        start: &'b mut KdTree<T>,
        point: &[i64],
        limit: i64,
        distance: &F,
        pending: &mut RankedHeap<Held<'b, T>>,
        Ghost(k): Ghost<nat>,
        Ghost(radius): Ghost<i64>,
        Ghost(all): Ghost<Seq<(Seq<i64>, T)>>,
        Ghost(kept): Ghost<Seq<HeapElement<&'b T>>>,
        Ghost(rejected): Ghost<Seq<HeapElement<&'b T>>>,
        Ghost(pruned): Ghost<Seq<(Seq<i64>, T)>>,
        Ghost(extra): Ghost<Multiset<HeapElement<&'b T>>>,
        Ghost(off): Ghost<int>,
        Ghost(whole): Ghost<KdTree<T>>,
        Ghost(settled): Ghost<Multiset<int>>,
    ) -> (out: (
        &'b mut Vec<Vec<i64>>,
        &'b mut Vec<T>,
        Ghost<Seq<(Seq<i64>, T)>>,
        Ghost<int>,
        Ghost<Multiset<int>>,
        Ghost<KdTree<T>>,
    )) where F: Fn(&[i64], &[i64]) -> i64
        requires
            old(start).wf(),
            old(start).dimensions == point@.len(),
            callable(distance, point@.len()),
            old(pending).wf(),
            limit >= radius || (kept.len() == k && limit >= kept[0].distance),
            searching_with(
                distance,
                point@,
                k,
                radius,
                all,
                lent_trees(old(pending)@),
                kept,
                rejected,
                pruned,
                old(start).entries(),
                extra,
            ),
            placed(*old(start), off, whole),
            all_placed(old(pending)@, whole),
        ensures
            final(pending).wf(),
            out.0@.len() == out.1@.len(),
            forall|j: int| 0 <= j < out.0@.len() ==> (#[trigger] out.0@[j])@.len() == point@.len(),
            searching_with(
                distance,
                point@,
                k,
                radius,
                all,
                lent_trees(final(pending)@),
                kept,
                rejected,
                out.2@,
                paired(out.0@, out.1@),
                extra,
            ),
            total(lent_trees(final(pending)@), weight_of::<T>()) < total(lent_trees(old(pending)@), weight_of::<T>())
                + old(start).nodes(),
            all_placed(final(pending)@, whole),
            paired(out.0@, out.1@) == out.5@.entries(),
            descends_to(
                distance,
                &*old(start),
                lent_trees(old(pending)@),
                point@,
                limit,
                lent_trees(final(pending)@),
                &out.5@,
            ),
            0 <= out.3@,
            out.3@ + out.0@.len() <= whole.entries().len(),
            paired(out.0@, out.1@) == whole.entries().subrange(out.3@, out.3@ + out.0@.len()),
            gathered(final(pending)@, range_of::<T>()).add(out.4@).add(span(out.3@, out.0@.len())) =~= gathered(
                old(pending)@,
                range_of::<T>(),
            ).add(settled).add(span(off, old(start).entries().len())),
            forall|sheet: Seq<T>| #[trigger]
                agrees(sheet, whole, out.4@)
                && (forall|x: Waiting<'b, T>|
                    final(pending)@.contains(x)
                        ==> (*final(x.element.tree)).seated(&*x.element.tree, x.element.offset@, sheet))
                && final(out.0)@ == out.0@
                && final(out.1)@.len() == out.1@.len()
                && (forall|j: int| 0 <= j < out.1@.len() ==> #[trigger] final(out.1)@[j] == sheet[out.3@ + j])
                ==> agrees(sheet, whole, settled)
                && (*final(start)).seated(&*old(start), off, sheet)
                && (forall|x: Waiting<'b, T>|
                    old(pending)@.contains(x)
                        ==> (*final(x.element.tree)).seated(&*x.element.tree, x.element.offset@, sheet)),
    {
        let ghost q = point@;
        let ghost before = pending@;
        let ghost origin: KdTree<T> = *start;
        let ghost fate: KdTree<T> = *final(start);
        let ghost mut pruned = pruned;
        let ghost settled0 = settled;
        let ghost mut settled = settled;
        let ghost mut curr_off: int = off;
        let mut curr: &'b mut KdTree<T> = start;
        proof {
            super::course::lemma_descent_begins(distance, &origin, lent_trees(before), q, limit);
        }
        loop
            invariant
                descends_alike(distance, &*curr, lent_trees(pending@), &origin, lent_trees(before), q, limit),
                forall|sheet: Seq<T>| #[trigger]
                    agrees(sheet, whole, settled)
                    && (forall|x: Waiting<'b, T>|
                        pending@.contains(x)
                            ==> (*final(x.element.tree)).seated(&*x.element.tree, x.element.offset@, sheet))
                    && (*final(curr)).seated(&*curr, curr_off, sheet)
                    ==> agrees(sheet, whole, settled0)
                    && fate.seated(&origin, off, sheet)
                    && (forall|x: Waiting<'b, T>|
                        before.contains(x)
                            ==> (*final(x.element.tree)).seated(&*x.element.tree, x.element.offset@, sheet)),
                q == point@,
                curr.wf(),
                curr.dimensions == q.len(),
                callable(distance, q.len()),
                pending.wf(),
                limit >= radius || (kept.len() == k && limit >= kept[0].distance),
                searching_with(
                    distance,
                    q,
                    k,
                    radius,
                    all,
                    lent_trees(pending@),
                    kept,
                    rejected,
                    pruned,
                    curr.entries(),
                    extra,
                ),
                total(lent_trees(pending@), weight_of::<T>()) + curr.nodes() <= total(
                    lent_trees(before),
                    weight_of::<T>(),
                ) + origin.nodes(),
                placed(*curr, curr_off, whole),
                all_placed(pending@, whole),
                gathered(pending@, range_of::<T>()).add(settled).add(span(curr_off, curr.entries().len())) =~= gathered(
                    before,
                    range_of::<T>(),
                ).add(settled0).add(span(off, origin.entries().len())),
            decreases curr.nodes(),
        {
            let ghost here: KdTree<T> = *curr;
            let ghost there: KdTree<T> = *final(curr);
            let ghost here_off = curr_off;
            let ghost settled_here = settled;
            let KdTree { min_bounds, node, .. } = curr;
            match node {
                Node::Stem { split_dimension, split_value, left, right } => {
                    let d = *split_dimension;
                    let ghost left_len = left.entries().len();
                    let ghost right_len = right.entries().len();
                    proof {
                        assert(here.entries() == left.entries() + right.entries());
                        lemma_halves(whole.entries(), here_off, left.entries(), right.entries());
                        lemma_span_split(here_off, left_len, right_len);
                    }
                    let go_left = belongs_in_left(min_bounds[d], *split_value, point[d]);
                    let ghost next_off = if go_left {
                        here_off
                    } else {
                        here_off + left_len
                    };
                    let ghost cand_off = if go_left {
                        here_off + left_len
                    } else {
                        here_off
                    };
                    let (next, candidate): (&'b mut KdTree<T>, &'b mut KdTree<T>) = if go_left {
                        (&mut **left, &mut **right)
                    } else {
                        (&mut **right, &mut **left)
                    };
                    let ghost onward: KdTree<T> = *next;
                    let ghost aside: KdTree<T> = *candidate;
                    let ghost onward_fate: KdTree<T> = *final(next);
                    let ghost aside_fate: KdTree<T> = *final(candidate);
                    let candidate_to_space = distance_to_space(
                        point,
                        candidate.min_bounds.as_slice(),
                        candidate.max_bounds.as_slice(),
                        distance,
                    );
                    let ghost waiting = pending@;
                    proof {
                        assert(placed(onward, next_off, whole));
                        assert(placed(aside, cand_off, whole));
                    }
                    if candidate_to_space <= limit {
                        let item = HeapElement {
                            distance: mirror(candidate_to_space),
                            element: Held { tree: candidate, offset: Ghost(cand_off) },
                        };
                        let ghost lent = lent_tree(item);
                        pending.push(item);
                        proof {
                            lemma_joined(waiting, pending@, item, |x: Waiting<'b, T>| 0nat, range_of::<T>());
                            crate::tally::lemma_mapped_joined(waiting, pending@, item, lend_tree::<T>());
                            lemma_image_ordered(pending@, lend_tree::<T>());
                            super::lemma_passes_waiting(
                                distance,
                                q,
                                k,
                                radius,
                                all,
                                lent_trees(waiting),
                                lent_trees(pending@),
                                kept,
                                rejected,
                                pruned,
                                here.entries(),
                                onward.entries(),
                                extra,
                                &aside,
                                candidate_to_space,
                                lent,
                            );
                            assert(all_placed(pending@, whole)) by {
                                assert forall|x: Waiting<'b, T>| #[trigger] pending@.contains(x) implies placed(
                                    *x.element.tree,
                                    x.element.offset@,
                                    whole,
                                ) by {
                                    assert(waiting.contains(x) || x == item);
                                }
                            }
                            assert(range_of::<T>()(item) == span(cand_off, aside.entries().len()));
                            crate::heap::lemma_pushed_image(waiting, item, lend_tree::<T>());
                            assert(forall|sheet: Seq<T>| #[trigger]
                                agrees(sheet, whole, settled)
                                && (forall|x: Waiting<'b, T>|
                                    pending@.contains(x)
                                        ==> (*final(x.element.tree)).seated(&*x.element.tree, x.element.offset@, sheet))
                                ==> aside_fate.seated(&aside, cand_off, sheet));
                        }
                    } else {
                        proof {
                            super::lemma_passes_pruned(
                                distance,
                                q,
                                k,
                                radius,
                                all,
                                lent_trees(waiting),
                                kept,
                                rejected,
                                pruned,
                                here.entries(),
                                onward.entries(),
                                extra,
                                &aside,
                                candidate_to_space,
                                limit,
                            );
                            pruned = pruned + aside.entries();
                            settled = settled.add(span(cand_off, aside.entries().len()));
                            aside.lemma_same_frame_as_itself();
                        }
                        let_go(candidate);
                        proof {
                            assert forall|sheet: Seq<T>| #[trigger]
                                agrees(sheet, whole, settled)
                                && (forall|x: Waiting<'b, T>|
                                    pending@.contains(x)
                                        ==> (*final(x.element.tree)).seated(&*x.element.tree, x.element.offset@, sheet))
                                implies aside_fate.seated(&aside, cand_off, sheet) by {
                                assert forall|j: int| 0 <= j < aside.entries().len()
                                    implies (#[trigger] aside.entries()[j]).1 == sheet[cand_off + j] by {
                                    broadcast use vstd::multiset::group_multiset_axioms;
                                    lemma_span(cand_off, aside.entries().len(), cand_off + j);
                                    assert(settled.count(cand_off + j) > 0);
                                    assert(aside.entries()[j] == whole.entries()[cand_off + j]);
                                }
                            }
                        }
                    }
                    proof {
                        broadcast use vstd::multiset::group_multiset_axioms;
                        assert(there.min_bounds@ == here.min_bounds@);
                        assert(there.node is Stem);
                        assert(onward_fate.same_frame(&onward) && aside_fate.same_frame(&aside) ==> there.same_frame(
                            &here,
                        ));
                        assert(settled_here.subset_of(settled));
                        assert forall|sheet: Seq<T>| #[trigger]
                            agrees(sheet, whole, settled)
                            && (forall|x: Waiting<'b, T>|
                                pending@.contains(x)
                                    ==> (*final(x.element.tree)).seated(&*x.element.tree, x.element.offset@, sheet))
                            && onward_fate.seated(&onward, next_off, sheet)
                            implies agrees(sheet, whole, settled0)
                            && fate.seated(&origin, off, sheet)
                            && (forall|x: Waiting<'b, T>|
                                before.contains(x)
                                    ==> (*final(x.element.tree)).seated(&*x.element.tree, x.element.offset@, sheet)) by {
                            lemma_agrees_less(sheet, whole, settled, settled_here);
                            assert(aside_fate.seated(&aside, cand_off, sheet));
                            assert(there.entries().len() == here.entries().len());
                            assert forall|j: int| 0 <= j < there.entries().len()
                                implies (#[trigger] there.entries()[j]).1 == sheet[here_off + j] by {
                                assert(j < left_len ==> there.entries()[j] == (there.node->Stem_left).entries()[j]);
                                assert(j >= left_len ==> there.entries()[j] == (there.node->Stem_right).entries()[j - left_len]);
                            }
                            assert(there.seated(&here, here_off, sheet));
                            assert forall|x: Waiting<'b, T>|
                                waiting.contains(x)
                                implies (*final(x.element.tree)).seated(&*x.element.tree, x.element.offset@, sheet) by {
                                assert(pending@.contains(x));
                            }
                        }
                        curr_off = next_off;
                    }
                    proof {
                        super::course::lemma_descent_goes_on(
                            distance,
                            &here,
                            lent_trees(waiting),
                            &origin,
                            lent_trees(before),
                            q,
                            limit,
                            &onward,
                            &aside,
                            candidate_to_space,
                            lent_trees(pending@),
                        );
                    }
                    curr = next;
                },
                Node::Leaf { points, bucket } => {
                    proof {
                        assert(there.min_bounds@ == here.min_bounds@);
                        assert(there.node is Leaf);
                        assert(final(points)@ == points@ && final(bucket)@.len() == bucket@.len() ==> there.same_frame(
                            &here,
                        ));
                        assert(here.nodes() == 1);
                        assert forall|j: int| 0 <= j < points@.len() implies (#[trigger] points@[j])@.len()
                            == q.len() by {
                            assert(held(points@[j]@, here.dimensions as nat, here.min_bounds@, here.max_bounds@));
                        }
                        assert(here.entries() == paired(points@, bucket@));
                        assert forall|sheet: Seq<T>| #[trigger]
                            agrees(sheet, whole, settled)
                            && (forall|x: Waiting<'b, T>|
                                pending@.contains(x)
                                    ==> (*final(x.element.tree)).seated(&*x.element.tree, x.element.offset@, sheet))
                            && final(points)@ == points@
                            && final(bucket)@.len() == bucket@.len()
                            && (forall|j: int|
                                0 <= j < bucket@.len() ==> #[trigger] final(bucket)@[j] == sheet[curr_off + j])
                            implies agrees(sheet, whole, settled0)
                            && fate.seated(&origin, off, sheet)
                            && (forall|x: Waiting<'b, T>|
                                before.contains(x)
                                    ==> (*final(x.element.tree)).seated(&*x.element.tree, x.element.offset@, sheet)) by {
                            assert(there.entries() == paired(final(points)@, final(bucket)@));
                            assert forall|j: int| 0 <= j < there.entries().len()
                                implies (#[trigger] there.entries()[j]).1 == sheet[curr_off + j] by {
                                assert(there.entries()[j].1 == final(bucket)@[j]);
                            }
                            assert(there.seated(&here, curr_off, sheet));
                        }
                    }
                    proof {
                        super::course::lemma_descent_ends(
                            distance,
                            &here,
                            lent_trees(pending@),
                            &origin,
                            lent_trees(before),
                            q,
                            limit,
                        );
                    }
                    return (points, bucket, Ghost(pruned), Ghost(curr_off), Ghost(settled), Ghost(here));
                },
            }
        }
    }
}

/// The entries of a tree from the nearest to a point on.
pub struct NearestIter<'a, T, F: Fn(&[i64], &[i64]) -> i64> {
    inner: NearestWithinRadiusIter<'a, T, F>,
}

impl<'a, T, F: Fn(&[i64], &[i64]) -> i64> NearestIter<'a, T, F> {
    /// The entries of the tree that is searched.
    pub closed spec fn source(&self) -> Seq<(Seq<i64>, T)> {
        self.inner.source()
    }

    /// The point from which distances are taken.
    pub closed spec fn center(&self) -> Seq<i64> {
        self.inner.center()
    }

    /// The distance function.
    pub closed spec fn metric(&self) -> &'a F {
        self.inner.metric()
    }

    /// What has been handed out so far, in that order.
    pub closed spec fn yielded(&self) -> Seq<HeapElement<&'a T>> {
        self.inner.yielded()
    }

    /// The subtrees that wait to be searched, in the order in which the heap
    /// holds them.
    pub closed spec fn waiting(&self) -> Seq<HeapElement<&'a KdTree<T>>> {
        self.inner.waiting()
    }

    /// The entries found that wait to be handed out, in the order in which
    /// the heap holds them.
    pub closed spec fn candidates(&self) -> Seq<HeapElement<&'a T>> {
        self.inner.candidates()
    }

    /// The search is consistent, and no radius limits it.
    pub closed spec fn wf(&self) -> bool {
        self.inner.wf() && self.inner.reach() == i64::MAX
    }

    /// The nearest entry that has not been handed out yet, with its distance;
    /// `None` when there is none left.
    pub fn next(&mut self) -> (r: Option<(i64, &'a T)>)
        requires
            old(self).wf(),
        ensures
            final(self).wf(),
            final(self).source() == old(self).source(),
            final(self).center() == old(self).center(),
            final(self).metric() == old(self).metric(),
            match r {
                Some(pair) => final(self).yielded() == old(self).yielded().push(
                    HeapElement { distance: pair.0, element: pair.1 },
                ),
                None => final(self).yielded() == old(self).yielded(),
            },
            hands_out(
                old(self).metric(),
                old(self).waiting(),
                old(self).candidates(),
                old(self).center(),
                i64::MAX,
                r,
                final(self).waiting(),
                final(self).candidates(),
            ),
            forall|m: Metric| #[trigger]
                measures(old(self).metric(), m) ==> final(self).yielded().to_multiset().subset_of(
                    ranked::<T>(old(self).source(), old(self).center(), m).to_multiset(),
                ),
            forall|m: Metric| #[trigger]
                measures(old(self).metric(), m) && admissible(m) ==> match r {
                    Some(pair) => rest_is_no_nearer(
                        old(self).yielded(),
                        ranked::<T>(old(self).source(), old(self).center(), m).to_multiset(),
                        pair.0,
                    ),
                    None => rest_is_out_of_reach(
                        old(self).yielded(),
                        ranked::<T>(old(self).source(), old(self).center(), m).to_multiset(),
                        i64::MAX,
                    ),
                },
    {
        self.inner.next()
    }
}

impl<T> KdTree<T> {
    /// The entries from the nearest to `point` on, one at a time.
    pub fn iter_nearest<'a, F>(&'a self, point: &'a [i64], distance: &'a F) -> (r: Result<
        NearestIter<'a, T, F>,
        ErrorKind,
    >) where F: Fn(&[i64], &[i64]) -> i64
        requires
            self.wf(),
            callable(distance, self.dims()),
        ensures
            checked(point@, self.dims()) matches Err(e) ==> r == Err::<NearestIter<'a, T, F>, ErrorKind>(e),
            checked(point@, self.dims()) is Ok ==> r is Ok,
            r matches Ok(iter) ==> {
                &&& iter.wf()
                &&& iter.source() == self.entries()
                &&& iter.center() == point@
                &&& iter.metric() == distance
                &&& iter.yielded() == Seq::<HeapElement<&'a T>>::empty()
                &&& iter.waiting() == crate::heap::pushed(
                    Seq::empty(),
                    HeapElement { distance: mirrored(0), element: self },
                )
                &&& iter.candidates() == Seq::<HeapElement<&'a T>>::empty()
            },
    {
        match self.iter_nearest_within_radius(point, None, distance) {
            Ok(inner) => Ok(NearestIter { inner }),
            Err(e) => Err(e),
        }
    }

    /// The entries within `radius` of `point`, from the nearest on, one at a
    /// time. Without a radius, every entry is within it.
    pub fn iter_nearest_within_radius<'a, F>(&'a self, point: &'a [i64], radius: Option<i64>, distance: &'a F) -> (r:
        Result<NearestWithinRadiusIter<'a, T, F>, ErrorKind>) where F: Fn(&[i64], &[i64]) -> i64
        requires
            self.wf(),
            callable(distance, self.dims()),
        ensures
            checked(point@, self.dims()) matches Err(e) ==> r == Err::<NearestWithinRadiusIter<'a, T, F>, ErrorKind>(
                e,
            ),
            checked(point@, self.dims()) is Ok ==> r is Ok,
            r matches Ok(iter) ==> {
                &&& iter.wf()
                &&& iter.source() == self.entries()
                &&& iter.center() == point@
                &&& iter.reach() == match radius {
                    Some(limit) => limit,
                    None => i64::MAX,
                }
                &&& iter.metric() == distance
                &&& iter.yielded() == Seq::<HeapElement<&'a T>>::empty()
                &&& iter.waiting() == crate::heap::pushed(
                    Seq::empty(),
                    HeapElement { distance: mirrored(0), element: self },
                )
                &&& iter.candidates() == Seq::<HeapElement<&'a T>>::empty()
            },
    {
        self.check_point(point)?;
        let mut pending: RankedHeap<&'a KdTree<T>> = RankedHeap::new();
        let evaluated: RankedHeap<&'a T> = RankedHeap::new();
        let seed = HeapElement { distance: mirror(zero()), element: self };
        pending.push(seed);
        let radius = match radius {
            Some(limit) => limit,
            None => max_value(),
        };
        proof {
            lemma_started(self, point@, distance, radius, pending@, seed);
        }
        let iter = NearestWithinRadiusIter {
            point,
            pending,
            evaluated,
            distance,
            radius,
            source: Ghost(self.entries()),
            yielded: Ghost(Seq::empty()),
            far: Ghost(Seq::empty()),
            pruned: Ghost(Seq::empty()),
        };
        Ok(iter)
    }
}

/// The entries of a tree from the nearest to a point on, each with its payload
/// open to change.
pub struct NearestIterMut<'a, T, F: Fn(&[i64], &[i64]) -> i64> {
    inner: NearestWithinRadiusIterMut<'a, T, F>,
}

impl<'a, T, F: Fn(&[i64], &[i64]) -> i64> NearestIterMut<'a, T, F> {
    /// The entries of the tree that is searched, as they were when the search
    /// began.
    pub closed spec fn source(&self) -> Seq<(Seq<i64>, T)> {
        self.inner.source()
    }

    /// The point from which distances are taken.
    pub closed spec fn center(&self) -> Seq<i64> {
        self.inner.center()
    }

    /// The distance function.
    pub closed spec fn metric(&self) -> &'a F {
        self.inner.metric()
    }

    /// What has been handed out so far, in that order: each payload as it was
    /// when it was handed out.
    pub closed spec fn yielded(&self) -> Seq<HeapElement<&'a T>> {
        self.inner.yielded()
    }

    /// The places, among the entries of `origin()`, of the payloads handed out
    /// so far, in that order.
    pub closed spec fn handed(&self) -> Seq<int> {
        self.inner.handed()
    }

    /// The tree as it was when the search began.
    pub closed spec fn origin(&self) -> KdTree<T> {
        self.inner.origin()
    }

    /// The subtrees that wait to be searched.
    pub closed spec fn waiting(&self) -> Seq<Waiting<'a, T>> {
        self.inner.waiting()
    }

    /// The entries found that wait to be handed out.
    pub closed spec fn candidates(&self) -> Seq<Candidate<'a, T>> {
        self.inner.candidates()
    }

    /// Whether `sheet` has the payload of `origin()` at every place that the
    /// search has given back for good.
    pub closed spec fn settled_as_before(&self, sheet: Seq<T>) -> bool {
        self.inner.settled_as_before(sheet)
    }

    /// Whether `sheet` has the payload of `origin()` at every place but those
    /// handed out.
    pub open spec fn kept_elsewhere(&self, sheet: Seq<T>) -> bool {
        forall|i: int|
            0 <= i < self.origin().entries().len() && !self.handed().contains(i) ==> #[trigger] sheet[i]
                == self.origin().entries()[i].1
    }

    /// The search is consistent, and no radius limits it.
    pub closed spec fn wf(&self) -> bool {
        self.inner.wf() && self.inner.reach() == i64::MAX
    }

    /// Once the search is let go, every subtree that still waited and every
    /// candidate comes back as it was: with the payloads of any sheet that has
    /// those of `origin()` at every place but those handed out.
    pub proof fn lemma_given_back(&self, sheet: Seq<T>)
        requires
            self.wf(),
            has_resolved(*self),
            self.kept_elsewhere(sheet),
        ensures
            (forall|x: Waiting<'a, T>|
                self.waiting().contains(x)
                    ==> (*final(x.element.tree)).seated(&*x.element.tree, x.element.offset@, sheet)),
            (forall|c: Candidate<'a, T>| self.candidates().contains(c) ==> *final(c.element.payload) == sheet[c.element.index@]),
            self.settled_as_before(sheet),
    {
        assert(has_resolved(self.inner));
        assert(self.inner.kept_elsewhere(sheet));
        self.inner.lemma_given_back(sheet);
    }

    /// The nearest entry that has not been handed out yet, with its distance
    /// and with its payload open to change; `None` when there is none left.
    ///
    /// The payload handed out is that of an entry of `origin()` that was not
    /// handed out before, the distance is what the distance function returns
    /// for the point of that entry, and the search records the place of the
    /// entry as the last of `handed()`. What the caller writes through it is what the tree holds
    /// there in the end: of any sheet of payloads, if the subtrees and
    /// candidates that still wait come back with the payloads of the sheet,
    /// and the sheet has at the recorded place what the reference holds in the
    /// end, then those that waited before come back with them too.
    pub fn next(&mut self) -> (r: Option<(i64, &'a mut T)>)
        requires
            old(self).wf(),
        ensures
            hands_out(
                old(self).metric(),
                lent_trees(old(self).waiting()),
                lent_items(old(self).candidates()),
                old(self).center(),
                i64::MAX,
                read_of(r),
                lent_trees(final(self).waiting()),
                lent_items(final(self).candidates()),
            ),
            final(self).wf(),
            final(self).source() == old(self).source(),
            final(self).center() == old(self).center(),
            final(self).metric() == old(self).metric(),
            final(self).origin() == old(self).origin(),
            match r {
                Some(pair) => {
                    &&& final(self).yielded() == old(self).yielded().push(
                        HeapElement { distance: pair.0, element: &*pair.1 },
                    )
                    &&& final(self).handed() == old(self).handed().push(final(self).handed().last())
                    &&& 0 <= final(self).handed().last() < old(self).origin().entries().len()
                    &&& !old(self).handed().contains(final(self).handed().last())
                    &&& *pair.1 == old(self).origin().entries()[final(self).handed().last()].1
                    &&& may_return(
                        old(self).metric(),
                        old(self).center(),
                        old(self).origin().entries()[final(self).handed().last()].0,
                        pair.0,
                    )
                },
                None => final(self).yielded() == old(self).yielded() && final(self).handed() == old(self).handed(),
            },
            forall|sheet: Seq<T>| #[trigger]
                final(self).settled_as_before(sheet)
                && (forall|x: Waiting<'a, T>|
                    final(self).waiting().contains(x)
                        ==> (*final(x.element.tree)).seated(&*x.element.tree, x.element.offset@, sheet))
                && (forall|c: Candidate<'a, T>|
                    final(self).candidates().contains(c) ==> *final(c.element.payload) == sheet[c.element.index@])
                && (r matches Some(pair) ==> sheet[final(self).handed().last()] == *final(pair.1))
                ==> old(self).settled_as_before(sheet)
                && (forall|x: Waiting<'a, T>|
                    old(self).waiting().contains(x)
                        ==> (*final(x.element.tree)).seated(&*x.element.tree, x.element.offset@, sheet))
                && (forall|c: Candidate<'a, T>|
                    old(self).candidates().contains(c) ==> *final(c.element.payload) == sheet[c.element.index@]),
            forall|m: Metric| #[trigger]
                measures(old(self).metric(), m) ==> final(self).yielded().to_multiset().subset_of(
                    ranked::<T>(old(self).source(), old(self).center(), m).to_multiset(),
                ),
            forall|m: Metric| #[trigger]
                measures(old(self).metric(), m) && admissible(m) ==> match r {
                    Some(pair) => rest_is_no_nearer(
                        old(self).yielded(),
                        ranked::<T>(old(self).source(), old(self).center(), m).to_multiset(),
                        pair.0,
                    ),
                    None => rest_is_out_of_reach(
                        old(self).yielded(),
                        ranked::<T>(old(self).source(), old(self).center(), m).to_multiset(),
                        i64::MAX,
                    ),
                },
    {
        let r = self.inner.next();
        proof {
            assert forall|sheet: Seq<T>| #[trigger]
                self.settled_as_before(sheet)
                && (forall|x: Waiting<'a, T>|
                    self.waiting().contains(x)
                        ==> (*final(x.element.tree)).seated(&*x.element.tree, x.element.offset@, sheet))
                && (forall|c: Candidate<'a, T>|
                    self.candidates().contains(c) ==> *final(c.element.payload) == sheet[c.element.index@])
                && (r matches Some(pair) ==> sheet[self.handed().last()] == *final(pair.1))
                implies old(self).settled_as_before(sheet)
                && (forall|x: Waiting<'a, T>|
                    old(self).waiting().contains(x)
                        ==> (*final(x.element.tree)).seated(&*x.element.tree, x.element.offset@, sheet))
                && (forall|c: Candidate<'a, T>|
                    old(self).candidates().contains(c) ==> *final(c.element.payload) == sheet[c.element.index@]) by {
                assert(self.inner.settled_as_before(sheet));
                assert(self.inner.waiting() == self.waiting());
                assert(self.inner.candidates() == self.candidates());
                assert(self.inner.handed() == self.handed());
                assert(old(self).inner.waiting() == old(self).waiting());
                assert(old(self).inner.candidates() == old(self).candidates());
                assert(old(self).inner.settled_as_before(sheet));
            }
        }
        r
    }
}

impl<T> KdTree<T> {
    /// The entries from the nearest to `point` on, one at a time, each with
    /// its payload open to change.
    ///
    /// The tree comes back with its frame as it was and with the payloads of
    /// any sheet that the subtrees and candidates of the search come back
    /// with.
    pub fn iter_nearest_mut<'a, F>(&'a mut self, point: &'a [i64], distance: &'a F) -> (r: Result<
        NearestIterMut<'a, T, F>,
        ErrorKind,
    >) where F: Fn(&[i64], &[i64]) -> i64
        requires
            old(self).wf(),
            callable(distance, old(self).dims()),
        ensures
            checked(point@, old(self).dims()) matches Err(e) ==> r == Err::<NearestIterMut<'a, T, F>, ErrorKind>(e),
            checked(point@, old(self).dims()) is Ok ==> r is Ok,
            r is Err ==> *final(self) == *old(self),
            r matches Ok(iter) ==> {
                &&& iter.wf()
                &&& iter.origin() == *old(self)
                &&& forall|sheet: Seq<T>| #[trigger] iter.settled_as_before(sheet)
                    && (forall|x: Waiting<'a, T>|
                        iter.waiting().contains(x)
                            ==> (*final(x.element.tree)).seated(&*x.element.tree, x.element.offset@, sheet))
                    && (forall|c: Candidate<'a, T>|
                        iter.candidates().contains(c) ==> *final(c.element.payload) == sheet[c.element.index@])
                    ==> (*final(self)).seated(&*old(self), 0, sheet)
                &&& iter.source() == old(self).entries()
                &&& iter.center() == point@
                &&& iter.metric() == distance
                &&& iter.yielded() == Seq::<HeapElement<&'a T>>::empty()
                &&& iter.handed() == Seq::<int>::empty()
                &&& lent_trees(iter.waiting()) == crate::heap::pushed(
                    Seq::empty(),
                    HeapElement { distance: mirrored(0), element: &*old(self) },
                )
                &&& iter.candidates() == Seq::<Candidate<'a, T>>::empty()
            },
    {
        let ghost tree: KdTree<T> = *self;
        let ghost fate: KdTree<T> = *final(self);
        match self.iter_nearest_within_radius_mut(point, None, distance) {
            Ok(inner) => {
                let iter = NearestIterMut { inner };
                proof {
                    assert forall|sheet: Seq<T>| #[trigger]
                        iter.settled_as_before(sheet)
                        && (forall|x: Waiting<'a, T>|
                            iter.waiting().contains(x)
                                ==> (*final(x.element.tree)).seated(&*x.element.tree, x.element.offset@, sheet))
                        && (forall|c: Candidate<'a, T>|
                            iter.candidates().contains(c) ==> *final(c.element.payload) == sheet[c.element.index@])
                        implies fate.seated(&tree, 0, sheet) by {
                        assert(iter.inner.settled_as_before(sheet));
                        assert(iter.inner.waiting() == iter.waiting());
                        assert(iter.inner.candidates() == iter.candidates());
                    }
                }
                Ok(iter)
            },
            Err(e) => Err(e),
        }
    }

    /// The entries within `radius` of `point`, from the nearest on, one at a
    /// time, each with its payload open to change. Without a radius, every
    /// entry is within it.
    ///
    /// The tree comes back with its frame as it was and with the payloads of
    /// any sheet that the subtrees and candidates of the search come back
    /// with.
    pub fn iter_nearest_within_radius_mut<'a, F>(
        &'a mut self,
        point: &'a [i64],
        radius: Option<i64>,
        distance: &'a F,
    ) -> (r: Result<NearestWithinRadiusIterMut<'a, T, F>, ErrorKind>) where F: Fn(&[i64], &[i64]) -> i64
        requires
            old(self).wf(),
            callable(distance, old(self).dims()),
        ensures
            checked(point@, old(self).dims()) matches Err(e) ==> r == Err::<
                NearestWithinRadiusIterMut<'a, T, F>,
                ErrorKind,
            >(e),
            checked(point@, old(self).dims()) is Ok ==> r is Ok,
            r is Err ==> *final(self) == *old(self),
            r matches Ok(iter) ==> {
                &&& iter.wf()
                &&& iter.origin() == *old(self)
                &&& forall|sheet: Seq<T>| #[trigger] iter.settled_as_before(sheet)
                    && (forall|x: Waiting<'a, T>|
                        iter.waiting().contains(x)
                            ==> (*final(x.element.tree)).seated(&*x.element.tree, x.element.offset@, sheet))
                    && (forall|c: Candidate<'a, T>|
                        iter.candidates().contains(c) ==> *final(c.element.payload) == sheet[c.element.index@])
                    ==> (*final(self)).seated(&*old(self), 0, sheet)
                &&& iter.source() == old(self).entries()
                &&& iter.center() == point@
                &&& iter.reach() == match radius {
                    Some(limit) => limit,
                    None => i64::MAX,
                }
                &&& iter.metric() == distance
                &&& iter.yielded() == Seq::<HeapElement<&'a T>>::empty()
                &&& iter.handed() == Seq::<int>::empty()
                &&& lent_trees(iter.waiting()) == crate::heap::pushed(
                    Seq::empty(),
                    HeapElement { distance: mirrored(0), element: &*old(self) },
                )
                &&& iter.candidates() == Seq::<Candidate<'a, T>>::empty()
            },
    {
        self.check_point(point)?;
        let ghost tree: KdTree<T> = *self;
        let mut pending: RankedHeap<Held<'a, T>> = RankedHeap::new();
        let evaluated: RankedHeap<Lent<'a, T>> = RankedHeap::new();
        let seed = HeapElement { distance: mirror(zero()), element: Held { tree: self, offset: Ghost(0) } };
        let ghost lent = lent_tree(seed);
        pending.push(seed);
        let radius = match radius {
            Some(limit) => limit,
            None => max_value(),
        };
        proof {
            let none = Seq::<Waiting<'a, T>>::empty();
            crate::tally::lemma_mapped_joined(none, pending@, seed, lend_tree::<T>());
            lemma_image_ordered(pending@, lend_tree::<T>());
            assert(lent_trees(none) =~= Seq::<HeapElement<&'a KdTree<T>>>::empty());
            lemma_started(&tree, point@, distance, radius, lent_trees(pending@), lent);
            assert(lent_items(evaluated@) =~= Seq::<HeapElement<&'a T>>::empty());
            lemma_joined(none, pending@, seed, |x: Waiting<'a, T>| 0nat, range_of::<T>());
            assert(pending@.contains(seed));
            broadcast use vstd::multiset::group_multiset_axioms;
            assert(Seq::<int>::empty().to_multiset() =~= Multiset::<int>::empty()) by {
                broadcast use vstd::seq_lib::to_multiset_contains;
                assert forall|v: int| #[trigger] Seq::<int>::empty().to_multiset().count(v) == 0 by {
                    assert(!Seq::<int>::empty().contains(v));
                }
            }
            assert(tree.entries().subrange(0, tree.entries().len() as int) =~= tree.entries());
            assert(all_placed(pending@, tree)) by {
                assert forall|x: Waiting<'a, T>| #[trigger] pending@.contains(x) implies placed(
                    *x.element.tree,
                    x.element.offset@,
                    tree,
                ) by {
                    assert(x == seed);
                }
            }
            assert(range_of::<T>()(seed) == span(0, tree.entries().len()));
            crate::heap::lemma_pushed_image(none, seed, lend_tree::<T>());
        }
        let iter = NearestWithinRadiusIterMut {
            point,
            pending,
            evaluated,
            distance,
            radius,
            source: Ghost(tree.entries()),
            yielded: Ghost(Seq::empty()),
            far: Ghost(Seq::empty()),
            pruned: Ghost(Seq::empty()),
            origin: Ghost(tree),
            handed: Ghost(Seq::empty()),
            settled: Ghost(Multiset::empty()),
        };
        proof {
            assert(iter.waiting().contains(seed));
            assert(*seed.element.tree == tree);
        }
        Ok(iter)
    }
}

} // verus!
