//! The tree: a leaf holds a bucket of points with their payloads, a stem holds
//! a splitting plane and two subtrees. Every node keeps the box that its
//! points have ever spanned.

pub mod search;

pub use self::search::lazy::NearestIter;
pub use self::search::lazy::NearestIterMut;
pub use self::search::lazy::NearestWithinRadiusIter;
pub use self::search::lazy::NearestWithinRadiusIterMut;

use crate::scalar::all_finite;
use crate::scalar::max_value;
use crate::scalar::min_value;
use crate::util::in_bounding_box;
use crate::util::in_box;
use crate::util::widen;
use crate::util::widened_high;
use crate::util::widened_low;
use vstd::multiset::Multiset;
use vstd::prelude::*;
use vstd::std_specs::cmp::PartialEqSpec;

verus! {

/// Why the tree refused a point.
#[derive(Debug, PartialEq, Eq, Structural, Clone, Copy)]
pub enum ErrorKind {
    /// The point does not have as many coordinates as the tree has dimensions.
    WrongDimension,
    /// A coordinate of the point is one of the two infinities.
    NonFiniteCoordinate,
    /// The tree was made with leaves that hold nothing.
    ZeroCapacity,
}

impl ErrorKind {
    /// The reason in words.
    pub fn message(&self) -> (text: String)
        ensures
            text@ == match self {
                ErrorKind::WrongDimension => "wrong dimension"@,
                ErrorKind::NonFiniteCoordinate => "non-finite coordinate"@,
                ErrorKind::ZeroCapacity => "zero capacity"@,
            },
    {
        match self {
            ErrorKind::WrongDimension => "wrong dimension".to_owned(),
            ErrorKind::NonFiniteCoordinate => "non-finite coordinate".to_owned(),
            ErrorKind::ZeroCapacity => "zero capacity".to_owned(),
        }
    }
}

/// What the tree answers to a point of `dims` dimensions: the first reason to
/// refuse it, if there is one. The number of coordinates is looked at before
/// the coordinates themselves.
pub open spec fn checked(point: Seq<i64>, dims: nat) -> Result<(), ErrorKind> {
    if point.len() != dims {
        Err(ErrorKind::WrongDimension)
    } else if !all_finite(point) {
        Err(ErrorKind::NonFiniteCoordinate)
    } else {
        Ok(())
    }
}

/// Whether a coordinate `x` goes to the left of a plane at `split`, in a node
/// whose box starts at `low` along that axis: strictly below the plane, or, where
/// the plane lies on the box's own side, on it too.
pub open spec fn routes_left(low: i64, split: i64, x: i64) -> bool {
    if low == split {
        x <= split
    } else {
        x < split
    }
}

/// Whether the coordinate `x` goes to the left of a plane at `split`, in a
/// node whose box starts at `low` along the plane's axis.
pub fn belongs_in_left(low: i64, split: i64, x: i64) -> (r: bool)
    ensures
        r == routes_left(low, split, x),
{
    if low == split {
        x <= split
    } else {
        x < split
    }
}

/// Some axis along which the box from `lo` to `hi` has a positive width.
pub open spec fn spread(lo: Seq<i64>, hi: Seq<i64>) -> bool {
    exists|d: int| 0 <= d < lo.len() && lo[d] < #[trigger] hi[d]
}

/// `d` is the first among the axes along which the box from `lo` to `hi` is
/// widest, and the box has a positive width there.
pub open spec fn is_widest(lo: Seq<i64>, hi: Seq<i64>, d: int) -> bool {
    &&& 0 <= d < lo.len()
    &&& lo[d] < hi[d]
    &&& forall|k: int| 0 <= k < d ==> #[trigger] hi[k] - lo[k] < hi[d] - lo[d]
    &&& forall|k: int| d <= k < lo.len() ==> #[trigger] hi[k] - lo[k] <= hi[d] - lo[d]
}

/// The middle of the range from `low` to `high`, rounded towards `low`.
pub open spec fn midpoint(low: i64, high: i64) -> int {
    low + (high - low) / 2
}

/// The total width of the box from `lo` to `hi` over its first `n` axes, an
/// axis along which the box is empty counting for nothing.
pub open spec fn extent_up_to(lo: Seq<i64>, hi: Seq<i64>, n: nat) -> nat
    decreases n,
{
    if n == 0 {
        0
    } else {
        let rest = extent_up_to(lo, hi, (n - 1) as nat);
        if hi[n - 1] > lo[n - 1] {
            rest + (hi[n - 1] - lo[n - 1]) as nat
        } else {
            rest
        }
    }
}

/// The total width of the box from `lo` to `hi`.
pub open spec fn extent(lo: Seq<i64>, hi: Seq<i64>) -> nat {
    extent_up_to(lo, hi, lo.len())
}

proof fn lemma_extent_nested(lo1: Seq<i64>, hi1: Seq<i64>, lo2: Seq<i64>, hi2: Seq<i64>, n: nat)
    requires
        n <= lo1.len(),
        lo1.len() == hi1.len(),
        lo1.len() == lo2.len(),
        lo1.len() == hi2.len(),
        forall|i: int| 0 <= i < n ==> lo2[i] <= #[trigger] lo1[i],
        forall|i: int| 0 <= i < n ==> #[trigger] hi1[i] <= hi2[i],
    ensures
        extent_up_to(lo1, hi1, n) <= extent_up_to(lo2, hi2, n),
    decreases n,
{
    if n > 0 {
        lemma_extent_nested(lo1, hi1, lo2, hi2, (n - 1) as nat);
        assert(lo2[n - 1] <= lo1[n - 1]);
        assert(hi1[n - 1] <= hi2[n - 1]);
    }
}

/// A box nested in another, and narrower along an axis where the other has a
/// positive width, has the smaller total width.
proof fn lemma_extent_shrinks(lo1: Seq<i64>, hi1: Seq<i64>, lo2: Seq<i64>, hi2: Seq<i64>, n: nat, d: int)
    requires
        0 <= d < n <= lo1.len(),
        lo1.len() == hi1.len(),
        lo1.len() == lo2.len(),
        lo1.len() == hi2.len(),
        forall|i: int| 0 <= i < n ==> lo2[i] <= #[trigger] lo1[i],
        forall|i: int| 0 <= i < n ==> #[trigger] hi1[i] <= hi2[i],
        lo2[d] < hi2[d],
        hi1[d] - lo1[d] < hi2[d] - lo2[d],
    ensures
        extent_up_to(lo1, hi1, n) < extent_up_to(lo2, hi2, n),
    decreases n,
{
    assert(lo2[n - 1] <= lo1[n - 1]);
    assert(hi1[n - 1] <= hi2[n - 1]);
    if d == n - 1 {
        lemma_extent_nested(lo1, hi1, lo2, hi2, (n - 1) as nat);
    } else {
        lemma_extent_shrinks(lo1, hi1, lo2, hi2, (n - 1) as nat, d);
    }
}

/// The points of a bucket with their payloads, in the bucket's order.
pub open spec fn paired<T>(points: Seq<Vec<i64>>, bucket: Seq<T>) -> Seq<(Seq<i64>, T)> {
    Seq::new(points.len(), |i: int| (points[i]@, bucket[i]))
}

/// A point that a node with the box from `lo` to `hi` may hold.
pub open spec fn held(p: Seq<i64>, dims: nat, lo: Seq<i64>, hi: Seq<i64>) -> bool {
    &&& p.len() == dims
    &&& all_finite(p)
    &&& in_box(p, lo, hi)
}

/// The box from `lo1` to `hi1` reaches nowhere beyond the box from `lo2` to
/// `hi2`.
pub open spec fn nested(lo1: Seq<i64>, hi1: Seq<i64>, lo2: Seq<i64>, hi2: Seq<i64>) -> bool {
    &&& lo1.len() == lo2.len()
    &&& hi1.len() == hi2.len()
    &&& forall|i: int| 0 <= i < lo1.len() ==> lo2[i] <= #[trigger] lo1[i]
    &&& forall|i: int| 0 <= i < hi1.len() ==> #[trigger] hi1[i] <= hi2[i]
}

/// Whether some point of `entries` has the coordinate `v` along `axis`.
pub open spec fn touched<T>(entries: Seq<(Seq<i64>, T)>, axis: int, v: i64) -> bool {
    exists|i: int| 0 <= i < entries.len() && (#[trigger] entries[i]).0[axis] == v
}

/// Whether the box from `lo` to `hi` is, along `axis`, the hull of the points
/// of `entries`: it holds them all and some point lies on each of its two
/// sides; with no entries it is empty, from plus infinity down to minus
/// infinity.
pub open spec fn hull_along<T>(entries: Seq<(Seq<i64>, T)>, lo: Seq<i64>, hi: Seq<i64>, axis: int) -> bool {
    if entries.len() == 0 {
        lo[axis] == i64::MAX && hi[axis] == i64::MIN
    } else {
        &&& forall|i: int| 0 <= i < entries.len() ==> lo[axis] <= (#[trigger] entries[i]).0[axis] <= hi[axis]
        &&& touched(entries, axis, lo[axis])
        &&& touched(entries, axis, hi[axis])
    }
}

/// Whether the box from `lo` to `hi` is the hull of the points of `entries`
/// along every axis.
pub open spec fn hull<T>(entries: Seq<(Seq<i64>, T)>, lo: Seq<i64>, hi: Seq<i64>) -> bool {
    forall|axis: int| 0 <= axis < lo.len() ==> #[trigger] hull_along(entries, lo, hi, axis)
}

/// Whether an entry goes to the left of a plane at `split` across `axis`, in a
/// node whose box starts at `low` along that axis.
pub open spec fn goes_left<T>(low: i64, split: i64, axis: int) -> spec_fn((Seq<i64>, T)) -> bool {
    |e: (Seq<i64>, T)| routes_left(low, split, e.0[axis])
}

/// Whether an entry goes to the right of a plane at `split` across `axis`, in
/// a node whose box starts at `low` along that axis.
pub open spec fn goes_right<T>(low: i64, split: i64, axis: int) -> spec_fn((Seq<i64>, T)) -> bool {
    |e: (Seq<i64>, T)| !routes_left(low, split, e.0[axis])
}

/// Whether an entry is at `point` with a payload equal to `data`.
pub open spec fn matching<T: PartialEq>(point: Seq<i64>, data: &T) -> spec_fn((Seq<i64>, T)) -> bool {
    |e: (Seq<i64>, T)| e.0 == point && e.1.eq_spec(data)
}

/// Whether an entry is elsewhere than at `point`, or has a payload other than
/// `data`.
pub open spec fn other_than<T: PartialEq>(point: Seq<i64>, data: &T) -> spec_fn((Seq<i64>, T)) -> bool {
    |e: (Seq<i64>, T)| !(e.0 == point && e.1.eq_spec(data))
}

/// The payloads of those of `entries` that lie in the box from `lo` to `hi`.
pub open spec fn boxed<'a, T>(entries: Seq<(Seq<i64>, T)>, lo: Seq<i64>, hi: Seq<i64>) -> Seq<&'a T> {
    entries.filter(|e: (Seq<i64>, T)| in_box(e.0, lo, hi)).map_values(|e: (Seq<i64>, T)| &e.1)
}

/// The order in which a split deals the elements of a bucket out: the first,
/// then on with the last in its place.
pub open spec fn dealt<A>(s: Seq<A>) -> Seq<A>
    decreases s.len(),
{
    if s.len() == 0 {
        Seq::empty()
    } else {
        seq![s[0]] + dealt(s.update(0, s.last()).drop_last())
    }
}

/// What is kept of a sequence with one more element: that element too, if it
/// is to be kept.
proof fn lemma_filter_push<A>(s: Seq<A>, x: A, keep: spec_fn(A) -> bool)
    ensures
        s.push(x).filter(keep) == (if keep(x) {
            s.filter(keep).push(x)
        } else {
            s.filter(keep)
        }),
{
    reveal(Seq::filter);
    assert(s.push(x).drop_last() =~= s);
}

proof fn lemma_swap_remove_first<A>(s: Seq<A>)
    requires
        s.len() > 0,
    ensures
        s.update(0, s.last()).drop_last().to_multiset() =~= s.to_multiset().remove(s[0]),
{
    broadcast use vstd::seq_lib::to_multiset_update;
    broadcast use vstd::seq_lib::to_multiset_contains;
    broadcast use vstd::seq_lib::to_multiset_len;
    broadcast use vstd::multiset::group_multiset_axioms;
    let t = s.update(0, s.last());
    assert(t.len() == s.len());
    assert(s.to_multiset().contains(s[0]));
    if s.len() == 1 {
        assert(t.drop_last() =~= Seq::<A>::empty());
        assert(t.drop_last().to_multiset().len() == 0);
        assert(s.to_multiset().len() == 1);
        assert(s.to_multiset().remove(s[0]).len() == 0);
        assert(t.drop_last().to_multiset() =~= Multiset::<A>::empty());
        assert(s.to_multiset().remove(s[0]) =~= Multiset::<A>::empty());
    } else {
        assert(t.to_multiset() =~= s.to_multiset().insert(s.last()).remove(s[0]));
        assert(t.drop_last().push(t.last()) =~= t);
        vstd::seq_lib::to_multiset_build(t.drop_last(), t.last());
        assert(t.last() == s.last());
        assert(t.to_multiset() =~= t.drop_last().to_multiset().insert(s.last()));
        assert(t.drop_last().to_multiset() =~= t.to_multiset().remove(s.last()));
    }
}

pub(crate) proof fn lemma_empty_multiset<A>()
    ensures
        Seq::<A>::empty().to_multiset() =~= Multiset::<A>::empty(),
{
    broadcast use vstd::seq_lib::to_multiset_len;
    broadcast use vstd::multiset::group_multiset_axioms;
    assert(Seq::<A>::empty().to_multiset().len() == 0);
}

#[derive(Debug)]
enum Node<T> {
    Leaf { points: Vec<Vec<i64>>, bucket: Vec<T> },
    Stem { split_dimension: usize, split_value: i64, left: Box<KdTree<T>>, right: Box<KdTree<T>> },
}

/// A tree over points of a fixed number of dimensions, each with a payload.
#[derive(Debug)]
pub struct KdTree<T> {
    dimensions: usize,
    capacity: usize,
    size: usize,
    min_bounds: Vec<i64>,
    max_bounds: Vec<i64>,
    node: Node<T>,
}

impl<T> KdTree<T> {
    /// The number of coordinates of every point.
    pub closed spec fn dims(&self) -> nat {
        self.dimensions as nat
    }

    /// The number of points that a leaf holds before it splits.
    pub closed spec fn leaf_capacity(&self) -> nat {
        self.capacity as nat
    }

    /// The lower corner of the box that the points have spanned.
    pub closed spec fn lower(&self) -> Seq<i64> {
        self.min_bounds@
    }

    /// The upper corner of the box that the points have spanned.
    pub closed spec fn upper(&self) -> Seq<i64> {
        self.max_bounds@
    }

    /// Whether the node is a leaf: it holds its points itself.
    pub closed spec fn leaf(&self) -> bool {
        self.node is Leaf
    }

    /// The axis of a stem's plane.
    pub closed spec fn split_axis(&self) -> int {
        match self.node {
            Node::Stem { split_dimension, .. } => split_dimension as int,
            Node::Leaf { .. } => 0,
        }
    }

    /// Where a stem's plane cuts its axis.
    pub closed spec fn split_at(&self) -> i64 {
        match self.node {
            Node::Stem { split_value, .. } => split_value,
            Node::Leaf { .. } => 0,
        }
    }

    /// The subtree of a stem on the low side of its plane.
    pub closed spec fn left(&self) -> KdTree<T> {
        match self.node {
            Node::Stem { left, .. } => *left,
            Node::Leaf { .. } => *self,
        }
    }

    /// The subtree of a stem on the high side of its plane.
    pub closed spec fn right(&self) -> KdTree<T> {
        match self.node {
            Node::Stem { right, .. } => *right,
            Node::Leaf { .. } => *self,
        }
    }

    /// Every point with its payload: a leaf's in the order of its bucket, a
    /// stem's left subtree before its right one.
    pub closed spec fn entries(&self) -> Seq<(Seq<i64>, T)>
        decreases self,
    {
        match self.node {
            Node::Leaf { points, bucket } => paired(points@, bucket@),
            Node::Stem { left, right, .. } => left.entries() + right.entries(),
        }
    }

    /// The tree is consistent: the boxes are nested and hold the points, the
    /// sizes add up, and the subtrees of a stem lie on their sides of its plane.
    pub closed spec fn wf(&self) -> bool
        decreases self,
    {
        &&& self.min_bounds@.len() == self.dimensions
        &&& self.max_bounds@.len() == self.dimensions
        &&& match self.node {
            Node::Leaf { points, bucket } => {
                &&& points@.len() == self.size
                &&& bucket@.len() == self.size
                &&& forall|i: int|
                    0 <= i < points@.len() ==> held(
                        (#[trigger] points@[i])@,
                        self.dimensions as nat,
                        self.min_bounds@,
                        self.max_bounds@,
                    )
            },
            Node::Stem { split_dimension, split_value, left, right } => {
                &&& split_dimension < self.dimensions
                &&& self.min_bounds@[split_dimension as int] <= split_value
                &&& split_value < self.max_bounds@[split_dimension as int]
                &&& left.wf()
                &&& right.wf()
                &&& left.dimensions == self.dimensions
                &&& right.dimensions == self.dimensions
                &&& left.capacity == self.capacity
                &&& right.capacity == self.capacity
                &&& self.size == left.size + right.size
                &&& nested(left.min_bounds@, left.max_bounds@, self.min_bounds@, self.max_bounds@)
                &&& nested(right.min_bounds@, right.max_bounds@, self.min_bounds@, self.max_bounds@)
                &&& left.max_bounds@[split_dimension as int] <= split_value
                &&& right.min_bounds@[split_dimension as int] >= split_value
                &&& self.min_bounds@[split_dimension as int] == split_value ==> right.min_bounds@[split_dimension as int]
                    > split_value
            },
        }
    }

    /// The size of a well-formed tree is the number of its entries.
    proof fn lemma_size(&self)
        requires
            self.wf(),
        ensures
            self.entries().len() == self.size,
        decreases self,
    {
        match self.node {
            Node::Leaf { points, bucket } => {},
            Node::Stem { left, right, .. } => {
                left.lemma_size();
                right.lemma_size();
            },
        }
    }

    /// A tree with leaves of 16 points.
    pub fn new(dims: usize) -> (tree: Self)
        ensures
            tree.wf(),
            tree.leaf(),
            tree.dims() == dims,
            tree.leaf_capacity() == 16,
            tree.entries() == Seq::<(Seq<i64>, T)>::empty(),
            tree.lower() == Seq::new(dims as nat, |i: int| i64::MAX),
            tree.upper() == Seq::new(dims as nat, |i: int| i64::MIN),
    {
        KdTree::with_capacity(dims, 16)
    }

    /// An empty tree over points of `dimensions` coordinates, whose leaves split
    /// when they hold more than `capacity` points. Its box is empty: from plus
    /// infinity down to minus infinity along every axis.
    pub fn with_capacity(dimensions: usize, capacity: usize) -> (tree: Self)
        ensures
            tree.wf(),
            tree.leaf(),
            tree.dims() == dimensions,
            tree.leaf_capacity() == capacity,
            tree.entries() == Seq::<(Seq<i64>, T)>::empty(),
            tree.lower() == Seq::new(dimensions as nat, |i: int| i64::MAX),
            tree.upper() == Seq::new(dimensions as nat, |i: int| i64::MIN),
    {
        let mut min_bounds: Vec<i64> = Vec::new();
        let mut max_bounds: Vec<i64> = Vec::new();
        let mut i: usize = 0;
        while i < dimensions
            invariant
                i <= dimensions,
                min_bounds@.len() == i,
                max_bounds@.len() == i,
                forall|k: int| 0 <= k < i ==> #[trigger] min_bounds@[k] == i64::MAX,
                forall|k: int| 0 <= k < i ==> #[trigger] max_bounds@[k] == i64::MIN,
            decreases dimensions - i,
        {
            min_bounds.push(max_value());
            max_bounds.push(min_value());
            i += 1;
        }
        let tree = KdTree {
            dimensions,
            capacity,
            size: 0,
            min_bounds,
            max_bounds,
            node: Node::Leaf { points: Vec::new(), bucket: Vec::new() },
        };
        assert(tree.entries() =~= Seq::<(Seq<i64>, T)>::empty());
        assert(tree.lower() =~= Seq::new(dimensions as nat, |i: int| i64::MAX));
        assert(tree.upper() =~= Seq::new(dimensions as nat, |i: int| i64::MIN));
        tree
    }

    /// The number of points in the tree.
    pub fn size(&self) -> (n: usize)
        requires
            self.wf(),
        ensures
            n == self.entries().len(),
    {
        proof {
            self.lemma_size();
        }
        self.size
    }

    /// Whether the tree is a single leaf.
    pub fn is_leaf(&self) -> (r: bool)
        ensures
            r == self.leaf(),
    {
        match &self.node {
            Node::Leaf { .. } => true,
            Node::Stem { .. } => false,
        }
    }

    /// Adds `point` with the payload `data`. A tree whose leaves hold nothing
    /// refuses every point; otherwise a point is refused for the wrong number
    /// of coordinates, or else for an infinite one. A refused point leaves the
    /// tree as it was.
    ///
    /// An accepted point widens the box of every node on its way down. A leaf
    /// that then holds more than its capacity becomes a stem, unless its box
    /// has no width along any axis: the plane cuts the first widest axis of the
    /// box in the middle.
    pub fn add(&mut self, point: &[i64], data: T) -> (r: Result<(), ErrorKind>)
        requires
            old(self).wf(),
            old(self).entries().len() < usize::MAX,
        ensures
            final(self).wf(),
            final(self).dims() == old(self).dims(),
            final(self).leaf_capacity() == old(self).leaf_capacity(),
            r == (if old(self).leaf_capacity() == 0 {
                Err(ErrorKind::ZeroCapacity)
            } else {
                checked(point@, old(self).dims())
            }),
            r is Err ==> *final(self) == *old(self),
            r is Ok ==> final(self).grown(old(self), point@, data) && final(self).descended(
                old(self),
                point@,
                data,
            ),
    {
        if self.capacity == 0 {
            return Err(ErrorKind::ZeroCapacity);
        }
        self.check_point(point)?;
        proof {
            self.lemma_size();
        }
        self.add_unchecked(vstd::slice::slice_to_vec(point), data);
        Ok(())
    }

    /// How a tree `self` comes from `before` by taking in `point` with `data`.
    pub open spec fn grown(&self, before: &Self, point: Seq<i64>, data: T) -> bool {
        &&& self.dims() == before.dims()
        &&& self.leaf_capacity() == before.leaf_capacity()
        &&& self.entries().len() == before.entries().len() + 1
        &&& self.entries().to_multiset() =~= before.entries().to_multiset().insert((point, data))
        &&& self.lower() == widened_low(before.lower(), point)
        &&& self.upper() == widened_high(before.upper(), point)
        &&& before.leaf() && before.entries().len() < before.leaf_capacity() ==> self.leaf()
        &&& before.leaf() && self.leaf() ==> self.entries() == before.entries().push((point, data))
        &&& before.leaf() && before.entries().len() >= before.leaf_capacity() ==> (self.leaf() <==> !spread(
            self.lower(),
            self.upper(),
        ))
        &&& before.leaf() && !self.leaf() ==> self.halved() && self.dealt_out(before.entries().push((point, data)))
        &&& !before.leaf() ==> !self.leaf()
    }

    /// A side of a stem that is a leaf holds, of the entries `all` of the leaf
    /// that was split, those routed to it, in the order in which the split
    /// deals them out.
    pub open spec fn dealt_out(&self, all: Seq<(Seq<i64>, T)>) -> bool {
        let axis = self.split_axis();
        let low = self.lower()[axis];
        &&& self.left().leaf() ==> self.left().entries() == dealt(all).filter(goes_left::<T>(low, self.split_at(), axis))
        &&& self.right().leaf() ==> self.right().entries() == dealt(all).filter(
            goes_right::<T>(low, self.split_at(), axis),
        )
    }

    /// A stem's plane cuts the first widest axis of its box in the middle, and
    /// each of its entries is on the side to which the plane routes it. The box
    /// of each side is the hull of the entries there, and a side with no more
    /// entries than a leaf may hold is a leaf. Unless the plane lies on the
    /// lower side of the box, the left side ends before the plane.
    pub open spec fn halved(&self) -> bool {
        let axis = self.split_axis();
        let low = self.lower()[axis];
        &&& is_widest(self.lower(), self.upper(), axis)
        &&& self.split_at() == midpoint(low, self.upper()[axis])
        &&& self.left().entries().to_multiset() =~= self.entries().to_multiset().filter(
            goes_left::<T>(low, self.split_at(), axis),
        )
        &&& self.right().entries().to_multiset() =~= self.entries().to_multiset().filter(
            goes_right::<T>(low, self.split_at(), axis),
        )
        &&& self.left().snug()
        &&& self.right().snug()
        &&& self.left().entries().len() <= self.leaf_capacity() ==> self.left().leaf()
        &&& self.right().entries().len() <= self.leaf_capacity() ==> self.right().leaf()
        &&& low < self.split_at() ==> self.left().upper()[axis] < self.split_at()
    }

    /// Whether the box of the tree is the hull of its entries.
    pub open spec fn snug(&self) -> bool {
        hull(self.entries(), self.lower(), self.upper())
    }

    /// A tree whose box is the hull of its entries keeps such a box when it
    /// takes a point in.
    pub proof fn lemma_grown_snug(&self, before: &Self, point: Seq<i64>, data: T)
        requires
            before.wf(),
            before.snug(),
            self.grown(before, point, data),
        ensures
            self.snug(),
    {
        broadcast use vstd::seq_lib::to_multiset_contains;
        broadcast use vstd::multiset::group_multiset_axioms;

        let was = before.entries();
        let now = self.entries();
        let e = (point, data);
        let lo = self.lower();
        let hi = self.upper();
        assert(now.to_multiset().count(e) > 0);
        assert(now.contains(e));
        let at = choose|i: int| 0 <= i < now.len() && now[i] == e;
        assert forall|axis: int| 0 <= axis < lo.len() implies #[trigger] hull_along(now, lo, hi, axis) by {
            assert(hull_along(was, before.lower(), before.upper(), axis));
            assert forall|i: int| 0 <= i < now.len() implies lo[axis] <= (#[trigger] now[i]).0[axis] <= hi[axis] by {
                assert(now.contains(now[i]));
                assert(now.to_multiset().count(now[i]) > 0);
                if now[i] != e {
                    assert(was.to_multiset().count(now[i]) > 0);
                    assert(was.contains(now[i]));
                    let j = choose|j: int| 0 <= j < was.len() && was[j] == now[i];
                    assert(before.lower()[axis] <= was[j].0[axis] <= before.upper()[axis]);
                }
            }
            if was.len() > 0 && !(point[axis] < before.lower()[axis]) {
                let j = choose|j: int| 0 <= j < was.len() && (#[trigger] was[j]).0[axis] == before.lower()[axis];
                assert(was.contains(was[j]));
                assert(now.to_multiset().count(was[j]) > 0);
                assert(now.contains(was[j]));
                let k = choose|k: int| 0 <= k < now.len() && now[k] == was[j];
                assert(now[k].0[axis] == lo[axis]);
            } else {
                assert(now[at].0[axis] == lo[axis]);
            }
            if was.len() > 0 && !(point[axis] > before.upper()[axis]) {
                let j = choose|j: int| 0 <= j < was.len() && (#[trigger] was[j]).0[axis] == before.upper()[axis];
                assert(was.contains(was[j]));
                assert(now.to_multiset().count(was[j]) > 0);
                assert(now.contains(was[j]));
                let k = choose|k: int| 0 <= k < now.len() && now[k] == was[j];
                assert(now[k].0[axis] == hi[axis]);
            } else {
                assert(now[at].0[axis] == hi[axis]);
            }
        }
    }

    /// How the point of `grown` went down: at every stem on its way, to the
    /// side to which the plane routes it in the widened box, the plane and the
    /// other side staying as they were; and so on from there.
    pub closed spec fn descended(&self, before: &Self, point: Seq<i64>, data: T) -> bool
        decreases before,
    {
        &&& self.grown(before, point, data)
        &&& match before.node {
            Node::Leaf { .. } => true,
            Node::Stem { split_dimension, split_value, left, right } => match self.node {
                Node::Leaf { .. } => false,
                Node::Stem { split_dimension: axis, split_value: at, left: new_left, right: new_right } => {
                    &&& axis == split_dimension
                    &&& at == split_value
                    &&& if routes_left(
                        self.min_bounds@[split_dimension as int],
                        split_value,
                        point[split_dimension as int],
                    ) {
                        new_left.descended(&*left, point, data) && *new_right == *right
                    } else {
                        new_right.descended(&*right, point, data) && *new_left == *left
                    }
                },
            },
        }
    }

    /// What `descended` says: the tree has grown; and at a stem the plane
    /// stays, the subtree on the side to which the plane routes the point has
    /// grown and descended in its turn, and the other side stays.
    pub proof fn lemma_descended(&self, before: &Self, point: Seq<i64>, data: T)
        requires
            self.descended(before, point, data),
        ensures
            self.grown(before, point, data),
            !before.leaf() ==> {
                &&& !self.leaf()
                &&& self.split_axis() == before.split_axis()
                &&& self.split_at() == before.split_at()
                &&& routes_left(self.lower()[self.split_axis()], self.split_at(), point[self.split_axis()]) ==> {
                    &&& self.left().descended(&before.left(), point, data)
                    &&& self.left().grown(&before.left(), point, data)
                    &&& self.right() == before.right()
                }
                &&& !routes_left(self.lower()[self.split_axis()], self.split_at(), point[self.split_axis()]) ==> {
                    &&& self.right().descended(&before.right(), point, data)
                    &&& self.right().grown(&before.right(), point, data)
                    &&& self.left() == before.left()
                }
            },
    {
    }

    fn add_unchecked(&mut self, point: Vec<i64>, data: T)
        requires
            old(self).wf(),
            old(self).capacity > 0,
            old(self).size < usize::MAX,
            point@.len() == old(self).dimensions,
            all_finite(point@),
        ensures
            final(self).wf(),
            final(self).dimensions == old(self).dimensions,
            final(self).capacity == old(self).capacity,
            final(self).size == old(self).size + 1,
            final(self).grown(old(self), point@, data),
            final(self).descended(old(self), point@, data),
        decreases extent(widened_low(old(self).min_bounds@, point@), widened_high(old(self).max_bounds@, point@)), 2int,
    {
        if self.is_leaf() {
            self.add_to_bucket(point, data);
            return ;
        }
        let ghost before = *self;
        widen(&mut self.min_bounds, &mut self.max_bounds, point.as_slice());
        self.size += 1;
        match &mut self.node {
            Node::Stem { split_dimension, split_value, left, right } => {
                let d = *split_dimension;
                let go_left = belongs_in_left(self.min_bounds[d], *split_value, point[d]);
                proof {
                    before.left().lemma_size();
                    before.right().lemma_size();
                    let lo = self.min_bounds@;
                    let hi = self.max_bounds@;
                    if go_left {
                        let clo = widened_low(left.min_bounds@, point@);
                        let chi = widened_high(left.max_bounds@, point@);
                        lemma_extent_shrinks(clo, chi, lo, hi, lo.len(), d as int);
                    } else {
                        let clo = widened_low(right.min_bounds@, point@);
                        let chi = widened_high(right.max_bounds@, point@);
                        lemma_extent_shrinks(clo, chi, lo, hi, lo.len(), d as int);
                    }
                }
                if go_left {
                    left.add_unchecked(point, data);
                } else {
                    right.add_unchecked(point, data);
                }
            },
            Node::Leaf { .. } => {},
        }
        proof {
            let l0 = before.left().entries();
            let r0 = before.right().entries();
            vstd::seq_lib::lemma_multiset_commutative(l0, r0);
            vstd::seq_lib::lemma_multiset_commutative(self.left().entries(), self.right().entries());
            before.lemma_size();
            self.lemma_size();
        }
    }

    fn add_to_bucket(&mut self, point: Vec<i64>, data: T)
        requires
            old(self).wf(),
            old(self).node is Leaf,
            old(self).capacity > 0,
            old(self).size < usize::MAX,
            point@.len() == old(self).dimensions,
            all_finite(point@),
        ensures
            final(self).wf(),
            final(self).dimensions == old(self).dimensions,
            final(self).capacity == old(self).capacity,
            final(self).size == old(self).size + 1,
            final(self).grown(old(self), point@, data),
        decreases extent(widened_low(old(self).min_bounds@, point@), widened_high(old(self).max_bounds@, point@)), 1int,
    {
        let ghost before = *self;
        let ghost p = point@;
        widen(&mut self.min_bounds, &mut self.max_bounds, point.as_slice());
        match &mut self.node {
            Node::Leaf { points, bucket } => {
                points.push(point);
                bucket.push(data);
            },
            Node::Stem { .. } => {},
        }
        self.size += 1;
        proof {
            assert(self.entries() =~= before.entries().push((p, data)));
            vstd::seq_lib::to_multiset_build(before.entries(), (p, data));
            assert(self.wf()) by {
                match self.node {
                    Node::Leaf { points, bucket } => {
                        assert forall|i: int| 0 <= i < points@.len() implies held(
                            (#[trigger] points@[i])@,
                            self.dimensions as nat,
                            self.min_bounds@,
                            self.max_bounds@,
                        ) by {
                            if i < points@.len() - 1 {
                                assert(held(
                                    before.node->Leaf_points@[i]@,
                                    before.dimensions as nat,
                                    before.min_bounds@,
                                    before.max_bounds@,
                                ));
                            }
                        }
                    },
                    Node::Stem { .. } => {},
                }
            }
        }
        if self.size > self.capacity {
            self.split();
        } else {
            assert(!(before.entries().len() >= before.leaf_capacity()));
        }
        proof {
            before.lemma_size();
            self.lemma_size();
        }
    }

    fn split(&mut self)
        requires
            old(self).wf(),
            old(self).node is Leaf,
            old(self).capacity > 0,
        ensures
            final(self).wf(),
            final(self).dimensions == old(self).dimensions,
            final(self).capacity == old(self).capacity,
            final(self).size == old(self).size,
            final(self).min_bounds@ == old(self).min_bounds@,
            final(self).max_bounds@ == old(self).max_bounds@,
            final(self).entries().to_multiset() =~= old(self).entries().to_multiset(),
            final(self).leaf() <==> !spread(old(self).min_bounds@, old(self).max_bounds@),
            final(self).leaf() ==> *final(self) == *old(self),
            !final(self).leaf() ==> final(self).halved() && final(self).dealt_out(old(self).entries()),
        decreases extent(old(self).min_bounds@, old(self).max_bounds@), 0int,
    {
        let ghost before = *self;
        let ghost lo = self.min_bounds@;
        let ghost hi = self.max_bounds@;
        let mut best: i128 = crate::scalar::zero() as i128;
        let mut split_dimension: Option<usize> = None;
        let mut dim: usize = 0;
        while dim < self.dimensions
            invariant
                dim <= self.dimensions,
                *self == before,
                lo == self.min_bounds@,
                hi == self.max_bounds@,
                lo.len() == self.dimensions,
                hi.len() == self.dimensions,
                0 <= best,
                split_dimension is None ==> best == 0 && forall|k: int| 0 <= k < dim ==> #[trigger] hi[k] - lo[k] <= 0,
                split_dimension matches Some(d) ==> {
                    &&& d < dim
                    &&& best == hi[d as int] - lo[d as int]
                    &&& best > 0
                    &&& forall|k: int| 0 <= k < d ==> #[trigger] hi[k] - lo[k] < best
                    &&& forall|k: int| d <= k < dim ==> #[trigger] hi[k] - lo[k] <= best
                },
            decreases self.dimensions - dim,
        {
            let diff: i128 = self.max_bounds[dim] as i128 - self.min_bounds[dim] as i128;
            if diff > best {
                best = diff;
                split_dimension = Some(dim);
            }
            dim += 1;
        }
        let d = match split_dimension {
            None => {
                assert(!spread(lo, hi)) by {
                    if spread(lo, hi) {
                        let k = choose|k: int| 0 <= k < lo.len() && lo[k] < #[trigger] hi[k];
                        assert(hi[k] - lo[k] <= 0);
                    }
                }
                return ;
            },
            Some(d) => d,
        };
        assert(is_widest(lo, hi, d as int));
        assert(spread(lo, hi));
        let low: i64 = self.min_bounds[d];
        let high: i64 = self.max_bounds[d];
        let split_value: i64 = (low as i128 + (high as i128 - low as i128) / 2) as i64;
        assert(split_value == midpoint(low, high));
        assert(low <= split_value < high);
        let mut taken: Node<T> = Node::Leaf { points: Vec::new(), bucket: Vec::new() };
        core::mem::swap(&mut self.node, &mut taken);
        let mut left: KdTree<T> = KdTree::with_capacity(self.dimensions, self.capacity);
        let mut right: KdTree<T> = KdTree::with_capacity(self.dimensions, self.capacity);
        match taken {
            Node::Leaf { points, bucket } => {
                let mut points = points;
                let mut bucket = bucket;
                let ghost all = paired(points@, bucket@);
                let ghost mut taken: Seq<(Seq<i64>, T)> = Seq::empty();
                proof {
                    left.lemma_size();
                    right.lemma_size();
                    lemma_empty_multiset::<(Seq<i64>, T)>();
                    assert(taken + dealt(all) =~= dealt(all));
                    reveal(Seq::filter);
                }
                while points.len() > 0
                    invariant
                        taken + dealt(paired(points@, bucket@)) == dealt(all),
                        left.leaf() ==> left.entries() == taken.filter(goes_left::<T>(low, split_value, d as int)),
                        right.leaf() ==> right.entries() == taken.filter(goes_right::<T>(low, split_value, d as int)),
                        before == *old(self),
                        self.dimensions == before.dimensions,
                        self.capacity == before.capacity,
                        self.capacity > 0,
                        self.size == before.size,
                        self.min_bounds@ == lo,
                        self.max_bounds@ == hi,
                        lo.len() == self.dimensions,
                        hi.len() == self.dimensions,
                        d < self.dimensions,
                        low == lo[d as int],
                        high == hi[d as int],
                        low <= split_value < high,
                        points@.len() == bucket@.len(),
                        forall|i: int|
                            0 <= i < points@.len() ==> held((#[trigger] points@[i])@, self.dimensions as nat, lo, hi),
                        left.wf(),
                        right.wf(),
                        left.dimensions == self.dimensions,
                        right.dimensions == self.dimensions,
                        left.capacity == self.capacity,
                        right.capacity == self.capacity,
                        left.size + right.size + points@.len() == before.size,
                        nested(left.min_bounds@, left.max_bounds@, lo, hi),
                        nested(right.min_bounds@, right.max_bounds@, lo, hi),
                        left.max_bounds@[d as int] <= split_value,
                        right.min_bounds@[d as int] >= split_value,
                        low == split_value ==> right.min_bounds@[d as int] > split_value,
                        low < split_value ==> left.max_bounds@[d as int] < split_value,
                        left.snug(),
                        right.snug(),
                        left.entries().len() <= self.capacity ==> left.leaf(),
                        right.entries().len() <= self.capacity ==> right.leaf(),
                        left.entries().to_multiset().add(right.entries().to_multiset()).add(
                            paired(points@, bucket@).to_multiset(),
                        ) =~= all.to_multiset(),
                        left.entries().to_multiset() =~= all.to_multiset().sub(
                            paired(points@, bucket@).to_multiset(),
                        ).filter(goes_left::<T>(low, split_value, d as int)),
                        right.entries().to_multiset() =~= all.to_multiset().sub(
                            paired(points@, bucket@).to_multiset(),
                        ).filter(goes_right::<T>(low, split_value, d as int)),
                        extent(lo, hi) == extent(before.min_bounds@, before.max_bounds@),
                    decreases points@.len(),
                {
                    let ghost rest = paired(points@, bucket@);
                    proof {
                        lemma_swap_remove_first(rest);
                        assert(held(points@[0]@, self.dimensions as nat, lo, hi));
                        assert(held(points@.last()@, self.dimensions as nat, lo, hi));
                    }
                    let point = points.swap_remove(0);
                    let data = bucket.swap_remove(0);
                    assert(paired(points@, bucket@) =~= rest.update(0, rest.last()).drop_last());
                    let go_left = belongs_in_left(low, split_value, point[d]);
                    proof {
                        assert(lo[d as int] <= point@[d as int] <= hi[d as int]);
                        if go_left {
                            let clo = widened_low(left.min_bounds@, point@);
                            let chi = widened_high(left.max_bounds@, point@);
                            lemma_extent_shrinks(clo, chi, lo, hi, lo.len(), d as int);
                        } else {
                            let clo = widened_low(right.min_bounds@, point@);
                            let chi = widened_high(right.max_bounds@, point@);
                            lemma_extent_shrinks(clo, chi, lo, hi, lo.len(), d as int);
                        }
                    }
                    let ghost l0 = left.entries().to_multiset();
                    let ghost r0 = right.entries().to_multiset();
                    let ghost left_was = left;
                    let ghost right_was = right;
                    if go_left {
                        left.add_unchecked(point, data);
                    } else {
                        right.add_unchecked(point, data);
                    }
                    proof {
                        if go_left {
                            left.lemma_grown_snug(&left_was, point@, data);
                        } else {
                            right.lemma_grown_snug(&right_was, point@, data);
                        }
                        let e = (point@, data);
                        assert(rest[0] == e);
                        assert(taken.push(e) + dealt(paired(points@, bucket@)) =~= taken + dealt(rest));
                        lemma_filter_push(taken, e, goes_left::<T>(low, split_value, d as int));
                        lemma_filter_push(taken, e, goes_right::<T>(low, split_value, d as int));
                        taken = taken.push(e);
                    }
                    proof {
                        broadcast use vstd::seq_lib::to_multiset_contains;
                        broadcast use vstd::multiset::group_multiset_axioms;
                        let e = (point@, data);
                        assert(rest[0] == e);
                        assert(rest.to_multiset().contains(e));
                        let m = paired(points@, bucket@).to_multiset();
                        assert(m =~= rest.to_multiset().remove(e));
                        if go_left {
                            assert(left.entries().to_multiset() =~= l0.insert(e));
                            assert(left.entries().to_multiset().add(right.entries().to_multiset()).add(m) =~= l0.add(
                                r0,
                            ).add(rest.to_multiset()));
                        } else {
                            assert(right.entries().to_multiset() =~= r0.insert(e));
                            assert(left.entries().to_multiset().add(right.entries().to_multiset()).add(m) =~= l0.add(
                                r0,
                            ).add(rest.to_multiset()));
                        }
                    }
                }
                proof {
                    assert(paired(points@, bucket@) =~= Seq::<(Seq<i64>, T)>::empty());
                    assert(taken + dealt(paired(points@, bucket@)) =~= taken);
                    lemma_empty_multiset::<(Seq<i64>, T)>();
                    vstd::seq_lib::lemma_multiset_commutative(left.entries(), right.entries());
                }
            },
            Node::Stem { .. } => {},
        }
        self.node = Node::Stem { split_dimension: d, split_value, left: Box::new(left), right: Box::new(right) };
    }

    /// Removes every entry that has the coordinates `point` and a payload equal
    /// to `data`, and returns how many there were. Boxes, planes and leaves stay
    /// as they are: only buckets and sizes change. A point that the tree would
    /// refuse is an error and changes nothing.
    pub fn remove(&mut self, point: &[i64], data: &T) -> (r: Result<usize, ErrorKind>) where T: PartialEq
        requires
            old(self).wf(),
        ensures
            final(self).wf(),
            final(self).dims() == old(self).dims(),
            final(self).leaf_capacity() == old(self).leaf_capacity(),
            checked(point@, old(self).dims()) matches Err(e) ==> r == Err::<usize, ErrorKind>(e) && *final(self)
                == *old(self),
            checked(point@, old(self).dims()) is Ok ==> r is Ok,
            r matches Ok(n) ==> final(self).thinned(old(self), point@, data, n as nat) && final(self).sifted(
                old(self),
                point@,
                data,
            ),
    {
        self.check_point(point)?;
        Ok(self.remove_unchecked(point, data))
    }

    /// How a tree `self` comes from `before` by losing `n` entries at `point`:
    /// nothing is added, what is missing was at `point`, and where the payloads'
    /// `==` is the equality that its specification states, exactly the entries at
    /// `point` whose payload equals `data` are missing, the rest in their order.
    pub open spec fn thinned(&self, before: &Self, point: Seq<i64>, data: &T, n: nat) -> bool where
        T: PartialEq,
     {
        &&& self.dims() == before.dims()
        &&& self.leaf_capacity() == before.leaf_capacity()
        &&& self.lower() == before.lower()
        &&& self.upper() == before.upper()
        &&& self.leaf() == before.leaf()
        &&& self.entries().len() + n == before.entries().len()
        &&& forall|e: (Seq<i64>, T)| #[trigger]
            self.entries().to_multiset().count(e) <= before.entries().to_multiset().count(e)
        &&& forall|e: (Seq<i64>, T)| #[trigger]
            self.entries().to_multiset().count(e) < before.entries().to_multiset().count(e) ==> e.0 == point
        &&& T::obeys_eq_spec() ==> self.entries() == before.entries().filter(other_than(point, data))
    }

    /// How the removal of `thinned` went down: every stem keeps its plane, and
    /// each of its subtrees is thinned in its turn.
    pub closed spec fn sifted(&self, before: &Self, point: Seq<i64>, data: &T) -> bool where T: PartialEq
        decreases before,
    {
        &&& self.thinned(before, point, data, (before.entries().len() - self.entries().len()) as nat)
        &&& match before.node {
            Node::Leaf { .. } => true,
            Node::Stem { split_dimension, split_value, left, right } => match self.node {
                Node::Leaf { .. } => false,
                Node::Stem { split_dimension: axis, split_value: at, left: new_left, right: new_right } => {
                    &&& axis == split_dimension
                    &&& at == split_value
                    &&& new_left.sifted(&*left, point, data)
                    &&& new_right.sifted(&*right, point, data)
                },
            },
        }
    }

    /// What `sifted` says: the tree is thinned by as many entries as it has
    /// lost; and at a stem the plane stays, and both subtrees are thinned and
    /// sifted in their turn.
    pub proof fn lemma_sifted(&self, before: &Self, point: Seq<i64>, data: &T) where T: PartialEq
        requires
            self.sifted(before, point, data),
        ensures
            self.thinned(before, point, data, (before.entries().len() - self.entries().len()) as nat),
            !before.leaf() ==> {
                &&& !self.leaf()
                &&& self.split_axis() == before.split_axis()
                &&& self.split_at() == before.split_at()
                &&& self.left().sifted(&before.left(), point, data)
                &&& self.right().sifted(&before.right(), point, data)
                &&& self.left().thinned(
                    &before.left(),
                    point,
                    data,
                    (before.left().entries().len() - self.left().entries().len()) as nat,
                )
                &&& self.right().thinned(
                    &before.right(),
                    point,
                    data,
                    (before.right().entries().len() - self.right().entries().len()) as nat,
                )
            },
    {
    }

    fn remove_unchecked(&mut self, point: &[i64], data: &T) -> (n: usize) where T: PartialEq
        requires
            old(self).wf(),
        ensures
            final(self).wf(),
            final(self).dimensions == old(self).dimensions,
            final(self).capacity == old(self).capacity,
            final(self).size + n == old(self).size,
            final(self).thinned(old(self), point@, data, n as nat),
            final(self).sifted(old(self), point@, data),
        decreases *old(self),
    {
        let ghost before = *self;
        let ghost keep = other_than(point@, data);
        let mut removed: usize = 0;
        proof {
            before.lemma_size();
        }
        match &mut self.node {
            Node::Leaf { points, bucket } => {
                let ghost all = paired(points@, bucket@);
                let mut i: usize = 0;
                assert(all.take(0) =~= Seq::<(Seq<i64>, T)>::empty());
                assert(all.take(0).filter(keep) =~= Seq::<(Seq<i64>, T)>::empty()) by {
                    reveal(Seq::filter);
                }
                assert(all.skip(0) =~= all);
                while i < points.len()
                    invariant
                        all.len() == before.size,
                        self.size == before.size,
                        points@.len() == bucket@.len(),
                        i <= points@.len(),
                        points@.len() + removed == all.len(),
                        keep == other_than(point@, data),
                        forall|k: int|
                            0 <= k < points@.len() ==> held(
                                (#[trigger] points@[k])@,
                                self.dimensions as nat,
                                self.min_bounds@,
                                self.max_bounds@,
                            ),
                        paired(points@, bucket@).skip(i as int) =~= all.skip(i + removed),
                        T::obeys_eq_spec() ==> paired(points@, bucket@).take(i as int) =~= all.take(i + removed).filter(
                            keep,
                        ),
                        forall|e: (Seq<i64>, T)| #[trigger]
                            paired(points@, bucket@).to_multiset().count(e) <= all.to_multiset().count(e),
                        forall|e: (Seq<i64>, T)| #[trigger]
                            paired(points@, bucket@).to_multiset().count(e) < all.to_multiset().count(e) ==> e.0
                                == point@,
                    decreases points@.len() - i,
                {
                    let ghost now = paired(points@, bucket@);
                    proof {
                        assert(now.skip(i as int)[0] == all.skip(i + removed)[0]);
                        assert(all.take(i + removed + 1) =~= all.take(i + removed).push(all[i + removed]));
                        all.take(i + removed).lemma_filter_push(all[i + removed], keep);
                    }
                    if same_coordinates(points[i].as_slice(), point) && bucket[i] == *data {
                        let p = points.remove(i);
                        let d = bucket.remove(i);
                        removed += 1;
                        proof {
                            broadcast use vstd::multiset::group_multiset_axioms;
                            let next = paired(points@, bucket@);
                            assert(next =~= now.remove(i as int));
                            vstd::seq_lib::to_multiset_remove(now, i as int);
                            assert(next.skip(i as int) =~= now.skip(i as int).skip(1));
                            assert(all.skip(i + removed) =~= all.skip(i + removed - 1).skip(1));
                            assert(next.take(i as int) =~= now.take(i as int));
                        }
                    } else {
                        proof {
                            assert(now.take(i + 1) =~= now.take(i as int).push(now[i as int]));
                            assert(now.skip(i + 1) =~= now.skip(i as int).skip(1));
                            assert(all.skip(i + removed + 1) =~= all.skip(i + removed).skip(1));
                        }
                        i += 1;
                    }
                }
                proof {
                    assert(paired(points@, bucket@).take(i as int) =~= paired(points@, bucket@));
                    assert(all.take(i + removed) =~= all);
                }
            },
            Node::Stem { left, right, .. } => {
                proof {
                    before.left().lemma_size();
                    before.right().lemma_size();
                }
                let right_removed = right.remove_unchecked(point, data);
                let left_removed = left.remove_unchecked(point, data);
                removed = right_removed + left_removed;
            },
        }
        self.size -= removed;
        proof {
            match before.node {
                Node::Leaf { .. } => {},
                Node::Stem { left, right, .. } => {
                    broadcast use vstd::multiset::group_multiset_axioms;
                    vstd::seq_lib::lemma_multiset_commutative(left.entries(), right.entries());
                    vstd::seq_lib::lemma_multiset_commutative(self.left().entries(), self.right().entries());
                    Seq::filter_distributes_over_add(left.entries(), right.entries(), keep);
                },
            }
        }
        removed
    }

    /// The number of nodes of the tree.
    pub closed spec fn nodes(&self) -> nat
        decreases self,
    {
        match self.node {
            Node::Leaf { .. } => 1,
            Node::Stem { left, right, .. } => 1 + left.nodes() + right.nodes(),
        }
    }

    /// Every entry of a well-formed tree is a point that its root may hold.
    proof fn lemma_entries_held(&self)
        requires
            self.wf(),
        ensures
            forall|i: int|
                0 <= i < self.entries().len() ==> held(
                    (#[trigger] self.entries()[i]).0,
                    self.dimensions as nat,
                    self.min_bounds@,
                    self.max_bounds@,
                ),
        decreases self,
    {
        match self.node {
            Node::Leaf { points, bucket } => {
                assert forall|i: int| 0 <= i < self.entries().len() implies held(
                    (#[trigger] self.entries()[i]).0,
                    self.dimensions as nat,
                    self.min_bounds@,
                    self.max_bounds@,
                ) by {
                    assert(held(points@[i]@, self.dimensions as nat, self.min_bounds@, self.max_bounds@));
                }
            },
            Node::Stem { left, right, .. } => {
                left.lemma_entries_held();
                right.lemma_entries_held();
                assert forall|i: int| 0 <= i < self.entries().len() implies held(
                    (#[trigger] self.entries()[i]).0,
                    self.dimensions as nat,
                    self.min_bounds@,
                    self.max_bounds@,
                ) by {
                    let n = left.entries().len();
                    if i < n {
                        let e = left.entries()[i];
                        assert(held(e.0, left.dimensions as nat, left.min_bounds@, left.max_bounds@));
                        assert forall|k: int| 0 <= k < e.0.len() implies self.min_bounds@[k] <= #[trigger] e.0[k]
                            <= self.max_bounds@[k] by {
                            assert(left.min_bounds@[k] <= e.0[k] <= left.max_bounds@[k]);
                        }
                    } else {
                        let e = right.entries()[i - n];
                        assert(held(e.0, right.dimensions as nat, right.min_bounds@, right.max_bounds@));
                        assert forall|k: int| 0 <= k < e.0.len() implies self.min_bounds@[k] <= #[trigger] e.0[k]
                            <= self.max_bounds@[k] by {
                            assert(right.min_bounds@[k] <= e.0[k] <= right.max_bounds@[k]);
                        }
                    }
                }
            },
        }
    }

    /// The payloads of the entries that lie in the box from `lo` to `hi`, in
    /// the order of the entries.
    pub open spec fn inside(&self, lo: Seq<i64>, hi: Seq<i64>) -> Seq<&T> {
        boxed(self.entries(), lo, hi)
    }

    /// Whether every stem keeps strictly below its plane what lies on its left,
    /// unless the plane is on the box's own side. A single leaf does.
    pub closed spec fn strictly_routed(&self) -> bool
        decreases self,
    {
        match self.node {
            Node::Leaf { .. } => true,
            Node::Stem { split_dimension, split_value, left, right } => {
                &&& left.strictly_routed()
                &&& right.strictly_routed()
                &&& self.min_bounds@[split_dimension as int] < split_value ==> left.max_bounds@[split_dimension as int]
                    < split_value
            },
        }
    }

    /// Whether the tree is strictly routed: whether a walk through it finds
    /// every entry that lies in a box.
    pub fn is_strictly_routed(&self) -> (r: bool)
        requires
            self.wf(),
        ensures
            r == self.strictly_routed(),
        decreases self,
    {
        match &self.node {
            Node::Leaf { .. } => true,
            Node::Stem { split_dimension, split_value, left, right } => {
                let d = *split_dimension;
                let kept = self.min_bounds[d] >= *split_value || left.max_bounds[d] < *split_value;
                kept && left.is_strictly_routed() && right.is_strictly_routed()
            },
        }
    }

    /// What a walk through the tree finds in the box from `lo` to `hi`. A leaf
    /// gives the payloads of its points in the box, in the bucket's order. A
    /// stem gives what its right subtree holds, if the upper corner does not
    /// go to the left of its plane, then what its left subtree holds, if the
    /// lower corner goes to the left.
    pub closed spec fn box_walk(&self, lo: Seq<i64>, hi: Seq<i64>) -> Seq<&T>
        decreases self,
    {
        match self.node {
            Node::Leaf { points, bucket } => boxed(paired(points@, bucket@), lo, hi),
            Node::Stem { split_dimension, split_value, left, right } => {
                let low = self.min_bounds@[split_dimension as int];
                let on_right = if !routes_left(low, split_value, hi[split_dimension as int]) {
                    right.box_walk(lo, hi)
                } else {
                    Seq::empty()
                };
                let on_left = if routes_left(low, split_value, lo[split_dimension as int]) {
                    left.box_walk(lo, hi)
                } else {
                    Seq::empty()
                };
                on_right + on_left
            },
        }
    }

    /// The walk of a leaf: the payloads of its points in the box.
    pub proof fn lemma_box_walk_leaf(&self, lo: Seq<i64>, hi: Seq<i64>)
        requires
            self.leaf(),
        ensures
            self.box_walk(lo, hi) == self.inside(lo, hi),
            self.strictly_routed(),
    {
    }

    /// The walk of a stem, and what `strictly_routed` says of one.
    pub proof fn lemma_box_walk_stem(&self, lo: Seq<i64>, hi: Seq<i64>)
        requires
            !self.leaf(),
        ensures
            self.box_walk(lo, hi) == (if !routes_left(
                self.lower()[self.split_axis()],
                self.split_at(),
                hi[self.split_axis()],
            ) {
                self.right().box_walk(lo, hi)
            } else {
                Seq::empty()
            }) + (if routes_left(self.lower()[self.split_axis()], self.split_at(), lo[self.split_axis()]) {
                self.left().box_walk(lo, hi)
            } else {
                Seq::empty()
            }),
            self.strictly_routed() == (self.left().strictly_routed() && self.right().strictly_routed() && (
            self.lower()[self.split_axis()] < self.split_at() ==> self.left().upper()[self.split_axis()]
                < self.split_at())),
    {
    }

    /// A walk finds nothing but payloads of entries in the box, each as often
    /// at most as the entries hold it; in a strictly routed tree it finds them
    /// all.
    pub proof fn lemma_box_walk(&self, lo: Seq<i64>, hi: Seq<i64>)
        requires
            self.wf(),
            lo.len() == self.dims(),
            hi.len() == self.dims(),
        ensures
            self.box_walk(lo, hi).to_multiset().subset_of(self.inside(lo, hi).to_multiset()),
            self.strictly_routed() ==> self.box_walk(lo, hi).to_multiset() =~= self.inside(lo, hi).to_multiset(),
        decreases self,
    {
        broadcast use vstd::multiset::group_multiset_axioms;
        match self.node {
            Node::Leaf { .. } => {},
            Node::Stem { split_dimension, split_value, left, right } => {
                let d = split_dimension as int;
                let low = self.min_bounds@[d];
                left.lemma_box_walk(lo, hi);
                right.lemma_box_walk(lo, hi);
                left.lemma_entries_held();
                right.lemma_entries_held();
                lemma_boxed_concat(left.entries(), right.entries(), lo, hi);
                let on_right = if !routes_left(low, split_value, hi[d]) {
                    right.box_walk(lo, hi)
                } else {
                    Seq::empty()
                };
                let on_left = if routes_left(low, split_value, lo[d]) {
                    left.box_walk(lo, hi)
                } else {
                    Seq::empty()
                };
                vstd::seq_lib::lemma_multiset_commutative(on_right, on_left);
                vstd::seq_lib::lemma_multiset_commutative(
                    boxed(left.entries(), lo, hi),
                    boxed(right.entries(), lo, hi),
                );
                lemma_empty_multiset::<&T>();
                if routes_left(low, split_value, hi[d]) {
                    assert forall|i: int| 0 <= i < right.entries().len() implies !in_box(
                        (#[trigger] right.entries()[i]).0,
                        lo,
                        hi,
                    ) by {
                        let e = right.entries()[i];
                        assert(held(e.0, right.dimensions as nat, right.min_bounds@, right.max_bounds@));
                        assert(right.min_bounds@[d] <= e.0[d]);
                        if in_box(e.0, lo, hi) {
                            assert(e.0[d] <= hi[d]);
                        }
                    }
                    lemma_boxed_none(right.entries(), lo, hi);
                }
                if self.strictly_routed() && !routes_left(low, split_value, lo[d]) {
                    assert forall|i: int| 0 <= i < left.entries().len() implies !in_box(
                        (#[trigger] left.entries()[i]).0,
                        lo,
                        hi,
                    ) by {
                        let e = left.entries()[i];
                        assert(held(e.0, left.dimensions as nat, left.min_bounds@, left.max_bounds@));
                        assert(e.0[d] <= left.max_bounds@[d]);
                        if in_box(e.0, lo, hi) {
                            assert(lo[d] <= e.0[d]);
                        }
                    }
                    lemma_boxed_none(left.entries(), lo, hi);
                }
            },
        }
    }

    /// The payloads of the entries that lie in the box from `min_bounds` to
    /// `max_bounds`, as a walk through the tree finds them. Each corner is
    /// checked as a point is, the lower one first.
    pub fn bounding_box(&self, min_bounds: &[i64], max_bounds: &[i64]) -> (r: Result<Vec<&T>, ErrorKind>)
        requires
            self.wf(),
        ensures
            checked(min_bounds@, self.dims()) matches Err(e) ==> r == Err::<Vec<&T>, ErrorKind>(e),
            checked(min_bounds@, self.dims()) is Ok ==> (checked(max_bounds@, self.dims()) matches Err(e) ==> r
                == Err::<Vec<&T>, ErrorKind>(e)),
            checked(min_bounds@, self.dims()) is Ok && checked(max_bounds@, self.dims()) is Ok ==> r is Ok,
            r matches Ok(found) ==> {
                &&& found@ == self.box_walk(min_bounds@, max_bounds@)
                &&& found@.to_multiset().subset_of(self.inside(min_bounds@, max_bounds@).to_multiset())
                &&& self.strictly_routed() ==> found@.to_multiset() =~= self.inside(
                    min_bounds@,
                    max_bounds@,
                ).to_multiset()
            },
    {
        self.check_point(min_bounds)?;
        self.check_point(max_bounds)?;
        let ghost lo = min_bounds@;
        let ghost hi = max_bounds@;
        proof {
            self.lemma_box_walk(lo, hi);
        }
        let mut evaluated: Vec<&T> = Vec::new();
        if self.size == 0 {
            proof {
                self.lemma_walk_of_empty(lo, hi);
            }
            return Ok(evaluated);
        }
        let mut pending: Vec<&KdTree<T>> = Vec::new();
        pending.push(self);
        assert(walk_of_stack(pending@, lo, hi) =~= self.box_walk(lo, hi)) by {
            assert(pending@.drop_last() =~= Seq::<&KdTree<T>>::empty());
            reveal_with_fuel(walk_of_stack, 2);
        }
        assert(nodes_of_stack(pending@) == self.nodes()) by {
            assert(pending@.drop_last() =~= Seq::<&KdTree<T>>::empty());
            reveal_with_fuel(nodes_of_stack, 2);
        }
        while pending.len() > 0
            invariant
                lo == min_bounds@,
                hi == max_bounds@,
                lo.len() == self.dimensions,
                hi.len() == self.dimensions,
                forall|k: int|
                    0 <= k < pending@.len() ==> (#[trigger] pending@[k]).wf() && pending@[k].dimensions
                        == self.dimensions,
                evaluated@ + walk_of_stack(pending@, lo, hi) =~= self.box_walk(lo, hi),
            decreases nodes_of_stack(pending@),
        {
            let ghost stack = pending@;
            let ghost found = evaluated@;
            let curr = pending.pop().unwrap();
            let ghost base = pending@;
            assert(base =~= stack.drop_last());
            assert(walk_of_stack(stack, lo, hi) == curr.box_walk(lo, hi) + walk_of_stack(base, lo, hi));
            assert(nodes_of_stack(stack) == curr.nodes() + nodes_of_stack(base));
            match &curr.node {
                Node::Leaf { points, bucket } => {
                    let ghost all = paired(points@, bucket@);
                    let mut i: usize = 0;
                    assert(all.take(0) =~= Seq::<(Seq<i64>, T)>::empty());
                    proof {
                        lemma_boxed_empty::<T>(lo, hi);
                    }
                    while i < points.len()
                        invariant
                            lo == min_bounds@,
                            hi == max_bounds@,
                            lo.len() == curr.dimensions,
                            hi.len() == curr.dimensions,
                            curr.wf(),
                            curr.node == (Node::Leaf { points: *points, bucket: *bucket }),
                            all == paired(points@, bucket@),
                            i <= points@.len(),
                            points@.len() == bucket@.len(),
                            evaluated@ =~= found + boxed(all.take(i as int), lo, hi),
                        decreases points@.len() - i,
                    {
                        proof {
                            assert(held(points@[i as int]@, curr.dimensions as nat, curr.min_bounds@, curr.max_bounds@));
                            assert(all.take(i + 1) =~= all.take(i as int).push(all[i as int]));
                            lemma_boxed_push(all.take(i as int), all[i as int], lo, hi);
                        }
                        if in_bounding_box(points[i].as_slice(), min_bounds, max_bounds) {
                            evaluated.push(&bucket[i]);
                        }
                        i += 1;
                    }
                    assert(all.take(i as int) =~= all);
                    assert(evaluated@ + walk_of_stack(pending@, lo, hi) =~= found + walk_of_stack(stack, lo, hi));
                },
                Node::Stem { split_dimension, split_value, left, right } => {
                    let d = *split_dimension;
                    let low = curr.min_bounds[d];
                    let go_left = belongs_in_left(low, *split_value, min_bounds[d]);
                    let stay_left = belongs_in_left(low, *split_value, max_bounds[d]);
                    if go_left {
                        pending.push(&**left);
                        assert(pending@.drop_last() =~= base);
                    }
                    let ghost lower = pending@;
                    assert(walk_of_stack(lower, lo, hi) =~= if go_left {
                        left.box_walk(lo, hi) + walk_of_stack(base, lo, hi)
                    } else {
                        walk_of_stack(base, lo, hi)
                    });
                    assert(nodes_of_stack(lower) == if go_left {
                        left.nodes() + nodes_of_stack(base)
                    } else {
                        nodes_of_stack(base)
                    });
                    if !stay_left {
                        pending.push(&**right);
                        assert(pending@.drop_last() =~= lower);
                    }
                    assert(walk_of_stack(pending@, lo, hi) =~= if !stay_left {
                        right.box_walk(lo, hi) + walk_of_stack(lower, lo, hi)
                    } else {
                        walk_of_stack(lower, lo, hi)
                    });
                    assert(nodes_of_stack(pending@) == if !stay_left {
                        right.nodes() + nodes_of_stack(lower)
                    } else {
                        nodes_of_stack(lower)
                    });
                    assert(walk_of_stack(pending@, lo, hi) =~= curr.box_walk(lo, hi) + walk_of_stack(base, lo, hi));
                    assert(evaluated@ + walk_of_stack(pending@, lo, hi) =~= found + walk_of_stack(stack, lo, hi));
                },
            }
        }
        assert(walk_of_stack(pending@, lo, hi) =~= Seq::<&T>::empty());
        Ok(evaluated)
    }

    /// A tree without entries holds nothing for a walk to find.
    proof fn lemma_walk_of_empty(&self, lo: Seq<i64>, hi: Seq<i64>)
        requires
            self.wf(),
            self.size == 0,
        ensures
            self.box_walk(lo, hi) =~= Seq::<&T>::empty(),
        decreases self,
    {
        match self.node {
            Node::Leaf { points, bucket } => {
                assert(paired(points@, bucket@) =~= Seq::<(Seq<i64>, T)>::empty());
                lemma_boxed_empty::<T>(lo, hi);
            },
            Node::Stem { left, right, .. } => {
                left.lemma_walk_of_empty(lo, hi);
                right.lemma_walk_of_empty(lo, hi);
            },
        }
    }

    /// The parts of a well-formed stem: both subtrees are well formed, of the
    /// stem's dimensions and capacity, and hold its entries between them; the
    /// plane cuts the stem's box; the boxes of the subtrees lie in the stem's,
    /// the left one at or below the plane, the right one at or above it.
    pub proof fn lemma_stem(&self)
        requires
            self.wf(),
            !self.leaf(),
        ensures
            self.left().wf(),
            self.right().wf(),
            self.left().dims() == self.dims(),
            self.right().dims() == self.dims(),
            self.left().leaf_capacity() == self.leaf_capacity(),
            self.right().leaf_capacity() == self.leaf_capacity(),
            self.entries() == self.left().entries() + self.right().entries(),
            0 <= self.split_axis() < self.dims(),
            self.lower()[self.split_axis()] <= self.split_at() < self.upper()[self.split_axis()],
            nested(self.left().lower(), self.left().upper(), self.lower(), self.upper()),
            nested(self.right().lower(), self.right().upper(), self.lower(), self.upper()),
            self.left().upper()[self.split_axis()] <= self.split_at(),
            self.split_at() <= self.right().lower()[self.split_axis()],
    {
    }

    /// Every entry of a well-formed tree has as many coordinates as the tree
    /// has dimensions, all finite, and lies in the tree's box; the box has as
    /// many sides.
    pub proof fn lemma_entries_in_box(&self)
        requires
            self.wf(),
        ensures
            self.lower().len() == self.dims(),
            self.upper().len() == self.dims(),
            forall|i: int|
                0 <= i < self.entries().len() ==> held(
                    (#[trigger] self.entries()[i]).0,
                    self.dims(),
                    self.lower(),
                    self.upper(),
                ),
    {
        self.lemma_entries_held();
    }

    /// After any number of points taken in one after the other, an empty tree
    /// holds that number of entries.
    pub proof fn lemma_size_counts_adds(trees: Seq<KdTree<T>>, points: Seq<Seq<i64>>, payloads: Seq<T>)
        requires
            trees.len() == points.len() + 1,
            points.len() == payloads.len(),
            trees[0].entries().len() == 0,
            forall|i: int|
                1 <= i < trees.len() ==> (#[trigger] trees[i]).grown(&trees[i - 1], points[i - 1], payloads[i - 1]),
        ensures
            trees.last().entries().len() == points.len(),
        decreases trees.len(),
    {
        if points.len() > 0 {
            let n = trees.len() - 1;
            assert(trees[n].grown(&trees[n - 1], points[n - 1], payloads[n - 1]));
            let fewer = trees.drop_last();
            assert forall|i: int| 1 <= i < fewer.len() implies (#[trigger] fewer[i]).grown(
                &fewer[i - 1],
                points.drop_last()[i - 1],
                payloads.drop_last()[i - 1],
            ) by {
                assert(trees[i].grown(&trees[i - 1], points[i - 1], payloads[i - 1]));
            }
            Self::lemma_size_counts_adds(fewer, points.drop_last(), payloads.drop_last());
        }
    }

    /// An empty leaf that takes in points one after the other stays a leaf
    /// while it holds no more than its capacity. With the point that exceeds the
    /// capacity it becomes a stem, unless its box has no width along any axis.
    pub proof fn lemma_leaf_until_full(trees: Seq<KdTree<T>>, points: Seq<Seq<i64>>, payloads: Seq<T>)
        requires
            trees.len() == points.len() + 1,
            points.len() == payloads.len(),
            trees[0].leaf(),
            trees[0].entries().len() == 0,
            forall|i: int|
                1 <= i < trees.len() ==> (#[trigger] trees[i]).grown(&trees[i - 1], points[i - 1], payloads[i - 1]),
        ensures
            forall|i: int|
                0 <= i < trees.len() ==> (#[trigger] trees[i]).leaf_capacity() == trees[0].leaf_capacity()
                    && trees[i].entries().len() == i,
            forall|i: int| 0 <= i < trees.len() && i <= trees[0].leaf_capacity() ==> (#[trigger] trees[i]).leaf(),
            trees.len() > trees[0].leaf_capacity() + 1 ==> {
                let full = trees[trees[0].leaf_capacity() as int + 1];
                full.leaf() <==> !spread(full.lower(), full.upper())
            },
    {
        assert forall|i: int| 0 <= i < trees.len() implies (#[trigger] trees[i]).leaf_capacity()
            == trees[0].leaf_capacity() && trees[i].entries().len() == i && (i <= trees[0].leaf_capacity()
            ==> trees[i].leaf()) by {
            Self::lemma_leaf_so_far(trees, points, payloads, i);
        }
        let c = trees[0].leaf_capacity() as int;
        if trees.len() > c + 1 {
            Self::lemma_leaf_so_far(trees, points, payloads, c);
            assert(trees[c + 1].grown(&trees[c], points[c], payloads[c]));
        }
    }

    proof fn lemma_leaf_so_far(trees: Seq<KdTree<T>>, points: Seq<Seq<i64>>, payloads: Seq<T>, i: int)
        requires
            trees.len() == points.len() + 1,
            points.len() == payloads.len(),
            trees[0].leaf(),
            trees[0].entries().len() == 0,
            forall|j: int|
                1 <= j < trees.len() ==> (#[trigger] trees[j]).grown(&trees[j - 1], points[j - 1], payloads[j - 1]),
            0 <= i < trees.len(),
        ensures
            trees[i].leaf_capacity() == trees[0].leaf_capacity(),
            trees[i].entries().len() == i,
            i <= trees[0].leaf_capacity() ==> trees[i].leaf(),
        decreases i,
    {
        if i > 0 {
            Self::lemma_leaf_so_far(trees, points, payloads, i - 1);
            assert(trees[i].grown(&trees[i - 1], points[i - 1], payloads[i - 1]));
        }
    }

    /// Where the payloads' `==` is the equality that its specification states, a
    /// removal takes out as many entries as are at `point` with a payload equal
    /// to `data`; where there is none, it changes no entry.
    pub proof fn lemma_removed_are_matches(&self, before: &Self, point: Seq<i64>, data: &T, n: nat) where
        T: PartialEq,

        requires
            self.thinned(before, point, data, n),
            T::obeys_eq_spec(),
        ensures
            n == before.entries().filter(matching(point, data)).len(),
            (forall|i: int|
                0 <= i < before.entries().len() ==> !((#[trigger] before.entries()[i]).0 == point
                    && before.entries()[i].1.eq_spec(data))) ==> n == 0 && self.entries() == before.entries(),
    {
        let hit = matching(point, data);
        let miss = other_than(point, data);
        assert forall|x: (Seq<i64>, T)| #[trigger] miss(x) == !hit(x) by {}
        lemma_filter_split(before.entries(), hit, miss);
        assert(self.entries() == before.entries().filter(miss));
        if forall|i: int|
            0 <= i < before.entries().len() ==> !((#[trigger] before.entries()[i]).0 == point
                && before.entries()[i].1.eq_spec(data)) {
            assert forall|i: int| 0 <= i < before.entries().len() implies miss(#[trigger] before.entries()[i]) by {}
            lemma_filter_all(before.entries(), miss);
        }
    }

    /// Every point with its payload, in the order of `entries`.
    pub fn records(&self) -> (list: Vec<(&[i64], &T)>)
        requires
            self.wf(),
        ensures
            list@.len() == self.entries().len(),
            forall|i: int|
                0 <= i < list@.len() ==> (#[trigger] list@[i]).0@ == self.entries()[i].0 && *list@[i].1
                    == self.entries()[i].1,
    {
        let mut list: Vec<(&[i64], &T)> = Vec::new();
        self.list_records(&mut list);
        proof {
            assert forall|i: int| 0 <= i < list@.len() implies (#[trigger] list@[i]).0@ == self.entries()[i].0
                && *list@[i].1 == self.entries()[i].1 by {
                assert(list@[0 + i].0@ == self.entries()[i].0);
            }
        }
        list
    }

    fn list_records<'a>(&'a self, list: &mut Vec<(&'a [i64], &'a T)>)
        requires
            self.wf(),
        ensures
            final(list)@.len() == old(list)@.len() + self.entries().len(),
            forall|i: int| 0 <= i < old(list)@.len() ==> (#[trigger] final(list)@[i]) == old(list)@[i],
            forall|i: int|
                0 <= i < self.entries().len() ==> (#[trigger] final(list)@[old(list)@.len() + i]).0@
                    == self.entries()[i].0 && *final(list)@[old(list)@.len() + i].1 == self.entries()[i].1,
        decreases self,
    {
        let ghost before = list@;
        match &self.node {
            Node::Leaf { points, bucket } => {
                let mut i: usize = 0;
                while i < points.len()
                    invariant
                        self.wf(),
                        self.node == (Node::Leaf { points: *points, bucket: *bucket }),
                        i <= points@.len(),
                        points@.len() == bucket@.len(),
                        list@.len() == before.len() + i,
                        forall|k: int| 0 <= k < before.len() ==> (#[trigger] list@[k]) == before[k],
                        forall|k: int|
                            0 <= k < i ==> (#[trigger] list@[before.len() + k]).0@ == points@[k]@
                                && *list@[before.len() + k].1 == bucket@[k],
                    decreases points@.len() - i,
                {
                    list.push((points[i].as_slice(), &bucket[i]));
                    i += 1;
                }
            },
            Node::Stem { left, right, .. } => {
                left.list_records(list);
                let ghost middle = list@;
                right.list_records(list);
                proof {
                    let n = left.entries().len() as int;
                    assert forall|i: int| 0 <= i < self.entries().len() implies (#[trigger] list@[before.len() + i]).0@
                        == self.entries()[i].0 && *list@[before.len() + i].1 == self.entries()[i].1 by {
                        if i < n {
                            assert(list@[before.len() + i] == middle[before.len() + i]);
                        } else {
                            assert(list@[middle.len() + (i - n)].0@ == right.entries()[i - n].0);
                        }
                    }
                }
            },
        }
    }

    /// Whether `self` is the tree `before` but for its payloads: the same nodes
    /// with the same boxes and planes, the same points in the same buckets, and
    /// a payload for each.
    pub closed spec fn same_frame(&self, before: &Self) -> bool
        decreases self,
    {
        &&& self.dimensions == before.dimensions
        &&& self.capacity == before.capacity
        &&& self.size == before.size
        &&& self.min_bounds@ == before.min_bounds@
        &&& self.max_bounds@ == before.max_bounds@
        &&& match self.node {
            Node::Leaf { points, bucket } => {
                &&& before.node matches Node::Leaf { points: old_points, bucket: old_bucket }
                &&& points@.len() == old_points@.len()
                &&& forall|i: int| 0 <= i < points@.len() ==> (#[trigger] points@[i])@ == old_points@[i]@
                &&& bucket@.len() == old_bucket@.len()
            },
            Node::Stem { split_dimension, split_value, left, right } => {
                &&& before.node matches Node::Stem {
                    split_dimension: axis,
                    split_value: at,
                    left: old_left,
                    right: old_right,
                }
                &&& split_dimension == axis
                &&& split_value == at
                &&& left.same_frame(&*old_left)
                &&& right.same_frame(&*old_right)
            },
        }
    }

    /// Whether `self` is the tree `now` but for its payloads, and holds for
    /// payloads, in the order of its entries, those of `sheet` from `off` on.
    pub closed spec fn seated(&self, now: &Self, off: int, sheet: Seq<T>) -> bool {
        &&& self.same_frame(now)
        &&& self.entries().len() == now.entries().len()
        &&& forall|j: int| 0 <= j < self.entries().len() ==> (#[trigger] self.entries()[j]).1 == sheet[off + j]
    }

    /// What `seated` says: the same frame, and the payloads of the sheet.
    pub proof fn lemma_seated(&self, now: &Self, off: int, sheet: Seq<T>)
        requires
            self.seated(now, off, sheet),
        ensures
            self.same_frame(now),
            self.entries().len() == now.entries().len(),
            forall|j: int| 0 <= j < self.entries().len() ==> (#[trigger] self.entries()[j]).1 == sheet[off + j],
    {
        self.lemma_same_frame_len(now);
    }

    /// A tree that is another but for its payloads has as many entries.
    pub proof fn lemma_same_frame_len(&self, before: &Self)
        requires
            self.same_frame(before),
        ensures
            self.entries().len() == before.entries().len(),
        decreases self,
    {
        match self.node {
            Node::Leaf { .. } => {},
            Node::Stem { left, right, .. } => {
                left.lemma_same_frame_len(&before.left());
                right.lemma_same_frame_len(&before.right());
            },
        }
    }

    /// A tree is itself but for its payloads.
    pub proof fn lemma_same_frame_as_itself(&self)
        ensures
            self.same_frame(self),
        decreases self,
    {
        match self.node {
            Node::Leaf { .. } => {},
            Node::Stem { left, right, .. } => {
                left.lemma_same_frame_as_itself();
                right.lemma_same_frame_as_itself();
            },
        }
    }

    /// A tree that is a well-formed tree but for its payloads is well formed,
    /// and has the same dimensions, capacity and box, and the same points in the
    /// same order.
    pub proof fn lemma_same_frame(&self, before: &Self)
        requires
            self.same_frame(before),
            before.wf(),
        ensures
            self.wf(),
            self.dims() == before.dims(),
            self.leaf_capacity() == before.leaf_capacity(),
            self.lower() == before.lower(),
            self.upper() == before.upper(),
            self.leaf() == before.leaf(),
            self.strictly_routed() == before.strictly_routed(),
            self.entries().len() == before.entries().len(),
            forall|i: int| 0 <= i < self.entries().len() ==> (#[trigger] self.entries()[i]).0 == before.entries()[i].0,
        decreases self,
    {
        match self.node {
            Node::Leaf { points, bucket } => {
                assert forall|i: int| 0 <= i < points@.len() implies held(
                    (#[trigger] points@[i])@,
                    self.dimensions as nat,
                    self.min_bounds@,
                    self.max_bounds@,
                ) by {
                    let old_points = before.node->Leaf_points;
                    assert(points@[i]@ == old_points@[i]@);
                    assert(held(old_points@[i]@, before.dimensions as nat, before.min_bounds@, before.max_bounds@));
                }
                assert(self.wf());
            },
            Node::Stem { left, right, .. } => {
                let old_left = before.left();
                let old_right = before.right();
                left.lemma_same_frame(&old_left);
                right.lemma_same_frame(&old_right);
                left.lemma_size();
                right.lemma_size();
                old_left.lemma_size();
                old_right.lemma_size();
                assert(left.size == old_left.size && right.size == old_right.size);
                assert(left.dimensions == old_left.dimensions && right.dimensions == old_right.dimensions);
                assert(left.capacity == old_left.capacity && right.capacity == old_right.capacity);
                assert(left.min_bounds@ == old_left.min_bounds@ && left.max_bounds@ == old_left.max_bounds@);
                assert(right.min_bounds@ == old_right.min_bounds@ && right.max_bounds@ == old_right.max_bounds@);
                assert(self.wf());
                assert forall|i: int| 0 <= i < self.entries().len() implies (#[trigger] self.entries()[i]).0
                    == before.entries()[i].0 by {
                    let n = left.entries().len();
                    if i < n {
                        assert(self.entries()[i] == left.entries()[i]);
                        assert(before.entries()[i] == old_left.entries()[i]);
                    } else {
                        assert(self.entries()[i] == right.entries()[i - n]);
                        assert(before.entries()[i] == old_right.entries()[i - n]);
                    }
                }
            },
        }
    }

    fn check_point(&self, point: &[i64]) -> (r: Result<(), ErrorKind>)
        ensures
            r == checked(point@, self.dimensions as nat),
    {
        if self.dimensions != point.len() {
            return Err(ErrorKind::WrongDimension);
        }
        let mut i: usize = 0;
        while i < point.len()
            invariant
                i <= point@.len(),
                point@.len() == self.dimensions,
                forall|k: int| 0 <= k < i ==> crate::scalar::is_finite(#[trigger] point@[k]),
            decreases point@.len() - i,
        {
            if point[i] == min_value() || point[i] == max_value() {
                assert(!crate::scalar::is_finite(point@[i as int]));
                return Err(ErrorKind::NonFiniteCoordinate);
            }
            i += 1;
        }
        Ok(())
    }
}

/// What a property keeps of a sequence and what its opposite keeps make up
/// the sequence.
proof fn lemma_filter_split<A>(s: Seq<A>, hit: spec_fn(A) -> bool, miss: spec_fn(A) -> bool)
    requires
        forall|x: A| #[trigger] miss(x) == !hit(x),
    ensures
        s.filter(hit).len() + s.filter(miss).len() == s.len(),
    decreases s.len(),
{
    if s.len() == 0 {
        assert(s.filter(hit).len() == 0 && s.filter(miss).len() == 0) by {
            reveal(Seq::filter);
        }
    } else {
        lemma_filter_split(s.drop_last(), hit, miss);
        assert(s =~= s.drop_last().push(s.last()));
        s.drop_last().lemma_filter_push(s.last(), hit);
        s.drop_last().lemma_filter_push(s.last(), miss);
        assert(miss(s.last()) == !hit(s.last()));
    }
}

/// A property that every element has keeps the whole sequence.
proof fn lemma_filter_all<A>(s: Seq<A>, keep: spec_fn(A) -> bool)
    requires
        forall|i: int| 0 <= i < s.len() ==> keep(#[trigger] s[i]),
    ensures
        s.filter(keep) == s,
    decreases s.len(),
{
    if s.len() == 0 {
        assert(s.filter(keep) =~= s) by {
            reveal(Seq::filter);
        }
    } else {
        lemma_filter_all(s.drop_last(), keep);
        assert(s =~= s.drop_last().push(s.last()));
        s.drop_last().lemma_filter_push(s.last(), keep);
        assert(keep(s[s.len() - 1]));
    }
}

proof fn lemma_boxed_empty<T>(lo: Seq<i64>, hi: Seq<i64>)
    ensures
        boxed(Seq::<(Seq<i64>, T)>::empty(), lo, hi) =~= Seq::<&T>::empty(),
{
    reveal(Seq::filter);
}

proof fn lemma_boxed_push<T>(entries: Seq<(Seq<i64>, T)>, e: (Seq<i64>, T), lo: Seq<i64>, hi: Seq<i64>)
    ensures
        boxed(entries.push(e), lo, hi) =~= if in_box(e.0, lo, hi) {
            boxed(entries, lo, hi).push(&e.1)
        } else {
            boxed(entries, lo, hi)
        },
{
    entries.lemma_filter_push(e, |e: (Seq<i64>, T)| in_box(e.0, lo, hi));
}

proof fn lemma_boxed_concat<T>(a: Seq<(Seq<i64>, T)>, b: Seq<(Seq<i64>, T)>, lo: Seq<i64>, hi: Seq<i64>)
    ensures
        boxed(a + b, lo, hi) =~= boxed(a, lo, hi) + boxed(b, lo, hi),
{
    Seq::filter_distributes_over_add(a, b, |e: (Seq<i64>, T)| in_box(e.0, lo, hi));
}

proof fn lemma_boxed_none<T>(entries: Seq<(Seq<i64>, T)>, lo: Seq<i64>, hi: Seq<i64>)
    requires
        forall|i: int| 0 <= i < entries.len() ==> !in_box((#[trigger] entries[i]).0, lo, hi),
    ensures
        boxed(entries, lo, hi) =~= Seq::<&T>::empty(),
    decreases entries.len(),
{
    if entries.len() == 0 {
        assert(entries =~= Seq::<(Seq<i64>, T)>::empty());
        lemma_boxed_empty::<T>(lo, hi);
    } else {
        lemma_boxed_none(entries.drop_last(), lo, hi);
        assert(entries =~= entries.drop_last().push(entries.last()));
        lemma_boxed_push(entries.drop_last(), entries.last(), lo, hi);
    }
}

/// What walks through the trees of a stack find, the top of the stack first.
spec fn walk_of_stack<T>(stack: Seq<&KdTree<T>>, lo: Seq<i64>, hi: Seq<i64>) -> Seq<&T>
    decreases stack.len(),
{
    if stack.len() == 0 {
        Seq::empty()
    } else {
        stack.last().box_walk(lo, hi) + walk_of_stack(stack.drop_last(), lo, hi)
    }
}

/// The number of nodes in the trees of a stack.
spec fn nodes_of_stack<T>(stack: Seq<&KdTree<T>>) -> nat
    decreases stack.len(),
{
    if stack.len() == 0 {
        0
    } else {
        stack.last().nodes() + nodes_of_stack(stack.drop_last())
    }
}

fn copy_points(points: &Vec<Vec<i64>>) -> (copy: Vec<Vec<i64>>)
    ensures
        copy@.len() == points@.len(),
        forall|i: int| 0 <= i < points@.len() ==> (#[trigger] copy@[i])@ == points@[i]@,
{
    let mut copy: Vec<Vec<i64>> = Vec::new();
    let mut i: usize = 0;
    while i < points.len()
        invariant
            i <= points@.len(),
            copy@.len() == i,
            forall|k: int| 0 <= k < i ==> (#[trigger] copy@[k])@ == points@[k]@,
        decreases points@.len() - i,
    {
        copy.push(vstd::slice::slice_to_vec(points[i].as_slice()));
        i += 1;
    }
    copy
}

impl<T: Clone> Clone for KdTree<T> {
    /// A tree of the same shape over the same points, each payload cloned.
    fn clone(&self) -> (res: Self)
        ensures
            self.wf() ==> res.wf(),
            res.dims() == self.dims(),
            res.leaf_capacity() == self.leaf_capacity(),
            res.lower() == self.lower(),
            res.upper() == self.upper(),
            res.leaf() == self.leaf(),
            res.entries().len() == self.entries().len(),
            self.wf() ==> forall|i: int|
                0 <= i < self.entries().len() ==> (#[trigger] res.entries()[i]).0 == self.entries()[i].0 && cloned::<T>(
                    self.entries()[i].1,
                    res.entries()[i].1,
                ),
        decreases self,
    {
        let node = match &self.node {
            Node::Leaf { points, bucket } => Node::Leaf { points: copy_points(points), bucket: bucket.clone() },
            Node::Stem { split_dimension, split_value, left, right } => Node::Stem {
                split_dimension: *split_dimension,
                split_value: *split_value,
                left: Box::new((&**left).clone()),
                right: Box::new((&**right).clone()),
            },
        };
        let res = KdTree {
            dimensions: self.dimensions,
            capacity: self.capacity,
            size: self.size,
            min_bounds: vstd::slice::slice_to_vec(self.min_bounds.as_slice()),
            max_bounds: vstd::slice::slice_to_vec(self.max_bounds.as_slice()),
            node,
        };
        proof {
            match &self.node {
                Node::Leaf { points, bucket } => {
                    assert(res.node is Leaf);
                    if self.wf() {
                        assert forall|i: int| 0 <= i < self.entries().len() implies (#[trigger] res.entries()[i]).0
                            == self.entries()[i].0 && cloned::<T>(self.entries()[i].1, res.entries()[i].1) by {
                            assert(cloned::<T>(bucket@[i], res.node->Leaf_bucket@[i]));
                        }
                    }
                    if self.wf() {
                        assert forall|i: int| 0 <= i < res.node->Leaf_points@.len() implies held(
                            (#[trigger] res.node->Leaf_points@[i])@,
                            res.dimensions as nat,
                            res.min_bounds@,
                            res.max_bounds@,
                        ) by {
                            assert(held(points@[i]@, self.dimensions as nat, self.min_bounds@, self.max_bounds@));
                        }
                    }
                },
                Node::Stem { left, right, .. } => {
                    let copy_left = res.left();
                    let copy_right = res.right();
                    if self.wf() {
                        left.lemma_size();
                        right.lemma_size();
                        copy_left.lemma_size();
                        copy_right.lemma_size();
                    }
                    assert forall|i: int| self.wf() && 0 <= i < self.entries().len() implies (
                    #[trigger] res.entries()[i]).0 == self.entries()[i].0 && cloned::<T>(
                        self.entries()[i].1,
                        res.entries()[i].1,
                    ) by {
                        let n = left.entries().len();
                        if i < n {
                            assert(res.entries()[i] == copy_left.entries()[i]);
                            assert(self.entries()[i] == left.entries()[i]);
                        } else {
                            assert(res.entries()[i] == copy_right.entries()[i - n]);
                            assert(self.entries()[i] == right.entries()[i - n]);
                        }
                    }
                },
            }
        }
        res
    }
}

/// Whether two vectors hold the same coordinates.
pub fn same_coordinates(a: &[i64], b: &[i64]) -> (r: bool)
    ensures
        r == (a@ == b@),
{
    if a.len() != b.len() {
        return false;
    }
    let mut i: usize = 0;
    while i < a.len()
        invariant
            i <= a@.len(),
            a@.len() == b@.len(),
            forall|k: int| 0 <= k < i ==> #[trigger] a@[k] == b@[k],
        decreases a@.len() - i,
    {
        if a[i] != b[i] {
            return false;
        }
        i += 1;
    }
    assert(a@ =~= b@);
    true
}

} // verus!
