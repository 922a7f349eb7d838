//! A binary max-heap of ranked elements, kept in a vector. Each operation
//! is stated twice: by what the heap then holds, whatever the order, and by
//! the order itself, move by move.

use crate::heap_element::HeapElement;
use vstd::prelude::*;

verus! {

/// Among the first `end` elements, every one but the first is at most as far
/// as its parent, the element at half its position.
pub open spec fn heap_ordered_to<T>(s: Seq<HeapElement<T>>, end: int) -> bool {
    forall|i: int| 0 < i < end ==> (#[trigger] s[i]).distance <= s[(i - 1) / 2].distance
}

/// The whole sequence is heap-ordered.
pub open spec fn heap_ordered<T>(s: Seq<HeapElement<T>>) -> bool {
    heap_ordered_to(s, s.len() as int)
}

/// The distances never decrease along the sequence.
pub open spec fn ascending<T>(s: Seq<HeapElement<T>>) -> bool {
    forall|i: int, j: int| 0 <= i <= j < s.len() ==> (#[trigger] s[i]).distance <= (#[trigger] s[j]).distance
}

/// The first `end` elements are heap-ordered but for the links of position
/// `pos`: the link to its parent unless `above` holds, the links to its children
/// unless `below` holds. What hangs under `pos` is no farther than the parent of
/// `pos`.
spec fn ordered_except<T>(s: Seq<HeapElement<T>>, end: int, pos: int, above: bool, below: bool) -> bool {
    &&& forall|i: int|
        0 < i < end && (above || i != pos) && (below || (i - 1) / 2 != pos) ==> (#[trigger] s[i]).distance <= s[(i
            - 1) / 2].distance
    &&& forall|i: int|
        0 < i < end && (i - 1) / 2 == pos && pos > 0 ==> (#[trigger] s[i]).distance <= s[(pos - 1) / 2].distance
}

/// From position `from` on, no element is farther than the next one.
#[verifier::opaque]
spec fn rising_from<T>(s: Seq<HeapElement<T>>, from: int) -> bool {
    forall|i: int| from <= i < s.len() - 1 ==> (#[trigger] s[i]).distance <= s[i + 1].distance
}

proof fn lemma_rising_is_ascending<T>(s: Seq<HeapElement<T>>, i: int, j: int)
    requires
        rising_from(s, 0),
        0 <= i <= j < s.len(),
    ensures
        s[i].distance <= s[j].distance,
    decreases j - i,
{
    reveal(rising_from);
    if i < j {
        lemma_rising_is_ascending(s, i, j - 1);
    }
}

/// Past the last element nothing is left to rise.
proof fn lemma_rising_from_the_end<T>(s: Seq<HeapElement<T>>)
    ensures
        rising_from(s, s.len() as int),
{
    reveal(rising_from);
}

/// When all but the first element rise, and the first is no farther than the
/// second, all rise.
proof fn lemma_rising_from_the_start<T>(s: Seq<HeapElement<T>>, end: int)
    requires
        end <= 1,
        rising_from(s, end),
        0 < end < s.len() ==> s[0].distance <= s[end].distance,
    ensures
        rising_from(s, 0),
{
    reveal(rising_from);
}

/// A bound on the first `end` elements of `a` bounds the first `end` elements
/// of any rearrangement of them.
proof fn lemma_prefix_bound<T>(a: Seq<HeapElement<T>>, b: Seq<HeapElement<T>>, end: int, bound: i64)
    requires
        0 <= end <= a.len(),
        end <= b.len(),
        a.take(end).to_multiset() =~= b.take(end).to_multiset(),
        forall|i: int| 0 <= i < end ==> (#[trigger] a[i]).distance <= bound,
    ensures
        forall|i: int| 0 <= i < end ==> (#[trigger] b[i]).distance <= bound,
{
    broadcast use vstd::seq_lib::to_multiset_contains;
    assert forall|i: int| 0 <= i < end implies (#[trigger] b[i]).distance <= bound by {
        assert(b.take(end)[i] == b[i]);
        assert(b.take(end).to_multiset().contains(b[i]));
        assert(a.take(end).contains(b[i]));
        let k = choose|k: int| 0 <= k < end && a.take(end)[k] == b[i];
        assert(a[k] == b[i]);
    }
}

/// The sequence with the elements at `i` and `j` in each other's place.
pub open spec fn swapped<T>(s: Seq<HeapElement<T>>, i: int, j: int) -> Seq<HeapElement<T>> {
    s.update(i, s[j]).update(j, s[i])
}

/// The sequence after the element at `pos` has moved up, place by place,
/// until its parent is at least as far.
#[verifier::opaque]
pub open spec fn risen<T>(s: Seq<HeapElement<T>>, pos: int) -> Seq<HeapElement<T>>
    decreases pos,
{
    if 0 < pos < s.len() && s[pos].distance > s[(pos - 1) / 2].distance {
        risen(swapped(s, (pos - 1) / 2, pos), (pos - 1) / 2)
    } else {
        s
    }
}

/// The place of the farther child of `pos` among the first `end` elements:
/// of two that are equally far, the second.
pub open spec fn farther_child<T>(s: Seq<HeapElement<T>>, pos: int, end: int) -> int {
    if 2 * pos + 2 < end && s[2 * pos + 1].distance <= s[2 * pos + 2].distance {
        2 * pos + 2
    } else {
        2 * pos + 1
    }
}

/// The sequence after the element at `pos` has moved down to a leaf, always
/// towards the farther child, and then up again to where it belongs.
#[verifier::opaque]
pub open spec fn sunk_to_bottom<T>(s: Seq<HeapElement<T>>, pos: int) -> Seq<HeapElement<T>>
    decreases s.len() - pos,
{
    if 0 <= pos && s.len() >= 2 && pos <= (s.len() - 2) / 2 {
        let child = farther_child(s, pos, s.len() as int);
        sunk_to_bottom(swapped(s, pos, child), child)
    } else {
        risen(s, pos)
    }
}

/// The sequence after the element at `pos` has moved down among the first
/// `end` elements until neither child is farther.
#[verifier::opaque]
pub open spec fn sunk<T>(s: Seq<HeapElement<T>>, end: int, pos: int) -> Seq<HeapElement<T>>
    decreases end - pos,
{
    if 0 <= pos && end >= 2 && pos <= (end - 2) / 2 {
        let child = farther_child(s, pos, end);
        if s[pos].distance >= s[child].distance {
            s
        } else {
            sunk(swapped(s, pos, child), end, child)
        }
    } else {
        s
    }
}

/// The heap `s` after `item` has been added: put last, then moved up.
#[verifier::opaque]
pub open spec fn pushed<T>(s: Seq<HeapElement<T>>, item: HeapElement<T>) -> Seq<HeapElement<T>> {
    risen(s.push(item), s.len() as int)
}

/// The heap `s` after its first element has been taken out: the last takes
/// its place, moves down to a leaf and up again.
#[verifier::opaque]
pub open spec fn popped<T>(s: Seq<HeapElement<T>>) -> Seq<HeapElement<T>> {
    if s.len() <= 1 {
        Seq::empty()
    } else {
        sunk_to_bottom(s.drop_last().update(0, s.last()), 0)
    }
}

/// The heap `s` sorted in place from its first `end` elements on: the first
/// changes place with the last of them and moves down among the others, and
/// so on with one fewer.
#[verifier::opaque]
pub open spec fn sorted<T>(s: Seq<HeapElement<T>>, end: int) -> Seq<HeapElement<T>>
    decreases end,
{
    if end > 1 {
        sorted(settled_last(s, end - 1), end - 1)
    } else {
        s
    }
}

/// The sequence after one round of the sorting: the first element has changed
/// place with the one at `end`, and what took its place has moved down among
/// the first `end` elements.
#[verifier::opaque]
pub open spec fn settled_last<T>(s: Seq<HeapElement<T>>, end: int) -> Seq<HeapElement<T>> {
    sunk(swapped(s, 0, end), end, 0)
}

/// One round of the sorting.
proof fn lemma_sorted_round<T>(s: Seq<HeapElement<T>>, end: int)
    ensures
        end > 1 ==> sorted(s, end) == sorted(settled_last(s, end - 1), end - 1),
        end <= 1 ==> sorted(s, end) == s,
{
    reveal(sorted);
}

proof fn lemma_swapped_multiset<T>(s: Seq<HeapElement<T>>, i: int, j: int)
    requires
        0 <= i < s.len(),
        0 <= j < s.len(),
    ensures
        swapped(s, i, j).to_multiset() =~= s.to_multiset(),
{
    broadcast use vstd::seq_lib::to_multiset_update;
    broadcast use vstd::seq_lib::to_multiset_contains;
    let t = s.update(i, s[j]);
    assert(s.to_multiset().contains(s[i]));
    assert(s.to_multiset().contains(s[j]));
    assert(t.to_multiset() =~= s.to_multiset().insert(s[j]).remove(s[i]));
    assert(t[j] == s[j]);
    assert(swapped(s, i, j).to_multiset() =~= t.to_multiset().insert(s[i]).remove(s[j]));
}

/// In a heap-ordered prefix no element is farther than the first.
pub proof fn lemma_first_is_farthest<T>(s: Seq<HeapElement<T>>, end: int, i: int)
    requires
        heap_ordered_to(s, end),
        0 <= i < end <= s.len(),
    ensures
        s[i].distance <= s[0].distance,
    decreases i,
{
    if i > 0 {
        lemma_first_is_farthest(s, end, (i - 1) / 2);
    }
}

fn swap_items<T>(data: &mut Vec<HeapElement<T>>, i: usize, j: usize)
    requires
        i < j < old(data)@.len(),
    ensures
        final(data)@ == swapped(old(data)@, i as int, j as int),
{
    let (head, tail) = data.as_mut_slice().split_at_mut(j);
    core::mem::swap(&mut head[i], &mut tail[0]);
    assert(data@ =~= swapped(old(data)@, i as int, j as int));
}

proof fn lemma_swapped_prefix<T>(s: Seq<HeapElement<T>>, end: int, i: int, j: int)
    requires
        0 <= i < end <= s.len(),
        0 <= j < end,
    ensures
        swapped(s, i, j).take(end).to_multiset() =~= s.take(end).to_multiset(),
        swapped(s, i, j).skip(end) =~= s.skip(end),
{
    assert(swapped(s, i, j).take(end) =~= swapped(s.take(end), i, j));
    lemma_swapped_multiset(s.take(end), i, j);
}

/// Moves the element at `pos` up until its parent is at least as far.
fn sift_up<T>(data: &mut Vec<HeapElement<T>>, pos: usize)
    requires
        pos < old(data)@.len(),
        ordered_except(old(data)@, old(data)@.len() as int, pos as int, false, true),
    ensures
        heap_ordered(final(data)@),
        final(data)@.len() == old(data)@.len(),
        final(data)@.to_multiset() =~= old(data)@.to_multiset(),
        final(data)@ == risen(old(data)@, pos as int),
{
    let ghost before = data@;
    let ghost from = pos as int;
    let mut pos = pos;
    while pos > 0 && data[pos].distance > data[(pos - 1) / 2].distance
        invariant
            risen(data@, pos as int) == risen(before, from),
            pos < data@.len(),
            data@.len() == before.len(),
            data@.to_multiset() =~= before.to_multiset(),
            ordered_except(data@, data@.len() as int, pos as int, false, true),
        decreases pos,
    {
        let parent = (pos - 1) / 2;
        proof {
            reveal(risen);
            lemma_swapped_multiset(data@, parent as int, pos as int);
        }
        swap_items(data, parent, pos);
        pos = parent;
    }
    proof {
        reveal(risen);
    }
}

/// Moves the first element down to a leaf, always towards the farther child,
/// then back up to where it belongs.
fn sift_down_to_bottom<T>(data: &mut Vec<HeapElement<T>>)
    requires
        old(data)@.len() > 0,
        ordered_except(old(data)@, old(data)@.len() as int, 0, false, false),
    ensures
        heap_ordered(final(data)@),
        final(data)@.len() == old(data)@.len(),
        final(data)@.to_multiset() =~= old(data)@.to_multiset(),
        final(data)@ == sunk_to_bottom(old(data)@, 0),
{
    let ghost before = data@;
    let end = data.len();
    let mut pos: usize = 0;
    while end >= 2 && pos <= (end - 2) / 2
        invariant
            sunk_to_bottom(data@, pos as int) == sunk_to_bottom(before, 0),
            end == data@.len(),
            end == before.len(),
            0 <= pos < end,
            data@.to_multiset() =~= before.to_multiset(),
            ordered_except(data@, end as int, pos as int, false, false),
        decreases end - pos,
    {
        let mut child = 2 * pos + 1;
        if child + 1 < end && data[child].distance <= data[child + 1].distance {
            child += 1;
        }
        proof {
            reveal(sunk_to_bottom);
            lemma_swapped_multiset(data@, pos as int, child as int);
        }
        swap_items(data, pos, child);
        pos = child;
    }
    assert(ordered_except(data@, end as int, pos as int, false, true));
    proof {
        reveal(sunk_to_bottom);
    }
    sift_up(data, pos);
}

/// Moves the first element down among the first `end` elements until neither
/// child is farther.
fn sift_down_range<T>(data: &mut Vec<HeapElement<T>>, end: usize)
    requires
        0 < end <= old(data)@.len(),
        ordered_except(old(data)@, end as int, 0, true, false),
    ensures
        heap_ordered_to(final(data)@, end as int),
        final(data)@.len() == old(data)@.len(),
        final(data)@.to_multiset() =~= old(data)@.to_multiset(),
        final(data)@.take(end as int).to_multiset() =~= old(data)@.take(end as int).to_multiset(),
        final(data)@.skip(end as int) =~= old(data)@.skip(end as int),
        final(data)@ == sunk(old(data)@, end as int, 0),
{
    let ghost before = data@;
    let mut pos: usize = 0;
    let mut settled = false;
    while !settled && end >= 2 && pos <= (end - 2) / 2
        invariant
            !settled ==> sunk(data@, end as int, pos as int) == sunk(before, end as int, 0),
            settled ==> data@ == sunk(before, end as int, 0),
            0 <= pos < end <= data@.len(),
            data@.len() == before.len(),
            data@.to_multiset() =~= before.to_multiset(),
            data@.take(end as int).to_multiset() =~= before.take(end as int).to_multiset(),
            data@.skip(end as int) =~= before.skip(end as int),
            ordered_except(data@, end as int, pos as int, true, settled),
        decreases end - pos, if settled { 0int } else { 1int },
    {
        let mut child = 2 * pos + 1;
        if child + 1 < end && data[child].distance <= data[child + 1].distance {
            child += 1;
        }
        proof {
            reveal(sunk);
        }
        if data[pos].distance >= data[child].distance {
            settled = true;
        } else {
            proof {
                lemma_swapped_prefix(data@, end as int, pos as int, child as int);
                lemma_swapped_multiset(data@, pos as int, child as int);
            }
            swap_items(data, pos, child);
            pos = child;
        }
    }
    proof {
        reveal(sunk);
    }
}

/// A max-heap of ranked elements: the farthest one is always on top.
pub struct RankedHeap<T> {
    data: Vec<HeapElement<T>>,
}

impl<T> View for RankedHeap<T> {
    type V = Seq<HeapElement<T>>;

    /// The elements in the order in which the heap holds them.
    closed spec fn view(&self) -> Seq<HeapElement<T>> {
        self.data@
    }
}

impl<T> RankedHeap<T> {
    /// The elements are heap-ordered.
    pub open spec fn wf(&self) -> bool {
        heap_ordered(self@)
    }

    /// A heap that is no longer changed holds elements that are no longer
    /// changed.
    pub proof fn lemma_resolved(&self)
        requires
            has_resolved(*self),
        ensures
            forall|i: int| 0 <= i < self@.len() ==> has_resolved(#[trigger] self@[i]),
    {
        broadcast use vstd::std_specs::vec::axiom_vec_has_resolved;
        assert forall|i: int| 0 <= i < self@.len() implies has_resolved(#[trigger] self@[i]) by {
            assert(has_resolved(self.data));
            assert(has_resolved(self.data@[i]));
        }
    }

    /// An empty heap.
    pub fn new() -> (heap: Self)
        ensures
            heap.wf(),
            heap@ == Seq::<HeapElement<T>>::empty(),
    {
        RankedHeap { data: Vec::new() }
    }

    /// The number of elements.
    pub fn len(&self) -> (n: usize)
        ensures
            n == self@.len(),
    {
        self.data.len()
    }

    /// Whether the heap holds nothing.
    pub fn is_empty(&self) -> (b: bool)
        ensures
            b == (self@.len() == 0),
    {
        self.data.len() == 0
    }

    /// The farthest element, if there is one.
    pub fn peek(&self) -> (top: Option<&HeapElement<T>>)
        requires
            self.wf(),
        ensures
            self@.len() == 0 ==> top is None,
            self@.len() > 0 ==> top == Some(&self@[0]),
            forall|i: int| 0 <= i < self@.len() ==> (#[trigger] self@[i]).distance <= self@[0].distance,
    {
        proof {
            assert forall|i: int| 0 <= i < self@.len() implies (#[trigger] self@[i]).distance
                <= self@[0].distance by {
                lemma_first_is_farthest(self@, self@.len() as int, i);
            }
        }
        if self.data.len() == 0 {
            None
        } else {
            Some(&self.data[0])
        }
    }

    /// Adds an element.
    pub fn push(&mut self, item: HeapElement<T>)
        requires
            old(self).wf(),
        ensures
            final(self).wf(),
            final(self)@.len() == old(self)@.len() + 1,
            final(self)@.to_multiset() =~= old(self)@.to_multiset().insert(item),
            final(self)@ == pushed(old(self)@, item),
    {
        let old_len = self.data.len();
        proof {
            reveal(pushed);
            vstd::seq_lib::to_multiset_build(self.data@, item);
        }
        self.data.push(item);
        sift_up(&mut self.data, old_len);
    }

    /// Takes the farthest element out, if there is one.
    pub fn pop(&mut self) -> (top: Option<HeapElement<T>>)
        requires
            old(self).wf(),
        ensures
            final(self).wf(),
            old(self)@.len() == 0 ==> top is None && final(self)@ == old(self)@,
            old(self)@.len() > 0 ==> top == Some(old(self)@[0]) && final(self)@.len() == old(self)@.len() - 1
                && old(self)@.to_multiset() =~= final(self)@.to_multiset().insert(old(self)@[0]),
            final(self)@ == popped(old(self)@),
            forall|i: int| 0 <= i < old(self)@.len() ==> (#[trigger] old(self)@[i]).distance <= old(self)@[0].distance,
    {
        let ghost before = self.data@;
        proof {
            reveal(popped);
            assert forall|i: int| 0 <= i < before.len() implies (#[trigger] before[i]).distance
                <= before[0].distance by {
                lemma_first_is_farthest(before, before.len() as int, i);
            }
        }
        match self.data.pop() {
            None => None,
            Some(mut item) => {
                if self.data.len() > 0 {
                    proof {
                        vstd::seq_lib::to_multiset_build(before.drop_last(), before.last());
                        assert(before.drop_last().push(before.last()) =~= before);
                        lemma_swapped_multiset(before, 0, before.len() - 1);
                        assert(swapped(before, 0, before.len() - 1).drop_last() =~= before.drop_last().update(
                            0,
                            before.last(),
                        ));
                        vstd::seq_lib::to_multiset_build(before.drop_last().update(0, before.last()), before[0]);
                        assert(before.drop_last().update(0, before.last()).push(before[0]) =~= swapped(
                            before,
                            0,
                            before.len() - 1,
                        ));
                    }
                    core::mem::swap(&mut item, &mut self.data[0]);
                    assert(self.data@ =~= before.drop_last().update(0, before.last()));
                    sift_down_to_bottom(&mut self.data);
                } else {
                    proof {
                        vstd::seq_lib::to_multiset_build(before.drop_last(), before.last());
                        assert(before.drop_last().push(before.last()) =~= before);
                        assert(self.data@ =~= Seq::<HeapElement<T>>::empty());
                    }
                }
                Some(item)
            },
        }
    }

    /// The elements in the order in which the heap holds them.
    pub fn into_vec(self) -> (items: Vec<HeapElement<T>>)
        ensures
            items@ == self@,
    {
        self.data
    }

    /// The elements from the nearest to the farthest.
    pub fn into_sorted_vec(self) -> (items: Vec<HeapElement<T>>)
        requires
            self.wf(),
        ensures
            ascending(items@),
            items@.len() == self@.len(),
            items@.to_multiset() =~= self@.to_multiset(),
            items@ == sorted(self@, self@.len() as int),
    {
        let mut data = self.data;
        let ghost before = data@;
        let mut end = data.len();
        proof {
            lemma_rising_from_the_end(before);
        }
        while end > 1
            invariant
                sorted(data@, end as int) == sorted(before, before.len() as int),
                end <= data@.len(),
                data@.len() == before.len(),
                data@.to_multiset() =~= before.to_multiset(),
                heap_ordered_to(data@, end as int),
                rising_from(data@, end as int),
                end < data@.len() ==> forall|i: int|
                    0 <= i < end ==> (#[trigger] data@[i]).distance <= data@[end as int].distance,
            decreases end,
        {
            end -= 1;
            proof {
                lemma_sorted_round(data@, end + 1);
            }
            sort_round(&mut data, end);
        }
        proof {
            lemma_sorted_round(data@, end as int);
            lemma_rising_from_the_start(data@, end as int);
            assert forall|i: int, j: int| 0 <= i <= j < data@.len() implies (#[trigger] data@[i]).distance <= (
            #[trigger] data@[j]).distance by {
                lemma_rising_is_ascending(data@, i, j);
            }
        }
        data
    }
}

/// One round of the sorting: the first element, the farthest of the first
/// `end + 1`, changes place with the last of them, and what took its place
/// moves down among the others.
fn sort_round<T>(data: &mut Vec<HeapElement<T>>, end: usize)
    requires
        1 <= end < old(data)@.len(),
        heap_ordered_to(old(data)@, end + 1),
        rising_from(old(data)@, end + 1),
        end + 1 < old(data)@.len() ==> forall|i: int|
            0 <= i < end + 1 ==> (#[trigger] old(data)@[i]).distance <= old(data)@[end + 1].distance,
    ensures
        final(data)@.len() == old(data)@.len(),
        final(data)@.to_multiset() =~= old(data)@.to_multiset(),
        heap_ordered_to(final(data)@, end as int),
        rising_from(final(data)@, end as int),
        forall|i: int| 0 <= i < end ==> (#[trigger] final(data)@[i]).distance <= final(data)@[end as int].distance,
        final(data)@ == settled_last(old(data)@, end as int),
{
    let ghost heap = data@;
    proof {
        reveal(rising_from);
        assert forall|i: int| 0 <= i <= end implies (#[trigger] heap[i]).distance <= heap[0].distance by {
            lemma_first_is_farthest(heap, end + 1, i);
        }
        lemma_swapped_multiset(heap, 0, end as int);
    }
    swap_items(data, 0, end);
    let ghost mid = data@;
    sift_down_range(data, end);
    proof {
        lemma_prefix_bound(mid, data@, end as int, heap[0].distance);
        assert forall|j: int| end <= j < data@.len() implies (#[trigger] data@[j]) == mid[j] by {
            assert(data@.skip(end as int)[j - end] == mid.skip(end as int)[j - end]);
        }
        reveal(settled_last);
    }
}

/// Whether `image` keeps the distance of every element.
pub open spec fn keeps_distances<A, B>(image: spec_fn(HeapElement<A>) -> HeapElement<B>) -> bool {
    forall|x: HeapElement<A>| (#[trigger] image(x)).distance == x.distance
}

/// An element moves up by the distances alone: whatever the elements carry.
pub proof fn lemma_risen_image<A, B>(
    s: Seq<HeapElement<A>>,
    pos: int,
    image: spec_fn(HeapElement<A>) -> HeapElement<B>,
)
    requires
        keeps_distances(image),
    ensures
        risen(s.map_values(image), pos) == risen(s, pos).map_values(image),
    decreases pos,
{
    reveal(risen);
    let t = s.map_values(image);
    if 0 < pos < s.len() {
        let up = (pos - 1) / 2;
        assert(t[pos] == image(s[pos]));
        assert(t[up] == image(s[up]));
        if s[pos].distance > s[up].distance {
            assert(swapped(t, up, pos) =~= swapped(s, up, pos).map_values(image));
            lemma_risen_image(swapped(s, up, pos), up, image);
        }
    }
}

/// An element moves down to the bottom by the distances alone.
pub proof fn lemma_sunk_to_bottom_image<A, B>(
    s: Seq<HeapElement<A>>,
    pos: int,
    image: spec_fn(HeapElement<A>) -> HeapElement<B>,
)
    requires
        keeps_distances(image),
    ensures
        sunk_to_bottom(s.map_values(image), pos) == sunk_to_bottom(s, pos).map_values(image),
    decreases s.len() - pos,
{
    reveal(sunk_to_bottom);
    let t = s.map_values(image);
    if 0 <= pos && s.len() >= 2 && pos <= (s.len() - 2) / 2 {
        assert(t[2 * pos + 1] == image(s[2 * pos + 1]));
        if 2 * pos + 2 < s.len() {
            assert(t[2 * pos + 2] == image(s[2 * pos + 2]));
        }
        let child = farther_child(s, pos, s.len() as int);
        assert(child == farther_child(t, pos, t.len() as int));
        assert(swapped(t, pos, child) =~= swapped(s, pos, child).map_values(image));
        lemma_sunk_to_bottom_image(swapped(s, pos, child), child, image);
    } else {
        lemma_risen_image(s, pos, image);
    }
}

/// A heap takes an element in by the distances alone.
pub proof fn lemma_pushed_image<A, B>(
    s: Seq<HeapElement<A>>,
    item: HeapElement<A>,
    image: spec_fn(HeapElement<A>) -> HeapElement<B>,
)
    requires
        keeps_distances(image),
    ensures
        pushed(s.map_values(image), image(item)) == pushed(s, item).map_values(image),
{
    reveal(pushed);
    assert(s.map_values(image).push(image(item)) =~= s.push(item).map_values(image));
    lemma_risen_image(s.push(item), s.len() as int, image);
}

/// A heap gives its first element up by the distances alone.
pub proof fn lemma_popped_image<A, B>(s: Seq<HeapElement<A>>, image: spec_fn(HeapElement<A>) -> HeapElement<B>)
    requires
        keeps_distances(image),
    ensures
        popped(s.map_values(image)) == popped(s).map_values(image),
{
    reveal(popped);
    if s.len() <= 1 {
        assert(Seq::<HeapElement<B>>::empty() =~= Seq::<HeapElement<A>>::empty().map_values(image));
    } else {
        let t = s.map_values(image);
        assert(t.drop_last().update(0, t.last()) =~= s.drop_last().update(0, s.last()).map_values(image));
        lemma_sunk_to_bottom_image(s.drop_last().update(0, s.last()), 0, image);
    }
}

} // verus!
