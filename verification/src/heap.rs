//! The double-ended priority heaps of the scheduler, kept in the
//! `min_max_heap` crate's `MinMaxHeap` and reached through the trusted items
//! below.
use vstd::prelude::*;
use min_max_heap::MinMaxHeap;
use vstd::multiset::Multiset;
use crate::priority::{HeapItem, item_le};

verus! {

#[verifier::external_type_specification]
#[verifier::external_body]
#[verifier::reject_recursive_types(T)]
pub struct ExMinMaxHeap<T>(MinMaxHeap<T>);

/// The items that a heap holds.
pub uninterp spec fn heap_contents(heap: MinMaxHeap<(u64, u32, u64)>) -> Multiset<(u64, u32, u64)>;

/// `x` is at least every item of `m`.
pub open spec fn is_max_of(m: Multiset<HeapItem>, x: HeapItem) -> bool {
    forall|y: HeapItem| m.count(y) > 0 ==> item_le(y, x)
}

/// `x` is at most every item of `m`.
pub open spec fn is_min_of(m: Multiset<HeapItem>, x: HeapItem) -> bool {
    forall|y: HeapItem| m.count(y) > 0 ==> item_le(x, y)
}

/// `MinMaxHeap::with_capacity`: a new heap holds nothing.
#[verifier::external_body]
pub(crate) fn heap_with_capacity(capacity: usize) -> (heap: MinMaxHeap<HeapItem>)
    ensures
        heap_contents(heap) =~= Multiset::<HeapItem>::empty(),
{
    MinMaxHeap::with_capacity(capacity)
}

/// `MinMaxHeap::len`: the number of items held.
#[verifier::external_body]
pub(crate) fn heap_len(heap: &MinMaxHeap<HeapItem>) -> (n: usize)
    ensures
        n == heap_contents(*heap).len(),
{
    heap.len()
}

/// `MinMaxHeap::is_empty`: whether no item is held.
#[verifier::external_body]
pub(crate) fn heap_is_empty(heap: &MinMaxHeap<HeapItem>) -> (b: bool)
    ensures
        b == (heap_contents(*heap).len() == 0),
{
    heap.is_empty()
}

/// `MinMaxHeap::push`: the item joins the held items.
#[verifier::external_body]
pub(crate) fn heap_push(heap: &mut MinMaxHeap<HeapItem>, item: HeapItem)
    ensures
        heap_contents(*final(heap)) == heap_contents(*old(heap)).insert(item),
{
    heap.push(item)
}

/// `MinMaxHeap::pop_max`: removes and returns a greatest item, `None` when
/// the heap is empty (and then leaves it unchanged).
#[verifier::external_body]
pub(crate) fn heap_pop_max(heap: &mut MinMaxHeap<HeapItem>) -> (r: Option<HeapItem>)
    ensures
        match r {
            None => heap_contents(*old(heap)).len() == 0 && heap_contents(*final(heap)) == heap_contents(*old(heap)),
            Some(x) => {
                &&& heap_contents(*old(heap)).count(x) > 0
                &&& is_max_of(heap_contents(*old(heap)), x)
                &&& heap_contents(*final(heap)) == heap_contents(*old(heap)).remove(x)
            },
        },
{
    heap.pop_max()
}

/// `MinMaxHeap::pop_min`: removes and returns a least item, `None` when the
/// heap is empty (and then leaves it unchanged).
#[verifier::external_body]
pub(crate) fn heap_pop_min(heap: &mut MinMaxHeap<HeapItem>) -> (r: Option<HeapItem>)
    ensures
        match r {
            None => heap_contents(*old(heap)).len() == 0 && heap_contents(*final(heap)) == heap_contents(*old(heap)),
            Some(x) => {
                &&& heap_contents(*old(heap)).count(x) > 0
                &&& is_min_of(heap_contents(*old(heap)), x)
                &&& heap_contents(*final(heap)) == heap_contents(*old(heap)).remove(x)
            },
        },
{
    heap.pop_min()
}

} // verus!
