//! Trusted declarations for the bounded eviction heap.
//!
//! Neighbor sampling keeps at most M candidate sessions; when the working
//! set is full, the candidate whose maximum timestamp is least is evicted.
//! The eviction order lives in a `dary_heap::OctonaryHeap<u64>` whose keys
//! are order-reversed encodings of (timestamp, session), so the heap's
//! greatest key is the least (timestamp, session) pair.  The heap's
//! contents are named by `heap_keys`; each wrapper states over that name
//! what the crate's source shows of the method it calls.

use vstd::prelude::*;
use vstd::multiset::Multiset;

verus! {

#[verifier::external_type_specification]
#[verifier::external_body]
#[verifier::reject_recursive_types(T)]
pub struct ExDaryHeap<T, const D: usize>(dary_heap::DaryHeap<T, D>);

/// The multiset of keys a heap holds.
pub uninterp spec fn heap_keys(h: dary_heap::OctonaryHeap<u64>) -> Multiset<u64>;

/// Relies on dary_heap::DaryHeap::with_capacity: returns an empty heap.
#[verifier::external_body]
pub(crate) fn heap_new(capacity: usize) -> (h: dary_heap::OctonaryHeap<u64>)
    ensures
        heap_keys(h) == Multiset::<u64>::empty(),
{
    dary_heap::OctonaryHeap::with_capacity(capacity)
}

/// Relies on dary_heap::DaryHeap::push: adds the item to the heap.
#[verifier::external_body]
pub(crate) fn heap_push(h: &mut dary_heap::OctonaryHeap<u64>, key: u64)
    ensures
        heap_keys(*final(h)) == heap_keys(*old(h)).insert(key),
{
    h.push(key)
}

/// Relies on dary_heap::DaryHeap::pop: removes and returns the greatest
/// item of the heap, or returns None if the heap is empty.
#[verifier::external_body]
pub(crate) fn heap_pop(h: &mut dary_heap::OctonaryHeap<u64>) -> (r: Option<u64>)
    ensures
        match r {
            Some(top) => heap_keys(*old(h)).count(top) > 0 && (forall|x: u64|
                heap_keys(*old(h)).count(x) > 0 ==> x <= top) && heap_keys(*final(h)) == heap_keys(
                *old(h),
            ).remove(top),
            None => heap_keys(*old(h)) == Multiset::<u64>::empty() && *final(h) == *old(h),
        },
{
    h.pop()
}

} // verus!
