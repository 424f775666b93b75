//! The double-ended priority queue of packets, kept in a `min_max_heap::MinMaxHeap`.

use min_max_heap::MinMaxHeap;
use vstd::multiset::Multiset;
use vstd::prelude::*;

use crate::packet::PacketKey;

verus! {

/// `min_max_heap::MinMaxHeap`, the double-ended priority queue.
#[verifier::external_type_specification]
#[verifier::external_body]
#[verifier::reject_recursive_types(T)]
pub struct ExMinMaxHeap<T>(MinMaxHeap<T>);

/// The keys that a heap holds, each as often as it was put in.
pub uninterp spec fn heap_contents(heap: MinMaxHeap<PacketKey>) -> Multiset<PacketKey>;

/// The lexicographic order of tuples: the price decides, then the halves of the hash.
pub open spec fn key_le(a: PacketKey, b: PacketKey) -> bool {
    ||| a.0 < b.0
    ||| a.0 == b.0 && a.1 < b.1
    ||| a.0 == b.0 && a.1 == b.1 && a.2 <= b.2
}

/// From the greatest key down to the least.
pub open spec fn descending(keys: Seq<PacketKey>) -> bool {
    forall|i: int, j: int| 0 <= i < j < keys.len() ==> key_le(#[trigger] keys[j], #[trigger] keys[i])
}

/// So many keys take less than the half of the address space that an allocation may have.
pub open spec fn fits_in_memory(capacity: usize) -> bool {
    capacity <= usize::MAX / 128
}

/// `MinMaxHeap::with_capacity`: an empty heap, whatever space it was given. It panics where the
/// space is more than an allocation may have; a key takes 48 bytes.
#[verifier::external_body]
pub(crate) fn heap_with_capacity(capacity: usize) -> (heap: MinMaxHeap<PacketKey>)
    requires
        fits_in_memory(capacity),
    ensures
        heap_contents(heap) == Multiset::<PacketKey>::empty(),
{
    MinMaxHeap::with_capacity(capacity)
}

/// `MinMaxHeap::len`: how many keys the heap holds.
#[verifier::external_body]
pub(crate) fn heap_len(heap: &MinMaxHeap<PacketKey>) -> (len: usize)
    ensures
        len == heap_contents(*heap).len(),
{
    heap.len()
}

/// `MinMaxHeap::push`: one more key.
#[verifier::external_body]
pub(crate) fn heap_push(heap: &mut MinMaxHeap<PacketKey>, key: PacketKey)
    ensures
        heap_contents(*final(heap)) == heap_contents(*old(heap)).insert(key),
{
    heap.push(key)
}

/// `Extend::extend` of `MinMaxHeap`: every key of the vector is pushed.
#[verifier::external_body]
pub(crate) fn heap_extend(heap: &mut MinMaxHeap<PacketKey>, keys: Vec<PacketKey>)
    ensures
        heap_contents(*final(heap)) == heap_contents(*old(heap)).add(keys@.to_multiset()),
{
    heap.extend(keys)
}

/// `MinMaxHeap::push_pop_min`: the key goes in and the least of all keys, which may be that one,
/// comes out.
#[verifier::external_body]
pub(crate) fn heap_push_pop_min(heap: &mut MinMaxHeap<PacketKey>, key: PacketKey) -> (least:
    PacketKey)
    ensures
        heap_contents(*old(heap)).insert(key).contains(least),
        forall|k: PacketKey| #[trigger]
            heap_contents(*old(heap)).insert(key).contains(k) ==> key_le(least, k),
        heap_contents(*final(heap)) == heap_contents(*old(heap)).insert(key).remove(least),
{
    heap.push_pop_min(key)
}

/// `MinMaxHeap::peek_min`: the least key, where there is one.
#[verifier::external_body]
pub(crate) fn heap_peek_min(heap: &MinMaxHeap<PacketKey>) -> (least: Option<PacketKey>)
    ensures
        least is None <==> heap_contents(*heap).len() == 0,
        least matches Some(key) ==> heap_contents(*heap).contains(key) && (forall|k: PacketKey|
            #[trigger] heap_contents(*heap).contains(k) ==> key_le(key, k)),
{
    heap.peek_min().copied()
}

/// `MinMaxHeap::peek_max`: the greatest key, where there is one.
#[verifier::external_body]
pub(crate) fn heap_peek_max(heap: &MinMaxHeap<PacketKey>) -> (greatest: Option<PacketKey>)
    ensures
        greatest is None <==> heap_contents(*heap).len() == 0,
        greatest matches Some(key) ==> heap_contents(*heap).contains(key) && (forall|k: PacketKey|
            #[trigger] heap_contents(*heap).contains(k) ==> key_le(k, key)),
{
    heap.peek_max().copied()
}

/// `MinMaxHeap::pop_max`: takes the greatest key out, where there is one.
#[verifier::external_body]
pub(crate) fn heap_pop_max(heap: &mut MinMaxHeap<PacketKey>) -> (greatest: Option<PacketKey>)
    ensures
        match greatest {
            Some(key) => {
                &&& heap_contents(*old(heap)).contains(key)
                &&& forall|k: PacketKey| #[trigger]
                    heap_contents(*old(heap)).contains(k) ==> key_le(k, key)
                &&& heap_contents(*final(heap)) == heap_contents(*old(heap)).remove(key)
            },
            None => {
                &&& heap_contents(*old(heap)).len() == 0
                &&& heap_contents(*final(heap)) == heap_contents(*old(heap))
            },
        },
{
    heap.pop_max()
}

/// `MinMaxHeap::drain_desc`: takes every key out, the greatest first.
#[verifier::external_body]
pub(crate) fn heap_drain_desc(heap: &mut MinMaxHeap<PacketKey>) -> (keys: Vec<PacketKey>)
    ensures
        keys@.to_multiset() == heap_contents(*old(heap)),
        descending(keys@),
        heap_contents(*final(heap)) == Multiset::<PacketKey>::empty(),
{
    heap.drain_desc().collect()
}

/// `MinMaxHeap::clear`: takes every key out.
#[verifier::external_body]
pub(crate) fn heap_clear(heap: &mut MinMaxHeap<PacketKey>)
    ensures
        heap_contents(*final(heap)) == Multiset::<PacketKey>::empty(),
{
    heap.clear()
}

/// The order of keys goes by the first number, then the second, then the third: it is total, and what
/// is neither below nor above is equal.
pub proof fn law_keys_are_ordered_by_their_parts(a: PacketKey, b: PacketKey)
    ensures
        a.0 < b.0 ==> key_le(a, b) && !key_le(b, a),
        a.0 == b.0 && a.1 < b.1 ==> key_le(a, b) && !key_le(b, a),
        a.0 == b.0 && a.1 == b.1 && a.2 < b.2 ==> key_le(a, b) && !key_le(b, a),
        key_le(a, a),
        key_le(a, b) || key_le(b, a),
        key_le(a, b) && key_le(b, a) ==> a == b,
{
}

} // verus!
