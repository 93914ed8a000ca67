//! The ring buffer of `ringbuf` that carries audio samples, seen through
//! trusted wrappers over the calls that the capture logic makes.

use vstd::prelude::*;
use ringbuf::traits::{Consumer, Producer};
use ringbuf::HeapRb;

verus! {

/// A `ringbuf` heap ring buffer of `u32` samples, held in a private field;
/// what it holds is seen only through `ring_contents` and `ring_capacity`.
#[verifier::external_body]
pub struct SampleRing {
    rb: HeapRb<u32>,
}

/// The samples that a ring buffer holds, eldest first.
pub uninterp spec fn ring_contents(rb: SampleRing) -> Seq<u32>;

/// The number of samples that a ring buffer was made to hold.
pub uninterp spec fn ring_capacity(rb: SampleRing) -> nat;

/// Calls `HeapRb::new`, which panics on a zero capacity. Trusted: the new
/// buffer is empty and holds up to `capacity` samples.
#[verifier::external_body]
pub(crate) fn new_ring(capacity: usize) -> (rb: SampleRing)
    requires
        capacity > 0,
    ensures
        ring_contents(rb) == Seq::<u32>::empty(),
        ring_capacity(rb) == capacity,
{
    SampleRing { rb: HeapRb::<u32>::new(capacity) }
}

/// Calls `Producer::push_slice`. Trusted: it appends the longest prefix of
/// `elems` that fits in the vacant room, returns its length, and keeps the
/// capacity; a buffer never holds more than its capacity. It does not
/// panic: every slice it takes is within the lengths it has just compared.
#[verifier::external_body]
pub(crate) fn ring_push_slice(rb: &mut SampleRing, elems: &[u32]) -> (n: usize)
    ensures
        ring_contents(*old(rb)).len() <= ring_capacity(*old(rb)),
        ring_capacity(*final(rb)) == ring_capacity(*old(rb)),
        n == (if elems@.len() <= ring_capacity(*old(rb)) - ring_contents(*old(rb)).len() {
            elems@.len() as int
        } else {
            ring_capacity(*old(rb)) - ring_contents(*old(rb)).len()
        }),
        ring_contents(*final(rb)) == ring_contents(*old(rb)) + elems@.take(n as int),
    no_unwind
{
    rb.rb.push_slice(elems)
}

/// Calls `Consumer::try_pop`. Trusted: it removes and returns the eldest
/// sample, or returns `None` and changes nothing when the buffer is empty;
/// it does not panic.
#[verifier::external_body]
pub(crate) fn ring_try_pop(rb: &mut SampleRing) -> (r: Option<u32>)
    ensures
        ring_capacity(*final(rb)) == ring_capacity(*old(rb)),
        ring_contents(*old(rb)).len() == 0 ==> r is None && ring_contents(*final(rb))
            == ring_contents(*old(rb)),
        ring_contents(*old(rb)).len() > 0 ==> r == Some(ring_contents(*old(rb))[0])
            && ring_contents(*final(rb)) == ring_contents(*old(rb)).drop_first(),
    no_unwind
{
    rb.rb.try_pop()
}

} // verus!
