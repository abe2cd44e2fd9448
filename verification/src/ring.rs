//! Samples on their way between threads, through the ring buffers of `rtrb`. A ring holds the
//! bit patterns of samples.

use crate::binary32::Binary32;
use crate::blend::zero;
use vstd::prelude::*;

verus! {

/// The writing end of a ring buffer, `rtrb::Producer`.
#[verifier::external_type_specification]
#[verifier::external_body]
#[verifier::reject_recursive_types(T)]
pub struct ExProducer<T>(rtrb::Producer<T>);

/// The reading end of a ring buffer, `rtrb::Consumer`.
#[verifier::external_type_specification]
#[verifier::external_body]
#[verifier::reject_recursive_types(T)]
pub struct ExConsumer<T>(rtrb::Consumer<T>);

/// What `rtrb` answers when a ring has too few slots.
#[verifier::external_type_specification]
#[verifier::external_body]
pub struct ExChunkError(rtrb::chunks::ChunkError);

/// All items that were pushed into a ring by its writing end.
pub uninterp spec fn pushed(p: rtrb::Producer<u32>) -> Seq<u32>;

/// The slots that the writing end knows to be free: what `Producer::cached_slots` tells.
pub uninterp spec fn room(p: rtrb::Producer<u32>) -> nat;

/// All items that were popped out of a ring by its reading end.
pub uninterp spec fn popped(c: rtrb::Consumer<u32>) -> Seq<u32>;

/// The items that the reading end knows to be there: what `Consumer::cached_slots` tells.
pub uninterp spec fn ready(c: rtrb::Consumer<u32>) -> nat;

/// `rtrb::RingBuffer::new`: a ring with all of its slots free. The slots are allocated at once,
/// which `Vec::with_capacity` refuses beyond `isize::MAX` bytes.
#[verifier::external_body]
fn new_ring(capacity: usize) -> (r: (rtrb::Producer<u32>, rtrb::Consumer<u32>))
    requires
        capacity * 4 <= isize::MAX,
    ensures
        pushed(r.0) == Seq::<u32>::empty(),
        room(r.0) == capacity,
        popped(r.1) == Seq::<u32>::empty(),
        ready(r.1) == 0,
{
    rtrb::RingBuffer::new(capacity)
}

/// `rtrb::Producer::slots`: looks up how many slots are free, which the writing end then knows.
/// How many there are rests with the other end, and is not said here.
#[verifier::external_body]
fn free_slots(p: &mut rtrb::Producer<u32>) -> (r: usize)
    ensures
        pushed(*final(p)) == pushed(*old(p)),
        room(*final(p)) == r,
{
    p.slots()
}

/// `rtrb::Consumer::slots`: looks up how many items are there, which the reading end then
/// knows. How many there are rests with the other end, and is not said here.
#[verifier::external_body]
fn ready_slots(c: &mut rtrb::Consumer<u32>) -> (r: usize)
    ensures
        popped(*final(c)) == popped(*old(c)),
        ready(*final(c)) == r,
{
    c.slots()
}

/// `rtrb::Producer::push_entire_slice`: pushes all items, or none where too few slots are
/// free. It does not fail for as many as are known to be free, and those are then used up.
#[verifier::external_body]
fn push_all(p: &mut rtrb::Producer<u32>, items: &[u32]) -> (r: Result<(), rtrb::chunks::ChunkError>)
    ensures
        r is Ok ==> pushed(*final(p)) == pushed(*old(p)) + items@,
        r is Err ==> pushed(*final(p)) == pushed(*old(p)),
        items@.len() <= room(*old(p)) ==> r is Ok && room(*final(p)) == room(*old(p))
            - items@.len(),
{
    p.push_entire_slice(items)
}

/// `rtrb::Consumer::pop_entire_slice`: fills the slice with the items that come next, or leaves
/// it where too few are there. It does not fail for as many as are known to be there, and those
/// are then used up. Which items come next rests with the other end: what is said is that all
/// items popped are those that were handed out, in order.
#[verifier::external_body]
fn pop_all(c: &mut rtrb::Consumer<u32>, items: &mut [u32]) -> (r: Result<
    (),
    rtrb::chunks::ChunkError,
>)
    ensures
        final(items)@.len() == old(items)@.len(),
        r is Ok ==> popped(*final(c)) == popped(*old(c)) + final(items)@,
        r is Err ==> popped(*final(c)) == popped(*old(c)) && final(items)@ == old(items)@,
        old(items)@.len() <= ready(*old(c)) ==> r is Ok && ready(*final(c)) == ready(*old(c))
            - old(items)@.len(),
{
    c.pop_entire_slice(items)
}

/// The bit patterns of samples.
pub open spec fn patterns(samples: Seq<Binary32>) -> Seq<u32> {
    Seq::new(samples.len(), |i: int| samples[i].bits)
}

/// A ring for one second of interleaved stereo samples.
pub fn second_of_stereo(sample_rate: u32) -> (r: (rtrb::Producer<u32>, rtrb::Consumer<u32>))
    requires
        sample_rate * 2 * 4 <= isize::MAX,
    ensures
        pushed(r.0) == Seq::<u32>::empty(),
        room(r.0) == sample_rate * 2,
        popped(r.1) == Seq::<u32>::empty(),
        ready(r.1) == 0,
{
    new_ring((sample_rate as usize) * 2)
}

/// Pushes as many samples as fit and drops the rest. Gives how many were pushed: all of them,
/// or as many as there were free slots, which are then used up.
pub fn push_fitting(producer: &mut rtrb::Producer<u32>, samples: &[Binary32]) -> (r: usize)
    ensures
        r <= samples@.len(),
        pushed(*final(producer)) == pushed(*old(producer)) + patterns(samples@.take(r as int)),
        r < samples@.len() ==> room(*final(producer)) == 0,
{
    let available: usize = free_slots(producer);
    let mut to_write: usize = samples.len();
    if available < to_write {
        to_write = available;
    }
    if to_write == 0 {
        assert(pushed(*old(producer)) + patterns(samples@.take(0)) =~= pushed(*old(producer)));
        return 0;
    }
    let mut items: Vec<u32> = Vec::new();
    while items.len() < to_write
        invariant
            items.len() <= to_write <= samples@.len(),
            forall|i: int| 0 <= i < items.len() ==> items[i] == samples@[i].bits,
        decreases to_write - items.len(),
    {
        let i: usize = items.len();
        items.push(samples[i].bits);
    }
    assert(items@ =~= patterns(samples@.take(to_write as int)));
    let _ = push_all(producer, items.as_slice());
    to_write
}

/// Takes as many items as are there, up to a number, and fills up with silence. Gives the
/// samples, and how many of them were taken.
pub fn pop_or_silence(consumer: &mut rtrb::Consumer<u32>, len: usize) -> (r: (Vec<Binary32>, usize))
    ensures
        r.0@.len() == len,
        r.1 <= len,
        popped(*final(consumer)) == popped(*old(consumer)) + patterns(r.0@.take(r.1 as int)),
        forall|i: int| r.1 <= i < len ==> r.0@[i] == zero(),
        r.1 < len ==> ready(*final(consumer)) == 0,
{
    let available: usize = ready_slots(consumer);
    let mut to_read: usize = len;
    if available < to_read {
        to_read = available;
    }
    let mut items: Vec<u32> = zeros(to_read);
    if to_read > 0 {
        let _ = pop_all(consumer, items.as_mut_slice());
    }
    let mut out: Vec<Binary32> = Vec::new();
    while out.len() < len
        invariant
            out.len() <= len,
            items.len() == to_read <= len,
            forall|i: int| 0 <= i < out.len() && i < to_read ==> out[i].bits == items[i],
            forall|i: int| to_read <= i < out.len() ==> out[i] == zero(),
        decreases len - out.len(),
    {
        let i: usize = out.len();
        if i < to_read {
            out.push(Binary32 { bits: items[i] });
        } else {
            out.push(Binary32 { bits: 0 });
        }
    }
    assert(patterns(out@.take(to_read as int)) =~= items@);
    if to_read == 0 {
        assert(popped(*old(consumer)) + items@ =~= popped(*old(consumer)));
    }
    (out, to_read)
}

/// Zeros.
pub fn zeros(len: usize) -> (r: Vec<u32>)
    ensures
        r@ == Seq::new(len as nat, |i: int| 0u32),
{
    let mut v: Vec<u32> = Vec::new();
    while v.len() < len
        invariant
            v.len() <= len,
            forall|i: int| 0 <= i < v.len() ==> v[i] == 0,
        decreases len - v.len(),
    {
        v.push(0);
    }
    assert(v@ =~= Seq::new(len as nat, |i: int| 0u32));
    v
}

/// Whether at least a number of items are there.
pub fn has_ready(consumer: &mut rtrb::Consumer<u32>, len: usize) -> (r: bool)
    ensures
        popped(*final(consumer)) == popped(*old(consumer)),
        r == (ready(*final(consumer)) >= len),
{
    ready_slots(consumer) >= len
}

/// Reads one hop of interleaved samples. Where too few are there, the hop that was read before
/// stays.
pub fn read_hop(consumer: &mut rtrb::Consumer<u32>, hop_buf: &mut Vec<u32>)
    ensures
        final(hop_buf)@.len() == old(hop_buf)@.len(),
        popped(*final(consumer)) == popped(*old(consumer)) + final(hop_buf)@ || (popped(
            *final(consumer),
        ) == popped(*old(consumer)) && final(hop_buf)@ == old(hop_buf)@),
        old(hop_buf)@.len() <= ready(*old(consumer)) ==> popped(*final(consumer)) == popped(
            *old(consumer),
        ) + final(hop_buf)@ && ready(*final(consumer)) == ready(*old(consumer))
            - old(hop_buf)@.len(),
{
    let _ = pop_all(consumer, hop_buf.as_mut_slice());
}

} // verus!
