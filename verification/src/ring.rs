//! The sample buffers between the audio callbacks and the streaming methods: bounded,
//! first in first out, one side writing and the other reading from different threads.
//!
//! A sample is the bit pattern of a single-precision amplitude.

use vstd::prelude::*;

verus! {

/// Frames that a capture buffer holds: about ten seconds at 48 kHz.
pub const RING_BUFFER_FRAMES: usize = 480000;

/// Frames that a monitor buffer holds: about two seconds at the output rate.
pub const MONITOR_BUFFER_FRAMES: usize = 96000;

/// A sample buffer before it is split into its two halves.
#[verifier::external_body]
pub struct SampleRing {
    inner: ringbuf::HeapRb<u32>,
}

/// The writing half of a sample buffer.
#[verifier::external_body]
pub struct SampleProducer {
    inner: ringbuf::HeapProd<u32>,
}

/// The reading half of a sample buffer.
#[verifier::external_body]
pub struct SampleConsumer {
    inner: ringbuf::HeapCons<u32>,
}

/// What the buffer holds, the oldest sample first.
pub uninterp spec fn ring_contents(ring: SampleRing) -> Seq<u32>;

/// The number of samples that the buffer was made for.
pub uninterp spec fn ring_capacity(ring: SampleRing) -> nat;

/// Every sample that went into the buffer through this half, from the first on.
pub uninterp spec fn pushed(producer: SampleProducer) -> Seq<u32>;

/// Every sample that came out of the buffer through this half, from the first on.
pub uninterp spec fn popped(consumer: SampleConsumer) -> Seq<u32>;

/// The number of samples that the buffer behind this half was made for.
pub uninterp spec fn producer_capacity(producer: SampleProducer) -> nat;

/// The number of samples that the buffer behind this half was made for.
pub uninterp spec fn consumer_capacity(consumer: SampleConsumer) -> nat;

/// How many samples this half has seen waiting and not taken out since. They wait until it
/// takes them out; more may have come.
pub uninterp spec fn seen_waiting(consumer: SampleConsumer) -> nat;

/// How many samples the reading half had taken out when this half last looked. More may have
/// been taken out since.
pub uninterp spec fn seen_taken(producer: SampleProducer) -> nat;

/// All the samples that the buffer behind this half carries over its whole life.
pub uninterp spec fn producer_stream(producer: SampleProducer) -> Seq<u32>;

/// All the samples that the buffer behind this half carries over its whole life.
pub uninterp spec fn consumer_stream(consumer: SampleConsumer) -> Seq<u32>;

/// Calls `HeapRb::new` of ringbuf: an empty buffer for exactly `capacity` samples. The call
/// panics on a capacity of zero and on one whose bytes no allocation can hold.
#[verifier::external_body]
fn new_ring(capacity: usize) -> (ring: SampleRing)
    requires
        0 < capacity,
        4 * capacity <= isize::MAX,
    ensures
        ring_contents(ring) == Seq::<u32>::empty(),
        ring_capacity(ring) == capacity,
{
    SampleRing { inner: ringbuf::HeapRb::<u32>::new(capacity) }
}

/// Calls `Split::split` of ringbuf: the two halves of the buffer, with what it holds.
#[verifier::external_body]
fn split_ring(ring: SampleRing) -> (halves: (SampleProducer, SampleConsumer))
    ensures
        pushed(halves.0) == ring_contents(ring),
        popped(halves.1) == Seq::<u32>::empty(),
        seen_waiting(halves.1) == 0,
        seen_taken(halves.0) == 0,
        producer_capacity(halves.0) == ring_capacity(ring),
        consumer_capacity(halves.1) == ring_capacity(ring),
        producer_stream(halves.0) == consumer_stream(halves.1),
{
    let (producer, consumer) = ringbuf::traits::Split::split(ring.inner);
    (SampleProducer { inner: producer }, SampleConsumer { inner: consumer })
}

/// Calls `Producer::push_slice` of ringbuf: it looks how many samples the reading half has
/// taken out by then, the first `count` samples go in, in order, as many as there is room for,
/// and the rest is left out. How many the reading half has taken out is not stated beyond its
/// bounds: at least as many as were seen before, at most as many as went in.
#[verifier::external_body]
fn push_slice(producer: &mut SampleProducer, samples: &[u32]) -> (count: usize)
    ensures
        seen_taken(*old(producer)) <= seen_taken(*final(producer)) <= pushed(*old(producer)).len(),
        count == smaller(
            samples@.len() as int,
            room(*old(producer), seen_taken(*final(producer))),
        ),
        pushed(*final(producer)) == pushed(*old(producer)) + samples@.take(count as int),
        pushed(*final(producer)).is_prefix_of(producer_stream(*final(producer))),
        producer_stream(*final(producer)) == producer_stream(*old(producer)),
        producer_capacity(*final(producer)) == producer_capacity(*old(producer)),
{
    ringbuf::traits::Producer::push_slice(&mut producer.inner, samples)
}

/// Calls `Consumer::pop_slice` of ringbuf: the oldest `count` samples come out, in the order
/// in which they went in, and stand at the front of `room`; the rest of `room` stays. What
/// was seen waiting comes out as far as there is room for it. How many more come out depends
/// on what the writing half has put in by then, so the count is not stated beyond its bounds.
#[verifier::external_body]
fn pop_slice(consumer: &mut SampleConsumer, room: &mut Vec<u32>) -> (count: usize)
    ensures
        count <= old(room)@.len(),
        count <= consumer_capacity(*old(consumer)),
        count == old(room)@.len() || count >= seen_waiting(*old(consumer)),
        seen_waiting(*final(consumer)) == less(seen_waiting(*old(consumer)), count as nat),
        final(room)@.len() == old(room)@.len(),
        final(room)@.skip(count as int) == old(room)@.skip(count as int),
        popped(*final(consumer)) == popped(*old(consumer)) + final(room)@.take(count as int),
        popped(*final(consumer)).is_prefix_of(consumer_stream(*final(consumer))),
        consumer_stream(*final(consumer)) == consumer_stream(*old(consumer)),
        consumer_capacity(*final(consumer)) == consumer_capacity(*old(consumer)),
{
    ringbuf::traits::Consumer::pop_slice(&mut consumer.inner, room.as_mut_slice())
}

/// Calls `Observer::occupied_len` of ringbuf: how many samples wait at this moment, at most
/// as many as the buffer holds and at least as many as were seen before. The writing half may
/// add to them at any time.
#[verifier::external_body]
fn occupied_len(consumer: &mut SampleConsumer) -> (count: usize)
    ensures
        count <= consumer_capacity(*old(consumer)),
        count >= seen_waiting(*old(consumer)),
        seen_waiting(*final(consumer)) == count,
        popped(*final(consumer)) == popped(*old(consumer)),
        consumer_stream(*final(consumer)) == consumer_stream(*old(consumer)),
        consumer_capacity(*final(consumer)) == consumer_capacity(*old(consumer)),
{
    ringbuf::traits::Observer::occupied_len(&consumer.inner)
}

/// A number without another, not below zero.
pub open spec fn less(a: nat, b: nat) -> nat {
    if a >= b {
        (a - b) as nat
    } else {
        0
    }
}

/// The smaller of two numbers.
pub open spec fn smaller(a: int, b: int) -> int {
    if a <= b {
        a
    } else {
        b
    }
}

/// The room in the buffer behind this half once so many samples were taken out.
pub open spec fn room(producer: SampleProducer, taken: nat) -> int {
    producer_capacity(producer) - (pushed(producer).len() - taken)
}

/// The consumer after `taken` came out of it.
pub open spec fn took(before: SampleConsumer, taken: Seq<u32>, after: SampleConsumer) -> bool {
    &&& popped(after) == popped(before) + taken
    &&& popped(before).is_prefix_of(consumer_stream(before)) ==> popped(after).is_prefix_of(
        consumer_stream(after),
    )
    &&& consumer_stream(after) == consumer_stream(before)
    &&& consumer_capacity(after) == consumer_capacity(before)
    &&& seen_waiting(after) >= less(seen_waiting(before), taken.len())
}

/// The consumer after everything that was seen waiting, and perhaps more, came out of it.
pub open spec fn drained(before: SampleConsumer, taken: Seq<u32>, after: SampleConsumer) -> bool {
    &&& took(before, taken, after)
    &&& taken.len() >= seen_waiting(before)
    &&& taken.len() <= consumer_capacity(before)
}

/// The producer after the first `count` of the samples offered went into it: all of them, or
/// as many as there was room for at the time.
pub open spec fn gave(
    before: SampleProducer,
    offered: Seq<u32>,
    count: int,
    after: SampleProducer,
) -> bool {
    &&& seen_taken(before) <= seen_taken(after) <= pushed(before).len()
    &&& 0 <= count == smaller(offered.len() as int, room(before, seen_taken(after)))
    &&& pushed(after) == pushed(before) + offered.take(count)
    &&& pushed(before).is_prefix_of(producer_stream(before)) ==> pushed(after).is_prefix_of(
        producer_stream(after),
    )
    &&& producer_stream(after) == producer_stream(before)
    &&& producer_capacity(after) == producer_capacity(before)
}

/// A new, empty buffer for `capacity` samples.
pub open spec fn fresh_ring(halves: (SampleProducer, SampleConsumer), capacity: nat) -> bool {
    &&& pushed(halves.0) == Seq::<u32>::empty()
    &&& popped(halves.1) == Seq::<u32>::empty()
    &&& seen_waiting(halves.1) == 0
    &&& seen_taken(halves.0) == 0
    &&& producer_capacity(halves.0) == capacity
    &&& consumer_capacity(halves.1) == capacity
    &&& producer_stream(halves.0) == consumer_stream(halves.1)
}

/// A buffer of `frames` frames of `channels` samples can be allocated.
pub open spec fn ring_fits(frames: usize, channels: u16) -> bool {
    channels > 0 && 4 * frames * channels <= isize::MAX
}

/// A buffer for `frames` frames of `channels` samples each.
fn frame_ring(frames: usize, channels: u16) -> (halves: (SampleProducer, SampleConsumer))
    requires
        0 < frames,
        ring_fits(frames, channels),
    ensures
        fresh_ring(halves, (frames * channels) as nat),
{
    assert(frames * channels >= 1 && 4 * (frames * channels) == 4 * frames * channels)
        by (nonlinear_arith)
        requires
            frames > 0,
            channels > 0,
    ;
    split_ring(new_ring(frames * channels as usize))
}

/// A capture buffer for a source with this many channels.
pub fn create_ring_buffer(channels: u16) -> (halves: (SampleProducer, SampleConsumer))
    requires
        ring_fits(RING_BUFFER_FRAMES, channels),
    ensures
        fresh_ring(halves, (RING_BUFFER_FRAMES * channels) as nat),
{
    frame_ring(RING_BUFFER_FRAMES, channels)
}

/// A monitor buffer for a stream with this many channels.
pub fn create_monitor_buffer(channels: u16) -> (halves: (SampleProducer, SampleConsumer))
    requires
        ring_fits(MONITOR_BUFFER_FRAMES, channels),
    ensures
        fresh_ring(halves, (MONITOR_BUFFER_FRAMES * channels) as nat),
{
    frame_ring(MONITOR_BUFFER_FRAMES, channels)
}

/// Puts as many of the samples into the buffer as there is room for, from the first on, and
/// returns how many those are; the others are lost.
pub fn push_samples(producer: &mut SampleProducer, samples: &[u32]) -> (count: usize)
    ensures
        gave(*old(producer), samples@, count as int, *final(producer)),
{
    push_slice(producer, samples)
}

/// Offers the same samples to two buffers, each of which takes what it has room for.
pub fn push_samples_dual(
    producer_a: &mut SampleProducer,
    producer_b: &mut SampleProducer,
    samples: &[u32],
) -> (counts: (usize, usize))
    ensures
        gave(*old(producer_a), samples@, counts.0 as int, *final(producer_a)),
        gave(*old(producer_b), samples@, counts.1 as int, *final(producer_b)),
{
    let count_a: usize = push_slice(producer_a, samples);
    let count_b: usize = push_slice(producer_b, samples);
    (count_a, count_b)
}

/// Takes samples out until `room` is full or the buffer is empty; they stand at the front of
/// `room`, whose rest stays.
pub fn pop_samples(consumer: &mut SampleConsumer, room: &mut Vec<u32>) -> (count: usize)
    ensures
        count <= old(room)@.len(),
        count <= consumer_capacity(*old(consumer)),
        count == old(room)@.len() || count >= seen_waiting(*old(consumer)),
        seen_waiting(*final(consumer)) == less(seen_waiting(*old(consumer)), count as nat),
        final(room)@.len() == old(room)@.len(),
        final(room)@.skip(count as int) == old(room)@.skip(count as int),
        took(*old(consumer), final(room)@.take(count as int), *final(consumer)),
{
    pop_slice(consumer, room)
}

/// How many samples wait at this moment.
pub fn available(consumer: &mut SampleConsumer) -> (count: usize)
    ensures
        took(*old(consumer), Seq::empty(), *final(consumer)),
        seen_waiting(*old(consumer)) <= count <= consumer_capacity(*old(consumer)),
        seen_waiting(*final(consumer)) == count,
{
    assert(popped(*old(consumer)) =~= popped(*old(consumer)) + Seq::<u32>::empty());
    occupied_len(consumer)
}

/// Takes out what waits at this moment and leaves it in `window`: nothing, if nothing waits.
pub fn drain(consumer: &mut SampleConsumer, window: &mut Vec<u32>)
    ensures
        drained(*old(consumer), final(window)@, *final(consumer)),
{
    let waiting: usize = occupied_len(consumer);
    window.clear();
    window.resize(waiting, 0);
    let count: usize = pop_slice(consumer, window);
    window.truncate(count);
}

/// A new buffer starts in step, and taking out and putting in keep each half in step with
/// what the buffer carries, so what has come out at any time is what went in, in the same
/// order: the one is the beginning of the other.
pub proof fn law_first_in_first_out(producer: SampleProducer, consumer: SampleConsumer)
    requires
        producer_stream(producer) == consumer_stream(consumer),
        pushed(producer).is_prefix_of(producer_stream(producer)),
        popped(consumer).is_prefix_of(consumer_stream(consumer)),
    ensures
        popped(consumer).is_prefix_of(pushed(producer)) || pushed(producer).is_prefix_of(
            popped(consumer),
        ),
        popped(consumer).len() <= pushed(producer).len() ==> popped(consumer) == pushed(
            producer,
        ).take(popped(consumer).len() as int),
{
    let all = producer_stream(producer);
    let written = pushed(producer);
    let read = popped(consumer);
    if read.len() <= written.len() {
        assert(read =~= written.subrange(0, read.len() as int));
        assert(read =~= written.take(read.len() as int));
    } else {
        assert(written =~= read.subrange(0, written.len() as int));
    }
}

/// Both halves of a new buffer are in step with what it carries.
pub proof fn law_fresh_ring_in_step(halves: (SampleProducer, SampleConsumer), capacity: nat)
    requires
        fresh_ring(halves, capacity),
    ensures
        pushed(halves.0).is_prefix_of(producer_stream(halves.0)),
        popped(halves.1).is_prefix_of(consumer_stream(halves.1)),
        producer_stream(halves.0) == consumer_stream(halves.1),
{
}

/// Taking out twice is taking out both amounts, in that order.
pub proof fn law_takes_add_up(
    first: SampleConsumer,
    a: Seq<u32>,
    second: SampleConsumer,
    b: Seq<u32>,
    third: SampleConsumer,
)
    requires
        took(first, a, second),
        took(second, b, third),
    ensures
        took(first, a + b, third),
{
    assert(popped(third) =~= popped(first) + (a + b));
}

/// Leaving a buffer alone is taking out nothing.
pub proof fn law_take_nothing(consumer: SampleConsumer)
    ensures
        took(consumer, Seq::empty(), consumer),
{
    assert(popped(consumer) =~= popped(consumer) + Seq::<u32>::empty());
}

/// A new buffer holds nothing, nothing went through it, and it has room for what it was made
/// for.
pub proof fn law_fresh_ring_is_empty(halves: (SampleProducer, SampleConsumer), capacity: nat)
    requires
        fresh_ring(halves, capacity),
    ensures
        pushed(halves.0).len() == 0,
        popped(halves.1).len() == 0,
        seen_waiting(halves.1) == 0,
        seen_taken(halves.0) == 0,
        producer_capacity(halves.0) == capacity,
        consumer_capacity(halves.1) == capacity,
{
}

/// What goes in is the beginning of what is offered, behind what went in before: all of it
/// where there is room, and where something is left out the buffer is full.
pub proof fn law_full_before_anything_is_lost(
    before: SampleProducer,
    offered: Seq<u32>,
    count: int,
    after: SampleProducer,
)
    requires
        gave(before, offered, count, after),
    ensures
        0 <= count <= offered.len(),
        pushed(after) == pushed(before) + offered.take(count),
        producer_capacity(after) == producer_capacity(before),
        producer_stream(after) == producer_stream(before),
        pushed(before).len() + offered.len() <= producer_capacity(before) + seen_taken(before)
            ==> count == offered.len(),
        count < offered.len() ==> pushed(after).len() == producer_capacity(before) + seen_taken(
            after,
        ),
        pushed(after).len() <= producer_capacity(before) + seen_taken(after) || count == 0,
{
}

/// What is taken out follows what was taken out before, and what was seen waiting and not
/// taken still waits.
pub proof fn law_taken_follows_taken(before: SampleConsumer, taken: Seq<u32>, after: SampleConsumer)
    requires
        took(before, taken, after),
    ensures
        popped(after) == popped(before) + taken,
        consumer_stream(after) == consumer_stream(before),
        consumer_capacity(after) == consumer_capacity(before),
        seen_waiting(after) + taken.len() >= seen_waiting(before),
{
}

/// Draining takes out at least what was seen waiting, and no more than the buffer holds.
pub proof fn law_draining_takes_what_waits(
    before: SampleConsumer,
    taken: Seq<u32>,
    after: SampleConsumer,
)
    requires
        drained(before, taken, after),
    ensures
        popped(after) == popped(before) + taken,
        seen_waiting(before) <= taken.len() <= consumer_capacity(before),
{
}

/// A buffer can be made for every number of channels but none, as long as its bytes can be
/// addressed.
pub proof fn law_rings_fit(frames: usize, channels: u16)
    ensures
        ring_fits(frames, channels) <==> channels != 0 && frames * channels * 4 <= isize::MAX,
{
    assert(4 * frames * channels == frames * channels * 4) by (nonlinear_arith);
}

} // verus!
