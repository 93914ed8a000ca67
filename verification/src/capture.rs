//! The sample queue between the audio callback (the producer) and the
//! stream reader (the consumer), with the rules that end a capture that
//! keeps overflowing and that decide when the reader must be woken.
//!
//! Samples are carried as the bit patterns of the `f32` values that the
//! audio device delivers (`f32::to_bits`), so that the queue holds plain
//! integers; the reader turns them back with `f32::from_bits`.

use vstd::prelude::*;
use crate::ring::{new_ring, ring_capacity, ring_contents, ring_push_slice, ring_try_pop, SampleRing};

verus! {

/// The number of samples the queue can hold.
pub const RING_CAPACITY: usize = 1024 * 128;

/// The number of consecutive overflowing deliveries that is still tolerated;
/// one more ends the capture.
pub const MAX_CONSECUTIVE_DROPS: u32 = 50;

/// The sample rate configured for a ScreenCaptureKit stream.
pub const SC_STREAM_SAMPLE_RATE: u32 = 48000;

/// The abstract state of a sample channel.
pub struct ChannelState {
    /// The queued samples, eldest first.
    pub samples: Seq<u32>,
    /// The number of samples the queue can hold.
    pub capacity: nat,
    /// How many deliveries in a row could not queue all their samples.
    pub consecutive_drops: u32,
    /// Whether the capture has been asked to end.
    pub terminated: bool,
    /// Whether data has arrived since the reader last found the queue empty.
    pub has_data: bool,
}

/// What a call of `poll_next_sample` hands to the reader.
#[derive(Debug, Clone, Copy, PartialEq, Eq, Structural)]
pub enum PollOutcome {
    /// The eldest queued sample (the bits of an `f32`).
    Sample(u32),
    /// The queue is empty and the capture has ended.
    Finished,
    /// The queue is empty; the reader must wait to be woken.
    Pending,
}

/// What a delivery of samples did.
#[derive(Debug, Clone, Copy, PartialEq, Eq, Structural)]
pub struct Delivery {
    /// How many of the delivered samples were queued (a prefix of them).
    pub accepted: usize,
    /// Whether the reader, if it waits, must now be woken.
    pub wake_consumer: bool,
}

/// The queue of samples shared by the audio callback and the stream reader.
pub struct SampleChannel {
    ring: SampleRing,
    consecutive_drops: u32,
    should_terminate: bool,
    has_data: bool,
}

/// A well-formed state: the queue holds no more than its capacity, which is
/// `RING_CAPACITY`.
pub open spec fn wf_state(s: ChannelState) -> bool {
    s.samples.len() <= s.capacity && s.capacity == RING_CAPACITY
}

/// The free room in the queue.
pub open spec fn room(s: ChannelState) -> int {
    s.capacity - s.samples.len()
}

/// How many of `n` delivered samples fit: all of them, or as many as there
/// is room for.
pub open spec fn accepted_count(s: ChannelState, n: nat) -> nat {
    if n <= room(s) {
        n
    } else {
        room(s) as nat
    }
}

/// The drop counter after one more overflowing delivery (it wraps, as the
/// atomic counter it stands for does).
pub open spec fn next_drop_count(c: u32) -> u32 {
    if c == u32::MAX {
        0
    } else {
        (c + 1) as u32
    }
}

/// Whether delivering `data` overflows and ends the capture: the delivery
/// cannot queue all its samples, and that makes more than
/// `MAX_CONSECUTIVE_DROPS` overflowing deliveries in a row.
pub open spec fn delivery_terminates(s: ChannelState, data: Seq<u32>) -> bool {
    accepted_count(s, data.len()) < data.len() && next_drop_count(s.consecutive_drops)
        > MAX_CONSECUTIVE_DROPS
}

/// The state after the audio callback delivers `data`: the fitting prefix is
/// queued; an overflow counts one more drop (and may end the capture), a
/// complete delivery resets the count; unless the capture ended here, the
/// channel notes that data is available.
pub open spec fn after_delivery(s: ChannelState, data: Seq<u32>) -> ChannelState {
    let k = accepted_count(s, data.len());
    let samples = s.samples + data.take(k as int);
    if k < data.len() {
        let drops = next_drop_count(s.consecutive_drops);
        if drops > MAX_CONSECUTIVE_DROPS {
            ChannelState { samples, consecutive_drops: drops, terminated: true, ..s }
        } else {
            ChannelState { samples, consecutive_drops: drops, has_data: true, ..s }
        }
    } else {
        ChannelState { samples, consecutive_drops: 0, has_data: true, ..s }
    }
}

/// Whether delivering `data` must wake the reader: the capture did not end
/// with this delivery and no data was noted as available before.
pub open spec fn wakes_consumer(s: ChannelState, data: Seq<u32>) -> bool {
    !delivery_terminates(s, data) && !s.has_data
}

/// What the reader gets when it polls in state `s`.
pub open spec fn poll_result(s: ChannelState) -> PollOutcome {
    if s.samples.len() > 0 {
        PollOutcome::Sample(s.samples[0])
    } else if s.terminated {
        PollOutcome::Finished
    } else {
        PollOutcome::Pending
    }
}

/// The state after the reader polls in state `s`: a sample is taken off the
/// queue, or, when the reader must wait, data is noted as not available.
pub open spec fn after_poll(s: ChannelState) -> ChannelState {
    if s.samples.len() > 0 {
        ChannelState { samples: s.samples.drop_first(), ..s }
    } else if s.terminated {
        s
    } else {
        ChannelState { has_data: false, ..s }
    }
}

/// The state after the capture is asked to stop.
pub open spec fn after_stop(s: ChannelState) -> ChannelState {
    ChannelState { terminated: true, ..s }
}

impl View for SampleChannel {
    type V = ChannelState;

    closed spec fn view(&self) -> ChannelState {
        ChannelState {
            samples: ring_contents(self.ring),
            capacity: ring_capacity(self.ring),
            consecutive_drops: self.consecutive_drops,
            terminated: self.should_terminate,
            has_data: self.has_data,
        }
    }
}

impl SampleChannel {
    /// Every channel is well formed.
    #[verifier::type_invariant]
    spec fn channel_invariant(self) -> bool {
        wf_state(self@)
    }

    /// An empty channel of `RING_CAPACITY` samples, with no drops counted,
    /// not ended and with no data noted as available.
    pub fn new() -> (c: SampleChannel)
        ensures
            wf_state(c@),
            c@.samples == Seq::<u32>::empty(),
            c@.capacity == RING_CAPACITY,
            c@.consecutive_drops == 0,
            !c@.terminated,
            !c@.has_data,
    {
        SampleChannel {
            ring: new_ring(RING_CAPACITY),
            consecutive_drops: 0,
            should_terminate: false,
            has_data: false,
        }
    }

    /// Delivers the samples of one audio callback: queues what fits, counts
    /// an overflow (ending the capture after more than
    /// `MAX_CONSECUTIVE_DROPS` in a row), and says whether to wake the reader.
    pub fn process_audio_data(&mut self, data: &[u32]) -> (d: Delivery)
        ensures
            wf_state(final(self)@),
            final(self)@ == after_delivery(old(self)@, data@),
            d.accepted == accepted_count(old(self)@, data@.len()),
            d.wake_consumer == wakes_consumer(old(self)@, data@),
    {
        proof {
            use_type_invariant(&*self);
        }
        let pushed = ring_push_slice(&mut self.ring, data);
        if pushed < data.len() {
            let consecutive = if self.consecutive_drops == u32::MAX {
                0
            } else {
                self.consecutive_drops + 1
            };
            self.consecutive_drops = consecutive;
            if consecutive > MAX_CONSECUTIVE_DROPS {
                self.should_terminate = true;
                return Delivery { accepted: pushed, wake_consumer: false };
            }
        } else {
            self.consecutive_drops = 0;
        }
        let wake = !self.has_data;
        self.has_data = true;
        Delivery { accepted: pushed, wake_consumer: wake }
    }

    /// The reader's poll: the eldest sample if there is one; otherwise the
    /// end of the stream once the capture has ended; otherwise `Pending`,
    /// after which the next delivery wakes the reader.
    pub fn poll_next_sample(&mut self) -> (o: PollOutcome)
        ensures
            wf_state(final(self)@),
            final(self)@ == after_poll(old(self)@),
            o == poll_result(old(self)@),
    {
        proof {
            use_type_invariant(&*self);
        }
        match ring_try_pop(&mut self.ring) {
            Some(sample) => PollOutcome::Sample(sample),
            None => {
                if self.should_terminate {
                    PollOutcome::Finished
                } else {
                    self.has_data = false;
                    PollOutcome::Pending
                }
            },
        }
    }

    /// Asks the capture to end; queued samples can still be read.
    pub fn request_stop(&mut self)
        ensures
            wf_state(final(self)@),
            final(self)@ == after_stop(old(self)@),
    {
        proof {
            use_type_invariant(&*self);
        }
        self.should_terminate = true;
    }

    /// Whether the capture has been asked to end.
    pub fn is_terminated(&self) -> (r: bool)
        ensures
            r == self@.terminated,
            wf_state(self@),
    {
        proof {
            use_type_invariant(self);
        }
        self.should_terminate
    }
}

/// How many `f32` samples the first buffer of a tap callback holds when no
/// PCM view of it can be made: only a 32-bit float PCM format is read that
/// way, as `data_bytes_size / 4` samples, and only when that is at least one
/// and the buffer's data pointer is not null.
pub fn raw_buffer_sample_count(format_is_pcm_f32: bool, data_bytes_size: u32, data_is_null: bool) -> (r:
    Option<usize>)
    ensures
        r == (if format_is_pcm_f32 && data_bytes_size / 4 > 0 && !data_is_null {
            Some((data_bytes_size / 4) as usize)
        } else {
            None
        }),
{
    if format_is_pcm_f32 {
        let float_count = (data_bytes_size / 4) as usize;
        if float_count > 0 && !data_is_null {
            return Some(float_count);
        }
    }
    None
}


/// The samples the reader gets from `k` polls in a row starting in state `s`
/// (stopping early at the first poll that yields no sample).
pub open spec fn drain(s: ChannelState, k: nat) -> Seq<u32>
    decreases k,
{
    if k == 0 {
        Seq::<u32>::empty()
    } else {
        match poll_result(s) {
            PollOutcome::Sample(x) => seq![x] + drain(after_poll(s), (k - 1) as nat),
            _ => Seq::<u32>::empty(),
        }
    }
}

/// The state after delivering each batch of `batches` in turn.
pub open spec fn after_deliveries(s: ChannelState, batches: Seq<Seq<u32>>) -> ChannelState
    decreases batches.len(),
{
    if batches.len() == 0 {
        s
    } else {
        after_deliveries(after_delivery(s, batches[0]), batches.drop_first())
    }
}

/// Polling `k` times, with at least `k` samples queued, reads the first `k`
/// queued samples in order.
pub proof fn lemma_drain_reads_queue(s: ChannelState, k: nat)
    requires
        k <= s.samples.len(),
    ensures
        drain(s, k) == s.samples.take(k as int),
    decreases k,
{
    if k > 0 {
        let t = after_poll(s);
        lemma_drain_reads_queue(t, (k - 1) as nat);
        assert(seq![s.samples[0]] + s.samples.drop_first().take(k - 1) =~= s.samples.take(
            k as int,
        ));
    } else {
        assert(s.samples.take(0) =~= Seq::<u32>::empty());
    }
}

/// Samples come out in the order they went in: after a delivery, the reader
/// gets every sample that was queued before, then every sample of the
/// delivery that was accepted, in order, and nothing else.
pub proof fn lemma_delivered_samples_are_read_in_order(s: ChannelState, data: Seq<u32>)
    requires
        wf_state(s),
    ensures
        drain(after_delivery(s, data), s.samples.len() + accepted_count(s, data.len())) == s.samples
            + data.take(accepted_count(s, data.len()) as int),
{
    let t = after_delivery(s, data);
    let k = accepted_count(s, data.len());
    lemma_drain_reads_queue(t, s.samples.len() + k);
    assert(t.samples.take((s.samples.len() + k) as int) =~= t.samples);
}

/// Nothing is lost while there is room: a delivery that fits is queued whole
/// and clears the count of overflowing deliveries.
pub proof fn lemma_delivery_with_room_is_lossless(s: ChannelState, data: Seq<u32>)
    requires
        wf_state(s),
        data.len() <= room(s),
    ensures
        accepted_count(s, data.len()) == data.len(),
        after_delivery(s, data).samples == s.samples + data,
        after_delivery(s, data).consecutive_drops == 0,
        !delivery_terminates(s, data),
{
    assert(data.take(data.len() as int) =~= data);
}

/// Every operation keeps a channel well formed.
pub proof fn lemma_operations_keep_channel_well_formed(s: ChannelState, data: Seq<u32>)
    requires
        wf_state(s),
    ensures
        wf_state(after_delivery(s, data)),
        wf_state(after_poll(s)),
        wf_state(after_stop(s)),
{
}

/// Once the capture has ended it stays ended, whatever is delivered, polled
/// or stopped afterwards.
pub proof fn lemma_termination_is_permanent(s: ChannelState, data: Seq<u32>)
    requires
        s.terminated,
    ensures
        after_delivery(s, data).terminated,
        after_poll(s).terminated,
        after_stop(s).terminated,
{
}

/// After the capture has ended the reader never waits: it gets the samples
/// still queued and then the end of the stream.
pub proof fn lemma_ended_reader_never_waits(s: ChannelState)
    requires
        s.terminated,
    ensures
        poll_result(s) != PollOutcome::Pending,
        s.samples.len() == 0 ==> poll_result(s) == PollOutcome::Finished,
{
}

/// A reader that was told to wait is woken by the next delivery, unless that
/// delivery ends the capture.
pub proof fn lemma_waiting_reader_is_woken(s: ChannelState, data: Seq<u32>)
    requires
        poll_result(s) == PollOutcome::Pending,
    ensures
        !delivery_terminates(after_poll(s), data) ==> wakes_consumer(after_poll(s), data),
{
}

/// Deliveries into a full queue, none of them empty, add nothing and count
/// one drop each while the count stays within `MAX_CONSECUTIVE_DROPS`.
proof fn lemma_overflow_run(s: ChannelState, batches: Seq<Seq<u32>>)
    requires
        wf_state(s),
        s.samples.len() == s.capacity,
        !s.terminated,
        s.consecutive_drops + batches.len() <= MAX_CONSECUTIVE_DROPS,
        forall|i: int| 0 <= i < batches.len() ==> #[trigger] batches[i].len() > 0,
    ensures
        after_deliveries(s, batches).samples == s.samples,
        after_deliveries(s, batches).capacity == s.capacity,
        !after_deliveries(s, batches).terminated,
        after_deliveries(s, batches).consecutive_drops == s.consecutive_drops + batches.len(),
    decreases batches.len(),
{
    if batches.len() > 0 {
        let t = after_delivery(s, batches[0]);
        assert(batches[0].take(0) =~= Seq::<u32>::empty());
        assert(t.samples =~= s.samples);
        let rest = batches.drop_first();
        assert forall|i: int| 0 <= i < rest.len() implies #[trigger] rest[i].len() > 0 by {
            assert(rest[i] == batches[i + 1]);
        }
        lemma_overflow_run(t, rest);
    }
}

/// A capture whose queue stays full ends on the first overflowing delivery
/// after `MAX_CONSECUTIVE_DROPS` overflowing deliveries in a row, and not
/// before: starting with no drops counted, `MAX_CONSECUTIVE_DROPS` non-empty
/// deliveries leave it running, and one more ends it.
pub proof fn lemma_sustained_overflow_ends_capture(s: ChannelState, batches: Seq<Seq<u32>>)
    requires
        wf_state(s),
        s.samples.len() == s.capacity,
        !s.terminated,
        s.consecutive_drops == 0,
        batches.len() == MAX_CONSECUTIVE_DROPS + 1,
        forall|i: int| 0 <= i < batches.len() ==> #[trigger] batches[i].len() > 0,
    ensures
        !after_deliveries(s, batches.take(MAX_CONSECUTIVE_DROPS as int)).terminated,
        after_deliveries(s, batches).terminated,
{
    let first = batches.take(MAX_CONSECUTIVE_DROPS as int);
    assert forall|i: int| 0 <= i < first.len() implies #[trigger] first[i].len() > 0 by {
        assert(first[i] == batches[i]);
    }
    lemma_overflow_run(s, first);
    let last = batches[MAX_CONSECUTIVE_DROPS as int];
    lemma_after_deliveries_split(s, batches, MAX_CONSECUTIVE_DROPS as int);
    let t = after_deliveries(s, first);
    assert(last.take(0) =~= Seq::<u32>::empty());
    assert(after_deliveries(t, batches.skip(MAX_CONSECUTIVE_DROPS as int)) == after_deliveries(
        after_delivery(t, last),
        Seq::<Seq<u32>>::empty(),
    )) by {
        assert(batches.skip(MAX_CONSECUTIVE_DROPS as int) =~= seq![last]);
        assert(seq![last].drop_first() =~= Seq::<Seq<u32>>::empty());
    }
}

/// Delivering a sequence of batches is delivering its first `n` batches and
/// then the rest.
proof fn lemma_after_deliveries_split(s: ChannelState, batches: Seq<Seq<u32>>, n: int)
    requires
        0 <= n <= batches.len(),
    ensures
        after_deliveries(s, batches) == after_deliveries(
            after_deliveries(s, batches.take(n)),
            batches.skip(n),
        ),
    decreases n,
{
    if n == 0 {
        assert(batches.take(0) =~= Seq::<Seq<u32>>::empty());
        assert(batches.skip(0) =~= batches);
    } else {
        let t = after_delivery(s, batches[0]);
        let rest = batches.drop_first();
        lemma_after_deliveries_split(t, rest, n - 1);
        assert(batches.take(n)[0] == batches[0]);
        assert(batches.take(n).drop_first() =~= rest.take(n - 1));
        assert(rest.skip(n - 1) =~= batches.skip(n));
    }
}

/// One call on a channel: a delivery by the audio callback, a poll by the
/// reader, or a request to stop.
pub enum ChannelOp {
    Deliver(Seq<u32>),
    Poll,
    Stop,
}

/// The state after one call.
pub open spec fn apply_op(s: ChannelState, op: ChannelOp) -> ChannelState {
    match op {
        ChannelOp::Deliver(data) => after_delivery(s, data),
        ChannelOp::Poll => after_poll(s),
        ChannelOp::Stop => after_stop(s),
    }
}

/// The state after the calls `ops`, in order, starting in state `s`.
pub open spec fn run_ops(s: ChannelState, ops: Seq<ChannelOp>) -> ChannelState
    decreases ops.len(),
{
    if ops.len() == 0 {
        s
    } else {
        apply_op(run_ops(s, ops.drop_last()), ops.last())
    }
}

/// Whether a call is a delivery that could not queue all its samples.
pub open spec fn op_overflows(s: ChannelState, op: ChannelOp) -> bool {
    match op {
        ChannelOp::Deliver(data) => accepted_count(s, data.len()) < data.len(),
        _ => false,
    }
}

/// Whether a call is a delivery that queued all its samples.
pub open spec fn op_keeps_all(s: ChannelState, op: ChannelOp) -> bool {
    match op {
        ChannelOp::Deliver(data) => accepted_count(s, data.len()) == data.len(),
        _ => false,
    }
}

/// The length of the current run of overflowing deliveries after `ops`: the
/// overflowing deliveries since the last delivery that queued all its
/// samples (polls and stops neither extend nor break a run).
pub open spec fn drop_run(s: ChannelState, ops: Seq<ChannelOp>) -> nat
    decreases ops.len(),
{
    if ops.len() == 0 {
        0
    } else {
        let before = run_ops(s, ops.drop_last());
        let r = drop_run(s, ops.drop_last());
        if op_overflows(before, ops.last()) {
            r + 1
        } else if op_keeps_all(before, ops.last()) {
            0
        } else {
            r
        }
    }
}

/// The samples that the deliveries among `ops` queued, in order.
pub open spec fn accepted_stream(s: ChannelState, ops: Seq<ChannelOp>) -> Seq<u32>
    decreases ops.len(),
{
    if ops.len() == 0 {
        Seq::<u32>::empty()
    } else {
        let before = run_ops(s, ops.drop_last());
        let prev = accepted_stream(s, ops.drop_last());
        match ops.last() {
            ChannelOp::Deliver(data) => prev + data.take(accepted_count(before, data.len()) as int),
            _ => prev,
        }
    }
}

/// The samples that the polls among `ops` handed to the reader, in order.
pub open spec fn read_stream(s: ChannelState, ops: Seq<ChannelOp>) -> Seq<u32>
    decreases ops.len(),
{
    if ops.len() == 0 {
        Seq::<u32>::empty()
    } else {
        let before = run_ops(s, ops.drop_last());
        let prev = read_stream(s, ops.drop_last());
        match (ops.last(), poll_result(before)) {
            (ChannelOp::Poll, PollOutcome::Sample(x)) => prev.push(x),
            _ => prev,
        }
    }
}

/// Any sequence of calls keeps a channel well formed.
pub proof fn lemma_run_keeps_channel_well_formed(s: ChannelState, ops: Seq<ChannelOp>)
    requires
        wf_state(s),
    ensures
        wf_state(run_ops(s, ops)),
    decreases ops.len(),
{
    if ops.len() > 0 {
        lemma_run_keeps_channel_well_formed(s, ops.drop_last());
    }
}

proof fn lemma_drop_run_bounded(s: ChannelState, ops: Seq<ChannelOp>)
    ensures
        drop_run(s, ops) <= ops.len(),
    decreases ops.len(),
{
    if ops.len() > 0 {
        lemma_drop_run_bounded(s, ops.drop_last());
    }
}

/// Over any sequence of calls (fewer than 2^32), starting with no drops
/// counted, the drop count is the length of the current run of overflowing
/// deliveries.
pub proof fn lemma_drop_count_is_current_run(s: ChannelState, ops: Seq<ChannelOp>)
    requires
        wf_state(s),
        s.consecutive_drops == 0,
        ops.len() <= u32::MAX,
    ensures
        run_ops(s, ops).consecutive_drops == drop_run(s, ops),
    decreases ops.len(),
{
    if ops.len() > 0 {
        let pre = ops.drop_last();
        lemma_run_keeps_channel_well_formed(s, pre);
        lemma_drop_count_is_current_run(s, pre);
        lemma_drop_run_bounded(s, pre);
        let before = run_ops(s, pre);
        assert(run_ops(s, ops) == apply_op(before, ops.last()));
        match ops.last() {
            ChannelOp::Deliver(data) => {
                assert(before.consecutive_drops < u32::MAX);
                if accepted_count(before, data.len()) < data.len() {
                    assert(op_overflows(before, ops.last()));
                    assert(next_drop_count(before.consecutive_drops) == before.consecutive_drops
                        + 1);
                } else {
                    assert(op_keeps_all(before, ops.last()));
                }
            },
            _ => {},
        }
    }
}

/// Whether the `k`-th call of `ops` (counting from 1) is a stop, or leaves a
/// run of overflowing deliveries longer than `MAX_CONSECUTIVE_DROPS`.
pub open spec fn call_ends_capture(s: ChannelState, ops: Seq<ChannelOp>, k: int) -> bool {
    ops[k - 1] is Stop || drop_run(s, ops.take(k)) > MAX_CONSECUTIVE_DROPS
}

/// Over any sequence of calls (fewer than 2^32), starting with no drops
/// counted, the capture has ended exactly when it had ended at the start,
/// or some call was a stop, or after some call the run of overflowing
/// deliveries was longer than `MAX_CONSECUTIVE_DROPS`.
pub proof fn lemma_capture_ends_exactly_on_long_overflow_or_stop(
    s: ChannelState,
    ops: Seq<ChannelOp>,
)
    requires
        wf_state(s),
        s.consecutive_drops == 0,
        ops.len() <= u32::MAX,
    ensures
        run_ops(s, ops).terminated <==> (s.terminated || exists|k: int|
            1 <= k <= ops.len() && #[trigger] call_ends_capture(s, ops, k)),
    decreases ops.len(),
{
    if ops.len() == 0 {
    } else {
        let n = ops.len() as int;
        let pre = ops.drop_last();
        lemma_capture_ends_exactly_on_long_overflow_or_stop(s, pre);
        lemma_drop_count_is_current_run(s, pre);
        lemma_drop_count_is_current_run(s, ops);
        lemma_drop_run_bounded(s, pre);
        assert(ops.take(n) =~= ops);
        assert forall|k: int| 1 <= k <= n - 1 implies ops.take(k) =~= pre.take(k) && ops[k - 1]
            == pre[k - 1] by {}
        let before = run_ops(s, pre);
        let after = run_ops(s, ops);
        if after.terminated {
            if !before.terminated && !s.terminated {
                // this last call ended the capture
                assert(call_ends_capture(s, ops, n));
            } else if !s.terminated {
                let k = choose|k: int| 1 <= k <= n - 1 && #[trigger] call_ends_capture(s, pre, k);
                assert(ops.take(k) =~= pre.take(k));
                assert(call_ends_capture(s, ops, k));
            }
        } else {
            assert(!s.terminated);
            assert(!before.terminated);
            assert forall|k: int| 1 <= k <= n implies !call_ends_capture(s, ops, k) by {
                if k < n {
                    assert(ops.take(k) =~= pre.take(k));
                    assert(!call_ends_capture(s, pre, k));
                } else {
                    assert(ops.take(k) =~= ops);
                    if drop_run(s, pre) > MAX_CONSECUTIVE_DROPS {
                        if n - 1 >= 1 {
                            assert(pre.take(n - 1) =~= pre);
                            assert(call_ends_capture(s, pre, n - 1));
                        }
                    }
                }
            }
        }
    }
}

proof fn lemma_queue_accounts_for_all_samples(s: ChannelState, ops: Seq<ChannelOp>)
    ensures
        s.samples + accepted_stream(s, ops) == read_stream(s, ops) + run_ops(s, ops).samples,
    decreases ops.len(),
{
    if ops.len() > 0 {
        let pre = ops.drop_last();
        lemma_queue_accounts_for_all_samples(s, pre);
        let before = run_ops(s, pre);
        match ops.last() {
            ChannelOp::Deliver(data) => {
                let k = accepted_count(before, data.len());
                assert(run_ops(s, ops).samples == before.samples + data.take(k as int));
                assert(accepted_stream(s, ops) == accepted_stream(s, pre) + data.take(k as int));
                assert(read_stream(s, ops) == read_stream(s, pre));
                let t = data.take(k as int);
                assert(s.samples + (accepted_stream(s, pre) + t) =~= (s.samples + accepted_stream(
                    s,
                    pre,
                )) + t);
                assert(read_stream(s, pre) + (before.samples + t) =~= (read_stream(s, pre)
                    + before.samples) + t);
            },
            ChannelOp::Poll => {
                if before.samples.len() > 0 {
                    let x = before.samples[0];
                    assert(poll_result(before) == PollOutcome::Sample(x));
                    assert(read_stream(s, ops) == read_stream(s, pre).push(x));
                    assert(run_ops(s, ops).samples == before.samples.drop_first());
                    assert(accepted_stream(s, ops) == accepted_stream(s, pre));
                    assert(read_stream(s, pre) + before.samples =~= read_stream(s, pre).push(x)
                        + before.samples.drop_first());
                    assert(s.samples + accepted_stream(s, ops) =~= read_stream(s, ops) + run_ops(
                        s,
                        ops,
                    ).samples);
                }
            },
            ChannelOp::Stop => {},
        }
    }
}

/// Samples come out in the order they were accepted, over any interleaving
/// of deliveries, polls and stops: the samples the reader has got are a
/// prefix of the samples queued at the start followed by every accepted
/// sample, and the rest of that sequence is what is still queued. Nothing is
/// repeated or invented.
pub proof fn lemma_reads_follow_acceptance_order(s: ChannelState, ops: Seq<ChannelOp>)
    ensures
        read_stream(s, ops).len() <= s.samples.len() + accepted_stream(s, ops).len(),
        read_stream(s, ops) == (s.samples + accepted_stream(s, ops)).take(
            read_stream(s, ops).len() as int,
        ),
        run_ops(s, ops).samples == (s.samples + accepted_stream(s, ops)).skip(
            read_stream(s, ops).len() as int,
        ),
{
    lemma_queue_accounts_for_all_samples(s, ops);
    let all = s.samples + accepted_stream(s, ops);
    let r = read_stream(s, ops);
    assert(all.take(r.len() as int) =~= r);
    assert(all.skip(r.len() as int) =~= run_ops(s, ops).samples);
}

} // verus!
