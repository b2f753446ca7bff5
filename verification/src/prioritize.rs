//! Connection-level send capacity: how the connection's flow-control window
//! is handed out to streams and taken back.
//!
//! Streams live in a [`Store`] and are named by their index in it. The
//! prioritization layer keeps the connection's window and three FIFO queues of
//! stream keys. Its central invariant, [`Prioritize::inv`], is capacity
//! conservation: the capacity assigned to streams plus the connection's
//! unassigned capacity always equals the connection window.

use vstd::prelude::*;
use crate::flow::{as_size, FlowControl, Reason, WindowSize, MAX_WINDOW_SIZE};
use crate::send::StreamId;
use crate::buffer::{lemma_other_deque_unchanged, lemma_push_front_pop_front, unchanged_outside, Buffer, Deque};

verus! {

/// Errors caused by a user of the send API.
#[derive(PartialEq, Eq, Structural, Debug, Clone, Copy)]
pub enum UserError {
    /// The stream is closed; nothing more can be sent on it.
    InactiveStreamId,
    /// The frame does not fit the stream's state.
    UnexpectedFrameType,
    /// The payload is larger than any flow-control window.
    PayloadTooBig,
    /// A header block holds a field HTTP/2 forbids.
    MalformedHeaders,
    /// No more stream ids are left to open a stream with.
    OverflowedStreamId,
    /// The peer turned server push off.
    PeerDisabledServerPush,
    /// A reset was awaited before the response headers, but they are sent.
    PollResetAfterSendResponse,
}

/// The send side of a stream's state machine, as the capacity logic sees it.
#[derive(PartialEq, Eq, Structural, Debug, Clone, Copy)]
pub enum SendState {
    /// Headers have not been sent yet.
    Idle,
    /// DATA may still be sent.
    Streaming,
    /// The send side is closed; the stream itself is still open for receiving.
    HalfClosed,
    /// The stream is closed in both directions (or reset).
    Closed,
}

impl SendState {
    pub open spec fn spec_is_send_streaming(self) -> bool {
        self == SendState::Streaming
    }

    pub open spec fn spec_is_send_closed(self) -> bool {
        self == SendState::HalfClosed || self == SendState::Closed
    }

    pub fn is_send_streaming(&self) -> (r: bool)
        ensures
            r == self.spec_is_send_streaming(),
    {
        match self {
            SendState::Streaming => true,
            _ => false,
        }
    }

    pub fn is_send_closed(&self) -> (r: bool)
        ensures
            r == self.spec_is_send_closed(),
    {
        match self {
            SendState::HalfClosed | SendState::Closed => true,
            _ => false,
        }
    }

    pub fn is_closed(&self) -> (r: bool)
        ensures
            r == (*self == SendState::Closed),
    {
        match self {
            SendState::Closed => true,
            _ => false,
        }
    }
}

/// The send-side record of one stream.
#[derive(Clone, Copy)]
pub struct Stream {
    pub state: SendState,
    /// The stream's window and the connection capacity assigned to it.
    pub send_flow: FlowControl,
    /// The capacity the stream wants in all, buffered data included.
    pub requested_send_capacity: WindowSize,
    /// Bytes of DATA queued but not yet written.
    pub buffered_send_data: usize,
    /// Waiting for a concurrency slot before it may open.
    pub is_pending_open: bool,
    /// A promised stream whose PUSH_PROMISE has not been written yet.
    pub is_pending_push: bool,
    /// The usable capacity grew since the owner last looked.
    pub send_capacity_inc: bool,
    /// The peer has closed its side of the stream.
    pub remote_closed: bool,
    /// The reason the stream was reset with, by either side.
    pub reset: Option<Reason>,
    /// The reset was decided by the library and its RST_STREAM is not queued
    /// yet: it goes out when the stream is next scheduled.
    pub reset_scheduled: bool,
    /// The frames queued on the stream, kept in the connection's buffer.
    pub pending_send: Deque,
}

/// A frame queued on a stream, as the scheduler sees it.
#[derive(PartialEq, Eq, Structural, Debug, Clone, Copy)]
pub enum Frame<B> {
    /// DATA: `payload`, which holds `len` bytes.
    Data { payload: B, len: usize, end_stream: bool },
    /// A HEADERS block (headers or trailers).
    Headers { end_stream: bool },
    /// A PUSH_PROMISE for the stream stored under key `promised`.
    PushPromise { promised: usize },
    /// A RST_STREAM.
    Reset { reason: Reason },
}

/// `b` is `a` with, at most, a different flow control and capacity flag.
pub open spec fn same_but_flow(a: Stream, b: Stream) -> bool {
    b == Stream { send_flow: b.send_flow, send_capacity_inc: b.send_capacity_inc, ..a }
}

/// `min(x, y)` on integers.
pub open spec fn min_int(x: int, y: int) -> int {
    if x <= y {
        x
    } else {
        y
    }
}

/// `x - y`, or 0 when `y` exceeds `x`.
pub open spec fn sat_sub(x: int, y: int) -> int {
    if x >= y {
        x - y
    } else {
        0
    }
}

impl Stream {
    /// A stream that is neither waiting to open nor waiting for its
    /// PUSH_PROMISE may be scheduled to send.
    pub open spec fn spec_is_send_ready(&self) -> bool {
        !self.is_pending_open && !self.is_pending_push
    }

    pub fn is_send_ready(&self) -> (r: bool)
        ensures
            r == self.spec_is_send_ready(),
    {
        !self.is_pending_open && !self.is_pending_push
    }

    /// What the owner of the stream may still buffer:
    /// `min(available, max_buffer_size) - buffered`, floored at 0.
    pub open spec fn spec_capacity(&self, max_buffer_size: usize) -> int {
        sat_sub(
            min_int(as_size(self.send_flow.avail()), max_buffer_size as int),
            self.buffered_send_data as int,
        )
    }

    pub fn capacity(&self, max_buffer_size: usize) -> (c: WindowSize)
        requires
            self.send_flow.avail() <= MAX_WINDOW_SIZE,
        ensures
            c == self.spec_capacity(max_buffer_size),
    {
        let available: usize = self.send_flow.available_size() as usize;
        let m: usize = if available < max_buffer_size {
            available
        } else {
            max_buffer_size
        };
        if m >= self.buffered_send_data {
            (m - self.buffered_send_data) as WindowSize
        } else {
            0
        }
    }

    /// Closes the send side: a streaming stream becomes half closed, or
    /// closed when the peer has closed its side too.
    pub fn send_close(&mut self)
        ensures
            *final(self) == (Stream {
                state: if old(self).state == SendState::Streaming {
                    if old(self).remote_closed {
                        SendState::Closed
                    } else {
                        SendState::HalfClosed
                    }
                } else {
                    old(self).state
                },
                ..*old(self)
            }),
    {
        if self.state.is_send_streaming() {
            if self.remote_closed {
                self.state = SendState::Closed;
            } else {
                self.state = SendState::HalfClosed;
            }
        }
    }

    /// Marks the stream reset with `reason`; no RST_STREAM is pending any
    /// more. The stream is closed from now on.
    pub fn set_reset(&mut self, reason: Reason)
        ensures
            *final(self) == (Stream {
                state: SendState::Closed,
                reset: Some(reason),
                reset_scheduled: false,
                ..*old(self)
            }),
    {
        self.state = SendState::Closed;
        self.reset = Some(reason);
        self.reset_scheduled = false;
    }

    /// Closes the stream with a reset the library decided on: its
    /// RST_STREAM goes out when the stream is next scheduled.
    pub fn set_scheduled_reset(&mut self, reason: Reason)
        ensures
            *final(self) == (Stream {
                state: SendState::Closed,
                reset: Some(reason),
                reset_scheduled: true,
                ..*old(self)
            }),
    {
        self.state = SendState::Closed;
        self.reset = Some(reason);
        self.reset_scheduled = true;
    }

    /// The reason of a reset whose RST_STREAM is still to be queued.
    pub open spec fn spec_scheduled_reset(&self) -> Option<Reason> {
        if self.reset_scheduled {
            self.reset
        } else {
            None
        }
    }

    pub fn get_scheduled_reset(&self) -> (r: Option<Reason>)
        ensures
            r == self.spec_scheduled_reset(),
    {
        if self.reset_scheduled {
            self.reset
        } else {
            None
        }
    }

    /// The stream's own bookkeeping is consistent: its assigned capacity is
    /// non-negative and never above what it requested, which is at most a
    /// full window.
    pub open spec fn wf(&self) -> bool {
        &&& 0 <= self.send_flow.avail()
        &&& self.send_flow.avail() <= self.requested_send_capacity
        &&& self.requested_send_capacity <= MAX_WINDOW_SIZE
        &&& self.reset is Some ==> self.state == SendState::Closed
        &&& self.reset_scheduled ==> self.reset is Some
    }

    /// Adds `capacity` to what is assigned to the stream, and notes when that
    /// grows what the owner may buffer.
    pub fn assign_capacity(&mut self, capacity: WindowSize, max_buffer_size: usize)
        requires
            0 <= old(self).send_flow.avail(),
            old(self).send_flow.avail() + capacity <= MAX_WINDOW_SIZE,
        ensures
            final(self).send_flow.avail() == old(self).send_flow.avail() + capacity,
            final(self).send_flow.window() == old(self).send_flow.window(),
            final(self).send_capacity_inc == (old(self).send_capacity_inc || old(self).spec_capacity(max_buffer_size) < final(self).spec_capacity(max_buffer_size)),
            same_but_flow(*old(self), *final(self)),
    {
        let prev_capacity: WindowSize = self.capacity(max_buffer_size);
        let _res = self.send_flow.assign_capacity(capacity);
        let now: WindowSize = self.capacity(max_buffer_size);
        if prev_capacity < now {
            self.send_capacity_inc = true;
        }
    }

    /// Accounts for `len` bytes of DATA written: the window, the assigned
    /// capacity, the buffered bytes and the request all shrink by `len`.
    pub fn send_data(&mut self, len: WindowSize, max_buffer_size: usize)
        requires
            old(self).wf(),
            len <= old(self).send_flow.avail(),
            len <= old(self).buffered_send_data,
            old(self).send_flow.window() - len >= i32::MIN,
        ensures
            final(self).send_flow.avail() == old(self).send_flow.avail() - len,
            final(self).send_flow.window() == old(self).send_flow.window() - len,
            final(self).buffered_send_data == old(self).buffered_send_data - len,
            final(self).requested_send_capacity == old(self).requested_send_capacity - len,
            final(self).send_capacity_inc == (old(self).send_capacity_inc || old(self).spec_capacity(max_buffer_size) < final(self).spec_capacity(max_buffer_size)),
            *final(self) == (Stream {
                send_flow: final(self).send_flow,
                send_capacity_inc: final(self).send_capacity_inc,
                buffered_send_data: final(self).buffered_send_data,
                requested_send_capacity: final(self).requested_send_capacity,
                ..*old(self)
            }),
            final(self).wf(),
    {
        let prev_capacity: WindowSize = self.capacity(max_buffer_size);
        let _res = self.send_flow.send_data(len);
        self.buffered_send_data = self.buffered_send_data - len as usize;
        self.requested_send_capacity = self.requested_send_capacity - len;
        let now: WindowSize = self.capacity(max_buffer_size);
        if prev_capacity < now {
            self.send_capacity_inc = true;
        }
    }
}

/// How much more connection capacity may be assigned to a stream.
///
/// `available` is already assigned to the stream; `window` is the peer's
/// stream window (floored at 0). Saturating subtraction keeps the result 0
/// when `available` already exceeds the window or the request.
pub fn additional_send_capacity(
    requested: WindowSize,
    available: WindowSize,
    window: WindowSize,
) -> (r: WindowSize)
    ensures
        r == min_int(sat_sub(requested as int, available as int), sat_sub(window as int, available as int)),
{
    let a: WindowSize = requested.saturating_sub(available);
    let b: WindowSize = window.saturating_sub(available);
    if a <= b {
        a
    } else {
        b
    }
}

/// All streams of a connection, named by their index.
pub struct Store {
    pub streams: Vec<Stream>,
}

/// The capacity assigned to the streams of `s`, summed.
pub open spec fn sum_avail(s: Seq<Stream>) -> int
    decreases s.len(),
{
    if s.len() == 0 {
        0
    } else {
        sum_avail(s.drop_last()) + s.last().send_flow.avail()
    }
}

/// Replacing one stream changes the sum by the change in its capacity.
pub proof fn lemma_sum_avail_update(s: Seq<Stream>, i: int, x: Stream)
    requires
        0 <= i < s.len(),
    ensures
        sum_avail(s.update(i, x)) == sum_avail(s) - s[i].send_flow.avail() + x.send_flow.avail(),
    decreases s.len(),
{
    let t = s.update(i, x);
    if i == s.len() - 1 {
        assert(t.drop_last() =~= s.drop_last());
    } else {
        assert(t.drop_last() =~= s.drop_last().update(i, x));
        lemma_sum_avail_update(s.drop_last(), i, x);
    }
}

/// Streams whose capacity is non-negative sum to a non-negative total.
pub proof fn lemma_sum_avail_nonneg(s: Seq<Stream>)
    requires
        forall|i: int| 0 <= i < s.len() ==> 0 <= (#[trigger] s[i]).send_flow.avail(),
    ensures
        sum_avail(s) >= 0,
    decreases s.len(),
{
    if s.len() > 0 {
        assert(s.drop_last().len() == s.len() - 1);
        assert forall|i: int| 0 <= i < s.drop_last().len() implies 0 <= (
        #[trigger] s.drop_last()[i]).send_flow.avail() by {
            assert(s.drop_last()[i] == s[i]);
        }
        lemma_sum_avail_nonneg(s.drop_last());
    }
}

/// One stream's capacity is part of the total when no stream's is negative.
pub proof fn lemma_sum_avail_ge_one(s: Seq<Stream>, i: int)
    requires
        forall|j: int| 0 <= j < s.len() ==> 0 <= (#[trigger] s[j]).send_flow.avail(),
        0 <= i < s.len(),
    ensures
        sum_avail(s) >= s[i].send_flow.avail(),
{
    let z = Stream { send_flow: FlowControl::spec_zero(), ..s[i] };
    FlowControl::lemma_zero();
    lemma_sum_avail_update(s, i, z);
    let t = s.update(i, z);
    assert forall|j: int| 0 <= j < t.len() implies 0 <= (#[trigger] t[j]).send_flow.avail() by {
        if j != i {
            assert(t[j] == s[j]);
        }
    }
    lemma_sum_avail_nonneg(t);
}

/// `q` is a valid queue of keys into a store of `n` streams: no key twice.
pub open spec fn queue_ok(q: Seq<usize>, n: int) -> bool {
    &&& q.no_duplicates()
    &&& forall|i: int| 0 <= i < q.len() ==> (#[trigger] q[i]) < n
}

/// `q` after a push of `key` when `cond` holds: a key that is queued
/// already keeps its place.
pub open spec fn pushed(q: Seq<usize>, key: usize, cond: bool) -> Seq<usize> {
    if cond && !q.contains(key) {
        q.push(key)
    } else {
        q
    }
}

/// A key is in `pushed(q, key, cond)` exactly when it is in `q`, or it is
/// `key` and `cond` holds.
pub proof fn lemma_pushed_contains(q: Seq<usize>, key: usize, cond: bool, x: usize)
    ensures
        pushed(q, key, cond).contains(x) <==> (q.contains(x) || (cond && x == key)),
{
    if cond && !q.contains(key) {
        let p = q.push(key);
        assert(p[q.len() as int] == key);
        if q.contains(x) {
            let j = choose|j: int| 0 <= j < q.len() && q[j] == x;
            assert(p[j] == x);
        }
        if p.contains(x) {
            let j = choose|j: int| 0 <= j < p.len() && p[j] == x;
            if j < q.len() {
                assert(q[j] == x);
            }
        }
    }
}

/// Appends `key` unless it is queued already; returns whether it was added.
fn queue_push(q: &mut Vec<usize>, key: usize) -> (added: bool)
    ensures
        added == !old(q)@.contains(key),
        final(q)@ == pushed(old(q)@, key, true),
{
    let n: usize = q.len();
    let mut i: usize = 0;
    while i < n
        invariant
            n == q.len(),
            q@ == old(q)@,
            i <= n,
            forall|j: int| 0 <= j < i ==> q@[j] != key,
        decreases n - i,
    {
        if q[i] == key {
            return false;
        }
        i = i + 1;
    }
    q.push(key);
    true
}

/// Settings the prioritization layer starts from.
pub struct Config {
    /// The peer's initial window size, which is also the connection's.
    pub remote_init_window_sz: WindowSize,
    /// The most a stream may buffer before it is told it has no capacity.
    pub local_max_buffer_size: usize,
    /// The identifier of the first locally initiated stream.
    pub local_next_stream_id: StreamId,
}

/// The DATA frame last handed to the codec, whose unsent rest may come back.
#[derive(PartialEq, Eq, Structural, Debug, Clone, Copy)]
pub enum InFlightData {
    /// No DATA frame is in flight.
    Nothing,
    /// A DATA frame of the stream with this key is in flight.
    DataFrame(usize),
    /// The frame's stream was cleared: its unsent rest is dropped.
    Drop,
}

/// The connection-level send scheduler.
pub struct Prioritize {
    /// Streams waiting for socket capacity to send a frame.
    pending_send: Vec<usize>,
    /// Streams waiting for connection capacity to produce data.
    pending_capacity: Vec<usize>,
    /// Streams waiting for a concurrency slot to open.
    pending_open: Vec<usize>,
    /// Connection-level flow control governing sent data.
    flow: FlowControl,
    /// The most a stream should buffer.
    max_buffer_size: usize,
    /// The DATA frame in flight, if any.
    in_flight_data_frame: InFlightData,
}

/// The capacity `try_assign_capacity` would still give `s`, ignoring the
/// connection's share: bounded by both the request and the stream window.
pub open spec fn additional_for(s: Stream) -> int {
    min_int(
        sat_sub(s.requested_send_capacity as int, as_size(s.send_flow.avail())),
        sat_sub(as_size(s.send_flow.window()), as_size(s.send_flow.avail())),
    )
}

/// `try_assign_capacity` acts on `s`: the stream may send, still lacks
/// capacity, and either streams or has data buffered.
pub open spec fn wants_capacity(s: Stream) -> bool {
    &&& s.spec_is_send_ready()
    &&& additional_for(s) > 0
    &&& (s.state.spec_is_send_streaming() || s.buffered_send_data > 0)
}

impl Prioritize {
    pub closed spec fn pending_send(&self) -> Seq<usize> {
        self.pending_send@
    }

    pub closed spec fn pending_capacity(&self) -> Seq<usize> {
        self.pending_capacity@
    }

    pub closed spec fn pending_open(&self) -> Seq<usize> {
        self.pending_open@
    }

    /// The connection's flow control.
    pub closed spec fn conn(&self) -> FlowControl {
        self.flow
    }

    pub closed spec fn max_buffer(&self) -> usize {
        self.max_buffer_size
    }

    /// The DATA frame in flight.
    pub closed spec fn in_flight(&self) -> InFlightData {
        self.in_flight_data_frame
    }

    /// Stream `s` at index `i` is consistent: its own bookkeeping holds, and
    /// it is marked as waiting to open exactly when it is in that queue.
    pub open spec fn slot_ok(&self, s: Stream, i: int) -> bool {
        &&& s.wf()
        &&& (s.is_pending_open <==> self.pending_open().contains(i as usize))
        &&& s.is_pending_open ==> s.send_flow.avail() == 0
        &&& s.state == SendState::Idle ==> s.send_flow.avail() == 0 && s.buffered_send_data == 0
    }

    /// Capacity conservation and the queues' shape: the capacity of all
    /// streams plus the connection's unassigned capacity is the connection
    /// window; no stream holds negative capacity or more than it requested;
    /// a stream waiting to open, or whose headers are not sent, holds no
    /// capacity; every queue holds valid keys, each at most once.
    pub open spec fn inv(&self, store: &Store) -> bool {
        self.inv_with_gap(store, 0)
    }

    /// `inv`, except that the connection holds `gap` less unassigned capacity
    /// than conservation asks: capacity was just taken back from a stream, or
    /// the window just grew, and is about to be handed out.
    pub open spec fn inv_with_gap(&self, store: &Store, gap: int) -> bool {
        let s = store.streams@;
        &&& sum_avail(s) + self.conn().avail() + gap == self.conn().window()
        &&& 0 <= self.conn().avail()
        &&& 0 <= gap
        &&& self.conn().window() <= MAX_WINDOW_SIZE
        &&& forall|i: int| 0 <= i < s.len() ==> self.slot_ok(#[trigger] s[i], i)
        &&& queue_ok(self.pending_send(), s.len() as int)
        &&& queue_ok(self.pending_capacity(), s.len() as int)
        &&& queue_ok(self.pending_open(), s.len() as int)
    }

    /// Replacing one stream by a consistent one keeps the invariant; the
    /// capacity it gives up (or takes) widens (or narrows) the gap.
    pub proof fn lemma_replace_stream(&self, a: &Store, b: &Store, key: int, gap: int)
        requires
            self.inv_with_gap(a, gap),
            0 <= key < a.streams@.len(),
            b.streams@ == a.streams@.update(key, b.streams@[key]),
            self.slot_ok(b.streams@[key], key),
            0 <= gap + a.streams@[key].send_flow.avail() - b.streams@[key].send_flow.avail(),
        ensures
            self.inv_with_gap(
                b,
                gap + a.streams@[key].send_flow.avail() - b.streams@[key].send_flow.avail(),
            ),
    {
        lemma_sum_avail_update(a.streams@, key, b.streams@[key]);
        let s = b.streams@;
        assert forall|i: int| 0 <= i < s.len() implies self.slot_ok(#[trigger] s[i], i) by {
            if i != key {
                assert(s[i] == a.streams@[i]);
            }
        }
    }

    pub fn new(config: &Config) -> (p: Self)
        requires
            config.remote_init_window_sz <= MAX_WINDOW_SIZE,
        ensures
            p.conn().window() == config.remote_init_window_sz,
            p.conn().avail() == config.remote_init_window_sz,
            p.pending_send() == Seq::<usize>::empty(),
            p.pending_capacity() == Seq::<usize>::empty(),
            p.pending_open() == Seq::<usize>::empty(),
            p.max_buffer() == config.local_max_buffer_size,
            p.in_flight() == InFlightData::Nothing,
    {
        let mut flow = FlowControl::new();
        let _r1 = flow.inc_window(config.remote_init_window_sz);
        let _r2 = flow.assign_capacity(config.remote_init_window_sz);
        Prioritize {
            pending_send: Vec::new(),
            pending_capacity: Vec::new(),
            pending_open: Vec::new(),
            flow,
            max_buffer_size: config.local_max_buffer_size,
            in_flight_data_frame: InFlightData::Nothing,
        }
    }

    pub fn max_buffer_size(&self) -> (m: usize)
        ensures
            m == self.max_buffer(),
    {
        self.max_buffer_size
    }

    /// Assigns the stream what the connection can give towards its request,
    /// queues it for more connection capacity when its window still has room,
    /// and schedules it (waking the connection task) when it has data to send.
    pub fn try_assign_capacity(&mut self, key: usize, store: &mut Store, task: &mut bool)
        requires
            old(self).inv(old(store)),
            key < old(store).streams@.len(),
        ensures
            final(self).inv(final(store)),
            final(store).streams@.len() == old(store).streams@.len(),
            same_queues(old(store).streams@, final(store).streams@),
            final(self).pending_open() == old(self).pending_open(),
            final(self).in_flight() == old(self).in_flight(),
            final(self).max_buffer() == old(self).max_buffer(),
            final(self).conn().window() == old(self).conn().window(),
            !wants_capacity(old(store).streams@[key as int]) ==> final(store).streams@ == old(store).streams@ && final(self).conn() == old(self).conn() && final(self).pending_send()
                == old(self).pending_send() && final(self).pending_capacity() == old(self).pending_capacity() && *final(task) == *old(task),
            wants_capacity(old(store).streams@[key as int]) ==> ({
                let s = old(store).streams@[key as int];
                let ns = final(store).streams@[key as int];
                let assign = min_int(old(self).conn().avail(), additional_for(s));
                &&& final(store).streams@ == old(store).streams@.update(key as int, ns)
                &&& ns.send_flow.avail() == s.send_flow.avail() + assign
                &&& ns.send_flow.window() == s.send_flow.window()
                &&& same_but_flow(s, ns)
                &&& final(self).conn().avail() == old(self).conn().avail() - assign
                &&& final(self).pending_capacity() == pushed(
                    old(self).pending_capacity(),
                    key,
                    ns.send_flow.avail() < ns.requested_send_capacity
                        && ns.send_flow.spec_has_unavailable(),
                )
                &&& final(self).pending_send() == pushed(
                    old(self).pending_send(),
                    key,
                    s.buffered_send_data > 0,
                )
                &&& *final(task) == (*old(task) && s.buffered_send_data == 0)
            }),
    {
        let ghost old_streams = store.streams@;
        let mut stream: Stream = store.streams[key];
        assert(stream.wf());
        if stream.is_pending_open || stream.is_pending_push {
            return;
        }
        let total_requested: WindowSize = stream.requested_send_capacity;
        let additional: WindowSize = additional_send_capacity(
            total_requested,
            stream.send_flow.available_size(),
            stream.send_flow.window_size(),
        );
        if additional == 0 {
            return;
        }
        if !stream.state.is_send_streaming() && stream.buffered_send_data == 0 {
            return;
        }
        let conn_available: WindowSize = self.flow.available_size();
        if conn_available > 0 {
            let assign: WindowSize = if conn_available < additional {
                conn_available
            } else {
                additional
            };
            stream.assign_capacity(assign, self.max_buffer_size);
            let _res = self.flow.claim_capacity(assign);
        }
        if (stream.send_flow.available() as i64) < (stream.requested_send_capacity as i64)
            && stream.send_flow.has_unavailable() {
            queue_push(&mut self.pending_capacity, key);
        }
        if stream.buffered_send_data > 0 && stream.is_send_ready() {
            queue_push(&mut self.pending_send, key);
            if *task {
                *task = false;
            }
        }
        store.streams.set(key, stream);
        proof {
            lemma_sum_avail_update(old_streams, key as int, stream);
            let s = store.streams@;
            assert forall|i: int| 0 <= i < s.len() implies self.slot_ok(#[trigger] s[i], i) by {
                if i != key {
                    assert(s[i] == old_streams[i]);
                }
            }
        }
    }
}

/// `b` is `a` with, at most, more capacity assigned and the capacity flag
/// raised: the window, the request, the buffered data, the state and the
/// queue flags are as in `a`.
pub open spec fn only_gained_capacity(a: Stream, b: Stream) -> bool {
    &&& b.send_flow.window() == a.send_flow.window()
    &&& b.send_flow.avail() >= a.send_flow.avail()
    &&& within_window(a) ==> within_window(b)
    &&& same_but_flow(a, b)
}

/// A change of capacity strands no buffered data: the capacity of stream
/// `k` is as it was, or it has nothing buffered, or it is queued to send.
pub open spec fn capacity_noticed(a: Stream, b: Stream, ps: Seq<usize>, k: int) -> bool {
    b.send_flow.avail() == a.send_flow.avail() || a.buffered_send_data == 0 || ps.contains(k as usize)
}

/// The capacity assigned to the stream does not exceed its window.
pub open spec fn within_window(s: Stream) -> bool {
    s.send_flow.avail() <= as_size(s.send_flow.window())
}

impl Prioritize {
    /// Adds `inc` to the connection's unassigned capacity and hands it out to
    /// the streams waiting for capacity, in queue order, until the connection
    /// has none left or no stream waits. Streams that no longer stream and
    /// have nothing buffered are dropped from the queue.
    pub fn assign_connection_capacity(&mut self, inc: WindowSize, store: &mut Store, task: &mut bool)
        requires
            old(self).inv_with_gap(old(store), inc as int),
        ensures
            final(self).inv(final(store)),
            final(self).conn().avail() == 0 || final(self).pending_capacity().len() == 0,
            final(self).conn().window() == old(self).conn().window(),
            final(self).pending_open() == old(self).pending_open(),
            final(self).in_flight() == old(self).in_flight(),
            final(self).max_buffer() == old(self).max_buffer(),
            final(store).streams@.len() == old(store).streams@.len(),
            same_queues(old(store).streams@, final(store).streams@),
            forall|i: int|
                0 <= i < old(store).streams@.len() ==> only_gained_capacity(
                    old(store).streams@[i],
                    #[trigger] final(store).streams@[i],
                ),
            forall|i: int|
                0 <= i < old(store).streams@.len() && !wants_capacity(old(store).streams@[i])
                    ==> #[trigger] final(store).streams@[i] == old(store).streams@[i],
            forall|k: usize| old(self).pending_send().contains(k) ==> #[trigger] final(self).pending_send().contains(k),
            forall|k: usize| #[trigger] final(self).pending_capacity().contains(k) ==> old(self).pending_capacity().contains(k),
            forall|i: int|
                0 <= i < old(store).streams@.len() && !old(self).pending_capacity().contains(i as usize)
                    ==> #[trigger] final(store).streams@[i] == old(store).streams@[i],
            forall|k: usize|
                old(self).pending_capacity().contains(k) && !final(self).pending_capacity().contains(k)
                    ==> !wants_capacity(#[trigger] final(store).streams@[k as int]),
            forall|k: usize|
                #[trigger] final(self).pending_capacity().contains(k) ==> wants_capacity(
                    final(store).streams@[k as int],
                ) || (final(store).streams@[k as int] == old(store).streams@[k as int]
                    && final(self).conn().avail() == 0),
            forall|i: int|
                0 <= i < old(store).streams@.len() ==> capacity_noticed(
                    old(store).streams@[i],
                    #[trigger] final(store).streams@[i],
                    final(self).pending_send(),
                    i,
                ),
    {
        proof {
            lemma_sum_avail_nonneg(store.streams@);
        }
        let _res = self.flow.assign_capacity(inc);
        let ghost start = store.streams@;
        let ghost pc0 = self.pending_capacity@;
        while self.flow.available() > 0
            invariant
                self.inv(store),
                self.conn().window() == old(self).conn().window(),
                self.pending_open() == old(self).pending_open(),
                self.max_buffer() == old(self).max_buffer(),
                self.in_flight() == old(self).in_flight(),
                store.streams@.len() == start.len(),
                start == old(store).streams@,
                pc0 == old(self).pending_capacity(),
                queue_ok(pc0, start.len() as int),
                forall|k: usize|
                    #[trigger] self.pending_capacity().contains(k) ==> wants_capacity(
                        store.streams@[k as int],
                    ) || store.streams@[k as int] == start[k as int],
                forall|k: usize| #[trigger] self.pending_capacity().contains(k) ==> pc0.contains(k),
                forall|i: int|
                    0 <= i < start.len() && !pc0.contains(i as usize) ==> #[trigger] store.streams@[i] == start[i],
                forall|k: usize|
                    pc0.contains(k) && !self.pending_capacity().contains(k) ==> !wants_capacity(
                        #[trigger] store.streams@[k as int],
                    ),
                forall|k: usize| old(self).pending_send().contains(k) ==> #[trigger] self.pending_send().contains(k),
                forall|i: int|
                    0 <= i < start.len() ==> only_gained_capacity(
                        start[i],
                        #[trigger] store.streams@[i],
                    ),
                forall|i: int|
                    0 <= i < start.len() && !wants_capacity(start[i]) ==> #[trigger] store.streams@[i]
                        == start[i],
                forall|i: int|
                    0 <= i < start.len() ==> capacity_noticed(
                        start[i],
                        #[trigger] store.streams@[i],
                        self.pending_send(),
                        i,
                    ),
            ensures
                self.inv(store),
                forall|k: usize|
                    #[trigger] self.pending_capacity().contains(k) ==> wants_capacity(
                        store.streams@[k as int],
                    ) || store.streams@[k as int] == start[k as int],
                forall|k: usize| #[trigger] self.pending_capacity().contains(k) ==> pc0.contains(k),
                forall|i: int|
                    0 <= i < start.len() && !pc0.contains(i as usize) ==> #[trigger] store.streams@[i] == start[i],
                forall|k: usize|
                    pc0.contains(k) && !self.pending_capacity().contains(k) ==> !wants_capacity(
                        #[trigger] store.streams@[k as int],
                    ),
                forall|k: usize| old(self).pending_send().contains(k) ==> #[trigger] self.pending_send().contains(k),
                self.conn().avail() == 0 || self.pending_capacity().len() == 0,
                self.conn().window() == old(self).conn().window(),
                self.pending_open() == old(self).pending_open(),
                self.max_buffer() == old(self).max_buffer(),
                self.in_flight() == old(self).in_flight(),
                store.streams@.len() == start.len(),
                forall|i: int|
                    0 <= i < start.len() ==> only_gained_capacity(
                        start[i],
                        #[trigger] store.streams@[i],
                    ),
                forall|i: int|
                    0 <= i < start.len() && !wants_capacity(start[i]) ==> #[trigger] store.streams@[i]
                        == start[i],
                forall|i: int|
                    0 <= i < start.len() ==> capacity_noticed(
                        start[i],
                        #[trigger] store.streams@[i],
                        self.pending_send(),
                        i,
                    ),
            decreases self.conn().avail(), self.pending_capacity().len(),
        {
            if self.pending_capacity.len() == 0 {
                break;
            }
            let ghost before_q = self.pending_capacity@;
            let key: usize = self.pending_capacity.remove(0);
            proof {
                assert(before_q[0] == key);
                assert(self.pending_capacity@ =~= before_q.drop_first());
                assert forall|i: int, j: int|
                    0 <= i < j < self.pending_capacity@.len() implies self.pending_capacity@[i]
                    != self.pending_capacity@[j] by {
                    assert(self.pending_capacity@[i] == before_q[i + 1]);
                    assert(self.pending_capacity@[j] == before_q[j + 1]);
                }
                assert forall|i: int| 0 <= i < self.pending_capacity@.len() implies (
                #[trigger] self.pending_capacity@[i]) < store.streams@.len() by {
                    assert(self.pending_capacity@[i] == before_q[i + 1]);
                }
            }
            proof {
                assert(before_q.contains(key));
                assert(!self.pending_capacity@.contains(key)) by {
                    if self.pending_capacity@.contains(key) {
                        let j = choose|j: int| 0 <= j < self.pending_capacity@.len() && self.pending_capacity@[j] == key;
                        assert(before_q[j + 1] == before_q[0]);
                    }
                }
                assert forall|k: usize| #[trigger] self.pending_capacity@.contains(k) implies before_q.contains(k) by {
                    let j = choose|j: int| 0 <= j < self.pending_capacity@.len() && self.pending_capacity@[j] == k;
                    assert(before_q[j + 1] == k);
                }
                assert forall|k: usize| before_q.contains(k) && k != key implies #[trigger] self.pending_capacity@.contains(k) by {
                    let j = choose|j: int| 0 <= j < before_q.len() && before_q[j] == k;
                    assert(j != 0);
                    assert(self.pending_capacity@[j - 1] == k);
                }
            }
            let stream: Stream = store.streams[key];
            if !(stream.state.is_send_streaming() || stream.buffered_send_data > 0) {
                continue;
            }
            let ghost mid = store.streams@;
            let ghost pc_mid = self.pending_capacity@;
            let ghost ps = self.pending_send@;
            self.try_assign_capacity(key, store, task);
            proof {
                assert forall|k: usize| ps.contains(k) implies #[trigger] self.pending_send().contains(k) by {
                    lemma_pushed_contains(ps, key, mid[key as int].buffered_send_data > 0, k);
                }
                assert forall|i: int| 0 <= i < start.len() implies capacity_noticed(
                    start[i],
                    #[trigger] store.streams@[i],
                    self.pending_send(),
                    i,
                ) by {
                    assert(capacity_noticed(start[i], mid[i], ps, i));
                    lemma_pushed_contains(ps, key, mid[key as int].buffered_send_data > 0, i as usize);
                    if i != key {
                        assert(store.streams@[i] == mid[i]);
                    }
                }
                assert forall|i: int| 0 <= i < start.len() implies only_gained_capacity(
                    start[i],
                    #[trigger] store.streams@[i],
                ) by {
                    if i != key {
                        assert(store.streams@[i] == mid[i]);
                    }
                }
                assert forall|i: int|
                    0 <= i < start.len() && !wants_capacity(start[i]) implies #[trigger] store.streams@[i]
                    == start[i] by {
                    if i != key {
                        assert(store.streams@[i] == mid[i]);
                    }
                }
                if wants_capacity(mid[key as int]) {
                    assert(additional_for(mid[key as int]) > 0);
                }
                let pca = self.pending_capacity@;
                let ns = store.streams@[key as int];
                assert forall|k: usize| #[trigger] pca.contains(k) implies wants_capacity(
                    store.streams@[k as int],
                ) || store.streams@[k as int] == start[k as int] by {
                    let cond = ns.send_flow.avail() < ns.requested_send_capacity && ns.send_flow.spec_has_unavailable();
                    if wants_capacity(mid[key as int]) {
                        lemma_pushed_contains(pc_mid, key, cond, k);
                    }
                    if k != key {
                        assert(pc_mid.contains(k));
                        assert(before_q.contains(k)) by {
                            let j = choose|j: int| 0 <= j < pc_mid.len() && pc_mid[j] == k;
                            assert(before_q[j + 1] == k);
                        }
                        let j = choose|j: int| 0 <= j < pc0.len() && pc0[j] == k;
                        assert(k < start.len());
                        assert(store.streams@[k as int] == mid[k as int]);
                    } else {
                        assert(wants_capacity(mid[key as int]) && cond);
                        assert(additional_for(ns) > 0);
                    }
                }
                assert forall|k: usize| #[trigger] pca.contains(k) implies pc0.contains(k) by {
                    if wants_capacity(mid[key as int]) {
                        lemma_pushed_contains(
                            pc_mid,
                            key,
                            ns.send_flow.avail() < ns.requested_send_capacity && ns.send_flow.spec_has_unavailable(),
                            k,
                        );
                    }
                }
                assert forall|k: usize|
                    pc0.contains(k) && !pca.contains(k) implies !wants_capacity(#[trigger] store.streams@[k as int]) by {
                    if k == key {
                        if wants_capacity(mid[key as int]) {
                            lemma_pushed_contains(
                                pc_mid,
                                key,
                                ns.send_flow.avail() < ns.requested_send_capacity && ns.send_flow.spec_has_unavailable(),
                                k,
                            );
                            assert(additional_for(ns) == 0);
                        }
                    } else {
                        let j = choose|j: int| 0 <= j < pc0.len() && pc0[j] == k;
                        assert(k < start.len());
                        assert(store.streams@[k as int] == mid[k as int]);
                        if wants_capacity(mid[key as int]) {
                            lemma_pushed_contains(
                                pc_mid,
                                key,
                                ns.send_flow.avail() < ns.requested_send_capacity && ns.send_flow.spec_has_unavailable(),
                                k,
                            );
                        }
                        assert(!pc_mid.contains(k));
                        assert(!before_q.contains(k));
                    }
                }
            }
        }
    }

    /// Takes back all the capacity assigned to the stream and hands it to the
    /// connection's waiting streams.
    pub fn reclaim_all_capacity(&mut self, key: usize, store: &mut Store, task: &mut bool)
        requires
            old(self).inv(old(store)),
            key < old(store).streams@.len(),
        ensures
            final(self).inv(final(store)),
            final(self).conn().window() == old(self).conn().window(),
            final(self).pending_open() == old(self).pending_open(),
            final(self).in_flight() == old(self).in_flight(),
            final(self).max_buffer() == old(self).max_buffer(),
            forall|k: usize| old(self).pending_send().contains(k) ==> #[trigger] final(self).pending_send().contains(k),
            final(store).streams@.len() == old(store).streams@.len(),
            same_queues(old(store).streams@, final(store).streams@),
            old(store).streams@[key as int].send_flow.avail() == 0 ==> final(store).streams@
                == old(store).streams@ && final(self).conn() == old(self).conn()
                && final(self).pending_capacity() == old(self).pending_capacity()
                && final(self).pending_send() == old(self).pending_send(),
            waiters_kept(old(self).pending_capacity(), final(self).pending_capacity(), final(store).streams@),
            old(store).streams@[key as int].send_flow.avail() > 0 ==> final(self).conn().avail() == 0
                || final(self).pending_capacity().len() == 0,
            same_but_flow(old(store).streams@[key as int], final(store).streams@[key as int]),
            final(store).streams@[key as int].send_flow.window() == old(store).streams@[key as int].send_flow.window(),
            ({
                let s = old(store).streams@[key as int];
                !(s.spec_is_send_ready() && (s.state.spec_is_send_streaming() || s.buffered_send_data > 0)
                    && min_int(s.requested_send_capacity as int, as_size(s.send_flow.window())) > 0)
                    ==> final(store).streams@[key as int].send_flow.avail() == 0
            }),
            forall|i: int|
                0 <= i < old(store).streams@.len() && i != key ==> only_gained_capacity(
                    old(store).streams@[i],
                    #[trigger] final(store).streams@[i],
                ),
    {
        let mut stream: Stream = store.streams[key];
        let available: WindowSize = stream.send_flow.available_size();
        if available > 0 {
            let ghost old_streams = store.streams@;
            let _res = stream.send_flow.claim_capacity(available);
            store.streams.set(key, stream);
            proof {
                lemma_sum_avail_update(old_streams, key as int, stream);
                let s = store.streams@;
                assert forall|i: int| 0 <= i < s.len() implies self.slot_ok(#[trigger] s[i], i) by {
                    if i != key {
                        assert(s[i] == old_streams[i]);
                    }
                }
            }
            let ghost mid = store.streams@;
            proof {
                assert(mid[key as int].send_flow.avail() == 0);
            }
            self.assign_connection_capacity(available, store, task);
            proof {
                if !mid[key as int].spec_is_send_ready() {
                    assert(!wants_capacity(mid[key as int]));
                }
                assert forall|i: int|
                    0 <= i < old(store).streams@.len() && i != key implies only_gained_capacity(
                    old(store).streams@[i],
                    #[trigger] store.streams@[i],
                ) by {
                    assert(mid[i] == old(store).streams@[i]);
                    assert(only_gained_capacity(mid[i], store.streams@[i]));
                }
            }
        }
    }

    /// Takes back the capacity assigned to the stream beyond what its
    /// buffered data needs, and hands it to the waiting streams.
    pub fn reclaim_reserved_capacity(&mut self, key: usize, store: &mut Store, task: &mut bool)
        requires
            old(self).inv(old(store)),
            key < old(store).streams@.len(),
        ensures
            final(self).inv(final(store)),
            final(self).conn().window() == old(self).conn().window(),
            final(self).pending_open() == old(self).pending_open(),
            final(self).in_flight() == old(self).in_flight(),
            final(self).max_buffer() == old(self).max_buffer(),
            forall|k: usize| old(self).pending_send().contains(k) ==> #[trigger] final(self).pending_send().contains(k),
            final(store).streams@.len() == old(store).streams@.len(),
            same_queues(old(store).streams@, final(store).streams@),
            old(store).streams@[key as int].send_flow.avail() <= old(store).streams@[key as int].buffered_send_data ==> final(store).streams@ == old(store).streams@ && final(self).conn() == old(self).conn()
                && final(self).pending_capacity() == old(self).pending_capacity()
                && final(self).pending_send() == old(self).pending_send(),
            waiters_kept(old(self).pending_capacity(), final(self).pending_capacity(), final(store).streams@),
            same_but_flow(old(store).streams@[key as int], final(store).streams@[key as int]),
            final(store).streams@[key as int].send_flow.window() == old(store).streams@[key as int].send_flow.window(),
            forall|i: int|
                0 <= i < old(store).streams@.len() && i != key ==> only_gained_capacity(
                    old(store).streams@[i],
                    #[trigger] final(store).streams@[i],
                ),
            ({
                let s = old(store).streams@[key as int];
                let ns = final(store).streams@[key as int];
                let b = s.buffered_send_data as int;
                let still_wants = s.spec_is_send_ready() && (s.state.spec_is_send_streaming() || b > 0)
                    && min_int(
                    sat_sub(s.requested_send_capacity as int, b),
                    sat_sub(as_size(s.send_flow.window()), b),
                ) > 0;
                s.send_flow.avail() > b ==> ns.send_flow.avail() >= b && (final(self).conn().avail() == 0
                    || final(self).pending_capacity().len() == 0) && (!still_wants
                    ==> ns.send_flow.avail() == b)
            }),
    {
        let mut stream: Stream = store.streams[key];
        let available: WindowSize = stream.send_flow.available_size();
        if available as usize > stream.buffered_send_data {
            let reserved: WindowSize = available - stream.buffered_send_data as WindowSize;
            let ghost old_streams = store.streams@;
            let _res = stream.send_flow.claim_capacity(reserved);
            store.streams.set(key, stream);
            proof {
                lemma_sum_avail_update(old_streams, key as int, stream);
                let s = store.streams@;
                assert forall|i: int| 0 <= i < s.len() implies self.slot_ok(#[trigger] s[i], i) by {
                    if i != key {
                        assert(s[i] == old_streams[i]);
                    }
                }
            }
            let ghost mid = store.streams@;
            proof {
                assert(mid[key as int].send_flow.avail() == stream.buffered_send_data);
                assert(as_size(mid[key as int].send_flow.avail()) == stream.buffered_send_data);
            }
            self.assign_connection_capacity(reserved, store, task);
            proof {
                assert(only_gained_capacity(mid[key as int], store.streams@[key as int]));
                assert forall|i: int|
                    0 <= i < old(store).streams@.len() && i != key implies only_gained_capacity(
                    old(store).streams@[i],
                    #[trigger] store.streams@[i],
                ) by {
                    assert(mid[i] == old(store).streams@[i]);
                    assert(only_gained_capacity(mid[i], store.streams@[i]));
                }
            }
        }
    }
}

/// The capacity a request of `capacity` more bytes amounts to for `s`: the
/// request plus the buffered data, capped at a full window.
pub open spec fn target_capacity(s: Stream, capacity: WindowSize) -> int {
    min_int(capacity + s.buffered_send_data, MAX_WINDOW_SIZE as int)
}

impl Prioritize {
    /// Queues the stream to send when it is ready to (neither waiting to
    /// open nor waiting for its PUSH_PROMISE), waking the connection task.
    pub fn schedule_send(&mut self, key: usize, store: &Store, task: &mut bool)
        requires
            old(self).inv(store),
            key < store.streams@.len(),
        ensures
            final(self).inv(store),
            final(self).pending_send() == pushed(
                old(self).pending_send(),
                key,
                store.streams@[key as int].spec_is_send_ready(),
            ),
            *final(task) == (*old(task) && !store.streams@[key as int].spec_is_send_ready()),
            final(self).conn() == old(self).conn(),
            final(self).pending_capacity() == old(self).pending_capacity(),
            final(self).pending_open() == old(self).pending_open(),
            final(self).in_flight() == old(self).in_flight(),
            final(self).max_buffer() == old(self).max_buffer(),
            final(self).in_flight() == old(self).in_flight(),
    {
        self.schedule_send_with_gap(key, store, task, Ghost(0));
    }

    /// `schedule_send` while `gap` capacity taken back from a stream is
    /// still to be handed out.
    pub(crate) fn schedule_send_with_gap(
        &mut self,
        key: usize,
        store: &Store,
        task: &mut bool,
        Ghost(gap): Ghost<int>,
    )
        requires
            old(self).inv_with_gap(store, gap),
            key < store.streams@.len(),
        ensures
            final(self).inv_with_gap(store, gap),
            final(self).pending_send() == pushed(
                old(self).pending_send(),
                key,
                store.streams@[key as int].spec_is_send_ready(),
            ),
            *final(task) == (*old(task) && !store.streams@[key as int].spec_is_send_ready()),
            final(self).conn() == old(self).conn(),
            final(self).pending_capacity() == old(self).pending_capacity(),
            final(self).pending_open() == old(self).pending_open(),
            final(self).in_flight() == old(self).in_flight(),
            final(self).max_buffer() == old(self).max_buffer(),
            final(self).in_flight() == old(self).in_flight(),
    {
        if store.streams[key].is_send_ready() {
            queue_push(&mut self.pending_send, key);
            if *task {
                *task = false;
            }
        }
    }

    /// Changing only a stream's frame queue keeps the invariant.
    pub proof fn lemma_inv_queue_change(&self, a: &Store, b: &Store, key: int, gap: int)
        requires
            self.inv_with_gap(a, gap),
            0 <= key < a.streams@.len(),
            b.streams@ == a.streams@.update(
                key,
                Stream { pending_send: b.streams@[key].pending_send, ..a.streams@[key] },
            ),
        ensures
            self.inv_with_gap(b, gap),
    {
        assert(self.slot_ok(a.streams@[key], key));
        self.lemma_replace_stream(a, b, key, gap);
    }

    /// Queues `frame` on the stream and schedules the stream to send.
    pub fn queue_frame<B>(
        &mut self,
        frame: Frame<B>,
        buffer: &mut Buffer<Frame<B>>,
        key: usize,
        store: &mut Store,
        task: &mut bool,
    )
        requires
            old(self).inv(old(store)),
            frames_ok(old(store).streams@, old(buffer)),
            key < old(store).streams@.len(),
            data_len(old(store).streams@[key as int].pending_send.view_in(old(buffer))) + frame_data_len(frame)
                <= old(store).streams@[key as int].buffered_send_data,
        ensures
            final(self).inv(final(store)),
            frames_ok(final(store).streams@, final(buffer)),
            final(store).streams@ == old(store).streams@.update(
                key as int,
                Stream {
                    pending_send: final(store).streams@[key as int].pending_send,
                    ..old(store).streams@[key as int]
                },
            ),
            final(store).streams@[key as int].pending_send.view_in(final(buffer)) == old(store).streams@[key as int].pending_send.view_in(old(buffer)).push(frame),
            final(self).pending_send() == pushed(
                old(self).pending_send(),
                key,
                old(store).streams@[key as int].spec_is_send_ready(),
            ),
            *final(task) == (*old(task) && !old(store).streams@[key as int].spec_is_send_ready()),
            final(self).conn() == old(self).conn(),
            final(self).pending_capacity() == old(self).pending_capacity(),
            final(self).pending_open() == old(self).pending_open(),
            final(self).in_flight() == old(self).in_flight(),
            final(self).max_buffer() == old(self).max_buffer(),
            other_views_kept(old(store).streams@, old(buffer), final(buffer), key as int),
    {
        self.queue_frame_with_gap(frame, buffer, key, store, task, Ghost(0));
    }

    /// `queue_frame` while `gap` capacity taken back from a stream is still
    /// to be handed out.
    pub(crate) fn queue_frame_with_gap<B>(
        &mut self,
        frame: Frame<B>,
        buffer: &mut Buffer<Frame<B>>,
        key: usize,
        store: &mut Store,
        task: &mut bool,
        Ghost(gap): Ghost<int>,
    )
        requires
            old(self).inv_with_gap(old(store), gap),
            frames_ok(old(store).streams@, old(buffer)),
            key < old(store).streams@.len(),
            data_len(old(store).streams@[key as int].pending_send.view_in(old(buffer))) + frame_data_len(frame)
                <= old(store).streams@[key as int].buffered_send_data,
        ensures
            final(self).inv_with_gap(final(store), gap),
            frames_ok(final(store).streams@, final(buffer)),
            final(store).streams@ == old(store).streams@.update(
                key as int,
                Stream {
                    pending_send: final(store).streams@[key as int].pending_send,
                    ..old(store).streams@[key as int]
                },
            ),
            final(store).streams@[key as int].pending_send.view_in(final(buffer)) == old(store).streams@[key as int].pending_send.view_in(old(buffer)).push(frame),
            final(self).pending_send() == pushed(
                old(self).pending_send(),
                key,
                old(store).streams@[key as int].spec_is_send_ready(),
            ),
            *final(task) == (*old(task) && !old(store).streams@[key as int].spec_is_send_ready()),
            final(self).conn() == old(self).conn(),
            final(self).pending_capacity() == old(self).pending_capacity(),
            final(self).pending_open() == old(self).pending_open(),
            final(self).in_flight() == old(self).in_flight(),
            final(self).max_buffer() == old(self).max_buffer(),
            other_views_kept(old(store).streams@, old(buffer), final(buffer), key as int),
    {
        let ghost before = *store;
        push_frame_back(buffer, store, key, frame);
        proof {
            self.lemma_inv_queue_change(&before, store, key as int, gap);
        }
        self.schedule_send_with_gap(key, store, task, Ghost(gap));
    }

    /// Queues the stream to wait for a concurrency slot; returns whether it
    /// was not queued already.
    pub fn queue_open(&mut self, key: usize, store: &mut Store) -> (added: bool)
        requires
            old(self).inv(old(store)),
            key < old(store).streams@.len(),
            old(store).streams@[key as int].send_flow.avail() == 0,
        ensures
            final(self).inv(final(store)),
            added == !old(self).pending_open().contains(key),
            final(self).pending_open() == pushed(old(self).pending_open(), key, true),
            final(self).in_flight() == old(self).in_flight(),
            final(store).streams@ == old(store).streams@.update(
                key as int,
                Stream { is_pending_open: true, ..old(store).streams@[key as int] },
            ),
            final(self).conn() == old(self).conn(),
            final(self).pending_send() == old(self).pending_send(),
            final(self).pending_capacity() == old(self).pending_capacity(),
            final(self).max_buffer() == old(self).max_buffer(),
    {
        let ghost old_streams = store.streams@;
        let ghost old_q = self.pending_open@;
        let added: bool = queue_push(&mut self.pending_open, key);
        let mut stream: Stream = store.streams[key];
        stream.is_pending_open = true;
        store.streams.set(key, stream);
        let n: usize = store.streams.len();
        proof {
            lemma_sum_avail_update(old_streams, key as int, stream);
            let s = store.streams@;
            assert forall|i: int| 0 <= i < s.len() implies self.slot_ok(#[trigger] s[i], i) by {
                assert(i < n);
                lemma_pushed_contains(old_q, key, true, i as usize);
                if i != key {
                    assert(s[i] == old_streams[i]);
                    assert(old(self).slot_ok(old_streams[i], i));
                }
            }
        }
        added
    }

    /// Sets the capacity the stream wants to `capacity` beyond its buffered
    /// data (capped at a full window). A smaller target gives the excess
    /// back to the connection; a larger one asks for more, unless the send
    /// side is closed.
    pub fn reserve_capacity(
        &mut self,
        capacity: WindowSize,
        key: usize,
        store: &mut Store,
        task: &mut bool,
    )
        requires
            old(self).inv(old(store)),
            key < old(store).streams@.len(),
            capacity + old(store).streams@[key as int].buffered_send_data <= usize::MAX,
        ensures
            final(self).inv(final(store)),
            final(self).conn().window() == old(self).conn().window(),
            final(self).pending_open() == old(self).pending_open(),
            final(self).in_flight() == old(self).in_flight(),
            final(store).streams@.len() == old(store).streams@.len(),
            final(self).max_buffer() == old(self).max_buffer(),
            same_queues(old(store).streams@, final(store).streams@),
            forall|k: usize|
                old(self).pending_capacity().contains(k) && k != key && !final(self).pending_capacity().contains(k)
                    ==> !wants_capacity(#[trigger] final(store).streams@[k as int]),
            ({
                let s = old(store).streams@[key as int];
                let t = target_capacity(s, capacity);
                let ns = final(store).streams@[key as int];
                &&& t == s.requested_send_capacity ==> final(store).streams@ == old(store).streams@
                    && final(self).conn() == old(self).conn() && final(self).pending_send() == old(self).pending_send() && final(self).pending_capacity() == old(self).pending_capacity()
                    && *final(task) == *old(task)
                &&& t < s.requested_send_capacity ==> ns.requested_send_capacity == t
                    && ns.send_flow.avail() == min_int(s.send_flow.avail(), t)
                &&& t > s.requested_send_capacity && s.state.spec_is_send_closed() ==> final(store).streams@ == old(store).streams@ && final(self).conn() == old(self).conn()
                    && final(self).pending_send() == old(self).pending_send()
                    && final(self).pending_capacity() == old(self).pending_capacity()
                    && *final(task) == *old(task)
                &&& t > s.requested_send_capacity && !s.state.spec_is_send_closed()
                    ==> ns.requested_send_capacity == t && ns.send_flow.avail()
                    >= s.send_flow.avail() && capacity_sought(
                    Stream { requested_send_capacity: ns.requested_send_capacity, ..s },
                    ns,
                    old(self).conn().avail(),
                    final(self).conn().avail(),
                    old(self).pending_capacity(),
                    final(self).pending_capacity(),
                    old(self).pending_send(),
                    final(self).pending_send(),
                    key,
                    true,
                ) && forall|i: int|
                    0 <= i < old(store).streams@.len() && i != key ==> #[trigger] final(store).streams@[i]
                        == old(store).streams@[i]
                &&& t < s.requested_send_capacity && s.send_flow.avail() > t ==> final(self).conn().avail() == 0
                    || final(self).pending_capacity().len() == 0
                &&& ns.send_flow.window() == s.send_flow.window()
                &&& ns == Stream {
                    send_flow: ns.send_flow,
                    send_capacity_inc: ns.send_capacity_inc,
                    requested_send_capacity: ns.requested_send_capacity,
                    ..s
                }
            }),
    {
        let mut stream: Stream = store.streams[key];
        let wanted: usize = capacity as usize + stream.buffered_send_data;
        let target: usize = if wanted < MAX_WINDOW_SIZE as usize {
            wanted
        } else {
            MAX_WINDOW_SIZE as usize
        };
        let requested: usize = stream.requested_send_capacity as usize;
        if target == requested {
            return;
        }
        let ghost old_streams = store.streams@;
        if target < requested {
            stream.requested_send_capacity = target as WindowSize;
            let available: WindowSize = stream.send_flow.available_size();
            if available as usize > target {
                let diff: WindowSize = available - target as WindowSize;
                let _res = stream.send_flow.claim_capacity(diff);
                store.streams.set(key, stream);
                proof {
                    lemma_sum_avail_update(old_streams, key as int, stream);
                    let s = store.streams@;
                    assert forall|i: int| 0 <= i < s.len() implies self.slot_ok(#[trigger] s[i], i) by {
                        if i != key {
                            assert(s[i] == old_streams[i]);
                        }
                    }
                    assert(!wants_capacity(stream));
                }
                self.assign_connection_capacity(diff, store, task);
            } else {
                store.streams.set(key, stream);
                proof {
                    lemma_sum_avail_update(old_streams, key as int, stream);
                    let s = store.streams@;
                    assert forall|i: int| 0 <= i < s.len() implies self.slot_ok(#[trigger] s[i], i) by {
                        if i != key {
                            assert(s[i] == old_streams[i]);
                        }
                    }
                }
            }
        } else {
            if stream.state.is_send_closed() {
                return;
            }
            stream.requested_send_capacity = target as WindowSize;
            store.streams.set(key, stream);
            proof {
                lemma_sum_avail_update(old_streams, key as int, stream);
                let s = store.streams@;
                assert forall|i: int| 0 <= i < s.len() implies self.slot_ok(#[trigger] s[i], i) by {
                    if i != key {
                        assert(s[i] == old_streams[i]);
                    }
                }
            }
            let ghost pc0 = self.pending_capacity@;
            self.try_assign_capacity(key, store, task);
            proof {
                assert forall|k: usize| pc0.contains(k) implies #[trigger] self.pending_capacity@.contains(k) by {
                    lemma_pushed_contains(
                        pc0,
                        key,
                        store.streams@[key as int].send_flow.avail() < store.streams@[key as int].requested_send_capacity
                            && store.streams@[key as int].send_flow.spec_has_unavailable(),
                        k,
                    );
                }
            }
        }
    }

    /// Applies a stream WINDOW_UPDATE: grows the stream's window and tries to
    /// assign it more capacity. A stream that can send nothing more is left
    /// alone; a window above the maximum is a flow-control error, with
    /// nothing changed.
    pub fn recv_stream_window_update(
        &mut self,
        inc: WindowSize,
        key: usize,
        store: &mut Store,
        task: &mut bool,
    ) -> (r: Result<(), Reason>)
        requires
            old(self).inv(old(store)),
            key < old(store).streams@.len(),
        ensures
            final(self).inv(final(store)),
            final(self).conn().window() == old(self).conn().window(),
            final(self).pending_open() == old(self).pending_open(),
            final(self).in_flight() == old(self).in_flight(),
            final(store).streams@.len() == old(store).streams@.len(),
            same_queues(old(store).streams@, final(store).streams@),
            forall|j: int|
                0 <= j < old(store).streams@.len() && j != key ==> #[trigger] final(store).streams@[j]
                    == old(store).streams@[j],
            ({
                let s = old(store).streams@[key as int];
                let ns = final(store).streams@[key as int];
                let idle = s.state.spec_is_send_closed() && s.buffered_send_data == 0;
                let too_big = s.send_flow.window() + inc > MAX_WINDOW_SIZE || inc > MAX_WINDOW_SIZE;
                &&& idle ==> r is Ok && final(store).streams@ == old(store).streams@ && *final(self) == *old(self)
                &&& !idle && too_big ==> r == Err::<(), Reason>(Reason::FlowControlError)
                    && final(store).streams@ == old(store).streams@ && final(self).conn() == old(self).conn() && final(self).pending_send() == old(self).pending_send()
                    && final(self).pending_capacity() == old(self).pending_capacity()
                &&& !idle && !too_big ==> r is Ok && ns.send_flow.window() == s.send_flow.window()
                    + inc && ns.send_flow.avail() >= s.send_flow.avail()
                    && ns.requested_send_capacity == s.requested_send_capacity
                    && ns.buffered_send_data == s.buffered_send_data && ns.state == s.state
                &&& !idle && !too_big ==> same_but_flow(s, ns) && capacity_sought(
                    Stream { send_flow: s.send_flow.with_window(s.send_flow.window() + inc), ..s },
                    ns,
                    old(self).conn().avail(),
                    final(self).conn().avail(),
                    old(self).pending_capacity(),
                    final(self).pending_capacity(),
                    old(self).pending_send(),
                    final(self).pending_send(),
                    key,
                    true,
                )
            }),
    {
        let mut stream: Stream = store.streams[key];
        if stream.state.is_send_closed() && stream.buffered_send_data == 0 {
            return Ok(());
        }
        let ghost old_streams = store.streams@;
        match stream.send_flow.inc_window(inc) {
            Ok(()) => {},
            Err(e) => {
                return Err(e);
            },
        }
        store.streams.set(key, stream);
        proof {
            lemma_sum_avail_update(old_streams, key as int, stream);
            let s = store.streams@;
            assert forall|i: int| 0 <= i < s.len() implies self.slot_ok(#[trigger] s[i], i) by {
                if i != key {
                    assert(s[i] == old_streams[i]);
                }
            }
        }
        let ghost mid = store.streams@;
        self.try_assign_capacity(key, store, task);
        proof {
            assert forall|j: int|
                0 <= j < old(store).streams@.len() && j != key implies #[trigger] store.streams@[j]
                    == old(store).streams@[j] by {
                assert(mid[j] == old(store).streams@[j]);
            }
            assert(mid[key as int] == stream);
            assert(old(self).conn().avail() >= 0);
        }
        Ok(())
    }

    /// Applies a connection WINDOW_UPDATE: grows the connection window and
    /// hands the new capacity to the waiting streams. A window above the
    /// maximum is a flow-control error, with nothing changed.
    pub fn recv_connection_window_update(
        &mut self,
        inc: WindowSize,
        store: &mut Store,
        task: &mut bool,
    ) -> (r: Result<(), Reason>)
        requires
            old(self).inv(old(store)),
        ensures
            final(self).inv(final(store)),
            final(self).pending_open() == old(self).pending_open(),
            final(self).in_flight() == old(self).in_flight(),
            final(store).streams@.len() == old(store).streams@.len(),
            same_queues(old(store).streams@, final(store).streams@),
            old(self).conn().window() + inc <= MAX_WINDOW_SIZE && inc <= MAX_WINDOW_SIZE ==> r is Ok,
            r is Ok ==> final(self).conn().window() == old(self).conn().window() + inc && (final(self).conn().avail() == 0 || final(self).pending_capacity().len() == 0),
            r is Ok ==> forall|i: int|
                0 <= i < old(store).streams@.len() && !old(self).pending_capacity().contains(i as usize)
                    ==> #[trigger] final(store).streams@[i] == old(store).streams@[i],
            r is Ok ==> forall|k: usize|
                old(self).pending_capacity().contains(k) && !final(self).pending_capacity().contains(k)
                    ==> !wants_capacity(#[trigger] final(store).streams@[k as int]),
            r is Err ==> r == Err::<(), Reason>(Reason::FlowControlError) && final(store).streams@
                == old(store).streams@ && final(self).conn() == old(self).conn(),
            forall|i: int|
                0 <= i < old(store).streams@.len() ==> only_gained_capacity(
                    old(store).streams@[i],
                    #[trigger] final(store).streams@[i],
                ),
    {
        match self.flow.inc_window(inc) {
            Ok(()) => {},
            Err(e) => {
                return Err(e);
            },
        }
        self.assign_connection_capacity(inc, store, task);
        Ok(())
    }

    /// Drops every stream from the queue of streams waiting for capacity.
    pub fn clear_pending_capacity(&mut self, store: &Store)
        requires
            old(self).inv(store),
        ensures
            final(self).inv(store),
            final(self).pending_capacity() == Seq::<usize>::empty(),
            final(self).conn() == old(self).conn(),
            final(self).pending_send() == old(self).pending_send(),
            final(self).pending_open() == old(self).pending_open(),
            final(self).in_flight() == old(self).in_flight(),
            final(self).max_buffer() == old(self).max_buffer(),
    {
        self.pending_capacity.clear();
    }
}

/// Every stream that left the capacity queue (from `pc0` to `pc1`) no longer
/// wants capacity (see `wants_capacity`) in `streams`: no waiting stream is
/// dropped while it still waits.
pub open spec fn waiters_kept(pc0: Seq<usize>, pc1: Seq<usize>, streams: Seq<Stream>) -> bool {
    forall|k: usize|
        pc0.contains(k) && !pc1.contains(k) ==> !wants_capacity(#[trigger] streams[k as int])
}

/// A stream that wants no capacity still wants none after it only gained
/// capacity.
pub proof fn lemma_unwanted_kept(a: Stream, b: Stream)
    requires
        only_gained_capacity(a, b),
        !wants_capacity(a),
        a.send_flow.avail() >= 0,
    ensures
        !wants_capacity(b),
{
}

/// Seeking capacity moves capacity and creates none: what the stream gains
/// is exactly what the connection's spare capacity loses, never more than
/// the stream lacked, and a stream that wants capacity while the connection
/// has some to spare gains something.
pub proof fn law_sought_capacity_conserved(
    r: Stream,
    ns: Stream,
    conn0: int,
    conn1: int,
    pc0: Seq<usize>,
    pc1: Seq<usize>,
    ps0: Seq<usize>,
    ps1: Seq<usize>,
    key: usize,
)
    requires
        capacity_sought(r, ns, conn0, conn1, pc0, pc1, ps0, ps1, key, true),
        conn0 >= 0,
    ensures
        ns.send_flow.avail() - r.send_flow.avail() == conn0 - conn1,
        0 <= ns.send_flow.avail() - r.send_flow.avail() <= additional_for(r),
        wants_capacity(r) && conn0 > 0 ==> ns.send_flow.avail() > r.send_flow.avail(),
{
}

/// Seeking capacity settles a stream: afterwards it either wants no more
/// capacity, or the connection has none left to spare and the stream is
/// queued to wait for some. The connection never gains spare capacity by it.
pub proof fn law_sought_capacity_settles(
    r: Stream,
    ns: Stream,
    conn0: int,
    conn1: int,
    pc0: Seq<usize>,
    pc1: Seq<usize>,
    ps0: Seq<usize>,
    ps1: Seq<usize>,
    key: usize,
)
    requires
        capacity_sought(r, ns, conn0, conn1, pc0, pc1, ps0, ps1, key, true),
        r.send_flow.avail() >= 0,
        conn0 >= 0,
        ns.send_flow.window() == r.send_flow.window(),
        same_but_flow(r, ns),
    ensures
        0 <= conn1 <= conn0,
        wants_capacity(ns) ==> conn1 == 0 && pc1.contains(key),
{
    if wants_capacity(ns) {
        lemma_pushed_contains(
            pc0,
            key,
            ns.send_flow.avail() < ns.requested_send_capacity && ns.send_flow.spec_has_unavailable(),
            key,
        );
    }
}

/// The stream once `sz` more bytes are buffered, its request raised to
/// cover them (up to a full window) when it fell short.
pub open spec fn with_buffered(s: Stream, sz: int) -> Stream {
    let b = s.buffered_send_data + sz;
    Stream {
        buffered_send_data: b as usize,
        requested_send_capacity: if s.requested_send_capacity < b {
            min_int(b, MAX_WINDOW_SIZE as int) as u32
        } else {
            s.requested_send_capacity
        },
        ..s
    }
}

/// The capacity seeking hands the stream `r` (see `capacity_sought`).
pub open spec fn sought_amount(r: Stream, conn0: int, tried: bool) -> int {
    if tried && wants_capacity(r) {
        min_int(conn0, additional_for(r))
    } else {
        0
    }
}

/// What seeking capacity for the stream `r` under key `key` did, when
/// `tried`: a stream that wants capacity (see `wants_capacity`) gets the
/// connection's spare capacity up to what it lacks, stays queued for
/// capacity while it lacks some and its window has room, and is queued to
/// send when it has data buffered; otherwise, as when not `tried`, the
/// capacity and the queues are as they were. `ns` is the stream after,
/// `conn0`/`conn1` the connection's spare capacity, `pc0`/`pc1` and
/// `ps0`/`ps1` the capacity and send queues, before and after.
pub open spec fn capacity_sought(
    r: Stream,
    ns: Stream,
    conn0: int,
    conn1: int,
    pc0: Seq<usize>,
    pc1: Seq<usize>,
    ps0: Seq<usize>,
    ps1: Seq<usize>,
    key: usize,
    tried: bool,
) -> bool {
    if tried && wants_capacity(r) {
        let assign = sought_amount(r, conn0, tried);
        &&& ns.send_flow.avail() == r.send_flow.avail() + assign
        &&& conn1 == conn0 - assign
        &&& pc1 == pushed(
            pc0,
            key,
            ns.send_flow.avail() < ns.requested_send_capacity && ns.send_flow.spec_has_unavailable(),
        )
        &&& ps1 == pushed(ps0, key, r.buffered_send_data > 0)
    } else {
        &&& ns.send_flow.avail() == r.send_flow.avail()
        &&& conn1 == conn0
        &&& pc1 == pc0
        &&& ps1 == ps0
    }
}

impl Prioritize {
    /// The request covers what is buffered, up to a full window.
    pub open spec fn covers_buffered(s: Stream) -> bool {
        s.requested_send_capacity >= min_int(s.buffered_send_data as int, MAX_WINDOW_SIZE as int)
    }

    /// Adds `sz` bytes to the stream's buffered data and, when that exceeds
    /// the request, raises the request to match and seeks capacity.
    fn buffer_data(&mut self, sz: usize, key: usize, store: &mut Store, task: &mut bool)
        requires
            old(self).inv(old(store)),
            key < old(store).streams@.len(),
            old(store).streams@[key as int].buffered_send_data + sz <= usize::MAX,
            old(store).streams@[key as int].state.spec_is_send_streaming(),
        ensures
            final(self).inv(final(store)),
            final(self).pending_open() == old(self).pending_open(),
            final(self).in_flight() == old(self).in_flight(),
            final(self).max_buffer() == old(self).max_buffer(),
            final(self).conn().window() == old(self).conn().window(),
            final(store).streams@.len() == old(store).streams@.len(),
            same_queues(old(store).streams@, final(store).streams@),
            ({
                let s = old(store).streams@[key as int];
                let ns = final(store).streams@[key as int];
                &&& ns.buffered_send_data == s.buffered_send_data + sz
                &&& Self::covers_buffered(ns)
                &&& ns == Stream {
                    send_flow: ns.send_flow,
                    send_capacity_inc: ns.send_capacity_inc,
                    buffered_send_data: ns.buffered_send_data,
                    requested_send_capacity: ns.requested_send_capacity,
                    ..s
                }
                &&& ns.requested_send_capacity == with_buffered(s, sz as int).requested_send_capacity
                &&& ns.send_flow.window() == s.send_flow.window()
                &&& capacity_sought(
                    with_buffered(s, sz as int),
                    ns,
                    old(self).conn().avail(),
                    final(self).conn().avail(),
                    old(self).pending_capacity(),
                    final(self).pending_capacity(),
                    old(self).pending_send(),
                    final(self).pending_send(),
                    key,
                    s.requested_send_capacity < s.buffered_send_data + sz,
                )
            }),
            forall|i: int|
                0 <= i < old(store).streams@.len() && i != key ==> #[trigger] final(store).streams@[i]
                    == old(store).streams@[i],
    {
        let mut stream: Stream = store.streams[key];
        let ghost old_streams = store.streams@;
        stream.buffered_send_data = stream.buffered_send_data + sz;
        let raise: bool = (stream.requested_send_capacity as usize) < stream.buffered_send_data;
        if raise {
            stream.requested_send_capacity = if stream.buffered_send_data < MAX_WINDOW_SIZE as usize {
                stream.buffered_send_data as WindowSize
            } else {
                MAX_WINDOW_SIZE
            };
        }
        store.streams.set(key, stream);
        proof {
            lemma_sum_avail_update(old_streams, key as int, stream);
            let s = store.streams@;
            assert forall|i: int| 0 <= i < s.len() implies self.slot_ok(#[trigger] s[i], i) by {
                if i != key {
                    assert(s[i] == old_streams[i]);
                }
            }
        }
        if raise {
            self.try_assign_capacity(key, store, task);
        }
    }

    /// Closes the stream's send side after an end-of-stream frame and drops
    /// its request to what is buffered.
    fn close_send(&mut self, key: usize, store: &mut Store, task: &mut bool)
        requires
            old(self).inv(old(store)),
            key < old(store).streams@.len(),
            Self::covers_buffered(old(store).streams@[key as int]),
        ensures
            final(self).inv(final(store)),
            final(self).pending_open() == old(self).pending_open(),
            final(self).in_flight() == old(self).in_flight(),
            final(self).max_buffer() == old(self).max_buffer(),
            final(self).conn().window() == old(self).conn().window(),
            final(store).streams@.len() == old(store).streams@.len(),
            same_queues(old(store).streams@, final(store).streams@),
            ({
                let s = old(store).streams@[key as int];
                let ns = final(store).streams@[key as int];
                &&& Self::covers_buffered(ns)
                &&& ns.requested_send_capacity == min_int(s.buffered_send_data as int, MAX_WINDOW_SIZE as int)
                &&& ns.buffered_send_data == s.buffered_send_data
                &&& ns.state == (if s.state == SendState::Streaming {
                    if s.remote_closed {
                        SendState::Closed
                    } else {
                        SendState::HalfClosed
                    }
                } else {
                    s.state
                })
                &&& ns.pending_send == s.pending_send
                &&& ns.is_pending_open == s.is_pending_open
                &&& ns.is_pending_push == s.is_pending_push
                &&& s.requested_send_capacity == min_int(s.buffered_send_data as int, MAX_WINDOW_SIZE as int)
                    ==> ns.send_flow == s.send_flow && final(self).conn() == old(self).conn()
                    && final(self).pending_capacity() == old(self).pending_capacity()
                    && forall|j: int|
                    0 <= j < old(store).streams@.len() && j != key ==> #[trigger] final(store).streams@[j]
                        == old(store).streams@[j]
            }),
    {
        let ghost before = store.streams@;
        let mut st: Stream = store.streams[key];
        st.send_close();
        store.streams.set(key, st);
        proof {
            lemma_sum_avail_update(before, key as int, st);
            let s = store.streams@;
            assert forall|i: int| 0 <= i < s.len() implies self.slot_ok(#[trigger] s[i], i) by {
                if i != key {
                    assert(s[i] == before[i]);
                }
            }
        }
        self.reserve_capacity(0, key, store, task);
    }

    /// Puts a DATA frame on the stream's queue; the stream is scheduled to
    /// send when it has capacity or nothing buffered.
    fn push_data_frame<B>(
        &mut self,
        frame: Frame<B>,
        buffer: &mut Buffer<Frame<B>>,
        key: usize,
        store: &mut Store,
        task: &mut bool,
    )
        requires
            old(self).inv(old(store)),
            frames_ok(old(store).streams@, old(buffer)),
            key < old(store).streams@.len(),
            data_len(old(store).streams@[key as int].pending_send.view_in(old(buffer))) + frame_data_len(frame)
                <= old(store).streams@[key as int].buffered_send_data,
        ensures
            final(self).inv(final(store)),
            frames_ok(final(store).streams@, final(buffer)),
            final(self).conn() == old(self).conn(),
            final(self).pending_open() == old(self).pending_open(),
            final(self).in_flight() == old(self).in_flight(),
            final(self).max_buffer() == old(self).max_buffer(),
            final(self).pending_capacity() == old(self).pending_capacity(),
            ({
                let s = old(store).streams@[key as int];
                let ns = final(store).streams@[key as int];
                &&& final(store).streams@ == old(store).streams@.update(
                    key as int,
                    Stream { pending_send: ns.pending_send, ..s },
                )
                &&& ns.pending_send.view_in(final(buffer)) == s.pending_send.view_in(old(buffer)).push(frame)
                &&& (s.send_flow.avail() > 0 || s.buffered_send_data == 0) && s.spec_is_send_ready()
                    ==> final(self).pending_send().contains(key)
                &&& forall|k: usize| old(self).pending_send().contains(k) ==> #[trigger] final(self).pending_send().contains(k)
            }),
    {
        let now: Stream = store.streams[key];
        if now.send_flow.available() > 0 || now.buffered_send_data == 0 {
            let ghost q = self.pending_send@;
            self.queue_frame(frame, buffer, key, store, task);
            proof {
                lemma_pushed_contains(q, key, now.spec_is_send_ready(), key);
                assert forall|k: usize| q.contains(k) implies #[trigger] self.pending_send@.contains(k) by {
                    lemma_pushed_contains(q, key, now.spec_is_send_ready(), k);
                }
            }
        } else {
            let ghost before = *store;
            push_frame_back(buffer, store, key, frame);
            proof {
                self.lemma_inv_queue_change(&before, store, key as int, 0);
            }
        }
    }

    /// Accepts a DATA frame of `sz` bytes from the stream's owner.
    ///
    /// A payload larger than any window is refused, and so is DATA on a
    /// stream that is not streaming. Otherwise the bytes count as buffered;
    /// when more is buffered than requested the request grows to match and
    /// capacity is sought; an end-of-stream frame closes the send side and
    /// drops the request to what is buffered. The frame is queued on the
    /// stream, which is scheduled to send when it has capacity or nothing
    /// buffered.
    pub fn send_data<B>(
        &mut self,
        payload: B,
        sz: usize,
        end_stream: bool,
        buffer: &mut Buffer<Frame<B>>,
        key: usize,
        store: &mut Store,
        task: &mut bool,
    ) -> (r: Result<(), UserError>)
        requires
            old(self).inv(old(store)),
            frames_ok(old(store).streams@, old(buffer)),
            key < old(store).streams@.len(),
            sz <= MAX_WINDOW_SIZE ==> old(store).streams@[key as int].buffered_send_data + sz <= usize::MAX,
        ensures
            final(self).inv(final(store)),
            frames_ok(final(store).streams@, final(buffer)),
            final(self).conn().window() == old(self).conn().window(),
            final(self).pending_open() == old(self).pending_open(),
            final(self).in_flight() == old(self).in_flight(),
            final(self).max_buffer() == old(self).max_buffer(),
            final(store).streams@.len() == old(store).streams@.len(),
            forall|i: int|
                0 <= i < old(store).streams@.len() && i != key ==> (#[trigger] final(store).streams@[i]).pending_send == old(store).streams@[i].pending_send,
            ({
                let s = old(store).streams@[key as int];
                let ns = final(store).streams@[key as int];
                &&& sz > MAX_WINDOW_SIZE ==> r == Err::<(), UserError>(UserError::PayloadTooBig)
                &&& sz <= MAX_WINDOW_SIZE && !s.state.spec_is_send_streaming() ==> r == Err::<
                    (),
                    UserError,
                >(if s.state == SendState::Closed {
                    UserError::InactiveStreamId
                } else {
                    UserError::UnexpectedFrameType
                })
                &&& r is Err ==> final(store).streams@ == old(store).streams@ && final(self).conn()
                    == old(self).conn() && final(self).pending_send() == old(self).pending_send()
                    && final(self).pending_capacity() == old(self).pending_capacity()
                    && *final(task) == *old(task) && final(buffer).slots() == old(buffer).slots()
                &&& sz <= MAX_WINDOW_SIZE && s.state.spec_is_send_streaming() ==> r is Ok
                &&& r is Ok && end_stream ==> ns.requested_send_capacity == min_int(
                    ns.buffered_send_data as int,
                    MAX_WINDOW_SIZE as int,
                )
                &&& r is Ok && (!end_stream || s.requested_send_capacity < s.buffered_send_data + sz)
                    ==> final(self).pending_capacity() == (if s.requested_send_capacity < s.buffered_send_data + sz
                    && wants_capacity(with_buffered(s, sz as int)) {
                    pushed(
                        old(self).pending_capacity(),
                        key,
                        ns.send_flow.avail() < ns.requested_send_capacity && ns.send_flow.spec_has_unavailable(),
                    )
                } else {
                    old(self).pending_capacity()
                })
                &&& r is Ok && (!end_stream || s.requested_send_capacity < s.buffered_send_data + sz) ==> ns.send_flow.avail() == s.send_flow.avail() + sought_amount(
                    with_buffered(s, sz as int),
                    old(self).conn().avail(),
                    s.requested_send_capacity < s.buffered_send_data + sz,
                ) && final(self).conn().avail() == old(self).conn().avail() - sought_amount(
                    with_buffered(s, sz as int),
                    old(self).conn().avail(),
                    s.requested_send_capacity < s.buffered_send_data + sz,
                ) && ns.requested_send_capacity == with_buffered(s, sz as int).requested_send_capacity
                &&& r is Ok ==> ns.buffered_send_data == s.buffered_send_data + sz
                    && Self::covers_buffered(ns) && ns.state == (if end_stream {
                    if s.remote_closed {
                        SendState::Closed
                    } else {
                        SendState::HalfClosed
                    }
                } else {
                    SendState::Streaming
                }) && ns.pending_send.view_in(final(buffer)) == s.pending_send.view_in(old(buffer)).push(
                    Frame::Data { payload, len: sz, end_stream },
                ) && ((ns.send_flow.avail() > 0 || ns.buffered_send_data == 0) && ns.spec_is_send_ready()
                    ==> final(self).pending_send().contains(key))
            }),
    {
        if sz > MAX_WINDOW_SIZE as usize {
            return Err(UserError::PayloadTooBig);
        }
        let stream: Stream = store.streams[key];
        if !stream.state.is_send_streaming() {
            if stream.state.is_closed() {
                return Err(UserError::InactiveStreamId);
            } else {
                return Err(UserError::UnexpectedFrameType);
            }
        }
        let ghost s0 = store.streams@;
        self.buffer_data(sz, key, store, task);
        if end_stream {
            self.close_send(key, store, task);
        }
        let ghost s1 = store.streams@;
        proof {
            lemma_frames_ok_same_queues(s0, s1, buffer);
        }
        self.push_data_frame(Frame::Data { payload, len: sz, end_stream }, buffer, key, store, task);
        Ok(())
    }

    /// Accounts for sending a DATA frame of `sz` bytes at the front of the
    /// stream's queue, in pieces of at most `max_len` bytes.
    ///
    /// Returns the number of bytes to write now, or `None` when the frame
    /// must wait: it is not empty and the stream has no capacity, or the
    /// bytes it could send exceed the window the peer knows of. A waiting
    /// stream is queued for connection capacity when its window has room.
    /// Sent bytes leave the stream's window, capacity, buffer and request,
    /// and the connection's window.
    pub fn send_data_frame(
        &mut self,
        sz: usize,
        max_len: usize,
        key: usize,
        store: &mut Store,
    ) -> (r: Option<WindowSize>)
        requires
            old(self).inv(old(store)),
            key < old(store).streams@.len(),
            sz <= old(store).streams@[key as int].buffered_send_data,
        ensures
            final(self).inv(final(store)),
            final(store).streams@.len() == old(store).streams@.len(),
            final(self).pending_send() == old(self).pending_send(),
            final(self).max_buffer() == old(self).max_buffer(),
            final(self).pending_open() == old(self).pending_open(),
            final(self).in_flight() == old(self).in_flight(),
            ({
                let s = old(store).streams@[key as int];
                let cap = as_size(s.send_flow.avail());
                let len = min_int(min_int(sz as int, max_len as int), cap);
                let blocked = (sz > 0 && cap == 0) || (len > 0 && len > as_size(
                    s.send_flow.window(),
                ));
                &&& blocked ==> r is None && final(store).streams@ == old(store).streams@
                    && final(self).conn() == old(self).conn() && final(self).pending_capacity()
                    == pushed(
                    old(self).pending_capacity(),
                    key,
                    s.send_flow.spec_has_unavailable(),
                )
                &&& !blocked ==> r == Some(len as WindowSize) && final(self).conn().window() == old(self).conn().window() - len && final(self).conn().avail() == old(self).conn().avail()
                    && final(self).pending_capacity() == old(self).pending_capacity()
                    && final(store).streams@[key as int].send_flow.avail() == s.send_flow.avail()
                    - len && final(store).streams@[key as int].send_flow.window()
                    == s.send_flow.window() - len
                    && final(store).streams@[key as int].buffered_send_data
                    == s.buffered_send_data - len
                    && final(store).streams@[key as int].requested_send_capacity
                    == s.requested_send_capacity - len && forall|i: int|
                    0 <= i < old(store).streams@.len() && i != key ==> #[trigger] final(store).streams@[i] == old(store).streams@[i]
                &&& !blocked ==> final(store).streams@[key as int] == (Stream {
                    send_flow: final(store).streams@[key as int].send_flow,
                    send_capacity_inc: final(store).streams@[key as int].send_capacity_inc,
                    buffered_send_data: final(store).streams@[key as int].buffered_send_data,
                    requested_send_capacity: final(store).streams@[key as int].requested_send_capacity,
                    ..s
                })
            }),
    {
        let mut stream: Stream = store.streams[key];
        let stream_capacity: WindowSize = stream.send_flow.available_size();
        if sz > 0 && stream_capacity == 0 {
            if stream.send_flow.has_unavailable() {
                queue_push(&mut self.pending_capacity, key);
            }
            return None;
        }
        let m: usize = if sz < max_len {
            sz
        } else {
            max_len
        };
        let len: WindowSize = if m < stream_capacity as usize {
            m as WindowSize
        } else {
            stream_capacity
        };
        if len > 0 && len > stream.send_flow.window_size() {
            if stream.send_flow.has_unavailable() {
                queue_push(&mut self.pending_capacity, key);
            }
            return None;
        }
        let ghost old_streams = store.streams@;
        proof {
            lemma_sum_avail_ge_one(old_streams, key as int);
        }
        proof {
            stream.send_flow.lemma_bounds();
        }
        stream.send_data(len, self.max_buffer_size);
        let _r1 = self.flow.assign_capacity(len);
        let _r2 = self.flow.send_data(len);
        store.streams.set(key, stream);
        proof {
            lemma_sum_avail_update(old_streams, key as int, stream);
            let s = store.streams@;
            assert forall|i: int| 0 <= i < s.len() implies self.slot_ok(#[trigger] s[i], i) by {
                if i != key {
                    assert(s[i] == old_streams[i]);
                }
            }
        }
        Some(len)
    }
}

/// `b` is the promised stream `a` after its PUSH_PROMISE was dropped
/// unsent: it no longer waits for the promise, holds no data, request or
/// capacity, and is closed, reset with `Cancel` unless it was closed already
/// (a scheduled reset becomes final).
pub open spec fn promise_dropped(a: Stream, b: Stream) -> bool {
    &&& b.send_flow.avail() == 0
    &&& b.send_flow.window() == a.send_flow.window()
    &&& b == Stream {
        state: SendState::Closed,
        reset: if a.state != SendState::Closed {
            Some(Reason::Cancel)
        } else {
            a.reset
        },
        reset_scheduled: false,
        is_pending_push: false,
        buffered_send_data: 0,
        requested_send_capacity: 0,
        send_flow: b.send_flow,
        send_capacity_inc: b.send_capacity_inc,
        pending_send: b.pending_send,
        ..a
    }
}

/// Some frame of `v` is a PUSH_PROMISE of stream `child`.
pub open spec fn names_promise<B>(v: Seq<Frame<B>>, child: int) -> bool {
    exists|m: int| 0 <= m < v.len() && (#[trigger] v[m]) is PushPromise && v[m]->promised == child
}

/// `f` is a PUSH_PROMISE of a stream other than `key` among the `n`
/// streams.
pub open spec fn promise_of_other<B>(f: Frame<B>, key: usize, n: nat) -> bool {
    f matches Frame::PushPromise { promised } && promised < n && promised != key
}

/// The promised stream, `a` before and `b` after, was freed (see
/// `promise_dropped`) and holds no frame in `buf`.
pub open spec fn freed_promise<B>(a: Stream, b: Stream, buf: &Buffer<Frame<B>>) -> bool {
    promise_dropped(a, b) && b.pending_send.view_in(buf).len() == 0
}

/// Dropping a promise of a stream that was left alone or already dropped
/// leaves it dropped.
pub proof fn lemma_promise_dropped_again(a: Stream, b: Stream, c: Stream)
    requires
        (only_gained_capacity(a, b) && b.pending_send == a.pending_send) || promise_dropped(a, b),
        promise_dropped(b, c),
    ensures
        promise_dropped(a, c),
{
}

/// What clearing the queue of another stream, whose frames were `vk`, does
/// to stream `i`, from `a` with frames `va` to `b` with frames `vb`: it is
/// left alone but for the capacity it may gain (see `capacity_noticed`,
/// against the send queue `ps`), or a PUSH_PROMISE of it among `vk` was
/// dropped (see `promise_dropped`) and with it every frame it had queued.
pub open spec fn cleared_beside<B>(
    a: Stream,
    b: Stream,
    va: Seq<Frame<B>>,
    vb: Seq<Frame<B>>,
    vk: Seq<Frame<B>>,
    ps: Seq<usize>,
    i: int,
) -> bool {
    ||| only_gained_capacity(a, b) && b.pending_send == a.pending_send && vb == va && capacity_noticed(
        a,
        b,
        ps,
        i,
    )
    ||| promise_dropped(a, b) && vb.len() == 0 && names_promise(vk, i)
}

impl Prioritize {
    /// Frees the stream promised under key `child` whose PUSH_PROMISE is
    /// dropped unsent (see `promise_dropped`); its capacity goes to the
    /// connection's waiting streams.
    fn drop_promised<B>(
        &mut self,
        buffer: &mut Buffer<Frame<B>>,
        child: usize,
        store: &mut Store,
        task: &mut bool,
    )
        requires
            old(self).inv(old(store)),
            frames_ok(old(store).streams@, old(buffer)),
            child < old(store).streams@.len(),
        ensures
            final(self).inv(final(store)),
            frames_ok(final(store).streams@, final(buffer)),
            final(self).conn().window() == old(self).conn().window(),
            final(self).pending_open() == old(self).pending_open(),
            final(self).in_flight() == old(self).in_flight(),
            final(self).max_buffer() == old(self).max_buffer(),
            final(store).streams@.len() == old(store).streams@.len(),
            promise_dropped(old(store).streams@[child as int], final(store).streams@[child as int]),
            final(store).streams@[child as int].pending_send.view_in(final(buffer)).len() == 0,
            final(buffer).slots().dom().subset_of(old(buffer).slots().dom()),
            forall|i: int|
                0 <= i < old(store).streams@.len() && i != child && !wants_capacity(old(store).streams@[i])
                    ==> #[trigger] final(store).streams@[i] == old(store).streams@[i],
            forall|i: int|
                0 <= i < old(store).streams@.len() && i != child ==> only_gained_capacity(
                    old(store).streams@[i],
                    #[trigger] final(store).streams@[i],
                ) && final(store).streams@[i].pending_send == old(store).streams@[i].pending_send,
            forall|k: usize| old(self).pending_send().contains(k) ==> #[trigger] final(self).pending_send().contains(k),
            other_views_kept(old(store).streams@, old(buffer), final(buffer), child as int),
            waiters_kept(old(self).pending_capacity(), final(self).pending_capacity(), final(store).streams@),
            forall|i: int|
                0 <= i < old(store).streams@.len() && i != child ==> capacity_noticed(
                    old(store).streams@[i],
                    #[trigger] final(store).streams@[i],
                    final(self).pending_send(),
                    i,
                ),
    {
        let ghost s0 = *store;
        drain_frames(buffer, store, child);
        proof {
            self.lemma_inv_queue_change(&s0, store, child as int, 0);
        }
        let ghost s1 = *store;
        let mut st: Stream = store.streams[child];
        let available: WindowSize = st.send_flow.available_size();
        let _res = st.send_flow.claim_capacity(available);
        st.is_pending_push = false;
        st.buffered_send_data = 0;
        st.requested_send_capacity = 0;
        if !st.state.is_closed() {
            st.set_reset(Reason::Cancel);
        } else {
            match st.get_scheduled_reset() {
                Some(reason) => st.set_reset(reason),
                None => {},
            }
        }
        store.streams.set(child, st);
        proof {
            assert(self.slot_ok(s1.streams@[child as int], child as int));
            self.lemma_replace_stream(&s1, store, child as int, 0);
            lemma_frames_ok_set(s1.streams@, buffer, child as int, st);
        }
        let ghost s2 = *store;
        self.assign_connection_capacity(available, store, task);
        proof {
            lemma_frames_ok_same_queues(s2.streams@, store.streams@, buffer);
            assert(!wants_capacity(s2.streams@[child as int]));
            assert forall|i: int|
                0 <= i < old(store).streams@.len() && i != child implies only_gained_capacity(
                old(store).streams@[i],
                #[trigger] store.streams@[i],
            ) && store.streams@[i].pending_send == old(store).streams@[i].pending_send by {
                assert(s2.streams@[i] == old(store).streams@[i]);
                assert(only_gained_capacity(s2.streams@[i], store.streams@[i]));
                assert(capacity_noticed(s2.streams@[i], store.streams@[i], self.pending_send(), i));
            }
            assert forall|i: int|
                0 <= i < old(store).streams@.len() && i != child && !wants_capacity(old(store).streams@[i])
                    implies #[trigger] store.streams@[i] == old(store).streams@[i] by {
                assert(s2.streams@[i] == old(store).streams@[i]);
            }
        }
    }

    /// Drops every frame queued on the stream, with its buffered data and
    /// its request, and takes back the capacity it holds; the caller hands
    /// that capacity, which is returned, to the connection's waiting streams
    /// (with `assign_connection_capacity`). A PUSH_PROMISE among the dropped
    /// frames was never written, so the stream it promised is freed (see
    /// `drop_promised`); a promise naming no stream, or the stream itself,
    /// is dropped like any other frame. A DATA frame of the stream in
    /// flight is no longer taken back.
    #[verifier::rlimit(100)]
    #[verifier::spinoff_prover]
    pub fn clear_queue<B>(
        &mut self,
        buffer: &mut Buffer<Frame<B>>,
        key: usize,
        store: &mut Store,
        task: &mut bool,
    ) -> (freed: WindowSize)
        requires
            old(self).inv(old(store)),
            frames_ok(old(store).streams@, old(buffer)),
            key < old(store).streams@.len(),
        ensures
            final(self).inv_with_gap(final(store), freed as int),
            frames_ok(final(store).streams@, final(buffer)),
            final(self).conn().window() == old(self).conn().window(),
            final(self).pending_open() == old(self).pending_open(),
            final(self).max_buffer() == old(self).max_buffer(),
            final(store).streams@.len() == old(store).streams@.len(),
            final(buffer).slots().dom().len() + old(store).streams@[key as int].pending_send.view_in(old(buffer)).len()
                <= old(buffer).slots().dom().len(),
            final(self).in_flight() == (if old(self).in_flight() == InFlightData::DataFrame(key) {
                InFlightData::Drop
            } else {
                old(self).in_flight()
            }),
            ({
                let s = old(store).streams@[key as int];
                let ns = final(store).streams@[key as int];
                &&& ns.pending_send.view_in(final(buffer)).len() == 0
                &&& ns.send_flow.avail() == 0
                &&& ns.send_flow.window() == s.send_flow.window()
                &&& freed >= s.send_flow.avail()
                &&& ns == Stream {
                    send_flow: ns.send_flow,
                    send_capacity_inc: ns.send_capacity_inc,
                    buffered_send_data: 0,
                    requested_send_capacity: 0,
                    pending_send: ns.pending_send,
                    ..s
                }
            }),
            forall|i: int|
                0 <= i < old(store).streams@.len() && i != key ==> cleared_beside(
                    old(store).streams@[i],
                    #[trigger] final(store).streams@[i],
                    old(store).streams@[i].pending_send.view_in(old(buffer)),
                    final(store).streams@[i].pending_send.view_in(final(buffer)),
                    old(store).streams@[key as int].pending_send.view_in(old(buffer)),
                    final(self).pending_send(),
                    i,
                ),
            forall|k: usize| old(self).pending_send().contains(k) ==> #[trigger] final(self).pending_send().contains(k),
            waiters_kept(old(self).pending_capacity(), final(self).pending_capacity(), final(store).streams@),
            forall|a: int|
                0 <= a < old(store).streams@[key as int].pending_send.view_in(old(buffer)).len()
                    && promise_of_other(
                    #[trigger] old(store).streams@[key as int].pending_send.view_in(old(buffer))[a],
                    key,
                    old(store).streams@.len(),
                ) ==> freed_promise(
                    old(store).streams@[old(store).streams@[key as int].pending_send.view_in(old(buffer))[a]->promised as int],
                    final(store).streams@[old(store).streams@[key as int].pending_send.view_in(old(buffer))[a]->promised as int],
                    final(buffer),
                ),
    {
        let ghost start = store.streams@;
        let ghost v0 = start[key as int].pending_send.view_in(buffer);
        let ghost mut m: int = 0;
        loop
            invariant
                self.inv(store),
                frames_ok(store.streams@, buffer),
                key < store.streams@.len(),
                store.streams@.len() == start.len(),
                start == old(store).streams@,
                self.conn().window() == old(self).conn().window(),
                self.pending_open() == old(self).pending_open(),
                self.max_buffer() == old(self).max_buffer(),
                self.in_flight() == old(self).in_flight(),
                only_gained_capacity(
                    start[key as int],
                    Stream { pending_send: start[key as int].pending_send, ..store.streams@[key as int] },
                ),
                0 <= m <= v0.len(),
                v0 == start[key as int].pending_send.view_in(old(buffer)),
                store.streams@[key as int].pending_send.view_in(buffer) == v0.skip(m),
                forall|a: int|
                    0 <= a < m && promise_of_other(#[trigger] v0[a], key, start.len()) ==> freed_promise(
                        start[v0[a]->promised as int],
                        store.streams@[v0[a]->promised as int],
                        buffer,
                    ),
                forall|i: int|
                    0 <= i < start.len() && i != key ==> cleared_beside(
                        start[i],
                        #[trigger] store.streams@[i],
                        start[i].pending_send.view_in(old(buffer)),
                        store.streams@[i].pending_send.view_in(buffer),
                        v0,
                        self.pending_send(),
                        i,
                    ),
                forall|k: usize| old(self).pending_send().contains(k) ==> #[trigger] self.pending_send().contains(k),
                waiters_kept(old(self).pending_capacity(), self.pending_capacity(), store.streams@),
                queue_ok(old(self).pending_capacity(), start.len() as int),
                buffer.slots().dom().len() + start[key as int].pending_send.view_in(old(buffer)).len()
                    <= old(buffer).slots().dom().len() + store.streams@[key as int].pending_send.view_in(buffer).len(),
            ensures
                buffer.slots().dom().len() + start[key as int].pending_send.view_in(old(buffer)).len()
                    <= old(buffer).slots().dom().len(),
                self.inv(store),
                frames_ok(store.streams@, buffer),
                store.streams@.len() == start.len(),
                self.conn().window() == old(self).conn().window(),
                self.pending_open() == old(self).pending_open(),
                self.max_buffer() == old(self).max_buffer(),
                self.in_flight() == old(self).in_flight(),
                only_gained_capacity(
                    start[key as int],
                    Stream { pending_send: start[key as int].pending_send, ..store.streams@[key as int] },
                ),
                store.streams@[key as int].pending_send.view_in(buffer).len() == 0,
                0 <= m <= v0.len(),
                v0 == start[key as int].pending_send.view_in(old(buffer)),
                store.streams@[key as int].pending_send.view_in(buffer) == v0.skip(m),
                forall|a: int|
                    0 <= a < m && promise_of_other(#[trigger] v0[a], key, start.len()) ==> freed_promise(
                        start[v0[a]->promised as int],
                        store.streams@[v0[a]->promised as int],
                        buffer,
                    ),
                forall|i: int|
                    0 <= i < start.len() && i != key ==> cleared_beside(
                        start[i],
                        #[trigger] store.streams@[i],
                        start[i].pending_send.view_in(old(buffer)),
                        store.streams@[i].pending_send.view_in(buffer),
                        v0,
                        self.pending_send(),
                        i,
                    ),
                forall|k: usize| old(self).pending_send().contains(k) ==> #[trigger] self.pending_send().contains(k),
                waiters_kept(old(self).pending_capacity(), self.pending_capacity(), store.streams@),
                queue_ok(old(self).pending_capacity(), start.len() as int),
            decreases buffer.slots().dom().len(),
        {
            let ghost s0 = *store;
            let ghost b0 = *buffer;
            let ghost mm = m;
            let popped = pop_frame_front(buffer, store, key);
            proof {
                self.lemma_inv_queue_change(&s0, store, key as int, 0);
                if v0.skip(mm).len() > 0 {
                    assert(v0.skip(mm)[0] == v0[mm]);
                    assert(v0.skip(mm + 1) =~= v0.skip(mm).drop_first());
                    m = mm + 1;
                }
                assert forall|i: int|
                    0 <= i < start.len() && i != key implies cleared_beside(
                    start[i],
                    #[trigger] store.streams@[i],
                    start[i].pending_send.view_in(old(buffer)),
                    store.streams@[i].pending_send.view_in(buffer),
                    v0,
                    self.pending_send(),
                    i,
                ) by {
                    assert(store.streams@[i] == s0.streams@[i]);
                    assert(s0.streams@[i].pending_send.view_in(buffer) == s0.streams@[i].pending_send.view_in(
                        &b0,
                    ));
                }
                assert forall|a: int|
                    0 <= a < mm && promise_of_other(#[trigger] v0[a], key, start.len()) implies freed_promise(
                    start[v0[a]->promised as int],
                    store.streams@[v0[a]->promised as int],
                    buffer,
                ) by {
                    let c = v0[a]->promised as int;
                    assert(store.streams@[c] == s0.streams@[c]);
                    assert(s0.streams@[c].pending_send.view_in(buffer) == s0.streams@[c].pending_send.view_in(&b0));
                }
            }
            proof {
                assert forall|kk: usize|
                    old(self).pending_capacity().contains(kk) && !self.pending_capacity().contains(kk)
                        implies !wants_capacity(#[trigger] store.streams@[kk as int]) by {
                    let b = choose|b: int| 0 <= b < old(self).pending_capacity().len() && old(self).pending_capacity()[b] == kk;
                    assert(kk < s0.streams@.len());
                    assert(!wants_capacity(s0.streams@[kk as int]));
                }
            }
            let ghost pf = popped;
            match popped {
                None => {
                    break;
                },
                Some(Frame::PushPromise { promised }) => {
                    if promised < store.streams.len() && promised != key {
                        let ghost s1 = store.streams@;
                        let ghost b1 = *buffer;
                        let ghost ps1 = self.pending_send@;
                        let ghost pc1 = self.pending_capacity@;
                        let ghost prio1 = *self;
                        let ghost dom1 = buffer.slots().dom();
                        proof {
                            assert(v0[mm] is PushPromise && v0[mm]->promised == promised);
                        }
                        self.drop_promised(buffer, promised, store, task);
                        proof {
                            vstd::set_lib::lemma_len_subset(buffer.slots().dom(), dom1);
                            assert forall|i: int|
                                0 <= i < start.len() && i != key implies cleared_beside(
                                start[i],
                                #[trigger] store.streams@[i],
                                start[i].pending_send.view_in(old(buffer)),
                                store.streams@[i].pending_send.view_in(buffer),
                                v0,
                                self.pending_send(),
                                i,
                            ) by {
                                assert(cleared_beside(
                                    start[i],
                                    s1[i],
                                    start[i].pending_send.view_in(old(buffer)),
                                    s1[i].pending_send.view_in(&b1),
                                    v0,
                                    ps1,
                                    i,
                                ));
                                if i == promised {
                                    assert(names_promise(v0, i));
                                    lemma_promise_dropped_again(start[i], s1[i], store.streams@[i]);
                                } else {
                                    assert(s1[i].pending_send.view_in(buffer) == s1[i].pending_send.view_in(&b1));
                                    if promise_dropped(start[i], s1[i]) {
                                        assert(!wants_capacity(s1[i]));
                                    } else {
                                        assert(capacity_noticed(s1[i], store.streams@[i], self.pending_send(), i));
                                    }
                                }
                            }
                            assert forall|a: int|
                                0 <= a < m && promise_of_other(#[trigger] v0[a], key, start.len()) implies freed_promise(
                                start[v0[a]->promised as int],
                                store.streams@[v0[a]->promised as int],
                                buffer,
                            ) by {
                                let c = v0[a]->promised as int;
                                if c == promised {
                                    assert(cleared_beside(
                                        start[c],
                                        s1[c],
                                        start[c].pending_send.view_in(old(buffer)),
                                        s1[c].pending_send.view_in(&b1),
                                        v0,
                                        ps1,
                                        c,
                                    ));
                                    lemma_promise_dropped_again(start[c], s1[c], store.streams@[c]);
                                } else {
                                    assert(freed_promise(start[c], s1[c], &b1));
                                    assert(!wants_capacity(s1[c]));
                                    assert(s1[c].pending_send.view_in(buffer) == s1[c].pending_send.view_in(&b1));
                                }
                            }
                            assert forall|kk: usize|
                                old(self).pending_capacity().contains(kk) && !self.pending_capacity().contains(kk)
                                    implies !wants_capacity(#[trigger] store.streams@[kk as int]) by {
                                if !pc1.contains(kk) {
                                    let b = choose|b: int| 0 <= b < old(self).pending_capacity().len() && old(self).pending_capacity()[b] == kk;
                                    assert(kk < s1.len());
                                    assert(!wants_capacity(s1[kk as int]));
                                    if kk != promised {
                                        assert(prio1.slot_ok(s1[kk as int], kk as int));
                                        lemma_unwanted_kept(s1[kk as int], store.streams@[kk as int]);
                                    }
                                }
                            }
                        }
                    }
                },
                Some(_) => {},
            }
            proof {
                assert forall|a: int|
                    0 <= a < m && promise_of_other(#[trigger] v0[a], key, start.len()) implies freed_promise(
                    start[v0[a]->promised as int],
                    store.streams@[v0[a]->promised as int],
                    buffer,
                ) by {
                    if a == mm {
                        assert(pf == Some(v0[mm]));
                    }
                }
            }
        }
        let ghost s3 = *store;
        let mut stream: Stream = store.streams[key];
        let freed: WindowSize = stream.send_flow.available_size();
        let _res = stream.send_flow.claim_capacity(freed);
        stream.buffered_send_data = 0;
        stream.requested_send_capacity = 0;
        store.streams.set(key, stream);
        proof {
            assert(self.slot_ok(s3.streams@[key as int], key as int));
            self.lemma_replace_stream(&s3, store, key as int, 0);
            lemma_frames_ok_set(s3.streams@, buffer, key as int, stream);
            assert forall|i: int|
                0 <= i < start.len() && i != key implies cleared_beside(
                start[i],
                #[trigger] store.streams@[i],
                start[i].pending_send.view_in(old(buffer)),
                store.streams@[i].pending_send.view_in(buffer),
                v0,
                self.pending_send(),
                i,
            ) by {
                assert(store.streams@[i] == s3.streams@[i]);
            }
            assert forall|a: int|
                0 <= a < v0.len() && promise_of_other(#[trigger] v0[a], key, start.len()) implies freed_promise(
                start[v0[a]->promised as int],
                store.streams@[v0[a]->promised as int],
                buffer,
            ) by {
                assert(store.streams@[v0[a]->promised as int] == s3.streams@[v0[a]->promised as int]);
            }
        }
        match self.in_flight_data_frame {
            InFlightData::DataFrame(k) => {
                if k == key {
                    self.in_flight_data_frame = InFlightData::Drop;
                }
            },
            _ => {},
        }
        freed
    }
}

impl Prioritize {
    /// Drops every stream from the queue of streams waiting to send; a
    /// stream among them whose reset was only scheduled is reset for good
    /// (its RST_STREAM is not sent).
    pub fn clear_pending_send(&mut self, store: &mut Store)
        requires
            old(self).inv(old(store)),
        ensures
            final(self).inv(final(store)),
            final(self).pending_send() == Seq::<usize>::empty(),
            final(self).conn() == old(self).conn(),
            final(self).pending_capacity() == old(self).pending_capacity(),
            final(self).pending_open() == old(self).pending_open(),
            final(self).in_flight() == old(self).in_flight(),
            final(self).max_buffer() == old(self).max_buffer(),
            final(store).streams@.len() == old(store).streams@.len(),
            same_queues(old(store).streams@, final(store).streams@),
            forall|i: int|
                0 <= i < old(store).streams@.len() ==> #[trigger] final(store).streams@[i] == (if old(self).pending_send().contains(i as usize) {
                    Stream { reset_scheduled: false, ..old(store).streams@[i] }
                } else {
                    old(store).streams@[i]
                }),
    {
        let ghost q = self.pending_send@;
        let ghost start = store.streams@;
        let total: usize = store.streams.len();
        let n: usize = self.pending_send.len();
        let mut j: usize = 0;
        while j < n
            invariant
                self.inv(store),
                total == start.len(),
                q == old(self).pending_send(),
                start == old(store).streams@,
                n == q.len(),
                j <= n,
                self.pending_send() == q.subrange(j as int, n as int),
                self.conn() == old(self).conn(),
                self.pending_capacity() == old(self).pending_capacity(),
                self.pending_open() == old(self).pending_open(),
                self.in_flight() == old(self).in_flight(),
                self.max_buffer() == old(self).max_buffer(),
                store.streams@.len() == start.len(),
                queue_ok(q, start.len() as int),
                forall|i: int|
                    0 <= i < start.len() ==> #[trigger] store.streams@[i] == (if q.subrange(0, j as int).contains(
                        i as usize,
                    ) {
                        Stream { reset_scheduled: false, ..start[i] }
                    } else {
                        start[i]
                    }),
            decreases n - j,
        {
            let ghost p0 = self.pending_send@;
            let key: usize = self.pending_send.remove(0);
            proof {
                assert(p0[0] == q[j as int]);
                assert(self.pending_send@ =~= q.subrange(j + 1, n as int));
                assert forall|a: int, b: int| 0 <= a < b < self.pending_send@.len() implies self.pending_send@[a]
                    != self.pending_send@[b] by {
                    assert(self.pending_send@[a] == q[j + 1 + a]);
                    assert(self.pending_send@[b] == q[j + 1 + b]);
                }
                assert forall|a: int| 0 <= a < self.pending_send@.len() implies (
                #[trigger] self.pending_send@[a]) < store.streams@.len() by {
                    assert(self.pending_send@[a] == q[j + 1 + a]);
                }
                assert(!q.subrange(0, j as int).contains(key)) by {
                    if q.subrange(0, j as int).contains(key) {
                        let b = choose|b: int| 0 <= b < j && #[trigger] q.subrange(0, j as int)[b] == key;
                        assert(q[b] == q[j as int]);
                    }
                }
            }
            let ghost s0 = *store;
            let mut st: Stream = store.streams[key];
            assert(st == start[key as int]);
            match st.get_scheduled_reset() {
                Some(reason) => {
                    st.set_reset(reason);
                    store.streams.set(key, st);
                    proof {
                        assert(self.slot_ok(s0.streams@[key as int], key as int));
                        self.lemma_replace_stream(&s0, store, key as int, 0);
                    }
                },
                None => {},
            }
            proof {
                assert forall|i: int|
                    0 <= i < start.len() implies #[trigger] store.streams@[i] == (if q.subrange(0, j + 1).contains(
                    i as usize,
                ) {
                    Stream { reset_scheduled: false, ..start[i] }
                } else {
                    start[i]
                }) by {
                    if q.subrange(0, j + 1).contains(i as usize) && i != key {
                        let b = choose|b: int| 0 <= b < j + 1 && #[trigger] q.subrange(0, j + 1)[b] == i as usize;
                        assert(q.subrange(0, j + 1)[j as int] == key);
                        assert((i as usize) as int == i);
                        assert(b != j);
                        assert(q.subrange(0, j as int)[b] == i as usize);
                    }
                    if q.subrange(0, j as int).contains(i as usize) {
                        let b = choose|b: int| 0 <= b < j && #[trigger] q.subrange(0, j as int)[b] == i as usize;
                        assert(q.subrange(0, j + 1)[b] == i as usize);
                    }
                    if i == key {
                        assert(q.subrange(0, j + 1)[j as int] == key);
                    }
                }
            }
            j = j + 1;
        }
        proof {
            assert(q.subrange(0, n as int) =~= q);
            assert(self.pending_send@ =~= Seq::<usize>::empty());
        }
    }

    /// Drops every stream from the queue of streams waiting to open; none of
    /// them is marked as waiting any more.
    pub fn clear_pending_open(&mut self, store: &mut Store)
        requires
            old(self).inv(old(store)),
        ensures
            final(self).inv(final(store)),
            final(self).pending_open() == Seq::<usize>::empty(),
            final(self).conn() == old(self).conn(),
            final(self).pending_send() == old(self).pending_send(),
            final(self).pending_capacity() == old(self).pending_capacity(),
            final(self).max_buffer() == old(self).max_buffer(),
            final(store).streams@.len() == old(store).streams@.len(),
            same_queues(old(store).streams@, final(store).streams@),
            forall|i: int|
                0 <= i < old(store).streams@.len() ==> #[trigger] final(store).streams@[i] == (
                Stream { is_pending_open: false, ..old(store).streams@[i] }),
    {
        let n: usize = store.streams.len();
        let ghost start = store.streams@;
        let mut i: usize = 0;
        while i < n
            invariant
                n == store.streams@.len(),
                start == old(store).streams@,
                n == start.len(),
                i <= n,
                sum_avail(store.streams@) == sum_avail(start),
                *self == *old(self),
                forall|j: int| 0 <= j < i ==> #[trigger] store.streams@[j] == (Stream {
                    is_pending_open: false, ..start[j] }),
                forall|j: int| i <= j < n ==> #[trigger] store.streams@[j] == start[j],
            decreases n - i,
        {
            let ghost before = store.streams@;
            let mut st: Stream = store.streams[i];
            st.is_pending_open = false;
            store.streams.set(i, st);
            proof {
                lemma_sum_avail_update(before, i as int, st);
            }
            i = i + 1;
        }
        self.pending_open.clear();
        proof {
            let s = store.streams@;
            assert forall|j: int| 0 <= j < s.len() implies self.slot_ok(#[trigger] s[j], j) by {
                assert(old(self).slot_ok(start[j], j));
            }
        }
    }
}

/// `q` after a push to its front of `key`: a key that is queued already
/// keeps its place.
pub open spec fn pushed_front(q: Seq<usize>, key: usize) -> Seq<usize> {
    if !q.contains(key) {
        seq![key] + q
    } else {
        q
    }
}

/// The position of `key` in the queue.
fn queue_index(q: &Vec<usize>, key: usize) -> (j: usize)
    requires
        q@.contains(key),
    ensures
        j < q@.len(),
        q@[j as int] == key,
{
    let mut i: usize = 0;
    while i < q.len()
        invariant
            i <= q@.len(),
            q@.contains(key),
            forall|j: int| 0 <= j < i ==> q@[j] != key,
        decreases q@.len() - i,
    {
        if q[i] == key {
            return i;
        }
        i = i + 1;
    }
    proof {
        let j = choose|j: int| 0 <= j < q@.len() && q@[j] == key;
        assert(q@[j] != key);
    }
    0
}

/// Puts `key` at the front of the queue unless it is queued already.
fn queue_push_front(q: &mut Vec<usize>, key: usize)
    ensures
        final(q)@ == pushed_front(old(q)@, key),
{
    let n: usize = q.len();
    let mut i: usize = 0;
    while i < n
        invariant
            n == q.len(),
            q@ == old(q)@,
            i <= n,
            forall|j: int| 0 <= j < i ==> q@[j] != key,
        decreases n - i,
    {
        if q[i] == key {
            return;
        }
        i = i + 1;
    }
    q.insert(0, key);
    assert(q@ =~= seq![key] + old(q)@);
}

impl Prioritize {
    /// Puts `frame` (the unsent rest of a DATA frame) back at the front of
    /// the stream's queue, and schedules the stream: to send when it still
    /// has capacity, or to wait for connection capacity when its window has
    /// room.
    pub fn push_back_frame<B>(
        &mut self,
        frame: Frame<B>,
        buffer: &mut Buffer<Frame<B>>,
        key: usize,
        store: &mut Store,
    )
        requires
            old(self).inv(old(store)),
            frames_ok(old(store).streams@, old(buffer)),
            key < old(store).streams@.len(),
            data_len(old(store).streams@[key as int].pending_send.view_in(old(buffer))) + frame_data_len(frame)
                <= old(store).streams@[key as int].buffered_send_data,
        ensures
            final(self).inv(final(store)),
            frames_ok(final(store).streams@, final(buffer)),
            final(self).conn() == old(self).conn(),
            final(self).pending_open() == old(self).pending_open(),
            final(self).in_flight() == old(self).in_flight(),
            final(self).max_buffer() == old(self).max_buffer(),
            final(self).in_flight() == old(self).in_flight(),
            ({
                let s = old(store).streams@[key as int];
                let ns = final(store).streams@[key as int];
                &&& final(store).streams@ == old(store).streams@.update(
                    key as int,
                    Stream { pending_send: ns.pending_send, ..s },
                )
                &&& ns.pending_send.view_in(final(buffer)) == seq![frame] + s.pending_send.view_in(old(buffer))
                &&& final(self).pending_send() == pushed(
                    old(self).pending_send(),
                    key,
                    s.send_flow.avail() > 0,
                )
                &&& final(self).pending_capacity() == pushed(
                    old(self).pending_capacity(),
                    key,
                    !(s.send_flow.avail() > 0) && s.send_flow.spec_has_unavailable(),
                )
            }),
    {
        let ghost before = *store;
        push_frame_front(buffer, store, key, frame);
        proof {
            self.lemma_inv_queue_change(&before, store, key as int, 0);
        }
        let stream: Stream = store.streams[key];
        if stream.send_flow.available() > 0 {
            queue_push(&mut self.pending_send, key);
        } else if stream.send_flow.has_unavailable() {
            queue_push(&mut self.pending_capacity, key);
        }
    }

    /// Takes the key at position `idx` out of the open queue; its stream no
    /// longer counts as waiting to open.
    fn leave_pending_open(&mut self, idx: usize, store: &mut Store) -> (key: usize)
        requires
            old(self).inv(old(store)),
            idx < old(self).pending_open().len(),
        ensures
            final(self).inv(final(store)),
            key == old(self).pending_open()[idx as int],
            final(self).pending_open() == old(self).pending_open().remove(idx as int),
            final(store).streams@ == old(store).streams@.update(
                key as int,
                Stream { is_pending_open: false, ..old(store).streams@[key as int] },
            ),
            final(self).pending_send() == old(self).pending_send(),
            final(self).pending_capacity() == old(self).pending_capacity(),
            final(self).conn() == old(self).conn(),
            final(self).max_buffer() == old(self).max_buffer(),
            final(self).in_flight() == old(self).in_flight(),
    {
        let ghost q = self.pending_open@;
        let ghost old_streams = store.streams@;
        let key: usize = self.pending_open.remove(idx);
        let mut stream: Stream = store.streams[key];
        stream.is_pending_open = false;
        store.streams.set(key, stream);
        let n: usize = store.streams.len();
        proof {
            let d = self.pending_open@;
            assert(q[idx as int] == key);
            assert(d =~= q.remove(idx as int));
            lemma_sum_avail_update(old_streams, key as int, stream);
            let s = store.streams@;
            assert forall|i: int, j: int| 0 <= i < j < d.len() implies d[i] != d[j] by {
                let qi = if i < idx { i } else { i + 1 };
                let qj = if j < idx { j } else { j + 1 };
                assert(d[i] == q[qi] && d[j] == q[qj]);
            }
            assert forall|i: int| 0 <= i < d.len() implies (#[trigger] d[i]) < s.len() by {
                let qi = if i < idx { i } else { i + 1 };
                assert(d[i] == q[qi]);
            }
            assert forall|i: int| 0 <= i < s.len() implies self.slot_ok(#[trigger] s[i], i) by {
                assert(i < n);
                assert(old(self).slot_ok(old_streams[i], i));
                if d.contains(i as usize) {
                    let j = choose|j: int| 0 <= j < d.len() && d[j] == i as usize;
                    let qj = if j < idx { j } else { j + 1 };
                    assert(q[qj] == i as usize);
                    assert(q[idx as int] != q[qj]);
                }
                if i != key {
                    assert(s[i] == old_streams[i]);
                    if q.contains(i as usize) {
                        let j = choose|j: int| 0 <= j < q.len() && q[j] == i as usize;
                        assert(j != idx);
                        if j < idx {
                            assert(d[j] == i as usize);
                        } else {
                            assert(d[j - 1] == i as usize);
                        }
                    }
                }
            }
        }
        key
    }

    /// When a concurrency slot is free, takes the stream at the head of the
    /// open queue out of it, counts it open and returns its key.
    pub fn pop_pending_open(&mut self, store: &mut Store, counts: &mut SendCounts) -> (r: Option<usize>)
        requires
            old(self).inv(old(store)),
        ensures
            final(self).inv(final(store)),
            final(store).streams@.len() == old(store).streams@.len(),
            same_queues(old(store).streams@, final(store).streams@),
            !old(counts).spec_can_inc() || old(self).pending_open().len() == 0 ==> r is None
                && final(store).streams@ == old(store).streams@ && *final(self) == *old(self)
                && *final(counts) == *old(counts),
            old(counts).spec_can_inc() && old(self).pending_open().len() > 0 ==> ({
                let key = old(self).pending_open()[0];
                &&& r == Some(key)
                &&& final(self).pending_open() == old(self).pending_open().drop_first()
                &&& final(store).streams@ == old(store).streams@.update(
                    key as int,
                    Stream { is_pending_open: false, ..old(store).streams@[key as int] },
                )
                &&& *final(counts) == (SendCounts {
                    num_send_streams: (old(counts).num_send_streams + 1) as usize,
                    ..*old(counts)
                })
                &&& final(self).pending_send() == old(self).pending_send()
                &&& final(self).pending_capacity() == old(self).pending_capacity()
                &&& final(self).conn() == old(self).conn()
                &&& final(self).max_buffer() == old(self).max_buffer()
                &&& final(self).in_flight() == old(self).in_flight()
            }),
    {
        if counts.can_inc_num_send_streams() {
            if self.pending_open.len() > 0 {
                let key: usize = self.leave_pending_open(0, store);
                proof {
                    assert(old(self).pending_open().remove(0) =~= old(self).pending_open().drop_first());
                }
                counts.inc_num_send_streams();
                return Some(key);
            }
        }
        None
    }

    /// Puts the stream at the front of the send queue, unless it is queued
    /// already.
    fn push_front_to_send(&mut self, key: usize, store: &Store)
        requires
            old(self).inv(store),
            key < store.streams@.len(),
        ensures
            final(self).inv(store),
            final(self).pending_send() == pushed_front(old(self).pending_send(), key),
            final(self).pending_send().contains(key),
            forall|k: usize| old(self).pending_send().contains(k) ==> #[trigger] final(self).pending_send().contains(k),
            final(self).pending_open() == old(self).pending_open(),
            final(self).pending_capacity() == old(self).pending_capacity(),
            final(self).conn() == old(self).conn(),
            final(self).max_buffer() == old(self).max_buffer(),
            final(self).in_flight() == old(self).in_flight(),
    {
        let ghost ps = self.pending_send@;
        queue_push_front(&mut self.pending_send, key);
        proof {
            let p = self.pending_send@;
            if !ps.contains(key) {
                assert(p[0] == key);
                assert forall|i: int, j: int| 0 <= i < j < p.len() implies p[i] != p[j] by {
                    if i > 0 {
                        assert(p[i] == ps[i - 1]);
                    }
                    assert(p[j] == ps[j - 1]);
                }
                assert forall|i: int| 0 <= i < p.len() implies (#[trigger] p[i]) < store.streams@.len() by {
                    if i > 0 {
                        assert(p[i] == ps[i - 1]);
                    }
                }
                assert forall|k: usize| ps.contains(k) implies #[trigger] p.contains(k) by {
                    let j = choose|j: int| 0 <= j < ps.len() && ps[j] == k;
                    assert(p[j + 1] == k);
                }
            }
        }
    }
}

/// The concurrency limit on streams this side opens, as sending sees it.
#[derive(PartialEq, Eq, Structural, Debug, Clone, Copy)]
pub struct SendCounts {
    /// The most streams the peer lets this side open at once.
    pub max_send_streams: usize,
    /// The streams this side has open.
    pub num_send_streams: usize,
    /// This side is the server.
    pub is_server: bool,
}

impl SendCounts {
    pub open spec fn spec_can_inc(&self) -> bool {
        self.num_send_streams < self.max_send_streams
    }

    /// Another stream may open.
    pub fn can_inc_num_send_streams(&self) -> (r: bool)
        ensures
            r == self.spec_can_inc(),
    {
        self.num_send_streams < self.max_send_streams
    }

    /// Counts one more open stream.
    pub fn inc_num_send_streams(&mut self)
        requires
            old(self).spec_can_inc(),
        ensures
            *final(self) == (SendCounts { num_send_streams: (old(self).num_send_streams + 1) as usize, ..*old(self) }),
    {
        self.num_send_streams = self.num_send_streams + 1;
    }
}

/// `b` is `a`, or `a` with one more open stream.
pub open spec fn counts_grew(a: SendCounts, b: SendCounts) -> bool {
    b == a || (a.spec_can_inc() && b == SendCounts { num_send_streams: (a.num_send_streams + 1) as usize, ..a })
}

/// The frame in flight is unchanged, or its stream was cleared.
pub open spec fn in_flight_kept(a: InFlightData, b: InFlightData) -> bool {
    b == a || (a is DataFrame && b == InFlightData::Drop)
}

/// A frame taken off a stream's queue to be written.
#[derive(PartialEq, Eq, Structural, Debug, Clone, Copy)]
pub struct Prioritized<B> {
    /// The key of the stream the frame belongs to.
    pub stream: usize,
    /// The frame as it is written: a DATA frame counts the bytes written now
    /// (the first `len` of its payload), and ends the stream only when
    /// nothing of it is left.
    pub frame: Frame<B>,
    /// The bytes of a DATA frame that are not written now.
    pub rest: usize,
    /// Whether the whole DATA frame ended the stream.
    pub end_of_stream: bool,
}

/// What one turn of `pop_frame` came to.
#[derive(PartialEq, Eq, Structural, Debug, Clone, Copy)]
pub enum Popped<B> {
    /// No stream waits to send.
    Idle,
    /// The stream at the head of the send queue had nothing to write now.
    Skipped,
    /// A frame to write.
    Frame(Prioritized<B>),
}

/// The queue of streams waiting to send, after its first key was taken.
proof fn lemma_queue_ok_drop_first(q: Seq<usize>, n: int)
    requires
        queue_ok(q, n),
        q.len() > 0,
    ensures
        queue_ok(q.drop_first(), n),
        !q.drop_first().contains(q[0]),
        forall|k: usize| q.contains(k) && k != q[0] ==> #[trigger] q.drop_first().contains(k),
{
    let d = q.drop_first();
    assert forall|i: int, j: int| 0 <= i < j < d.len() implies d[i] != d[j] by {
        assert(d[i] == q[i + 1] && d[j] == q[j + 1]);
    }
    assert forall|i: int| 0 <= i < d.len() implies (#[trigger] d[i]) < n by {
        assert(d[i] == q[i + 1]);
    }
    if d.contains(q[0]) {
        let j = choose|j: int| 0 <= j < d.len() && d[j] == q[0];
        assert(q[j + 1] == q[0]);
    }
    assert forall|k: usize| q.contains(k) && k != q[0] implies #[trigger] d.contains(k) by {
        let j = choose|j: int| 0 <= j < q.len() && q[j] == k;
        assert(j != 0);
        assert(d[j - 1] == k);
    }
}

impl Prioritize {
    /// The PUSH_PROMISE for the stream stored under `child` is written: the
    /// stream no longer waits for it. A stream with a scheduled reset is
    /// queued to send it. Otherwise, when it has frames queued, it opens
    /// and is offered capacity and queued to send if a concurrency slot is
    /// free (it is then counted open); if none is, it gives its capacity back (while it
    /// still counts as waiting for the promise, so that none flows back to
    /// it) and waits to open. A stream that no longer waits for a promise
    /// (one whose promise was written already) is left alone.
    fn release_promised<B>(
        &mut self,
        buffer: &Buffer<Frame<B>>,
        child: usize,
        store: &mut Store,
        counts: &mut SendCounts,
    )
        requires
            old(self).inv(old(store)),
            frames_ok(old(store).streams@, buffer),
            child < old(store).streams@.len(),
        ensures
            final(self).inv(final(store)),
            frames_ok(final(store).streams@, buffer),
            same_queues(old(store).streams@, final(store).streams@),
            final(self).conn().window() == old(self).conn().window(),
            final(self).max_buffer() == old(self).max_buffer(),
            final(self).in_flight() == old(self).in_flight(),
            forall|k: usize| old(self).pending_send().contains(k) ==> #[trigger] final(self).pending_send().contains(k),
            forall|i: int|
                0 <= i < old(store).streams@.len() && i != child ==> only_gained_capacity(
                    old(store).streams@[i],
                    #[trigger] final(store).streams@[i],
                ),
            ({
                let c = old(store).streams@[child as int];
                let nc = final(store).streams@[child as int];
                let queued = c.pending_send.view_in(buffer).len() > 0;
                let cleared = Stream { is_pending_push: false, ..c };
                let can_open = old(counts).spec_can_inc();
                &&& *final(counts) == if c.is_pending_push && !c.reset_scheduled && queued && can_open {
                    SendCounts { num_send_streams: (old(counts).num_send_streams + 1) as usize, ..*old(counts) }
                } else {
                    *old(counts)
                }
                &&& !nc.is_pending_push
                &&& !c.is_pending_push ==> final(store).streams@ == old(store).streams@ && *final(self) == *old(self)
                &&& c.is_pending_push && c.reset_scheduled ==> final(store).streams@ == old(store).streams@.update(child as int, cleared)
                    && final(self).pending_send() == pushed(old(self).pending_send(), child, true)
                    && final(self).pending_open() == old(self).pending_open()
                    && final(self).pending_capacity() == old(self).pending_capacity()
                &&& c.is_pending_push && !c.reset_scheduled && !queued ==> final(store).streams@ == old(store).streams@.update(child as int, cleared)
                    && final(self).pending_send() == old(self).pending_send()
                    && final(self).pending_open() == old(self).pending_open()
                    && final(self).pending_capacity() == old(self).pending_capacity()
                &&& c.is_pending_push && !c.reset_scheduled && queued && can_open ==> nc.send_flow.avail()
                    == c.send_flow.avail() + sought_amount(cleared, old(self).conn().avail(), true)
                    && final(self).conn().avail() == old(self).conn().avail() - sought_amount(
                    cleared,
                    old(self).conn().avail(),
                    true,
                ) && final(self).pending_capacity() == (if wants_capacity(cleared) {
                    pushed(
                        old(self).pending_capacity(),
                        child,
                        nc.send_flow.avail() < nc.requested_send_capacity && nc.send_flow.spec_has_unavailable(),
                    )
                } else {
                    old(self).pending_capacity()
                })
                &&& c.is_pending_push && !c.reset_scheduled && queued && can_open ==> final(self).pending_send().contains(child)
                    && final(self).pending_open() == old(self).pending_open()
                &&& c.is_pending_push && !c.reset_scheduled && queued && !can_open ==> final(self).pending_open() == pushed(
                    old(self).pending_open(),
                    child,
                    true,
                ) && nc.is_pending_open && nc.send_flow.avail() == 0
            }),
    {
        let ghost s0 = *store;
        let mut c: Stream = store.streams[child];
        if !c.is_pending_push {
            return;
        }
        let can_open: bool = counts.can_inc_num_send_streams();
        if !c.reset_scheduled && !c.pending_send.is_empty() && !can_open {
            let mut none: bool = false;
            self.reclaim_all_capacity(child, store, &mut none);
            proof {
                assert(!s0.streams@[child as int].spec_is_send_ready());
            }
            c = store.streams[child];
        }
        let ghost s1 = *store;
        c.is_pending_push = false;
        store.streams.set(child, c);
        proof {
            assert(self.slot_ok(s1.streams@[child as int], child as int));
            self.lemma_replace_stream(&s1, store, child as int, 0);
            lemma_frames_ok_same_queues(s0.streams@, s1.streams@, buffer);
            lemma_frames_ok_same_queues(s1.streams@, store.streams@, buffer);
        }
        if c.reset_scheduled {
            queue_push(&mut self.pending_send, child);
        } else if !c.pending_send.is_empty() {
            if can_open {
                counts.inc_num_send_streams();
                let ghost s2 = store.streams@;
                let ghost ps = self.pending_send@;
                let mut none: bool = false;
                self.try_assign_capacity(child, store, &mut none);
                proof {
                    lemma_frames_ok_same_queues(s2, store.streams@, buffer);
                    assert forall|k: usize| ps.contains(k) implies #[trigger] self.pending_send@.contains(k) by {
                        lemma_pushed_contains(ps, child, s2[child as int].buffered_send_data > 0, k);
                    }
                }
                let ghost ps2 = self.pending_send@;
                queue_push(&mut self.pending_send, child);
                proof {
                    lemma_pushed_contains(ps2, child, true, child);
                    assert forall|k: usize| ps2.contains(k) implies #[trigger] self.pending_send@.contains(k) by {
                        lemma_pushed_contains(ps2, child, true, k);
                    }
                }
            } else {
                let ghost s2 = store.streams@;
                self.queue_open(child, store);
                proof {
                    lemma_frames_ok_same_queues(s2, store.streams@, buffer);
                }
            }
        }
        proof {
            let ps0 = old(self).pending_send();
            assert forall|k: usize| ps0.contains(k) implies #[trigger] self.pending_send@.contains(k) by {
                lemma_pushed_contains(ps0, child, true, k);
            }
        }
    }

    /// DATA of a stream whose reset (other than `NoError`) is scheduled is
    /// not sent: `frame`, just taken off the front of its queue, goes back,
    /// the whole queue is dropped (see `clear_queue`), the stream's capacity
    /// goes to the waiting streams, and the stream is queued to send its
    /// RST_STREAM. No other stream gets something to write (for frames of at
    /// most `max_len` bytes) without being queued to send.
    fn discard_for_reset<B>(
        &mut self,
        frame: Frame<B>,
        buffer: &mut Buffer<Frame<B>>,
        key: usize,
        store: &mut Store,
        Ghost(max_len): Ghost<int>,
    )
        requires
            old(self).inv(old(store)),
            frames_ok(old(store).streams@, old(buffer)),
            key < old(store).streams@.len(),
            data_len(old(store).streams@[key as int].pending_send.view_in(old(buffer))) + frame_data_len(frame)
                <= old(store).streams@[key as int].buffered_send_data,
        ensures
            final(self).inv(final(store)),
            frames_ok(final(store).streams@, final(buffer)),
            final(store).streams@.len() == old(store).streams@.len(),
            final(self).max_buffer() == old(self).max_buffer(),
            final(self).conn().window() == old(self).conn().window(),
            in_flight_kept(old(self).in_flight(), final(self).in_flight()),
            final(self).pending_send().contains(key),
            final(buffer).slots().dom().len() <= old(buffer).slots().dom().len(),
            forall|k: usize| old(self).pending_send().contains(k) ==> #[trigger] final(self).pending_send().contains(k),
            ({
                let s = old(store).streams@[key as int];
                let ns = final(store).streams@[key as int];
                &&& ns.pending_send.view_in(final(buffer)).len() == 0
                &&& ns.buffered_send_data == 0
                &&& ns.requested_send_capacity == 0
                &&& ns.send_flow.avail() == 0
                &&& ns == Stream {
                    send_flow: ns.send_flow,
                    send_capacity_inc: ns.send_capacity_inc,
                    buffered_send_data: 0,
                    requested_send_capacity: 0,
                    pending_send: ns.pending_send,
                    ..s
                }
            }),
            forall|j: int|
                0 <= j < old(store).streams@.len() && j != key ==> stays_unwritable(
                    old(store).streams@[j],
                    #[trigger] final(store).streams@[j],
                    old(store).streams@[j].pending_send.view_in(old(buffer)),
                    final(store).streams@[j].pending_send.view_in(final(buffer)),
                    max_len,
                    final(self).pending_send(),
                    j,
                    false,
                ),
            forall|j: int|
                0 <= j < old(store).streams@.len() && j != key ==> still_or_dead(
                    old(store).streams@[j],
                    #[trigger] final(store).streams@[j],
                    old(store).streams@[j].pending_send.view_in(old(buffer)),
                    final(store).streams@[j].pending_send.view_in(final(buffer)),
                ),
    {
        let ghost s1 = *store;
        let ghost b1 = *buffer;
        push_frame_front(buffer, store, key, frame);
        proof {
            self.lemma_inv_queue_change(&s1, store, key as int, 0);
        }
        let ghost s1b = store.streams@;
        let ghost b1b = *buffer;
        let mut none: bool = false;
        let freed: WindowSize = self.clear_queue(buffer, key, store, &mut none);
        let ghost s2c = store.streams@;
        let ghost b2c = *buffer;
        let ghost ps2c = self.pending_send@;
        if freed > 0 {
            self.assign_connection_capacity(freed, store, &mut none);
            proof {
                lemma_frames_ok_same_queues(s2c, store.streams@, buffer);
                assert(!wants_capacity(s2c[key as int]));
            }
        }
        proof {
            assert forall|j: int| 0 <= j < s2c.len() implies only_gained_capacity(
                s2c[j],
                #[trigger] store.streams@[j],
            ) && store.streams@[j].pending_send == s2c[j].pending_send && capacity_noticed(
                s2c[j],
                store.streams@[j],
                self.pending_send@,
                j,
            ) && (!wants_capacity(s2c[j]) ==> store.streams@[j] == s2c[j]) by {}
            assert forall|k: usize| ps2c.contains(k) implies #[trigger] self.pending_send@.contains(k) by {}
        }
        let ghost s3 = store.streams@;
        let ghost ps = self.pending_send@;
        queue_push(&mut self.pending_send, key);
        proof {
            lemma_pushed_contains(ps, key, true, key);
            assert forall|k: usize| old(self).pending_send().contains(k) implies #[trigger] self.pending_send@.contains(k) by {
                lemma_pushed_contains(ps, key, true, k);
            }
            assert forall|j: int| 0 <= j < s1.streams@.len() && j != key implies stays_unwritable(
                s1.streams@[j],
                #[trigger] store.streams@[j],
                s1.streams@[j].pending_send.view_in(&b1),
                store.streams@[j].pending_send.view_in(buffer),
                max_len,
                self.pending_send@,
                j,
                false,
            ) && still_or_dead(
                s1.streams@[j],
                store.streams@[j],
                s1.streams@[j].pending_send.view_in(&b1),
                store.streams@[j].pending_send.view_in(buffer),
            ) by {
                lemma_pushed_contains(ps, key, true, j as usize);
                let v = s1.streams@[j].pending_send.view_in(&b1);
                assert(s1b[j] == s1.streams@[j]);
                assert(s1b[j].pending_send.view_in(&b1b) == v);
                assert(cleared_beside(
                    s1b[j],
                    s2c[j],
                    s1b[j].pending_send.view_in(&b1b),
                    s2c[j].pending_send.view_in(&b2c),
                    s1b[key as int].pending_send.view_in(&b1b),
                    ps2c,
                    j,
                ));
                assert(store.streams@[j] == s3[j]);
                if promise_dropped(s1b[j], s2c[j]) {
                    assert(!wants_capacity(s2c[j]));
                } else {
                    assert(only_gained_capacity(s1.streams@[j], store.streams@[j]));
                    assert(capacity_noticed(s1.streams@[j], store.streams@[j], self.pending_send@, j));
                    if !has_frame_to_write(s1.streams@[j], v, max_len) {
                        lemma_unwritable_kept(s1.streams@[j], store.streams@[j], v, max_len, self.pending_send@, j);
                    }
                }
            }
        }
    }

    /// One turn of `pop_frame`: the stream at the head of the send queue
    /// leaves it and its first frame is taken.
    ///
    /// DATA of a stream with a scheduled reset (other than `NoError`) is
    /// dropped with the rest of its queue and the stream queued again, to
    /// send the RST_STREAM next. DATA that cannot be written now (no
    /// capacity, or more than the window the peer knows of) goes back to the
    /// front of the queue, and the stream waits for capacity. Other DATA is
    /// written up to `max_len` bytes and the stream's capacity: it counts
    /// against the stream's and the connection's windows. A PUSH_PROMISE
    /// releases the promised stream (see `release_promised`). A stream with
    /// no frame sends its scheduled RST_STREAM, or nothing. A stream that
    /// still has frames, or a reset to send, is queued again.
    #[verifier::rlimit(100)]
    #[verifier::spinoff_prover]
    pub fn pop_frame_once<B>(
        &mut self,
        buffer: &mut Buffer<Frame<B>>,
        store: &mut Store,
        max_len: usize,
        counts: &mut SendCounts,
    ) -> (r: Popped<B>)
        requires
            old(self).inv(old(store)),
            frames_ok(old(store).streams@, old(buffer)),
        ensures
            counts_grew(*old(counts), *final(counts)),
            in_flight_kept(old(self).in_flight(), final(self).in_flight()),
            final(self).conn().window() == old(self).conn().window() - match r {
                Popped::Frame(p) => frame_data_len(p.frame),
                _ => 0,
            },
            final(self).inv(final(store)),
            frames_ok(final(store).streams@, final(buffer)),
            final(store).streams@.len() == old(store).streams@.len(),
            final(self).max_buffer() == old(self).max_buffer(),
            r is Skipped ==> final(buffer).slots().dom().len() < old(buffer).slots().dom().len() || (
            final(buffer).slots().dom().len() == old(buffer).slots().dom().len()
                && final(self).pending_send().len() < old(self).pending_send().len()),
            r matches Popped::Frame(p) ==> p.stream < final(store).streams@.len() && data_len(
                final(store).streams@[p.stream as int].pending_send.view_in(final(buffer)),
            ) + p.rest <= final(store).streams@[p.stream as int].buffered_send_data,
            r is Skipped ==> forall|k: usize|
                old(self).pending_send().contains(k) && k != old(self).pending_send()[0]
                    ==> #[trigger] final(self).pending_send().contains(k),
            r is Skipped ==> forall|j: int|
                0 <= j < old(store).streams@.len() ==> turn_kept(
                    old(store).streams@[j],
                    #[trigger] final(store).streams@[j],
                    old(store).streams@[j].pending_send.view_in(old(buffer)),
                    final(store).streams@[j].pending_send.view_in(final(buffer)),
                ),
            r is Skipped ==> forall|j: int|
                0 <= j < old(store).streams@.len() ==> stays_unwritable(
                    old(store).streams@[j],
                    #[trigger] final(store).streams@[j],
                    old(store).streams@[j].pending_send.view_in(old(buffer)),
                    final(store).streams@[j].pending_send.view_in(final(buffer)),
                    max_len as int,
                    final(self).pending_send(),
                    j,
                    j == old(self).pending_send()[0],
                ),
            old(self).pending_send().len() == 0 ==> r is Idle && *final(self) == *old(self)
                && final(store).streams@ == old(store).streams@ && final(buffer).slots() == old(buffer).slots(),
            old(self).pending_send().len() > 0 ==> ({
                let q = old(self).pending_send();
                let key = q[0];
                let s = old(store).streams@[key as int];
                let v = s.pending_send.view_in(old(buffer));
                let ns = final(store).streams@[key as int];
                let nv = ns.pending_send.view_in(final(buffer));
                let again = v.len() > 1 || s.reset_scheduled;
                &&& !(r is Idle)
                &&& v.len() == 0 && s.spec_scheduled_reset() is Some ==> r == Popped::Frame(
                    Prioritized {
                        stream: key,
                        frame: Frame::<B>::Reset { reason: s.reset->0 },
                        rest: 0,
                        end_of_stream: false,
                    },
                ) && final(store).streams@ == old(store).streams@.update(
                    key as int,
                    Stream { reset_scheduled: false, ..s },
                ) && final(self).pending_send() == q.drop_first()
                    && final(self).conn() == old(self).conn()
                &&& v.len() == 0 && s.spec_scheduled_reset() is None ==> r is Skipped
                    && final(store).streams@ == old(store).streams@ && final(self).pending_send()
                    == q.drop_first() && final(self).conn() == old(self).conn()
                &&& v.len() > 0 ==> (match v[0] {
                    Frame::Data { payload, len: sz, end_stream: eos } => {
                        let cap = as_size(s.send_flow.avail());
                        let len = min_int(min_int(sz as int, max_len as int), cap);
                        let blocked = (sz > 0 && cap == 0) || (len > 0 && len > as_size(
                            s.send_flow.window(),
                        ));
                        &&& (s.spec_scheduled_reset() matches Some(reason) && reason
                            != Reason::NoError) ==> r is Skipped && nv.len() == 0
                            && ns.buffered_send_data == 0 && ns.requested_send_capacity == 0
                            && ns.send_flow.avail() == 0 && final(self).pending_send().contains(key)
                        &&& !(s.spec_scheduled_reset() matches Some(reason) && reason
                            != Reason::NoError) && blocked ==> r is Skipped && nv == v
                            && final(store).streams@ == old(store).streams@.update(
                            key as int,
                            Stream { pending_send: ns.pending_send, ..s },
                        ) && final(self).pending_send() == q.drop_first() && final(self).pending_capacity()
                            == pushed(
                            old(self).pending_capacity(),
                            key,
                            s.send_flow.spec_has_unavailable(),
                        ) && final(self).conn() == old(self).conn()
                        &&& !(s.spec_scheduled_reset() matches Some(reason) && reason
                            != Reason::NoError) && !blocked ==> r == Popped::Frame(
                            Prioritized {
                                stream: key,
                                frame: Frame::Data { payload, len: len as usize, end_stream: eos && sz <= len },
                                rest: (sz - len) as usize,
                                end_of_stream: eos,
                            },
                        ) && nv == v.drop_first() && ns.send_flow.avail() == s.send_flow.avail() - len
                            && ns.send_flow.window() == s.send_flow.window() - len
                            && ns.buffered_send_data == s.buffered_send_data - len
                            && ns.requested_send_capacity == s.requested_send_capacity - len
                            && final(self).conn().window() == old(self).conn().window() - len
                            && final(self).conn().avail() == old(self).conn().avail()
                            && final(self).pending_send() == pushed(q.drop_first(), key, again)
                    },
                    Frame::PushPromise { promised } => {
                        &&& r == Popped::Frame(
                            Prioritized { stream: key, frame: v[0], rest: 0, end_of_stream: false },
                        )
                        &&& nv == v.drop_first()
                        &&& promised < old(store).streams@.len() && promised != key
                            ==> !final(store).streams@[promised as int].is_pending_push
                        &&& again ==> final(self).pending_send().contains(key)
                    },
                    _ => {
                        &&& r == Popped::Frame(
                            Prioritized { stream: key, frame: v[0], rest: 0, end_of_stream: false },
                        )
                        &&& nv == v.drop_first()
                        &&& final(store).streams@ == old(store).streams@.update(
                            key as int,
                            Stream { pending_send: ns.pending_send, ..s },
                        )
                        &&& final(self).pending_send() == pushed(q.drop_first(), key, again)
                        &&& final(self).conn() == old(self).conn()
                    },
                })
            }),
    {
        if self.pending_send.len() == 0 {
            return Popped::Idle;
        }
        let ghost q = self.pending_send@;
        let key: usize = self.pending_send.remove(0);
        proof {
            assert(q[0] == key);
            assert(self.pending_send@ =~= q.drop_first());
            lemma_queue_ok_drop_first(q, store.streams@.len() as int);
        }
        let ghost s0 = *store;
        let ghost b0 = *buffer;
        let ghost v = s0.streams@[key as int].pending_send.view_in(&b0);
        let popped = pop_frame_front(buffer, store, key);
        let ghost sp = *store;
        proof {
            self.lemma_inv_queue_change(&s0, store, key as int, 0);
            if v.len() > 0 {
                lemma_data_len_drop_first(v);
            }
        }
        let mut rest: usize = 0;
        let mut end_of_stream: bool = false;
        let frame: Frame<B> = match popped {
            Some(Frame::Data { payload, len: sz, end_stream: eos }) => {
                let stream: Stream = store.streams[key];
                match stream.get_scheduled_reset() {
                    Some(reason) => {
                        if reason != Reason::NoError {
                            let ghost s1 = *store;
                            let ghost b1 = *buffer;
                            self.discard_for_reset(Frame::Data { payload, len: sz, end_stream: eos }, buffer, key, store, Ghost(max_len as int));
                            proof {
                                assert forall|k: usize| q.contains(k) && k != q[0] implies #[trigger] self.pending_send@.contains(k) by {
                                    let b = choose|b: int| 0 <= b < q.len() && q[b] == k;
                                    assert(q.drop_first()[b - 1] == k);
                                }
                                assert forall|j: int| 0 <= j < s0.streams@.len() implies turn_kept(
                                    s0.streams@[j],
                                    #[trigger] store.streams@[j],
                                    s0.streams@[j].pending_send.view_in(&b0),
                                    store.streams@[j].pending_send.view_in(buffer),
                                ) by {
                                    if j != key {
                                        assert(s1.streams@[j] == s0.streams@[j]);
                                        assert(s1.streams@[j].pending_send.view_in(&b1) == s0.streams@[j].pending_send.view_in(&b0));
                                    } else {
                                        assert(reset_cleared(
                                            s0.streams@[j],
                                            s0.streams@[j].pending_send.view_in(&b0),
                                            store.streams@[j],
                                            store.streams@[j].pending_send.view_in(buffer),
                                        ));
                                    }
                                }
                                assert forall|j: int| 0 <= j < s0.streams@.len() implies stays_unwritable(
                                    s0.streams@[j],
                                    #[trigger] store.streams@[j],
                                    s0.streams@[j].pending_send.view_in(&b0),
                                    store.streams@[j].pending_send.view_in(buffer),
                                    max_len as int,
                                    self.pending_send@,
                                    j,
                                    j == q[0],
                                ) by {
                                    if j != key {
                                        assert(s1.streams@[j] == s0.streams@[j]);
                                        assert(s1.streams@[j].pending_send.view_in(&b1) == s0.streams@[j].pending_send.view_in(&b0));
                                        assert(stays_unwritable(
                                            s1.streams@[j],
                                            store.streams@[j],
                                            s1.streams@[j].pending_send.view_in(&b1),
                                            store.streams@[j].pending_send.view_in(buffer),
                                            max_len as int,
                                            self.pending_send@,
                                            j,
                                            false,
                                        ));
                                    }
                                }
                            }
                            return Popped::Skipped;
                        }
                    },
                    None => {},
                }
                let ghost s1 = *store;
                match self.send_data_frame(sz, max_len, key, store) {
                    None => {
                        proof {
                            lemma_frames_ok_same_queues(s1.streams@, store.streams@, buffer);
                        }
                        let ghost s2 = *store;
                        let ghost b2 = *buffer;
                        push_frame_front(buffer, store, key, Frame::Data { payload, len: sz, end_stream: eos });
                        proof {
                            self.lemma_inv_queue_change(&s2, store, key as int, 0);
                            lemma_push_front_pop_front(v.drop_first(), v[0]);
                            assert(v =~= seq![v[0]] + v.drop_first());
                            assert forall|k: usize| q.contains(k) && k != q[0] implies #[trigger] self.pending_send@.contains(k) by {
                                let b = choose|b: int| 0 <= b < q.len() && q[b] == k;
                                assert(q.drop_first()[b - 1] == k);
                            }
                            assert forall|j: int| 0 <= j < s0.streams@.len() implies turn_kept(
                                s0.streams@[j],
                                #[trigger] store.streams@[j],
                                s0.streams@[j].pending_send.view_in(&b0),
                                store.streams@[j].pending_send.view_in(buffer),
                            ) by {
                                if j != key {
                                    assert(sp.streams@[j] == s0.streams@[j]);
                                    assert(s2.streams@[j] == s0.streams@[j]);
                                    assert(store.streams@[j] == s0.streams@[j]);
                                    assert(s2.streams@[j].pending_send.view_in(buffer) == s2.streams@[j].pending_send.view_in(&b2));
                                    assert(evolved(s0.streams@[j], store.streams@[j]));
                                } else {
                                    assert(evolved(s0.streams@[j], store.streams@[j]));
                                }
                            }
                            assert forall|j: int| 0 <= j < s0.streams@.len() implies stays_unwritable(
                                s0.streams@[j],
                                #[trigger] store.streams@[j],
                                s0.streams@[j].pending_send.view_in(&b0),
                                store.streams@[j].pending_send.view_in(buffer),
                                max_len as int,
                                self.pending_send@,
                                j,
                                j == q[0],
                            ) by {
                                if j != key {
                                    assert(sp.streams@[j] == s0.streams@[j]);
                                    assert(s2.streams@[j] == s0.streams@[j]);
                                    assert(store.streams@[j] == s0.streams@[j]);
                                    assert(s2.streams@[j].pending_send.view_in(buffer) == s2.streams@[j].pending_send.view_in(&b2));
                                }
                            }
                        }
                        return Popped::Skipped;
                    },
                    Some(len) => {
                        proof {
                            lemma_frames_ok_set(s1.streams@, buffer, key as int, store.streams@[key as int]);
                            assert(store.streams@ =~= s1.streams@.update(key as int, store.streams@[key as int]));
                        }
                        rest = sz - len as usize;
                        end_of_stream = eos;
                        Frame::Data { payload, len: len as usize, end_stream: eos && sz <= len as usize }
                    },
                }
            },
            Some(Frame::PushPromise { promised }) => {
                if promised < store.streams.len() && promised != key {
                    self.release_promised(buffer, promised, store, counts);
                    proof {
                        assert(only_gained_capacity(sp.streams@[key as int], store.streams@[key as int]));
                    }
                }
                Frame::PushPromise { promised }
            },
            Some(f) => f,
            None => {
                let mut stream: Stream = store.streams[key];
                match stream.get_scheduled_reset() {
                    Some(reason) => {
                        let ghost s1 = *store;
                        stream.set_reset(reason);
                        store.streams.set(key, stream);
                        proof {
                            assert(self.slot_ok(s1.streams@[key as int], key as int));
                            self.lemma_replace_stream(&s1, store, key as int, 0);
                            lemma_frames_ok_same_queues(s1.streams@, store.streams@, buffer);
                        }
                        Frame::Reset { reason }
                    },
                    None => {
                        proof {
                            assert forall|j: int| 0 <= j < s0.streams@.len() implies turn_kept(
                                s0.streams@[j],
                                #[trigger] store.streams@[j],
                                s0.streams@[j].pending_send.view_in(&b0),
                                store.streams@[j].pending_send.view_in(buffer),
                            ) by {
                                assert(evolved(s0.streams@[j], store.streams@[j]));
                            }
                            assert forall|k: usize| q.contains(k) && k != q[0] implies #[trigger] self.pending_send@.contains(k) by {
                                let b = choose|b: int| 0 <= b < q.len() && q[b] == k;
                                assert(q.drop_first()[b - 1] == k);
                            }
                        }
                        return Popped::Skipped;
                    },
                }
            },
        };
        let stream: Stream = store.streams[key];
        let ghost ps = self.pending_send@;
        if !stream.pending_send.is_empty() || stream.reset_scheduled {
            queue_push(&mut self.pending_send, key);
            proof {
                lemma_pushed_contains(ps, key, true, key);
            }
        }
        Popped::Frame(Prioritized { stream: key, frame, rest, end_of_stream })
    }

    /// Takes the next frame to write: turns of `pop_frame_once` until one
    /// yields a frame, or no stream waits to send.
    pub fn pop_frame<B>(
        &mut self,
        buffer: &mut Buffer<Frame<B>>,
        store: &mut Store,
        max_len: usize,
        counts: &mut SendCounts,
    ) -> (r: Option<Prioritized<B>>)
        requires
            old(self).inv(old(store)),
            frames_ok(old(store).streams@, old(buffer)),
        ensures
            final(counts).max_send_streams == old(counts).max_send_streams,
            final(counts).is_server == old(counts).is_server,
            in_flight_kept(old(self).in_flight(), final(self).in_flight()),
            final(self).conn().window() == old(self).conn().window() - match r {
                Some(p) => frame_data_len(p.frame),
                None => 0,
            },
            final(self).inv(final(store)),
            frames_ok(final(store).streams@, final(buffer)),
            final(store).streams@.len() == old(store).streams@.len(),
            final(self).max_buffer() == old(self).max_buffer(),
            r is None ==> final(self).pending_send().len() == 0,
            r is None ==> forall|j: int|
                0 <= j < old(store).streams@.len() && old(self).pending_send().contains(j as usize)
                    ==> !has_frame_to_write(
                    #[trigger] final(store).streams@[j],
                    final(store).streams@[j].pending_send.view_in(final(buffer)),
                    max_len as int,
                ),
            r matches Some(p) ==> p.stream < final(store).streams@.len() && data_len(
                final(store).streams@[p.stream as int].pending_send.view_in(final(buffer)),
            ) + p.rest <= final(store).streams@[p.stream as int].buffered_send_data,
            r matches Some(p) ==> data_frame_fits(p, max_len as int, final(store).streams@[p.stream as int]),
            r matches Some(p) ==> frame_served(
                old(store).streams@[p.stream as int],
                old(store).streams@[p.stream as int].pending_send.view_in(old(buffer)),
                p,
                final(store).streams@[p.stream as int],
                final(store).streams@[p.stream as int].pending_send.view_in(final(buffer)),
                max_len as int,
                p.stream,
            ),
    {
        let ghost p0 = self.pending_send@;
        let total: usize = store.streams.len();
        loop
            invariant
                self.inv(store),
                frames_ok(store.streams@, buffer),
                store.streams@.len() == old(store).streams@.len(),
                self.max_buffer() == old(self).max_buffer(),
                counts.max_send_streams == old(counts).max_send_streams,
                counts.is_server == old(counts).is_server,
                in_flight_kept(old(self).in_flight(), self.in_flight()),
                self.conn().window() == old(self).conn().window(),
                p0 == old(self).pending_send(),
                total == store.streams@.len(),
                forall|j: int|
                    0 <= j < store.streams@.len() ==> turn_kept(
                        old(store).streams@[j],
                        #[trigger] store.streams@[j],
                        old(store).streams@[j].pending_send.view_in(old(buffer)),
                        store.streams@[j].pending_send.view_in(buffer),
                    ),
                forall|j: int|
                    0 <= j < store.streams@.len() && p0.contains(j as usize) && !self.pending_send().contains(
                        j as usize,
                    ) ==> !has_frame_to_write(
                        #[trigger] store.streams@[j],
                        store.streams@[j].pending_send.view_in(buffer),
                        max_len as int,
                    ),
            decreases buffer.slots().dom().len(), self.pending_send().len(),
        {
            let ghost pre = store.streams@;
            let ghost preb = *buffer;
            let ghost preq = self.pending_send@;
            let turn = self.pop_frame_once(buffer, store, max_len, counts);
            match turn {
                Popped::Idle => {
                    return None;
                },
                Popped::Skipped => {
                    proof {
                        assert forall|j: int| 0 <= j < store.streams@.len() implies turn_kept(
                            old(store).streams@[j],
                            #[trigger] store.streams@[j],
                            old(store).streams@[j].pending_send.view_in(old(buffer)),
                            store.streams@[j].pending_send.view_in(buffer),
                        ) by {
                            assert(turn_kept(
                                pre[j],
                                store.streams@[j],
                                pre[j].pending_send.view_in(&preb),
                                store.streams@[j].pending_send.view_in(buffer),
                            ));
                            lemma_turn_kept_compose(
                                old(store).streams@[j],
                                pre[j],
                                store.streams@[j],
                                old(store).streams@[j].pending_send.view_in(old(buffer)),
                                pre[j].pending_send.view_in(&preb),
                                store.streams@[j].pending_send.view_in(buffer),
                            );
                        }
                        assert forall|k: usize| preq.contains(k) && k != preq[0] implies #[trigger] self.pending_send().contains(k) by {}
                        assert forall|j: int|
                            0 <= j < store.streams@.len() && p0.contains(j as usize) && !self.pending_send().contains(
                                j as usize,
                            ) implies !has_frame_to_write(
                            #[trigger] store.streams@[j],
                            store.streams@[j].pending_send.view_in(buffer),
                            max_len as int,
                        ) by {
                            assert(stays_unwritable(
                                pre[j],
                                store.streams@[j],
                                pre[j].pending_send.view_in(&preb),
                                store.streams@[j].pending_send.view_in(buffer),
                                max_len as int,
                                self.pending_send(),
                                j,
                                j == preq[0],
                            ));
                            if j != preq[0] && preq.contains(j as usize) {
                                assert(self.pending_send().contains(j as usize));
                            }
                        }
                    }
                },
                Popped::Frame(p) => {
                    proof {
                        let k = p.stream;
                        let a = old(store).streams@[k as int];
                        let va = a.pending_send.view_in(old(buffer));
                        let c = pre[k as int];
                        let vc = c.pending_send.view_in(&preb);
                        assert(preq.len() > 0);
                        assert(k == preq[0]);
                        assert(turn_kept(a, c, va, vc));
                        if reset_cleared(a, va, c, vc) {
                            assert(vc.len() == 0);
                        } else if evolved(a, c) && vc == va {
                            if va.len() > 0 {
                                assert(va[0] == vc[0]);
                            }
                        } else {
                            assert(vc.len() == 0 && c.spec_scheduled_reset() is None);
                        }
                    }
                    return Some(p);
                },
            }
        }
    }
}

/// `sub` keeps some of the keys of `sup`, in `sup`'s order.
pub open spec fn subsequence_of(sub: Seq<usize>, sup: Seq<usize>) -> bool {
    exists|idx: Seq<int>|
        #![trigger idx.len()]
        idx.len() == sub.len() && (forall|a: int| 0 <= a < idx.len() ==> 0 <= #[trigger] idx[a] < sup.len() && sub[a] == sup[idx[a]])
            && (forall|a: int, b: int| 0 <= a < b < idx.len() ==> #[trigger] idx[a] < #[trigger] idx[b])
}

/// A stream waiting to open that can never open, or was reset before it
/// did: the peer allows no streams at all (`max_zero`), its reset is only
/// scheduled, or it is reset with nothing left to send.
pub open spec fn open_abandoned(s: Stream, queued: bool, max_zero: bool) -> bool {
    max_zero || s.reset_scheduled || (s.reset is Some && !queued)
}

/// DATA of `sz` bytes at the front of the stream's queue cannot be written
/// now: the stream has no capacity, or what it may write (at most `max_len`
/// and its capacity) exceeds the window the peer knows of.
pub open spec fn data_blocked(s: Stream, sz: int, max_len: int) -> bool {
    let cap = as_size(s.send_flow.avail());
    let len = min_int(min_int(sz, max_len), cap);
    (sz > 0 && cap == 0) || (len > 0 && len > as_size(s.send_flow.window()))
}

/// The stream, with frames `v`, has something to write now: its scheduled
/// RST_STREAM, or the first frame of its queue unless that is blocked DATA
/// (see `data_blocked`) and no reset other than `NoError` is scheduled.
pub open spec fn has_frame_to_write<B>(s: Stream, v: Seq<Frame<B>>, max_len: int) -> bool {
    if v.len() == 0 {
        s.spec_scheduled_reset() is Some
    } else {
        match v[0] {
            Frame::Data { len: sz, .. } => (s.spec_scheduled_reset() matches Some(reason) && reason
                != Reason::NoError) || !data_blocked(s, sz as int, max_len),
            _ => true,
        }
    }
}

/// Stream `b`, with frames `vb`, is `a` with frames `va` but for capacity it
/// gained (and its queue handle), or it has no frame and no reset to send.
pub open spec fn still_or_dead<B>(a: Stream, b: Stream, va: Seq<Frame<B>>, vb: Seq<Frame<B>>) -> bool {
    ||| evolved(a, b) && vb == va
    ||| vb.len() == 0 && b.spec_scheduled_reset() is None
}

/// `b` is `a` but for capacity it gained and its queue handle.
pub open spec fn evolved(a: Stream, b: Stream) -> bool {
    &&& b.send_flow.window() == a.send_flow.window()
    &&& b.send_flow.avail() >= a.send_flow.avail()
    &&& within_window(a) ==> within_window(b)
    &&& b == Stream {
        send_flow: b.send_flow,
        send_capacity_inc: b.send_capacity_inc,
        pending_send: b.pending_send,
        ..a
    }
}

/// DATA at the front of the stream's queue was dropped, with the whole
/// queue, its buffered data and its request, because a reset other than
/// `NoError` is scheduled; the RST_STREAM is still to be sent.
pub open spec fn reset_cleared<B>(a: Stream, va: Seq<Frame<B>>, b: Stream, vb: Seq<Frame<B>>) -> bool {
    &&& va.len() > 0 && va[0] is Data
    &&& a.spec_scheduled_reset() matches Some(reason) && reason != Reason::NoError
    &&& vb.len() == 0
    &&& b == Stream {
        send_flow: b.send_flow,
        send_capacity_inc: b.send_capacity_inc,
        buffered_send_data: 0,
        requested_send_capacity: 0,
        pending_send: b.pending_send,
        ..a
    }
}

/// What turns of `pop_frame` that write nothing do to a stream, from `a`
/// with frames `va` to `b` with frames `vb`: it only gains capacity (see
/// `evolved`) and keeps its frames, or it has nothing left to write, or its
/// DATA was dropped for a scheduled reset (see `reset_cleared`).
pub open spec fn turn_kept<B>(a: Stream, b: Stream, va: Seq<Frame<B>>, vb: Seq<Frame<B>>) -> bool {
    ||| still_or_dead(a, b, va, vb)
    ||| reset_cleared(a, va, b, vb)
}

/// The frame `p` that `pop_frame` writes for stream `k`, which had frames
/// `va` in state `a`, leaving it in state `b` with frames `vb`: its
/// scheduled RST_STREAM when its queue is empty, or when its first frame is
/// DATA and a reset other than `NoError` is scheduled (the DATA is dropped);
/// otherwise its first frame, DATA cut to at most `max_len` bytes, whose
/// length leaves the stream's window, buffered data and request (and no
/// more than it of its capacity).
pub open spec fn frame_served<B>(
    a: Stream,
    va: Seq<Frame<B>>,
    p: Prioritized<B>,
    b: Stream,
    vb: Seq<Frame<B>>,
    max_len: int,
    k: usize,
) -> bool {
    &&& p.stream == k
    &&& if va.len() == 0 {
        &&& a.spec_scheduled_reset() is Some
        &&& p.frame == Frame::<B>::Reset { reason: a.reset->0 }
        &&& p.rest == 0
        &&& vb.len() == 0
        &&& !b.reset_scheduled && b.reset == a.reset
    } else {
        match va[0] {
            Frame::Data { payload, len: sz, end_stream: eos } => if a.spec_scheduled_reset() matches Some(
                reason,
            ) && reason != Reason::NoError {
                &&& p.frame == Frame::<B>::Reset { reason: a.reset->0 }
                &&& vb.len() == 0
                &&& b.buffered_send_data == 0 && b.requested_send_capacity == 0
                &&& !b.reset_scheduled && b.reset == a.reset
            } else {
                &&& p.frame matches Frame::Data { payload: pl, len, end_stream: e } && pl == payload
                    && len <= sz && len <= max_len && e == (eos && sz <= len) && p.rest == sz - len
                    && p.end_of_stream == eos && b.send_flow.window() == a.send_flow.window() - len
                    && b.buffered_send_data == a.buffered_send_data - len
                    && b.requested_send_capacity == a.requested_send_capacity - len
                    && b.send_flow.avail() >= a.send_flow.avail() - len
                &&& vb == va.drop_first()
            },
            _ => {
                &&& p.frame == va[0]
                &&& p.rest == 0
                &&& vb == va.drop_first()
            },
        }
    }
}

/// Turns that write nothing, one after another, are again such turns.
pub proof fn lemma_turn_kept_compose<B>(
    a: Stream,
    b: Stream,
    c: Stream,
    va: Seq<Frame<B>>,
    vb: Seq<Frame<B>>,
    vc: Seq<Frame<B>>,
)
    requires
        turn_kept(a, b, va, vb),
        turn_kept(b, c, vb, vc),
    ensures
        turn_kept(a, c, va, vc),
{
}

/// Stream `j` went from `a` with frames `va` to `b` with frames `vb`: when
/// it had nothing to write before (or it was the stream just served), it
/// has nothing to write now, or it is in the send queue `ps`.
pub open spec fn stays_unwritable<B>(
    a: Stream,
    b: Stream,
    va: Seq<Frame<B>>,
    vb: Seq<Frame<B>>,
    max_len: int,
    ps: Seq<usize>,
    j: int,
    served: bool,
) -> bool {
    (served || !has_frame_to_write(a, va, max_len)) ==> (!has_frame_to_write(b, vb, max_len)
        || ps.contains(j as usize))
}

/// A stream that only gained capacity, with the same frames, and whose
/// change of capacity was noticed, gets nothing to write but by being
/// queued to send.
pub proof fn lemma_unwritable_kept<B>(
    a: Stream,
    b: Stream,
    v: Seq<Frame<B>>,
    max_len: int,
    ps: Seq<usize>,
    j: int,
)
    requires
        only_gained_capacity(a, b),
        capacity_noticed(a, b, ps, j),
        data_len(v) <= a.buffered_send_data,
        !has_frame_to_write(a, v, max_len),
    ensures
        !has_frame_to_write(b, v, max_len) || ps.contains(j as usize),
{
    if v.len() > 0 {
        lemma_data_len_drop_first(v);
    }
}

/// A DATA frame taken to write is at most `max_len` bytes, and, when it
/// is not empty, leaves its stream `ns` with neither window nor capacity
/// below zero.
pub open spec fn data_frame_fits<B>(p: Prioritized<B>, max_len: int, ns: Stream) -> bool {
    p.frame matches Frame::Data { len, .. } ==> len <= max_len && (len > 0 ==> ns.send_flow.window() >= 0
        && ns.send_flow.avail() >= 0)
}

/// A stream dropped from the open queue: it is reset, and holds no
/// buffered data and no request for capacity.
pub open spec fn aborted_state(s: Stream) -> bool {
    &&& s.reset is Some
    &&& s.buffered_send_data == 0
    &&& s.requested_send_capacity == 0
}

/// The stream's reset reason, else `RefusedStream`.
pub open spec fn refused_or(a: Stream) -> Option<Reason> {
    if a.reset is Some {
        a.reset
    } else {
        Some(Reason::RefusedStream)
    }
}

/// Stream `k`, `a` when it left the open queue, is `b` with frames `vb` once
/// dropped (`ps` the send queue): nothing buffered or requested, and reset.
/// On a server its RST_STREAM is scheduled (with its reset reason, else
/// `RefusedStream`) and it is queued to send, or, when its reset was final
/// already, queued as its only frame; on a client it holds no frame and its
/// reset is final (its reason, else `RefusedStream`).
pub open spec fn aborted_end<B>(a: Stream, b: Stream, vb: Seq<Frame<B>>, is_server: bool, ps: Seq<usize>, k: usize) -> bool {
    &&& b.buffered_send_data == 0
    &&& b.requested_send_capacity == 0
    &&& b.reset is Some
    &&& if is_server {
        ||| b.reset_scheduled && b.reset == refused_or(a) && ps.contains(k)
        ||| !b.reset_scheduled && b.reset == a.reset && vb == seq![Frame::<B>::Reset { reason: a.reset->0 }]
    } else {
        vb.len() == 0 && !b.reset_scheduled && b.reset == refused_or(a)
    }
}

/// What dropping another stream, whose frames were `vk`, does to stream
/// `j`: it only gains capacity and keeps its frames, or a PUSH_PROMISE of it
/// among `vk` was dropped (see `promise_dropped`) with all its frames.
pub open spec fn beside_abort<B>(
    a: Stream,
    b: Stream,
    va: Seq<Frame<B>>,
    vb: Seq<Frame<B>>,
    vk: Seq<Frame<B>>,
    j: int,
) -> bool {
    ||| only_gained_capacity(a, b) && b.pending_send == a.pending_send && vb == va
    ||| promise_dropped(a, b) && vb.len() == 0 && names_promise(vk, j)
}

/// `open_abandoned` of the stream, whose frames are held in `buf`.
pub open spec fn abandoned_in<B>(s: Stream, buf: &Buffer<Frame<B>>, max_zero: bool) -> bool {
    open_abandoned(s, s.pending_send.view_in(buf).len() > 0, max_zero)
}

/// A stream that will never open still will not once another stream is
/// dropped from the open queue.
pub proof fn lemma_abandoned_beside<B>(
    a: Stream,
    b: Stream,
    va: Seq<Frame<B>>,
    vb: Seq<Frame<B>>,
    vk: Seq<Frame<B>>,
    i: int,
    max_zero: bool,
)
    requires
        a.wf(),
        beside_abort(a, b, va, vb, vk, i),
        open_abandoned(a, va.len() > 0, max_zero),
    ensures
        open_abandoned(b, vb.len() > 0, max_zero),
{
}

/// No frame queued on a stream of `po` is a PUSH_PROMISE of a stream of
/// `po`.
pub open spec fn no_promise_among<B>(po: Seq<usize>, streams: Seq<Stream>, buf: &Buffer<Frame<B>>) -> bool {
    forall|a: int, b: int|
        #![trigger po[a], po[b]]
        0 <= a < po.len() && 0 <= b < po.len() ==> !names_promise(
            streams[po[a] as int].pending_send.view_in(buf),
            po[b] as int,
        )
}

/// `no_promise_among` for two streams of the queue.
pub proof fn lemma_no_promise_pair<B>(
    po: Seq<usize>,
    streams: Seq<Stream>,
    buf: &Buffer<Frame<B>>,
    x: usize,
    y: usize,
)
    requires
        no_promise_among(po, streams, buf),
        po.contains(x),
        po.contains(y),
    ensures
        !names_promise(streams[x as int].pending_send.view_in(buf), y as int),
{
    let a = choose|a: int| 0 <= a < po.len() && po[a] == x;
    let b = choose|b: int| 0 <= b < po.len() && po[b] == y;
    assert(po[a] == x && po[b] == y);
}

impl Prioritize {
    /// Takes back the unsent rest of the DATA frame in flight, handed back
    /// by the codec as `frame`.
    ///
    /// The frame is no longer in flight. When its stream was cleared
    /// meanwhile the rest is dropped. Otherwise a rest that is not empty goes
    /// back to the front of the stream's queue (see `push_back_frame`), as
    /// DATA that ends the stream when the whole frame did; returns whether it
    /// did.
    pub fn reclaim_frame_inner<B>(&mut self, buffer: &mut Buffer<Frame<B>>, store: &mut Store, frame: Prioritized<B>) -> (r: bool)
        requires
            old(self).inv(old(store)),
            frames_ok(old(store).streams@, old(buffer)),
            old(self).in_flight() != InFlightData::Nothing,
            old(self).in_flight() matches InFlightData::DataFrame(k) ==> k == frame.stream && frame.frame is Data
                && frame.stream < old(store).streams@.len() && data_len(
                old(store).streams@[frame.stream as int].pending_send.view_in(old(buffer)),
            ) + frame.rest <= old(store).streams@[frame.stream as int].buffered_send_data,
        ensures
            final(self).inv(final(store)),
            frames_ok(final(store).streams@, final(buffer)),
            final(self).in_flight() == InFlightData::Nothing,
            final(self).conn() == old(self).conn(),
            final(self).pending_open() == old(self).pending_open(),
            final(self).max_buffer() == old(self).max_buffer(),
            r == (old(self).in_flight() is DataFrame && frame.rest > 0),
            !r ==> final(store).streams@ == old(store).streams@ && final(buffer).slots() == old(buffer).slots()
                && final(self).pending_send() == old(self).pending_send()
                && final(self).pending_capacity() == old(self).pending_capacity(),
            r ==> ({
                let key = frame.stream;
                let s = old(store).streams@[key as int];
                let ns = final(store).streams@[key as int];
                &&& final(store).streams@ == old(store).streams@.update(
                    key as int,
                    Stream { pending_send: ns.pending_send, ..s },
                )
                &&& ns.pending_send.view_in(final(buffer)) == seq![
                    Frame::Data { payload: frame.frame->payload, len: frame.rest, end_stream: frame.end_of_stream },
                ] + s.pending_send.view_in(old(buffer))
                &&& final(self).pending_send() == pushed(old(self).pending_send(), key, s.send_flow.avail() > 0)
                &&& final(self).pending_capacity() == pushed(
                    old(self).pending_capacity(),
                    key,
                    !(s.send_flow.avail() > 0) && s.send_flow.spec_has_unavailable(),
                )
            }),
    {
        let was: InFlightData = self.in_flight_data_frame;
        self.in_flight_data_frame = InFlightData::Nothing;
        match was {
            InFlightData::Drop => {
                return false;
            },
            _ => {},
        }
        let Prioritized { stream, frame: written, rest, end_of_stream } = frame;
        if rest > 0 {
            match written {
                Frame::Data { payload, .. } => {
                    self.push_back_frame(
                        Frame::Data { payload, len: rest, end_stream: end_of_stream },
                        buffer,
                        stream,
                        store,
                    );
                    return true;
                },
                _ => {},
            }
        }
        false
    }

    /// Drops a stream taken off the open queue: its frames, buffered data
    /// and request are dropped and its capacity handed to the waiting
    /// streams (see `clear_queue`). On a server the peer knows of it, so its
    /// RST_STREAM (with its reset reason, else `RefusedStream`) is scheduled,
    /// or queued when its reset is final already; on a client it is reset
    /// locally (see `aborted_end`).
    fn abort_stream<B>(&mut self, buffer: &mut Buffer<Frame<B>>, key: usize, store: &mut Store, is_server: bool)
        requires
            old(self).inv(old(store)),
            frames_ok(old(store).streams@, old(buffer)),
            key < old(store).streams@.len(),
        ensures
            final(self).inv(final(store)),
            frames_ok(final(store).streams@, final(buffer)),
            final(store).streams@.len() == old(store).streams@.len(),
            final(self).conn().window() == old(self).conn().window(),
            final(self).max_buffer() == old(self).max_buffer(),
            final(self).pending_open() == old(self).pending_open(),
            in_flight_kept(old(self).in_flight(), final(self).in_flight()),
            forall|k: usize| old(self).pending_send().contains(k) ==> #[trigger] final(self).pending_send().contains(k),
            aborted_end(
                old(store).streams@[key as int],
                final(store).streams@[key as int],
                final(store).streams@[key as int].pending_send.view_in(final(buffer)),
                is_server,
                final(self).pending_send(),
                key,
            ),
            forall|j: int|
                0 <= j < old(store).streams@.len() && j != key ==> beside_abort(
                    old(store).streams@[j],
                    #[trigger] final(store).streams@[j],
                    old(store).streams@[j].pending_send.view_in(old(buffer)),
                    final(store).streams@[j].pending_send.view_in(final(buffer)),
                    old(store).streams@[key as int].pending_send.view_in(old(buffer)),
                    j,
                ),
    {
        let st0: Stream = store.streams[key];
        proof {
            assert(self.slot_ok(old(store).streams@[key as int], key as int));
        }
        let ghost s2 = store.streams@;
        let ghost b2 = *buffer;
        let mut none: bool = false;
        let freed: WindowSize = self.clear_queue(buffer, key, store, &mut none);
        let ghost s3x = store.streams@;
        let ghost b3 = *buffer;
        if freed > 0 {
            let ghost s3 = store.streams@;
            self.assign_connection_capacity(freed, store, &mut none);
            proof {
                lemma_frames_ok_same_queues(s3, store.streams@, buffer);
            }
        }
        proof {
            assert forall|j: int| 0 <= j < s3x.len() implies only_gained_capacity(
                s3x[j],
                #[trigger] store.streams@[j],
            ) && store.streams@[j].pending_send == s3x[j].pending_send && (!wants_capacity(s3x[j])
                ==> store.streams@[j] == s3x[j]) by {}
            assert(!wants_capacity(s3x[key as int]));
        }
        let ghost s4 = *store;
        let ghost ps4 = self.pending_send@;
        let mut st: Stream = store.streams[key];
        if is_server {
            let reason: Reason = match st0.reset {
                Some(r) => r,
                None => Reason::RefusedStream,
            };
            if st.reset_scheduled {
                queue_push(&mut self.pending_send, key);
            } else {
                if st.reset.is_none() {
                    st.set_scheduled_reset(reason);
                    store.streams.set(key, st);
                    proof {
                        assert(self.slot_ok(s4.streams@[key as int], key as int));
                        self.lemma_replace_stream(&s4, store, key as int, 0);
                        lemma_frames_ok_same_queues(s4.streams@, store.streams@, buffer);
                    }
                }
                if st.reset_scheduled {
                    queue_push(&mut self.pending_send, key);
                } else {
                    self.queue_frame(Frame::Reset { reason }, buffer, key, store, &mut none);
                    proof {
                        assert(store.streams@[key as int].pending_send.view_in(buffer) =~= seq![
                            Frame::<B>::Reset { reason },
                        ]);
                    }
                }
            }
        } else {
            match st.get_scheduled_reset() {
                Some(r) => {
                    st.set_reset(r);
                },
                None => {
                    if st.reset.is_none() {
                        st.set_reset(Reason::RefusedStream);
                    }
                },
            }
            store.streams.set(key, st);
            proof {
                assert(self.slot_ok(s4.streams@[key as int], key as int));
                self.lemma_replace_stream(&s4, store, key as int, 0);
                lemma_frames_ok_same_queues(s4.streams@, store.streams@, buffer);
            }
        }
        proof {
            lemma_pushed_contains(ps4, key, true, key);
            assert forall|k: usize| old(self).pending_send().contains(k) implies #[trigger] self.pending_send@.contains(k) by {
                lemma_pushed_contains(ps4, key, true, k);
                lemma_pushed_contains(ps4, key, s4.streams@[key as int].spec_is_send_ready(), k);
            }
            assert forall|j: int| 0 <= j < s2.len() && j != key implies beside_abort(
                s2[j],
                #[trigger] store.streams@[j],
                s2[j].pending_send.view_in(&b2),
                store.streams@[j].pending_send.view_in(buffer),
                s2[key as int].pending_send.view_in(&b2),
                j,
            ) by {
                assert(store.streams@[j] == s4.streams@[j]);
                assert(s4.streams@[j].pending_send.view_in(buffer) == s4.streams@[j].pending_send.view_in(&b3));
                if promise_dropped(s2[j], s3x[j]) {
                    assert(!wants_capacity(s3x[j]));
                }
            }
        }
    }

    /// Drops from the open queue the streams that will never open (see
    /// `open_abandoned`), scanning the whole queue in order.
    ///
    /// On a server such a stream was promised already, so it still resets
    /// at the peer: its queue is dropped, its capacity handed back, and its
    /// RST_STREAM (with its reset reason, else `RefusedStream`) scheduled, or
    /// queued when its reset is final already. On a client it was never seen
    /// by the peer: its queue is dropped, its capacity handed back, and it is
    /// reset locally (a scheduled reset becomes final; one not reset at all
    /// is reset with `RefusedStream`). The streams that stay keep their
    /// order. Returns whether any stream was dropped.
    #[verifier::rlimit(100)]
    #[verifier::spinoff_prover]
    pub fn abort_closed_pending_open<B>(
        &mut self,
        buffer: &mut Buffer<Frame<B>>,
        store: &mut Store,
        counts: &SendCounts,
    ) -> (aborted: bool)
        requires
            old(self).inv(old(store)),
            frames_ok(old(store).streams@, old(buffer)),
        ensures
            final(self).inv(final(store)),
            frames_ok(final(store).streams@, final(buffer)),
            final(store).streams@.len() == old(store).streams@.len(),
            final(self).conn().window() == old(self).conn().window(),
            final(self).max_buffer() == old(self).max_buffer(),
            subsequence_of(final(self).pending_open(), old(self).pending_open()),
            aborted == (final(self).pending_open().len() < old(self).pending_open().len()),
            !aborted ==> *final(self) == *old(self) && final(store).streams@ == old(store).streams@
                && final(buffer).slots() == old(buffer).slots(),
            forall|k: usize|
                old(self).pending_open().contains(k) && !final(self).pending_open().contains(k)
                    ==> aborted_state(#[trigger] final(store).streams@[k as int]),
            counts.max_send_streams == 0 ==> final(self).pending_open().len() == 0,
            in_flight_kept(old(self).in_flight(), final(self).in_flight()),
            forall|a: int|
                0 <= a < old(self).pending_open().len() && abandoned_in(
                    old(store).streams@[old(self).pending_open()[a] as int],
                    old(buffer),
                    counts.max_send_streams == 0,
                ) ==> !final(self).pending_open().contains(#[trigger] old(self).pending_open()[a]),
            forall|k: usize| old(self).pending_send().contains(k) ==> #[trigger] final(self).pending_send().contains(k),
            no_promise_among(old(self).pending_open(), old(store).streams@, old(buffer)) ==> forall|a: int|
                0 <= a < old(self).pending_open().len() ==> (final(self).pending_open().contains(
                    #[trigger] old(self).pending_open()[a],
                ) <==> !abandoned_in(
                    old(store).streams@[old(self).pending_open()[a] as int],
                    old(buffer),
                    counts.max_send_streams == 0,
                )),
            no_promise_among(old(self).pending_open(), old(store).streams@, old(buffer)) ==> forall|a: int|
                0 <= a < old(self).pending_open().len() && !final(self).pending_open().contains(
                    old(self).pending_open()[a],
                ) ==> aborted_end(
                    old(store).streams@[old(self).pending_open()[a] as int],
                    #[trigger] final(store).streams@[old(self).pending_open()[a] as int],
                    final(store).streams@[old(self).pending_open()[a] as int].pending_send.view_in(final(buffer)),
                    counts.is_server,
                    final(self).pending_send(),
                    old(self).pending_open()[a],
                ),
    {
        let max_zero: bool = counts.max_send_streams == 0;
        let ghost hp = no_promise_among(self.pending_open@, store.streams@, buffer);
        let order: Vec<usize> = self.pending_open.clone();
        let ghost po0 = self.pending_open@;
        let ghost mut idx: Seq<int> = Seq::new(po0.len(), |a: int| a);
        let mut aborted: bool = false;
        let mut i: usize = 0;
        while i < order.len()
            invariant
                self.inv(store),
                frames_ok(store.streams@, buffer),
                store.streams@.len() == old(store).streams@.len(),
                self.conn().window() == old(self).conn().window(),
                self.max_buffer() == old(self).max_buffer(),
                order@ == po0,
                po0 == old(self).pending_open(),
                queue_ok(po0, store.streams@.len() as int),
                max_zero == (counts.max_send_streams == 0),
                i <= order.len(),
                idx.len() == self.pending_open().len(),
                forall|a: int| 0 <= a < idx.len() ==> 0 <= #[trigger] idx[a] < po0.len() && self.pending_open()[a] == po0[idx[a]],
                forall|a: int, b: int| 0 <= a < b < idx.len() ==> #[trigger] idx[a] < #[trigger] idx[b],
                forall|j: int| i <= j < po0.len() ==> self.pending_open().contains(#[trigger] po0[j]),
                aborted == (self.pending_open().len() < po0.len()),
                !aborted ==> *self == *old(self) && store.streams@ == old(store).streams@
                    && buffer.slots() == old(buffer).slots(),
                self.pending_open().len() <= po0.len(),
                forall|k: usize|
                    po0.contains(k) && !self.pending_open().contains(k)
                        ==> aborted_state(#[trigger] store.streams@[k as int]),
                max_zero ==> forall|j: int| 0 <= j < i ==> !self.pending_open().contains(#[trigger] po0[j]),
                in_flight_kept(old(self).in_flight(), self.in_flight()),
                forall|k: usize| old(self).pending_send().contains(k) ==> #[trigger] self.pending_send().contains(k),
                forall|j: int|
                    0 <= j < i && abandoned_in(old(store).streams@[po0[j] as int], old(buffer), max_zero)
                        ==> !self.pending_open().contains(#[trigger] po0[j]),
                forall|k: usize|
                    #[trigger] self.pending_open().contains(k) && abandoned_in(
                        old(store).streams@[k as int],
                        old(buffer),
                        max_zero,
                    ) ==> abandoned_in(store.streams@[k as int], buffer, max_zero),
                hp == no_promise_among(po0, old(store).streams@, old(buffer)),
                hp ==> forall|k: usize|
                    #[trigger] self.pending_open().contains(k) ==> evolved(old(store).streams@[k as int], store.streams@[k as int])
                        && store.streams@[k as int].pending_send.view_in(buffer)
                        == old(store).streams@[k as int].pending_send.view_in(old(buffer)),
                hp ==> forall|j: int|
                    0 <= j < i && !self.pending_open().contains(po0[j]) ==> aborted_end(
                        old(store).streams@[po0[j] as int],
                        #[trigger] store.streams@[po0[j] as int],
                        store.streams@[po0[j] as int].pending_send.view_in(buffer),
                        counts.is_server,
                        self.pending_send(),
                        po0[j],
                    ),
                hp ==> forall|j: int|
                    0 <= j < i ==> (self.pending_open().contains(#[trigger] po0[j]) <==> !abandoned_in(
                        old(store).streams@[po0[j] as int],
                        old(buffer),
                        max_zero,
                    )),
            decreases order.len() - i,
        {
            let key: usize = order[i];
            let stream: Stream = store.streams[key];
            let should_abort: bool = max_zero || stream.reset_scheduled || (stream.reset.is_some()
                && stream.pending_send.is_empty());
            if should_abort {
                proof {
                    assert(po0[i as int] == key);
                    assert(self.pending_open().contains(key));
                }
                let pos: usize = queue_index(&self.pending_open, key);
                let ghost idx_before = idx;
                let ghost po1 = self.pending_open();
                let ghost s1 = store.streams@;
                let _k: usize = self.leave_pending_open(pos, store);
                proof {
                    lemma_frames_ok_same_queues(s1, store.streams@, buffer);
                    let po2 = self.pending_open();
                    assert(po2 =~= po1.remove(pos as int));
                    idx = idx.remove(pos as int);
                    assert forall|a: int| 0 <= a < idx.len() implies 0 <= #[trigger] idx[a] < po0.len()
                        && po2[a] == po0[idx[a]] by {
                        if a >= pos {
                            assert(po2[a] == po1[a + 1]);
                        }
                    }
                    assert forall|j: int| i < j < po0.len() implies po2.contains(#[trigger] po0[j]) by {
                        assert(po1.contains(po0[j]));
                        let b = choose|b: int| 0 <= b < po1.len() && po1[b] == po0[j];
                        assert(po0[j] != po0[i as int]);
                        assert(b != pos);
                        if b < pos {
                            assert(po2[b] == po0[j]);
                        } else {
                            assert(po2[b - 1] == po0[j]);
                        }
                    }
                    assert forall|k: usize| po2.contains(k) implies po1.contains(k) by {
                        let b = choose|b: int| 0 <= b < po2.len() && po2[b] == k;
                        if b < pos {
                            assert(po1[b] == k);
                        } else {
                            assert(po1[b + 1] == k);
                        }
                    }
                    assert(!po2.contains(key)) by {
                        if po2.contains(key) {
                            let b = choose|b: int| 0 <= b < po2.len() && po2[b] == key;
                            if b < pos {
                                assert(po1[b] == key);
                            } else {
                                assert(po1[b + 1] == key);
                            }
                        }
                    }
                }
                let ghost s2 = store.streams@;
                let ghost b2 = *buffer;
                let ghost prio2 = *self;
                self.abort_stream(buffer, key, store, counts.is_server);
                proof {
                    assert forall|k: usize| po1.contains(k) && k != key implies #[trigger] self.pending_open().contains(k) by {
                        let b = choose|b: int| 0 <= b < po1.len() && po1[b] == k;
                        assert(b != pos);
                        if b < pos {
                            assert(self.pending_open()[b] == k);
                        } else {
                            assert(self.pending_open()[b - 1] == k);
                        }
                    }
                    assert(s1[key as int].pending_send.view_in(&b2) == s2[key as int].pending_send.view_in(&b2));
                    assert forall|k: usize|
                        po0.contains(k) && !self.pending_open().contains(k) implies aborted_state(
                        #[trigger] store.streams@[k as int]) by {
                        if k != key {
                            assert(k < s2.len());
                            assert(aborted_state(s2[k as int]));
                            assert(beside_abort(
                                s2[k as int],
                                store.streams@[k as int],
                                s2[k as int].pending_send.view_in(&b2),
                                store.streams@[k as int].pending_send.view_in(buffer),
                                s2[key as int].pending_send.view_in(&b2),
                                k as int,
                            ));
                        }
                    }
                    assert forall|j: int| 0 <= j <= i && max_zero implies !self.pending_open().contains(
                        #[trigger] po0[j],
                    ) by {}
                    assert forall|k: usize|
                        #[trigger] self.pending_open().contains(k) && abandoned_in(
                            old(store).streams@[k as int],
                            old(buffer),
                            max_zero,
                        ) implies abandoned_in(store.streams@[k as int], buffer, max_zero) by {
                        assert(po1.contains(k));
                        assert(k != key);
                        assert(abandoned_in(s1[k as int], &b2, max_zero));
                        assert(s2[k as int] == s1[k as int]);
                        assert(prio2.slot_ok(s2[k as int], k as int));
                        lemma_abandoned_beside(
                            s2[k as int],
                            store.streams@[k as int],
                            s2[k as int].pending_send.view_in(&b2),
                            store.streams@[k as int].pending_send.view_in(buffer),
                            s2[key as int].pending_send.view_in(&b2),
                            k as int,
                            max_zero,
                        );
                    }
                    if hp {
                        assert(po1.contains(key));
                        assert(evolved(old(store).streams@[key as int], s1[key as int]));
                        assert(s1[key as int].pending_send.view_in(&b2) == old(store).streams@[key as int].pending_send.view_in(
                            old(buffer),
                        ));
                        assert(abandoned_in(old(store).streams@[key as int], old(buffer), max_zero));
                        assert forall|k: usize| #[trigger] self.pending_open().contains(k) implies evolved(
                            old(store).streams@[k as int],
                            store.streams@[k as int],
                        ) && store.streams@[k as int].pending_send.view_in(buffer)
                            == old(store).streams@[k as int].pending_send.view_in(old(buffer)) by {
                            assert(po1.contains(k));
                            assert(k != key);
                            assert(po0.contains(k)) by {
                                let b = choose|b: int| 0 <= b < po1.len() && po1[b] == k;
                                assert(po0[idx_before[b]] == k);
                            }
                            assert(s2[k as int] == s1[k as int]);
                            assert(beside_abort(
                                s2[k as int],
                                store.streams@[k as int],
                                s2[k as int].pending_send.view_in(&b2),
                                store.streams@[k as int].pending_send.view_in(buffer),
                                s2[key as int].pending_send.view_in(&b2),
                                k as int,
                            ));
                            lemma_no_promise_pair(po0, old(store).streams@, old(buffer), key, k);
                        }
                        assert forall|j: int|
                            0 <= j <= i && !self.pending_open().contains(po0[j]) implies aborted_end(
                            old(store).streams@[po0[j] as int],
                            #[trigger] store.streams@[po0[j] as int],
                            store.streams@[po0[j] as int].pending_send.view_in(buffer),
                            counts.is_server,
                            self.pending_send(),
                            po0[j],
                        ) by {
                            let k = po0[j];
                            if j < i {
                                assert(!po1.contains(k));
                                assert(k != key);
                                assert(beside_abort(
                                    s2[k as int],
                                    store.streams@[k as int],
                                    s2[k as int].pending_send.view_in(&b2),
                                    store.streams@[k as int].pending_send.view_in(buffer),
                                    s2[key as int].pending_send.view_in(&b2),
                                    k as int,
                                ));
                                lemma_no_promise_pair(po0, old(store).streams@, old(buffer), key, k);
                                assert(s2[k as int] == s1[k as int]);
                            }
                        }
                        assert forall|j: int| 0 <= j <= i implies (self.pending_open().contains(#[trigger] po0[j])
                            <==> !abandoned_in(old(store).streams@[po0[j] as int], old(buffer), max_zero)) by {
                            if j < i {
                                assert(po0[j] != key);
                                if po1.contains(po0[j]) {
                                    assert(self.pending_open().contains(po0[j]));
                                } else {
                                    assert(!self.pending_open().contains(po0[j]));
                                }
                            }
                        }
                    }
                }
                aborted = true;
            } else {
                proof {
                    assert(self.pending_open().contains(key));
                    assert(!abandoned_in(old(store).streams@[key as int], old(buffer), max_zero));
                    if hp {
                        assert(evolved(old(store).streams@[key as int], store.streams@[key as int]));
                    }
                }
            }
            proof {
                assert forall|j: int|
                    0 <= j <= i && abandoned_in(old(store).streams@[po0[j] as int], old(buffer), max_zero)
                        implies !self.pending_open().contains(#[trigger] po0[j]) by {}
            }
            i = i + 1;
        }
        proof {
            let po = self.pending_open();
            if max_zero && po.len() > 0 {
                assert(po[0] == po0[idx[0]]);
                assert(!po.contains(po0[idx[0]]));
            }
            assert(subsequence_of(po, po0)) by {
                assert(idx.len() == po.len());
            }
        }
        aborted
    }

    /// Opens the first stream waiting to open when a concurrency slot is
    /// free: it leaves the open queue, takes the slot, goes to the front of
    /// the send queue (its HEADERS go out next) and seeks capacity for the
    /// data it has. Returns its key, or `None` (changing nothing) when no
    /// stream waits or no slot is free.
    fn open_next_stream(&mut self, store: &mut Store, counts: &mut SendCounts) -> (opened: Option<usize>)
        requires
            old(self).inv(old(store)),
        ensures
            final(self).inv(final(store)),
            final(store).streams@.len() == old(store).streams@.len(),
            same_queues(old(store).streams@, final(store).streams@),
            final(self).max_buffer() == old(self).max_buffer(),
            final(self).in_flight() == old(self).in_flight(),
            final(self).conn().window() == old(self).conn().window(),
            final(counts).max_send_streams == old(counts).max_send_streams,
            final(counts).is_server == old(counts).is_server,
            forall|k: usize| old(self).pending_send().contains(k) ==> #[trigger] final(self).pending_send().contains(k),
            !old(counts).spec_can_inc() || old(self).pending_open().len() == 0 ==> opened is None
                && *final(self) == *old(self) && final(store).streams@ == old(store).streams@
                && *final(counts) == *old(counts),
            old(counts).spec_can_inc() && old(self).pending_open().len() > 0 ==> ({
                let key = old(self).pending_open()[0];
                let r = Stream { is_pending_open: false, ..old(store).streams@[key as int] };
                let ns = final(store).streams@[key as int];
                &&& opened == Some(key)
                &&& final(self).pending_open() == old(self).pending_open().drop_first()
                &&& final(counts).num_send_streams == old(counts).num_send_streams + 1
                &&& final(self).pending_send().contains(key)
                &&& same_but_flow(r, ns) && ns.send_flow.window() == r.send_flow.window()
                &&& ns.send_flow.avail() == r.send_flow.avail() + sought_amount(r, old(self).conn().avail(), true)
                &&& final(self).conn().avail() == old(self).conn().avail() - sought_amount(
                    r,
                    old(self).conn().avail(),
                    true,
                )
                &&& final(self).pending_capacity() == (if wants_capacity(r) {
                    pushed(
                        old(self).pending_capacity(),
                        key,
                        ns.send_flow.avail() < ns.requested_send_capacity && ns.send_flow.spec_has_unavailable(),
                    )
                } else {
                    old(self).pending_capacity()
                })
                &&& forall|j: int|
                    0 <= j < old(store).streams@.len() && j != key ==> #[trigger] final(store).streams@[j]
                        == old(store).streams@[j]
            }),
    {
        match self.pop_pending_open(store, counts) {
            Some(key) => {
                self.push_front_to_send(key, store);
                let ghost ps1 = self.pending_send@;
                let ghost s1 = store.streams@;
                let mut none: bool = false;
                self.try_assign_capacity(key, store, &mut none);
                proof {
                    assert forall|k: usize| ps1.contains(k) implies #[trigger] self.pending_send@.contains(k) by {
                        lemma_pushed_contains(ps1, key, s1[key as int].buffered_send_data > 0, k);
                    }
                }
                Some(key)
            },
            None => None,
        }
    }

    /// What `buffer_pending` does between two calls into the codec: drops
    /// the streams that will never open (see `abort_closed_pending_open`),
    /// opens the next waiting stream when a concurrency slot is free (it
    /// goes to the front of the send queue and is offered capacity), and
    /// takes the next frame to write (see `pop_frame`). A DATA frame taken
    /// is then in flight.
    pub fn next_frame<B>(
        &mut self,
        buffer: &mut Buffer<Frame<B>>,
        store: &mut Store,
        max_len: usize,
        counts: &mut SendCounts,
    ) -> (r: Option<Prioritized<B>>)
        requires
            old(self).inv(old(store)),
            frames_ok(old(store).streams@, old(buffer)),
            old(self).in_flight() == InFlightData::Nothing,
        ensures
            final(self).inv(final(store)),
            frames_ok(final(store).streams@, final(buffer)),
            final(store).streams@.len() == old(store).streams@.len(),
            final(self).max_buffer() == old(self).max_buffer(),
            final(counts).max_send_streams == old(counts).max_send_streams,
            final(counts).is_server == old(counts).is_server,
            final(self).conn().window() == old(self).conn().window() - match r {
                Some(p) => frame_data_len(p.frame),
                None => 0,
            },
            r is None ==> final(self).pending_send().len() == 0 && final(self).in_flight() == InFlightData::Nothing,
            r is None ==> forall|j: int|
                0 <= j < old(store).streams@.len() && old(self).pending_send().contains(j as usize)
                    ==> !has_frame_to_write(
                    #[trigger] final(store).streams@[j],
                    final(store).streams@[j].pending_send.view_in(final(buffer)),
                    max_len as int,
                ),
            r matches Some(p) ==> data_frame_fits(p, max_len as int, final(store).streams@[p.stream as int]),
            r matches Some(p) ==> (old(self).pending_open().len() == 0 ==> frame_served(
                old(store).streams@[p.stream as int],
                old(store).streams@[p.stream as int].pending_send.view_in(old(buffer)),
                p,
                final(store).streams@[p.stream as int],
                final(store).streams@[p.stream as int].pending_send.view_in(final(buffer)),
                max_len as int,
                p.stream,
            )),
            r matches Some(p) ==> p.stream < final(store).streams@.len() && data_len(
                final(store).streams@[p.stream as int].pending_send.view_in(final(buffer)),
            ) + p.rest <= final(store).streams@[p.stream as int].buffered_send_data && final(self).in_flight() == (
            if p.frame is Data {
                InFlightData::DataFrame(p.stream)
            } else {
                InFlightData::Nothing
            }),
    {
        loop
            invariant
                self.inv(store),
                frames_ok(store.streams@, buffer),
                store.streams@.len() == old(store).streams@.len(),
                self.max_buffer() == old(self).max_buffer(),
                self.in_flight() == InFlightData::Nothing,
                self.conn().window() == old(self).conn().window(),
                forall|k: usize| old(self).pending_send().contains(k) ==> #[trigger] self.pending_send().contains(k),
                old(self).pending_open().len() == 0 ==> *self == *old(self) && store.streams@
                    == old(store).streams@ && buffer.slots() == old(buffer).slots(),
            ensures
                self.inv(store),
                frames_ok(store.streams@, buffer),
                store.streams@.len() == old(store).streams@.len(),
                self.max_buffer() == old(self).max_buffer(),
                self.in_flight() == InFlightData::Nothing,
                self.conn().window() == old(self).conn().window(),
                forall|k: usize| old(self).pending_send().contains(k) ==> #[trigger] self.pending_send().contains(k),
                old(self).pending_open().len() == 0 ==> *self == *old(self) && store.streams@
                    == old(store).streams@ && buffer.slots() == old(buffer).slots(),
            decreases self.pending_open().len(),
        {
            if !self.abort_closed_pending_open(buffer, store, counts) {
                break;
            }
        }
        let ghost s0 = store.streams@;
        let _opened = self.open_next_stream(store, counts);
        proof {
            lemma_frames_ok_same_queues(s0, store.streams@, buffer);
        }
        let popped = self.pop_frame(buffer, store, max_len, counts);
        match popped {
            Some(p) => {
                match p.frame {
                    Frame::Data { .. } => {
                        self.in_flight_data_frame = InFlightData::DataFrame(p.stream);
                    },
                    _ => {},
                }
                Some(p)
            },
            None => None,
        }
    }
}

/// The capacity of the first `i` streams, summed, grows by the next one's.
proof fn lemma_sum_avail_take(s: Seq<Stream>, i: int)
    requires
        0 <= i < s.len(),
    ensures
        sum_avail(s.take(i + 1)) == sum_avail(s.take(i)) + s[i].send_flow.avail(),
{
    assert(s.take(i + 1).drop_last() =~= s.take(i));
}

impl Prioritize {
    /// Checks send capacity conservation: the capacity assigned to the
    /// streams plus the connection's unassigned capacity is the connection
    /// window, and no stream waiting to open holds capacity. (`inv` implies
    /// both, so on a consistent state the answer is `true`.)
    pub fn send_capacity_conserved(&self, store: &Store) -> (r: bool)
        ensures
            r == (sum_avail(store.streams@) + self.conn().avail() == self.conn().window() && forall|i: int|
                0 <= i < store.streams@.len() ==> !((#[trigger] store.streams@[i]).is_pending_open
                    && store.streams@[i].send_flow.avail() > 0)),
    {
        let ghost s = store.streams@;
        let n: usize = store.streams.len();
        let mut sum: i128 = 0;
        let mut holds: bool = false;
        let mut i: usize = 0;
        while i < n
            invariant
                n == s.len(),
                s == store.streams@,
                i <= n,
                sum == sum_avail(s.take(i as int)),
                -0x8000_0000 * i <= sum <= 0x7fff_ffff * i,
                holds == exists|j: int| 0 <= j < i && (#[trigger] s[j]).is_pending_open && s[j].send_flow.avail() > 0,
            decreases n - i,
        {
            let st: Stream = store.streams[i];
            let a: i32 = st.send_flow.available();
            proof {
                lemma_sum_avail_take(s, i as int);
                assert(-0x8000_0000 * i - 0x8000_0000 == -0x8000_0000 * (i + 1));
                assert(0x7fff_ffff * i + 0x7fff_ffff == 0x7fff_ffff * (i + 1));
            }
            sum = sum + a as i128;
            if st.is_pending_open && a > 0 {
                holds = true;
            }
            i = i + 1;
        }
        proof {
            assert(s.take(n as int) =~= s);
        }
        let conn_avail: i128 = self.flow.available() as i128;
        let conn_window: i128 = self.flow.signed_window() as i128;
        sum + conn_avail == conn_window && !holds
    }

    /// Send capacity is conserved on every consistent state: the capacity
    /// assigned to the streams plus the connection's unassigned capacity is
    /// the connection window, and no stream waiting to open holds capacity,
    /// so `send_capacity_conserved` answers `true`.
    pub proof fn lemma_consistent_state_conserves(&self, store: &Store)
        requires
            self.inv(store),
        ensures
            sum_avail(store.streams@) + self.conn().avail() == self.conn().window(),
            forall|i: int|
                0 <= i < store.streams@.len() ==> !((#[trigger] store.streams@[i]).is_pending_open
                    && store.streams@[i].send_flow.avail() > 0),
    {
        assert forall|i: int|
            0 <= i < store.streams@.len() implies !((#[trigger] store.streams@[i]).is_pending_open
                && store.streams@[i].send_flow.avail() > 0) by {
            assert(self.slot_ok(store.streams@[i], i));
        }
    }

    /// The DATA frame in flight.
    pub fn in_flight_data(&self) -> (d: InFlightData)
        ensures
            d == self.in_flight(),
    {
        self.in_flight_data_frame
    }

    /// The connection's flow control.
    pub fn flow(&self) -> (f: FlowControl)
        ensures
            f == self.conn(),
    {
        self.flow
    }

    /// The keys waiting to send, front first.
    pub fn pending_send_keys(&self) -> (q: Vec<usize>)
        ensures
            q@ == self.pending_send(),
    {
        self.pending_send.clone()
    }

    /// The keys waiting for connection capacity, front first.
    pub fn pending_capacity_keys(&self) -> (q: Vec<usize>)
        ensures
            q@ == self.pending_capacity(),
    {
        self.pending_capacity.clone()
    }

    /// The keys waiting to open, front first.
    pub fn pending_open_keys(&self) -> (q: Vec<usize>)
        ensures
            q@ == self.pending_open(),
    {
        self.pending_open.clone()
    }
}

/// The DATA bytes a frame carries (0 for frames other than DATA).
pub open spec fn frame_data_len<B>(f: Frame<B>) -> int {
    match f {
        Frame::Data { len, .. } => len as int,
        _ => 0,
    }
}

/// The DATA bytes the frames of `v` carry, summed.
pub open spec fn data_len<B>(v: Seq<Frame<B>>) -> int
    decreases v.len(),
{
    if v.len() == 0 {
        0
    } else {
        data_len(v.drop_last()) + frame_data_len(v.last())
    }
}

/// Putting a frame in front adds its DATA bytes.
pub proof fn lemma_data_len_front<B>(f: Frame<B>, v: Seq<Frame<B>>)
    ensures
        data_len(seq![f] + v) == frame_data_len(f) + data_len(v),
        data_len(v) >= 0,
    decreases v.len(),
{
    let w = seq![f] + v;
    if v.len() > 0 {
        assert(w.drop_last() =~= seq![f] + v.drop_last());
        assert(w.last() == v.last());
        lemma_data_len_front(f, v.drop_last());
    } else {
        assert(w.drop_last() =~= Seq::<Frame<B>>::empty());
        assert(w.last() == f);
        assert(data_len(w.drop_last()) == 0);
        assert(data_len(v) == 0);
    }
}

/// Appending a frame adds its DATA bytes.
pub proof fn lemma_data_len_push<B>(v: Seq<Frame<B>>, f: Frame<B>)
    ensures
        data_len(v.push(f)) == data_len(v) + frame_data_len(f),
{
    assert(v.push(f).drop_last() =~= v);
}

/// Taking the first frame off takes its DATA bytes off.
pub proof fn lemma_data_len_drop_first<B>(v: Seq<Frame<B>>)
    requires
        v.len() > 0,
    ensures
        data_len(v) == frame_data_len(v[0]) + data_len(v.drop_first()),
        data_len(v.drop_first()) >= 0,
{
    assert(v =~= seq![v[0]] + v.drop_first());
    lemma_data_len_front(v[0], v.drop_first());
}

/// The streams' frame queues live in `buf`: each is a well-formed list there
/// whose DATA is counted in the stream's buffered bytes, no two share a slot,
/// and the buffer holds finitely many slots.
pub open spec fn frames_ok<B>(streams: Seq<Stream>, buf: &Buffer<Frame<B>>) -> bool {
    &&& buf.slots().dom().finite()
    &&& forall|i: int|
        0 <= i < streams.len() ==> (#[trigger] streams[i]).pending_send.wf_in(buf) && data_len(
            streams[i].pending_send.view_in(buf),
        ) <= streams[i].buffered_send_data
    &&& forall|i: int, j: int, a: int, b: int|
        0 <= i < streams.len() && 0 <= j < streams.len() && i != j && 0 <= a
            < streams[i].pending_send.keys().len() && 0 <= b < streams[j].pending_send.keys().len()
            ==> #[trigger] streams[i].pending_send.keys()[a]
            != #[trigger] streams[j].pending_send.keys()[b]
}

/// `b` holds the same number of streams as `a`, each with the same frame
/// queue and at least as many buffered bytes.
pub open spec fn same_queues(a: Seq<Stream>, b: Seq<Stream>) -> bool {
    &&& a.len() == b.len()
    &&& forall|i: int|
        0 <= i < a.len() ==> (#[trigger] b[i]).pending_send == a[i].pending_send
            && b[i].buffered_send_data >= a[i].buffered_send_data
}

/// Operations that keep every frame queue keep the frame invariant.
pub proof fn lemma_frames_ok_same_queues<B>(a: Seq<Stream>, b: Seq<Stream>, buf: &Buffer<Frame<B>>)
    requires
        frames_ok(a, buf),
        same_queues(a, b),
    ensures
        frames_ok(b, buf),
{
    assert forall|i: int| 0 <= i < b.len() implies (#[trigger] b[i]).pending_send.wf_in(buf)
        && data_len(b[i].pending_send.view_in(buf)) <= b[i].buffered_send_data by {
        assert(b[i].pending_send == a[i].pending_send);
    }
    assert forall|i: int, j: int, x: int, y: int|
        0 <= i < b.len() && 0 <= j < b.len() && i != j && 0 <= x < b[i].pending_send.keys().len()
            && 0 <= y < b[j].pending_send.keys().len() implies #[trigger] b[i].pending_send.keys()[x]
        != #[trigger] b[j].pending_send.keys()[y] by {
        assert(b[i].pending_send == a[i].pending_send);
        assert(b[j].pending_send == a[j].pending_send);
        assert(a[i].pending_send.keys()[x] != a[j].pending_send.keys()[y]);
    }
}

/// Replacing one stream by one with the same frame queue keeps the frame
/// invariant as long as its buffered bytes still cover the queued DATA.
pub proof fn lemma_frames_ok_set<B>(s: Seq<Stream>, buf: &Buffer<Frame<B>>, key: int, st: Stream)
    requires
        frames_ok(s, buf),
        0 <= key < s.len(),
        st.pending_send == s[key].pending_send,
        data_len(st.pending_send.view_in(buf)) <= st.buffered_send_data,
    ensures
        frames_ok(s.update(key, st), buf),
{
    let t = s.update(key, st);
    assert forall|i: int, j: int, x: int, y: int|
        0 <= i < t.len() && 0 <= j < t.len() && i != j && 0 <= x < t[i].pending_send.keys().len()
            && 0 <= y < t[j].pending_send.keys().len() implies #[trigger] t[i].pending_send.keys()[x]
        != #[trigger] t[j].pending_send.keys()[y] by {
        assert(t[i].pending_send == s[i].pending_send);
        assert(t[j].pending_send == s[j].pending_send);
        assert(s[i].pending_send.keys()[x] != s[j].pending_send.keys()[y]);
    }
}

/// Every frame queue but the one of stream `key` holds the same frames in
/// `after` as in `before`.
pub open spec fn other_views_kept<B>(
    s: Seq<Stream>,
    before: &Buffer<Frame<B>>,
    after: &Buffer<Frame<B>>,
    key: int,
) -> bool {
    forall|i: int|
        0 <= i < s.len() && i != key ==> (#[trigger] s[i]).pending_send.view_in(after) == s[i].pending_send.view_in(
            before,
        )
}

/// Changing one stream's frame queue with a deque operation keeps the frame
/// invariant: the other queues' slots were left alone, and the changed queue
/// only holds its old keys or keys that were vacant.
pub proof fn lemma_frames_ok_update<B>(
    s: Seq<Stream>,
    before: &Buffer<Frame<B>>,
    after: &Buffer<Frame<B>>,
    key: int,
    st: Stream,
)
    requires
        frames_ok(s, before),
        0 <= key < s.len(),
        st.pending_send.wf_in(after),
        data_len(st.pending_send.view_in(after)) <= st.buffered_send_data,
        after.slots().dom().finite(),
        unchanged_outside(before.slots(), after.slots(), s[key].pending_send.keys()),
        forall|a: int|
            0 <= a < st.pending_send.keys().len() ==> s[key].pending_send.keys().contains(
                #[trigger] st.pending_send.keys()[a],
            ) || !before.slots().dom().contains(st.pending_send.keys()[a]),
    ensures
        frames_ok(s.update(key, st), after),
        other_views_kept(s, before, after, key),
{
    let t = s.update(key, st);
    let changed = s[key].pending_send.keys();
    assert forall|i: int| 0 <= i < t.len() implies (#[trigger] t[i]).pending_send.wf_in(after)
        && data_len(t[i].pending_send.view_in(after)) <= t[i].buffered_send_data
        && (i != key ==> t[i].pending_send.view_in(after) == s[i].pending_send.view_in(before)) by {
        if i != key {
            assert(t[i] == s[i]);
            assert forall|a: int| 0 <= a < s[i].pending_send.keys().len() implies !changed.contains(
                #[trigger] s[i].pending_send.keys()[a],
            ) by {
                if changed.contains(s[i].pending_send.keys()[a]) {
                    let b = choose|b: int| 0 <= b < changed.len() && changed[b] == s[i].pending_send.keys()[a];
                    assert(s[i].pending_send.keys()[a] != s[key].pending_send.keys()[b]);
                }
            }
            lemma_other_deque_unchanged(s[i].pending_send, changed, before, after);
        }
    }
    assert forall|i: int| 0 <= i < s.len() && i != key implies (#[trigger] s[i]).pending_send.view_in(after)
        == s[i].pending_send.view_in(before) by {
        assert(t[i] == s[i]);
    }
    assert forall|i: int, j: int, x: int, y: int|
        0 <= i < t.len() && 0 <= j < t.len() && i != j && 0 <= x < t[i].pending_send.keys().len()
            && 0 <= y < t[j].pending_send.keys().len() implies #[trigger] t[i].pending_send.keys()[x]
        != #[trigger] t[j].pending_send.keys()[y] by {
        if i != key && j != key {
            assert(t[i] == s[i] && t[j] == s[j]);
        } else if i == key {
            assert(t[j] == s[j]);
            let k = st.pending_send.keys()[x];
            assert(before.slots().dom().contains(s[j].pending_send.keys()[y]));
            if changed.contains(k) {
                let b = choose|b: int| 0 <= b < changed.len() && changed[b] == k;
                assert(s[key].pending_send.keys()[b] != s[j].pending_send.keys()[y]);
            }
        } else {
            assert(t[i] == s[i]);
            let k = st.pending_send.keys()[y];
            assert(before.slots().dom().contains(s[i].pending_send.keys()[x]));
            if changed.contains(k) {
                let b = choose|b: int| 0 <= b < changed.len() && changed[b] == k;
                assert(s[i].pending_send.keys()[x] != s[key].pending_send.keys()[b]);
            }
        }
    }
}

/// Appends `frame` to the stream's queue.
fn push_frame_back<B>(buffer: &mut Buffer<Frame<B>>, store: &mut Store, key: usize, frame: Frame<B>)
    requires
        frames_ok(old(store).streams@, old(buffer)),
        key < old(store).streams@.len(),
        data_len(old(store).streams@[key as int].pending_send.view_in(old(buffer))) + frame_data_len(frame)
            <= old(store).streams@[key as int].buffered_send_data,
    ensures
        frames_ok(final(store).streams@, final(buffer)),
        other_views_kept(old(store).streams@, old(buffer), final(buffer), key as int),
        final(store).streams@ == old(store).streams@.update(
            key as int,
            Stream {
                pending_send: final(store).streams@[key as int].pending_send,
                ..old(store).streams@[key as int]
            },
        ),
        final(store).streams@[key as int].pending_send.view_in(final(buffer)) == old(store).streams@[key as int].pending_send.view_in(old(buffer)).push(frame),
{
    let ghost s = store.streams@;
    let mut st: Stream = store.streams[key];
    st.pending_send.push_back(buffer, frame);
    store.streams.set(key, st);
    proof {
        let k = st.pending_send.keys().last();
        assert forall|a: int| 0 <= a < st.pending_send.keys().len() implies s[key as int].pending_send.keys().contains(
            #[trigger] st.pending_send.keys()[a],
        ) || !old(buffer).slots().dom().contains(st.pending_send.keys()[a]) by {
            if a < s[key as int].pending_send.keys().len() {
                assert(st.pending_send.keys()[a] == s[key as int].pending_send.keys()[a]);
            }
        }
        lemma_data_len_push(s[key as int].pending_send.view_in(old(buffer)), frame);
        lemma_frames_ok_update(s, old(buffer), buffer, key as int, st);
    }
}

/// Puts `frame` at the front of the stream's queue.
fn push_frame_front<B>(buffer: &mut Buffer<Frame<B>>, store: &mut Store, key: usize, frame: Frame<B>)
    requires
        frames_ok(old(store).streams@, old(buffer)),
        key < old(store).streams@.len(),
        data_len(old(store).streams@[key as int].pending_send.view_in(old(buffer))) + frame_data_len(frame)
            <= old(store).streams@[key as int].buffered_send_data,
    ensures
        frames_ok(final(store).streams@, final(buffer)),
        other_views_kept(old(store).streams@, old(buffer), final(buffer), key as int),
        final(store).streams@ == old(store).streams@.update(
            key as int,
            Stream {
                pending_send: final(store).streams@[key as int].pending_send,
                ..old(store).streams@[key as int]
            },
        ),
        final(store).streams@[key as int].pending_send.view_in(final(buffer)) == seq![frame]
            + old(store).streams@[key as int].pending_send.view_in(old(buffer)),
        final(buffer).slots().dom().len() == old(buffer).slots().dom().len() + 1,
{
    let ghost s = store.streams@;
    let mut st: Stream = store.streams[key];
    st.pending_send.push_front(buffer, frame);
    store.streams.set(key, st);
    proof {
        assert forall|a: int| 0 <= a < st.pending_send.keys().len() implies s[key as int].pending_send.keys().contains(
            #[trigger] st.pending_send.keys()[a],
        ) || !old(buffer).slots().dom().contains(st.pending_send.keys()[a]) by {
            if a > 0 {
                assert(st.pending_send.keys()[a] == s[key as int].pending_send.keys()[a - 1]);
            }
        }
        lemma_data_len_front(frame, s[key as int].pending_send.view_in(old(buffer)));
        lemma_frames_ok_update(s, old(buffer), buffer, key as int, st);
    }
}

/// Takes the first frame off the stream's queue.
fn pop_frame_front<B>(buffer: &mut Buffer<Frame<B>>, store: &mut Store, key: usize) -> (r: Option<Frame<B>>)
    requires
        frames_ok(old(store).streams@, old(buffer)),
        key < old(store).streams@.len(),
    ensures
        frames_ok(final(store).streams@, final(buffer)),
        other_views_kept(old(store).streams@, old(buffer), final(buffer), key as int),
        final(store).streams@ == old(store).streams@.update(
            key as int,
            Stream {
                pending_send: final(store).streams@[key as int].pending_send,
                ..old(store).streams@[key as int]
            },
        ),
        ({
            let v = old(store).streams@[key as int].pending_send.view_in(old(buffer));
            &&& v.len() == 0 ==> r is None && final(store).streams@ == old(store).streams@
                && final(buffer).slots() == old(buffer).slots()
            &&& v.len() > 0 ==> r == Some(v[0])
                && final(store).streams@[key as int].pending_send.view_in(final(buffer))
                == v.drop_first() && final(buffer).slots().dom().len() + 1 == old(buffer).slots().dom().len()
        }),
        final(buffer).slots().dom().subset_of(old(buffer).slots().dom()),
{
    let ghost s = store.streams@;
    let mut st: Stream = store.streams[key];
    let r = st.pending_send.pop_front(buffer);
    store.streams.set(key, st);
    proof {
        let ok = s[key as int].pending_send.keys();
        assert forall|a: int| 0 <= a < st.pending_send.keys().len() implies ok.contains(
            #[trigger] st.pending_send.keys()[a],
        ) || !old(buffer).slots().dom().contains(st.pending_send.keys()[a]) by {
            assert(st.pending_send.keys()[a] == ok[a + 1]);
        }
        if ok.len() > 0 {
            assert(old(buffer).slots().dom().contains(ok[0]));
            assert(buffer.slots().dom() == old(buffer).slots().dom().remove(ok[0]));
            lemma_data_len_drop_first(s[key as int].pending_send.view_in(old(buffer)));
        } else {
            assert(store.streams@ =~= s);
        }
        lemma_frames_ok_update(s, old(buffer), buffer, key as int, st);
    }
    r
}

/// Takes every frame off the stream's queue.
fn drain_frames<B>(buffer: &mut Buffer<Frame<B>>, store: &mut Store, key: usize)
    requires
        frames_ok(old(store).streams@, old(buffer)),
        key < old(store).streams@.len(),
    ensures
        frames_ok(final(store).streams@, final(buffer)),
        other_views_kept(old(store).streams@, old(buffer), final(buffer), key as int),
        final(store).streams@ == old(store).streams@.update(
            key as int,
            Stream {
                pending_send: final(store).streams@[key as int].pending_send,
                ..old(store).streams@[key as int]
            },
        ),
        final(store).streams@[key as int].pending_send.view_in(final(buffer)).len() == 0,
        final(buffer).slots().dom().subset_of(old(buffer).slots().dom()),
{
    loop
        invariant
            frames_ok(store.streams@, buffer),
            key < store.streams@.len(),
            key < old(store).streams@.len(),
            store.streams@ == old(store).streams@.update(
                key as int,
                Stream {
                    pending_send: store.streams@[key as int].pending_send,
                    ..old(store).streams@[key as int]
                },
            ),
            buffer.slots().dom().subset_of(old(buffer).slots().dom()),
            other_views_kept(old(store).streams@, old(buffer), buffer, key as int),
        ensures
            frames_ok(store.streams@, buffer),
            store.streams@ == old(store).streams@.update(
                key as int,
                Stream {
                    pending_send: store.streams@[key as int].pending_send,
                    ..old(store).streams@[key as int]
                },
            ),
            store.streams@[key as int].pending_send.view_in(buffer).len() == 0,
            buffer.slots().dom().subset_of(old(buffer).slots().dom()),
            other_views_kept(old(store).streams@, old(buffer), buffer, key as int),
        decreases buffer.slots().dom().len(),
    {
        let ghost sb = store.streams@;
        let ghost bb = *buffer;
        let popped = pop_frame_front(buffer, store, key);
        proof {
            assert forall|j: int| 0 <= j < old(store).streams@.len() && j != key implies (
            #[trigger] old(store).streams@[j]).pending_send.view_in(buffer) == old(store).streams@[j].pending_send.view_in(
                old(buffer),
            ) by {
                assert(sb[j] == old(store).streams@[j]);
            }
            assert(store.streams@ =~= old(store).streams@.update(
                key as int,
                Stream {
                    pending_send: store.streams@[key as int].pending_send,
                    ..old(store).streams@[key as int]
                },
            ));
        }
        match popped {
            Some(_) => {},
            None => {
                break;
            },
        }
    }
}

} // verus!
