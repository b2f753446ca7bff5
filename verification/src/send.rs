//! The send side of a connection: stream-id allocation, the peer's
//! settings, and the checks made before frames are handed to the
//! prioritization layer.

use vstd::prelude::*;
use crate::flow::{as_size, Reason, WindowSize, MAX_WINDOW_SIZE};
use crate::headers::{check_headers, contains_content_length, has_content_length, headers_malformed};
use crate::buffer::Buffer;
use crate::prioritize::{
    data_len, frames_ok, lemma_frames_ok_same_queues, same_queues, sum_avail, min_int, only_gained_capacity, within_window, has_frame_to_write, data_frame_fits, frame_served, capacity_sought, sought_amount, with_buffered, wants_capacity,
    pushed, sat_sub, Config, Frame, InFlightData, Prioritize, Prioritized, SendCounts, SendState, Store, Stream,
    UserError,
};

verus! {

/// The largest stream identifier: 2^31 - 1.
pub const STREAM_ID_MAX: u32 = 2147483647;

/// A stream identifier: 31 bits, the high bit of the wire field clear.
#[derive(PartialEq, Eq, Structural, Debug, Clone, Copy)]
pub struct StreamId {
    id: u32,
}

/// No stream identifier is left to allocate.
#[derive(PartialEq, Eq, Structural, Debug, Clone, Copy)]
pub struct StreamIdOverflow;

impl StreamId {
    #[verifier::type_invariant]
    spec fn fits(self) -> bool {
        self.id <= STREAM_ID_MAX
    }

    /// The identifier's value.
    pub closed spec fn value(self) -> u32 {
        self.id
    }

    /// A stream identifier from its value, which must leave the high bit
    /// clear.
    pub fn new(id: u32) -> (s: Self)
        requires
            id <= STREAM_ID_MAX,
        ensures
            s.value() == id,
    {
        StreamId { id }
    }

    pub fn get(&self) -> (v: u32)
        ensures
            v == self.value(),
            v <= STREAM_ID_MAX,
    {
        proof {
            use_type_invariant(self);
        }
        self.id
    }

    /// The next identifier of the same parity, two above this one, or an
    /// overflow when that passes the largest identifier.
    pub fn next_id(&self) -> (r: Result<StreamId, StreamIdOverflow>)
        ensures
            self.value() + 2 <= STREAM_ID_MAX ==> (r matches Ok(n) && n.value() == self.value() + 2),
            self.value() + 2 > STREAM_ID_MAX ==> r is Err,
    {
        proof {
            use_type_invariant(self);
        }
        let next: u32 = self.id + 2;
        if next > STREAM_ID_MAX {
            Err(StreamIdOverflow)
        } else {
            Ok(StreamId { id: next })
        }
    }

    /// Streams opened by a server have even, non-zero identifiers.
    pub fn is_server_initiated(&self) -> (r: bool)
        ensures
            r == (self.value() != 0 && self.value() % 2 == 0),
    {
        self.id != 0 && self.id % 2 == 0
    }
}

/// `r` is what `next_id` gives for `id`: the identifier two above it, or
/// an overflow past the largest identifier.
pub open spec fn follows(r: Result<StreamId, StreamIdOverflow>, id: StreamId) -> bool {
    if id.value() + 2 <= STREAM_ID_MAX {
        r matches Ok(n) && n.value() == id.value() + 2
    } else {
        r is Err
    }
}

/// `b` keeps `a`'s stream ids and settings; only the prioritization layer
/// may differ.
pub open spec fn same_settings(a: Send, b: Send) -> bool {
    &&& b.next_id() == a.next_id()
    &&& b.max_id() == a.max_id()
    &&& b.init_window() == a.init_window()
    &&& b.push_enabled() == a.push_enabled()
    &&& b.connect_protocol_enabled() == a.connect_protocol_enabled()
}

/// Connection-level errors of the send side: the connection is closed with
/// a GOAWAY carrying the reason.
#[derive(PartialEq, Eq, Structural, Debug, Clone, Copy)]
pub enum ProtoError {
    LibraryGoAway(Reason),
}

/// The SETTINGS parameters the send side applies; `None` for one the frame
/// leaves out.
pub struct Settings {
    pub initial_window_size: Option<u32>,
    pub enable_push: Option<bool>,
    pub enable_connect_protocol: Option<bool>,
}

/// What a caller of `poll_reset` is waiting on.
#[derive(PartialEq, Eq, Structural, Debug, Clone, Copy)]
pub enum PollReset {
    /// The response headers are not sent yet.
    AwaitingHeaders,
    /// The stream streams.
    Streaming,
}

/// Result of a poll: a value, or not yet.
#[derive(PartialEq, Eq, Structural, Debug, Clone, Copy)]
pub enum Poll<T> {
    Ready(T),
    Pending,
}

/// Manages state transitions related to outbound frames.
pub struct Send {
    /// Stream identifier to use for the next locally initiated stream.
    next_stream_id: Result<StreamId, StreamIdOverflow>,
    /// Streams above this identifier are ignored; lowered by GOAWAY.
    max_stream_id: StreamId,
    /// Initial window size of locally initiated streams.
    init_window_sz: WindowSize,
    /// Prioritization layer.
    prioritize: Prioritize,
    is_push_enabled: bool,
    /// Whether the peer allows the extended CONNECT protocol.
    is_extended_connect_protocol_enabled: bool,
}

impl Send {
    pub closed spec fn next_id(&self) -> Result<StreamId, StreamIdOverflow> {
        self.next_stream_id
    }

    pub closed spec fn max_id(&self) -> StreamId {
        self.max_stream_id
    }

    pub closed spec fn init_window(&self) -> WindowSize {
        self.init_window_sz
    }

    pub closed spec fn push_enabled(&self) -> bool {
        self.is_push_enabled
    }

    pub closed spec fn connect_protocol_enabled(&self) -> bool {
        self.is_extended_connect_protocol_enabled
    }

    pub closed spec fn prio(&self) -> Prioritize {
        self.prioritize
    }

    /// Create a new `Send`.
    pub fn new(config: &Config) -> (s: Self)
        requires
            config.remote_init_window_sz <= MAX_WINDOW_SIZE,
        ensures
            s.init_window() == config.remote_init_window_sz,
            s.max_id().value() == STREAM_ID_MAX,
            s.next_id() == Ok::<StreamId, StreamIdOverflow>(config.local_next_stream_id),
            s.push_enabled(),
            !s.connect_protocol_enabled(),
            s.prio().conn().window() == config.remote_init_window_sz,
            s.prio().conn().avail() == config.remote_init_window_sz,
            s.prio().pending_send().len() == 0,
            s.prio().pending_capacity().len() == 0,
            s.prio().pending_open().len() == 0,
            s.prio().max_buffer() == config.local_max_buffer_size,
    {
        Send {
            init_window_sz: config.remote_init_window_sz,
            max_stream_id: StreamId::new(STREAM_ID_MAX),
            next_stream_id: Ok(config.local_next_stream_id),
            prioritize: Prioritize::new(config),
            is_push_enabled: true,
            is_extended_connect_protocol_enabled: false,
        }
    }

    /// Returns the initial send window size.
    pub fn init_window_sz(&self) -> (w: WindowSize)
        ensures
            w == self.init_window(),
    {
        self.init_window_sz
    }

    pub fn is_push_enabled(&self) -> (r: bool)
        ensures
            r == self.push_enabled(),
    {
        self.is_push_enabled
    }

    pub fn is_extended_connect_protocol_enabled(&self) -> (r: bool)
        ensures
            r == self.connect_protocol_enabled(),
    {
        self.is_extended_connect_protocol_enabled
    }

    /// The identifier the next locally initiated stream gets, or
    /// `OverflowedStreamId` once they are used up.
    pub fn ensure_next_stream_id(&self) -> (r: Result<StreamId, UserError>)
        ensures
            self.next_id() matches Ok(id) ==> r == Ok::<StreamId, UserError>(id),
            self.next_id() is Err ==> r == Err::<StreamId, UserError>(UserError::OverflowedStreamId),
    {
        match self.next_stream_id {
            Ok(id) => Ok(id),
            Err(_) => Err(UserError::OverflowedStreamId),
        }
    }

    /// Allocates the identifier of a new locally initiated stream and moves
    /// on to the next one.
    pub fn open(&mut self) -> (r: Result<StreamId, UserError>)
        ensures
            old(self).next_id() matches Ok(id) ==> r == Ok::<StreamId, UserError>(id)
                && follows(final(self).next_id(), id),
            old(self).next_id() is Err ==> r == Err::<StreamId, UserError>(
                UserError::OverflowedStreamId,
            ) && *final(self) == *old(self),
            final(self).max_id() == old(self).max_id(),
            final(self).init_window() == old(self).init_window(),
            final(self).push_enabled() == old(self).push_enabled(),
            final(self).connect_protocol_enabled() == old(self).connect_protocol_enabled(),
            final(self).prio() == old(self).prio(),
    {
        let stream_id = self.ensure_next_stream_id()?;
        self.next_stream_id = stream_id.next_id();
        Ok(stream_id)
    }

    /// Allocates the identifier of a stream reserved by a local
    /// PUSH_PROMISE, exactly as `open` does.
    pub fn reserve_local(&mut self) -> (r: Result<StreamId, UserError>)
        ensures
            old(self).next_id() matches Ok(id) ==> r == Ok::<StreamId, UserError>(id)
                && follows(final(self).next_id(), id),
            old(self).next_id() is Err ==> r == Err::<StreamId, UserError>(
                UserError::OverflowedStreamId,
            ) && *final(self) == *old(self),
            final(self).max_id() == old(self).max_id(),
            final(self).init_window() == old(self).init_window(),
            final(self).push_enabled() == old(self).push_enabled(),
            final(self).connect_protocol_enabled() == old(self).connect_protocol_enabled(),
            final(self).prio() == old(self).prio(),
    {
        let stream_id = self.ensure_next_stream_id()?;
        self.next_stream_id = stream_id.next_id();
        Ok(stream_id)
    }

    /// A frame on a locally initiated stream that was never opened is a
    /// protocol error: its identifier is at or above the next one to
    /// allocate. After the identifiers overflowed every stream counts as
    /// opened.
    pub fn ensure_not_idle(&self, id: StreamId) -> (r: Result<(), Reason>)
        ensures
            (self.next_id() matches Ok(next) && id.value() >= next.value()) ==> r == Err::<
                (),
                Reason,
            >(Reason::ProtocolError),
            !(self.next_id() matches Ok(next) && id.value() >= next.value()) ==> r is Ok,
    {
        if let Ok(next) = self.next_stream_id {
            if id.get() >= next.get() {
                return Err(Reason::ProtocolError);
            }
        }
        Ok(())
    }

    /// Whether a locally initiated stream with this identifier may have been
    /// opened: it is below the next identifier, or identifiers overflowed.
    pub fn may_have_created_stream(&self, id: StreamId) -> (r: bool)
        ensures
            self.next_id() matches Ok(next) ==> r == (id.value() < next.value()),
            self.next_id() is Err ==> r,
    {
        if let Ok(next_id) = self.next_stream_id {
            id.get() < next_id.get()
        } else {
            true
        }
    }

    /// Moves the next identifier past `id` when `id` is not below it.
    pub fn maybe_reset_next_stream_id(&mut self, id: StreamId)
        ensures
            (old(self).next_id() matches Ok(next) && id.value() >= next.value()) ==> follows(final(self).next_id(), id),
            !(old(self).next_id() matches Ok(next) && id.value() >= next.value()) ==> final(self).next_id() == old(self).next_id(),
            final(self).max_id() == old(self).max_id(),
            final(self).init_window() == old(self).init_window(),
            final(self).push_enabled() == old(self).push_enabled(),
            final(self).connect_protocol_enabled() == old(self).connect_protocol_enabled(),
            final(self).prio() == old(self).prio(),
    {
        if let Ok(next_id) = self.next_stream_id {
            if id.get() >= next_id.get() {
                self.next_stream_id = id.next_id();
            }
        }
    }

    /// Applies a received GOAWAY: streams above `last_stream_id` are ignored
    /// from now on. A last stream id above the current limit is a protocol
    /// error, and the limit stays.
    pub fn recv_go_away(&mut self, last_stream_id: StreamId) -> (r: Result<(), ProtoError>)
        ensures
            last_stream_id.value() > old(self).max_id().value() ==> r == Err::<(), ProtoError>(
                ProtoError::LibraryGoAway(Reason::ProtocolError),
            ) && *final(self) == *old(self),
            last_stream_id.value() <= old(self).max_id().value() ==> r is Ok && final(self).max_id()
                == last_stream_id,
            final(self).next_id() == old(self).next_id(),
            final(self).init_window() == old(self).init_window(),
            final(self).push_enabled() == old(self).push_enabled(),
            final(self).connect_protocol_enabled() == old(self).connect_protocol_enabled(),
            final(self).prio() == old(self).prio(),
    {
        if last_stream_id.get() > self.max_stream_id.get() {
            return Err(ProtoError::LibraryGoAway(Reason::ProtocolError));
        }
        self.max_stream_id = last_stream_id;
        Ok(())
    }
}

impl Stream {
    /// Opens the send side by sending HEADERS: a stream awaiting its headers
    /// starts streaming, or closes its send side at once when the headers end
    /// the stream. Any other state refuses HEADERS.
    pub fn send_open(&mut self, end_stream: bool) -> (r: Result<(), UserError>)
        ensures
            old(self).state == SendState::Idle ==> r is Ok && *final(self) == (Stream {
                state: if !end_stream {
                    SendState::Streaming
                } else if old(self).remote_closed {
                    SendState::Closed
                } else {
                    SendState::HalfClosed
                },
                ..*old(self)
            }),
            old(self).state != SendState::Idle ==> r == Err::<(), UserError>(
                UserError::UnexpectedFrameType,
            ) && *final(self) == *old(self),
    {
        match self.state {
            SendState::Idle => {
                self.state = if !end_stream {
                    SendState::Streaming
                } else if self.remote_closed {
                    SendState::Closed
                } else {
                    SendState::HalfClosed
                };
                Ok(())
            },
            _ => Err(UserError::UnexpectedFrameType),
        }
    }
}

impl Send {
    /// The send side is consistent with the store: the prioritization
    /// layer's invariant holds and the initial window is a valid window.
    pub open spec fn inv(&self, store: &Store) -> bool {
        &&& self.prio().inv(store)
        &&& self.init_window() <= MAX_WINDOW_SIZE
    }

    /// Current capacity the stream's owner may still buffer.
    pub fn capacity(&self, key: usize, store: &Store) -> (c: WindowSize)
        requires
            self.inv(store),
            key < store.streams@.len(),
        ensures
            c == store.streams@[key as int].spec_capacity(self.prio().max_buffer()),
    {
        let stream: Stream = store.streams[key];
        assert(self.prio().slot_ok(store.streams@[key as int], key as int));
        stream.capacity(self.prioritize.max_buffer_size())
    }

    /// Polls for capacity: nothing more once the stream stops streaming,
    /// `Pending` while the usable capacity is 0, else that capacity. Either
    /// of the last two clears the stream's capacity-increase flag.
    pub fn poll_capacity(&mut self, key: usize, store: &mut Store) -> (r: Poll<
        Option<Result<WindowSize, UserError>>,
    >)
        requires
            old(self).inv(old(store)),
            key < old(store).streams@.len(),
        ensures
            final(self).inv(final(store)),
            *final(self) == *old(self),
            ({
                let s = old(store).streams@[key as int];
                let c = s.spec_capacity(old(self).prio().max_buffer());
                &&& !s.state.spec_is_send_streaming() ==> r == Poll::<
                    Option<Result<WindowSize, UserError>>,
                >::Ready(None) && final(store).streams@ == old(store).streams@
                &&& s.state.spec_is_send_streaming() ==> final(store).streams@ == old(store).streams@.update(key as int, Stream { send_capacity_inc: false, ..s }) && (c
                    == 0 ==> r == Poll::<Option<Result<WindowSize, UserError>>>::Pending) && (c
                    > 0 ==> r == Poll::Ready(Some(Ok::<WindowSize, UserError>(c as WindowSize))))
            }),
    {
        let mut stream: Stream = store.streams[key];
        if !stream.state.is_send_streaming() {
            return Poll::Ready(None);
        }
        assert(self.prio().slot_ok(store.streams@[key as int], key as int));
        let capacity: WindowSize = stream.capacity(self.prioritize.max_buffer_size());
        let ghost old_streams = store.streams@;
        stream.send_capacity_inc = false;
        store.streams.set(key, stream);
        proof {
            crate::prioritize::lemma_sum_avail_update(old_streams, key as int, stream);
            let s = store.streams@;
            assert forall|i: int| 0 <= i < s.len() implies self.prio().slot_ok(#[trigger] s[i], i) by {
                if i != key {
                    assert(s[i] == old_streams[i]);
                } else {
                    assert(self.prio().slot_ok(old_streams[i], i));
                }
            }
        }
        if capacity == 0 {
            Poll::Pending
        } else {
            Poll::Ready(Some(Ok(capacity)))
        }
    }

    /// Polls for the stream's reset: its reason once the stream is reset
    /// (or its reset is scheduled); an error when the caller still awaits
    /// the response headers but the stream already streams; otherwise not
    /// yet.
    pub fn poll_reset(&self, stream: &Stream, mode: PollReset) -> (r: Poll<Result<Reason, UserError>>)
        ensures
            stream.reset matches Some(reason) ==> r == Poll::Ready(Ok::<Reason, UserError>(reason)),
            stream.reset is None && stream.state == SendState::Streaming && mode == PollReset::AwaitingHeaders
                ==> r == Poll::Ready(Err::<Reason, UserError>(UserError::PollResetAfterSendResponse)),
            stream.reset is None && !(stream.state == SendState::Streaming && mode
                == PollReset::AwaitingHeaders) ==> r == Poll::<Result<Reason, UserError>>::Pending,
    {
        match stream.reset {
            Some(reason) => Poll::Ready(Ok(reason)),
            None => {
                if stream.state.is_send_streaming() {
                    match mode {
                        PollReset::AwaitingHeaders => {
                            return Poll::Ready(Err(UserError::PollResetAfterSendResponse));
                        },
                        PollReset::Streaming => {},
                    }
                }
                Poll::Pending
            },
        }
    }

    /// Request capacity to send data.
    pub fn reserve_capacity(
        &mut self,
        capacity: WindowSize,
        key: usize,
        store: &mut Store,
        task: &mut bool,
    )
        requires
            old(self).inv(old(store)),
            key < old(store).streams@.len(),
            capacity + old(store).streams@[key as int].buffered_send_data <= usize::MAX,
        ensures
            final(self).inv(final(store)),
            final(store).streams@.len() == old(store).streams@.len(),
            same_settings(*old(self), *final(self)),
            forall|k: usize|
                old(self).prio().pending_capacity().contains(k) && k != key
                    && !final(self).prio().pending_capacity().contains(k) ==> !wants_capacity(
                    #[trigger] final(store).streams@[k as int],
                ),
            ({
                let s = old(store).streams@[key as int];
                let t = crate::prioritize::target_capacity(s, capacity);
                let ns = final(store).streams@[key as int];
                &&& t < s.requested_send_capacity ==> ns.requested_send_capacity == t
                    && ns.send_flow.avail() == min_int(s.send_flow.avail(), t)
                &&& t < s.requested_send_capacity && s.send_flow.avail() > t ==> final(self).prio().conn().avail()
                    == 0 || final(self).prio().pending_capacity().len() == 0
                &&& t > s.requested_send_capacity && !s.state.spec_is_send_closed() ==> capacity_sought(
                    Stream { requested_send_capacity: ns.requested_send_capacity, ..s },
                    ns,
                    old(self).prio().conn().avail(),
                    final(self).prio().conn().avail(),
                    old(self).prio().pending_capacity(),
                    final(self).prio().pending_capacity(),
                    old(self).prio().pending_send(),
                    final(self).prio().pending_send(),
                    key,
                    true,
                )
                &&& t > s.requested_send_capacity && !s.state.spec_is_send_closed()
                    ==> ns.requested_send_capacity == t
                &&& (t == s.requested_send_capacity || (t > s.requested_send_capacity
                    && s.state.spec_is_send_closed())) ==> final(store).streams@ == old(store).streams@
            }),
    {
        self.prioritize.reserve_capacity(capacity, key, store, task)
    }

    /// Sends a DATA frame of `sz` bytes; see `Prioritize::send_data`.
    pub fn send_data<B>(
        &mut self,
        payload: B,
        sz: usize,
        end_stream: bool,
        buffer: &mut Buffer<Frame<B>>,
        key: usize,
        store: &mut Store,
        task: &mut bool,
    ) -> (r: Result<(), UserError>)
        requires
            old(self).inv(old(store)),
            frames_ok(old(store).streams@, old(buffer)),
            key < old(store).streams@.len(),
            sz <= MAX_WINDOW_SIZE ==> old(store).streams@[key as int].buffered_send_data + sz <= usize::MAX,
        ensures
            final(self).inv(final(store)),
            frames_ok(final(store).streams@, final(buffer)),
            final(store).streams@.len() == old(store).streams@.len(),
            same_settings(*old(self), *final(self)),
            ({
                let s = old(store).streams@[key as int];
                let ns = final(store).streams@[key as int];
                &&& sz > MAX_WINDOW_SIZE ==> r == Err::<(), UserError>(UserError::PayloadTooBig)
                &&& sz <= MAX_WINDOW_SIZE && !s.state.spec_is_send_streaming() ==> r == Err::<
                    (),
                    UserError,
                >(if s.state == SendState::Closed {
                    UserError::InactiveStreamId
                } else {
                    UserError::UnexpectedFrameType
                })
                &&& sz <= MAX_WINDOW_SIZE && s.state.spec_is_send_streaming() ==> r is Ok
                &&& r is Err ==> final(store).streams@ == old(store).streams@
                &&& r is Ok ==> ns.buffered_send_data == s.buffered_send_data + sz
                    && ns.pending_send.view_in(final(buffer)) == s.pending_send.view_in(old(buffer)).push(
                    Frame::Data { payload, len: sz, end_stream },
                )
                &&& r is Ok && (!end_stream || s.requested_send_capacity < s.buffered_send_data + sz)
                    ==> final(self).prio().pending_capacity() == (if s.requested_send_capacity
                    < s.buffered_send_data + sz && wants_capacity(with_buffered(s, sz as int)) {
                    pushed(
                        old(self).prio().pending_capacity(),
                        key,
                        ns.send_flow.avail() < ns.requested_send_capacity && ns.send_flow.spec_has_unavailable(),
                    )
                } else {
                    old(self).prio().pending_capacity()
                })
                &&& r is Ok && (!end_stream || s.requested_send_capacity < s.buffered_send_data + sz) ==> ns.send_flow.avail() == s.send_flow.avail() + sought_amount(
                    with_buffered(s, sz as int),
                    old(self).prio().conn().avail(),
                    s.requested_send_capacity < s.buffered_send_data + sz,
                ) && final(self).prio().conn().avail() == old(self).prio().conn().avail() - sought_amount(
                    with_buffered(s, sz as int),
                    old(self).prio().conn().avail(),
                    s.requested_send_capacity < s.buffered_send_data + sz,
                ) && ns.requested_send_capacity == with_buffered(s, sz as int).requested_send_capacity
            }),
    {
        self.prioritize.send_data(payload, sz, end_stream, buffer, key, store, task)
    }

    /// Applies a connection WINDOW_UPDATE; see
    /// `Prioritize::recv_connection_window_update`.
    pub fn recv_connection_window_update(
        &mut self,
        inc: WindowSize,
        store: &mut Store,
        task: &mut bool,
    ) -> (r: Result<(), Reason>)
        requires
            old(self).inv(old(store)),
        ensures
            final(self).inv(final(store)),
            final(store).streams@.len() == old(store).streams@.len(),
            old(self).prio().conn().window() + inc <= MAX_WINDOW_SIZE && inc <= MAX_WINDOW_SIZE
                ==> r is Ok,
            r is Ok ==> final(self).prio().conn().window() == old(self).prio().conn().window()
                + inc,
            r is Ok ==> final(self).prio().conn().avail() == 0 || final(self).prio().pending_capacity().len() == 0,
            r is Ok ==> forall|k: usize|
                old(self).prio().pending_capacity().contains(k) && !final(self).prio().pending_capacity().contains(k)
                    ==> !wants_capacity(#[trigger] final(store).streams@[k as int]),
            r is Ok ==> final(self).prio().conn().avail() == 0 || forall|k: usize|
                old(self).prio().pending_capacity().contains(k) ==> !wants_capacity(
                    #[trigger] final(store).streams@[k as int],
                ),
            r is Err ==> r == Err::<(), Reason>(Reason::FlowControlError) && final(store).streams@
                == old(store).streams@,
    {
        self.prioritize.recv_connection_window_update(inc, store, task)
    }

    /// Sends an explicit RST_STREAM.
    ///
    /// A stream already reset is left alone. Otherwise it is marked reset
    /// with `reason`. A closed stream with nothing queued sends nothing more.
    /// A stream still waiting to open keeps its queued HEADERS when a
    /// concurrency slot can open (`can_open`), so that it opens and then
    /// resets; when none can, its queue is dropped locally and the
    /// connection task woken so that it leaves the open queue. Any other
    /// stream drops what it had queued. The RST_STREAM is then queued and
    /// the stream's capacity goes back to the connection.
    pub fn send_reset<B>(
        &mut self,
        reason: Reason,
        buffer: &mut Buffer<Frame<B>>,
        key: usize,
        store: &mut Store,
        can_open: bool,
        task: &mut bool,
    )
        requires
            old(self).inv(old(store)),
            frames_ok(old(store).streams@, old(buffer)),
            key < old(store).streams@.len(),
        ensures
            final(self).inv(final(store)),
            frames_ok(final(store).streams@, final(buffer)),
            final(store).streams@.len() == old(store).streams@.len(),
            same_settings(*old(self), *final(self)),
            crate::prioritize::waiters_kept(
                old(self).prio().pending_capacity(),
                final(self).prio().pending_capacity(),
                final(store).streams@,
            ),
            ({
                let s = old(store).streams@[key as int];
                let ns = final(store).streams@[key as int];
                let v = s.pending_send.view_in(old(buffer));
                let nv = ns.pending_send.view_in(final(buffer));
                let quiet = s.state == SendState::Closed && v.len() == 0;
                &&& s.reset is Some ==> final(store).streams@ == old(store).streams@ && *final(self)
                    == *old(self) && final(buffer).slots() == old(buffer).slots() && *final(task) == *old(task)
                &&& s.reset is None ==> ns.state == SendState::Closed && ns.reset == Some(reason)
                    && !ns.reset_scheduled
                &&& s.reset is None && quiet ==> final(store).streams@ == old(store).streams@.update(
                    key as int,
                    Stream {
                        state: SendState::Closed,
                        reset: Some(reason),
                        reset_scheduled: false,
                        ..s
                    },
                ) && *final(self) == *old(self) && final(buffer).slots() == old(buffer).slots()
                &&& s.reset is None && !quiet ==> ns.send_flow.avail() == 0
                &&& s.reset is None && !quiet && s.is_pending_open && !can_open ==> nv.len() == 0
                    && ns.buffered_send_data == 0 && ns.requested_send_capacity == 0 && !*final(task)
                &&& s.reset is None && !quiet && s.is_pending_open && can_open ==> nv == v.push(
                    Frame::Reset { reason },
                ) && ns.buffered_send_data == s.buffered_send_data
                &&& s.reset is None && !quiet && !s.is_pending_open ==> nv == seq![
                    Frame::<B>::Reset { reason },
                ] && ns.buffered_send_data == 0 && ns.requested_send_capacity == 0 && (
                s.spec_is_send_ready() ==> final(self).prio().pending_send().contains(key))
            }),
    {
        let mut stream: Stream = store.streams[key];
        if stream.reset.is_some() {
            return;
        }
        let is_closed: bool = stream.state.is_closed();
        let is_empty: bool = stream.pending_send.is_empty();
        let ghost s0 = *store;
        stream.set_reset(reason);
        store.streams.set(key, stream);
        proof {
            assert(self.prio().slot_ok(s0.streams@[key as int], key as int));
            self.prioritize.lemma_replace_stream(&s0, store, key as int, 0);
            lemma_frames_ok_same_queues(s0.streams@, store.streams@, buffer);
        }
        if is_closed && is_empty {
            return;
        }
        if stream.is_pending_open {
            if !can_open {
                let freed: WindowSize = self.prioritize.clear_queue(buffer, key, store, task);
                if freed > 0 {
                    let ghost s1 = store.streams@;
                    self.prioritize.assign_connection_capacity(freed, store, task);
                    proof {
                        lemma_frames_ok_same_queues(s1, store.streams@, buffer);
                    }
                }
                if *task {
                    *task = false;
                }
                return;
            }
            let ghost s1 = store.streams@;
            self.prioritize.queue_frame(Frame::Reset { reason }, buffer, key, store, task);
            let ghost s2 = store.streams@;
            self.prioritize.reclaim_all_capacity(key, store, task);
            proof {
                lemma_frames_ok_same_queues(s2, store.streams@, buffer);
                assert(self.prio().slot_ok(s2[key as int], key as int));
            }
        } else {
            let freed: WindowSize = self.prioritize.clear_queue(buffer, key, store, task);
            let ghost q = self.prioritize.pending_send();
            let ghost s1 = store.streams@;
            self.prioritize.queue_frame_with_gap(
                Frame::Reset { reason },
                buffer,
                key,
                store,
                task,
                Ghost(freed as int),
            );
            proof {
                crate::prioritize::lemma_pushed_contains(q, key, s1[key as int].spec_is_send_ready(), key);
            }
            if freed > 0 {
                let ghost s2 = store.streams@;
                self.prioritize.assign_connection_capacity(freed, store, task);
                proof {
                    lemma_frames_ok_same_queues(s2, store.streams@, buffer);
                    assert(!crate::prioritize::wants_capacity(s2[key as int]));
                }
            }
        }
    }

    /// Applies a stream WINDOW_UPDATE. When the window would pass the
    /// maximum, the stream is reset with `FlowControlError` (see
    /// `send_reset`) and the error returned.
    pub fn recv_stream_window_update<B>(
        &mut self,
        sz: WindowSize,
        buffer: &mut Buffer<Frame<B>>,
        key: usize,
        store: &mut Store,
        can_open: bool,
        task: &mut bool,
    ) -> (r: Result<(), Reason>)
        requires
            old(self).inv(old(store)),
            frames_ok(old(store).streams@, old(buffer)),
            key < old(store).streams@.len(),
        ensures
            final(self).inv(final(store)),
            frames_ok(final(store).streams@, final(buffer)),
            final(store).streams@.len() == old(store).streams@.len(),
            same_settings(*old(self), *final(self)),
            ({
                let s = old(store).streams@[key as int];
                let ns = final(store).streams@[key as int];
                let idle = s.state.spec_is_send_closed() && s.buffered_send_data == 0;
                let too_big = s.send_flow.window() + sz > MAX_WINDOW_SIZE || sz > MAX_WINDOW_SIZE;
                &&& !idle && too_big ==> r == Err::<(), Reason>(Reason::FlowControlError)
                    && ns.state == SendState::Closed && (s.reset is None ==> ns.reset == Some(
                    Reason::FlowControlError,
                ))
                &&& !(!idle && too_big) ==> r is Ok
                &&& !idle && !too_big ==> ns.send_flow.window() == s.send_flow.window() + sz
                &&& !idle && !too_big ==> crate::prioritize::same_but_flow(s, ns) && capacity_sought(
                    Stream { send_flow: s.send_flow.with_window(s.send_flow.window() + sz), ..s },
                    ns,
                    old(self).prio().conn().avail(),
                    final(self).prio().conn().avail(),
                    old(self).prio().pending_capacity(),
                    final(self).prio().pending_capacity(),
                    old(self).prio().pending_send(),
                    final(self).prio().pending_send(),
                    key,
                    true,
                )
                &&& idle ==> final(store).streams@ == old(store).streams@ && final(self).prio().conn()
                    == old(self).prio().conn() && final(self).prio().pending_capacity()
                    == old(self).prio().pending_capacity()
                &&& r is Ok ==> ns.state == s.state && ns.buffered_send_data == s.buffered_send_data
                    && ns.send_flow.window() == s.send_flow.window() + (if idle {
                    0
                } else {
                    sz as int
                })
                &&& r is Ok ==> forall|j: int|
                    0 <= j < old(store).streams@.len() && j != key ==> #[trigger] final(store).streams@[j]
                        == old(store).streams@[j]
            }),
    {
        let ghost s0 = store.streams@;
        match self.prioritize.recv_stream_window_update(sz, key, store, task) {
            Ok(()) => {
                proof {
                    lemma_frames_ok_same_queues(s0, store.streams@, buffer);
                }
                Ok(())
            },
            Err(e) => {
                assert(store.streams@ == s0);
                self.send_reset(Reason::FlowControlError, buffer, key, store, can_open, task);
                Err(e)
            },
        }
    }

    /// Drops the stream's queued frames and gives its capacity back to the
    /// connection.
    pub fn handle_error<B>(&mut self, buffer: &mut Buffer<Frame<B>>, key: usize, store: &mut Store)
        requires
            old(self).inv(old(store)),
            frames_ok(old(store).streams@, old(buffer)),
            key < old(store).streams@.len(),
        ensures
            final(self).inv(final(store)),
            frames_ok(final(store).streams@, final(buffer)),
            final(store).streams@.len() == old(store).streams@.len(),
            same_settings(*old(self), *final(self)),
            crate::prioritize::waiters_kept(
                old(self).prio().pending_capacity(),
                final(self).prio().pending_capacity(),
                final(store).streams@,
            ),
            final(store).streams@[key as int].buffered_send_data == 0,
            final(store).streams@[key as int].requested_send_capacity == 0,
            final(store).streams@[key as int].send_flow.avail() == 0,
            final(store).streams@[key as int].pending_send.view_in(final(buffer)).len() == 0,
    {
        let mut no_task: bool = false;
        let freed: WindowSize = self.prioritize.clear_queue(buffer, key, store, &mut no_task);
        if freed > 0 {
            let ghost s1 = store.streams@;
            self.prioritize.assign_connection_capacity(freed, store, &mut no_task);
            proof {
                lemma_frames_ok_same_queues(s1, store.streams@, buffer);
                assert(!crate::prioritize::wants_capacity(s1[key as int]));
            }
        }
    }
}

/// The stream still counts in a SETTINGS window change: it may send, or has
/// data buffered.
pub open spec fn window_applies(s: Stream) -> bool {
    !(s.state.spec_is_send_closed() && s.buffered_send_data == 0)
}

/// `b` is `a` after its window shrank by `dec`: the capacity assigned to it
/// is cut down to the new window (floored at 0), and the owner is told when
/// that took anything away.
pub open spec fn window_decreased(a: Stream, b: Stream, dec: int) -> bool {
    let w = a.send_flow.window() - dec;
    let cut = a.send_flow.avail() > as_size(w);
    &&& b.send_flow.window() == w
    &&& b.send_flow.avail() == (if cut {
        as_size(w)
    } else {
        a.send_flow.avail()
    })
    &&& b.send_capacity_inc == (a.send_capacity_inc || cut)
    &&& b == Stream { send_flow: b.send_flow, send_capacity_inc: b.send_capacity_inc, ..a }
}

impl Send {
    /// Shrinks the window of every stream that may still send by `dec`,
    /// taking back capacity beyond the new windows. Returns the capacity
    /// taken back, which the connection is owed; a window that would not
    /// fit an `i32` is a flow-control error that ends the connection.
    fn dec_all_windows(&mut self, dec: WindowSize, store: &mut Store) -> (r: Result<
        WindowSize,
        ProtoError,
    >)
        requires
            old(self).inv(old(store)),
            dec <= MAX_WINDOW_SIZE,
        ensures
            *final(self) == *old(self),
            final(store).streams@.len() == old(store).streams@.len(),
            same_queues(old(store).streams@, final(store).streams@),
            r matches Ok(total) ==> final(self).prio().inv_with_gap(final(store), total as int)
                && forall|i: int|
                0 <= i < old(store).streams@.len() ==> if window_applies(old(store).streams@[i]) {
                    window_decreased(old(store).streams@[i], #[trigger] final(store).streams@[i], dec as int)
                } else {
                    final(store).streams@[i] == old(store).streams@[i]
                },
            r is Ok <==> forall|j: int|
                0 <= j < old(store).streams@.len() && window_applies(#[trigger] old(store).streams@[j])
                    ==> old(store).streams@[j].send_flow.window() - dec >= i32::MIN,
            r is Err ==> r == Err::<WindowSize, ProtoError>(
                ProtoError::LibraryGoAway(Reason::FlowControlError),
            ) && final(self).prio().inv_with_gap(
                final(store),
                final(self).prio().conn().window() - sum_avail(final(store).streams@)
                    - final(self).prio().conn().avail(),
            ),
    {
        let n: usize = store.streams.len();
        let mut total: WindowSize = 0;
        let mut i: usize = 0;
        let ghost start = store.streams@;
        while i < n
            invariant
                *self == *old(self),
                self.inv(old(store)),
                start == old(store).streams@,
                n == store.streams@.len(),
                n == start.len(),
                i <= n,
                dec <= MAX_WINDOW_SIZE,
                self.prio().inv_with_gap(store, total as int),
                same_queues(start, store.streams@),
                forall|j: int|
                    0 <= j < i ==> if window_applies(start[j]) {
                        window_decreased(start[j], #[trigger] store.streams@[j], dec as int)
                    } else {
                        store.streams@[j] == start[j]
                    },
                forall|j: int| i <= j < n ==> #[trigger] store.streams@[j] == start[j],
                forall|j: int|
                    0 <= j < i && window_applies(#[trigger] start[j]) ==> start[j].send_flow.window() - dec
                        >= i32::MIN,
            decreases n - i,
        {
            let mut stream: Stream = store.streams[i];
            assert(self.prio().slot_ok(store.streams@[i as int], i as int));
            if stream.state.is_send_closed() && stream.buffered_send_data == 0 {
                i = i + 1;
                continue;
            }
            let ghost before = store.streams@;
            match stream.send_flow.dec_send_window(dec) {
                Ok(()) => {},
                Err(e) => {
                    return Err(ProtoError::LibraryGoAway(e));
                },
            }
            let window_size: WindowSize = stream.send_flow.window_size();
            let available: WindowSize = stream.send_flow.available_size();
            let mut reclaimed: WindowSize = 0;
            if available > window_size {
                reclaimed = available - window_size;
                let _res = stream.send_flow.claim_capacity(reclaimed);
                stream.send_capacity_inc = true;
            }
            proof {
                crate::prioritize::lemma_sum_avail_nonneg(before);
                crate::prioritize::lemma_sum_avail_update(before, i as int, stream);
            }
            total = total + reclaimed;
            store.streams.set(i, stream);
            proof {
                let s = store.streams@;
                assert forall|j: int| 0 <= j < s.len() implies self.prio().slot_ok(#[trigger] s[j], j) by {
                    if j != i {
                        assert(s[j] == before[j]);
                    } else {
                        assert(self.prio().slot_ok(before[j], j));
                    }
                }
            }
            i = i + 1;
        }
        Ok(total)
    }

    /// Grows the window of every stream by `inc` (see
    /// `recv_stream_window_update`); a window that passes the maximum resets
    /// its stream and ends the connection with a flow-control error.
    fn inc_all_windows<B>(
        &mut self,
        inc: WindowSize,
        buffer: &mut Buffer<Frame<B>>,
        store: &mut Store,
        can_open: bool,
        task: &mut bool,
    ) -> (r: Result<(), ProtoError>)
        requires
            old(self).inv(old(store)),
            frames_ok(old(store).streams@, old(buffer)),
        ensures
            final(self).inv(final(store)),
            frames_ok(final(store).streams@, final(buffer)),
            final(store).streams@.len() == old(store).streams@.len(),
            same_settings(*old(self), *final(self)),
            r is Ok ==> crate::prioritize::waiters_kept(old(self).prio().pending_capacity(), final(self).prio().pending_capacity(), final(store).streams@),
            r is Err ==> r == Err::<(), ProtoError>(
                ProtoError::LibraryGoAway(Reason::FlowControlError),
            ),
            r is Err ==> exists|j: int|
                0 <= j < old(store).streams@.len() && window_applies(#[trigger] old(store).streams@[j])
                    && !(old(store).streams@[j].send_flow.window() + inc <= MAX_WINDOW_SIZE && inc
                    <= MAX_WINDOW_SIZE) && final(store).streams@[j].state == SendState::Closed && (
                old(store).streams@[j].reset is None ==> final(store).streams@[j].reset == Some(
                    Reason::FlowControlError,
                )),
            r is Ok <==> forall|j: int|
                0 <= j < old(store).streams@.len() && window_applies(#[trigger] old(store).streams@[j])
                    ==> old(store).streams@[j].send_flow.window() + inc <= MAX_WINDOW_SIZE && inc
                    <= MAX_WINDOW_SIZE,
            r is Ok ==> final(self).prio().conn().avail() == 0 || forall|j: int|
                0 <= j < final(store).streams@.len() ==> !wants_capacity(#[trigger] final(store).streams@[j]),
            r is Ok ==> forall|j: int|
                0 <= j < old(store).streams@.len() ==> (#[trigger] final(store).streams@[j]).send_flow.window()
                    == old(store).streams@[j].send_flow.window() + (if window_applies(
                    old(store).streams@[j],
                ) {
                    inc as int
                } else {
                    0
                }) && final(store).streams@[j].state == old(store).streams@[j].state
                    && final(store).streams@[j].buffered_send_data == old(store).streams@[j].buffered_send_data,
    {
        let n: usize = store.streams.len();
        let ghost start = store.streams@;
        let mut i: usize = 0;
        while i < n
            invariant
                self.inv(store),
                frames_ok(store.streams@, buffer),
                n == store.streams@.len(),
                n == old(store).streams@.len(),
                start == old(store).streams@,
                i <= n,
                same_settings(*old(self), *self),
                forall|j: int|
                    0 <= j < i && window_applies(#[trigger] start[j]) ==> start[j].send_flow.window() + inc
                        <= MAX_WINDOW_SIZE && inc <= MAX_WINDOW_SIZE,
                forall|j: int|
                    0 <= j < i ==> (#[trigger] store.streams@[j]).send_flow.window() == start[j].send_flow.window()
                        + (if window_applies(start[j]) {
                        inc as int
                    } else {
                        0
                    }) && store.streams@[j].state == start[j].state
                        && store.streams@[j].buffered_send_data == start[j].buffered_send_data,
                forall|j: int| i <= j < n ==> #[trigger] store.streams@[j] == start[j],
                crate::prioritize::waiters_kept(old(self).prio().pending_capacity(), self.prio().pending_capacity(), store.streams@),
                crate::prioritize::queue_ok(old(self).prio().pending_capacity(), n as int),
                self.prio().conn().avail() == 0 || forall|j: int|
                    0 <= j < i ==> !wants_capacity(#[trigger] store.streams@[j]),
            decreases n - i,
        {
            let ghost before = store.streams@;
            let ghost conn0 = self.prio().conn().avail();
            let ghost old_pc = self.prio().pending_capacity();
            let ghost old_ps = self.prio().pending_send();
            proof {
                assert(self.prio().conn().avail() >= 0);
                assert(self.prio().slot_ok(before[i as int], i as int));
            }
            match self.recv_stream_window_update(inc, buffer, i, store, can_open, task) {
                Ok(()) => {},
                Err(e) => {
                    proof {
                        assert(before[i as int] == start[i as int]);
                        assert(window_applies(start[i as int]));
                    }
                    return Err(ProtoError::LibraryGoAway(e));
                },
            }
            proof {
                assert(before[i as int] == start[i as int]);
                assert forall|j: int| 0 <= j < i implies #[trigger] store.streams@[j] == before[j] by {}
                assert forall|j: int| i < j < n implies #[trigger] store.streams@[j] == before[j] by {}
                let si = before[i as int];
                let ns = store.streams@[i as int];
                if !(si.state.spec_is_send_closed() && si.buffered_send_data == 0) {
                    si.send_flow.lemma_bounds();
                    si.send_flow.lemma_with_window(si.send_flow.window() + inc);
                    let rr = Stream { send_flow: si.send_flow.with_window(si.send_flow.window() + inc), ..si };
                    crate::prioritize::law_sought_capacity_settles(
                        rr,
                        ns,
                        conn0,
                        self.prio().conn().avail(),
                        old_pc,
                        self.prio().pending_capacity(),
                        old_ps,
                        self.prio().pending_send(),
                        i,
                    );
                } else {
                    assert(!wants_capacity(ns));
                }
                assert forall|kk: usize|
                    old(self).prio().pending_capacity().contains(kk) && !self.prio().pending_capacity().contains(kk)
                        implies !wants_capacity(#[trigger] store.streams@[kk as int]) by {
                    let b = choose|b: int| 0 <= b < old(self).prio().pending_capacity().len() && old(self).prio().pending_capacity()[b] == kk;
                    assert(kk < n);
                    crate::prioritize::lemma_pushed_contains(
                        old_pc,
                        i,
                        ns.send_flow.avail() < ns.requested_send_capacity && ns.send_flow.spec_has_unavailable(),
                        kk,
                    );
                    if kk != i {
                        assert(store.streams@[kk as int] == before[kk as int]);
                        if old_pc.contains(kk) {
                            crate::prioritize::lemma_pushed_contains(
                                old_pc,
                                i,
                                ns.send_flow.avail() < ns.requested_send_capacity && ns.send_flow.spec_has_unavailable(),
                                kk,
                            );
                        }
                    }
                }
                if self.prio().conn().avail() != 0 {
                    assert forall|j: int| 0 <= j < i + 1 implies !wants_capacity(#[trigger] store.streams@[j]) by {
                        if j < i {
                            assert(store.streams@[j] == before[j]);
                        }
                    }
                }
            }
            i = i + 1;
        }
        Ok(())
    }

    /// Applies the peer's SETTINGS to the send side.
    ///
    /// The extended CONNECT flag is recorded. A new initial window size
    /// changes every stream window that may still send by the difference
    /// (RFC 9113 §6.9.2): a decrease takes back the capacity that exceeds the
    /// new windows and hands it to the waiting streams; an increase is a
    /// WINDOW_UPDATE on each stream. ENABLE_PUSH = 1 from a server is a
    /// protocol error for a client; otherwise the push flag is recorded.
    pub fn apply_remote_settings<B>(
        &mut self,
        settings: &Settings,
        is_server: bool,
        can_open: bool,
        buffer: &mut Buffer<Frame<B>>,
        store: &mut Store,
        task: &mut bool,
    ) -> (r: Result<(), ProtoError>)
        requires
            old(self).inv(old(store)),
            frames_ok(old(store).streams@, old(buffer)),
            settings.initial_window_size matches Some(v) ==> v <= MAX_WINDOW_SIZE,
        ensures
            frames_ok(final(store).streams@, final(buffer)),
            final(store).streams@.len() == old(store).streams@.len(),
            final(self).next_id() == old(self).next_id(),
            final(self).max_id() == old(self).max_id(),
            settings_window_ok(*settings, old(self).init_window(), old(store).streams@) ==> crate::prioritize::waiters_kept(
                old(self).prio().pending_capacity(),
                final(self).prio().pending_capacity(),
                final(store).streams@,
            ),
            settings_window_ok(*settings, old(self).init_window(), old(store).streams@) && (
            settings.initial_window_size matches Some(v) && v < old(self).init_window()) ==> final(self).prio().conn().avail() == 0 || final(self).prio().pending_capacity().len() == 0,
            r is Ok <==> settings_window_ok(*settings, old(self).init_window(), old(store).streams@)
                && !refuses_push(*settings, is_server),
            !settings_window_ok(*settings, old(self).init_window(), old(store).streams@) ==> r
                == Err::<(), ProtoError>(ProtoError::LibraryGoAway(Reason::FlowControlError)),
            settings_window_ok(*settings, old(self).init_window(), old(store).streams@) && refuses_push(
                *settings,
                is_server,
            ) ==> r == Err::<(), ProtoError>(ProtoError::LibraryGoAway(Reason::ProtocolError)),
            settings_window_ok(*settings, old(self).init_window(), old(store).streams@) ==> final(self).inv(
                final(store),
            ),
            final(self).connect_protocol_enabled() == (match settings.enable_connect_protocol {
                Some(v) => v,
                None => old(self).connect_protocol_enabled(),
            }),
            final(self).init_window() == (match settings.initial_window_size {
                Some(v) => v,
                None => old(self).init_window(),
            }),
            final(self).push_enabled() == (match settings.enable_push {
                Some(v) if r is Ok => v,
                _ => old(self).push_enabled(),
            }),
            match settings.initial_window_size {
                Some(v) => if v < old(self).init_window() {
                    settings_window_ok(*settings, old(self).init_window(), old(store).streams@)
                        ==> forall|i: int|
                        0 <= i < old(store).streams@.len() ==> if window_applies(old(store).streams@[i]) {
                            (#[trigger] final(store).streams@[i]).send_flow.window()
                                == old(store).streams@[i].send_flow.window() - (old(self).init_window() - v)
                                && within_window(final(store).streams@[i])
                        } else {
                            final(store).streams@[i] == old(store).streams@[i]
                        }
                } else if v > old(self).init_window() {
                    &&& settings_window_ok(*settings, old(self).init_window(), old(store).streams@)
                        ==> forall|i: int|
                        0 <= i < old(store).streams@.len() ==> (#[trigger] final(store).streams@[i]).send_flow.window()
                            == old(store).streams@[i].send_flow.window() + (if window_applies(
                            old(store).streams@[i],
                        ) {
                            v - old(self).init_window()
                        } else {
                            0
                        }) && final(store).streams@[i].state == old(store).streams@[i].state
                            && final(store).streams@[i].buffered_send_data
                            == old(store).streams@[i].buffered_send_data
                    &&& settings_window_ok(*settings, old(self).init_window(), old(store).streams@)
                        ==> final(self).prio().conn().avail() == 0 || forall|j: int|
                        0 <= j < final(store).streams@.len() ==> !wants_capacity(#[trigger] final(store).streams@[j])
                    &&& !settings_window_ok(*settings, old(self).init_window(), old(store).streams@)
                        ==> exists|j: int|
                        0 <= j < old(store).streams@.len() && window_applies(
                            #[trigger] old(store).streams@[j],
                        ) && old(store).streams@[j].send_flow.window() + (v - old(self).init_window())
                            > MAX_WINDOW_SIZE && final(store).streams@[j].state == SendState::Closed && (
                        old(store).streams@[j].reset is None ==> final(store).streams@[j].reset == Some(
                            Reason::FlowControlError,
                        ))
                } else {
                    final(store).streams@ == old(store).streams@
                },
                None => final(store).streams@ == old(store).streams@,
            },
    {
        if let Some(val) = settings.enable_connect_protocol {
            self.is_extended_connect_protocol_enabled = val;
        }
        if let Some(val) = settings.initial_window_size {
            let old_val: WindowSize = self.init_window_sz;
            self.init_window_sz = val;
            if val < old_val {
                let dec: WindowSize = old_val - val;
                let ghost s0 = store.streams@;
                let reclaimed = self.dec_all_windows(dec, store);
                proof {
                    lemma_frames_ok_same_queues(s0, store.streams@, buffer);
                }
                let total_reclaimed: WindowSize = reclaimed?;
                let ghost s1 = store.streams@;
                let mut t: bool = *task;
                self.prioritize.assign_connection_capacity(total_reclaimed, store, &mut t);
                *task = t;
                proof {
                    lemma_frames_ok_same_queues(s1, store.streams@, buffer);
                    assert forall|i: int| 0 <= i < s0.len() implies if window_applies(s0[i]) {
                        (#[trigger] store.streams@[i]).send_flow.window() == s0[i].send_flow.window() - dec
                            && within_window(store.streams@[i])
                    } else {
                        store.streams@[i] == s0[i]
                    } by {
                        assert(only_gained_capacity(s1[i], store.streams@[i]));
                        if !window_applies(s0[i]) {
                            assert(!crate::prioritize::wants_capacity(s1[i]));
                        }
                    }
                }
            } else if val > old_val {
                let inc: WindowSize = val - old_val;
                self.inc_all_windows(inc, buffer, store, can_open, task)?;
            }
        }
        if let Some(val) = settings.enable_push {
            if val && !is_server {
                return Err(ProtoError::LibraryGoAway(Reason::ProtocolError));
            }
            self.is_push_enabled = val;
        }
        Ok(())
    }
}

/// A SETTINGS window change by `new_init - old_init` leaves every stream
/// window that still counts within range: above `i32::MIN` on a decrease, at
/// most the maximum window on an increase.
pub open spec fn windows_fit(streams: Seq<Stream>, old_init: int, new_init: int) -> bool {
    if new_init < old_init {
        forall|j: int|
            0 <= j < streams.len() && window_applies(#[trigger] streams[j]) ==> streams[j].send_flow.window()
                - (old_init - new_init) >= i32::MIN
    } else if new_init > old_init {
        forall|j: int|
            0 <= j < streams.len() && window_applies(#[trigger] streams[j]) ==> streams[j].send_flow.window()
                + (new_init - old_init) <= MAX_WINDOW_SIZE
    } else {
        true
    }
}

/// The initial window size in `settings`, if any, fits every stream window.
pub open spec fn settings_window_ok(settings: Settings, init: WindowSize, streams: Seq<Stream>) -> bool {
    match settings.initial_window_size {
        Some(v) => windows_fit(streams, init as int, v as int),
        None => true,
    }
}

/// A client is told by the server to enable push, which a server may not do.
pub open spec fn refuses_push(settings: Settings, is_server: bool) -> bool {
    settings.enable_push == Some(true) && !is_server
}

impl Send {
    /// Clears the queues of streams waiting for capacity, to send and to
    /// open.
    pub fn clear_queues(&mut self, store: &mut Store)
        requires
            old(self).inv(old(store)),
        ensures
            final(self).inv(final(store)),
            same_settings(*old(self), *final(self)),
            final(self).prio().pending_capacity().len() == 0,
            final(self).prio().pending_send().len() == 0,
            final(self).prio().pending_open().len() == 0,
            final(self).prio().conn() == old(self).prio().conn(),
            final(store).streams@.len() == old(store).streams@.len(),
    {
        self.prioritize.clear_pending_capacity(store);
        self.prioritize.clear_pending_send(store);
        self.prioritize.clear_pending_open(store);
    }

    /// Sends HEADERS on the stream: the header block is checked, the stream
    /// opens (see `Stream::send_open`), a locally initiated stream that is
    /// not a promised one waits for a concurrency slot, and the frame is
    /// queued. Queuing for a slot wakes the connection task.
    pub fn send_headers<B>(
        &mut self,
        fields: &Vec<(Vec<u8>, Vec<u8>)>,
        end_stream: bool,
        is_local_init: bool,
        buffer: &mut Buffer<Frame<B>>,
        key: usize,
        store: &mut Store,
        task: &mut bool,
    ) -> (r: Result<(), UserError>)
        requires
            old(self).inv(old(store)),
            frames_ok(old(store).streams@, old(buffer)),
            key < old(store).streams@.len(),
        ensures
            final(self).inv(final(store)),
            frames_ok(final(store).streams@, final(buffer)),
            same_settings(*old(self), *final(self)),
            final(store).streams@.len() == old(store).streams@.len(),
            ({
                let s = old(store).streams@[key as int];
                let ns = final(store).streams@[key as int];
                let waits = is_local_init && !s.is_pending_push;
                &&& headers_malformed(fields@) ==> r == Err::<(), UserError>(
                    UserError::MalformedHeaders,
                )
                &&& !headers_malformed(fields@) && s.state != SendState::Idle ==> r == Err::<
                    (),
                    UserError,
                >(UserError::UnexpectedFrameType)
                &&& r is Err ==> final(store).streams@ == old(store).streams@ && *final(self)
                    == *old(self) && *final(task) == *old(task) && final(buffer).slots() == old(buffer).slots()
                &&& !headers_malformed(fields@) && s.state == SendState::Idle ==> r is Ok
                    && final(store).streams@ == old(store).streams@.update(key as int, ns)
                    && ns == (Stream {
                    state: if !end_stream {
                        SendState::Streaming
                    } else if s.remote_closed {
                        SendState::Closed
                    } else {
                        SendState::HalfClosed
                    },
                    is_pending_open: s.is_pending_open || waits,
                    pending_send: ns.pending_send,
                    ..s
                }) && ns.pending_send.view_in(final(buffer)) == s.pending_send.view_in(old(buffer)).push(
                    Frame::Headers { end_stream },
                ) && (waits ==> final(self).prio().pending_open().contains(key) && !*final(task))
                    && (!waits && ns.spec_is_send_ready() ==> final(self).prio().pending_send().contains(key))
            }),
    {
        check_headers(fields)?;
        let ghost s0 = *store;
        let mut stream: Stream = store.streams[key];
        stream.send_open(end_stream)?;
        store.streams.set(key, stream);
        proof {
            assert(self.prio().slot_ok(s0.streams@[key as int], key as int));
            self.prioritize.lemma_replace_stream(&s0, store, key as int, 0);
            lemma_frames_ok_same_queues(s0.streams@, store.streams@, buffer);
        }
        let mut pending_open: bool = false;
        if is_local_init && !stream.is_pending_push {
            let ghost q = self.prioritize.pending_open();
            let ghost s1 = store.streams@;
            self.prioritize.queue_open(key, store);
            proof {
                crate::prioritize::lemma_pushed_contains(q, key, true, key);
                lemma_frames_ok_same_queues(s1, store.streams@, buffer);
            }
            pending_open = true;
        }
        let ghost ps = self.prioritize.pending_send();
        let ghost before_frame = store.streams@[key as int];
        self.prioritize.queue_frame(Frame::Headers { end_stream }, buffer, key, store, task);
        proof {
            crate::prioritize::lemma_pushed_contains(ps, key, before_frame.spec_is_send_ready(), key);
        }
        if pending_open {
            if *task {
                *task = false;
            }
        }
        Ok(())
    }

    /// Sends interim informational (1xx) HEADERS without changing the
    /// stream's state: refused once the final headers are sent (the stream
    /// is past `Idle`) or when the header block is malformed.
    pub fn send_interim_informational_headers<B>(
        &mut self,
        fields: &Vec<(Vec<u8>, Vec<u8>)>,
        buffer: &mut Buffer<Frame<B>>,
        key: usize,
        store: &mut Store,
        task: &mut bool,
    ) -> (r: Result<(), UserError>)
        requires
            old(self).inv(old(store)),
            frames_ok(old(store).streams@, old(buffer)),
            key < old(store).streams@.len(),
        ensures
            final(self).inv(final(store)),
            frames_ok(final(store).streams@, final(buffer)),
            same_settings(*old(self), *final(self)),
            ({
                let s = old(store).streams@[key as int];
                let ns = final(store).streams@[key as int];
                &&& s.state != SendState::Idle ==> r == Err::<(), UserError>(
                    UserError::UnexpectedFrameType,
                )
                &&& s.state == SendState::Idle && headers_malformed(fields@) ==> r == Err::<
                    (),
                    UserError,
                >(UserError::MalformedHeaders)
                &&& r is Err ==> final(store).streams@ == old(store).streams@ && *final(self)
                    == *old(self) && final(buffer).slots() == old(buffer).slots()
                &&& s.state == SendState::Idle && !headers_malformed(fields@) ==> r is Ok
                    && final(store).streams@ == old(store).streams@.update(
                    key as int,
                    Stream { pending_send: ns.pending_send, ..s },
                ) && ns.pending_send.view_in(final(buffer)) == s.pending_send.view_in(old(buffer)).push(
                    Frame::Headers { end_stream: false },
                ) && (s.spec_is_send_ready() ==> final(self).prio().pending_send().contains(key))
            }),
    {
        if store.streams[key].state != SendState::Idle {
            return Err(UserError::UnexpectedFrameType);
        }
        check_headers(fields)?;
        let ghost ps = self.prioritize.pending_send();
        let ghost s0 = store.streams@[key as int];
        self.prioritize.queue_frame(Frame::Headers { end_stream: false }, buffer, key, store, task);
        proof {
            crate::prioritize::lemma_pushed_contains(ps, key, s0.spec_is_send_ready(), key);
        }
        Ok(())
    }

    /// Sends a PUSH_PROMISE for the stream stored under `promised` on the
    /// stream `key`: refused when the peer disabled push or the header block
    /// is malformed; otherwise the frame is queued.
    pub fn send_push_promise<B>(
        &mut self,
        fields: &Vec<(Vec<u8>, Vec<u8>)>,
        promised: usize,
        buffer: &mut Buffer<Frame<B>>,
        key: usize,
        store: &mut Store,
        task: &mut bool,
    ) -> (r: Result<(), UserError>)
        requires
            old(self).inv(old(store)),
            frames_ok(old(store).streams@, old(buffer)),
            key < old(store).streams@.len(),
        ensures
            final(self).inv(final(store)),
            frames_ok(final(store).streams@, final(buffer)),
            same_settings(*old(self), *final(self)),
            !old(self).push_enabled() ==> r == Err::<(), UserError>(
                UserError::PeerDisabledServerPush,
            ),
            old(self).push_enabled() && headers_malformed(fields@) ==> r == Err::<(), UserError>(
                UserError::MalformedHeaders,
            ),
            r is Err ==> final(store).streams@ == old(store).streams@ && *final(self) == *old(self)
                && final(buffer).slots() == old(buffer).slots(),
            old(self).push_enabled() && !headers_malformed(fields@) ==> r is Ok
                && final(store).streams@ == old(store).streams@.update(
                key as int,
                Stream {
                    pending_send: final(store).streams@[key as int].pending_send,
                    ..old(store).streams@[key as int]
                },
            ) && final(store).streams@[key as int].pending_send.view_in(final(buffer))
                == old(store).streams@[key as int].pending_send.view_in(old(buffer)).push(
                Frame::PushPromise { promised },
            ),
    {
        if !self.is_push_enabled {
            return Err(UserError::PeerDisabledServerPush);
        }
        check_headers(fields)?;
        self.prioritize.queue_frame(Frame::PushPromise { promised }, buffer, key, store, task);
        Ok(())
    }

    /// Sends trailers on the stream: refused when the header block is
    /// malformed or holds `content-length` (RFC 9113 §8.1), or the stream is
    /// not streaming. Otherwise the send side closes, the frame is queued and
    /// the request drops to what is buffered.
    pub fn send_trailers<B>(
        &mut self,
        fields: &Vec<(Vec<u8>, Vec<u8>)>,
        buffer: &mut Buffer<Frame<B>>,
        key: usize,
        store: &mut Store,
        task: &mut bool,
    ) -> (r: Result<(), UserError>)
        requires
            old(self).inv(old(store)),
            frames_ok(old(store).streams@, old(buffer)),
            key < old(store).streams@.len(),
        ensures
            final(self).inv(final(store)),
            frames_ok(final(store).streams@, final(buffer)),
            same_settings(*old(self), *final(self)),
            final(store).streams@.len() == old(store).streams@.len(),
            ({
                let s = old(store).streams@[key as int];
                let ns = final(store).streams@[key as int];
                let refused = headers_malformed(fields@) || has_content_length(fields@);
                &&& refused ==> r == Err::<(), UserError>(UserError::MalformedHeaders)
                &&& !refused && !s.state.spec_is_send_streaming() ==> r == Err::<(), UserError>(
                    UserError::UnexpectedFrameType,
                )
                &&& r is Err ==> final(store).streams@ == old(store).streams@ && *final(self)
                    == *old(self) && final(buffer).slots() == old(buffer).slots()
                &&& !refused && s.state.spec_is_send_streaming() ==> r is Ok && ns.state == (if s.remote_closed {
                    SendState::Closed
                } else {
                    SendState::HalfClosed
                }) && ns.pending_send.view_in(final(buffer)) == s.pending_send.view_in(old(buffer)).push(
                    Frame::Headers { end_stream: true },
                ) && ns.buffered_send_data == s.buffered_send_data
                    && ns.requested_send_capacity == min_int(
                    s.requested_send_capacity as int,
                    min_int(s.buffered_send_data as int, MAX_WINDOW_SIZE as int),
                )
            }),
    {
        check_headers(fields)?;
        if contains_content_length(fields) {
            return Err(UserError::MalformedHeaders);
        }
        let ghost s0 = *store;
        let mut stream: Stream = store.streams[key];
        if !stream.state.is_send_streaming() {
            return Err(UserError::UnexpectedFrameType);
        }
        stream.send_close();
        store.streams.set(key, stream);
        proof {
            assert(self.prio().slot_ok(s0.streams@[key as int], key as int));
            self.prioritize.lemma_replace_stream(&s0, store, key as int, 0);
            lemma_frames_ok_same_queues(s0.streams@, store.streams@, buffer);
        }
        self.prioritize.queue_frame(Frame::Headers { end_stream: true }, buffer, key, store, task);
        let ghost s1 = store.streams@;
        self.prioritize.reserve_capacity(0, key, store, task);
        proof {
            lemma_frames_ok_same_queues(s1, store.streams@, buffer);
        }
        Ok(())
    }

    /// Schedules a reset the library decided on (the stream's handles were
    /// dropped, say): a closed stream is left alone; otherwise the stream is
    /// marked reset with `reason`, the capacity it holds beyond its buffered
    /// data goes back to the connection, and the stream is scheduled to
    /// send, or, while it waits to open or for its PUSH_PROMISE, the
    /// connection task is woken.
    pub fn schedule_implicit_reset(
        &mut self,
        key: usize,
        reason: Reason,
        store: &mut Store,
        task: &mut bool,
    )
        requires
            old(self).inv(old(store)),
            key < old(store).streams@.len(),
        ensures
            final(self).inv(final(store)),
            same_settings(*old(self), *final(self)),
            final(store).streams@.len() == old(store).streams@.len(),
            same_queues(old(store).streams@, final(store).streams@),
            ({
                let s = old(store).streams@[key as int];
                let ns = final(store).streams@[key as int];
                &&& s.state == SendState::Closed ==> final(store).streams@ == old(store).streams@
                    && *final(self) == *old(self) && *final(task) == *old(task)
                &&& s.state != SendState::Closed ==> ns == Stream {
                    state: SendState::Closed,
                    reset: Some(reason),
                    reset_scheduled: true,
                    send_flow: ns.send_flow,
                    send_capacity_inc: ns.send_capacity_inc,
                    ..s
                } && ns.send_flow.window() == s.send_flow.window()
                &&& s.state != SendState::Closed && !s.spec_is_send_ready() ==> !*final(task)
                &&& s.state != SendState::Closed && s.spec_is_send_ready() ==> final(self).prio().pending_send().contains(key)
            }),
    {
        let ghost old_streams = store.streams@;
        let mut stream: Stream = store.streams[key];
        if stream.state.is_closed() {
            return;
        }
        stream.set_scheduled_reset(reason);
        store.streams.set(key, stream);
        proof {
            crate::prioritize::lemma_sum_avail_update(old_streams, key as int, stream);
            let s = store.streams@;
            assert forall|i: int| 0 <= i < s.len() implies self.prio().slot_ok(#[trigger] s[i], i) by {
                if i != key {
                    assert(s[i] == old_streams[i]);
                } else {
                    assert(self.prio().slot_ok(old_streams[i], i));
                }
            }
        }
        self.prioritize.reclaim_reserved_capacity(key, store, task);
        if stream.is_pending_open || stream.is_pending_push {
            if *task {
                *task = false;
            }
            return;
        }
        let ghost ps = self.prioritize.pending_send();
        self.prioritize.schedule_send(key, store, task);
        proof {
            crate::prioritize::lemma_pushed_contains(ps, key, true, key);
        }
    }
}

impl Send {
    /// The next frame to write; see `Prioritize::next_frame`.
    pub fn next_frame<B>(
        &mut self,
        buffer: &mut Buffer<Frame<B>>,
        store: &mut Store,
        max_len: usize,
        counts: &mut SendCounts,
    ) -> (r: Option<Prioritized<B>>)
        requires
            old(self).inv(old(store)),
            frames_ok(old(store).streams@, old(buffer)),
            old(self).prio().in_flight() == InFlightData::Nothing,
        ensures
            final(self).inv(final(store)),
            frames_ok(final(store).streams@, final(buffer)),
            same_settings(*old(self), *final(self)),
            final(store).streams@.len() == old(store).streams@.len(),
            r is None ==> final(self).prio().pending_send().len() == 0,
            r is None ==> forall|j: int|
                0 <= j < old(store).streams@.len() && old(self).prio().pending_send().contains(j as usize)
                    ==> !has_frame_to_write(
                    #[trigger] final(store).streams@[j],
                    final(store).streams@[j].pending_send.view_in(final(buffer)),
                    max_len as int,
                ),
            r matches Some(p) ==> data_frame_fits(p, max_len as int, final(store).streams@[p.stream as int]),
            r matches Some(p) ==> (old(self).prio().pending_open().len() == 0 ==> frame_served(
                old(store).streams@[p.stream as int],
                old(store).streams@[p.stream as int].pending_send.view_in(old(buffer)),
                p,
                final(store).streams@[p.stream as int],
                final(store).streams@[p.stream as int].pending_send.view_in(final(buffer)),
                max_len as int,
                p.stream,
            )),
            r matches Some(p) ==> p.stream < final(store).streams@.len() && data_len(
                final(store).streams@[p.stream as int].pending_send.view_in(final(buffer)),
            ) + p.rest <= final(store).streams@[p.stream as int].buffered_send_data && final(self).prio().in_flight() == (
            if p.frame is Data {
                InFlightData::DataFrame(p.stream)
            } else {
                InFlightData::Nothing
            }),
    {
        self.prioritize.next_frame(buffer, store, max_len, counts)
    }

    /// Takes back the unsent rest of the DATA frame in flight; see
    /// `Prioritize::reclaim_frame_inner`.
    pub fn reclaim_frame_inner<B>(&mut self, buffer: &mut Buffer<Frame<B>>, store: &mut Store, frame: Prioritized<B>) -> (r: bool)
        requires
            old(self).inv(old(store)),
            frames_ok(old(store).streams@, old(buffer)),
            old(self).prio().in_flight() != InFlightData::Nothing,
            old(self).prio().in_flight() matches InFlightData::DataFrame(k) ==> k == frame.stream && frame.frame is Data
                && frame.stream < old(store).streams@.len() && data_len(
                old(store).streams@[frame.stream as int].pending_send.view_in(old(buffer)),
            ) + frame.rest <= old(store).streams@[frame.stream as int].buffered_send_data,
        ensures
            final(self).inv(final(store)),
            frames_ok(final(store).streams@, final(buffer)),
            same_settings(*old(self), *final(self)),
            final(self).prio().in_flight() == InFlightData::Nothing,
            r == (old(self).prio().in_flight() is DataFrame && frame.rest > 0),
            !r ==> final(store).streams@ == old(store).streams@,
            r ==> final(store).streams@[frame.stream as int].pending_send.view_in(final(buffer)) == seq![
                Frame::Data { payload: frame.frame->payload, len: frame.rest, end_stream: frame.end_of_stream },
            ] + old(store).streams@[frame.stream as int].pending_send.view_in(old(buffer)),
    {
        self.prioritize.reclaim_frame_inner(buffer, store, frame)
    }

    /// The prioritization layer.
    pub fn prioritize(&self) -> (p: &Prioritize)
        ensures
            *p == self.prio(),
    {
        &self.prioritize
    }

    /// Streams above this identifier are ignored.
    pub fn max_stream_id(&self) -> (id: StreamId)
        ensures
            id == self.max_id(),
    {
        self.max_stream_id
    }
}

} // verus!
