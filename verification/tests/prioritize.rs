use h2::buffer::{Buffer, Deque};
use h2::flow::{FlowControl, Reason};
use h2::prioritize::{
    additional_send_capacity, Config, Frame, Popped, Prioritize, Prioritized, SendCounts, SendState,
    Store, Stream, UserError,
};
use h2::send::StreamId;

/// A tag standing for a DATA payload.
const PAYLOAD: u32 = 7;

fn stream(state: SendState, window: i32, avail: i32, requested: u32, buffered: usize) -> Stream {
    Stream {
        state,
        send_flow: FlowControl::with_values(window, avail),
        requested_send_capacity: requested,
        buffered_send_data: buffered,
        is_pending_open: false,
        is_pending_push: false,
        send_capacity_inc: false,
        remote_closed: false,
        reset: None,
        reset_scheduled: false,
        pending_send: Deque::new(),
    }
}

fn config(window: u32) -> Config {
    Config {
        remote_init_window_sz: window,
        local_max_buffer_size: 1024,
        local_next_stream_id: StreamId::new(1),
    }
}

fn counts(max: usize, open: usize) -> SendCounts {
    SendCounts { max_send_streams: max, num_send_streams: open, is_server: false }
}

fn frames(store: &Store, buf: &Buffer<Frame<u32>>, key: usize) -> Vec<Frame<u32>> {
    store.streams[key].pending_send.values(buf)
}

fn data(len: usize, end_stream: bool) -> Frame<u32> {
    Frame::Data { payload: PAYLOAD, len, end_stream }
}

fn conserved(p: &Prioritize, store: &Store) -> bool {
    let streams: i64 = store
        .streams
        .iter()
        .map(|s| s.send_flow.available() as i64)
        .sum();
    streams + p.flow().available() as i64 == p.flow().signed_window() as i64
}

#[test]
fn assigns_up_to_request_and_window() {
    assert_eq!(additional_send_capacity(100, 20, 80), 60);
    assert_eq!(additional_send_capacity(50, 20, 80), 30);
    assert_eq!(additional_send_capacity(100, 0, 0), 0);
}

#[test]
fn zero_when_available_exceeds_window() {
    // Pre-fix: 0u32 - 10 wraps to ~4e9 and would over-assign.
    assert_eq!(additional_send_capacity(100, 10, 0), 0);
    assert_eq!(additional_send_capacity(100, 50, 40), 0);
}

#[test]
fn zero_when_available_exceeds_requested() {
    assert_eq!(additional_send_capacity(10, 20, 100), 0);
}

#[test]
fn new_prioritize_owns_the_initial_window() {
    let p = Prioritize::new(&config(65535));
    assert_eq!(p.flow().signed_window(), 65535);
    assert_eq!(p.flow().available(), 65535);
    assert_eq!(p.max_buffer_size(), 1024);
    assert!(p.pending_send_keys().is_empty());
    assert!(p.pending_capacity_keys().is_empty());
    assert!(p.pending_open_keys().is_empty());
}

#[test]
fn try_assign_gives_what_connection_has_and_queues_for_more() {
    let mut p = Prioritize::new(&config(30));
    let mut store = Store { streams: vec![stream(SendState::Streaming, 100, 0, 50, 50)] };
    let mut task = true;
    p.try_assign_capacity(0, &mut store, &mut task);
    assert_eq!(store.streams[0].send_flow.available(), 30);
    assert_eq!(p.flow().available(), 0);
    assert_eq!(p.pending_capacity_keys(), vec![0]);
    assert_eq!(p.pending_send_keys(), vec![0]);
    assert!(!task);
    // All 30 bytes go to data already buffered: nothing more can be buffered.
    assert!(!store.streams[0].send_capacity_inc);
    assert!(conserved(&p, &store));
}

#[test]
fn try_assign_skips_pending_open_stream() {
    let mut p = Prioritize::new(&config(30));
    let mut s = stream(SendState::Idle, 100, 0, 0, 0);
    s.is_pending_open = false;
    let mut store = Store { streams: vec![s] };
    assert!(p.queue_open(0, &mut store));
    assert!(store.streams[0].is_pending_open);
    store.streams[0].state = SendState::Streaming;
    store.streams[0].requested_send_capacity = 20;
    store.streams[0].buffered_send_data = 20;
    let mut task = true;
    p.try_assign_capacity(0, &mut store, &mut task);
    assert_eq!(store.streams[0].send_flow.available(), 0);
    assert_eq!(p.flow().available(), 30);
    assert!(task);
}

#[test]
fn connection_window_update_feeds_waiting_streams_in_order() {
    let mut p = Prioritize::new(&config(0));
    let mut store = Store {
        streams: vec![
            stream(SendState::Streaming, 100, 0, 40, 40),
            stream(SendState::Streaming, 100, 0, 40, 40),
        ],
    };
    let mut task = false;
    p.try_assign_capacity(0, &mut store, &mut task);
    p.try_assign_capacity(1, &mut store, &mut task);
    assert_eq!(p.pending_capacity_keys(), vec![0, 1]);
    assert_eq!(p.recv_connection_window_update(50, &mut store, &mut task), Ok(()));
    assert_eq!(store.streams[0].send_flow.available(), 40);
    assert_eq!(store.streams[1].send_flow.available(), 10);
    assert_eq!(p.flow().available(), 0);
    assert_eq!(p.pending_capacity_keys(), vec![1]);
    assert!(conserved(&p, &store));
}

#[test]
fn connection_window_overflow_is_flow_control_error() {
    let mut p = Prioritize::new(&config(10));
    let mut store = Store { streams: vec![] };
    let mut task = false;
    assert_eq!(
        p.recv_connection_window_update(2147483647, &mut store, &mut task),
        Err(Reason::FlowControlError)
    );
    assert_eq!(p.flow().signed_window(), 10);
}

#[test]
fn reserve_capacity_decrease_returns_excess_to_waiters() {
    let mut p = Prioritize::new(&config(50));
    let mut store = Store {
        streams: vec![
            stream(SendState::Streaming, 100, 0, 0, 0),
            stream(SendState::Streaming, 100, 0, 30, 30),
        ],
    };
    let mut task = false;
    p.reserve_capacity(50, 0, &mut store, &mut task);
    assert_eq!(store.streams[0].requested_send_capacity, 50);
    assert_eq!(store.streams[0].send_flow.available(), 50);
    p.try_assign_capacity(1, &mut store, &mut task);
    assert_eq!(p.pending_capacity_keys(), vec![1]);
    p.reserve_capacity(20, 0, &mut store, &mut task);
    assert_eq!(store.streams[0].requested_send_capacity, 20);
    assert_eq!(store.streams[0].send_flow.available(), 20);
    assert_eq!(store.streams[1].send_flow.available(), 30);
    assert_eq!(p.flow().available(), 0);
    assert!(conserved(&p, &store));
}

#[test]
fn reserve_capacity_on_closed_send_side_does_not_grow() {
    let mut p = Prioritize::new(&config(50));
    let mut store = Store { streams: vec![stream(SendState::HalfClosed, 100, 0, 0, 0)] };
    let mut task = false;
    p.reserve_capacity(10, 0, &mut store, &mut task);
    assert_eq!(store.streams[0].requested_send_capacity, 0);
    assert_eq!(p.flow().available(), 50);
}

#[test]
fn reserve_capacity_is_capped_at_max_window() {
    let mut p = Prioritize::new(&config(0));
    let mut store = Store { streams: vec![stream(SendState::Streaming, 0, 0, 0, 10)] };
    let mut task = false;
    p.reserve_capacity(u32::MAX, 0, &mut store, &mut task);
    assert_eq!(store.streams[0].requested_send_capacity, 2147483647);
}

#[test]
fn reclaim_all_capacity_gives_everything_back() {
    let mut p = Prioritize::new(&config(40));
    let mut store = Store { streams: vec![stream(SendState::Streaming, 100, 0, 40, 40)] };
    let mut task = false;
    p.try_assign_capacity(0, &mut store, &mut task);
    assert_eq!(p.flow().available(), 0);
    store.streams[0].state = SendState::Closed;
    store.streams[0].buffered_send_data = 0;
    p.reclaim_all_capacity(0, &mut store, &mut task);
    assert_eq!(store.streams[0].send_flow.available(), 0);
    assert_eq!(p.flow().available(), 40);
    assert!(conserved(&p, &store));
}

#[test]
fn reclaim_reserved_keeps_buffered_share() {
    let mut p = Prioritize::new(&config(40));
    let mut store = Store { streams: vec![stream(SendState::Streaming, 100, 0, 40, 40)] };
    let mut task = false;
    p.try_assign_capacity(0, &mut store, &mut task);
    store.streams[0].buffered_send_data = 15;
    p.reclaim_reserved_capacity(0, &mut store, &mut task);
    assert_eq!(store.streams[0].send_flow.available(), 15);
    assert_eq!(p.flow().available(), 25);
}

#[test]
fn stream_window_update_assigns_capacity() {
    let mut p = Prioritize::new(&config(100));
    let mut store = Store { streams: vec![stream(SendState::Streaming, 0, 0, 30, 30)] };
    let mut task = false;
    assert_eq!(p.recv_stream_window_update(20, 0, &mut store, &mut task), Ok(()));
    assert_eq!(store.streams[0].send_flow.signed_window(), 20);
    assert_eq!(store.streams[0].send_flow.available(), 20);
    assert_eq!(p.flow().available(), 80);
}

#[test]
fn stream_window_update_overflow_is_error() {
    let mut p = Prioritize::new(&config(100));
    let mut store = Store { streams: vec![stream(SendState::Streaming, 2147483600, 0, 0, 0)] };
    let mut task = false;
    assert_eq!(
        p.recv_stream_window_update(100, 0, &mut store, &mut task),
        Err(Reason::FlowControlError)
    );
    assert_eq!(store.streams[0].send_flow.signed_window(), 2147483600);
}

#[test]
fn stream_window_update_ignored_when_nothing_to_send() {
    let mut p = Prioritize::new(&config(100));
    let mut store = Store { streams: vec![stream(SendState::Closed, 2147483600, 0, 0, 0)] };
    let mut task = false;
    assert_eq!(p.recv_stream_window_update(100, 0, &mut store, &mut task), Ok(()));
    assert_eq!(store.streams[0].send_flow.signed_window(), 2147483600);
}

#[test]
fn send_data_errors() {
    let mut p = Prioritize::new(&config(100));
    let mut buf: Buffer<Frame<u32>> = Buffer::new();
    let mut store = Store {
        streams: vec![
            stream(SendState::Streaming, 100, 0, 0, 0),
            stream(SendState::Closed, 100, 0, 0, 0),
            stream(SendState::HalfClosed, 100, 0, 0, 0),
        ],
    };
    let mut task = false;
    assert_eq!(
        p.send_data(PAYLOAD, 2147483648, false, &mut buf, 0, &mut store, &mut task),
        Err(UserError::PayloadTooBig)
    );
    assert_eq!(p.send_data(PAYLOAD, 1, false, &mut buf, 1, &mut store, &mut task), Err(UserError::InactiveStreamId));
    assert_eq!(
        p.send_data(PAYLOAD, 1, false, &mut buf, 2, &mut store, &mut task),
        Err(UserError::UnexpectedFrameType)
    );
    assert!(buf.is_empty());
}

#[test]
fn send_data_requests_capacity_and_schedules() {
    let mut p = Prioritize::new(&config(100));
    let mut buf: Buffer<Frame<u32>> = Buffer::new();
    let mut store = Store { streams: vec![stream(SendState::Streaming, 100, 0, 0, 0)] };
    let mut task = true;
    assert_eq!(p.send_data(PAYLOAD, 60, false, &mut buf, 0, &mut store, &mut task), Ok(()));
    assert_eq!(store.streams[0].buffered_send_data, 60);
    assert_eq!(store.streams[0].requested_send_capacity, 60);
    assert_eq!(store.streams[0].send_flow.available(), 60);
    assert_eq!(frames(&store, &buf, 0), vec![data(60, false)]);
    assert_eq!(p.pending_send_keys(), vec![0]);
    assert!(!task);
    assert!(conserved(&p, &store));
}

#[test]
fn send_data_end_stream_closes_send_side() {
    let mut p = Prioritize::new(&config(100));
    let mut buf: Buffer<Frame<u32>> = Buffer::new();
    let mut s = stream(SendState::Streaming, 100, 0, 0, 0);
    s.remote_closed = true;
    let mut store = Store { streams: vec![s, stream(SendState::Streaming, 100, 0, 0, 0)] };
    let mut task = false;
    assert_eq!(p.send_data(PAYLOAD, 10, true, &mut buf, 0, &mut store, &mut task), Ok(()));
    assert_eq!(store.streams[0].state, SendState::Closed);
    assert_eq!(p.send_data(PAYLOAD, 10, true, &mut buf, 1, &mut store, &mut task), Ok(()));
    assert_eq!(store.streams[1].state, SendState::HalfClosed);
    assert_eq!(store.streams[1].requested_send_capacity, 10);
    assert_eq!(frames(&store, &buf, 1), vec![data(10, true)]);
}

#[test]
fn send_data_without_capacity_waits() {
    let mut p = Prioritize::new(&config(0));
    let mut buf: Buffer<Frame<u32>> = Buffer::new();
    let mut store = Store { streams: vec![stream(SendState::Streaming, 100, 0, 0, 0)] };
    let mut task = true;
    assert_eq!(p.send_data(PAYLOAD, 5, false, &mut buf, 0, &mut store, &mut task), Ok(()));
    assert_eq!(store.streams[0].send_flow.available(), 0);
    assert_eq!(p.pending_capacity_keys(), vec![0]);
    assert_eq!(p.pending_send_keys(), vec![0]);
    assert!(!task);
    assert_eq!(frames(&store, &buf, 0), vec![data(5, false)]);
}

#[test]
fn send_data_frame_sends_up_to_window_and_frame_limit() {
    let mut p = Prioritize::new(&config(100));
    let mut buf: Buffer<Frame<u32>> = Buffer::new();
    let mut store = Store { streams: vec![stream(SendState::Streaming, 100, 0, 0, 0)] };
    let mut task = false;
    assert_eq!(p.send_data(PAYLOAD, 80, false, &mut buf, 0, &mut store, &mut task), Ok(()));
    assert_eq!(p.send_data_frame(80, 16, 0, &mut store), Some(16));
    assert_eq!(store.streams[0].send_flow.available(), 64);
    assert_eq!(store.streams[0].send_flow.signed_window(), 84);
    assert_eq!(store.streams[0].buffered_send_data, 64);
    assert_eq!(store.streams[0].requested_send_capacity, 64);
    assert_eq!(p.flow().signed_window(), 84);
    assert_eq!(p.flow().available(), 20);
    assert!(conserved(&p, &store));
}

#[test]
fn send_data_frame_without_capacity_waits_for_connection() {
    let mut p = Prioritize::new(&config(0));
    let mut store = Store { streams: vec![stream(SendState::Streaming, 100, 0, 10, 10)] };
    assert_eq!(p.send_data_frame(10, 16, 0, &mut store), None);
    assert_eq!(p.pending_capacity_keys(), vec![0]);
}

#[test]
fn empty_data_frame_is_always_sendable() {
    let mut p = Prioritize::new(&config(0));
    let mut store = Store { streams: vec![stream(SendState::Streaming, 0, 0, 0, 0)] };
    assert_eq!(p.send_data_frame(0, 16, 0, &mut store), Some(0));
}

#[test]
fn push_back_frame_schedules_by_capacity() {
    let mut p = Prioritize::new(&config(10));
    let mut buf: Buffer<Frame<u32>> = Buffer::new();
    let mut store = Store {
        streams: vec![
            stream(SendState::Streaming, 100, 0, 10, 10),
            stream(SendState::Streaming, 100, 0, 10, 10),
        ],
    };
    let mut task = false;
    p.try_assign_capacity(0, &mut store, &mut task);
    p.clear_pending_send(&mut store);
    p.push_back_frame(data(4, false), &mut buf, 0, &mut store);
    p.push_back_frame(data(6, true), &mut buf, 1, &mut store);
    assert_eq!(p.pending_send_keys(), vec![0]);
    assert_eq!(p.pending_capacity_keys(), vec![1]);
    assert_eq!(frames(&store, &buf, 1), vec![data(6, true)]);
}

#[test]
fn pop_pending_open_moves_stream_out_of_open_queue() {
    let mut p = Prioritize::new(&config(10));
    let mut store = Store {
        streams: vec![stream(SendState::Idle, 100, 0, 0, 0), stream(SendState::Idle, 100, 0, 0, 0)],
    };
    p.queue_open(0, &mut store);
    p.queue_open(1, &mut store);
    assert!(!p.queue_open(1, &mut store));
    let mut full = counts(1, 1);
    assert_eq!(p.pop_pending_open(&mut store, &mut full), None);
    assert_eq!(full.num_send_streams, 1);
    let mut room = counts(2, 1);
    assert_eq!(p.pop_pending_open(&mut store, &mut room), Some(0));
    assert_eq!(room.num_send_streams, 2);
    assert!(!store.streams[0].is_pending_open);
    assert_eq!(p.pending_open_keys(), vec![1]);
    p.clear_pending_open(&mut store);
    assert!(p.pending_open_keys().is_empty());
    assert!(!store.streams[1].is_pending_open);
}

#[test]
fn clear_queue_zeroes_stream_and_hands_back_capacity() {
    let mut p = Prioritize::new(&config(40));
    let mut buf: Buffer<Frame<u32>> = Buffer::new();
    let mut store = Store { streams: vec![stream(SendState::Streaming, 100, 0, 0, 0)] };
    let mut task = false;
    assert_eq!(p.send_data(PAYLOAD, 40, false, &mut buf, 0, &mut store, &mut task), Ok(()));
    assert_eq!(store.streams[0].send_flow.available(), 40);
    let freed = p.clear_queue(&mut buf, 0, &mut store, &mut task);
    assert_eq!(freed, 40);
    assert_eq!(store.streams[0].buffered_send_data, 0);
    assert_eq!(store.streams[0].requested_send_capacity, 0);
    assert_eq!(store.streams[0].send_flow.available(), 0);
    assert!(frames(&store, &buf, 0).is_empty());
    assert!(buf.is_empty());
    p.assign_connection_capacity(freed, &mut store, &mut task);
    assert_eq!(p.flow().available(), 40);
    assert!(conserved(&p, &store));
    p.clear_pending_capacity(&store);
    assert!(p.pending_capacity_keys().is_empty());
}

#[test]
fn clear_queue_frees_stream_of_unsent_promise() {
    let mut p = Prioritize::new(&config(40));
    let mut buf: Buffer<Frame<u32>> = Buffer::new();
    let mut child = stream(SendState::Streaming, 100, 0, 0, 0);
    child.is_pending_push = true;
    let mut store = Store { streams: vec![stream(SendState::Streaming, 100, 0, 0, 0), child] };
    let mut task = false;
    p.queue_frame(Frame::PushPromise { promised: 1 }, &mut buf, 0, &mut store, &mut task);
    p.queue_frame(Frame::Headers { end_stream: false }, &mut buf, 1, &mut store, &mut task);
    assert_eq!(frames(&store, &buf, 0), vec![Frame::PushPromise { promised: 1 }]);
    let freed = p.clear_queue(&mut buf, 0, &mut store, &mut task);
    assert_eq!(freed, 0);
    assert!(buf.is_empty());
    assert!(!store.streams[1].is_pending_push);
    assert_eq!(store.streams[1].state, SendState::Closed);
    assert_eq!(store.streams[1].reset, Some(Reason::Cancel));
    assert!(frames(&store, &buf, 1).is_empty());
}

#[test]
fn stream_capacity_is_bounded_by_buffer_size() {
    let s = stream(SendState::Streaming, 100, 50, 50, 10);
    assert_eq!(s.capacity(1024), 40);
    assert_eq!(s.capacity(20), 10);
    assert_eq!(s.capacity(5), 0);
}

#[test]
fn pop_frame_writes_data_up_to_frame_size() {
    let mut p = Prioritize::new(&config(100));
    let mut buf: Buffer<Frame<u32>> = Buffer::new();
    let mut store = Store { streams: vec![stream(SendState::Streaming, 100, 0, 0, 0)] };
    let mut task = false;
    let mut c = counts(10, 0);
    assert_eq!(p.send_data(PAYLOAD, 30, true, &mut buf, 0, &mut store, &mut task), Ok(()));
    let first = p.pop_frame(&mut buf, &mut store, 16, &mut c);
    assert_eq!(
        first,
        Some(Prioritized { stream: 0, frame: data(16, false), rest: 14, end_of_stream: true })
    );
    assert_eq!(store.streams[0].buffered_send_data, 14);
    assert_eq!(p.flow().signed_window(), 84);
    assert!(frames(&store, &buf, 0).is_empty());
    // Nothing left queued: the stream is not scheduled again.
    assert!(p.pending_send_keys().is_empty());
    assert_eq!(p.pop_frame(&mut buf, &mut store, 16, &mut c), None);
    assert!(conserved(&p, &store));
}

#[test]
fn pop_frame_once_blocked_data_waits_for_capacity() {
    let mut p = Prioritize::new(&config(0));
    let mut buf: Buffer<Frame<u32>> = Buffer::new();
    let mut store = Store { streams: vec![stream(SendState::Streaming, 100, 0, 0, 0)] };
    let mut task = false;
    let mut c = counts(10, 0);
    assert_eq!(p.send_data(PAYLOAD, 5, false, &mut buf, 0, &mut store, &mut task), Ok(()));
    assert_eq!(p.pending_send_keys(), vec![0]);
    assert_eq!(p.pop_frame_once(&mut buf, &mut store, 16, &mut c), Popped::Skipped);
    assert_eq!(frames(&store, &buf, 0), vec![data(5, false)]);
    assert!(p.pending_send_keys().is_empty());
    assert_eq!(p.pending_capacity_keys(), vec![0]);
    assert_eq!(p.pop_frame_once(&mut buf, &mut store, 16, &mut c), Popped::Idle);
}

#[test]
fn pop_frame_keeps_blocked_data_and_waits_for_capacity() {
    let mut p = Prioritize::new(&config(0));
    let mut buf: Buffer<Frame<u32>> = Buffer::new();
    let mut store = Store { streams: vec![stream(SendState::Streaming, 100, 0, 0, 0)] };
    let mut task = false;
    let mut c = counts(10, 0);
    assert_eq!(p.send_data(PAYLOAD, 5, false, &mut buf, 0, &mut store, &mut task), Ok(()));
    assert!(p.pop_frame(&mut buf, &mut store, 16, &mut c).is_none());
    assert_eq!(frames(&store, &buf, 0), vec![data(5, false)]);
    assert!(p.pending_send_keys().is_empty());
    assert_eq!(p.pending_capacity_keys(), vec![0]);
}

#[test]
fn pop_frame_sends_headers_then_scheduled_reset() {
    let mut p = Prioritize::new(&config(100));
    let mut buf: Buffer<Frame<u32>> = Buffer::new();
    let mut store = Store { streams: vec![stream(SendState::Streaming, 100, 0, 0, 0)] };
    let mut task = false;
    let mut c = counts(10, 0);
    p.queue_frame(Frame::Headers { end_stream: false }, &mut buf, 0, &mut store, &mut task);
    store.streams[0].state = SendState::Closed;
    store.streams[0].reset = Some(Reason::Cancel);
    store.streams[0].reset_scheduled = true;
    assert_eq!(
        p.pop_frame(&mut buf, &mut store, 16, &mut c),
        Some(Prioritized { stream: 0, frame: Frame::Headers { end_stream: false }, rest: 0, end_of_stream: false })
    );
    // The scheduled reset keeps the stream queued.
    assert_eq!(p.pending_send_keys(), vec![0]);
    assert_eq!(
        p.pop_frame(&mut buf, &mut store, 16, &mut c),
        Some(Prioritized { stream: 0, frame: Frame::Reset { reason: Reason::Cancel }, rest: 0, end_of_stream: false })
    );
    assert!(!store.streams[0].reset_scheduled);
    assert_eq!(p.pop_frame(&mut buf, &mut store, 16, &mut c), None);
}

#[test]
fn pop_frame_drops_data_of_stream_with_scheduled_reset() {
    let mut p = Prioritize::new(&config(100));
    let mut buf: Buffer<Frame<u32>> = Buffer::new();
    let mut store = Store { streams: vec![stream(SendState::Streaming, 100, 0, 0, 0)] };
    let mut task = false;
    let mut c = counts(10, 0);
    assert_eq!(p.send_data(PAYLOAD, 20, false, &mut buf, 0, &mut store, &mut task), Ok(()));
    store.streams[0].state = SendState::Closed;
    store.streams[0].reset = Some(Reason::ProtocolError);
    store.streams[0].reset_scheduled = true;
    assert_eq!(
        p.pop_frame(&mut buf, &mut store, 16, &mut c),
        Some(Prioritized { stream: 0, frame: Frame::Reset { reason: Reason::ProtocolError }, rest: 0, end_of_stream: false })
    );
    assert_eq!(store.streams[0].buffered_send_data, 0);
    assert_eq!(store.streams[0].send_flow.available(), 0);
    assert_eq!(p.flow().available(), 100);
    assert!(buf.is_empty());
}

#[test]
fn pop_frame_push_promise_opens_promised_stream() {
    let mut p = Prioritize::new(&config(100));
    let mut buf: Buffer<Frame<u32>> = Buffer::new();
    let mut child = stream(SendState::Streaming, 100, 0, 0, 0);
    child.is_pending_push = true;
    let mut store = Store { streams: vec![stream(SendState::Streaming, 100, 0, 0, 0), child] };
    let mut task = false;
    p.queue_frame(Frame::PushPromise { promised: 1 }, &mut buf, 0, &mut store, &mut task);
    p.queue_frame(Frame::Headers { end_stream: false }, &mut buf, 1, &mut store, &mut task);
    // The promised stream is not scheduled before its promise is written.
    assert_eq!(p.pending_send_keys(), vec![0]);
    let mut c = counts(10, 0);
    assert_eq!(
        p.pop_frame(&mut buf, &mut store, 16, &mut c),
        Some(Prioritized { stream: 0, frame: Frame::PushPromise { promised: 1 }, rest: 0, end_of_stream: false })
    );
    assert!(!store.streams[1].is_pending_push);
    assert_eq!(c.num_send_streams, 1);
    assert_eq!(p.pending_send_keys(), vec![1]);
}

#[test]
fn pop_frame_push_promise_without_slot_waits_to_open() {
    let mut p = Prioritize::new(&config(100));
    let mut buf: Buffer<Frame<u32>> = Buffer::new();
    let mut child = stream(SendState::Streaming, 100, 0, 0, 0);
    child.is_pending_push = true;
    let mut store = Store { streams: vec![stream(SendState::Streaming, 100, 0, 0, 0), child] };
    let mut task = false;
    p.queue_frame(Frame::PushPromise { promised: 1 }, &mut buf, 0, &mut store, &mut task);
    p.queue_frame(Frame::Headers { end_stream: false }, &mut buf, 1, &mut store, &mut task);
    let mut c = counts(1, 1);
    assert!(p.pop_frame(&mut buf, &mut store, 16, &mut c).is_some());
    assert_eq!(c.num_send_streams, 1);
    assert!(store.streams[1].is_pending_open);
    assert_eq!(p.pending_open_keys(), vec![1]);
    assert!(p.pending_send_keys().is_empty());
}

#[test]
fn reclaim_puts_unsent_rest_back() {
    let mut p = Prioritize::new(&config(100));
    let mut buf: Buffer<Frame<u32>> = Buffer::new();
    let mut store = Store { streams: vec![stream(SendState::Streaming, 100, 0, 0, 0)] };
    let mut task = false;
    let mut c = counts(10, 0);
    assert_eq!(p.send_data(PAYLOAD, 30, true, &mut buf, 0, &mut store, &mut task), Ok(()));
    let written = p.next_frame(&mut buf, &mut store, 16, &mut c).unwrap();
    assert_eq!(written.rest, 14);
    assert!(p.reclaim_frame_inner(&mut buf, &mut store, written));
    assert_eq!(frames(&store, &buf, 0), vec![data(14, true)]);
    assert_eq!(p.pending_send_keys(), vec![0]);
    let last = p.next_frame(&mut buf, &mut store, 16, &mut c).unwrap();
    assert_eq!(last, Prioritized { stream: 0, frame: data(14, true), rest: 0, end_of_stream: true });
    assert!(!p.reclaim_frame_inner(&mut buf, &mut store, last));
}

#[test]
fn reclaim_after_clear_drops_rest() {
    let mut p = Prioritize::new(&config(100));
    let mut buf: Buffer<Frame<u32>> = Buffer::new();
    let mut store = Store { streams: vec![stream(SendState::Streaming, 100, 0, 0, 0)] };
    let mut task = false;
    let mut c = counts(10, 0);
    assert_eq!(p.send_data(PAYLOAD, 30, false, &mut buf, 0, &mut store, &mut task), Ok(()));
    let written = p.next_frame(&mut buf, &mut store, 16, &mut c).unwrap();
    let freed = p.clear_queue(&mut buf, 0, &mut store, &mut task);
    p.assign_connection_capacity(freed, &mut store, &mut task);
    assert!(!p.reclaim_frame_inner(&mut buf, &mut store, written));
    assert!(frames(&store, &buf, 0).is_empty());
}

#[test]
fn next_frame_opens_waiting_stream() {
    let mut p = Prioritize::new(&config(100));
    let mut buf: Buffer<Frame<u32>> = Buffer::new();
    let mut store = Store { streams: vec![stream(SendState::Idle, 100, 0, 0, 0)] };
    let mut task = false;
    p.queue_open(0, &mut store);
    store.streams[0].state = SendState::Streaming;
    p.queue_frame(Frame::Headers { end_stream: false }, &mut buf, 0, &mut store, &mut task);
    assert!(p.pending_send_keys().is_empty());
    let mut c = counts(1, 0);
    assert_eq!(
        p.next_frame(&mut buf, &mut store, 16, &mut c),
        Some(Prioritized { stream: 0, frame: Frame::Headers { end_stream: false }, rest: 0, end_of_stream: false })
    );
    assert_eq!(c.num_send_streams, 1);
    assert!(p.pending_open_keys().is_empty());
}

#[test]
fn abort_drops_streams_that_cannot_open() {
    let mut p = Prioritize::new(&config(100));
    let mut buf: Buffer<Frame<u32>> = Buffer::new();
    let mut store = Store {
        streams: vec![
            stream(SendState::Idle, 100, 0, 0, 0),
            stream(SendState::Idle, 100, 0, 0, 0),
            stream(SendState::Idle, 100, 0, 0, 0),
        ],
    };
    p.queue_open(0, &mut store);
    p.queue_open(1, &mut store);
    p.queue_open(2, &mut store);
    store.streams[1].state = SendState::Closed;
    store.streams[1].reset = Some(Reason::Cancel);
    store.streams[1].reset_scheduled = true;
    assert!(p.abort_closed_pending_open(&mut buf, &mut store, &counts(5, 0)));
    assert_eq!(p.pending_open_keys(), vec![0, 2]);
    assert_eq!(store.streams[1].reset, Some(Reason::Cancel));
    assert!(!store.streams[1].reset_scheduled);
    assert!(!p.abort_closed_pending_open(&mut buf, &mut store, &counts(5, 0)));
    // No stream may open at all: every one is refused.
    assert!(p.abort_closed_pending_open(&mut buf, &mut store, &counts(0, 0)));
    assert!(p.pending_open_keys().is_empty());
    assert_eq!(store.streams[0].reset, Some(Reason::RefusedStream));
    assert_eq!(store.streams[2].reset, Some(Reason::RefusedStream));
}

#[test]
fn abort_on_server_schedules_reset() {
    let mut p = Prioritize::new(&config(100));
    let mut buf: Buffer<Frame<u32>> = Buffer::new();
    let mut store = Store { streams: vec![stream(SendState::Idle, 100, 0, 0, 0)] };
    p.queue_open(0, &mut store);
    let server = SendCounts { max_send_streams: 0, num_send_streams: 0, is_server: true };
    assert!(p.abort_closed_pending_open(&mut buf, &mut store, &server));
    assert_eq!(store.streams[0].reset, Some(Reason::RefusedStream));
    assert!(store.streams[0].reset_scheduled);
    assert_eq!(p.pending_send_keys(), vec![0]);
}

#[test]
fn clear_pending_send_makes_scheduled_resets_final() {
    let mut p = Prioritize::new(&config(100));
    let mut store = Store { streams: vec![stream(SendState::Streaming, 100, 0, 0, 0)] };
    let mut task = false;
    p.schedule_send(0, &store, &mut task);
    store.streams[0].state = SendState::Closed;
    store.streams[0].reset = Some(Reason::Cancel);
    store.streams[0].reset_scheduled = true;
    p.clear_pending_send(&mut store);
    assert!(p.pending_send_keys().is_empty());
    assert!(!store.streams[0].reset_scheduled);
    assert_eq!(store.streams[0].reset, Some(Reason::Cancel));
}
