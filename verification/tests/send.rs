use h2::buffer::{Buffer, Deque};
use h2::flow::{FlowControl, Reason};
use h2::headers::check_headers;
use h2::prioritize::{Config, Frame, SendState, Store, Stream, UserError};
use h2::send::{Poll, PollReset, ProtoError, Send, Settings, StreamId};

/// A tag standing for a DATA payload.
const PAYLOAD: u32 = 7;

fn stream(state: SendState, window: i32, avail: i32, requested: u32, buffered: usize) -> Stream {
    Stream {
        state,
        send_flow: FlowControl::with_values(window, avail),
        requested_send_capacity: requested,
        buffered_send_data: buffered,
        is_pending_open: false,
        is_pending_push: false,
        send_capacity_inc: false,
        remote_closed: false,
        reset: None,
        reset_scheduled: false,
        pending_send: Deque::new(),
    }
}

fn config(window: u32, next: u32) -> Config {
    Config {
        remote_init_window_sz: window,
        local_max_buffer_size: 1024,
        local_next_stream_id: StreamId::new(next),
    }
}

fn fields(list: &[(&str, &str)]) -> Vec<(Vec<u8>, Vec<u8>)> {
    list.iter().map(|(n, v)| (n.as_bytes().to_vec(), v.as_bytes().to_vec())).collect()
}

fn frames(store: &Store, buf: &Buffer<Frame<u32>>, key: usize) -> Vec<Frame<u32>> {
    store.streams[key].pending_send.values(buf)
}

fn settings(window: Option<u32>, push: Option<bool>, connect: Option<bool>) -> Settings {
    Settings { initial_window_size: window, enable_push: push, enable_connect_protocol: connect }
}

#[test]
fn new_send_starts_from_config() {
    let send = Send::new(&config(65535, 1));
    assert_eq!(send.init_window_sz(), 65535);
    assert!(send.is_push_enabled());
    assert!(!send.is_extended_connect_protocol_enabled());
    assert_eq!(send.max_stream_id().get(), 2147483647);
    assert_eq!(send.ensure_next_stream_id().map(|id| id.get()), Ok(1));
}

#[test]
fn open_allocates_odd_ids_in_order() {
    let mut send = Send::new(&config(65535, 1));
    assert_eq!(send.open().map(|id| id.get()), Ok(1));
    assert_eq!(send.open().map(|id| id.get()), Ok(3));
    assert_eq!(send.reserve_local().map(|id| id.get()), Ok(5));
    assert_eq!(send.ensure_next_stream_id().map(|id| id.get()), Ok(7));
}

#[test]
fn open_overflows_at_max_id() {
    let mut send = Send::new(&config(65535, 2147483645));
    assert_eq!(send.open().map(|id| id.get()), Ok(2147483645));
    assert_eq!(send.open().map(|id| id.get()), Ok(2147483647));
    assert_eq!(send.open().map(|id| id.get()), Err(UserError::OverflowedStreamId));
    assert_eq!(send.ensure_next_stream_id().map(|id| id.get()), Err(UserError::OverflowedStreamId));
    assert!(send.may_have_created_stream(StreamId::new(2147483647)));
    assert_eq!(send.ensure_not_idle(StreamId::new(2147483647)), Ok(()));
}

#[test]
fn idle_and_created_streams() {
    let mut send = Send::new(&config(65535, 1));
    send.open().unwrap();
    assert_eq!(send.ensure_not_idle(StreamId::new(1)), Ok(()));
    assert_eq!(send.ensure_not_idle(StreamId::new(3)), Err(Reason::ProtocolError));
    assert!(send.may_have_created_stream(StreamId::new(1)));
    assert!(!send.may_have_created_stream(StreamId::new(5)));
    send.maybe_reset_next_stream_id(StreamId::new(9));
    assert_eq!(send.ensure_next_stream_id().map(|id| id.get()), Ok(11));
    send.maybe_reset_next_stream_id(StreamId::new(5));
    assert_eq!(send.ensure_next_stream_id().map(|id| id.get()), Ok(11));
}

#[test]
fn go_away_lowers_limit_only() {
    let mut send = Send::new(&config(65535, 1));
    assert_eq!(send.recv_go_away(StreamId::new(7)), Ok(()));
    assert_eq!(send.max_stream_id().get(), 7);
    assert_eq!(
        send.recv_go_away(StreamId::new(9)),
        Err(ProtoError::LibraryGoAway(Reason::ProtocolError))
    );
    assert_eq!(send.max_stream_id().get(), 7);
    assert_eq!(send.recv_go_away(StreamId::new(3)), Ok(()));
    assert_eq!(send.max_stream_id().get(), 3);
}

#[test]
fn stream_id_helpers() {
    assert!(StreamId::new(2).is_server_initiated());
    assert!(!StreamId::new(0).is_server_initiated());
    assert!(!StreamId::new(3).is_server_initiated());
    assert_eq!(StreamId::new(3).next_id().map(|id| id.get()), Ok(5));
    assert!(StreamId::new(2147483646).next_id().is_err());
}

#[test]
fn check_headers_accepts_ordinary_block() {
    assert_eq!(check_headers(&fields(&[("content-type", "text/plain"), ("te", "trailers")])), Ok(()));
    assert_eq!(check_headers(&fields(&[("te", "TRAILERS"), ("host", "a")])), Ok(()));
    assert_eq!(check_headers(&fields(&[])), Ok(()));
}

#[test]
fn check_headers_rejects_connection_specific() {
    for name in ["connection", "transfer-encoding", "upgrade", "keep-alive", "proxy-connection"] {
        assert_eq!(check_headers(&fields(&[(name, "x")])), Err(UserError::MalformedHeaders));
    }
}

#[test]
fn check_headers_rejects_bad_te_whitespace_and_hosts() {
    assert_eq!(check_headers(&fields(&[("te", "gzip")])), Err(UserError::MalformedHeaders));
    assert_eq!(check_headers(&fields(&[("a", " b")])), Err(UserError::MalformedHeaders));
    assert_eq!(check_headers(&fields(&[("a", "b\t")])), Err(UserError::MalformedHeaders));
    assert_eq!(
        check_headers(&fields(&[("host", "a"), ("host", "b")])),
        Err(UserError::MalformedHeaders)
    );
}

#[test]
fn settings_flags_are_recorded() {
    let mut send = Send::new(&config(100, 1));
    let mut buf: Buffer<Frame<u32>> = Buffer::new();
    let mut store = Store { streams: vec![] };
    let mut task = false;
    assert_eq!(
        send.apply_remote_settings(&settings(None, Some(false), Some(true)), false, true, &mut buf, &mut store, &mut task),
        Ok(())
    );
    assert!(!send.is_push_enabled());
    assert!(send.is_extended_connect_protocol_enabled());
}

#[test]
fn client_refuses_enable_push_from_server() {
    let mut send = Send::new(&config(100, 1));
    let mut buf: Buffer<Frame<u32>> = Buffer::new();
    let mut store = Store { streams: vec![] };
    let mut task = false;
    assert_eq!(
        send.apply_remote_settings(&settings(None, Some(true), None), false, true, &mut buf, &mut store, &mut task),
        Err(ProtoError::LibraryGoAway(Reason::ProtocolError))
    );
    assert_eq!(
        send.apply_remote_settings(&settings(None, Some(true), None), true, true, &mut buf, &mut store, &mut task),
        Ok(())
    );
}

#[test]
fn settings_window_decrease_reclaims_excess() {
    let mut send = Send::new(&config(100, 1));
    let mut buf: Buffer<Frame<u32>> = Buffer::new();
    let mut store = Store {
        streams: vec![
            stream(SendState::Streaming, 100, 0, 0, 0),
            stream(SendState::Closed, 100, 0, 0, 0),
            stream(SendState::Streaming, 100, 0, 0, 0),
        ],
    };
    let mut task = false;
    send.send_data(PAYLOAD, 60, false, &mut buf, 0, &mut store, &mut task).unwrap();
    assert_eq!(store.streams[0].send_flow.available(), 60);
    send.send_data(PAYLOAD, 40, false, &mut buf, 2, &mut store, &mut task).unwrap();
    assert_eq!(store.streams[2].send_flow.available(), 40);
    assert_eq!(
        send.apply_remote_settings(&settings(Some(70), None, None), false, true, &mut buf, &mut store, &mut task),
        Ok(())
    );
    assert_eq!(send.init_window_sz(), 70);
    assert_eq!(store.streams[0].send_flow.signed_window(), 70);
    assert_eq!(store.streams[1].send_flow.signed_window(), 100);
    assert_eq!(store.streams[2].send_flow.signed_window(), 70);
    assert_eq!(store.streams[0].send_flow.available(), 60);
    assert_eq!(store.streams[2].send_flow.available(), 40);
    assert_eq!(
        send.apply_remote_settings(&settings(Some(20), None, None), false, true, &mut buf, &mut store, &mut task),
        Ok(())
    );
    assert_eq!(store.streams[0].send_flow.signed_window(), 20);
    assert_eq!(store.streams[0].send_flow.available(), 20);
    assert!(store.streams[0].send_capacity_inc);
    assert_eq!(store.streams[2].send_flow.available(), 20);
    assert_eq!(send.prioritize().flow().available(), 60);
}

#[test]
fn settings_window_increase_updates_streams() {
    let mut send = Send::new(&config(100, 1));
    let mut buf: Buffer<Frame<u32>> = Buffer::new();
    let mut store = Store { streams: vec![stream(SendState::Streaming, 100, 0, 0, 0)] };
    let mut task = false;
    assert_eq!(
        send.apply_remote_settings(&settings(Some(150), None, None), false, true, &mut buf, &mut store, &mut task),
        Ok(())
    );
    assert_eq!(store.streams[0].send_flow.signed_window(), 150);
}

#[test]
fn settings_window_increase_overflow_resets_stream() {
    let mut send = Send::new(&config(100, 1));
    let mut buf: Buffer<Frame<u32>> = Buffer::new();
    let mut store = Store { streams: vec![stream(SendState::Streaming, 2147483600, 0, 0, 0)] };
    let mut task = false;
    assert_eq!(
        send.apply_remote_settings(&settings(Some(200), None, None), false, true, &mut buf, &mut store, &mut task),
        Err(ProtoError::LibraryGoAway(Reason::FlowControlError))
    );
    assert_eq!(store.streams[0].state, SendState::Closed);
    assert_eq!(store.streams[0].reset, Some(Reason::FlowControlError));
}

#[test]
fn send_reset_paths() {
    let mut send = Send::new(&config(100, 1));
    let closed = stream(SendState::Closed, 100, 0, 0, 0);
    let mut buf: Buffer<Frame<u32>> = Buffer::new();
    let mut store = Store {
        streams: vec![stream(SendState::Streaming, 100, 0, 0, 0), closed],
    };
    let mut task = true;
    send.send_data(PAYLOAD, 10, false, &mut buf, 0, &mut store, &mut task).unwrap();
    assert_eq!(store.streams[0].send_flow.available(), 10);
    send.send_reset(Reason::Cancel, &mut buf, 0, &mut store, true, &mut task);
    assert_eq!(store.streams[0].state, SendState::Closed);
    assert_eq!(store.streams[0].reset, Some(Reason::Cancel));
    assert_eq!(store.streams[0].buffered_send_data, 0);
    assert_eq!(store.streams[0].send_flow.available(), 0);
    assert_eq!(frames(&store, &buf, 0), vec![Frame::Reset { reason: Reason::Cancel }]);
    assert_eq!(send.prioritize().flow().available(), 100);
    // Already reset: nothing changes.
    send.send_reset(Reason::ProtocolError, &mut buf, 0, &mut store, true, &mut task);
    assert_eq!(store.streams[0].reset, Some(Reason::Cancel));
    // Closed with nothing queued: only marked.
    send.send_reset(Reason::Cancel, &mut buf, 1, &mut store, true, &mut task);
    assert_eq!(store.streams[1].reset, Some(Reason::Cancel));
    assert!(frames(&store, &buf, 1).is_empty());
}

#[test]
fn send_reset_pending_open_without_slot_discards() {
    let mut send = Send::new(&config(100, 1));
    let mut buf: Buffer<Frame<u32>> = Buffer::new();
    let mut store = Store { streams: vec![stream(SendState::Idle, 100, 0, 0, 0)] };
    let mut task = true;
    let no_fields = fields(&[]);
    assert_eq!(send.send_headers(&no_fields, false, true, &mut buf, 0, &mut store, &mut task), Ok(()));
    assert!(store.streams[0].is_pending_open);
    assert_eq!(send.prioritize().pending_open_keys(), vec![0]);
    assert!(!task);
    task = true;
    send.send_reset(Reason::Cancel, &mut buf, 0, &mut store, false, &mut task);
    assert!(frames(&store, &buf, 0).is_empty());
    assert!(!task);
}

#[test]
fn send_headers_errors() {
    let mut send = Send::new(&config(100, 1));
    let mut buf: Buffer<Frame<u32>> = Buffer::new();
    let mut store = Store { streams: vec![stream(SendState::Streaming, 100, 0, 0, 0)] };
    let mut task = false;
    assert_eq!(
        send.send_headers(&fields(&[("connection", "x")]), false, false, &mut buf, 0, &mut store, &mut task),
        Err(UserError::MalformedHeaders)
    );
    assert_eq!(
        send.send_headers(&fields(&[]), false, false, &mut buf, 0, &mut store, &mut task),
        Err(UserError::UnexpectedFrameType)
    );
}

#[test]
fn send_headers_remote_stream_is_scheduled() {
    let mut send = Send::new(&config(100, 2));
    let mut buf: Buffer<Frame<u32>> = Buffer::new();
    let mut store = Store { streams: vec![stream(SendState::Idle, 100, 0, 0, 0)] };
    let mut task = true;
    assert_eq!(send.send_headers(&fields(&[]), true, false, &mut buf, 0, &mut store, &mut task), Ok(()));
    assert_eq!(store.streams[0].state, SendState::HalfClosed);
    assert_eq!(send.prioritize().pending_send_keys(), vec![0]);
    assert!(!task);
}

#[test]
fn push_promise_needs_push_enabled() {
    let mut send = Send::new(&config(100, 2));
    let mut buf: Buffer<Frame<u32>> = Buffer::new();
    let mut store = Store { streams: vec![stream(SendState::Streaming, 100, 0, 0, 0)] };
    let mut task = false;
    assert_eq!(send.send_push_promise(&fields(&[]), 1, &mut buf, 0, &mut store, &mut task), Ok(()));
    send.apply_remote_settings(&settings(None, Some(false), None), true, true, &mut buf, &mut store, &mut task)
        .unwrap();
    assert_eq!(
        send.send_push_promise(&fields(&[]), 1, &mut buf, 0, &mut store, &mut task),
        Err(UserError::PeerDisabledServerPush)
    );
}

#[test]
fn trailers_rules() {
    let mut send = Send::new(&config(100, 1));
    let mut buf: Buffer<Frame<u32>> = Buffer::new();
    let mut store = Store {
        streams: vec![stream(SendState::Streaming, 100, 0, 0, 0), stream(SendState::HalfClosed, 100, 0, 0, 0)],
    };
    let mut task = false;
    assert_eq!(
        send.send_trailers(&fields(&[("content-length", "3")]), &mut buf, 0, &mut store, &mut task),
        Err(UserError::MalformedHeaders)
    );
    assert_eq!(
        send.send_trailers(&fields(&[("x", "y")]), &mut buf, 1, &mut store, &mut task),
        Err(UserError::UnexpectedFrameType)
    );
    assert_eq!(send.send_trailers(&fields(&[("x", "y")]), &mut buf, 0, &mut store, &mut task), Ok(()));
    assert_eq!(store.streams[0].state, SendState::HalfClosed);
}

#[test]
fn poll_capacity_outcomes() {
    let mut send = Send::new(&config(100, 1));
    let mut store = Store {
        streams: vec![stream(SendState::Streaming, 100, 0, 0, 0), stream(SendState::Closed, 100, 0, 0, 0)],
    };
    let mut task = false;
    assert_eq!(send.poll_capacity(1, &mut store), Poll::Ready(None));
    assert_eq!(send.poll_capacity(0, &mut store), Poll::Pending);
    send.reserve_capacity(30, 0, &mut store, &mut task);
    assert!(store.streams[0].send_capacity_inc);
    assert_eq!(send.capacity(0, &store), 30);
    assert_eq!(send.poll_capacity(0, &mut store), Poll::Ready(Some(Ok(30))));
    assert!(!store.streams[0].send_capacity_inc);
}

#[test]
fn implicit_reset_schedules_stream() {
    let mut send = Send::new(&config(100, 1));
    let mut store = Store {
        streams: vec![stream(SendState::Streaming, 100, 0, 0, 0), stream(SendState::Closed, 100, 0, 0, 0)],
    };
    let mut task = true;
    send.schedule_implicit_reset(1, Reason::Cancel, &mut store, &mut task);
    assert_eq!(store.streams[1].reset, None);
    assert!(task);
    send.schedule_implicit_reset(0, Reason::Cancel, &mut store, &mut task);
    assert_eq!(store.streams[0].state, SendState::Closed);
    assert_eq!(store.streams[0].reset, Some(Reason::Cancel));
    assert_eq!(send.prioritize().pending_send_keys(), vec![0]);
    assert!(!task);
}

#[test]
fn handle_error_and_clear_queues() {
    let mut send = Send::new(&config(100, 1));
    let mut buf: Buffer<Frame<u32>> = Buffer::new();
    let mut store = Store { streams: vec![stream(SendState::Streaming, 100, 0, 0, 0)] };
    let mut task = false;
    send.send_data(PAYLOAD, 30, false, &mut buf, 0, &mut store, &mut task).unwrap();
    assert_eq!(store.streams[0].send_flow.available(), 30);
    send.handle_error(&mut buf, 0, &mut store);
    assert_eq!(store.streams[0].send_flow.available(), 0);
    assert!(frames(&store, &buf, 0).is_empty());
    assert_eq!(send.prioritize().flow().available(), 100);
    send.clear_queues(&mut store);
    assert!(send.prioritize().pending_send_keys().is_empty());
}

#[test]
fn connection_window_update_through_send() {
    let mut send = Send::new(&config(100, 1));
    let mut store = Store { streams: vec![] };
    let mut task = false;
    assert_eq!(send.recv_connection_window_update(50, &mut store, &mut task), Ok(()));
    assert_eq!(send.prioritize().flow().signed_window(), 150);
}

#[test]
fn stream_window_update_through_send() {
    let mut send = Send::new(&config(100, 1));
    let mut buf: Buffer<Frame<u32>> = Buffer::new();
    let mut store = Store { streams: vec![stream(SendState::Streaming, 10, 0, 0, 0)] };
    let mut task = false;
    assert_eq!(send.recv_stream_window_update(5, &mut buf, 0, &mut store, true, &mut task), Ok(()));
    assert_eq!(store.streams[0].send_flow.signed_window(), 15);
}

#[test]
fn push_promise_is_queued_on_parent() {
    let mut send = Send::new(&config(100, 2));
    let mut buf: Buffer<Frame<u32>> = Buffer::new();
    let mut store = Store {
        streams: vec![stream(SendState::Streaming, 100, 0, 0, 0), stream(SendState::Idle, 100, 0, 0, 0)],
    };
    let mut task = true;
    assert_eq!(send.send_push_promise(&fields(&[("a", "b")]), 1, &mut buf, 0, &mut store, &mut task), Ok(()));
    assert_eq!(frames(&store, &buf, 0), vec![Frame::PushPromise { promised: 1 }]);
    assert!(!task);
    assert_eq!(
        send.send_push_promise(&fields(&[("connection", "x")]), 1, &mut buf, 0, &mut store, &mut task),
        Err(UserError::MalformedHeaders)
    );
}

#[test]
fn send_reset_pending_open_with_slot_keeps_headers() {
    let mut send = Send::new(&config(100, 1));
    let mut buf: Buffer<Frame<u32>> = Buffer::new();
    let mut store = Store { streams: vec![stream(SendState::Idle, 100, 0, 0, 0)] };
    let mut task = false;
    assert_eq!(send.send_headers(&fields(&[]), false, true, &mut buf, 0, &mut store, &mut task), Ok(()));
    send.send_reset(Reason::Cancel, &mut buf, 0, &mut store, true, &mut task);
    assert_eq!(
        frames(&store, &buf, 0),
        vec![Frame::Headers { end_stream: false }, Frame::Reset { reason: Reason::Cancel }]
    );
    assert_eq!(store.streams[0].reset, Some(Reason::Cancel));
}

#[test]
fn interim_headers_only_before_final_headers() {
    let mut send = Send::new(&config(100, 2));
    let mut buf: Buffer<Frame<u32>> = Buffer::new();
    let mut store = Store { streams: vec![stream(SendState::Idle, 100, 0, 0, 0)] };
    let mut task = false;
    assert_eq!(
        send.send_interim_informational_headers(&fields(&[("x", "y")]), &mut buf, 0, &mut store, &mut task),
        Ok(())
    );
    assert_eq!(store.streams[0].state, SendState::Idle);
    assert_eq!(
        send.send_interim_informational_headers(&fields(&[("connection", "x")]), &mut buf, 0, &mut store, &mut task),
        Err(UserError::MalformedHeaders)
    );
    assert_eq!(send.send_headers(&fields(&[]), false, false, &mut buf, 0, &mut store, &mut task), Ok(()));
    assert_eq!(
        send.send_interim_informational_headers(&fields(&[]), &mut buf, 0, &mut store, &mut task),
        Err(UserError::UnexpectedFrameType)
    );
    assert_eq!(
        frames(&store, &buf, 0),
        vec![Frame::Headers { end_stream: false }, Frame::Headers { end_stream: false }]
    );
}

#[test]
fn poll_reset_outcomes() {
    let send = Send::new(&config(100, 1));
    let mut s = stream(SendState::Streaming, 100, 0, 0, 0);
    assert_eq!(send.poll_reset(&s, PollReset::Streaming), Poll::Pending);
    assert_eq!(
        send.poll_reset(&s, PollReset::AwaitingHeaders),
        Poll::Ready(Err(UserError::PollResetAfterSendResponse))
    );
    s.state = SendState::Closed;
    s.reset = Some(Reason::Cancel);
    assert_eq!(send.poll_reset(&s, PollReset::AwaitingHeaders), Poll::Ready(Ok(Reason::Cancel)));
    let idle = stream(SendState::Idle, 100, 0, 0, 0);
    assert_eq!(send.poll_reset(&idle, PollReset::AwaitingHeaders), Poll::Pending);
}
