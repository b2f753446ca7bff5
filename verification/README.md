# h2 send core, verified

The send side of an HTTP/2 connection, written in Verus: how outgoing frames
are queued per stream, how the connection's flow-control window is handed out
to streams and taken back, which frame is written next, and the checks made
before frames are queued.

## Layout

- `src/buffer.rs`: per-stream frame queues (`Deque`) threaded through one
  shared slab (`Buffer`); the slab is the `slab` crate's, behind trusted
  wrappers whose contracts describe its contents as a map.
- `src/flow.rs`: a window and the capacity assigned from it (`FlowControl`).
- `src/prioritize.rs`: streams (`Stream`, `Store`), the scheduler
  (`Prioritize`) with its send, capacity and open queues, and the loop that
  picks the next frame to write (`pop_frame`, `next_frame`).
  `Prioritize::inv` is capacity conservation; `frames_ok` keeps the frame
  queues well formed and covered by the streams' buffered byte counts.
- `src/send.rs`: stream ids, the peer's settings, resets and the entry points
  that queue HEADERS, DATA, trailers and PUSH_PROMISE.
- `src/headers.rs`: header blocks HTTP/2 forbids.
- `src/util.rs`: padding, URI schemes and flag formatting; padding works on
  `bytes::Bytes` through trusted wrappers.
- `app/lib.rs`: what stays outside the proofs: `http::HeaderMap`, wakers,
  `fmt::Formatter`, and the loop that feeds the codec.
- `tests/`: executable tests of the library.
