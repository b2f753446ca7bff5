//! Verified core of an HTTP/2 send path: the per-stream frame queues kept in a
//! shared slab, frame padding and scheme checks, connection-level send
//! capacity accounting, and the stream-id bookkeeping of the send side.

pub mod buffer;
pub mod util;
pub mod flow;
pub mod prioritize;
pub mod headers;
pub mod send;
