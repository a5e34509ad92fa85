//! Verified core of a small work-dispatch service.
//!
//! A coordinator hands out randomized numeric work ranges to remote callers
//! over a one-shot, text-based request/response protocol.  This crate holds
//! the parts worth proving: the wire codec for requests and responses, the
//! range generator, the per-connection request handler, the LIFO job queue
//! shared by the worker pool, and the caller-side planning and decoding.
//! Socket I/O, threads, and presentation live outside the library.

pub mod caller;
pub mod codec;
pub mod pool;
pub mod queue;
pub mod range;
pub mod server;
pub mod wire;
