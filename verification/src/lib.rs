//! A minimal HTTP/1.1 server core: a byte-exact request parser, a
//! response-writer state machine that enforces correct message framing, and
//! the per-connection dispatch step, all with verified contracts.
//!
//! Socket handling lives outside this crate; the library works on byte
//! buffers and produces byte buffers.
pub mod bytes;
pub mod errors;
pub mod headers;
pub mod request;
pub mod response;
pub mod server;
