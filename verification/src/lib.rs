//! Zero-copy HTTP/1.1 request parsing over an in-memory byte buffer.
//!
//! The crate parses a single request message — request line, header fields,
//! and an optional `Content-Length`-bounded body — producing borrowed views
//! into the input buffer.  Every parser carries a contract stating exactly
//! which inputs it accepts and which slices it hands back.

pub mod http;
