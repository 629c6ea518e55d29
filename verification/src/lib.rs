//! A minimal HTTP/1.1 server core.
//!
//! The library parses a request out of a raw byte stream, dispatches it to
//! a registered handler by exact method and path match, and serializes the
//! handler's response back into bytes. Listening, per-connection
//! scheduling and all socket I/O live outside the library; it works on
//! plain byte buffers and strings.

pub mod headers;
pub mod http_server;
pub mod parser;
pub mod request;
pub mod response;
pub mod serialize;
pub mod strutil;
