//! Incremental parser for the head of an HTTP/1.1 request.
//!
//! Bytes may arrive in arbitrarily small, arbitrarily misaligned chunks
//! (short socket reads). The parser buffers only the unconsumed tail of the
//! stream, never assumes a full line is present, and consumes exactly the
//! bytes it can deterministically interpret. The result of a whole parsing
//! session is proved to be a function of the byte stream alone, independent
//! of how the stream was cut into chunks.

pub mod errors;
pub mod headers;
pub mod request;
pub mod response;
pub mod text;
