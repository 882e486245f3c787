//! Streaming parser for Server-Sent Events (SSE) as defined by the HTML
//! Living Standard.
//!
//! The crate is organised as a set of pure components that are driven from
//! the outside: a byte-level line tokenizer, a UTF-8 validator, an event
//! builder implementing the HTML specification's dispatch rules, and
//! chunk-fed adapter state machines that tie them together.

use vstd::prelude::*;

pub mod errors;
pub mod event;
pub mod event_stream;
pub mod json_stream;
pub mod parser;
pub mod serialize;
pub mod utf8;
pub mod utf8_stream;

pub use event_stream::bytes::EventStreamBytes;
pub use event_stream::generic::EventStream;

verus! {

/// Line feed, one of the three SSE line terminators.
pub const LF: u8 = 10;

/// Carriage return; alone or followed by `LF` it terminates a line.
pub const CR: u8 = 13;

} // verus!
