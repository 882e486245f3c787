//! Error taxonomy for consumers that deserialise event data as JSON.
//!
//! The deserialising adapter itself lives with the I/O layer: it maps each
//! event through a deserialiser, which the verified core cannot do.  Its
//! error type is plain data and is shared from here.

use vstd::prelude::*;

verus! {

/// Failure of a JSON event stream: an error of the underlying event
/// stream, or a failure to deserialise one event's data.
#[derive(Debug)]
pub enum JsonStreamError<E, E2> {
    Stream(E),
    Deserialize(E2),
}

} // verus!
