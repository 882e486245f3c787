//! Error types used across the crate.

use vstd::prelude::*;

use crate::utf8::Utf8Error;

verus! {

/// Failure of an event stream: a transport error from upstream, passed
/// through verbatim, or a field value that was not valid UTF-8.
#[derive(Debug, PartialEq)]
pub enum EventStreamError<E> {
    /// Something went wrong with the underlying stream.
    Transport(E),
    /// The stream had invalid UTF-8.
    Utf8Error(Utf8Error),
}

/// Failure of a byte-to-text stream: a transport error from upstream, or
/// bytes left at end of input that are not valid UTF-8.
#[derive(Debug, PartialEq)]
pub enum Utf8StreamError<E> {
    /// Something went wrong with the underlying stream.
    Transport(E),
    /// The stream had invalid UTF-8.
    Utf8Error(Utf8Error),
}

/// A request builder that cannot be cloned for reconnection.
#[derive(Debug, Clone, Copy, PartialEq, Eq)]
pub struct CantCloneError;

} // verus!
