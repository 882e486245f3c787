//! Representation of SSE events per the HTML Living Standard.

use vstd::prelude::*;
use vstd::utf8::encode_utf8;

verus! {

/// Ghost shape of an event: every text field viewed as its UTF-8 bytes.
#[verifier::ext_equal]
pub struct EventShape {
    pub event: Seq<u8>,
    pub data: Seq<u8>,
    pub id: Seq<u8>,
    pub retry: Option<u64>,
}

/// Event with immutable fields, emitted by the stream adapters.
///
/// `event` defaults to `"message"`, `data` joins the event's data lines with
/// `\n`, `id` is the sticky last event ID, and `retry` is a reconnection
/// time in milliseconds.
#[derive(Debug, Clone, PartialEq, Eq)]
pub struct Event {
    pub event: String,
    pub data: String,
    pub id: String,
    pub retry: Option<u64>,
}

impl View for Event {
    type V = EventShape;

    open spec fn view(&self) -> EventShape {
        EventShape {
            event: encode_utf8(self.event@),
            data: encode_utf8(self.data@),
            id: encode_utf8(self.id@),
            retry: self.retry,
        }
    }
}

/// Event with mutable fields, for callers assembling events by hand.
#[derive(Debug, Clone, PartialEq, Eq)]
pub struct EventMut {
    pub event: String,
    pub data: String,
    pub id: String,
    pub retry: Option<u64>,
}

impl View for EventMut {
    type V = EventShape;

    open spec fn view(&self) -> EventShape {
        EventShape {
            event: encode_utf8(self.event@),
            data: encode_utf8(self.data@),
            id: encode_utf8(self.id@),
            retry: self.retry,
        }
    }
}

impl EventMut {
    /// Converts [`EventMut`] into [`Event`], freezing its fields.
    pub fn freeze(self) -> (r: Event)
        ensures
            r@ == self@,
    {
        let EventMut { event, data, id, retry } = self;
        Event { event, data, id, retry }
    }
}

} // verus!
