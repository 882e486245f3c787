//! Event stream state machine specialised for chunk buffers that arrive
//! whole, keeping the newest chunk in a separate remainder.
//!
//! Semantically identical to [`super::generic::EventStream`]: when the work
//! buffer is empty an arriving chunk is installed as the remainder and
//! lines are taken from it directly; only when a chunk ends mid-line does
//! its tail move into the work buffer.  With reference-counted chunk
//! buffers this avoids copying line-aligned chunks; the parse itself never
//! differs.

use vstd::prelude::*;
use vstd::utf8::encode_utf8;

use crate::event::Event;
use crate::event_stream::{
    add_line, after_bom, append_bytes, bom_bytes, bom_decided, committed, continues,
    event_shape_wf, init_builder, is_bom_prefix, lemma_after_bom_append, lemma_continue_append,
    lemma_continue_drained, lemma_continue_step, lemma_dispatch_event, lemma_run_rest_cr,
    process_line, run, stream_items, EventBuilder, EventStreamState, OutItem,
};
use crate::parser::{
    find_terminator, lemma_find_terminator_bounds, lemma_find_terminator_none,
    parse_line_from_buffer, split_front,
};
use crate::utf8::Utf8Error;
use crate::{CR, LF};

verus! {

broadcast use vstd::utf8::encode_utf8_valid_utf8;

/// Streaming state machine over whole chunk buffers, with a remainder fast
/// path.
pub struct EventStreamBytes {
    buffer: Vec<u8>,
    remainder: Vec<u8>,
    builder: EventBuilder,
    state: EventStreamState,
    last_event_id: String,
    fed: Ghost<Seq<u8>>,
    emitted: Ghost<Seq<OutItem>>,
}

impl EventStreamBytes {
    /// All bytes handed to the machine so far, in order.
    pub closed spec fn fed(&self) -> Seq<u8> {
        self.fed@
    }

    /// All items the machine has produced so far, in order.
    pub closed spec fn emitted(&self) -> Seq<OutItem> {
        self.emitted@
    }

    /// True once upstream end has been signalled.
    pub closed spec fn terminated(&self) -> bool {
        self.state == EventStreamState::Terminated
    }

    /// The current last event ID, as UTF-8 bytes.
    pub closed spec fn last_id(&self) -> Seq<u8> {
        encode_utf8(self.last_event_id@)
    }

    /// The unconsumed bytes: the work buffer followed by the remainder.
    pub closed spec fn pending(&self) -> Seq<u8> {
        self.buffer@ + self.remainder@
    }

    /// The logical input against which the pending bytes continue.
    pub closed spec fn logical_input(&self) -> Seq<u8> {
        match self.state {
            EventStreamState::NotStarted => self.fed@,
            EventStreamState::Started => after_bom(self.fed@),
            EventStreamState::Terminated => committed(self.fed@),
        }
    }

    /// Machine invariant, as for the generic machine, over the pending
    /// bytes; the remainder is only ever populated while the work buffer is
    /// empty.
    pub closed spec fn wf(&self) -> bool {
        &&& self.builder.wf()
        &&& continues(self.logical_input(), self.pending(), self.builder@, self.emitted@)
        &&& (self.remainder@.len() > 0 ==> self.buffer@.len() == 0)
        &&& match self.state {
            EventStreamState::NotStarted => {
                &&& self.pending() == self.fed@
                &&& self.remainder@.len() == 0
                &&& self.builder@ == init_builder()
                &&& self.emitted@ == Seq::<OutItem>::empty()
                &&& is_bom_prefix(self.fed@)
            },
            EventStreamState::Started => bom_decided(self.fed@),
            EventStreamState::Terminated => true,
        }
    }

    /// A fresh machine that has seen no input.
    pub fn new() -> (r: Self)
        ensures
            r.wf(),
            r.fed() == Seq::<u8>::empty(),
            r.emitted() == Seq::<OutItem>::empty(),
            !r.terminated(),
            r.last_id() == Seq::<u8>::empty(),
    {
        let r = EventStreamBytes {
            buffer: Vec::new(),
            remainder: Vec::new(),
            builder: EventBuilder::new(),
            state: EventStreamState::NotStarted,
            last_event_id: String::new(),
            fed: Ghost(Seq::empty()),
            emitted: Ghost(Seq::empty()),
        };
        proof {
            assert(r.fed@ =~= bom_bytes().take(0));
            assert(r.pending() =~= Seq::<u8>::empty());
            assert(Seq::<OutItem>::empty() + run(r.pending(), init_builder()).items =~= run(
                r.pending(),
                init_builder(),
            ).items);
        }
        r
    }

    /// Seeds the last event ID, for resuming a consumer over a new
    /// transport.
    pub fn set_last_event_id(&mut self, id: String)
        ensures
            final(self).wf() == old(self).wf(),
            final(self).fed() == old(self).fed(),
            final(self).emitted() == old(self).emitted(),
            final(self).terminated() == old(self).terminated(),
            final(self).last_id() == encode_utf8(id@),
    {
        self.last_event_id = id;
    }

    /// The ID of the most recently emitted event, or what
    /// [`Self::set_last_event_id`] seeded.
    pub fn last_event_id(&self) -> (r: &String)
        ensures
            encode_utf8(r@) == self.last_id(),
    {
        &self.last_event_id
    }

    /// Surrenders the work buffer and the remainder.
    pub fn take_buffers(self) -> (r: (Vec<u8>, Vec<u8>))
        ensures
            r.0@ + r.1@ == self.pending(),
    {
        (self.buffer, self.remainder)
    }

    /// True once upstream end has been signalled; no more chunks may be
    /// pushed then.
    pub fn is_terminated(&self) -> (r: bool)
        ensures
            r == self.terminated(),
    {
        self.state.is_terminated()
    }

    /// Appends one upstream chunk.  A chunk arriving while nothing is
    /// pending becomes the remainder; otherwise everything is consolidated
    /// into the work buffer.
    pub fn push_chunk(&mut self, chunk: &[u8])
        requires
            old(self).wf(),
            !old(self).terminated(),
        ensures
            final(self).wf(),
            !final(self).terminated(),
            final(self).fed() == old(self).fed() + chunk@,
            final(self).emitted() == old(self).emitted(),
            final(self).last_id() == old(self).last_id(),
    {
        proof {
            self.fed@ = self.fed@ + chunk@;
        }
        if chunk.len() == 0 {
            proof {
                assert(self.fed@ =~= old(self).fed@);
            }
            return;
        }
        let ghost pending0 = old(self).pending();
        if self.buffer.is_empty() && self.remainder.is_empty() {
            proof {
                assert(pending0 =~= Seq::<u8>::empty());
            }
            if self.state.is_not_started() {
                // nothing was pending, so nothing had been fed: the chunk
                // alone decides the byte-order mark
                let n = chunk.len();
                if n >= 3 {
                    self.state = EventStreamState::Started;
                    let c0 = *vstd::slice::slice_index_get(chunk, 0);
                    let c1 = *vstd::slice::slice_index_get(chunk, 1);
                    let c2 = *vstd::slice::slice_index_get(chunk, 2);
                    append_bytes(&mut self.remainder, chunk);
                    if c0 == 0xef && c1 == 0xbb && c2 == 0xbf {
                        proof {
                            assert(self.fed@.take(3) =~= bom_bytes());
                        }
                        let _ = split_front(&mut self.remainder, 0, 3);
                    } else {
                        proof {
                            if self.fed@.take(3) == bom_bytes() {
                                assert(self.fed@[0] == 0xef && self.fed@[1] == 0xbb && self.fed@[2]
                                    == 0xbf);
                            }
                        }
                    }
                    proof {
                        assert(self.pending() =~= after_bom(self.fed@));
                        assert(self.emitted@ + run(self.pending(), init_builder()).items =~= run(
                            self.pending(),
                            init_builder(),
                        ).items);
                    }
                } else {
                    let still_bom = if n == 1 {
                        *vstd::slice::slice_index_get(chunk, 0) == 0xef
                    } else {
                        *vstd::slice::slice_index_get(chunk, 0) == 0xef
                            && *vstd::slice::slice_index_get(chunk, 1) == 0xbb
                    };
                    append_bytes(&mut self.buffer, chunk);
                    proof {
                        assert(self.pending() =~= self.fed@);
                        if still_bom {
                            assert(self.fed@ =~= bom_bytes().take(self.fed@.len() as int));
                        } else {
                            if self.fed@ == bom_bytes().take(self.fed@.len() as int) {
                                assert(self.fed@[0] == bom_bytes().take(
                                    self.fed@.len() as int,
                                )[0]);
                                if self.fed@.len() == 2 {
                                    assert(self.fed@[1] == bom_bytes().take(
                                        self.fed@.len() as int,
                                    )[1]);
                                }
                            }
                            assert(after_bom(self.fed@) == self.fed@);
                        }
                        assert(self.emitted@ + run(self.pending(), init_builder()).items =~= run(
                            self.pending(),
                            init_builder(),
                        ).items);
                    }
                    if !still_bom {
                        self.state = EventStreamState::Started;
                    }
                }
            } else {
                append_bytes(&mut self.remainder, chunk);
                proof {
                    lemma_after_bom_append(old(self).fed@, chunk@);
                    lemma_continue_append(
                        after_bom(old(self).fed@),
                        chunk@,
                        pending0,
                        self.builder@,
                        self.emitted@,
                    );
                    assert(self.pending() =~= pending0 + chunk@);
                    lemma_bom_still_decided(old(self).fed@, chunk@);
                }
            }
        } else {
            if !self.remainder.is_empty() {
                let mut moved = Vec::new();
                core::mem::swap(&mut self.remainder, &mut moved);
                append_bytes(&mut self.buffer, moved.as_slice());
            }
            append_bytes(&mut self.buffer, chunk);
            proof {
                assert(self.pending() =~= pending0 + chunk@);
            }
            match self.state {
                EventStreamState::NotStarted => {
                    let n = self.buffer.len();
                    if n >= 3 {
                        self.state = EventStreamState::Started;
                        if self.buffer[0] == 0xef && self.buffer[1] == 0xbb && self.buffer[2]
                            == 0xbf {
                            proof {
                                assert(self.fed@.take(3) =~= bom_bytes());
                            }
                            let _ = split_front(&mut self.buffer, 0, 3);
                        } else {
                            proof {
                                if self.fed@.take(3) == bom_bytes() {
                                    assert(self.fed@[0] == 0xef && self.fed@[1] == 0xbb
                                        && self.fed@[2] == 0xbf);
                                }
                            }
                        }
                        proof {
                            assert(self.pending() =~= after_bom(self.fed@));
                            assert(self.emitted@ + run(self.pending(), init_builder()).items =~=
                                run(self.pending(), init_builder()).items);
                        }
                    } else {
                        let still_bom = if n == 1 {
                            self.buffer[0] == 0xef
                        } else {
                            self.buffer[0] == 0xef && self.buffer[1] == 0xbb
                        };
                        proof {
                            assert(self.pending() =~= self.fed@);
                            if still_bom {
                                assert(self.fed@ =~= bom_bytes().take(self.fed@.len() as int));
                            } else {
                                if self.fed@ == bom_bytes().take(self.fed@.len() as int) {
                                    assert(self.fed@[0] == bom_bytes().take(
                                        self.fed@.len() as int,
                                    )[0]);
                                    if self.fed@.len() == 2 {
                                        assert(self.fed@[1] == bom_bytes().take(
                                            self.fed@.len() as int,
                                        )[1]);
                                    }
                                }
                                assert(after_bom(self.fed@) == self.fed@);
                            }
                            assert(self.emitted@ + run(self.pending(), init_builder()).items =~=
                                run(self.pending(), init_builder()).items);
                        }
                        if !still_bom {
                            self.state = EventStreamState::Started;
                        }
                    }
                },
                EventStreamState::Started => {
                    proof {
                        lemma_after_bom_append(old(self).fed@, chunk@);
                        lemma_continue_append(
                            after_bom(old(self).fed@),
                            chunk@,
                            pending0,
                            self.builder@,
                            self.emitted@,
                        );
                        lemma_bom_still_decided(old(self).fed@, chunk@);
                    }
                },
                EventStreamState::Terminated => {},
            }
        }
    }

    /// Signals upstream end: the remainder joins the work buffer, a
    /// trailing lone `CR` is committed by a synthetic `LF`, and nothing
    /// more may be pushed.
    pub fn finish(&mut self)
        requires
            old(self).wf(),
            !old(self).terminated(),
        ensures
            final(self).wf(),
            final(self).terminated(),
            final(self).fed() == old(self).fed(),
            final(self).emitted() == old(self).emitted(),
            final(self).last_id() == old(self).last_id(),
    {
        let ghost pending0 = old(self).pending();
        if !self.remainder.is_empty() {
            let mut moved = Vec::new();
            core::mem::swap(&mut self.remainder, &mut moved);
            append_bytes(&mut self.buffer, moved.as_slice());
        }
        proof {
            assert(self.buffer@ =~= pending0);
            if self.state == EventStreamState::NotStarted {
                assert(after_bom(self.fed@) == self.fed@);
                if self.fed@.len() > 0 {
                    assert(self.fed@.last() == bom_bytes().take(self.fed@.len() as int)[self.fed@.len()
                        - 1]);
                }
            }
            lemma_run_rest_cr(pending0, self.builder@);
            lemma_run_rest_cr(after_bom(self.fed@), init_builder());
        }
        let n = self.buffer.len();
        if n > 0 && self.buffer[n - 1] == CR {
            self.buffer.push(LF);
            proof {
                assert(self.buffer@ =~= pending0 + seq![LF]);
                assert(self.pending() =~= pending0 + seq![LF]);
                assert(committed(self.fed@) == after_bom(self.fed@) + seq![LF]);
                lemma_continue_append(
                    after_bom(self.fed@),
                    seq![LF],
                    pending0,
                    self.builder@,
                    self.emitted@,
                );
            }
        } else {
            proof {
                assert(self.pending() =~= pending0);
                assert(committed(self.fed@) == after_bom(self.fed@));
            }
        }
        self.state = EventStreamState::Terminated;
    }

    /// Parses as far as the pending bytes allow and returns the next
    /// output, exactly as the generic machine does: lines come from the
    /// remainder while the work buffer is empty, and from the work buffer
    /// otherwise.
    pub fn next_event(&mut self) -> (r: Result<Option<Event>, Utf8Error>)
        requires
            old(self).wf(),
        ensures
            final(self).wf(),
            final(self).fed() == old(self).fed(),
            final(self).terminated() == old(self).terminated(),
            match r {
                Ok(Some(e)) => {
                    &&& final(self).emitted() == old(self).emitted().push(OutItem::Event(e@))
                    &&& final(self).last_id() == e@.id
                    &&& event_shape_wf(e@)
                },
                Ok(None) => {
                    &&& final(self).emitted() == old(self).emitted()
                    &&& final(self).last_id() == old(self).last_id()
                    &&& (final(self).terminated() ==> final(self).emitted() == stream_items(
                        final(self).fed(),
                    ))
                },
                Err(u) => final(self).emitted() == old(self).emitted().push(
                    OutItem::BadUtf8(u.valid_up_to as int),
                ) && final(self).last_id() == old(self).last_id(),
            },
    {
        loop
            invariant
                self.wf(),
                self.fed@ == old(self).fed@,
                self.state == old(self).state,
                self.emitted@ == old(self).emitted@,
                self.last_event_id == old(self).last_event_id,
            decreases self.pending().len(),
        {
            let ghost x = self.logical_input();
            let ghost pending0 = self.pending();
            let ghost b0 = self.builder@;
            let ghost em0 = self.emitted@;
            proof {
                lemma_find_terminator_bounds(pending0);
            }
            let from_remainder = self.buffer.is_empty() && !self.remainder.is_empty();
            let parsed = if from_remainder {
                proof {
                    assert(pending0 =~= self.remainder@);
                }
                parse_line_from_buffer(&mut self.remainder)
            } else {
                if !self.remainder.is_empty() {
                    let mut moved = Vec::new();
                    core::mem::swap(&mut self.remainder, &mut moved);
                    append_bytes(&mut self.buffer, moved.as_slice());
                }
                proof {
                    assert(self.buffer@ =~= pending0);
                }
                parse_line_from_buffer(&mut self.buffer)
            };
            let line = match parsed {
                None => {
                    proof {
                        assert(self.pending() =~= pending0);
                        if self.state == EventStreamState::Terminated {
                            lemma_continue_drained(x, pending0, b0, em0);
                        }
                    }
                    return Ok(None);
                },
                Some(line) => line,
            };
            let ghost p = find_terminator(pending0)->Some_0;
            proof {
                assert(self.pending() =~= pending0.skip(p.1));
                if self.state == EventStreamState::NotStarted {
                    assert forall|j: int| 0 <= j < pending0.len() implies pending0[j] != CR
                        && pending0[j] != LF by {
                        assert(pending0[j] == bom_bytes().take(pending0.len() as int)[j]);
                    }
                    lemma_find_terminator_none(pending0);
                }
                lemma_continue_step(x, pending0, b0, em0);
            }
            match line.validate() {
                Err(e) => {
                    proof {
                        let it = OutItem::BadUtf8(e.valid_up_to as int);
                        assert(process_line(b0, pending0.take(p.0)) == (b0, Some(it)));
                        self.emitted@ = em0.push(it);
                    }
                    return Err(e);
                },
                Ok(validated) => {
                    let ghost b1 = add_line(b0, validated@);
                    self.builder.add(validated);
                    if self.builder.complete() {
                        proof {
                            lemma_dispatch_event(b1);
                        }
                        match self.builder.dispatch() {
                            Some(event) => {
                                self.last_event_id = event.id.clone();
                                proof {
                                    let it = OutItem::Event(event@);
                                    assert(process_line(b0, pending0.take(p.0)) == (
                                        self.builder@,
                                        Some(it),
                                    ));
                                    self.emitted@ = em0.push(it);
                                }
                                return Ok(Some(event));
                            },
                            None => {
                                proof {
                                    assert(process_line(b0, pending0.take(p.0)) == (
                                        self.builder@,
                                        None::<OutItem>,
                                    ));
                                }
                            },
                        }
                    } else {
                        proof {
                            assert(process_line(b0, pending0.take(p.0)) == (b1, None::<OutItem>));
                        }
                    }
                },
            }
        }
    }
}

/// Once decided, more bytes cannot turn the input into a byte-order-mark
/// prefix.
proof fn lemma_bom_still_decided(s: Seq<u8>, c: Seq<u8>)
    requires
        bom_decided(s),
    ensures
        bom_decided(s + c),
{
    if (s + c).len() < 3 && (s + c) == bom_bytes().take((s + c).len() as int) {
        assert forall|j: int| 0 <= j < s.len() implies s[j] == bom_bytes().take(
            s.len() as int,
        )[j] by {
            assert(s[j] == (s + c)[j]);
        }
        assert(s =~= bom_bytes().take(s.len() as int));
    }
}

} // verus!
