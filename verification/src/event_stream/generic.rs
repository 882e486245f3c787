//! Chunk-fed event stream state machine over arbitrary byte chunks.
//!
//! The machine owns a growing work buffer, the event builder, and the parse
//! state.  Its driver feeds it chunks with [`EventStream::push_chunk`],
//! signals upstream end with [`EventStream::finish`], and pulls parsed
//! events with [`EventStream::next_event`]; any chunking of the same bytes
//! yields the same outputs.  Awaiting the next chunk is the driver's
//! business: the machine itself never blocks.

use vstd::prelude::*;
use vstd::utf8::encode_utf8;

use crate::event::Event;
use crate::event_stream::{
    add_line, after_bom, append_bytes, bom_bytes, bom_decided, committed, continues,
    event_shape_wf, init_builder, is_bom_prefix, lemma_after_bom_append, lemma_continue_append,
    lemma_continue_drained, lemma_continue_step, lemma_dispatch_event, lemma_run_rest_cr,
    process_line, run, stream_items, EventBuilder, EventStreamState, OutItem,
};
use crate::parser::{
    find_terminator, lemma_find_terminator_bounds, lemma_find_terminator_none,
    parse_line_from_buffer, split_front,
};
use crate::utf8::Utf8Error;
use crate::{CR, LF};

verus! {

broadcast use vstd::utf8::encode_utf8_valid_utf8;

/// Streaming state machine that turns a chunked byte sequence into SSE
/// events.
pub struct EventStream {
    buffer: Vec<u8>,
    builder: EventBuilder,
    state: EventStreamState,
    last_event_id: String,
    fed: Ghost<Seq<u8>>,
    emitted: Ghost<Seq<OutItem>>,
}

impl EventStream {
    /// All bytes handed to the machine so far, in order.
    pub closed spec fn fed(&self) -> Seq<u8> {
        self.fed@
    }

    /// All items the machine has produced so far, in order.
    pub closed spec fn emitted(&self) -> Seq<OutItem> {
        self.emitted@
    }

    /// True once upstream end has been signalled.
    pub closed spec fn terminated(&self) -> bool {
        self.state == EventStreamState::Terminated
    }

    /// The current last event ID, as UTF-8 bytes.
    pub closed spec fn last_id(&self) -> Seq<u8> {
        encode_utf8(self.last_event_id@)
    }

    /// The unconsumed bytes of the work buffer.
    pub closed spec fn residue(&self) -> Seq<u8> {
        self.buffer@
    }

    /// The logical input against which the buffer continues: what has been
    /// fed, after the byte-order-mark strip, and, once terminated, with a
    /// trailing lone `CR` committed.
    pub closed spec fn logical_input(&self) -> Seq<u8> {
        match self.state {
            EventStreamState::NotStarted => self.fed@,
            EventStreamState::Started => after_bom(self.fed@),
            EventStreamState::Terminated => committed(self.fed@),
        }
    }

    /// Machine invariant: the buffer and builder continue the parse of the
    /// input seen so far, with the byte-order-mark decision tracked by the
    /// parse state.
    pub closed spec fn wf(&self) -> bool {
        &&& self.builder.wf()
        &&& continues(self.logical_input(), self.buffer@, self.builder@, self.emitted@)
        &&& match self.state {
            EventStreamState::NotStarted => {
                &&& self.buffer@ == self.fed@
                &&& self.builder@ == init_builder()
                &&& self.emitted@ == Seq::<OutItem>::empty()
                &&& is_bom_prefix(self.fed@)
            },
            EventStreamState::Started => bom_decided(self.fed@),
            EventStreamState::Terminated => true,
        }
    }

    /// A fresh machine that has seen no input.
    pub fn new() -> (r: Self)
        ensures
            r.wf(),
            r.fed() == Seq::<u8>::empty(),
            r.emitted() == Seq::<OutItem>::empty(),
            !r.terminated(),
            r.last_id() == Seq::<u8>::empty(),
    {
        let r = EventStream {
            buffer: Vec::new(),
            builder: EventBuilder::new(),
            state: EventStreamState::NotStarted,
            last_event_id: String::new(),
            fed: Ghost(Seq::empty()),
            emitted: Ghost(Seq::empty()),
        };
        proof {
            assert(r.fed@ =~= bom_bytes().take(0));
            assert(Seq::<OutItem>::empty() + run(r.fed@, init_builder()).items =~= run(
                r.fed@,
                init_builder(),
            ).items);
        }
        r
    }

    /// Seeds the last event ID, for resuming a consumer over a new
    /// transport.
    pub fn set_last_event_id(&mut self, id: String)
        ensures
            final(self).wf() == old(self).wf(),
            final(self).fed() == old(self).fed(),
            final(self).emitted() == old(self).emitted(),
            final(self).terminated() == old(self).terminated(),
            final(self).last_id() == encode_utf8(id@),
    {
        self.last_event_id = id;
    }

    /// The ID of the most recently emitted event, or what
    /// [`Self::set_last_event_id`] seeded.
    pub fn last_event_id(&self) -> (r: &String)
        ensures
            encode_utf8(r@) == self.last_id(),
    {
        &self.last_event_id
    }

    /// Surrenders the residual buffered bytes.
    pub fn take_buffer(self) -> (r: Vec<u8>)
        ensures
            r@ == self.residue(),
    {
        self.buffer
    }

    /// True once upstream end has been signalled; no more chunks may be
    /// pushed then.
    pub fn is_terminated(&self) -> (r: bool)
        ensures
            r == self.terminated(),
    {
        self.state.is_terminated()
    }

    /// Appends one upstream chunk.  An empty chunk changes nothing; the
    /// first three bytes of the stream decide the byte-order-mark strip.
    pub fn push_chunk(&mut self, chunk: &[u8])
        requires
            old(self).wf(),
            !old(self).terminated(),
        ensures
            final(self).wf(),
            !final(self).terminated(),
            final(self).fed() == old(self).fed() + chunk@,
            final(self).emitted() == old(self).emitted(),
            final(self).last_id() == old(self).last_id(),
    {
        proof {
            self.fed@ = self.fed@ + chunk@;
        }
        if chunk.len() == 0 {
            proof {
                assert(self.fed@ =~= old(self).fed@);
            }
            return;
        }
        append_bytes(&mut self.buffer, chunk);
        match self.state {
            EventStreamState::NotStarted => {
                let n = self.buffer.len();
                if n >= 3 {
                    self.state = EventStreamState::Started;
                    if self.buffer[0] == 0xef && self.buffer[1] == 0xbb && self.buffer[2] == 0xbf {
                        proof {
                            assert(self.fed@.take(3) =~= bom_bytes());
                        }
                        let _ = split_front(&mut self.buffer, 0, 3);
                        proof {
                            assert(self.buffer@ == after_bom(self.fed@));
                        }
                    } else {
                        proof {
                            if self.fed@.take(3) == bom_bytes() {
                                assert(self.fed@[0] == 0xef && self.fed@[1] == 0xbb && self.fed@[2]
                                    == 0xbf);
                            }
                            assert(self.buffer@ == after_bom(self.fed@));
                        }
                    }
                    proof {
                        assert(self.emitted@ + run(self.buffer@, init_builder()).items =~= run(
                            self.buffer@,
                            init_builder(),
                        ).items);
                    }
                } else {
                    // fewer than three bytes: wait if they may still be a
                    // byte-order mark, else start parsing
                    let still_bom = if n == 1 {
                        self.buffer[0] == 0xef
                    } else {
                        self.buffer[0] == 0xef && self.buffer[1] == 0xbb
                    };
                    proof {
                        if still_bom {
                            assert(self.fed@ =~= bom_bytes().take(self.fed@.len() as int));
                        } else {
                            if self.fed@ == bom_bytes().take(self.fed@.len() as int) {
                                assert(self.fed@[0] == bom_bytes().take(
                                    self.fed@.len() as int,
                                )[0]);
                                if self.fed@.len() == 2 {
                                    assert(self.fed@[1] == bom_bytes().take(
                                        self.fed@.len() as int,
                                    )[1]);
                                }
                            }
                            assert(after_bom(self.fed@) == self.fed@);
                        }
                        assert(self.emitted@ + run(self.buffer@, init_builder()).items =~= run(
                            self.buffer@,
                            init_builder(),
                        ).items);
                    }
                    if !still_bom {
                        self.state = EventStreamState::Started;
                    }
                }
            },
            EventStreamState::Started => {
                proof {
                    lemma_after_bom_append(old(self).fed@, chunk@);
                    lemma_continue_append(
                        after_bom(old(self).fed@),
                        chunk@,
                        old(self).buffer@,
                        self.builder@,
                        self.emitted@,
                    );
                    if self.fed@.len() < 3 && self.fed@ == bom_bytes().take(
                        self.fed@.len() as int,
                    ) {
                        assert forall|j: int| 0 <= j < old(self).fed@.len() implies old(
                            self,
                        ).fed@[j] == bom_bytes().take(old(self).fed@.len() as int)[j] by {
                            assert(old(self).fed@[j] == self.fed@[j]);
                        }
                        assert(old(self).fed@ =~= bom_bytes().take(old(self).fed@.len() as int));
                    }
                }
            },
            EventStreamState::Terminated => {},
        }
    }

    /// Signals upstream end: a trailing lone `CR` is committed by a
    /// synthetic `LF`, and nothing more may be pushed.
    pub fn finish(&mut self)
        requires
            old(self).wf(),
            !old(self).terminated(),
        ensures
            final(self).wf(),
            final(self).terminated(),
            final(self).fed() == old(self).fed(),
            final(self).emitted() == old(self).emitted(),
            final(self).last_id() == old(self).last_id(),
    {
        proof {
            if self.state == EventStreamState::NotStarted {
                // the buffer holds at most two byte-order-mark bytes,
                // none of which is a carriage return
                assert(after_bom(self.fed@) == self.fed@);
                if self.fed@.len() > 0 {
                    assert(self.fed@.last() == bom_bytes().take(self.fed@.len() as int)[self.fed@.len()
                        - 1]);
                }
            }
            lemma_run_rest_cr(self.buffer@, self.builder@);
            lemma_run_rest_cr(after_bom(self.fed@), init_builder());
        }
        let n = self.buffer.len();
        if n > 0 && self.buffer[n - 1] == CR {
            self.buffer.push(LF);
            proof {
                assert(self.buffer@ =~= old(self).buffer@ + seq![LF]);
                assert(committed(self.fed@) == after_bom(self.fed@) + seq![LF]);
                lemma_continue_append(
                    after_bom(self.fed@),
                    seq![LF],
                    old(self).buffer@,
                    self.builder@,
                    self.emitted@,
                );
            }
        } else {
            proof {
                assert(committed(self.fed@) == after_bom(self.fed@));
            }
        }
        self.state = EventStreamState::Terminated;
    }

    /// Parses as far as the buffered bytes allow and returns the next
    /// output: the next event, a UTF-8 rejection of one field value (the
    /// line is consumed and parsing continues), or `Ok(None)` when the
    /// buffer holds no further complete output.  After [`Self::finish`],
    /// `Ok(None)` means the stream is exhausted and everything emitted over
    /// the machine's life is exactly the parse of the bytes fed, whatever
    /// the chunking was.
    pub fn next_event(&mut self) -> (r: Result<Option<Event>, Utf8Error>)
        requires
            old(self).wf(),
        ensures
            final(self).wf(),
            final(self).fed() == old(self).fed(),
            final(self).terminated() == old(self).terminated(),
            match r {
                Ok(Some(e)) => {
                    &&& final(self).emitted() == old(self).emitted().push(OutItem::Event(e@))
                    &&& final(self).last_id() == e@.id
                    &&& event_shape_wf(e@)
                },
                Ok(None) => {
                    &&& final(self).emitted() == old(self).emitted()
                    &&& final(self).last_id() == old(self).last_id()
                    &&& (final(self).terminated() ==> final(self).emitted() == stream_items(
                        final(self).fed(),
                    ))
                },
                Err(u) => final(self).emitted() == old(self).emitted().push(
                    OutItem::BadUtf8(u.valid_up_to as int),
                ) && final(self).last_id() == old(self).last_id(),
            },
    {
        loop
            invariant
                self.wf(),
                self.fed@ == old(self).fed@,
                self.state == old(self).state,
                self.emitted@ == old(self).emitted@,
                self.last_event_id == old(self).last_event_id,
            decreases self.buffer@.len(),
        {
            let ghost x = self.logical_input();
            let ghost buf0 = self.buffer@;
            let ghost b0 = self.builder@;
            let ghost em0 = self.emitted@;
            proof {
                lemma_find_terminator_bounds(buf0);
            }
            let line = match parse_line_from_buffer(&mut self.buffer) {
                None => {
                    proof {
                        if self.state == EventStreamState::Terminated {
                            lemma_continue_drained(x, buf0, b0, em0);
                        }
                    }
                    return Ok(None);
                },
                Some(line) => line,
            };
            let ghost p = find_terminator(buf0)->Some_0;
            proof {
                if self.state == EventStreamState::NotStarted {
                    // a byte-order-mark prefix holds no line terminator, so
                    // no line can have been parsed before the decision
                    assert forall|j: int| 0 <= j < buf0.len() implies buf0[j] != CR && buf0[j]
                        != LF by {
                        assert(buf0[j] == bom_bytes().take(buf0.len() as int)[j]);
                    }
                    lemma_find_terminator_none(buf0);
                }
                lemma_continue_step(x, buf0, b0, em0);
            }
            match line.validate() {
                Err(e) => {
                    proof {
                        let it = OutItem::BadUtf8(e.valid_up_to as int);
                        assert(process_line(b0, buf0.take(p.0)) == (b0, Some(it)));
                        self.emitted@ = em0.push(it);
                    }
                    return Err(e);
                },
                Ok(validated) => {
                    let ghost b1 = add_line(b0, validated@);
                    self.builder.add(validated);
                    if self.builder.complete() {
                        proof {
                            lemma_dispatch_event(b1);
                        }
                        match self.builder.dispatch() {
                            Some(event) => {
                                self.last_event_id = event.id.clone();
                                proof {
                                    let it = OutItem::Event(event@);
                                    assert(process_line(b0, buf0.take(p.0)) == (
                                        self.builder@,
                                        Some(it),
                                    ));
                                    self.emitted@ = em0.push(it);
                                }
                                return Ok(Some(event));
                            },
                            None => {
                                proof {
                                    assert(process_line(b0, buf0.take(p.0)) == (
                                        self.builder@,
                                        None::<OutItem>,
                                    ));
                                }
                            },
                        }
                    } else {
                        proof {
                            assert(process_line(b0, buf0.take(p.0)) == (b1, None::<OutItem>));
                        }
                    }
                },
            }
        }
    }
}

} // verus!
