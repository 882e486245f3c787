//! Byte-chunk to text stitcher.
//!
//! Buffers a trailing incomplete codepoint across chunk boundaries and
//! emits only valid UTF-8 text, preserving byte order.  Each pushed chunk
//! yields the longest valid prefix of what is buffered; at upstream end a
//! leftover that is not valid UTF-8 is reported as an error.

use vstd::prelude::*;
use vstd::utf8::{encode_utf8, valid_utf8};

use crate::event_stream::append_bytes;
use crate::parser::split_front;
use crate::utf8::{
    lemma_utf8_prefix_len_bounds, lemma_utf8_prefix_len_whole, lemma_utf8_prefix_valid,
    string_from_utf8, utf8_prefix_len, utf8_valid_prefix, Utf8Error,
};

verus! {

/// State machine that validates a chunked byte sequence as UTF-8 text.
pub struct Utf8Stream {
    buffer: Vec<u8>,
    terminated: bool,
}

impl Utf8Stream {
    /// Bytes received but not yet emitted: a trailing incomplete or invalid
    /// sequence.
    pub closed spec fn residue(&self) -> Seq<u8> {
        self.buffer@
    }

    /// True once upstream end has been signalled.
    pub closed spec fn terminated(&self) -> bool {
        self.terminated
    }

    /// A fresh stitcher with nothing buffered.
    pub fn new() -> (r: Self)
        ensures
            r.residue() == Seq::<u8>::empty(),
            !r.terminated(),
    {
        Utf8Stream { buffer: Vec::new(), terminated: false }
    }

    /// True once upstream end has been signalled; no more chunks may be
    /// pushed then.
    pub fn is_terminated(&self) -> (r: bool)
        ensures
            r == self.terminated(),
    {
        self.terminated
    }

    /// Appends one chunk and returns the longest prefix of the buffered
    /// bytes that is valid UTF-8; the rest stays buffered.  On an invalid
    /// byte the returned text ends just before it, and the offending bytes
    /// remain until upstream end reports them.
    pub fn push_chunk(&mut self, chunk: &[u8]) -> (r: String)
        requires
            !old(self).terminated(),
        ensures
            !final(self).terminated(),
            ({
                let all = old(self).residue() + chunk@;
                let k = utf8_prefix_len(all);
                &&& encode_utf8(r@) == all.take(k)
                &&& final(self).residue() == all.skip(k)
            }),
    {
        append_bytes(&mut self.buffer, chunk);
        let k = utf8_valid_prefix(self.buffer.as_slice());
        proof {
            lemma_utf8_prefix_len_bounds(self.buffer@);
            lemma_utf8_prefix_valid(self.buffer@);
        }
        let emitted = split_front(&mut self.buffer, k, k);
        string_from_utf8(emitted.as_slice())
    }

    /// Signals upstream end.  Nothing buffered yields nothing; a valid
    /// leftover is emitted whole; an invalid leftover is reported with the
    /// length of its longest valid prefix.
    pub fn finish(&mut self) -> (r: Option<Result<String, Utf8Error>>)
        requires
            !old(self).terminated(),
        ensures
            final(self).terminated(),
            final(self).residue() == Seq::<u8>::empty(),
            match r {
                None => old(self).residue().len() == 0,
                Some(Ok(s)) => old(self).residue().len() > 0 && valid_utf8(old(self).residue())
                    && encode_utf8(s@) == old(self).residue(),
                Some(Err(e)) => old(self).residue().len() > 0 && !valid_utf8(old(self).residue())
                    && e.valid_up_to == utf8_prefix_len(old(self).residue()),
            },
    {
        self.terminated = true;
        if self.buffer.is_empty() {
            return None;
        }
        let k = utf8_valid_prefix(self.buffer.as_slice());
        proof {
            lemma_utf8_prefix_len_whole(self.buffer@);
        }
        if k == self.buffer.len() {
            let mut taken = Vec::new();
            core::mem::swap(&mut self.buffer, &mut taken);
            Some(Ok(string_from_utf8(taken.as_slice())))
        } else {
            self.buffer.clear();
            Some(Err(Utf8Error { valid_up_to: k }))
        }
    }
}

} // verus!
