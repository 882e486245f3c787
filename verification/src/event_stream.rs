//! Event builder and the byte-level model of event-stream interpretation.
//!
//! The builder accumulates validated lines into a partial event and emits a
//! complete event at each empty line, following the event-stream
//! interpretation rules of the HTML Living Standard.  The spec functions
//! here form the reference model of the whole pipeline: [`run`] parses a
//! byte sequence line by line and yields the emitted items, the unconsumed
//! tail, and the final builder state.  The adapter state machines in the
//! submodules are verified against this model.

pub mod bytes;
pub mod generic;

use vstd::prelude::*;
use vstd::utf8::{
    encode_utf8, is_continuation_byte, is_leading_byte_width_1, valid_utf8, valid_utf8_concat,
    valid_utf8_split,
};

use crate::event::{Event, EventShape};
use crate::parser::{
    classify_line, find_terminator, validate_shape, FieldName, ValidShape, ValidatedEventLine,
};
use crate::utf8::string_from_utf8;
use crate::LF;

verus! {

broadcast use vstd::utf8::encode_utf8_valid_utf8;

/// Ghost state of the event builder.
#[verifier::ext_equal]
pub struct BuilderShape {
    /// The event type buffer, as UTF-8 bytes.
    pub event: Seq<u8>,
    /// The last event ID buffer, as UTF-8 bytes; persists across dispatches.
    pub id: Seq<u8>,
    /// Accumulated data lines, each followed by one `LF`.
    pub data: Seq<u8>,
    /// Reconnection time in milliseconds, if a valid `retry:` field arrived.
    pub retry: Option<u64>,
    /// Set by an empty line; dispatch resets it.
    pub is_complete: bool,
}

/// The builder's initial state.
pub open spec fn init_builder() -> BuilderShape {
    BuilderShape {
        event: Seq::empty(),
        id: Seq::empty(),
        data: Seq::empty(),
        retry: None,
        is_complete: false,
    }
}

/// The bytes of the default event type `message`.
pub open spec fn message_bytes() -> Seq<u8> {
    seq![109, 101, 115, 115, 97, 103, 101]
}

/// True when the value contains a NUL byte; such an `id:` value is ignored.
pub open spec fn has_nul(v: Seq<u8>) -> bool {
    exists|j: int| 0 <= j < v.len() && v[j] == 0
}

/// True when every byte is an ASCII decimal digit and there is at least one.
pub open spec fn all_digits(s: Seq<u8>) -> bool {
    s.len() > 0 && forall|j: int| 0 <= j < s.len() ==> 48 <= #[trigger] s[j] <= 57
}

/// Value of a sequence of decimal digits.
pub open spec fn dec_value(s: Seq<u8>) -> int
    decreases s.len(),
{
    if s.len() == 0 {
        0
    } else {
        dec_value(s.drop_last()) * 10 + (s.last() - 48)
    }
}

/// A `retry:` value parses like `u64::from_str`: an optional leading `+`,
/// then one or more decimal digits, with the value fitting in 64 bits.
pub open spec fn retry_millis(v: Seq<u8>) -> Option<u64> {
    let d = if v.len() > 0 && v[0] == 43 {
        v.skip(1)
    } else {
        v
    };
    if all_digits(d) && dec_value(d) <= u64::MAX {
        Some(dec_value(d) as u64)
    } else {
        None
    }
}

/// One step of the HTML specification's field processing.
pub open spec fn add_line(b: BuilderShape, l: ValidShape) -> BuilderShape {
    match l {
        ValidShape::Empty => BuilderShape { is_complete: true, ..b },
        ValidShape::Comment => b,
        ValidShape::Field { name, value } => match name {
            FieldName::Event => match value {
                Some(v) => BuilderShape { event: v, ..b },
                None => b,
            },
            FieldName::Data => {
                let v = match value {
                    Some(v) => v,
                    None => Seq::empty(),
                };
                BuilderShape { data: b.data + v + seq![LF], ..b }
            },
            FieldName::Id => {
                let v = match value {
                    Some(v) => v,
                    None => Seq::empty(),
                };
                if has_nul(v) {
                    b
                } else {
                    BuilderShape { id: v, ..b }
                }
            },
            FieldName::Retry => match value {
                Some(v) => match retry_millis(v) {
                    Some(ms) => BuilderShape { retry: Some(ms), ..b },
                    None => b,
                },
                None => b,
            },
            FieldName::Ignored => b,
        },
    }
}

/// Dispatch per the HTML specification: with an empty data buffer no event
/// is emitted and only `event` and `retry` reset; otherwise the data
/// buffer's trailing `LF` is removed, an empty event type defaults to
/// `message`, and the sticky `id` is carried into the event.
pub open spec fn dispatch_result(b: BuilderShape) -> (BuilderShape, Option<EventShape>) {
    let reset = BuilderShape {
        event: Seq::empty(),
        id: b.id,
        data: Seq::empty(),
        retry: None,
        is_complete: false,
    };
    if b.data.len() == 0 {
        (reset, None)
    } else {
        let data = if b.data.last() == LF {
            b.data.drop_last()
        } else {
            b.data
        };
        let ev = if b.event.len() == 0 {
            message_bytes()
        } else {
            b.event
        };
        (reset, Some(EventShape { event: ev, data, id: b.id, retry: b.retry }))
    }
}

/// An output of the stream: a parsed event, or a UTF-8 rejection carrying
/// the valid prefix length of the offending value.
pub enum OutItem {
    Event(EventShape),
    BadUtf8(int),
}

/// Processing of one complete line: validation, field handling, and
/// dispatch when the line was empty.  A value that is not valid UTF-8
/// produces an error item and leaves the builder unchanged; the line is
/// consumed either way.
pub open spec fn process_line(b: BuilderShape, line: Seq<u8>) -> (BuilderShape, Option<OutItem>) {
    match validate_shape(classify_line(line)) {
        Err(p) => (b, Some(OutItem::BadUtf8(p))),
        Ok(vl) => {
            let b1 = add_line(b, vl);
            if b1.is_complete {
                let r = dispatch_result(b1);
                (
                    r.0,
                    match r.1 {
                        Some(e) => Some(OutItem::Event(e)),
                        None => None,
                    },
                )
            } else {
                (b1, None)
            }
        },
    }
}

/// Result of running the parser over a byte sequence: the emitted items in
/// order, the unconsumed tail (holding no complete line), and the final
/// builder state.
#[verifier::ext_equal]
pub struct RunResult {
    pub items: Seq<OutItem>,
    pub rest: Seq<u8>,
    pub builder: BuilderShape,
}

/// The reference model of the pipeline: consume complete lines from the
/// front of `s`, processing each, until no complete line remains.
pub open spec fn run(s: Seq<u8>, b: BuilderShape) -> RunResult
    decreases s.len(),
    via run_decreases
{
    match find_terminator(s) {
        None => RunResult { items: Seq::empty(), rest: s, builder: b },
        Some(p) => {
            let step = process_line(b, s.take(p.0));
            let r = run(s.skip(p.1), step.0);
            RunResult {
                items: match step.1 {
                    Some(it) => seq![it] + r.items,
                    None => r.items,
                },
                rest: r.rest,
                builder: r.builder,
            }
        },
    }
}

#[via_fn]
proof fn run_decreases(s: Seq<u8>, b: BuilderShape) {
    crate::parser::lemma_find_terminator_bounds(s);
}

/// Streaming decomposition: parsing `s + t` is parsing `s`, then parsing
/// its unconsumed tail extended by `t`, with the emitted items
/// concatenated.  This is the heart of chunk-boundary invariance.
pub proof fn lemma_run_append(s: Seq<u8>, t: Seq<u8>, b: BuilderShape)
    ensures
        ({
            let r1 = run(s, b);
            let r2 = run(r1.rest + t, r1.builder);
            run(s + t, b) == RunResult {
                items: r1.items + r2.items,
                rest: r2.rest,
                builder: r2.builder,
            }
        }),
    decreases s.len(),
{
    crate::parser::lemma_find_terminator_bounds(s);
    match find_terminator(s) {
        None => {
            let r1 = run(s, b);
            assert(r1.rest == s);
            let r2 = run(s + t, b);
            assert(r1.items + r2.items =~= r2.items);
        },
        Some(p) => {
            crate::parser::lemma_find_terminator_append(s, t);
            let step = process_line(b, s.take(p.0));
            lemma_run_append(s.skip(p.1), t, step.0);
            let r1 = run(s.skip(p.1), step.0);
            let r2 = run(r1.rest + t, r1.builder);
            match step.1 {
                Some(it) => {
                    assert((seq![it] + r1.items) + r2.items =~= seq![it] + (r1.items + r2.items));
                },
                None => {},
            }
        },
    }
}

/// A character sequence is empty exactly when its UTF-8 encoding is.
pub proof fn lemma_encode_empty(chars: Seq<char>)
    ensures
        (encode_utf8(chars).len() == 0) <==> (chars.len() == 0),
{
}

/// A sequence of ASCII bytes is valid UTF-8.
pub proof fn lemma_ascii_valid(s: Seq<u8>)
    requires
        forall|j: int| 0 <= j < s.len() ==> #[trigger] s[j] < 0x80,
    ensures
        valid_utf8(s),
{
    assert(s.subrange(0, 0) =~= Seq::<u8>::empty());
    assert(vstd::utf8::partial_valid_utf8(s, 0));
    assert forall|i: int| 0 <= 0 <= i < s.len() <= s.len() implies is_leading_byte_width_1(
        #[trigger] s[i],
    ) by {}
    vstd::utf8::partial_valid_utf8_extend_ascii_block(s, 0, s.len() as int);
    assert(s.subrange(0, s.len() as int) =~= s);
}

/// Continuing from a machine's buffer and builder reproduces exactly the
/// parse of the whole logical input `x`, minus the items already emitted.
pub open spec fn continues(
    x: Seq<u8>,
    buffer: Seq<u8>,
    b: BuilderShape,
    emitted: Seq<OutItem>,
) -> bool {
    let full = run(x, init_builder());
    let cont = run(buffer, b);
    &&& emitted + cont.items == full.items
    &&& cont.rest == full.rest
    &&& cont.builder == full.builder
}

/// Appending the same bytes to the logical input and to the buffer
/// preserves continuation.
pub proof fn lemma_continue_append(
    x: Seq<u8>,
    c: Seq<u8>,
    buf: Seq<u8>,
    b: BuilderShape,
    em: Seq<OutItem>,
)
    requires
        continues(x, buf, b, em),
    ensures
        continues(x + c, buf + c, b, em),
{
    lemma_run_append(x, c, init_builder());
    lemma_run_append(buf, c, b);
    let full = run(x, init_builder());
    let cont = run(buf, b);
    let ext = run(full.rest + c, full.builder);
    assert(em + (cont.items + ext.items) =~= (em + cont.items) + ext.items);
}

/// Consuming one complete line from the buffer preserves continuation; the
/// line's output item, if any, moves to the emitted items.
pub proof fn lemma_continue_step(x: Seq<u8>, buf: Seq<u8>, b: BuilderShape, em: Seq<OutItem>)
    requires
        continues(x, buf, b, em),
        find_terminator(buf) is Some,
    ensures
        ({
            let p = find_terminator(buf)->Some_0;
            let step = process_line(b, buf.take(p.0));
            match step.1 {
                Some(it) => continues(x, buf.skip(p.1), step.0, em.push(it)),
                None => continues(x, buf.skip(p.1), step.0, em),
            }
        }),
{
    let p = find_terminator(buf)->Some_0;
    let step = process_line(b, buf.take(p.0));
    let r = run(buf.skip(p.1), step.0);
    match step.1 {
        Some(it) => {
            assert(em.push(it) + r.items =~= em + (seq![it] + r.items));
        },
        None => {},
    }
}

/// A buffer with no complete line contributes nothing more: the emitted
/// items are the whole parse of the logical input.
pub proof fn lemma_continue_drained(x: Seq<u8>, buf: Seq<u8>, b: BuilderShape, em: Seq<OutItem>)
    requires
        continues(x, buf, b, em),
        find_terminator(buf) is None,
    ensures
        em == run(x, init_builder()).items,
{
    assert(em + run(buf, b).items =~= em);
}

/// The UTF-8 byte-order mark, `0xEF 0xBB 0xBF`.
pub open spec fn bom_bytes() -> Seq<u8> {
    seq![0xef, 0xbb, 0xbf]
}

/// True while the bytes seen so far could still turn out to be a byte-order
/// mark: fewer than three bytes, all matching the mark so far.
pub open spec fn is_bom_prefix(s: Seq<u8>) -> bool {
    s.len() < 3 && s == bom_bytes().take(s.len() as int)
}

/// The input after the one-shot byte-order-mark strip at offset zero.
pub open spec fn after_bom(s: Seq<u8>) -> Seq<u8> {
    if s.len() >= 3 && s.take(3) == bom_bytes() {
        s.skip(3)
    } else {
        s
    }
}

/// A trailing lone `CR`, deferred while more input could follow, is
/// committed at end of input by a synthetic `LF`.
pub open spec fn commit_trailing_cr(t: Seq<u8>) -> Seq<u8> {
    if t.len() > 0 && t.last() == crate::CR {
        t + seq![LF]
    } else {
        t
    }
}

/// The input as finally parsed once upstream ends: the byte-order mark
/// stripped, and a trailing lone `CR` committed.
pub open spec fn committed(s: Seq<u8>) -> Seq<u8> {
    commit_trailing_cr(after_bom(s))
}

/// The full output of a stream whose chunks concatenate to `s`: a function
/// of the concatenated bytes alone, whatever the chunking.
pub open spec fn stream_items(s: Seq<u8>) -> Seq<OutItem> {
    run(committed(s), init_builder()).items
}

/// Once at least three bytes have arrived, or the bytes already differ from
/// the byte-order mark, the strip decision is final.
pub open spec fn bom_decided(s: Seq<u8>) -> bool {
    s.len() >= 3 || !(s == bom_bytes().take(s.len() as int))
}

/// After the decision, later bytes pass the strip untouched.
pub proof fn lemma_after_bom_append(s: Seq<u8>, c: Seq<u8>)
    requires
        bom_decided(s),
    ensures
        after_bom(s + c) == after_bom(s) + c,
{
    if s.len() >= 3 {
        assert((s + c).take(3) =~= s.take(3));
        if s.take(3) == bom_bytes() {
            assert((s + c).skip(3) =~= s.skip(3) + c);
        }
    } else {
        assert(s != bom_bytes().take(s.len() as int));
        assert(exists|j: int| 0 <= j < s.len() && s[j] != bom_bytes()[j]) by {
            if forall|j: int| 0 <= j < s.len() ==> #[trigger] s[j] == bom_bytes()[j] {
                assert(s =~= bom_bytes().take(s.len() as int));
            }
        }
        let j = choose|j: int| 0 <= j < s.len() && s[j] != bom_bytes()[j];
        if (s + c).len() >= 3 && (s + c).take(3) == bom_bytes() {
            assert((s + c).take(3)[j] == s[j]);
        }
    }
}

/// The unconsumed tail ends in `CR` exactly when the input does: no
/// terminator ever consumes a final `CR`, which is deferred instead.
pub proof fn lemma_run_rest_cr(s: Seq<u8>, b: BuilderShape)
    ensures
        (run(s, b).rest.len() > 0 && run(s, b).rest.last() == crate::CR) <==> (s.len() > 0
            && s.last() == crate::CR),
    decreases s.len(),
{
    crate::parser::lemma_find_terminator_bounds(s);
    match find_terminator(s) {
        None => {},
        Some(p) => {
            let step = process_line(b, s.take(p.0));
            lemma_run_rest_cr(s.skip(p.1), step.0);
            lemma_terminator_not_last_cr(s);
            if p.1 < s.len() {
                assert(s.skip(p.1).last() == s.last());
            }
        },
    }
}

/// A terminator never lies at the very end of a sequence that ends in `CR`.
proof fn lemma_terminator_not_last_cr(s: Seq<u8>)
    requires
        find_terminator(s) is Some,
    ensures
        s.len() > 0 && s.last() == crate::CR ==> find_terminator(s)->Some_0.1 < s.len(),
    decreases s.len(),
{
    crate::parser::lemma_find_terminator_bounds(s);
    if s.len() > 0 && s[0] != LF && s[0] != crate::CR {
        if find_terminator(s.skip(1)) is Some {
            lemma_terminator_not_last_cr(s.skip(1));
            if s.len() > 1 {
                assert(s.skip(1).last() == s.last());
            }
        }
    }
}

/// What dispatch emits: a nonempty event type that is `message` unless an
/// `event:` field set it, the data buffer with its trailing `LF` removed,
/// the sticky `id`, and the pending `retry`.  No event is emitted exactly
/// when the data buffer is empty.
pub proof fn lemma_dispatch_event(b: BuilderShape)
    ensures
        dispatch_result(b).1 is Some <==> b.data.len() > 0,
        match dispatch_result(b).1 {
            Some(e) => e.event.len() > 0 && (b.event.len() == 0 ==> e.event == message_bytes()) && (
            b.event.len() > 0 ==> e.event == b.event) && e.id == b.id && e.retry == b.retry
                && e.data == (if b.data.last() == LF {
                b.data.drop_last()
            } else {
                b.data
            }),
            None => b.data.len() == 0,
        },
{
}

/// Concatenation of a sequence of chunks.
pub open spec fn concat_all(chunks: Seq<Seq<u8>>) -> Seq<u8>
    decreases chunks.len(),
{
    if chunks.len() == 0 {
        Seq::empty()
    } else {
        chunks.first() + concat_all(chunks.drop_first())
    }
}

/// Chunk-boundary invariance.  A machine only ever appends each pushed
/// chunk to its input record, and once finished and drained its outputs
/// are exactly [`stream_items`] of that record; since [`stream_items`] is
/// a function of the concatenated bytes alone, any two chunkings of the
/// same byte sequence produce the identical output sequence.
pub proof fn lemma_chunking_invariant(a: Seq<Seq<u8>>, b: Seq<Seq<u8>>)
    requires
        concat_all(a) == concat_all(b),
    ensures
        stream_items(concat_all(a)) == stream_items(concat_all(b)),
{
}

/// The emitted `data` never ends with a separating `LF` when the event's
/// final data line is nonempty: the `LF` appended after each data line is
/// removed at dispatch.  (When the final data line is itself empty, the
/// data ends with the `\n` joining it to the line before, so that input is
/// left out here.)
pub proof fn lemma_data_no_trailing_lf(b: BuilderShape)
    requires
        builder_wf(b),
        b.data.len() > 0,
        b.data.len() >= 2 ==> b.data[b.data.len() - 2] != LF,
    ensures
        dispatch_result(b).1 is Some,
        ({
            let d = dispatch_result(b).1->Some_0.data;
            d.len() == 0 || d.last() != LF
        }),
{
}

/// The emitted event type is never empty: it is `message` unless an
/// `event:` field set it to a nonempty value.
pub proof fn lemma_event_type(b: BuilderShape)
    ensures
        match dispatch_result(b).1 {
            Some(e) => e.event.len() > 0 && (e.event == message_bytes() || e.event == b.event),
            None => true,
        },
{
}

/// The sticky ID.  Only an `id:` field whose value has no NUL byte changes
/// the ID accumulator, which starts empty; every dispatched event carries
/// exactly the accumulator, and dispatch preserves it.
pub proof fn lemma_id_sticky(b: BuilderShape, l: ValidShape)
    ensures
        match l {
            ValidShape::Field { name: FieldName::Id, value } => {
                let v = match value {
                    Some(v) => v,
                    None => Seq::<u8>::empty(),
                };
                add_line(b, l).id == if has_nul(v) {
                    b.id
                } else {
                    v
                }
            },
            _ => add_line(b, l).id == b.id,
        },
        init_builder().id == Seq::<u8>::empty(),
        dispatch_result(b).0.id == b.id,
        match dispatch_result(b).1 {
            Some(e) => e.id == b.id,
            None => true,
        },
{
}

/// A comment line is inert: between events, processing a line that begins
/// with a colon leaves the builder exactly as it was and emits nothing.
pub proof fn lemma_comment_inert(b: BuilderShape, line: Seq<u8>)
    requires
        !b.is_complete,
        line.len() > 0,
        line[0] == crate::parser::COLON,
    ensures
        process_line(b, line) == (b, None::<OutItem>),
{
}

/// A byte-order mark at offset zero is stripped: the stream `BOM ++ s`
/// parses exactly as `s` does with no strip applied.
pub proof fn lemma_bom_stripped(s: Seq<u8>)
    ensures
        stream_items(bom_bytes() + s) == run(commit_trailing_cr(s), init_builder()).items,
{
    let w = bom_bytes() + s;
    assert(w.take(3) =~= bom_bytes());
    assert(w.skip(3) =~= s);
}

/// The strip is attempted only at offset zero: a stream that does not open
/// with the mark is parsed byte for byte, mark bytes elsewhere included.
pub proof fn lemma_bom_elsewhere_literal(s: Seq<u8>)
    requires
        !(s.len() >= 3 && s.take(3) == bom_bytes()),
    ensures
        stream_items(s) == run(commit_trailing_cr(s), init_builder()).items,
{
}

/// A trailing lone `CR` at end of input parses as a trailing `CRLF` does:
/// the final flush commits the deferred `CR`.
pub proof fn lemma_trailing_cr_eof(s: Seq<u8>)
    ensures
        stream_items(s + seq![crate::CR]) == stream_items(s + seq![crate::CR, LF]),
{
    let a = s + seq![crate::CR];
    let b = s + seq![crate::CR, LF];
    if s.len() >= 3 {
        assert(a.take(3) =~= s.take(3));
        assert(b.take(3) =~= s.take(3));
        if s.take(3) == bom_bytes() {
            let t = s.skip(3);
            assert(a.skip(3) =~= t + seq![crate::CR]);
            assert(b.skip(3) =~= t + seq![crate::CR, LF]);
            assert(commit_trailing_cr(t + seq![crate::CR]) =~= t + seq![crate::CR, LF]);
            assert(commit_trailing_cr(t + seq![crate::CR, LF]) =~= t + seq![crate::CR, LF]);
            assert(committed(a) == committed(b));
        } else {
            assert(commit_trailing_cr(a) =~= b);
            assert(commit_trailing_cr(b) =~= b);
            assert(committed(a) == committed(b));
        }
    } else {
        if a.len() >= 3 && a.take(3) == bom_bytes() {
            assert(a.take(3)[2] == a[2]);
            assert(a[2] == crate::CR);
            assert(false);
        }
        if b.len() >= 3 && b.take(3) == bom_bytes() {
            if s.len() == 2 {
                assert(b.take(3)[2] == crate::CR);
            } else if s.len() == 1 {
                assert(b.take(3)[1] == crate::CR);
            }
            assert(false);
        }
        assert(commit_trailing_cr(a) =~= b);
        assert(commit_trailing_cr(b) =~= b);
        assert(committed(a) == committed(b));
    }
}

/// Shape invariant of every emitted event: all fields are valid UTF-8 and
/// the event type is nonempty.
pub open spec fn event_shape_wf(e: EventShape) -> bool {
    &&& e.event.len() > 0
    &&& valid_utf8(e.event)
    &&& valid_utf8(e.data)
    &&& valid_utf8(e.id)
}

/// Well-formedness of the builder: the data buffer is valid UTF-8 and, when
/// nonempty, ends with the `LF` that closed its last data line.
pub open spec fn builder_wf(b: BuilderShape) -> bool {
    &&& valid_utf8(b.data)
    &&& b.data.len() > 0 ==> b.data.last() == LF
}

/// Values accepted by validation are valid UTF-8, so field processing
/// preserves builder well-formedness.
pub proof fn lemma_add_preserves_wf(b: BuilderShape, l: ValidShape)
    requires
        builder_wf(b),
        match l {
            ValidShape::Field { value: Some(v), .. } => valid_utf8(v),
            _ => true,
        },
    ensures
        builder_wf(add_line(b, l)),
{
    match l {
        ValidShape::Field { name: FieldName::Data, value } => {
            let v = match value {
                Some(v) => v,
                None => Seq::empty(),
            };
            assert(valid_utf8(v));
            assert(seq![LF][0] < 0x80);
            lemma_ascii_valid(seq![LF]);
            valid_utf8_concat(b.data, v);
            valid_utf8_concat(b.data + v, seq![LF]);
            assert(add_line(b, l).data =~= (b.data + v) + seq![LF]);
            assert(add_line(b, l).data.last() == LF);
        },
        _ => {},
    }
}

/// Removing the trailing `LF` from a well-formed nonempty data buffer
/// leaves valid UTF-8.
pub proof fn lemma_trim_valid(d: Seq<u8>)
    requires
        valid_utf8(d),
        d.len() > 0,
        d.last() == LF,
    ensures
        valid_utf8(d.drop_last()),
{
    vstd::utf8::is_char_boundary_iff_not_is_continuation_byte(d, d.len() - 1);
    assert(!is_continuation_byte(d[d.len() - 1]));
    valid_utf8_split(d, d.len() - 1);
    assert(d.drop_last() =~= d.subrange(0, d.len() - 1));
}

/// The event builder: accumulators for the event type, the sticky last
/// event ID, the data lines, and the reconnection time.
#[derive(Debug)]
pub(crate) struct EventBuilder {
    event: String,
    id: String,
    data_buffer: Vec<u8>,
    retry: Option<u64>,
    is_complete: bool,
}

impl View for EventBuilder {
    type V = BuilderShape;

    closed spec fn view(&self) -> BuilderShape {
        BuilderShape {
            event: encode_utf8(self.event@),
            id: encode_utf8(self.id@),
            data: self.data_buffer@,
            retry: self.retry,
            is_complete: self.is_complete,
        }
    }
}

/// Appends the bytes of `src` to `dst`.
pub(crate) fn append_bytes(dst: &mut Vec<u8>, src: &[u8])
    ensures
        final(dst)@ == old(dst)@ + src@,
{
    let n = src.len();
    let mut i: usize = 0;
    while i < n
        invariant
            i <= n,
            n == src@.len(),
            dst@ == old(dst)@ + src@.take(i as int),
        decreases n - i,
    {
        dst.push(*vstd::slice::slice_index_get(src, i));
        proof {
            assert(old(dst)@ + src@.take(i + 1) =~= (old(dst)@ + src@.take(i as int)).push(
                src@[i as int],
            ));
        }
        i += 1;
    }
    proof {
        assert(src@.take(n as int) =~= src@);
    }
}

/// Builds the default event type string `message`.
fn message_string() -> (r: String)
    ensures
        encode_utf8(r@) == message_bytes(),
{
    let mut v: Vec<u8> = Vec::new();
    v.push(109);
    v.push(101);
    v.push(115);
    v.push(115);
    v.push(97);
    v.push(103);
    v.push(101);
    proof {
        assert(v@ =~= message_bytes());
        lemma_ascii_valid(v@);
    }
    string_from_utf8(v.as_slice())
}

/// Parses a `retry:` value: an optional leading `+` and decimal digits,
/// rejected on any other byte or on 64-bit overflow.
fn parse_retry(v: &[u8]) -> (r: Option<u64>)
    ensures
        r == retry_millis(v@),
{
    let n = v.len();
    let start: usize = if n > 0 && *vstd::slice::slice_index_get(v, 0) == 43 {
        1
    } else {
        0
    };
    let ghost d = if v@.len() > 0 && v@[0] == 43 {
        v@.skip(1)
    } else {
        v@
    };
    proof {
        assert(d =~= v@.subrange(start as int, n as int));
    }
    if start == n {
        return None;
    }
    let mut acc: u64 = 0;
    let mut i: usize = start;
    while i < n
        invariant
            start <= i <= n,
            n == v@.len(),
            d == v@.subrange(start as int, n as int),
            d == (if v@.len() > 0 && v@[0] == 43 {
                v@.skip(1)
            } else {
                v@
            }),
            all_digits(d.take(i - start)) || i == start,
            acc == dec_value(d.take(i - start)),
            dec_value(d.take(i - start)) <= u64::MAX,
        decreases n - i,
    {
        let b = *vstd::slice::slice_index_get(v, i);
        if b < 48 || b > 57 {
            proof {
                assert(d[i - start] == b);
                assert(!all_digits(d));
                assert(retry_millis(v@) is None);
            }
            return None;
        }
        let digit = (b - 48) as u64;
        proof {
            assert(d.take(i + 1 - start).drop_last() =~= d.take(i - start));
            assert(d.take(i + 1 - start).last() == b);
        }
        if acc > (u64::MAX - digit) / 10 {
            proof {
                assert(acc * 10 + digit > u64::MAX) by (nonlinear_arith)
                    requires acc > (u64::MAX - digit) / 10 && digit <= 9;
                assert(dec_value(d.take(i + 1 - start)) == acc * 10 + digit);
                lemma_dec_value_monotone(d, i + 1 - start);
                assert(retry_millis(v@) is None);
            }
            return None;
        }
        acc = acc * 10 + digit;
        i += 1;
    }
    proof {
        assert(d.take(n - start) =~= d);
    }
    Some(acc)
}

/// A digit prefix never exceeds the value of the whole digit string.
proof fn lemma_dec_value_monotone(s: Seq<u8>, k: int)
    requires
        0 <= k <= s.len(),
    ensures
        all_digits(s) && k >= 1 ==> dec_value(s.take(k)) <= dec_value(s),
    decreases s.len() - k,
{
    if k < s.len() {
        lemma_dec_value_monotone(s, k + 1);
        if all_digits(s) && k >= 1 {
            assert(s.take(k + 1).drop_last() =~= s.take(k));
            assert(s.take(k + 1).last() == s[k]);
            assert(dec_value(s.take(k)) >= 0) by {
                lemma_dec_value_nonneg(s.take(k));
            }
        }
    } else {
        assert(s.take(k) =~= s);
    }
}

/// Digit strings have nonnegative values.
proof fn lemma_dec_value_nonneg(s: Seq<u8>)
    requires
        forall|j: int| 0 <= j < s.len() ==> 48 <= #[trigger] s[j] <= 57,
    ensures
        dec_value(s) >= 0,
    decreases s.len(),
{
    if s.len() > 0 {
        lemma_dec_value_nonneg(s.drop_last());
    }
}

impl EventBuilder {
    /// Executable well-formedness: the model-level builder invariant.
    pub open spec fn wf(&self) -> bool {
        builder_wf(self@)
    }

    /// A fresh builder.
    pub(crate) fn new() -> (b: Self)
        ensures
            b@ == init_builder(),
            b.wf(),
    {
        let b = EventBuilder {
            event: String::new(),
            id: String::new(),
            data_buffer: Vec::new(),
            retry: None,
            is_complete: false,
        };
        proof {
            assert(b@ =~= init_builder());
        }
        b
    }

    /// Processes one validated line per the HTML specification's field
    /// rules.
    pub(crate) fn add(&mut self, line: ValidatedEventLine)
        requires
            old(self).wf(),
        ensures
            final(self).wf(),
            final(self)@ == add_line(old(self)@, line@),
    {
        proof {
            lemma_add_preserves_wf(self@, line@);
        }
        match line {
            ValidatedEventLine::Empty => {
                self.is_complete = true;
            },
            ValidatedEventLine::Comment => {},
            ValidatedEventLine::Field { field_name: FieldName::Event, field_value } => {
                match field_value {
                    Some(v) => {
                        self.event = v;
                    },
                    None => {},
                }
            },
            ValidatedEventLine::Field { field_name: FieldName::Data, field_value } => {
                match field_value {
                    Some(v) => {
                        append_bytes(&mut self.data_buffer, v.as_str().as_bytes());
                    },
                    None => {},
                }
                self.data_buffer.push(LF);
                proof {
                    let v = match line@ {
                        ValidShape::Field { value: Some(v), .. } => v,
                        _ => Seq::empty(),
                    };
                    assert(self.data_buffer@ =~= old(self)@.data + v + seq![LF]);
                }
            },
            ValidatedEventLine::Field { field_name: FieldName::Id, field_value } => {
                match field_value {
                    Some(v) => {
                        match memchr::memchr(0, v.as_str().as_bytes()) {
                            None => {
                                self.id = v;
                            },
                            Some(_) => {},
                        }
                    },
                    None => {
                        self.id = String::new();
                    },
                }
            },
            ValidatedEventLine::Field { field_name: FieldName::Retry, field_value } => {
                match field_value {
                    Some(v) => {
                        match parse_retry(v.as_str().as_bytes()) {
                            Some(ms) => {
                                self.retry = Some(ms);
                            },
                            None => {},
                        }
                    },
                    None => {},
                }
            },
            ValidatedEventLine::Field { field_name: FieldName::Ignored, .. } => {},
        }
    }

    /// Whether an empty line has completed the current event.
    pub(crate) fn complete(&self) -> (r: bool)
        ensures
            r == self@.is_complete,
    {
        self.is_complete
    }

    /// Dispatches the accumulated event per the HTML specification.
    pub(crate) fn dispatch(&mut self) -> (r: Option<Event>)
        requires
            old(self).wf(),
        ensures
            final(self).wf(),
            final(self)@ == dispatch_result(old(self)@).0,
            match (r, dispatch_result(old(self)@).1) {
                (Some(e), Some(shape)) => e@ == shape,
                (None, None) => true,
                _ => false,
            },
    {
        self.is_complete = false;
        let n = self.data_buffer.len();
        if n == 0 {
            self.event = String::new();
            self.retry = None;
            proof {
                assert(self@ =~= dispatch_result(old(self)@).0);
            }
            return None;
        }
        if self.data_buffer[n - 1] == LF {
            self.data_buffer.truncate(n - 1);
            proof {
                assert(old(self)@.data.drop_last() =~= old(self)@.data.subrange(
                    0,
                    old(self)@.data.len() - 1,
                ));
                lemma_trim_valid(old(self)@.data);
            }
        }
        let data = string_from_utf8(self.data_buffer.as_slice());
        self.data_buffer.clear();
        let mut event = self.event.clone();
        self.event = String::new();
        proof {
            assert(encode_utf8(event@) == old(self)@.event);
        }
        proof {
            lemma_encode_empty(event@);
        }
        if event.as_str().is_empty() {
            event = message_string();
        }
        let retry = self.retry;
        self.retry = None;
        let out = Event { event, data, id: self.id.clone(), retry };
        proof {
            let shape = dispatch_result(old(self)@).1->Some_0;
            assert(self@ =~= dispatch_result(old(self)@).0);
            assert(encode_utf8(out.data@) =~= shape.data);
            assert(encode_utf8(out.id@) =~= shape.id);
            assert(out.retry == shape.retry);
            assert(encode_utf8(out.event@) =~= shape.event);
            assert(out@ =~= shape);
        }
        Some(out)
    }
}

/// Parse state of a stream adapter.
#[derive(Debug, Clone, Copy, PartialEq, Eq, Structural)]
pub enum EventStreamState {
    /// Nothing decided yet: a byte-order mark may still be stripped.
    NotStarted,
    /// Normal parsing.
    Started,
    /// Upstream reported end of input and the final flush has run.
    Terminated,
}

impl EventStreamState {
    /// True when upstream has ended.
    pub fn is_terminated(&self) -> (r: bool)
        ensures
            r == (*self == EventStreamState::Terminated),
    {
        matches!(self, EventStreamState::Terminated)
    }

    /// True once the byte-order-mark decision has been made.
    pub fn is_started(&self) -> (r: bool)
        ensures
            r == (*self == EventStreamState::Started),
    {
        matches!(self, EventStreamState::Started)
    }

    /// True before the byte-order-mark decision.
    pub fn is_not_started(&self) -> (r: bool)
        ensures
            r == (*self == EventStreamState::NotStarted),
    {
        matches!(self, EventStreamState::NotStarted)
    }
}

} // verus!
