//! UTF-8 agnostic line tokenizer for SSE streams.
//!
//! A line is terminated by `LF`, `CRLF`, or a `CR` followed by any byte other
//! than `LF`.  A lone `CR` at the very end of a buffer is not a terminator:
//! the next byte could turn it into `CRLF`, so the tokenizer asks for more
//! data.  Line bytes are classified as empty lines, comments, or
//! `name[:value]` fields, stripping one optional space after the colon.

use vstd::prelude::*;
use vstd::slice::{slice_index_get, slice_subrange};
use vstd::utf8::valid_utf8;

use crate::utf8::{string_from_utf8, utf8_prefix_len, utf8_valid_prefix, Utf8Error};
use crate::{CR, LF};

verus! {

/// The colon separating a field name from its value.
pub const COLON: u8 = 58;

/// A single space, stripped once when it leads a field value.
pub const SPACE: u8 = 32;

/// Relies on `memchr::memchr`: index of the first occurrence of `needle`
/// in `haystack`, or `None` when it does not occur.
pub assume_specification [ memchr::memchr ](needle: u8, haystack: &[u8]) -> (r: Option<usize>)
    ensures
        match r {
            Some(i) => i < haystack@.len() && haystack@[i as int] == needle && forall|j: int|
                0 <= j < i ==> haystack@[j] != needle,
            None => forall|j: int| 0 <= j < haystack@.len() ==> haystack@[j] != needle,
        },
;

/// Relies on `memchr::memchr2`: index of the first occurrence of either
/// needle in `haystack`, or `None` when neither occurs.
pub assume_specification [ memchr::memchr2 ](needle1: u8, needle2: u8, haystack: &[u8]) -> (r:
    Option<usize>)
    ensures
        match r {
            Some(i) => i < haystack@.len() && (haystack@[i as int] == needle1 || haystack@[
                i as int
            ] == needle2) && forall|j: int|
                0 <= j < i ==> haystack@[j] != needle1 && haystack@[j] != needle2,
            None => forall|j: int|
                0 <= j < haystack@.len() ==> haystack@[j] != needle1 && haystack@[j] != needle2,
        },
;

/// Position of the next line terminator: `Some((end, rem))` where `end` is
/// the exclusive end of the line bytes and `rem` the inclusive start of the
/// remainder, or `None` when the buffer holds no complete line (including
/// when it ends in a lone `CR`).
pub open spec fn find_terminator(s: Seq<u8>) -> Option<(int, int)>
    decreases s.len(),
{
    if s.len() == 0 {
        None
    } else if s[0] == LF {
        Some((0int, 1int))
    } else if s[0] == CR {
        if s.len() == 1 {
            None
        } else if s[1] == LF {
            Some((0int, 2int))
        } else {
            Some((0int, 1int))
        }
    } else {
        match find_terminator(s.skip(1)) {
            None => None,
            Some(p) => Some((p.0 + 1, p.1 + 1)),
        }
    }
}

/// Shape of a found terminator: the line lies before `end`, the remainder
/// begins at `rem`, and the terminator occupies one or two bytes.
pub proof fn lemma_find_terminator_bounds(s: Seq<u8>)
    ensures
        match find_terminator(s) {
            Some(p) => 0 <= p.0 < s.len() && p.0 < p.1 <= s.len() && p.1 <= p.0 + 2,
            None => true,
        },
    decreases s.len(),
{
    if s.len() > 0 && s[0] != LF && s[0] != CR {
        lemma_find_terminator_bounds(s.skip(1));
    }
}

/// The terminator decision at the first `CR` or `LF` byte.
pub proof fn lemma_find_terminator_at(s: Seq<u8>, m: int)
    requires
        0 <= m < s.len(),
        s[m] == CR || s[m] == LF,
        forall|j: int| 0 <= j < m ==> s[j] != CR && s[j] != LF,
    ensures
        find_terminator(s) == if s[m] == LF {
            Some((m, m + 1))
        } else if m + 1 == s.len() {
            None::<(int, int)>
        } else if s[m + 1] == LF {
            Some((m, m + 2))
        } else {
            Some((m, m + 1))
        },
    decreases m,
{
    if m > 0 {
        lemma_find_terminator_at(s.skip(1), m - 1);
    }
}

/// No `CR` or `LF` anywhere means no terminator.
pub proof fn lemma_find_terminator_none(s: Seq<u8>)
    requires
        forall|j: int| 0 <= j < s.len() ==> s[j] != CR && s[j] != LF,
    ensures
        find_terminator(s) is None,
    decreases s.len(),
{
    if s.len() > 0 {
        lemma_find_terminator_none(s.skip(1));
    }
}

/// A terminator already found is unaffected by appending more bytes, and the
/// line and remainder carry over.
pub proof fn lemma_find_terminator_append(s: Seq<u8>, t: Seq<u8>)
    requires
        find_terminator(s) is Some,
    ensures
        find_terminator(s + t) == find_terminator(s),
        (s + t).take(find_terminator(s)->Some_0.0) == s.take(find_terminator(s)->Some_0.0),
        (s + t).skip(find_terminator(s)->Some_0.1) == s.skip(find_terminator(s)->Some_0.1) + t,
    decreases s.len(),
{
    lemma_find_terminator_bounds(s);
    let p = find_terminator(s)->Some_0;
    if s.len() == 0 {
    } else if s[0] == LF {
        assert((s + t)[0] == LF);
    } else if s[0] == CR {
        assert((s + t)[0] == CR);
        assert(s.len() >= 2);
        assert((s + t)[1] == s[1]);
    } else {
        assert((s + t)[0] == s[0]);
        lemma_find_terminator_append(s.skip(1), t);
        assert((s + t).skip(1) =~= s.skip(1) + t);
        let q = find_terminator(s.skip(1))->Some_0;
        lemma_find_terminator_bounds(s.skip(1));
        assert((s + t).take(p.0) =~= s.take(p.0));
        assert((s + t).skip(p.1) =~= s.skip(p.1) + t);
    }
    assert((s + t).take(p.0) =~= s.take(p.0));
    assert((s + t).skip(p.1) =~= s.skip(p.1) + t);
}

/// Index of the first occurrence of `b` in `s`.
pub open spec fn first_index_of(s: Seq<u8>, b: u8) -> Option<int>
    decreases s.len(),
{
    if s.len() == 0 {
        None
    } else if s[0] == b {
        Some(0int)
    } else {
        match first_index_of(s.skip(1), b) {
            None => None,
            Some(i) => Some(i + 1),
        }
    }
}

/// `first_index_of` agrees with the first-occurrence characterization.
pub proof fn lemma_first_index_some(s: Seq<u8>, b: u8, m: int)
    requires
        0 <= m < s.len(),
        s[m] == b,
        forall|j: int| 0 <= j < m ==> s[j] != b,
    ensures
        first_index_of(s, b) == Some(m),
    decreases m,
{
    if m > 0 {
        lemma_first_index_some(s.skip(1), b, m - 1);
    }
}

/// Absence of `b` means no index.
pub proof fn lemma_first_index_none(s: Seq<u8>, b: u8)
    requires
        forall|j: int| 0 <= j < s.len() ==> s[j] != b,
    ensures
        first_index_of(s, b) is None,
    decreases s.len(),
{
    if s.len() > 0 {
        lemma_first_index_none(s.skip(1), b);
    }
}

/// What a found index says of the sequence.
pub proof fn lemma_first_index_props(s: Seq<u8>, b: u8)
    ensures
        match first_index_of(s, b) {
            Some(i) => 0 <= i < s.len() && s[i] == b && forall|j: int| 0 <= j < i ==> s[j] != b,
            None => forall|j: int| 0 <= j < s.len() ==> s[j] != b,
        },
    decreases s.len(),
{
    if s.len() > 0 && s[0] != b {
        lemma_first_index_props(s.skip(1), b);
        match first_index_of(s.skip(1), b) {
            Some(i) => {
                assert(s[i + 1] == s.skip(1)[i]);
                assert forall|j: int| 0 <= j < i + 1 implies s[j] != b by {
                    if j > 0 {
                        assert(s.skip(1)[j - 1] != b);
                    }
                }
            },
            None => {
                assert forall|j: int| 0 <= j < s.len() implies s[j] != b by {
                    if j > 0 {
                        assert(s.skip(1)[j - 1] != b);
                    }
                }
            },
        }
    }
}

/// A tokenized line before UTF-8 validation, as ghost data.
pub enum LineShape {
    Comment,
    Empty,
    Field { name: Seq<u8>, value: Option<Seq<u8>> },
}

/// One optional leading space of a field value is stripped.
pub open spec fn strip_leading_space(v: Seq<u8>) -> Seq<u8> {
    if v.len() > 0 && v[0] == SPACE {
        v.skip(1)
    } else {
        v
    }
}

/// Classification of a complete line (terminator excluded): empty lines,
/// comments (leading colon), and `name[:value]` fields.
pub open spec fn classify_line(line: Seq<u8>) -> LineShape {
    if line.len() == 0 {
        LineShape::Empty
    } else {
        match first_index_of(line, COLON) {
            Some(k) => if k == 0 {
                LineShape::Comment
            } else {
                LineShape::Field {
                    name: line.take(k),
                    value: Some(strip_leading_space(line.skip(k + 1))),
                }
            },
            None => LineShape::Field { name: line, value: None },
        }
    }
}

/// A full line from an SSE stream, borrowing from the input buffer.
#[derive(Debug, Clone, Copy)]
pub enum RawEventLine<'a> {
    Comment,
    Field { field_name: &'a [u8], field_value: Option<&'a [u8]> },
    Empty,
}

impl<'a> View for RawEventLine<'a> {
    type V = LineShape;

    open spec fn view(&self) -> LineShape {
        match *self {
            RawEventLine::Comment => LineShape::Comment,
            RawEventLine::Empty => LineShape::Empty,
            RawEventLine::Field { field_name, field_value } => LineShape::Field {
                name: field_name@,
                value: match field_value {
                    Some(v) => Some(v@),
                    None => None,
                },
            },
        }
    }
}

/// A full line from an SSE stream, owning its bytes.
#[derive(Debug, Clone)]
pub enum RawEventLineOwned {
    Comment,
    Empty,
    Field { field_name: Vec<u8>, field_value: Option<Vec<u8>> },
}

impl View for RawEventLineOwned {
    type V = LineShape;

    open spec fn view(&self) -> LineShape {
        match self {
            RawEventLineOwned::Comment => LineShape::Comment,
            RawEventLineOwned::Empty => LineShape::Empty,
            RawEventLineOwned::Field { field_name, field_value } => LineShape::Field {
                name: field_name@,
                value: match field_value {
                    Some(v) => Some(v@),
                    None => None,
                },
            },
        }
    }
}

/// Splits a slice at the next line terminator, returning the end of the line
/// and the start of the remainder, or `None` when more data is needed.
fn find_eol(bytes: &[u8]) -> (r: Option<(usize, usize)>)
    ensures
        match r {
            Some(p) => find_terminator(bytes@) == Some((p.0 as int, p.1 as int)),
            None => find_terminator(bytes@) is None,
        },
{
    let n = bytes.len();
    match memchr::memchr2(CR, LF, bytes) {
        None => {
            proof {
                lemma_find_terminator_none(bytes@);
            }
            None
        },
        Some(m) => {
            proof {
                lemma_find_terminator_at(bytes@, m as int);
            }
            let b = *slice_index_get(bytes, m);
            if b == LF {
                Some((m, m + 1))
            } else if n - m == 1 {
                // a lone CR at the end: wait for a possible LF
                None
            } else if *slice_index_get(bytes, m + 1) == LF {
                Some((m, m + 2))
            } else {
                Some((m, m + 1))
            }
        },
    }
}

/// Splits a slice of bytes at the next line terminator into the line and the
/// remainder.  Returns `None` when no complete line is present, including
/// when the slice ends in a lone `CR`.
pub fn split_at_next_eol(bytes: &[u8]) -> (r: Option<(&[u8], &[u8])>)
    ensures
        match r {
            Some((line, rest)) => {
                let p = find_terminator(bytes@)->Some_0;
                find_terminator(bytes@) is Some && line@ == bytes@.take(p.0) && rest@
                    == bytes@.skip(p.1)
            },
            None => find_terminator(bytes@) is None,
        },
{
    proof {
        lemma_find_terminator_bounds(bytes@);
    }
    match find_eol(bytes) {
        None => None,
        Some((end, rem)) => {
            let line = slice_subrange(bytes, 0, end);
            let rest = slice_subrange(bytes, rem, bytes.len());
            proof {
                let p = find_terminator(bytes@)->Some_0;
                assert(line@ =~= bytes@.take(p.0));
                assert(rest@ =~= bytes@.skip(p.1));
            }
            Some((line, rest))
        },
    }
}

/// Classifies one complete line (terminator already removed).
fn read_line<'a>(bytes: &'a [u8]) -> (r: RawEventLine<'a>)
    ensures
        r@ == classify_line(bytes@),
{
    proof {
        lemma_first_index_props(bytes@, COLON);
    }
    let n = bytes.len();
    match memchr::memchr(COLON, bytes) {
        Some(colon_pos) => {
            proof {
                lemma_first_index_some(bytes@, COLON, colon_pos as int);
            }
            if colon_pos == 0 {
                RawEventLine::Comment
            } else {
                let after = slice_subrange(bytes, colon_pos + 1, n);
                let value = if after.len() > 0 && *slice_index_get(after, 0) == SPACE {
                    slice_subrange(after, 1, after.len())
                } else {
                    after
                };
                let name = slice_subrange(bytes, 0, colon_pos);
                proof {
                    assert(after@ =~= bytes@.skip(colon_pos as int + 1));
                    assert(name@ =~= bytes@.take(colon_pos as int));
                    assert(value@ =~= strip_leading_space(bytes@.skip(colon_pos as int + 1)));
                }
                RawEventLine::Field { field_name: name, field_value: Some(value) }
            }
        },
        None => {
            proof {
                lemma_first_index_none(bytes@, COLON);
            }
            if bytes.is_empty() {
                RawEventLine::Empty
            } else {
                RawEventLine::Field { field_name: bytes, field_value: None }
            }
        },
    }
}

/// Reads the next line from `bytes` together with the remainder after the
/// terminator.  Returns `None` when no complete line is present.
pub fn parse_line(bytes: &[u8]) -> (r: Option<(RawEventLine<'_>, &[u8])>)
    ensures
        match r {
            Some((line, rest)) => {
                let p = find_terminator(bytes@)->Some_0;
                find_terminator(bytes@) is Some && line@ == classify_line(bytes@.take(p.0))
                    && rest@ == bytes@.skip(p.1)
            },
            None => find_terminator(bytes@) is None,
        },
{
    match split_at_next_eol(bytes) {
        None => None,
        Some((line_bytes, rest)) => Some((read_line(line_bytes), rest)),
    }
}

/// Reads the next owned line from the buffer and advances the buffer past
/// its terminator.  Returns `None`, leaving the buffer unchanged, when the
/// buffer holds no complete line (a trailing lone `CR` stays pending).
pub fn parse_line_from_buffer(buffer: &mut Vec<u8>) -> (r: Option<RawEventLineOwned>)
    ensures
        match r {
            Some(line) => {
                let p = find_terminator(old(buffer)@)->Some_0;
                find_terminator(old(buffer)@) is Some && line@ == classify_line(
                    old(buffer)@.take(p.0),
                ) && final(buffer)@ == old(buffer)@.skip(p.1)
            },
            None => find_terminator(old(buffer)@) is None && final(buffer)@ == old(buffer)@,
        },
{
    proof {
        lemma_find_terminator_bounds(buffer@);
    }
    match find_eol(buffer.as_slice()) {
        None => None,
        Some((end, rem)) => {
            let line = split_front(buffer, end, rem);
            let owned = match read_line(line.as_slice()) {
                RawEventLine::Comment => RawEventLineOwned::Comment,
                RawEventLine::Empty => RawEventLineOwned::Empty,
                RawEventLine::Field { field_name, field_value } => {
                    let name = name_to_vec(field_name);
                    let value = match field_value {
                        Some(v) => Some(name_to_vec(v)),
                        None => None,
                    };
                    RawEventLineOwned::Field { field_name: name, field_value: value }
                },
            };
            Some(owned)
        },
    }
}

/// Copies a borrowed byte slice into an owned vector.
fn name_to_vec(bytes: &[u8]) -> (r: Vec<u8>)
    ensures
        r@ == bytes@,
{
    vstd::slice::slice_to_vec(bytes)
}

/// Bytes of the field name `event`.
pub open spec fn event_name() -> Seq<u8> {
    seq![101, 118, 101, 110, 116]
}

/// Bytes of the field name `data`.
pub open spec fn data_name() -> Seq<u8> {
    seq![100, 97, 116, 97]
}

/// Bytes of the field name `id`.
pub open spec fn id_name() -> Seq<u8> {
    seq![105, 100]
}

/// Bytes of the field name `retry`.
pub open spec fn retry_name() -> Seq<u8> {
    seq![114, 101, 116, 114, 121]
}

/// Field names recognized by the event stream interpretation of the HTML
/// specification; anything else, including case variants, is ignored.
#[derive(Debug, Clone, Copy, PartialEq, Eq, Structural)]
pub enum FieldName {
    Event,
    Data,
    Id,
    Retry,
    Ignored,
}

/// Byte-exact mapping of a raw field name to its recognized kind.
pub open spec fn field_name_of(name: Seq<u8>) -> FieldName {
    if name == event_name() {
        FieldName::Event
    } else if name == data_name() {
        FieldName::Data
    } else if name == id_name() {
        FieldName::Id
    } else if name == retry_name() {
        FieldName::Retry
    } else {
        FieldName::Ignored
    }
}

/// Maps a field name to its kind by byte-exact comparison.
fn name_kind(name: &[u8]) -> (k: FieldName)
    ensures
        k == field_name_of(name@),
{
    let n = name.len();
    if n == 5 && *slice_index_get(name, 0) == 101 && *slice_index_get(name, 1) == 118
        && *slice_index_get(name, 2) == 101 && *slice_index_get(name, 3) == 110
        && *slice_index_get(name, 4) == 116 {
        proof {
            assert(name@ =~= event_name());
        }
        FieldName::Event
    } else if n == 4 && *slice_index_get(name, 0) == 100 && *slice_index_get(name, 1) == 97
        && *slice_index_get(name, 2) == 116 && *slice_index_get(name, 3) == 97 {
        proof {
            assert(name@ =~= data_name());
        }
        FieldName::Data
    } else if n == 2 && *slice_index_get(name, 0) == 105 && *slice_index_get(name, 1) == 100 {
        proof {
            assert(name@ =~= id_name());
        }
        FieldName::Id
    } else if n == 5 && *slice_index_get(name, 0) == 114 && *slice_index_get(name, 1) == 101
        && *slice_index_get(name, 2) == 116 && *slice_index_get(name, 3) == 114
        && *slice_index_get(name, 4) == 121 {
        proof {
            assert(name@ =~= retry_name());
        }
        FieldName::Retry
    } else {
        FieldName::Ignored
    }
}

/// A validated line: the name mapped to a [`FieldName`] and the value held
/// as UTF-8 text, as ghost data.  The value is viewed as its encoded bytes.
pub enum ValidShape {
    Comment,
    Empty,
    Field { name: FieldName, value: Option<Seq<u8>> },
}

/// Validation of a tokenized line: field values must be valid UTF-8; the
/// error carries the length of the longest valid prefix.  Field names are
/// matched as raw bytes and never validated themselves.
pub open spec fn validate_shape(l: LineShape) -> Result<ValidShape, int> {
    match l {
        LineShape::Comment => Ok(ValidShape::Comment),
        LineShape::Empty => Ok(ValidShape::Empty),
        LineShape::Field { name, value } => match value {
            None => Ok(ValidShape::Field { name: field_name_of(name), value: None }),
            Some(v) => if valid_utf8(v) {
                Ok(ValidShape::Field { name: field_name_of(name), value: Some(v) })
            } else {
                Err(utf8_prefix_len(v))
            },
        },
    }
}

/// Completely parsed SSE event line.
#[derive(Debug, Clone)]
pub enum ValidatedEventLine {
    Comment,
    Empty,
    Field { field_name: FieldName, field_value: Option<String> },
}

impl View for ValidatedEventLine {
    type V = ValidShape;

    open spec fn view(&self) -> ValidShape {
        match self {
            ValidatedEventLine::Comment => ValidShape::Comment,
            ValidatedEventLine::Empty => ValidShape::Empty,
            ValidatedEventLine::Field { field_name, field_value } => ValidShape::Field {
                name: *field_name,
                value: match field_value {
                    Some(v) => Some(vstd::utf8::encode_utf8(v@)),
                    None => None,
                },
            },
        }
    }
}

impl RawEventLineOwned {
    /// Maps the field name and validates the field value as UTF-8.
    pub fn validate(self) -> (r: Result<ValidatedEventLine, Utf8Error>)
        ensures
            match r {
                Ok(v) => validate_shape(self@) is Ok && v@ == validate_shape(self@)->Ok_0,
                Err(e) => validate_shape(self@) is Err && e.valid_up_to as int == validate_shape(
                    self@,
                )->Err_0,
            },
    {
        match self {
            RawEventLineOwned::Comment => Ok(ValidatedEventLine::Comment),
            RawEventLineOwned::Empty => Ok(ValidatedEventLine::Empty),
            RawEventLineOwned::Field { field_name, field_value } => {
                let kind = name_kind(field_name.as_slice());
                let value = match field_value {
                    None => None,
                    Some(v) => {
                        let p = utf8_valid_prefix(v.as_slice());
                        proof {
                            crate::utf8::lemma_utf8_prefix_len_whole(v@);
                        }
                        if p < v.len() {
                            return Err(Utf8Error { valid_up_to: p });
                        }
                        Some(string_from_utf8(v.as_slice()))
                    },
                };
                Ok(ValidatedEventLine::Field { field_name: kind, field_value: value })
            },
        }
    }
}

/// Removes the first `rem` bytes from the buffer and returns the first
/// `end` of them.
pub(crate) fn split_front(buffer: &mut Vec<u8>, end: usize, rem: usize) -> (line: Vec<u8>)
    requires
        end <= rem <= old(buffer)@.len(),
    ensures
        line@ == old(buffer)@.take(end as int),
        final(buffer)@ == old(buffer)@.skip(rem as int),
{
    let mut rest = buffer.split_off(rem);
    core::mem::swap(buffer, &mut rest);
    rest.truncate(end);
    proof {
        assert(buffer@ =~= old(buffer)@.skip(rem as int));
        assert(rest@ =~= old(buffer)@.take(end as int));
    }
    rest
}

} // verus!
