//! Executable UTF-8 validation, verified against `vstd::utf8::valid_utf8`.
//!
//! Field values and the output of the byte-to-text stream must be valid
//! UTF-8.  The validator below computes the length of the longest prefix of a
//! byte slice that is a valid UTF-8 encoding, which is also the position
//! reported when a value is rejected.

use vstd::prelude::*;
use vstd::slice::slice_index_get;
use vstd::utf8::{
    is_continuation_byte, is_leading_byte_width_1, is_leading_byte_width_2,
    is_leading_byte_width_3, is_leading_byte_width_4, length_of_first_scalar, pop_first_scalar,
    valid_first_scalar, valid_leading_and_continuation_bytes_first_codepoint, valid_utf8,
};

verus! {

/// A field value or text chunk was not valid UTF-8; `valid_up_to` is the
/// length of its longest valid prefix.
#[derive(Debug, Clone, Copy, PartialEq, Eq)]
pub struct Utf8Error {
    pub valid_up_to: usize,
}

/// Length of the longest prefix of `s` that is a valid UTF-8 encoding.
pub open spec fn utf8_prefix_len(s: Seq<u8>) -> int
    decreases s.len(),
{
    if s.len() == 0 {
        0
    } else if valid_first_scalar(s) {
        length_of_first_scalar(s) + utf8_prefix_len(pop_first_scalar(s))
    } else {
        0
    }
}

/// The length of a well-formed leading scalar is between 1 and 4 and fits in
/// the sequence.
proof fn lemma_first_scalar_len(s: Seq<u8>)
    requires
        valid_first_scalar(s),
    ensures
        1 <= length_of_first_scalar(s) <= 4,
        length_of_first_scalar(s) <= s.len(),
        pop_first_scalar(s).len() == s.len() - length_of_first_scalar(s),
{
}

/// `utf8_prefix_len` is a well-defined position in the sequence.
pub proof fn lemma_utf8_prefix_len_bounds(s: Seq<u8>)
    ensures
        0 <= utf8_prefix_len(s) <= s.len(),
    decreases s.len(),
{
    if s.len() != 0 && valid_first_scalar(s) {
        lemma_first_scalar_len(s);
        lemma_utf8_prefix_len_bounds(pop_first_scalar(s));
    }
}

/// The whole sequence is valid UTF-8 exactly when the longest valid prefix is
/// the whole sequence.
pub proof fn lemma_utf8_prefix_len_whole(s: Seq<u8>)
    ensures
        utf8_prefix_len(s) == s.len() <==> valid_utf8(s),
    decreases s.len(),
{
    if s.len() != 0 && valid_first_scalar(s) {
        lemma_first_scalar_len(s);
        lemma_utf8_prefix_len_bounds(pop_first_scalar(s));
        lemma_utf8_prefix_len_whole(pop_first_scalar(s));
    }
}

/// The longest valid prefix is itself valid UTF-8.
pub proof fn lemma_utf8_prefix_valid(s: Seq<u8>)
    ensures
        valid_utf8(s.subrange(0, utf8_prefix_len(s))),
    decreases s.len(),
{
    lemma_utf8_prefix_len_bounds(s);
    if s.len() == 0 || !valid_first_scalar(s) {
        assert(s.subrange(0, 0) =~= Seq::<u8>::empty());
    } else {
        lemma_first_scalar_len(s);
        let w = length_of_first_scalar(s);
        let rest = pop_first_scalar(s);
        lemma_utf8_prefix_len_bounds(rest);
        lemma_utf8_prefix_valid(rest);
        let p = s.subrange(0, utf8_prefix_len(s));
        assert(valid_first_scalar(p));
        assert(pop_first_scalar(p) =~= rest.subrange(0, utf8_prefix_len(rest)));
    }
}

/// Width of the scalar encoding starting at `i`, or 0 when the bytes at `i`
/// do not begin a well-formed scalar encoding that fits in the slice.
fn scalar_width(s: &[u8], i: usize) -> (w: usize)
    requires
        i < s@.len(),
    ensures
        ({
            let t = s@.subrange(i as int, s@.len() as int);
            &&& (w != 0 <==> valid_first_scalar(t))
            &&& (w != 0 ==> w == length_of_first_scalar(t))
        }),
{
    let ghost t = s@.subrange(i as int, s@.len() as int);
    let n = s.len();
    let b0 = *slice_index_get(s, i);
    assert(t[0] == b0);
    if b0 < 0x80 {
        proof {
            assert(is_leading_byte_width_1(b0));
            assert((b0 & 0x7f) < 0x80 && !(0xd8 <= (b0 & 0x7f))) by (bit_vector)
                requires b0 < 0x80;
            assert(vstd::utf8::codepoint_width_1(b0) < 0xd800);
        }
        1
    } else if b0 < 0xc2 {
        // 0x80..=0xbf are continuation bytes, 0xc0..=0xc1 only begin
        // overlong two-byte encodings.
        proof {
            if valid_first_scalar(t) {
                assert(is_leading_byte_width_2(b0));
                let b1 = t[1];
                assert((((b0 & 0x1f) as u32) << 6 | ((b1 & 0x3f) as u32)) < 0x80)
                    by (bit_vector)
                    requires 0xc0 <= b0 && b0 < 0xc2;
            }
        }
        0
    } else if b0 <= 0xdf {
        if i + 1 < n && is_cont(*slice_index_get(s, i + 1)) {
            let ghost b1 = t[1];
            proof {
                assert(valid_leading_and_continuation_bytes_first_codepoint(t));
                assert((((b0 & 0x1f) as u32) << 6 | ((b1 & 0x3f) as u32)) >= 0x80
                    && (((b0 & 0x1f) as u32) << 6 | ((b1 & 0x3f) as u32)) < 0xd800)
                    by (bit_vector)
                    requires 0xc2 <= b0 <= 0xdf;
            }
            2
        } else {
            proof {
                assert(!is_leading_byte_width_1(t[0]) && !is_leading_byte_width_3(t[0])
                    && !is_leading_byte_width_4(t[0]));
            }
            0
        }
    } else if b0 <= 0xef {
        let ok = if n - i > 2 {
            let b1 = *slice_index_get(s, i + 1);
            let b2 = *slice_index_get(s, i + 2);
            let b1_ok = if b0 == 0xe0 {
                0xa0 <= b1 && b1 <= 0xbf
            } else if b0 == 0xed {
                0x80 <= b1 && b1 <= 0x9f
            } else {
                is_cont(b1)
            };
            b1_ok && is_cont(b2)
        } else {
            false
        };
        proof {
            let b1 = if t.len() >= 2 { t[1] } else { 0u8 };
            let b2 = if t.len() >= 3 { t[2] } else { 0u8 };
            if t.len() >= 3 && is_continuation_byte(b1) && is_continuation_byte(b2) {
                let v = vstd::utf8::codepoint_width_3(b0, b1, b2);
                assert(v == (((b0 & 0x0f) as u32) << 12 | ((b1 & 0x3f) as u32) << 6 | ((b2
                    & 0x3f) as u32)));
                assert({
                    let v = (((b0 & 0x0f) as u32) << 12 | ((b1 & 0x3f) as u32) << 6 | ((b2
                        & 0x3f) as u32));
                    &&& (v >= 0x800 <==> !(b0 == 0xe0 && b1 < 0xa0))
                    &&& ((0xd800 <= v <= 0xdfff) <==> (b0 == 0xed && b1 >= 0xa0))
                }) by (bit_vector)
                    requires 0xe0 <= b0 <= 0xef && 0x80 <= b1 <= 0xbf && 0x80 <= b2 <= 0xbf;
            }
            assert(!is_leading_byte_width_1(t[0]) && !is_leading_byte_width_2(t[0])
                && !is_leading_byte_width_4(t[0]));
        }
        if ok { 3 } else { 0 }
    } else if b0 <= 0xf4 {
        let ok = if n - i > 3 {
            let b1 = *slice_index_get(s, i + 1);
            let b2 = *slice_index_get(s, i + 2);
            let b3 = *slice_index_get(s, i + 3);
            let b1_ok = if b0 == 0xf0 {
                0x90 <= b1 && b1 <= 0xbf
            } else if b0 == 0xf4 {
                0x80 <= b1 && b1 <= 0x8f
            } else {
                is_cont(b1)
            };
            b1_ok && is_cont(b2) && is_cont(b3)
        } else {
            false
        };
        proof {
            let b1 = if t.len() >= 2 { t[1] } else { 0u8 };
            let b2 = if t.len() >= 3 { t[2] } else { 0u8 };
            let b3 = if t.len() >= 4 { t[3] } else { 0u8 };
            if t.len() >= 4 && is_continuation_byte(b1) && is_continuation_byte(b2)
                && is_continuation_byte(b3) {
                let v = vstd::utf8::codepoint_width_4(b0, b1, b2, b3);
                assert(v == (((b0 & 0x07) as u32) << 18 | ((b1 & 0x3f) as u32) << 12 | ((b2
                    & 0x3f) as u32) << 6 | ((b3 & 0x3f) as u32)));
                assert({
                    let v = (((b0 & 0x07) as u32) << 18 | ((b1 & 0x3f) as u32) << 12 | ((b2
                        & 0x3f) as u32) << 6 | ((b3 & 0x3f) as u32));
                    &&& ((0x10000 <= v <= 0x10ffff) <==> ((b0 == 0xf0 && b1 >= 0x90) || (0xf1
                        <= b0 <= 0xf3) || (b0 == 0xf4 && b1 <= 0x8f)))
                    &&& (0x10000 <= v ==> !(0xd800 <= v <= 0xdfff))
                }) by (bit_vector)
                    requires 0xf0 <= b0 <= 0xf4 && 0x80 <= b1 <= 0xbf && 0x80 <= b2 <= 0xbf
                        && 0x80 <= b3 <= 0xbf;
            }
            assert(!is_leading_byte_width_1(t[0]) && !is_leading_byte_width_2(t[0])
                && !is_leading_byte_width_3(t[0]));
        }
        if ok { 4 } else { 0 }
    } else {
        // 0xf5..=0xf7 encode values above 0x10ffff; 0xf8..=0xff are not
        // leading bytes at all.
        proof {
            if valid_first_scalar(t) {
                assert(is_leading_byte_width_4(b0));
                let b1 = t[1];
                let b2 = t[2];
                let b3 = t[3];
                let v = vstd::utf8::codepoint_width_4(b0, b1, b2, b3);
                assert((((b0 & 0x07) as u32) << 18 | ((b1 & 0x3f) as u32) << 12 | ((b2
                    & 0x3f) as u32) << 6 | ((b3 & 0x3f) as u32)) > 0x10ffff)
                    by (bit_vector)
                    requires 0xf5 <= b0 && b0 <= 0xf7;
            }
        }
        0
    }
}

/// Continuation byte test, `10xxxxxx`.
fn is_cont(b: u8) -> (r: bool)
    ensures
        r == is_continuation_byte(b),
{
    0x80 <= b && b <= 0xbf
}

/// Length of the longest prefix of `s` that is valid UTF-8.
pub fn utf8_valid_prefix(s: &[u8]) -> (r: usize)
    ensures
        r == utf8_prefix_len(s@),
        r <= s@.len(),
{
    proof {
        lemma_utf8_prefix_len_bounds(s@);
        assert(s@.subrange(0, s@.len() as int) =~= s@);
    }
    let n = s.len();
    let mut i: usize = 0;
    loop
        invariant
            i <= n,
            n == s@.len(),
            utf8_prefix_len(s@) == i + utf8_prefix_len(s@.subrange(i as int, n as int)),
        decreases n - i,
    {
        if i == n {
            return i;
        }
        let ghost t = s@.subrange(i as int, n as int);
        let w = scalar_width(s, i);
        if w == 0 {
            return i;
        }
        proof {
            lemma_first_scalar_len(t);
            assert(pop_first_scalar(t) =~= s@.subrange(i + w, n as int));
        }
        i += w;
    }
}

/// True when the byte slice is entirely valid UTF-8.
pub fn is_valid_utf8(s: &[u8]) -> (r: bool)
    ensures
        r == valid_utf8(s@),
{
    proof {
        lemma_utf8_prefix_len_whole(s@);
    }
    utf8_valid_prefix(s) == s.len()
}

/// Relies on `core::str::from_utf8`: on UTF-8-valid input it returns the
/// string whose encoding is exactly the input bytes, and `str::to_owned`,
/// which copies it.  The precondition excludes the error case.
#[verifier::external_body]
pub(crate) fn string_from_utf8(bytes: &[u8]) -> (r: String)
    requires
        valid_utf8(bytes@),
    ensures
        vstd::utf8::encode_utf8(r@) == bytes@,
{
    core::str::from_utf8(bytes).unwrap_or("").to_owned()
}

} // verus!
