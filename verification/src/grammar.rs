//! Mathematical model of the wire grammar.
//!
//! One frame begins with a one-byte type sigil:
//!
//! * `+` simple string: `<text>\r\n`, text excludes CR and LF;
//! * `-` error: `<text>\r\n`, text excludes CR and LF;
//! * `:` integer: `[+|-]<digits>\r\n`, value within signed 64 bits;
//! * `$` bulk string: `<len>\r\n<len bytes>\r\n`, with `len == -1` meaning
//!   a null frame and `len < -1` invalid;
//! * any other sigil is unsupported (array frames are an extension point
//!   this decoder does not cover).
//!
//! [`decode_spec`] says, for every buffer and start position, exactly which
//! outcome a decode attempt has; the executable decoder is proved against it.

use vstd::prelude::*;
use vstd::utf8::{
    char_is_scalar, decode_utf8, decode_utf8_encode_utf8, encode_scalar, encode_utf8,
    has_width_1_encoding, has_width_2_encoding, has_width_3_encoding, valid_utf8,
};

verus! {

pub const CR: u8 = 13;

pub const LF: u8 = 10;

pub const SIGIL_SIMPLE: u8 = 43;

pub const SIGIL_ERROR: u8 = 45;

pub const SIGIL_INTEGER: u8 = 58;

pub const SIGIL_BULK: u8 = 36;

pub const SIGN_PLUS: u8 = 43;

pub const SIGN_MINUS: u8 = 45;

/// Index of the first occurrence of `b` in `s[from..to)`, scanning within
/// the sequence's bounds only.
pub open spec fn find_byte_spec(s: Seq<u8>, b: u8, from: int, to: int) -> Option<int>
    decreases to - from,
{
    if from >= to {
        None
    } else if s[from] == b {
        Some(from)
    } else {
        find_byte_spec(s, b, from + 1, to)
    }
}

/// What the result of [`find_byte_spec`] means: a found index carries the
/// byte and nothing earlier does, and `None` means the range is free of it.
pub proof fn lemma_find_byte_spec(s: Seq<u8>, b: u8, from: int, to: int)
    requires
        0 <= from,
        to <= s.len(),
    ensures
        match find_byte_spec(s, b, from, to) {
            Some(i) => from <= i < to && s[i] == b && forall|j: int| from <= j < i ==> s[j] != b,
            None => forall|j: int| from <= j < to ==> s[j] != b,
        },
    decreases to - from,
{
    if from < to && s[from] != b {
        lemma_find_byte_spec(s, b, from + 1, to);
    }
}

/// [`find_byte_spec`] returns exactly the first position holding `b`.
pub proof fn lemma_find_byte_spec_at(s: Seq<u8>, b: u8, from: int, to: int, p: int)
    requires
        0 <= from,
        to <= s.len(),
        from <= p < to,
        s[p] == b,
        forall|j: int| from <= j < p ==> s[j] != b,
    ensures
        find_byte_spec(s, b, from, to) == Some(p),
{
    lemma_find_byte_spec(s, b, from, to);
    match find_byte_spec(s, b, from, to) {
        Some(i) => {
            if i < p {
                assert(s[i] != b);
            }
        },
        None => {
            assert(s[p] != b);
        },
    }
}

/// [`find_byte_spec`] returns `None` exactly on a range free of `b`.
pub proof fn lemma_find_byte_spec_none(s: Seq<u8>, b: u8, from: int, to: int)
    requires
        0 <= from,
        to <= s.len(),
        forall|j: int| from <= j < to ==> s[j] != b,
    ensures
        find_byte_spec(s, b, from, to) is None,
{
    lemma_find_byte_spec(s, b, from, to);
    match find_byte_spec(s, b, from, to) {
        Some(i) => {
            assert(s[i] != b);
        },
        None => {},
    }
}

/// Outcome of one line scan.
pub enum LineScan {
    /// A complete CRLF-terminated line: its content bytes (CRLF excluded)
    /// and the position just past the terminator.
    Line(Seq<u8>, int),
    /// More bytes may still complete the line.
    Incomplete,
    /// No acquisition of further bytes can make the line valid.
    Malformed,
}

/// Scanning for a CRLF-terminated line from `start`, with an optional
/// maximum absolute offset `limit` beyond which no CR may legally appear.
///
/// The first CR within `[start, min(limit, len))` ends the content.  When
/// none is there: if the bounded region was fully searched (the limit lies
/// within the buffer) the line can never become valid, otherwise more bytes
/// may still produce a CR.  A LF strictly before the first CR is invalid
/// framing; a CR whose following byte has not arrived yet is incomplete;
/// that byte present but not LF is invalid.
pub open spec fn line_scan(buf: Seq<u8>, start: int, limit: Option<int>) -> LineScan {
    let bound = match limit {
        Some(l) => if l <= buf.len() {
            l
        } else {
            buf.len() as int
        },
        None => buf.len() as int,
    };
    let to = if bound < start {
        start
    } else {
        bound
    };
    match find_byte_spec(buf, CR, start, to) {
        None => match limit {
            Some(l) => if l <= buf.len() {
                LineScan::Malformed
            } else {
                LineScan::Incomplete
            },
            None => LineScan::Incomplete,
        },
        Some(p) => {
            if find_byte_spec(buf, LF, start, p) is Some {
                LineScan::Malformed
            } else if p + 1 >= buf.len() {
                LineScan::Incomplete
            } else if buf[p + 1] != LF {
                LineScan::Malformed
            } else {
                LineScan::Line(buf.subrange(start, p), p + 2)
            }
        },
    }
}

/// Outcome of reading a length-prefixed binary payload of `n` bytes
/// followed by CRLF, from `start`.
pub open spec fn binary_scan(buf: Seq<u8>, start: int, n: int) -> LineScan {
    if start + n + 2 > buf.len() {
        LineScan::Incomplete
    } else if buf[start + n] != CR || buf[start + n + 1] != LF {
        LineScan::Malformed
    } else {
        LineScan::Line(buf.subrange(start, start + n), start + n + 2)
    }
}

/// `b` is an ASCII decimal digit.
pub open spec fn is_digit(b: u8) -> bool {
    48 <= b <= 57
}

pub open spec fn all_digits(s: Seq<u8>) -> bool {
    forall|i: int| 0 <= i < s.len() ==> is_digit(#[trigger] s[i])
}

/// Value of a sequence of decimal digit bytes, most significant first.
pub open spec fn digits_value(s: Seq<u8>) -> int
    decreases s.len(),
{
    if s.len() == 0 {
        0
    } else {
        digits_value(s.drop_last()) * 10 + (s.last() - 48)
    }
}

/// The digit bytes of an integer literal: everything after an optional
/// single leading `+` or `-`.
pub open spec fn int_literal_digits(s: Seq<u8>) -> Seq<u8> {
    if s.len() > 0 && (s[0] == SIGN_PLUS || s[0] == SIGN_MINUS) {
        s.subrange(1, s.len() as int)
    } else {
        s
    }
}

/// An integer literal is an optional single leading `+` or `-` followed by
/// one or more decimal digits; leading zeros are permitted.
pub open spec fn int_literal_valid(s: Seq<u8>) -> bool {
    let d = int_literal_digits(s);
    d.len() > 0 && all_digits(d)
}

/// The exact mathematical value of an integer literal.
pub open spec fn int_literal_value(s: Seq<u8>) -> int {
    if s.len() > 0 && s[0] == SIGN_MINUS {
        -digits_value(int_literal_digits(s))
    } else {
        digits_value(int_literal_digits(s))
    }
}

/// The decoded form of one frame.
pub enum FrameModel {
    Simple(Seq<char>),
    Error(Seq<char>),
    Integer(int),
    Bulk(Seq<u8>),
    Null,
}

/// Outcome of one decode attempt.
pub enum DecodeModel {
    /// A complete frame, and the position just past its consumed bytes.
    Frame(FrameModel, int),
    /// Not enough bytes buffered yet to make a decision.
    Incomplete,
    /// The leading sigil names a frame type this decoder does not support.
    Unsupported,
    /// The bytes present violate the frame grammar.
    Malformed,
}

/// Decoding of a simple-string or error frame body: a line that must be
/// valid UTF-8 text.
pub open spec fn decode_text(buf: Seq<u8>, start: int, simple: bool) -> DecodeModel {
    match line_scan(buf, start, None) {
        LineScan::Line(line, next) => if valid_utf8(line) {
            if simple {
                DecodeModel::Frame(FrameModel::Simple(decode_utf8(line)), next)
            } else {
                DecodeModel::Frame(FrameModel::Error(decode_utf8(line)), next)
            }
        } else {
            DecodeModel::Malformed
        },
        LineScan::Incomplete => DecodeModel::Incomplete,
        LineScan::Malformed => DecodeModel::Malformed,
    }
}

/// Decoding of an integer frame body: a line that must be an integer
/// literal within the signed 64-bit range.
pub open spec fn decode_integer(buf: Seq<u8>, start: int) -> DecodeModel {
    match line_scan(buf, start, None) {
        LineScan::Line(line, next) => if int_literal_valid(line) && i64::MIN
            <= int_literal_value(line) <= i64::MAX {
            DecodeModel::Frame(FrameModel::Integer(int_literal_value(line)), next)
        } else {
            DecodeModel::Malformed
        },
        LineScan::Incomplete => DecodeModel::Incomplete,
        LineScan::Malformed => DecodeModel::Malformed,
    }
}

/// Decoding of a bulk-string frame body: a bounded length header (up to 9
/// decimal digits plus CRLF may still be arriving, so no CR may appear
/// later than 11 bytes past `start`), parsed as a signed 32-bit integer,
/// then the payload with its own CRLF terminator.
pub open spec fn decode_bulk(buf: Seq<u8>, start: int) -> DecodeModel {
    match line_scan(buf, start, Some(start + 11)) {
        LineScan::Line(line, next) => {
            if !(int_literal_valid(line) && i32::MIN <= int_literal_value(line) <= i32::MAX) {
                DecodeModel::Malformed
            } else {
                let n = int_literal_value(line);
                if n == -1 {
                    DecodeModel::Frame(FrameModel::Null, next)
                } else if n < -1 {
                    DecodeModel::Malformed
                } else {
                    match binary_scan(buf, next, n) {
                        LineScan::Line(data, after) => DecodeModel::Frame(
                            FrameModel::Bulk(data),
                            after,
                        ),
                        LineScan::Incomplete => DecodeModel::Incomplete,
                        LineScan::Malformed => DecodeModel::Malformed,
                    }
                }
            }
        },
        LineScan::Incomplete => DecodeModel::Incomplete,
        LineScan::Malformed => DecodeModel::Malformed,
    }
}

/// The outcome of decoding one frame from `buf` at position `start`:
/// the single entry point of the grammar model.
pub open spec fn decode_spec(buf: Seq<u8>, start: int) -> DecodeModel {
    if !(0 <= start < buf.len()) {
        DecodeModel::Incomplete
    } else if buf[start] == SIGIL_SIMPLE {
        decode_text(buf, start + 1, true)
    } else if buf[start] == SIGIL_ERROR {
        decode_text(buf, start + 1, false)
    } else if buf[start] == SIGIL_INTEGER {
        decode_integer(buf, start + 1)
    } else if buf[start] == SIGIL_BULK {
        decode_bulk(buf, start + 1)
    } else {
        DecodeModel::Unsupported
    }
}

/// The sequence holds no CR and no LF byte.
pub open spec fn crlf_free_bytes(s: Seq<u8>) -> bool {
    forall|i: int| 0 <= i < s.len() ==> #[trigger] s[i] != CR && s[i] != LF
}

/// The text holds no CR and no LF character.
pub open spec fn crlf_free_chars(t: Seq<char>) -> bool {
    forall|i: int| 0 <= i < t.len() ==> (#[trigger] t[i]) as u32 != 13 && t[i] as u32 != 10
}

/// The one byte of a one-byte UTF-8 encoding carries the scalar itself;
/// every byte of a longer encoding is 0x80 or above.
proof fn lemma_encode_scalar_ascii_byte(s: u32, b: u8)
    requires
        vstd::utf8::is_scalar(s),
        b < 128,
    ensures
        (exists|k: int|
            0 <= k < encode_scalar(s).len() && #[trigger] encode_scalar(s)[k] == b) <==> s == b,
{
    let e = encode_scalar(s);
    if has_width_1_encoding(s) {
        assert(e[0] == (s & 0x7F) as u8);
        assert(((s & 0x7F) as u8 == b) <==> (s == b as u32)) by (bit_vector)
            requires
                s <= 0x7F,
                b < 128,
        ;
        if s == b {
            assert(e[0] == b);
        }
    } else {
        assert(s > 0x7F);
        if has_width_2_encoding(s) {
            assert(e[0] == 0xC0u8 | (((s >> 6) & 0x1F) as u8));
            assert(e[1] == 0x80u8 | ((s & 0x3F) as u8));
            assert((0xC0u8 | (((s >> 6) & 0x1F) as u8)) >= 0x80) by (bit_vector);
            assert((0x80u8 | ((s & 0x3F) as u8)) >= 0x80) by (bit_vector);
        } else if has_width_3_encoding(s) {
            assert(e[0] == 0xE0u8 | (((s >> 12) & 0x0F) as u8));
            assert(e[1] == 0x80u8 | (((s >> 6) & 0x3F) as u8));
            assert(e[2] == 0x80u8 | ((s & 0x3F) as u8));
            assert((0xE0u8 | (((s >> 12) & 0x0F) as u8)) >= 0x80) by (bit_vector);
            assert((0x80u8 | (((s >> 6) & 0x3F) as u8)) >= 0x80) by (bit_vector);
            assert((0x80u8 | ((s & 0x3F) as u8)) >= 0x80) by (bit_vector);
        } else {
            assert(e[0] == 0xF0u8 | (((s >> 18) & 0x7) as u8));
            assert(e[1] == 0x80u8 | (((s >> 12) & 0x3F) as u8));
            assert(e[2] == 0x80u8 | (((s >> 6) & 0x3F) as u8));
            assert(e[3] == 0x80u8 | ((s & 0x3F) as u8));
            assert((0xF0u8 | (((s >> 18) & 0x7) as u8)) >= 0x80) by (bit_vector);
            assert((0x80u8 | (((s >> 12) & 0x3F) as u8)) >= 0x80) by (bit_vector);
            assert((0x80u8 | (((s >> 6) & 0x3F) as u8)) >= 0x80) by (bit_vector);
            assert((0x80u8 | ((s & 0x3F) as u8)) >= 0x80) by (bit_vector);
        }
    }
}

/// An ASCII byte occurs in a UTF-8 encoding exactly where a character of
/// that value occurs in the text.
pub proof fn lemma_encode_utf8_ascii_byte(cs: Seq<char>, b: u8)
    requires
        b < 128,
    ensures
        (exists|i: int|
            0 <= i < encode_utf8(cs).len() && #[trigger] encode_utf8(cs)[i] == b) <==> (exists|
            i: int,
        |
            0 <= i < cs.len() && (#[trigger] cs[i]) as u32 == b),
    decreases cs.len(),
{
    if cs.len() > 0 {
        let s0 = cs[0] as u32;
        char_is_scalar(cs[0]);
        let e0 = encode_scalar(s0);
        let rest = encode_utf8(cs.drop_first());
        let whole = encode_utf8(cs);
        assert(whole == e0 + rest);
        lemma_encode_scalar_ascii_byte(s0, b);
        lemma_encode_utf8_ascii_byte(cs.drop_first(), b);
        if exists|i: int| 0 <= i < whole.len() && #[trigger] whole[i] == b {
            let i = choose|i: int| 0 <= i < whole.len() && #[trigger] whole[i] == b;
            if i < e0.len() {
                assert(e0[i] == b);
                assert(cs[0] as u32 == b);
            } else {
                assert(rest[i - e0.len()] == b);
                let j = choose|j: int|
                    0 <= j < cs.drop_first().len() && (#[trigger] cs.drop_first()[j]) as u32 == b;
                assert(cs[j + 1] as u32 == b);
            }
        }
        if exists|i: int| 0 <= i < cs.len() && (#[trigger] cs[i]) as u32 == b {
            let i = choose|i: int| 0 <= i < cs.len() && (#[trigger] cs[i]) as u32 == b;
            if i == 0 {
                let k = choose|k: int|
                    0 <= k < encode_scalar(s0).len() && #[trigger] encode_scalar(s0)[k] == b;
                assert(whole[k] == b);
            } else {
                assert(cs.drop_first()[i - 1] as u32 == b);
                let k = choose|k: int| 0 <= k < rest.len() && #[trigger] rest[k] == b;
                assert(whole[e0.len() + k] == b);
            }
        }
    }
}

/// A CR/LF-free body followed by CRLF scans as one line: the scan finds
/// exactly the body, whatever bytes follow the terminator.
pub proof fn lemma_line_scan_exact(buf: Seq<u8>, start: int, limit: Option<int>, body_len: int)
    requires
        0 <= start,
        0 <= body_len,
        start + body_len + 2 <= buf.len(),
        forall|j: int| start <= j < start + body_len ==> #[trigger] buf[j] != CR && buf[j] != LF,
        buf[start + body_len] == CR,
        buf[start + body_len + 1] == LF,
        limit matches Some(l) ==> start + body_len < l,
    ensures
        line_scan(buf, start, limit) == LineScan::Line(
            buf.subrange(start, start + body_len),
            start + body_len + 2,
        ),
{
    let p = start + body_len;
    let bound = match limit {
        Some(l) => if l <= buf.len() {
            l
        } else {
            buf.len() as int
        },
        None => buf.len() as int,
    };
    let to = if bound < start {
        start
    } else {
        bound
    };
    assert(p < to);
    lemma_find_byte_spec_at(buf, CR, start, to, p);
    lemma_find_byte_spec_none(buf, LF, start, p);
}

/// Text and its UTF-8 encoding are free of CR and LF together.
pub proof fn lemma_crlf_free_encode(cs: Seq<char>)
    ensures
        crlf_free_chars(cs) <==> crlf_free_bytes(encode_utf8(cs)),
{
    lemma_encode_utf8_ascii_byte(cs, CR);
    lemma_encode_utf8_ascii_byte(cs, LF);
}

/// A valid UTF-8 byte sequence and its decoded text are free of CR and LF
/// together.
pub proof fn lemma_crlf_free_decode(bytes: Seq<u8>)
    requires
        valid_utf8(bytes),
    ensures
        crlf_free_chars(decode_utf8(bytes)) <==> crlf_free_bytes(bytes),
{
    decode_utf8_encode_utf8(bytes);
    lemma_crlf_free_encode(decode_utf8(bytes));
}

/// A frame value that decoding can produce: re-encoding accepts exactly
/// these.
pub open spec fn frame_encodable(fm: FrameModel) -> bool {
    match fm {
        FrameModel::Simple(t) => crlf_free_chars(t),
        FrameModel::Error(t) => crlf_free_chars(t),
        FrameModel::Integer(v) => i64::MIN <= v <= i64::MAX,
        FrameModel::Bulk(p) => p.len() <= 0x7fffffff,
        FrameModel::Null => true,
    }
}

/// What a successful line scan guarantees: the content sits right at
/// `start`, is free of CR and LF, and is terminated by CRLF just before
/// the returned position.
pub proof fn lemma_line_scan_line(buf: Seq<u8>, start: int, limit: Option<int>)
    requires
        0 <= start <= buf.len(),
        line_scan(buf, start, limit) matches LineScan::Line(_, _),
    ensures
        line_scan(buf, start, limit) matches LineScan::Line(line, next) ==> {
            &&& start + 2 <= next <= buf.len()
            &&& line == buf.subrange(start, next - 2)
            &&& line.len() == next - 2 - start
            &&& crlf_free_bytes(line)
            &&& buf[next - 2] == CR
            &&& buf[next - 1] == LF
            &&& (limit matches Some(l) ==> next - 2 < l)
        },
{
    let bound = match limit {
        Some(l) => if l <= buf.len() {
            l
        } else {
            buf.len() as int
        },
        None => buf.len() as int,
    };
    let to = if bound < start {
        start
    } else {
        bound
    };
    lemma_find_byte_spec(buf, CR, start, to);
    match line_scan(buf, start, limit) {
        LineScan::Line(line, next) => {
            let p = next - 2;
            lemma_find_byte_spec(buf, LF, start, p);
            assert forall|i: int| 0 <= i < line.len() implies #[trigger] line[i] != CR && line[i]
                != LF by {
                assert(line[i] == buf[start + i]);
            }
        },
        _ => {},
    }
}

} // verus!
