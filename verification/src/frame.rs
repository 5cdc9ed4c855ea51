//! The frame decoder: reads the one-byte type sigil and dispatches to
//! per-type decoding logic, producing a [`Frame`] value or a typed
//! [`Error`].
//!
//! Every function is proved against the grammar model in [`crate::grammar`]:
//! [`parse`] returns exactly what [`decode_spec`] says the buffer holds at
//! the cursor's position.

use crate::cursor::ByteCursor;
use crate::grammar::{
    binary_scan, crlf_free_chars, decode_bulk, decode_spec, digits_value, frame_encodable, int_literal_digits, int_literal_valid, int_literal_value,
    lemma_crlf_free_decode, lemma_crlf_free_encode, lemma_find_byte_spec_at,
    lemma_find_byte_spec_none, lemma_line_scan_exact, lemma_line_scan_line, line_scan, DecodeModel,
    FrameModel, LineScan, CR, LF, SIGIL_BULK, SIGIL_ERROR, SIGIL_INTEGER, SIGIL_SIMPLE, SIGN_MINUS,
    SIGN_PLUS,
};
use crate::num::{format_i64, format_u64, parse_decimal_i64, push_bytes};
use crate::trusted::{bytes_to_string, find_byte};
use vstd::prelude::*;
use vstd::slice::{slice_subrange, slice_to_vec};
use vstd::utf8::{decode_utf8, encode_utf8, encode_utf8_decode_utf8, encode_utf8_valid_utf8, valid_utf8};

verus! {

broadcast use crate::cursor::lemma_cursor_pos_nonneg;

/// The failure contract exposed to callers.
#[derive(Debug)]
pub enum Error {
    /// Not enough bytes buffered yet to make a decision; no buffered byte
    /// has been discarded, and the caller should retry once more arrive.
    Incomplete,
    /// The leading sigil byte does not name a supported frame type.
    UnsupportedFrameType,
    /// The bytes present violate the frame grammar; the detail carries a
    /// human-readable cause.
    UnexpectedError(&'static str),
}

/// The view of `limit` as the grammar model takes it.
pub open spec fn limit_spec(limit: Option<usize>) -> Option<int> {
    match limit {
        Some(l) => Some(l as int),
        None => None,
    }
}

/// Finds a CRLF-terminated line from the cursor's position; `limit` is an
/// optional maximum absolute offset beyond which no CR may legally appear.
/// On success the cursor is advanced past the CRLF and the line content
/// (CRLF excluded) is returned; on any failure the cursor does not move.
pub fn read_line_with_limit<'a>(buff: &mut ByteCursor<'a>, limit: Option<usize>) -> (r: Result<
    &'a [u8],
    Error,
>)
    requires
        old(buff).pos_spec() <= old(buff).buf_spec().len(),
    ensures
        final(buff).buf_spec() == old(buff).buf_spec(),
        match line_scan(old(buff).buf_spec(), old(buff).pos_spec(), limit_spec(limit)) {
            LineScan::Line(line, next) => {
                &&& (r matches Ok(l) && l@ == line)
                &&& final(buff).pos_spec() == next
            },
            LineScan::Incomplete => {
                &&& r matches Err(Error::Incomplete)
                &&& final(buff).pos_spec() == old(buff).pos_spec()
            },
            LineScan::Malformed => {
                &&& r matches Err(Error::UnexpectedError(_))
                &&& final(buff).pos_spec() == old(buff).pos_spec()
            },
        },
{
    let start = buff.position();
    let s = buff.as_slice();
    let len = s.len();
    let end0 = match limit {
        Some(l) => if l < len {
            l
        } else {
            len
        },
        None => len,
    };
    let end = if end0 < start {
        start
    } else {
        end0
    };
    let found = find_byte(CR, slice_subrange(s, start, end));
    proof {
        match found {
            Some(rel) => {
                assert forall|j: int| start <= j < start + rel implies s@[j] != CR by {
                    assert(s@.subrange(start as int, end as int)[j - start] != CR);
                }
                assert(s@.subrange(start as int, end as int)[rel as int] == s@[start + rel]);
                lemma_find_byte_spec_at(s@, CR, start as int, end as int, start + rel);
            },
            None => {
                assert forall|j: int| start <= j < end implies s@[j] != CR by {
                    assert(s@.subrange(start as int, end as int)[j - start] != CR);
                }
                lemma_find_byte_spec_none(s@, CR, start as int, end as int);
            },
        }
    }
    match found {
        None => match limit {
            Some(l) => if l <= len {
                Err(Error::UnexpectedError("protocol error; \\r\\n not found."))
            } else {
                Err(Error::Incomplete)
            },
            None => Err(Error::Incomplete),
        },
        Some(rel) => {
            let p = start + rel;
            let lf_found = find_byte(LF, slice_subrange(s, start, p));
            proof {
                match lf_found {
                    Some(q) => {
                        assert(s@.subrange(start as int, p as int)[q as int] == s@[start + q]);
                        assert forall|j: int| start <= j < start + q implies s@[j] != LF by {
                            assert(s@.subrange(start as int, p as int)[j - start] != LF);
                        }
                        lemma_find_byte_spec_at(s@, LF, start as int, p as int, start + q);
                    },
                    None => {
                        assert forall|j: int| start <= j < p implies s@[j] != LF by {
                            assert(s@.subrange(start as int, p as int)[j - start] != LF);
                        }
                        lemma_find_byte_spec_none(s@, LF, start as int, p as int);
                    },
                }
            }
            if lf_found.is_some() {
                Err(Error::UnexpectedError("protocol error; \\n found in wrong position."))
            } else if p + 1 >= len {
                Err(Error::Incomplete)
            } else if s[p + 1] != LF {
                Err(Error::UnexpectedError("protocol error; \\n not found after \\r."))
            } else {
                buff.set_position(p + 2);
                Ok(slice_subrange(s, start, p))
            }
        },
    }
}

/// [`read_line_with_limit`] without a scan bound.
pub fn read_line<'a>(buff: &mut ByteCursor<'a>) -> (r: Result<&'a [u8], Error>)
    requires
        old(buff).pos_spec() <= old(buff).buf_spec().len(),
    ensures
        final(buff).buf_spec() == old(buff).buf_spec(),
        match line_scan(old(buff).buf_spec(), old(buff).pos_spec(), None) {
            LineScan::Line(line, next) => {
                &&& (r matches Ok(l) && l@ == line)
                &&& final(buff).pos_spec() == next
            },
            LineScan::Incomplete => {
                &&& r matches Err(Error::Incomplete)
                &&& final(buff).pos_spec() == old(buff).pos_spec()
            },
            LineScan::Malformed => {
                &&& r matches Err(Error::UnexpectedError(_))
                &&& final(buff).pos_spec() == old(buff).pos_spec()
            },
        },
{
    read_line_with_limit(buff, None)
}

/// Returns the byte at the cursor and advances by one; fails with
/// [`Error::Incomplete`] when the cursor is at or past the buffer's end.
pub fn get_u8<'a>(buff: &mut ByteCursor<'a>) -> (r: Result<u8, Error>)
    ensures
        final(buff).buf_spec() == old(buff).buf_spec(),
        if old(buff).pos_spec() < old(buff).buf_spec().len() {
            &&& (r matches Ok(b) && b == old(buff).buf_spec()[old(buff).pos_spec()])
            &&& final(buff).pos_spec() == old(buff).pos_spec() + 1
        } else {
            &&& r matches Err(Error::Incomplete)
            &&& final(buff).pos_spec() == old(buff).pos_spec()
        },
{
    match buff.next_byte() {
        Some(b) => Ok(b),
        None => Err(Error::Incomplete),
    }
}

/// Reads exactly `content_len` raw bytes verbatim, then requires the two
/// bytes after them to be CR then LF; fails with [`Error::Incomplete`]
/// when fewer than `content_len + 2` bytes remain.
pub fn read_binary_line<'a>(buff: &mut ByteCursor<'a>, content_len: usize) -> (r: Result<
    &'a [u8],
    Error,
>)
    requires
        old(buff).pos_spec() <= old(buff).buf_spec().len(),
        content_len + 2 <= usize::MAX,
    ensures
        final(buff).buf_spec() == old(buff).buf_spec(),
        match binary_scan(old(buff).buf_spec(), old(buff).pos_spec(), content_len as int) {
            LineScan::Line(data, next) => {
                &&& (r matches Ok(d) && d@ == data)
                &&& final(buff).pos_spec() == next
            },
            LineScan::Incomplete => {
                &&& r matches Err(Error::Incomplete)
                &&& final(buff).pos_spec() == old(buff).pos_spec()
            },
            LineScan::Malformed => {
                &&& r matches Err(Error::UnexpectedError(_))
                &&& final(buff).pos_spec() == old(buff).pos_spec()
            },
        },
{
    let rem = buff.remaining();
    if rem < content_len + 2 {
        return Err(Error::Incomplete);
    }
    let start = buff.position();
    let s = buff.as_slice();
    // learning the slice's length shows the verifier that the indices
    // below fit in usize
    let _len = s.len();
    let end = start + content_len;
    let data = slice_subrange(s, start, end);
    if s[end] != CR || s[end + 1] != LF {
        return Err(Error::UnexpectedError("protocol error; missing final CRLF for bulk string"));
    }
    buff.set_position(end + 2);
    Ok(data)
}

/// One decoded protocol message, constructed once per successful decode
/// and owned by the caller.
///
/// Array frames are an extension point this decoder does not cover; their
/// sigil is reported as [`Error::UnsupportedFrameType`].
#[derive(Debug)]
pub enum Frame {
    /// Text free of CR and LF bytes.
    Simple(String),
    /// Text free of CR and LF bytes.
    Error(String),
    /// The exact decimal value of the source line.
    Integer(i64),
    /// Exactly as many bytes as the declared header length; may contain
    /// any byte value, CR, LF and NUL included.
    Bulk(Vec<u8>),
    /// A bulk frame whose declared length is -1.
    Null,
}

impl View for Frame {
    type V = FrameModel;

    open spec fn view(&self) -> FrameModel {
        match self {
            Frame::Simple(s) => FrameModel::Simple(s@),
            Frame::Error(s) => FrameModel::Error(s@),
            Frame::Integer(i) => FrameModel::Integer(*i as int),
            Frame::Bulk(v) => FrameModel::Bulk(v@),
            Frame::Null => FrameModel::Null,
        }
    }
}

impl Frame {
    /// Interprets a line as UTF-8 text for a simple-string frame.
    fn simple(line: &[u8]) -> (r: Result<Frame, Error>)
        ensures
            match r {
                Ok(f) => valid_utf8(line@) && f@ == FrameModel::Simple(decode_utf8(line@)),
                Err(e) => !valid_utf8(line@) && e matches Error::UnexpectedError(_),
            },
    {
        match bytes_to_string(line) {
            Some(s) => Ok(Frame::Simple(s)),
            None => Err(Error::UnexpectedError("protocol error; invalid simple string format")),
        }
    }

    /// Interprets a line as UTF-8 text for an error frame.
    fn error(line: &[u8]) -> (r: Result<Frame, Error>)
        ensures
            match r {
                Ok(f) => valid_utf8(line@) && f@ == FrameModel::Error(decode_utf8(line@)),
                Err(e) => !valid_utf8(line@) && e matches Error::UnexpectedError(_),
            },
    {
        match bytes_to_string(line) {
            Some(s) => Ok(Frame::Error(s)),
            None => Err(Error::UnexpectedError("protocol error; invalid simple error format")),
        }
    }

    /// Interprets a line as a signed 64-bit decimal integer.
    fn integer(line: &[u8]) -> (r: Result<Frame, Error>)
        ensures
            match r {
                Ok(f) => int_literal_valid(line@) && i64::MIN <= int_literal_value(line@)
                    <= i64::MAX && f@ == FrameModel::Integer(int_literal_value(line@)),
                Err(e) => !(int_literal_valid(line@) && i64::MIN <= int_literal_value(line@)
                    <= i64::MAX) && e matches Error::UnexpectedError(_),
            },
    {
        match parse_decimal_i64(line) {
            Some(v) => Ok(Frame::Integer(v)),
            None => Err(Error::UnexpectedError("protocol error; invalid integer format")),
        }
    }

    /// Decodes a bulk-string frame body: a length header whose CR may
    /// appear no later than 11 bytes past the cursor (up to 9 decimal
    /// digits plus CRLF), then the payload bytes verbatim with their own
    /// CRLF terminator.
    fn bulk<'a>(buff: &mut ByteCursor<'a>) -> (r: Result<Frame, Error>)
        requires
            old(buff).pos_spec() <= old(buff).buf_spec().len(),
        ensures
            final(buff).buf_spec() == old(buff).buf_spec(),
            match decode_bulk(old(buff).buf_spec(), old(buff).pos_spec()) {
                DecodeModel::Frame(fm, next) => {
                    &&& (r matches Ok(f) && f@ == fm)
                    &&& frame_encodable(fm)
                    &&& final(buff).pos_spec() == next
                },
                DecodeModel::Incomplete => r matches Err(Error::Incomplete),
                DecodeModel::Unsupported => false,
                DecodeModel::Malformed => r matches Err(Error::UnexpectedError(_)),
            },
    {
        let ghost buf = old(buff).buf_spec();
        let ghost pos = old(buff).pos_spec();
        let start = buff.position();
        let len = buff.as_slice().len();
        // the scan bound for the length header; when it lies beyond the
        // buffer it constrains nothing, which an absent bound also says
        let limit: Option<usize> = if len >= 11 && start <= len - 11 {
            Some(start + 11)
        } else {
            None
        };
        proof {
            assert(line_scan(buf, pos, limit_spec(limit)) == line_scan(buf, pos, Some(pos + 11)));
        }
        let header = match read_line_with_limit(buff, limit) {
            Ok(l) => l,
            Err(e) => {
                return Err(e);
            },
        };
        proof {
            lemma_line_scan_line(buf, pos, Some(pos + 11));
        }
        let v = match parse_decimal_i64(header) {
            Some(v) => v,
            None => {
                return Err(
                    Error::UnexpectedError("protocol error; invalid bulk string length digit"),
                );
            },
        };
        if v < -2147483648 || v > 2147483647 {
            return Err(Error::UnexpectedError("protocol error; invalid bulk string length digit"));
        }
        if v == -1 {
            return Ok(Frame::Null);
        }
        if v < -1 {
            return Err(Error::UnexpectedError("protocol error; invalid bulk string length"));
        }
        let content_len = v as usize;
        let data = match read_binary_line(buff, content_len) {
            Ok(d) => d,
            Err(e) => {
                return Err(e);
            },
        };
        Ok(Frame::Bulk(slice_to_vec(data)))
    }
}

/// Encodes a line frame: the sigil, the text's UTF-8 bytes, CRLF.
fn encode_text(simple: bool, s: &String) -> (r: Option<Vec<u8>>)
    ensures
        r is Some <==> crlf_free_chars(s@),
        match r {
            Some(v) => decode_spec(v@, 0) == DecodeModel::Frame(
                if simple {
                    FrameModel::Simple(s@)
                } else {
                    FrameModel::Error(s@)
                },
                v@.len() as int,
            ),
            None => true,
        },
{
    let bytes = s.as_str().as_bytes();
    let has_cr = find_byte(CR, bytes);
    let has_lf = find_byte(LF, bytes);
    proof {
        lemma_crlf_free_encode(s@);
    }
    if has_cr.is_some() || has_lf.is_some() {
        return None;
    }
    let mut out: Vec<u8> = Vec::new();
    out.push(if simple {
        SIGIL_SIMPLE
    } else {
        SIGIL_ERROR
    });
    push_bytes(&mut out, bytes);
    out.push(CR);
    out.push(LF);
    proof {
        let eb = encode_utf8(s@);
        let f = out@;
        let sig = if simple {
            SIGIL_SIMPLE
        } else {
            SIGIL_ERROR
        };
        assert(f =~= seq![sig] + eb + seq![CR, LF]);
        assert(f[0] == sig);
        assert forall|j: int| 1 <= j < 1 + eb.len() as int implies #[trigger] f[j] != CR && f[j]
            != LF by {
            assert(f[j] == eb[j - 1]);
        }
        assert(f[1 + eb.len() as int] == CR);
        assert(f[2 + eb.len() as int] == LF);
        lemma_line_scan_exact(f, 1, None, eb.len() as int);
        assert(f.subrange(1, 1 + eb.len() as int) =~= eb);
        encode_utf8_valid_utf8(s@);
        encode_utf8_decode_utf8(s@);
    }
    Some(out)
}

/// Encodes an integer frame: the sigil, the decimal literal, CRLF.
fn encode_integer(i: i64) -> (v: Vec<u8>)
    ensures
        decode_spec(v@, 0) == DecodeModel::Frame(FrameModel::Integer(i as int), v@.len() as int),
{
    let digits = format_i64(i);
    let mut out: Vec<u8> = Vec::new();
    out.push(SIGIL_INTEGER);
    push_bytes(&mut out, digits.as_slice());
    out.push(CR);
    out.push(LF);
    proof {
        let dg = digits@;
        let f = out@;
        assert(f =~= seq![SIGIL_INTEGER] + dg + seq![CR, LF]);
        assert(f[0] == SIGIL_INTEGER);
        assert forall|j: int| 1 <= j < 1 + dg.len() as int implies #[trigger] f[j] != CR && f[j]
            != LF by {
            assert(f[j] == dg[j - 1]);
        }
        assert(f[1 + dg.len() as int] == CR);
        assert(f[2 + dg.len() as int] == LF);
        lemma_line_scan_exact(f, 1, None, dg.len() as int);
        assert(f.subrange(1, 1 + dg.len() as int) =~= dg);
    }
    out
}

/// Encodes a bulk frame: the sigil, the decimal length header, CRLF, the
/// payload verbatim, CRLF.
fn encode_bulk(payload: &Vec<u8>) -> (r: Option<Vec<u8>>)
    ensures
        r is Some <==> payload@.len() <= 0x7fffffff,
        match r {
            Some(v) => decode_spec(v@, 0) == DecodeModel::Frame(
                FrameModel::Bulk(payload@),
                v@.len() as int,
            ),
            None => true,
        },
{
    if payload.len() > 2147483647 {
        return None;
    }
    let header = format_u64(payload.len() as u64);
    proof {
        if header@.len() > 10 {
            crate::num::lemma_digits_value_lower(header@);
            assert(crate::num::pow10(10) == 10000000000) by {
                reveal_with_fuel(crate::num::pow10, 11);
            }
            crate::num::lemma_pow10_mono(10, (header@.len() - 1) as nat);
        }
        assert(header@.len() <= 10);
        assert(header@[0] != SIGN_PLUS && header@[0] != SIGN_MINUS);
        assert(int_literal_digits(header@) == header@);
    }
    let mut out: Vec<u8> = Vec::new();
    out.push(SIGIL_BULK);
    push_bytes(&mut out, header.as_slice());
    out.push(CR);
    out.push(LF);
    push_bytes(&mut out, payload.as_slice());
    out.push(CR);
    out.push(LF);
    proof {
        assert(out@ =~= seq![SIGIL_BULK] + header@ + seq![CR, LF] + payload@ + seq![CR, LF]);
        crate::laws::lemma_bulk_binary_safety(header@, payload@);
    }
    Some(out)
}

/// Encodes the null frame: a bulk header declaring length -1.
fn encode_null() -> (v: Vec<u8>)
    ensures
        decode_spec(v@, 0) == DecodeModel::Frame(FrameModel::Null, v@.len() as int),
{
    let mut out: Vec<u8> = Vec::new();
    out.push(SIGIL_BULK);
    out.push(SIGN_MINUS);
    out.push(49);
    out.push(CR);
    out.push(LF);
    proof {
        let f = out@;
        assert(f =~= seq![SIGIL_BULK, SIGN_MINUS, 49u8, CR, LF]);
        assert forall|j: int| 1 <= j < 3 implies #[trigger] f[j] != CR && f[j] != LF by {}
        lemma_line_scan_exact(f, 1, Some(12), 2);
        let header = f.subrange(1, 3);
        assert(header =~= seq![SIGN_MINUS, 49u8]);
        assert(int_literal_digits(header) =~= seq![49u8]);
        assert(digits_value(seq![49u8].drop_last()) == 0);
        assert(seq![49u8].drop_last() =~= Seq::<u8>::empty());
        assert(digits_value(seq![49u8]) == 1);
        assert(int_literal_value(header) == -1);
    }
    out
}

/// Re-encodes a frame using the wire grammar: the inverse of [`parse`].
/// Encoding succeeds exactly on the frames that decoding can produce —
/// text free of CR and LF, a bulk payload of at most `i32::MAX` bytes —
/// and the grammar model decodes the produced bytes back to the very
/// same frame, consuming all of them.  Together with the contract of
/// [`parse`] this is the round trip: re-encoding a decoded frame and
/// decoding again reproduces an equal frame.
pub fn encode(frame: &Frame) -> (r: Option<Vec<u8>>)
    ensures
        r is Some <==> frame_encodable(frame@),
        match r {
            Some(v) => decode_spec(v@, 0) == DecodeModel::Frame(frame@, v@.len() as int),
            None => true,
        },
{
    match frame {
        Frame::Simple(s) => encode_text(true, s),
        Frame::Error(s) => encode_text(false, s),
        Frame::Integer(i) => Some(encode_integer(*i)),
        Frame::Bulk(v) => encode_bulk(v),
        Frame::Null => Some(encode_null()),
    }
}

/// Decodes one frame at the cursor's position: the single decode entry
/// point.  It never panics, whatever the buffer holds.  On success the
/// cursor is left positioned exactly after the consumed frame; on any
/// failure the caller must not trust the cursor's position and should
/// retry the entire decode from the original start once the buffer has
/// grown.  The buffer itself is never modified.
pub fn parse<'a>(buff: &mut ByteCursor<'a>) -> (r: Result<Frame, Error>)
    ensures
        final(buff).buf_spec() == old(buff).buf_spec(),
        match decode_spec(old(buff).buf_spec(), old(buff).pos_spec()) {
            DecodeModel::Frame(fm, next) => {
                &&& (r matches Ok(f) && f@ == fm)
                &&& frame_encodable(fm)
                &&& final(buff).pos_spec() == next
            },
            DecodeModel::Incomplete => r matches Err(Error::Incomplete),
            DecodeModel::Unsupported => r matches Err(Error::UnsupportedFrameType),
            DecodeModel::Malformed => r matches Err(Error::UnexpectedError(_)),
        },
{
    let ghost buf = old(buff).buf_spec();
    let ghost pos = old(buff).pos_spec();
    let first = match get_u8(buff) {
        Ok(b) => b,
        Err(e) => {
            return Err(e);
        },
    };
    if first == SIGIL_SIMPLE {
        let line = match read_line(buff) {
            Ok(l) => l,
            Err(e) => {
                return Err(e);
            },
        };
        proof {
            lemma_line_scan_line(buf, pos + 1, None);
            if valid_utf8(line@) {
                lemma_crlf_free_decode(line@);
            }
        }
        Frame::simple(line)
    } else if first == SIGIL_ERROR {
        let line = match read_line(buff) {
            Ok(l) => l,
            Err(e) => {
                return Err(e);
            },
        };
        proof {
            lemma_line_scan_line(buf, pos + 1, None);
            if valid_utf8(line@) {
                lemma_crlf_free_decode(line@);
            }
        }
        Frame::error(line)
    } else if first == SIGIL_INTEGER {
        let line = match read_line(buff) {
            Ok(l) => l,
            Err(e) => {
                return Err(e);
            },
        };
        Frame::integer(line)
    } else if first == SIGIL_BULK {
        Frame::bulk(buff)
    } else {
        Err(Error::UnsupportedFrameType)
    }
}

} // verus!
