//! Laws of the decoder, proved of the grammar model.
//!
//! Together with the contract of [`crate::frame::parse`] these say that
//! delivery in arbitrary fragments is harmless: every strict prefix of a
//! complete frame reports only that more bytes are needed, and bytes
//! arriving after a complete frame change nothing about it.

use crate::grammar::{
    binary_scan, decode_spec, int_literal_valid, int_literal_value,
    lemma_find_byte_spec_at, lemma_find_byte_spec_none, lemma_line_scan_line, line_scan,
    DecodeModel, FrameModel, LineScan, CR, LF, SIGIL_BULK, SIGIL_ERROR, SIGIL_INTEGER,
    SIGIL_SIMPLE, SIGN_MINUS, SIGN_PLUS,
};
use vstd::prelude::*;

verus! {

/// The buffer holds exactly one complete frame: a decode from its start
/// consumes every byte.
pub open spec fn complete_frame(buf: Seq<u8>) -> bool {
    decode_spec(buf, 0) matches DecodeModel::Frame(fm, next) && next == buf.len()
}

/// Truncating the buffer strictly before the end of a scanned line leaves
/// the scan incomplete.
proof fn lemma_line_scan_prefix(buf: Seq<u8>, start: int, limit: Option<int>, k: int)
    requires
        0 <= start <= k <= buf.len(),
        line_scan(buf, start, limit) matches LineScan::Line(line, next) && k < next,
    ensures
        line_scan(buf.subrange(0, k), start, limit) == LineScan::Incomplete,
{
    lemma_line_scan_line(buf, start, limit);
    let pre = buf.subrange(0, k);
    match line_scan(buf, start, limit) {
        LineScan::Line(line, next) => {
            let p = next - 2;
            let bound_pre = match limit {
                Some(l) => if l <= pre.len() {
                    l
                } else {
                    pre.len() as int
                },
                None => pre.len() as int,
            };
            let to_pre = if bound_pre < start {
                start
            } else {
                bound_pre
            };
            if k <= p {
                assert forall|j: int| start <= j < to_pre implies pre[j] != CR by {
                    assert(pre[j] == buf[j]);
                    assert(buf.subrange(start, p)[j - start] == buf[j]);
                }
                lemma_find_byte_spec_none(pre, CR, start, to_pre);
            } else {
                // k == p + 1: the CR is buffered but the byte after it is not
                assert(k == p + 1);
                assert(pre[p] == buf[p]);
                assert forall|j: int| start <= j < p implies pre[j] != CR && pre[j] != LF by {
                    assert(pre[j] == buf[j]);
                    assert(buf.subrange(start, p)[j - start] == buf[j]);
                }
                assert(p < to_pre);
                lemma_find_byte_spec_at(pre, CR, start, to_pre, p);
                lemma_find_byte_spec_none(pre, LF, start, p);
            }
        },
        _ => {},
    }
}

/// Truncating the buffer at or after the end of a scanned line does not
/// change the scan.
proof fn lemma_line_scan_truncate_after(buf: Seq<u8>, start: int, limit: Option<int>, k: int)
    requires
        0 <= start <= buf.len(),
        line_scan(buf, start, limit) matches LineScan::Line(line, next) && next <= k <= buf.len(),
    ensures
        line_scan(buf.subrange(0, k), start, limit) == line_scan(buf, start, limit),
{
    lemma_line_scan_line(buf, start, limit);
    let pre = buf.subrange(0, k);
    match line_scan(buf, start, limit) {
        LineScan::Line(line, next) => {
            let p = next - 2;
            let bound_pre = match limit {
                Some(l) => if l <= pre.len() {
                    l
                } else {
                    pre.len() as int
                },
                None => pre.len() as int,
            };
            let to_pre = if bound_pre < start {
                start
            } else {
                bound_pre
            };
            assert(pre[p] == buf[p]);
            assert forall|j: int| start <= j < p implies pre[j] != CR && pre[j] != LF by {
                assert(pre[j] == buf[j]);
                assert(buf.subrange(start, p)[j - start] == buf[j]);
            }
            assert(p < to_pre);
            lemma_find_byte_spec_at(pre, CR, start, to_pre, p);
            lemma_find_byte_spec_none(pre, LF, start, p);
            assert(pre[p + 1] == buf[p + 1]);
            assert(pre.subrange(start, p) =~= buf.subrange(start, p));
        },
        _ => {},
    }
}

/// Extending the buffer beyond a scanned line does not change the scan.
proof fn lemma_line_scan_extends(buf: Seq<u8>, ext: Seq<u8>, start: int, limit: Option<int>)
    requires
        0 <= start <= buf.len(),
        line_scan(buf, start, limit) matches LineScan::Line(line, next),
    ensures
        line_scan(buf + ext, start, limit) == line_scan(buf, start, limit),
{
    lemma_line_scan_line(buf, start, limit);
    let big = buf + ext;
    match line_scan(buf, start, limit) {
        LineScan::Line(line, next) => {
            let p = next - 2;
            let bound_big = match limit {
                Some(l) => if l <= big.len() {
                    l
                } else {
                    big.len() as int
                },
                None => big.len() as int,
            };
            let to_big = if bound_big < start {
                start
            } else {
                bound_big
            };
            assert(big[p] == buf[p]);
            assert forall|j: int| start <= j < p implies big[j] != CR && big[j] != LF by {
                assert(big[j] == buf[j]);
                assert(buf.subrange(start, p)[j - start] == buf[j]);
            }
            assert(p < to_big);
            lemma_find_byte_spec_at(big, CR, start, to_big, p);
            lemma_find_byte_spec_none(big, LF, start, p);
            assert(big[p + 1] == buf[p + 1]);
            assert(big.subrange(start, p) =~= buf.subrange(start, p));
        },
        _ => {},
    }
}

/// Idempotent incremental delivery, first half: while only a strict
/// prefix of a complete frame has been buffered, a decode attempt reports
/// `Incomplete` — never an error, and never a frame.
pub proof fn lemma_prefix_incomplete(buf: Seq<u8>, k: int)
    requires
        complete_frame(buf),
        0 <= k < buf.len(),
    ensures
        decode_spec(buf.subrange(0, k), 0) == DecodeModel::Incomplete,
{
    let pre = buf.subrange(0, k);
    if k == 0 {
        // nothing buffered: not even the sigil can be read
    } else {
        assert(pre[0] == buf[0]);
        let sig = buf[0];
        if sig == SIGIL_SIMPLE || sig == SIGIL_ERROR || sig == SIGIL_INTEGER {
            match line_scan(buf, 1, None) {
                LineScan::Line(line, next) => {
                    lemma_line_scan_line(buf, 1, None);
                    lemma_line_scan_prefix(buf, 1, None, k);
                },
                _ => {},
            }
        } else if sig == SIGIL_BULK {
            match line_scan(buf, 1, Some(12)) {
                LineScan::Line(header, hn) => {
                    lemma_line_scan_line(buf, 1, Some(12));
                    let n = int_literal_value(header);
                    if n == -1 {
                        // the frame is the header line alone
                        lemma_line_scan_prefix(buf, 1, Some(12), k);
                    } else {
                        // a payload of n bytes and its CRLF follow the header
                        if k < hn {
                            lemma_line_scan_prefix(buf, 1, Some(12), k);
                        } else {
                            lemma_line_scan_truncate_after(buf, 1, Some(12), k);
                            assert(binary_scan(pre, hn, n) == LineScan::Incomplete);
                        }
                    }
                },
                _ => {},
            }
        }
    }
}

/// Idempotent incremental delivery, second half: bytes arriving after a
/// decodable frame change neither the frame nor the count of consumed
/// bytes.
pub proof fn lemma_decode_extends(buf: Seq<u8>, ext: Seq<u8>)
    requires
        decode_spec(buf, 0) matches DecodeModel::Frame(fm, next),
    ensures
        decode_spec(buf + ext, 0) == decode_spec(buf, 0),
{
    let big = buf + ext;
    assert(big[0] == buf[0]);
    let sig = buf[0];
    if sig == SIGIL_SIMPLE || sig == SIGIL_ERROR || sig == SIGIL_INTEGER {
        match line_scan(buf, 1, None) {
            LineScan::Line(line, next) => {
                lemma_line_scan_extends(buf, ext, 1, None);
            },
            _ => {},
        }
    } else if sig == SIGIL_BULK {
        match line_scan(buf, 1, Some(12)) {
            LineScan::Line(header, hn) => {
                lemma_line_scan_line(buf, 1, Some(12));
                lemma_line_scan_extends(buf, ext, 1, Some(12));
                let n = int_literal_value(header);
                if 0 <= n {
                    match binary_scan(buf, hn, n) {
                        LineScan::Line(data, after) => {
                            assert(big[hn + n] == buf[hn + n]);
                            assert(big[hn + n + 1] == buf[hn + n + 1]);
                            assert(big.subrange(hn, hn + n) =~= buf.subrange(hn, hn + n));
                        },
                        _ => {},
                    }
                }
            },
            _ => {},
        }
    }
}

/// Binary safety: a bulk frame whose header declares length `n` decodes
/// to exactly its `n` payload bytes, unchanged and uninterpreted — bytes
/// such as CR, LF and NUL included.
pub proof fn lemma_bulk_binary_safety(header: Seq<u8>, payload: Seq<u8>)
    requires
        int_literal_valid(header),
        header.len() <= 10,
        int_literal_value(header) == payload.len(),
        payload.len() <= 0x7fffffff,
    ensures
        ({
            let f = seq![SIGIL_BULK] + header + seq![CR, LF] + payload + seq![CR, LF];
            decode_spec(f, 0) == DecodeModel::Frame(FrameModel::Bulk(payload), f.len() as int)
        }),
{
    let f = seq![SIGIL_BULK] + header + seq![CR, LF] + payload + seq![CR, LF];
    let hl = header.len() as int;
    let n = payload.len() as int;
    assert(f.len() == hl + n + 5);
    assert(f[0] == SIGIL_BULK);
    assert forall|j: int| 1 <= j < 1 + hl implies #[trigger] f[j] == header[j - 1] by {}
    assert(f[1 + hl] == CR);
    assert(f[2 + hl] == LF);
    assert forall|j: int| 1 <= j < 1 + hl implies #[trigger] f[j] != CR && f[j] != LF by {
        let b = header[j - 1];
        let d = crate::grammar::int_literal_digits(header);
        if j == 1 && (header[0] == SIGN_PLUS || header[0] == SIGN_MINUS) {
            assert(b == SIGN_PLUS || b == SIGN_MINUS);
        } else {
            if header[0] == SIGN_PLUS || header[0] == SIGN_MINUS {
                assert(d[j - 2] == header[j - 1]);
                assert(crate::grammar::is_digit(b));
            } else {
                assert(d[j - 1] == header[j - 1]);
                assert(crate::grammar::is_digit(b));
            }
        }
    }
    crate::grammar::lemma_line_scan_exact(f, 1, Some(12), hl);
    assert(f.subrange(1, 1 + hl) =~= header);
    let hn = hl + 3;
    assert(0 <= n <= 0x7fffffff);
    assert(f[hn + n] == CR);
    assert(f[hn + n + 1] == LF);
    assert(binary_scan(f, hn, n) == LineScan::Line(f.subrange(hn, hn + n), hn + n + 2));
    assert(f.subrange(hn, hn + n) =~= payload);
}

} // verus!
