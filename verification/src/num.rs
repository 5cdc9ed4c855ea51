//! Verified reading and writing of decimal integer literals.
//!
//! The grammar accepts an optional single leading `+` or `-`, then one or
//! more ASCII digits, leading zeros included; the value must lie in the
//! closed signed 64-bit range.  [`parse_decimal_i64`] decides exactly that.

use crate::grammar::{
    all_digits, digits_value, int_literal_digits, int_literal_valid, int_literal_value, is_digit,
    SIGN_MINUS, SIGN_PLUS,
};
use vstd::prelude::*;

verus! {

/// Ten to the `k`.
pub open spec fn pow10(k: nat) -> int
    decreases k,
{
    if k == 0 {
        1
    } else {
        10 * pow10((k - 1) as nat)
    }
}

pub proof fn lemma_pow10_pos(k: nat)
    ensures
        pow10(k) >= 1,
    decreases k,
{
    if k > 0 {
        lemma_pow10_pos((k - 1) as nat);
    }
}

pub proof fn lemma_pow10_mono(a: nat, b: nat)
    requires
        a <= b,
    ensures
        pow10(a) <= pow10(b),
    decreases b,
{
    if a < b {
        lemma_pow10_mono(a, (b - 1) as nat);
        lemma_pow10_pos((b - 1) as nat);
    }
}

/// A digit sequence's value is nonnegative and below ten to its length.
pub proof fn lemma_digits_value_bounds(s: Seq<u8>)
    requires
        all_digits(s),
    ensures
        0 <= digits_value(s) < pow10(s.len()),
    decreases s.len(),
{
    if s.len() > 0 {
        assert(all_digits(s.drop_last())) by {
            assert(forall|i: int|
                0 <= i < s.len() - 1 ==> #[trigger] s.drop_last()[i] == s[i]);
        }
        lemma_digits_value_bounds(s.drop_last());
        assert(is_digit(s.last()));
        let v = digits_value(s.drop_last());
        let p = pow10((s.len() - 1) as nat);
        lemma_pow10_pos((s.len() - 1) as nat);
        assert(v * 10 + (s.last() - 48) < p * 10) by (nonlinear_arith)
            requires
                0 <= v < p,
                s.last() - 48 < 10,
        ;
        assert(pow10(s.len() as nat) == 10 * p);
    }
}

/// Splitting a digit string: the left part is shifted by the length of the
/// right part.
pub proof fn lemma_digits_value_concat(a: Seq<u8>, b: Seq<u8>)
    ensures
        digits_value(a + b) == digits_value(a) * pow10(b.len()) + digits_value(b),
    decreases b.len(),
{
    if b.len() == 0 {
        assert(a + b =~= a);
    } else {
        lemma_digits_value_concat(a, b.drop_last());
        assert((a + b).drop_last() =~= a + b.drop_last());
        assert((a + b).last() == b.last());
        let va = digits_value(a);
        let p = pow10((b.len() - 1) as nat);
        assert((va * p) * 10 == va * (10 * p)) by (nonlinear_arith);
        assert(pow10(b.len() as nat) == 10 * p);
    }
}

/// Reading further digits can only grow a value already read.
pub proof fn lemma_digits_value_prefix(s: Seq<u8>, i: int)
    requires
        all_digits(s),
        0 <= i <= s.len(),
    ensures
        digits_value(s) >= digits_value(s.subrange(0, i)),
{
    let a = s.subrange(0, i);
    let b = s.subrange(i, s.len() as int);
    assert(s =~= a + b);
    assert(all_digits(a)) by {
        assert(forall|j: int| 0 <= j < a.len() ==> #[trigger] a[j] == s[j]);
    }
    assert(all_digits(b)) by {
        assert(forall|j: int| 0 <= j < b.len() ==> #[trigger] b[j] == s[i + j]);
    }
    lemma_digits_value_concat(a, b);
    lemma_digits_value_bounds(a);
    lemma_digits_value_bounds(b);
    lemma_pow10_pos(b.len());
    let va = digits_value(a);
    let p = pow10(b.len());
    assert(va * p >= va) by (nonlinear_arith)
        requires
            va >= 0,
            p >= 1,
    ;
}

/// A nonempty digit string without a leading zero is at least ten to
/// (length - 1).
pub proof fn lemma_digits_value_lower(s: Seq<u8>)
    requires
        all_digits(s),
        s.len() >= 1,
        s[0] != 48,
    ensures
        digits_value(s) >= pow10((s.len() - 1) as nat),
    decreases s.len(),
{
    if s.len() == 1 {
        assert(digits_value(s) == digits_value(s.drop_last()) * 10 + (s.last() - 48));
        assert(s.drop_last().len() == 0);
    } else {
        assert(all_digits(s.drop_last())) by {
            assert(forall|i: int|
                0 <= i < s.len() - 1 ==> #[trigger] s.drop_last()[i] == s[i]);
        }
        assert(s.drop_last()[0] == s[0]);
        lemma_digits_value_lower(s.drop_last());
        let v = digits_value(s.drop_last());
        let p = pow10((s.len() - 2) as nat);
        assert(v * 10 >= p * 10) by (nonlinear_arith)
            requires
                v >= p,
        ;
        assert(is_digit(s.last()));
        assert(pow10((s.len() - 1) as nat) == 10 * p);
    }
}

/// Value of digit bytes read least significant first.
pub open spec fn digits_value_lsf(s: Seq<u8>) -> int
    decreases s.len(),
{
    if s.len() == 0 {
        0
    } else {
        (s[0] - 48) + 10 * digits_value_lsf(s.drop_first())
    }
}

/// Appending a digit on the least-significant-first side adds it at the
/// next power of ten.
pub proof fn lemma_digits_value_lsf_push(s: Seq<u8>, x: u8)
    ensures
        digits_value_lsf(s.push(x)) == digits_value_lsf(s) + (x - 48) * pow10(s.len()),
    decreases s.len(),
{
    if s.len() == 0 {
        assert(s.push(x)[0] == x);
        assert(s.push(x).drop_first() =~= s);
    } else {
        assert(s.push(x)[0] == s[0]);
        assert(s.push(x).drop_first() =~= s.drop_first().push(x));
        lemma_digits_value_lsf_push(s.drop_first(), x);
        let d = x - 48;
        let p = pow10((s.len() - 1) as nat);
        assert(10 * (d * p) == d * (10 * p)) by (nonlinear_arith);
        assert(pow10(s.len()) == 10 * p);
    }
}

/// Appends every byte of `src` to `out`.
pub(crate) fn push_bytes(out: &mut Vec<u8>, src: &[u8])
    ensures
        final(out)@ == old(out)@ + src@,
{
    let n = src.len();
    let mut k: usize = 0;
    while k < n
        invariant
            k <= n == src@.len(),
            out@ == old(out)@ + src@.subrange(0, k as int),
        decreases n - k,
    {
        let b = src[k];
        out.push(b);
        proof {
            assert(old(out)@ + src@.subrange(0, k + 1) =~= (old(out)@ + src@.subrange(
                0,
                k as int,
            )).push(src@[k as int]));
        }
        k = k + 1;
    }
    proof {
        assert(src@.subrange(0, src@.len() as int) =~= src@);
    }
}

/// Writes `n` in decimal: one or more digits, without a leading zero
/// unless the value is zero itself.
pub fn format_u64(n: u64) -> (d: Vec<u8>)
    ensures
        all_digits(d@),
        d@.len() >= 1,
        digits_value(d@) == n,
        d@.len() > 1 ==> d@[0] != 48,
{
    if n == 0 {
        let mut d: Vec<u8> = Vec::new();
        d.push(48);
        proof {
            assert(d@.drop_last() =~= Seq::<u8>::empty());
            assert(digits_value(Seq::<u8>::empty()) == 0);
            assert(d@.last() == 48);
        }
        return d;
    }
    let mut rev: Vec<u8> = Vec::new();
    let mut v: u64 = n;
    while v > 0
        invariant
            n as int == digits_value_lsf(rev@) + v * pow10(rev@.len()),
            all_digits(rev@),
            v == 0 ==> rev@.len() > 0 && rev@.last() != 48,
        decreases v,
    {
        let ghost r0 = rev@;
        let digit = (v % 10) as u8 + 48;
        rev.push(digit);
        proof {
            lemma_digits_value_lsf_push(r0, digit);
            let q = (v as int) / 10;
            let m = (v as int) % 10;
            assert(v == 10 * q + m);
            let p = pow10(r0.len());
            assert((10 * q + m) * p == q * (10 * p) + m * p) by (nonlinear_arith);
            assert(pow10(rev@.len()) == 10 * p);
            assert(all_digits(rev@)) by {
                assert(forall|i: int| 0 <= i < r0.len() ==> #[trigger] rev@[i] == r0[i]);
                assert(rev@.last() == digit);
            }
        }
        v = v / 10;
    }
    let m = rev.len();
    let mut d: Vec<u8> = Vec::new();
    let mut idx: usize = 0;
    proof {
        assert(rev@.subrange(m as int, m as int) =~= Seq::<u8>::empty());
    }
    while idx < m
        invariant
            0 <= idx <= m == rev@.len(),
            1 <= m,
            all_digits(rev@),
            rev@.last() != 48,
            d@.len() == idx,
            all_digits(d@),
            idx > 0 ==> d@[0] == rev@[m - 1],
            digits_value(d@) == digits_value_lsf(rev@.subrange(m - idx, m as int)),
        decreases m - idx,
    {
        let ghost d0 = d@;
        let b = rev[m - 1 - idx];
        d.push(b);
        proof {
            assert(d@.drop_last() =~= d0);
            assert(d@.last() == b);
            let tail = rev@.subrange(m - idx - 1, m as int);
            assert(tail[0] == rev@[m - 1 - idx]);
            assert(tail.drop_first() =~= rev@.subrange(m - idx, m as int));
            assert(all_digits(d@)) by {
                assert(forall|i: int| 0 <= i < d0.len() ==> #[trigger] d@[i] == d0[i]);
            }
        }
        idx = idx + 1;
    }
    proof {
        assert(rev@.subrange(0, m as int) =~= rev@);
    }
    d
}

/// Writes `v` in decimal, with a leading `-` for negative values: every
/// byte is a digit or that sign, and reading the literal back yields `v`.
pub fn format_i64(v: i64) -> (d: Vec<u8>)
    ensures
        int_literal_valid(d@),
        int_literal_value(d@) == v,
        forall|i: int| 0 <= i < d@.len() ==> #[trigger] d@[i] == SIGN_MINUS || is_digit(d@[i]),
{
    if v >= 0 {
        let d = format_u64(v as u64);
        proof {
            assert(is_digit(d@[0]));
            assert(int_literal_digits(d@) == d@);
        }
        d
    } else {
        let mag: u64 = if v == i64::MIN {
            9223372036854775808u64
        } else {
            (-v) as u64
        };
        let digits = format_u64(mag);
        let mut d: Vec<u8> = Vec::new();
        d.push(SIGN_MINUS);
        push_bytes(&mut d, digits.as_slice());
        proof {
            assert(d@[0] == SIGN_MINUS);
            assert(int_literal_digits(d@) =~= digits@);
            assert(forall|i: int|
                1 <= i < d@.len() ==> #[trigger] d@[i] == digits@[i - 1]);
        }
        d
    }
}

/// Reads a base-10 signed integer: an optional single leading `+` or `-`,
/// otherwise only ASCII digits, leading zeros permitted.  Succeeds exactly
/// when the literal is well formed and its value fits in a signed 64-bit
/// integer; a magnitude beyond that range is rejected rather than wrapped.
pub fn parse_decimal_i64(line: &[u8]) -> (r: Option<i64>)
    ensures
        match r {
            Some(v) => int_literal_valid(line@) && i64::MIN <= int_literal_value(line@)
                <= i64::MAX && v as int == int_literal_value(line@),
            None => !(int_literal_valid(line@) && i64::MIN <= int_literal_value(line@)
                <= i64::MAX),
        },
{
    let n = line.len();
    if n == 0 {
        return None;
    }
    let b0 = line[0];
    let signed: bool = b0 == SIGN_MINUS || b0 == SIGN_PLUS;
    let negative: bool = b0 == SIGN_MINUS;
    let start: usize = if signed {
        1
    } else {
        0
    };
    if start >= n {
        // a sign with no digits after it
        return None;
    }
    let ghost digits = int_literal_digits(line@);
    proof {
        assert(digits =~= line@.subrange(start as int, n as int));
    }
    let mut i: usize = start;
    let mut acc: u64 = 0;
    while i < n
        invariant
            start <= i <= n,
            n == line@.len(),
            start < n,
            start == 1 <==> (line@[0] == SIGN_MINUS || line@[0] == SIGN_PLUS),
            start <= 1,
            digits == line@.subrange(start as int, n as int),
            digits == int_literal_digits(line@),
            all_digits(line@.subrange(start as int, i as int)),
            acc as int == digits_value(line@.subrange(start as int, i as int)),
            acc <= 0x8000_0000_0000_0000u64,
        decreases n - i,
    {
        let b = line[i];
        if b < 48 || b > 57 {
            proof {
                assert(digits[i - start] == line@[i as int]);
                assert(!all_digits(digits));
            }
            return None;
        }
        let d = (b - 48) as u64;
        if acc > (0x8000_0000_0000_0000u64 - d) / 10 {
            proof {
                let prefix = line@.subrange(start as int, i as int);
                let extended = line@.subrange(start as int, i + 1);
                assert(extended.drop_last() =~= prefix);
                assert(extended.last() == line@[i as int]);
                let c: int = 0x8000_0000_0000_0000;
                // acc > (c - d) / 10 forces acc * 10 + d > c
                assert((acc as int) * 10 + d > c) by {
                    let q = ((c - d) as int) / 10;
                    assert(10 * q <= c - d < 10 * (q + 1));
                    assert(acc as int >= q + 1);
                    assert((acc as int) * 10 >= (q + 1) * 10) by (nonlinear_arith)
                        requires
                            acc as int >= q + 1,
                    ;
                }
                assert(digits_value(extended) > c);
                if all_digits(digits) {
                    assert(all_digits(extended)) by {
                        assert(forall|j: int|
                            0 <= j < extended.len() ==> #[trigger] extended[j] == digits[j]);
                    }
                    assert(extended =~= digits.subrange(0, i + 1 - start));
                    lemma_digits_value_prefix(digits, i + 1 - start);
                    assert(digits_value(digits) > c);
                }
            }
            return None;
        }
        proof {
            let c: int = 0x8000_0000_0000_0000;
            let q = ((c - d) as int) / 10;
            assert(10 * q <= c - d);
            assert((acc as int) * 10 <= 10 * q) by (nonlinear_arith)
                requires
                    acc as int <= q,
            ;
            let prefix = line@.subrange(start as int, i as int);
            let extended = line@.subrange(start as int, i + 1);
            assert(extended.drop_last() =~= prefix);
            assert(extended.last() == line@[i as int]);
            assert(all_digits(extended)) by {
                assert(forall|j: int|
                    0 <= j < prefix.len() ==> #[trigger] extended[j] == prefix[j]);
            }
        }
        acc = acc * 10 + d;
        i = i + 1;
    }
    proof {
        assert(int_literal_valid(line@));
        assert(int_literal_value(line@) == if line@[0] == SIGN_MINUS {
            -digits_value(digits)
        } else {
            digits_value(digits)
        });
    }
    if negative {
        if acc == 0x8000_0000_0000_0000u64 {
            Some(i64::MIN)
        } else {
            Some(-(acc as i64))
        }
    } else {
        if acc > 0x7fff_ffff_ffff_ffffu64 {
            None
        } else {
            Some(acc as i64)
        }
    }
}

} // verus!
