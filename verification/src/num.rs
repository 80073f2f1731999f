//! Decimal formatting and parsing of the integers that appear on the wire:
//! frame lengths, array counts, and integer frames.

use vstd::prelude::*;

verus! {

/// True of the ASCII bytes '0' through '9'.
pub open spec fn is_digit(b: u8) -> bool {
    48 <= b <= 57
}

/// Decimal digits of a nonnegative number, most significant first.
pub open spec fn dec_digits(n: int) -> Seq<u8>
    recommends
        0 <= n,
    decreases n,
{
    if n < 10 {
        seq![(48 + n) as u8]
    } else {
        dec_digits(n / 10) + seq![(48 + n % 10) as u8]
    }
}

/// The number a digit string denotes, most significant digit first.
pub open spec fn dec_value(ds: Seq<u8>) -> int
    decreases ds.len(),
{
    if ds.len() == 0 {
        0
    } else {
        dec_value(ds.drop_last()) * 10 + (ds.last() as int - 48)
    }
}

/// Bytes of a signed value in decimal: an optional minus sign, then digits.
pub open spec fn i64_dec(v: int) -> Seq<u8> {
    if v < 0 {
        seq![45u8] + dec_digits(-v)
    } else {
        dec_digits(v)
    }
}

/// Index of the first byte at or after `i` that is not an ASCII digit.
pub open spec fn digits_end(s: Seq<u8>, i: int) -> int
    decreases s.len() - i,
{
    if i < 0 || i >= s.len() {
        i
    } else if !is_digit(s[i]) {
        i
    } else {
        digits_end(s, i + 1)
    }
}

/// What `atoi::atoi::<i64>` returns for a byte slice: an optional ASCII sign,
/// then decimal digits read greedily; bytes after the digits are ignored;
/// `None` when the slice starts with neither sign nor digit, or the value
/// leaves the range of `i64`.
pub open spec fn spec_atoi64(s: Seq<u8>) -> Option<i64> {
    let off: int = if s.len() > 0 && (s[0] == 43 || s[0] == 45) {
        1
    } else {
        0
    };
    let end = digits_end(s, off);
    if end == 0 {
        None
    } else {
        let mag = dec_value(s.subrange(off, end));
        let v: int = if s[0] == 45 {
            -mag
        } else {
            mag
        };
        if i64::MIN <= v <= i64::MAX {
            Some(v as i64)
        } else {
            None
        }
    }
}

/// Relies on `atoi::atoi::<i64>` of the atoi crate: it reads an optional
/// ASCII sign and then decimal digits greedily from the front of the slice,
/// ignores everything after the digits, checks for overflow, and returns
/// `None` when the slice starts with neither sign nor digit.
#[verifier::external_body]
pub(crate) fn atoi_i64(text: &[u8]) -> (r: Option<i64>)
    ensures
        r == spec_atoi64(text@),
{
    atoi::atoi::<i64>(text)
}

fn push_dec_digits(n: u64, out: &mut Vec<u8>)
    ensures
        final(out)@ == old(out)@ + dec_digits(n as int),
    decreases n,
{
    if n < 10 {
        out.push((48 + n) as u8);
        assert(out@ =~= old(out)@ + dec_digits(n as int));
    } else {
        push_dec_digits(n / 10, out);
        out.push((48 + (n % 10)) as u8);
        assert(out@ =~= old(out)@ + dec_digits(n as int));
    }
}

/// The decimal digits of an unsigned length.
pub fn usize_to_dec(n: usize) -> (r: Vec<u8>)
    ensures
        r@ == dec_digits(n as int),
{
    let mut out: Vec<u8> = Vec::new();
    push_dec_digits(n as u64, &mut out);
    assert(out@ =~= dec_digits(n as int));
    out
}

/// The decimal bytes of a signed 64-bit value.
pub fn i64_to_dec(v: i64) -> (r: Vec<u8>)
    ensures
        r@ == i64_dec(v as int),
{
    let mut out: Vec<u8> = Vec::new();
    if v >= 0 {
        push_dec_digits(v as u64, &mut out);
    } else {
        out.push(45u8);
        let mag: u64 = if v == i64::MIN {
            9223372036854775808u64
        } else {
            (-v) as u64
        };
        assert(mag as int == -(v as int));
        push_dec_digits(mag, &mut out);
    }
    assert(out@ =~= i64_dec(v as int));
    out
}

/// Every byte of `dec_digits(n)` is a digit, there is at least one, and the
/// digits denote `n` itself.
pub proof fn lemma_dec_digits(n: int)
    requires
        0 <= n,
    ensures
        dec_digits(n).len() >= 1,
        forall|i: int| 0 <= i < dec_digits(n).len() ==> is_digit(#[trigger] dec_digits(n)[i]),
        dec_value(dec_digits(n)) == n,
    decreases n,
{
    if n < 10 {
        assert(dec_value(dec_digits(n)) == n) by {
            reveal_with_fuel(dec_value, 2);
            assert(dec_digits(n).drop_last() =~= Seq::<u8>::empty());
        }
    } else {
        lemma_dec_digits(n / 10);
        let d = dec_digits(n);
        assert(d.drop_last() =~= dec_digits(n / 10));
        assert(d.last() == (48 + n % 10) as u8);
        assert(dec_value(d) == (n / 10) * 10 + n % 10);
        assert((n / 10) * 10 + n % 10 == n) by (nonlinear_arith);
    }
}

/// `digits_end` lands exactly on `k` when everything before `k` is a digit
/// and `k` is the end of the buffer or a non-digit.
pub proof fn lemma_digits_end_upto(s: Seq<u8>, i: int, k: int)
    requires
        0 <= i <= k <= s.len(),
        forall|j: int| i <= j < k ==> is_digit(#[trigger] s[j]),
        k == s.len() || !is_digit(s[k]),
    ensures
        digits_end(s, i) == k,
    decreases k - i,
{
    if i < k {
        lemma_digits_end_upto(s, i + 1, k);
    }
}

/// Parsing the decimal bytes of `v` gives back `v`.
pub proof fn lemma_atoi_i64_dec(v: int)
    requires
        i64::MIN <= v <= i64::MAX,
    ensures
        spec_atoi64(i64_dec(v)) == Some(v as i64),
{
    if v >= 0 {
        let s = i64_dec(v);
        lemma_dec_digits(v);
        assert(s == dec_digits(v));
        assert(is_digit(s[0]));
        lemma_digits_end_upto(s, 0, s.len() as int);
        assert(s.subrange(0, s.len() as int) =~= s);
    } else {
        let s = i64_dec(v);
        let d = dec_digits(-v);
        lemma_dec_digits(-v);
        assert(s == seq![45u8] + d);
        assert(s[0] == 45);
        assert(forall|j: int| 1 <= j < s.len() ==> is_digit(#[trigger] s[j]));
        lemma_digits_end_upto(s, 1, s.len() as int);
        assert(s.subrange(1, s.len() as int) =~= d);
    }
}

} // verus!
