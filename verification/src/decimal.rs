//! Numbers as decimal text: how they are written, and how the `atoi` crate
//! reads them.

use vstd::prelude::*;

verus! {

/// True of the ASCII digits.
pub open spec fn is_digit(b: u8) -> bool {
    48 <= b <= 57
}

/// The decimal digits of `n`, most significant first, without leading zeros.
pub open spec fn decimal(n: nat) -> Seq<u8>
    decreases n,
{
    if n < 10 {
        seq![(48 + n) as u8]
    } else {
        decimal(n / 10).push((48 + n % 10) as u8)
    }
}

/// The decimal text of an integer: a `-` before the digits of a negative one.
pub open spec fn signed_decimal(v: int) -> Seq<u8> {
    if v < 0 {
        seq![45u8] + decimal((-v) as nat)
    } else {
        decimal(v as nat)
    }
}

/// The length of the longest prefix of `s` made of digits.
pub open spec fn digit_run(s: Seq<u8>) -> nat
    decreases s.len(),
{
    if s.len() > 0 && is_digit(s[0]) {
        1 + digit_run(s.skip(1))
    } else {
        0
    }
}

/// The number that a string of digits denotes.
pub open spec fn digits_value(s: Seq<u8>) -> nat
    decreases s.len(),
{
    if s.len() == 0 {
        0
    } else {
        10 * digits_value(s.drop_last()) + (s.last() - 48) as nat
    }
}

/// What `atoi` reads from `s` for an integer type with the range `lo..=hi`:
/// one optional sign, then the longest run of digits. Nothing is read where
/// neither a sign nor a digit stands at the start, or where the number
/// leaves the range.
pub open spec fn atoi_value(s: Seq<u8>, lo: int, hi: int) -> Option<int> {
    let signed = s.len() > 0 && (s[0] == 43 || s[0] == 45);
    let off: int = if signed {
        1
    } else {
        0
    };
    let n = digit_run(s.skip(off));
    let mag = digits_value(s.subrange(off, off + n)) as int;
    let v = if signed && s[0] == 45 {
        -mag
    } else {
        mag
    };
    if off + n == 0 || v < lo || v > hi {
        None
    } else {
        Some(v)
    }
}

/// Calls `atoi::atoi::<usize>`. The crate reads an optional sign and the
/// longest run of digits that follows; it answers `None` where it consumed
/// no byte at all or where the number does not fit in `usize`.
#[verifier::external_body]
pub(crate) fn atoi_usize(text: &[u8]) -> (r: Option<usize>)
    ensures
        match r {
            Some(v) => atoi_value(text@, 0, usize::MAX as int) == Some(v as int),
            None => atoi_value(text@, 0, usize::MAX as int) is None,
        },
{
    atoi::atoi::<usize>(text)
}

/// Calls `atoi::atoi::<i64>`. The crate reads an optional sign and the
/// longest run of digits that follows; it answers `None` where it consumed
/// no byte at all or where the number does not fit in `i64`.
#[verifier::external_body]
pub(crate) fn atoi_i64(text: &[u8]) -> (r: Option<i64>)
    ensures
        match r {
            Some(v) => atoi_value(text@, i64::MIN as int, i64::MAX as int) == Some(v as int),
            None => atoi_value(text@, i64::MIN as int, i64::MAX as int) is None,
        },
{
    atoi::atoi::<i64>(text)
}

/// Appends the decimal digits of `n` to `out`.
pub fn push_decimal(out: &mut Vec<u8>, n: u64)
    ensures
        final(out)@ == old(out)@ + decimal(n as nat),
    decreases n,
{
    if n >= 10 {
        push_decimal(out, n / 10);
    }
    let d: u8 = (48 + n % 10) as u8;
    out.push(d);
    proof {
        if n >= 10 {
            assert(final(out)@ =~= old(out)@ + decimal(n as nat));
        } else {
            assert(final(out)@ =~= old(out)@ + decimal(n as nat));
        }
    }
}

/// The decimal digits of `n`.
pub fn usize_to_decimal(n: usize) -> (r: Vec<u8>)
    ensures
        r@ == decimal(n as nat),
{
    let mut r: Vec<u8> = Vec::new();
    push_decimal(&mut r, n as u64);
    r
}

/// The decimal text of `v`.
pub fn i64_to_decimal(v: i64) -> (r: Vec<u8>)
    ensures
        r@ == signed_decimal(v as int),
{
    let mut r: Vec<u8> = Vec::new();
    if v < 0 {
        r.push(45u8);
        let m: u64 = (-(v as i128)) as u64;
        push_decimal(&mut r, m);
    } else {
        push_decimal(&mut r, v as u64);
    }
    r
}

/// The decimal digits of a number are digits, one at the least.
pub proof fn lemma_decimal_digits(n: nat)
    ensures
        decimal(n).len() >= 1,
        forall|i: int| 0 <= i < decimal(n).len() ==> is_digit(#[trigger] decimal(n)[i]),
    decreases n,
{
    if n >= 10 {
        lemma_decimal_digits(n / 10);
    }
}

/// A string of digits is one run of digits.
pub proof fn lemma_digit_run_all(s: Seq<u8>)
    requires
        forall|i: int| 0 <= i < s.len() ==> is_digit(#[trigger] s[i]),
    ensures
        digit_run(s) == s.len(),
    decreases s.len(),
{
    if s.len() > 0 {
        assert forall|i: int| 0 <= i < s.skip(1).len() implies is_digit(
            #[trigger] s.skip(1)[i],
        ) by {
            assert(s.skip(1)[i] == s[i + 1]);
        }
        lemma_digit_run_all(s.skip(1));
    }
}

/// The decimal digits of a number denote the number.
pub proof fn lemma_digits_value_decimal(n: nat)
    ensures
        digits_value(decimal(n)) == n,
    decreases n,
{
    if n >= 10 {
        lemma_digits_value_decimal(n / 10);
        assert(decimal(n).drop_last() =~= decimal(n / 10));
    } else {
        assert(decimal(n).drop_last() =~= Seq::<u8>::empty());
        assert(digits_value(decimal(n).drop_last()) == 0);
    }
}

/// A number that is written in decimal is read back by `atoi`, where it
/// lies in the range of the type.
pub proof fn lemma_atoi_decimal(n: nat, lo: int, hi: int)
    requires
        lo <= n <= hi,
    ensures
        atoi_value(decimal(n), lo, hi) == Some(n as int),
{
    let s = decimal(n);
    lemma_decimal_digits(n);
    lemma_digit_run_all(s);
    lemma_digits_value_decimal(n);
    assert(is_digit(s[0]));
    assert(s.skip(0) =~= s);
    assert(s.subrange(0, s.len() as int) =~= s);
}

/// An integer that is written in decimal is read back by `atoi`, where it
/// lies in the range of the type.
pub proof fn lemma_atoi_signed_decimal(v: int, lo: int, hi: int)
    requires
        lo <= v <= hi,
    ensures
        atoi_value(signed_decimal(v), lo, hi) == Some(v),
{
    if v >= 0 {
        lemma_atoi_decimal(v as nat, lo, hi);
    } else {
        let m = (-v) as nat;
        let s = signed_decimal(v);
        lemma_decimal_digits(m);
        lemma_digit_run_all(decimal(m));
        lemma_digits_value_decimal(m);
        assert(s[0] == 45);
        assert(s.skip(1) =~= decimal(m));
        assert(s.subrange(1, s.len() as int) =~= decimal(m));
    }
}

} // verus!
