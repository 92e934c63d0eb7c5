//! Decimal numerals as they stand in bencoded data.

use vstd::prelude::*;
use vstd::slice::slice_subrange;

verus! {

/// ASCII `0` to `9`.
pub open spec fn is_digit(b: u8) -> bool {
    0x30 <= b <= 0x39
}

/// Every byte of `s` is a decimal digit.
pub open spec fn all_digits(s: Seq<u8>) -> bool {
    forall|i: int| 0 <= i < s.len() ==> is_digit(#[trigger] s[i])
}

/// What one digit counts for; zero for a byte that is no digit.
pub open spec fn digit_value(b: u8) -> nat {
    if is_digit(b) {
        (b - 0x30) as nat
    } else {
        0
    }
}

/// The number that a run of digits denotes, most significant digit first.
pub open spec fn digits_value(s: Seq<u8>) -> nat
    decreases s.len(),
{
    if s.len() == 0 {
        0
    } else {
        digits_value(s.drop_last()) * 10 + digit_value(s.last())
    }
}

/// The shortest decimal numeral of `n`.
pub open spec fn nat_digits(n: nat) -> Seq<u8>
    decreases n,
{
    if n < 10 {
        seq![(0x30 + n) as u8]
    } else {
        nat_digits(n / 10).push((0x30 + n % 10) as u8)
    }
}

/// The decimal numeral of a signed number: a minus sign for a negative one,
/// then the shortest numeral of its magnitude.
pub open spec fn int_digits(n: int) -> Seq<u8> {
    if n < 0 {
        seq![0x2du8] + nat_digits((-n) as nat)
    } else {
        nat_digits(n as nat)
    }
}

/// A non-empty run of digits without a redundant leading zero.
pub open spec fn is_canonical_nat(s: Seq<u8>) -> bool {
    &&& s.len() > 0
    &&& all_digits(s)
    &&& s.len() > 1 ==> s[0] != 0x30
}

/// The grammar of an integer's numeral: an optional minus sign, then digits
/// without a redundant leading zero; minus zero is not a numeral.
pub open spec fn is_canonical_int(s: Seq<u8>) -> bool {
    if s.len() > 0 && s[0] == 0x2d {
        is_canonical_nat(s.drop_first()) && s[1] != 0x30
    } else {
        is_canonical_nat(s)
    }
}

/// The number that a signed numeral denotes.
pub open spec fn int_value(s: Seq<u8>) -> int {
    if s.len() > 0 && s[0] == 0x2d {
        -(digits_value(s.drop_first()) as int)
    } else {
        digits_value(s) as int
    }
}

/// A numeral's value does not shrink when digits are appended.
pub proof fn lemma_digits_value_prefix(s: Seq<u8>, k: int)
    requires
        0 <= k <= s.len(),
    ensures
        digits_value(s.take(k)) <= digits_value(s),
    decreases s.len() - k,
{
    if k == s.len() {
        assert(s.take(k) =~= s);
    } else {
        lemma_digits_value_prefix(s.drop_last(), k);
        assert(s.drop_last().take(k) =~= s.take(k));
    }
}

/// The shortest numeral of `n` is canonical and denotes `n`.
pub proof fn lemma_nat_digits(n: nat)
    ensures
        is_canonical_nat(nat_digits(n)),
        digits_value(nat_digits(n)) == n,
        nat_digits(n)[0] == 0x30 <==> n == 0,
    decreases n,
{
    let s = nat_digits(n);
    if n < 10 {
        assert(s.drop_last() =~= Seq::<u8>::empty());
        assert(digits_value(s.drop_last()) == 0);
    } else {
        lemma_nat_digits(n / 10);
        let t = nat_digits(n / 10);
        assert(s.drop_last() =~= t);
        assert(s[0] == t[0]);
    }
}

/// The numeral of a signed number follows the integer grammar and denotes
/// that number.
pub proof fn lemma_int_digits(n: int)
    ensures
        is_canonical_int(int_digits(n)),
        int_value(int_digits(n)) == n,
{
    let s = int_digits(n);
    if n < 0 {
        lemma_nat_digits((-n) as nat);
        assert(s.drop_first() =~= nat_digits((-n) as nat));
    } else {
        lemma_nat_digits(n as nat);
    }
}

/// Whether every byte of `bytes` is a decimal digit.
pub fn is_digit_run(bytes: &[u8]) -> (r: bool)
    ensures
        r == all_digits(bytes@),
{
    let mut i: usize = 0;
    while i < bytes.len()
        invariant
            i <= bytes.len(),
            forall|j: int| 0 <= j < i ==> is_digit(#[trigger] bytes@[j]),
        decreases bytes.len() - i,
    {
        if bytes[i] < 0x30 || bytes[i] > 0x39 {
            return false;
        }
        i += 1;
    }
    true
}

/// Reads a run of decimal digits as a number no greater than `limit`.
/// `None` when a byte is no digit or the number is greater than `limit`.
pub fn read_decimal(digits: &[u8], limit: u64) -> (r: Option<u64>)
    ensures
        match r {
            Some(v) => all_digits(digits@) && v == digits_value(digits@) && v <= limit,
            None => !all_digits(digits@) || digits_value(digits@) > limit,
        },
{
    let mut acc: u64 = 0;
    let mut i: usize = 0;
    assert(digits@.take(0) =~= Seq::<u8>::empty());
    while i < digits.len()
        invariant
            i <= digits.len(),
            all_digits(digits@.take(i as int)),
            acc == digits_value(digits@.take(i as int)),
            acc <= limit,
        decreases digits.len() - i,
    {
        let b = digits[i];
        if b < 0x30 || b > 0x39 {
            return None;
        }
        let next: u128 = acc as u128 * 10 + (b - 0x30) as u128;
        proof {
            assert(digits@.take(i + 1).drop_last() =~= digits@.take(i as int));
            assert(digits_value(digits@.take(i + 1)) == next);
        }
        if next > limit as u128 {
            proof {
                lemma_digits_value_prefix(digits@, i + 1);
            }
            return None;
        }
        acc = next as u64;
        i += 1;
    }
    assert(digits@.take(i as int) =~= digits@);
    Some(acc)
}

/// Reads a signed numeral of the integer grammar as a 64-bit number.
/// `None` when the bytes are no such numeral or the number does not fit.
pub fn read_integer(numeral: &[u8]) -> (r: Option<i64>)
    ensures
        match r {
            Some(n) => is_canonical_int(numeral@) && n == int_value(numeral@),
            None => !is_canonical_int(numeral@) || int_value(numeral@) < i64::MIN || int_value(
                numeral@,
            ) > i64::MAX,
        },
{
    let negative = numeral.len() > 0 && numeral[0] == 0x2d;
    let digits = if negative {
        slice_subrange(numeral, 1, numeral.len())
    } else {
        numeral
    };
    if digits.len() == 0 {
        return None;
    }
    if digits[0] == 0x30 && (negative || digits.len() > 1) {
        return None;
    }
    let limit: u64 = if negative {
        0x8000_0000_0000_0000
    } else {
        0x7fff_ffff_ffff_ffff
    };
    match read_decimal(digits, limit) {
        None => None,
        Some(magnitude) => if negative {
            Some((-(magnitude as i128)) as i64)
        } else {
            Some(magnitude as i64)
        },
    }
}

/// Appends the shortest decimal numeral of `n` to `out`.
pub fn write_decimal(out: &mut Vec<u8>, n: u64)
    ensures
        final(out)@ == old(out)@ + nat_digits(n as nat),
    decreases n,
{
    if n >= 10 {
        write_decimal(out, n / 10);
    }
    out.push(0x30 + (n % 10) as u8);
}

/// Appends the decimal numeral of the signed number `n` to `out`.
pub fn write_integer(out: &mut Vec<u8>, n: i64)
    ensures
        final(out)@ == old(out)@ + int_digits(n as int),
{
    if n < 0 {
        out.push(0x2d);
        let magnitude: u64 = (-(n as i128)) as u64;
        write_decimal(out, magnitude);
    } else {
        write_decimal(out, n as u64);
    }
}

} // verus!
