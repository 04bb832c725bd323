//! Decimal numerals: an optional minus sign and one or more digits.

use vstd::prelude::*;
use crate::class::{digit, MINUS, ZERO};

verus! {

/// The value of a run of decimal digits, most significant first; 0 for the
/// empty run.
pub open spec fn decimal_value(digits: Seq<u8>) -> int
    decreases digits.len(),
{
    if digits.len() == 0 {
        0
    } else {
        10 * decimal_value(digits.drop_last()) + (digits.last() - ZERO)
    }
}

/// Whether every byte of `bytes` is a decimal digit.
pub open spec fn all_digits(bytes: Seq<u8>) -> bool {
    forall|i: int| 0 <= i < bytes.len() ==> digit(#[trigger] bytes[i])
}

/// Whether a numeral begins with a minus sign.
pub open spec fn negative(numeral: Seq<u8>) -> bool {
    numeral.len() > 0 && numeral[0] == MINUS
}

/// The digits of a numeral: all of it but the sign.
pub open spec fn digits_of(numeral: Seq<u8>) -> Seq<u8> {
    if negative(numeral) {
        numeral.skip(1)
    } else {
        numeral
    }
}

/// Whether `bytes` is a numeral: an optional minus sign, then at least one
/// digit and nothing but digits.
pub open spec fn is_numeral(bytes: Seq<u8>) -> bool {
    digits_of(bytes).len() > 0 && all_digits(digits_of(bytes))
}

/// The integer a numeral denotes. Leading zeros do not count, and `-0` is 0.
pub open spec fn numeral_value(numeral: Seq<u8>) -> int {
    if negative(numeral) {
        -decimal_value(digits_of(numeral))
    } else {
        decimal_value(digits_of(numeral))
    }
}

/// Whether `value` is a signed 32-bit integer.
pub open spec fn fits_i32(value: int) -> bool {
    i32::MIN <= value <= i32::MAX
}

/// A run of digits is worth at least as much as each of its prefixes, and
/// never less than 0.
pub proof fn lemma_decimal_value_prefix(digits: Seq<u8>, k: int)
    requires
        all_digits(digits),
        0 <= k <= digits.len(),
    ensures
        0 <= decimal_value(digits.take(k)) <= decimal_value(digits),
    decreases digits.len(),
{
    if k == digits.len() {
        assert(digits.take(k) =~= digits);
        if k > 0 {
            lemma_decimal_value_prefix(digits.drop_last(), k - 1);
        }
    } else {
        lemma_decimal_value_prefix(digits.drop_last(), k);
        assert(digits.drop_last().take(k) =~= digits.take(k));
    }
}

/// Reads a numeral. `None` means that its value is out of range.
pub(crate) fn parse_numeral(numeral: &Vec<u8>) -> (r: Option<i32>)
    requires
        is_numeral(numeral@),
    ensures
        fits_i32(numeral_value(numeral@)) ==> r == Some(numeral_value(numeral@) as i32),
        !fits_i32(numeral_value(numeral@)) ==> r is None,
{
    let minus = numeral[0] == MINUS;
    let first: usize = if minus { 1 } else { 0 };
    let ghost digits = digits_of(numeral@);
    let mut magnitude: i64 = 0;
    let mut i: usize = first;
    assert(digits.take(0) =~= Seq::<u8>::empty());
    while i < numeral.len()
        invariant
            first <= i <= numeral.len(),
            first == if negative(numeral@) { 1int } else { 0 },
            digits == digits_of(numeral@),
            all_digits(digits),
            magnitude == decimal_value(digits.take(i - first)),
            0 <= magnitude <= 0x8000_0000,
        decreases numeral.len() - i,
    {
        let ghost k: int = i - first;
        assert(digit(digits[k]));
        assert(digits.take(k + 1).drop_last() =~= digits.take(k));
        magnitude = magnitude * 10 + (numeral[i] - ZERO) as i64;
        assert(magnitude == decimal_value(digits.take(k + 1)));
        if magnitude > 0x8000_0000 {
            proof {
                lemma_decimal_value_prefix(digits, k + 1);
            }
            return None;
        }
        i += 1;
    }
    assert(digits.take(i - first) =~= digits);
    if minus {
        Some((-magnitude) as i32)
    } else if magnitude == 0x8000_0000 {
        None
    } else {
        Some(magnitude as i32)
    }
}

} // verus!
