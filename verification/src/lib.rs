//! Aggregation of weather-station readings: a fast decimal reader for
//! temperatures written with one fractional digit, per-station summaries,
//! splitting of the input into line-aligned chunks, merging of partial
//! tables, and rendering of the final report.
use vstd::prelude::*;
use vstd::string::StringSliceAdditionalSpecFns;

pub mod solns;

verus! {

/// An ASCII decimal digit, `'0'..='9'`.
pub open spec fn is_digit(b: u8) -> bool {
    48 <= b <= 57
}

/// The number spelled by the decimal digits of `s`, read left to right;
/// every byte that is not a digit is skipped (so `"12.3"` reads as `123`).
pub open spec fn digits_value(s: Seq<u8>) -> int
    decreases s.len(),
{
    if s.len() == 0 {
        0
    } else if is_digit(s.last()) {
        10 * digits_value(s.drop_last()) + (s.last() - 48)
    } else {
        digits_value(s.drop_last())
    }
}

/// The text starts with a minus sign.
pub open spec fn has_minus(s: Seq<u8>) -> bool {
    s.len() > 0 && s[0] == 45
}

/// The bytes after the optional leading minus sign.
pub open spec fn unsigned_part(s: Seq<u8>) -> Seq<u8> {
    if has_minus(s) {
        s.drop_first()
    } else {
        s
    }
}

/// The absolute value that the text spells.
pub open spec fn magnitude(s: Seq<u8>) -> int {
    digits_value(unsigned_part(s))
}

/// The signed value that the text spells.
pub open spec fn decimal_value(s: Seq<u8>) -> int {
    if has_minus(s) {
        -magnitude(s)
    } else {
        magnitude(s)
    }
}

/// The digits spell a number that an `i16` holds, so that reading it
/// never overflows.
pub open spec fn decimal_fits(s: Seq<u8>) -> bool {
    magnitude(s) <= i16::MAX
}

/// The value of a run of digits is never negative.
pub proof fn lemma_digits_value_nonneg(s: Seq<u8>)
    ensures
        digits_value(s) >= 0,
    decreases s.len(),
{
    if s.len() > 0 {
        lemma_digits_value_nonneg(s.drop_last());
    }
}

/// Reading more bytes never makes the value smaller.
pub proof fn lemma_digits_value_prefix(s: Seq<u8>, i: int)
    requires
        0 <= i <= s.len(),
    ensures
        digits_value(s.take(i)) <= digits_value(s),
    decreases s.len() - i,
{
    if i < s.len() {
        lemma_digits_value_prefix(s, i + 1);
        assert(s.take(i + 1).drop_last() =~= s.take(i));
        lemma_digits_value_nonneg(s.take(i));
    } else {
        assert(s.take(i) =~= s);
    }
}

/// A leading minus sign negates the value of what follows it.
pub proof fn lemma_minus_negates(s: Seq<u8>)
    requires
        !has_minus(s),
    ensures
        decimal_value(seq![45u8] + s) == -decimal_value(s),
{
    let t = seq![45u8] + s;
    assert(t.drop_first() =~= s);
}

/// Tells whether the digits of `bytes` spell a number that an `i16`
/// holds, that is, whether `parse_decimal_bytes` can read them.
pub fn decimal_fits_i16(bytes: &[u8]) -> (fits: bool)
    ensures
        fits == decimal_fits(bytes@),
{
    let mut value: i32 = 0;
    let mut start_index: usize = 0;
    if bytes.len() > 0 && bytes[0] == 45u8 {
        start_index = 1;
    }
    let ghost body = unsigned_part(bytes@);
    assert(body =~= bytes@.subrange(start_index as int, bytes@.len() as int));
    let mut i: usize = start_index;
    while i < bytes.len()
        invariant
            start_index <= i <= bytes.len(),
            start_index <= 1,
            body =~= bytes@.subrange(start_index as int, bytes@.len() as int),
            body == unsigned_part(bytes@),
            value == digits_value(body.take(i - start_index)),
            value <= i16::MAX,
        decreases bytes.len() - i,
    {
        let b = bytes[i];
        let ghost k: int = i - start_index;
        proof {
            assert(body.take(k + 1).drop_last() =~= body.take(k));
            assert(body.take(k + 1).last() == b);
            lemma_digits_value_nonneg(body.take(k));
        }
        if b >= 48u8 && b <= 57u8 {
            value = value * 10 + (b - 48u8) as i32;
            if value > 32767 {
                proof {
                    assert(value == digits_value(body.take(k + 1)));
                    lemma_digits_value_prefix(body, k + 1);
                }
                return false;
            }
        }
        i = i + 1;
    }
    assert(body.take(i - start_index) =~= body);
    true
}

/// Reads a temperature given as bytes, such as `b"-12.3"`, as an integer
/// number of digits: an optional leading `-`, then every decimal digit in
/// order, all other bytes being skipped (`b"-12.3"` gives `-123`).
pub fn parse_decimal_bytes(bytes: &[u8]) -> (result: i16)
    requires
        decimal_fits(bytes@),
    ensures
        result == decimal_value(bytes@),
{
    let mut result: i16 = 0;
    let mut start_index: usize = 0;
    if bytes.len() > 0 && bytes[0] == 45u8 {
        start_index = 1;
    }
    let ghost body = unsigned_part(bytes@);
    assert(body =~= bytes@.subrange(start_index as int, bytes@.len() as int));
    let mut i: usize = start_index;
    while i < bytes.len()
        invariant
            start_index <= i <= bytes.len(),
            start_index <= 1,
            body =~= bytes@.subrange(start_index as int, bytes@.len() as int),
            digits_value(body) <= i16::MAX,
            result == digits_value(body.take(i - start_index)),
        decreases bytes.len() - i,
    {
        let b = bytes[i];
        let ghost k: int = i - start_index;
        proof {
            lemma_digits_value_prefix(body, k + 1);
            assert(body.take(k + 1).drop_last() =~= body.take(k));
            assert(body.take(k + 1).last() == b);
            lemma_digits_value_nonneg(body.take(k));
        }
        if b >= 48u8 && b <= 57u8 {
            result = result * 10 + (b - 48u8) as i16;
        }
        i = i + 1;
    }
    assert(body.take(i - start_index) =~= body);
    proof {
        lemma_digits_value_nonneg(body);
    }
    if start_index == 1 {
        -result
    } else {
        result
    }
}

/// Reads a temperature such as `"-12.3"` as an integer number of tenths:
/// an optional leading `-`, then every decimal digit of the UTF-8 bytes in
/// order, all other bytes being skipped (`"-12.3"` gives `-123`, `"0.0"`
/// gives `0`).
pub fn parse_decimal_to_integer_optimized(decimal_str: &str) -> (result: i16)
    requires
        decimal_fits(decimal_str.spec_bytes()),
    ensures
        result == decimal_value(decimal_str.spec_bytes()),
{
    parse_decimal_bytes(decimal_str.as_bytes())
}

} // verus!
