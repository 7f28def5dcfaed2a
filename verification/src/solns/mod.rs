//! The per-station summary and the arithmetic that reads it.
use vstd::prelude::*;

pub mod bytes;
pub mod report;
pub mod soln;
pub mod soln2;
pub mod table;

verus! {

/// A station's name, as the bytes that stand before the `;` of its lines.
pub type Name = Vec<u8>;

/// What a summary holds, as plain values: the station's name, the lowest
/// reading, the sum of the readings, the highest reading and their number.
pub type Summary = (Seq<u8>, i16, i16, i16, u16);

/// The readings of one station, in tenths of a degree.
#[derive(Debug, Clone)]
pub struct Temperature {
    pub name: Name,
    pub min: i16,
    pub sum: i16,
    pub max: i16,
    pub count: u16,
}

impl View for Temperature {
    type V = Summary;

    open spec fn view(&self) -> Summary {
        (self.name@, self.min, self.sum, self.max, self.count)
    }
}

/// The absolute value of an integer.
pub open spec fn abs(a: int) -> int {
    if a < 0 {
        -a
    } else {
        a
    }
}

/// Integer division that rounds toward zero, as Rust's `/` does.
pub open spec fn trunc_div(a: int, b: int) -> int {
    let q = abs(a) / abs(b);
    if (a >= 0) == (b > 0) {
        q
    } else {
        -q
    }
}

/// The count read as the signed divisor that `mean` uses.
pub open spec fn signed_count(t: Summary) -> i16 {
    t.4 as i16
}

/// `mean` neither divides by zero nor overflows.
pub open spec fn mean_defined(t: Summary) -> bool {
    signed_count(t) != 0 && !(t.2 == i16::MIN && signed_count(t) == -1)
}

/// The mean as `mean` computes it: the sum divided by the count taken as
/// an `i16`, rounded toward zero.
pub open spec fn spec_mean(t: Summary) -> int {
    trunc_div(t.2 as int, signed_count(t) as int)
}

/// The summary of a single reading.
pub open spec fn single(name: Seq<u8>, temp: i16) -> Summary {
    (name, temp, temp, temp, 1u16)
}

impl Temperature {
    /// A summary that holds one reading, `temp`, of the station `name`.
    pub fn new(name: Vec<u8>, temp: i16) -> (t: Self)
        ensures
            t@ == single(name@, temp),
    {
        Self { name, min: temp, sum: temp, max: temp, count: 1 }
    }

    /// The mean reading: the sum divided by the count (taken as an `i16`),
    /// rounded toward zero, as `self.sum / self.count as i16` gives it.
    /// The quotient is formed from the magnitudes, so that every sign of
    /// the divisor has a proved result.
    pub fn mean(&self) -> (m: i16)
        requires
            mean_defined(self@),
        ensures
            m == spec_mean(self@),
    {
        let divisor: i32 = (#[verifier::truncate] (self.count as i16)) as i32;
        let dividend: i32 = self.sum as i32;
        let num: u32 = if dividend < 0 { (-dividend) as u32 } else { dividend as u32 };
        let den: u32 = if divisor < 0 { (-divisor) as u32 } else { divisor as u32 };
        let q: u32 = num / den;
        assert(q <= num && (den >= 2 ==> 2 * q <= num)) by (nonlinear_arith)
            requires
                den >= 1,
                q == num / den,
        ;
        if (dividend >= 0) == (divisor > 0) {
            q as i16
        } else {
            -(q as i32) as i16
        }
    }
}

/// The mean of a single reading is that reading.
pub proof fn lemma_mean_of_single(name: Seq<u8>, temp: i16)
    ensures
        mean_defined(single(name, temp)),
        spec_mean(single(name, temp)) == temp,
{
    assert(1u16 as i16 == 1i16);
    assert(abs(1) == 1);
    assert(abs(temp as int) / 1 == abs(temp as int));
}

/// For a consistent summary whose count is at most `i16::MAX`, the mean is
/// defined and lies between the lowest and the highest reading.
pub proof fn lemma_mean_within_range(t: Summary)
    requires
        t.4 >= 1,
        t.4 <= i16::MAX,
        t.1 <= t.3,
        t.1 * t.4 <= t.2 <= t.3 * t.4,
    ensures
        mean_defined(t),
        t.1 <= spec_mean(t) <= t.3,
{
    let c = t.4 as int;
    let lo = t.1 as int;
    let hi = t.3 as int;
    let s = t.2 as int;
    assert(signed_count(t) == c);
    if s >= 0 {
        assert(lo <= s / c && s / c <= hi) by (nonlinear_arith)
            requires
                c >= 1,
                lo * c <= s,
                s <= hi * c,
                s >= 0,
        ;
    } else {
        assert(-hi <= (-s) / c && (-s) / c <= -lo) by (nonlinear_arith)
            requires
                c >= 1,
                lo * c <= s,
                s <= hi * c,
                s < 0,
        ;
    }
}

/// The count read as a signed 16-bit number: itself up to `i16::MAX`,
/// wrapped around below zero above it.
pub proof fn lemma_signed_count(t: Summary)
    ensures
        signed_count(t) == if t.4 <= i16::MAX {
            t.4 as int
        } else {
            t.4 - 65536
        },
{
    let c = t.4;
    assert(c <= 32767 ==> c as i16 == c as int) by (bit_vector);
    assert(c > 32767 ==> c as i16 == c as int - 65536) by (bit_vector);
}

/// The mean is the quotient of the sum by the signed count, rounded toward
/// zero: `sum == mean * d + r` with `|r| < |d|` and `r` zero or of the
/// sign of `sum`, where `d` is the count read as an `i16`.
pub proof fn lemma_mean_is_truncated_quotient(t: Summary)
    requires
        mean_defined(t),
    ensures
        ({
            let d: int = if t.4 <= i16::MAX {
                t.4 as int
            } else {
                t.4 - 65536
            };
            let m = spec_mean(t);
            let r = t.2 - m * d;
            &&& abs(r) < abs(d)
            &&& (r == 0 || (r > 0) == (t.2 > 0))
        }),
{
    lemma_signed_count(t);
    let d: int = signed_count(t) as int;
    let s: int = t.2 as int;
    let q = abs(s) / abs(d);
    let m = spec_mean(t);
    assert(abs(s) == q * abs(d) + abs(s) % abs(d) && 0 <= abs(s) % abs(d) < abs(d)) by (
    nonlinear_arith)
        requires
            abs(d) > 0,
            abs(s) >= 0,
            q == abs(s) / abs(d),
    ;
    let rr = abs(s) % abs(d);
    if s >= 0 && d > 0 {
        assert(m == q);
        assert(s - m * d == rr);
    } else if s >= 0 && d < 0 {
        assert(m == -q);
        assert(m * d == q * abs(d)) by (nonlinear_arith)
            requires
                m == -q,
                abs(d) == -d,
        ;
    } else if s < 0 && d > 0 {
        assert(m == -q);
        assert(m * d == -(q * abs(d))) by (nonlinear_arith)
            requires
                m == -q,
                abs(d) == d,
        ;
    } else {
        assert(m == q);
        assert(m * d == -(q * abs(d))) by (nonlinear_arith)
            requires
                m == q,
                abs(d) == -d,
        ;
    }
}

} // verus!
