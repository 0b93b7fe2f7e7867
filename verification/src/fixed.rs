use vstd::prelude::*;

verus! {

use vstd::arithmetic::div_mod::lemma_div_is_ordered;
use vstd::arithmetic::div_mod::lemma_div_is_ordered_by_denominator;
use vstd::arithmetic::div_mod::lemma_div_pos_is_pos;
use vstd::arithmetic::div_mod::lemma_div_basics;

/// Raw steps per unit: a `Fixed` value is a signed count of millionths.
pub const UNIT: i64 = 1_000_000;

/// Division of `p` by positive `d`, rounded toward zero.
pub open spec fn trunc_div(p: int, d: int) -> int {
    if p >= 0 {
        p / d
    } else {
        -((-p) / d)
    }
}

/// Raw value of the product of two fixed-point numbers: the exact product
/// of the raw values, scaled back down by one unit, rounded toward zero.
pub open spec fn mul_raw(a: int, b: int) -> int {
    trunc_div(a * b, UNIT as int)
}

/// A real number carried as a signed count of millionths.
#[derive(Clone, Copy, PartialEq, Eq, Structural, Debug)]
pub struct Fixed {
    pub raw: i64,
}

pub proof fn lemma_mul_bound(x: int, y: int, c: int)
    by (nonlinear_arith)
    requires
        0 <= x <= c,
        0 <= y <= c,
    ensures
        x * y <= c * c,
{
}

proof fn lemma_abs_mul(a: int, b: int, aa: int, bb: int)
    by (nonlinear_arith)
    requires
        aa == if a < 0 { -a } else { a },
        bb == if b < 0 { -b } else { b },
    ensures
        aa * bb == if a * b >= 0 { a * b } else { -(a * b) },
        (a * b >= 0 && ((a < 0) != (b < 0))) ==> a * b == 0,
        a * b < 0 ==> ((a < 0) != (b < 0)),
{
}

/// Product of two raw values divided by `d`, rounded toward zero,
/// computed without intermediate overflow.
pub fn mul_div_trunc(a: i64, b: i64, d: i64) -> (r: i64)
    requires
        a > i64::MIN,
        b > i64::MIN,
        d >= 1,
        -(i64::MAX as int) <= trunc_div(a * b, d as int) <= i64::MAX as int,
    ensures
        r as int == trunc_div(a * b, d as int),
{
    let neg: bool = (a < 0) != (b < 0);
    let aa: u64 = if a < 0 { (-a) as u64 } else { a as u64 };
    let bb: u64 = if b < 0 { (-b) as u64 } else { b as u64 };
    proof {
        lemma_mul_bound(aa as int, bb as int, 0x7fff_ffff_ffff_ffffint);
    }
    let p: u128 = (aa as u128) * (bb as u128);
    let q: u128 = p / (d as u128);
    proof {
        lemma_abs_mul(a as int, b as int, aa as int, bb as int);
        assert(p as int == aa as int * bb as int);
        if a * b >= 0 {
            assert(q as int == (a * b) / (d as int));
            assert(q as int == trunc_div(a * b, d as int));
        } else {
            assert(q as int == (-(a * b)) / (d as int));
            assert(q as int == -trunc_div(a * b, d as int));
        }
        assert(q <= i64::MAX as u128);
    }
    if neg {
        let qi: i64 = q as i64;
        proof {
            if a * b >= 0 {
                assert(q == 0);
            }
        }
        -qi
    } else {
        q as i64
    }
}

proof fn lemma_mul_range(a: int, b: int, c: int)
    by (nonlinear_arith)
    requires
        -c <= a <= c,
        -c <= b <= c,
    ensures
        -(c * c) <= a * b <= c * c,
{
}

pub proof fn lemma_square_nonneg(a: int)
    by (nonlinear_arith)
    ensures
        a * a >= 0,
{
}

/// The magnitude of a truncated quotient is bounded by that of the dividend,
/// and shrinks with the divisor.
pub proof fn lemma_trunc_div_bound(p: int, d: int, m: int)
    requires
        d >= 1,
        0 <= m,
        -m <= p <= m,
    ensures
        -(m / d) <= trunc_div(p, d) <= m / d,
        -m <= trunc_div(p, d) <= m,
{
    if p >= 0 {
        lemma_div_pos_is_pos(p, d);
        lemma_div_is_ordered(p, m, d);
    } else {
        lemma_div_pos_is_pos(-p, d);
        lemma_div_is_ordered(-p, m, d);
    }
    lemma_div_pos_is_pos(m, d);
    lemma_div_is_ordered_by_denominator(m, 1, d);
    lemma_div_basics(m);
}

/// Magnitude bound on a fixed-point product from bounds on its factors.
pub proof fn lemma_mul_raw_bound(a: int, b: int, c: int)
    requires
        -c <= a <= c,
        -c <= b <= c,
    ensures
        -(c * c) <= a * b <= c * c,
        -((c * c) / 1_000_000) <= mul_raw(a, b) <= (c * c) / 1_000_000,
        -(c * c) <= mul_raw(a, b) <= c * c,
{
    lemma_mul_range(a, b, c);
    lemma_square_nonneg(c);
    lemma_trunc_div_bound(a * b, 1_000_000, c * c);
}

/// The square of a fixed-point number is non-negative.
pub proof fn lemma_mul_raw_square_nonneg(a: int)
    ensures
        mul_raw(a, a) >= 0,
{
    lemma_square_nonneg(a);
    lemma_div_pos_is_pos(a * a, 1_000_000);
}

impl Fixed {
    /// The value carried by an integer number of units.
    pub fn from_int(v: i64) -> (r: Fixed)
        requires
            -9_223_372_036_854 <= v <= 9_223_372_036_854,
        ensures
            r.raw == v * 1_000_000,
    {
        Fixed { raw: v * UNIT }
    }

    /// The value carried by a raw count of millionths.
    pub fn from_raw(raw: i64) -> (r: Fixed)
        ensures
            r.raw == raw,
    {
        Fixed { raw }
    }

    pub fn add(self, o: Fixed) -> (r: Fixed)
        requires
            i64::MIN <= self.raw + o.raw <= i64::MAX,
        ensures
            r.raw == self.raw + o.raw,
    {
        Fixed { raw: self.raw + o.raw }
    }

    pub fn sub(self, o: Fixed) -> (r: Fixed)
        requires
            i64::MIN <= self.raw - o.raw <= i64::MAX,
        ensures
            r.raw == self.raw - o.raw,
    {
        Fixed { raw: self.raw - o.raw }
    }

    /// Fixed-point product, exact up to truncation toward zero.
    pub fn mul(self, o: Fixed) -> (r: Fixed)
        requires
            self.raw > i64::MIN,
            o.raw > i64::MIN,
            -(i64::MAX as int) <= mul_raw(self.raw as int, o.raw as int) <= i64::MAX as int,
        ensures
            r.raw == mul_raw(self.raw as int, o.raw as int),
    {
        Fixed { raw: mul_div_trunc(self.raw, o.raw, UNIT) }
    }

    /// Scale by a plain integer factor; the raw value scales exactly.
    pub fn mul_int(self, k: i64) -> (r: Fixed)
        requires
            i64::MIN < self.raw * k <= i64::MAX,
        ensures
            r.raw == self.raw * k,
    {
        Fixed { raw: self.raw * k }
    }
}

} // verus!
