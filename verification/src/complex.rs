use vstd::prelude::*;

use crate::fixed::Fixed;

verus! {

use crate::fixed::mul_raw;
use crate::fixed::lemma_mul_raw_bound;
use crate::fixed::lemma_mul_raw_square_nonneg;
use crate::fixed::lemma_square_nonneg;
use vstd::arithmetic::div_mod::lemma_fundamental_div_mod;

/// Largest raw component magnitude the escape-time sampler accepts: 4000 units.
pub const COORD_LIMIT: i64 = 4_000_000_000;

/// Largest raw component magnitude for which products and squared norms
/// stay well within `i64`: 5000 units.
pub const MUL_LIMIT: i64 = 5_000_000_000;

/// The squared escape radius, as a raw value: 4.0.
pub const ESCAPE_RAW: i64 = 4_000_000;

/// Raw squared norm of a complex value given by raw components.
pub open spec fn norm_sq_raw(re: int, im: int) -> int {
    mul_raw(re, re) + mul_raw(im, im)
}

/// Both raw components lie within `b` in magnitude.
pub open spec fn within(re: int, im: int, b: int) -> bool {
    -b <= re <= b && -b <= im <= b
}

/// Complex number over fixed-point components. Plain value semantics:
/// every operation builds a new value.
#[derive(Clone, Copy, PartialEq, Eq, Structural, Debug)]
pub struct Complex {
    pub re: Fixed,
    pub im: Fixed,
}

proof fn lemma_abs_le_from_square(x: int, c: int)
    by (nonlinear_arith)
    requires
        c >= 0,
        x * x <= c * c + 2 * c,
    ensures
        -c <= x <= c,
{
}

/// A squared norm of at most the escape threshold bounds each component
/// by the escape radius, two units.
pub proof fn lemma_component_bound_from_norm(re: int, im: int)
    requires
        norm_sq_raw(re, im) <= ESCAPE_RAW as int,
    ensures
        within(re, im, 2_000_000),
{
    lemma_mul_raw_square_nonneg(re);
    lemma_mul_raw_square_nonneg(im);
    assert(mul_raw(re, re) <= 4_000_000);
    assert(mul_raw(im, im) <= 4_000_000);
    lemma_square_nonneg(re);
    lemma_square_nonneg(im);
    lemma_fundamental_div_mod(re * re, 1_000_000);
    lemma_fundamental_div_mod(im * im, 1_000_000);
    assert(re * re <= 4_000_000_999_999);
    assert(im * im <= 4_000_000_999_999);
    lemma_abs_le_from_square(re, 2_000_000);
    lemma_abs_le_from_square(im, 2_000_000);
}

impl Complex {
    /// The origin: the one value with a norm of zero.
    pub fn zero() -> (r: Complex)
        ensures
            r.re.raw == 0,
            r.im.raw == 0,
    {
        Complex { re: Fixed { raw: 0 }, im: Fixed { raw: 0 } }
    }

    /// A complex number from the given real and imaginary components.
    pub fn new(re: Fixed, im: Fixed) -> (r: Complex)
        ensures
            r.re == re,
            r.im == im,
    {
        Complex { re, im }
    }

    /// Componentwise sum.
    pub fn add(self, other: Complex) -> (r: Complex)
        requires
            i64::MIN <= self.re.raw + other.re.raw <= i64::MAX,
            i64::MIN <= self.im.raw + other.im.raw <= i64::MAX,
        ensures
            r.re.raw == self.re.raw + other.re.raw,
            r.im.raw == self.im.raw + other.im.raw,
    {
        Complex { re: self.re.add(other.re), im: self.im.add(other.im) }
    }

    /// Complex product: `(a+bi)(c+di) = (ac - bd) + (ad + bc)i`,
    /// each partial product truncated toward zero.
    pub fn mul(self, other: Complex) -> (r: Complex)
        requires
            within(self.re.raw as int, self.im.raw as int, MUL_LIMIT as int),
            within(other.re.raw as int, other.im.raw as int, MUL_LIMIT as int),
        ensures
            r.re.raw == mul_raw(self.re.raw as int, other.re.raw as int) - mul_raw(
                self.im.raw as int,
                other.im.raw as int,
            ),
            r.im.raw == mul_raw(self.re.raw as int, other.im.raw as int) + mul_raw(
                self.im.raw as int,
                other.re.raw as int,
            ),
    {
        proof {
            lemma_mul_raw_bound(self.re.raw as int, other.re.raw as int, MUL_LIMIT as int);
            lemma_mul_raw_bound(self.im.raw as int, other.im.raw as int, MUL_LIMIT as int);
            lemma_mul_raw_bound(self.re.raw as int, other.im.raw as int, MUL_LIMIT as int);
            lemma_mul_raw_bound(self.im.raw as int, other.re.raw as int, MUL_LIMIT as int);
        }
        let ac: Fixed = self.re.mul(other.re);
        let bd: Fixed = self.im.mul(other.im);
        let ad: Fixed = self.re.mul(other.im);
        let bc: Fixed = self.im.mul(other.re);
        Complex { re: ac.sub(bd), im: ad.add(bc) }
    }

    /// Scale by `k`. Both output components are derived from the input's
    /// real component; the sampling pipeline itself never calls this.
    pub fn mul_scalar(self, k: Fixed) -> (r: Complex)
        requires
            within(self.re.raw as int, self.im.raw as int, MUL_LIMIT as int),
            -MUL_LIMIT <= k.raw <= MUL_LIMIT,
        ensures
            r.re.raw == mul_raw(self.re.raw as int, k.raw as int),
            r.im.raw == mul_raw(self.re.raw as int, k.raw as int),
    {
        proof {
            lemma_mul_raw_bound(self.re.raw as int, k.raw as int, MUL_LIMIT as int);
        }
        let s: Fixed = self.re.mul(k);
        Complex { re: s, im: s }
    }

    /// Squared norm: the sum of the squared components.
    pub fn norm_squared(self) -> (r: Fixed)
        requires
            within(self.re.raw as int, self.im.raw as int, MUL_LIMIT as int),
        ensures
            r.raw == norm_sq_raw(self.re.raw as int, self.im.raw as int),
            r.raw >= 0,
    {
        proof {
            lemma_mul_raw_bound(self.re.raw as int, self.re.raw as int, MUL_LIMIT as int);
            lemma_mul_raw_bound(self.im.raw as int, self.im.raw as int, MUL_LIMIT as int);
            lemma_mul_raw_square_nonneg(self.re.raw as int);
            lemma_mul_raw_square_nonneg(self.im.raw as int);
        }
        let rr: Fixed = self.re.mul(self.re);
        let ii: Fixed = self.im.mul(self.im);
        rr.add(ii)
    }

    /// Norm: the square root of the squared norm, rounded down to the
    /// nearest representable value.
    pub fn norm(self) -> (r: Fixed)
        requires
            within(self.re.raw as int, self.im.raw as int, MUL_LIMIT as int),
        ensures
            r.raw >= 0,
            r.raw * r.raw <= norm_sq_raw(self.re.raw as int, self.im.raw as int) * 1_000_000,
            (r.raw + 1) * (r.raw + 1) > norm_sq_raw(self.re.raw as int, self.im.raw as int)
                * 1_000_000,
    {
        let ns: Fixed = self.norm_squared();
        proof {
            lemma_mul_raw_bound(self.re.raw as int, self.re.raw as int, MUL_LIMIT as int);
            lemma_mul_raw_bound(self.im.raw as int, self.im.raw as int, MUL_LIMIT as int);
            lemma_mul_raw_square_nonneg(self.re.raw as int);
            lemma_mul_raw_square_nonneg(self.im.raw as int);
            assert(0 <= ns.raw <= 50_000_000_000_000);
        }
        let x: u128 = (ns.raw as u128) * 1_000_000;
        let s: u128 = isqrt(x);
        proof {
            if s >= 0x4_0000_0000u128 {
                assert(s * s >= 0x4_0000_0000u128 * 0x4_0000_0000u128) by (nonlinear_arith)
                    requires
                        s >= 0x4_0000_0000u128,
                ;
                assert(false);
            }
        }
        Fixed { raw: s as i64 }
    }
}

/// Largest `r` with `r * r <= x`, by bisection.
fn isqrt(x: u128) -> (r: u128)
    ensures
        r * r <= x,
        (r + 1) * (r + 1) > x,
        r < 0x1_0000_0000_0000_0000u128,
{
    let mut lo: u128 = 0;
    let mut hi: u128 = 0x1_0000_0000_0000_0000u128;
    proof {
        assert(hi as int * hi as int > x as int) by (nonlinear_arith)
            requires
                hi == 0x1_0000_0000_0000_0000u128,
                x <= u128::MAX,
            ;
    }
    while lo + 1 < hi
        invariant
            lo < hi <= 0x1_0000_0000_0000_0000u128,
            lo * lo <= x,
            hi as int * hi as int > x as int,
        decreases hi - lo,
    {
        let mid: u128 = lo + (hi - lo) / 2;
        proof {
            assert(mid * mid <= 0xffff_ffff_ffff_ffffu128 * 0xffff_ffff_ffff_ffffu128)
                by (nonlinear_arith)
                requires
                    mid <= 0xffff_ffff_ffff_ffffu128,
            ;
        }
        if mid * mid <= x {
            lo = mid;
        } else {
            hi = mid;
        }
    }
    lo
}

} // verus!
