use vstd::prelude::*;

use crate::complex::Complex;
use crate::fixed::Fixed;

verus! {

use crate::complex::COORD_LIMIT;
use crate::complex::ESCAPE_RAW;
use crate::complex::MUL_LIMIT;
use crate::complex::lemma_component_bound_from_norm;
use crate::complex::norm_sq_raw;
use crate::complex::within;
use crate::fixed::lemma_mul_bound;
use crate::fixed::lemma_mul_raw_bound;
use crate::fixed::lemma_trunc_div_bound;
use crate::fixed::mul_raw;
use crate::viewport::Viewport;
use crate::viewport::resolution_ok;
use vstd::arithmetic::div_mod::lemma_div_basics;
use vstd::arithmetic::div_mod::lemma_div_is_ordered;
use vstd::arithmetic::div_mod::lemma_div_multiples_vanish;
use vstd::arithmetic::div_mod::lemma_div_pos_is_pos;
use vstd::arithmetic::div_mod::lemma_fundamental_div_mod;
use vstd::arithmetic::div_mod::lemma_mod_division_less_than_divisor;
use vstd::arithmetic::mul::lemma_mul_basics;
use vstd::arithmetic::mul::lemma_mul_inequality;
use vstd::arithmetic::mul::lemma_mul_is_distributive_add_other_way;

/// Raw components of the `n`-th iterate of `z <- z*z + c`, starting at zero.
pub open spec fn iterate(cre: int, cim: int, n: nat) -> (int, int)
    decreases n,
{
    if n == 0 {
        (0int, 0int)
    } else {
        let z = iterate(cre, cim, (n - 1) as nat);
        (
            mul_raw(z.0, z.0) - mul_raw(z.1, z.1) + cre,
            mul_raw(z.0, z.1) + mul_raw(z.1, z.0) + cim,
        )
    }
}

/// The `n`-th iterate lies strictly outside the escape radius of two units.
pub open spec fn escaped_at(cre: int, cim: int, n: nat) -> bool {
    norm_sq_raw(iterate(cre, cim, n).0, iterate(cre, cim, n).1) > ESCAPE_RAW as int
}

/// The count the sampler reports once `i` updates are done and none of the
/// iterates `1..=i` has escaped: the zero-based index of the first escaping
/// update, or `max` when none of the first `max` updates escapes.
pub open spec fn escape_time_from(cre: int, cim: int, i: nat, max: nat) -> nat
    decreases max - i,
{
    if i >= max {
        max
    } else if escaped_at(cre, cim, i + 1) {
        i
    } else {
        escape_time_from(cre, cim, i + 1, max)
    }
}

/// Iterations reported for the point `(cre, cim)` under the cap `max`.
pub open spec fn escape_time(cre: int, cim: int, max: nat) -> nat {
    escape_time_from(cre, cim, 0, max)
}

proof fn lemma_mul_raw_zero(b: int)
    ensures
        mul_raw(0, b) == 0,
        mul_raw(b, 0) == 0,
{
    lemma_div_basics(1_000_000);
}

/// The first update maps the origin to `c` itself.
proof fn lemma_first_iterate(cre: int, cim: int)
    ensures
        iterate(cre, cim, 1) == (cre, cim),
{
    lemma_mul_raw_zero(0);
    assert(iterate(cre, cim, 0) == (0int, 0int));
    reveal_with_fuel(iterate, 2);
}

/// A point already outside the escape radius leaves at the very first
/// update: the sampler reports zero, strictly below any positive cap.
pub proof fn lemma_escape_immediate(cre: int, cim: int, max: nat)
    requires
        norm_sq_raw(cre, cim) > ESCAPE_RAW as int,
        max >= 1,
    ensures
        escape_time(cre, cim, max) == 0,
        escape_time(cre, cim, max) < max,
{
    lemma_first_iterate(cre, cim);
    assert(escaped_at(cre, cim, 1));
}

proof fn lemma_origin_iterate(n: nat)
    ensures
        iterate(0, 0, n) == (0int, 0int),
    decreases n,
{
    if n > 0 {
        lemma_origin_iterate((n - 1) as nat);
        lemma_mul_raw_zero(0);
    }
}

proof fn lemma_origin_time_from(i: nat, max: nat)
    requires
        i <= max,
    ensures
        escape_time_from(0, 0, i, max) == max,
    decreases max - i,
{
    if i < max {
        lemma_origin_iterate((i + 1) as nat);
        lemma_mul_raw_zero(0);
        assert(!escaped_at(0, 0, (i + 1) as nat));
        lemma_origin_time_from((i + 1) as nat, max);
    }
}

/// The origin is the fixed point of the recurrence: it never escapes, so
/// the sampler returns the cap itself, whatever the cap.
pub proof fn lemma_origin_never_escapes(max: nat)
    ensures
        escape_time(0, 0, max) == max,
{
    lemma_origin_time_from(0, max);
}

/// Iterations needed for the point `c` to leave the escape radius: the
/// zero-based index of the first update of `z <- z*z + c` whose result has
/// a squared norm above four, or `max_iter` when no update within the cap
/// does.
pub fn sample(c: Complex, max_iter: u32) -> (n: u32)
    requires
        within(c.re.raw as int, c.im.raw as int, COORD_LIMIT as int),
    ensures
        n == escape_time(c.re.raw as int, c.im.raw as int, max_iter as nat),
        n <= max_iter,
{
    let ghost cre = c.re.raw as int;
    let ghost cim = c.im.raw as int;
    let mut z = Complex::zero();
    let mut i: u32 = 0;
    while i < max_iter
        invariant
            within(cre, cim, COORD_LIMIT as int),
            c.re.raw == cre,
            c.im.raw == cim,
            i <= max_iter,
            z.re.raw == iterate(cre, cim, i as nat).0,
            z.im.raw == iterate(cre, cim, i as nat).1,
            norm_sq_raw(z.re.raw as int, z.im.raw as int) <= ESCAPE_RAW as int,
            escape_time(cre, cim, max_iter as nat) == escape_time_from(
                cre,
                cim,
                i as nat,
                max_iter as nat,
            ),
        decreases max_iter - i,
    {
        proof {
            lemma_component_bound_from_norm(z.re.raw as int, z.im.raw as int);
            lemma_mul_raw_bound(z.re.raw as int, z.re.raw as int, 2_000_000);
            lemma_mul_raw_bound(z.im.raw as int, z.im.raw as int, 2_000_000);
            lemma_mul_raw_bound(z.re.raw as int, z.im.raw as int, 2_000_000);
            lemma_mul_raw_bound(z.im.raw as int, z.re.raw as int, 2_000_000);
        }
        z = z.mul(z).add(c);
        let ns = z.norm_squared();
        if ns.raw > ESCAPE_RAW {
            proof {
                assert(escaped_at(cre, cim, (i + 1) as nat));
            }
            return i;
        }
        i = i + 1;
    }
    max_iter
}

/// Raw components of the sub-sample point at cell `(i, j)` of the
/// supersampling grid: the centre shifted by `eps * (1 - ss)` in each axis,
/// then stepped forward by `eps` per cell.
pub open spec fn subpoint(cre: int, cim: int, eps: int, ss: int, i: int, j: int) -> (int, int) {
    (cre + eps * (1 - ss) + eps * i, cim + eps * (1 - ss) + eps * j)
}

/// Sum of the escape times of the first `jn` cells of grid row `i`.
pub open spec fn row_total(
    cre: int,
    cim: int,
    eps: int,
    ss: int,
    max: nat,
    i: int,
    jn: int,
) -> int
    decreases jn,
{
    if jn <= 0 {
        0
    } else {
        row_total(cre, cim, eps, ss, max, i, jn - 1) + escape_time(
            subpoint(cre, cim, eps, ss, i, jn - 1).0,
            subpoint(cre, cim, eps, ss, i, jn - 1).1,
            max,
        )
    }
}

/// Sum of the escape times of the first `rows` full grid rows.
pub open spec fn grid_total(cre: int, cim: int, eps: int, ss: int, max: nat, rows: int) -> int
    decreases rows,
{
    if rows <= 0 {
        0
    } else {
        grid_total(cre, cim, eps, ss, max, rows - 1) + row_total(
            cre,
            cim,
            eps,
            ss,
            max,
            rows - 1,
            ss,
        )
    }
}

/// Mean escape value of a supersampling grid, as a raw fixed-point value.
pub open spec fn multi_sample_value(cre: int, cim: int, eps: int, ss: int, max: nat) -> int {
    grid_total(cre, cim, eps, ss, max, ss) * 1_000_000 / (ss * ss)
}

pub(crate) proof fn lemma_scale_within(e: int, i: int, s: int, m: int)
    by (nonlinear_arith)
    requires
        0 <= i <= s,
        -m <= e * s <= m,
    ensures
        -m <= e * i <= m,
{
}

pub(crate) proof fn lemma_subpoint_in_range(x: int, e: int, ss: int, i: int, c: int)
    by (nonlinear_arith)
    requires
        1 <= ss,
        0 <= i < ss,
        -c <= x <= c,
        -c <= x - e * (ss - 1) <= c,
    ensures
        -c <= x + e * (1 - ss) + e * i <= c,
{
}

pub(crate) proof fn lemma_neg_factor(e: int, s: int)
    by (nonlinear_arith)
    ensures
        e * (-s) == -(e * s),
        e * (1 - (s + 1)) == -(e * s),
{
}

pub(crate) proof fn lemma_mul_succ(a: int, m: int)
    by (nonlinear_arith)
    ensures
        (a + 1) * m == a * m + m,
{
}

pub(crate) proof fn lemma_mul_assoc(a: int, b: int, m: int)
    by (nonlinear_arith)
    ensures
        (a * b) * m == a * (b * m),
{
}

pub(crate) proof fn lemma_cell_count(i: int, j: int, ss: int)
    by (nonlinear_arith)
    requires
        0 <= i < ss,
        0 <= j < ss,
        ss <= 1000,
    ensures
        0 <= i * ss + j,
        i * ss + j < ss * ss,
        ss * ss <= 1_000_000,
{
}

/// Average escape time of a `super_samples` by `super_samples` grid of
/// sub-points around `c`, spaced `epsilon` apart, as a fixed-point value:
/// the total of the grid's escape times divided by the number of cells,
/// rounded down. With a single sub-sample this is exactly the escape time
/// of `c` itself.
#[verifier::loop_isolation(false)]
pub fn multi_sample(c: Complex, max_iter: u32, super_samples: u32, epsilon: Fixed) -> (r: Fixed)
    requires
        1 <= super_samples <= 1000,
        within(c.re.raw as int, c.im.raw as int, COORD_LIMIT as int),
        within(
            c.re.raw - epsilon.raw * (super_samples - 1),
            c.im.raw - epsilon.raw * (super_samples - 1),
            COORD_LIMIT as int,
        ),
    ensures
        r.raw == multi_sample_value(
            c.re.raw as int,
            c.im.raw as int,
            epsilon.raw as int,
            super_samples as int,
            max_iter as nat,
        ),
        0 <= r.raw <= 1_000_000 * (max_iter as int),
        super_samples == 1 ==> r.raw == 1_000_000 * escape_time(
            c.re.raw as int,
            c.im.raw as int,
            max_iter as nat,
        ),
{
    let ghost cre = c.re.raw as int;
    let ghost cim = c.im.raw as int;
    let ghost e = epsilon.raw as int;
    let ghost ssn = super_samples as int;
    let ghost maxn = max_iter as nat;
    let ghost s = ssn - 1;
    let k: i64 = 1 - (super_samples as i64);
    proof {
        assert(e * s == cre - (cre - e * s));
        assert(-(2 * COORD_LIMIT as int) <= e * s <= 2 * COORD_LIMIT as int);
        lemma_neg_factor(e, s);
        assert(k as int == -s);
        assert(e * (k as int) == -(e * s));
    }
    let off: Fixed = epsilon.mul_int(k);
    let start: Complex = c.add(Complex::new(off, off));
    let mut total: u64 = 0;
    let mut i: u32 = 0;
    while i < super_samples
        invariant
            i <= super_samples,
            total == grid_total(cre, cim, e, ssn, maxn, i as int),
            total <= ((i as int) * ssn) * (maxn as int),
        decreases super_samples - i,
    {
        proof {
            lemma_scale_within(e, i as int, s, 2 * COORD_LIMIT as int);
        }
        let re_off: Fixed = epsilon.mul_int(i as i64);
        let mut j: u32 = 0;
        while j < super_samples
            invariant
                i < super_samples,
                j <= super_samples,
                re_off.raw == e * (i as int),
                total == grid_total(cre, cim, e, ssn, maxn, i as int) + row_total(
                    cre,
                    cim,
                    e,
                    ssn,
                    maxn,
                    i as int,
                    j as int,
                ),
                total <= ((i as int) * ssn + (j as int)) * (maxn as int),
            decreases super_samples - j,
        {
            proof {
                lemma_scale_within(e, j as int, s, 2 * COORD_LIMIT as int);
            }
            let im_off: Fixed = epsilon.mul_int(j as i64);
            proof {
                assert(start.re.raw + re_off.raw == cre + e * (1 - ssn) + e * (i as int));
                assert(start.im.raw + im_off.raw == cim + e * (1 - ssn) + e * (j as int));
                lemma_subpoint_in_range(cre, e, ssn, i as int, COORD_LIMIT as int);
                lemma_subpoint_in_range(cim, e, ssn, j as int, COORD_LIMIT as int);
            }
            let p: Complex = start.add(Complex::new(re_off, im_off));
            proof {
                assert(p.re.raw == subpoint(cre, cim, e, ssn, i as int, j as int).0);
                assert(p.im.raw == subpoint(cre, cim, e, ssn, i as int, j as int).1);
            }
            let cnt: u32 = sample(p, max_iter);
            proof {
                lemma_cell_count(i as int, j as int, ssn);
                lemma_mul_inequality((i as int) * ssn + (j as int), 1_000_000, maxn as int);
                lemma_mul_succ((i as int) * ssn + (j as int), maxn as int);
            }
            total = total + (cnt as u64);
            j = j + 1;
        }
        proof {
            lemma_mul_succ(i as int, ssn);
        }
        i = i + 1;
    }
    proof {
        lemma_cell_count(ssn - 1, ssn - 1, ssn);
        lemma_mul_inequality((ssn - 1) * ssn + (ssn - 1), 1_000_000, maxn as int);
    }
    let cells: u64 = (super_samples as u64) * (super_samples as u64);
    let q: u128 = ((total as u128) * 1_000_000) / (cells as u128);
    proof {
        lemma_mul_inequality(total as int, ssn * ssn * (maxn as int), 1_000_000);
        lemma_mul_assoc(ssn * ssn, maxn as int, 1_000_000);
        lemma_div_is_ordered(
            (total as int) * 1_000_000,
            (ssn * ssn) * ((maxn as int) * 1_000_000),
            ssn * ssn,
        );
        lemma_div_multiples_vanish((maxn as int) * 1_000_000, ssn * ssn);
        assert(q as int == multi_sample_value(cre, cim, e, ssn, maxn));
        if super_samples == 1 {
            reveal_with_fuel(grid_total, 2);
            reveal_with_fuel(row_total, 2);
            assert(grid_total(cre, cim, e, 1, maxn, 1) == row_total(cre, cim, e, 1, maxn, 0, 1));
            assert(subpoint(cre, cim, e, 1, 0, 0) == (cre, cim));
            assert(grid_total(cre, cim, e, 1, maxn, 1) == escape_time(cre, cim, maxn));
            lemma_div_basics(grid_total(cre, cim, e, 1, maxn, 1) * 1_000_000);
        }
    }
    Fixed { raw: q as i64 }
}

proof fn lemma_collapsed_row(cre: int, cim: int, ss: int, max: nat, i: int, jn: int)
    requires
        0 <= jn,
    ensures
        row_total(cre, cim, 0, ss, max, i, jn) == jn * escape_time(cre, cim, max),
    decreases jn,
{
    if jn <= 0 {
        lemma_mul_basics(escape_time(cre, cim, max) as int);
    } else {
        lemma_collapsed_row(cre, cim, ss, max, i, jn - 1);
        assert(subpoint(cre, cim, 0, ss, i, jn - 1) == (cre, cim)) by {
            assert(0 * (1 - ss) == 0) by (nonlinear_arith);
            assert(0 * i == 0) by (nonlinear_arith);
            assert(0 * (jn - 1) == 0) by (nonlinear_arith);
        }
        lemma_mul_succ(jn - 1, escape_time(cre, cim, max) as int);
    }
}

proof fn lemma_collapsed_grid(cre: int, cim: int, ss: int, max: nat, rows: int)
    requires
        0 <= rows,
        1 <= ss,
    ensures
        grid_total(cre, cim, 0, ss, max, rows) == (rows * ss) * escape_time(cre, cim, max),
    decreases rows,
{
    let time = escape_time(cre, cim, max) as int;
    if rows <= 0 {
        lemma_mul_basics(ss);
        lemma_mul_basics(time);
    } else {
        lemma_collapsed_grid(cre, cim, ss, max, rows - 1);
        lemma_collapsed_row(cre, cim, ss, max, rows - 1, ss);
        assert(grid_total(cre, cim, 0, ss, max, rows) == ((rows - 1) * ss) * time + ss * time);
        lemma_mul_is_distributive_add_other_way(time, (rows - 1) * ss, ss);
        lemma_mul_succ(rows - 1, ss);
        assert((rows * ss) * time == ((rows - 1) * ss + ss) * time);
    }
}

/// Supersampling degenerates gracefully: with a zero spacing every cell of
/// the sub-grid is the centre itself, and the supersampled mean equals the
/// centre's own escape time exactly, whatever the grid size.
pub proof fn lemma_collapsed_grid_mean(cre: int, cim: int, ss: int, max: nat)
    requires
        1 <= ss,
    ensures
        multi_sample_value(cre, cim, 0, ss, max) == 1_000_000 * escape_time(cre, cim, max),
{
    let time = escape_time(cre, cim, max) as int;
    lemma_collapsed_grid(cre, cim, ss, max, ss);
    lemma_mul_assoc(ss * ss, time, 1_000_000);
    lemma_mul_inequality(1, ss, ss);
    lemma_div_multiples_vanish(time * 1_000_000, ss * ss);
}

/// The centre itself is always a cell of the supersampling grid: the
/// offsets of the last cell cancel exactly, for any spacing.
pub proof fn lemma_centre_in_grid(cre: int, cim: int, eps: int, ss: int)
    requires
        1 <= ss,
    ensures
        subpoint(cre, cim, eps, ss, ss - 1, ss - 1) == (cre, cim),
{
    lemma_neg_factor(eps, ss - 1);
}

pub(crate) proof fn lemma_le_cancel(a: int, b: int, c: int)
    by (nonlinear_arith)
    requires
        a * c <= b * c,
        c >= 1,
    ensures
        a <= b,
{
}

pub(crate) proof fn lemma_mul_shuffle(a: int, b: int, c: int)
    by (nonlinear_arith)
    ensures
        (a * b) * c == (c * a) * b,
{
}

pub(crate) proof fn lemma_two_factors(e: int, ss: int)
    by (nonlinear_arith)
    ensures
        2 * (e * ss) == (2 * ss) * e,
{
}

pub(crate) proof fn lemma_row_major(x: int, y: int, w: int, h: int)
    by (nonlinear_arith)
    requires
        0 <= x < w,
        0 <= y < h,
    ensures
        0 <= y * w + x,
        y * w + x < w * h,
{
}

pub(crate) proof fn lemma_row_major_inj(x1: int, y1: int, x2: int, y2: int, w: int)
    by (nonlinear_arith)
    requires
        0 <= x1 < w,
        0 <= x2 < w,
        y1 * w + x1 == y2 * w + x2,
    ensures
        y1 == y2,
        x1 == x2,
{
}

/// Row-major grid of fixed-point scalar samples, one cell per pixel.
#[derive(Debug)]
pub struct ScalarGrid {
    pub width: usize,
    pub height: usize,
    pub data: Vec<Fixed>,
}

impl ScalarGrid {
    pub open spec fn wf(self) -> bool {
        self.data.len() == self.width * self.height && resolution_ok(
            self.width as int,
            self.height as int,
        )
    }

    /// Raw value held for pixel `(x, y)`.
    pub open spec fn at(self, x: int, y: int) -> int {
        self.data[y * self.width + x].raw as int
    }

    /// A grid of the given size with every cell holding `fill`.
    pub fn new(width: usize, height: usize, fill: Fixed) -> (r: ScalarGrid)
        requires
            resolution_ok(width as int, height as int),
        ensures
            r.wf(),
            r.width == width,
            r.height == height,
            forall|x: int, y: int|
                0 <= x < width && 0 <= y < height ==> r.at(x, y) == fill.raw,
    {
        proof {
            lemma_mul_bound(width as int, height as int, 100_000);
        }
        let n: usize = width * height;
        let mut data: Vec<Fixed> = Vec::new();
        let mut i: usize = 0;
        while i < n
            invariant
                i <= n,
                data.len() == i,
                forall|k: int| 0 <= k < i ==> data[k] == fill,
            decreases n - i,
        {
            data.push(fill);
            i = i + 1;
        }
        let r = ScalarGrid { width, height, data };
        proof {
            assert forall|x: int, y: int|
                0 <= x < width && 0 <= y < height implies r.at(x, y) == fill.raw by {
                lemma_row_major(x, y, width as int, height as int);
            }
        }
        r
    }

    /// Read the cell for pixel `(x, y)`.
    pub fn get(&self, x: usize, y: usize) -> (r: Fixed)
        requires
            self.wf(),
            x < self.width,
            y < self.height,
        ensures
            r.raw == self.at(x as int, y as int),
    {
        proof {
            lemma_row_major(x as int, y as int, self.width as int, self.height as int);
            lemma_mul_bound(self.width as int, self.height as int, 100_000);
        }
        let idx: usize = y * self.width + x;
        self.data[idx]
    }

    /// Overwrite the cell for pixel `(x, y)`; every other cell is kept.
    pub fn set_cell(&mut self, x: usize, y: usize, v: Fixed)
        requires
            old(self).wf(),
            x < old(self).width,
            y < old(self).height,
        ensures
            final(self).wf(),
            final(self).width == old(self).width,
            final(self).height == old(self).height,
            final(self).at(x as int, y as int) == v.raw,
            forall|xx: int, yy: int|
                0 <= xx < old(self).width && 0 <= yy < old(self).height && !(xx == x && yy == y)
                    ==> final(self).at(xx, yy) == old(self).at(xx, yy),
    {
        proof {
            lemma_row_major(x as int, y as int, self.width as int, self.height as int);
            lemma_mul_bound(self.width as int, self.height as int, 100_000);
        }
        let idx: usize = y * self.width + x;
        self.data.set(idx, v);
        proof {
            assert forall|xx: int, yy: int|
                0 <= xx < old(self).width && 0 <= yy < old(self).height && !(xx == x && yy == y)
                    implies self.at(xx, yy) == old(self).at(xx, yy) by {
                lemma_row_major(xx, yy, old(self).width as int, old(self).height as int);
                if yy * old(self).width + xx == y * old(self).width + x {
                    lemma_row_major_inj(xx, yy, x as int, y as int, old(self).width as int);
                }
            }
        }
    }
}

/// Value `sample_area` writes for pixel `(x, y)` of a viewport: the
/// supersampled mean escape value at the grid point of that pixel.
pub open spec fn pixel_value(vp: Viewport, ss: int, max: nat, x: int, y: int) -> int {
    multi_sample_value(
        vp.spec_point(x, y).0,
        vp.spec_point(x, y).1,
        vp.spec_epsilon(ss),
        ss,
        max,
    )
}

/// Fill `data` with one supersampled escape value per pixel of the
/// viewport: cell `(x, y)` receives the mean escape value of the sub-grid
/// around the point `start + delta * (x, y)`. Every cell is overwritten,
/// whatever it held before.
#[verifier::loop_isolation(false)]
pub fn sample_area(vp: &Viewport, super_samples: u32, max_iter: u32, data: &mut ScalarGrid)
    requires
        vp.wf(),
        1 <= super_samples <= 1000,
        old(data).wf(),
        old(data).width == vp.width,
        old(data).height == vp.height,
    ensures
        final(data).wf(),
        final(data).width == vp.width,
        final(data).height == vp.height,
        forall|x: int, y: int|
            0 <= x < vp.width && 0 <= y < vp.height ==> final(data).at(x, y) == pixel_value(
                *vp,
                super_samples as int,
                max_iter as nat,
                x,
                y,
            ),
{
    let ghost s = vp.scale.raw as int;
    let ghost w = vp.width as int;
    let ghost h = vp.height as int;
    let ghost ssn = super_samples as int;
    let ghost maxn = max_iter as nat;
    let ghost g = 1_000_000_000int;

    let width = vp.width;
    let height = vp.height;
    let half_raw: i64 = ((vp.scale.raw as u64) / 2) as i64;
    let start_re: i64 = vp.centre.re.raw - half_raw;
    proof {
        lemma_mul_bound(s, h, 1_000_000_000);
        lemma_mul_basics(h);
        lemma_mul_inequality(0, s, h);
    }
    let sim: u64 = ((vp.scale.raw as u64) * (height as u64)) / (width as u64);
    proof {
        lemma_div_pos_is_pos(s * h, w);
        lemma_div_is_ordered(s * h, g * w, w);
        lemma_div_multiples_vanish(g, w);
        assert(0 <= vp.spec_scale_im() <= g);
        assert(sim as int == vp.spec_scale_im());
    }
    let start_im: i64 = vp.centre.im.raw - ((sim / 2) as i64);
    let dnum: u64 = if width >= 2 {
        (width - 1) as u64
    } else {
        1u64
    };
    let delta: i64 = ((vp.scale.raw as u64) / dnum) as i64;
    let ghost d = vp.spec_delta();
    proof {
        assert(delta as int == d);
        lemma_div_pos_is_pos(s, dnum as int);
        lemma_trunc_div_bound(s, dnum as int, s);
        assert(0 <= d <= s);
        lemma_fundamental_div_mod(s, dnum as int);
        lemma_mod_division_less_than_divisor(s, dnum as int);
        assert((dnum as int) * d <= s);
        lemma_mul_basics(d);
        if width >= 2 {
            assert((w - 1) * d <= s);
            lemma_mul_shuffle(d, h - 1, w - 1);
            lemma_mul_inequality((w - 1) * d, s, h - 1);
            assert((d * (h - 1)) * (w - 1) <= s * (h - 1));
            lemma_mul_inequality(h - 1, h, s);
            assert(s * (h - 1) <= s * h);
            assert(s * h <= g * w);
            assert(g * w <= (2 * g) * (w - 1));
            assert((d * (h - 1)) * (w - 1) <= (2 * g) * (w - 1));
            lemma_le_cancel(d * (h - 1), 2 * g, w - 1);
        } else {
            assert((w - 1) * d == 0);
            assert(d == s);
            lemma_mul_inequality(h - 1, h, s);
            assert(d * (h - 1) <= s * h);
            assert(s * h <= g * w);
            assert(d * (h - 1) <= 2 * g);
        }
        lemma_mul_inequality(0, h - 1, d);
        assert(0 <= d * (h - 1) <= 2 * g);
    }
    let two_ss: u64 = (2 * super_samples) as u64;
    let eps: i64 = ((delta as u64) / two_ss) as i64;
    let ghost e = vp.spec_epsilon(ssn);
    proof {
        assert(eps as int == e);
        lemma_div_pos_is_pos(d, 2 * ssn);
        lemma_fundamental_div_mod(d, 2 * ssn);
        lemma_mod_division_less_than_divisor(d, 2 * ssn);
        assert((2 * ssn) * e <= d);
        lemma_two_factors(e, ssn);
        assert(2 * (e * ssn) <= d);
        lemma_div_is_ordered(2 * (e * ssn), d, 2);
        lemma_div_multiples_vanish(e * ssn, 2);
        assert(e * ssn <= d / 2);
        lemma_mul_inequality(ssn - 1, ssn, e);
        lemma_mul_inequality(0, ssn - 1, e);
        lemma_mul_basics(e);
        assert(e * (ssn - 1) == (ssn - 1) * e) by (nonlinear_arith);
        assert(e * ssn == ssn * e) by (nonlinear_arith);
        lemma_div_is_ordered(d, s, 2);
        lemma_div_is_ordered(s, 1_000_000_000, 2);
        assert(0 <= e * (ssn - 1) <= 500_000_000);
    }
    let mut y: usize = 0;
    while y < height
        invariant
            y <= height,
            data.wf(),
            data.width == vp.width,
            data.height == vp.height,
            forall|xx: int, yy: int|
                0 <= xx < w && 0 <= yy < y ==> data.at(xx, yy) == pixel_value(
                    *vp,
                    ssn,
                    maxn,
                    xx,
                    yy,
                ),
        decreases height - y,
    {
        proof {
            lemma_mul_inequality(y as int, h - 1, d);
            lemma_mul_inequality(0, y as int, d);
            lemma_mul_basics(d);
            assert(d * (y as int) == (y as int) * d) by (nonlinear_arith);
            assert(d * (h - 1) == (h - 1) * d) by (nonlinear_arith);
            assert(0 <= d * (y as int) <= d * (h - 1));
        }
        let py: i64 = start_im + delta * (y as i64);
        let mut x: usize = 0;
        while x < width
            invariant
                x <= width,
                y < height,
                py as int == vp.spec_start_im() + d * (y as int),
                -3_500_000_000 <= py <= 3_500_000_000,
                data.wf(),
                data.width == vp.width,
                data.height == vp.height,
                forall|xx: int, yy: int|
                    0 <= xx < w && 0 <= yy < y ==> data.at(xx, yy) == pixel_value(
                        *vp,
                        ssn,
                        maxn,
                        xx,
                        yy,
                    ),
                forall|xx: int|
                    0 <= xx < x ==> data.at(xx, y as int) == pixel_value(
                        *vp,
                        ssn,
                        maxn,
                        xx,
                        y as int,
                    ),
            decreases width - x,
        {
            proof {
                lemma_mul_inequality(x as int, w - 1, d);
                lemma_mul_inequality(0, x as int, d);
                lemma_mul_basics(d);
                assert(d * (x as int) == (x as int) * d) by (nonlinear_arith);
                assert(0 <= d * (x as int) <= (w - 1) * d);
            }
            let px: i64 = start_re + delta * (x as i64);
            let c = Complex::new(Fixed::from_raw(px), Fixed::from_raw(py));
            proof {
                assert(within(px as int, py as int, COORD_LIMIT as int));
                assert(within(
                    px as int - e * (ssn - 1),
                    py as int - e * (ssn - 1),
                    COORD_LIMIT as int,
                ));
            }
            let v: Fixed = multi_sample(c, max_iter, super_samples, Fixed::from_raw(eps));
            proof {
                assert(px as int == vp.spec_point(x as int, y as int).0);
                assert(py as int == vp.spec_point(x as int, y as int).1);
                assert(v.raw as int == pixel_value(*vp, ssn, maxn, x as int, y as int));
            }
            data.set_cell(x, y, v);
            x = x + 1;
        }
        y = y + 1;
    }
}

} // verus!
