use vstd::prelude::*;

use crate::complex::Complex;
use crate::fixed::Fixed;

verus! {

use crate::complex::COORD_LIMIT;
use crate::complex::ESCAPE_RAW;
use crate::complex::lemma_component_bound_from_norm;
use crate::complex::norm_sq_raw;
use crate::complex::within;
use crate::cpu::escape_time;
use crate::cpu::escape_time_from;
use crate::cpu::escaped_at;
use crate::cpu::grid_total;
use crate::cpu::iterate;
use crate::cpu::multi_sample_value;
use crate::cpu::row_total;
use crate::cpu::subpoint;
use crate::fixed::lemma_mul_bound;
use crate::fixed::lemma_mul_raw_bound;
use crate::fixed::lemma_trunc_div_bound;
use crate::viewport::Viewport;
use crate::viewport::resolution_ok;
use vstd::arithmetic::div_mod::lemma_div_basics;
use vstd::arithmetic::div_mod::lemma_div_is_ordered;
use vstd::arithmetic::div_mod::lemma_div_multiples_vanish;
use vstd::arithmetic::div_mod::lemma_div_multiples_vanish_fancy;
use vstd::arithmetic::div_mod::lemma_div_pos_is_pos;
use vstd::arithmetic::div_mod::lemma_fundamental_div_mod;
use vstd::arithmetic::div_mod::lemma_hoist_over_denominator;
use vstd::arithmetic::div_mod::lemma_mod_division_less_than_divisor;
use vstd::arithmetic::div_mod::lemma_multiply_divide_lt;
use vstd::arithmetic::mul::lemma_mul_basics;
use vstd::arithmetic::mul::lemma_mul_inequality;

/// Update count of the data-parallel kernel for one point. The kernel
/// keeps updating while the squared norm stays within the escape radius
/// and the count is below the cap, and reports the count where it stops:
/// it counts the escaping update itself, where the host sampler reports
/// that update's zero-based index.
pub open spec fn device_time_from(cre: int, cim: int, k: nat, max: nat) -> nat
    decreases max - k,
{
    if k >= max {
        max
    } else if norm_sq_raw(iterate(cre, cim, k).0, iterate(cre, cim, k).1) > ESCAPE_RAW as int {
        k
    } else {
        device_time_from(cre, cim, k + 1, max)
    }
}

/// Count the kernel reports for the point `(cre, cim)` under the cap.
pub open spec fn device_time(cre: int, cim: int, max: nat) -> nat {
    device_time_from(cre, cim, 0, max)
}

proof fn lemma_escape_time_range(cre: int, cim: int, k: nat, max: nat)
    requires
        k <= max,
    ensures
        k <= escape_time_from(cre, cim, k, max) <= max,
    decreases max - k,
{
    if k < max && !escaped_at(cre, cim, (k + 1) as nat) {
        lemma_escape_time_range(cre, cim, (k + 1) as nat, max);
    }
}

proof fn lemma_device_host_from(cre: int, cim: int, k: nat, max: nat)
    requires
        k <= max,
        norm_sq_raw(iterate(cre, cim, k).0, iterate(cre, cim, k).1) <= ESCAPE_RAW as int,
    ensures
        device_time_from(cre, cim, k, max) == if escape_time_from(cre, cim, k, max) + 1 <= max {
            (escape_time_from(cre, cim, k, max) + 1) as int
        } else {
            max as int
        },
    decreases max - k,
{
    if k < max {
        if escaped_at(cre, cim, (k + 1) as nat) {
            lemma_escape_time_range(cre, cim, k, max);
            assert(device_time_from(cre, cim, k, max) == device_time_from(
                cre,
                cim,
                (k + 1) as nat,
                max,
            ));
            assert(device_time_from(cre, cim, (k + 1) as nat, max) == if k + 1 < max {
                (k + 1) as int
            } else {
                max as int
            });
        } else {
            lemma_device_host_from(cre, cim, (k + 1) as nat, max);
        }
    }
}

proof fn lemma_origin_norm(cre: int, cim: int)
    ensures
        iterate(cre, cim, 0) == (0int, 0int),
        norm_sq_raw(iterate(cre, cim, 0).0, iterate(cre, cim, 0).1) == 0,
{
    lemma_div_basics(1_000_000);
    assert(crate::fixed::mul_raw(0, 0) == 0);
}

/// How the kernel's count relates to the host sampler's, point by point:
/// one more wherever the point escapes within the cap, and the cap itself
/// wherever the host already reports the cap.
pub proof fn lemma_device_vs_host(cre: int, cim: int, max: nat)
    ensures
        device_time(cre, cim, max) == if escape_time(cre, cim, max) + 1 <= max {
            (escape_time(cre, cim, max) + 1) as int
        } else {
            max as int
        },
        escape_time(cre, cim, max) <= device_time(cre, cim, max) <= escape_time(cre, cim, max)
            + 1,
        device_time(cre, cim, max) <= max,
{
    lemma_origin_norm(cre, cim);
    lemma_device_host_from(cre, cim, 0, max);
    lemma_escape_time_range(cre, cim, 0, max);
}

/// Count the kernel computes for one point: the same recurrence, escape
/// threshold and cap as `sample`, under the kernel's counting convention.
pub fn device_sample(c: Complex, max_iter: u32) -> (n: u32)
    requires
        within(c.re.raw as int, c.im.raw as int, COORD_LIMIT as int),
    ensures
        n == device_time(c.re.raw as int, c.im.raw as int, max_iter as nat),
        n <= max_iter,
{
    let ghost cre = c.re.raw as int;
    let ghost cim = c.im.raw as int;
    let ghost maxn = max_iter as nat;
    let mut z = Complex::zero();
    let mut k: u32 = 0;
    proof {
        lemma_origin_norm(cre, cim);
    }
    loop
        invariant_except_break
            maxn == max_iter as nat,
            within(cre, cim, COORD_LIMIT as int),
            c.re.raw == cre,
            c.im.raw == cim,
            k <= max_iter,
            z.re.raw == iterate(cre, cim, k as nat).0,
            z.im.raw == iterate(cre, cim, k as nat).1,
            within(z.re.raw as int, z.im.raw as int, 4_008_000_000),
            device_time(cre, cim, maxn) == device_time_from(cre, cim, k as nat, maxn),
        ensures
            k == device_time(cre, cim, maxn),
            k <= max_iter,
        decreases max_iter - k,
    {
        let ns = z.norm_squared();
        if ns.raw > ESCAPE_RAW {
            proof {
                if (k as nat) < maxn {
                    assert(device_time_from(cre, cim, k as nat, maxn) == k as nat);
                } else {
                    assert(k as nat == maxn);
                }
            }
            break;
        }
        if k >= max_iter {
            proof {
                assert(k as nat == maxn);
            }
            break;
        }
        proof {
            lemma_component_bound_from_norm(z.re.raw as int, z.im.raw as int);
            lemma_mul_raw_bound(z.re.raw as int, z.re.raw as int, 2_000_000);
            lemma_mul_raw_bound(z.im.raw as int, z.im.raw as int, 2_000_000);
            lemma_mul_raw_bound(z.re.raw as int, z.im.raw as int, 2_000_000);
            lemma_mul_raw_bound(z.im.raw as int, z.re.raw as int, 2_000_000);
        }
        z = z.mul(z).add(c);
        k = k + 1;
    }
    k
}

/// Sum of the kernel's counts over the first `jn` cells of grid row `i`.
pub open spec fn device_row_total(
    cre: int,
    cim: int,
    eps: int,
    ss: int,
    max: nat,
    i: int,
    jn: int,
) -> int
    decreases jn,
{
    if jn <= 0 {
        0
    } else {
        device_row_total(cre, cim, eps, ss, max, i, jn - 1) + device_time(
            subpoint(cre, cim, eps, ss, i, jn - 1).0,
            subpoint(cre, cim, eps, ss, i, jn - 1).1,
            max,
        )
    }
}

/// Sum of the kernel's counts over the first `rows` full grid rows.
pub open spec fn device_grid_total(
    cre: int,
    cim: int,
    eps: int,
    ss: int,
    max: nat,
    rows: int,
) -> int
    decreases rows,
{
    if rows <= 0 {
        0
    } else {
        device_grid_total(cre, cim, eps, ss, max, rows - 1) + device_row_total(
            cre,
            cim,
            eps,
            ss,
            max,
            rows - 1,
            ss,
        )
    }
}

/// Value the kernel writes for one pixel: the whole-number quotient of
/// the summed counts by the cell count — an integer mean, where the host
/// keeps a fixed-point mean.
pub open spec fn device_pixel_value(cre: int, cim: int, eps: int, ss: int, max: nat) -> int {
    device_grid_total(cre, cim, eps, ss, max, ss) / (ss * ss)
}

proof fn lemma_device_row_relation(
    cre: int,
    cim: int,
    eps: int,
    ss: int,
    max: nat,
    i: int,
    jn: int,
)
    requires
        0 <= jn,
    ensures
        row_total(cre, cim, eps, ss, max, i, jn) <= device_row_total(cre, cim, eps, ss, max, i, jn)
            <= row_total(cre, cim, eps, ss, max, i, jn) + jn,
    decreases jn,
{
    if jn > 0 {
        lemma_device_row_relation(cre, cim, eps, ss, max, i, jn - 1);
        lemma_device_vs_host(
            subpoint(cre, cim, eps, ss, i, jn - 1).0,
            subpoint(cre, cim, eps, ss, i, jn - 1).1,
            max,
        );
    }
}

proof fn lemma_device_grid_relation(cre: int, cim: int, eps: int, ss: int, max: nat, rows: int)
    requires
        0 <= rows,
        1 <= ss,
    ensures
        grid_total(cre, cim, eps, ss, max, rows) <= device_grid_total(
            cre,
            cim,
            eps,
            ss,
            max,
            rows,
        ) <= grid_total(cre, cim, eps, ss, max, rows) + rows * ss,
    decreases rows,
{
    if rows <= 0 {
        crate::cpu::lemma_mul_succ(-1, ss);
        assert(0 * ss == -1 * ss + ss);
    } else {
        lemma_device_grid_relation(cre, cim, eps, ss, max, rows - 1);
        lemma_device_row_relation(cre, cim, eps, ss, max, rows - 1, ss);
        crate::cpu::lemma_mul_succ(rows - 1, ss);
    }
}

proof fn lemma_expand_scaled(q: int, r: int, n: int)
    by (nonlinear_arith)
    ensures
        (q * n + r) * 1_000_000 == (q * 1_000_000) * n + r * 1_000_000,
{
}

/// The host's fixed-point pixel mean and the kernel's integer pixel mean
/// agree within one iteration unit either way: the kernel's counting
/// convention adds at most one count per cell, and its integer mean loses
/// less than one further unit to truncation.
pub proof fn lemma_pixel_agreement(cre: int, cim: int, eps: int, ss: int, max: nat)
    requires
        1 <= ss,
    ensures
        multi_sample_value(cre, cim, eps, ss, max) - 1_000_000 < 1_000_000 * device_pixel_value(
            cre,
            cim,
            eps,
            ss,
            max,
        ),
        1_000_000 * device_pixel_value(cre, cim, eps, ss, max) <= multi_sample_value(
            cre,
            cim,
            eps,
            ss,
            max,
        ) + 1_000_000,
{
    let n = ss * ss;
    let hsum = grid_total(cre, cim, eps, ss, max, ss);
    let dsum = device_grid_total(cre, cim, eps, ss, max, ss);
    lemma_device_grid_relation(cre, cim, eps, ss, max, ss);
    lemma_mul_inequality(1, ss, ss);
    assert(1 <= n);
    lemma_fundamental_div_mod(hsum, n);
    lemma_mod_division_less_than_divisor(hsum, n);
    let q = hsum / n;
    let r = hsum % n;
    lemma_expand_scaled(q, r, n);
    lemma_hoist_over_denominator(r * 1_000_000, q * 1_000_000, n as nat);
    assert(multi_sample_value(cre, cim, eps, ss, max) == q * 1_000_000 + (r * 1_000_000) / n);
    lemma_div_pos_is_pos(r * 1_000_000, n);
    lemma_multiply_divide_lt(r * 1_000_000, n, 1_000_000);
    assert(0 <= (r * 1_000_000) / n < 1_000_000);
    lemma_div_is_ordered(hsum, dsum, n);
    assert(q <= device_pixel_value(cre, cim, eps, ss, max));
    crate::cpu::lemma_mul_succ(q, n);
    assert(dsum <= n * (q + 1) + r);
    lemma_div_multiples_vanish_fancy(q + 1, r, n);
    lemma_div_is_ordered(dsum, n * (q + 1) + r, n);
    assert(device_pixel_value(cre, cim, eps, ss, max) <= q + 1);
}

/// Average kernel count over a `super_samples` by `super_samples` grid of
/// sub-points around `c`: the summed counts divided by the cell count as
/// plain integers, exactly as the kernel computes it.
#[verifier::loop_isolation(false)]
pub fn device_multi_sample(c: Complex, max_iter: u32, super_samples: u32, epsilon: Fixed) -> (r:
    u32)
    requires
        1 <= super_samples <= 1000,
        within(c.re.raw as int, c.im.raw as int, COORD_LIMIT as int),
        within(
            c.re.raw - epsilon.raw * (super_samples - 1),
            c.im.raw - epsilon.raw * (super_samples - 1),
            COORD_LIMIT as int,
        ),
    ensures
        r == device_pixel_value(
            c.re.raw as int,
            c.im.raw as int,
            epsilon.raw as int,
            super_samples as int,
            max_iter as nat,
        ),
        r <= max_iter,
{
    let ghost cre = c.re.raw as int;
    let ghost cim = c.im.raw as int;
    let ghost e = epsilon.raw as int;
    let ghost ssn = super_samples as int;
    let ghost maxn = max_iter as nat;
    let ghost s = ssn - 1;
    let k: i64 = 1 - (super_samples as i64);
    proof {
        assert(e * s == cre - (cre - e * s));
        assert(-(2 * COORD_LIMIT as int) <= e * s <= 2 * COORD_LIMIT as int);
        crate::cpu::lemma_neg_factor(e, s);
        assert(k as int == -s);
        assert(e * (k as int) == -(e * s));
    }
    let off: Fixed = epsilon.mul_int(k);
    let start: Complex = c.add(Complex::new(off, off));
    let mut total: u64 = 0;
    let mut i: u32 = 0;
    while i < super_samples
        invariant
            i <= super_samples,
            total == device_grid_total(cre, cim, e, ssn, maxn, i as int),
            total <= ((i as int) * ssn) * (maxn as int),
        decreases super_samples - i,
    {
        proof {
            crate::cpu::lemma_scale_within(e, i as int, s, 2 * COORD_LIMIT as int);
        }
        let re_off: Fixed = epsilon.mul_int(i as i64);
        let mut j: u32 = 0;
        while j < super_samples
            invariant
                i < super_samples,
                j <= super_samples,
                re_off.raw == e * (i as int),
                total == device_grid_total(cre, cim, e, ssn, maxn, i as int) + device_row_total(
                    cre,
                    cim,
                    e,
                    ssn,
                    maxn,
                    i as int,
                    j as int,
                ),
                total <= ((i as int) * ssn + (j as int)) * (maxn as int),
            decreases super_samples - j,
        {
            proof {
                crate::cpu::lemma_scale_within(e, j as int, s, 2 * COORD_LIMIT as int);
            }
            let im_off: Fixed = epsilon.mul_int(j as i64);
            proof {
                assert(start.re.raw + re_off.raw == cre + e * (1 - ssn) + e * (i as int));
                assert(start.im.raw + im_off.raw == cim + e * (1 - ssn) + e * (j as int));
                crate::cpu::lemma_subpoint_in_range(cre, e, ssn, i as int, COORD_LIMIT as int);
                crate::cpu::lemma_subpoint_in_range(cim, e, ssn, j as int, COORD_LIMIT as int);
            }
            let p: Complex = start.add(Complex::new(re_off, im_off));
            proof {
                assert(p.re.raw == subpoint(cre, cim, e, ssn, i as int, j as int).0);
                assert(p.im.raw == subpoint(cre, cim, e, ssn, i as int, j as int).1);
            }
            let cnt: u32 = device_sample(p, max_iter);
            proof {
                crate::cpu::lemma_cell_count(i as int, j as int, ssn);
                lemma_mul_inequality((i as int) * ssn + (j as int), 1_000_000, maxn as int);
                crate::cpu::lemma_mul_succ((i as int) * ssn + (j as int), maxn as int);
            }
            total = total + (cnt as u64);
            j = j + 1;
        }
        proof {
            crate::cpu::lemma_mul_succ(i as int, ssn);
        }
        i = i + 1;
    }
    proof {
        crate::cpu::lemma_cell_count(ssn - 1, ssn - 1, ssn);
        lemma_mul_inequality((ssn - 1) * ssn + (ssn - 1), 1_000_000, maxn as int);
    }
    let cells: u64 = (super_samples as u64) * (super_samples as u64);
    let q: u64 = total / cells;
    proof {
        lemma_div_is_ordered(total as int, ssn * ssn * (maxn as int), ssn * ssn);
        lemma_div_multiples_vanish(maxn as int, ssn * ssn);
        lemma_div_pos_is_pos(total as int, ssn * ssn);
        assert(q as int == device_pixel_value(cre, cim, e, ssn, maxn));
        assert(q <= maxn);
    }
    q as u32
}

/// Value the kernel writes for pixel `(x, y)` of a viewport.
pub open spec fn device_pixel(vp: Viewport, ss: int, max: nat, x: int, y: int) -> int {
    device_pixel_value(
        vp.spec_point(x, y).0,
        vp.spec_point(x, y).1,
        vp.spec_epsilon(ss),
        ss,
        max,
    )
}

/// Row-major grid of whole-number counts, one cell per pixel: the host
/// copy of the kernel's output buffer.
#[derive(Debug)]
pub struct CountGrid {
    pub width: usize,
    pub height: usize,
    pub data: Vec<u32>,
}

impl CountGrid {
    pub open spec fn wf(self) -> bool {
        self.data.len() == self.width * self.height && resolution_ok(
            self.width as int,
            self.height as int,
        )
    }

    /// Count held for pixel `(x, y)`.
    pub open spec fn at(self, x: int, y: int) -> int {
        self.data[y * self.width + x] as int
    }

    /// A grid of the given size with every cell holding `fill`.
    pub fn new(width: usize, height: usize, fill: u32) -> (r: CountGrid)
        requires
            resolution_ok(width as int, height as int),
        ensures
            r.wf(),
            r.width == width,
            r.height == height,
            forall|x: int, y: int| 0 <= x < width && 0 <= y < height ==> r.at(x, y) == fill,
    {
        proof {
            lemma_mul_bound(width as int, height as int, 100_000);
        }
        let n: usize = width * height;
        let mut data: Vec<u32> = Vec::new();
        let mut i: usize = 0;
        while i < n
            invariant
                i <= n,
                data.len() == i,
                forall|k2: int| 0 <= k2 < i ==> data[k2] == fill,
            decreases n - i,
        {
            data.push(fill);
            i = i + 1;
        }
        let r = CountGrid { width, height, data };
        proof {
            assert forall|x: int, y: int|
                0 <= x < width && 0 <= y < height implies r.at(x, y) == fill by {
                crate::cpu::lemma_row_major(x, y, width as int, height as int);
            }
        }
        r
    }

    /// Read the cell for pixel `(x, y)`.
    pub fn get(&self, x: usize, y: usize) -> (r: u32)
        requires
            self.wf(),
            x < self.width,
            y < self.height,
        ensures
            r == self.at(x as int, y as int),
    {
        proof {
            crate::cpu::lemma_row_major(x as int, y as int, self.width as int, self.height as int);
            lemma_mul_bound(self.width as int, self.height as int, 100_000);
        }
        let idx: usize = y * self.width + x;
        self.data[idx]
    }

    /// Overwrite the cell for pixel `(x, y)`; every other cell is kept.
    pub fn set_cell(&mut self, x: usize, y: usize, v: u32)
        requires
            old(self).wf(),
            x < old(self).width,
            y < old(self).height,
        ensures
            final(self).wf(),
            final(self).width == old(self).width,
            final(self).height == old(self).height,
            final(self).at(x as int, y as int) == v,
            forall|xx: int, yy: int|
                0 <= xx < old(self).width && 0 <= yy < old(self).height && !(xx == x && yy == y)
                    ==> final(self).at(xx, yy) == old(self).at(xx, yy),
    {
        proof {
            crate::cpu::lemma_row_major(x as int, y as int, self.width as int, self.height as int);
            lemma_mul_bound(self.width as int, self.height as int, 100_000);
        }
        let idx: usize = y * self.width + x;
        self.data.set(idx, v);
        proof {
            assert forall|xx: int, yy: int|
                0 <= xx < old(self).width && 0 <= yy < old(self).height && !(xx == x && yy == y)
                    implies self.at(xx, yy) == old(self).at(xx, yy) by {
                crate::cpu::lemma_row_major(xx, yy, old(self).width as int, old(self).height as int);
                if yy * old(self).width + xx == y * old(self).width + x {
                    crate::cpu::lemma_row_major_inj(xx, yy, x as int, y as int, old(self).width as int);
                }
            }
        }
    }
}

/// Host-side model of one kernel dispatch: fill `data` with the count the
/// kernel computes for every pixel of the viewport. Every cell is
/// overwritten, whatever it held before.
#[verifier::loop_isolation(false)]
pub fn device_sample_area(vp: &Viewport, super_samples: u32, max_iter: u32, data: &mut CountGrid)
    requires
        vp.wf(),
        1 <= super_samples <= 1000,
        old(data).wf(),
        old(data).width == vp.width,
        old(data).height == vp.height,
    ensures
        final(data).wf(),
        final(data).width == vp.width,
        final(data).height == vp.height,
        forall|x: int, y: int|
            0 <= x < vp.width && 0 <= y < vp.height ==> final(data).at(x, y) == device_pixel(
                *vp,
                super_samples as int,
                max_iter as nat,
                x,
                y,
            ),
{
    let ghost s = vp.scale.raw as int;
    let ghost w = vp.width as int;
    let ghost h = vp.height as int;
    let ghost ssn = super_samples as int;
    let ghost maxn = max_iter as nat;
    let ghost g = 1_000_000_000int;

    let width = vp.width;
    let height = vp.height;
    let half_raw: i64 = ((vp.scale.raw as u64) / 2) as i64;
    let start_re: i64 = vp.centre.re.raw - half_raw;
    proof {
        lemma_mul_bound(s, h, 1_000_000_000);
        lemma_mul_basics(h);
        lemma_mul_inequality(0, s, h);
    }
    let sim: u64 = ((vp.scale.raw as u64) * (height as u64)) / (width as u64);
    proof {
        lemma_div_pos_is_pos(s * h, w);
        lemma_div_is_ordered(s * h, g * w, w);
        lemma_div_multiples_vanish(g, w);
        assert(0 <= vp.spec_scale_im() <= g);
        assert(sim as int == vp.spec_scale_im());
    }
    let start_im: i64 = vp.centre.im.raw - ((sim / 2) as i64);
    let dnum: u64 = if width >= 2 {
        (width - 1) as u64
    } else {
        1u64
    };
    let delta: i64 = ((vp.scale.raw as u64) / dnum) as i64;
    let ghost d = vp.spec_delta();
    proof {
        assert(delta as int == d);
        lemma_div_pos_is_pos(s, dnum as int);
        lemma_trunc_div_bound(s, dnum as int, s);
        assert(0 <= d <= s);
        lemma_fundamental_div_mod(s, dnum as int);
        lemma_mod_division_less_than_divisor(s, dnum as int);
        assert((dnum as int) * d <= s);
        lemma_mul_basics(d);
        if width >= 2 {
            assert((w - 1) * d <= s);
            crate::cpu::lemma_mul_shuffle(d, h - 1, w - 1);
            lemma_mul_inequality((w - 1) * d, s, h - 1);
            assert((d * (h - 1)) * (w - 1) <= s * (h - 1));
            lemma_mul_inequality(h - 1, h, s);
            assert(s * (h - 1) <= s * h);
            assert(s * h <= g * w);
            assert(g * w <= (2 * g) * (w - 1));
            assert((d * (h - 1)) * (w - 1) <= (2 * g) * (w - 1));
            crate::cpu::lemma_le_cancel(d * (h - 1), 2 * g, w - 1);
        } else {
            assert((w - 1) * d == 0);
            assert(d == s);
            lemma_mul_inequality(h - 1, h, s);
            assert(d * (h - 1) <= s * h);
            assert(s * h <= g * w);
            assert(d * (h - 1) <= 2 * g);
        }
        lemma_mul_inequality(0, h - 1, d);
        assert(0 <= d * (h - 1) <= 2 * g);
    }
    let two_ss: u64 = (2 * super_samples) as u64;
    let eps: i64 = ((delta as u64) / two_ss) as i64;
    let ghost e = vp.spec_epsilon(ssn);
    proof {
        assert(eps as int == e);
        lemma_div_pos_is_pos(d, 2 * ssn);
        lemma_fundamental_div_mod(d, 2 * ssn);
        lemma_mod_division_less_than_divisor(d, 2 * ssn);
        assert((2 * ssn) * e <= d);
        crate::cpu::lemma_two_factors(e, ssn);
        assert(2 * (e * ssn) <= d);
        lemma_div_is_ordered(2 * (e * ssn), d, 2);
        lemma_div_multiples_vanish(e * ssn, 2);
        assert(e * ssn <= d / 2);
        lemma_mul_inequality(ssn - 1, ssn, e);
        lemma_mul_inequality(0, ssn - 1, e);
        lemma_mul_basics(e);
        assert(e * (ssn - 1) == (ssn - 1) * e) by (nonlinear_arith);
        assert(e * ssn == ssn * e) by (nonlinear_arith);
        lemma_div_is_ordered(d, s, 2);
        lemma_div_is_ordered(s, 1_000_000_000, 2);
        assert(0 <= e * (ssn - 1) <= 500_000_000);
    }
    let mut y: usize = 0;
    while y < height
        invariant
            y <= height,
            data.wf(),
            data.width == vp.width,
            data.height == vp.height,
            forall|xx: int, yy: int|
                0 <= xx < w && 0 <= yy < y ==> data.at(xx, yy) == device_pixel(
                    *vp,
                    ssn,
                    maxn,
                    xx,
                    yy,
                ),
        decreases height - y,
    {
        proof {
            lemma_mul_inequality(y as int, h - 1, d);
            lemma_mul_inequality(0, y as int, d);
            lemma_mul_basics(d);
            assert(d * (y as int) == (y as int) * d) by (nonlinear_arith);
            assert(d * (h - 1) == (h - 1) * d) by (nonlinear_arith);
            assert(0 <= d * (y as int) <= d * (h - 1));
        }
        let py: i64 = start_im + delta * (y as i64);
        let mut x: usize = 0;
        while x < width
            invariant
                x <= width,
                y < height,
                py as int == vp.spec_start_im() + d * (y as int),
                -3_500_000_000 <= py <= 3_500_000_000,
                data.wf(),
                data.width == vp.width,
                data.height == vp.height,
                forall|xx: int, yy: int|
                    0 <= xx < w && 0 <= yy < y ==> data.at(xx, yy) == device_pixel(
                        *vp,
                        ssn,
                        maxn,
                        xx,
                        yy,
                    ),
                forall|xx: int|
                    0 <= xx < x ==> data.at(xx, y as int) == device_pixel(
                        *vp,
                        ssn,
                        maxn,
                        xx,
                        y as int,
                    ),
            decreases width - x,
        {
            proof {
                lemma_mul_inequality(x as int, w - 1, d);
                lemma_mul_inequality(0, x as int, d);
                lemma_mul_basics(d);
                assert(d * (x as int) == (x as int) * d) by (nonlinear_arith);
                assert(0 <= d * (x as int) <= (w - 1) * d);
            }
            let px: i64 = start_re + delta * (x as i64);
            let c = Complex::new(Fixed::from_raw(px), Fixed::from_raw(py));
            proof {
                assert(within(px as int, py as int, COORD_LIMIT as int));
                assert(within(
                    px as int - e * (ssn - 1),
                    py as int - e * (ssn - 1),
                    COORD_LIMIT as int,
                ));
            }
            let v: u32 = device_multi_sample(c, max_iter, super_samples, Fixed::from_raw(eps));
            proof {
                assert(px as int == vp.spec_point(x as int, y as int).0);
                assert(py as int == vp.spec_point(x as int, y as int).1);
                assert(v as int == device_pixel(*vp, ssn, maxn, x as int, y as int));
            }
            data.set_cell(x, y, v);
            x = x + 1;
        }
        y = y + 1;
    }
}


} // verus!
