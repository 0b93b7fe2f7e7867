use vstd::prelude::*;

use crate::fixed::Fixed;

verus! {

use crate::cpu::ScalarGrid;
use crate::cpu::lemma_mul_succ;
use crate::cpu::lemma_row_major;
use crate::cpu::lemma_row_major_inj;
use crate::fixed::lemma_mul_bound;
use crate::fixed::mul_div_trunc;
use crate::fixed::trunc_div;
use crate::viewport::resolution_ok;
use vstd::arithmetic::div_mod::lemma_div_is_ordered;
use vstd::arithmetic::div_mod::lemma_div_multiples_vanish;
use vstd::arithmetic::div_mod::lemma_div_pos_is_pos;
use vstd::arithmetic::div_mod::lemma_fundamental_div_mod;
use vstd::arithmetic::div_mod::lemma_mod_division_less_than_divisor;
use vstd::arithmetic::mul::lemma_mul_basics;
use vstd::arithmetic::mul::lemma_mul_inequality;

/// One 8-bit RGB colour.
#[derive(Clone, Copy, PartialEq, Eq, Structural, Debug)]
pub struct Rgb {
    pub r: u8,
    pub g: u8,
    pub b: u8,
}

/// An ordered run of colour stops spread uniformly over the unit
/// interval, interpolated linearly in between.
#[derive(Debug)]
pub struct Gradient {
    pub stops: Vec<Rgb>,
}

impl Gradient {
    pub open spec fn wf(self) -> bool {
        2 <= self.stops.len() <= 16
    }

    /// The chart the renderer uses by default: dark blue through red to
    /// pale yellow.
    pub fn default_chart() -> (r: Gradient)
        ensures
            r.wf(),
            r.stops.len() == 3,
            r.stops[0] == (Rgb { r: 0, g: 13, b: 51 }),
            r.stops[1] == (Rgb { r: 179, g: 26, b: 51 }),
            r.stops[2] == (Rgb { r: 242, g: 230, b: 77 }),
    {
        let mut stops: Vec<Rgb> = Vec::new();
        stops.push(Rgb { r: 0, g: 13, b: 51 });
        stops.push(Rgb { r: 179, g: 26, b: 51 });
        stops.push(Rgb { r: 242, g: 230, b: 77 });
        Gradient { stops }
    }
}

/// `v` held into the interval `[0, hi]`.
pub open spec fn clamp(v: int, hi: int) -> int {
    if v < 0 {
        0
    } else if v > hi {
        hi
    } else {
        v
    }
}

/// One channel linearly interpolated from `lo` towards `hi` by the
/// fraction `num / den`, rounded toward zero.
pub open spec fn lerp_channel(lo: int, hi: int, num: int, den: int) -> int {
    lo + trunc_div((hi - lo) * num, den)
}

/// Index of the gradient segment a position falls in: the whole part of
/// `pos / den`, held to the last segment.
pub open spec fn segment_of(pos: int, den: int, n: int) -> int {
    if pos / den > n - 2 {
        n - 2
    } else {
        pos / den
    }
}

/// Colour channels for the scalar `v` under the raw cap `den` over the
/// stops `st`: `v` is clamped into `[0, den]`, placed along the run of
/// `st.len() - 1` segments, and the two stops around it interpolated.
pub open spec fn color_at(st: Seq<Rgb>, v: int, den: int) -> (int, int, int) {
    let n = st.len() as int;
    let pos = clamp(v, den) * (n - 1);
    let k = segment_of(pos, den, n);
    let fnum = pos - k * den;
    (
        lerp_channel(st[k].r as int, st[k + 1].r as int, fnum, den),
        lerp_channel(st[k].g as int, st[k + 1].g as int, fnum, den),
        lerp_channel(st[k].b as int, st[k + 1].b as int, fnum, den),
    )
}

proof fn lemma_lerp_bounds(lo: int, hi: int, num: int, den: int)
    requires
        0 <= lo <= 255,
        0 <= hi <= 255,
        0 <= num <= den,
        1 <= den,
    ensures
        (if lo <= hi {
            lo
        } else {
            hi
        }) <= lerp_channel(lo, hi, num, den) <= (if lo <= hi {
            hi
        } else {
            lo
        }),
{
    lemma_mul_basics(hi - lo);
    if hi >= lo {
        lemma_mul_inequality(0, num, hi - lo);
        lemma_div_pos_is_pos((hi - lo) * num, den);
        lemma_mul_inequality(num, den, hi - lo);
        lemma_div_is_ordered((hi - lo) * num, (hi - lo) * den, den);
        lemma_div_multiples_vanish(hi - lo, den);
    } else {
        lemma_mul_inequality(0, num, lo - hi);
        lemma_div_pos_is_pos((lo - hi) * num, den);
        lemma_mul_inequality(num, den, lo - hi);
        lemma_div_is_ordered((lo - hi) * num, (lo - hi) * den, den);
        lemma_div_multiples_vanish(lo - hi, den);
        assert((lo - hi) * num == -((hi - lo) * num)) by (nonlinear_arith);
    }
}

/// One channel of a colour lookup, as executable code.
fn lerp_channel_exec(lo: u8, hi: u8, num: i64, den: i64) -> (r: u8)
    requires
        1 <= den <= 5_000_000_000_000_000,
        0 <= num <= den,
    ensures
        r as int == lerp_channel(lo as int, hi as int, num as int, den as int),
{
    let diff: i64 = (hi as i64) - (lo as i64);
    proof {
        lemma_lerp_bounds(lo as int, hi as int, num as int, den as int);
        assert(-(255 * den) <= diff * num <= 255 * den) by (nonlinear_arith)
            requires
                -255 <= diff <= 255,
                0 <= num <= den,
                den >= 1,
        ;
        crate::fixed::lemma_trunc_div_bound(
            diff as int * num as int,
            den as int,
            255 * (den as int),
        );
    }
    let t: i64 = mul_div_trunc(diff, num, den);
    ((lo as i64) + t) as u8
}

/// Row-major grid of 8-bit colours, one cell per pixel.
#[derive(Debug)]
pub struct ColorGrid {
    pub width: usize,
    pub height: usize,
    pub data: Vec<Rgb>,
}

impl ColorGrid {
    pub open spec fn wf(self) -> bool {
        self.data.len() == self.width * self.height && resolution_ok(
            self.width as int,
            self.height as int,
        )
    }

    /// Colour held for pixel `(x, y)`.
    pub open spec fn at(self, x: int, y: int) -> Rgb {
        self.data[y * self.width + x]
    }

    /// A grid of the given size with every cell holding `fill`.
    pub fn new(width: usize, height: usize, fill: Rgb) -> (r: ColorGrid)
        requires
            resolution_ok(width as int, height as int),
        ensures
            r.wf(),
            r.width == width,
            r.height == height,
            forall|x: int, y: int| 0 <= x < width && 0 <= y < height ==> r.at(x, y) == fill,
    {
        proof {
            lemma_mul_bound(width as int, height as int, 100_000);
        }
        let n: usize = width * height;
        let mut data: Vec<Rgb> = Vec::new();
        let mut i: usize = 0;
        while i < n
            invariant
                i <= n,
                data.len() == i,
                forall|k: int| 0 <= k < i ==> data[k] == fill,
            decreases n - i,
        {
            data.push(fill);
            i = i + 1;
        }
        let r = ColorGrid { width, height, data };
        proof {
            assert forall|x: int, y: int|
                0 <= x < width && 0 <= y < height implies r.at(x, y) == fill by {
                lemma_row_major(x, y, width as int, height as int);
            }
        }
        r
    }

    /// Read the cell for pixel `(x, y)`.
    pub fn get(&self, x: usize, y: usize) -> (r: Rgb)
        requires
            self.wf(),
            x < self.width,
            y < self.height,
        ensures
            r == self.at(x as int, y as int),
    {
        proof {
            lemma_row_major(x as int, y as int, self.width as int, self.height as int);
            lemma_mul_bound(self.width as int, self.height as int, 100_000);
        }
        let idx: usize = y * self.width + x;
        self.data[idx]
    }

    /// Overwrite the cell for pixel `(x, y)`; every other cell is kept.
    pub fn set_cell(&mut self, x: usize, y: usize, v: Rgb)
        requires
            old(self).wf(),
            x < old(self).width,
            y < old(self).height,
        ensures
            final(self).wf(),
            final(self).width == old(self).width,
            final(self).height == old(self).height,
            final(self).at(x as int, y as int) == v,
            forall|xx: int, yy: int|
                0 <= xx < old(self).width && 0 <= yy < old(self).height && !(xx == x && yy == y)
                    ==> final(self).at(xx, yy) == old(self).at(xx, yy),
    {
        proof {
            lemma_row_major(x as int, y as int, self.width as int, self.height as int);
            lemma_mul_bound(self.width as int, self.height as int, 100_000);
        }
        let idx: usize = y * self.width + x;
        self.data.set(idx, v);
        proof {
            assert forall|xx: int, yy: int|
                0 <= xx < old(self).width && 0 <= yy < old(self).height && !(xx == x && yy == y)
                    implies self.at(xx, yy) == old(self).at(xx, yy) by {
                lemma_row_major(xx, yy, old(self).width as int, old(self).height as int);
                if yy * old(self).width + xx == y * old(self).width + x {
                    lemma_row_major_inj(xx, yy, x as int, y as int, old(self).width as int);
                }
            }
        }
    }
}

/// Colour for one raw scalar value under the cap `max_iter`.
fn color_cell(v: Fixed, max_iter: u32, cmap: &Gradient) -> (r: Rgb)
    requires
        cmap.wf(),
        1 <= max_iter,
    ensures
        (r.r as int, r.g as int, r.b as int) == color_at(
            cmap.stops@,
            v.raw as int,
            (max_iter as int) * 1_000_000,
        ),
{
    let den: i64 = (max_iter as i64) * 1_000_000;
    let cv: i64 = if v.raw < 0 {
        0
    } else if v.raw > den {
        den
    } else {
        v.raw
    };
    let n: usize = cmap.stops.len();
    let nm1: i64 = (n as i64) - 1;
    proof {
        assert(cv * nm1 == nm1 * cv) by (nonlinear_arith);
        lemma_mul_inequality(nm1 as int, 15, cv as int);
        lemma_mul_inequality(0, nm1 as int, cv as int);
        lemma_mul_basics(cv as int);
    }
    let pos: i64 = cv * nm1;
    let ghost deni = den as int;
    let ghost ni = n as int;
    proof {
        lemma_div_pos_is_pos(pos as int, deni);
        lemma_fundamental_div_mod(pos as int, deni);
        lemma_mod_division_less_than_divisor(pos as int, deni);
        assert(cv as int * (ni - 1) <= deni * (ni - 1)) by (nonlinear_arith)
            requires
                0 <= cv as int <= deni,
                0 <= ni - 1,
        ;
        lemma_div_is_ordered(pos as int, deni * (ni - 1), deni);
        lemma_div_multiples_vanish(ni - 1, deni);
        assert(0 <= (pos as int) / deni <= ni - 1);
    }
    let q: i64 = ((pos as u64) / (den as u64)) as i64;
    let k: usize = if q > (n as i64) - 2 {
        n - 2
    } else {
        q as usize
    };
    let ghost ki = k as int;
    proof {
        assert(ki == segment_of(pos as int, deni, ni));
        if (pos as int) / deni > ni - 2 {
            assert((pos as int) / deni == ni - 1);
            assert(pos as int >= deni * (ni - 1));
            assert(pos as int <= deni * (ni - 1));
            lemma_mul_succ(ni - 2, deni);
            assert((ni - 1) * deni == (ni - 2) * deni + deni);
            assert(deni * (ni - 1) == (ni - 1) * deni) by (nonlinear_arith);
            assert((ni - 2) * deni == deni * (ni - 2)) by (nonlinear_arith);
            assert(pos as int - ki * deni == deni);
        } else {
            assert(ki * deni == deni * ki) by (nonlinear_arith);
            assert(0 <= pos as int - ki * deni < deni);
        }
        assert(0 <= pos as int - ki * deni <= deni);
        lemma_mul_bound(ki, deni, 5_000_000_000_000_000);
    }
    let fnum: i64 = pos - (k as i64) * den;
    let lo = cmap.stops[k];
    let hi = cmap.stops[k + 1];
    Rgb {
        r: lerp_channel_exec(lo.r, hi.r, fnum, den),
        g: lerp_channel_exec(lo.g, hi.g, fnum, den),
        b: lerp_channel_exec(lo.b, hi.b, fnum, den),
    }
}

/// Map every cell of a scalar buffer to a colour: normalise by the
/// iteration cap that produced it, clamp into the unit interval, and
/// interpolate the two nearest gradient stops. Every cell of `cols` is
/// overwritten.
#[verifier::loop_isolation(false)]
pub fn data_to_cols(data: &ScalarGrid, max_iter: u32, cmap: &Gradient, cols: &mut ColorGrid)
    requires
        data.wf(),
        cmap.wf(),
        1 <= max_iter,
        old(cols).wf(),
        old(cols).width == data.width,
        old(cols).height == data.height,
    ensures
        final(cols).wf(),
        final(cols).width == data.width,
        final(cols).height == data.height,
        forall|x: int, y: int|
            0 <= x < data.width && 0 <= y < data.height ==> {
                let c = #[trigger] final(cols).at(x, y);
                (c.r as int, c.g as int, c.b as int) == color_at(
                    cmap.stops@,
                    data.at(x, y),
                    (max_iter as int) * 1_000_000,
                )
            },
{
    let width = data.width;
    let height = data.height;
    let mut y: usize = 0;
    while y < height
        invariant
            y <= height,
            cols.wf(),
            cols.width == data.width,
            cols.height == data.height,
            forall|xx: int, yy: int|
                0 <= xx < width && 0 <= yy < y ==> {
                    let c = #[trigger] cols.at(xx, yy);
                    (c.r as int, c.g as int, c.b as int) == color_at(
                        cmap.stops@,
                        data.at(xx, yy),
                        (max_iter as int) * 1_000_000,
                    )
                },
        decreases height - y,
    {
        let mut x: usize = 0;
        while x < width
            invariant
                x <= width,
                y < height,
                cols.wf(),
                cols.width == data.width,
                cols.height == data.height,
                forall|xx: int, yy: int|
                    0 <= xx < width && 0 <= yy < y ==> {
                        let c = #[trigger] cols.at(xx, yy);
                        (c.r as int, c.g as int, c.b as int) == color_at(
                            cmap.stops@,
                            data.at(xx, yy),
                            (max_iter as int) * 1_000_000,
                        )
                    },
                forall|xx: int|
                    0 <= xx < x ==> {
                        let c = #[trigger] cols.at(xx, y as int);
                        (c.r as int, c.g as int, c.b as int) == color_at(
                            cmap.stops@,
                            data.at(xx, y as int),
                            (max_iter as int) * 1_000_000,
                        )
                    },
            decreases width - x,
        {
            let v = data.get(x, y);
            let c = color_cell(v, max_iter, cmap);
            cols.set_cell(x, y, c);
            x = x + 1;
        }
        y = y + 1;
    }
}

} // verus!
