use vstd::prelude::*;

use crate::complex::Complex;
use crate::fixed::Fixed;

verus! {

use crate::color::ColorGrid;
use crate::color::Gradient;
use crate::color::Rgb;
use crate::color::color_at;
use crate::color::data_to_cols;
use crate::cpu::ScalarGrid;
use crate::cpu::pixel_value;
use crate::cpu::sample_area;
use crate::fixed::lemma_mul_raw_bound;
use crate::fixed::mul_raw;
use crate::viewport::RenderError;
use crate::viewport::Viewport;
use crate::viewport::aspect_ok;
use crate::viewport::centre_ok;
use crate::viewport::resolution_ok;
use crate::viewport::scale_ok;

/// Parameters of one frame of a zoom sequence.
#[derive(Clone, Copy, PartialEq, Eq, Structural, Debug)]
pub struct FrameParams {
    pub scale: Fixed,
    pub max_iter: u32,
}

/// Raw scale of frame `n`: the starting scale multiplied by the rate once
/// per earlier frame, truncating after each multiply.
pub open spec fn zoom_scale(s0: int, rate: int, n: nat) -> int
    decreases n,
{
    if n == 0 {
        s0
    } else {
        mul_raw(zoom_scale(s0, rate, (n - 1) as nat), rate)
    }
}

/// Plan of a zoom sequence: frame `n` uses the scale reached before that
/// frame's multiply, and an iteration cap raised by one per frame. A rate
/// below one unit zooms in, above one unit zooms out. The plan is refused
/// where some frame's scale would leave the supported span.
#[verifier::loop_isolation(false)]
pub fn render_plan(scale0: Fixed, rate: Fixed, frames: usize, max_iter: u32) -> (r: Result<
    Vec<FrameParams>,
    RenderError,
>)
    requires
        1 <= scale0.raw <= 1_000_000_000,
        0 <= rate.raw <= 1_000_000_000_000,
        frames <= 100_000,
        max_iter + frames <= u32::MAX,
    ensures
        match r {
            Ok(plan) => {
                &&& plan.len() == frames
                &&& forall|n: int|
                    0 <= n < frames ==> (#[trigger] plan[n]).scale.raw == zoom_scale(
                        scale0.raw as int,
                        rate.raw as int,
                        n as nat,
                    )
                &&& forall|n: int|
                    0 <= n < frames ==> (#[trigger] plan[n]).max_iter == max_iter + n
                &&& forall|n: int|
                    0 <= n < frames ==> 1 <= (#[trigger] plan[n]).scale.raw <= 1_000_000_000
            },
            Err(e) => {
                &&& e == RenderError::BadZoom
                &&& exists|n: int|
                    0 <= n < frames && !(1 <= #[trigger] zoom_scale(
                        scale0.raw as int,
                        rate.raw as int,
                        n as nat,
                    ) <= 1_000_000_000)
            },
        },
{
    let ghost s0 = scale0.raw as int;
    let ghost ra = rate.raw as int;
    let mut plan: Vec<FrameParams> = Vec::new();
    let mut scale = scale0;
    let mut n: usize = 0;
    while n < frames
        invariant
            n <= frames,
            plan.len() == n,
            n < frames ==> scale.raw == zoom_scale(s0, ra, n as nat),
            n < frames ==> 1 <= scale.raw <= 1_000_000_000,
            forall|m: int|
                0 <= m < n ==> (#[trigger] plan[m]).scale.raw == zoom_scale(s0, ra, m as nat),
            forall|m: int| 0 <= m < n ==> (#[trigger] plan[m]).max_iter == max_iter + m,
            forall|m: int| 0 <= m < n ==> 1 <= (#[trigger] plan[m]).scale.raw <= 1_000_000_000,
        decreases frames - n,
    {
        plan.push(FrameParams { scale, max_iter: max_iter + (n as u32) });
        proof {
            lemma_mul_raw_bound(scale.raw as int, rate.raw as int, 1_000_000_000_000);
        }
        let next = scale.mul(rate);
        if n + 1 < frames && (next.raw < 1 || next.raw > 1_000_000_000) {
            proof {
                assert(next.raw == zoom_scale(s0, ra, (n + 1) as nat));
                assert(0 <= n + 1 < frames && !(1 <= zoom_scale(s0, ra, (n + 1) as nat)
                    <= 1_000_000_000));
            }
            return Err(RenderError::BadZoom);
        }
        if n + 1 < frames {
            scale = next;
        }
        n = n + 1;
    }
    Ok(plan)
}

/// Reusable buffers of the render pipeline: the scalar field and the
/// colour raster, sized once and overwritten each frame.
#[derive(Debug)]
pub struct Workspace {
    pub data: ScalarGrid,
    pub cols: ColorGrid,
}

impl Workspace {
    pub open spec fn wf(self) -> bool {
        self.data.wf() && self.cols.wf() && self.data.width == self.cols.width
            && self.data.height == self.cols.height
    }

    /// Buffers for one resolution, zeroed.
    pub fn new(width: usize, height: usize) -> (r: Workspace)
        requires
            resolution_ok(width as int, height as int),
        ensures
            r.wf(),
            r.data.width == width,
            r.data.height == height,
    {
        Workspace {
            data: ScalarGrid::new(width, height, Fixed { raw: 0 }),
            cols: ColorGrid::new(width, height, Rgb { r: 0, g: 0, b: 0 }),
        }
    }
}

/// Render one frame into the workspace: fill the scalar buffer over the
/// viewport, then map every cell to a colour. Both buffers are fully
/// overwritten; nothing of an earlier frame survives.
pub fn render_frame(
    vp: &Viewport,
    super_samples: u32,
    max_iter: u32,
    cmap: &Gradient,
    ws: &mut Workspace,
)
    requires
        vp.wf(),
        1 <= super_samples <= 1000,
        1 <= max_iter,
        cmap.wf(),
        old(ws).wf(),
        old(ws).data.width == vp.width,
        old(ws).data.height == vp.height,
    ensures
        final(ws).wf(),
        final(ws).data.width == vp.width,
        final(ws).data.height == vp.height,
        forall|x: int, y: int|
            0 <= x < vp.width && 0 <= y < vp.height ==> final(ws).data.at(x, y) == pixel_value(
                *vp,
                super_samples as int,
                max_iter as nat,
                x,
                y,
            ),
        forall|x: int, y: int|
            0 <= x < vp.width && 0 <= y < vp.height ==> {
                let c = #[trigger] final(ws).cols.at(x, y);
                (c.r as int, c.g as int, c.b as int) == color_at(
                    cmap.stops@,
                    pixel_value(*vp, super_samples as int, max_iter as nat, x, y),
                    (max_iter as int) * 1_000_000,
                )
            },
{
    sample_area(vp, super_samples, max_iter, &mut ws.data);
    data_to_cols(&ws.data, max_iter, cmap, &mut ws.cols);
}

/// Colour raster for a single image: validate the request, then sample
/// the viewport and map it through the default chart. The checks run in a
/// fixed order: the viewport's own, then the super-sample count, then the
/// iteration cap; the first failing check names the error.
pub fn render_image_data(
    centre: Complex,
    scale: Fixed,
    width: usize,
    height: usize,
    super_samples: u32,
    max_iter: u32,
) -> (r: Result<ColorGrid, RenderError>)
    ensures
        match r {
            Ok(cols) => {
                &&& resolution_ok(width as int, height as int)
                &&& scale_ok(scale.raw as int)
                &&& centre_ok(centre.re.raw as int, centre.im.raw as int)
                &&& aspect_ok(scale.raw as int, width as int, height as int)
                &&& 1 <= super_samples <= 1000
                &&& 1 <= max_iter
                &&& cols.wf()
                &&& cols.width == width
                &&& cols.height == height
                &&& forall|x: int, y: int|
                    0 <= x < width && 0 <= y < height ==> {
                        let c = #[trigger] cols.at(x, y);
                        (c.r as int, c.g as int, c.b as int) == color_at(
                            seq![
                                Rgb { r: 0, g: 13, b: 51 },
                                Rgb { r: 179, g: 26, b: 51 },
                                Rgb { r: 242, g: 230, b: 77 },
                            ],
                            pixel_value(
                                (Viewport { centre, scale, width, height }),
                                super_samples as int,
                                max_iter as nat,
                                x,
                                y,
                            ),
                            (max_iter as int) * 1_000_000,
                        )
                    }
            },
            Err(e) => {
                &&& if !(resolution_ok(width as int, height as int) && scale_ok(scale.raw as int)
                    && centre_ok(centre.re.raw as int, centre.im.raw as int) && aspect_ok(
                    scale.raw as int,
                    width as int,
                    height as int,
                )) {
                    e == RenderError::BadResolution || e == RenderError::BadScale || e
                        == RenderError::BadCentre || e == RenderError::BadAspect
                } else if !(1 <= super_samples <= 1000) {
                    e == RenderError::BadSuperSamples
                } else {
                    max_iter < 1 && e == RenderError::BadIterationCap
                }
            },
        },
{
    let vp = match Viewport::new(centre, scale, width, height) {
        Ok(v) => v,
        Err(e) => { return Err(e) },
    };
    if super_samples < 1 || super_samples > 1000 {
        return Err(RenderError::BadSuperSamples);
    }
    if max_iter < 1 {
        return Err(RenderError::BadIterationCap);
    }
    let mut ws = Workspace::new(width, height);
    let cmap = Gradient::default_chart();
    render_frame(&vp, super_samples, max_iter, &cmap, &mut ws);
    proof {
        assert(cmap.stops@ =~= seq![
            Rgb { r: 0, g: 13, b: 51 },
            Rgb { r: 179, g: 26, b: 51 },
            Rgb { r: 242, g: 230, b: 77 },
        ]);
    }
    Ok(ws.cols)
}

} // verus!
