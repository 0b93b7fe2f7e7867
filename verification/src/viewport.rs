use vstd::prelude::*;

use crate::complex::Complex;
use crate::fixed::Fixed;

verus! {

use crate::complex::within;

/// Largest pixel count per axis.
pub const MAX_DIM: usize = 100_000;

/// Largest raw scale: a real-axis span of 1000 units.
pub const MAX_SCALE_RAW: i64 = 1_000_000_000;

/// Largest raw centre component magnitude: 1000 units.
pub const MAX_CENTRE_RAW: i64 = 1_000_000_000;

/// Why a render request was refused.
#[derive(Clone, Copy, PartialEq, Eq, Structural, Debug)]
pub enum RenderError {
    /// A resolution axis is zero, an axis exceeds the largest supported
    /// size, or the pixel count overall does.
    BadResolution,
    /// The scale is not positive or exceeds the largest supported span.
    BadScale,
    /// The centre lies outside the supported region of the plane.
    BadCentre,
    /// The derived imaginary-axis span exceeds the largest supported span.
    BadAspect,
    /// The super-sample count is zero or exceeds the supported maximum.
    BadSuperSamples,
    /// The iteration cap is zero, or a zoom sequence would push it past
    /// the largest representable cap.
    BadIterationCap,
    /// A zoom sequence drives the scale outside the supported span.
    BadZoom,
}

pub open spec fn resolution_ok(w: int, h: int) -> bool {
    1 <= w <= 100_000 && 1 <= h <= 100_000 && w * h <= 100_000_000
}

pub open spec fn scale_ok(s: int) -> bool {
    1 <= s <= MAX_SCALE_RAW as int
}

pub open spec fn centre_ok(re: int, im: int) -> bool {
    within(re, im, MAX_CENTRE_RAW as int)
}

/// The imaginary-axis span, `scale * h / w`, stays within the scale limit.
pub open spec fn aspect_ok(s: int, w: int, h: int) -> bool {
    s * h <= MAX_SCALE_RAW as int * w
}

/// A validated rectangular window onto the complex plane: a centre, the
/// width of the sampled real-axis interval, and the pixel resolution. The
/// imaginary-axis span is always derived from these through the aspect
/// ratio, never stated on its own.
#[derive(Clone, Copy, PartialEq, Eq, Structural, Debug)]
pub struct Viewport {
    pub centre: Complex,
    pub scale: Fixed,
    pub width: usize,
    pub height: usize,
}

impl Viewport {
    pub open spec fn wf(self) -> bool {
        resolution_ok(self.width as int, self.height as int) && scale_ok(self.scale.raw as int)
            && centre_ok(self.centre.re.raw as int, self.centre.im.raw as int) && aspect_ok(
            self.scale.raw as int,
            self.width as int,
            self.height as int,
        )
    }

    /// Raw imaginary-axis span: the scale over the aspect ratio.
    pub open spec fn spec_scale_im(self) -> int {
        self.scale.raw * self.height / self.width as int
    }

    /// Raw pixel pitch: the scale over `width - 1`, with the denominator
    /// clamped to one for a single-pixel-wide grid.
    pub open spec fn spec_delta(self) -> int {
        (self.scale.raw as int) / (if self.width as int >= 2 {
            self.width as int - 1
        } else {
            1int
        })
    }

    /// Raw sub-pixel step for a super-sample count: half a sub-cell.
    pub open spec fn spec_epsilon(self, ss: int) -> int {
        self.spec_delta() / (2 * ss)
    }

    /// Raw real component of the top-left sampled point.
    pub open spec fn spec_start_re(self) -> int {
        self.centre.re.raw - self.scale.raw / 2
    }

    /// Raw imaginary component of the top-left sampled point.
    pub open spec fn spec_start_im(self) -> int {
        self.centre.im.raw - self.spec_scale_im() / 2
    }

    /// Raw components of the point sampled for pixel `(x, y)`.
    pub open spec fn spec_point(self, x: int, y: int) -> (int, int) {
        (self.spec_start_re() + self.spec_delta() * x, self.spec_start_im() + self.spec_delta() * y)
    }

    /// Validate a window. Checks run in a fixed order: resolution, scale,
    /// centre, aspect; the first failing check names the error.
    pub fn new(centre: Complex, scale: Fixed, width: usize, height: usize) -> (r: Result<
        Viewport,
        RenderError,
    >)
        ensures
            match r {
                Ok(vp) => vp == (Viewport { centre, scale, width, height }) && vp.wf(),
                Err(e) => {
                    &&& !(resolution_ok(width as int, height as int) && scale_ok(scale.raw as int)
                        && centre_ok(centre.re.raw as int, centre.im.raw as int) && aspect_ok(
                        scale.raw as int,
                        width as int,
                        height as int,
                    ))
                    &&& if !resolution_ok(width as int, height as int) {
                        e == RenderError::BadResolution
                    } else if !scale_ok(scale.raw as int) {
                        e == RenderError::BadScale
                    } else if !centre_ok(centre.re.raw as int, centre.im.raw as int) {
                        e == RenderError::BadCentre
                    } else {
                        e == RenderError::BadAspect
                    }
                },
            },
    {
        if width < 1 || height < 1 || width > MAX_DIM || height > MAX_DIM {
            return Err(RenderError::BadResolution);
        }
        proof {
            crate::fixed::lemma_mul_bound(width as int, height as int, 100_000);
        }
        if (width as u64) * (height as u64) > 100_000_000 {
            return Err(RenderError::BadResolution);
        }
        if scale.raw < 1 || scale.raw > MAX_SCALE_RAW {
            return Err(RenderError::BadScale);
        }
        if centre.re.raw < -MAX_CENTRE_RAW || centre.re.raw > MAX_CENTRE_RAW || centre.im.raw
            < -MAX_CENTRE_RAW || centre.im.raw > MAX_CENTRE_RAW {
            return Err(RenderError::BadCentre);
        }
        proof {
            crate::fixed::lemma_mul_bound(scale.raw as int, height as int, 1_000_000_000);
        }
        if scale.raw * (height as i64) > MAX_SCALE_RAW * (width as i64) {
            return Err(RenderError::BadAspect);
        }
        Ok(Viewport { centre, scale, width, height })
    }
}

} // verus!
