//! Escape-time rendering of the Mandelbrot set over fixed-point arithmetic.
//!
//! Every quantity of the complex plane is carried as a signed count of
//! millionths, so the whole sampling pipeline is exact integer arithmetic
//! and each stage carries a proved contract. The pipeline exists twice:
//! a host path with a fixed-point per-pixel mean, and a model of the
//! data-parallel kernel with the kernel's counting convention and integer
//! mean; how far the two may drift apart is itself proved.

use vstd::prelude::*;

pub mod color;
pub mod complex;
pub mod cpu;
pub mod fixed;
pub mod gpu;
pub mod render;
pub mod viewport;

verus! {

pub use crate::color::ColorGrid;
pub use crate::color::Gradient;
pub use crate::color::Rgb;
pub use crate::complex::Complex;
pub use crate::cpu::ScalarGrid;
pub use crate::fixed::Fixed;
pub use crate::gpu::CountGrid;
pub use crate::render::FrameParams;
pub use crate::render::Workspace;
pub use crate::viewport::RenderError;
pub use crate::viewport::Viewport;

} // verus!
