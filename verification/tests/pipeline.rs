use mandelbrot::color::{data_to_cols, ColorGrid, Gradient, Rgb};
use mandelbrot::complex::Complex;
use mandelbrot::cpu::{sample_area, ScalarGrid};
use mandelbrot::fixed::Fixed;
use mandelbrot::gpu::{device_sample_area, CountGrid};
use mandelbrot::render::{render_image_data, render_plan, render_frame, Workspace};
use mandelbrot::viewport::{RenderError, Viewport};

const UNIT: i64 = 1_000_000;

fn c(re: i64, im: i64) -> Complex {
    Complex::new(Fixed::from_raw(re), Fixed::from_raw(im))
}

#[test]
fn sample_area_overwrites_every_cell() {
    let vp = Viewport::new(c(-500_000, 0), Fixed::from_raw(3 * UNIT), 8, 5).unwrap();
    let sentinel = Fixed::from_raw(-777);
    let mut grid = ScalarGrid::new(8, 5, sentinel);
    sample_area(&vp, 2, 20, &mut grid);
    for y in 0..5 {
        for x in 0..8 {
            assert!(grid.get(x, y).raw >= 0);
            assert_ne!(grid.get(x, y).raw, -777);
        }
    }
}

#[test]
fn cpu_and_device_buffers_agree_within_one_unit() {
    let vp = Viewport::new(c(-500_000, 0), Fixed::from_raw(3 * UNIT), 24, 16).unwrap();
    let mut host = ScalarGrid::new(24, 16, Fixed::from_raw(0));
    let mut dev = CountGrid::new(24, 16, 0);
    sample_area(&vp, 2, 30, &mut host);
    device_sample_area(&vp, 2, 30, &mut dev);
    for y in 0..16 {
        for x in 0..24 {
            let hv = host.get(x, y).raw;
            let dv = (dev.get(x, y) as i64) * UNIT;
            assert!(hv - UNIT < dv, "device too small at ({x},{y}): {hv} vs {dv}");
            assert!(dv <= hv + UNIT, "device too large at ({x},{y}): {hv} vs {dv}");
        }
    }
}

#[test]
fn the_standard_viewport_is_black_at_the_centre_and_bright_at_the_rim() {
    let vp = Viewport::new(c(-500_000, 0), Fixed::from_raw(3 * UNIT), 100, 100).unwrap();
    let mut grid = ScalarGrid::new(100, 100, Fixed::from_raw(0));
    sample_area(&vp, 1, 50, &mut grid);
    assert_eq!(grid.get(50, 50).raw, 50 * UNIT);
    assert_eq!(grid.get(49, 50).raw, 50 * UNIT);
    assert!(grid.get(0, 0).raw < 10 * UNIT);
    assert!(grid.get(99, 0).raw < 10 * UNIT);
    assert!(grid.get(0, 99).raw < 10 * UNIT);
    assert!(grid.get(99, 99).raw < 10 * UNIT);
}

#[test]
fn a_single_pixel_wide_viewport_still_renders() {
    let vp = Viewport::new(c(0, 0), Fixed::from_raw(2 * UNIT), 1, 1).unwrap();
    let mut grid = ScalarGrid::new(1, 1, Fixed::from_raw(-1));
    sample_area(&vp, 1, 10, &mut grid);
    // The sole pixel is the corner of the window, the point (-1, -1),
    // which escapes at the third update.
    assert_eq!(grid.get(0, 0).raw, 2 * UNIT);
}

#[test]
fn zoom_plans_multiply_the_scale_and_raise_the_cap_each_frame() {
    let plan = render_plan(
        Fixed::from_raw(2 * UNIT),
        Fixed::from_raw(900_000),
        5,
        50,
    )
    .unwrap();
    let scales: Vec<i64> = plan.iter().map(|f| f.scale.raw).collect();
    assert_eq!(scales, vec![2_000_000, 1_800_000, 1_620_000, 1_458_000, 1_312_200]);
    let caps: Vec<u32> = plan.iter().map(|f| f.max_iter).collect();
    assert_eq!(caps, vec![50, 51, 52, 53, 54]);
}

#[test]
fn diverging_zoom_plans_are_refused() {
    let r = render_plan(
        Fixed::from_raw(1_000_000_000),
        Fixed::from_raw(2 * UNIT),
        3,
        10,
    );
    assert_eq!(r.unwrap_err(), RenderError::BadZoom);
}

#[test]
fn the_default_chart_runs_dark_blue_to_pale_yellow() {
    let g = Gradient::default_chart();
    assert_eq!(g.stops.len(), 3);
    assert_eq!(g.stops[0], Rgb { r: 0, g: 13, b: 51 });
    assert_eq!(g.stops[1], Rgb { r: 179, g: 26, b: 51 });
    assert_eq!(g.stops[2], Rgb { r: 242, g: 230, b: 77 });
}

#[test]
fn colour_mapping_hits_the_stops_exactly() {
    let mut data = ScalarGrid::new(3, 1, Fixed::from_raw(0));
    data.set_cell(0, 0, Fixed::from_raw(0));
    data.set_cell(1, 0, Fixed::from_raw(1_000_000));
    data.set_cell(2, 0, Fixed::from_raw(2_000_000));
    let mut cols = ColorGrid::new(3, 1, Rgb { r: 9, g: 9, b: 9 });
    data_to_cols(&data, 2, &Gradient::default_chart(), &mut cols);
    assert_eq!(cols.get(0, 0), Rgb { r: 0, g: 13, b: 51 });
    assert_eq!(cols.get(1, 0), Rgb { r: 179, g: 26, b: 51 });
    assert_eq!(cols.get(2, 0), Rgb { r: 242, g: 230, b: 77 });
}

#[test]
fn colour_mapping_interpolates_between_stops() {
    let mut data = ScalarGrid::new(1, 1, Fixed::from_raw(500_000));
    data.set_cell(0, 0, Fixed::from_raw(500_000));
    let mut cols = ColorGrid::new(1, 1, Rgb { r: 0, g: 0, b: 0 });
    data_to_cols(&data, 2, &Gradient::default_chart(), &mut cols);
    // Position one quarter: halfway into the first segment.
    assert_eq!(cols.get(0, 0), Rgb { r: 89, g: 19, b: 51 });
}

#[test]
fn colour_mapping_clamps_values_beyond_the_cap() {
    let mut data = ScalarGrid::new(2, 1, Fixed::from_raw(0));
    data.set_cell(0, 0, Fixed::from_raw(-3_000_000));
    data.set_cell(1, 0, Fixed::from_raw(99 * UNIT));
    let mut cols = ColorGrid::new(2, 1, Rgb { r: 0, g: 0, b: 0 });
    data_to_cols(&data, 2, &Gradient::default_chart(), &mut cols);
    assert_eq!(cols.get(0, 0), Rgb { r: 0, g: 13, b: 51 });
    assert_eq!(cols.get(1, 0), Rgb { r: 242, g: 230, b: 77 });
}

#[test]
fn render_image_data_colours_inside_and_outside_points() {
    let cols = render_image_data(c(-500_000, 0), Fixed::from_raw(3 * UNIT), 100, 100, 1, 50)
        .unwrap();
    assert_eq!(cols.width, 100);
    assert_eq!(cols.height, 100);
    // The centre pixel sits in the set: full intensity, the last stop.
    assert_eq!(cols.get(50, 50), Rgb { r: 242, g: 230, b: 77 });
    // The corner escapes immediately: zero intensity, the first stop.
    assert_eq!(cols.get(0, 0), Rgb { r: 0, g: 13, b: 51 });
}

#[test]
fn invalid_requests_name_the_first_failing_check() {
    let scale = Fixed::from_raw(3 * UNIT);
    let centre = c(-500_000, 0);
    assert_eq!(Viewport::new(centre, scale, 0, 10).unwrap_err(), RenderError::BadResolution);
    assert_eq!(
        Viewport::new(centre, Fixed::from_raw(0), 10, 10).unwrap_err(),
        RenderError::BadScale
    );
    assert_eq!(
        Viewport::new(c(2_000_000_000, 0), scale, 10, 10).unwrap_err(),
        RenderError::BadCentre
    );
    assert_eq!(
        Viewport::new(centre, Fixed::from_raw(1_000_000_000), 1, 2).unwrap_err(),
        RenderError::BadAspect
    );
    assert_eq!(
        render_image_data(centre, scale, 10, 10, 0, 50).unwrap_err(),
        RenderError::BadSuperSamples
    );
    assert_eq!(
        render_image_data(centre, scale, 10, 10, 1, 0).unwrap_err(),
        RenderError::BadIterationCap
    );
}

#[test]
fn workspaces_are_reused_across_frames() {
    let mut ws = Workspace::new(12, 12);
    let cmap = Gradient::default_chart();
    let plan = render_plan(Fixed::from_raw(2 * UNIT), Fixed::from_raw(900_000), 3, 20).unwrap();
    let mut last = Vec::new();
    for frame in plan.iter() {
        let vp = Viewport::new(c(-500_000, 0), frame.scale, 12, 12).unwrap();
        render_frame(&vp, 1, frame.max_iter, &cmap, &mut ws);
        let mut snapshot = Vec::new();
        for y in 0..12 {
            for x in 0..12 {
                snapshot.push(ws.data.get(x, y).raw);
            }
        }
        assert_ne!(Some(&snapshot), last.last());
        last.push(snapshot);
    }
    assert_eq!(last.len(), 3);
}
