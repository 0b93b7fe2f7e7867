use mandelbrot::complex::Complex;
use mandelbrot::cpu::{multi_sample, sample};
use mandelbrot::fixed::Fixed;
use mandelbrot::gpu::device_sample;

const UNIT: i64 = 1_000_000;

fn c(re: i64, im: i64) -> Complex {
    Complex::new(Fixed::from_raw(re), Fixed::from_raw(im))
}

#[test]
fn whole_units_scale_the_raw_count_by_a_million() {
    assert_eq!(Fixed::from_int(3).raw, 3_000_000);
    assert_eq!(Fixed::from_int(-2).raw, -2_000_000);
}

#[test]
fn fixed_products_are_exact_where_the_decimals_allow() {
    let a = Fixed::from_raw(2_500_000);
    let b = Fixed::from_raw(-1_200_000);
    assert_eq!(a.mul(b).raw, -3_000_000);
    let p = Fixed::from_raw(1_500_000).mul(Fixed::from_raw(1_100_000));
    assert_eq!(p.raw, 1_650_000);
}

#[test]
fn fixed_product_truncates_toward_zero() {
    assert_eq!(Fixed::from_raw(1).mul(Fixed::from_raw(1)).raw, 0);
    assert_eq!(Fixed::from_raw(-1).mul(Fixed::from_raw(1)).raw, 0);
    assert_eq!(Fixed::from_raw(-999_999).mul(Fixed::from_raw(1_000_000)).raw, -999_999);
}

#[test]
fn complex_product_matches_the_algebra() {
    let p = c(1 * UNIT, 2 * UNIT).mul(c(3 * UNIT, 4 * UNIT));
    assert_eq!(p.re.raw, -5 * UNIT);
    assert_eq!(p.im.raw, 10 * UNIT);
}

#[test]
fn complex_sum_is_componentwise() {
    let s = c(1 * UNIT, -2 * UNIT).add(c(5 * UNIT, 7 * UNIT));
    assert_eq!(s.re.raw, 6 * UNIT);
    assert_eq!(s.im.raw, 5 * UNIT);
}

#[test]
fn scalar_multiply_takes_both_components_from_the_real_part() {
    let p = c(2 * UNIT, 3 * UNIT).mul_scalar(Fixed::from_raw(4 * UNIT));
    assert_eq!(p.re.raw, 8 * UNIT);
    assert_eq!(p.im.raw, 8 * UNIT);
}

#[test]
fn norm_of_a_three_four_triangle_is_five() {
    let z = c(3 * UNIT, 4 * UNIT);
    assert_eq!(z.norm_squared().raw, 25 * UNIT);
    assert_eq!(z.norm().raw, 5 * UNIT);
}

#[test]
fn points_outside_the_escape_radius_leave_at_once() {
    assert_eq!(sample(c(3 * UNIT, 0), 100), 0);
    assert_eq!(sample(c(0, -3 * UNIT), 1), 0);
    assert_eq!(sample(c(2 * UNIT, 2 * UNIT), 77), 0);
}

#[test]
fn the_origin_never_escapes() {
    assert_eq!(sample(c(0, 0), 0), 0);
    assert_eq!(sample(c(0, 0), 5), 5);
    assert_eq!(sample(c(0, 0), 50), 50);
}

#[test]
fn single_sample_supersampling_is_the_plain_escape_count() {
    let points = [c(0, 0), c(-500_000, 0), c(3 * UNIT, 0), c(350_000, 350_000)];
    for p in points {
        for eps in [0i64, 1, -250_000, 500_000] {
            let m = multi_sample(p, 40, 1, Fixed::from_raw(eps));
            assert_eq!(m.raw, (sample(p, 40) as i64) * UNIT);
        }
    }
}

#[test]
fn zero_spacing_grids_collapse_to_the_centre_value() {
    let points = [c(0, 0), c(-500_000, 0), c(3 * UNIT, 0)];
    for p in points {
        for ss in [2u32, 3, 4, 5] {
            let m = multi_sample(p, 30, ss, Fixed::from_raw(0));
            assert_eq!(m.raw, (sample(p, 30) as i64) * UNIT);
        }
    }
}

#[test]
fn device_count_is_one_above_the_host_count_for_escaping_points() {
    let p = c(3 * UNIT, 0);
    assert_eq!(sample(p, 100), 0);
    assert_eq!(device_sample(p, 100), 1);
    let q = c(1 * UNIT, 1 * UNIT);
    let h = sample(q, 100);
    let d = device_sample(q, 100);
    assert!(h < 100);
    assert_eq!(d, h + 1);
}

#[test]
fn device_count_equals_the_cap_where_the_host_reports_the_cap() {
    assert_eq!(device_sample(c(0, 0), 25), 25);
    assert_eq!(device_sample(c(-100_000, 100_000), 40), sample(c(-100_000, 100_000), 40));
}
