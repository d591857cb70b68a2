use traj_simplify::metrics::{isqrt, ped, sed};
use traj_simplify::point::Point;

fn p(lat: i64, lon: i64, time: i64) -> Point {
    Point::new(lat, lon, time)
}

#[test]
fn isqrt_small_values() {
    assert_eq!(isqrt(0), 0);
    assert_eq!(isqrt(1), 1);
    assert_eq!(isqrt(2), 1);
    assert_eq!(isqrt(3), 1);
    assert_eq!(isqrt(4), 2);
    assert_eq!(isqrt(18), 4);
    assert_eq!(isqrt(99), 9);
    assert_eq!(isqrt(100), 10);
}

#[test]
fn isqrt_large_values() {
    assert_eq!(isqrt(1u128 << 40), 1u64 << 20);
    assert_eq!(isqrt((1u128 << 40) - 1), (1u64 << 20) - 1);
    assert_eq!(isqrt(0x3_FFFF_FFFF_FFFF_FFFF), 0x1_FFFF_FFFF);
}

#[test]
fn sed_collinear_is_zero() {
    // the middle sample sits exactly on the time-interpolated chord
    let s = p(0, 0, 0);
    let m = p(1, 1, 1);
    let e = p(2, 2, 2);
    assert_eq!(sed(&s, &m, &e), 0);
}

#[test]
fn sed_exact_deviation() {
    // chord stays at the origin; the middle sample is 3 lon units away
    let s = p(0, 0, 0);
    let m = p(0, 3, 1);
    let e = p(0, 0, 2);
    assert_eq!(sed(&s, &m, &e), 3);
}

#[test]
fn sed_truncating_interpolation() {
    // interpolated lat is 1 + floor(9 / 2) = 5, so the offset is (5-10, 5-10)
    let s = p(1, 1, 1);
    let m = p(10, 10, 2);
    let e = p(10, 10, 3);
    let d = sed(&s, &m, &e);
    // interpolation at ratio 1/2: (5, 5); distance to (10, 10) is isqrt(50) = 7
    assert_eq!(d, 7);
}

#[test]
fn sed_zero_time_span_falls_back_to_end() {
    // start and end share a timestamp: the ratio falls back to one, so the
    // deviation is simply the distance from the middle to the end sample
    let s = p(0, 0, 5);
    let m = p(3, 4, 5);
    let e = p(0, 0, 5);
    assert_eq!(sed(&s, &m, &e), 5);
}

#[test]
fn sed_zero_time_span_deterministic() {
    let s = p(7, -2, 100);
    let m = p(7, -2, 100);
    let e = p(7, -2, 100);
    assert_eq!(sed(&s, &m, &e), 0);
}

#[test]
fn ped_perpendicular_offset() {
    // chord from (0,0) to (0,10); the sample sits 5 lat units off the line
    let s = p(0, 0, 0);
    let m = p(5, 3, 1);
    let e = p(0, 10, 2);
    assert_eq!(ped(&s, &m, &e), 5);
}

#[test]
fn ped_degenerate_line_is_zero() {
    // coincident chord endpoints: defined fallback of zero, no division
    let s = p(4, 4, 0);
    let m = p(9, 9, 1);
    let e = p(4, 4, 2);
    assert_eq!(ped(&s, &m, &e), 0);
}

#[test]
fn ped_point_on_line_is_zero() {
    let s = p(0, 0, 0);
    let m = p(5, 5, 1);
    let e = p(10, 10, 2);
    assert_eq!(ped(&s, &m, &e), 0);
}
