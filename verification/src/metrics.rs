//! Pure error metrics: synchronous Euclidean distance (SED) and
//! perpendicular Euclidean distance (PED) of a candidate sample against the
//! chord through its two bounding neighbours.
//!
//! All arithmetic is exact fixed-point integer arithmetic; distances are
//! rounded down to the nearest integer by `isqrt`. Degenerate geometry
//! (zero time span, coincident chord endpoints) takes an explicit fallback
//! branch instead of dividing by zero.

use vstd::prelude::*;
use vstd::arithmetic::div_mod::{
    lemma_div_basics, lemma_div_is_ordered, lemma_div_is_ordered_by_denominator,
    lemma_fundamental_div_mod,
};
use vstd::arithmetic::mul::lemma_mul_inequality;
use vstd::math::abs;
use crate::point::{Point, COORD_LIMIT};

verus! {

/// The integer square root, rounded down.
pub open spec fn spec_isqrt(x: int) -> int
    decreases x,
{
    if x <= 0 {
        0
    } else {
        let r = spec_isqrt(x - 1);
        if (r + 1) * (r + 1) <= x {
            r + 1
        } else {
            r
        }
    }
}

pub proof fn lemma_isqrt_bounds(x: int)
    requires
        x >= 0,
    ensures
        0 <= spec_isqrt(x),
        spec_isqrt(x) * spec_isqrt(x) <= x,
        x < (spec_isqrt(x) + 1) * (spec_isqrt(x) + 1),
    decreases x,
{
    if x > 0 {
        lemma_isqrt_bounds(x - 1);
        let r = spec_isqrt(x - 1);
        if (r + 1) * (r + 1) <= x {
            assert(x == (r + 1) * (r + 1));
            assert((r + 1) * (r + 1) < (r + 2) * (r + 2)) by (nonlinear_arith)
                requires r >= 0;
        }
    }
}

/// Any value whose square brackets `x` is the integer square root of `x`.
pub proof fn lemma_isqrt_unique(x: int, r: int)
    requires
        x >= 0,
        r >= 0,
        r * r <= x,
        x < (r + 1) * (r + 1),
    ensures
        r == spec_isqrt(x),
{
    lemma_isqrt_bounds(x);
    let s = spec_isqrt(x);
    assert(r == s) by (nonlinear_arith)
        requires
            r >= 0,
            s >= 0,
            r * r <= x,
            x < (r + 1) * (r + 1),
            s * s <= x,
            x < (s + 1) * (s + 1);
}

/// A positive value has a positive integer square root.
pub proof fn lemma_isqrt_pos(x: int)
    requires
        x >= 1,
    ensures
        spec_isqrt(x) >= 1,
{
    lemma_isqrt_bounds(x);
    let r = spec_isqrt(x);
    assert(r >= 1) by (nonlinear_arith)
        requires
            x >= 1,
            r >= 0,
            x < (r + 1) * (r + 1);
}

/// Executable integer square root by bisection.
pub fn isqrt(x: u128) -> (r: u64)
    requires
        x <= 0x3_FFFF_FFFF_FFFF_FFFF,
    ensures
        r as int == spec_isqrt(x as int),
        r <= 0x2_0000_0000,
{
    let mut lo: u64 = 0;
    let mut hi: u64 = 0x2_0000_0000;
    while lo + 1 < hi
        invariant
            lo < hi,
            hi <= 0x2_0000_0000,
            x <= 0x3_FFFF_FFFF_FFFF_FFFF,
            (lo as int) * (lo as int) <= x as int,
            (x as int) < (hi as int) * (hi as int),
        decreases hi - lo,
    {
        let mid: u64 = lo + (hi - lo) / 2;
        proof {
            assert((mid as int) * (mid as int) <= 0x4_0000_0000_0000_0000) by (nonlinear_arith)
                requires 0 <= mid <= 0x2_0000_0000;
        }
        if (mid as u128) * (mid as u128) <= x {
            lo = mid;
        } else {
            hi = mid;
        }
    }
    proof {
        lemma_isqrt_unique(x as int, lo as int);
    }
    lo
}

/// Position expected at the sample's own timestamp along the straight chord
/// from the start coordinate `sc` to the end coordinate `ec`, where the
/// elapsed fraction is `num / den`. A zero time span falls back to a
/// fraction of one, which lands on the end coordinate.
pub open spec fn spec_interp(sc: int, ec: int, num: int, den: int) -> int {
    if den == 0 {
        ec
    } else if ec >= sc {
        sc + ((ec - sc) * num) / den
    } else {
        sc - ((sc - ec) * num) / den
    }
}

fn interp(sc: i64, ec: i64, num: i64, den: i64) -> (r: i64)
    requires
        -COORD_LIMIT <= sc <= COORD_LIMIT,
        -COORD_LIMIT <= ec <= COORD_LIMIT,
        0 <= num <= den,
        den <= 2 * COORD_LIMIT,
    ensures
        r as int == spec_interp(sc as int, ec as int, num as int, den as int),
        -COORD_LIMIT <= r <= COORD_LIMIT,
{
    if den == 0 {
        return ec;
    }
    if ec >= sc {
        let delta = ec - sc;
        proof {
            assert((delta as int) * (num as int) <= 0x4000_0000_0000_0000) by (nonlinear_arith)
                requires 0 <= delta <= 0x8000_0000, 0 <= num <= 0x8000_0000;
            lemma_mul_inequality(num as int, den as int, delta as int);
            lemma_div_is_ordered(delta as int * num as int, delta as int * den as int, den as int);
            lemma_div_by_multiple(delta as int, den as int);
        }
        let off = ((delta as u128) * (num as u128) / (den as u128)) as i64;
        sc + off
    } else {
        let delta = sc - ec;
        proof {
            assert((delta as int) * (num as int) <= 0x4000_0000_0000_0000) by (nonlinear_arith)
                requires 0 <= delta <= 0x8000_0000, 0 <= num <= 0x8000_0000;
            lemma_mul_inequality(num as int, den as int, delta as int);
            lemma_div_is_ordered(delta as int * num as int, delta as int * den as int, den as int);
            lemma_div_by_multiple(delta as int, den as int);
        }
        let off = ((delta as u128) * (num as u128) / (den as u128)) as i64;
        sc - off
    }
}

/// `(d * den) / den == d` for a positive divisor.
proof fn lemma_div_by_multiple(d: int, den: int)
    requires
        d >= 0,
        den > 0,
    ensures
        (d * den) / den == d,
{
    lemma_fundamental_div_mod(d * den, den);
    let q = (d * den) / den;
    let r = (d * den) % den;
    assert(d * den == den * q + r);
    assert(q == d) by (nonlinear_arith)
        requires d * den == den * q + r, 0 <= r < den, den > 0;
}

/// Squared Euclidean distance between two coordinate offsets.
pub open spec fn spec_dist2(dx: int, dy: int) -> int {
    dx * dx + dy * dy
}

/// Synchronous Euclidean distance: how far the sample `m` lies from the
/// position expected at `m`'s timestamp along the straight chord from `s`
/// to `e`.
#[verifier::opaque]
pub open spec fn spec_sed(s: Point, m: Point, e: Point) -> int {
    let num = m.time - s.time;
    let den = e.time - s.time;
    let ilat = spec_interp(s.lat as int, e.lat as int, num, den);
    let ilon = spec_interp(s.lon as int, e.lon as int, num, den);
    spec_isqrt(spec_dist2(ilat - m.lat, ilon - m.lon))
}

/// Executable SED. Requires the three samples in chronological order; a
/// zero overall time span is a defined fallback, not an error.
pub fn sed(s: &Point, m: &Point, e: &Point) -> (r: u64)
    requires
        s.wf(),
        m.wf(),
        e.wf(),
        s.time <= m.time,
        m.time <= e.time,
    ensures
        r as int == spec_sed(*s, *m, *e),
        r <= 0x2_0000_0000,
{
    proof {
        reveal(spec_sed);
    }
    let num = m.time - s.time;
    let den = e.time - s.time;
    let ilat = interp(s.lat, e.lat, num, den);
    let ilon = interp(s.lon, e.lon, num, den);
    let dlat = ilat - m.lat;
    let dlon = ilon - m.lon;
    let alat: u64 = if dlat >= 0 { dlat as u64 } else { (-dlat) as u64 };
    let alon: u64 = if dlon >= 0 { dlon as u64 } else { (-dlon) as u64 };
    proof {
        assert((alat as int) * (alat as int) == (dlat as int) * (dlat as int)
            && (alat as int) * (alat as int) <= 0x4000_0000_0000_0000) by (nonlinear_arith)
            requires
                alat == abs(dlat as int),
                -0x8000_0000 <= dlat <= 0x8000_0000;
        assert((alon as int) * (alon as int) == (dlon as int) * (dlon as int)
            && (alon as int) * (alon as int) <= 0x4000_0000_0000_0000) by (nonlinear_arith)
            requires
                alon == abs(dlon as int),
                -0x8000_0000 <= dlon <= 0x8000_0000;
    }
    let d2: u128 = (alat as u128) * (alat as u128) + (alon as u128) * (alon as u128);
    isqrt(d2)
}

/// Perpendicular Euclidean distance from `m` to the infinite line through
/// `s` and `e`; zero when `s` and `e` coincide.
#[verifier::opaque]
pub open spec fn spec_ped(s: Point, m: Point, e: Point) -> int {
    let a = e.lon - s.lon;
    let b = s.lat - e.lat;
    let c = e.lat * s.lon - s.lat * e.lon;
    if a == 0 && b == 0 {
        0
    } else {
        abs(a * m.lat + b * m.lon + c) as int / spec_isqrt(a * a + b * b)
    }
}

/// Executable PED. Coincident chord endpoints are a defined fallback of
/// zero, not an error.
pub fn ped(s: &Point, m: &Point, e: &Point) -> (r: u64)
    requires
        s.wf(),
        m.wf(),
        e.wf(),
    ensures
        r as int == spec_ped(*s, *m, *e),
{
    proof {
        reveal(spec_ped);
    }
    let a = e.lon - s.lon;
    let b = s.lat - e.lat;
    if a == 0 && b == 0 {
        return 0;
    }
    proof {
        assert((e.lat as int) * (s.lon as int) <= 0x1000_0000_0000_0000
            && (e.lat as int) * (s.lon as int) >= -0x1000_0000_0000_0000) by (nonlinear_arith)
            requires -0x4000_0000 <= e.lat <= 0x4000_0000, -0x4000_0000 <= s.lon <= 0x4000_0000;
        assert((s.lat as int) * (e.lon as int) <= 0x1000_0000_0000_0000
            && (s.lat as int) * (e.lon as int) >= -0x1000_0000_0000_0000) by (nonlinear_arith)
            requires -0x4000_0000 <= s.lat <= 0x4000_0000, -0x4000_0000 <= e.lon <= 0x4000_0000;
        assert((a as int) * (m.lat as int) <= 0x2000_0000_0000_0000
            && (a as int) * (m.lat as int) >= -0x2000_0000_0000_0000) by (nonlinear_arith)
            requires -0x8000_0000 <= a <= 0x8000_0000, -0x4000_0000 <= m.lat <= 0x4000_0000;
        assert((b as int) * (m.lon as int) <= 0x2000_0000_0000_0000
            && (b as int) * (m.lon as int) >= -0x2000_0000_0000_0000) by (nonlinear_arith)
            requires -0x8000_0000 <= b <= 0x8000_0000, -0x4000_0000 <= m.lon <= 0x4000_0000;
        assert((a as int) * (a as int) <= 0x4000_0000_0000_0000
            && (a as int) * (a as int) >= 0) by (nonlinear_arith)
            requires -0x8000_0000 <= a <= 0x8000_0000;
        assert((b as int) * (b as int) <= 0x4000_0000_0000_0000
            && (b as int) * (b as int) >= 0) by (nonlinear_arith)
            requires -0x8000_0000 <= b <= 0x8000_0000;
    }
    let c: i128 = (e.lat as i128) * (s.lon as i128) - (s.lat as i128) * (e.lon as i128);
    let t: i128 = (a as i128) * (m.lat as i128) + (b as i128) * (m.lon as i128) + c;
    let numer: u128 = if t >= 0 { t as u128 } else { (-t) as u128 };
    let a2: u128 = ((a as i128) * (a as i128)) as u128;
    let b2: u128 = ((b as i128) * (b as i128)) as u128;
    let d2: u128 = a2 + b2;
    proof {
        assert((a as int) * (a as int) + (b as int) * (b as int) >= 1) by (nonlinear_arith)
            requires a != 0 || b != 0;
        lemma_isqrt_bounds(d2 as int);
    }
    let q = isqrt(d2);
    proof {
        assert(d2 >= 1);
        lemma_isqrt_pos(d2 as int);
        lemma_div_is_ordered_by_denominator(numer as int, 1, q as int);
        lemma_div_basics(numer as int);
    }
    (numer / (q as u128)) as u64
}

/// A zero time span never divides: the interpolated position falls back to
/// the chord's end point, so the SED is simply the distance from `m` to `e`.
pub proof fn lemma_sed_zero_time_span(s: Point, m: Point, e: Point)
    requires
        s.time == e.time,
    ensures
        spec_sed(s, m, e) == spec_isqrt(spec_dist2(e.lat - m.lat, e.lon - m.lon)),
        spec_sed(s, m, e) >= 0,
{
    reveal(spec_sed);
    let dx = e.lat - m.lat;
    let dy = e.lon - m.lon;
    assert(dx * dx + dy * dy >= 0) by (nonlinear_arith);
    lemma_isqrt_bounds(spec_dist2(dx, dy));
}

} // verus!
