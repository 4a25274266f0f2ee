//! Densities as exact fractions and the colour ramp of the heatmap.
//!
//! The density of a pixel is the fraction `hits / area` of flagged pixels in
//! its window. Densities are compared and scaled as fractions of integers,
//! so every threshold is met or missed exactly.

use vstd::arithmetic::div_mod::lemma_fundamental_div_mod;
use vstd::prelude::*;

verus! {

/// Largest number of pixels in a window.
pub const WINDOW_MAX_AREA: u32 = 961;

/// The density `h1 / a1` is strictly greater than `h2 / a2`.
pub open spec fn denser(h1: int, a1: int, h2: int, a2: int) -> bool {
    h1 * a2 > h2 * a1
}

/// A flagged pixel is drawn when its density is above one twentieth.
pub open spec fn shown(flag: bool, hits: int, area: int) -> bool {
    flag && 20 * hits > area
}

/// Numerator of the density `hits / area` divided by the peak density
/// `peak_hits / peak_area`. This normalised density is 0 where the peak is 0.
pub open spec fn norm_num(hits: int, peak_hits: int, peak_area: int) -> int {
    if peak_hits > 0 {
        hits * peak_area
    } else {
        0
    }
}

/// Denominator of the normalised density.
pub open spec fn norm_den(area: int, peak_hits: int) -> int {
    if peak_hits > 0 {
        area * peak_hits
    } else {
        1
    }
}

/// The normalised density `n / d` lies in the top band: it is at least
/// three fifths.
pub open spec fn top_band(n: int, d: int) -> bool {
    5 * n >= 3 * d
}

/// Red, green and blue of the normalised density `n / d`.
///
/// Below 0.3 green rises from 0 to 200 over a blue of 200. From 0.3 to 0.6
/// red rises from 0 to 255, green from 200 to 255, and blue falls from 200
/// to 0. From 0.6 on red is 255 and green falls from 255 to 0. Each channel
/// is rounded down.
pub open spec fn ramp(n: int, d: int) -> (int, int, int) {
    if 10 * n < 3 * d {
        (0, (2000 * n) / (3 * d), 200)
    } else if 5 * n < 3 * d {
        (
            (85 * (10 * n - 3 * d)) / d,
            200 + (55 * (10 * n - 3 * d)) / (3 * d),
            (200 * (6 * d - 10 * n)) / (3 * d),
        )
    } else {
        (255, (1275 * (d - n)) / (2 * d), 0)
    }
}

/// A pixel is hot when it is drawn and its normalised density lies in the
/// top band. Only hot pixels are counted and reported.
pub open spec fn is_hot(flag: bool, hits: int, area: int, peak_hits: int, peak_area: int) -> bool {
    shown(flag, hits, area) && top_band(
        norm_num(hits, peak_hits, peak_area),
        norm_den(area, peak_hits),
    )
}

/// Channel `c` (0 red, 1 green, 2 blue, 3 alpha) of a pixel of the heatmap.
/// Pixels that are not drawn are opaque black.
pub open spec fn heat_channel(
    flag: bool,
    hits: int,
    area: int,
    peak_hits: int,
    peak_area: int,
    c: int,
) -> int {
    let rgb = ramp(norm_num(hits, peak_hits, peak_area), norm_den(area, peak_hits));
    if c == 3 {
        255
    } else if !shown(flag, hits, area) {
        0
    } else if c == 0 {
        rgb.0
    } else if c == 1 {
        rgb.1
    } else {
        rgb.2
    }
}

/// A quotient is below `k` when the dividend is below `k` times the divisor.
pub proof fn lemma_quotient_below(a: int, d: int, k: int)
    requires
        0 <= a < k * d,
        d > 0,
    ensures
        0 <= a / d < k,
{
    lemma_fundamental_div_mod(a, d);
    let q = a / d;
    let r = a % d;
    assert(0 <= r < d);
    assert(a == d * q + r);
    assert(q >= 0) by (nonlinear_arith)
        requires
            d * q + r >= 0,
            r < d,
            d > 0,
    ;
    assert(q < k) by (nonlinear_arith)
        requires
            d * q + r < k * d,
            r >= 0,
            d > 0,
    ;
}

/// A quotient is at most `k` when the dividend is at most `k` times the
/// divisor.
pub proof fn lemma_quotient_at_most(a: int, d: int, k: int)
    requires
        0 <= a <= k * d,
        d > 0,
    ensures
        0 <= a / d <= k,
{
    assert(a < (k + 1) * d) by (nonlinear_arith)
        requires
            a <= k * d,
            d > 0,
    ;
    lemma_quotient_below(a, d, k + 1);
}

/// Every channel of the ramp is a byte, for a normalised density between 0
/// and 1.
pub proof fn lemma_ramp_is_bytes(n: int, d: int)
    requires
        0 <= n <= d,
        d > 0,
    ensures
        0 <= ramp(n, d).0 <= 255,
        0 <= ramp(n, d).1 <= 255,
        0 <= ramp(n, d).2 <= 255,
{
    if 10 * n < 3 * d {
        lemma_quotient_below(2000 * n, 3 * d, 200);
    } else if 5 * n < 3 * d {
        lemma_quotient_below(85 * (10 * n - 3 * d), d, 255);
        lemma_quotient_below(55 * (10 * n - 3 * d), 3 * d, 55);
        lemma_quotient_at_most(200 * (6 * d - 10 * n), 3 * d, 200);
    } else {
        lemma_quotient_at_most(1275 * (d - n), 2 * d, 255);
    }
}

/// Order of fractions with positive denominators is transitive.
pub proof fn lemma_fraction_order(a: int, b: int, c: int, d: int, e: int, f: int)
    requires
        b > 0,
        d > 0,
        f > 0,
        a * d <= c * b,
        c * f <= e * d,
    ensures
        a * f <= e * b,
{
    assert(a * d * f <= c * b * f) by (nonlinear_arith)
        requires
            a * d <= c * b,
            f > 0,
    ;
    assert(c * f * b <= e * d * b) by (nonlinear_arith)
        requires
            c * f <= e * d,
            b > 0,
    ;
    assert(c * b * f == c * f * b) by (nonlinear_arith);
    assert(a * d * f == (a * f) * d) by (nonlinear_arith);
    assert(e * d * b == (e * b) * d) by (nonlinear_arith);
    assert(a * f <= e * b) by (nonlinear_arith)
        requires
            (a * f) * d <= (e * b) * d,
            d > 0,
    ;
}

/// Red is full on the hot pixels and on no others. A pixel that is drawn in
/// a lower band has less red and is not black: its blue is 200 in the low
/// band, its green at least 200 in the middle band.
pub proof fn lemma_red_marks_hot(flag: bool, hits: int, area: int, peak_hits: int, peak_area: int)
    requires
        0 <= hits <= area,
        1 <= area,
        0 <= peak_hits,
        1 <= peak_area,
        hits * peak_area <= peak_hits * area,
    ensures
        is_hot(flag, hits, area, peak_hits, peak_area) <==> heat_channel(
            flag,
            hits,
            area,
            peak_hits,
            peak_area,
            0,
        ) == 255,
        shown(flag, hits, area) && !is_hot(flag, hits, area, peak_hits, peak_area) ==> {
            &&& heat_channel(flag, hits, area, peak_hits, peak_area, 0) < 255
            &&& heat_channel(flag, hits, area, peak_hits, peak_area, 1) >= 200 || heat_channel(
                flag,
                hits,
                area,
                peak_hits,
                peak_area,
                2,
            ) == 200
        },
{
    if shown(flag, hits, area) {
        assert(hits >= 1);
        assert(peak_hits >= 1) by (nonlinear_arith)
            requires
                hits >= 1,
                peak_area >= 1,
                area >= 1,
                hits * peak_area <= peak_hits * area,
        ;
        let n = hits * peak_area;
        let d = area * peak_hits;
        assert(d >= 1) by (nonlinear_arith)
            requires
                d == area * peak_hits,
                area >= 1,
                peak_hits >= 1,
        ;
        assert(0 <= n <= d) by (nonlinear_arith)
            requires
                n == hits * peak_area,
                d == area * peak_hits,
                hits >= 0,
                peak_area >= 1,
                hits * peak_area <= peak_hits * area,
        ;
        assert(norm_num(hits, peak_hits, peak_area) == n);
        assert(norm_den(area, peak_hits) == d);
        if 10 * n >= 3 * d && 5 * n < 3 * d {
            lemma_quotient_below(85 * (10 * n - 3 * d), d, 255);
            lemma_quotient_below(55 * (10 * n - 3 * d), 3 * d, 55);
        }
    }
}

/// Colours one pixel of the heatmap and tells whether it is hot.
pub fn heat_pixel(flag: bool, hits: u32, area: u32, peak_hits: u32, peak_area: u32) -> (out: (
    u8,
    u8,
    u8,
    bool,
))
    requires
        1 <= area <= WINDOW_MAX_AREA,
        1 <= peak_area <= WINDOW_MAX_AREA,
        hits <= area,
        peak_hits <= peak_area,
        hits * peak_area <= peak_hits * area,
    ensures
        out.0 == heat_channel(flag, hits as int, area as int, peak_hits as int, peak_area as int, 0),
        out.1 == heat_channel(flag, hits as int, area as int, peak_hits as int, peak_area as int, 1),
        out.2 == heat_channel(flag, hits as int, area as int, peak_hits as int, peak_area as int, 2),
        out.3 == is_hot(flag, hits as int, area as int, peak_hits as int, peak_area as int),
{
    if !flag || 20 * (hits as u64) <= area as u64 {
        return (0, 0, 0, false);
    }
    assert(hits >= 1);
    assert(peak_hits >= 1) by (nonlinear_arith)
        requires
            hits >= 1,
            peak_area >= 1,
            area >= 1,
            hits * peak_area <= peak_hits * area,
    ;
    assert(hits * peak_area <= 961 * 961) by (nonlinear_arith)
        requires
            hits <= 961,
            peak_area <= 961,
    ;
    assert(area * peak_hits <= 961 * 961) by (nonlinear_arith)
        requires
            area <= 961,
            peak_hits <= 961,
    ;
    assert(area * peak_hits >= 1) by (nonlinear_arith)
        requires
            area >= 1,
            peak_hits >= 1,
    ;
    assert(hits * peak_area <= area * peak_hits) by (nonlinear_arith)
        requires
            hits * peak_area <= peak_hits * area,
    ;
    let n: u64 = (hits as u64) * (peak_area as u64);
    let d: u64 = (area as u64) * (peak_hits as u64);
    proof {
        lemma_ramp_is_bytes(n as int, d as int);
    }
    if 10 * n < 3 * d {
        let g: u64 = (2000 * n) / (3 * d);
        (0, g as u8, 200, false)
    } else if 5 * n < 3 * d {
        let t: u64 = 10 * n - 3 * d;
        let r: u64 = (85 * t) / d;
        let g: u64 = 200 + (55 * t) / (3 * d);
        let b: u64 = (200 * (6 * d - 10 * n)) / (3 * d);
        (r as u8, g as u8, b as u8, false)
    } else {
        let g: u64 = (1275 * (d - n)) / (2 * d);
        (255, g as u8, 0, true)
    }
}

} // verus!
