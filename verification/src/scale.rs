//! Sizes and scores computed as exact fractions: the size an image is
//! scaled down to, and the probability score of a heatmap diff.

use crate::heat::lemma_quotient_below;
use vstd::prelude::*;

verus! {

/// The fraction `n / d` rounded to the nearest integer, halves up.
pub open spec fn round_half_up(n: int, d: int) -> int {
    (2 * n + d) / (2 * d)
}

/// An extent fits a bound without scaling.
pub open spec fn fits(extent: u32, bound: u32) -> bool {
    extent == 0 || bound >= extent
}

/// The image has to shrink: its width or its height exceeds the bound.
pub open spec fn must_shrink(width: u32, height: u32, max_width: u32, max_height: u32) -> bool {
    !(fits(width, max_width) && fits(height, max_height))
}

/// The width decides the scale: `max_width / width` is below 1 and not
/// above `max_height / height`.
pub open spec fn width_decides(width: u32, height: u32, max_width: u32, max_height: u32) -> bool {
    !fits(width, max_width) && (fits(height, max_height) || max_width * height <= max_height
        * width)
}

/// The size of an image scaled to fit the bounds. The scale is the least of
/// `max_width / width`, `max_height / height` and 1, so an image is never
/// enlarged; each side is the original side times the scale, rounded to the
/// nearest integer, halves up.
pub open spec fn scaled_size(width: u32, height: u32, max_width: u32, max_height: u32) -> (
    int,
    int,
) {
    if !must_shrink(width, height, max_width, max_height) {
        (width as int, height as int)
    } else if width_decides(width, height, max_width, max_height) {
        (
            round_half_up(width * max_width, width as int),
            round_half_up(height * max_width, width as int),
        )
    } else {
        (
            round_half_up(width * max_height, height as int),
            round_half_up(height * max_height, height as int),
        )
    }
}

/// A side scaled by a fraction below 1 does not grow.
pub proof fn lemma_scaled_side(side: int, num: int, den: int)
    requires
        0 <= side,
        0 <= num < den,
    ensures
        0 <= round_half_up(side * num, den) <= side,
{
    assert(0 <= side * num <= side * den) by (nonlinear_arith)
        requires
            0 <= side,
            0 <= num < den,
    ;
    assert(2 * (side * num) + den < (side + 1) * (2 * den)) by (nonlinear_arith)
        requires
            side * num <= side * den,
            den > 0,
    ;
    lemma_quotient_below(2 * (side * num) + den, 2 * den, side + 1);
}

/// Scaling to fit never enlarges an image: neither side of the scaled size
/// exceeds the original side.
pub proof fn lemma_never_enlarges(width: u32, height: u32, max_width: u32, max_height: u32)
    ensures
        0 <= scaled_size(width, height, max_width, max_height).0 <= width,
        0 <= scaled_size(width, height, max_width, max_height).1 <= height,
{
    if must_shrink(width, height, max_width, max_height) {
        if width_decides(width, height, max_width, max_height) {
            lemma_scaled_side(width as int, max_width as int, width as int);
            lemma_scaled_side(height as int, max_width as int, width as int);
        } else {
            lemma_scaled_side(width as int, max_height as int, height as int);
            lemma_scaled_side(height as int, max_height as int, height as int);
        }
    }
}

fn scale_side(side: u32, num: u32, den: u32) -> (scaled: u32)
    requires
        num < den,
    ensures
        scaled == round_half_up(side * num, den as int),
        scaled <= side,
{
    proof {
        lemma_scaled_side(side as int, num as int, den as int);
        assert(side * num <= 0xffff_ffff * 0xffff_ffff) by (nonlinear_arith)
            requires
                0 <= side <= 0xffff_ffff,
                0 <= num <= 0xffff_ffff,
        ;
    }
    let product: u128 = (side as u128) * (num as u128);
    ((2 * product + den as u128) / (2 * (den as u128))) as u32
}

/// Computes the size an image is scaled to, and whether it has to shrink.
pub fn scaled_dimensions(width: u32, height: u32, max_width: u32, max_height: u32) -> (out: (
    u32,
    u32,
    bool,
))
    ensures
        out.0 == scaled_size(width, height, max_width, max_height).0,
        out.1 == scaled_size(width, height, max_width, max_height).1,
        out.2 == must_shrink(width, height, max_width, max_height),
        out.0 <= width,
        out.1 <= height,
{
    let fits_width = width == 0 || max_width >= width;
    let fits_height = height == 0 || max_height >= height;
    if fits_width && fits_height {
        return (width, height, false);
    }
    assert(max_width * height <= 0xffff_ffff * 0xffff_ffff && max_height * width <= 0xffff_ffff
        * 0xffff_ffff) by (nonlinear_arith)
        requires
            0 <= max_width <= 0xffff_ffff,
            0 <= height <= 0xffff_ffff,
            0 <= max_height <= 0xffff_ffff,
            0 <= width <= 0xffff_ffff,
    ;
    let by_width = !fits_width && (fits_height || (max_width as u64) * (height as u64) <= (
    max_height as u64) * (width as u64));
    if by_width {
        (scale_side(width, max_width, width), scale_side(height, max_width, width), true)
    } else {
        (scale_side(width, max_height, height), scale_side(height, max_height, height), true)
    }
}

/// The probability score of a heatmap diff, in tenths of a percent: 0
/// without hot pixels; otherwise 70 percent plus the share of hot pixels
/// among all pixels times 50000, capped at 30, rounded to one decimal.
pub open spec fn probability_tenths(hot: int, pixels: int) -> int {
    if hot <= 0 {
        0
    } else if pixels <= 0 || 500000 * hot >= 300 * pixels {
        1000
    } else {
        700 + round_half_up(500000 * hot, pixels)
    }
}

/// Computes the probability score of a heatmap diff of a `width` by
/// `height` image with `hot` hot pixels.
pub fn diff_probability_tenths(hot: u64, width: u32, height: u32) -> (score: u32)
    ensures
        score == probability_tenths(hot as int, width * height),
        score <= 1000,
        hot > 0 ==> score >= 700,
{
    if hot == 0 {
        return 0;
    }
    assert(width * height <= 0xffff_ffff * 0xffff_ffff) by (nonlinear_arith)
        requires
            0 <= width <= 0xffff_ffff,
            0 <= height <= 0xffff_ffff,
    ;
    let pixels: u128 = (width as u128) * (height as u128);
    let weighted: u128 = 500000 * (hot as u128);
    if pixels == 0 || weighted >= 300 * pixels {
        return 1000;
    }
    proof {
        assert(2 * weighted + pixels < 301 * (2 * pixels));
        lemma_quotient_below((2 * weighted + pixels) as int, (2 * pixels) as int, 301);
    }
    let extra: u128 = (2 * weighted + pixels) / (2 * pixels);
    700 + extra as u32
}

} // verus!
