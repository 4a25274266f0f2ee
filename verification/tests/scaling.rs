use proof_diff::scale::diff_probability_tenths;
use proof_diff::scale::scaled_dimensions;

#[test]
fn an_image_that_fits_keeps_its_size() {
    assert_eq!(scaled_dimensions(100, 100, 800, 600), (100, 100, false));
    assert_eq!(scaled_dimensions(800, 600, 800, 600), (800, 600, false));
    assert_eq!(scaled_dimensions(0, 0, 0, 0), (0, 0, false));
    assert_eq!(scaled_dimensions(0, 7, 0, 7), (0, 7, false));
}

#[test]
fn a_large_image_shrinks_to_the_bounds() {
    assert_eq!(scaled_dimensions(4000, 3000, 800, 600), (800, 600, true));
    assert_eq!(scaled_dimensions(4000, 3000, 800, 800), (800, 600, true));
    assert_eq!(scaled_dimensions(3000, 4000, 800, 800), (600, 800, true));
    assert_eq!(scaled_dimensions(1000, 100, 100, 1000), (100, 10, true));
}

#[test]
fn sides_are_rounded_to_the_nearest_integer() {
    // 2/3 of 2 is 1.33.
    assert_eq!(scaled_dimensions(3, 2, 2, 2), (2, 1, true));
    // 2/3 of 5 is 3.33, 2/3 of 4 is 2.67.
    assert_eq!(scaled_dimensions(3, 5, 2, 100), (2, 3, true));
    assert_eq!(scaled_dimensions(3, 4, 2, 100), (2, 3, true));
    // A quarter of 2 is one half, which rounds up.
    assert_eq!(scaled_dimensions(4, 2, 1, 10), (1, 1, true));
    // A tenth of 4 is 0.4, which rounds to nothing.
    assert_eq!(scaled_dimensions(10, 4, 1, 10), (1, 0, true));
}

#[test]
fn bounds_of_zero_shrink_to_nothing() {
    assert_eq!(scaled_dimensions(10, 10, 0, 0), (0, 0, true));
    assert_eq!(scaled_dimensions(10, 10, 0, 100), (0, 0, true));
    assert_eq!(scaled_dimensions(10, 0, 5, 0), (5, 0, true));
}

#[test]
fn no_side_ever_grows() {
    let sizes = [0u32, 1, 2, 3, 7, 100, 4001, u32::MAX];
    for &w in &sizes {
        for &h in &sizes {
            for &mw in &sizes {
                for &mh in &sizes {
                    let (nw, nh, _) = scaled_dimensions(w, h, mw, mh);
                    assert!(nw <= w && nh <= h);
                }
            }
        }
    }
}

#[test]
fn the_largest_sizes_do_not_overflow() {
    let max = u32::MAX;
    assert_eq!(scaled_dimensions(max, max, max - 1, max), (max - 1, max - 1, true));
    assert_eq!(scaled_dimensions(max, 1, 1, max), (1, 0, true));
}

#[test]
fn without_hot_pixels_the_probability_is_zero() {
    assert_eq!(diff_probability_tenths(0, 100, 100), 0);
    assert_eq!(diff_probability_tenths(0, 0, 0), 0);
}

#[test]
fn the_probability_starts_at_seventy_percent() {
    // 1 of 10^8 pixels: 50000 / 10^8 is 0.0005, which rounds away.
    assert_eq!(diff_probability_tenths(1, 10000, 10000), 700);
    // 1 of 10^6 pixels adds 0.05, which rounds up to a tenth.
    assert_eq!(diff_probability_tenths(1, 1000, 1000), 701);
    // 100 of 10^6 pixels add 5.
    assert_eq!(diff_probability_tenths(100, 1000, 1000), 750);
    // 123 of 10^6 pixels add 6.15, which rounds to 6.2.
    assert_eq!(diff_probability_tenths(123, 1000, 1000), 762);
}

#[test]
fn the_probability_is_capped_at_a_hundred_percent() {
    assert_eq!(diff_probability_tenths(600, 1000, 1000), 1000);
    assert_eq!(diff_probability_tenths(599, 1000, 1000), 1000);
    assert_eq!(diff_probability_tenths(598, 1000, 1000), 999);
    assert_eq!(diff_probability_tenths(10000, 100, 100), 1000);
    assert_eq!(diff_probability_tenths(u32::MAX as u64, u32::MAX, u32::MAX), 700);
    assert_eq!(diff_probability_tenths(u32::MAX as u64, u32::MAX, 1), 1000);
}

#[test]
fn the_probability_counts_more_hot_pixels_than_a_u32_holds() {
    let pixels = u32::MAX as u64 * 3;
    assert_eq!(diff_probability_tenths(pixels, u32::MAX, 3), 1000);
    assert_eq!(diff_probability_tenths(1 << 33, u32::MAX, u32::MAX), 700);
}
