use proof_diff::pixel::differs_at;
use proof_diff::pixel::DiffPixel;
use proof_diff::simple::diff_row;
use proof_diff::simple::diff_simple_core;

fn solid(width: u32, height: u32, rgba: [u8; 4]) -> Vec<u8> {
    let mut data = Vec::new();
    for _ in 0..width * height {
        data.extend_from_slice(&rgba);
    }
    data
}

#[test]
fn identical_buffers_have_no_difference() {
    let a = vec![0u8; 4 * 4 * 4];
    let (overlay, count, pixels) = diff_simple_core(&a, &a, 4, 4, 10);
    assert_eq!(count, 0);
    assert!(pixels.is_empty());
    assert_eq!(overlay.len(), 64);
    for px in overlay.chunks(4) {
        assert_eq!(px, &[0, 0, 0, 255]);
    }
}

#[test]
fn one_flipped_red_channel_is_one_difference() {
    let a = vec![0u8; 4 * 4 * 4];
    let mut b = a.clone();
    b[4 * (2 * 4 + 1)] = 50;
    let (overlay, count, pixels) = diff_simple_core(&a, &b, 4, 4, 10);
    assert_eq!(count, 1);
    assert_eq!(pixels, vec![DiffPixel { x: 1, y: 2 }]);
    assert_eq!(&overlay[4 * 9..4 * 9 + 4], &[255, 0, 0, 255]);
    assert_eq!(&overlay[0..4], &[0, 0, 0, 255]);
}

#[test]
fn delta_equal_to_threshold_is_not_flagged() {
    let a = solid(2, 1, [100, 100, 100, 255]);
    let mut b = a.clone();
    b[0] = 110;
    b[5] = 90;
    let (_, count, pixels) = diff_simple_core(&a, &b, 2, 1, 10);
    assert_eq!(count, 0);
    assert!(pixels.is_empty());
}

#[test]
fn delta_one_above_threshold_is_flagged() {
    let a = solid(3, 1, [100, 100, 100, 255]);
    let mut b = a.clone();
    b[0] = 111;
    b[4 + 1] = 89;
    b[8 + 2] = 111;
    let (overlay, count, pixels) = diff_simple_core(&a, &b, 3, 1, 10);
    assert_eq!(count, 3);
    assert_eq!(
        pixels,
        vec![DiffPixel { x: 0, y: 0 }, DiffPixel { x: 1, y: 0 }, DiffPixel { x: 2, y: 0 }]
    );
    assert_eq!(overlay, vec![255, 0, 0, 255, 255, 0, 0, 255, 255, 0, 0, 255]);
}

#[test]
fn alpha_is_not_compared() {
    let a = solid(1, 1, [10, 20, 30, 0]);
    let b = solid(1, 1, [10, 20, 30, 255]);
    let (overlay, count, _) = diff_simple_core(&a, &b, 1, 1, 0);
    assert_eq!(count, 0);
    assert_eq!(overlay, vec![0, 0, 0, 255]);
}

#[test]
fn threshold_zero_flags_any_change_and_255_none() {
    let a = solid(1, 1, [0, 0, 0, 255]);
    let b = solid(1, 1, [1, 0, 0, 255]);
    assert_eq!(diff_simple_core(&a, &b, 1, 1, 0).1, 1);
    let c = solid(1, 1, [255, 255, 255, 255]);
    assert_eq!(diff_simple_core(&a, &c, 1, 1, 255).1, 0);
    assert_eq!(diff_simple_core(&a, &c, 1, 1, 254).1, 1);
}

#[test]
fn differing_pixels_come_in_row_major_order() {
    let a = vec![0u8; 4 * 3 * 3];
    let mut b = a.clone();
    for &(x, y) in &[(2u32, 2u32), (0, 1), (1, 0), (2, 0)] {
        b[(4 * (y * 3 + x)) as usize + 1] = 200;
    }
    let (overlay, count, pixels) = diff_simple_core(&a, &b, 3, 3, 10);
    assert_eq!(count, 4);
    assert_eq!(
        pixels,
        vec![
            DiffPixel { x: 1, y: 0 },
            DiffPixel { x: 2, y: 0 },
            DiffPixel { x: 0, y: 1 },
            DiffPixel { x: 2, y: 2 },
        ]
    );
    let red: Vec<usize> = overlay
        .chunks(4)
        .enumerate()
        .filter(|(_, px)| px[0] == 255)
        .map(|(i, _)| i)
        .collect();
    assert_eq!(red, vec![1, 2, 3, 8]);
}

#[test]
fn empty_images_have_an_empty_diff() {
    let (overlay, count, pixels) = diff_simple_core(&[], &[], 0, 5, 10);
    assert_eq!((overlay.len(), count, pixels.len()), (0, 0, 0));
    let (overlay, count, pixels) = diff_simple_core(&[], &[], 5, 0, 10);
    assert_eq!((overlay.len(), count, pixels.len()), (0, 0, 0));
}

#[test]
fn one_row_of_the_diff() {
    let a = vec![0u8; 4 * 2 * 2];
    let mut b = a.clone();
    b[4 * 3 + 2] = 99;
    let (row, count, pixels) = diff_row(&a, &b, 2, 2, 1, 10);
    assert_eq!(row, vec![0, 0, 0, 255, 255, 0, 0, 255]);
    assert_eq!(count, 1);
    assert_eq!(pixels, vec![DiffPixel { x: 1, y: 1 }]);
}

#[test]
fn one_pixel_against_the_threshold() {
    let a = [5u8, 5, 5, 0, 5, 5, 5, 0];
    let b = [5u8, 5, 5, 9, 5, 8, 5, 0];
    assert!(!differs_at(&a, &b, 0, 2));
    assert!(differs_at(&a, &b, 1, 2));
    assert!(!differs_at(&a, &b, 1, 3));
}
