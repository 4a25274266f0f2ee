use base64::Engine;
use proof_diff::compare::compute_diff_heatmap;
use proof_diff::compare::compute_diff_simple;
use proof_diff::compare::diff_heatmap_images;
use proof_diff::compare::diff_simple_images;
use proof_diff::compare::CropBounds;
use proof_diff::errors::EngineError;
use proof_diff::picture::PixelBuffer;
use proof_diff::region::DiffMarker;

const PREFIX: &str = "data:image/png;base64,";

fn solid(width: u32, height: u32, grey: u8) -> PixelBuffer {
    let mut data = Vec::new();
    for _ in 0..width * height {
        data.extend_from_slice(&[grey, grey, grey, 255]);
    }
    PixelBuffer { width, height, data }
}

fn numbered(width: u32, height: u32) -> PixelBuffer {
    let mut data = Vec::new();
    for y in 0..height {
        for x in 0..width {
            data.extend_from_slice(&[(10 * x) as u8, (10 * y) as u8, (16 * y + x) as u8, 255]);
        }
    }
    PixelBuffer { width, height, data }
}

fn copy(img: &PixelBuffer) -> PixelBuffer {
    PixelBuffer { width: img.width, height: img.height, data: img.data.clone() }
}

fn pixels_of(url: &str) -> (u32, u32, Vec<u8>) {
    assert!(url.starts_with(PREFIX));
    let png = base64::engine::general_purpose::STANDARD.decode(&url[PREFIX.len()..]).unwrap();
    let img = image::load_from_memory_with_format(&png, image::ImageFormat::Png).unwrap().into_rgba8();
    (img.width(), img.height(), img.into_raw())
}

#[test]
fn identical_images_do_not_differ() {
    let a = numbered(6, 5);
    let result = compute_diff_simple(copy(&a), copy(&a), 10).unwrap();
    assert_eq!(result.diff_count, 0);
    assert!(result.markers.is_empty());
    assert!(!result.has_diff);
    assert_eq!((result.image_width, result.image_height), (6, 5));
    assert_eq!(pixels_of(&result.src_a), (6, 5, a.data.clone()));
    assert_eq!(pixels_of(&result.src_b), (6, 5, a.data.clone()));
    let (_, _, overlay) = pixels_of(&result.diff_src);
    for px in overlay.chunks(4) {
        assert_eq!(px, &[0, 0, 0, 255]);
    }
}

#[test]
fn a_changed_pixel_is_counted_marked_and_drawn() {
    let a = solid(8, 8, 100);
    let mut b = copy(&a);
    b.data[4 * (3 * 8 + 5) + 1] = 180;
    let result = compute_diff_simple(copy(&a), copy(&b), 10).unwrap();
    assert_eq!(result.diff_count, 1);
    assert!(result.has_diff);
    assert_eq!(result.markers, vec![DiffMarker { x2: 10, y2: 6, radius2: 600, count: 1 }]);
    assert_eq!(pixels_of(&result.src_a).2, a.data);
    assert_eq!(pixels_of(&result.src_b).2, b.data);
    let (w, h, overlay) = pixels_of(&result.diff_src);
    assert_eq!((w, h), (8, 8));
    assert_eq!(&overlay[4 * 29..4 * 29 + 4], &[255, 0, 0, 255]);
    assert_eq!(overlay.iter().filter(|&&v| v == 255).count(), 64 + 1);
}

#[test]
fn images_of_different_sizes_are_brought_to_the_larger_size() {
    let a = solid(4, 6, 100);
    let b = solid(8, 2, 100);
    let result = compute_diff_simple(a, b, 10).unwrap();
    assert_eq!((result.image_width, result.image_height), (8, 6));
    let (wa, ha, da) = pixels_of(&result.src_a);
    let (wb, hb, db) = pixels_of(&result.src_b);
    assert_eq!((wa, ha, da.len()), (8, 6, 4 * 48));
    assert_eq!((wb, hb, db.len()), (8, 6, 4 * 48));
    assert_eq!(result.diff_count, 0);
    assert_eq!(pixels_of(&result.diff_src).0, 8);
}

#[test]
fn only_the_smaller_image_is_resampled() {
    let a = numbered(4, 4);
    let b = solid(2, 2, 0);
    let result = compute_diff_simple(copy(&a), b, 255).unwrap();
    assert_eq!(pixels_of(&result.src_a), (4, 4, a.data));
    assert_eq!(pixels_of(&result.src_b).0, 4);
}

#[test]
fn broken_buffers_are_refused() {
    let good = solid(2, 2, 0);
    let broken = PixelBuffer { width: 2, height: 2, data: vec![0; 4] };
    assert!(matches!(
        compute_diff_simple(copy(&good), copy(&broken), 1),
        Err(EngineError::Buffer(_))
    ));
    assert!(matches!(compute_diff_simple(broken, good, 1), Err(EngineError::Buffer(_))));
    let good = solid(2, 2, 0);
    let broken = PixelBuffer { width: 2, height: 2, data: vec![0; 4] };
    let bounds = CropBounds { left: 0, top: 0, right: 2, bottom: 2 };
    assert!(matches!(
        compute_diff_heatmap(copy(&good), copy(&broken), bounds, 1),
        Err(EngineError::Buffer(_))
    ));
    assert!(matches!(compute_diff_heatmap(broken, good, bounds, 1), Err(EngineError::Buffer(_))));
}

#[test]
fn images_without_pixels_cannot_be_embedded() {
    let empty = PixelBuffer { width: 0, height: 0, data: Vec::new() };
    let other = PixelBuffer { width: 0, height: 0, data: Vec::new() };
    assert!(matches!(compute_diff_simple(empty, other, 1), Err(EngineError::Encode(_))));
}

#[test]
fn two_images_of_one_size() {
    let a = solid(3, 3, 0);
    let mut b = solid(3, 3, 0);
    b.data[0] = 255;
    b.data[4 * 8 + 2] = 255;
    let result = diff_simple_images(&a, &b, 0).unwrap();
    assert_eq!(result.diff_count, 2);
    assert_eq!(result.markers, vec![DiffMarker { x2: 2, y2: 2, radius2: 600, count: 2 }]);
}

#[test]
fn the_design_is_cropped_and_compared() {
    let design = numbered(6, 6);
    let mut raster = PixelBuffer { width: 3, height: 2, data: Vec::new() };
    for y in 2..4u32 {
        for x in 1..4u32 {
            raster.data.extend_from_slice(&[(10 * x) as u8, (10 * y) as u8, (16 * y + x) as u8, 255]);
        }
    }
    let bounds = CropBounds { left: 1, top: 2, right: 4, bottom: 4 };
    let result = compute_diff_heatmap(copy(&design), copy(&raster), bounds, 0).unwrap();
    assert_eq!((result.image_width, result.image_height), (3, 2));
    assert_eq!(result.high_density_count, 0);
    assert!(!result.has_diff);
    assert_eq!(result.diff_probability_tenths, 0);
    assert!(result.markers.is_empty());
    assert_eq!(pixels_of(&result.src_a), (6, 6, design.data));
    assert_eq!(pixels_of(&result.src_b), (3, 2, raster.data.clone()));
    assert_eq!(pixels_of(&result.processed_a), (3, 2, raster.data));
    let (_, _, heat) = pixels_of(&result.diff_src);
    for px in heat.chunks(4) {
        assert_eq!(px, &[0, 0, 0, 255]);
    }
}

#[test]
fn a_crop_beyond_the_design_is_cut_down_to_it() {
    let design = numbered(4, 4);
    let bounds = CropBounds { left: 2, top: 3, right: 100, bottom: 100 };
    let raster = solid(2, 1, 0);
    let result = compute_diff_heatmap(copy(&design), raster, bounds, 255).unwrap();
    let (w, h, data) = pixels_of(&result.processed_a);
    assert_eq!((w, h), (2, 1));
    assert_eq!(data, vec![20, 30, 50, 255, 30, 30, 51, 255]);
}

#[test]
fn the_crop_is_stretched_without_smoothing() {
    let mut design = solid(2, 1, 0);
    design.data[4] = 200;
    design.data[5] = 200;
    design.data[6] = 200;
    let raster = solid(4, 1, 0);
    let bounds = CropBounds { left: 0, top: 0, right: 2, bottom: 1 };
    let result = compute_diff_heatmap(design, raster, bounds, 10).unwrap();
    let (_, _, data) = pixels_of(&result.processed_a);
    let reds: Vec<u8> = data.chunks(4).map(|px| px[0]).collect();
    assert_eq!(reds, vec![0, 0, 200, 200]);
    // Two of four pixels differ; every window holds all four pixels, so
    // every density is one half and every flagged pixel is at the peak.
    assert_eq!(result.high_density_count, 2);
    assert!(result.has_diff);
    assert_eq!(result.diff_probability_tenths, 1000);
    assert!(result.markers.is_empty());
    let (_, _, heat) = pixels_of(&result.diff_src);
    assert_eq!(
        heat,
        vec![0, 0, 0, 255, 0, 0, 0, 255, 255, 0, 0, 255, 255, 0, 0, 255]
    );
}

#[test]
fn hot_clusters_of_twenty_pixels_get_a_marker() {
    let design = solid(10, 10, 0);
    let raster = solid(10, 10, 255);
    let bounds = CropBounds { left: 0, top: 0, right: 10, bottom: 10 };
    let result = compute_diff_heatmap(design, raster, bounds, 10).unwrap();
    assert_eq!(result.high_density_count, 100);
    assert_eq!(result.diff_probability_tenths, 1000);
    assert_eq!(result.markers, vec![DiffMarker { x2: 9, y2: 9, radius2: 160, count: 100 }]);
}

#[test]
fn crop_bounds_out_of_order_are_refused() {
    let bounds = CropBounds { left: 3, top: 0, right: 2, bottom: 2 };
    assert!(matches!(
        compute_diff_heatmap(solid(4, 4, 0), solid(4, 4, 0), bounds, 1),
        Err(EngineError::Buffer(_))
    ));
    let bounds = CropBounds { left: 0, top: 3, right: 2, bottom: 2 };
    assert!(matches!(
        compute_diff_heatmap(solid(4, 4, 0), solid(4, 4, 0), bounds, 1),
        Err(EngineError::Buffer(_))
    ));
}

#[test]
fn a_processed_design_against_its_raster() {
    let design = solid(1, 1, 9);
    let raster = solid(2, 2, 0);
    let processed = solid(2, 2, 200);
    let result = diff_heatmap_images(&design, &raster, &processed, 10).unwrap();
    assert_eq!(result.high_density_count, 4);
    assert_eq!(pixels_of(&result.src_a), (1, 1, design.data));
    assert_eq!(pixels_of(&result.processed_a), (2, 2, processed.data));
}

#[test]
fn images_too_long_to_resample_smoothly_are_refused() {
    let long = PixelBuffer { width: 1, height: 1_048_577, data: vec![0; 4 * 1_048_577] };
    let short = PixelBuffer { width: 2, height: 1, data: vec![0; 8] };
    assert!(matches!(compute_diff_simple(long, short, 10), Err(EngineError::Buffer(_))));
    let long = PixelBuffer { width: 1, height: 1_048_577, data: vec![0; 4 * 1_048_577] };
    let same = PixelBuffer { width: 1, height: 1_048_577, data: vec![0; 4 * 1_048_577] };
    let result = compute_diff_simple(long, same, 10).unwrap();
    assert_eq!(result.diff_count, 0);
    assert_eq!((result.image_width, result.image_height), (1, 1_048_577));
}
