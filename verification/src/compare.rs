//! The two comparisons: a thresholded diff of two renderings of the same
//! kind, and a heatmap diff of a design against a production raster.

use crate::cluster::cluster_markers;
use crate::codec::can_resample;
use crate::codec::crop;
use crate::codec::cropped;
use crate::codec::lesser;
use crate::codec::resample;
use crate::codec::resampled;
use crate::codec::Resampling;
use crate::errors::EngineError;
use crate::heatmap::diff_heatmap_core;
use crate::heatmap::heat_overlay;
use crate::heatmap::hot_mask;
use crate::parallel::par_join;
use crate::picture::data_url_of;
use crate::picture::encode_rgba_to_data_url;
use crate::picture::encode_to_data_url;
use crate::picture::resample_allowed;
use crate::picture::PixelBuffer;
use crate::pixel::diff_mask;
use crate::pixel::lemma_selection_clear;
use crate::pixel::selection;
use crate::pixel::DiffPixel;
use crate::region::by_count_descending;
use crate::region::marks_clusters;
use crate::region::saturated;
use crate::region::DiffMarker;
use crate::scale::diff_probability_tenths;
use crate::scale::probability_tenths;
use crate::simple::diff_simple_core;
use crate::simple::overlay_of;
use vstd::prelude::*;
use vstd::string::StringExecFns;

verus! {

/// Side of a grid cell when the pixels of a simple diff are clustered.
pub const SIMPLE_GRID: u32 = 200;

/// Least number of pixels of a cluster of a simple diff.
pub const SIMPLE_MIN_CLUSTER: u32 = 1;

/// Least radius of a marker of a simple diff, in half pixels: 300 pixels.
pub const SIMPLE_MIN_RADIUS2: u32 = 600;

/// Side of a grid cell when the hot pixels of a heatmap are clustered.
pub const HEAT_GRID: u32 = 250;

/// Least number of pixels of a cluster of a heatmap diff.
pub const HEAT_MIN_CLUSTER: u32 = 20;

/// Least radius of a marker of a heatmap diff, in half pixels: 80 pixels.
pub const HEAT_MIN_RADIUS2: u32 = 160;

/// The rectangle that is cut out of a design before it is compared.
#[derive(Clone, Copy, Debug)]
pub struct CropBounds {
    pub left: u32,
    pub top: u32,
    pub right: u32,
    pub bottom: u32,
}

/// What a simple diff returns: both images and the overlay as data URLs,
/// the number of differing pixels, and the markers of their clusters.
#[derive(Debug)]
pub struct DiffSimpleResult {
    pub src_a: String,
    pub src_b: String,
    pub diff_src: String,
    pub has_diff: bool,
    pub diff_count: u32,
    pub markers: Vec<DiffMarker>,
    pub image_width: u32,
    pub image_height: u32,
}

/// What a heatmap diff returns: design, raster, processed design and heatmap
/// as data URLs, the number of hot pixels, the probability score in tenths
/// of a percent, and the markers of the clusters of hot pixels.
#[derive(Debug)]
pub struct DiffHeatmapResult {
    pub src_a: String,
    pub src_b: String,
    pub processed_a: String,
    pub diff_src: String,
    pub has_diff: bool,
    pub diff_probability_tenths: u32,
    pub high_density_count: u32,
    pub markers: Vec<DiffMarker>,
    pub image_width: u32,
    pub image_height: u32,
}

/// The pixels of two images of one size that differ, in row-major order.
pub open spec fn differing(a: Seq<u8>, b: Seq<u8>, width: u32, height: u32, threshold: u8) -> Seq<
    DiffPixel,
> {
    selection(diff_mask(a, b, width * height, threshold), width as int, height as int)
}

/// The result is the simple diff of two images of one size.
pub open spec fn simple_diff_of(
    a: Seq<u8>,
    b: Seq<u8>,
    width: u32,
    height: u32,
    threshold: u8,
    result: DiffSimpleResult,
) -> bool {
    &&& result.image_width == width
    &&& result.image_height == height
    &&& result.diff_count == saturated(differing(a, b, width, height, threshold).len() as int)
    &&& result.has_diff == (differing(a, b, width, height, threshold).len() > 0)
    &&& by_count_descending(result.markers@)
    &&& exists|reps: Seq<int>|
        marks_clusters(
            differing(a, b, width, height, threshold),
            SIMPLE_GRID as int,
            SIMPLE_MIN_CLUSTER,
            SIMPLE_MIN_RADIUS2,
            result.markers@,
            reps,
        )
    &&& data_url_of(width, height, a) == Some(result.src_a@)
    &&& data_url_of(width, height, b) == Some(result.src_b@)
    &&& data_url_of(
        width,
        height,
        overlay_of(diff_mask(a, b, width * height, threshold)),
    ) == Some(result.diff_src@)
}

/// Both images and the overlay of their diff can be embedded.
pub open spec fn simple_diff_embeds(a: Seq<u8>, b: Seq<u8>, width: u32, height: u32, threshold: u8) -> bool {
    &&& data_url_of(width, height, a) is Some
    &&& data_url_of(width, height, b) is Some
    &&& data_url_of(width, height, overlay_of(diff_mask(a, b, width * height, threshold))) is Some
}

/// Two images with the same bytes do not differ: the simple diff counts no
/// pixel, has no marker, and says so.
pub proof fn lemma_identical_images(
    a: Seq<u8>,
    width: u32,
    height: u32,
    threshold: u8,
    result: DiffSimpleResult,
)
    requires
        simple_diff_of(a, a, width, height, threshold, result),
    ensures
        result.diff_count == 0,
        result.markers@.len() == 0,
        !result.has_diff,
{
    lemma_same_bytes_no_difference(a, width, height, threshold);
    let reps = choose|reps: Seq<int>|
        marks_clusters(
            differing(a, a, width, height, threshold),
            SIMPLE_GRID as int,
            SIMPLE_MIN_CLUSTER,
            SIMPLE_MIN_RADIUS2,
            result.markers@,
            reps,
        );
    if reps.len() > 0 {
        assert(0 <= reps[0] < differing(a, a, width, height, threshold).len());
    }
}

/// An image compared with itself has no differing pixel, whatever the
/// threshold.
pub proof fn lemma_same_bytes_no_difference(a: Seq<u8>, width: u32, height: u32, threshold: u8)
    ensures
        differing(a, a, width, height, threshold) == Seq::<DiffPixel>::empty(),
{
    let mask = diff_mask(a, a, width * height, threshold);
    assert forall|i: int| 0 <= i < width * height implies !mask[i] by {}
    lemma_selection_clear(mask, width as int, height as int);
}

/// Compares two images of one size: the diff, its clusters, and the three
/// data URLs.
pub fn diff_simple_images(a: &PixelBuffer, b: &PixelBuffer, threshold: u8) -> (out: Result<
    DiffSimpleResult,
    EngineError,
>)
    requires
        a.wf(),
        b.wf(),
        a.width == b.width,
        a.height == b.height,
    ensures
        match out {
            Ok(result) => simple_diff_of(a.data@, b.data@, a.width, a.height, threshold, result),
            Err(e) => !simple_diff_embeds(a.data@, b.data@, a.width, a.height, threshold) && e
                is Encode,
        },
{
    let width = a.width;
    let height = a.height;
    assert(a.data@.len() <= usize::MAX) by {
        assert(a.data@.len() == a.data.len());
    }
    assert(4 * width * height == width * height * 4) by (nonlinear_arith);
    let diff = diff_simple_core(a.data.as_slice(), b.data.as_slice(), width, height, threshold);
    let diff_buf = diff.0;
    let diff_count = diff.1;
    let diff_pixels = diff.2;
    let markers = cluster_markers(
        diff_pixels.as_slice(),
        SIMPLE_GRID,
        SIMPLE_MIN_CLUSTER,
        SIMPLE_MIN_RADIUS2,
    );
    let encode_a = || -> (url: Result<String, EngineError>)
        ensures
            match url {
                Ok(text) => data_url_of(a.width, a.height, a.data@) == Some(text@),
                Err(e) => data_url_of(a.width, a.height, a.data@) is None && e is Encode,
            },
        { encode_to_data_url(a) };
    let encode_b = || -> (url: Result<String, EngineError>)
        ensures
            match url {
                Ok(text) => data_url_of(b.width, b.height, b.data@) == Some(text@),
                Err(e) => data_url_of(b.width, b.height, b.data@) is None && e is Encode,
            },
        { encode_to_data_url(b) };
    let encode_diff = || -> (url: Result<String, EngineError>)
        ensures
            match url {
                Ok(text) => data_url_of(width, height, diff_buf@) == Some(text@),
                Err(e) => data_url_of(width, height, diff_buf@) is None && e is Encode,
            },
        { encode_rgba_to_data_url(diff_buf.as_slice(), width, height) };
    let encode_rest = || -> (urls: (Result<String, EngineError>, Result<String, EngineError>))
        ensures
            call_ensures(encode_b, (), urls.0),
            call_ensures(encode_diff, (), urls.1),
        { par_join(encode_b, encode_diff) };
    let encoded = par_join(encode_a, encode_rest);
    let src_a = match encoded.0 {
        Ok(url) => url,
        Err(e) => {
            return Err(e);
        },
    };
    let src_b = match (encoded.1).0 {
        Ok(url) => url,
        Err(e) => {
            return Err(e);
        },
    };
    let diff_src = match (encoded.1).1 {
        Ok(url) => url,
        Err(e) => {
            return Err(e);
        },
    };
    Ok(
        DiffSimpleResult {
            src_a,
            src_b,
            diff_src,
            has_diff: diff_count > 0,
            diff_count,
            markers,
            image_width: width,
            image_height: height,
        },
    )
}

/// The greater of two numbers.
pub open spec fn greater(a: u32, b: u32) -> u32 {
    if a >= b {
        a
    } else {
        b
    }
}

/// The pixels of an image brought to a size: an image of that size is left
/// as it is, any other is resampled with linear interpolation.
pub open spec fn stretched(img: PixelBuffer, width: u32, height: u32) -> Seq<u8> {
    if img.width == width && img.height == height {
        img.data@
    } else {
        resampled(img.data@, img.width, img.height, width, height, true)
    }
}

/// An image can be brought to a size: it has that size, or it can be
/// resampled to it with linear interpolation.
pub open spec fn can_stretch(img: PixelBuffer, width: u32, height: u32) -> bool {
    (img.width == width && img.height == height) || can_resample(
        img.width,
        img.height,
        width,
        height,
        true,
    )
}

/// Brings an image to a size, where it can be brought to it.
fn stretch(img: PixelBuffer, width: u32, height: u32) -> (out: Result<PixelBuffer, EngineError>)
    requires
        img.wf(),
    ensures
        match out {
            Ok(buffer) => can_stretch(img, width, height) && buffer.wf() && buffer.width == width
                && buffer.height == height && buffer.data@ == stretched(img, width, height),
            Err(e) => !can_stretch(img, width, height) && e is Buffer,
        },
{
    if img.width == width && img.height == height {
        Ok(img)
    } else if resample_allowed(img.width, img.height, width, height, true) {
        let data = resample(
            img.data.as_slice(),
            img.width,
            img.height,
            width,
            height,
            Resampling::Smooth,
        );
        Ok(PixelBuffer { width, height, data })
    } else {
        Err(EngineError::Buffer(String::from_str("Failed to create image buffer")))
    }
}

/// Two images can be compared: both buffers are well formed, and both
/// images can be brought to the greater width and the greater height.
pub open spec fn simply_comparable(a: PixelBuffer, b: PixelBuffer) -> bool {
    &&& a.wf()
    &&& b.wf()
    &&& can_stretch(a, greater(a.width, b.width), greater(a.height, b.height))
    &&& can_stretch(b, greater(a.width, b.width), greater(a.height, b.height))
}

/// Compares two renderings of the same kind.
///
/// Images of different sizes are both brought to the greater width and the
/// greater height by resampling; nothing is cropped. Then the images are
/// compared pixel by pixel, the differing pixels are clustered into markers,
/// and both images and the overlay are embedded.
pub fn compute_diff_simple(img_a: PixelBuffer, img_b: PixelBuffer, threshold: u8) -> (out: Result<
    DiffSimpleResult,
    EngineError,
>)
    ensures
        match out {
            Ok(result) => {
                &&& simply_comparable(img_a, img_b)
                &&& simple_diff_of(
                    stretched(
                        img_a,
                        greater(img_a.width, img_b.width),
                        greater(img_a.height, img_b.height),
                    ),
                    stretched(
                        img_b,
                        greater(img_a.width, img_b.width),
                        greater(img_a.height, img_b.height),
                    ),
                    greater(img_a.width, img_b.width),
                    greater(img_a.height, img_b.height),
                    threshold,
                    result,
                )
                &&& img_a.width == img_b.width && img_a.height == img_b.height && img_a.data@
                    == img_b.data@ ==> result.diff_count == 0 && result.markers@.len() == 0
                    && !result.has_diff
            },
            Err(e) => {
                &&& e is Buffer <==> !simply_comparable(img_a, img_b)
                &&& e is Buffer || e is Encode
                &&& e is Encode ==> !simple_diff_embeds(
                    stretched(
                        img_a,
                        greater(img_a.width, img_b.width),
                        greater(img_a.height, img_b.height),
                    ),
                    stretched(
                        img_b,
                        greater(img_a.width, img_b.width),
                        greater(img_a.height, img_b.height),
                    ),
                    greater(img_a.width, img_b.width),
                    greater(img_a.height, img_b.height),
                    threshold,
                )
            },
        },
{
    if !img_a.is_wf() || !img_b.is_wf() {
        return Err(EngineError::Buffer(String::from_str("Failed to create image buffer")));
    }
    let width = if img_a.width >= img_b.width {
        img_a.width
    } else {
        img_b.width
    };
    let height = if img_a.height >= img_b.height {
        img_a.height
    } else {
        img_b.height
    };
    let ghost a0 = img_a;
    let ghost b0 = img_b;
    let a = match stretch(img_a, width, height) {
        Ok(a) => a,
        Err(e) => {
            return Err(e);
        },
    };
    let b = match stretch(img_b, width, height) {
        Ok(b) => b,
        Err(e) => {
            return Err(e);
        },
    };
    let out = diff_simple_images(&a, &b, threshold);
    proof {
        if out is Ok {
            let result = out->Ok_0;
            assert(simple_diff_of(a.data@, b.data@, width, height, threshold, result));
            if a0.width == b0.width && a0.height == b0.height && a0.data@ == b0.data@ {
                lemma_identical_images(a.data@, width, height, threshold, result);
            }
        }
    }
    out
}

/// The hot pixels of the heatmap of two images of one size, in row-major
/// order.
pub open spec fn hot_pixels(a: Seq<u8>, b: Seq<u8>, width: u32, height: u32, threshold: u8) -> Seq<
    DiffPixel,
> {
    selection(
        hot_mask(diff_mask(a, b, width * height, threshold), width as int, height as int),
        width as int,
        height as int,
    )
}

/// The result is the heatmap diff of the processed design against the
/// raster, with the design as it came embedded beside them.
pub open spec fn heatmap_diff_of(
    design: PixelBuffer,
    raster: PixelBuffer,
    processed: Seq<u8>,
    threshold: u8,
    result: DiffHeatmapResult,
) -> bool {
    let width = raster.width;
    let height = raster.height;
    let hot = hot_pixels(processed, raster.data@, width, height, threshold);
    &&& result.image_width == width
    &&& result.image_height == height
    &&& result.high_density_count == saturated(hot.len() as int)
    &&& result.has_diff == (hot.len() > 0)
    &&& result.diff_probability_tenths == probability_tenths(hot.len() as int, width * height)
    &&& by_count_descending(result.markers@)
    &&& exists|reps: Seq<int>|
        marks_clusters(
            hot,
            HEAT_GRID as int,
            HEAT_MIN_CLUSTER,
            HEAT_MIN_RADIUS2,
            result.markers@,
            reps,
        )
    &&& data_url_of(design.width, design.height, design.data@) == Some(result.src_a@)
    &&& data_url_of(width, height, raster.data@) == Some(result.src_b@)
    &&& data_url_of(width, height, processed) == Some(result.processed_a@)
    &&& data_url_of(
        width,
        height,
        heat_overlay(
            diff_mask(processed, raster.data@, width * height, threshold),
            width as int,
            height as int,
        ),
    ) == Some(result.diff_src@)
}

/// Design, raster, processed design and heatmap can be embedded.
pub open spec fn heatmap_diff_embeds(
    design: PixelBuffer,
    raster: PixelBuffer,
    processed: Seq<u8>,
    threshold: u8,
) -> bool {
    &&& data_url_of(design.width, design.height, design.data@) is Some
    &&& data_url_of(raster.width, raster.height, raster.data@) is Some
    &&& data_url_of(raster.width, raster.height, processed) is Some
    &&& data_url_of(
        raster.width,
        raster.height,
        heat_overlay(
            diff_mask(processed, raster.data@, raster.width * raster.height, threshold),
            raster.width as int,
            raster.height as int,
        ),
    ) is Some
}

/// Compares a processed design with a raster of the same size: the heatmap,
/// the clusters of its hot pixels, the probability score, and the four data
/// URLs.
pub fn diff_heatmap_images(
    design: &PixelBuffer,
    raster: &PixelBuffer,
    processed: &PixelBuffer,
    threshold: u8,
) -> (out: Result<DiffHeatmapResult, EngineError>)
    requires
        raster.wf(),
        processed.wf(),
        processed.width == raster.width,
        processed.height == raster.height,
    ensures
        match out {
            Ok(result) => heatmap_diff_of(*design, *raster, processed.data@, threshold, result),
            Err(e) => !heatmap_diff_embeds(*design, *raster, processed.data@, threshold) && (e
                is Encode || e is Buffer) && (e is Buffer ==> !design.wf()),
        },
{
    let width = raster.width;
    let height = raster.height;
    assert(raster.data@.len() <= usize::MAX) by {
        assert(raster.data@.len() == raster.data.len());
    }
    assert(4 * width * height == width * height * 4) by (nonlinear_arith);
    let heat = diff_heatmap_core(
        processed.data.as_slice(),
        raster.data.as_slice(),
        width,
        height,
        threshold,
    );
    let heatmap_buf = heat.0;
    let high_density_count = heat.1;
    let high_pixels = heat.2;
    let markers = cluster_markers(
        high_pixels.as_slice(),
        HEAT_GRID,
        HEAT_MIN_CLUSTER,
        HEAT_MIN_RADIUS2,
    );
    let ghost reps = choose|reps: Seq<int>|
        marks_clusters(
            high_pixels@,
            HEAT_GRID as int,
            HEAT_MIN_CLUSTER,
            HEAT_MIN_RADIUS2,
            markers@,
            reps,
        );
    let diff_probability = diff_probability_tenths(high_pixels.len() as u64, width, height);
    let encode_design = || -> (url: Result<String, EngineError>)
        ensures
            match url {
                Ok(text) => data_url_of(design.width, design.height, design.data@) == Some(text@),
                Err(e) => data_url_of(design.width, design.height, design.data@) is None && (e
                    is Encode || e is Buffer) && (e is Buffer ==> !design.wf()),
            },
        { encode_to_data_url(design) };
    let encode_raster = || -> (url: Result<String, EngineError>)
        ensures
            match url {
                Ok(text) => data_url_of(raster.width, raster.height, raster.data@) == Some(text@),
                Err(e) => data_url_of(raster.width, raster.height, raster.data@) is None && e
                    is Encode,
            },
        { encode_to_data_url(raster) };
    let encode_processed = || -> (url: Result<String, EngineError>)
        ensures
            match url {
                Ok(text) => data_url_of(processed.width, processed.height, processed.data@)
                    == Some(text@),
                Err(e) => data_url_of(processed.width, processed.height, processed.data@) is None
                    && e is Encode,
            },
        { encode_to_data_url(processed) };
    let encode_heat = || -> (url: Result<String, EngineError>)
        ensures
            match url {
                Ok(text) => data_url_of(width, height, heatmap_buf@) == Some(text@),
                Err(e) => data_url_of(width, height, heatmap_buf@) is None && e is Encode,
            },
        { encode_rgba_to_data_url(heatmap_buf.as_slice(), width, height) };
    let encode_sources = || -> (urls: (Result<String, EngineError>, Result<String, EngineError>))
        ensures
            call_ensures(encode_design, (), urls.0),
            call_ensures(encode_raster, (), urls.1),
        { par_join(encode_design, encode_raster) };
    let encode_results = || -> (urls: (Result<String, EngineError>, Result<String, EngineError>))
        ensures
            call_ensures(encode_processed, (), urls.0),
            call_ensures(encode_heat, (), urls.1),
        { par_join(encode_processed, encode_heat) };
    let encoded = par_join(encode_sources, encode_results);
    let src_a = match (encoded.0).0 {
        Ok(url) => url,
        Err(e) => {
            return Err(e);
        },
    };
    let src_b = match (encoded.0).1 {
        Ok(url) => url,
        Err(e) => {
            return Err(e);
        },
    };
    let processed_a = match (encoded.1).0 {
        Ok(url) => url,
        Err(e) => {
            return Err(e);
        },
    };
    let diff_src = match (encoded.1).1 {
        Ok(url) => url,
        Err(e) => {
            return Err(e);
        },
    };
    let result = DiffHeatmapResult {
        src_a,
        src_b,
        processed_a,
        diff_src,
        has_diff: high_density_count > 0,
        diff_probability_tenths: diff_probability,
        high_density_count,
        markers,
        image_width: width,
        image_height: height,
    };
    proof {
        let hot = hot_pixels(processed.data@, raster.data@, width, height, threshold);
        assert(high_pixels@ == hot);
        assert(result.high_density_count == saturated(hot.len() as int));
        assert(result.has_diff == (hot.len() > 0));
        assert(result.diff_probability_tenths == probability_tenths(
            hot.len() as int,
            width * height,
        ));
        assert(marks_clusters(
            hot,
            HEAT_GRID as int,
            HEAT_MIN_CLUSTER,
            HEAT_MIN_RADIUS2,
            result.markers@,
            reps,
        ));
        assert(data_url_of(width, height, processed.data@) == Some(result.processed_a@));
        assert(data_url_of(
            width,
            height,
            heat_overlay(
                diff_mask(processed.data@, raster.data@, width * height, threshold),
                width as int,
                height as int,
            ),
        ) == Some(result.diff_src@));
    }
    assert(heatmap_diff_of(*design, *raster, processed.data@, threshold, result));
    Ok(result)
}

/// The crop bounds are in order: left is not right of right, top not below
/// bottom.
pub open spec fn bounds_in_order(crop_bounds: CropBounds) -> bool {
    crop_bounds.left <= crop_bounds.right && crop_bounds.top <= crop_bounds.bottom
}

/// Width of the crop of a design: the width of the bounds, cut down to what
/// the design has right of their left edge.
pub open spec fn crop_width(design: PixelBuffer, crop_bounds: CropBounds) -> int {
    lesser(
        crop_bounds.right - crop_bounds.left,
        design.width - lesser(crop_bounds.left as int, design.width as int),
    )
}

/// Height of the crop of a design.
pub open spec fn crop_height(design: PixelBuffer, crop_bounds: CropBounds) -> int {
    lesser(
        crop_bounds.bottom - crop_bounds.top,
        design.height - lesser(crop_bounds.top as int, design.height as int),
    )
}

/// The pixels of the crop of a design.
pub open spec fn crop_of(design: PixelBuffer, crop_bounds: CropBounds) -> Seq<u8> {
    cropped(
        design.data@,
        design.width as int,
        lesser(crop_bounds.left as int, design.width as int),
        lesser(crop_bounds.top as int, design.height as int),
        crop_width(design, crop_bounds),
        crop_height(design, crop_bounds),
    )
}

/// The crop of a design brought to the size of a raster with nearest
/// neighbour.
pub open spec fn processed_of(design: PixelBuffer, raster: PixelBuffer, crop_bounds: CropBounds) -> Seq<
    u8,
> {
    resampled(
        crop_of(design, crop_bounds),
        crop_width(design, crop_bounds) as u32,
        crop_height(design, crop_bounds) as u32,
        raster.width,
        raster.height,
        false,
    )
}

/// A design can be compared with a raster within the bounds: both buffers
/// are well formed, the bounds are in order, and the crop can be resampled
/// to the size of the raster.
pub open spec fn comparable(design: PixelBuffer, raster: PixelBuffer, crop_bounds: CropBounds) -> bool {
    &&& design.wf()
    &&& raster.wf()
    &&& bounds_in_order(crop_bounds)
    &&& can_resample(
        crop_width(design, crop_bounds) as u32,
        crop_height(design, crop_bounds) as u32,
        raster.width,
        raster.height,
        false,
    )
}

/// Compares a design with a production raster.
///
/// The design is cropped to the bounds, the crop is resampled to the size of
/// the raster with nearest neighbour, and the heatmap of the crop against
/// the raster is drawn. The hot pixels are clustered into markers, the
/// probability score is computed, and design, raster, processed crop and
/// heatmap are embedded.
pub fn compute_diff_heatmap(
    psd_img: PixelBuffer,
    tiff_img: PixelBuffer,
    crop_bounds: CropBounds,
    threshold: u8,
) -> (out: Result<DiffHeatmapResult, EngineError>)
    ensures
        match out {
            Ok(result) => {
                &&& comparable(psd_img, tiff_img, crop_bounds)
                &&& heatmap_diff_of(
                    psd_img,
                    tiff_img,
                    processed_of(psd_img, tiff_img, crop_bounds),
                    threshold,
                    result,
                )
                &&& crop_width(psd_img, crop_bounds) == tiff_img.width && crop_height(
                    psd_img,
                    crop_bounds,
                ) == tiff_img.height ==> processed_of(psd_img, tiff_img, crop_bounds) == crop_of(
                    psd_img,
                    crop_bounds,
                )
            },
            Err(e) => {
                &&& e is Buffer <==> !comparable(psd_img, tiff_img, crop_bounds)
                &&& e is Buffer || e is Encode
                &&& e is Encode ==> !heatmap_diff_embeds(
                    psd_img,
                    tiff_img,
                    processed_of(psd_img, tiff_img, crop_bounds),
                    threshold,
                )
            },
        },
{
    if !psd_img.is_wf() || !tiff_img.is_wf() {
        return Err(EngineError::Buffer(String::from_str("Failed to create image buffer")));
    }
    if crop_bounds.right < crop_bounds.left || crop_bounds.bottom < crop_bounds.top {
        return Err(EngineError::Buffer(String::from_str("Crop bounds are not in order")));
    }
    let width = tiff_img.width;
    let height = tiff_img.height;
    let crop_w = crop_bounds.right - crop_bounds.left;
    let crop_h = crop_bounds.bottom - crop_bounds.top;
    let cut = crop(
        psd_img.data.as_slice(),
        psd_img.width,
        psd_img.height,
        crop_bounds.left,
        crop_bounds.top,
        crop_w,
        crop_h,
    );
    if !resample_allowed(cut.0, cut.1, width, height, false) {
        return Err(EngineError::Buffer(String::from_str("Failed to create image buffer")));
    }
    let data = resample(
        cut.2.as_slice(),
        cut.0,
        cut.1,
        width,
        height,
        Resampling::Nearest,
    );
    let processed = PixelBuffer { width, height, data };
    let out = diff_heatmap_images(&psd_img, &tiff_img, &processed, threshold);
    proof {
        if out is Ok {
            let result = out->Ok_0;
            assert(heatmap_diff_of(psd_img, tiff_img, processed.data@, threshold, result));
        }
    }
    out
}

} // verus!
