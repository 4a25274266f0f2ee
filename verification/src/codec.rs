//! Decoding, resampling and encoding of RGBA images, done by the `image`
//! and `base64` crates. Every function here is a trusted boundary: its
//! contract is believed, not proved.

use image::imageops::FilterType;
use image::ImageBuffer;
use image::ImageError;
use image::ImageFormat;
use image::Rgba;
use std::io::Cursor;
use vstd::prelude::*;

verus! {

/// An error of the `image` crate.
#[verifier::external_type_specification]
#[verifier::external_body]
pub struct ExImageError(image::ImageError);

/// How an image is resampled when it changes size.
#[derive(Clone, Copy, Debug, PartialEq, Eq)]
pub enum Resampling {
    /// Linear interpolation, for photographic content.
    Smooth,
    /// Nearest neighbour, which keeps hard edges.
    Nearest,
}

/// The PNG file that an RGBA image of a width and height is written as, or
/// `None` where the encoder refuses the image.
pub uninterp spec fn png_encoding(width: u32, height: u32, data: Seq<u8>) -> Option<Seq<u8>>;

/// The standard base64 text of a sequence of bytes, with padding.
pub uninterp spec fn base64_text(bytes: Seq<u8>) -> Seq<char>;

/// The lower-case form of a text.
pub uninterp spec fn lowercase_text(text: Seq<char>) -> Seq<char>;

/// The pixels of an RGBA image of a width and height resampled to a new
/// width and height, with linear interpolation where `smooth` is set and
/// with nearest neighbour where it is not.
pub uninterp spec fn resampled(
    data: Seq<u8>,
    width: u32,
    height: u32,
    new_width: u32,
    new_height: u32,
    smooth: bool,
) -> Seq<u8>;

/// What decoding the bytes of a raster file gives, the format told from the
/// extension of the path: width, height and RGBA bytes, or the text of the
/// decoder's error.
pub uninterp spec fn raster_decoding(path: Seq<char>, bytes: Seq<u8>) -> Result<
    (u32, u32, Seq<u8>),
    Seq<char>,
>;

/// Decodes the bytes of a raster file to width, height and RGBA bytes. The
/// format is the one that the extension of the path stands for.
///
/// Not proved: this calls `image::ImageFormat::from_path` on the path and
/// `image::load_from_memory_with_format` on the bytes and the format found,
/// converts the image with `DynamicImage::into_rgba8`, and an error with
/// its `Display` implementation. The contract claims that the outcome
/// depends on path and bytes alone, and gives it a name. Nothing is claimed
/// of what the outcome is; the caller checks that the bytes fill the width
/// and height.
#[verifier::external_body]
pub(crate) fn decode_rgba(path: &str, bytes: &[u8]) -> (out: Result<(u32, u32, Vec<u8>), String>)
    ensures
        match out {
            Ok(decoded) => raster_decoding(path@, bytes@) == Ok::<(u32, u32, Seq<u8>), Seq<char>>(
                (decoded.0, decoded.1, decoded.2@),
            ),
            Err(reason) => raster_decoding(path@, bytes@) == Err::<(u32, u32, Seq<u8>), Seq<char>>(
                reason@,
            ),
        },
{
    let decoded = match ImageFormat::from_path(path) {
        Ok(format) => image::load_from_memory_with_format(bytes, format),
        Err(error) => Err(error),
    };
    match decoded {
        Ok(image) => {
            let pixels = image.into_rgba8();
            Ok((pixels.width(), pixels.height(), pixels.into_raw()))
        },
        Err(error) => Err(format!("{}", error)),
    }
}

/// The text of an error of the `image` crate.
///
/// Not proved: this formats the error with its `Display` implementation.
/// Nothing is claimed of the text.
#[verifier::external_body]
pub(crate) fn image_error_text(error: &ImageError) -> String {
    format!("{}", error)
}

/// Largest width or height that is resampled with linear interpolation.
pub const SMOOTH_LIMIT: u32 = 0x10_0000;

/// An image of a width and height can be resampled to a new width and
/// height: the result and the 32-bit floats that the resampling works on
/// fit in memory, and for linear interpolation no extent is above the
/// limit.
pub open spec fn can_resample(
    width: u32,
    height: u32,
    new_width: u32,
    new_height: u32,
    smooth: bool,
) -> bool {
    &&& 16 * width * new_height <= isize::MAX
    &&& 4 * new_width * new_height <= isize::MAX
    &&& smooth ==> width <= SMOOTH_LIMIT && height <= SMOOTH_LIMIT && new_width <= SMOOTH_LIMIT
        && new_height <= SMOOTH_LIMIT
}

/// Resamples an RGBA image to exactly `new_width` by `new_height`.
///
/// Not proved: this calls `image::imageops::resize`. The contract claims
/// that the result depends on the arguments alone, and gives it a name;
/// that it has four bytes for each pixel of the size asked for, as the
/// buffer that the function allocates for it has; and that an image that
/// already has that size is copied.
///
/// The `requires` leaves out the inputs on which the function panics. It
/// panics where it cannot allocate the result or the buffer of 32-bit
/// floats, `width` by `new_height`, that it samples into first. With the
/// triangle filter it also panics where all the weights of a sample are 0:
/// it divides by their sum and cannot turn the outcome into a byte. The
/// function places each sample in `f32`, at the output position plus one
/// half, times the ratio of the extents, minus one half. With no extent
/// above 2^20 the output position plus one half is exact, and the three
/// roundings that follow move the place by less than 1/8. The nearest source
/// pixel within the image is then less than 5/8 away, inside the range that
/// is sampled, and has a weight above 1/4. The nearest-neighbour filter
/// gives every pixel in its range the weight 1, and the range is never
/// empty, so it needs no such bound.
#[verifier::external_body]
pub(crate) fn resample(
    data: &[u8],
    width: u32,
    height: u32,
    new_width: u32,
    new_height: u32,
    how: Resampling,
) -> (out: Vec<u8>)
    requires
        data@.len() == 4 * width * height,
        can_resample(width, height, new_width, new_height, how is Smooth),
    ensures
        out@ == resampled(data@, width, height, new_width, new_height, how is Smooth),
        out@.len() == 4 * new_width * new_height,
        new_width == width && new_height == height ==> out@ == data@,
{
    let view: ImageBuffer<Rgba<u8>, &[u8]> = ImageBuffer::from_raw(width, height, data).unwrap();
    let filter = match how {
        Resampling::Smooth => FilterType::Triangle,
        Resampling::Nearest => FilterType::Nearest,
    };
    image::imageops::resize(&view, new_width, new_height, filter).into_raw()
}

/// Byte `k` of the crop of `w` columns that starts at column `x` and row `y`
/// of an RGBA image `width` pixels wide.
pub open spec fn cropped_byte(data: Seq<u8>, width: int, x: int, y: int, w: int, k: int) -> u8 {
    data[4 * ((y + (k / 4) / w) * width + x + (k / 4) % w) + k % 4]
}

/// The crop of `w` by `h` pixels that starts at column `x` and row `y` of an
/// RGBA image `width` pixels wide.
pub open spec fn cropped(data: Seq<u8>, width: int, x: int, y: int, w: int, h: int) -> Seq<u8> {
    Seq::new((4 * w * h) as nat, |k: int| cropped_byte(data, width, x, y, w, k))
}

/// The lesser of two numbers.
pub open spec fn lesser(a: int, b: int) -> int {
    if a <= b {
        a
    } else {
        b
    }
}

/// Cuts a rectangle out of an RGBA image. A rectangle that reaches beyond
/// the image is cut down to the part inside it.
///
/// Not proved: this calls `image::imageops::crop_imm` and copies the view
/// it returns with `SubImage::to_image`. The contract claims what the source
/// of `crop_imm` shows: the corner is moved into the image, width and height
/// are cut down to what is left from there, and the result holds the pixels
/// of that rectangle row by row.
#[verifier::external_body]
pub(crate) fn crop(data: &[u8], width: u32, height: u32, x: u32, y: u32, w: u32, h: u32) -> (out: (
    u32,
    u32,
    Vec<u8>,
))
    requires
        data@.len() == 4 * width * height,
    ensures
        out.0 == lesser(w as int, width - lesser(x as int, width as int)),
        out.1 == lesser(h as int, height - lesser(y as int, height as int)),
        out.2@ == cropped(
            data@,
            width as int,
            lesser(x as int, width as int),
            lesser(y as int, height as int),
            out.0 as int,
            out.1 as int,
        ),
{
    let source: ImageBuffer<Rgba<u8>, Vec<u8>> =
        ImageBuffer::from_raw(width, height, data.to_vec()).unwrap();
    let cut = image::imageops::crop_imm(&source, x, y, w, h).to_image();
    (cut.width(), cut.height(), cut.into_raw())
}

/// Writes an RGBA image as a PNG file in memory.
///
/// Not proved: this calls `ImageBuffer::write_to` with `ImageFormat::Png`.
/// The contract claims that the outcome depends on width, height and pixels
/// alone, and gives it a name.
#[verifier::external_body]
pub(crate) fn encode_png(data: &[u8], width: u32, height: u32) -> (out: Result<Vec<u8>, ImageError>)
    requires
        data@.len() == 4 * width * height,
    ensures
        match out {
            Ok(file) => png_encoding(width, height, data@) == Some(file@),
            Err(_) => png_encoding(width, height, data@) is None,
        },
{
    let view: ImageBuffer<Rgba<u8>, &[u8]> = ImageBuffer::from_raw(width, height, data).unwrap();
    let mut file = Cursor::new(Vec::new());
    view.write_to(&mut file, ImageFormat::Png)?;
    Ok(file.into_inner())
}

/// Encodes bytes as standard base64 text with padding.
///
/// Not proved: this calls `base64::Engine::encode` on the engine
/// `base64::engine::general_purpose::STANDARD`. The contract claims that the
/// text depends on the bytes alone, and gives it a name. The function panics
/// where the length of the text does not fit; the `requires` leaves those
/// inputs out.
#[verifier::external_body]
pub(crate) fn encode_base64(bytes: &[u8]) -> (text: String)
    requires
        (bytes@.len() / 3) * 4 + 4 <= isize::MAX,
    ensures
        text@ == base64_text(bytes@),
{
    base64::Engine::encode(&base64::engine::general_purpose::STANDARD, bytes)
}

/// The lower-case form of a text.
///
/// Not proved: this calls `str::to_lowercase`. The contract claims that the
/// result depends on the text alone, and gives it a name.
#[verifier::external_body]
pub(crate) fn to_lowercase(text: &str) -> (lower: String)
    ensures
        lower@ == lowercase_text(text@),
{
    text.to_lowercase()
}

} // verus!
