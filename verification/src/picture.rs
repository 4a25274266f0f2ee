//! RGBA pixel buffers: where they come from and how they leave.

use crate::codec::base64_text;
use crate::codec::can_resample;
use crate::codec::SMOOTH_LIMIT;
use crate::codec::encode_base64;
use crate::codec::encode_png;
use crate::codec::decode_rgba;
use crate::codec::image_error_text;
use crate::codec::raster_decoding;
use crate::codec::resample;
use crate::codec::resampled;
use crate::codec::Resampling;
use crate::codec::lowercase_text;
use crate::codec::png_encoding;
use crate::codec::to_lowercase;
use crate::errors::EngineError;
use crate::scale::must_shrink;
use crate::scale::scaled_dimensions;
use crate::scale::scaled_size;
use vstd::prelude::*;
use vstd::string::StrSliceExecFns;
use vstd::string::StringExecFns;

verus! {

/// Pixels with four 8-bit channels (red, green, blue, alpha), row by row.
#[derive(Debug)]
pub struct PixelBuffer {
    pub width: u32,
    pub height: u32,
    pub data: Vec<u8>,
}

impl PixelBuffer {
    /// The data holds four bytes for each of `width * height` pixels.
    pub open spec fn wf(&self) -> bool {
        self.data@.len() == 4 * self.width * self.height
    }

    /// Packs raw bytes into a buffer of a width and height. Bytes that do
    /// not fill the width and height exactly are refused.
    pub fn from_raw(width: u32, height: u32, data: Vec<u8>) -> (out: Result<PixelBuffer, EngineError>)
        ensures
            match out {
                Ok(buffer) => buffer.wf() && buffer.width == width && buffer.height == height
                    && buffer.data == data,
                Err(e) => data@.len() != 4 * width * height && e is Buffer,
            },
    {
        if fills(data.as_slice(), width, height) {
            Ok(PixelBuffer { width, height, data })
        } else {
            Err(EngineError::Buffer(String::from_str("Failed to create image buffer")))
        }
    }

    /// Tests whether the data fills the width and height.
    pub fn is_wf(&self) -> (ok: bool)
        ensures
            ok == self.wf(),
    {
        fills(self.data.as_slice(), self.width, self.height)
    }
}

/// Tests whether bytes are four for each of `width * height` pixels.
pub fn fills(data: &[u8], width: u32, height: u32) -> (ok: bool)
    ensures
        ok == (data@.len() == 4 * width * height),
{
    assert(4 * width * height <= 4 * 0xffff_ffff * 0xffff_ffff) by (nonlinear_arith)
        requires
            0 <= width <= 0xffff_ffff,
            0 <= height <= 0xffff_ffff,
    ;
    assert(4 * width * height == 4 * (width * height)) by (nonlinear_arith);
    data.len() as u128 == 4 * ((width as u128) * (height as u128))
}

/// The kinds of file that can be decoded.
#[derive(Clone, Copy, Debug, PartialEq, Eq)]
pub enum SourceFormat {
    /// A layered design file, which is flattened to its composite.
    LayeredDesign,
    /// Any other raster file.
    GenericRaster,
}

/// A path names a layered design file: in lower case it ends in `.psd`.
pub open spec fn is_layered_path(path: Seq<char>) -> bool {
    let lower = lowercase_text(path);
    &&& lower.len() >= 4
    &&& lower[lower.len() - 4] == '.'
    &&& lower[lower.len() - 3] == 'p'
    &&& lower[lower.len() - 2] == 's'
    &&& lower[lower.len() - 1] == 'd'
}

/// Tells from the extension of a path how the file is decoded.
pub fn source_format(path: &str) -> (format: SourceFormat)
    ensures
        (format is LayeredDesign) == is_layered_path(path@),
{
    let lower = to_lowercase(path);
    let text = lower.as_str();
    let n = text.unicode_len();
    if n >= 4 && text.get_char(n - 4) == '.' && text.get_char(n - 3) == 'p' && text.get_char(n - 2)
        == 's' && text.get_char(n - 1) == 'd' {
        SourceFormat::LayeredDesign
    } else {
        SourceFormat::GenericRaster
    }
}

/// Turns what a decoder handed back into a buffer or an error. Width, height
/// and bytes become a buffer where the bytes fill the width and height, and
/// a buffer error where they do not; the decoder's own failure becomes a
/// decode error with the decoder's text.
pub fn accept_decoded(outcome: Result<(u32, u32, Vec<u8>), String>) -> (out: Result<
    PixelBuffer,
    EngineError,
>)
    ensures
        match outcome {
            Ok(decoded) => match out {
                Ok(buffer) => buffer.wf() && buffer.width == decoded.0 && buffer.height
                    == decoded.1 && buffer.data == decoded.2,
                Err(e) => decoded.2@.len() != 4 * decoded.0 * decoded.1 && e is Buffer,
            },
            Err(reason) => out matches Err(e) && e is Decode && e.text() == reason@,
        },
{
    match outcome {
        Ok(decoded) => PixelBuffer::from_raw(decoded.0, decoded.1, decoded.2),
        Err(reason) => Err(EngineError::Decode(reason)),
    }
}

/// The image that the bytes of a raster file decode to, where they decode
/// and the bytes that come out fill the width and height.
pub open spec fn decoded_image(path: Seq<char>, bytes: Seq<u8>) -> Option<(u32, u32, Seq<u8>)> {
    match raster_decoding(path, bytes) {
        Ok(decoded) => if decoded.2.len() == 4 * decoded.0 * decoded.1 {
            Some(decoded)
        } else {
            None
        },
        Err(_) => None,
    }
}

/// Decodes a raster file. The format is told from the extension of the
/// path, the pixels are converted to RGBA.
///
/// The buffer that comes out holds what the decoder gave. Where the decoder
/// fails, the error is a decode error with the decoder's text; where what it
/// gave does not fill its width and height, a buffer error.
pub fn decode_raster(path: &str, bytes: &[u8]) -> (out: Result<PixelBuffer, EngineError>)
    ensures
        match out {
            Ok(buffer) => buffer.wf() && decoded_image(path@, bytes@) == Some(
                (buffer.width, buffer.height, buffer.data@),
            ),
            Err(e) => decoded_image(path@, bytes@) is None && match raster_decoding(
                path@,
                bytes@,
            ) {
                Ok(_) => e is Buffer,
                Err(reason) => e is Decode && e.text() == reason,
            },
        },
{
    accept_decoded(decode_rgba(path, bytes))
}

/// The text of a base64 of `len` bytes can be held in memory.
pub open spec fn fits_base64(len: int) -> bool {
    (len / 3) * 4 + 4 <= isize::MAX
}

/// The data URL that embeds a PNG file.
pub open spec fn data_url(file: Seq<u8>) -> Seq<char> {
    "data:image/png;base64,"@ + base64_text(file)
}

/// The data URL of an RGBA image, where it has one: the bytes fill the
/// width and height, the encoder accepts the image, and the text of the
/// file can be held in memory.
pub open spec fn data_url_of(width: u32, height: u32, data: Seq<u8>) -> Option<Seq<char>> {
    if data.len() != 4 * width * height {
        None
    } else {
        match png_encoding(width, height, data) {
            Some(file) => if fits_base64(file.len() as int) {
                Some(data_url(file))
            } else {
                None
            },
            None => None,
        }
    }
}

/// Embeds a file in a data URL.
pub fn embed_png(file: &[u8]) -> (out: Result<String, EngineError>)
    ensures
        match out {
            Ok(url) => fits_base64(file@.len() as int) && url@ == data_url(file@),
            Err(e) => !fits_base64(file@.len() as int) && e is Encode,
        },
{
    if file.len() / 3 > (isize::MAX as usize - 4) / 4 {
        return Err(EngineError::Encode(String::from_str("PNG encode error: image too large")));
    }
    let text = encode_base64(file);
    let url = String::from_str("data:image/png;base64,").concat(text.as_str());
    Ok(url)
}

/// Encodes RGBA bytes of a width and height as PNG and embeds the file in a
/// data URL.
pub fn encode_rgba_to_data_url(buf: &[u8], width: u32, height: u32) -> (out: Result<
    String,
    EngineError,
>)
    ensures
        match out {
            Ok(url) => data_url_of(width, height, buf@) == Some(url@),
            Err(e) => data_url_of(width, height, buf@) is None && (e is Buffer <==> buf@.len() != 4
                * width * height) && (e is Buffer || e is Encode),
        },
{
    if !fills(buf, width, height) {
        return Err(EngineError::Buffer(String::from_str("Failed to create image buffer")));
    }
    match encode_png(buf, width, height) {
        Ok(file) => embed_png(file.as_slice()),
        Err(e) => Err(
            EngineError::Encode(
                String::from_str("PNG encode error: ").concat(image_error_text(&e).as_str()),
            ),
        ),
    }
}

/// Encodes an image as PNG and embeds the file in a data URL.
pub fn encode_to_data_url(img: &PixelBuffer) -> (out: Result<String, EngineError>)
    ensures
        match out {
            Ok(url) => data_url_of(img.width, img.height, img.data@) == Some(url@),
            Err(e) => data_url_of(img.width, img.height, img.data@) is None && (e is Buffer
                <==> !img.wf()) && (e is Buffer || e is Encode),
        },
{
    encode_rgba_to_data_url(img.data.as_slice(), img.width, img.height)
}

/// Encodes RGBA bytes of a width and height as PNG, and returns the file
/// together with the size that is to be reported for it.
pub fn encode_sized(data: &[u8], width: u32, height: u32, new_width: u32, new_height: u32) -> (out:
    Result<(Vec<u8>, u32, u32), EngineError>)
    requires
        data@.len() == 4 * width * height,
    ensures
        match out {
            Ok(sized) => png_encoding(width, height, data@) == Some(sized.0@) && sized.1
                == new_width && sized.2 == new_height,
            Err(e) => png_encoding(width, height, data@) is None && e is Encode,
        },
{
    match encode_png(data, width, height) {
        Ok(file) => Ok((file, new_width, new_height)),
        Err(e) => Err(
            EngineError::Encode(
                String::from_str("Failed to encode PNG: ").concat(image_error_text(&e).as_str()),
            ),
        ),
    }
}

/// Tests whether an image of a width and height can be resampled to a new
/// width and height.
pub fn resample_allowed(width: u32, height: u32, new_width: u32, new_height: u32, smooth: bool) -> (ok:
    bool)
    ensures
        ok == can_resample(width, height, new_width, new_height, smooth),
{
    assert(width * new_height <= 0xffff_ffff * 0xffff_ffff && new_width * new_height <= 0xffff_ffff
        * 0xffff_ffff) by (nonlinear_arith)
        requires
            0 <= width <= 0xffff_ffff,
            0 <= new_width <= 0xffff_ffff,
            0 <= new_height <= 0xffff_ffff,
    ;
    assert(16 * width * new_height == 16 * (width * new_height)) by (nonlinear_arith);
    assert(4 * new_width * new_height == 4 * (new_width * new_height)) by (nonlinear_arith);
    let floats: u128 = 16 * ((width as u128) * (new_height as u128));
    let bytes: u128 = 4 * ((new_width as u128) * (new_height as u128));
    floats <= isize::MAX as u128 && bytes <= isize::MAX as u128 && (!smooth || (width
        <= SMOOTH_LIMIT && height <= SMOOTH_LIMIT && new_width <= SMOOTH_LIMIT && new_height
        <= SMOOTH_LIMIT))
}

/// The PNG file of an image scaled down to fit within the bounds, where
/// there is one: an image that fits is encoded as it is, any other is
/// resampled to its scaled size with linear interpolation first.
pub open spec fn resized_file_of(
    width: u32,
    height: u32,
    data: Seq<u8>,
    max_width: u32,
    max_height: u32,
) -> Option<Seq<u8>> {
    let size = scaled_size(width, height, max_width, max_height);
    if data.len() != 4 * width * height {
        None
    } else if !must_shrink(width, height, max_width, max_height) {
        png_encoding(width, height, data)
    } else if !can_resample(width, height, size.0 as u32, size.1 as u32, true) {
        None
    } else {
        png_encoding(
            size.0 as u32,
            size.1 as u32,
            resampled(data, width, height, size.0 as u32, size.1 as u32, true),
        )
    }
}

/// The PNG file of a buffer scaled down to fit within the bounds.
pub open spec fn resized_file(img: PixelBuffer, max_width: u32, max_height: u32) -> Option<Seq<u8>> {
    resized_file_of(img.width, img.height, img.data@, max_width, max_height)
}

/// Scales an image down to fit within `max_width` by `max_height`, keeping
/// its aspect ratio, and encodes it as PNG. An image that fits is encoded as
/// it is; no image is enlarged.
///
/// Returns the file and the size of the image in it.
pub fn resize_image_to_png(img: &PixelBuffer, max_width: u32, max_height: u32) -> (out: Result<
    (Vec<u8>, u32, u32),
    EngineError,
>)
    ensures
        match out {
            Ok(sized) => {
                &&& resized_file(*img, max_width, max_height) == Some(sized.0@)
                &&& sized.1 == scaled_size(img.width, img.height, max_width, max_height).0
                &&& sized.2 == scaled_size(img.width, img.height, max_width, max_height).1
                &&& sized.1 <= img.width
                &&& sized.2 <= img.height
            },
            Err(e) => {
                &&& resized_file(*img, max_width, max_height) is None
                &&& e is Buffer || e is Encode
                &&& e is Buffer <==> !img.wf() || (must_shrink(
                    img.width,
                    img.height,
                    max_width,
                    max_height,
                ) && !can_resample(
                    img.width,
                    img.height,
                    scaled_size(img.width, img.height, max_width, max_height).0 as u32,
                    scaled_size(img.width, img.height, max_width, max_height).1 as u32,
                    true,
                ))
            },
        },
{
    if !img.is_wf() {
        return Err(EngineError::Buffer(String::from_str("Failed to create image buffer")));
    }
    let size = scaled_dimensions(img.width, img.height, max_width, max_height);
    if size.2 {
        if !resample_allowed(img.width, img.height, size.0, size.1, true) {
            return Err(EngineError::Buffer(String::from_str("Failed to create image buffer")));
        }
        let scaled = resample(
            img.data.as_slice(),
            img.width,
            img.height,
            size.0,
            size.1,
            Resampling::Smooth,
        );
        encode_sized(scaled.as_slice(), size.0, size.1, size.0, size.1)
    } else {
        encode_sized(img.data.as_slice(), img.width, img.height, size.0, size.1)
    }
}

} // verus!
