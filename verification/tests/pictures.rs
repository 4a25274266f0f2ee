use base64::Engine;
use proof_diff::errors::EngineError;
use proof_diff::picture::accept_decoded;
use proof_diff::picture::decode_raster;
use proof_diff::picture::embed_png;
use proof_diff::picture::encode_rgba_to_data_url;
use proof_diff::picture::encode_sized;
use proof_diff::picture::encode_to_data_url;
use proof_diff::picture::fills;
use proof_diff::picture::resample_allowed;
use proof_diff::picture::resize_image_to_png;
use proof_diff::picture::source_format;
use proof_diff::picture::PixelBuffer;
use proof_diff::picture::SourceFormat;

const PREFIX: &str = "data:image/png;base64,";

fn gradient(width: u32, height: u32) -> PixelBuffer {
    let mut data = Vec::new();
    for y in 0..height {
        for x in 0..width {
            data.extend_from_slice(&[(x * 40) as u8, (y * 60) as u8, (x + y) as u8, 255]);
        }
    }
    PixelBuffer { width, height, data }
}

fn png_of(url: &str) -> Vec<u8> {
    assert!(url.starts_with(PREFIX));
    base64::engine::general_purpose::STANDARD.decode(&url[PREFIX.len()..]).unwrap()
}

fn pixels_of(png: &[u8]) -> (u32, u32, Vec<u8>) {
    let img = image::load_from_memory_with_format(png, image::ImageFormat::Png).unwrap().into_rgba8();
    (img.width(), img.height(), img.into_raw())
}

fn png_file(img: &PixelBuffer) -> Vec<u8> {
    let mut file = std::io::Cursor::new(Vec::new());
    let view: image::ImageBuffer<image::Rgba<u8>, &[u8]> =
        image::ImageBuffer::from_raw(img.width, img.height, &img.data[..]).unwrap();
    view.write_to(&mut file, image::ImageFormat::Png).unwrap();
    file.into_inner()
}

#[test]
fn bytes_that_fill_the_size_are_packed() {
    let buffer = PixelBuffer::from_raw(2, 3, vec![9; 24]).unwrap();
    assert_eq!((buffer.width, buffer.height), (2, 3));
    assert_eq!(buffer.data, vec![9; 24]);
    assert!(buffer.is_wf());
    assert!(PixelBuffer::from_raw(0, 5, Vec::new()).is_ok());
}

#[test]
fn bytes_that_do_not_fill_the_size_are_refused() {
    assert!(matches!(PixelBuffer::from_raw(2, 3, vec![9; 23]), Err(EngineError::Buffer(_))));
    assert!(matches!(PixelBuffer::from_raw(2, 3, vec![9; 25]), Err(EngineError::Buffer(_))));
    assert!(matches!(
        PixelBuffer::from_raw(u32::MAX, u32::MAX, vec![9; 4]),
        Err(EngineError::Buffer(_))
    ));
    assert!(!PixelBuffer { width: 1, height: 1, data: vec![0; 3] }.is_wf());
    assert!(fills(&[0; 8], 2, 1));
    assert!(!fills(&[0; 8], 1, 1));
}

#[test]
fn the_extension_tells_the_format() {
    assert_eq!(source_format("design.psd"), SourceFormat::LayeredDesign);
    assert_eq!(source_format("DESIGN.PSD"), SourceFormat::LayeredDesign);
    assert_eq!(source_format("C:\\work\\Page 01.Psd"), SourceFormat::LayeredDesign);
    assert_eq!(source_format(".psd"), SourceFormat::LayeredDesign);
    assert_eq!(source_format("scan.tif"), SourceFormat::GenericRaster);
    assert_eq!(source_format("scan.psd.png"), SourceFormat::GenericRaster);
    assert_eq!(source_format("psd"), SourceFormat::GenericRaster);
    assert_eq!(source_format("a.psdx"), SourceFormat::GenericRaster);
    assert_eq!(source_format(""), SourceFormat::GenericRaster);
}

#[test]
fn a_png_file_is_decoded_to_its_pixels() {
    let img = gradient(5, 3);
    let decoded = decode_raster("shot.png", &png_file(&img)).unwrap();
    assert_eq!((decoded.width, decoded.height), (5, 3));
    assert_eq!(decoded.data, img.data);
}

#[test]
fn the_format_is_told_from_the_path_not_the_bytes() {
    let file = png_file(&gradient(2, 2));
    assert!(matches!(decode_raster("shot.jpg", &file), Err(EngineError::Decode(_))));
    assert!(matches!(decode_raster("shot", &file), Err(EngineError::Decode(_))));
    assert!(matches!(decode_raster("shot.xyz", &file), Err(EngineError::Decode(_))));
    assert!(decode_raster("SHOT.PNG", &file).is_ok());
}

#[test]
fn broken_bytes_are_a_decode_error() {
    let out = decode_raster("shot.png", &[1, 2, 3, 4]);
    match out {
        Err(EngineError::Decode(text)) => assert!(!text.is_empty()),
        other => panic!("unexpected: {:?}", other),
    }
    assert!(matches!(decode_raster("shot.tif", &[]), Err(EngineError::Decode(_))));
}

#[test]
fn a_grey_file_is_decoded_to_rgba() {
    let grey = image::GrayImage::from_raw(2, 1, vec![10, 200]).unwrap();
    let mut file = std::io::Cursor::new(Vec::new());
    grey.write_to(&mut file, image::ImageFormat::Png).unwrap();
    let decoded = decode_raster("grey.png", &file.into_inner()).unwrap();
    assert_eq!(decoded.data, vec![10, 10, 10, 255, 200, 200, 200, 255]);
}

#[test]
fn a_data_url_embeds_the_png_of_the_pixels() {
    let img = gradient(4, 3);
    let url = encode_to_data_url(&img).unwrap();
    let png = png_of(&url);
    assert_eq!(&png[0..8], &[0x89, b'P', b'N', b'G', 0x0d, 0x0a, 0x1a, 0x0a]);
    assert_eq!(pixels_of(&png), (4, 3, img.data.clone()));
    assert_eq!(encode_rgba_to_data_url(&img.data, 4, 3).unwrap(), url);
    assert_eq!(pixels_of(&png_of(&encode_rgba_to_data_url(&img.data, 3, 4).unwrap())).0, 3);
}

#[test]
fn pixels_that_do_not_fill_the_size_are_not_encoded() {
    assert!(matches!(encode_rgba_to_data_url(&[0; 7], 1, 2), Err(EngineError::Buffer(_))));
    assert!(matches!(encode_rgba_to_data_url(&[0; 12], 1, 2), Err(EngineError::Buffer(_))));
    let broken = PixelBuffer { width: 2, height: 2, data: vec![0; 4] };
    assert!(matches!(encode_to_data_url(&broken), Err(EngineError::Buffer(_))));
}

#[test]
fn embedding_is_standard_base64_with_padding() {
    assert_eq!(embed_png(b"").unwrap(), PREFIX);
    assert_eq!(embed_png(b"f").unwrap(), format!("{}Zg==", PREFIX));
    assert_eq!(embed_png(b"fo").unwrap(), format!("{}Zm8=", PREFIX));
    assert_eq!(embed_png(b"foo").unwrap(), format!("{}Zm9v", PREFIX));
    assert_eq!(embed_png(&[0xfb, 0xff]).unwrap(), format!("{}+/8=", PREFIX));
}

#[test]
fn an_image_that_fits_is_encoded_as_it_is() {
    let img = gradient(4, 3);
    let (png, w, h) = resize_image_to_png(&img, 800, 600).unwrap();
    assert_eq!((w, h), (4, 3));
    assert_eq!(pixels_of(&png), (4, 3, img.data.clone()));
    let (png, w, h) = resize_image_to_png(&img, 4, 3).unwrap();
    assert_eq!((w, h), (4, 3));
    assert_eq!(pixels_of(&png).2, img.data);
}

#[test]
fn a_large_image_is_scaled_down() {
    let img = gradient(6, 4);
    let (png, w, h) = resize_image_to_png(&img, 3, 3).unwrap();
    assert_eq!((w, h), (3, 2));
    let (pw, ph, data) = pixels_of(&png);
    assert_eq!((pw, ph), (3, 2));
    assert_eq!(data.len(), 24);
    assert_ne!(data, img.data);
}

#[test]
fn a_broken_buffer_is_not_resized() {
    let broken = PixelBuffer { width: 2, height: 2, data: vec![0; 15] };
    assert!(matches!(resize_image_to_png(&broken, 1, 1), Err(EngineError::Buffer(_))));
}

#[test]
fn the_size_asked_for_is_reported() {
    let img = gradient(2, 2);
    let (png, w, h) = encode_sized(&img.data, 2, 2, 7, 9).unwrap();
    assert_eq!((w, h), (7, 9));
    assert_eq!(pixels_of(&png), (2, 2, img.data));
}

#[test]
fn an_image_without_pixels_is_an_encode_error() {
    assert!(matches!(encode_rgba_to_data_url(&[], 0, 0), Err(EngineError::Encode(_))));
}

#[test]
fn errors_carry_their_text() {
    let e = EngineError::Io("no such file".to_string());
    assert_eq!(e.message(), "no such file");
    let e = e.prefixed("Failed to read PSD: ");
    assert_eq!(e, EngineError::Io("Failed to read PSD: no such file".to_string()));
    assert_eq!(EngineError::Lock("poisoned".to_string()).message(), "poisoned");
    assert_eq!(
        EngineError::Decode("x".to_string()).prefixed("a: "),
        EngineError::Decode("a: x".to_string())
    );
    assert_eq!(
        EngineError::Buffer("x".to_string()).prefixed("b: "),
        EngineError::Buffer("b: x".to_string())
    );
    assert_eq!(
        EngineError::Encode("x".to_string()).prefixed("c: "),
        EngineError::Encode("c: x".to_string())
    );
    assert_eq!(
        EngineError::Lock("x".to_string()).prefixed("d: "),
        EngineError::Lock("d: x".to_string())
    );
}

#[test]
fn what_a_decoder_hands_back_is_packed_or_refused() {
    let buffer = accept_decoded(Ok((2, 1, vec![1, 2, 3, 4, 5, 6, 7, 8]))).unwrap();
    assert_eq!((buffer.width, buffer.height), (2, 1));
    assert_eq!(buffer.data, vec![1, 2, 3, 4, 5, 6, 7, 8]);
    assert!(matches!(accept_decoded(Ok((2, 1, vec![1, 2, 3]))), Err(EngineError::Buffer(_))));
    assert_eq!(
        accept_decoded(Err("unexpected end of file".to_string())).unwrap_err(),
        EngineError::Decode("unexpected end of file".to_string())
    );
}

#[test]
fn the_file_holds_an_image_of_the_size_reported() {
    let img = gradient(7, 3);
    let (png, w, h) = resize_image_to_png(&img, 5, 5).unwrap();
    assert_eq!((w, h), (5, 2));
    let (pw, ph, _) = pixels_of(&png);
    assert_eq!((pw, ph), (5, 2));
    let img = gradient(3, 9);
    let (png, w, h) = resize_image_to_png(&img, 100, 4).unwrap();
    assert_eq!((w, h), (1, 4));
    let (pw, ph, _) = pixels_of(&png);
    assert_eq!((pw, ph), (1, 4));
}

#[test]
fn an_image_that_scales_to_nothing_is_not_encoded() {
    let img = gradient(30, 1);
    assert!(matches!(resize_image_to_png(&img, 10, 10), Err(EngineError::Encode(_))));
}

#[test]
fn smooth_resampling_has_a_limit_on_every_side() {
    assert!(resample_allowed(1_048_576, 1, 1, 1, true));
    assert!(!resample_allowed(1_048_577, 1, 1, 1, true));
    assert!(!resample_allowed(1, 1_048_577, 1, 1, true));
    assert!(!resample_allowed(1, 1, 1_048_577, 1, true));
    assert!(!resample_allowed(1, 1, 1, 1_048_577, true));
    assert!(resample_allowed(1, 16_777_216, 1, 16_777_217, false));
    assert!(!resample_allowed(u32::MAX, 1, u32::MAX, u32::MAX, false));
    let long = PixelBuffer { width: 1, height: 1_048_577, data: vec![0; 4 * 1_048_577] };
    assert!(matches!(resize_image_to_png(&long, 1, 100), Err(EngineError::Buffer(_))));
}
