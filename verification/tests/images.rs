//! Resizing, converting and compressing pictures.

use image::codecs::png::{CompressionType, FilterType, PngEncoder};
use image::{
    AnimationDecoder, DynamicImage, ExtendedColorType, GenericImageView, ImageDecoder,
    ImageEncoder, ImageFormat, Rgb, RgbImage, Rgba, RgbaImage,
};
use jpeg_encoder::{ColorType, Encoder};
use localbench_core::images::decode::guard_decoded_dimensions;
use localbench_core::images::encode::encode;
use localbench_core::images::model::{ImageKind, Layout, Picture, Samples, MAX_DECODED_PIXELS};
use localbench_core::images::transform::{self, compress, convert, open_for_resize};
use localbench_core::notices::Notice;

/// The box scaled down as a whole until it fits the picture.
fn scaled(width: u32, height: u32, max_w: u32, max_h: u32) -> (u32, u32) {
    let scale = (f64::from(width) / f64::from(max_w))
        .min(f64::from(height) / f64::from(max_h))
        .min(1.0);
    (
        ((f64::from(max_w) * scale).round() as u32).max(1),
        ((f64::from(max_h) * scale).round() as u32).max(1),
    )
}

fn resize(
    bytes: &[u8],
    max_w: u32,
    max_h: u32,
    keep_aspect: bool,
) -> Result<(Vec<u8>, Vec<Notice>), String> {
    let source = open_for_resize(bytes, max_w, max_h)?;
    let scaled = scaled(source.picture.width, source.picture.height, max_w, max_h);
    transform::resize(&source, max_w, max_h, keep_aspect, scaled)
}

fn picture(image: &DynamicImage) -> Picture {
    let (layout, samples) = match image {
        DynamicImage::ImageLuma8(pixels) => (Layout::Luma, Samples::Eight(pixels.to_vec())),
        DynamicImage::ImageLumaA8(pixels) => (Layout::LumaAlpha, Samples::Eight(pixels.to_vec())),
        DynamicImage::ImageRgb8(pixels) => (Layout::Rgb, Samples::Eight(pixels.to_vec())),
        DynamicImage::ImageRgba8(pixels) => (Layout::Rgba, Samples::Eight(pixels.to_vec())),
        DynamicImage::ImageRgb16(pixels) => (Layout::Rgb, Samples::Sixteen(pixels.to_vec())),
        other => (Layout::Rgba, Samples::Eight(other.to_rgba8().into_raw())),
    };
    Picture {
        width: image.width(),
        height: image.height(),
        layout,
        samples,
    }
}

/// Byte-only wrappers: most tests care about the picture that comes out,
/// while the notice-carrying signature is exercised by the notice gates.
fn resize_bytes(
    bytes: &[u8],
    max_w: u32,
    max_h: u32,
    keep_aspect: bool,
) -> Result<Vec<u8>, String> {
    resize(bytes, max_w, max_h, keep_aspect).map(|(bytes, _)| bytes)
}

fn convert_bytes(bytes: &[u8], target: &str) -> Result<Vec<u8>, String> {
    convert(bytes, target).map(|(bytes, _)| bytes)
}

fn compress_bytes(bytes: &[u8], quality: u8) -> Result<Vec<u8>, String> {
    compress(bytes, quality).map(|(bytes, _)| bytes)
}

fn notice_codes(notices: &[Notice]) -> Vec<&'static str> {
    notices.iter().map(|notice| notice.code()).collect()
}

fn encode_still(
    image: &DynamicImage,
    kind: ImageKind,
    quality: u8,
) -> Result<Vec<u8>, String> {
    encode(&picture(image), kind, quality, None, &mut Vec::new())
}
fn sample_rgba(width: u32, height: u32) -> RgbaImage {
    RgbaImage::from_fn(width, height, |x, y| {
        Rgba([
            ((x * 29 + y * 7) % 256) as u8,
            ((x * 11 + y * 41) % 256) as u8,
            ((x * 53 + y * 17) % 256) as u8,
            ((x * 3 + y * 5) % 256) as u8,
        ])
    })
}

fn png_fixture(width: u32, height: u32) -> Vec<u8> {
    let image = sample_rgba(width, height);
    let mut encoded = Vec::new();
    PngEncoder::new_with_quality(&mut encoded, CompressionType::Best, FilterType::Adaptive)
        .write_image(image.as_raw(), width, height, ExtendedColorType::Rgba8)
        .expect("fixture PNG should encode");
    encoded
}

fn jpeg_fixture(width: u16, height: u16, quality: u8) -> Vec<u8> {
    let image = RgbImage::from_fn(u32::from(width), u32::from(height), |x, y| {
        let noise = ((x * 73 + y * 151 + x * y * 17) % 251) as u8;
        Rgb([
            (x % 256) as u8 ^ noise,
            (y % 256) as u8 ^ noise.rotate_left(2),
            ((x + y) % 256) as u8 ^ noise.rotate_left(4),
        ])
    });
    let mut encoded = Vec::new();
    Encoder::new(&mut encoded, quality)
        .encode(image.as_raw(), width, height, ColorType::Rgb)
        .expect("fixture JPEG should encode");
    encoded
}

fn dimensions(bytes: &[u8]) -> (u32, u32) {
    image::load_from_memory(bytes)
        .expect("output image should decode")
        .dimensions()
}

/// A JPEG that says, the way every phone camera says it, that the stored
/// pixels have to be turned before they are shown.
fn jpeg_with_orientation(width: u16, height: u16, exif_orientation: u8) -> Vec<u8> {
    let jpeg = jpeg_fixture(width, height, 90);
    let mut payload = b"Exif\0\0II*\0".to_vec();
    payload.extend_from_slice(&8_u32.to_le_bytes());
    payload.extend_from_slice(&1_u16.to_le_bytes());
    payload.extend_from_slice(&0x0112_u16.to_le_bytes());
    payload.extend_from_slice(&3_u16.to_le_bytes());
    payload.extend_from_slice(&1_u32.to_le_bytes());
    payload.extend_from_slice(&u16::from(exif_orientation).to_le_bytes());
    payload.extend_from_slice(&[0, 0]);
    payload.extend_from_slice(&0_u32.to_le_bytes());

    let length = u16::try_from(payload.len() + 2).expect("APP1 fixture should fit");
    let mut output = Vec::with_capacity(jpeg.len() + payload.len() + 4);
    output.extend_from_slice(&jpeg[..2]);
    output.extend_from_slice(&[0xff, 0xe1]);
    output.extend_from_slice(&length.to_be_bytes());
    output.extend_from_slice(&payload);
    output.extend_from_slice(&jpeg[2..]);
    output
}

/// A plausible ICC profile header: enough for a decoder to hand it back
/// and for the PDF core to read which colour space it describes.
fn sample_icc_profile() -> Vec<u8> {
    let mut profile = vec![0_u8; 132];
    profile[0..4].copy_from_slice(&132_u32.to_be_bytes());
    profile[12..16].copy_from_slice(b"mntr");
    profile[16..20].copy_from_slice(b"RGB ");
    profile[20..24].copy_from_slice(b"XYZ ");
    profile[36..40].copy_from_slice(b"acsp");
    profile
}

fn png_with_profile(width: u32, height: u32) -> Vec<u8> {
    let image = sample_rgba(width, height);
    let mut encoded = Vec::new();
    let mut encoder =
        PngEncoder::new_with_quality(&mut encoded, CompressionType::Best, FilterType::Adaptive);
    encoder
        .set_icc_profile(sample_icc_profile())
        .expect("PNG should accept a profile");
    encoder
        .write_image(image.as_raw(), width, height, ExtendedColorType::Rgba8)
        .expect("fixture PNG should encode");
    encoded
}

fn png16_fixture(width: u32, height: u32) -> Vec<u8> {
    let mut pixels = Vec::with_capacity((width * height * 3) as usize);
    for y in 0..height {
        for x in 0..width {
            pixels.push((x * 257) as u16);
            pixels.push((y * 259) as u16);
            pixels.push(((x + y) * 263) as u16);
        }
    }
    let bytes = pixels
        .iter()
        .flat_map(|value| value.to_ne_bytes())
        .collect::<Vec<u8>>();
    let mut encoded = Vec::new();
    PngEncoder::new_with_quality(&mut encoded, CompressionType::Best, FilterType::Adaptive)
        .write_image(&bytes, width, height, ExtendedColorType::Rgb16)
        .expect("16-bit fixture PNG should encode");
    encoded
}

fn animated_gif_fixture(frame_count: u8) -> Vec<u8> {
    let mut encoded = Vec::new();
    {
        let mut encoder = image::codecs::gif::GifEncoder::new(&mut encoded);
        encoder
            .set_repeat(image::codecs::gif::Repeat::Infinite)
            .expect("repeat should be set");
        for index in 0..frame_count {
            let mut frame = RgbaImage::new(8, 8);
            for pixel in frame.pixels_mut() {
                *pixel = Rgba([index * 40, 255 - index * 40, 90, 255]);
            }
            encoder
                .encode_frame(image::Frame::from_parts(
                    frame,
                    0,
                    0,
                    image::Delay::from_numer_denom_ms(100, 1),
                ))
                .expect("fixture frame should encode");
        }
    }
    encoded
}

fn frame_count(bytes: &[u8]) -> usize {
    image::codecs::gif::GifDecoder::new(std::io::Cursor::new(bytes))
        .expect("GIF should decode")
        .into_frames()
        .collect_frames()
        .expect("frames should decode")
        .len()
}

fn profile_of(bytes: &[u8]) -> Option<Vec<u8>> {
    let format = image::guess_format(bytes).expect("format should be detectable");
    let mut decoder = image::ImageReader::with_format(std::io::Cursor::new(bytes), format)
        .into_decoder()
        .expect("decoder should build");
    decoder.icc_profile().ok().flatten()
}

// Every phone photo is bigger than 4096 pixels on its long edge. Silently
// resampling it is the difference between "converted" and "damaged".
#[test]
fn convert_and_compress_keep_every_pixel_of_a_large_image() {
    let source = png_fixture(5_000, 4);

    let converted = convert_bytes(&source, "png").expect("large PNG should convert");
    assert_eq!(
        dimensions(&converted),
        (5_000, 4),
        "converting must not resample a large image"
    );

    let compressed = compress_bytes(&source, 60).expect("large PNG should compress");
    assert_eq!(
        dimensions(&compressed),
        (5_000, 4),
        "compressing must not resample a large image"
    );
}

// "Losslessly re-encoded" has to be true: a 16-bit scan must not come back
// rounded down to 8 bits per channel.
#[test]
fn sixteen_bit_pngs_keep_their_precision() {
    let source = png16_fixture(32, 16);
    assert!(matches!(
        image::load_from_memory(&source).expect("fixture should decode"),
        DynamicImage::ImageRgb16(_)
    ));

    let resized = resize_bytes(&source, 16, 8, true).expect("16-bit PNG should resize");
    assert!(
        matches!(
            image::load_from_memory(&resized).expect("output should decode"),
            DynamicImage::ImageRgb16(_)
        ),
        "a 16-bit PNG must stay 16-bit"
    );

    let converted = convert_bytes(&source, "png").expect("16-bit PNG should convert");
    assert!(matches!(
        image::load_from_memory(&converted).expect("output should decode"),
        DynamicImage::ImageRgb16(_)
    ));
}

#[test]
fn a_format_that_cannot_hold_sixteen_bits_says_so() {
    let (_, notices) = convert(&png16_fixture(8, 8), "jpeg").expect("conversion should work");
    assert!(notice_codes(&notices).contains(&"image-bit-depth-reduced"));
}

// An embedded colour profile is what makes a Display-P3 photo look right.
// Dropping it silently shifts every colour in the picture.
#[test]
fn colour_profiles_survive_every_transform_that_can_hold_them() {
    let source = png_with_profile(40, 20);
    let expected = sample_icc_profile();

    let resized = resize_bytes(&source, 20, 10, true).expect("PNG should resize");
    assert_eq!(
        profile_of(&resized).as_deref(),
        Some(expected.as_slice()),
        "resizing dropped the colour profile"
    );

    let jpeg = convert_bytes(&source, "jpeg").expect("PNG should convert");
    assert_eq!(
        profile_of(&jpeg).as_deref(),
        Some(expected.as_slice()),
        "converting to JPEG dropped the colour profile"
    );
}

#[test]
fn a_format_that_cannot_hold_a_profile_says_so() {
    let source = png_with_profile(16, 8);
    let gif = encode(
        &picture(&image::load_from_memory(&source).expect("fixture should decode")),
        ImageKind::Gif,
        90,
        Some(&sample_icc_profile()),
        &mut Vec::new(),
    );
    assert!(gif.is_ok());

    let mut notices = Vec::new();
    encode(
        &picture(&image::load_from_memory(&source).expect("fixture should decode")),
        ImageKind::Gif,
        90,
        Some(&sample_icc_profile()),
        &mut notices,
    )
    .expect("GIF should still encode");
    assert!(notice_codes(&notices).contains(&"image-color-profile-dropped"));
}

// A portrait phone photo is stored landscape plus an orientation tag. The
// output carries no tag, so the pixels themselves have to be turned.
#[test]
fn a_sideways_photo_comes_out_upright() {
    let source = jpeg_with_orientation(40, 20, 6);
    assert_eq!(
        dimensions(&source),
        (40, 20),
        "the fixture is stored landscape"
    );

    for output in [
        convert_bytes(&source, "png").expect("photo should convert"),
        compress_bytes(&source, 50).expect("photo should compress"),
    ] {
        assert_eq!(
            dimensions(&output),
            (20, 40),
            "a photo tagged as rotated must come out upright"
        );
    }

    let resized = resize_bytes(&source, 10, 10, true).expect("photo should resize");
    let (width, height) = dimensions(&resized);
    assert!(
        height > width,
        "a portrait photo must resize to a portrait picture, got {width}x{height}"
    );
}

// Resizing an animation must not hand back a single still frame.
#[test]
fn resizing_an_animation_keeps_every_frame() {
    let source = animated_gif_fixture(4);
    assert_eq!(frame_count(&source), 4);

    let (resized, notices) = resize(&source, 4, 4, true).expect("animation should resize");
    assert_eq!(
        frame_count(&resized),
        4,
        "every frame of the animation must survive the resize"
    );
    assert_eq!(dimensions(&resized), (4, 4));
    assert!(notice_codes(&notices).contains(&"image-animation-recoded"));
}

#[test]
fn converting_an_animation_says_the_other_frames_were_left_behind() {
    let (_, notices) =
        convert(&animated_gif_fixture(4), "png").expect("animation should convert");
    assert!(notice_codes(&notices).contains(&"image-animation-dropped"));
}

// Asking for a 200x200 box must not quietly produce a 200x100 picture.
#[test]
fn a_stretch_box_larger_than_the_image_keeps_the_requested_shape() {
    let (resized, notices) =
        resize(&png_fixture(4_000, 100), 200, 200, false).expect("image should resize");

    assert_eq!(
        dimensions(&resized),
        (100, 100),
        "the requested square must stay square"
    );
    assert!(notice_codes(&notices).contains(&"image-resize-clamped"));
}

#[test]
fn compress_says_when_it_hands_back_the_original_untouched() {
    let source = png_fixture(1, 1);
    let (bytes, notices) = compress(&source, 100).expect("tiny PNG should be accepted");

    assert_eq!(bytes, source);
    assert!(notice_codes(&notices).contains(&"image-returned-unchanged"));
}

#[test]
fn resize_downscale_fits_the_box_and_preserves_aspect() {
    let resized = resize_bytes(&png_fixture(400, 200), 100, 100, true)
        .expect("PNG should resize within the box");

    assert_eq!(
        image::guess_format(&resized).expect("output format should be detectable"),
        ImageFormat::Png
    );
    assert_eq!(dimensions(&resized), (100, 50));
}

#[test]
fn resize_refuses_zero_dimensions() {
    let source = png_fixture(20, 10);
    assert!(resize_bytes(&source, 0, 10, true).is_err());
    assert!(resize_bytes(&source, 10, 0, false).is_err());
}

#[test]
fn resize_never_upscales() {
    let resized = resize_bytes(&png_fixture(40, 20), 400, 400, true)
        .expect("a larger box should not upscale the image");

    assert_eq!(dimensions(&resized), (40, 20));
}

#[test]
fn resize_without_aspect_stretches_to_the_clamped_box() {
    let resized = resize_bytes(&png_fixture(80, 40), 30, 20, false)
        .expect("PNG should stretch to the requested box");

    assert_eq!(dimensions(&resized), (30, 20));
}

#[test]
fn resize_preserves_each_additional_supported_format() {
    let image = DynamicImage::ImageRgba8(sample_rgba(32, 16));
    for (kind, format) in [
        (ImageKind::Gif, ImageFormat::Gif),
        (ImageKind::Bmp, ImageFormat::Bmp),
        (ImageKind::WebP, ImageFormat::WebP),
    ] {
        let source = encode_still(&image, kind, 90).expect("fixture should encode");
        let resized = resize_bytes(&source, 10, 10, true).expect("fixture should resize");

        assert_eq!(
            image::guess_format(&resized).expect("output format should be detectable"),
            format
        );
        assert_eq!(dimensions(&resized), (10, 5));
    }
}

#[test]
fn convert_png_to_jpeg_and_jpeg_to_png() {
    let jpeg = convert_bytes(&png_fixture(64, 32), "jpeg").expect("PNG should convert to JPEG");
    assert_eq!(
        image::guess_format(&jpeg).expect("output format should be detectable"),
        ImageFormat::Jpeg
    );
    assert_eq!(dimensions(&jpeg), (64, 32));

    let png =
        convert_bytes(&jpeg_fixture(48, 24, 90), "png").expect("JPEG should convert to PNG");
    assert_eq!(
        image::guess_format(&png).expect("output format should be detectable"),
        ImageFormat::Png
    );
    assert_eq!(dimensions(&png), (48, 24));
}

#[test]
fn jpeg_conversion_flattens_alpha_onto_white() {
    let mut transparent = RgbaImage::new(1, 1);
    transparent.put_pixel(0, 0, Rgba([0, 0, 0, 0]));
    let mut source = Vec::new();
    PngEncoder::new(&mut source)
        .write_image(transparent.as_raw(), 1, 1, ExtendedColorType::Rgba8)
        .expect("transparent fixture should encode");

    let jpeg = convert_bytes(&source, "jpeg").expect("transparent PNG should convert");
    let decoded = image::load_from_memory(&jpeg)
        .expect("JPEG should decode")
        .to_rgb8();
    let pixel = decoded.get_pixel(0, 0);
    assert!(pixel.0.iter().all(|channel| *channel >= 250));
}

#[test]
fn compresses_a_jpeg_at_low_quality_and_keeps_it_decodable() {
    let source = jpeg_fixture(320, 240, 100);
    let compressed = compress_bytes(&source, 10).expect("JPEG should compress");

    assert!(compressed.len() < source.len());
    assert_eq!(
        image::guess_format(&compressed).expect("output format should be detectable"),
        ImageFormat::Jpeg
    );
    assert_eq!(dimensions(&compressed), (320, 240));
}

#[test]
fn compress_never_returns_more_bytes_than_the_input() {
    let source = png_fixture(1, 1);
    let compressed = compress_bytes(&source, 100).expect("tiny PNG should still be accepted");

    assert!(compressed.len() <= source.len());
    assert_eq!(dimensions(&compressed), (1, 1));
}

#[test]
fn malformed_input_returns_errors_without_panicking() {
    for garbage in [
        b"not an image".as_slice(),
        b"\x89PNG\r\n\x1a\ntruncated".as_slice(),
        b"".as_slice(),
    ] {
        assert!(resize_bytes(garbage, 10, 10, true).is_err());
        assert!(convert_bytes(garbage, "png").is_err());
        assert!(compress_bytes(garbage, 50).is_err());
    }
}

#[test]
fn pixel_guard_rejects_claimed_dimensions_before_allocation() {
    // Derived from the shipped constant, so the guard is checked against
    // the limit it actually enforces rather than against a copy of it.
    let limit = u32::try_from(MAX_DECODED_PIXELS).expect("the pixel cap fits in a u32");
    assert!(guard_decoded_dimensions(1, limit).is_ok());
    assert!(guard_decoded_dimensions(1, limit + 1).is_err());
    assert!(guard_decoded_dimensions(2, limit / 2 + 1).is_err());
    assert!(guard_decoded_dimensions(u32::MAX, u32::MAX).is_err());
    assert!(guard_decoded_dimensions(0, 10).is_err());
}

#[test]
fn reencoding_removes_exif_gps_app1_metadata() {
    let jpeg = jpeg_fixture(64, 32, 90);
    let mut exif = b"Exif\0\0II*\0\x08\0\0\0\x01\0\x25\x88\x04\0\x01\0\0\0\x1a\0\0\0\0\0\0\0\x01\0\x01\0\x02\0\x02\0\0\0N\0\0\0\0\0\0\0".to_vec();
    exif.extend_from_slice(b"GPS latitude");
    let segment_length = u16::try_from(exif.len() + 2).expect("fixture APP1 should fit");
    let mut with_exif = Vec::with_capacity(jpeg.len() + exif.len() + 4);
    with_exif.extend_from_slice(&jpeg[..2]);
    with_exif.extend_from_slice(&[0xff, 0xe1]);
    with_exif.extend_from_slice(&segment_length.to_be_bytes());
    with_exif.extend_from_slice(&exif);
    with_exif.extend_from_slice(&jpeg[2..]);
    assert!(with_exif.windows(6).any(|window| window == b"Exif\0\0"));
    assert!(with_exif.windows(2).any(|window| window == [0xff, 0xe1]));

    let stripped = convert_bytes(&with_exif, "jpeg").expect("EXIF JPEG should re-encode");
    assert!(!stripped.windows(6).any(|window| window == b"Exif\0\0"));
    assert!(!stripped.windows(2).any(|window| window == [0xff, 0xe1]));
    assert_eq!(dimensions(&stripped), (64, 32));
}

#[test]
fn repeated_transforms_are_byte_identical() {
    let source = png_fixture(80, 40);
    assert_eq!(
        resize_bytes(&source, 30, 30, true).expect("first resize should work"),
        resize_bytes(&source, 30, 30, true).expect("second resize should work")
    );
    assert_eq!(
        convert_bytes(&source, "webp").expect("first conversion should work"),
        convert_bytes(&source, "webp").expect("second conversion should work")
    );
}
