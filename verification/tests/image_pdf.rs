//! Putting images on the pages of a PDF.

use std::io::Read;

use flate2::read::ZlibDecoder;
use image::codecs::png::PngEncoder;
use image::{ExtendedColorType, ImageEncoder, Rgb, RgbImage, Rgba, RgbaImage};
use jpeg_encoder::{ColorType, Encoder};
use localbench_core::images::pdf::{
    images_to_pdf, prepare_images, PageGeometry, PageMode, MAX_IMAGES,
};
use localbench_core::metadata::jpeg::parse_sof0;
use localbench_core::metadata::jpeg_check::strip_jpeg_metadata;
use lopdf::{Document, Object};

const PAGE_MARGIN: f64 = 36.0;

struct Geometry {
    page_width: f64,
    page_height: f64,
    draw_width: f64,
    draw_height: f64,
    offset_x: f64,
    offset_y: f64,
}

fn page_geometry(mode: PageMode, width: u32, height: u32) -> Geometry {
    let image_width = f64::from(width);
    let image_height = f64::from(height);
    let Some((page_width, page_height)) = mode.fixed_dimensions() else {
        return Geometry {
            page_width: image_width,
            page_height: image_height,
            draw_width: image_width,
            draw_height: image_height,
            offset_x: 0.0,
            offset_y: 0.0,
        };
    };
    let (page_width, page_height) = (f64::from(page_width), f64::from(page_height));
    let available_width = page_width - PAGE_MARGIN * 2.0;
    let available_height = page_height - PAGE_MARGIN * 2.0;
    let scale = (available_width / image_width).min(available_height / image_height);
    let draw_width = image_width * scale;
    let draw_height = image_height * scale;
    Geometry {
        page_width,
        page_height,
        draw_width,
        draw_height,
        offset_x: (page_width - draw_width) / 2.0,
        offset_y: (page_height - draw_height) / 2.0,
    }
}

fn place(geometry: &Geometry) -> PageGeometry {
    PageGeometry {
        page_width: (geometry.page_width as f32).to_string(),
        page_height: (geometry.page_height as f32).to_string(),
        draw_width: format!("{:.6}", geometry.draw_width),
        draw_height: format!("{:.6}", geometry.draw_height),
        offset_x: format!("{:.6}", geometry.offset_x),
        offset_y: format!("{:.6}", geometry.offset_y),
    }
}

fn build_images_pdf(images: Vec<Vec<u8>>, mode: PageMode) -> Result<Vec<u8>, String> {
    let prepared = prepare_images(&images)?;
    let places = prepared
        .iter()
        .map(|image| place(&page_geometry(mode, image.width, image.height)))
        .collect();
    images_to_pdf(&prepared, &places)
}

fn jpeg_fixture(width: u16, height: u16) -> Vec<u8> {
    let image = RgbImage::from_fn(u32::from(width), u32::from(height), |x, y| {
        let noise = ((x * 73 + y * 151 + x * y * 17) % 251) as u8;
        Rgb([noise, noise.rotate_left(2), noise.rotate_left(4)])
    });
    let mut bytes = Vec::new();
    Encoder::new(&mut bytes, 90)
        .encode(image.as_raw(), width, height, ColorType::Rgb)
        .expect("fixture JPEG should encode");
    bytes
}

fn grayscale_jpeg_fixture(width: u16, height: u16) -> Vec<u8> {
    let pixels = (0..usize::from(width) * usize::from(height))
        .map(|index| (index % 251) as u8)
        .collect::<Vec<_>>();
    let mut bytes = Vec::new();
    Encoder::new(&mut bytes, 90)
        .encode(&pixels, width, height, ColorType::Luma)
        .expect("grayscale JPEG should encode");
    bytes
}

fn png_fixture(width: u32, height: u32) -> Vec<u8> {
    let image = RgbaImage::from_fn(width, height, |x, y| {
        Rgba([(x % 251) as u8, (y % 251) as u8, 90, 255])
    });
    let mut bytes = Vec::new();
    PngEncoder::new(&mut bytes)
        .write_image(image.as_raw(), width, height, ExtendedColorType::Rgba8)
        .expect("fixture PNG should encode");
    bytes
}

fn inject_exif(jpeg: &[u8]) -> Vec<u8> {
    let payload = b"Exif\0\0II*\0\x08\0\0\0GPS latitude and longitude";
    let length = u16::try_from(payload.len() + 2).expect("APP1 fixture should fit");
    let mut output = Vec::new();
    output.extend_from_slice(&jpeg[..2]);
    output.extend_from_slice(&[0xff, 0xe1]);
    output.extend_from_slice(&length.to_be_bytes());
    output.extend_from_slice(payload);
    output.extend_from_slice(&jpeg[2..]);
    output
}

fn page_image(document: &Document, page_number: u32) -> &lopdf::Stream {
    let page_id = document.get_pages()[&page_number];
    let page = document
        .get_dictionary(page_id)
        .expect("page dictionary should exist");
    let resources = page
        .get(b"Resources")
        .and_then(Object::as_dict)
        .expect("page resources should exist");
    let xobjects = resources
        .get(b"XObject")
        .and_then(Object::as_dict)
        .expect("XObject resources should exist");
    let image_id = xobjects
        .get(b"Im0")
        .and_then(Object::as_reference)
        .expect("image reference should exist");
    document
        .get_object(image_id)
        .and_then(Object::as_stream)
        .expect("image stream should exist")
}

fn page_box(document: &Document, page_number: u32) -> Vec<f64> {
    let page_id = document.get_pages()[&page_number];
    document
        .get_dictionary(page_id)
        .and_then(|page| page.get(b"MediaBox"))
        .and_then(Object::as_array)
        .expect("MediaBox should exist")
        .iter()
        .map(|value| match value {
            Object::Integer(value) => *value as f64,
            Object::Real(value) => f64::from(*value),
            _ => panic!("MediaBox must contain numbers"),
        })
        .collect()
}

#[test]
fn embeds_jpeg_and_png_with_expected_filters_and_dimensions() {
    let gps_jpeg = inject_exif(&jpeg_fixture(40, 20));
    let output = build_images_pdf(vec![gps_jpeg, png_fixture(12, 24)], PageMode::Fit)
        .expect("images should combine");
    let document = Document::load_mem(&output).expect("output PDF should parse");
    assert_eq!(document.get_pages().len(), 2);
    assert!(!output.windows(6).any(|window| window == b"Exif\0\0"));

    let jpeg = page_image(&document, 1);
    assert_eq!(
        jpeg.dict
            .get(b"Filter")
            .and_then(Object::as_name)
            .expect("JPEG filter should exist"),
        b"DCTDecode"
    );
    assert_eq!(
        jpeg.dict
            .get(b"Width")
            .and_then(Object::as_i64)
            .expect("JPEG width should exist"),
        40
    );
    assert_eq!(
        jpeg.dict
            .get(b"Height")
            .and_then(Object::as_i64)
            .expect("JPEG height should exist"),
        20
    );

    let png = page_image(&document, 2);
    assert_eq!(
        png.dict
            .get(b"Filter")
            .and_then(Object::as_name)
            .expect("PNG filter should exist"),
        b"FlateDecode"
    );
    assert_eq!(
        png.dict
            .get(b"Width")
            .and_then(Object::as_i64)
            .expect("PNG width should exist"),
        12
    );
    assert_eq!(
        png.dict
            .get(b"Height")
            .and_then(Object::as_i64)
            .expect("PNG height should exist"),
        24
    );
}

#[test]
fn strips_exif_gps_before_embedding_jpeg() {
    let source = inject_exif(&jpeg_fixture(32, 16));
    assert!(source.windows(6).any(|window| window == b"Exif\0\0"));
    let output = build_images_pdf(vec![source], PageMode::Fit).expect("JPEG should combine");
    assert!(!output.windows(6).any(|window| window == b"Exif\0\0"));
    assert!(!output.windows(3).any(|window| window == b"GPS"));
}

#[test]
fn baseline_jpeg_passthrough_keeps_stripped_bytes_exactly() {
    let source = inject_exif(&jpeg_fixture(48, 24));
    let expected = strip_jpeg_metadata(&source).expect("JPEG should be stripped");
    let output = build_images_pdf(vec![source], PageMode::Fit).expect("JPEG should combine");
    let document = Document::load_mem(&output).expect("output PDF should parse");
    assert_eq!(page_image(&document, 1).content, expected);
}

#[test]
fn output_is_deterministic_and_has_no_info_dictionary() {
    let images = vec![jpeg_fixture(32, 20), png_fixture(17, 9)];
    let first = build_images_pdf(images.clone(), PageMode::A4).expect("first run");
    let second = build_images_pdf(images, PageMode::A4).expect("second run");
    assert_eq!(first, second);
    let document = Document::load_mem(&first).expect("output PDF should parse");
    assert!(document.trailer.get(b"Info").is_err());
}

#[test]
fn fit_pages_match_pixel_dimensions() {
    let output = build_images_pdf(vec![png_fixture(123, 45)], PageMode::Fit)
        .expect("PNG should combine");
    let document = Document::load_mem(&output).expect("output PDF should parse");
    assert_eq!(page_box(&document, 1), vec![0.0, 0.0, 123.0, 45.0]);
}

#[test]
fn a4_pages_scale_within_margins_and_preserve_aspect() {
    let geometry = page_geometry(PageMode::A4, 400, 200);
    assert_eq!((geometry.page_width, geometry.page_height), (595.0, 842.0));
    assert!(geometry.draw_width <= 595.0 - PAGE_MARGIN * 2.0);
    assert!(geometry.draw_height <= 842.0 - PAGE_MARGIN * 2.0);
    assert!((geometry.draw_width / geometry.draw_height - 2.0).abs() < 0.000_001);
    assert!((geometry.offset_x - PAGE_MARGIN).abs() < 0.000_001);

    let output = build_images_pdf(vec![png_fixture(400, 200)], PageMode::A4)
        .expect("PNG should combine");
    let document = Document::load_mem(&output).expect("output PDF should parse");
    assert_eq!(page_box(&document, 1), vec![0.0, 0.0, 595.0, 842.0]);
}

#[test]
fn letter_pages_have_fixed_dimensions() {
    let output = build_images_pdf(vec![png_fixture(20, 40)], PageMode::Letter)
        .expect("PNG should combine");
    let document = Document::load_mem(&output).expect("output PDF should parse");
    assert_eq!(page_box(&document, 1), vec![0.0, 0.0, 612.0, 792.0]);
}

#[test]
fn unknown_page_mode_defaults_to_fit() {
    assert_eq!(PageMode::from_public("poster"), PageMode::Fit);
}

#[test]
fn empty_input_is_rejected() {
    assert_eq!(
        build_images_pdf(Vec::new(), PageMode::Fit).expect_err("empty input must fail"),
        "Choose at least one image to combine."
    );
}

#[test]
fn undecodable_image_error_names_its_position() {
    let error = build_images_pdf(
        vec![png_fixture(2, 2), b"\x89PNG\r\n\x1a\ntruncated".to_vec()],
        PageMode::Fit,
    )
    .expect_err("truncated PNG must fail");
    assert!(error.starts_with("Image 2 could not be read:"));
}

#[test]
fn non_image_blob_is_rejected_without_panicking() {
    let error = build_images_pdf(vec![b"not an image".to_vec()], PageMode::Fit)
        .expect_err("non-image must fail");
    assert!(error.starts_with("Image 1 could not be read:"));
}

#[test]
fn too_many_images_are_rejected_before_decoding() {
    let images = vec![Vec::new(); MAX_IMAGES + 1];
    let error = build_images_pdf(images, PageMode::Fit).expect_err("limit must fail");
    assert!(error.contains("500"));
}

#[test]
fn transparent_pixels_are_flattened_to_white_rgb() {
    let mut image = RgbaImage::new(1, 1);
    image.put_pixel(0, 0, Rgba([0, 0, 0, 0]));
    let mut source = Vec::new();
    PngEncoder::new(&mut source)
        .write_image(image.as_raw(), 1, 1, ExtendedColorType::Rgba8)
        .expect("transparent PNG should encode");
    let output = build_images_pdf(vec![source], PageMode::Fit).expect("PNG should combine");
    let document = Document::load_mem(&output).expect("output PDF should parse");
    let stream = page_image(&document, 1);
    let mut decoded = Vec::new();
    ZlibDecoder::new(stream.content.as_slice())
        .read_to_end(&mut decoded)
        .expect("Flate image should inflate");
    assert_eq!(decoded, vec![255, 255, 255]);
}

#[test]
fn grayscale_baseline_jpeg_uses_device_gray() {
    let source = grayscale_jpeg_fixture(8, 4);
    assert_eq!(
        parse_sof0(&source).expect("SOF0 should parse").components,
        1
    );
    let output = build_images_pdf(vec![source], PageMode::Fit).expect("JPEG should combine");
    let document = Document::load_mem(&output).expect("output PDF should parse");
    assert_eq!(
        page_image(&document, 1)
            .dict
            .get(b"ColorSpace")
            .and_then(Object::as_name)
            .expect("color space should exist"),
        b"DeviceGray"
    );
}
