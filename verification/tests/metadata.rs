//! Reporting and removing metadata.

use std::io::Write;

use image::codecs::png::PngEncoder;
use image::{
    ExtendedColorType, GenericImageView, ImageEncoder, Rgb, RgbImage, Rgba, RgbaImage,
};
use jpeg_encoder::{ColorType, Encoder};
use localbench_core::checksum::crc32;
use localbench_core::metadata::file::{inspect, scrub, verify_removed};
use localbench_core::metadata::jpeg_check::strip_jpeg_metadata;
use lopdf::{Dictionary, Document, Object, Stream};

const SUPPORTED_FORMATS_ERROR: &str = "Metadata scrubbing supports PDF, JPEG, and PNG files.";

fn dictionary(entries: Vec<(&str, Object)>) -> Dictionary {
    let mut dictionary = Dictionary::new();
    for (key, value) in entries {
        dictionary.set(key, value);
    }
    dictionary
}

fn jpeg_fixture(width: u16, height: u16) -> Vec<u8> {
    let image = RgbImage::from_fn(u32::from(width), u32::from(height), |x, y| {
        let noise = ((x * 73 + y * 151 + x * y * 17) % 251) as u8;
        Rgb([noise, noise.rotate_left(2), noise.rotate_left(4)])
    });
    let mut bytes = Vec::new();
    Encoder::new(&mut bytes, 90)
        .encode(image.as_raw(), width, height, ColorType::Rgb)
        .expect("fixture JPEG should encode");
    bytes
}

fn exif_gps(tiff_prefix: bool) -> Vec<u8> {
    let mut bytes = if tiff_prefix {
        b"Exif\0\0".to_vec()
    } else {
        Vec::new()
    };
    bytes.extend_from_slice(b"II*\0\x08\0\0\0\x01\0\x25\x88\x04\0\x01\0\0\0\x1a\0\0\0\0\0\0\0");
    bytes
}

fn jpeg_segment(marker: u8, payload: &[u8]) -> Vec<u8> {
    let length = u16::try_from(payload.len() + 2).expect("fixture segment should fit");
    let mut segment = vec![0xff, marker];
    segment.extend_from_slice(&length.to_be_bytes());
    segment.extend_from_slice(payload);
    segment
}

fn inject_jpeg_segments(jpeg: &[u8], segments: &[Vec<u8>]) -> Vec<u8> {
    let mut output = Vec::new();
    output.extend_from_slice(&jpeg[..2]);
    for segment in segments {
        output.extend_from_slice(segment);
    }
    output.extend_from_slice(&jpeg[2..]);
    output
}

fn scan_suffix(jpeg: &[u8]) -> &[u8] {
    let position = jpeg
        .windows(2)
        .position(|window| window == [0xff, 0xda])
        .expect("fixture should have an SOS marker");
    &jpeg[position..]
}

fn png_fixture(width: u32, height: u32) -> Vec<u8> {
    let image = RgbaImage::from_fn(width, height, |x, y| {
        Rgba([
            ((x * 29 + y * 7) % 256) as u8,
            ((x * 11 + y * 41) % 256) as u8,
            ((x * 53 + y * 17) % 256) as u8,
            255,
        ])
    });
    let mut bytes = Vec::new();
    PngEncoder::new(&mut bytes)
        .write_image(image.as_raw(), width, height, ExtendedColorType::Rgba8)
        .expect("fixture PNG should encode");
    bytes
}

fn png_chunk(chunk_type: &[u8; 4], data: &[u8]) -> Vec<u8> {
    let mut chunk = Vec::new();
    chunk.extend_from_slice(
        &u32::try_from(data.len())
            .expect("fixture chunk should fit")
            .to_be_bytes(),
    );
    chunk.extend_from_slice(chunk_type);
    chunk.extend_from_slice(data);
    chunk.extend_from_slice(&crc32(&chunk[4..]).to_be_bytes());
    chunk
}

fn inject_png_chunks(png: &[u8], chunks: &[Vec<u8>]) -> Vec<u8> {
    let ihdr_end = 8 + 4 + 4 + 13 + 4;
    let mut output = Vec::new();
    output.extend_from_slice(&png[..ihdr_end]);
    for chunk in chunks {
        output.extend_from_slice(chunk);
    }
    output.extend_from_slice(&png[ihdr_end..]);
    output
}

fn chunk_data(png: &[u8], wanted: &[u8; 4]) -> Vec<Vec<u8>> {
    let mut chunks = Vec::new();
    let mut position = 8usize;
    while position + 12 <= png.len() {
        let length =
            u32::from_be_bytes(png[position..position + 4].try_into().unwrap()) as usize;
        let chunk_type = &png[position + 4..position + 8];
        let data_start = position + 8;
        let data_end = data_start + length;
        if chunk_type == wanted {
            chunks.push(png[data_start..data_end].to_vec());
        }
        position = data_end + 4;
    }
    chunks
}

fn pdf_fixture(with_metadata: bool) -> Vec<u8> {
    let mut document = Document::with_version("1.5");
    let pages_id = document.new_object_id();
    let content_id = document.add_object(Stream::new(dictionary(vec![]), b"q Q".to_vec()));
    let metadata_id = if with_metadata {
        Some(document.add_object(Stream::new(
            dictionary(vec![
                ("Type", Object::from("Metadata")),
                ("Subtype", Object::from("XML")),
            ]),
            b"<x:xmpmeta>private editing history</x:xmpmeta>".to_vec(),
        )))
    } else {
        None
    };
    let mut page = dictionary(vec![
        ("Type", Object::from("Page")),
        ("Parent", Object::from(pages_id)),
        ("MediaBox", Object::from(vec![0.into(), 0.into(), 200.into(), 200.into()])),
        ("Resources", Object::from(dictionary(vec![]))),
        ("Contents", Object::from(content_id)),
    ]);
    if let Some(metadata_id) = metadata_id {
        page.set("Metadata", metadata_id);
    }
    let page_id = document.add_object(page);
    document.objects.insert(
        pages_id,
        Object::Dictionary(dictionary(vec![
            ("Type", Object::from("Pages")),
            ("Kids", Object::from(vec![Object::Reference(page_id)])),
            ("Count", Object::from(1)),
        ])),
    );
    let mut catalog = dictionary(vec![
        ("Type", Object::from("Catalog")),
        ("Pages", Object::from(pages_id)),
    ]);
    if let Some(metadata_id) = metadata_id {
        catalog.set("Metadata", metadata_id);
    }
    let catalog_id = document.add_object(catalog);
    document.trailer.set("Root", catalog_id);
    if with_metadata {
        let info_id = document.add_object(dictionary(vec![
            ("Title", Object::string_literal("Location scouting")),
            ("Author", Object::string_literal("Ada Example")),
            ("Creator", Object::string_literal("Layout Tool")),
            ("Producer", Object::string_literal("PDF Engine")),
        ]));
        document.trailer.set("Info", info_id);
    }

    let mut bytes = Vec::new();
    document
        .save_to(&mut bytes)
        .expect("fixture PDF should serialize");
    bytes
}

fn dimensions(bytes: &[u8]) -> (u32, u32) {
    image::load_from_memory(bytes)
        .expect("image should decode")
        .dimensions()
}

#[test]
fn jpeg_exif_gps_is_reported_and_removed_losslessly() {
    let clean = jpeg_fixture(64, 32);
    let source = inject_jpeg_segments(&clean, &[jpeg_segment(0xe1, &exif_gps(true))]);

    let report = inspect(&source).expect("EXIF JPEG should inspect");
    assert!(report.contains("\"label\":\"EXIF\""));
    assert!(report.contains("includes GPS location"));
    assert!(report.contains("\"sensitive\":true"));

    let scrubbed = scrub(&source).expect("EXIF JPEG should scrub");
    assert!(!scrubbed.windows(6).any(|window| window == b"Exif\0\0"));
    assert!(!scrubbed.windows(2).any(|window| window == [0xff, 0xe1]));
    assert_eq!(dimensions(&scrubbed), (64, 32));
    assert_eq!(scan_suffix(&scrubbed), scan_suffix(&source));
    assert_eq!(scrubbed, clean);
}

#[test]
fn jpeg_xmp_iptc_and_comments_are_removed_but_icc_is_preserved() {
    let clean = jpeg_fixture(24, 12);
    let icc = jpeg_segment(0xe2, b"ICC_PROFILE\0kept color data");
    let source = inject_jpeg_segments(
        &clean,
        &[
            icc.clone(),
            jpeg_segment(0xe1, b"http://ns.adobe.com/xap/1.0/\0<xmp>history</xmp>"),
            jpeg_segment(0xed, b"Photoshop 3.0\0creator and city"),
            jpeg_segment(0xfe, b"shared from the studio"),
        ],
    );

    let report = inspect(&source).expect("metadata JPEG should inspect");
    assert!(report.contains("XMP"));
    assert!(report.contains("IPTC / Photoshop"));
    assert!(report.contains("shared from the studio"));
    let scrubbed = scrub(&source).expect("metadata JPEG should scrub");
    assert!(scrubbed.windows(icc.len()).any(|window| window == icc));
    assert!(!scrubbed.windows(9).any(|window| window == b"Photoshop"));
    assert!(!scrubbed.windows(4).any(|window| window == b"<xmp"));
    assert_eq!(scan_suffix(&scrubbed), scan_suffix(&source));
}

#[test]
fn clean_jpeg_reports_empty_and_remains_byte_identical() {
    let clean = jpeg_fixture(16, 8);
    assert_eq!(inspect(&clean).unwrap(), "{\"kind\":\"jpeg\",\"items\":[]}");
    assert_eq!(scrub(&clean).unwrap(), clean);
}

#[test]
fn jpeg_app1_without_a_known_prefix_is_still_stripped() {
    let clean = jpeg_fixture(20, 10);
    // An APP1 that is neither the Exif nor the canonical XMP prefix — the exact
    // crafted segment a payload-prefix scrubber would have left in place.
    let sneaky = jpeg_segment(0xe1, b"http://ns.adobe.com/xap\0<x>Location 60,24</x>");
    let source = inject_jpeg_segments(&clean, std::slice::from_ref(&sneaky));

    let report = inspect(&source).expect("crafted APP1 JPEG should inspect");
    assert!(report.contains("application metadata"));
    let scrubbed = scrub(&source).expect("crafted APP1 JPEG should scrub");
    assert!(!scrubbed.windows(2).any(|window| window == [0xff, 0xe1]));
    assert!(!scrubbed.windows(8).any(|window| window == b"Location"));
    // Nothing but the metadata segment was touched.
    assert_eq!(scrubbed, clean);
}

/// Decode-relevant PAYLOADS survive — not decode-relevant marker classes. The
/// same markers with any other payload are dropped: see
/// `jpeg_drops_non_decode_payloads_in_app0_and_app2`.
#[test]
fn jpeg_keeps_decode_relevant_payloads_byte_for_byte() {
    let clean = jpeg_fixture(18, 9);
    let jfif = jpeg_segment(0xe0, b"JFIF\0\x01\x02\x01\0\x48\0\x48\0\0");
    let icc = jpeg_segment(0xe2, b"ICC_PROFILE\0color");
    // A well-formed APP14 Adobe marker (Adobe + version/flags/transform); a
    // malformed one would make the JPEG undecodable, which is a different test.
    let adobe = jpeg_segment(0xee, b"Adobe\0\x64\0\0\0\0\x01");
    let source = inject_jpeg_segments(&clean, &[jfif.clone(), icc.clone(), adobe.clone()]);

    // None of these three payloads is user metadata: the report is empty and
    // the scrub is a no-op.
    assert_eq!(
        inspect(&source).unwrap(),
        "{\"kind\":\"jpeg\",\"items\":[]}"
    );
    let scrubbed = scrub(&source).expect("decode-relevant JPEG should scrub");
    for segment in [&jfif, &icc, &adobe] {
        assert!(
            contains(&scrubbed, segment),
            "a decode-relevant segment must survive byte-for-byte"
        );
    }
    assert_eq!(scrubbed, source);
}

#[test]
fn png_text_and_exif_are_reported_and_removed_without_touching_idat() {
    let clean = png_fixture(32, 16);
    let source = inject_png_chunks(
        &clean,
        &[
            png_chunk(b"tEXt", b"Software\0Adobe"),
            png_chunk(b"eXIf", &exif_gps(false)),
        ],
    );
    let source_idat = chunk_data(&source, b"IDAT");

    let report = inspect(&source).expect("metadata PNG should inspect");
    assert!(report.contains("Text: Software"));
    assert!(report.contains("Adobe"));
    assert!(report.contains("EXIF"));
    assert!(report.contains("includes GPS location"));
    let scrubbed = scrub(&source).expect("metadata PNG should scrub");
    assert!(chunk_data(&scrubbed, b"tEXt").is_empty());
    assert!(chunk_data(&scrubbed, b"eXIf").is_empty());
    assert_eq!(chunk_data(&scrubbed, b"IDAT"), source_idat);
    assert_eq!(dimensions(&scrubbed), (32, 16));
    assert_eq!(scrubbed, clean);
}

#[test]
fn png_compressed_text_itxt_and_time_are_described() {
    let clean = png_fixture(8, 4);
    let source = inject_png_chunks(
        &clean,
        &[
            png_chunk(b"zTXt", b"GPS Position\0\0compressed"),
            png_chunk(b"iTXt", b"Caption\0\0\0en\0Caption\0A local file"),
            png_chunk(b"tIME", &[0x07, 0xea, 7, 21, 12, 34, 56]),
        ],
    );
    let report = inspect(&source).expect("PNG metadata should inspect");
    assert!(report.contains("Text: GPS Position"));
    // The zTXt payload here is not valid zlib, so it cannot be inflated; the
    // tool says so honestly (valid compressed text is inflated — see the
    // png_compressed_ztxt/itxt tests) while still stripping the chunk.
    assert!(report.contains("(unreadable compressed text)"));
    assert!(report.contains("\"sensitive\":true"));
    assert!(report.contains("A local file"));
    assert!(report.contains("2026-07-21 12:34:56 UTC"));
    assert_eq!(scrub(&source).unwrap(), clean);
}

#[test]
fn clean_png_reports_empty_and_remains_byte_identical() {
    let clean = png_fixture(10, 5);
    assert_eq!(inspect(&clean).unwrap(), "{\"kind\":\"png\",\"items\":[]}");
    assert_eq!(scrub(&clean).unwrap(), clean);
}

#[test]
fn pdf_info_and_xmp_are_reported_and_removed() {
    let source = pdf_fixture(true);
    let report = inspect(&source).expect("metadata PDF should inspect");
    assert!(report.contains("Location scouting"));
    assert!(report.contains("Ada Example"));
    assert!(report.contains("\"label\":\"Author\""));
    assert!(report.contains("XMP metadata"));

    let scrubbed = scrub(&source).expect("metadata PDF should scrub");
    let document = Document::load_mem(&scrubbed).expect("scrubbed PDF should parse");
    assert_eq!(document.get_pages().len(), 1);
    assert!(document.trailer.get(b"Info").is_err());
    assert!(document.objects.values().all(|object| match object {
        Object::Dictionary(dictionary) => !dictionary.has(b"Metadata"),
        Object::Stream(stream) => !stream.dict.has(b"Metadata"),
        _ => true,
    }));
    // The payload strings themselves are gone from the bytes — the check that
    // does not depend on any detector agreeing.
    assert!(!contains(&scrubbed, b"Location scouting"));
    assert!(!contains(&scrubbed, b"Ada Example"));
    verify_removed(&scrubbed).expect("scrubbed PDF is structurally clean");
}

#[test]
fn clean_pdf_reports_empty_and_stays_valid() {
    let source = pdf_fixture(false);
    assert_eq!(inspect(&source).unwrap(), "{\"kind\":\"pdf\",\"items\":[]}");
    let scrubbed = scrub(&source).expect("clean PDF should scrub");
    assert_eq!(Document::load_mem(&scrubbed).unwrap().get_pages().len(), 1);
    verify_removed(&scrubbed).expect("scrubbed PDF is structurally clean");
}

fn zlib(data: &[u8]) -> Vec<u8> {
    let mut encoder =
        flate2::write::ZlibEncoder::new(Vec::new(), flate2::Compression::default());
    encoder.write_all(data).expect("zlib fixture should encode");
    encoder.finish().expect("zlib fixture should finish")
}

#[test]
fn png_compressed_ztxt_is_inflated_reported_and_removed() {
    let clean = png_fixture(16, 8);
    // keyword "Comment" \0 + compression_method(0) + zlib(text with GPS).
    let mut ztxt = b"Comment\0\0".to_vec();
    ztxt.extend_from_slice(&zlib(
        b"Shot on MtclabCam, GPSLatitude 60.1, GPSLongitude 24.9",
    ));
    let source = inject_png_chunks(&clean, &[png_chunk(b"zTXt", &ztxt)]);
    let source_idat = chunk_data(&source, b"IDAT");

    let report = inspect(&source).expect("zTXt PNG should inspect");
    assert!(
        report.contains("GPSLatitude"),
        "inflated value is shown: {report}"
    );
    assert!(
        report.contains("\"sensitive\":true"),
        "GPS in inflated text flags sensitive: {report}"
    );
    let scrubbed = scrub(&source).expect("zTXt PNG should scrub");
    assert!(!scrubbed.windows(4).any(|window| window == b"zTXt"));
    assert_eq!(
        chunk_data(&scrubbed, b"IDAT"),
        source_idat,
        "IDAT untouched"
    );
}

#[test]
fn png_compressed_itxt_is_inflated() {
    let clean = png_fixture(16, 8);
    // keyword \0 flag(1) method(0) language\0 translated\0 + zlib(text).
    let mut itxt = b"XML:com.adobe.xmp\0\x01\0en\0\0".to_vec();
    itxt.extend_from_slice(&zlib(b"<x:xmpmeta>studio edit trail</x:xmpmeta>"));
    let source = inject_png_chunks(&clean, &[png_chunk(b"iTXt", &itxt)]);

    let report = inspect(&source).expect("iTXt PNG should inspect");
    assert!(
        report.contains("studio edit trail"),
        "compressed iTXt inflated: {report}"
    );
    let scrubbed = scrub(&source).expect("iTXt PNG should scrub");
    assert!(!scrubbed.windows(4).any(|window| window == b"iTXt"));
}

/// A PDF whose XMP stream is reachable from the catalog through `/AF`, not
/// `/Metadata` — dropping the `/Metadata` reference and pruning would leave it.
fn pdf_with_reachable_xmp_stream() -> Vec<u8> {
    let mut document = Document::with_version("1.5");
    let pages_id = document.new_object_id();
    let content_id = document.add_object(Stream::new(dictionary(vec![]), b"q Q".to_vec()));
    let xmp_id = document.add_object(Stream::new(
        dictionary(vec![("Type", Object::from("Metadata")), ("Subtype", Object::from("XML"))]),
        b"<?xpacket begin=\"\xef\xbb\xbf\"?><x:xmpmeta>secret author line</x:xmpmeta><?xpacket end=\"w\"?>".to_vec(),
    ));
    let page_id = document.add_object(dictionary(vec![
        ("Type", Object::from("Page")),
        ("Parent", Object::from(pages_id)),
        ("MediaBox", Object::from(vec![0.into(), 0.into(), 200.into(), 200.into()])),
        ("Resources", Object::from(dictionary(vec![]))),
        ("Contents", Object::from(content_id)),
    ]));
    document.objects.insert(
        pages_id,
        Object::Dictionary(dictionary(vec![
            ("Type", Object::from("Pages")),
            ("Kids", Object::from(vec![Object::Reference(page_id)])),
            ("Count", Object::from(1)),
        ])),
    );
    let catalog_id = document.add_object(dictionary(vec![
        ("Type", Object::from("Catalog")),
        ("Pages", Object::from(pages_id)),
        ("AF", Object::from(vec![Object::Reference(xmp_id)])),
    ]));
    document.trailer.set("Root", catalog_id);
    let mut bytes = Vec::new();
    document
        .save_to(&mut bytes)
        .expect("embedded-XMP fixture should serialize");
    bytes
}

#[test]
fn pdf_xmp_reachable_without_metadata_ref_is_reported_and_removed() {
    let source = pdf_with_reachable_xmp_stream();
    let report = inspect(&source).expect("embedded-XMP PDF should inspect");
    assert!(
        report.contains("XMP metadata"),
        "reports embedded XMP: {report}"
    );

    let scrubbed = scrub(&source).expect("embedded-XMP PDF should scrub");
    assert!(!scrubbed.windows(9).any(|window| window == b"<?xpacket"));
    assert!(!scrubbed
        .windows(18)
        .any(|window| window == b"secret author line"));
    assert_eq!(Document::load_mem(&scrubbed).unwrap().get_pages().len(), 1);
    verify_removed(&scrubbed).expect("scrubbed PDF is structurally clean");
}

#[test]
fn encrypted_pdf_is_rejected_for_inspect_and_scrub() {
    let mut document = Document::load_mem(&pdf_fixture(false)).unwrap();
    document.trailer.set("Encrypt", dictionary(vec![]));
    let mut bytes = Vec::new();
    document.save_to(&mut bytes).unwrap();
    assert!(inspect(&bytes).unwrap_err().contains("password-protected"));
    assert!(scrub(&bytes).unwrap_err().contains("password-protected"));
}

#[test]
fn detected_but_truncated_files_return_errors_without_panicking() {
    for bytes in [
        b"%PDF-1.7\ngarbage".as_slice(),
        b"\xff\xd8\xff\xe1\0\x10Exif".as_slice(),
        b"\x89PNG\r\n\x1a\ntruncated".as_slice(),
    ] {
        assert!(inspect(bytes).is_err());
        assert!(scrub(bytes).is_err());
    }
}

#[test]
fn empty_garbage_and_gif_return_the_supported_formats_error() {
    for bytes in [
        b"".as_slice(),
        b"not a supported file".as_slice(),
        b"GIF89a\x01\0\x01\0\x80\0\0\0\0\0\xff\xff\xff".as_slice(),
    ] {
        assert_eq!(inspect(bytes).unwrap_err(), SUPPORTED_FORMATS_ERROR);
        assert_eq!(scrub(bytes).unwrap_err(), SUPPORTED_FORMATS_ERROR);
    }
}

/// Build an `Exif\0\0` APP1 payload: big-endian TIFF, IFD0 carrying the given
/// raw entries (tag, type, count, 4-byte value field).
fn exif_payload(entries: &[(u16, u16, u32, [u8; 4])], with_prefix: bool) -> Vec<u8> {
    let mut bytes = if with_prefix {
        b"Exif\0\0".to_vec()
    } else {
        Vec::new()
    };
    bytes.extend_from_slice(b"MM\0\x2a\0\0\0\x08");
    bytes.extend_from_slice(&u16::try_from(entries.len()).unwrap().to_be_bytes());
    for (tag, kind, count, value) in entries {
        bytes.extend_from_slice(&tag.to_be_bytes());
        bytes.extend_from_slice(&kind.to_be_bytes());
        bytes.extend_from_slice(&count.to_be_bytes());
        bytes.extend_from_slice(value);
    }
    bytes.extend_from_slice(&[0, 0, 0, 0]);
    bytes
}

fn orientation_entry(value: u16) -> (u16, u16, u32, [u8; 4]) {
    (0x0112, 3, 1, [(value >> 8) as u8, value as u8, 0, 0])
}

const GPS_POINTER_ENTRY: (u16, u16, u32, [u8; 4]) = (0x8825, 4, 1, [0, 0, 0, 0x1a]);

/// Read the EXIF Orientation tag out of a JPEG the way a viewer does, so the
/// test asserts the rendered geometry survives rather than that some bytes do.
fn jpeg_orientation(jpeg: &[u8]) -> Option<u16> {
    let start = jpeg.windows(6).position(|window| window == b"Exif\0\0")?;
    let tiff = &jpeg[start + 6..];
    let big_endian = tiff.starts_with(b"MM");
    let ifd = u32::from_be_bytes(tiff.get(4..8)?.try_into().ok()?) as usize;
    let count = u16::from_be_bytes(tiff.get(ifd..ifd + 2)?.try_into().ok()?) as usize;
    assert!(big_endian, "fixture and emitter both use big-endian TIFF");
    (0..count).find_map(|index| {
        let entry = tiff.get(ifd + 2 + index * 12..ifd + 2 + index * 12 + 12)?;
        if u16::from_be_bytes(entry[..2].try_into().ok()?) != 0x0112 {
            return None;
        }
        Some(u16::from_be_bytes(entry[8..10].try_into().ok()?))
    })
}

fn contains(haystack: &[u8], needle: &[u8]) -> bool {
    haystack
        .windows(needle.len())
        .any(|window| window == needle)
}

/// An ancillary PNG chunk that nothing is known of is never kept silently.
#[test]
fn png_unknown_ancillary_chunks_are_reported_and_removed() {
    let clean = png_fixture(32, 16);
    let payload = b"GPSLatitude 60.1699 GPSLongitude 24.9384 shot at home";
    let source = inject_png_chunks(
        &clean,
        &[
            png_chunk(b"prVW", payload),
            png_chunk(b"caNv", b"GIMP canvas 1024x768 /home/ada/private"),
        ],
    );

    let report = inspect(&source).expect("vendor-chunk PNG should inspect");
    assert!(
        report.contains("prVW") && report.contains("caNv"),
        "unknown ancillary chunks must be reported: {report}"
    );
    assert!(
        report.contains("\"sensitive\":true"),
        "a GPS-shaped payload in an unknown chunk is sensitive: {report}"
    );

    let scrubbed = scrub(&source).expect("vendor-chunk PNG should scrub");
    assert!(
        !contains(&scrubbed, payload),
        "the unknown chunk's payload must not survive the scrub"
    );
    assert!(!contains(&scrubbed, b"prVW"));
    assert!(!contains(&scrubbed, b"caNv"));
    assert!(!contains(&scrubbed, b"/home/ada/private"));
    assert_eq!(scrubbed, clean, "only the vendor chunks were removed");
}

/// Chunks that affect how the image RENDERS are deliberately kept, and the report
/// stays empty because they carry no user metadata.
#[test]
fn png_keeps_rendering_chunks_and_reports_nothing() {
    let clean = png_fixture(16, 8);
    let rendering = [
        png_chunk(b"sRGB", &[0]),
        png_chunk(b"gAMA", &45455u32.to_be_bytes()),
        png_chunk(b"pHYs", b"\0\0\x0b\x13\0\0\x0b\x13\x01"),
    ];
    let source = inject_png_chunks(&clean, &rendering);

    assert_eq!(inspect(&source).unwrap(), "{\"kind\":\"png\",\"items\":[]}");
    let scrubbed = scrub(&source).expect("rendering-chunk PNG should scrub");
    for chunk in &rendering {
        assert!(
            contains(&scrubbed, chunk),
            "rendering chunk must survive byte-for-byte"
        );
    }
}

/// A second full JPEG appended after EOI (MPF / Ultra-HDR gain map / Samsung motion
/// photo) carries an EXIF block of its own.
#[test]
fn jpeg_trailing_second_image_is_reported_and_removed() {
    let primary = jpeg_fixture(40, 20);
    let secondary = inject_jpeg_segments(
        &jpeg_fixture(20, 10),
        &[
            jpeg_segment(0xe1, &exif_payload(&[GPS_POINTER_ENTRY], true)),
            jpeg_segment(0xfe, b"SECONDARY-IMAGE-GPS-60.1699-24.9384"),
        ],
    );
    let mut source = primary.clone();
    source.extend_from_slice(&secondary);

    let report = inspect(&source).expect("appended-image JPEG should inspect");
    assert!(
        report.contains("Trailing data"),
        "trailing image data must be reported: {report}"
    );
    assert!(
        report.contains("\"sensitive\":true"),
        "a trailing image carrying GPS is sensitive: {report}"
    );

    let scrubbed = scrub(&source).expect("appended-image JPEG should scrub");
    assert!(
        !contains(&scrubbed, b"SECONDARY-IMAGE-GPS-60.1699-24.9384"),
        "the appended image's payload must not survive the scrub"
    );
    assert!(!contains(&scrubbed, b"Exif\0\0"));
    assert_eq!(scrubbed, primary, "the primary image is kept untouched");
    assert_eq!(dimensions(&scrubbed), (40, 20));
}

/// What goes into a PDF is stripped by `strip_jpeg_metadata` alone.
#[test]
fn strip_jpeg_metadata_drops_trailing_image_data() {
    let primary = jpeg_fixture(24, 12);
    let mut source = primary.clone();
    source.extend_from_slice(&inject_jpeg_segments(
        &jpeg_fixture(12, 6),
        &[jpeg_segment(0xfe, b"APPENDED-PII")],
    ));
    let stripped = strip_jpeg_metadata(&source).expect("baseline JPEG should strip");
    assert!(!contains(&stripped, b"APPENDED-PII"));
    assert_eq!(stripped, primary);
}

/// A portrait phone photo must not come out rotated.
#[test]
fn jpeg_orientation_survives_while_gps_is_removed() {
    let clean = jpeg_fixture(32, 64);
    let source = inject_jpeg_segments(
        &clean,
        &[jpeg_segment(
            0xe1,
            &exif_payload(&[orientation_entry(6), GPS_POINTER_ENTRY], true),
        )],
    );
    assert_eq!(jpeg_orientation(&source), Some(6), "fixture is portrait");

    let report = inspect(&source).expect("portrait JPEG should inspect");
    assert!(report.contains("includes GPS location"), "{report}");

    let scrubbed = scrub(&source).expect("portrait JPEG should scrub");
    assert_eq!(
        jpeg_orientation(&scrubbed),
        Some(6),
        "the photo must still render portrait after scrubbing"
    );
    // The GPS pointer tag (0x8825) is gone even though an EXIF block remains.
    assert!(!contains(&scrubbed, &[0x88, 0x25, 0x00, 0x04]));
    assert_eq!(scan_suffix(&scrubbed), scan_suffix(&source));
}

/// An upright photo gets no re-emitted EXIF at all: orientation 1 is the
/// default, so preserving it would mean leaving metadata for no reason.
#[test]
fn jpeg_upright_orientation_leaves_no_exif_behind() {
    let clean = jpeg_fixture(16, 8);
    let source = inject_jpeg_segments(
        &clean,
        &[jpeg_segment(
            0xe1,
            &exif_payload(&[orientation_entry(1), GPS_POINTER_ENTRY], true),
        )],
    );
    let scrubbed = scrub(&source).expect("upright JPEG should scrub");
    assert!(!contains(&scrubbed, b"Exif\0\0"));
    assert_eq!(scrubbed, clean);
}

/// APP0 and APP2 are kept by payload, not by marker class: a JFXX thumbnail and an
/// APP2 without a colour profile (MPF, FPXR) go.
#[test]
fn jpeg_drops_non_decode_payloads_in_app0_and_app2() {
    let clean = jpeg_fixture(20, 10);
    let jfxx = jpeg_segment(0xe0, b"JFXX\0\x11THUMBNAIL-PIXELS-OF-THE-ORIGINAL");
    let mpf = jpeg_segment(0xe2, b"MPF\0MM\0\x2aOFFSETS-AND-CAMERA-SERIAL");
    let source = inject_jpeg_segments(&clean, &[jfxx, mpf]);

    let report = inspect(&source).expect("JFXX/MPF JPEG should inspect");
    assert!(report.contains("JFXX"), "JFXX thumbnail reported: {report}");
    assert!(report.contains("MPF"), "MPF index reported: {report}");

    let scrubbed = scrub(&source).expect("JFXX/MPF JPEG should scrub");
    assert!(!contains(&scrubbed, b"THUMBNAIL-PIXELS-OF-THE-ORIGINAL"));
    assert!(!contains(&scrubbed, b"OFFSETS-AND-CAMERA-SERIAL"));
    assert_eq!(scrubbed, clean);
}

/// A PDF whose XMP may do without the optional `<?xpacket` wrapper.
fn pdf_with_xmp(content: &[u8]) -> Vec<u8> {
    let mut document = Document::with_version("1.5");
    let pages_id = document.new_object_id();
    let content_id = document.add_object(Stream::new(dictionary(vec![]), b"q Q".to_vec()));
    let xmp_id = document.add_object(Stream::new(
        dictionary(vec![("Type", Object::from("Metadata")), ("Subtype", Object::from("XML"))]),
        content.to_vec(),
    ));
    let page_id = document.add_object(dictionary(vec![
        ("Type", Object::from("Page")),
        ("Parent", Object::from(pages_id)),
        ("MediaBox", Object::from(vec![0.into(), 0.into(), 200.into(), 200.into()])),
        ("Resources", Object::from(dictionary(vec![]))),
        ("Contents", Object::from(content_id)),
    ]));
    document.objects.insert(
        pages_id,
        Object::Dictionary(dictionary(vec![
            ("Type", Object::from("Pages")),
            ("Kids", Object::from(vec![Object::Reference(page_id)])),
            ("Count", Object::from(1)),
        ])),
    );
    let catalog_id = document.add_object(dictionary(vec![
        ("Type", Object::from("Catalog")),
        ("Pages", Object::from(pages_id)),
        ("AF", Object::from(vec![Object::Reference(xmp_id)])),
    ]));
    document.trailer.set("Root", catalog_id);
    let mut bytes = Vec::new();
    document
        .save_to(&mut bytes)
        .expect("XMP fixture serializes");
    bytes
}

#[test]
fn pdf_xmp_without_an_xpacket_wrapper_is_reported_and_removed() {
    let source =
        pdf_with_xmp(b"<x:xmpmeta xmlns:x=\"adobe:ns:meta/\"><dc:creator>ADA WRAPPERLESS</dc:creator></x:xmpmeta>");
    let report = inspect(&source).expect("wrapper-less XMP PDF should inspect");
    assert!(
        report.contains("XMP metadata"),
        "XMP without the optional xpacket wrapper must still be reported: {report}"
    );
    let scrubbed = scrub(&source).expect("wrapper-less XMP PDF should scrub");
    assert!(!contains(&scrubbed, b"ADA WRAPPERLESS"));
    assert!(!contains(&scrubbed, b"xmpmeta"));
}

#[test]
fn pdf_second_xmp_packet_in_one_stream_is_also_removed() {
    let source = pdf_with_xmp(
        b"<?xpacket begin=\"\"?><x:xmpmeta>FIRST PACKET</x:xmpmeta><?xpacket end=\"w\"?>\
          <?xpacket begin=\"\"?><x:xmpmeta>SECOND PACKET</x:xmpmeta><?xpacket end=\"w\"?>",
    );
    let scrubbed = scrub(&source).expect("two-packet XMP PDF should scrub");
    assert!(!contains(&scrubbed, b"FIRST PACKET"));
    assert!(
        !contains(&scrubbed, b"SECOND PACKET"),
        "every packet in the stream must go, not just the first"
    );
}

/// A PDF with annotation authorship, private application data or an attachment.
fn pdf_with_extras(annotation: bool, piece_info: bool, embedded_file: bool) -> Vec<u8> {
    let mut document = Document::with_version("1.5");
    let pages_id = document.new_object_id();
    let content_id = document.add_object(Stream::new(dictionary(vec![]), b"q Q".to_vec()));
    let mut page = dictionary(vec![
        ("Type", Object::from("Page")),
        ("Parent", Object::from(pages_id)),
        ("MediaBox", Object::from(vec![0.into(), 0.into(), 200.into(), 200.into()])),
        ("Resources", Object::from(dictionary(vec![]))),
        ("Contents", Object::from(content_id)),
    ]);
    if annotation {
        let annot_id = document.add_object(dictionary(vec![
            ("Type", Object::from("Annot")),
            ("Subtype", Object::from("Text")),
            ("Rect", Object::from(vec![0.into(), 0.into(), 20.into(), 20.into()])),
            ("T", Object::string_literal("Ada Commenter")),
            ("M", Object::string_literal("D:20260101120000Z")),
            ("Contents", Object::string_literal("looks fine to me")),
        ]));
        page.set("Annots", vec![Object::Reference(annot_id)]);
    }
    if piece_info {
        page.set(
            "PieceInfo",
            dictionary(vec![
                ("MtclabTool", Object::from(dictionary(vec![
                    ("LastModified", Object::string_literal("D:20260101120000Z")),
                    ("Private", Object::string_literal("/home/ada/drafts/secret.indd")),
                ]))),
            ]),
        );
    }
    let page_id = document.add_object(page);
    document.objects.insert(
        pages_id,
        Object::Dictionary(dictionary(vec![
            ("Type", Object::from("Pages")),
            ("Kids", Object::from(vec![Object::Reference(page_id)])),
            ("Count", Object::from(1)),
        ])),
    );
    let mut catalog = dictionary(vec![
        ("Type", Object::from("Catalog")),
        ("Pages", Object::from(pages_id)),
    ]);
    if embedded_file {
        let file_id = document.add_object(Stream::new(
            dictionary(vec![("Type", Object::from("EmbeddedFile"))]),
            b"ATTACHED-PAYROLL-CSV".to_vec(),
        ));
        let spec_id = document.add_object(dictionary(vec![
            ("Type", Object::from("Filespec")),
            ("F", Object::string_literal("payroll.csv")),
            ("EF", Object::from(dictionary(vec![("F", Object::Reference(file_id))]))),
        ]));
        catalog.set(
            "Names",
            dictionary(vec![
                ("EmbeddedFiles", Object::from(dictionary(vec![
                    ("Names", Object::from(vec![
                        Object::string_literal("payroll.csv"),
                        Object::Reference(spec_id),
                    ])),
                ]))),
            ]),
        );
    }
    let catalog_id = document.add_object(catalog);
    document.trailer.set("Root", catalog_id);
    let mut bytes = Vec::new();
    document
        .save_to(&mut bytes)
        .expect("extras fixture serializes");
    bytes
}

#[test]
fn pdf_annotation_author_is_reported_and_removed() {
    let source = pdf_with_extras(true, false, false);
    let report = inspect(&source).expect("annotated PDF should inspect");
    assert!(
        report.contains("Ada Commenter"),
        "the comment author must be reported: {report}"
    );
    assert!(report.contains("\"sensitive\":true"), "{report}");

    let scrubbed = scrub(&source).expect("annotated PDF should scrub");
    assert!(
        !contains(&scrubbed, b"Ada Commenter"),
        "the comment author must not survive the scrub"
    );
    // The comment itself is document content and is deliberately preserved.
    assert!(contains(&scrubbed, b"looks fine to me"));
    assert_eq!(Document::load_mem(&scrubbed).unwrap().get_pages().len(), 1);
}

#[test]
fn pdf_piece_info_is_reported_and_removed() {
    let source = pdf_with_extras(false, true, false);
    let report = inspect(&source).expect("PieceInfo PDF should inspect");
    assert!(report.contains("PieceInfo"), "{report}");
    let scrubbed = scrub(&source).expect("PieceInfo PDF should scrub");
    assert!(!contains(&scrubbed, b"/home/ada/drafts/secret.indd"));
    assert!(!contains(&scrubbed, b"PieceInfo"));
}

#[test]
fn pdf_embedded_file_is_reported_even_though_it_is_kept() {
    let source = pdf_with_extras(false, false, true);
    let report = inspect(&source).expect("attachment PDF should inspect");
    assert!(
        report.contains("Embedded file"),
        "an attachment is a leak the user must be told about: {report}"
    );
    assert!(report.contains("payroll.csv"), "{report}");
}

/// A producer's own `/Info` key is reported like the well-known ones.
#[test]
fn pdf_custom_info_keys_are_reported() {
    let mut document = Document::load_mem(&pdf_fixture(true)).unwrap();
    let info_id = match document.trailer.get(b"Info").unwrap() {
        Object::Reference(id) => *id,
        _ => panic!("fixture Info is a reference"),
    };
    if let Ok(Object::Dictionary(info)) = document.get_object_mut(info_id) {
        info.set("Company", Object::string_literal("Mtclab Oy"));
    }
    let mut bytes = Vec::new();
    document.save_to(&mut bytes).unwrap();

    let report = inspect(&bytes).expect("custom-Info PDF should inspect");
    assert!(
        report.contains("Company") && report.contains("Mtclab Oy"),
        "unknown Info keys must be reported, not skipped: {report}"
    );
    let scrubbed = scrub(&bytes).expect("custom-Info PDF should scrub");
    assert!(!contains(&scrubbed, b"Mtclab Oy"));
}

/// Every case below is a file that a gap in the report would wave through, and the
/// STRUCTURAL check rejects it without consulting the report at all.
#[test]
fn structural_verification_rejects_what_a_detector_gap_would_miss() {
    // A PNG chunk type no rule anywhere in this module knows about.
    let png = inject_png_chunks(&png_fixture(12, 6), &[png_chunk(b"zzZz", b"anything")]);
    assert!(
        verify_removed(&png).is_err(),
        "an unrecognized ancillary chunk must fail verification"
    );

    // Bytes after EOI, in any amount.
    let mut jpeg = jpeg_fixture(12, 6);
    jpeg.extend_from_slice(b"\x00trailing");
    assert!(
        verify_removed(&jpeg).is_err(),
        "trailing bytes must fail verification"
    );

    // An APP1 that is not the one orientation-only EXIF block we may emit.
    let crafted = inject_jpeg_segments(
        &jpeg_fixture(12, 6),
        &[jpeg_segment(
            0xe1,
            b"Exif\0\0MM\0\x2a\0\0\0\x08\0\0\0\0\0\0extra",
        )],
    );
    assert!(
        verify_removed(&crafted).is_err(),
        "an APP1 that is not a minimal orientation EXIF must fail verification"
    );

    // A PDF that still has its Info dictionary.
    assert!(
        verify_removed(&pdf_fixture(true)).is_err(),
        "a surviving /Info must fail verification"
    );
    assert!(
        verify_removed(&pdf_with_extras(true, false, false)).is_err(),
        "surviving annotation authorship must fail verification"
    );
    assert!(
        verify_removed(&pdf_with_xmp(b"<x:xmpmeta>anything</x:xmpmeta>")).is_err(),
        "a surviving XMP element must fail verification"
    );
}

/// The other direction: everything this module produces passes its own
/// structural check, including the one metadata-shaped thing it may emit.
#[test]
fn structural_verification_accepts_every_scrubbed_output() {
    let portrait = inject_jpeg_segments(
        &jpeg_fixture(16, 32),
        &[jpeg_segment(
            0xe1,
            &exif_payload(&[orientation_entry(8), GPS_POINTER_ENTRY], true),
        )],
    );
    for source in [
        portrait,
        inject_jpeg_segments(&jpeg_fixture(16, 8), &[jpeg_segment(0xfe, b"comment")]),
        inject_png_chunks(&png_fixture(16, 8), &[png_chunk(b"tEXt", b"Software\0X")]),
        pdf_fixture(true),
        pdf_with_extras(true, true, true),
    ] {
        let scrubbed = scrub(&source).expect("fixture should scrub");
        verify_removed(&scrubbed).expect("scrubbed output passes structural verification");
    }
}

/// The scan walker has to cross MULTIPLE scans and restart markers to find the EOI
/// that ends the image. A progressive JPEG with restart intervals is the shape that breaks a
/// walker which gets that wrong: `FF D0`–`FF D7` inside entropy data must not
/// be mistaken for the end of the scan.
#[test]
fn progressive_jpeg_with_restart_markers_scrubs_losslessly() {
    let width = 48u16;
    let height = 32u16;
    let image = RgbImage::from_fn(u32::from(width), u32::from(height), |x, y| {
        let noise = ((x * 31 + y * 97 + x * y * 13) % 251) as u8;
        Rgb([noise, noise.rotate_left(3), noise.rotate_left(6)])
    });
    let mut clean = Vec::new();
    let mut encoder = Encoder::new(&mut clean, 85);
    encoder.set_progressive(true);
    encoder.set_restart_interval(2);
    encoder
        .encode(image.as_raw(), width, height, ColorType::Rgb)
        .expect("progressive fixture should encode");

    let source =
        inject_jpeg_segments(&clean, &[jpeg_segment(0xfe, b"PROGRESSIVE-COMMENT-PII")]);
    let report = inspect(&source).expect("progressive JPEG should inspect");
    assert!(report.contains("PROGRESSIVE-COMMENT-PII"), "{report}");

    let scrubbed = scrub(&source).expect("progressive JPEG should scrub");
    assert!(!contains(&scrubbed, b"PROGRESSIVE-COMMENT-PII"));
    // Every scan survived: the image still decodes at full size and the bytes
    // match the untouched original exactly.
    assert_eq!(dimensions(&scrubbed), (48, 32));
    assert_eq!(scrubbed, clean);
    verify_removed(&scrubbed).expect("scrubbed progressive JPEG verifies");
}

/// A PNG whose CRITICAL chunk we do not understand is refused, not silently
/// re-emitted with a meaning we guessed at.
#[test]
fn png_with_an_unknown_critical_chunk_is_refused() {
    // An uppercase first letter marks a chunk CRITICAL.
    let source = inject_png_chunks(&png_fixture(8, 4), &[png_chunk(b"UnKn", b"required")]);
    assert!(scrub(&source).is_err(), "unknown critical chunks are refused");
    assert!(
        inspect(&source).is_err(),
        "and it is refused on inspect too"
    );
}

#[test]
fn report_json_escapes_comment_text() {
    let clean = jpeg_fixture(8, 8);
    let source = inject_jpeg_segments(
        &clean,
        &[jpeg_segment(0xfe, b"name=\"Ada\"\npath=C:\\photos")],
    );
    let report = inspect(&source).expect("comment JPEG should inspect");
    assert!(report.contains("name=\\\"Ada\\\"\\npath=C:\\\\photos"));
}
