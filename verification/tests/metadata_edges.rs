//! Malformed files, exact reports, and what a scrub keeps.

use std::io::Write;

use localbench_core::checksum::crc32;
use localbench_core::images::model::ImageKind;
use localbench_core::metadata::exif::{
    exif_has_gps, exif_orientation, is_minimal_orientation_exif, minimal_orientation_exif,
};
use localbench_core::metadata::file::{
    accept_dimensions, detect_format, image_dimensions, inspect, inspect_metadata, scrub,
    scrub_metadata, verify_metadata_removed, verify_removed, MetadataFormat,
};
use localbench_core::metadata::jpeg::{
    clear_jpeg, is_baseline_jpeg, jpeg_item, jpeg_scan_end, jpeg_segment_bytes, jpeg_trailing_item,
    parse_sof0, walk_jpeg,
};
use localbench_core::metadata::jpeg_check::{
    clear_jpeg_metadata, strip_jpeg_metadata, verify_jpeg_structure,
};
use localbench_core::metadata::pdf_report::{
    annotation_ids, follow_reference, holder_ids, is_scrubbable_annotation,
    is_signature_dictionary, pdf_items, pdf_value_detail,
    stream_plain_content,
};
use localbench_core::metadata::pdf_scrub::{scrub_document, verify_pdf_structure};
use localbench_core::metadata::png::{
    accept_inflated, inflate_zlib_bounded, png_chunk_is_retained, png_chunk_name, png_item,
    png_text_item, printable_preview, verify_png_structure, walk_png,
};
use localbench_core::metadata::xmp::{contains_xmp, find_xml_tag, strip_xmp_regions, xmp_region};
use localbench_core::pdf::model::{
    PdfDictionary, PdfObject, PdfStream, TextFormat,
};
use localbench_core::pdf::pages::load_pdf;
use lopdf::{Dictionary, Document, Object, Stream};

const SCAN: &[u8] = &[
    0xff, 0xda, 0x00, 0x02, 0x11, 0xff, 0x00, 0x22, 0xff, 0xd3, 0x33, 0xff, 0xd9,
];

fn segment(marker: u8, payload: &[u8]) -> Vec<u8> {
    jpeg_segment_bytes(marker, payload)
}

fn jpeg(segments: &[Vec<u8>]) -> Vec<u8> {
    let mut bytes = vec![0xff, 0xd8];
    for part in segments {
        bytes.extend_from_slice(part);
    }
    bytes.extend_from_slice(SCAN);
    bytes
}

fn walk_error(bytes: &[u8]) -> String {
    walk_jpeg(bytes, true).err().expect("the walk must fail")
}

fn chunk(kind: &[u8; 4], data: &[u8]) -> Vec<u8> {
    let mut bytes = (data.len() as u32).to_be_bytes().to_vec();
    bytes.extend_from_slice(kind);
    bytes.extend_from_slice(data);
    let crc = crc32(&bytes[4..]);
    bytes.extend_from_slice(&crc.to_be_bytes());
    bytes
}

fn png(chunks: &[Vec<u8>]) -> Vec<u8> {
    let mut bytes = b"\x89PNG\r\n\x1a\n".to_vec();
    for part in chunks {
        bytes.extend_from_slice(part);
    }
    bytes
}

fn png_error(bytes: &[u8]) -> String {
    walk_png(bytes, true).err().expect("the walk must fail")
}

fn header() -> Vec<u8> {
    chunk(b"IHDR", &[0, 0, 0, 1, 0, 0, 0, 1, 8, 0, 0, 0, 0])
}

#[test]
fn formats_are_told_by_their_first_bytes() {
    assert_eq!(detect_format(b"%PDF-1.7").ok(), Some(MetadataFormat::Pdf));
    assert_eq!(
        detect_format(&[0xff, 0xd8, 0xff, 0xe0]).ok(),
        Some(MetadataFormat::Jpeg)
    );
    assert_eq!(
        detect_format(b"\x89PNG\r\n\x1a\n").ok(),
        Some(MetadataFormat::Png)
    );
    assert_eq!(
        detect_format(b"BM").err().as_deref(),
        Some("Metadata scrubbing supports PDF, JPEG, and PNG files.")
    );
}

#[test]
fn every_broken_marker_stream_is_named() {
    assert_eq!(walk_error(b"\xff\xd8"), "Could not read this JPEG: invalid signature.");
    assert_eq!(
        walk_error(&[0xff, 0xd8, 0xff, 0xff]),
        "Could not read this truncated JPEG marker."
    );
    assert_eq!(
        walk_error(&[0xff, 0xd8, 0xff, 0x00]),
        "Could not read this JPEG marker stream."
    );
    assert_eq!(
        walk_error(&[0xff, 0xd8, 0xff, 0xd9]),
        "Could not read this JPEG: it ends before image scan data."
    );
    assert_eq!(
        walk_error(&[0xff, 0xd8, 0xff, 0xe1, 0x00]),
        "Could not read this truncated JPEG segment."
    );
    assert_eq!(
        walk_error(&[0xff, 0xd8, 0xff, 0xe1, 0x00, 0x01]),
        "Could not read this JPEG segment length."
    );
    assert_eq!(
        walk_error(&[0xff, 0xd8, 0xff, 0xe1, 0x00, 0x09, 0x00]),
        "Could not read this truncated JPEG segment."
    );
    assert_eq!(
        walk_error(&[0xff, 0xd8, 0xff, 0xda, 0x00, 0x02, 0x11]),
        "Could not read this truncated JPEG scan data."
    );
    assert_eq!(
        walk_error(&[0xff, 0xd8, 0xff, 0x01]),
        "Could not read this truncated JPEG."
    );
    assert_eq!(
        walk_error(&[0xff, 0xd8, 0xff, 0x01, 0x55]),
        "Could not read this JPEG marker stream."
    );
}

#[test]
fn scan_data_ends_at_the_next_real_marker() {
    assert_eq!(jpeg_scan_end(SCAN, 4), Some(11));
    assert_eq!(jpeg_scan_end(&[0x11, 0xff, 0x00, 0xff], 0), None);
    assert_eq!(jpeg_scan_end(&[0xff, 0xff, 0xc4], 0), Some(0));
}

#[test]
fn segments_are_reported_by_payload() {
    let label = |marker: u8, payload: &[u8]| {
        let item = jpeg_item(marker, payload);
        item.map(|item| (item.label.clone(), item.detail.clone(), item.sensitive))
    };
    let sized = |label: &str, size: usize| Some((label.to_owned(), Some(format!("{size} bytes")), false));
    assert_eq!(label(0xe0, b"JFIF\0"), None);
    assert_eq!(label(0xe0, b"JFXX\0"), sized("JFXX thumbnail", 5));
    assert_eq!(label(0xe0, b"CIFF"), sized("Application metadata (APP0)", 4));
    assert_eq!(label(0xe1, b"other"), sized("XMP / application metadata", 5));
    assert_eq!(label(0xe2, b"ICC_PROFILE\0"), None);
    assert_eq!(label(0xe2, b"MPF\0"), sized("MPF multi-picture index", 4));
    assert_eq!(label(0xe2, b"FPXR\0"), sized("Application metadata (APP2)", 5));
    assert_eq!(label(0xed, b"Photoshop 3.0\0"), sized("IPTC / Photoshop", 14));
    assert_eq!(label(0xed, b"x"), sized("Photoshop / application metadata", 1));
    assert_eq!(label(0xee, b"Adobe"), None);
    assert_eq!(label(0xee, b"Ducky"), sized("Application metadata (APP14)", 5));
    assert_eq!(label(0xe5, b""), sized("Application metadata", 0));
    assert_eq!(
        label(0xfe, b"hello"),
        Some(("JPEG comment".to_owned(), Some("hello".to_owned()), false))
    );
    assert_eq!(label(0xdb, b"tables"), None);
    assert_eq!(
        label(0xe1, &minimal_orientation_exif(6)),
        Some((
            "EXIF".to_owned(),
            Some("32 bytes (orientation 6 preserved)".to_owned()),
            false
        ))
    );
}

#[test]
fn trailing_data_is_described() {
    let plain = jpeg_trailing_item(b"xx");
    assert_eq!(plain.label, "Trailing data");
    assert_eq!(plain.detail.as_deref(), Some("2 bytes after the end of the image"));
    assert!(!plain.sensitive);
    let image = jpeg_trailing_item(&[0xff, 0xd8, 0xff, 0xe0]);
    assert_eq!(
        image.detail.as_deref(),
        Some("4 bytes after the end of the image; contains a secondary embedded image")
    );
    let gps = jpeg_trailing_item(b"gps here");
    assert_eq!(
        gps.detail.as_deref(),
        Some("8 bytes after the end of the image; includes GPS location")
    );
    assert!(gps.sensitive);
}

#[test]
fn a_jpeg_strip_reports_the_same_keeps_the_image_data_and_settles() {
    let tables = segment(0xdb, b"quantization");
    let second = vec![0xff, 0xda, 0x00, 0x02, 0x44, 0xff, 0xd0, 0x55];
    let mut source = vec![0xff, 0xd8];
    source.extend_from_slice(&segment(0xfe, b"comment"));
    source.extend_from_slice(&tables);
    source.extend_from_slice(&second);
    source.extend_from_slice(&segment(0xe1, &minimal_orientation_exif(8)));
    source.extend_from_slice(&segment(0xe5, b"vendor"));
    source.extend_from_slice(SCAN);
    source.extend_from_slice(b"after");

    let (found, whole) = walk_jpeg(&source, false).expect("the stream should walk");
    let (removed, stripped) = walk_jpeg(&source, true).expect("the stream should walk");
    assert_eq!(found.len(), removed.len());
    for (left, right) in found.iter().zip(&removed) {
        assert_eq!((&left.label, &left.detail), (&right.label, &right.detail));
    }
    assert_eq!(whole, source[..source.len() - 5]);

    let mut expected = vec![0xff, 0xd8];
    expected.extend_from_slice(&tables);
    expected.extend_from_slice(&second);
    expected.extend_from_slice(&segment(0xe1, &minimal_orientation_exif(8)));
    expected.extend_from_slice(SCAN);
    assert_eq!(stripped, expected);
    assert!(verify_jpeg_structure(&stripped).is_ok());
    assert_eq!(strip_jpeg_metadata(&stripped), Some(expected));
}

#[test]
fn a_clean_jpeg_is_stripped_to_itself() {
    let clean = jpeg(&[segment(0xe0, b"JFIF\0\x01"), segment(0xdb, b"tables")]);
    let (items, stripped) = walk_jpeg(&clean, true).expect("the stream should walk");
    assert!(items.is_empty());
    assert_eq!(stripped, clean);
}

#[test]
fn the_jpeg_check_names_what_it_finds() {
    let check = |bytes: &[u8]| verify_jpeg_structure(bytes).err();
    let still = |what: &str| Some(format!("The scrubbed JPEG still contains {what}."));
    assert_eq!(check(b"no"), Some("The scrubbed JPEG lost its signature.".to_owned()));
    assert_eq!(
        check(&[0xff, 0xd8, 0xff, 0xc4, 0x00, 0x09]),
        Some("The scrubbed JPEG is truncated.".to_owned())
    );
    assert_eq!(check(&jpeg(&[segment(0xfe, b"x")])), still("a comment segment"));
    assert_eq!(check(&jpeg(&[segment(0xe0, b"x")])), still("a non-JFIF APP0 segment"));
    assert_eq!(
        check(&jpeg(&[segment(0xe1, b"x")])),
        still("an APP1 segment that is not an orientation-only EXIF block")
    );
    assert_eq!(check(&jpeg(&[segment(0xe2, b"x")])), still("a non-ICC APP2 segment"));
    assert_eq!(check(&jpeg(&[segment(0xee, b"x")])), still("a non-Adobe APP14 segment"));
    assert_eq!(
        check(&jpeg(&[segment(0xe9, b"x")])),
        still("an application metadata segment")
    );
    let mut trailing = jpeg(&[]);
    trailing.push(0);
    assert_eq!(check(&trailing), still("bytes after the end-of-image marker"));
    assert_eq!(check(&jpeg(&[segment(0xe1, &minimal_orientation_exif(3))])), None);
}

#[test]
fn orientations_are_written_and_read_back() {
    for value in 1..=8_u16 {
        let payload = minimal_orientation_exif(value);
        assert_eq!(payload.len(), 32);
        assert_eq!(exif_orientation(&payload), Some(value));
        assert!(is_minimal_orientation_exif(&payload));
        assert!(!exif_has_gps(&payload));
    }
    assert_eq!(exif_orientation(b"Exif\0\0II*\0"), None);
    assert_eq!(exif_orientation(b"II*\0\x08\0\0\0\x01\0\x12\x01\x03\0\x01\0\0\0\x06\0\0\0"), Some(6));
    assert!(exif_has_gps(b"Exif\0\0MM\0*\0\0\0\x08\0\x01\x88\x25\0\x04\0\0\0\x01\0\0\0\0"));
}

#[test]
fn frames_are_parsed_from_the_baseline_header() {
    let frame = jpeg(&[segment(0xc0, &[8, 0, 3, 0, 5, 1, 1, 0x11, 0])]);
    let parsed = parse_sof0(&frame).expect("the frame header should parse");
    assert_eq!((parsed.width, parsed.height, parsed.components), (5, 3, 1));
    assert!(is_baseline_jpeg(&frame));
    assert!(parse_sof0(&jpeg(&[])).is_none());
    assert!(!is_baseline_jpeg(&jpeg(&[segment(0xc2, &[8, 0, 3, 0, 5, 1, 1, 0x11, 0])])));
}

#[test]
fn every_broken_chunk_stream_is_named() {
    assert_eq!(png_error(b"PNG"), "Could not read this PNG: invalid signature.");
    assert_eq!(png_error(&png(&[vec![0, 0]])), "Could not read this truncated PNG chunk.");
    assert_eq!(
        png_error(&png(&[vec![0, 0, 0, 0, b'I']])),
        "Could not read this truncated PNG chunk type."
    );
    assert_eq!(
        png_error(&png(&[b"\0\0\0\x09IHDR".to_vec()])),
        "Could not read this truncated PNG chunk."
    );
    let mut broken = header();
    broken[8] ^= 1;
    assert_eq!(
        png_error(&png(&[broken])),
        "Could not read this PNG: a chunk has an invalid CRC."
    );
    assert_eq!(
        png_error(&png(&[chunk(b"IDAT", b"x")])),
        "Could not read this PNG: IHDR must be the first chunk."
    );
    assert_eq!(
        png_error(&png(&[header(), chunk(b"IDAT", b"x"), chunk(b"IEND", b"x")])),
        "Could not read this PNG: invalid IEND chunk."
    );
    assert_eq!(
        png_error(&png(&[header(), chunk(b"IEND", b"")])),
        "Could not read this truncated PNG."
    );
    assert_eq!(
        png_error(&png(&[header(), chunk(b"IDAT", b"x")])),
        "Could not read this truncated PNG."
    );
    assert_eq!(
        png_error(&png(&[header(), chunk(b"ZZzz", b"x")])),
        "Could not read this PNG: it uses an unsupported required chunk (ZZzz)."
    );
}

#[test]
fn a_png_strip_reports_the_same_keeps_the_image_data_and_settles() {
    let clean = png(&[header(), chunk(b"IDAT", b"pixels"), chunk(b"IEND", b"")]);
    let source = png(&[
        header(),
        chunk(b"tEXt", b"Title\0Home"),
        chunk(b"IDAT", b"pixels"),
        chunk(b"prVt", b"vendor"),
        chunk(b"IEND", b""),
    ]);
    let (found, whole) = walk_png(&source, false).expect("the stream should walk");
    let (removed, stripped) = walk_png(&source, true).expect("the stream should walk");
    assert_eq!(found.len(), 2);
    assert_eq!(removed.len(), 2);
    assert_eq!(whole, source);
    assert_eq!(stripped, clean);
    assert!(verify_png_structure(&stripped).is_ok());
    let (none, again) = walk_png(&stripped, true).expect("the stream should walk");
    assert!(none.is_empty());
    assert_eq!(again, clean);
}

#[test]
fn the_png_check_names_what_it_finds() {
    let check = |bytes: &[u8]| verify_png_structure(bytes).err();
    assert_eq!(check(b"x"), Some("The scrubbed PNG lost its signature.".to_owned()));
    assert_eq!(
        check(&png(&[header()])),
        Some("The scrubbed PNG is missing its IEND chunk.".to_owned())
    );
    assert_eq!(
        check(&png(&[b"\0\0\0\x09IHDR".to_vec()])),
        Some("The scrubbed PNG is truncated.".to_owned())
    );
    assert_eq!(
        check(&png(&[header(), chunk(b"te\x01t", b"")])),
        Some("The scrubbed PNG still contains a `te?t` chunk.".to_owned())
    );
    assert_eq!(
        check(&png(&[header(), chunk(b"IEND", b""), vec![1]])),
        Some("The scrubbed PNG still contains bytes after IEND.".to_owned())
    );
}

#[test]
fn chunks_are_named_classified_and_previewed() {
    assert_eq!(png_chunk_name(b"tE\nt"), "tE?t");
    assert!(png_chunk_is_retained(b"iCCP"));
    assert!(png_chunk_is_retained(b"IDAT"));
    assert!(!png_chunk_is_retained(b"tEXt"));
    assert_eq!(printable_preview(b"ab\0\0").as_deref(), Some("ab\0\0"));
    assert_eq!(printable_preview(b"a\0\0"), None);
    assert_eq!(printable_preview(b""), None);
    let unknown = png_item(b"prVt", b"shot at home")
        .expect("an ancillary chunk is no error")
        .expect("an unknown chunk is reported");
    assert_eq!(unknown.label, "Unrecognized chunk: prVt");
    assert_eq!(unknown.detail.as_deref(), Some("12 bytes: shot at home"));
    assert!(!unknown.sensitive);
    let text = png_text_item(b"tEXt", b"GPS place\0Helsinki");
    assert_eq!(text.label, "Text: GPS place");
    assert_eq!(text.detail.as_deref(), Some("Helsinki"));
    assert!(text.sensitive);
}

#[test]
fn compressed_text_is_inflated_within_a_bound() {
    let mut encoder = flate2::write::ZlibEncoder::new(Vec::new(), flate2::Compression::default());
    encoder.write_all(b"hello hello hello").expect("text should compress");
    let packed = encoder.finish().expect("text should compress");
    assert_eq!(inflate_zlib_bounded(&packed).as_deref(), Some(b"hello hello hello".as_slice()));
    assert_eq!(inflate_zlib_bounded(b"hello hello hello"), None);
    assert_eq!(accept_inflated(None), None);
    assert_eq!(accept_inflated(Some(b"ok".to_vec())), Some(b"ok".to_vec()));
    assert_eq!(accept_inflated(Some(vec![0; 4_000_001])), None);
}

#[test]
fn declared_sizes_are_checked_against_the_expected_format() {
    assert_eq!(
        accept_dimensions(&Ok(Some(ImageKind::Png)), Ok((3, 2)), ImageKind::Png),
        Ok((3, 2))
    );
    assert_eq!(
        accept_dimensions(&Ok(Some(ImageKind::Gif)), Ok((3, 2)), ImageKind::Png),
        Err("The image has an unexpected format.".to_owned())
    );
    assert_eq!(
        accept_dimensions(&Err("odd".to_owned()), Ok((3, 2)), ImageKind::Png),
        Err("Could not validate this image: odd".to_owned())
    );
    assert_eq!(
        accept_dimensions(&Ok(Some(ImageKind::Png)), Err("odd".to_owned()), ImageKind::Png),
        Err("Could not read this image's dimensions: odd".to_owned())
    );
    assert_eq!(
        accept_dimensions(&Ok(Some(ImageKind::Png)), Ok((0, 2)), ImageKind::Png),
        Err("This image has invalid zero-sized dimensions.".to_owned())
    );
    let image = png(&[header(), chunk(b"IDAT", b"x"), chunk(b"IEND", b"")]);
    assert_eq!(image_dimensions(&image, ImageKind::Png), Ok((1, 1)));
}

#[test]
fn xml_tags_match_whole_local_names() {
    assert_eq!(find_xml_tag(b"a<x:xmpmeta >", b"xmpmeta", false), Some(1));
    assert_eq!(find_xml_tag(b"a<xmpmetadata>", b"xmpmeta", false), None);
    assert_eq!(find_xml_tag(b"<a></x:xmpmeta>", b"xmpmeta", true), Some(3));
}

#[test]
fn every_xmp_region_is_cut_out() {
    let content = b"before<?xpacket begin=\"\"?>one<?xpacket end=\"w\"?>between<x:xmpmeta>two</x:xmpmeta>after";
    assert!(contains_xmp(content));
    assert_eq!(xmp_region(content).map(|region| region.0), Some(6));
    let stripped = strip_xmp_regions(content).expect("XMP should be found");
    assert_eq!(stripped, b"beforebetweenafter");
    assert!(!contains_xmp(&stripped));
    assert_eq!(strip_xmp_regions(&stripped), None);
    assert_eq!(strip_xmp_regions(b"plain"), None);
}

fn text(value: &str) -> PdfObject {
    PdfObject::Text(value.as_bytes().to_vec(), TextFormat::Literal)
}

fn name(value: &str) -> PdfObject {
    PdfObject::Name(value.as_bytes().to_vec())
}

fn dictionary(entries: Vec<(&str, PdfObject)>) -> PdfDictionary {
    let mut dictionary = PdfDictionary::empty();
    for (key, value) in entries {
        dictionary.set(key, value);
    }
    dictionary
}

#[test]
fn pdf_values_are_shown() {
    let objects = vec![((4, 0), text("found"))];
    assert_eq!(pdf_value_detail(&objects, &text("Ada")), "Ada");
    assert_eq!(pdf_value_detail(&objects, &name("Yes")), "Yes");
    assert_eq!(pdf_value_detail(&objects, &PdfObject::Integer(-3)), "-3");
    assert_eq!(pdf_value_detail(&objects, &PdfObject::Boolean(true)), "true");
    assert_eq!(pdf_value_detail(&objects, &PdfObject::Reference((4, 0))), "found");
    assert_eq!(pdf_value_detail(&objects, &PdfObject::Null), "(non-text value)");
}

#[test]
fn annotations_and_signatures_are_recognised() {
    assert!(is_scrubbable_annotation(&dictionary(vec![("Subtype", name("Text"))])));
    assert!(!is_scrubbable_annotation(&dictionary(vec![("Subtype", name("Widget"))])));
    assert!(is_signature_dictionary(&dictionary(vec![("Type", name("Sig"))])));
    assert!(!is_signature_dictionary(&dictionary(vec![("Type", name("Page"))])));
    let objects = vec![
        (
            (1, 0),
            PdfObject::Dictionary(dictionary(vec![(
                "Annots",
                PdfObject::Array(vec![PdfObject::Reference((2, 0))]),
            )])),
        ),
        ((2, 0), PdfObject::Dictionary(dictionary(vec![("Subtype", name("Text"))]))),
    ];
    assert!(annotation_ids(&objects).contains(&(2, 0)));
    assert!(!annotation_ids(&objects).contains(&(1, 0)));
}

#[test]
fn a_stream_is_read_with_its_filters_undone() {
    let mut encoder = flate2::write::ZlibEncoder::new(Vec::new(), flate2::Compression::default());
    encoder.write_all(b"plain text").expect("text should compress");
    let packed = encoder.finish().expect("text should compress");
    let stream = |dict: PdfDictionary, content: &[u8]| PdfStream {
        dict,
        content: content.to_vec(),
        allows_compression: true,
        start_position: None,
    };
    let filtered = stream(dictionary(vec![("Filter", name("FlateDecode"))]), &packed);
    assert_eq!(stream_plain_content(&filtered), b"plain text");
    let bare = stream(dictionary(vec![]), b"as it is");
    assert_eq!(stream_plain_content(&bare), b"as it is");
    let unknown = stream(dictionary(vec![("Filter", name("DCTDecode"))]), b"image");
    assert_eq!(stream_plain_content(&unknown), b"image");
}

fn metadata_pdf() -> Vec<u8> {
    let mut document = Document::with_version("1.5");
    let pages = document.new_object_id();
    let mut page = Dictionary::new();
    page.set("Type", "Page");
    page.set("Parent", pages);
    page.set("PieceInfo", Dictionary::new());
    page.set("Rotate", 90);
    let page = document.add_object(page);
    let mut tree = Dictionary::new();
    tree.set("Type", "Pages");
    tree.set("Kids", vec![Object::Reference(page)]);
    tree.set("Count", 1);
    document.objects.insert(pages, Object::Dictionary(tree));
    let mut stream = Dictionary::new();
    stream.set("Type", "Metadata");
    let metadata = document.add_object(Stream::new(
        stream,
        b"<x:xmpmeta>private</x:xmpmeta>".to_vec(),
    ));
    let mut catalog = Dictionary::new();
    catalog.set("Type", "Catalog");
    catalog.set("Pages", pages);
    catalog.set("Metadata", metadata);
    catalog.set("Lang", Object::string_literal("fi"));
    let catalog = document.add_object(catalog);
    document.trailer.set("Root", catalog);
    let mut bytes = Vec::new();
    document.save_to(&mut bytes).expect("the fixture should serialize");
    bytes
}

#[test]
fn a_pdf_scrub_keeps_every_other_entry() {
    let source = metadata_pdf();
    let scrubbed = scrub_document(load_pdf(&source).expect("the fixture should load"));
    let mut rotations = 0;
    let mut languages = 0;
    for (_, object) in &scrubbed.objects {
        if let PdfObject::Dictionary(entries) = object {
            assert!(!entries.has("Metadata"));
            assert!(!entries.has("PieceInfo"));
            if entries.integer("Rotate") == Some(90) {
                rotations += 1;
            }
            if entries.has("Lang") {
                languages += 1;
            }
        }
        assert!(!matches!(object, PdfObject::Stream(_)), "the metadata stream is unreachable");
    }
    assert_eq!((rotations, languages), (1, 1));
}

#[test]
fn the_public_metadata_functions_agree_with_each_other() {
    for source in [
        jpeg_with_comment(),
        metadata_pdf(),
    ] {
        assert_eq!(inspect_metadata(&source), inspect(&source));
        assert!(verify_metadata_removed(&source).is_err());
        let scrubbed = scrub_metadata(&source).expect("the file should scrub");
        assert_eq!(Ok(scrubbed.clone()), scrub(&source));
        assert_eq!(verify_metadata_removed(&scrubbed), Ok(()));
        assert_eq!(verify_removed(&scrubbed), Ok(()));
    }
}

fn jpeg_with_comment() -> Vec<u8> {
    let mut clean = Vec::new();
    jpeg_encoder::Encoder::new(&mut clean, 90)
        .encode(&[9, 9, 9], 1, 1, jpeg_encoder::ColorType::Rgb)
        .expect("the fixture should encode");
    let mut bytes = clean[..2].to_vec();
    bytes.extend_from_slice(&segment(0xfe, b"by Ada"));
    bytes.extend_from_slice(&clean[2..]);
    bytes
}

#[test]
fn a_report_is_exact_json() {
    assert_eq!(
        inspect(&jpeg_with_comment()).expect("the file should inspect"),
        "{\"kind\":\"jpeg\",\"items\":[{\"label\":\"JPEG comment\",\"detail\":\"by Ada\",\"sensitive\":false}]}"
    );
}

#[test]
fn bytes_after_the_end_of_a_png_are_reported_and_removed() {
    let source = png(&[
        header(),
        chunk(b"tEXt", b"Title\0Home"),
        chunk(b"IDAT", b"pixels"),
        chunk(b"IEND", b""),
    ]);
    let (items, stripped) = walk_png(&source, true).expect("the stream should walk");
    let mut longer = source.clone();
    longer.extend_from_slice(b"appended");
    let (found, whole) = walk_png(&longer, false).expect("the stream should walk");
    assert_eq!(whole, source, "the bytes behind the image are no part of it");
    let (removed, again) = walk_png(&longer, true).expect("the stream should walk");
    assert_eq!(again, stripped);
    assert_eq!(removed.len(), items.len() + 1);
    assert_eq!(found.len(), removed.len());
    let last = &removed[items.len()];
    assert_eq!(last.label, "Trailing data");
    assert_eq!(last.detail.as_deref(), Some("8 bytes after the end of the image"));
    assert!(verify_png_structure(&longer).is_err());
    assert_eq!(verify_png_structure(&again), Ok(()));
}

#[test]
fn an_inserted_segment_is_taken_out_and_nothing_else() {
    let clean = jpeg(&[segment(0xe0, b"JFIF\0rest"), segment(0xdb, b"table")]);
    let (none, unchanged) = walk_jpeg(&clean, true).expect("the stream should walk");
    assert!(none.is_empty());
    assert_eq!(unchanged, clean);
    for part in [
        segment(0xfe, b"a comment"),
        segment(0xe1, b"Exif\0\0II*\0\x08\0\0\0\0\0"),
        segment(0xe1, b"http://ns.adobe.com/xap/1.0/\0<x/>"),
        segment(0xed, b"Photoshop 3.0\0"),
        segment(0xe2, b"MPF\0"),
    ] {
        let mut source = clean[..2].to_vec();
        source.extend_from_slice(&part);
        source.extend_from_slice(&clean[2..]);
        let (items, stripped) = walk_jpeg(&source, true).expect("the stream should walk");
        assert_eq!(items.len(), 1);
        assert_eq!(stripped, clean);
    }
}

#[test]
fn a_cleared_jpeg_keeps_no_orientation() {
    let turned = jpeg(&[segment(0xe1, &minimal_orientation_exif(6)), segment(0xdb, b"table")]);
    let upright = jpeg(&[segment(0xdb, b"table")]);
    assert_eq!(strip_jpeg_metadata(&turned).as_ref(), Some(&turned));
    assert_eq!(clear_jpeg_metadata(&turned).as_ref(), Some(&upright));
    assert_eq!(clear_jpeg_metadata(&upright).as_ref(), Some(&upright));
    let (items, cleared) = clear_jpeg(&turned).expect("the stream should walk");
    assert_eq!((items.len(), cleared), (1, upright));
    assert_eq!(clear_jpeg_metadata(b"\xff\xd8\xff\xd9"), None);
}

#[test]
fn as_many_xmp_regions_are_cut_out_as_the_guard_allows() {
    let region = b"<x:xmpmeta>one</x:xmpmeta>";
    let most = region.repeat(64);
    assert_eq!(strip_xmp_regions(&most), Some(Vec::new()));
    let more = region.repeat(65);
    assert_eq!(strip_xmp_regions(&more), Some(region.to_vec()));
}

fn annotated_pdf(indirect: bool, direct_reference: bool) -> Vec<u8> {
    let mut document = Document::with_version("1.5");
    let pages = document.new_object_id();
    let mut annotation = Dictionary::new();
    annotation.set("Subtype", "Text");
    annotation.set("T", Object::string_literal("Ada"));
    annotation.set("M", Object::string_literal("D:2020"));
    annotation.set("Contents", Object::string_literal("a comment"));
    let mut widget = Dictionary::new();
    widget.set("Subtype", "Widget");
    widget.set("T", Object::string_literal("field"));
    let list = Object::Array(vec![Object::Dictionary(annotation), Object::Dictionary(widget)]);
    let annots = if indirect {
        let list = document.add_object(list);
        let link = document.add_object(Object::Reference(list));
        Object::Reference(if direct_reference { list } else { link })
    } else {
        list
    };
    let mut page = Dictionary::new();
    page.set("Type", "Page");
    page.set("Parent", pages);
    page.set("Annots", annots);
    let page = document.add_object(page);
    let mut tree = Dictionary::new();
    tree.set("Type", "Pages");
    tree.set("Kids", vec![Object::Reference(page)]);
    tree.set("Count", 1);
    document.objects.insert(pages, Object::Dictionary(tree));
    let mut catalog = Dictionary::new();
    catalog.set("Type", "Catalog");
    catalog.set("Pages", pages);
    let catalog = document.add_object(catalog);
    document.trailer.set("Root", catalog);
    let mut bytes = Vec::new();
    document.save_to(&mut bytes).expect("the fixture should serialize");
    bytes
}

#[test]
fn inline_annotations_are_reported_and_scrubbed_wherever_their_array_stands() {
    for (indirect, direct_reference) in [(false, false), (true, true), (true, false)] {
        let source = annotated_pdf(indirect, direct_reference);
        assert_eq!(
            verify_removed(&source),
            Err("The scrubbed PDF still contains authorship on an inline annotation.".to_owned())
        );
        assert_eq!(
            inspect(&source).expect("the file should be inspected"),
            "{\"kind\":\"pdf\",\"items\":[{\"label\":\"Annotation author\",\"detail\":\"Ada\",\"sensitive\":true},{\"label\":\"Annotation modified\",\"detail\":\"D:2020\",\"sensitive\":false}]}"
        );
        let scrubbed = scrub(&source).expect("the file should scrub");
        assert_eq!(verify_removed(&scrubbed), Ok(()));
        let holds = |part: &[u8]| scrubbed.windows(part.len()).any(|window| window == part);
        assert!(!holds(b"Ada"));
        assert!(!holds(b"D:2020"));
        assert!(holds(b"a comment"));
        assert!(holds(b"field"), "the name of a form field stays");
    }
}

#[test]
fn references_to_annotations_are_followed() {
    let objects = vec![
        ((1, 0), PdfObject::Reference((2, 0))),
        ((2, 0), PdfObject::Array(vec![PdfObject::Reference((3, 0))])),
        ((3, 0), PdfObject::Reference((4, 0))),
        ((4, 0), PdfObject::Dictionary(dictionary(vec![("T", text("Ada"))]))),
        (
            (5, 0),
            PdfObject::Dictionary(dictionary(vec![("Annots", PdfObject::Reference((1, 0)))])),
        ),
    ];
    assert_eq!(follow_reference(&objects, (1, 0)), (2, 0));
    assert_eq!(follow_reference(&objects, (9, 0)), (9, 0));
    assert_eq!(annotation_ids(&objects), vec![(4, 0)]);
    assert_eq!(holder_ids(&objects), vec![(2, 0)]);
}

#[test]
fn what_the_check_refuses_is_never_reported_as_empty() {
    let mut document = load_pdf(&metadata_pdf()).expect("the fixture should load");
    document = scrub_document(document);
    assert!(pdf_items(&document).expect("it should be reported").is_empty());
    assert_eq!(verify_pdf_structure(&document), Ok(()));
    document.trailer.set("Info", PdfObject::Dictionary(dictionary(vec![])));
    assert!(verify_pdf_structure(&document).is_err());
    let items = pdf_items(&document).expect("it should be reported");
    assert_eq!(items.len(), 1);
    assert_eq!(items[0].label, "Document information");
    assert_eq!(items[0].detail.as_deref(), Some("empty"));
    let mut longer = jpeg(&[]);
    longer.push(0);
    assert!(verify_jpeg_structure(&longer).is_err());
    assert_eq!(walk_jpeg(&longer, false).expect("it should walk").0.len(), 1);
}
