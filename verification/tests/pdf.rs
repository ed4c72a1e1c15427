//! Counting, merging, organizing and compressing PDF files.

use jpeg_encoder::{ColorType, Encoder};
use localbench_core::notices::{FileResult, Notice};
use localbench_core::pdf::compress::{clamped_quality, compress};
use localbench_core::pdf::merge::merge;
use localbench_core::pdf::model::{resolve_dictionary, PdfObject};
use localbench_core::pdf::organize::organize;
use localbench_core::pdf::pages::{document_catalog, load_pdf, page_count};
use localbench_core::pdf::trees::{flatten_name_tree, flatten_number_tree, TREE_LEVELS};
use lopdf::{Dictionary, Document, Object, Stream};

const ENCRYPTED_PDF_ERROR: &str = "This PDF is password-protected, so its pages can't be read.";

fn dictionary(entries: Vec<(&str, Object)>) -> Dictionary {
    let mut dictionary = Dictionary::new();
    for (key, value) in entries {
        dictionary.set(key, value);
    }
    dictionary
}

/// Byte-only wrappers: most tests care about the produced file, while the
/// notice-carrying signature is exercised by the notice gates below.
fn merge_bytes(docs: Vec<Vec<u8>>) -> Result<Vec<u8>, String> {
    merge(docs).map(|(bytes, _)| bytes)
}

fn merge_notices(docs: Vec<Vec<u8>>) -> Vec<Notice> {
    merge(docs).expect("merge should succeed").1
}

fn organize_bytes(
    bytes: &[u8],
    pages: Vec<u32>,
    rotations: Vec<i32>,
) -> Result<Vec<u8>, String> {
    organize(bytes, pages, rotations).map(|(bytes, _)| bytes)
}

fn organize_notices(bytes: &[u8], pages: Vec<u32>, rotations: Vec<i32>) -> Vec<Notice> {
    organize(bytes, pages, rotations)
        .expect("organize should succeed")
        .1
}

fn compress_bytes(bytes: &[u8], quality: u8) -> Result<Vec<u8>, String> {
    compress(bytes, quality).map(|(bytes, _)| bytes)
}

fn notice_codes(notices: &[Notice]) -> Vec<&'static str> {
    notices.iter().map(|notice| notice.code).collect()
}

fn multi_page_pdf(page_count: u32) -> Vec<u8> {
    let mut document = Document::with_version("1.5");
    let pages_id = document.new_object_id();
    let page_ids = (1..=page_count)
        .map(|page_number| {
            document.add_object(dictionary(vec![
                ("Type", Object::from("Page")),
                ("Parent", Object::from(pages_id)),
                ("MediaBox", Object::from(vec![0.into(), 0.into(), 200.into(), 200.into()])),
                ("Resources", Object::from(dictionary(vec![]))),
                ("LocalbenchPageNumber", Object::from(page_number)),
            ]))
        })
        .collect::<Vec<_>>();

    document.objects.insert(
        pages_id,
        Object::Dictionary(dictionary(vec![
            ("Type", Object::from("Pages")),
            ("Kids", Object::from(page_ids.into_iter().map(Object::Reference).collect::<Vec<_>>())),
            ("Count", Object::from(page_count)),
            ("Rotate", Object::from(90)),
        ])),
    );
    let catalog_id = document.add_object(dictionary(vec![
        ("Type", Object::from("Catalog")),
        ("Pages", Object::from(pages_id)),
    ]));
    document.trailer.set("Root", catalog_id);

    let mut bytes = Vec::new();
    document
        .save_to(&mut bytes)
        .expect("in-memory PDF should serialize");
    bytes
}

fn one_page_pdf() -> Vec<u8> {
    multi_page_pdf(1)
}

fn multi_page_pdf_with_contents(page_count: u32) -> Vec<u8> {
    let mut document = Document::with_version("1.5");
    let pages_id = document.new_object_id();
    let page_ids = (1..=page_count)
        .map(|page_number| {
            let content_id = document.add_object(Stream::new(
                dictionary(vec![]),
                format!("BT (page-body-{page_number}) Tj ET").into_bytes(),
            ));
            document.add_object(dictionary(vec![
                ("Type", Object::from("Page")),
                ("Parent", Object::from(pages_id)),
                ("MediaBox", Object::from(vec![0.into(), 0.into(), 200.into(), 200.into()])),
                ("Resources", Object::from(dictionary(vec![]))),
                ("Contents", Object::from(content_id)),
                ("LocalbenchPageNumber", Object::from(page_number)),
            ]))
        })
        .collect::<Vec<_>>();

    document.objects.insert(
        pages_id,
        Object::Dictionary(dictionary(vec![
            ("Type", Object::from("Pages")),
            ("Kids", Object::from(page_ids.into_iter().map(Object::Reference).collect::<Vec<_>>())),
            ("Count", Object::from(page_count)),
        ])),
    );
    let catalog_id = document.add_object(dictionary(vec![
        ("Type", Object::from("Catalog")),
        ("Pages", Object::from(pages_id)),
    ]));
    document.trailer.set("Root", catalog_id);

    let mut bytes = Vec::new();
    document
        .save_to(&mut bytes)
        .expect("in-memory PDF should serialize");
    bytes
}

/// A tersely hand-written PDF with an /Info dictionary, the way a
/// third-party producer writes one. Rewriting it costs more bytes than
/// dropping its metadata saves, so compression must fall back to handing
/// the original file back untouched.
fn tiny_metadata_pdf() -> Vec<u8> {
    let content = "BT (page-body-1) Tj ET";
    // Many small annotations keep the file object-heavy, which is what
    // makes a rewrite cost more than the metadata it removes.
    let annotation_ids = (6..70)
        .map(|id| format!("{id} 0 R"))
        .collect::<Vec<_>>()
        .join(" ");
    let mut bodies = vec![
        "<</Type/Catalog/Pages 2 0 R>>".to_owned(),
        "<</Type/Pages/Kids[3 0 R]/Count 1>>".to_owned(),
        format!(
            "<</Type/Page/Parent 2 0 R/MediaBox[0 0 200 200]/Resources<<>>/Contents 4 0 R/Annots[{annotation_ids}]>>"
        ),
        format!(
            "<</Length {}>>stream\n{content}\nendstream",
            content.len()
        ),
        "<</Author(Ada Example)/Title(Location scouting)>>".to_owned(),
    ];
    for index in 0..64 {
        bodies.push(format!(
            "<</Type/Annot/Subtype/Square/Rect[0 0 {index} {index}]>>"
        ));
    }

    let mut output = String::from("%PDF-1.5\n");
    let mut offsets = Vec::new();
    for (index, body) in bodies.iter().enumerate() {
        offsets.push(output.len());
        output.push_str(&format!("{} 0 obj{body}endobj\n", index + 1));
    }
    let xref_offset = output.len();
    output.push_str(&format!(
        "xref\n0 {}\n0000000000 65535 f \n",
        bodies.len() + 1
    ));
    for offset in &offsets {
        output.push_str(&format!("{offset:010} 00000 n \n"));
    }
    output.push_str(&format!(
        "trailer<</Size {}/Root 1 0 R/Info 5 0 R>>\nstartxref\n{xref_offset}\n%%EOF\n",
        bodies.len() + 1
    ));
    output.into_bytes()
}

/// A two-page PDF carrying everything a catalog can hold that users care
/// about: a filled form, bookmarks, page labels, named destinations, a
/// language tag, and a structure tree.
fn rich_pdf(tag: &str) -> Vec<u8> {
    let mut document = Document::with_version("1.5");
    let pages_id = document.new_object_id();
    let outlines_id = document.new_object_id();
    let page_ids = (1..=2)
        .map(|page_number| {
            let content_id = document.add_object(Stream::new(
                dictionary(vec![]),
                format!("BT (marker-{tag}-page-{page_number}) Tj ET").into_bytes(),
            ));
            document.add_object(dictionary(vec![
                ("Type", Object::from("Page")),
                ("Parent", Object::from(pages_id)),
                ("MediaBox", Object::from(vec![0.into(), 0.into(), 200.into(), 200.into()])),
                ("Resources", Object::from(dictionary(vec![]))),
                ("Contents", Object::from(content_id)),
            ]))
        })
        .collect::<Vec<_>>();

    let field_id = document.add_object(dictionary(vec![
        ("Type", Object::from("Annot")),
        ("Subtype", Object::from("Widget")),
        ("FT", Object::from("Tx")),
        ("T", Object::string_literal(format!("field-{tag}"))),
        ("V", Object::string_literal(format!("value-{tag}"))),
        ("Rect", Object::from(vec![0.into(), 0.into(), 10.into(), 10.into()])),
        ("P", Object::from(page_ids[0])),
    ]));
    if let Ok(page) = document
        .get_object_mut(page_ids[0])
        .and_then(Object::as_dict_mut)
    {
        page.set("Annots", vec![Object::Reference(field_id)]);
    }
    let acroform_id = document.add_object(dictionary(vec![
        ("Fields", Object::from(vec![Object::Reference(field_id)])),
        ("DA", Object::string_literal("/Helv 0 Tf 0 g")),
    ]));

    let second_item_id = document.add_object(dictionary(vec![
        ("Title", Object::string_literal(format!("bookmark-{tag}-two"))),
        ("Parent", Object::from(outlines_id)),
        ("Dest", Object::from(vec![Object::Reference(page_ids[1]), Object::Name(b"Fit".to_vec())])),
    ]));
    let first_item_id = document.add_object(dictionary(vec![
        ("Title", Object::string_literal(format!("bookmark-{tag}-one"))),
        ("Parent", Object::from(outlines_id)),
        ("Next", Object::from(second_item_id)),
        ("Dest", Object::from(vec![Object::Reference(page_ids[0]), Object::Name(b"Fit".to_vec())])),
    ]));
    if let Ok(item) = document
        .get_object_mut(second_item_id)
        .and_then(Object::as_dict_mut)
    {
        item.set("Prev", first_item_id);
    }
    document.objects.insert(
        outlines_id,
        Object::Dictionary(dictionary(vec![
            ("Type", Object::from("Outlines")),
            ("First", Object::from(first_item_id)),
            ("Last", Object::from(second_item_id)),
            ("Count", Object::from(2)),
        ])),
    );

    let names_id = document.add_object(dictionary(vec![
        ("Dests", Object::from(dictionary(vec![
            ("Names", Object::from(vec![
                Object::string_literal(format!("dest-{tag}")),
                Object::Array(vec![
                    Object::Reference(page_ids[0]),
                    Object::Name(b"Fit".to_vec()),
                ]),
            ])),
        ]))),
    ]));
    let structure_id = document.add_object(dictionary(vec![
        ("Type", Object::from("StructTreeRoot")),
    ]));

    document.objects.insert(
        pages_id,
        Object::Dictionary(dictionary(vec![
            ("Type", Object::from("Pages")),
            ("Kids", Object::from(page_ids.iter().copied().map(Object::Reference).collect::<Vec<_>>())),
            ("Count", Object::from(2)),
        ])),
    );
    let catalog_id = document.add_object(dictionary(vec![
        ("Type", Object::from("Catalog")),
        ("Pages", Object::from(pages_id)),
        ("AcroForm", Object::from(acroform_id)),
        ("Outlines", Object::from(outlines_id)),
        ("Names", Object::from(names_id)),
        ("StructTreeRoot", Object::from(structure_id)),
        ("Lang", Object::string_literal("fi-FI")),
        ("PageLabels", Object::from(dictionary(vec![
            ("Nums", Object::from(vec![
                Object::Integer(0),
                Object::Dictionary(dictionary(vec![("S", Object::from("r"))])),
                Object::Integer(1),
                Object::Dictionary(dictionary(vec![
                    ("S", Object::from("D")),
                    ("St", Object::from(5)),
                ])),
            ])),
        ]))),
    ]));
    document.trailer.set("Root", catalog_id);

    let mut bytes = Vec::new();
    document
        .save_to(&mut bytes)
        .expect("rich fixture should serialize");
    bytes
}

fn contains(haystack: &[u8], needle: &[u8]) -> bool {
    haystack
        .windows(needle.len())
        .any(|window| window == needle)
}

fn catalog_of(document: &Document) -> Dictionary {
    let root = document
        .trailer
        .get(b"Root")
        .expect("output must have a Root");
    resolved_dictionary(document, root)
}

fn resolved<'a>(document: &'a Document, object: &'a Object) -> &'a Object {
    let (_, found) = document.dereference(object).expect("reference should resolve");
    found
}

fn resolved_dictionary(document: &Document, object: &Object) -> Dictionary {
    match resolved(document, object) {
        Object::Dictionary(dictionary) => dictionary.clone(),
        Object::Stream(stream) => stream.dict.clone(),
        other => panic!("expected a dictionary, found {other:?}"),
    }
}

fn resolved_array(document: &Document, object: &Object) -> Vec<Object> {
    match resolved(document, object) {
        Object::Array(array) => array.clone(),
        other => panic!("expected an array, found {other:?}"),
    }
}

/// The page labels of a file, by page index.
fn page_labels(bytes: &[u8]) -> Vec<(i64, PdfObject)> {
    let document = load_pdf(bytes).expect("output should load");
    let catalog = document_catalog(&document);
    let mut entries = Vec::new();
    assert!(
        flatten_number_tree(
            &document.objects,
            catalog.get("PageLabels").expect("labels"),
            &mut entries,
            TREE_LEVELS
        ),
        "number tree should be readable"
    );
    entries.sort_by_key(|(key, _)| *key);
    entries
}

/// The named destinations of a file.
fn named_destinations(bytes: &[u8]) -> Vec<(Vec<u8>, PdfObject)> {
    let document = load_pdf(bytes).expect("output should load");
    let catalog = document_catalog(&document);
    let names = resolve_dictionary(&document.objects, catalog.get("Names")).expect("names");
    let mut entries = Vec::new();
    assert!(
        flatten_name_tree(
            &document.objects,
            names.get("Dests").expect("dests"),
            &mut entries,
            TREE_LEVELS
        ),
        "name tree should be readable"
    );
    entries
}

/// Walk the merged outline's top-level chain and return the titles in order.
fn top_level_outline_titles(document: &Document) -> Vec<String> {
    let catalog = catalog_of(document);
    let outlines = resolved_dictionary(document, catalog.get(b"Outlines").expect("outlines"));
    let mut titles = Vec::new();
    let mut current = outlines.get(b"First").and_then(Object::as_reference).ok();
    while let Some(id) = current {
        let item = document
            .get_dictionary(id)
            .expect("outline item should exist");
        titles.push(
            String::from_utf8_lossy(
                item.get(b"Title")
                    .and_then(Object::as_str)
                    .expect("outline item should have a title"),
            )
            .into_owned(),
        );
        if titles.len() > 16 {
            break;
        }
        current = item.get(b"Next").and_then(Object::as_reference).ok();
    }
    titles
}

fn jpeg_image_pdf() -> (Vec<u8>, usize) {
    wide_jpeg_image_pdf(640, 480)
}

fn wide_jpeg_image_pdf(width: u16, height: u16) -> (Vec<u8>, usize) {
    let mut pixels = Vec::with_capacity(usize::from(width) * usize::from(height) * 3);
    for y in 0..height {
        for x in 0..width {
            // Fine deterministic detail makes the high-quality fixture a
            // meaningful compression target without checking in a binary.
            let noise = ((u32::from(x) * 73 + u32::from(y) * 151) % 251) as u8;
            pixels.extend_from_slice(&[
                (x % 256) as u8 ^ noise,
                (y % 256) as u8 ^ noise.rotate_left(2),
                ((u32::from(x) + u32::from(y)) % 256) as u8 ^ noise.rotate_left(4),
            ]);
        }
    }

    let mut jpeg = Vec::new();
    Encoder::new(&mut jpeg, 96)
        .encode(&pixels, width, height, ColorType::Rgb)
        .expect("fixture JPEG should encode");
    let original_jpeg_size = jpeg.len();

    let mut document = Document::with_version("1.5");
    let pages_id = document.new_object_id();
    let image_id = document.add_object(Stream::new(
        dictionary(vec![
            ("Type", Object::from("XObject")),
            ("Subtype", Object::from("Image")),
            ("Width", Object::from(i64::from(width))),
            ("Height", Object::from(i64::from(height))),
            ("ColorSpace", Object::from("DeviceRGB")),
            ("BitsPerComponent", Object::from(8)),
            ("Filter", Object::from("DCTDecode")),
        ]),
        jpeg,
    ));
    let content_id = document.add_object(Stream::new(
        dictionary(vec![]),
        format!("q\n{} 0 0 {} 0 0 cm\n/Im0 Do\nQ\n", width, height).into_bytes(),
    ));
    let metadata_id = document.add_object(Stream::new(
        dictionary(vec![("Type", Object::from("Metadata")), ("Subtype", Object::from("XML"))]),
        vec![b'm'; 4_096],
    ));
    let page_id = document.add_object(dictionary(vec![
        ("Type", Object::from("Page")),
        ("Parent", Object::from(pages_id)),
        ("MediaBox", Object::from(vec![0.into(), 0.into(), i64::from(width).into(), i64::from(height).into()])),
        ("Resources", Object::from(dictionary(vec![
            ("XObject", Object::from(dictionary(vec![("Im0", Object::from(image_id))]))),
        ]))),
        ("Contents", Object::from(content_id)),
        ("Metadata", Object::from(metadata_id)),
    ]));
    document.objects.insert(
        pages_id,
        Object::Dictionary(dictionary(vec![
            ("Type", Object::from("Pages")),
            ("Kids", Object::from(vec![Object::Reference(page_id)])),
            ("Count", Object::from(1)),
        ])),
    );
    let catalog_id = document.add_object(dictionary(vec![
        ("Type", Object::from("Catalog")),
        ("Pages", Object::from(pages_id)),
        ("Metadata", Object::from(metadata_id)),
    ]));
    let info_id = document.add_object(dictionary(vec![
        ("Creator", Object::string_literal("localbench compression fixture")),
        ("Producer", Object::string_literal("localbench tests")),
    ]));
    document.trailer.set("Root", catalog_id);
    document.trailer.set("Info", info_id);

    let mut bytes = Vec::new();
    document
        .save_to(&mut bytes)
        .expect("JPEG fixture PDF should serialize");
    (bytes, original_jpeg_size)
}

#[test]
fn counts_pages_in_a_valid_pdf() {
    let pdf = one_page_pdf();
    assert_eq!(page_count(&pdf).expect("PDF should parse"), 1);
}

// Malformed input must return Err, never panic: a panic aborts the whole
// wasm instance and would hang the worker. Guards against garbage PDFs.
#[test]
fn rejects_garbage_without_panicking() {
    for bytes in [
        b"not a pdf at all".as_slice(),
        b"%PDF-1.7\ngarbage".as_slice(),
        b"".as_slice(),
    ] {
        assert!(
            page_count(bytes).is_err(),
            "garbage must be Err, not panic/Ok"
        );
    }
}

#[test]
fn merges_two_one_page_pdfs_in_order() {
    let merged = merge_bytes(vec![one_page_pdf(), one_page_pdf()]).expect("PDFs should merge");

    assert_eq!(page_count(&merged).expect("merged PDF should parse"), 2);
    let merged_document = Document::load_mem(&merged).expect("merged PDF should load");
    let page_ids = merged_document
        .get_pages()
        .into_values()
        .collect::<Vec<_>>();
    assert_ne!(page_ids[0], page_ids[1], "source page IDs must not collide");
}

#[test]
fn rejects_an_empty_merge() {
    assert!(merge_bytes(Vec::new()).is_err());
}

#[test]
fn rejects_an_encrypted_merge_input() {
    let mut encrypted = Document::load_mem(&one_page_pdf()).expect("fixture should parse");
    encrypted.trailer.set("Encrypt", dictionary(vec![]));
    let mut encrypted_bytes = Vec::new();
    encrypted
        .save_to(&mut encrypted_bytes)
        .expect("encrypted marker fixture should serialize");

    let error = merge_bytes(vec![one_page_pdf(), encrypted_bytes])
        .expect_err("encrypted input must be rejected");
    assert!(error.contains(ENCRYPTED_PDF_ERROR));
}

#[test]
fn extracts_pages_in_requested_order() {
    let organized = organize_bytes(&multi_page_pdf(3), vec![3, 1], vec![0, 0])
        .expect("selected pages should organize");

    assert_eq!(page_count(&organized).expect("output PDF should parse"), 2);
    let document = Document::load_mem(&organized).expect("output PDF should load");
    let source_numbers = document
        .get_pages()
        .into_values()
        .map(|page_id| {
            document
                .get_dictionary(page_id)
                .and_then(|page| page.get(b"LocalbenchPageNumber"))
                .and_then(Object::as_i64)
                .expect("fixture page number should remain")
        })
        .collect::<Vec<_>>();
    assert_eq!(source_numbers, vec![3, 1]);
}

#[test]
fn adds_rotation_to_an_inherited_page_rotation() {
    let organized =
        organize_bytes(&multi_page_pdf(3), vec![2], vec![90]).expect("page should rotate");
    let document = Document::load_mem(&organized).expect("output PDF should load");
    let page_id = document.get_pages()[&1];
    let rotation = document
        .get_dictionary(page_id)
        .and_then(|page| page.get(b"Rotate"))
        .and_then(Object::as_i64)
        .expect("output page should have a rotation");
    assert_eq!(rotation, 180);
}

#[test]
fn duplicates_a_selected_page_with_independent_rotations() {
    let organized = organize_bytes(&multi_page_pdf(1), vec![1, 1], vec![0, 90])
        .expect("a source page should be reusable");
    let document = Document::load_mem(&organized).expect("output PDF should load");
    let page_ids = document.get_pages().into_values().collect::<Vec<_>>();
    let rotations = page_ids
        .iter()
        .map(|page_id| {
            document
                .get_dictionary(*page_id)
                .and_then(|page| page.get(b"Rotate"))
                .and_then(Object::as_i64)
                .expect("output page should have a rotation")
        })
        .collect::<Vec<_>>();
    assert_eq!(page_ids.len(), 2);
    assert_ne!(page_ids[0], page_ids[1]);
    assert_eq!(rotations, vec![90, 180]);
}

#[test]
fn rejects_an_out_of_range_page() {
    assert!(organize_bytes(&multi_page_pdf(3), vec![4], vec![0]).is_err());
}

#[test]
fn rejects_mismatched_organize_arrays() {
    assert!(organize_bytes(&multi_page_pdf(3), vec![1, 2], vec![0]).is_err());
}

#[test]
fn rejects_an_unsupported_rotation() {
    assert!(organize_bytes(&multi_page_pdf(3), vec![1], vec![45]).is_err());
}

#[test]
fn rejects_an_empty_organize_selection() {
    assert!(organize_bytes(&multi_page_pdf(3), Vec::new(), Vec::new()).is_err());
}

#[test]
fn compresses_a_baseline_jpeg_without_changing_page_count() {
    let (source, original_jpeg_size) = jpeg_image_pdf();
    let compressed = compress_bytes(&source, 25).expect("fixture should compress");

    assert!(compressed.len() < source.len());
    assert_eq!(page_count(&compressed).expect("output should parse"), 1);

    let output = Document::load_mem(&compressed).expect("output PDF should load");
    assert!(output.trailer.get(b"Info").is_err());
    let output_image = output
        .objects
        .values()
        .filter_map(|object| object.as_stream().ok())
        .find(|stream| {
            stream.dict.get(b"Subtype").and_then(Object::as_name).ok() == Some(b"Image")
        })
        .expect("output image should remain");
    assert!(output_image.content.len() < original_jpeg_size);
    assert_eq!(
        output_image
            .dict
            .get(b"Filter")
            .and_then(Object::as_name)
            .expect("image filter should remain"),
        b"DCTDecode"
    );
    assert_eq!(
        output_image
            .dict
            .get(b"Width")
            .and_then(Object::as_i64)
            .expect("image width should remain"),
        640
    );
    assert_eq!(
        output_image
            .dict
            .get(b"Height")
            .and_then(Object::as_i64)
            .expect("image height should remain"),
        480
    );
    assert_eq!(
        output_image
            .dict
            .get(b"ColorSpace")
            .and_then(Object::as_name)
            .expect("image color space should remain"),
        b"DeviceRGB"
    );
    assert_eq!(
        output_image
            .dict
            .get(b"BitsPerComponent")
            .and_then(Object::as_i64)
            .expect("image bit depth should remain"),
        8
    );
    assert!(output.objects.values().all(|object| match object {
        Object::Dictionary(dictionary) => !dictionary.has(b"Metadata"),
        Object::Stream(stream) => !stream.dict.has(b"Metadata"),
        _ => true,
    }));
}

#[test]
fn clamps_compression_quality_to_the_public_range() {
    let (source, _) = jpeg_image_pdf();
    assert_eq!(
        compress_bytes(&source, 0).expect("quality zero should clamp"),
        compress_bytes(&source, 1).expect("quality one should work")
    );
    assert_eq!(
        compress_bytes(&source, 101).expect("quality 101 should clamp"),
        compress_bytes(&source, 100).expect("quality 100 should work")
    );
}

// Never growing is only half the promise. The pages have to come out with
// their content intact and in order: a compression that quietly emptied
// every content stream would also satisfy "no bigger, still two pages".
#[test]
fn a_no_image_pdf_keeps_every_page_intact_and_never_grows() {
    let source = multi_page_pdf_with_contents(2);
    let compressed = compress_bytes(&source, 30).expect("no-image PDF should still compress");

    assert!(compressed.len() <= source.len());
    let document = Document::load_mem(&compressed).expect("output should remain valid");
    let pages = document.get_pages();
    assert_eq!(pages.len(), 2);

    for page_number in 1..=2_u32 {
        let page_id = pages[&page_number];
        let page = document
            .get_dictionary(page_id)
            .expect("page dictionary should exist");
        assert_eq!(
            page.get(b"LocalbenchPageNumber")
                .and_then(Object::as_i64)
                .expect("page identity should survive"),
            i64::from(page_number),
            "pages must stay in their original order"
        );

        let contents_id = page
            .get(b"Contents")
            .and_then(Object::as_reference)
            .expect("page contents should survive");
        let stream = document
            .get_object(contents_id)
            .and_then(Object::as_stream)
            .expect("content stream should survive");
        let content = if stream.dict.has(b"Filter") {
            stream
                .decompressed_content()
                .expect("content should decompress")
        } else {
            stream.content.clone()
        };
        assert_eq!(
            String::from_utf8_lossy(&content),
            format!("BT (page-body-{page_number}) Tj ET"),
            "every page's drawing instructions must survive compression"
        );
    }
}

#[test]
fn leaves_jpeg_2000_image_streams_untouched() {
    let (source, _) = jpeg_image_pdf();
    let mut input = Document::load_mem(&source).expect("fixture should load");
    let input_image = input
        .objects
        .values_mut()
        .filter_map(|object| object.as_stream_mut().ok())
        .find(|stream| {
            stream.dict.get(b"Subtype").and_then(Object::as_name).ok() == Some(b"Image")
        })
        .expect("fixture image should exist");
    input_image.dict.set("Filter", "JPXDecode");
    let original_content = input_image.content.clone();
    let mut input_bytes = Vec::new();
    input
        .save_to(&mut input_bytes)
        .expect("modified fixture should serialize");

    let compressed =
        compress_bytes(&input_bytes, 20).expect("unsupported image should be preserved");
    let output = Document::load_mem(&compressed).expect("output should load");
    let output_image = output
        .objects
        .values()
        .filter_map(|object| object.as_stream().ok())
        .find(|stream| {
            stream.dict.get(b"Subtype").and_then(Object::as_name).ok() == Some(b"Image")
        })
        .expect("unsupported image should remain");
    assert_eq!(
        output_image
            .dict
            .get(b"Filter")
            .and_then(Object::as_name)
            .expect("filter should remain"),
        b"JPXDecode"
    );
    assert_eq!(output_image.content, original_content);
}

const WIDTH: u16 = 5_000;
const HEIGHT: u16 = 8;

// A scan is wider than 4096 pixels. Compressing it must recompress the
// image, never resample it: a downscale here silently destroys the
// resolution of every page in a scanned document.
#[test]
fn compressing_never_shrinks_an_images_pixel_dimensions() {
    let (source, _) = wide_jpeg_image_pdf(WIDTH, HEIGHT);
    let compressed = compress_bytes(&source, 20).expect("wide image should compress");
    let output = Document::load_mem(&compressed).expect("output should load");
    let image = output
        .objects
        .values()
        .filter_map(|object| object.as_stream().ok())
        .find(|stream| {
            stream.dict.get(b"Subtype").and_then(Object::as_name).ok() == Some(b"Image")
        })
        .expect("output image should remain");

    assert_eq!(
        image
            .dict
            .get(b"Width")
            .and_then(Object::as_i64)
            .expect("width should remain"),
        i64::from(WIDTH),
        "a compressed page image must keep every pixel column it had"
    );
    assert_eq!(
        image
            .dict
            .get(b"Height")
            .and_then(Object::as_i64)
            .expect("height should remain"),
        i64::from(HEIGHT)
    );
}

// The clamp has to live in this core. Asserting that compress(0) equals
// compress(1) proves nothing, because the encoder clamps internally too.
#[test]
fn clamped_quality_pins_the_public_range() {
    assert_eq!(clamped_quality(0), 1);
    assert_eq!(clamped_quality(1), 1);
    assert_eq!(clamped_quality(50), 50);
    assert_eq!(clamped_quality(100), 100);
    assert_eq!(clamped_quality(101), 100);
    assert_eq!(clamped_quality(255), 100);
}

// Merging must not silently gut the document: a filled form, bookmarks,
// page numbering, named links and the language tag all have to arrive.
#[test]
fn merging_keeps_the_form_bookmarks_labels_names_and_language() {
    let merged = merge_bytes(vec![rich_pdf("a"), rich_pdf("b")]).expect("PDFs should merge");
    let document = Document::load_mem(&merged).expect("merged PDF should load");
    let catalog = catalog_of(&document);

    for key in [
        b"AcroForm".as_slice(),
        b"Outlines",
        b"PageLabels",
        b"Names",
        b"Lang",
    ] {
        assert!(
            catalog.has(key),
            "merged catalog lost /{}",
            String::from_utf8_lossy(key)
        );
    }

    // The bookmark titles and the filled-in field values are user data; if
    // they are not in the output bytes they are gone.
    for needle in [
        b"bookmark-a-two".as_slice(),
        b"bookmark-b-two",
        b"value-a",
        b"value-b",
    ] {
        assert!(
            contains(&merged, needle),
            "merged PDF lost {}",
            String::from_utf8_lossy(needle)
        );
    }

    let form = resolved_dictionary(&document, catalog.get(b"AcroForm").expect("form"));
    let fields = resolved_array(&document, form.get(b"Fields").expect("fields"));
    assert_eq!(fields.len(), 2, "both documents' form fields must survive");

    let outline_titles = top_level_outline_titles(&document);
    assert_eq!(
        outline_titles.len(),
        4,
        "every source bookmark must be in the merged outline"
    );
    assert!(outline_titles.contains(&"bookmark-b-one".to_owned()));

    let labels = page_labels(&merged);
    assert_eq!(
        labels.iter().map(|(key, _)| *key).collect::<Vec<_>>(),
        vec![0, 1, 2, 3],
        "page numbering must be shifted onto the merged page range"
    );

    let destinations = named_destinations(&merged);
    assert_eq!(
        destinations.len(),
        2,
        "both documents' named destinations must survive"
    );
}

// Every page of every input must arrive with its drawing instructions.
#[test]
fn merging_keeps_every_page_and_its_content() {
    let merged = merge_bytes(vec![rich_pdf("a"), rich_pdf("b")]).expect("PDFs should merge");
    assert_eq!(page_count(&merged).expect("merged PDF should parse"), 4);
    for needle in [
        b"marker-a-page-1".as_slice(),
        b"marker-a-page-2",
        b"marker-b-page-1",
        b"marker-b-page-2",
    ] {
        assert!(
            contains(&merged, needle),
            "merged PDF lost the content of {}",
            String::from_utf8_lossy(needle)
        );
    }
}

// Only one input has bookmarks and a form: they still have to arrive.
#[test]
fn merging_a_plain_pdf_with_a_rich_one_keeps_the_rich_ones_extras() {
    let merged = merge_bytes(vec![one_page_pdf(), rich_pdf("b")]).expect("PDFs should merge");
    let document = Document::load_mem(&merged).expect("merged PDF should load");
    let catalog = catalog_of(&document);

    assert_eq!(document.get_pages().len(), 3);
    assert!(catalog.has(b"Outlines"), "the only outline was dropped");
    assert!(catalog.has(b"AcroForm"), "the only form was dropped");
    assert_eq!(
        top_level_outline_titles(&document),
        vec!["bookmark-b-one".to_owned(), "bookmark-b-two".to_owned()]
    );

    // The plain document's pages must not inherit the other one's labels.
    let labels = page_labels(&merged);
    assert_eq!(
        labels.iter().map(|(key, _)| *key).collect::<Vec<_>>(),
        vec![0, 1, 2]
    );
}

#[test]
fn merging_two_forms_says_so_and_reports_the_tags_it_cannot_combine() {
    let codes = notice_codes(&merge_notices(vec![rich_pdf("a"), rich_pdf("b")]));
    assert!(codes.contains(&"pdf-forms-combined"));
    assert!(codes.contains(&"pdf-tags-not-merged"));
}

// Rearranging must keep the catalog too, and page numbering has to follow
// the pages it belongs to rather than being dropped or left misaligned.
#[test]
fn organizing_keeps_the_catalog_and_moves_page_labels_with_their_pages() {
    let organized =
        organize_bytes(&rich_pdf("a"), vec![2, 1], vec![0, 0]).expect("pages should reorder");
    let document = Document::load_mem(&organized).expect("output should load");
    let catalog = catalog_of(&document);

    assert!(catalog.has(b"Outlines"), "reordering lost the bookmarks");
    assert!(catalog.has(b"AcroForm"), "reordering lost the form");
    assert!(catalog.has(b"Lang"), "reordering lost the language tag");
    assert!(
        contains(&organized, b"bookmark-a-one"),
        "the bookmark title is not in the output bytes at all"
    );

    let labels = page_labels(&organized);
    let styles = labels
        .iter()
        .map(|(key, label)| {
            let PdfObject::Dictionary(label) = label else {
                panic!("a page label should be a dictionary");
            };
            let style = label.name("S").cloned().unwrap_or(b"?".to_vec());
            (*key, String::from_utf8_lossy(&style).into_owned())
        })
        .collect::<Vec<_>>();
    // Source page 2 was decimal, source page 1 was roman; swapping the
    // pages must swap their labels with them.
    assert_eq!(
        styles,
        vec![(0, "D".to_owned()), (1, "r".to_owned())],
        "page labels must follow their pages"
    );
}

// A removed page's content has to leave the file, and the bookmark that
// pointed at it must stop pointing at it rather than resurrect it.
#[test]
fn a_removed_page_leaves_no_content_and_no_live_link_behind() {
    let organized =
        organize_bytes(&rich_pdf("a"), vec![1], vec![0]).expect("page should be kept");

    assert!(
        !contains(&organized, b"marker-a-page-2"),
        "the removed page's content is still inside the output file"
    );
    let document = Document::load_mem(&organized).expect("output should load");
    assert_eq!(document.get_pages().len(), 1);
    assert!(
        contains(&organized, b"bookmark-a-one"),
        "the surviving bookmark was destroyed along with the removed page"
    );

    let dangling = document.objects.values().any(|object| {
        object
            .as_dict()
            .ok()
            .and_then(|dictionary| dictionary.get(b"Dest").ok())
            .and_then(|destination| destination.as_array().ok())
            .is_some_and(|destination| matches!(destination.first(), Some(Object::Null)))
    });
    assert!(
        dangling,
        "the bookmark for the removed page must point at nothing"
    );
}

#[test]
fn organizing_reports_the_links_it_could_not_keep() {
    let codes = notice_codes(&organize_notices(&rich_pdf("a"), vec![1], vec![0]));
    assert!(codes.contains(&"pdf-links-to-removed-pages"));
    assert!(codes.contains(&"pdf-tags-dropped"));
}

// Returning the input unchanged is a legitimate outcome, but the caller
// has to learn that nothing the interface promised actually happened.
#[test]
fn compress_states_when_it_hands_back_the_original_untouched() {
    let source = tiny_metadata_pdf();
    let (bytes, notices) = compress(&source, 40).expect("compress should succeed");

    assert_eq!(bytes, source, "the fixture cannot shrink");
    assert!(
        notice_codes(&notices).contains(&"pdf-returned-unchanged"),
        "a returned-as-is result must say so, got {:?}",
        notice_codes(&notices)
    );
    assert!(
        notices
            .iter()
            .any(|notice| notice.message.contains("NOT removed")),
        "the notice must contradict the interface's metadata promise"
    );
}

// The wasm-facing surface the interfaces consume: bytes plus two parallel
// arrays. If they ever drift apart, a notice ends up attached to the wrong
// code and the interface shows the wrong thing.
#[test]
fn a_file_result_exposes_bytes_and_matching_notice_codes() {
    let result = FileResult::new(
        b"pdf-bytes".to_vec(),
        vec![
            Notice::new("first-code", "First message."),
            Notice::new("second-code", "Second message."),
        ],
    );

    assert_eq!(result.bytes(), b"pdf-bytes".to_vec());
    assert_eq!(result.bytes_ref(), b"pdf-bytes");
    assert_eq!(result.notice_codes(), vec!["first-code", "second-code"]);
    assert_eq!(result.codes(), vec!["first-code", "second-code"]);
    assert_eq!(
        result.notices(),
        vec!["First message.".to_owned(), "Second message.".to_owned()]
    );
    assert_eq!(result.messages(), vec!["First message.", "Second message."]);
    assert_eq!(
        result.notices().len(),
        result.notice_codes().len(),
        "messages and codes must stay parallel"
    );
}

#[test]
fn compress_states_when_it_really_did_remove_metadata() {
    let (source, _) = jpeg_image_pdf();
    let (bytes, notices) = compress(&source, 25).expect("fixture should compress");

    assert!(bytes.len() < source.len());
    assert!(notice_codes(&notices).contains(&"pdf-metadata-removed"));
}
