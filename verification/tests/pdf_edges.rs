//! Dictionaries, trees, labels, refusals, and what each operation keeps.

use localbench_core::images::model::JpegColor;
use localbench_core::notices::Notice;
use localbench_core::pdf::catalog::{
    add_clamped, contains_key, contains_pair, merge_dropped_catalog_notice, new_signature_notice,
    page_label_for_index,
};
use localbench_core::pdf::compress::{
    accept_pixels, clamped_quality, compress, compress_pdf, has_metadata, lighten_document,
    pick_smaller_pdf, qualify_image, reencode_dct_image,
};
use localbench_core::pdf::counts::check_counts;
use localbench_core::pdf::merge::{merge, merge_documents, merge_pdfs, pick_later};
use localbench_core::pdf::model::{
    contains_id, copy_object, find_dictionary, find_object, insert_object, is_root_object,
    look_up, object_dictionary, resolve, resolve_array, resolve_dictionary, same_object,
    PdfDictionary, PdfDocument, PdfObject, PdfStream, TextFormat, XrefKind,
};
use localbench_core::pdf::organize::{null_references_to, organize, organize_pdf};
use localbench_core::pdf::outside::prune;
use localbench_core::pdf::pages::{
    accept_parsed, document_catalog, inherited_page_attribute, load_pdf, page_count,
    pdf_page_count, refuse_decrypted,
};
use localbench_core::pdf::trees::{
    flatten_name_tree, flatten_number_tree, name_tree, number_tree, TREE_LEVELS,
};
use lopdf::{
    Dictionary, Document, EncryptionState, EncryptionVersion, Object, Permissions,
};

fn name(value: &str) -> PdfObject {
    PdfObject::Name(value.as_bytes().to_vec())
}

fn text(value: &str) -> PdfObject {
    PdfObject::Text(value.as_bytes().to_vec(), TextFormat::Literal)
}

fn dictionary(entries: Vec<(&str, PdfObject)>) -> PdfDictionary {
    let mut dictionary = PdfDictionary::empty();
    for (key, value) in entries {
        dictionary.set(key, value);
    }
    dictionary
}

fn codes(notices: &[Notice]) -> Vec<&'static str> {
    notices.iter().map(Notice::code).collect()
}

/// A PDF with one page for each of these rotations, inherited where it is `None`.
fn rotated_pdf(inherited: i64, rotations: &[Option<Object>]) -> Vec<u8> {
    let mut document = Document::with_version("1.4");
    let pages = document.new_object_id();
    let mut kids = Vec::new();
    for (index, rotation) in rotations.iter().enumerate() {
        let mut page = Dictionary::new();
        page.set("Type", "Page");
        page.set("Parent", pages);
        page.set("Number", index as i64 + 1);
        if let Some(rotation) = rotation {
            page.set("Rotate", rotation.clone());
        }
        kids.push(Object::Reference(document.add_object(page)));
    }
    let mut tree = Dictionary::new();
    tree.set("Type", "Pages");
    tree.set("Count", kids.len() as i64);
    tree.set("Kids", kids);
    tree.set("Rotate", inherited);
    document.objects.insert(pages, Object::Dictionary(tree));
    let mut catalog = Dictionary::new();
    catalog.set("Type", "Catalog");
    catalog.set("Pages", pages);
    let catalog = document.add_object(catalog);
    document.trailer.set("Root", catalog);
    let mut bytes = Vec::new();
    document.save_to(&mut bytes).expect("the fixture should serialize");
    bytes
}

/// The number and the rotation of each page.
fn pages_of(bytes: &[u8]) -> Vec<(i64, i64)> {
    let document = Document::load_mem(bytes).expect("the file should load");
    document
        .get_pages()
        .into_values()
        .map(|id| {
            let page = document.get_dictionary(id).expect("the page should exist");
            let integer = |key: &[u8]| page.get(key).and_then(Object::as_i64).unwrap_or(-1);
            (integer(b"Number"), integer(b"Rotate"))
        })
        .collect()
}

#[test]
fn a_dictionary_gives_back_what_was_stored() {
    let mut entries = dictionary(vec![("A", name("a")), ("B", PdfObject::Integer(2)), ("C", text("c"))]);
    assert_eq!(entries.integer("B"), Some(2));
    assert!(entries.name_is("A", "a"));
    entries.set("A", PdfObject::Reference((7, 0)));
    assert_eq!(entries.reference("A"), Some((7, 0)));
    entries.remove("A");
    assert!(!entries.has("A"));
    assert_eq!(entries.integer("B"), Some(2));
    assert!(entries.has("C"));
    assert_eq!(entries.entries[0].0, b"C", "the last entry takes the removed place");
    entries.remove("missing");
    assert_eq!(entries.entries.len(), 2);
    assert_eq!(entries.index_of(b"B"), Some(1));
    assert!(entries.get_key(b"B").is_some());
    assert!(entries.has_key(b"C"));
}

#[test]
fn objects_are_kept_in_number_order() {
    let mut objects = Vec::new();
    insert_object(&mut objects, (3, 0), PdfObject::Integer(3));
    insert_object(&mut objects, (1, 0), PdfObject::Integer(1));
    insert_object(&mut objects, (3, 0), PdfObject::Integer(30));
    let ids = objects.iter().map(|entry| entry.0 .0).collect::<Vec<_>>();
    assert_eq!(ids, vec![1, 3]);
    let found = find_object(&objects, (3, 0)).expect("the object should be found");
    assert!(same_object(found, &PdfObject::Integer(30)));
    assert!(find_object(&objects, (2, 0)).is_none());
    assert!(contains_id(&vec![(1, 0)], (1, 0)));
    assert!(!contains_id(&vec![(1, 0)], (1, 1)));
}

#[test]
fn references_are_followed_a_bounded_way() {
    let mut objects = Vec::new();
    for number in 1..=40_u32 {
        insert_object(&mut objects, (number, 0), PdfObject::Reference((number + 1, 0)));
    }
    insert_object(&mut objects, (41, 0), PdfObject::Integer(9));
    let start = |number: u32| PdfObject::Reference((number, 0));
    assert!(resolve(&objects, &start(1)).is_none());
    assert!(resolve(&objects, &start(20)).is_some());
    assert!(look_up(&objects, &start(1)).is_some());
    assert!(resolve(&objects, &start(99)).is_none());
    insert_object(&mut objects, (41, 0), PdfObject::Dictionary(dictionary(vec![("K", name("v"))])));
    assert!(resolve_dictionary(&objects, Some(&start(41))).is_some());
    assert!(resolve_array(&objects, Some(&start(41))).is_none());
    assert!(find_dictionary(&objects, (41, 0)).is_some());
    assert!(object_dictionary(&PdfObject::Null).is_none());
}

#[test]
fn copies_are_equal_and_differences_are_seen() {
    let object = PdfObject::Array(vec![
        name("n"),
        text("t"),
        PdfObject::Real("1.5".to_owned()),
        PdfObject::Dictionary(dictionary(vec![("K", PdfObject::Boolean(true))])),
    ]);
    assert!(same_object(&object, &copy_object(&object)));
    assert!(!same_object(&object, &PdfObject::Array(Vec::new())));
    assert!(!same_object(&name("n"), &text("n")));
    assert!(is_root_object(&PdfObject::Dictionary(dictionary(vec![("Type", name("Catalog"))]))));
    assert!(!is_root_object(&PdfObject::Dictionary(dictionary(vec![("Type", name("Page"))]))));
}

#[test]
fn written_trees_are_read_back_in_key_order() {
    let tree = number_tree(vec![(5, name("five")), (-1, name("minus")), (5, name("again"))]);
    let mut pairs = Vec::new();
    assert!(flatten_number_tree(&Vec::new(), &tree, &mut pairs, TREE_LEVELS));
    let keys = pairs.iter().map(|pair| pair.0).collect::<Vec<_>>();
    assert_eq!(keys, vec![-1, 5, 5]);
    assert!(same_object(&pairs[1].1, &name("five")), "equal keys keep their order");
    assert!(!flatten_number_tree(&Vec::new(), &tree, &mut Vec::new(), 0));

    let tree = name_tree(vec![(b"b".to_vec(), name("2")), (b"ab".to_vec(), name("1"))]);
    let mut pairs = Vec::new();
    assert!(flatten_name_tree(&Vec::new(), &tree, &mut pairs, 1));
    let keys = pairs.iter().map(|pair| pair.0.clone()).collect::<Vec<_>>();
    assert_eq!(keys, vec![b"ab".to_vec(), b"b".to_vec()]);
}

#[test]
fn malformed_trees_are_not_usable() {
    let leaf = |items: Vec<PdfObject>| {
        PdfObject::Dictionary(dictionary(vec![("Nums", PdfObject::Array(items))]))
    };
    let usable = |node: &PdfObject| {
        flatten_number_tree(&Vec::new(), node, &mut Vec::new(), TREE_LEVELS)
    };
    assert!(usable(&leaf(vec![])));
    assert!(!usable(&leaf(vec![PdfObject::Integer(1)])));
    assert!(!usable(&leaf(vec![name("key"), name("value")])));
    assert!(!usable(&PdfObject::Dictionary(dictionary(vec![]))));
    let kids = PdfObject::Dictionary(dictionary(vec![(
        "Kids",
        PdfObject::Array(vec![leaf(vec![PdfObject::Integer(4), PdfObject::Null])]),
    )]));
    assert!(usable(&kids));
}

#[test]
fn page_labels_keep_their_number() {
    let roman = PdfObject::Dictionary(dictionary(vec![("S", name("r"))]));
    let from_five =
        PdfObject::Dictionary(dictionary(vec![("S", name("D")), ("St", PdfObject::Integer(5))]));
    let entries = vec![(0, roman), (3, from_five)];
    let start = |index: i64| {
        let label = page_label_for_index(&entries, index)?;
        let PdfObject::Dictionary(label) = label else {
            return None;
        };
        label.integer("St")
    };
    assert_eq!(start(2), Some(3));
    assert_eq!(start(3), Some(5));
    assert_eq!(start(10), Some(12));
    assert_eq!(start(-1), None);
    assert_eq!(add_clamped(i64::MAX, 1), i64::MAX);
    assert_eq!(add_clamped(i64::MIN, -1), i64::MIN);
    assert_eq!(add_clamped(2, -5), -3);
}

#[test]
fn catalog_entries_that_cannot_be_merged_are_named() {
    let code = |key: &[u8]| merge_dropped_catalog_notice(key).map(|notice| notice.code());
    assert_eq!(code(b"Metadata"), Some("pdf-xmp-not-merged"));
    assert_eq!(code(b"MarkInfo"), Some("pdf-tags-not-merged"));
    assert_eq!(code(b"DSS"), Some("pdf-signature-dropped"));
    assert_eq!(code(b"Lang"), None);
    assert_eq!(new_signature_notice().code(), "pdf-signature-dropped");
    assert!(contains_key(&vec![b"A".to_vec()], b"A"));
    assert!(!contains_pair(&vec![(b"A".to_vec(), PdfObject::Null)], b"B"));
}

#[test]
fn the_later_version_is_kept() {
    assert_eq!(pick_later("1.4", "1.5"), "1.5");
    assert_eq!(pick_later("1.7", "1.5"), "1.7");
    assert_eq!(pick_later("2.0", "1.7"), "2.0");
}

#[test]
fn files_that_cannot_be_read_are_named() {
    assert!(load_pdf(b"nothing")
        .err()
        .expect("garbage must fail")
        .starts_with("Could not read this PDF: "));
    assert_eq!(
        accept_parsed(Err("odd".to_owned())).err(),
        Some("Could not read this PDF: odd".to_owned())
    );
    let mut locked = load_pdf(&rotated_pdf(0, &[None])).expect("it should load");
    locked.trailer.set("Encrypt", PdfObject::Null);
    assert_eq!(
        accept_parsed(Ok((locked, false))).err(),
        Some("This PDF is password-protected, so its pages can't be read.".to_owned())
    );
    let open = load_pdf(&rotated_pdf(0, &[None])).expect("it should load");
    assert_eq!(
        accept_parsed(Ok((open, true))).err(),
        Some("This PDF is password-protected, so its pages can't be read.".to_owned())
    );
    let two = rotated_pdf(0, &[None, None]);
    assert_eq!(page_count(&two), Ok(2));
    assert_eq!(pdf_page_count(&two), Ok(2));
}

#[test]
fn merged_pages_keep_their_order_and_inherit() {
    let first = rotated_pdf(90, &[None, Some(Object::Integer(180))]);
    let second = rotated_pdf(270, &[None]);
    let (bytes, notices) = merge(vec![first.clone(), second.clone()]).expect("it should merge");
    assert_eq!(pages_of(&bytes), vec![(1, 90), (2, 180), (1, 270)]);
    assert!(notices.is_empty());
    let told = merge_pdfs(vec![first.clone(), second.clone()]).expect("it should merge");
    assert_eq!(told.bytes(), bytes);
    let documents = vec![
        load_pdf(&first).expect("it should load"),
        load_pdf(&second).expect("it should load"),
    ];
    let merged = merge_documents(&documents).expect("it should merge");
    assert_eq!(merged.0, bytes);
    let broken = merge(vec![first, b"nothing".to_vec()]).err().expect("garbage must fail");
    assert!(broken.starts_with("PDF 2"));
    assert_eq!(merge(Vec::new()).err(), Some("Choose at least one PDF to merge.".to_owned()));
}

#[test]
fn organizing_names_what_it_refuses() {
    let source = rotated_pdf(0, &[None, None]);
    let error = |pages: Vec<u32>, rotations: Vec<i32>| organize(&source, pages, rotations).err();
    assert_eq!(
        error(vec![], vec![]),
        Some("Choose at least one page for the output PDF.".to_owned())
    );
    assert_eq!(
        error(vec![1], vec![]),
        Some("Every output page must have one rotation value.".to_owned())
    );
    assert_eq!(
        error(vec![1, 1], vec![0, 45]),
        Some("Rotation for output page 2 must be 0, 90, 180, or 270 degrees.".to_owned())
    );
    for page in [0, 3] {
        assert_eq!(
            error(vec![page], vec![0]),
            Some(format!("Page {page} is outside this PDF's page range (1–2)."))
        );
    }
    assert_eq!(
        organize(&rotated_pdf(0, &[]), vec![1], vec![0]).err(),
        Some("This PDF has no pages to organize.".to_owned())
    );
    let odd = rotated_pdf(0, &[Some(Object::string_literal("up"))]);
    assert_eq!(
        organize(&odd, vec![1], vec![0]).err(),
        Some("A page has an invalid existing rotation value.".to_owned())
    );
    let huge = rotated_pdf(0, &[Some(Object::Integer(i64::MAX))]);
    assert_eq!(
        organize(&huge, vec![1], vec![90]).err(),
        Some("A page rotation value is too large.".to_owned())
    );
}

#[test]
fn turns_add_up_and_pages_can_repeat() {
    let source = rotated_pdf(0, &[Some(Object::Integer(-90)), Some(Object::Integer(270)), None]);
    let (bytes, _) = organize(&source, vec![2, 1, 2, 3], vec![180, 90, 90, 0])
        .expect("it should organize");
    assert_eq!(pages_of(&bytes), vec![(2, 90), (1, 0), (2, 0), (3, 0)]);
    let told = organize_pdf(&source, vec![2, 1, 2, 3], vec![180, 90, 90, 0])
        .expect("it should organize");
    assert_eq!(told.bytes(), bytes);
    let (kept, notices) = organize(&source, vec![1, 2, 3], vec![0; 3]).expect("it should organize");
    assert_eq!(pages_of(&kept), vec![(1, 270), (2, 270), (3, 0)]);
    assert!(notices.is_empty());
    let (fewer, notices) = organize(&source, vec![3], vec![0]).expect("it should organize");
    assert_eq!(pages_of(&fewer), vec![(3, 0)]);
    assert_eq!(codes(&notices), vec!["pdf-links-to-removed-pages"]);
}

#[test]
fn references_to_removed_pages_become_nothing() {
    let target = |number: u32| PdfObject::Reference((number, 0));
    let object = PdfObject::Array(vec![
        target(4),
        PdfObject::Dictionary(dictionary(vec![("Dest", target(5)), ("Next", target(4))])),
    ]);
    let nulled = null_references_to(&object, &vec![(5, 0)]);
    let expected = PdfObject::Array(vec![
        target(4),
        PdfObject::Dictionary(dictionary(vec![("Dest", PdfObject::Null), ("Next", target(4))])),
    ]);
    assert!(same_object(&nulled, &expected));
}

#[test]
fn attributes_are_inherited_from_the_tree() {
    let document = load_pdf(&rotated_pdf(90, &[None])).expect("it should load");
    let (id, _) = document
        .objects
        .iter()
        .find(|(_, object)| {
            matches!(object, PdfObject::Dictionary(entries) if entries.name_is("Type", "Page"))
        })
        .expect("the page should exist");
    let found = inherited_page_attribute(&document.objects, *id, "Rotate");
    assert!(found.is_some_and(|value| same_object(&value, &PdfObject::Integer(90))));
    assert!(inherited_page_attribute(&document.objects, *id, "CropBox").is_none());
    assert!(document_catalog(&document).name_is("Type", "Catalog"));
}

#[test]
fn unreachable_objects_are_pruned() {
    let mut document = PdfDocument {
        version: "1.5".to_owned(),
        binary_mark: vec![0xbb, 0xad, 0xc0, 0xde],
        trailer: dictionary(vec![("Root", PdfObject::Reference((1, 0)))]),
        objects: Vec::new(),
        max_id: 3,
        xref: XrefKind::Stream,
    };
    let root = dictionary(vec![("Next", PdfObject::Array(vec![PdfObject::Reference((2, 0))]))]);
    insert_object(&mut document.objects, (1, 0), PdfObject::Dictionary(root));
    insert_object(&mut document.objects, (2, 0), PdfObject::Integer(2));
    insert_object(&mut document.objects, (3, 0), PdfObject::Reference((1, 0)));
    let pruned = prune(document);
    let ids = pruned.objects.iter().map(|entry| entry.0 .0).collect::<Vec<_>>();
    assert_eq!(ids, vec![1, 2]);
}

fn image_stream(filter: &str, color: &str, width: i64) -> PdfStream {
    let mut content = Vec::new();
    let pixels = (0..32 * 16 * 3).map(|value| (value * 37 % 251) as u8).collect::<Vec<_>>();
    jpeg_encoder::Encoder::new(&mut content, 95)
        .encode(&pixels, 32, 16, jpeg_encoder::ColorType::Rgb)
        .expect("the fixture should encode");
    PdfStream {
        dict: dictionary(vec![
            ("Subtype", name("Image")),
            ("Filter", name(filter)),
            ("ColorSpace", name(color)),
            ("BitsPerComponent", PdfObject::Integer(8)),
            ("Width", PdfObject::Integer(width)),
            ("Height", PdfObject::Integer(16)),
        ]),
        content,
        allows_compression: true,
        start_position: None,
    }
}

#[test]
fn only_baseline_images_with_their_declared_size_are_recompressed() {
    let image = image_stream("DCTDecode", "DeviceRGB", 32);
    assert_eq!(qualify_image(&image), Some((JpegColor::Rgb, 32, 16)));
    let (smaller, width, height) = reencode_dct_image(&image, 10).expect("it should re-encode");
    assert_eq!((width, height), (32, 16));
    assert!(smaller.len() < image.content.len());
    assert!(qualify_image(&image_stream("FlateDecode", "DeviceRGB", 32)).is_none());
    assert!(qualify_image(&image_stream("DCTDecode", "DeviceCMYK", 32)).is_none());
    assert!(qualify_image(&image_stream("DCTDecode", "DeviceRGB", 0)).is_none());
    assert!(reencode_dct_image(&image_stream("DCTDecode", "DeviceRGB", 31), 10).is_none());
    assert_eq!(accept_pixels(Some((vec![1, 2, 3], 1, 1)), JpegColor::Rgb, 1, 1), Some(vec![1, 2, 3]));
    assert_eq!(accept_pixels(Some((vec![1, 2], 1, 1)), JpegColor::Rgb, 1, 1), None);
    assert_eq!(accept_pixels(Some((vec![1], 1, 1)), JpegColor::Gray, 1, 1), Some(vec![1]));
    assert_eq!(accept_pixels(None, JpegColor::Gray, 1, 1), None);
    assert_eq!(clamped_quality(0), 1);
}

#[test]
fn compression_never_grows_a_file() {
    let unchanged = pick_smaller_pdf(b"four", b"longer".to_vec(), Some(1), 1, true);
    assert_eq!(unchanged.0, b"four");
    assert!(unchanged.1[0].message().ends_with("Its metadata was NOT removed."));
    let fewer_pages = pick_smaller_pdf(b"four", b"two".to_vec(), Some(0), 1, false);
    assert_eq!(fewer_pages.0, b"four");
    let unreadable = pick_smaller_pdf(b"four", b"two".to_vec(), None, 1, false);
    assert_eq!(codes(&unreadable.1), vec!["pdf-returned-unchanged"]);
    let smaller = pick_smaller_pdf(b"four", b"two".to_vec(), Some(1), 1, true);
    assert_eq!(smaller.0, b"two");
    assert_eq!(codes(&smaller.1), vec!["pdf-metadata-removed"]);
    let source = rotated_pdf(0, &[None, None, None]);
    let (bytes, _) = compress(&source, 50).expect("it should compress");
    assert!(bytes.len() <= source.len());
    assert_eq!(compress_pdf(&source, 50).expect("it should compress").bytes(), bytes);
}

#[test]
fn a_lighter_document_links_no_metadata_and_has_smaller_images() {
    let mut document = load_pdf(&rotated_pdf(0, &[None])).expect("it should load");
    assert!(!has_metadata(&document));
    let image = image_stream("DCTDecode", "DeviceRGB", 32);
    let before = image.content.len();
    let id = (document.max_id + 1, 0);
    document.max_id += 1;
    insert_object(&mut document.objects, id, PdfObject::Stream(image));
    document.trailer.set("Thumb", PdfObject::Reference(id));
    document.trailer.set("Info", PdfObject::Null);
    assert!(has_metadata(&document));
    let light = lighten_document(document, 10);
    assert!(!has_metadata(&light));
    let Some(PdfObject::Stream(image)) = find_object(&light.objects, id) else {
        panic!("the image should remain");
    };
    assert!(image.content.len() < before);
    assert_eq!(image.dict.integer("Width"), Some(32));
    let size = image.content.len() as i64;
    assert_eq!(image.dict.integer("Length"), Some(size));
}

#[test]
fn a_file_that_an_empty_password_opens_is_still_refused() {
    let mut document =
        Document::load_mem(&rotated_pdf(0, &[None])).expect("the fixture should parse");
    let id = Object::string_literal("0123456789abcdef");
    document.trailer.set("ID", vec![id.clone(), id]);
    let state = EncryptionState::try_from(EncryptionVersion::V2 {
        document: &document,
        owner_password: "owner",
        user_password: "",
        key_length: 128,
        permissions: Permissions::all(),
    })
    .expect("the keys should be made");
    document.encrypt(&state).expect("the fixture should encrypt");
    let mut bytes = Vec::new();
    document.save_to(&mut bytes).expect("the fixture should serialize");
    let read = Document::load_mem(&bytes).expect("the empty password opens it");
    assert!(read.was_encrypted());
    let error = "This PDF is password-protected, so its pages can't be read.".to_owned();
    assert_eq!(load_pdf(&bytes).err(), Some(error.clone()));
    assert_eq!(page_count(&bytes), Err(error.clone()));
    let open = load_pdf(&rotated_pdf(0, &[None])).expect("it should load");
    assert_eq!(refuse_decrypted(Ok((open, true))).err(), Some(error));
    assert_eq!(refuse_decrypted(Err("odd".to_owned())).err(), Some("odd".to_owned()));
}

/// A PDF whose page tree has a node in between, which declares this many pages.
fn declaring_pdf(count: i64) -> Vec<u8> {
    let mut document = Document::with_version("1.4");
    let root = document.new_object_id();
    let node = document.new_object_id();
    let mut page = Dictionary::new();
    page.set("Type", "Page");
    page.set("Parent", node);
    page.set("Number", 1);
    let page = document.add_object(page);
    let mut middle = Dictionary::new();
    middle.set("Type", "Pages");
    middle.set("Parent", root);
    middle.set("Count", count);
    middle.set("Kids", vec![Object::Reference(page)]);
    middle.set("MediaBox", vec![Object::Integer(7)]);
    document.objects.insert(node, Object::Dictionary(middle));
    let mut tree = Dictionary::new();
    tree.set("Type", "Pages");
    tree.set("Count", 1);
    tree.set("Kids", vec![Object::Reference(node), Object::Reference(node)]);
    document.objects.insert(root, Object::Dictionary(tree));
    let mut catalog = Dictionary::new();
    catalog.set("Type", "Catalog");
    catalog.set("Pages", root);
    let catalog = document.add_object(catalog);
    document.trailer.set("Root", catalog);
    let mut bytes = Vec::new();
    document.save_to(&mut bytes).expect("the fixture should serialize");
    bytes
}

#[test]
fn a_tree_that_declares_too_many_pages_is_refused() {
    let refusal = "This PDF declares more pages than it can hold.".to_owned();
    for (count, fine) in [
        (1, true),
        (-5, true),
        (8_388_608, true),
        (8_388_609, false),
        (i64::MAX, false),
    ] {
        let bytes = declaring_pdf(count);
        let document = load_pdf(&bytes).expect("the file should load");
        assert_eq!(check_counts(&document), fine, "{count}");
        assert_eq!(page_count(&bytes), Ok(2), "{count}");
        let organized = organize(&bytes, vec![2], vec![0]).map(|(bytes, _)| pages_of(&bytes));
        let merged = merge(vec![bytes.clone(), bytes]).map(|(bytes, _)| pages_of(&bytes));
        if fine {
            assert_eq!(organized, Ok(vec![(1, 0)]));
            assert_eq!(merged.map(|pages| pages.len()), Ok(4));
        } else {
            assert_eq!(organized, Err(refusal.clone()));
            assert_eq!(merged, Err(refusal.clone()));
        }
    }
}

#[test]
fn counts_are_taken_from_entries_that_stand_once() {
    let mut document = load_pdf(&declaring_pdf(1)).expect("the file should load");
    assert!(check_counts(&document));
    let twice = PdfDocument {
        objects: document.objects.iter().rev().map(|(id, object)| (*id, copy_object(object))).collect(),
        version: document.version.clone(),
        binary_mark: document.binary_mark.clone(),
        trailer: dictionary(Vec::new()),
        max_id: document.max_id,
        xref: XrefKind::Stream,
    };
    assert!(!check_counts(&twice), "the numbers descend");
    for (_, object) in document.objects.iter_mut() {
        if let PdfObject::Dictionary(entries) = object {
            entries.entries.push((b"Count".to_vec(), PdfObject::Integer(1)));
        }
    }
    assert!(!check_counts(&document));
}

#[test]
fn merged_pages_have_numbers_of_their_own_and_what_they_inherited() {
    let bytes = rotated_pdf(90, &[None, Some(Object::Integer(180))]);
    let (merged, _) = merge(vec![bytes.clone(), bytes]).expect("the files should merge");
    let document = Document::load_mem(&merged).expect("the file should load");
    let ids: Vec<_> = document.get_pages().into_values().collect();
    assert_eq!(ids.len(), 4);
    assert!(ids[..2].iter().all(|early| ids[2..].iter().all(|late| early.0 < late.0)));
    assert_eq!(pages_of(&merged), vec![(1, 90), (2, 180), (1, 90), (2, 180)]);
}

#[test]
fn organizing_twice_gives_what_organizing_once_gives() {
    let bytes = rotated_pdf(90, &[None, Some(Object::Integer(180)), Some(Object::Integer(-90))]);
    let (first, _) = organize(&bytes, vec![3, 1, 1, 2], vec![90, 180, 0, 270])
        .expect("the pages should be organized");
    let (second, _) = organize(&first, vec![4, 2, 2, 1], vec![180, 270, 0, 90])
        .expect("the pages should be organized again");
    let (once, _) = organize(&bytes, vec![2, 1, 1, 3], vec![90, 90, 180, 180])
        .expect("the pages should be organized at once");
    assert_eq!(pages_of(&second), pages_of(&once));
    assert_eq!(pages_of(&once), vec![(2, 270), (1, 180), (1, 270), (3, 90)]);
}
