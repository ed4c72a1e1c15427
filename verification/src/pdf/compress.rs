//! Making a PDF smaller: its baseline JPEG images are recompressed, nonessential
//! metadata is removed, and unfiltered streams are deflated.

use vstd::prelude::*;

use crate::bytes::{copy_bytes, utf8};
use crate::images::model::{JpegColor, MAX_DECODED_PIXELS};
use crate::images::outside::{decode_jpeg, jpeg_file, jpeg_pixels, pixels_value, write_jpeg};
use crate::metadata::jpeg::{is_baseline, is_baseline_jpeg};
use crate::metadata::pdf_report::links_metadata;
use crate::notices::{
    has_code, notice, notice_values, push_notice, told_outcome, FileResult, Notice, NoticeValue,
};
use crate::pdf::model::{
    copy_object, dict_has, dict_remove, dict_set, integer_at, name_at, object_dictionary,
    table_value, PdfDocument, PdfDocumentValue, PdfId, PdfObject, PdfStream, PdfStreamValue,
    PdfValue,
};
use crate::pdf::outside::{
    deflate_streams, deflated_pdf, list_pages, page_ids, prune, pruned_pdf, write_pdf, written_pdf,
};
use crate::pdf::pages::{load_pdf, loaded_pdf};
use crate::text::{joined, outcome};

verus! {

/// A quality in the encoder's meaningful range.
pub open spec fn clamped(quality: u8) -> u8 {
    if quality < 1 {
        1
    } else if quality > 100 {
        100
    } else {
        quality
    }
}

/// Clamp a quality into the encoder's meaningful range: a caller asking for
/// quality 0 gets the lowest real quality.
pub fn clamped_quality(quality: u8) -> (clamp: u8)
    ensures
        clamp == clamped(quality),
        1 <= clamp <= 100,
        1 <= quality <= 100 ==> clamp == quality,
{
    if quality < 1 {
        1
    } else if quality > 100 {
        100
    } else {
        quality
    }
}

/// A length in pixels that fits a JPEG.
pub open spec fn declared_length(
    entries: Seq<(Seq<u8>, PdfValue)>,
    key: Seq<char>,
) -> Option<u16> {
    match integer_at(entries, key) {
        Some(length) => if 0 <= length <= u16::MAX {
            Some(length as u16)
        } else {
            None
        },
        None => None,
    }
}

/// The colours and the size of an image that may be recompressed: a baseline
/// JPEG, gray or RGB, with 8 bits for each component, that is not too large to
/// decode.
pub open spec fn qualified_image(stream: PdfStreamValue) -> Option<(JpegColor, u16, u16)> {
    let color = if name_at(stream.dict, "ColorSpace"@) == Some(utf8("DeviceGray"@)) {
        Some(JpegColor::Gray)
    } else if name_at(stream.dict, "ColorSpace"@) == Some(utf8("DeviceRGB"@)) {
        Some(JpegColor::Rgb)
    } else {
        None
    };
    if name_at(stream.dict, "Subtype"@) != Some(utf8("Image"@)) || name_at(
        stream.dict,
        "Filter"@,
    ) != Some(utf8("DCTDecode"@)) || !is_baseline(stream.content) || integer_at(
        stream.dict,
        "BitsPerComponent"@,
    ) != Some(8i64) {
        None
    } else {
        match (
            color,
            declared_length(stream.dict, "Width"@),
            declared_length(stream.dict, "Height"@),
        ) {
            (Some(color), Some(width), Some(height)) => if width == 0 || height == 0 || width
                * height > MAX_DECODED_PIXELS {
                None
            } else {
                Some((color, width, height))
            },
            _ => None,
        }
    }
}

fn find_length(stream: &PdfStream, key: &str) -> (length: Option<u16>)
    ensures
        length == declared_length(stream@.dict, key@),
{
    match stream.dict.integer(key) {
        Some(length) => {
            if 0 <= length && length <= u16::MAX as i64 {
                Some(length as u16)
            } else {
                None
            }
        },
        None => None,
    }
}

/// The colours and the size of an image that may be recompressed.
pub fn qualify_image(stream: &PdfStream) -> (qualified: Option<(JpegColor, u16, u16)>)
    ensures
        qualified == qualified_image(stream@),
{
    if !stream.dict.name_is("Subtype", "Image") || !stream.dict.name_is("Filter", "DCTDecode")
        || !is_baseline_jpeg(&stream.content) {
        return None;
    }
    let color = if stream.dict.name_is("ColorSpace", "DeviceGray") {
        JpegColor::Gray
    } else if stream.dict.name_is("ColorSpace", "DeviceRGB") {
        JpegColor::Rgb
    } else {
        return None;
    };
    match stream.dict.integer("BitsPerComponent") {
        Some(bits) => {
            if bits != 8 {
                return None;
            }
        },
        None => {
            return None;
        },
    }
    match (find_length(stream, "Width"), find_length(stream, "Height")) {
        (Some(width), Some(height)) => {
            assert(width * height <= u16::MAX * u16::MAX) by (nonlinear_arith)
                requires
                    width <= u16::MAX,
                    height <= u16::MAX,
            ;
            if width == 0 || height == 0 || width as u64 * height as u64 > MAX_DECODED_PIXELS {
                None
            } else {
                Some((color, width, height))
            }
        },
        _ => None,
    }
}

/// Decoded pixels that are what the stream declares.
pub open spec fn expected_pixels(
    decoded: Option<(Seq<u8>, u16, u16)>,
    color: JpegColor,
    width: u16,
    height: u16,
) -> Option<Seq<u8>> {
    match decoded {
        Some((pixels, found_width, found_height)) => if found_width == width && found_height
            == height && pixels.len() == width * height * color.channels() {
            Some(pixels)
        } else {
            None
        },
        None => None,
    }
}

/// Decoded pixels that are what the stream declares.
pub fn accept_pixels(
    decoded: Option<(Vec<u8>, u16, u16)>,
    color: JpegColor,
    width: u16,
    height: u16,
) -> (pixels: Option<Vec<u8>>)
    requires
        width * height <= MAX_DECODED_PIXELS,
    ensures
        match pixels {
            Some(pixels) => expected_pixels(pixels_value(decoded), color, width, height) == Some(
                pixels@,
            ),
            None => expected_pixels(pixels_value(decoded), color, width, height) is None,
        },
{
    match decoded {
        Some((pixels, found_width, found_height)) => {
            let count: u64 = width as u64 * height as u64;
            let expected: u64 = match color {
                JpegColor::Gray => count,
                JpegColor::Rgb => count * 3,
            };
            if found_width == width && found_height == height && pixels.len() as u64 == expected {
                Some(pixels)
            } else {
                None
            }
        },
        None => None,
    }
}

/// An image decoded and encoded again, when it qualifies.
pub open spec fn reencoded_image(stream: PdfStreamValue, quality: u8) -> Option<Seq<u8>> {
    match qualified_image(stream) {
        Some((color, width, height)) => match expected_pixels(
            jpeg_pixels(stream.content, color),
            color,
            width,
            height,
        ) {
            Some(pixels) => match jpeg_file(pixels, width, height, color, quality, None) {
                Ok(encoded) => Some(encoded),
                Err(_) => None,
            },
            None => None,
        },
        None => None,
    }
}

/// Decode and re-encode one qualified image. Any unsupported or inconsistent
/// image gives `None`, so its original stream remains untouched. Pixel dimensions
/// are never changed.
pub fn reencode_dct_image(stream: &PdfStream, quality: u8) -> (encoded: Option<
    (Vec<u8>, u16, u16),
>)
    ensures
        match encoded {
            Some((encoded, width, height)) => reencoded_image(stream@, quality) == Some(encoded@)
                && (qualified_image(stream@) matches Some((_, w, h)) && w == width && h == height),
            None => reencoded_image(stream@, quality) is None,
        },
{
    match qualify_image(stream) {
        Some((color, width, height)) => {
            match accept_pixels(decode_jpeg(&stream.content, color), color, width, height) {
                Some(pixels) => match write_jpeg(&pixels, width, height, color, quality, None) {
                    Ok(encoded) => Some((encoded, width, height)),
                    Err(_) => None,
                },
                None => None,
            }
        },
        None => None,
    }
}

/// A stream with its image recompressed, when that makes it smaller.
pub open spec fn lighter_stream(stream: PdfStreamValue, quality: u8) -> PdfStreamValue {
    match (reencoded_image(stream, quality), qualified_image(stream)) {
        (Some(encoded), Some((_, width, height))) => if encoded.len() < stream.content.len() {
            PdfStreamValue {
                dict: dict_set(
                    dict_set(
                        dict_remove(
                            dict_set(
                                stream.dict,
                                utf8("Length"@),
                                PdfValue::Integer(encoded.len() as i64),
                            ),
                            utf8("DecodeParms"@),
                        ),
                        utf8("Width"@),
                        PdfValue::Integer(width as i64),
                    ),
                    utf8("Height"@),
                    PdfValue::Integer(height as i64),
                ),
                content: encoded,
                ..stream
            }
        } else {
            stream
        },
        _ => stream,
    }
}

fn lighten_stream(stream: &mut PdfStream, quality: u8)
    ensures
        final(stream)@ == lighter_stream(old(stream)@, quality),
{
    match reencode_dct_image(stream, quality) {
        Some((encoded, width, height)) => {
            if encoded.len() < stream.content.len() {
                stream.dict.set("Length", PdfObject::Integer(encoded.len() as i64));
                stream.content = encoded;
                stream.dict.remove("DecodeParms");
                stream.dict.set("Width", PdfObject::Integer(width as i64));
                stream.dict.set("Height", PdfObject::Integer(height as i64));
            }
        },
        None => {},
    }
}

/// An object with its image recompressed and without its `/Metadata`.
pub open spec fn lighter_value(value: PdfValue, quality: u8) -> PdfValue {
    match value {
        PdfValue::Stream(stream) => {
            let light = lighter_stream(stream, quality);
            PdfValue::Stream(
                PdfStreamValue { dict: dict_remove(light.dict, utf8("Metadata"@)), ..light },
            )
        },
        PdfValue::Dictionary(entries) => PdfValue::Dictionary(
            dict_remove(entries, utf8("Metadata"@)),
        ),
        _ => value,
    }
}

fn lighten_object(object: PdfObject, quality: u8) -> (light: PdfObject)
    ensures
        light@ == lighter_value(object@, quality),
{
    match object {
        PdfObject::Stream(stream) => {
            let mut stream = stream;
            lighten_stream(&mut stream, quality);
            stream.dict.remove("Metadata");
            PdfObject::Stream(stream)
        },
        PdfObject::Dictionary(dictionary) => {
            let mut dictionary = dictionary;
            dictionary.remove("Metadata");
            PdfObject::Dictionary(dictionary)
        },
        other => other,
    }
}

/// The object table with every image recompressed and without `/Metadata`.
pub open spec fn lighter_table(objects: Seq<(PdfId, PdfValue)>, quality: u8) -> Seq<
    (PdfId, PdfValue),
> {
    objects.map_values(|entry: (PdfId, PdfValue)| (entry.0, lighter_value(entry.1, quality)))
}

fn lighten_table(objects: Vec<(PdfId, PdfObject)>, quality: u8) -> (light: Vec<
    (PdfId, PdfObject),
>)
    ensures
        table_value(light@) == lighter_table(table_value(objects@), quality),
{
    let ghost expected = lighter_table(table_value(objects@), quality);
    let mut light: Vec<(PdfId, PdfObject)> = Vec::new();
    let mut i: usize = 0;
    while i < objects.len()
        invariant
            i <= objects@.len(),
            light@.len() == i,
            expected == lighter_table(table_value(objects@), quality),
            forall|j: int|
                0 <= j < i ==> ((#[trigger] light@[j]).0, light@[j].1@) == expected[j],
        decreases objects.len() - i,
    {
        let entry = &objects[i];
        assert(table_value(objects@)[i as int] == (entry.0, entry.1@));
        light.push((entry.0, lighten_object(copy_object(&entry.1), quality)));
        i += 1;
    }
    assert(table_value(light@) =~= expected);
    light
}

/// A document made smaller: images recompressed, metadata removed, what nothing
/// refers to left out, and streams deflated.
pub open spec fn lighter_document(document: PdfDocumentValue, quality: u8) -> PdfDocumentValue {
    deflated_pdf(
        pruned_pdf(
            PdfDocumentValue {
                trailer: dict_remove(
                    dict_remove(document.trailer, utf8("Info"@)),
                    utf8("Metadata"@),
                ),
                objects: lighter_table(document.objects, quality),
                ..document
            },
        ),
    )
}

/// Make a document smaller.
pub fn lighten_document(document: PdfDocument, quality: u8) -> (light: PdfDocument)
    ensures
        light@ == lighter_document(document@, quality),
{
    let mut document = document;
    document.trailer.remove("Info");
    document.trailer.remove("Metadata");
    let mut objects: Vec<(PdfId, PdfObject)> = Vec::new();
    std::mem::swap(&mut objects, &mut document.objects);
    document.objects = lighten_table(objects, quality);
    deflate_streams(&prune(document))
}

/// Whether some object has a `/Metadata` entry.
pub open spec fn some_link_metadata(objects: Seq<(PdfId, PdfValue)>) -> bool {
    exists|i: int| 0 <= i < objects.len() && links_metadata((#[trigger] objects[i]).1)
}

/// Whether a document carries metadata that compression removes.
pub open spec fn carries_metadata(document: PdfDocumentValue) -> bool {
    dict_has(document.trailer, utf8("Info"@)) || dict_has(document.trailer, utf8("Metadata"@))
        || some_link_metadata(document.objects)
}

/// Whether a document carries metadata that compression removes.
pub fn has_metadata(document: &PdfDocument) -> (found: bool)
    ensures
        found == carries_metadata(document@),
{
    if document.trailer.has("Info") || document.trailer.has("Metadata") {
        return true;
    }
    let mut i: usize = 0;
    while i < document.objects.len()
        invariant
            i <= document.objects@.len(),
            !dict_has(document@.trailer, utf8("Info"@)),
            !dict_has(document@.trailer, utf8("Metadata"@)),
            forall|j: int| 0 <= j < i ==> !links_metadata((#[trigger] document@.objects[j]).1),
        decreases document.objects.len() - i,
    {
        if let Some(dictionary) = object_dictionary(&document.objects[i].1) {
            if dictionary.has("Metadata") {
                assert(links_metadata(document@.objects[i as int].1));
                return true;
            }
        }
        i += 1;
    }
    false
}

/// That the input was handed back.
pub open spec fn unchanged_notice(had_metadata: bool) -> NoticeValue {
    notice(
        "pdf-returned-unchanged"@,
        if had_metadata {
            "No size reduction was possible, so your original PDF was returned exactly as it was. Its metadata was NOT removed."@
        } else {
            "No size reduction was possible, so your original PDF was returned exactly as it was."@
        },
    )
}

/// That metadata was removed.
pub open spec fn removed_notice() -> NoticeValue {
    notice(
        "pdf-metadata-removed"@,
        "Document metadata (title, author, producer, and XMP records) was removed from the compressed PDF."@,
    )
}

/// The compressed file when it is smaller, loads, and has as many pages; else the
/// input. Each comes with what has to be said about it.
pub open spec fn smaller_pdf(
    bytes: Seq<u8>,
    compressed: Seq<u8>,
    found_pages: Option<nat>,
    pages: nat,
    had_metadata: bool,
) -> (Seq<u8>, Seq<NoticeValue>) {
    if compressed.len() < bytes.len() && found_pages == Some(pages) {
        (
            compressed,
            if had_metadata {
                seq![removed_notice()]
            } else {
                Seq::empty()
            },
        )
    } else {
        (bytes, seq![unchanged_notice(had_metadata)])
    }
}

/// A count by its value.
pub open spec fn optional_count(count: Option<usize>) -> Option<nat> {
    match count {
        Some(count) => Some(count as nat),
        None => None,
    }
}

/// Pick the compressed file when it is smaller, loads, and has as many pages.
pub fn pick_smaller_pdf(
    bytes: &[u8],
    compressed: Vec<u8>,
    found_pages: Option<usize>,
    pages: usize,
    had_metadata: bool,
) -> (picked: (Vec<u8>, Vec<Notice>))
    ensures
        (picked.0@, notice_values(picked.1@)) == smaller_pdf(
            bytes@,
            compressed@,
            optional_count(found_pages),
            pages as nat,
            had_metadata,
        ),
{
    let mut notices: Vec<Notice> = Vec::new();
    assert(notice_values(notices@) =~= Seq::<NoticeValue>::empty());
    let same_pages = match found_pages {
        Some(found) => found == pages,
        None => false,
    };
    if compressed.len() < bytes.len() && same_pages {
        if had_metadata {
            push_notice(
                &mut notices,
                Notice::new(
                    "pdf-metadata-removed",
                    "Document metadata (title, author, producer, and XMP records) was removed from the compressed PDF.",
                ),
            );
            assert(notice_values(notices@) =~= seq![removed_notice()]);
        }
        return (compressed, notices);
    }
    push_notice(
        &mut notices,
        Notice::new(
            "pdf-returned-unchanged",
            if had_metadata {
                "No size reduction was possible, so your original PDF was returned exactly as it was. Its metadata was NOT removed."
            } else {
                "No size reduction was possible, so your original PDF was returned exactly as it was."
            },
        ),
    );
    assert(notice_values(notices@) =~= seq![unchanged_notice(had_metadata)]);
    (copy_bytes(bytes), notices)
}

/// How many pages a file has, when it loads.
pub open spec fn loaded_pages(bytes: Seq<u8>) -> Option<nat> {
    match loaded_pdf(bytes) {
        Ok(document) => Some(page_ids(document).len()),
        Err(_) => None,
    }
}

/// A PDF file made smaller.
pub open spec fn compressed_pdf(bytes: Seq<u8>, quality: u8) -> Result<
    (Seq<u8>, Seq<NoticeValue>),
    Seq<char>,
> {
    match loaded_pdf(bytes) {
        Err(error) => Err(error),
        Ok(document) => match written_pdf(lighter_document(document, clamped(quality))) {
            Err(error) => Err("Could not create the compressed PDF: "@ + error),
            Ok(compressed) => Ok(
                smaller_pdf(
                    bytes,
                    compressed,
                    loaded_pages(compressed),
                    page_ids(document).len(),
                    carries_metadata(document),
                ),
            ),
        },
    }
}

/// Recompress qualified baseline-JPEG images, remove nonessential metadata,
/// compress otherwise-unfiltered streams, and serialize. A no-growth fallback
/// guarantees that a successful result is never larger.
pub fn compress(bytes: &[u8], quality: u8) -> (result: Result<(Vec<u8>, Vec<Notice>), String>)
    ensures
        told_outcome(result) == compressed_pdf(bytes@, quality),
{
    let document = match load_pdf(bytes) {
        Ok(document) => document,
        Err(error) => {
            return Err(error);
        },
    };
    let pages: usize = list_pages(&document).len();
    let had_metadata = has_metadata(&document);
    match write_pdf(&lighten_document(document, clamped_quality(quality))) {
        Err(error) => Err(joined("Could not create the compressed PDF: ", error.as_str())),
        Ok(compressed) => {
            let found_pages = match load_pdf(&compressed) {
                Ok(document) => Some(list_pages(&document).len()),
                Err(_) => None,
            };
            Ok(pick_smaller_pdf(bytes, compressed, found_pages, pages, had_metadata))
        },
    }
}

/// Reduce a PDF's size using only qualified, local codecs. Returns the bytes plus
/// a notice stating what actually happened to the file.
pub fn compress_pdf(bytes: &[u8], quality: u8) -> (result: Result<FileResult, String>)
    ensures
        outcome(result) == compressed_pdf(bytes@, quality),
{
    match compress(bytes, quality) {
        Ok((bytes, notices)) => Ok(FileResult::new(bytes, notices)),
        Err(error) => Err(error),
    }
}

/// Compressing never returns a larger file; when it does not return a smaller one
/// it returns the very input and says so.
pub proof fn compressing_never_grows(bytes: Seq<u8>, quality: u8)
    ensures
        match compressed_pdf(bytes, quality) {
            Ok((output, notices)) => (output.len() < bytes.len() && !has_code(
                notices,
                "pdf-returned-unchanged"@,
            )) || (output == bytes && has_code(notices, "pdf-returned-unchanged"@)),
            Err(_) => true,
        },
{
    if let Ok((output, notices)) = compressed_pdf(bytes, quality) {
        reveal_strlit("pdf-returned-unchanged");
        reveal_strlit("pdf-metadata-removed");
        assert("pdf-returned-unchanged"@.len() != "pdf-metadata-removed"@.len());
        if notices.len() > 0 {
            assert(notices[0].code == "pdf-returned-unchanged"@ || notices[0].code
                == "pdf-metadata-removed"@);
        }
    }
}

/// An image is never made larger than it was.
pub proof fn images_never_grow(stream: PdfStreamValue, quality: u8)
    ensures
        lighter_stream(stream, quality).content.len() <= stream.content.len(),
{
}

} // verus!
