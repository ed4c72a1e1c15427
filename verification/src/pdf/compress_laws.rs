//! What compression keeps of a document, and what it takes away.

use vstd::prelude::*;

use crate::bytes::{lemma_ascii, utf8};
use crate::images::model::{JpegColor, MAX_DECODED_PIXELS};
use crate::images::outside::{jpeg_file, jpeg_pixels};
use crate::metadata::jpeg::is_baseline;
use crate::metadata::pdf_report::links_metadata;
use crate::notices::has_code;
use crate::pdf::compress::{
    compressed_pdf, lighter_document, lighter_stream, lighter_table, lighter_value,
    qualified_image, some_link_metadata,
};
use crate::pdf::laws::{keys_distinct, removing_a_key, storing_a_value};
use crate::pdf::model::{
    dict_get, dict_has, dict_remove, dict_set, PdfDocumentValue, PdfId, PdfStreamValue, PdfValue,
};
use crate::pdf::outside::{deflated_pdf, page_ids, pruned_pdf, reachable};
use crate::pdf::pages::loaded_pdf;

verus! {

proof fn lemma_keys()
    ensures
        utf8("Metadata"@) != utf8("Length"@),
        utf8("Metadata"@) != utf8("DecodeParms"@),
        utf8("Metadata"@) != utf8("Width"@),
        utf8("Metadata"@) != utf8("Height"@),
        utf8("Length"@) != utf8("DecodeParms"@),
        utf8("Length"@) != utf8("Width"@),
        utf8("Length"@) != utf8("Height"@),
        utf8("DecodeParms"@) != utf8("Width"@),
        utf8("DecodeParms"@) != utf8("Height"@),
        utf8("Width"@) != utf8("Height"@),
{
    reveal_strlit("Metadata");
    reveal_strlit("Length");
    reveal_strlit("DecodeParms");
    reveal_strlit("Width");
    reveal_strlit("Height");
    lemma_ascii("Metadata");
    lemma_ascii("Length");
    lemma_ascii("DecodeParms");
    lemma_ascii("Width");
    lemma_ascii("Height");
    assert(utf8("Metadata"@).len() == 8);
    assert(utf8("Length"@).len() == 6);
    assert(utf8("DecodeParms"@).len() == 11);
    assert(utf8("Width"@).len() == 5);
    assert(utf8("Height"@).len() == 6);
    assert(utf8("Length"@)[0] == 0x4c);
    assert(utf8("Height"@)[0] == 0x48);
}

/// Compressing a dictionary takes its `/Metadata` away and changes no other entry: a page
/// keeps its contents, its resources, its boxes, its rotation and its annotations.
pub proof fn compressing_keeps_dictionary_entries(
    entries: Seq<(Seq<u8>, PdfValue)>,
    quality: u8,
    key: Seq<u8>,
)
    requires
        keys_distinct(entries),
    ensures
        lighter_value(PdfValue::Dictionary(entries), quality) matches PdfValue::Dictionary(light)
            && dict_get(light, key) == (if key == utf8("Metadata"@) {
            None
        } else {
            dict_get(entries, key)
        }),
{
    removing_a_key(entries, utf8("Metadata"@), key);
}

/// Whether compressing a stream may write this entry anew: its metadata goes, and an image
/// that is written anew has another length, no parameters for its filter, and says its size
/// again.
pub open spec fn is_rewritten(key: Seq<u8>) -> bool {
    ||| key == utf8("Metadata"@)
    ||| key == utf8("Length"@)
    ||| key == utf8("DecodeParms"@)
    ||| key == utf8("Width"@)
    ||| key == utf8("Height"@)
}

/// Compressing a stream keeps every entry that has nothing to do with how its bytes are
/// written, and takes its `/Metadata` away. Its bytes stay as they are or become fewer, and
/// where they stay its length and the parameters of its filter do. An image keeps its width
/// and its height in any case.
pub proof fn compressing_keeps_stream_entries(stream: PdfStreamValue, quality: u8, key: Seq<u8>)
    requires
        keys_distinct(stream.dict),
    ensures
        lighter_value(PdfValue::Stream(stream), quality) matches PdfValue::Stream(light) && {
            &&& !dict_has(light.dict, utf8("Metadata"@))
            &&& !is_rewritten(key) ==> dict_get(light.dict, key) == dict_get(stream.dict, key)
            &&& light.content == stream.content && (key != utf8("Metadata"@) ==> dict_get(
                light.dict,
                key,
            ) == dict_get(stream.dict, key)) || light.content.len() < stream.content.len()
                && dict_get(light.dict, utf8("Length"@)) == Some(
                PdfValue::Integer(light.content.len() as i64),
            ) && !dict_has(light.dict, utf8("DecodeParms"@))
            &&& dict_get(light.dict, utf8("Width"@)) == dict_get(stream.dict, utf8("Width"@))
            &&& dict_get(light.dict, utf8("Height"@)) == dict_get(stream.dict, utf8("Height"@))
            &&& light.allows_compression == stream.allows_compression
        },
{
    lemma_keys();
    let light = lighter_stream(stream, quality);
    if light != stream {
        let length = PdfValue::Integer(light.content.len() as i64);
        let a = dict_set(stream.dict, utf8("Length"@), length);
        let b = dict_remove(a, utf8("DecodeParms"@));
        let width = dict_get(stream.dict, utf8("Width"@))->0;
        let c = dict_set(b, utf8("Width"@), width);
        let height = dict_get(stream.dict, utf8("Height"@))->0;
        assert(light.dict == dict_set(c, utf8("Height"@), height));
        lemma_four_steps(stream.dict, length, width, height, key);
        lemma_four_steps(stream.dict, length, width, height, utf8("Length"@));
        lemma_four_steps(stream.dict, length, width, height, utf8("DecodeParms"@));
        lemma_four_steps(stream.dict, length, width, height, utf8("Width"@));
        lemma_four_steps(stream.dict, length, width, height, utf8("Height"@));
    }
    removing_a_key(light.dict, utf8("Metadata"@), key);
    removing_a_key(light.dict, utf8("Metadata"@), utf8("Length"@));
    removing_a_key(light.dict, utf8("Metadata"@), utf8("DecodeParms"@));
    removing_a_key(light.dict, utf8("Metadata"@), utf8("Width"@));
    removing_a_key(light.dict, utf8("Metadata"@), utf8("Height"@));
}

proof fn lemma_four_steps(
    dict: Seq<(Seq<u8>, PdfValue)>,
    length: PdfValue,
    width: PdfValue,
    height: PdfValue,
    key: Seq<u8>,
)
    requires
        keys_distinct(dict),
    ensures
        ({
            let a = dict_set(dict, utf8("Length"@), length);
            let b = dict_remove(a, utf8("DecodeParms"@));
            let c = dict_set(b, utf8("Width"@), width);
            let d = dict_set(c, utf8("Height"@), height);
            &&& keys_distinct(d)
            &&& dict_get(d, key) == (if key == utf8("Height"@) {
                Some(height)
            } else if key == utf8("Width"@) {
                Some(width)
            } else if key == utf8("DecodeParms"@) {
                None
            } else if key == utf8("Length"@) {
                Some(length)
            } else {
                dict_get(dict, key)
            })
        }),
{
    lemma_keys();
    let a = dict_set(dict, utf8("Length"@), length);
    let b = dict_remove(a, utf8("DecodeParms"@));
    let c = dict_set(b, utf8("Width"@), width);
    storing_a_value(dict, utf8("Length"@), length, key);
    removing_a_key(a, utf8("DecodeParms"@), key);
    storing_a_value(b, utf8("Width"@), width, key);
    storing_a_value(c, utf8("Height"@), height, key);
}

/// Compression leaves every other object as it is, and no object gets another number.
pub proof fn compressing_keeps_every_object(
    objects: Seq<(PdfId, PdfValue)>,
    quality: u8,
    i: int,
)
    requires
        0 <= i < objects.len(),
    ensures
        lighter_table(objects, quality).len() == objects.len(),
        lighter_table(objects, quality)[i].0 == objects[i].0,
        lighter_table(objects, quality)[i].1 == lighter_value(objects[i].1, quality),
        !(objects[i].1 is Dictionary) && !(objects[i].1 is Stream) ==> lighter_table(
            objects,
            quality,
        )[i] == objects[i],
        objects[i].1 is Dictionary ==> lighter_table(objects, quality)[i].1 is Dictionary,
        objects[i].1 is Stream ==> lighter_table(objects, quality)[i].1 is Stream,
{
}

/// Whether a document is another one without its metadata: the same version, the same trailer
/// but for `/Info` and `/Metadata`, and the same objects, each made lighter by itself.
pub open spec fn is_lightened(
    document: PdfDocumentValue,
    quality: u8,
    light: PdfDocumentValue,
) -> bool {
    &&& light.version == document.version
    &&& light.max_id == document.max_id
    &&& !dict_has(light.trailer, utf8("Info"@))
    &&& !dict_has(light.trailer, utf8("Metadata"@))
    &&& forall|key: Seq<u8>|
        key != utf8("Info"@) && key != utf8("Metadata"@) ==> #[trigger] dict_get(light.trailer, key)
            == dict_get(document.trailer, key)
    &&& light.objects.len() == document.objects.len()
    &&& forall|i: int|
        0 <= i < document.objects.len() ==> (#[trigger] light.objects[i]).0
            == document.objects[i].0 && light.objects[i].1 == lighter_value(
            document.objects[i].1,
            quality,
        )
}

/// Compressing a document takes away its metadata, makes each object lighter by itself, and
/// then leaves out what nothing leads to.
pub proof fn compressing_keeps_the_document(document: PdfDocumentValue, quality: u8)
    requires
        keys_distinct(document.trailer),
    ensures
        exists|light: PdfDocumentValue| #[trigger]
            is_lightened(document, quality, light) && lighter_document(document, quality)
                == deflated_pdf(pruned_pdf(light)),
{
    let first = dict_remove(document.trailer, utf8("Info"@));
    let second = dict_remove(first, utf8("Metadata"@));
    let light = PdfDocumentValue {
        trailer: second,
        objects: lighter_table(document.objects, quality),
        ..document
    };
    removing_a_key(document.trailer, utf8("Info"@), utf8("Info"@));
    removing_a_key(first, utf8("Metadata"@), utf8("Info"@));
    lemma_info();
    assert forall|key: Seq<u8>|
        key != utf8("Info"@) && key != utf8("Metadata"@) implies #[trigger] dict_get(
        light.trailer,
        key,
    ) == dict_get(document.trailer, key) by {
        removing_a_key(document.trailer, utf8("Info"@), key);
        removing_a_key(first, utf8("Metadata"@), key);
    }
    assert(is_lightened(document, quality, light));
}

proof fn lemma_info()
    ensures
        utf8("Info"@) != utf8("Metadata"@),
{
    reveal_strlit("Info");
    reveal_strlit("Metadata");
    lemma_ascii("Info");
    lemma_ascii("Metadata");
    assert(utf8("Info"@).len() == 4);
    assert(utf8("Metadata"@).len() == 8);
}

/// Leaving out what nothing leads to keeps every object to which references lead from the
/// trailer, as it is, and drops every other one.
pub proof fn pruning_keeps_what_is_reachable(
    document: PdfDocumentValue,
    entry: (PdfId, PdfValue),
)
    ensures
        pruned_pdf(document).objects.contains(entry) <==> document.objects.contains(entry)
            && reachable(document, entry.0),
        pruned_pdf(document).trailer == document.trailer,
        pruned_pdf(document).version == document.version,
{
    let keep = |entry: (PdfId, PdfValue)| reachable(document, entry.0);
    let left = document.objects.filter(keep);
    broadcast use vstd::seq_lib::group_filter_ensures;

    if document.objects.contains(entry) && keep(entry) {
        let k = choose|k: int| 0 <= k < document.objects.len() && document.objects[k] == entry;
        document.objects.lemma_filter_contains(keep, k);
    }
    if left.contains(entry) {
        document.objects.lemma_filter_contains_rev(keep, entry);
    }
}

/// Whether an image stream says that it is a JPEG of these colours and this size.
pub open spec fn declares_jpeg(
    stream: PdfStreamValue,
    space: Seq<char>,
    width: u16,
    height: u16,
) -> bool {
    &&& dict_get(stream.dict, utf8("Subtype"@)) == Some(PdfValue::Name(utf8("Image"@)))
    &&& dict_get(stream.dict, utf8("Filter"@)) == Some(PdfValue::Name(utf8("DCTDecode"@)))
    &&& dict_get(stream.dict, utf8("ColorSpace"@)) == Some(PdfValue::Name(utf8(space)))
    &&& dict_get(stream.dict, utf8("BitsPerComponent"@)) == Some(PdfValue::Integer(8))
    &&& dict_get(stream.dict, utf8("Width"@)) == Some(PdfValue::Integer(width as i64))
    &&& dict_get(stream.dict, utf8("Height"@)) == Some(PdfValue::Integer(height as i64))
}

proof fn lemma_spaces_differ()
    ensures
        utf8("DeviceGray"@) != utf8("DeviceRGB"@),
{
    reveal_strlit("DeviceGray");
    reveal_strlit("DeviceRGB");
    lemma_ascii("DeviceGray");
    lemma_ascii("DeviceRGB");
    assert(utf8("DeviceGray"@).len() == 10);
    assert(utf8("DeviceRGB"@).len() == 9);
}

/// A baseline JPEG image in gray or RGB is decoded and written again at the quality that was
/// asked for, and takes the place of the old one exactly where it is smaller. The picture that
/// is written is the one that was decoded, at its own size.
pub proof fn qualified_image_is_written_again(
    stream: PdfStreamValue,
    quality: u8,
    gray: bool,
    width: u16,
    height: u16,
    pixels: Seq<u8>,
)
    requires
        declares_jpeg(
            stream,
            if gray {
                "DeviceGray"@
            } else {
                "DeviceRGB"@
            },
            width,
            height,
        ),
        is_baseline(stream.content),
        0 < width && 0 < height && width * height <= MAX_DECODED_PIXELS,
        jpeg_pixels(
            stream.content,
            if gray {
                JpegColor::Gray
            } else {
                JpegColor::Rgb
            },
        ) == Some((pixels, width, height)),
        pixels.len() == width * height * (if gray {
            1int
        } else {
            3
        }),
    ensures
        match jpeg_file(
            pixels,
            width,
            height,
            if gray {
                JpegColor::Gray
            } else {
                JpegColor::Rgb
            },
            quality,
            None,
        ) {
            Ok(encoded) => lighter_stream(stream, quality).content == if encoded.len()
                < stream.content.len() {
                encoded
            } else {
                stream.content
            },
            Err(_) => lighter_stream(stream, quality) == stream,
        },
{
    lemma_spaces_differ();
    assert(pixels.len() == width * height * 1 || pixels.len() == width * height * 3);
}

/// Whether these bytes are the picture of a stream, as it says of it, written at a quality.
pub open spec fn is_written_again(
    stream: PdfStreamValue,
    quality: u8,
    gray: bool,
    width: u16,
    height: u16,
    pixels: Seq<u8>,
    encoded: Seq<u8>,
) -> bool {
    let color = if gray {
        JpegColor::Gray
    } else {
        JpegColor::Rgb
    };
    let space = if gray {
        "DeviceGray"@
    } else {
        "DeviceRGB"@
    };
    &&& declares_jpeg(stream, space, width, height)
    &&& jpeg_pixels(stream.content, color) == Some((pixels, width, height))
    &&& jpeg_file(pixels, width, height, color, quality, None) == Ok::<Seq<u8>, Seq<char>>(encoded)
}

/// A stream is left as it is unless it is a JPEG image, and what takes its place is the
/// picture that it holds, in the colours and the size that it says.
pub proof fn only_declared_pictures_are_written_again(stream: PdfStreamValue, quality: u8)
    requires
        lighter_stream(stream, quality) != stream,
    ensures
        exists|gray: bool, width: u16, height: u16, pixels: Seq<u8>| #[trigger]
            is_written_again(
                stream,
                quality,
                gray,
                width,
                height,
                pixels,
                lighter_stream(stream, quality).content,
            ),
        is_baseline(stream.content),
{
    let (color, width, height) = qualified_image(stream)->0;
    let (pixels, w, h) = jpeg_pixels(stream.content, color)->0;
    let gray = color == JpegColor::Gray;
    let space = if gray {
        "DeviceGray"@
    } else {
        "DeviceRGB"@
    };
    assert(declares_jpeg(stream, space, width, height));
    assert(is_written_again(
        stream,
        quality,
        gray,
        width,
        height,
        pixels,
        lighter_stream(stream, quality).content,
    ));
}

/// What compression hands back is the input, or a file with as many pages. It says that
/// metadata was removed exactly where the new file is handed back and the document had some.
pub proof fn compressing_tells_what_it_did(bytes: Seq<u8>, quality: u8)
    ensures
        match (loaded_pdf(bytes), compressed_pdf(bytes, quality)) {
            (Ok(document), Ok((output, notices))) => {
                let has_some = dict_has(document.trailer, utf8("Info"@)) || dict_has(
                    document.trailer,
                    utf8("Metadata"@),
                ) || exists|i: int| 0 <= i < document.objects.len() && holds_metadata(
                    (#[trigger] document.objects[i]).1,
                );
                &&& output == bytes || (loaded_pdf(output) matches Ok(light) && page_ids(
                    light,
                ).len() == page_ids(document).len())
                &&& output != bytes ==> has_code(notices, "pdf-metadata-removed"@) == has_some
                &&& output == bytes ==> !has_code(notices, "pdf-metadata-removed"@)
            },
            (Err(error), Err(told)) => told == error,
            (Ok(document), Err(told)) => true,
            (Err(_), Ok(_)) => false,
        },
{
    if let (Ok(document), Ok((output, notices))) = (
        loaded_pdf(bytes),
        compressed_pdf(bytes, quality),
    ) {
        reveal_strlit("pdf-returned-unchanged");
        reveal_strlit("pdf-metadata-removed");
        assert("pdf-returned-unchanged"@.len() != "pdf-metadata-removed"@.len());
        if notices.len() > 0 {
            assert(notices[0].code == "pdf-returned-unchanged"@ || notices[0].code
                == "pdf-metadata-removed"@);
        }
        assert(some_link_metadata(document.objects) == exists|i: int|
            0 <= i < document.objects.len() && holds_metadata((#[trigger] document.objects[i]).1))
            by {
            if some_link_metadata(document.objects) {
                let i = choose|i: int|
                    0 <= i < document.objects.len() && links_metadata(
                        (#[trigger] document.objects[i]).1,
                    );
                assert(holds_metadata(document.objects[i].1));
            }
            if exists|i: int|
                0 <= i < document.objects.len() && holds_metadata(
                    (#[trigger] document.objects[i]).1,
                ) {
                let i = choose|i: int|
                    0 <= i < document.objects.len() && holds_metadata(
                        (#[trigger] document.objects[i]).1,
                    );
                assert(links_metadata(document.objects[i].1));
            }
        }
    }
}

/// Whether a dictionary or a stream has a `/Metadata` entry.
pub open spec fn holds_metadata(value: PdfValue) -> bool {
    match value {
        PdfValue::Dictionary(entries) => dict_get(entries, utf8("Metadata"@)) is Some,
        PdfValue::Stream(stream) => dict_get(stream.dict, utf8("Metadata"@)) is Some,
        _ => false,
    }
}

} // verus!
