//! What a PDF of images shows.

use vstd::prelude::*;

use crate::bytes::{lemma_ascii, utf8};
use crate::images::decode::{frame_limit, guarded_size};
use crate::images::encode::flattened;
use crate::images::model::{rgba8, PictureValue};
use crate::images::pdf::{
    accepted_input, decoded_image, drawing, image_catalog, image_object, image_pages,
    images_document, media_box, name_value, page_mode, page_numbers, page_object, page_objects,
    passed_through, prepared_from, prepared_image, total_length, GeometryValue, PageMode,
    PreparedValue, MAX_IMAGES,
};
use crate::inflate::zlib_best;
use crate::metadata::jpeg::sof0_of;
use crate::metadata::jpeg_check::{cleared_jpeg_is_bare, jpeg_image_data};
use crate::pdf::laws::storing_a_value;
use crate::pdf::merge::{page_tree, references};
use crate::pdf::model::{dict_get, dict_set, object_of, PdfId, PdfValue};
use crate::pdf::page_laws::lemma_first;
use crate::pdf::rearrange_laws::root_of;

verus! {

proof fn lemma_image_keys()
    ensures
        utf8("Type"@) != utf8("Subtype"@),
        utf8("Type"@) != utf8("Width"@),
        utf8("Type"@) != utf8("Height"@),
        utf8("Type"@) != utf8("ColorSpace"@),
        utf8("Type"@) != utf8("BitsPerComponent"@),
        utf8("Type"@) != utf8("Filter"@),
        utf8("Type"@) != utf8("Length"@),
        utf8("Type"@) != utf8("Parent"@),
        utf8("Type"@) != utf8("MediaBox"@),
        utf8("Type"@) != utf8("Resources"@),
        utf8("Type"@) != utf8("Contents"@),
        utf8("Type"@) != utf8("Kids"@),
        utf8("Type"@) != utf8("Count"@),
        utf8("Type"@) != utf8("Pages"@),
        utf8("Subtype"@) != utf8("Width"@),
        utf8("Subtype"@) != utf8("Height"@),
        utf8("Subtype"@) != utf8("ColorSpace"@),
        utf8("Subtype"@) != utf8("BitsPerComponent"@),
        utf8("Subtype"@) != utf8("Filter"@),
        utf8("Subtype"@) != utf8("Length"@),
        utf8("Subtype"@) != utf8("Parent"@),
        utf8("Subtype"@) != utf8("MediaBox"@),
        utf8("Subtype"@) != utf8("Resources"@),
        utf8("Subtype"@) != utf8("Contents"@),
        utf8("Subtype"@) != utf8("Kids"@),
        utf8("Subtype"@) != utf8("Count"@),
        utf8("Subtype"@) != utf8("Pages"@),
        utf8("Width"@) != utf8("Height"@),
        utf8("Width"@) != utf8("ColorSpace"@),
        utf8("Width"@) != utf8("BitsPerComponent"@),
        utf8("Width"@) != utf8("Filter"@),
        utf8("Width"@) != utf8("Length"@),
        utf8("Width"@) != utf8("Parent"@),
        utf8("Width"@) != utf8("MediaBox"@),
        utf8("Width"@) != utf8("Resources"@),
        utf8("Width"@) != utf8("Contents"@),
        utf8("Width"@) != utf8("Kids"@),
        utf8("Width"@) != utf8("Count"@),
        utf8("Width"@) != utf8("Pages"@),
        utf8("Height"@) != utf8("ColorSpace"@),
        utf8("Height"@) != utf8("BitsPerComponent"@),
        utf8("Height"@) != utf8("Filter"@),
        utf8("Height"@) != utf8("Length"@),
        utf8("Height"@) != utf8("Parent"@),
        utf8("Height"@) != utf8("MediaBox"@),
        utf8("Height"@) != utf8("Resources"@),
        utf8("Height"@) != utf8("Contents"@),
        utf8("Height"@) != utf8("Kids"@),
        utf8("Height"@) != utf8("Count"@),
        utf8("Height"@) != utf8("Pages"@),
        utf8("ColorSpace"@) != utf8("BitsPerComponent"@),
        utf8("ColorSpace"@) != utf8("Filter"@),
        utf8("ColorSpace"@) != utf8("Length"@),
        utf8("ColorSpace"@) != utf8("Parent"@),
        utf8("ColorSpace"@) != utf8("MediaBox"@),
        utf8("ColorSpace"@) != utf8("Resources"@),
        utf8("ColorSpace"@) != utf8("Contents"@),
        utf8("ColorSpace"@) != utf8("Kids"@),
        utf8("ColorSpace"@) != utf8("Count"@),
        utf8("ColorSpace"@) != utf8("Pages"@),
        utf8("BitsPerComponent"@) != utf8("Filter"@),
        utf8("BitsPerComponent"@) != utf8("Length"@),
        utf8("BitsPerComponent"@) != utf8("Parent"@),
        utf8("BitsPerComponent"@) != utf8("MediaBox"@),
        utf8("BitsPerComponent"@) != utf8("Resources"@),
        utf8("BitsPerComponent"@) != utf8("Contents"@),
        utf8("BitsPerComponent"@) != utf8("Kids"@),
        utf8("BitsPerComponent"@) != utf8("Count"@),
        utf8("BitsPerComponent"@) != utf8("Pages"@),
        utf8("Filter"@) != utf8("Length"@),
        utf8("Filter"@) != utf8("Parent"@),
        utf8("Filter"@) != utf8("MediaBox"@),
        utf8("Filter"@) != utf8("Resources"@),
        utf8("Filter"@) != utf8("Contents"@),
        utf8("Filter"@) != utf8("Kids"@),
        utf8("Filter"@) != utf8("Count"@),
        utf8("Filter"@) != utf8("Pages"@),
        utf8("Length"@) != utf8("Parent"@),
        utf8("Length"@) != utf8("MediaBox"@),
        utf8("Length"@) != utf8("Resources"@),
        utf8("Length"@) != utf8("Contents"@),
        utf8("Length"@) != utf8("Kids"@),
        utf8("Length"@) != utf8("Count"@),
        utf8("Length"@) != utf8("Pages"@),
        utf8("Parent"@) != utf8("MediaBox"@),
        utf8("Parent"@) != utf8("Resources"@),
        utf8("Parent"@) != utf8("Contents"@),
        utf8("Parent"@) != utf8("Kids"@),
        utf8("Parent"@) != utf8("Count"@),
        utf8("Parent"@) != utf8("Pages"@),
        utf8("MediaBox"@) != utf8("Resources"@),
        utf8("MediaBox"@) != utf8("Contents"@),
        utf8("MediaBox"@) != utf8("Kids"@),
        utf8("MediaBox"@) != utf8("Count"@),
        utf8("MediaBox"@) != utf8("Pages"@),
        utf8("Resources"@) != utf8("Contents"@),
        utf8("Resources"@) != utf8("Kids"@),
        utf8("Resources"@) != utf8("Count"@),
        utf8("Resources"@) != utf8("Pages"@),
        utf8("Contents"@) != utf8("Kids"@),
        utf8("Contents"@) != utf8("Count"@),
        utf8("Contents"@) != utf8("Pages"@),
        utf8("Kids"@) != utf8("Count"@),
        utf8("Kids"@) != utf8("Pages"@),
        utf8("Count"@) != utf8("Pages"@),
{
    reveal_strlit("Type");
    reveal_strlit("Subtype");
    reveal_strlit("Width");
    reveal_strlit("Height");
    reveal_strlit("ColorSpace");
    reveal_strlit("BitsPerComponent");
    reveal_strlit("Filter");
    reveal_strlit("Length");
    reveal_strlit("Parent");
    reveal_strlit("MediaBox");
    reveal_strlit("Resources");
    reveal_strlit("Contents");
    reveal_strlit("Kids");
    reveal_strlit("Count");
    reveal_strlit("Pages");
    lemma_ascii("Type");
    lemma_ascii("Subtype");
    lemma_ascii("Width");
    lemma_ascii("Height");
    lemma_ascii("ColorSpace");
    lemma_ascii("BitsPerComponent");
    lemma_ascii("Filter");
    lemma_ascii("Length");
    lemma_ascii("Parent");
    lemma_ascii("MediaBox");
    lemma_ascii("Resources");
    lemma_ascii("Contents");
    lemma_ascii("Kids");
    lemma_ascii("Count");
    lemma_ascii("Pages");
    assert(utf8("Type"@).len() == 4);
    assert(utf8("Subtype"@).len() == 7);
    assert(utf8("Width"@).len() == 5);
    assert(utf8("Height"@).len() == 6);
    assert(utf8("ColorSpace"@).len() == 10);
    assert(utf8("BitsPerComponent"@).len() == 16);
    assert(utf8("Filter"@).len() == 6);
    assert(utf8("Length"@).len() == 6);
    assert(utf8("Parent"@).len() == 6);
    assert(utf8("MediaBox"@).len() == 8);
    assert(utf8("Resources"@).len() == 9);
    assert(utf8("Contents"@).len() == 8);
    assert(utf8("Kids"@).len() == 4);
    assert(utf8("Count"@).len() == 5);
    assert(utf8("Pages"@).len() == 5);
    assert(utf8("Contents"@)[0] == 0x43);
    assert(utf8("Count"@)[0] == 0x43);
    assert(utf8("Filter"@)[0] == 0x46);
    assert(utf8("Height"@)[0] == 0x48);
    assert(utf8("Kids"@)[0] == 0x4b);
    assert(utf8("Length"@)[0] == 0x4c);
    assert(utf8("MediaBox"@)[0] == 0x4d);
    assert(utf8("Pages"@)[0] == 0x50);
    assert(utf8("Parent"@)[0] == 0x50);
    assert(utf8("Type"@)[0] == 0x54);
    assert(utf8("Width"@)[0] == 0x57);
}

proof fn lemma_image_object(image: PreparedValue)
    ensures
        ({
            let built = image_object(image)->Stream_0.dict;
            &&& dict_get(built, utf8("Type"@)) == Some(name_value("XObject"@))
            &&& dict_get(built, utf8("Subtype"@)) == Some(name_value("Image"@))
            &&& dict_get(built, utf8("Width"@)) == Some(PdfValue::Integer(image.width as i64))
            &&& dict_get(built, utf8("Height"@)) == Some(PdfValue::Integer(image.height as i64))
            &&& dict_get(built, utf8("ColorSpace"@)) == Some(name_value(image.color_space))
            &&& dict_get(built, utf8("BitsPerComponent"@)) == Some(PdfValue::Integer(8))
            &&& dict_get(built, utf8("Filter"@)) == Some(name_value(image.filter))
            &&& dict_get(built, utf8("Length"@)) == Some(PdfValue::Integer(image.content.len() as i64))
        }),
{
    lemma_image_keys();
    let s0 = Seq::<(Seq<u8>, PdfValue)>::empty();
    let v0 = name_value("XObject"@);
    let s1 = dict_set(s0, utf8("Type"@), v0);
    let v1 = name_value("Image"@);
    let s2 = dict_set(s1, utf8("Subtype"@), v1);
    let v2 = PdfValue::Integer(image.width as i64);
    let s3 = dict_set(s2, utf8("Width"@), v2);
    let v3 = PdfValue::Integer(image.height as i64);
    let s4 = dict_set(s3, utf8("Height"@), v3);
    let v4 = name_value(image.color_space);
    let s5 = dict_set(s4, utf8("ColorSpace"@), v4);
    let v5 = PdfValue::Integer(8);
    let s6 = dict_set(s5, utf8("BitsPerComponent"@), v5);
    let v6 = name_value(image.filter);
    let s7 = dict_set(s6, utf8("Filter"@), v6);
    let v7 = PdfValue::Integer(image.content.len() as i64);
    let s8 = dict_set(s7, utf8("Length"@), v7);
    storing_a_value(s0, utf8("Type"@), v0, utf8("Type"@));
    storing_a_value(s1, utf8("Subtype"@), v1, utf8("Type"@));
    storing_a_value(s2, utf8("Width"@), v2, utf8("Type"@));
    storing_a_value(s3, utf8("Height"@), v3, utf8("Type"@));
    storing_a_value(s4, utf8("ColorSpace"@), v4, utf8("Type"@));
    storing_a_value(s5, utf8("BitsPerComponent"@), v5, utf8("Type"@));
    storing_a_value(s6, utf8("Filter"@), v6, utf8("Type"@));
    storing_a_value(s7, utf8("Length"@), v7, utf8("Type"@));
    storing_a_value(s1, utf8("Subtype"@), v1, utf8("Subtype"@));
    storing_a_value(s2, utf8("Width"@), v2, utf8("Subtype"@));
    storing_a_value(s3, utf8("Height"@), v3, utf8("Subtype"@));
    storing_a_value(s4, utf8("ColorSpace"@), v4, utf8("Subtype"@));
    storing_a_value(s5, utf8("BitsPerComponent"@), v5, utf8("Subtype"@));
    storing_a_value(s6, utf8("Filter"@), v6, utf8("Subtype"@));
    storing_a_value(s7, utf8("Length"@), v7, utf8("Subtype"@));
    storing_a_value(s2, utf8("Width"@), v2, utf8("Width"@));
    storing_a_value(s3, utf8("Height"@), v3, utf8("Width"@));
    storing_a_value(s4, utf8("ColorSpace"@), v4, utf8("Width"@));
    storing_a_value(s5, utf8("BitsPerComponent"@), v5, utf8("Width"@));
    storing_a_value(s6, utf8("Filter"@), v6, utf8("Width"@));
    storing_a_value(s7, utf8("Length"@), v7, utf8("Width"@));
    storing_a_value(s3, utf8("Height"@), v3, utf8("Height"@));
    storing_a_value(s4, utf8("ColorSpace"@), v4, utf8("Height"@));
    storing_a_value(s5, utf8("BitsPerComponent"@), v5, utf8("Height"@));
    storing_a_value(s6, utf8("Filter"@), v6, utf8("Height"@));
    storing_a_value(s7, utf8("Length"@), v7, utf8("Height"@));
    storing_a_value(s4, utf8("ColorSpace"@), v4, utf8("ColorSpace"@));
    storing_a_value(s5, utf8("BitsPerComponent"@), v5, utf8("ColorSpace"@));
    storing_a_value(s6, utf8("Filter"@), v6, utf8("ColorSpace"@));
    storing_a_value(s7, utf8("Length"@), v7, utf8("ColorSpace"@));
    storing_a_value(s5, utf8("BitsPerComponent"@), v5, utf8("BitsPerComponent"@));
    storing_a_value(s6, utf8("Filter"@), v6, utf8("BitsPerComponent"@));
    storing_a_value(s7, utf8("Length"@), v7, utf8("BitsPerComponent"@));
    storing_a_value(s6, utf8("Filter"@), v6, utf8("Filter"@));
    storing_a_value(s7, utf8("Length"@), v7, utf8("Filter"@));
    storing_a_value(s7, utf8("Length"@), v7, utf8("Length"@));
}

proof fn lemma_page_object(geometry: GeometryValue, image: PdfId, contents: PdfId)
    ensures
        ({
            let built = page_object(geometry, image, contents)->Dictionary_0;
            &&& dict_get(built, utf8("Type"@)) == Some(name_value("Page"@))
            &&& dict_get(built, utf8("Parent"@)) == Some(PdfValue::Reference((1u32, 0u16)))
            &&& dict_get(built, utf8("MediaBox"@)) == Some(PdfValue::Array(media_box(geometry)))
            &&& dict_get(built, utf8("Resources"@)) == Some(PdfValue::Dictionary(dict_set(Seq::empty(), utf8("XObject"@), PdfValue::Dictionary(dict_set(Seq::empty(), utf8("Im0"@), PdfValue::Reference(image))))))
            &&& dict_get(built, utf8("Contents"@)) == Some(PdfValue::Reference(contents))
        }),
{
    lemma_image_keys();
    let s0 = Seq::<(Seq<u8>, PdfValue)>::empty();
    let v0 = name_value("Page"@);
    let s1 = dict_set(s0, utf8("Type"@), v0);
    let v1 = PdfValue::Reference((1u32, 0u16));
    let s2 = dict_set(s1, utf8("Parent"@), v1);
    let v2 = PdfValue::Array(media_box(geometry));
    let s3 = dict_set(s2, utf8("MediaBox"@), v2);
    let v3 = PdfValue::Dictionary(dict_set(Seq::empty(), utf8("XObject"@), PdfValue::Dictionary(dict_set(Seq::empty(), utf8("Im0"@), PdfValue::Reference(image)))));
    let s4 = dict_set(s3, utf8("Resources"@), v3);
    let v4 = PdfValue::Reference(contents);
    let s5 = dict_set(s4, utf8("Contents"@), v4);
    storing_a_value(s0, utf8("Type"@), v0, utf8("Type"@));
    storing_a_value(s1, utf8("Parent"@), v1, utf8("Type"@));
    storing_a_value(s2, utf8("MediaBox"@), v2, utf8("Type"@));
    storing_a_value(s3, utf8("Resources"@), v3, utf8("Type"@));
    storing_a_value(s4, utf8("Contents"@), v4, utf8("Type"@));
    storing_a_value(s1, utf8("Parent"@), v1, utf8("Parent"@));
    storing_a_value(s2, utf8("MediaBox"@), v2, utf8("Parent"@));
    storing_a_value(s3, utf8("Resources"@), v3, utf8("Parent"@));
    storing_a_value(s4, utf8("Contents"@), v4, utf8("Parent"@));
    storing_a_value(s2, utf8("MediaBox"@), v2, utf8("MediaBox"@));
    storing_a_value(s3, utf8("Resources"@), v3, utf8("MediaBox"@));
    storing_a_value(s4, utf8("Contents"@), v4, utf8("MediaBox"@));
    storing_a_value(s3, utf8("Resources"@), v3, utf8("Resources"@));
    storing_a_value(s4, utf8("Contents"@), v4, utf8("Resources"@));
    storing_a_value(s4, utf8("Contents"@), v4, utf8("Contents"@));
}

proof fn lemma_page_tree(pages: Seq<PdfId>)
    ensures
        ({
            let built = page_tree(pages)->Dictionary_0;
            &&& dict_get(built, utf8("Type"@)) == Some(PdfValue::Name(utf8("Pages"@)))
            &&& dict_get(built, utf8("Kids"@)) == Some(PdfValue::Array(references(pages)))
            &&& dict_get(built, utf8("Count"@)) == Some(PdfValue::Integer(pages.len() as i64))
        }),
{
    lemma_image_keys();
    let s0 = Seq::<(Seq<u8>, PdfValue)>::empty();
    let v0 = PdfValue::Name(utf8("Pages"@));
    let s1 = dict_set(s0, utf8("Type"@), v0);
    let v1 = PdfValue::Array(references(pages));
    let s2 = dict_set(s1, utf8("Kids"@), v1);
    let v2 = PdfValue::Integer(pages.len() as i64);
    let s3 = dict_set(s2, utf8("Count"@), v2);
    storing_a_value(s0, utf8("Type"@), v0, utf8("Type"@));
    storing_a_value(s1, utf8("Kids"@), v1, utf8("Type"@));
    storing_a_value(s2, utf8("Count"@), v2, utf8("Type"@));
    storing_a_value(s1, utf8("Kids"@), v1, utf8("Kids"@));
    storing_a_value(s2, utf8("Count"@), v2, utf8("Kids"@));
    storing_a_value(s2, utf8("Count"@), v2, utf8("Count"@));
}

proof fn lemma_image_catalog()
    ensures
        ({
            let built = image_catalog()->Dictionary_0;
            &&& dict_get(built, utf8("Type"@)) == Some(name_value("Catalog"@))
            &&& dict_get(built, utf8("Pages"@)) == Some(PdfValue::Reference((1u32, 0u16)))
        }),
{
    lemma_image_keys();
    let s0 = Seq::<(Seq<u8>, PdfValue)>::empty();
    let v0 = name_value("Catalog"@);
    let s1 = dict_set(s0, utf8("Type"@), v0);
    let v1 = PdfValue::Reference((1u32, 0u16));
    let s2 = dict_set(s1, utf8("Pages"@), v1);
    storing_a_value(s0, utf8("Type"@), v0, utf8("Type"@));
    storing_a_value(s1, utf8("Pages"@), v1, utf8("Type"@));
    storing_a_value(s1, utf8("Pages"@), v1, utf8("Pages"@));
}

/// The objects of the pages stand in the order of their numbers.
proof fn lemma_numbers(images: Seq<PreparedValue>, geometries: Seq<GeometryValue>)
    requires
        images.len() <= MAX_IMAGES,
    ensures
        page_objects(images, geometries).len() == 3 * images.len(),
        forall|k: int|
            0 <= k < 3 * images.len() ==> (#[trigger] page_objects(images, geometries)[k]).0 == (
                (k + 2) as u32,
                0u16,
            ),
        forall|i: int|
            #![trigger images[i]]
            0 <= i < images.len() ==> {
                let (image, contents, page) = page_numbers(i);
                let all = page_objects(images, geometries);
                &&& all[3 * i].1 == image_object(images[i])
                &&& all[3 * i + 1].1 matches PdfValue::Stream(stream) && stream.content == utf8(
                    drawing(geometries[i]),
                )
                &&& all[3 * i + 2].1 == page_object(geometries[i], image, contents)
            },
    decreases images.len(),
{
    if images.len() > 0 {
        let shorter = images.drop_last();
        lemma_numbers(shorter, geometries);
        let index = images.len() - 1;
        let before = page_objects(shorter, geometries);
        let all = page_objects(images, geometries);
        assert forall|k: int| 0 <= k < 3 * images.len() implies (#[trigger] all[k]).0 == (
            (k + 2) as u32,
            0u16,
        ) by {
            if k < before.len() {
                assert(all[k] == before[k]);
            }
        }
        assert forall|i: int|
            #![trigger images[i]]
            0 <= i < images.len() implies {
            let (image, contents, page) = page_numbers(i);
            &&& all[3 * i].1 == image_object(images[i])
            &&& all[3 * i + 1].1 matches PdfValue::Stream(stream) && stream.content == utf8(
                drawing(geometries[i]),
            )
            &&& all[3 * i + 2].1 == page_object(geometries[i], image, contents)
        } by {
            if i < index {
                assert(shorter[i] == images[i]);
                assert(all[3 * i] == before[3 * i]);
                assert(all[3 * i + 1] == before[3 * i + 1]);
                assert(all[3 * i + 2] == before[3 * i + 2]);
            }
        }
    }
}

proof fn lemma_object(images: Seq<PreparedValue>, geometries: Seq<GeometryValue>, k: int)
    requires
        images.len() <= MAX_IMAGES,
        0 <= k < 3 * images.len() + 2,
    ensures
        ({
            let objects = images_document(images, geometries).objects;
            &&& objects.len() == 3 * images.len() + 2
            &&& object_of(objects, ((k + 1) as u32, 0u16)) == Some(objects[k].1)
            &&& objects[0].1 == page_tree(image_pages(images.len()))
            &&& objects[(3 * images.len() + 1) as int].1 == image_catalog()
            &&& 1 <= k < 3 * images.len() + 1 ==> objects[k] == page_objects(images, geometries)[k
                - 1]
        }),
{
    lemma_numbers(images, geometries);
    let objects = images_document(images, geometries).objects;
    let pages = page_objects(images, geometries);
    assert forall|j: int| 0 <= j < objects.len() implies (#[trigger] objects[j]).0 == (
        (j + 1) as u32,
        0u16,
    ) by {
        if 1 <= j < 3 * images.len() + 1 {
            assert(objects[j] == pages[j - 1]);
        }
    }
    lemma_first(objects, ((k + 1) as u32, 0u16), k);
}

/// Whether an image stands in a document under a number, with the size, the colours and the
/// bytes that it was prepared with.
pub open spec fn holds_image(
    objects: Seq<(PdfId, PdfValue)>,
    id: PdfId,
    image: PreparedValue,
) -> bool {
    object_of(objects, id) matches Some(PdfValue::Stream(stream)) && {
        &&& stream.content == image.content
        &&& dict_get(stream.dict, utf8("Subtype"@)) == Some(PdfValue::Name(utf8("Image"@)))
        &&& dict_get(stream.dict, utf8("Width"@)) == Some(PdfValue::Integer(image.width as i64))
        &&& dict_get(stream.dict, utf8("Height"@)) == Some(PdfValue::Integer(image.height as i64))
        &&& dict_get(stream.dict, utf8("ColorSpace"@)) == Some(
            PdfValue::Name(utf8(image.color_space)),
        )
        &&& dict_get(stream.dict, utf8("BitsPerComponent"@)) == Some(PdfValue::Integer(8))
        &&& dict_get(stream.dict, utf8("Filter"@)) == Some(PdfValue::Name(utf8(image.filter)))
        &&& dict_get(stream.dict, utf8("Length"@)) == Some(
            PdfValue::Integer(image.content.len() as i64),
        )
    }
}

/// Whether a page shows an image: it has the page's size, names the image `Im0`, and its
/// contents draw `Im0` in its size at its place.
pub open spec fn shows_image(
    objects: Seq<(PdfId, PdfValue)>,
    page: Seq<(Seq<u8>, PdfValue)>,
    image: PreparedValue,
    geometry: GeometryValue,
) -> bool {
    &&& dict_get(page, utf8("Type"@)) == Some(PdfValue::Name(utf8("Page"@)))
    &&& dict_get(page, utf8("Parent"@)) == Some(PdfValue::Reference((1u32, 0u16)))
    &&& dict_get(page, utf8("MediaBox"@)) == Some(
        PdfValue::Array(
            seq![
                PdfValue::Integer(0),
                PdfValue::Integer(0),
                PdfValue::Real(geometry.page_width),
                PdfValue::Real(geometry.page_height),
            ],
        ),
    )
    &&& dict_get(page, utf8("Resources"@)) matches Some(PdfValue::Dictionary(resources))
        && dict_get(resources, utf8("XObject"@)) matches Some(PdfValue::Dictionary(named))
        && dict_get(named, utf8("Im0"@)) matches Some(PdfValue::Reference(id)) && holds_image(
        objects,
        id,
        image,
    )
    &&& dict_get(page, utf8("Contents"@)) matches Some(PdfValue::Reference(contents)) && object_of(
        objects,
        contents,
    ) matches Some(PdfValue::Stream(stream)) && stream.content == utf8(
        "q\n"@ + geometry.draw_width + " 0 0 "@ + geometry.draw_height + " "@ + geometry.offset_x
            + " "@ + geometry.offset_y + " cm\n/Im0 Do\nQ"@,
    )
}

/// A PDF of images has one page for each, in their order, and each page shows its own image.
pub proof fn each_page_shows_its_image(
    images: Seq<PreparedValue>,
    geometries: Seq<GeometryValue>,
    i: int,
)
    requires
        images.len() <= MAX_IMAGES,
        0 <= i < images.len(),
    ensures
        ({
            let document = images_document(images, geometries);
            &&& root_of(document) matches Some(root) && dict_get(root, utf8("Type"@)) == Some(
                PdfValue::Name(utf8("Catalog"@)),
            ) && dict_get(root, utf8("Pages"@)) == Some(PdfValue::Reference((1u32, 0u16)))
            &&& dict_get(document.trailer, utf8("Info"@)) is None
            &&& object_of(document.objects, (1u32, 0u16)) matches Some(PdfValue::Dictionary(tree))
                && {
                &&& dict_get(tree, utf8("Type"@)) == Some(PdfValue::Name(utf8("Pages"@)))
                &&& dict_get(tree, utf8("Count"@)) == Some(PdfValue::Integer(images.len() as i64))
                &&& dict_get(tree, utf8("Kids"@)) matches Some(PdfValue::Array(kids)) && {
                    &&& kids.len() == images.len()
                    &&& kids[i] matches PdfValue::Reference(id) && object_of(
                        document.objects,
                        id,
                    ) matches Some(PdfValue::Dictionary(page)) && shows_image(
                        document.objects,
                        page,
                        images[i],
                        geometries[i],
                    )
                }
            }
        }),
{
    let document = images_document(images, geometries);
    let count = images.len() as int;
    let (image, contents, page) = page_numbers(i);
    lemma_numbers(images, geometries);
    lemma_object(images, geometries, 0);
    lemma_object(images, geometries, 3 * i + 1);
    lemma_object(images, geometries, 3 * i + 2);
    lemma_object(images, geometries, 3 * i + 3);
    lemma_object(images, geometries, 3 * count + 1);
    lemma_image_catalog();
    lemma_page_tree(image_pages(images.len()));
    lemma_page_object(geometries[i], image, contents);
    lemma_image_object(images[i]);
    let none = Seq::<(Seq<u8>, PdfValue)>::empty();
    let root = PdfValue::Reference(((2 + 3 * images.len()) as u32, 0u16));
    storing_a_value(none, utf8("Root"@), root, utf8("Root"@));
    lemma_no_info();
    storing_a_value(none, utf8("Root"@), root, utf8("Info"@));
    assert(dict_get(none, utf8("Info"@)) is None);
    let link = PdfValue::Reference(image);
    storing_a_value(none, utf8("Im0"@), link, utf8("Im0"@));
    let named = PdfValue::Dictionary(dict_set(none, utf8("Im0"@), link));
    storing_a_value(none, utf8("XObject"@), named, utf8("XObject"@));
    assert(references(image_pages(images.len()))[i] == PdfValue::Reference(page));
    assert(images[i] == images[i]);
    assert(holds_image(document.objects, image, images[i]));
}

proof fn lemma_no_info()
    ensures
        utf8("Root"@) != utf8("Info"@),
{
    reveal_strlit("Root");
    reveal_strlit("Info");
    lemma_ascii("Root");
    lemma_ascii("Info");
    assert(utf8("Root"@)[0] == 0x52);
    assert(utf8("Info"@)[0] == 0x49);
}

/// The images of a PDF are the given ones, in their order, each prepared by itself.
pub proof fn images_are_prepared_in_order(images: Seq<Seq<u8>>, i: int)
    requires
        prepared_from(images) is Ok,
        0 <= i < images.len(),
    ensures
        prepared_from(images)->Ok_0.len() == images.len(),
        prepared_image(images[i]) == Ok::<PreparedValue, Seq<char>>(
            prepared_from(images)->Ok_0[i],
        ),
    decreases images.len(),
{
    lemma_same_count(images);
    let shorter = images.drop_last();
    lemma_same_count(shorter);
    if i < images.len() - 1 {
        images_are_prepared_in_order(shorter, i);
        assert(shorter[i] == images[i]);
    }
}

proof fn lemma_same_count(images: Seq<Seq<u8>>)
    ensures
        prepared_from(images) matches Ok(prepared) ==> prepared.len() == images.len(),
    decreases images.len(),
{
    if images.len() > 0 {
        lemma_same_count(images.drop_last());
    }
}

/// A JPEG that goes into a PDF by its own bytes keeps all that its picture is decoded from.
pub proof fn passed_through_jpeg_keeps_its_picture(bytes: Seq<u8>)
    ensures
        passed_through(bytes) matches Some(image) ==> jpeg_image_data(image.content)
            == jpeg_image_data(bytes) && image.filter == "DCTDecode"@,
{
    if passed_through(bytes) is Some {
        cleared_jpeg_is_bare(bytes);
    }
}

/// A picture may be decoded exactly when it has an area of at most sixty-four million pixels.
pub proof fn modest_pictures_are_accepted(width: u32, height: u32)
    ensures
        guarded_size(width, height) is Ok <==> 0 < width && 0 < height && width * height
            <= 64_000_000,
{
}

/// A JPEG goes into a PDF by its own bytes only with one component, as grey, or three, as
/// colours, and with the size that its frame header says.
pub proof fn passed_through_jpeg_is_declared_truly(bytes: Seq<u8>)
    ensures
        passed_through(bytes) matches Some(image) ==> (sof0_of(image.content) matches Some(frame)
            && image.width == frame.width && image.height == frame.height && {
            ||| frame.components == 1 && image.color_space == "DeviceGray"@
            ||| frame.components == 3 && image.color_space == "DeviceRGB"@
        }),
{
}

/// An image that cannot go in by its own bytes goes in by its pixels: in its own size, put onto
/// white and deflated.
pub proof fn other_images_go_in_by_their_pixels(bytes: Seq<u8>, picture: PictureValue)
    requires
        passed_through(bytes) is None,
        decoded_image(bytes) == Ok::<PictureValue, Seq<char>>(picture),
    ensures
        prepared_image(bytes) matches Ok(image) ==> {
            &&& image.width == picture.width
            &&& image.height == picture.height
            &&& image.color_space == "DeviceRGB"@
            &&& image.filter == "FlateDecode"@
            &&& zlib_best(flattened(rgba8(picture))) == Ok::<Seq<u8>, Seq<char>>(image.content)
        },
        zlib_best(flattened(rgba8(picture))) is Ok ==> prepared_image(bytes) is Ok,
{
}

/// From one to five hundred images of at most five hundred and twelve million bytes together
/// are taken.
pub proof fn modest_selections_are_taken(images: Seq<Seq<u8>>)
    ensures
        accepted_input(images) is Ok <==> 0 < images.len() <= 500 && total_length(images)
            <= 512_000_000,
{
}

/// The lengths of some files and of others add up to that of all.
pub proof fn lengths_add_up(first: Seq<Seq<u8>>, rest: Seq<Seq<u8>>)
    ensures
        total_length(first + rest) == total_length(first) + total_length(rest),
        rest.len() == 1 ==> total_length(rest) == rest[0].len(),
    decreases rest.len(),
{
    if rest.len() == 0 {
        assert(first + rest =~= first);
    } else {
        assert((first + rest).drop_last() =~= first + rest.drop_last());
        lengths_add_up(first, rest.drop_last());
        if rest.len() == 1 {
            assert(total_length(rest.drop_last()) == 0);
        }
    }
}

/// A name of a page size stands for it, and any other name for pages of the images' size.
pub proof fn page_sizes_have_names(name: Seq<char>)
    ensures
        name == "a4"@ ==> page_mode(name) == PageMode::A4,
        name == "letter"@ ==> page_mode(name) == PageMode::Letter,
        name != "a4"@ && name != "letter"@ ==> page_mode(name) == PageMode::Fit,
{
    reveal_strlit("a4");
    reveal_strlit("letter");
    assert("a4"@.len() == 2);
    assert("letter"@.len() == 6);
}

/// As many frames of an animation are decoded as keep to sixty-four million pixels, at least
/// one and at most one thousand and twenty-four.
pub proof fn animations_keep_to_the_pixel_budget(width: u32, height: u32)
    requires
        width > 0,
        height > 0,
    ensures
        1 <= frame_limit(width, height) <= 1024,
        frame_limit(width, height) == 1 || frame_limit(width, height) * (width * height)
            <= 64_000_000,
        frame_limit(width, height) == 1024 || (frame_limit(width, height) + 1) * (width * height)
            > 64_000_000,
{
    let pixels = width * height;
    assert(pixels > 0) by (nonlinear_arith)
        requires
            width > 0,
            height > 0,
            pixels == width * height,
    ;
    let budget = 64_000_000int / pixels;
    vstd::arithmetic::div_mod::lemma_fundamental_div_mod(64_000_000int, pixels);
    let over = 64_000_000int % pixels;
    assert(0 <= over < pixels);
    assert(budget * pixels <= 64_000_000 && (budget + 1) * pixels > 64_000_000) by (nonlinear_arith)
        requires
            64_000_000 == pixels * budget + over,
            0 <= over < pixels,
    ;
    assert(0 <= budget) by (nonlinear_arith)
        requires
            (budget + 1) * pixels > 64_000_000,
            pixels > 0,
    ;
    if budget < 1 {
        assert(2 * pixels > 64_000_000) by (nonlinear_arith)
            requires
                (budget + 1) * pixels > 64_000_000,
                0 <= budget < 1,
                pixels > 0,
        ;
    } else if budget > 1024 {
        assert(1024 * pixels <= 64_000_000) by (nonlinear_arith)
            requires
                budget * pixels <= 64_000_000,
                budget > 1024,
                pixels > 0,
        ;
    }
}

} // verus!
