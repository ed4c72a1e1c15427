//! Deterministic, metadata-clean image-to-PDF assembly.

use vstd::prelude::*;

use crate::bytes::{buffer_values, copy_bytes, text_bytes, utf8};
use crate::images::decode::{
    accept_kind, accepted_kind, check_pixels, check_size, checked_pixels, checked_size,
    guard_decoded_dimensions, guarded_size,
};
use crate::images::encode::{flatten_alpha_onto_white, flattened};
use crate::images::model::{rgba8, Picture, PictureValue, MAX_DECODER_BYTES};
use crate::images::outside::{
    declared_size, guess_kind, guessed_kind, read_in_full, read_picture, read_size, to_rgba8,
};
use crate::inflate::{first_bytes, write_zlib, zlib_best, zlib_prefix};
use crate::metadata::jpeg::{is_baseline, is_baseline_jpeg, parse_sof0, sof0_of};
use crate::metadata::jpeg::is_bare_jpeg;
use crate::metadata::jpeg_check::{
    checked_jpeg, clear_jpeg_metadata, cleared_jpeg, cleared_jpeg_is_bare,
};
use crate::pdf::merge::{make_document, new_document, new_page_tree, page_tree};
use crate::pdf::model::{
    array_value, dict_has, dict_set, table_value, PdfDictionary, PdfDocument, PdfDocumentValue,
    PdfId, PdfObject, PdfStream, PdfStreamValue, PdfValue,
};
use crate::pdf::outside::{list_pages, page_ids, parse_pdf, parsed_pdf, write_pdf, written_pdf};
use crate::pdf::pages::{refuse_decrypted, undecrypted};
use crate::text::{decimal, decimal_text, joined, outcome, same_text};

verus! {

/// The most images that are combined at a time.
pub const MAX_IMAGES: usize = 500;

/// The most bytes that are combined at a time.
pub const MAX_COMBINED_BYTES: u64 = 512_000_000;

/// How large the pages are.
#[derive(Clone, Copy, Debug, PartialEq, Eq, Structural)]
pub enum PageMode {
    Fit,
    A4,
    Letter,
}

/// The page size that a name stands for. Unknown names fall back to the least
/// surprising mode: one PDF point for each pixel.
pub open spec fn page_mode(name: Seq<char>) -> PageMode {
    if name == "a4"@ {
        PageMode::A4
    } else if name == "letter"@ {
        PageMode::Letter
    } else {
        PageMode::Fit
    }
}

impl PageMode {
    /// The page size that a name stands for.
    pub fn from_public(value: &str) -> (mode: PageMode)
        ensures
            mode == page_mode(value@),
    {
        if same_text(value, "a4") {
            PageMode::A4
        } else if same_text(value, "letter") {
            PageMode::Letter
        } else {
            PageMode::Fit
        }
    }

    /// The size of the page in points, where it does not follow the image.
    pub fn fixed_dimensions(self) -> (size: Option<(u32, u32)>)
        ensures
            size == match self {
                PageMode::Fit => None::<(u32, u32)>,
                PageMode::A4 => Some((595u32, 842u32)),
                PageMode::Letter => Some((612u32, 792u32)),
            },
    {
        match self {
            PageMode::Fit => None,
            PageMode::A4 => Some((595, 842)),
            PageMode::Letter => Some((612, 792)),
        }
    }
}

/// An image as it is put into a PDF.
pub struct PreparedImage {
    pub width: u32,
    pub height: u32,
    pub color_space: &'static str,
    pub filter: &'static str,
    pub content: Vec<u8>,
}

/// The value of a prepared image.
pub struct PreparedValue {
    pub width: u32,
    pub height: u32,
    pub color_space: Seq<char>,
    pub filter: Seq<char>,
    pub content: Seq<u8>,
}

impl View for PreparedImage {
    type V = PreparedValue;

    open spec fn view(&self) -> PreparedValue {
        PreparedValue {
            width: self.width,
            height: self.height,
            color_space: self.color_space@,
            filter: self.filter@,
            content: self.content@,
        }
    }
}

/// Where an image stands on its page, as the numbers that the file shows: the
/// page's size, the image's size, and its lower left corner.
pub struct PageGeometry {
    pub page_width: String,
    pub page_height: String,
    pub draw_width: String,
    pub draw_height: String,
    pub offset_x: String,
    pub offset_y: String,
}

/// The value of a geometry.
pub struct GeometryValue {
    pub page_width: Seq<char>,
    pub page_height: Seq<char>,
    pub draw_width: Seq<char>,
    pub draw_height: Seq<char>,
    pub offset_x: Seq<char>,
    pub offset_y: Seq<char>,
}

impl View for PageGeometry {
    type V = GeometryValue;

    open spec fn view(&self) -> GeometryValue {
        GeometryValue {
            page_width: self.page_width@,
            page_height: self.page_height@,
            draw_width: self.draw_width@,
            draw_height: self.draw_height@,
            offset_x: self.offset_x@,
            offset_y: self.offset_y@,
        }
    }
}

/// How many bytes these files have together.
pub open spec fn total_length(files: Seq<Seq<u8>>) -> nat
    decreases files.len(),
{
    if files.len() == 0 {
        0
    } else {
        total_length(files.drop_last()) + files.last().len()
    }
}

/// Whether these images may be combined.
pub open spec fn accepted_input(images: Seq<Seq<u8>>) -> Result<(), Seq<char>> {
    if images.len() == 0 {
        Err("Choose at least one image to combine."@)
    } else if images.len() > MAX_IMAGES {
        Err("Choose no more than 500 images at a time."@)
    } else if total_length(images) > MAX_COMBINED_BYTES {
        Err("These images are too large to combine safely."@)
    } else {
        Ok(())
    }
}

proof fn lemma_total_grows(files: Seq<Seq<u8>>, count: int)
    requires
        0 <= count <= files.len(),
    ensures
        total_length(files.take(count)) <= total_length(files),
    decreases files.len() - count,
{
    if count < files.len() {
        lemma_total_grows(files, count + 1);
        assert(files.take(count + 1).drop_last() =~= files.take(count));
    } else {
        assert(files.take(count) =~= files);
    }
}

/// Refuse an empty selection, and one that is too large.
pub fn validate_input_limits(images: &Vec<Vec<u8>>) -> (result: Result<(), String>)
    ensures
        outcome(result) == accepted_input(buffer_values(images@)),
{
    let ghost values = buffer_values(images@);
    if images.len() == 0 {
        return Err("Choose at least one image to combine.".to_owned());
    }
    if images.len() > MAX_IMAGES {
        return Err("Choose no more than 500 images at a time.".to_owned());
    }
    let mut total: u64 = 0;
    let mut i: usize = 0;
    while i < images.len()
        invariant
            i <= images@.len(),
            0 < images@.len() <= MAX_IMAGES,
            values == buffer_values(images@),
            total == total_length(values.take(i as int)),
            total <= MAX_COMBINED_BYTES,
        decreases images.len() - i,
    {
        proof {
            assert(values.take(i + 1).drop_last() =~= values.take(i as int));
            assert(values.take(i + 1).last() == images@[i as int]@);
            lemma_total_grows(values, i + 1);
        }
        if images[i].len() as u64 > MAX_COMBINED_BYTES - total {
            return Err("These images are too large to combine safely.".to_owned());
        }
        total += images[i].len() as u64;
        i += 1;
    }
    assert(values.take(images@.len() as int) =~= values);
    Ok(())
}

/// A baseline JPEG whose own bytes can go into the PDF: it can be cleared of its
/// metadata and its EXIF orientation, and it is gray or has three components.
pub open spec fn passed_through(bytes: Seq<u8>) -> Option<PreparedValue> {
    if !is_baseline(bytes) {
        None
    } else {
        match cleared_jpeg(bytes) {
            Some(cleared) => match sof0_of(cleared) {
                Some(frame) => if frame.components == 1 || frame.components == 3 {
                    Some(
                        PreparedValue {
                            width: frame.width,
                            height: frame.height,
                            color_space: if frame.components == 1 {
                                "DeviceGray"@
                            } else {
                                "DeviceRGB"@
                            },
                            filter: "DCTDecode"@,
                            content: cleared,
                        },
                    )
                } else {
                    None
                },
                None => None,
            },
            None => None,
        }
    }
}

/// A baseline JPEG whose own bytes can go into the PDF.
pub fn pass_through(bytes: &[u8]) -> (image: Option<PreparedImage>)
    ensures
        match image {
            Some(image) => passed_through(bytes@) == Some(image@),
            None => passed_through(bytes@) is None,
        },
{
    if !is_baseline_jpeg(bytes) {
        return None;
    }
    match clear_jpeg_metadata(bytes) {
        Some(cleared) => match parse_sof0(&cleared) {
            Some(frame) => {
                if frame.components == 1 || frame.components == 3 {
                    Some(
                        PreparedImage {
                            width: frame.width,
                            height: frame.height,
                            color_space: if frame.components == 1 {
                                "DeviceGray"
                            } else {
                                "DeviceRGB"
                            },
                            filter: "DCTDecode",
                            content: cleared,
                        },
                    )
                } else {
                    None
                }
            },
            None => None,
        },
        None => None,
    }
}

/// The picture in a file, or why it cannot be decoded.
pub open spec fn decoded_image(bytes: Seq<u8>) -> Result<PictureValue, Seq<char>> {
    match accepted_kind(guessed_kind(bytes)) {
        Err(error) => Err(error),
        Ok(kind) => match checked_size(declared_size(bytes, kind)) {
            Err(error) => Err(error),
            Ok(_) => checked_pixels(read_in_full(bytes, kind, MAX_DECODER_BYTES)),
        },
    }
}

/// Inspect the size under a bounded reader before allocating decoded pixels.
pub fn decode_image(bytes: &[u8]) -> (picture: Result<Picture, String>)
    ensures
        outcome(picture) == decoded_image(bytes@),
        match picture {
            Ok(picture) => picture@.is_whole(),
            Err(_) => true,
        },
{
    match accept_kind(guess_kind(bytes)) {
        Err(error) => Err(error),
        Ok(kind) => match check_size(read_size(bytes, kind)) {
            Err(error) => Err(error),
            Ok(_) => check_pixels(read_picture(bytes, kind, MAX_DECODER_BYTES)),
        },
    }
}

/// A picture's pixels on white, deflated.
pub open spec fn deflated_picture(
    width: u32,
    height: u32,
    rgba: Seq<u8>,
) -> Result<PreparedValue, Seq<char>> {
    match zlib_best(flattened(rgba)) {
        Err(error) => Err("Could not compress image pixels: "@ + error),
        Ok(content) => Ok(
            PreparedValue {
                width,
                height,
                color_space: "DeviceRGB"@,
                filter: "FlateDecode"@,
                content,
            },
        ),
    }
}

/// Composite pixels onto white and deflate them. Inflating the content gives those
/// pixels back.
pub fn deflate_picture(width: u32, height: u32, rgba: &[u8]) -> (image: Result<
    PreparedImage,
    String,
>)
    ensures
        outcome(image) == deflated_picture(width, height, rgba@),
        match image {
            Ok(image) => forall|limit: u64| #[trigger]
                zlib_prefix(image.content@, limit) == Some(first_bytes(flattened(rgba@), limit)),
            Err(_) => true,
        },
{
    match write_zlib(&flatten_alpha_onto_white(rgba)) {
        Err(error) => Err(joined("Could not compress image pixels: ", error.as_str())),
        Ok(content) => Ok(
            PreparedImage {
                width,
                height,
                color_space: "DeviceRGB",
                filter: "FlateDecode",
                content,
            },
        ),
    }
}

/// An image as it is put into a PDF: its own bytes, cleared of metadata, where they can
/// go in, and its pixels otherwise. A JPEG that cannot be cleared is never put in as it
/// is.
pub open spec fn prepared_image(bytes: Seq<u8>) -> Result<PreparedValue, Seq<char>> {
    match passed_through(bytes) {
        Some(image) => match guarded_size(image.width, image.height) {
            Err(error) => Err(error),
            Ok(()) => Ok(image),
        },
        None => match decoded_image(bytes) {
            Err(error) => Err(error),
            Ok(picture) => deflated_picture(picture.width, picture.height, rgba8(picture)),
        },
    }
}

/// Prepare an image for a PDF.
pub fn prepare_image(bytes: &[u8]) -> (image: Result<PreparedImage, String>)
    ensures
        outcome(image) == prepared_image(bytes@),
{
    match pass_through(bytes) {
        Some(image) => match guard_decoded_dimensions(image.width, image.height) {
            Err(error) => Err(error),
            Ok(()) => Ok(image),
        },
        None => match decode_image(bytes) {
            Err(error) => Err(error),
            Ok(picture) => deflate_picture(picture.width, picture.height, &to_rgba8(&picture)),
        },
    }
}

/// Why an image cannot be read, with its place.
pub open spec fn unreadable(place: nat, error: Seq<char>) -> Seq<char> {
    "Image "@ + decimal(place) + " could not be read: "@ + error
}

/// Every image prepared, or the first that cannot be, named by its place.
pub open spec fn prepared_from(images: Seq<Seq<u8>>) -> Result<Seq<PreparedValue>, Seq<char>>
    decreases images.len(),
{
    if images.len() == 0 {
        Ok(Seq::empty())
    } else {
        match prepared_from(images.drop_last()) {
            Err(error) => Err(error),
            Ok(prepared) => match prepared_image(images.last()) {
                Err(error) => Err(unreadable(images.len(), error)),
                Ok(image) => Ok(prepared.push(image)),
            },
        }
    }
}

/// Every image of a selection prepared.
pub open spec fn prepared_images(images: Seq<Seq<u8>>) -> Result<Seq<PreparedValue>, Seq<char>> {
    match accepted_input(images) {
        Err(error) => Err(error),
        Ok(()) => prepared_from(images),
    }
}

/// Prepared images by their values.
pub open spec fn prepared_values(images: Seq<PreparedImage>) -> Seq<PreparedValue> {
    images.map_values(|image: PreparedImage| image@)
}

/// Prepared images by their values, or why there are none.
pub open spec fn prepared_outcome(images: Result<Vec<PreparedImage>, String>) -> Result<
    Seq<PreparedValue>,
    Seq<char>,
> {
    match images {
        Ok(images) => Ok(prepared_values(images@)),
        Err(error) => Err(error@),
    }
}

proof fn lemma_first_failure(images: Seq<Seq<u8>>, count: int)
    requires
        0 <= count <= images.len(),
        prepared_from(images.take(count)) is Err,
    ensures
        prepared_from(images) == prepared_from(images.take(count)),
    decreases images.len() - count,
{
    if count < images.len() {
        assert(images.take(count + 1).drop_last() =~= images.take(count));
        lemma_first_failure(images, count + 1);
    } else {
        assert(images.take(count) =~= images);
    }
}

fn prepare_all(images: &Vec<Vec<u8>>) -> (prepared: Result<Vec<PreparedImage>, String>)
    ensures
        prepared_outcome(prepared) == prepared_from(buffer_values(images@)),
{
    let ghost values = buffer_values(images@);
    let mut prepared: Vec<PreparedImage> = Vec::new();
    assert(prepared_values(prepared@) =~= Seq::<PreparedValue>::empty());
    let mut i: usize = 0;
    while i < images.len()
        invariant
            i <= images@.len(),
            values == buffer_values(images@),
            prepared_from(values.take(i as int)) == Ok::<Seq<PreparedValue>, Seq<char>>(
                prepared_values(prepared@),
            ),
        decreases images.len() - i,
    {
        assert(values.take(i + 1).drop_last() =~= values.take(i as int));
        assert(values.take(i + 1).last() == images@[i as int]@);
        match prepare_image(&images[i]) {
            Ok(image) => {
                let ghost before = prepared_values(prepared@);
                prepared.push(image);
                assert(prepared_values(prepared@) =~= before.push(image@));
            },
            Err(error) => {
                let mut text = joined("Image ", decimal_text(i as u64 + 1).as_str());
                text.append(" could not be read: ");
                text.append(error.as_str());
                proof {
                    lemma_first_failure(values, i + 1);
                }
                return Err(text);
            },
        }
        i += 1;
    }
    assert(values.take(images@.len() as int) =~= values);
    Ok(prepared)
}

/// Prepare every image of a selection.
pub fn prepare_images(images: &Vec<Vec<u8>>) -> (prepared: Result<Vec<PreparedImage>, String>)
    ensures
        prepared_outcome(prepared) == prepared_images(buffer_values(images@)),
{
    match validate_input_limits(images) {
        Err(error) => Err(error),
        Ok(()) => prepare_all(images),
    }
}

/// What a page draws: the image, scaled and moved into place.
pub open spec fn drawing(geometry: GeometryValue) -> Seq<char> {
    "q\n"@ + geometry.draw_width + " 0 0 "@ + geometry.draw_height + " "@ + geometry.offset_x
        + " "@ + geometry.offset_y + " cm\n/Im0 Do\nQ"@
}

/// What a page draws.
pub fn content_stream(geometry: &PageGeometry) -> (content: Vec<u8>)
    ensures
        content@ == utf8(drawing(geometry@)),
{
    let mut text = joined("q\n", geometry.draw_width.as_str());
    text.append(" 0 0 ");
    text.append(geometry.draw_height.as_str());
    text.append(" ");
    text.append(geometry.offset_x.as_str());
    text.append(" ");
    text.append(geometry.offset_y.as_str());
    text.append(" cm\n/Im0 Do\nQ");
    text_bytes(text.as_str())
}

/// A new stream: its dictionary gets the length of its content.
pub open spec fn new_stream(entries: Seq<(Seq<u8>, PdfValue)>, content: Seq<u8>) -> PdfValue {
    PdfValue::Stream(
        PdfStreamValue {
            dict: dict_set(entries, utf8("Length"@), PdfValue::Integer(content.len() as i64)),
            content,
            allows_compression: true,
            start_position: None,
        },
    )
}

fn make_stream(dictionary: PdfDictionary, content: Vec<u8>) -> (stream: PdfObject)
    ensures
        stream@ == new_stream(dictionary@, content@),
{
    let mut dict = dictionary;
    dict.set("Length", PdfObject::Integer(content.len() as i64));
    PdfObject::Stream(
        PdfStream { dict, content, allows_compression: true, start_position: None },
    )
}

/// A name.
pub open spec fn name_value(name: Seq<char>) -> PdfValue {
    PdfValue::Name(utf8(name))
}

fn make_name(name: &str) -> (object: PdfObject)
    ensures
        object@ == name_value(name@),
{
    PdfObject::Name(text_bytes(name))
}

/// The image object of a page.
pub open spec fn image_object(image: PreparedValue) -> PdfValue {
    let a = dict_set(Seq::empty(), utf8("Type"@), name_value("XObject"@));
    let b = dict_set(a, utf8("Subtype"@), name_value("Image"@));
    let c = dict_set(b, utf8("Width"@), PdfValue::Integer(image.width as i64));
    let d = dict_set(c, utf8("Height"@), PdfValue::Integer(image.height as i64));
    let e = dict_set(d, utf8("ColorSpace"@), name_value(image.color_space));
    let f = dict_set(e, utf8("BitsPerComponent"@), PdfValue::Integer(8));
    let g = dict_set(f, utf8("Filter"@), name_value(image.filter));
    new_stream(g, image.content)
}

fn make_image_object(image: &PreparedImage) -> (object: PdfObject)
    ensures
        object@ == image_object(image@),
{
    let mut dictionary = PdfDictionary::empty();
    dictionary.set("Type", make_name("XObject"));
    dictionary.set("Subtype", make_name("Image"));
    dictionary.set("Width", PdfObject::Integer(image.width as i64));
    dictionary.set("Height", PdfObject::Integer(image.height as i64));
    dictionary.set("ColorSpace", make_name(image.color_space));
    dictionary.set("BitsPerComponent", PdfObject::Integer(8));
    dictionary.set("Filter", make_name(image.filter));
    make_stream(dictionary, copy_bytes(&image.content))
}

/// The box of a page.
pub open spec fn media_box(geometry: GeometryValue) -> Seq<PdfValue> {
    seq![
        PdfValue::Integer(0),
        PdfValue::Integer(0),
        PdfValue::Real(geometry.page_width),
        PdfValue::Real(geometry.page_height),
    ]
}

/// The page object that shows an image.
pub open spec fn page_object(geometry: GeometryValue, image: PdfId, contents: PdfId) -> PdfValue {
    let named = dict_set(Seq::empty(), utf8("Im0"@), PdfValue::Reference(image));
    let resources = dict_set(Seq::empty(), utf8("XObject"@), PdfValue::Dictionary(named));
    let a = dict_set(Seq::empty(), utf8("Type"@), name_value("Page"@));
    let b = dict_set(a, utf8("Parent"@), PdfValue::Reference((1u32, 0u16)));
    let c = dict_set(b, utf8("MediaBox"@), PdfValue::Array(media_box(geometry)));
    let d = dict_set(c, utf8("Resources"@), PdfValue::Dictionary(resources));
    PdfValue::Dictionary(dict_set(d, utf8("Contents"@), PdfValue::Reference(contents)))
}

fn make_page_object(geometry: &PageGeometry, image: PdfId, contents: PdfId) -> (object: PdfObject)
    ensures
        object@ == page_object(geometry@, image, contents),
{
    let mut named = PdfDictionary::empty();
    named.set("Im0", PdfObject::Reference(image));
    let mut resources = PdfDictionary::empty();
    resources.set("XObject", PdfObject::Dictionary(named));
    let mut corners: Vec<PdfObject> = Vec::new();
    corners.push(PdfObject::Integer(0));
    corners.push(PdfObject::Integer(0));
    corners.push(PdfObject::Real(geometry.page_width.as_str().to_owned()));
    corners.push(PdfObject::Real(geometry.page_height.as_str().to_owned()));
    assert(array_value(corners@) =~= media_box(geometry@));
    let mut page = PdfDictionary::empty();
    page.set("Type", make_name("Page"));
    page.set("Parent", PdfObject::Reference((1, 0)));
    page.set("MediaBox", PdfObject::Array(corners));
    page.set("Resources", PdfObject::Dictionary(resources));
    page.set("Contents", PdfObject::Reference(contents));
    PdfObject::Dictionary(page)
}

/// The numbers of the objects of the page at `index`: its image, its contents and
/// the page itself.
pub open spec fn page_numbers(index: int) -> (PdfId, PdfId, PdfId) {
    (
        ((2 + 3 * index) as u32, 0u16),
        ((3 + 3 * index) as u32, 0u16),
        ((4 + 3 * index) as u32, 0u16),
    )
}

/// The objects of all pages, in the order of their numbers.
pub open spec fn page_objects(images: Seq<PreparedValue>, geometries: Seq<GeometryValue>) -> Seq<
    (PdfId, PdfValue),
>
    decreases images.len(),
{
    if images.len() == 0 {
        Seq::empty()
    } else {
        let index = images.len() - 1;
        let (image, contents, page) = page_numbers(index);
        page_objects(images.drop_last(), geometries) + seq![
            (image, image_object(images.last())),
            (contents, new_stream(Seq::empty(), utf8(drawing(geometries[index])))),
            (page, page_object(geometries[index], image, contents)),
        ]
    }
}

/// The numbers of the pages.
pub open spec fn image_pages(count: nat) -> Seq<PdfId> {
    Seq::new(count, |index: int| page_numbers(index).2)
}

/// The catalog of a document of images.
pub open spec fn image_catalog() -> PdfValue {
    PdfValue::Dictionary(
        dict_set(
            dict_set(Seq::empty(), utf8("Type"@), name_value("Catalog"@)),
            utf8("Pages"@),
            PdfValue::Reference((1u32, 0u16)),
        ),
    )
}

/// A flat document with one image on each page. Object numbers, the order of the
/// entries, and the trailer are fixed: no clock, no random value, no document
/// identifier, and no document information.
pub open spec fn images_document(
    images: Seq<PreparedValue>,
    geometries: Seq<GeometryValue>,
) -> PdfDocumentValue {
    let catalog = ((2 + 3 * images.len()) as u32, 0u16);
    new_document(
        "1.5"@,
        seq![((1u32, 0u16), page_tree(image_pages(images.len())))] + page_objects(
            images,
            geometries,
        ) + seq![(catalog, image_catalog())],
        catalog.0,
        catalog,
    )
}

/// Geometries by their values.
pub open spec fn geometry_values(geometries: Seq<PageGeometry>) -> Seq<GeometryValue> {
    geometries.map_values(|geometry: PageGeometry| geometry@)
}

fn number_pages(count: usize) -> (pages: Vec<PdfId>)
    requires
        count <= MAX_IMAGES,
    ensures
        pages@ == image_pages(count as nat),
{
    let mut pages: Vec<PdfId> = Vec::new();
    let mut i: usize = 0;
    while i < count
        invariant
            i <= count <= MAX_IMAGES,
            pages@ == image_pages(i as nat),
        decreases count - i,
    {
        pages.push((4 + 3 * i as u32, 0));
        i += 1;
        assert(pages@ =~= image_pages(i as nat));
    }
    assert(pages@ =~= image_pages(count as nat));
    pages
}

fn add_page(
    objects: &mut Vec<(PdfId, PdfObject)>,
    index: usize,
    image: &PreparedImage,
    geometry: &PageGeometry,
)
    requires
        index < MAX_IMAGES,
    ensures
        table_value(final(objects)@) == table_value(old(objects)@) + seq![
            (page_numbers(index as int).0, image_object(image@)),
            (
                page_numbers(index as int).1,
                new_stream(Seq::empty(), utf8(drawing(geometry@))),
            ),
            (
                page_numbers(index as int).2,
                page_object(
                    geometry@,
                    page_numbers(index as int).0,
                    page_numbers(index as int).1,
                ),
            ),
        ],
{
    let ghost before = table_value(objects@);
    let base: u32 = 2 + 3 * index as u32;
    objects.push(((base, 0), make_image_object(image)));
    objects.push(((base + 1, 0), make_stream(PdfDictionary::empty(), content_stream(geometry))));
    objects.push(((base + 2, 0), make_page_object(geometry, (base, 0), (base + 1, 0))));
    assert(table_value(objects@) =~= before + seq![
        (page_numbers(index as int).0, image_object(image@)),
        (page_numbers(index as int).1, new_stream(Seq::empty(), utf8(drawing(geometry@)))),
        (
            page_numbers(index as int).2,
            page_object(geometry@, page_numbers(index as int).0, page_numbers(index as int).1),
        ),
    ]);
}

/// Put prepared images on pages of their own.
pub fn assemble(images: &Vec<PreparedImage>, geometries: &Vec<PageGeometry>) -> (document:
    PdfDocument)
    requires
        images@.len() <= MAX_IMAGES,
        geometries@.len() == images@.len(),
    ensures
        document@ == images_document(prepared_values(images@), geometry_values(geometries@)),
{
    let ghost values = prepared_values(images@);
    let ghost places = geometry_values(geometries@);
    let mut objects: Vec<(PdfId, PdfObject)> = Vec::new();
    let pages = number_pages(images.len());
    objects.push(((1, 0), new_page_tree(&pages)));
    let ghost start = seq![((1u32, 0u16), page_tree(image_pages(images@.len())))];
    assert(table_value(objects@) =~= start);
    assert(start + page_objects(values.take(0), places) =~= start);
    let mut i: usize = 0;
    while i < images.len()
        invariant
            i <= images@.len() <= MAX_IMAGES,
            geometries@.len() == images@.len(),
            values == prepared_values(images@),
            places == geometry_values(geometries@),
            table_value(objects@) == start + page_objects(values.take(i as int), places),
        decreases images.len() - i,
    {
        assert(values.take(i + 1).drop_last() =~= values.take(i as int));
        assert(values.take(i + 1).last() == images@[i as int]@);
        add_page(&mut objects, i, &images[i], &geometries[i]);
        assert(table_value(objects@) =~= start + page_objects(values.take(i + 1), places));
        i += 1;
    }
    assert(values.take(images@.len() as int) =~= values);
    let catalog: PdfId = (2 + 3 * images.len() as u32, 0);
    let mut root = PdfDictionary::empty();
    root.set("Type", make_name("Catalog"));
    root.set("Pages", PdfObject::Reference((1, 0)));
    let ghost before = table_value(objects@);
    objects.push((catalog, PdfObject::Dictionary(root)));
    assert(table_value(objects@) =~= before + seq![(catalog, image_catalog())]);
    make_document("1.5".to_owned(), objects, catalog.0, catalog)
}

/// A written document once it was read again: it must parse, have a page for each
/// image, and carry no document information.
pub open spec fn accepted_document(
    output: Seq<u8>,
    parsed: Result<PdfDocumentValue, Seq<char>>,
    found_pages: nat,
    pages: nat,
) -> Result<Seq<u8>, Seq<char>> {
    match parsed {
        Err(error) => Err("Could not validate the image PDF: "@ + error),
        Ok(document) => if found_pages != pages {
            Err("Could not validate every page in the image PDF."@)
        } else if dict_has(document.trailer, utf8("Info"@)) {
            Err("Could not create a metadata-clean image PDF."@)
        } else {
            Ok(output)
        },
    }
}

/// The output once it was read again.
pub fn accept_document(
    output: Vec<u8>,
    parsed: &Result<PdfDocument, String>,
    found_pages: usize,
    pages: usize,
) -> (accepted: Result<Vec<u8>, String>)
    ensures
        outcome(accepted) == accepted_document(
            output@,
            outcome(*parsed),
            found_pages as nat,
            pages as nat,
        ),
{
    match parsed {
        Err(error) => Err(joined("Could not validate the image PDF: ", error.as_str())),
        Ok(document) => {
            if found_pages != pages {
                Err("Could not validate every page in the image PDF.".to_owned())
            } else if document.trailer.has("Info") {
                Err("Could not create a metadata-clean image PDF.".to_owned())
            } else {
                Ok(output)
            }
        },
    }
}

/// How many pages a parsed document has.
pub open spec fn parsed_pages(parsed: Result<PdfDocumentValue, Seq<char>>) -> nat {
    match parsed {
        Ok(document) => page_ids(document).len(),
        Err(_) => 0,
    }
}

/// A PDF file with one image on each page.
pub open spec fn images_file(images: Seq<PreparedValue>, geometries: Seq<GeometryValue>) -> Result<
    Seq<u8>,
    Seq<char>,
> {
    match written_pdf(images_document(images, geometries)) {
        Err(error) => Err("Could not create the image PDF: "@ + error),
        Ok(output) => accepted_document(
            output,
            undecrypted(parsed_pdf(output)),
            parsed_pages(undecrypted(parsed_pdf(output))),
            images.len(),
        ),
    }
}

/// Build a one-image-per-page PDF from prepared images in order, each with its
/// place on its page. The output is deterministic and carries no source image
/// metadata.
pub fn images_to_pdf(images: &Vec<PreparedImage>, geometries: &Vec<PageGeometry>) -> (file: Result<
    Vec<u8>,
    String,
>)
    requires
        images@.len() <= MAX_IMAGES,
        geometries@.len() == images@.len(),
    ensures
        outcome(file) == images_file(prepared_values(images@), geometry_values(geometries@)),
        match file {
            Ok(file) => match undecrypted(parsed_pdf(file@)) {
                Ok(document) => page_ids(document).len() == images@.len() && !dict_has(
                    document.trailer,
                    utf8("Info"@),
                ),
                Err(_) => false,
            },
            Err(_) => true,
        },
{
    match write_pdf(&assemble(images, geometries)) {
        Err(error) => Err(joined("Could not create the image PDF: ", error.as_str())),
        Ok(output) => {
            let parsed = refuse_decrypted(parse_pdf(&output));
            let found_pages: usize = match &parsed {
                Ok(document) => list_pages(document).len(),
                Err(_) => 0,
            };
            accept_document(output, &parsed, found_pages, images.len())
        },
    }
}

/// Preparing a selection gives one image for each file, and never more than can
/// be combined.
pub proof fn preparing_keeps_the_count(images: Seq<Seq<u8>>)
    ensures
        match prepared_images(images) {
            Ok(prepared) => prepared.len() == images.len() && 0 < prepared.len() <= MAX_IMAGES,
            Err(_) => true,
        },
{
    lemma_prepared_count(images);
}

proof fn lemma_prepared_count(images: Seq<Seq<u8>>)
    ensures
        match prepared_from(images) {
            Ok(prepared) => prepared.len() == images.len(),
            Err(_) => true,
        },
    decreases images.len(),
{
    if images.len() > 0 {
        lemma_prepared_count(images.drop_last());
    }
}

/// A JPEG that goes into a PDF with its own bytes carries no metadata: those bytes
/// pass the structural check, and nothing in them is reported, not even an EXIF block
/// with an orientation alone.
pub proof fn passed_through_jpeg_is_clean(bytes: Seq<u8>)
    ensures
        match passed_through(bytes) {
            Some(image) => checked_jpeg(image.content) is Ok && is_bare_jpeg(image.content),
            None => true,
        },
{
    if passed_through(bytes) is Some {
        cleared_jpeg_is_bare(bytes);
    }
}

} // verus!
