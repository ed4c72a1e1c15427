//! Inspecting, scrubbing and checking a file of any supported format.

use vstd::prelude::*;

use crate::bytes::{begins_with, begins_with_text, has_at, utf8};
use crate::images::model::ImageKind;
use crate::images::outside::{
    declared_size, guess_kind, guessed_kind, kind_outcome, read_size, size_outcome,
};
use crate::metadata::item::{item_values, ItemValue, MetadataItem};
use crate::metadata::jpeg::{jpeg_start, walk_jpeg, walked_jpeg};
use crate::metadata::jpeg_check::{
    checked_jpeg, clean_jpeg_is_unchanged, stripped_jpeg_passes_the_check,
    stripping_reports_the_same, verify_jpeg_structure,
};
use crate::metadata::pdf_check::unclean_pdf_is_reported;
use crate::metadata::pdf_report::{pdf_items, report_outcome, reported_pdf};
use crate::metadata::pdf_scrub::{checked_pdf, scrub_pdf, scrubbed_pdf, verify_pdf_structure};
use crate::metadata::png::{
    checked_png, has_png_signature, png_signature, verify_png_structure, walk_png, walked_png,
};
use crate::metadata::png_check::{
    clean_png_is_unchanged, stripped_png_passes_the_check, stripping_png_reports_the_same,
};
use crate::pdf::pages::{load_pdf, loaded_pdf};
use crate::text::{joined, json_bool, json_string, outcome, push_json_bool, push_json_string};

verus! {

/// The formats whose metadata is handled.
#[derive(Clone, Copy, Debug, PartialEq, Eq, Structural)]
pub enum MetadataFormat {
    Pdf,
    Jpeg,
    Png,
}

impl MetadataFormat {
    /// The name that a report shows.
    pub open spec fn label(self) -> Seq<char> {
        match self {
            MetadataFormat::Pdf => "pdf"@,
            MetadataFormat::Jpeg => "jpeg"@,
            MetadataFormat::Png => "png"@,
        }
    }

    /// The name that a report shows.
    pub fn name(self) -> (name: &'static str)
        ensures
            name@ == self.label(),
    {
        match self {
            MetadataFormat::Pdf => "pdf",
            MetadataFormat::Jpeg => "jpeg",
            MetadataFormat::Png => "png",
        }
    }
}

/// The format that a file's first bytes show.
pub open spec fn detected_format(bytes: Seq<u8>) -> Result<MetadataFormat, Seq<char>> {
    if begins_with(bytes, utf8("%PDF"@)) {
        Ok(MetadataFormat::Pdf)
    } else if begins_with(bytes, jpeg_start()) {
        Ok(MetadataFormat::Jpeg)
    } else if begins_with(bytes, png_signature()) {
        Ok(MetadataFormat::Png)
    } else {
        Err("Metadata scrubbing supports PDF, JPEG, and PNG files."@)
    }
}

/// The format that a file's first bytes show.
pub fn detect_format(bytes: &[u8]) -> (format: Result<MetadataFormat, String>)
    ensures
        match format {
            Ok(format) => detected_format(bytes@) == Ok::<MetadataFormat, Seq<char>>(format),
            Err(error) => detected_format(bytes@) == Err::<MetadataFormat, Seq<char>>(error@),
        },
{
    let start: Vec<u8> = vec![0xff, 0xd8, 0xff];
    assert(start@ =~= jpeg_start());
    if begins_with_text(bytes, "%PDF") {
        Ok(MetadataFormat::Pdf)
    } else if has_at(bytes, &start, 0) {
        Ok(MetadataFormat::Jpeg)
    } else if has_png_signature(bytes) {
        Ok(MetadataFormat::Png)
    } else {
        Err("Metadata scrubbing supports PDF, JPEG, and PNG files.".to_owned())
    }
}

/// One item as JSON.
pub open spec fn item_json(item: ItemValue) -> Seq<char> {
    "{\"label\":"@ + json_string(item.label) + ",\"detail\":"@ + match item.detail {
        Some(detail) => json_string(detail),
        None => "null"@,
    } + ",\"sensitive\":"@ + json_bool(item.sensitive) + "}"@
}

/// Items as JSON, with commas between them.
pub open spec fn items_json(items: Seq<ItemValue>) -> Seq<char>
    decreases items.len(),
{
    if items.len() == 0 {
        Seq::empty()
    } else if items.len() == 1 {
        item_json(items[0])
    } else {
        items_json(items.drop_last()) + ","@ + item_json(items.last())
    }
}

/// A report as JSON.
pub open spec fn report_text(format: MetadataFormat, items: Seq<ItemValue>) -> Seq<char> {
    "{\"kind\":\""@ + format.label() + "\",\"items\":["@ + items_json(items) + "]}"@
}

fn push_item_json(output: &mut String, item: &MetadataItem)
    ensures
        final(output)@ == old(output)@ + item_json(item@),
{
    let ghost start = output@;
    output.append("{\"label\":");
    push_json_string(output, item.label.as_str());
    output.append(",\"detail\":");
    if let Some(detail) = &item.detail {
        push_json_string(output, detail.as_str());
    } else {
        output.append("null");
    }
    output.append(",\"sensitive\":");
    push_json_bool(output, item.sensitive);
    output.append("}");
    assert(output@ =~= start + item_json(item@));
}

/// A report as JSON.
pub fn report_json(format: MetadataFormat, items: &Vec<MetadataItem>) -> (report: String)
    ensures
        report@ == report_text(format, item_values(items@)),
{
    let ghost values = item_values(items@);
    let mut output = joined("{\"kind\":\"", format.name());
    output.append("\",\"items\":[");
    let ghost start = output@;
    assert(start + items_json(values.take(0)) =~= start);
    let mut i: usize = 0;
    while i < items.len()
        invariant
            i <= items@.len(),
            values == item_values(items@),
            output@ == start + items_json(values.take(i as int)),
        decreases items.len() - i,
    {
        assert(values.take(i + 1).drop_last() =~= values.take(i as int));
        assert(values.take(i + 1).last() == items@[i as int]@);
        if i > 0 {
            output.append(",");
        }
        push_item_json(&mut output, &items[i]);
        assert(output@ =~= start + items_json(values.take(i + 1)));
        i += 1;
    }
    assert(values.take(items@.len() as int) =~= values);
    output.append("]}");
    output
}

/// The size of an image that shows the expected format, once it was read.
pub open spec fn expected_size(
    guess: Result<Option<ImageKind>, Seq<char>>,
    size: Result<(u32, u32), Seq<char>>,
    expected: ImageKind,
) -> Result<(u32, u32), Seq<char>> {
    match guess {
        Err(error) => Err("Could not validate this image: "@ + error),
        Ok(actual) => if actual != Some(expected) {
            Err("The image has an unexpected format."@)
        } else {
            match size {
                Err(error) => Err("Could not read this image's dimensions: "@ + error),
                Ok(size) => if size.0 == 0 || size.1 == 0 {
                    Err("This image has invalid zero-sized dimensions."@)
                } else {
                    Ok(size)
                },
            }
        },
    }
}

/// The size of an image that shows the expected format.
pub open spec fn image_size(bytes: Seq<u8>, expected: ImageKind) -> Result<(u32, u32), Seq<char>> {
    expected_size(guessed_kind(bytes), declared_size(bytes, expected), expected)
}

/// The size of an image that shows the expected format, once it was read.
pub fn accept_dimensions(
    guess: &Result<Option<ImageKind>, String>,
    size: Result<(u32, u32), String>,
    expected: ImageKind,
) -> (accepted: Result<(u32, u32), String>)
    ensures
        size_outcome(accepted) == expected_size(
            kind_outcome(*guess),
            size_outcome(size),
            expected,
        ),
{
    match guess {
        Err(error) => Err(joined("Could not validate this image: ", error.as_str())),
        Ok(actual) => {
            let same = match actual {
                Some(actual) => *actual == expected,
                None => false,
            };
            if !same {
                return Err("The image has an unexpected format.".to_owned());
            }
            match size {
                Err(error) => Err(
                    joined("Could not read this image's dimensions: ", error.as_str()),
                ),
                Ok((width, height)) => {
                    if width == 0 || height == 0 {
                        Err("This image has invalid zero-sized dimensions.".to_owned())
                    } else {
                        Ok((width, height))
                    }
                },
            }
        },
    }
}

/// The size of an image that shows the expected format.
pub fn image_dimensions(bytes: &[u8], expected: ImageKind) -> (size: Result<(u32, u32), String>)
    ensures
        size_outcome(size) == image_size(bytes@, expected),
{
    accept_dimensions(&guess_kind(bytes), read_size(bytes, expected), expected)
}

/// The items of a walk, once the image proved to be readable.
pub open spec fn inspected_walk(
    size: Result<(u32, u32), Seq<char>>,
    walk: Result<(Seq<ItemValue>, Seq<u8>), Seq<char>>,
) -> Result<Seq<ItemValue>, Seq<char>> {
    match size {
        Err(error) => Err(error),
        Ok(_) => match walk {
            Err(error) => Err(error),
            Ok((items, _)) => Ok(items),
        },
    }
}

/// The metadata of a JPEG.
pub fn inspect_jpeg(bytes: &[u8]) -> (report: Result<Vec<MetadataItem>, String>)
    ensures
        report_outcome(report) == inspected_walk(
            image_size(bytes@, ImageKind::Jpeg),
            walked_jpeg(bytes@, false),
        ),
{
    match image_dimensions(bytes, ImageKind::Jpeg) {
        Err(error) => Err(error),
        Ok(_) => match walk_jpeg(bytes, false) {
            Err(error) => Err(error),
            Ok((items, _)) => Ok(items),
        },
    }
}

/// The metadata of a PNG.
pub fn inspect_png(bytes: &[u8]) -> (report: Result<Vec<MetadataItem>, String>)
    ensures
        report_outcome(report) == inspected_walk(
            image_size(bytes@, ImageKind::Png),
            walked_png(bytes@, false),
        ),
{
    match image_dimensions(bytes, ImageKind::Png) {
        Err(error) => Err(error),
        Ok(_) => match walk_png(bytes, false) {
            Err(error) => Err(error),
            Ok((items, _)) => Ok(items),
        },
    }
}

/// The metadata of a PDF.
pub open spec fn inspected_pdf(bytes: Seq<u8>) -> Result<Seq<ItemValue>, Seq<char>> {
    match loaded_pdf(bytes) {
        Err(error) => Err(error),
        Ok(document) => reported_pdf(document),
    }
}

/// The metadata of a PDF.
pub fn inspect_pdf(bytes: &[u8]) -> (report: Result<Vec<MetadataItem>, String>)
    ensures
        report_outcome(report) == inspected_pdf(bytes@),
        match (report, loaded_pdf(bytes@)) {
            (Ok(items), Ok(document)) => checked_pdf(document) is Err ==> items@.len() > 0,
            _ => true,
        },
{
    match load_pdf(bytes) {
        Err(error) => Err(error),
        Ok(document) => {
            proof {
                if checked_pdf(document@) is Err {
                    unclean_pdf_is_reported(document@);
                }
            }
            pdf_items(&document)
        },
    }
}

/// The output of a walk that strips, once it was read again: its size must be
/// that of the source, and the structural check must pass.
pub open spec fn accepted_walk(
    size: Result<(u32, u32), Seq<char>>,
    walk: Result<(Seq<ItemValue>, Seq<u8>), Seq<char>>,
    output_size: Result<(u32, u32), Seq<char>>,
    checked: Result<(), Seq<char>>,
    mismatch: Seq<char>,
) -> Result<Seq<u8>, Seq<char>> {
    match size {
        Err(error) => Err(error),
        Ok(size) => match walk {
            Err(error) => Err(error),
            Ok((_, output)) => match output_size {
                Err(error) => Err(error),
                Ok(found) => if found != size {
                    Err(mismatch)
                } else {
                    match checked {
                        Err(error) => Err(error),
                        Ok(()) => Ok(output),
                    }
                },
            },
        },
    }
}

/// The bytes that a walk left.
pub open spec fn walk_bytes(walk: Result<(Seq<ItemValue>, Seq<u8>), Seq<char>>) -> Seq<u8> {
    match walk {
        Ok((_, output)) => output,
        Err(_) => Seq::empty(),
    }
}

/// A JPEG without its metadata.
pub open spec fn scrubbed_jpeg(bytes: Seq<u8>) -> Result<Seq<u8>, Seq<char>> {
    let walk = walked_jpeg(bytes, true);
    accepted_walk(
        image_size(bytes, ImageKind::Jpeg),
        walk,
        image_size(walk_bytes(walk), ImageKind::Jpeg),
        checked_jpeg(walk_bytes(walk)),
        "Could not validate the scrubbed JPEG."@,
    )
}

/// Remove the metadata of a JPEG.
pub fn scrub_jpeg(bytes: &[u8]) -> (scrubbed: Result<Vec<u8>, String>)
    ensures
        outcome(scrubbed) == scrubbed_jpeg(bytes@),
{
    let size = match image_dimensions(bytes, ImageKind::Jpeg) {
        Ok(size) => size,
        Err(error) => {
            return Err(error);
        },
    };
    let output = match walk_jpeg(bytes, true) {
        Ok((_, output)) => output,
        Err(error) => {
            return Err(error);
        },
    };
    match image_dimensions(&output, ImageKind::Jpeg) {
        Err(error) => {
            return Err(error);
        },
        Ok((width, height)) => {
            if width != size.0 || height != size.1 {
                return Err("Could not validate the scrubbed JPEG.".to_owned());
            }
        },
    }
    match verify_jpeg_structure(&output) {
        Err(error) => Err(error),
        Ok(()) => Ok(output),
    }
}

/// A PNG without its metadata.
pub open spec fn scrubbed_png(bytes: Seq<u8>) -> Result<Seq<u8>, Seq<char>> {
    let walk = walked_png(bytes, true);
    accepted_walk(
        image_size(bytes, ImageKind::Png),
        walk,
        image_size(walk_bytes(walk), ImageKind::Png),
        checked_png(walk_bytes(walk)),
        "Could not validate the scrubbed PNG."@,
    )
}

/// Remove the metadata of a PNG.
pub fn scrub_png(bytes: &[u8]) -> (scrubbed: Result<Vec<u8>, String>)
    ensures
        outcome(scrubbed) == scrubbed_png(bytes@),
{
    let size = match image_dimensions(bytes, ImageKind::Png) {
        Ok(size) => size,
        Err(error) => {
            return Err(error);
        },
    };
    let output = match walk_png(bytes, true) {
        Ok((_, output)) => output,
        Err(error) => {
            return Err(error);
        },
    };
    match image_dimensions(&output, ImageKind::Png) {
        Err(error) => {
            return Err(error);
        },
        Ok((width, height)) => {
            if width != size.0 || height != size.1 {
                return Err("Could not validate the scrubbed PNG.".to_owned());
            }
        },
    }
    match verify_png_structure(&output) {
        Err(error) => Err(error),
        Ok(()) => Ok(output),
    }
}

/// What the structural check says of a file.
pub open spec fn checked_file(bytes: Seq<u8>) -> Result<(), Seq<char>> {
    match detected_format(bytes) {
        Err(error) => Err(error),
        Ok(MetadataFormat::Pdf) => match loaded_pdf(bytes) {
            Err(error) => Err(error),
            Ok(document) => checked_pdf(document),
        },
        Ok(MetadataFormat::Jpeg) => checked_jpeg(bytes),
        Ok(MetadataFormat::Png) => checked_png(bytes),
    }
}

/// Structural check that a file carries none of the metadata this tool removes.
///
/// Deliberately independent of `inspect`: it is the oracle a caller should use to
/// confirm a scrub worked, precisely because it cannot inherit a blind spot from
/// the reporting layer.
pub fn verify_removed(bytes: &[u8]) -> (checked: Result<(), String>)
    ensures
        outcome(checked) == checked_file(bytes@),
{
    match detect_format(bytes) {
        Err(error) => Err(error),
        Ok(MetadataFormat::Pdf) => match load_pdf(bytes) {
            Err(error) => Err(error),
            Ok(document) => verify_pdf_structure(&document),
        },
        Ok(MetadataFormat::Jpeg) => verify_jpeg_structure(bytes),
        Ok(MetadataFormat::Png) => verify_png_structure(bytes),
    }
}

/// What a file is reported to hold, item by item.
pub open spec fn inspected_items(bytes: Seq<u8>) -> Result<Seq<ItemValue>, Seq<char>> {
    match detected_format(bytes) {
        Err(error) => Err(error),
        Ok(MetadataFormat::Pdf) => inspected_pdf(bytes),
        Ok(MetadataFormat::Jpeg) => inspected_walk(
            image_size(bytes, ImageKind::Jpeg),
            walked_jpeg(bytes, false),
        ),
        Ok(MetadataFormat::Png) => inspected_walk(
            image_size(bytes, ImageKind::Png),
            walked_png(bytes, false),
        ),
    }
}

/// The metadata found in a file, as JSON.
pub open spec fn inspected_file(bytes: Seq<u8>) -> Result<Seq<char>, Seq<char>> {
    match (detected_format(bytes), inspected_items(bytes)) {
        (Ok(format), Ok(items)) => Ok(report_text(format, items)),
        (_, Err(error)) => Err(error),
        (Err(error), _) => Err(error),
    }
}

/// Describe metadata without changing the input. An empty report means that the file
/// is already clean: it passes the structural check.
pub fn inspect(bytes: &[u8]) -> (report: Result<String, String>)
    ensures
        outcome(report) == inspected_file(bytes@),
        inspected_items(bytes@) matches Ok(items) && items.len() == 0 ==> checked_file(
            bytes@,
        ) is Ok,
{
    match detect_format(bytes) {
        Err(error) => Err(error),
        Ok(format) => {
            proof {
                unclean_image_is_reported(bytes@);
            }
            let items = match format {
                MetadataFormat::Pdf => inspect_pdf(bytes),
                MetadataFormat::Jpeg => inspect_jpeg(bytes),
                MetadataFormat::Png => inspect_png(bytes),
            };
            match items {
                Err(error) => Err(error),
                Ok(items) => {
                    assert(item_values(items@).len() == items@.len());
                    Ok(report_json(format, &items))
                },
            }
        },
    }
}

/// A file without its metadata.
pub open spec fn scrubbed_file(bytes: Seq<u8>) -> Result<Seq<u8>, Seq<char>> {
    match detected_format(bytes) {
        Err(error) => Err(error),
        Ok(MetadataFormat::Pdf) => scrubbed_pdf(bytes),
        Ok(MetadataFormat::Jpeg) => scrubbed_jpeg(bytes),
        Ok(MetadataFormat::Png) => scrubbed_png(bytes),
    }
}

/// Remove only qualified metadata containers. A file that is handed out passes
/// the structural check.
pub fn scrub(bytes: &[u8]) -> (scrubbed: Result<Vec<u8>, String>)
    ensures
        outcome(scrubbed) == scrubbed_file(bytes@),
        match scrubbed {
            Ok(output) => checked_file(output@) is Ok,
            Err(_) => true,
        },
{
    match detect_format(bytes) {
        Err(error) => Err(error),
        Ok(MetadataFormat::Pdf) => scrub_pdf(bytes),
        Ok(MetadataFormat::Jpeg) => {
            let scrubbed = scrub_jpeg(bytes);
            proof {
                scrubbed_image_passes_the_check(bytes@);
            }
            scrubbed
        },
        Ok(MetadataFormat::Png) => {
            let scrubbed = scrub_png(bytes);
            proof {
                scrubbed_image_passes_the_check(bytes@);
            }
            scrubbed
        },
    }
}

/// Describe the metadata found in a supported file as JSON.
pub fn inspect_metadata(bytes: &[u8]) -> (report: Result<String, String>)
    ensures
        outcome(report) == inspected_file(bytes@),
        inspected_items(bytes@) matches Ok(items) && items.len() == 0 ==> checked_file(
            bytes@,
        ) is Ok,
{
    inspect(bytes)
}

/// Return a supported file with its qualified metadata removed. A file that is
/// handed out passes [`verify_metadata_removed`].
pub fn scrub_metadata(bytes: &[u8]) -> (scrubbed: Result<Vec<u8>, String>)
    ensures
        outcome(scrubbed) == scrubbed_file(bytes@),
        match scrubbed {
            Ok(output) => checked_file(output@) is Ok,
            Err(_) => true,
        },
{
    scrub(bytes)
}

/// Confirm structurally that a file carries no removable metadata.
///
/// Callers verifying a scrub must use this, not a second [`inspect_metadata`]
/// call: re-inspecting asks the same detector the same question and so can never
/// catch anything that detector does not already know how to see.
pub fn verify_metadata_removed(bytes: &[u8]) -> (checked: Result<(), String>)
    ensures
        outcome(checked) == checked_file(bytes@),
{
    verify_removed(bytes)
}

proof fn lemma_first_bytes(bytes: Seq<u8>)
    ensures
        begins_with(bytes, jpeg_start()) ==> detected_format(bytes) == Ok::<
            MetadataFormat,
            Seq<char>,
        >(MetadataFormat::Jpeg),
        begins_with(bytes, png_signature()) ==> detected_format(bytes) == Ok::<
            MetadataFormat,
            Seq<char>,
        >(MetadataFormat::Png),
{
    reveal_strlit("%PDF");
    crate::bytes::lemma_ascii("%PDF");
    if begins_with(bytes, jpeg_start()) {
        assert(bytes.subrange(0, 3)[0] == 0xff);
        if begins_with(bytes, utf8("%PDF"@)) {
            assert(bytes.subrange(0, 4)[0] == 0x25);
        }
    }
    if begins_with(bytes, png_signature()) {
        assert(bytes.subrange(0, 8)[0] == 0x89);
        if begins_with(bytes, utf8("%PDF"@)) {
            assert(bytes.subrange(0, 4)[0] == 0x25);
        }
        if begins_with(bytes, jpeg_start()) {
            assert(bytes.subrange(0, 3)[0] == 0xff);
        }
    }
}

/// A JPEG or PNG that was scrubbed is recognised as what it was, and passes the
/// structural check.
pub proof fn scrubbed_image_passes_the_check(bytes: Seq<u8>)
    ensures
        match detected_format(bytes) {
            Ok(MetadataFormat::Jpeg) => match scrubbed_jpeg(bytes) {
                Ok(output) => detected_format(output) == detected_format(bytes) && checked_file(
                    output,
                ) is Ok,
                Err(_) => true,
            },
            Ok(MetadataFormat::Png) => match scrubbed_png(bytes) {
                Ok(output) => detected_format(output) == detected_format(bytes) && checked_file(
                    output,
                ) is Ok,
                Err(_) => true,
            },
            _ => true,
        },
{
    if let Ok(output) = scrubbed_jpeg(bytes) {
        assert(checked_jpeg(output) is Ok);
        lemma_first_bytes(output);
    }
    if let Ok(output) = scrubbed_png(bytes) {
        assert(checked_png(output) is Ok);
        lemma_first_bytes(output);
    }
}

/// Whether a JPEG or PNG can be scrubbed rests on its structure and its declared
/// size alone: the structural check of the output never refuses it.
pub proof fn image_scrub_is_never_refused_by_the_check(bytes: Seq<u8>)
    ensures
        match walked_jpeg(bytes, true) {
            Ok((_, output)) => image_size(bytes, ImageKind::Jpeg) is Ok && image_size(
                output,
                ImageKind::Jpeg,
            ) == image_size(bytes, ImageKind::Jpeg) ==> scrubbed_jpeg(bytes) == Ok::<
                Seq<u8>,
                Seq<char>,
            >(output),
            Err(_) => true,
        },
        match walked_png(bytes, true) {
            Ok((_, output)) => image_size(bytes, ImageKind::Png) is Ok && image_size(
                output,
                ImageKind::Png,
            ) == image_size(bytes, ImageKind::Png) ==> scrubbed_png(bytes) == Ok::<
                Seq<u8>,
                Seq<char>,
            >(output),
            Err(_) => true,
        },
{
    if walked_jpeg(bytes, true) is Ok {
        stripped_jpeg_passes_the_check(bytes);
    }
    if walked_png(bytes, true) is Ok {
        stripped_png_passes_the_check(bytes);
    }
}

/// A JPEG or PNG that does not pass the check is never reported as empty: an empty
/// report means that the file is already clean.
pub proof fn unclean_image_is_reported(bytes: Seq<u8>)
    ensures
        match detected_format(bytes) {
            Ok(MetadataFormat::Jpeg) | Ok(MetadataFormat::Png) => match inspected_items(bytes) {
                Ok(items) => items.len() == 0 ==> checked_file(bytes) is Ok,
                Err(_) => true,
            },
            _ => true,
        },
{
    match (detected_format(bytes), inspected_items(bytes)) {
        (Ok(MetadataFormat::Jpeg), Ok(items)) => {
            stripping_reports_the_same(bytes);
            if items.len() == 0 {
                clean_jpeg_is_unchanged(bytes);
                stripped_jpeg_passes_the_check(bytes);
            }
        },
        (Ok(MetadataFormat::Png), Ok(items)) => {
            stripping_png_reports_the_same(bytes);
            if items.len() == 0 {
                clean_png_is_unchanged(bytes);
                stripped_png_passes_the_check(bytes);
            }
        },
        _ => {},
    }
}

} // verus!
