//! PNG chunk streams: reading them, removing metadata chunks from them, and
//! checking structurally that none is left.

use vstd::prelude::*;

use crate::bytes::{
    be16, be32, begins_with, byte_or_end, has_at, is_text, push_range, read_be16, read_be32, utf8,
};
use crate::checksum::{crc32, crc32_of};
use crate::encoding::{lossy_detail, lossy_detail_of, lossy_text, lossy_utf8};
use crate::inflate::{read_zlib, zlib_prefix};
use crate::metadata::exif::{exif_has_gps, has_gps};
use crate::metadata::item::{byte_count, byte_count_text, item, item_values, ItemValue, MetadataItem};
use crate::metadata::jpeg::{
    jpeg_trailing_item, lemma_prefixed, prefixed, trailing_item, walk_outcome,
};
use crate::text::{
    characters_contain, contains_text, decimal, joined, mentions_location, outcome,
    padded_decimal_text, text_mentions_location, truncate_detail, truncated, uppercase,
    uppercase_characters, zero_padded,
};

verus! {

/// The bytes that every PNG begins with.
pub open spec fn png_signature() -> Seq<u8> {
    seq![0x89u8, 0x50u8, 0x4eu8, 0x47u8, 0x0du8, 0x0au8, 0x1au8, 0x0au8]
}

/// Whether bytes begin as every PNG does.
pub fn has_png_signature(bytes: &[u8]) -> (found: bool)
    ensures
        found == begins_with(bytes@, png_signature()),
{
    let signature: Vec<u8> = vec![0x89, 0x50, 0x4e, 0x47, 0x0d, 0x0a, 0x1a, 0x0a];
    assert(signature@ =~= png_signature());
    has_at(bytes, &signature, 0)
}

/// Cap for inflating a compressed PNG text chunk, so a decompression bomb in a
/// zTXt/iTXt value cannot exhaust memory while it is inspected.
pub const MAX_INFLATED_TEXT: u64 = 4_000_000;

/// What a zlib stream decompresses to, unless that is broken or above the cap.
pub open spec fn inflated_text(data: Seq<u8>) -> Option<Seq<u8>> {
    match zlib_prefix(data, (MAX_INFLATED_TEXT + 1) as u64) {
        Some(bytes) => if bytes.len() > MAX_INFLATED_TEXT {
            None
        } else {
            Some(bytes)
        },
        None => None,
    }
}

/// Inflate a zlib stream, refusing to allocate beyond the bomb cap.
pub fn inflate_zlib_bounded(data: &[u8]) -> (bytes: Option<Vec<u8>>)
    ensures
        match bytes {
            Some(bytes) => inflated_text(data@) == Some(bytes@),
            None => inflated_text(data@) is None,
        },
{
    accept_inflated(read_zlib(data, MAX_INFLATED_TEXT + 1))
}

/// Inflated bytes, unless there are more than the cap allows.
pub fn accept_inflated(read: Option<Vec<u8>>) -> (bytes: Option<Vec<u8>>)
    ensures
        match read {
            Some(read) => if read@.len() > MAX_INFLATED_TEXT {
                bytes is None
            } else {
                bytes matches Some(bytes) && bytes@ == read@
            },
            None => bytes is None,
        },
{
    match read {
        Some(read) => {
            if read.len() as u64 > MAX_INFLATED_TEXT {
                None
            } else {
                Some(read)
            }
        },
        None => None,
    }
}

/// Whether a keyword names XMP or a GPS position.
pub open spec fn is_sensitive_keyword(keyword: Seq<char>) -> bool {
    uppercase(keyword) == uppercase("XML:com.adobe.xmp"@) || contains_text(
        uppercase(keyword),
        "GPS"@,
    )
}

fn png_keyword_sensitive(keyword: &str) -> (sensitive: bool)
    ensures
        sensitive == is_sensitive_keyword(keyword@),
{
    let upper = uppercase_characters(keyword);
    let xmp = uppercase_characters("XML:com.adobe.xmp");
    same_characters(&upper, &xmp) || characters_contain(&upper, "GPS")
}

fn same_characters(left: &Vec<char>, right: &Vec<char>) -> (same: bool)
    ensures
        same == (left@ == right@),
{
    if left.len() != right.len() {
        return false;
    }
    let mut i: usize = 0;
    while i < left.len()
        invariant
            i <= left@.len(),
            left@.len() == right@.len(),
            forall|j: int| 0 <= j < i ==> left@[j] == right@[j],
        decreases left.len() - i,
    {
        if left[i] != right[i] {
            return false;
        }
        i += 1;
    }
    assert(left@ =~= right@);
    true
}

/// The bytes before the first zero byte.
pub open spec fn keyword_of(data: Seq<u8>) -> Seq<u8> {
    data.take(byte_or_end(data, 0, 0))
}

/// The bytes behind the first zero byte.
pub open spec fn behind_keyword(data: Seq<u8>) -> Seq<u8> {
    let end = byte_or_end(data, 0, 0);
    if end < data.len() {
        data.skip(end + 1)
    } else {
        Seq::empty()
    }
}

fn png_keyword(data: &[u8]) -> (parts: (&[u8], &[u8]))
    ensures
        parts.0@ == keyword_of(data@),
        parts.1@ == behind_keyword(data@),
{
    let mut end: usize = 0;
    while end < data.len() && data[end] != 0
        invariant
            end <= data@.len(),
            byte_or_end(data@, 0, 0) == byte_or_end(data@, 0, end as int),
        decreases data.len() - end,
    {
        end += 1;
    }
    let keyword = &data[0..end];
    assert(keyword@ =~= keyword_of(data@));
    let rest = if end < data.len() {
        &data[end + 1..data.len()]
    } else {
        &data[end..end]
    };
    assert(rest@ =~= behind_keyword(data@));
    (keyword, rest)
}

/// The text of inflated bytes.
pub open spec fn inflated_value(data: Seq<u8>) -> Option<Seq<char>> {
    match inflated_text(data) {
        Some(bytes) => Some(lossy_utf8(bytes)),
        None => None,
    }
}

/// The text value of a text chunk, when it can be read.
pub open spec fn text_value(chunk_type: Seq<u8>, rest: Seq<u8>) -> Option<Seq<char>> {
    if chunk_type == utf8("tEXt"@) {
        Some(lossy_utf8(rest))
    } else if chunk_type == utf8("zTXt"@) {
        if rest.len() >= 1 {
            inflated_value(rest.skip(1))
        } else {
            None
        }
    } else if chunk_type == utf8("iTXt"@) {
        if rest.len() >= 2 {
            let text = behind_keyword(behind_keyword(rest.skip(2)));
            if rest[0] == 0 {
                Some(lossy_utf8(text))
            } else {
                inflated_value(text)
            }
        } else {
            None
        }
    } else {
        None
    }
}

fn optional_text(value: Option<Vec<u8>>) -> (text: Option<String>)
    ensures
        match value {
            Some(bytes) => text matches Some(text) && text@ == lossy_utf8(bytes@),
            None => text is None,
        },
{
    match value {
        Some(bytes) => Some(lossy_text(&bytes)),
        None => None,
    }
}

fn read_text_value(chunk_type: &[u8], rest: &[u8]) -> (value: Option<String>)
    ensures
        match value {
            Some(value) => text_value(chunk_type@, rest@) == Some(value@),
            None => text_value(chunk_type@, rest@) is None,
        },
{
    if is_text(chunk_type, "tEXt") {
        Some(lossy_text(rest))
    } else if is_text(chunk_type, "zTXt") {
        if rest.len() >= 1 {
            let stream = &rest[1..rest.len()];
            assert(stream@ =~= rest@.skip(1));
            optional_text(inflate_zlib_bounded(stream))
        } else {
            None
        }
    } else if is_text(chunk_type, "iTXt") {
        if rest.len() >= 2 {
            let language_and_text = &rest[2..rest.len()];
            assert(language_and_text@ =~= rest@.skip(2));
            let translated_and_text = png_keyword(language_and_text).1;
            let text = png_keyword(translated_and_text).1;
            if rest[0] == 0 {
                Some(lossy_text(text))
            } else {
                optional_text(inflate_zlib_bounded(text))
            }
        } else {
            None
        }
    } else {
        None
    }
}

/// The report for a text chunk. Sensitivity is judged on the whole keyword and
/// on the text itself.
pub open spec fn text_item(chunk_type: Seq<u8>, data: Seq<u8>) -> ItemValue {
    let keyword = lossy_utf8(keyword_of(data));
    let value = text_value(chunk_type, behind_keyword(data));
    item(
        "Text: "@ + truncated(keyword),
        match value {
            Some(text) => truncated(text),
            None => "(unreadable compressed text)"@,
        },
        is_sensitive_keyword(keyword) || match value {
            Some(text) => mentions_location(text),
            None => false,
        },
    )
}

/// Describe a text chunk, inflating compressed text so the report shows what was
/// hiding.
pub fn png_text_item(chunk_type: &[u8], data: &[u8]) -> (new: MetadataItem)
    ensures
        new@ == text_item(chunk_type@, data@),
{
    let parts = png_keyword(data);
    let keyword = lossy_text(parts.0);
    let value = read_text_value(chunk_type, parts.1);
    let mut sensitive = png_keyword_sensitive(keyword.as_str());
    let detail = match value {
        Some(text) => {
            if text_mentions_location(text.as_str()) {
                sensitive = true;
            }
            truncate_detail(text.as_str())
        },
        None => "(unreadable compressed text)".to_owned(),
    };
    MetadataItem::new(
        joined("Text: ", truncate_detail(keyword.as_str()).as_str()),
        detail,
        sensitive,
    )
}

/// Whether a chunk is one of those that every decoder must understand.
pub open spec fn is_critical(chunk_type: Seq<u8>) -> bool {
    ||| chunk_type == utf8("IHDR"@)
    ||| chunk_type == utf8("PLTE"@)
    ||| chunk_type == utf8("IDAT"@)
    ||| chunk_type == utf8("IEND"@)
}

/// Whether an ancillary chunk is kept because it changes how the image is
/// rendered: transparency, colour, HDR, physical size, and animation.
pub open spec fn is_kept_ancillary(chunk_type: Seq<u8>) -> bool {
    ||| chunk_type == utf8("tRNS"@)
    ||| chunk_type == utf8("gAMA"@)
    ||| chunk_type == utf8("cHRM"@)
    ||| chunk_type == utf8("sRGB"@)
    ||| chunk_type == utf8("iCCP"@)
    ||| chunk_type == utf8("sBIT"@)
    ||| chunk_type == utf8("bKGD"@)
    ||| chunk_type == utf8("hIST"@)
    ||| chunk_type == utf8("sPLT"@)
    ||| chunk_type == utf8("pHYs"@)
    ||| chunk_type == utf8("cICP"@)
    ||| chunk_type == utf8("mDCv"@)
    ||| chunk_type == utf8("cLLi"@)
    ||| chunk_type == utf8("acTL"@)
    ||| chunk_type == utf8("fcTL"@)
    ||| chunk_type == utf8("fdAT"@)
}

fn chunk_is_critical(chunk_type: &[u8]) -> (critical: bool)
    ensures
        critical == is_critical(chunk_type@),
{
    is_text(chunk_type, "IHDR") || is_text(chunk_type, "PLTE") || is_text(chunk_type, "IDAT")
        || is_text(chunk_type, "IEND")
}

fn chunk_is_kept_ancillary(chunk_type: &[u8]) -> (kept: bool)
    ensures
        kept == is_kept_ancillary(chunk_type@),
{
    is_text(chunk_type, "tRNS") || is_text(chunk_type, "gAMA") || is_text(chunk_type, "cHRM")
        || is_text(chunk_type, "sRGB") || is_text(chunk_type, "iCCP") || is_text(
        chunk_type,
        "sBIT",
    ) || is_text(chunk_type, "bKGD") || is_text(chunk_type, "hIST") || is_text(chunk_type, "sPLT")
        || is_text(chunk_type, "pHYs") || is_text(chunk_type, "cICP") || is_text(
        chunk_type,
        "mDCv",
    ) || is_text(chunk_type, "cLLi") || is_text(chunk_type, "acTL") || is_text(chunk_type, "fcTL")
        || is_text(chunk_type, "fdAT")
}

/// Whether a chunk is allowed to remain in a scrubbed PNG. Shared by the scrubber
/// and the structural check so there is one definition of "allowed to remain".
pub fn png_chunk_is_retained(chunk_type: &[u8]) -> (retained: bool)
    ensures
        retained == (is_critical(chunk_type@) || is_kept_ancillary(chunk_type@)),
{
    chunk_is_critical(chunk_type) || chunk_is_kept_ancillary(chunk_type)
}

/// One byte of a chunk type as it is shown.
pub open spec fn chunk_character(byte: u8) -> char {
    if 0x30 <= byte <= 0x39 || 0x41 <= byte <= 0x5a || 0x61 <= byte <= 0x7a {
        byte as char
    } else {
        '?'
    }
}

/// A chunk type as it is shown: anything but letters and digits becomes `?`, so a
/// crafted type cannot smuggle control characters into the report.
pub open spec fn chunk_name(chunk_type: Seq<u8>) -> Seq<char> {
    chunk_type.map_values(|byte: u8| chunk_character(byte))
}

/// A chunk type as it is shown.
pub fn png_chunk_name(chunk_type: &[u8]) -> (name: String)
    ensures
        name@ == chunk_name(chunk_type@),
{
    let mut name = String::new();
    let mut i: usize = 0;
    while i < chunk_type.len()
        invariant
            i <= chunk_type@.len(),
            name@ == chunk_name(chunk_type@.take(i as int)),
        decreases chunk_type.len() - i,
    {
        let byte: u8 = chunk_type[i];
        let shown = if (0x30 <= byte && byte <= 0x39) || (0x41 <= byte && byte <= 0x5a) || (0x61
            <= byte && byte <= 0x7a) {
            byte as char
        } else {
            '?'
        };
        name.push(shown);
        i += 1;
        assert(name@ =~= chunk_name(chunk_type@.take(i as int)));
    }
    assert(chunk_type@.take(chunk_type@.len() as int) =~= chunk_type@);
    name
}

/// How many bytes can be printed as ASCII text.
pub open spec fn printable_count(data: Seq<u8>) -> nat
    decreases data.len(),
{
    if data.len() == 0 {
        0
    } else {
        printable_count(data.drop_last()) + if 0x20 <= data.last() <= 0x7e {
            1nat
        } else {
            0nat
        }
    }
}

/// A short readable preview of a payload of which at least half can be printed.
pub open spec fn preview_of(data: Seq<u8>) -> Option<Seq<char>> {
    if data.len() > 0 && printable_count(data) * 2 >= data.len() {
        Some(lossy_detail_of(data))
    } else {
        None
    }
}

/// A short readable preview of an unrecognized chunk's payload, so the report can
/// show what was hiding rather than only how many bytes it was.
pub fn printable_preview(data: &[u8]) -> (preview: Option<String>)
    ensures
        match preview {
            Some(preview) => preview_of(data@) == Some(preview@),
            None => preview_of(data@) is None,
        },
{
    let mut printable: usize = 0;
    let mut i: usize = 0;
    assert(data@.take(0) =~= Seq::empty());
    while i < data.len()
        invariant
            i <= data@.len(),
            printable <= i,
            printable == printable_count(data@.take(i as int)),
        decreases data.len() - i,
    {
        assert(data@.take(i + 1).drop_last() =~= data@.take(i as int));
        if 0x20 <= data[i] && data[i] <= 0x7e {
            printable += 1;
        }
        i += 1;
    }
    assert(data@.take(data@.len() as int) =~= data@);
    if data.len() > 0 && printable >= data.len() - printable {
        Some(lossy_detail(data))
    } else {
        None
    }
}

/// The report for a chunk that is not recognized.
pub open spec fn unknown_item(chunk_type: Seq<u8>, data: Seq<u8>) -> ItemValue {
    item(
        "Unrecognized chunk: "@ + chunk_name(chunk_type),
        truncated(
            match preview_of(data) {
                Some(preview) => byte_count(data.len()) + ": "@ + preview,
                None => byte_count(data.len()),
            },
        ),
        has_gps(data) || mentions_location(lossy_utf8(data)),
    )
}

/// Describe a chunk that is not recognized.
pub fn png_unknown_item(chunk_type: &[u8], data: &[u8]) -> (new: MetadataItem)
    ensures
        new@ == unknown_item(chunk_type@, data@),
{
    let sensitive = exif_has_gps(data) || text_mentions_location(lossy_text(data).as_str());
    let mut detail = byte_count_text(data.len());
    if let Some(preview) = printable_preview(data) {
        detail.append(": ");
        detail.append(preview.as_str());
    }
    MetadataItem::new(
        joined("Unrecognized chunk: ", png_chunk_name(chunk_type).as_str()),
        truncate_detail(detail.as_str()),
        sensitive,
    )
}

/// A number in decimal with at least two digits.
pub open spec fn two_digits(value: u8) -> Seq<char> {
    zero_padded(decimal(value as nat), 2)
}

/// A modification time as it is shown.
pub open spec fn time_text(data: Seq<u8>) -> Seq<char> {
    zero_padded(decimal(be16(data, 0)), 4) + "-"@ + two_digits(data[2]) + "-"@ + two_digits(data[3])
        + " "@ + two_digits(data[4]) + ":"@ + two_digits(data[5]) + ":"@ + two_digits(data[6])
        + " UTC"@
}

fn show_time(data: &[u8]) -> (text: String)
    requires
        data@.len() == 7,
    ensures
        text@ == time_text(data@),
{
    let mut text = padded_decimal_text(read_be16(data, 0) as u64, 4);
    text.append("-");
    text.append(padded_decimal_text(data[2] as u64, 2).as_str());
    text.append("-");
    text.append(padded_decimal_text(data[3] as u64, 2).as_str());
    text.append(" ");
    text.append(padded_decimal_text(data[4] as u64, 2).as_str());
    text.append(":");
    text.append(padded_decimal_text(data[5] as u64, 2).as_str());
    text.append(":");
    text.append(padded_decimal_text(data[6] as u64, 2).as_str());
    text.append(" UTC");
    text
}

/// The report for a metadata chunk.
pub open spec fn metadata_item(chunk_type: Seq<u8>, data: Seq<u8>) -> ItemValue {
    if chunk_type == utf8("tEXt"@) || chunk_type == utf8("zTXt"@) || chunk_type == utf8("iTXt"@) {
        text_item(chunk_type, data)
    } else if chunk_type == utf8("eXIf"@) {
        item(
            "EXIF"@,
            if has_gps(data) {
                "includes GPS location"@
            } else {
                byte_count(data.len())
            },
            has_gps(data),
        )
    } else if chunk_type == utf8("tIME"@) {
        item(
            "Last-modified time"@,
            if data.len() == 7 {
                time_text(data)
            } else {
                byte_count(data.len())
            },
            false,
        )
    } else {
        unknown_item(chunk_type, data)
    }
}

/// Describe a metadata chunk.
pub fn png_metadata_item(chunk_type: &[u8], data: &[u8]) -> (new: MetadataItem)
    ensures
        new@ == metadata_item(chunk_type@, data@),
{
    if is_text(chunk_type, "tEXt") || is_text(chunk_type, "zTXt") || is_text(chunk_type, "iTXt") {
        png_text_item(chunk_type, data)
    } else if is_text(chunk_type, "eXIf") {
        let sensitive = exif_has_gps(data);
        let detail = if sensitive {
            "includes GPS location".to_owned()
        } else {
            byte_count_text(data.len())
        };
        MetadataItem::new("EXIF".to_owned(), detail, sensitive)
    } else if is_text(chunk_type, "tIME") {
        let detail = if data.len() == 7 {
            show_time(data)
        } else {
            byte_count_text(data.len())
        };
        MetadataItem::new("Last-modified time".to_owned(), detail, false)
    } else {
        png_unknown_item(chunk_type, data)
    }
}

/// What happens to a PNG chunk: `Ok(None)` = keep, `Ok(Some(item))` = drop and
/// report, `Err` = refuse the file. An unknown chunk whose first letter is upper
/// case is one that a decoder must understand.
#[verifier::opaque]
pub open spec fn png_item_value(chunk_type: Seq<u8>, data: Seq<u8>) -> Result<
    Option<ItemValue>,
    Seq<char>,
> {
    if is_critical(chunk_type) {
        Ok(None)
    } else if 0x41 <= chunk_type[0] <= 0x5a {
        Err(
            "Could not read this PNG: it uses an unsupported required chunk ("@ + chunk_name(
                chunk_type,
            ) + ")."@,
        )
    } else if is_kept_ancillary(chunk_type) {
        Ok(None)
    } else {
        Ok(Some(metadata_item(chunk_type, data)))
    }
}

/// Decide what happens to a PNG chunk.
pub fn png_item(chunk_type: &[u8], data: &[u8]) -> (decided: Result<Option<MetadataItem>, String>)
    requires
        chunk_type@.len() == 4,
    ensures
        match decided {
            Ok(Some(new)) => png_item_value(chunk_type@, data@) == Ok::<
                Option<ItemValue>,
                Seq<char>,
            >(Some(new@)),
            Ok(None) => png_item_value(chunk_type@, data@) == Ok::<Option<ItemValue>, Seq<char>>(
                None,
            ),
            Err(error) => png_item_value(chunk_type@, data@) == Err::<
                Option<ItemValue>,
                Seq<char>,
            >(error@),
        },
{
    reveal(png_item_value);
    if chunk_is_critical(chunk_type) {
        return Ok(None);
    }
    if 0x41 <= chunk_type[0] && chunk_type[0] <= 0x5a {
        let mut text = joined(
            "Could not read this PNG: it uses an unsupported required chunk (",
            png_chunk_name(chunk_type).as_str(),
        );
        text.append(").");
        return Err(text);
    }
    if chunk_is_kept_ancillary(chunk_type) {
        return Ok(None);
    }
    Ok(Some(png_metadata_item(chunk_type, data)))
}

/// What the walk from the chunk at `from` on reports and keeps. `first` says
/// whether it is the first chunk, `saw_idat` whether image data came before.
pub open spec fn png_walk_from(
    bytes: Seq<u8>,
    from: int,
    strip: bool,
    first: bool,
    saw_idat: bool,
) -> Result<(Seq<ItemValue>, Seq<u8>), Seq<char>>
    decreases bytes.len() - from,
{
    if from < 0 || from >= bytes.len() {
        Err("Could not read this truncated PNG."@)
    } else if from + 4 > bytes.len() {
        Err("Could not read this truncated PNG chunk."@)
    } else if from + 8 > bytes.len() {
        Err("Could not read this truncated PNG chunk type."@)
    } else if from + 12 + be32(bytes, from) > bytes.len() {
        Err("Could not read this truncated PNG chunk."@)
    } else {
        let length = be32(bytes, from) as int;
        let chunk_type = bytes.subrange(from + 4, from + 8);
        let data = bytes.subrange(from + 8, from + 8 + length);
        let end = from + 12 + length;
        let seen = saw_idat || chunk_type == utf8("IDAT"@);
        if crc32_of(bytes.subrange(from + 4, from + 8 + length)) != be32(
            bytes,
            from + 8 + length,
        ) {
            Err("Could not read this PNG: a chunk has an invalid CRC."@)
        } else if first && (chunk_type != utf8("IHDR"@) || length != 13) {
            Err("Could not read this PNG: IHDR must be the first chunk."@)
        } else {
            match png_item_value(chunk_type, data) {
                Err(error) => Err(error),
                Ok(found) => {
                    let new_items = match found {
                        Some(new) => seq![new],
                        None => Seq::empty(),
                    };
                    let new_bytes = if strip && found is Some {
                        Seq::empty()
                    } else {
                        bytes.subrange(from, end)
                    };
                    if chunk_type == utf8("IEND"@) {
                        if length != 0 {
                            Err("Could not read this PNG: invalid IEND chunk."@)
                        } else if !seen {
                            Err("Could not read this truncated PNG."@)
                        } else if end < bytes.len() {
                            Ok((new_items.push(trailing_item(bytes.skip(end))), new_bytes))
                        } else {
                            Ok((new_items, new_bytes))
                        }
                    } else {
                        prefixed(
                            new_items,
                            new_bytes,
                            png_walk_from(bytes, end, strip, false, seen),
                        )
                    }
                },
            }
        }
    }
}

/// What the walk of a whole PNG reports and keeps.
pub open spec fn walked_png(bytes: Seq<u8>, strip: bool) -> Result<
    (Seq<ItemValue>, Seq<u8>),
    Seq<char>,
> {
    if !begins_with(bytes, png_signature()) {
        Err("Could not read this PNG: invalid signature."@)
    } else {
        prefixed(Seq::empty(), bytes.subrange(0, 8), png_walk_from(bytes, 8, strip, true, false))
    }
}

/// Whether a PNG carries nothing that is reported or dropped.
pub open spec fn is_bare_png(bytes: Seq<u8>) -> bool {
    walked_png(bytes, true) == Ok::<(Seq<ItemValue>, Seq<u8>), Seq<char>>((Seq::empty(), bytes))
}

/// Walk the chunk stream, reporting metadata chunks and, when asked to, leaving
/// them out. Kept chunks are copied verbatim. Bytes after IEND are not part of the
/// image: they are reported, and never kept.
pub fn walk_png(bytes: &[u8], strip: bool) -> (walked: Result<(Vec<MetadataItem>, Vec<u8>), String>)
    ensures
        walk_outcome(walked) == walked_png(bytes@, strip),
{
    if !has_png_signature(bytes) {
        return Err("Could not read this PNG: invalid signature.".to_owned());
    }
    let mut output: Vec<u8> = Vec::new();
    push_range(&mut output, bytes, 0, 8);
    let mut items: Vec<MetadataItem> = Vec::new();
    let mut position: usize = 8;
    let mut first = true;
    let mut saw_idat = false;
    assert(output@ =~= bytes@.subrange(0, 8));
    assert(item_values(items@) =~= Seq::empty());
    while position < bytes.len()
        invariant
            8 <= position <= bytes@.len(),
            walked_png(bytes@, strip) == prefixed(
                item_values(items@),
                output@,
                png_walk_from(bytes@, position as int, strip, first, saw_idat),
            ),
        decreases bytes.len() - position,
    {
        let ghost rest = png_walk_from(bytes@, position as int, strip, first, saw_idat);
        let ghost items0 = item_values(items@);
        let ghost output0 = output@;
        if bytes.len() - position < 4 {
            return Err("Could not read this truncated PNG chunk.".to_owned());
        }
        if bytes.len() - position < 8 {
            return Err("Could not read this truncated PNG chunk type.".to_owned());
        }
        let length: usize = read_be32(bytes, position) as usize;
        if bytes.len() - position < 12 || length > bytes.len() - position - 12 {
            return Err("Could not read this truncated PNG chunk.".to_owned());
        }
        let data_end: usize = position + 8 + length;
        let end: usize = data_end + 4;
        let chunk_type = &bytes[position + 4..position + 8];
        let data = &bytes[position + 8..data_end];
        assert(chunk_type@ =~= bytes@.subrange(position + 4, position + 8));
        assert(data@ =~= bytes@.subrange(position + 8, data_end as int));
        let checked = &bytes[position + 4..data_end];
        assert(checked@ =~= bytes@.subrange(position + 4, data_end as int));
        if crc32(checked) != read_be32(bytes, data_end) {
            return Err("Could not read this PNG: a chunk has an invalid CRC.".to_owned());
        }
        if first && (!is_text(chunk_type, "IHDR") || length != 13) {
            return Err("Could not read this PNG: IHDR must be the first chunk.".to_owned());
        }
        if is_text(chunk_type, "IDAT") {
            saw_idat = true;
        }
        let ghost mut new_items: Seq<ItemValue> = Seq::empty();
        let ghost mut new_bytes: Seq<u8> = Seq::empty();
        match png_item(chunk_type, data) {
            Err(error) => {
                return Err(error);
            },
            Ok(None) => {
                push_range(&mut output, bytes, position, end);
                proof {
                    new_bytes = bytes@.subrange(position as int, end as int);
                }
            },
            Ok(Some(new)) => {
                items.push(new);
                proof {
                    new_items = seq![new@];
                }
                if !strip {
                    push_range(&mut output, bytes, position, end);
                    proof {
                        new_bytes = bytes@.subrange(position as int, end as int);
                    }
                }
            },
        }
        proof {
            assert(item_values(items@) =~= items0 + new_items);
            assert(output@ =~= output0 + new_bytes);
        }
        if is_text(chunk_type, "IEND") {
            if length != 0 {
                return Err("Could not read this PNG: invalid IEND chunk.".to_owned());
            }
            if !saw_idat {
                return Err("Could not read this truncated PNG.".to_owned());
            }
            if end < bytes.len() {
                let trailing = &bytes[end..bytes.len()];
                assert(trailing@ =~= bytes@.skip(end as int));
                let new = jpeg_trailing_item(trailing);
                items.push(new);
                assert(item_values(items@) =~= items0 + new_items.push(new@));
            }
            return Ok((items, output));
        }
        position = end;
        first = false;
        proof {
            let following = png_walk_from(bytes@, position as int, strip, first, saw_idat);
            assert(rest == prefixed(new_items, new_bytes, following));
            lemma_prefixed(items0, output0, new_items, new_bytes, following);
        }
    }
    Err("Could not read this truncated PNG.".to_owned())
}

/// What is still in the file, as the check says it.
pub open spec fn still_in_png(what: Seq<char>) -> Seq<char> {
    "The scrubbed PNG still contains "@ + what + "."@
}

/// What the check says of the chunk stream from `from` on.
pub open spec fn png_checked_from(bytes: Seq<u8>, from: int) -> Result<(), Seq<char>>
    decreases bytes.len() - from,
{
    if from < 0 || from + 8 > bytes.len() {
        Err("The scrubbed PNG is missing its IEND chunk."@)
    } else if from + 12 + be32(bytes, from) > bytes.len() {
        Err("The scrubbed PNG is truncated."@)
    } else {
        let end = from + 12 + be32(bytes, from);
        let chunk_type = bytes.subrange(from + 4, from + 8);
        if chunk_type == utf8("IEND"@) {
            if end == bytes.len() {
                Ok(())
            } else {
                Err(still_in_png("bytes after IEND"@))
            }
        } else if !is_critical(chunk_type) && !is_kept_ancillary(chunk_type) {
            Err(still_in_png("a `"@ + chunk_name(chunk_type) + "` chunk"@))
        } else {
            png_checked_from(bytes, end)
        }
    }
}

/// What the structural check says of a PNG: no chunk outside the retained set may
/// remain, and nothing may follow IEND.
pub open spec fn checked_png(bytes: Seq<u8>) -> Result<(), Seq<char>> {
    if !begins_with(bytes, png_signature()) {
        Err("The scrubbed PNG lost its signature."@)
    } else {
        png_checked_from(bytes, 8)
    }
}

fn still_contains(what: &str) -> (text: String)
    ensures
        text@ == still_in_png(what@),
{
    let mut text = joined("The scrubbed PNG still contains ", what);
    text.append(".");
    text
}

/// Independent chunk walk: no chunk outside the retained set may remain, and
/// nothing may follow IEND.
pub fn verify_png_structure(bytes: &[u8]) -> (checked: Result<(), String>)
    ensures
        outcome(checked) == checked_png(bytes@),
{
    if !has_png_signature(bytes) {
        return Err("The scrubbed PNG lost its signature.".to_owned());
    }
    let mut position: usize = 8;
    while bytes.len() - position >= 8
        invariant
            8 <= position <= bytes@.len(),
            checked_png(bytes@) == png_checked_from(bytes@, position as int),
        decreases bytes.len() - position,
    {
        let length: usize = read_be32(bytes, position) as usize;
        if bytes.len() - position < 12 || length > bytes.len() - position - 12 {
            return Err("The scrubbed PNG is truncated.".to_owned());
        }
        let end: usize = position + 12 + length;
        let chunk_type = &bytes[position + 4..position + 8];
        assert(chunk_type@ =~= bytes@.subrange(position + 4, position + 8));
        if is_text(chunk_type, "IEND") {
            if end == bytes.len() {
                return Ok(());
            }
            return Err(still_contains("bytes after IEND"));
        }
        if !png_chunk_is_retained(chunk_type) {
            let mut what = joined("a `", png_chunk_name(chunk_type).as_str());
            what.append("` chunk");
            return Err(still_contains(what.as_str()));
        }
        position = end;
    }
    Err("The scrubbed PNG is missing its IEND chunk.".to_owned())
}

} // verus!
