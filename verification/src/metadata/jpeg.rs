//! JPEG marker streams: reading them, removing metadata segments from them, and
//! checking structurally that none is left.

use vstd::prelude::*;

use crate::bytes::{
    be16, begins_with, begins_with_text, find, find_subslice, find_subslice_from, has_at,
    lemma_find_from, occurs_at, push_bytes, push_range, read_be16, utf8,
};
use crate::encoding::{lossy_detail, lossy_detail_of, lossy_text, lossy_utf8};
use crate::metadata::exif::{
    exif_has_gps, exif_orientation, has_gps, minimal_exif, minimal_orientation_exif, orientation_of,
};
use crate::metadata::item::{byte_count, byte_count_text, item, item_values, ItemValue, MetadataItem};
use crate::text::{decimal, decimal_text, mentions_location, text_mentions_location};

verus! {

/// The first place at or after `from` that is not `FF`, or the length.
pub open spec fn run_end(bytes: Seq<u8>, from: int) -> int
    decreases bytes.len() - from,
{
    if from >= bytes.len() {
        bytes.len() as int
    } else if bytes[from] == 0xff {
        run_end(bytes, from + 1)
    } else {
        from
    }
}

/// A run of `FF` bytes ends at or behind where it is searched from.
pub proof fn lemma_run_end(bytes: Seq<u8>, from: int)
    requires
        0 <= from <= bytes.len(),
    ensures
        from <= run_end(bytes, from) <= bytes.len(),
        run_end(bytes, from) < bytes.len() ==> bytes[run_end(bytes, from)] != 0xff,
        forall|i: int| from <= i < run_end(bytes, from) ==> bytes[i] == 0xff,
        from < bytes.len() && bytes[from] == 0xff ==> from < run_end(bytes, from),
    decreases bytes.len() - from,
{
    if from < bytes.len() && bytes[from] == 0xff {
        lemma_run_end(bytes, from + 1);
    }
}

fn find_run_end(bytes: &[u8], from: usize) -> (end: usize)
    requires
        from <= bytes@.len(),
    ensures
        end == run_end(bytes@, from as int),
        from <= end <= bytes@.len(),
        from < bytes@.len() && bytes@[from as int] == 0xff ==> from < end,
{
    proof {
        lemma_run_end(bytes@, from as int);
    }
    let mut at: usize = from;
    while at < bytes.len() && bytes[at] == 0xff
        invariant
            from <= at <= bytes@.len(),
            run_end(bytes@, from as int) == run_end(bytes@, at as int),
        decreases bytes.len() - at,
    {
        at += 1;
    }
    at
}

/// Whether a marker stands alone, without a segment behind it.
pub open spec fn is_standalone(marker: u8) -> bool {
    marker == 0xd8 || marker == 0x01 || 0xd0 <= marker <= 0xd7
}

/// Whether a marker inside scan data belongs to it: a stuffed byte or a restart.
pub open spec fn is_scan_data(marker: u8) -> bool {
    marker == 0x00 || 0xd0 <= marker <= 0xd7
}

fn stands_alone(marker: u8) -> (alone: bool)
    ensures
        alone == is_standalone(marker),
{
    matches!(marker, 0xd8 | 0x01 | 0xd0..=0xd7)
}

/// Whether the byte stream announces a baseline sequential DCT frame, read from
/// the marker at `from` on.
pub open spec fn baseline_from(bytes: Seq<u8>, from: int) -> bool
    decreases bytes.len() - from,
{
    if from < 0 || from >= bytes.len() || bytes[from] != 0xff {
        false
    } else {
        let at = run_end(bytes, from);
        proof {
            lemma_run_end(bytes, from);
        }
        if at >= bytes.len() {
            false
        } else if bytes[at] == 0xc0 {
            true
        } else if 0xc1 <= bytes[at] <= 0xcf && bytes[at] != 0xc4 && bytes[at] != 0xc8 && bytes[at]
            != 0xcc {
            false
        } else if is_standalone(bytes[at]) || bytes[at] == 0xd9 {
            baseline_from(bytes, at + 1)
        } else if bytes[at] == 0xda {
            false
        } else if at + 3 > bytes.len() || be16(bytes, at + 1) < 2 || at + 1 + be16(bytes, at + 1)
            > bytes.len() {
            false
        } else {
            baseline_from(bytes, at + 1 + be16(bytes, at + 1))
        }
    }
}

/// Whether the byte stream announces a baseline sequential DCT frame.
pub open spec fn is_baseline(bytes: Seq<u8>) -> bool {
    bytes.len() >= 2 && bytes[0] == 0xff && bytes[1] == 0xd8 && baseline_from(bytes, 2)
}

/// Return whether the byte stream announces a baseline sequential DCT frame.
/// Other JPEG modes can also use PDF's DCTDecode filter, but they are left
/// untouched rather than changing a mode that was not qualified.
pub fn is_baseline_jpeg(bytes: &[u8]) -> (baseline: bool)
    ensures
        baseline == is_baseline(bytes@),
{
    if bytes.len() < 2 || bytes[0] != 0xff || bytes[1] != 0xd8 {
        return false;
    }
    let mut position: usize = 2;
    while position < bytes.len()
        invariant
            2 <= position <= bytes@.len(),
            is_baseline(bytes@) == baseline_from(bytes@, position as int),
        decreases bytes.len() - position,
    {
        if bytes[position] != 0xff {
            return false;
        }
        let at: usize = find_run_end(bytes, position);
        if at >= bytes.len() {
            return false;
        }
        let marker: u8 = bytes[at];
        let next: usize = at + 1;
        if marker == 0xc0 {
            return true;
        }
        if 0xc1 <= marker && marker <= 0xcf && marker != 0xc4 && marker != 0xc8 && marker != 0xcc {
            return false;
        }
        if stands_alone(marker) || marker == 0xd9 {
            position = next;
        } else {
            if marker == 0xda || bytes.len() - next < 2 {
                return false;
            }
            let length: usize = read_be16(bytes, next) as usize;
            if length < 2 || length > bytes.len() - next {
                return false;
            }
            position = next + length;
        }
    }
    false
}

/// What a baseline frame header declares.
#[derive(Clone, Copy, PartialEq, Eq, Structural)]
pub struct JpegFrame {
    pub width: u32,
    pub height: u32,
    pub components: u8,
}

/// The frame that a SOF0 segment declares. `at` is where its length stands.
pub open spec fn frame_at(bytes: Seq<u8>, at: int) -> Option<JpegFrame> {
    let length = be16(bytes, at);
    if length < 8 || bytes[at + 2] != 8 || length != 8 + 3 * bytes[at + 7] {
        None
    } else {
        Some(
            JpegFrame {
                width: be16(bytes, at + 5) as u32,
                height: be16(bytes, at + 3) as u32,
                components: bytes[at + 7],
            },
        )
    }
}

/// The first baseline frame header from the marker at `from` on.
pub open spec fn sof0_from(bytes: Seq<u8>, from: int) -> Option<JpegFrame>
    decreases bytes.len() - from,
{
    if from < 0 || from >= bytes.len() || bytes[from] != 0xff {
        None
    } else {
        let at = run_end(bytes, from);
        proof {
            lemma_run_end(bytes, from);
        }
        if at >= bytes.len() {
            None
        } else if is_standalone(bytes[at]) || bytes[at] == 0xd9 {
            sof0_from(bytes, at + 1)
        } else if bytes[at] == 0xda || at + 3 > bytes.len() || be16(bytes, at + 1) < 2 || at + 1
            + be16(bytes, at + 1) > bytes.len() {
            None
        } else if bytes[at] == 0xc0 {
            frame_at(bytes, at + 1)
        } else {
            sof0_from(bytes, at + 1 + be16(bytes, at + 1))
        }
    }
}

/// The first baseline frame header of a JPEG.
pub open spec fn sof0_of(bytes: Seq<u8>) -> Option<JpegFrame> {
    if bytes.len() >= 2 && bytes[0] == 0xff && bytes[1] == 0xd8 {
        sof0_from(bytes, 2)
    } else {
        None
    }
}

/// Parse the baseline SOF0 marker without decoding image pixels.
pub fn parse_sof0(bytes: &[u8]) -> (frame: Option<JpegFrame>)
    ensures
        frame == sof0_of(bytes@),
{
    if bytes.len() < 2 || bytes[0] != 0xff || bytes[1] != 0xd8 {
        return None;
    }
    let mut position: usize = 2;
    while position < bytes.len()
        invariant
            2 <= position <= bytes@.len(),
            sof0_of(bytes@) == sof0_from(bytes@, position as int),
        decreases bytes.len() - position,
    {
        if bytes[position] != 0xff {
            return None;
        }
        let at: usize = find_run_end(bytes, position);
        if at >= bytes.len() {
            return None;
        }
        let marker: u8 = bytes[at];
        let next: usize = at + 1;
        if stands_alone(marker) || marker == 0xd9 {
            position = next;
        } else {
            if marker == 0xda || bytes.len() - next < 2 {
                return None;
            }
            let length: usize = read_be16(bytes, next) as usize;
            if length < 2 || length > bytes.len() - next {
                return None;
            }
            if marker == 0xc0 {
                if length < 8 || bytes[next + 2] != 8 {
                    return None;
                }
                let components: u8 = bytes[next + 7];
                if length != 8 + 3 * components as usize {
                    return None;
                }
                return Some(
                    JpegFrame {
                        width: read_be16(bytes, next + 5) as u32,
                        height: read_be16(bytes, next + 3) as u32,
                        components,
                    },
                );
            }
            position = next + length;
        }
    }
    None
}

/// The report for a metadata-bearing segment; `None` for a segment that must be
/// kept.
///
/// Application segments are dropped by marker class by default. Three markers
/// have decode-relevant payloads and are kept, but only when the payload is
/// actually that decode-relevant thing: JFIF density, an ICC profile, and the
/// Adobe colour transform.
#[verifier::opaque]
pub open spec fn jpeg_item_value(marker: u8, payload: Seq<u8>) -> Option<ItemValue> {
    let size = byte_count(payload.len());
    if marker == 0xe0 {
        if begins_with(payload, utf8("JFIF\0"@)) {
            None
        } else if begins_with(payload, utf8("JFXX\0"@)) {
            Some(item("JFXX thumbnail"@, size, false))
        } else {
            Some(item("Application metadata (APP0)"@, size, false))
        }
    } else if marker == 0xe1 {
        if begins_with(payload, utf8("Exif\0\0"@)) {
            Some(item("EXIF"@, exif_detail(payload), has_gps(payload)))
        } else {
            Some(item("XMP / application metadata"@, size, false))
        }
    } else if marker == 0xe2 {
        if begins_with(payload, utf8("ICC_PROFILE\0"@)) {
            None
        } else if begins_with(payload, utf8("MPF\0"@)) {
            Some(item("MPF multi-picture index"@, size, false))
        } else {
            Some(item("Application metadata (APP2)"@, size, false))
        }
    } else if marker == 0xed {
        if begins_with(payload, utf8("Photoshop 3.0"@)) {
            Some(item("IPTC / Photoshop"@, size, false))
        } else {
            Some(item("Photoshop / application metadata"@, size, false))
        }
    } else if marker == 0xee {
        if begins_with(payload, utf8("Adobe"@)) {
            None
        } else {
            Some(item("Application metadata (APP14)"@, size, false))
        }
    } else if marker == 0xfe {
        Some(item("JPEG comment"@, lossy_detail_of(payload), false))
    } else if 0xe3 <= marker <= 0xec || marker == 0xef {
        Some(item("Application metadata"@, size, false))
    } else {
        None
    }
}

/// What is said of an EXIF block.
pub open spec fn exif_detail(payload: Seq<u8>) -> Seq<char> {
    if has_gps(payload) {
        "includes GPS location"@
    } else {
        match orientation_of(payload) {
            Some(value) => if value != 1 {
                byte_count(payload.len()) + " (orientation "@ + decimal(value as nat)
                    + " preserved)"@
            } else {
                byte_count(payload.len())
            },
            None => byte_count(payload.len()),
        }
    }
}

fn sized_item(label: &str, payload: &[u8]) -> (new: MetadataItem)
    ensures
        new@ == item(label@, byte_count(payload@.len()), false),
{
    MetadataItem::new(label.to_owned(), byte_count_text(payload.len()), false)
}

fn exif_item(payload: &[u8]) -> (new: MetadataItem)
    ensures
        new@ == item("EXIF"@, exif_detail(payload@), has_gps(payload@)),
{
    let sensitive = exif_has_gps(payload);
    let detail = if sensitive {
        "includes GPS location".to_owned()
    } else {
        match exif_orientation(payload) {
            Some(value) => {
                let mut detail = byte_count_text(payload.len());
                if value != 1 {
                    detail.append(" (orientation ");
                    detail.append(decimal_text(value as u64).as_str());
                    detail.append(" preserved)");
                }
                detail
            },
            None => byte_count_text(payload.len()),
        }
    };
    MetadataItem::new("EXIF".to_owned(), detail, sensitive)
}

/// Classify a JPEG marker segment. `Some` = metadata-bearing (the scrubber drops
/// and reports it); `None` = the segment must be kept.
pub fn jpeg_item(marker: u8, payload: &[u8]) -> (new: Option<MetadataItem>)
    ensures
        match new {
            Some(new) => jpeg_item_value(marker, payload@) == Some(new@),
            None => jpeg_item_value(marker, payload@) is None,
        },
{
    reveal(jpeg_item_value);
    if marker == 0xe0 {
        if begins_with_text(payload, "JFIF\0") {
            None
        } else if begins_with_text(payload, "JFXX\0") {
            Some(sized_item("JFXX thumbnail", payload))
        } else {
            Some(sized_item("Application metadata (APP0)", payload))
        }
    } else if marker == 0xe1 {
        if begins_with_text(payload, "Exif\0\0") {
            Some(exif_item(payload))
        } else {
            Some(sized_item("XMP / application metadata", payload))
        }
    } else if marker == 0xe2 {
        if begins_with_text(payload, "ICC_PROFILE\0") {
            None
        } else if begins_with_text(payload, "MPF\0") {
            Some(sized_item("MPF multi-picture index", payload))
        } else {
            Some(sized_item("Application metadata (APP2)", payload))
        }
    } else if marker == 0xed {
        if begins_with_text(payload, "Photoshop 3.0") {
            Some(sized_item("IPTC / Photoshop", payload))
        } else {
            Some(sized_item("Photoshop / application metadata", payload))
        }
    } else if marker == 0xee {
        if begins_with_text(payload, "Adobe") {
            None
        } else {
            Some(sized_item("Application metadata (APP14)", payload))
        }
    } else if marker == 0xfe {
        Some(MetadataItem::new("JPEG comment".to_owned(), lossy_detail(payload), false))
    } else if (0xe3 <= marker && marker <= 0xec) || marker == 0xef {
        Some(sized_item("Application metadata", payload))
    } else {
        None
    }
}

/// Where entropy-coded scan data ends: the `FF` run that begins the next real
/// marker. Inside a scan, `FF 00` is a stuffed data byte and `FF D0`–`FF D7` are
/// restart markers, so neither terminates it.
pub open spec fn scan_end(bytes: Seq<u8>, from: int) -> Option<int>
    decreases bytes.len() - from,
{
    if from < 0 || from >= bytes.len() {
        None
    } else if bytes[from] != 0xff {
        scan_end(bytes, from + 1)
    } else {
        let at = run_end(bytes, from);
        proof {
            lemma_run_end(bytes, from);
        }
        if at >= bytes.len() {
            None
        } else if is_scan_data(bytes[at]) {
            scan_end(bytes, at + 1)
        } else {
            Some(from)
        }
    }
}

/// Scan data ends behind where it begins, at an `FF` byte.
pub proof fn lemma_scan_end(bytes: Seq<u8>, from: int)
    requires
        0 <= from,
    ensures
        scan_end(bytes, from) matches Some(end) ==> from <= end < bytes.len() && bytes[end]
            == 0xff,
    decreases bytes.len() - from,
{
    if from >= bytes.len() {
    } else if bytes[from] != 0xff {
        lemma_scan_end(bytes, from + 1);
    } else {
        lemma_run_end(bytes, from);
        let at = run_end(bytes, from);
        if at < bytes.len() && is_scan_data(bytes[at]) {
            lemma_scan_end(bytes, at + 1);
        }
    }
}

/// Find the end of entropy-coded scan data. Without this, the scan would seem to
/// run to the end of the file, and a whole second JPEG appended after EOI would
/// ride through untouched and unreported.
pub fn jpeg_scan_end(bytes: &[u8], from: usize) -> (end: Option<usize>)
    requires
        from <= bytes@.len(),
    ensures
        match end {
            Some(end) => scan_end(bytes@, from as int) == Some(end as int) && from <= end
                < bytes@.len(),
            None => scan_end(bytes@, from as int) is None,
        },
{
    let mut position: usize = from;
    while position < bytes.len()
        invariant
            from <= position <= bytes@.len(),
            scan_end(bytes@, from as int) == scan_end(bytes@, position as int),
        decreases bytes.len() - position,
    {
        if bytes[position] != 0xff {
            position += 1;
        } else {
            let at: usize = find_run_end(bytes, position);
            if at >= bytes.len() {
                return None;
            }
            let marker: u8 = bytes[at];
            if matches!(marker, 0x00 | 0xd0..=0xd7) {
                position = at + 1;
            } else {
                return Some(position);
            }
        }
    }
    None
}

/// Whether some EXIF header in these bytes begins data with a GPS directory.
pub open spec fn some_exif_has_gps(bytes: Seq<u8>) -> bool {
    exists|i: int|
        #[trigger] occurs_at(bytes, utf8("Exif\0\0"@), i) && has_gps(bytes.skip(i))
}

fn any_exif_has_gps(bytes: &[u8]) -> (found: bool)
    ensures
        found == some_exif_has_gps(bytes@),
{
    let header = "Exif\0\0".as_bytes();
    proof {
        reveal_strlit("Exif\0\0");
        crate::bytes::lemma_ascii("Exif\0\0");
    }
    let mut from: usize = 0;
    loop
        invariant
            from <= bytes@.len(),
            header@ == utf8("Exif\0\0"@),
            header@.len() == 6,
            forall|i: int|
                0 <= i < from && #[trigger] occurs_at(bytes@, header@, i) ==> !has_gps(
                    bytes@.skip(i),
                ),
        decreases bytes@.len() - from,
    {
        proof {
            lemma_find_from(bytes@, header@, from as int);
        }
        match find_subslice_from(bytes, header, from) {
            Some(at) => {
                let rest = &bytes[at..bytes.len()];
                assert(rest@ =~= bytes@.skip(at as int));
                if exif_has_gps(rest) {
                    assert(occurs_at(bytes@, header@, at as int));
                    return true;
                }
                from = at + 1;
            },
            None => {
                return false;
            },
        }
    }
}

/// The start of an embedded JPEG.
pub open spec fn jpeg_start() -> Seq<u8> {
    seq![0xffu8, 0xd8u8, 0xffu8]
}

/// The report for bytes found after the end of the primary image.
#[verifier::opaque]
pub open spec fn trailing_item(trailing: Seq<u8>) -> ItemValue {
    let sensitive = some_exif_has_gps(trailing) || mentions_location(lossy_utf8(trailing));
    let size = decimal(trailing.len()) + " bytes after the end of the image"@;
    let with_image = if find(trailing, jpeg_start()) is Some {
        size + "; contains a secondary embedded image"@
    } else {
        size
    };
    let detail = if sensitive {
        with_image + "; includes GPS location"@
    } else {
        with_image
    };
    item("Trailing data"@, detail, sensitive)
}

/// Describe bytes found after the end of the primary image. Such bytes are not part
/// of the image and are removed.
pub fn jpeg_trailing_item(trailing: &[u8]) -> (new: MetadataItem)
    ensures
        new@ == trailing_item(trailing@),
{
    reveal(trailing_item);
    let start: Vec<u8> = vec![0xff, 0xd8, 0xff];
    assert(start@ =~= jpeg_start());
    let embedded_image = find_subslice(trailing, &start).is_some();
    let sensitive = any_exif_has_gps(trailing) || text_mentions_location(
        lossy_text(trailing).as_str(),
    );
    let mut detail = decimal_text(trailing.len() as u64);
    detail.append(" bytes after the end of the image");
    if embedded_image {
        detail.append("; contains a secondary embedded image");
    }
    if sensitive {
        detail.append("; includes GPS location");
    }
    MetadataItem::new("Trailing data".to_owned(), detail, sensitive)
}

/// A marker segment with its length field.
pub open spec fn segment_bytes(marker: u8, payload: Seq<u8>) -> Seq<u8> {
    seq![
        0xffu8,
        marker,
        ((payload.len() + 2) / 256) as u8,
        ((payload.len() + 2) % 256) as u8,
    ] + payload
}

/// A marker segment with its length field.
pub fn jpeg_segment_bytes(marker: u8, payload: &[u8]) -> (segment: Vec<u8>)
    requires
        payload@.len() + 2 <= u16::MAX,
    ensures
        segment@ == segment_bytes(marker, payload@),
{
    let length: usize = payload.len() + 2;
    let mut segment: Vec<u8> = vec![0xff, marker, (length / 256) as u8, (length % 256) as u8];
    push_bytes(&mut segment, payload);
    assert(segment@ =~= segment_bytes(marker, payload@));
    segment
}

/// The orientation that a dropped segment leaves behind: that of the first EXIF
/// block with one, unless it is the default.
pub open spec fn kept_orientation(marker: u8, payload: Seq<u8>, kept: bool) -> Option<u16> {
    if marker == 0xe1 && !kept {
        match orientation_of(payload) {
            Some(value) => if value != 1 {
                Some(value)
            } else {
                None
            },
            None => None,
        }
    } else {
        None
    }
}

/// A walk's result with items and bytes put in front.
pub open spec fn prefixed(
    items: Seq<ItemValue>,
    bytes: Seq<u8>,
    rest: Result<(Seq<ItemValue>, Seq<u8>), Seq<char>>,
) -> Result<(Seq<ItemValue>, Seq<u8>), Seq<char>> {
    match rest {
        Ok((more_items, more_bytes)) => Ok((items + more_items, bytes + more_bytes)),
        Err(error) => Err(error),
    }
}

/// What the walk from the marker at `from` on reports and keeps. `saw_scan` says
/// whether scan data came before, `kept` whether an orientation was re-emitted
/// before.
pub open spec fn walk_from(
    bytes: Seq<u8>,
    from: int,
    strip: bool,
    saw_scan: bool,
    kept: bool,
) -> Result<(Seq<ItemValue>, Seq<u8>), Seq<char>>
    decreases bytes.len() - from,
{
    if from < 0 || from >= bytes.len() {
        Err("Could not read this truncated JPEG."@)
    } else if bytes[from] != 0xff {
        Err("Could not read this JPEG marker stream."@)
    } else {
        let at = run_end(bytes, from);
        let next = at + 1;
        proof {
            lemma_run_end(bytes, from);
        }
        if at >= bytes.len() {
            Err("Could not read this truncated JPEG marker."@)
        } else if bytes[at] == 0x00 {
            Err("Could not read this JPEG marker stream."@)
        } else if bytes[at] == 0xd9 {
            if !saw_scan {
                Err("Could not read this JPEG: it ends before image scan data."@)
            } else {
                Ok(
                    (
                        if next < bytes.len() {
                            seq![trailing_item(bytes.skip(next))]
                        } else {
                            Seq::empty()
                        },
                        bytes.subrange(from, next),
                    ),
                )
            }
        } else if is_standalone(bytes[at]) {
            prefixed(
                Seq::empty(),
                bytes.subrange(from, next),
                walk_from(bytes, next, strip, saw_scan, kept),
            )
        } else if next + 2 > bytes.len() {
            Err("Could not read this truncated JPEG segment."@)
        } else if be16(bytes, next) < 2 {
            Err("Could not read this JPEG segment length."@)
        } else if next + be16(bytes, next) > bytes.len() {
            Err("Could not read this truncated JPEG segment."@)
        } else {
            let end = next + be16(bytes, next);
            let payload = bytes.subrange(next + 2, end);
            if bytes[at] == 0xda {
                proof {
                    lemma_scan_end(bytes, end);
                }
                match scan_end(bytes, end) {
                    None => Err("Could not read this truncated JPEG scan data."@),
                    Some(stop) => prefixed(
                        Seq::empty(),
                        bytes.subrange(from, stop),
                        walk_from(bytes, stop, strip, true, kept),
                    ),
                }
            } else {
                match jpeg_item_value(bytes[at], payload) {
                    None => prefixed(
                        Seq::empty(),
                        bytes.subrange(from, end),
                        walk_from(bytes, end, strip, saw_scan, kept),
                    ),
                    Some(found) => if !strip {
                        prefixed(
                            seq![found],
                            bytes.subrange(from, end),
                            walk_from(bytes, end, strip, saw_scan, kept),
                        )
                    } else {
                        match kept_orientation(bytes[at], payload, kept) {
                            Some(value) => prefixed(
                                seq![found],
                                segment_bytes(0xe1, minimal_exif(value)),
                                walk_from(bytes, end, strip, saw_scan, true),
                            ),
                            None => prefixed(
                                seq![found],
                                Seq::empty(),
                                walk_from(bytes, end, strip, saw_scan, kept),
                            ),
                        }
                    },
                }
            }
        }
    }
}

/// What the walk of a whole JPEG reports and keeps.
pub open spec fn walked_jpeg(bytes: Seq<u8>, strip: bool) -> Result<
    (Seq<ItemValue>, Seq<u8>),
    Seq<char>,
> {
    if !begins_with(bytes, jpeg_start()) {
        Err("Could not read this JPEG: invalid signature."@)
    } else {
        prefixed(Seq::empty(), bytes.subrange(0, 2), walk_from(bytes, 2, strip, false, false))
    }
}

/// What the walk of a whole JPEG reports and keeps, when its orientation is to go as
/// well.
pub open spec fn cleared_walk(bytes: Seq<u8>) -> Result<(Seq<ItemValue>, Seq<u8>), Seq<char>> {
    if !begins_with(bytes, jpeg_start()) {
        Err("Could not read this JPEG: invalid signature."@)
    } else {
        prefixed(Seq::empty(), bytes.subrange(0, 2), walk_from(bytes, 2, true, false, true))
    }
}

/// Whether a JPEG carries nothing that is reported or dropped.
pub open spec fn is_bare_jpeg(bytes: Seq<u8>) -> bool {
    walked_jpeg(bytes, true) == Ok::<(Seq<ItemValue>, Seq<u8>), Seq<char>>((Seq::empty(), bytes))
}

/// A walk by its values.
pub open spec fn walk_outcome(result: Result<(Vec<MetadataItem>, Vec<u8>), String>) -> Result<
    (Seq<ItemValue>, Seq<u8>),
    Seq<char>,
> {
    match result {
        Ok((items, bytes)) => Ok((item_values(items@), bytes@)),
        Err(error) => Err(error@),
    }
}

fn is_jpeg_start(bytes: &[u8]) -> (start: bool)
    ensures
        start == begins_with(bytes@, jpeg_start()),
{
    let part: Vec<u8> = vec![0xff, 0xd8, 0xff];
    assert(part@ =~= jpeg_start());
    has_at(bytes, &part, 0)
}

/// Walk the whole marker stream, including every scan, to the EOI that closes the
/// primary image. Entropy-coded data is copied verbatim; the pixels are never
/// decoded or re-encoded.
///
/// Bytes after that EOI are removed and reported rather than kept. They are the
/// MPF secondary image / Ultra-HDR gain map / motion-photo video that modern
/// phones append, each carrying its own complete EXIF.
pub fn walk_jpeg(bytes: &[u8], strip: bool) -> (walked: Result<(Vec<MetadataItem>, Vec<u8>), String>)
    ensures
        walk_outcome(walked) == walked_jpeg(bytes@, strip),
{
    walk_markers(bytes, strip, false)
}

/// Walk the whole marker stream, leaving out metadata and the orientation with it.
pub fn clear_jpeg(bytes: &[u8]) -> (walked: Result<(Vec<MetadataItem>, Vec<u8>), String>)
    ensures
        walk_outcome(walked) == cleared_walk(bytes@),
{
    walk_markers(bytes, true, true)
}

fn walk_markers(bytes: &[u8], strip: bool, settled: bool) -> (walked: Result<
    (Vec<MetadataItem>, Vec<u8>),
    String,
>)
    ensures
        walk_outcome(walked) == if !begins_with(bytes@, jpeg_start()) {
            Err::<(Seq<ItemValue>, Seq<u8>), Seq<char>>(
                "Could not read this JPEG: invalid signature."@,
            )
        } else {
            prefixed(
                Seq::empty(),
                bytes@.subrange(0, 2),
                walk_from(bytes@, 2, strip, false, settled),
            )
        },
{
    if !is_jpeg_start(bytes) {
        return Err("Could not read this JPEG: invalid signature.".to_owned());
    }
    let mut output: Vec<u8> = Vec::new();
    push_range(&mut output, bytes, 0, 2);
    let mut items: Vec<MetadataItem> = Vec::new();
    let mut position: usize = 2;
    let mut saw_scan = false;
    let mut kept = settled;
    assert(output@ =~= bytes@.subrange(0, 2));
    assert(item_values(items@) =~= Seq::empty());
    while position < bytes.len()
        invariant
            2 <= position <= bytes@.len(),
            begins_with(bytes@, jpeg_start()),
            prefixed(
                Seq::empty(),
                bytes@.subrange(0, 2),
                walk_from(bytes@, 2, strip, false, settled),
            ) == prefixed(
                item_values(items@),
                output@,
                walk_from(bytes@, position as int, strip, saw_scan, kept),
            ),
        decreases bytes.len() - position,
    {
        let ghost rest = walk_from(bytes@, position as int, strip, saw_scan, kept);
        let ghost items0 = item_values(items@);
        let ghost output0 = output@;
        if bytes[position] != 0xff {
            return Err("Could not read this JPEG marker stream.".to_owned());
        }
        let at: usize = find_run_end(bytes, position);
        if at >= bytes.len() {
            return Err("Could not read this truncated JPEG marker.".to_owned());
        }
        let marker: u8 = bytes[at];
        let next: usize = at + 1;
        if marker == 0x00 {
            return Err("Could not read this JPEG marker stream.".to_owned());
        }
        if marker == 0xd9 {
            if !saw_scan {
                return Err("Could not read this JPEG: it ends before image scan data.".to_owned());
            }
            push_range(&mut output, bytes, position, next);
            if next < bytes.len() {
                let trailing = &bytes[next..bytes.len()];
                assert(trailing@ =~= bytes@.skip(next as int));
                let new = jpeg_trailing_item(trailing);
                items.push(new);
                assert(item_values(items@) =~= items0 + seq![new@]);
            } else {
                assert(items0 + Seq::<ItemValue>::empty() =~= items0);
            }
            return Ok((items, output));
        }
        let ghost mut new_items: Seq<ItemValue> = Seq::empty();
        let ghost mut new_bytes: Seq<u8> = Seq::empty();
        if stands_alone(marker) {
            push_range(&mut output, bytes, position, next);
            proof {
                new_bytes = bytes@.subrange(position as int, next as int);
            }
            position = next;
        } else {
            if bytes.len() - next < 2 {
                return Err("Could not read this truncated JPEG segment.".to_owned());
            }
            let length: usize = read_be16(bytes, next) as usize;
            if length < 2 {
                return Err("Could not read this JPEG segment length.".to_owned());
            }
            if length > bytes.len() - next {
                return Err("Could not read this truncated JPEG segment.".to_owned());
            }
            let end: usize = next + length;
            if marker == 0xda {
                match jpeg_scan_end(bytes, end) {
                    None => {
                        return Err("Could not read this truncated JPEG scan data.".to_owned());
                    },
                    Some(stop) => {
                        push_range(&mut output, bytes, position, stop);
                        proof {
                            new_bytes = bytes@.subrange(position as int, stop as int);
                        }
                        position = stop;
                        saw_scan = true;
                    },
                }
            } else {
                let payload = &bytes[next + 2..end];
                assert(payload@ =~= bytes@.subrange(next + 2, end as int));
                match jpeg_item(marker, payload) {
                    None => {
                        push_range(&mut output, bytes, position, end);
                        proof {
                            new_bytes = bytes@.subrange(position as int, end as int);
                        }
                    },
                    Some(new) => {
                        items.push(new);
                        proof {
                            new_items = seq![new@];
                        }
                        if !strip {
                            push_range(&mut output, bytes, position, end);
                            proof {
                                new_bytes = bytes@.subrange(position as int, end as int);
                            }
                        } else if marker == 0xe1 && !kept {
                            if let Some(value) = exif_orientation(payload) {
                                if value != 1 {
                                    let minimal = minimal_orientation_exif(value);
                                    let segment = jpeg_segment_bytes(0xe1, &minimal);
                                    push_bytes(&mut output, &segment);
                                    proof {
                                        new_bytes = segment@;
                                    }
                                    kept = true;
                                }
                            }
                        }
                    },
                }
                position = end;
            }
        }
        proof {
            let following = walk_from(bytes@, position as int, strip, saw_scan, kept);
            assert(rest == prefixed(new_items, new_bytes, following));
            lemma_prefixed(items0, output0, new_items, new_bytes, following);
            assert(item_values(items@) =~= items0 + new_items);
            assert(output@ =~= output0 + new_bytes);
        }
    }
    Err("Could not read this truncated JPEG.".to_owned())
}

/// Putting two parts in front of a walk is putting both in front at once.
pub proof fn lemma_prefixed(
    items: Seq<ItemValue>,
    bytes: Seq<u8>,
    more_items: Seq<ItemValue>,
    more_bytes: Seq<u8>,
    rest: Result<(Seq<ItemValue>, Seq<u8>), Seq<char>>,
)
    ensures
        prefixed(items, bytes, prefixed(more_items, more_bytes, rest)) == prefixed(
            items + more_items,
            bytes + more_bytes,
            rest,
        ),
{
    match rest {
        Ok((last_items, last_bytes)) => {
            assert(items + (more_items + last_items) =~= items + more_items + last_items);
            assert(bytes + (more_bytes + last_bytes) =~= bytes + more_bytes + last_bytes);
        },
        Err(_) => {},
    }
}

} // verus!
