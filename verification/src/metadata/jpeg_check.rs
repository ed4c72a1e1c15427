//! The structural check of a scrubbed JPEG, and what holds between the scrubber
//! and the check.

use vstd::prelude::*;

use crate::bytes::{be16, begins_with, begins_with_text, read_be16, utf8};
use crate::metadata::exif::{
    first_directory, is_minimal_exif, is_minimal_orientation_exif, minimal_exif,
    minimal_exif_reads_back, orientation_from, orientation_of, tiff_of, Directory,
};
use crate::metadata::item::ItemValue;
use crate::metadata::jpeg::{
    clear_jpeg, cleared_walk, is_bare_jpeg, is_scan_data, is_standalone, jpeg_item_value, jpeg_scan_end, jpeg_start,
    kept_orientation, lemma_run_end, lemma_scan_end, prefixed, run_end, scan_end, segment_bytes,
    walk_from, walk_jpeg, walked_jpeg,
};
use crate::text::{joined, outcome};

verus! {

/// What is still in the file, as the check says it.
pub open spec fn still_in_jpeg(what: Seq<char>) -> Seq<char> {
    "The scrubbed JPEG still contains "@ + what + "."@
}

/// The refusal of a JPEG that ends too soon.
pub open spec fn truncated_jpeg() -> Seq<char> {
    "The scrubbed JPEG is truncated."@
}

/// What a segment is that must not remain.
pub open spec fn leftover(marker: u8, payload: Seq<u8>) -> Option<Seq<char>> {
    if marker == 0xfe {
        Some("a comment segment"@)
    } else if marker == 0xe0 && !begins_with(payload, utf8("JFIF\0"@)) {
        Some("a non-JFIF APP0 segment"@)
    } else if marker == 0xe1 && !is_minimal_exif(payload) {
        Some("an APP1 segment that is not an orientation-only EXIF block"@)
    } else if marker == 0xe2 && !begins_with(payload, utf8("ICC_PROFILE\0"@)) {
        Some("a non-ICC APP2 segment"@)
    } else if marker == 0xee && !begins_with(payload, utf8("Adobe"@)) {
        Some("a non-Adobe APP14 segment"@)
    } else if 0xe3 <= marker <= 0xed || marker == 0xef {
        Some("an application metadata segment"@)
    } else {
        None
    }
}

/// What the check says of the marker stream from `from` on.
pub open spec fn checked_from(bytes: Seq<u8>, from: int) -> Result<(), Seq<char>>
    decreases bytes.len() - from,
{
    if from < 0 || from > bytes.len() {
        Err(truncated_jpeg())
    } else {
        let at = run_end(bytes, from);
        let next = at + 1;
        proof {
            lemma_run_end(bytes, from);
        }
        if at >= bytes.len() {
            Err(truncated_jpeg())
        } else if bytes[at] == 0xd9 {
            if next == bytes.len() {
                Ok(())
            } else {
                Err(still_in_jpeg("bytes after the end-of-image marker"@))
            }
        } else if is_standalone(bytes[at]) {
            checked_from(bytes, next)
        } else if next + 2 > bytes.len() || be16(bytes, next) < 2 || next + be16(bytes, next)
            > bytes.len() {
            Err(truncated_jpeg())
        } else {
            let end = next + be16(bytes, next);
            proof {
                lemma_scan_end(bytes, end);
            }
            match leftover(bytes[at], bytes.subrange(next + 2, end)) {
                Some(what) => Err(still_in_jpeg(what)),
                None => if bytes[at] == 0xda {
                    match scan_end(bytes, end) {
                        Some(stop) => checked_from(bytes, stop),
                        None => Err(truncated_jpeg()),
                    }
                } else {
                    checked_from(bytes, end)
                },
            }
        }
    }
}

/// What the structural check says of a JPEG: no metadata-class segment may
/// remain, the only APP1 allowed is a re-emitted orientation-only EXIF, and the
/// file must end at EOI.
pub open spec fn checked_jpeg(bytes: Seq<u8>) -> Result<(), Seq<char>> {
    if !begins_with(bytes, jpeg_start()) {
        Err("The scrubbed JPEG lost its signature."@)
    } else {
        checked_from(bytes, 2)
    }
}

fn find_leftover(marker: u8, payload: &[u8]) -> (what: Option<&'static str>)
    ensures
        match what {
            Some(what) => leftover(marker, payload@) == Some(what@),
            None => leftover(marker, payload@) is None,
        },
{
    if marker == 0xfe {
        Some("a comment segment")
    } else if marker == 0xe0 && !begins_with_text(payload, "JFIF\0") {
        Some("a non-JFIF APP0 segment")
    } else if marker == 0xe1 && !is_minimal_orientation_exif(payload) {
        Some("an APP1 segment that is not an orientation-only EXIF block")
    } else if marker == 0xe2 && !begins_with_text(payload, "ICC_PROFILE\0") {
        Some("a non-ICC APP2 segment")
    } else if marker == 0xee && !begins_with_text(payload, "Adobe") {
        Some("a non-Adobe APP14 segment")
    } else if (0xe3 <= marker && marker <= 0xed) || marker == 0xef {
        Some("an application metadata segment")
    } else {
        None
    }
}

fn still_contains(what: &str) -> (text: String)
    ensures
        text@ == still_in_jpeg(what@),
{
    let mut text = joined("The scrubbed JPEG still contains ", what);
    text.append(".");
    text
}

/// Independent marker walk: no metadata-class segment may remain, the only APP1
/// allowed is a re-emitted orientation-only EXIF, and the file must end at EOI.
pub fn verify_jpeg_structure(bytes: &[u8]) -> (checked: Result<(), String>)
    ensures
        outcome(checked) == checked_jpeg(bytes@),
{
    if bytes.len() < 3 || bytes[0] != 0xff || bytes[1] != 0xd8 || bytes[2] != 0xff {
        proof {
            if begins_with(bytes@, jpeg_start()) {
                assert(bytes@.subrange(0, 3)[0] == bytes@[0]);
                assert(bytes@.subrange(0, 3)[1] == bytes@[1]);
                assert(bytes@.subrange(0, 3)[2] == bytes@[2]);
            }
        }
        return Err("The scrubbed JPEG lost its signature.".to_owned());
    }
    assert(bytes@.subrange(0, 3) =~= jpeg_start());
    let mut position: usize = 2;
    loop
        invariant
            2 <= position <= bytes@.len(),
            checked_jpeg(bytes@) == checked_from(bytes@, position as int),
        decreases bytes.len() - position,
    {
        let mut at: usize = position;
        proof {
            lemma_run_end(bytes@, position as int);
        }
        while at < bytes.len() && bytes[at] == 0xff
            invariant
                position <= at <= bytes@.len(),
                run_end(bytes@, position as int) == run_end(bytes@, at as int),
            decreases bytes.len() - at,
        {
            at += 1;
        }
        if at >= bytes.len() {
            return Err("The scrubbed JPEG is truncated.".to_owned());
        }
        let marker: u8 = bytes[at];
        let next: usize = at + 1;
        if marker == 0xd9 {
            if next == bytes.len() {
                return Ok(());
            }
            return Err(still_contains("bytes after the end-of-image marker"));
        }
        if matches!(marker, 0xd8 | 0x01 | 0xd0..=0xd7) {
            position = next;
        } else {
            if bytes.len() - next < 2 {
                return Err("The scrubbed JPEG is truncated.".to_owned());
            }
            let length: usize = read_be16(bytes, next) as usize;
            if length < 2 || length > bytes.len() - next {
                return Err("The scrubbed JPEG is truncated.".to_owned());
            }
            let end: usize = next + length;
            let payload = &bytes[next + 2..end];
            assert(payload@ =~= bytes@.subrange(next + 2, end as int));
            if let Some(what) = find_leftover(marker, payload) {
                return Err(still_contains(what));
            }
            if marker == 0xda {
                match jpeg_scan_end(bytes, end) {
                    Some(stop) => {
                        position = stop;
                    },
                    None => {
                        return Err("The scrubbed JPEG is truncated.".to_owned());
                    },
                }
            } else {
                position = end;
            }
        }
    }
}

/// The stripped JPEG, when its marker stream can be walked and what is left
/// passes the check.
pub open spec fn stripped_jpeg(bytes: Seq<u8>) -> Option<Seq<u8>> {
    match walked_jpeg(bytes, true) {
        Ok((_, stripped)) => match checked_jpeg(stripped) {
            Ok(_) => Some(stripped),
            Err(_) => None,
        },
        Err(_) => None,
    }
}

/// Remove user metadata marker classes while preserving the JPEG's encoded image
/// data, its decode-relevant APP0/APP2/APP14 payloads, and its EXIF orientation.
///
/// Returns `None` when the marker stream cannot be walked safely or the result
/// fails structural verification. Callers must not fall back to the original
/// bytes: that would embed the unscrubbed file.
pub fn strip_jpeg_metadata(bytes: &[u8]) -> (stripped: Option<Vec<u8>>)
    ensures
        match stripped {
            Some(stripped) => stripped_jpeg(bytes@) == Some(stripped@),
            None => stripped_jpeg(bytes@) is None,
        },
{
    match walk_jpeg(bytes, true) {
        Ok((_, stripped)) => match verify_jpeg_structure(&stripped) {
            Ok(_) => Some(stripped),
            Err(_) => None,
        },
        Err(_) => None,
    }
}

/// The JPEG without its metadata and without its orientation, when its marker stream
/// can be walked and what is left passes the check.
pub open spec fn cleared_jpeg(bytes: Seq<u8>) -> Option<Seq<u8>> {
    match cleared_walk(bytes) {
        Ok((_, cleared)) => match checked_jpeg(cleared) {
            Ok(_) => Some(cleared),
            Err(_) => None,
        },
        Err(_) => None,
    }
}

/// Remove user metadata as `strip_jpeg_metadata` does, and the EXIF orientation with
/// it: what is left holds no EXIF block at all.
pub fn clear_jpeg_metadata(bytes: &[u8]) -> (cleared: Option<Vec<u8>>)
    ensures
        match cleared {
            Some(cleared) => cleared_jpeg(bytes@) == Some(cleared@),
            None => cleared_jpeg(bytes@) is None,
        },
{
    match clear_jpeg(bytes) {
        Ok((_, cleared)) => match verify_jpeg_structure(&cleared) {
            Ok(_) => Some(cleared),
            Err(_) => None,
        },
        Err(_) => None,
    }
}

/// What is reported is what is removed: a walk that strips reports the same
/// items as one that does not.
pub proof fn stripping_reports_the_same(bytes: Seq<u8>)
    ensures
        match (walked_jpeg(bytes, false), walked_jpeg(bytes, true)) {
            (Ok((found, _)), Ok((removed, _))) => found == removed,
            (Err(left), Err(right)) => left == right,
            _ => false,
        },
{
    lemma_same_report(bytes, 2, false, false, false);
}

proof fn lemma_same_report(bytes: Seq<u8>, from: int, saw_scan: bool, kept: bool, other: bool)
    requires
        0 <= from,
    ensures
        match (
            walk_from(bytes, from, false, saw_scan, other),
            walk_from(bytes, from, true, saw_scan, kept),
        ) {
            (Ok((found, _)), Ok((removed, _))) => found == removed,
            (Err(left), Err(right)) => left == right,
            _ => false,
        },
    decreases bytes.len() - from,
{
    if from < bytes.len() && bytes[from] == 0xff {
        lemma_run_end(bytes, from);
        let at = run_end(bytes, from);
        let next = at + 1;
        if at < bytes.len() && bytes[at] != 0 && bytes[at] != 0xd9 {
            if is_standalone(bytes[at]) {
                lemma_same_report(bytes, next, saw_scan, kept, other);
            } else if next + 2 <= bytes.len() && be16(bytes, next) >= 2 && next + be16(bytes, next)
                <= bytes.len() {
                let end = next + be16(bytes, next);
                let payload = bytes.subrange(next + 2, end);
                if bytes[at] == 0xda {
                    lemma_scan_end(bytes, end);
                    if let Some(stop) = scan_end(bytes, end) {
                        lemma_same_report(bytes, stop, true, kept, other);
                    }
                } else {
                    lemma_same_report(bytes, end, saw_scan, kept, other);
                    lemma_same_report(bytes, end, saw_scan, true, other);
                }
            }
        }
    }
}

/// A JPEG in which nothing is reported is stripped to exactly itself.
pub proof fn clean_jpeg_is_unchanged(bytes: Seq<u8>)
    requires
        walked_jpeg(bytes, true) matches Ok((items, _)) && items.len() == 0,
    ensures
        walked_jpeg(bytes, true) matches Ok((_, stripped)) && stripped == bytes,
{
    assert(walk_from(bytes, 2, true, false, false) matches Ok((items, _)) && items.len() == 0) by {
        let rest = walk_from(bytes, 2, true, false, false);
        assert(rest is Ok);
        assert((Seq::<ItemValue>::empty() + rest->Ok_0.0).len() == rest->Ok_0.0.len());
    }
    lemma_clean_rest(bytes, 2, false, false);
    assert(bytes.subrange(0, 2) + bytes.skip(2) =~= bytes);
}

#[verifier::spinoff_prover]
#[verifier::rlimit(90)]
proof fn lemma_clean_rest(bytes: Seq<u8>, from: int, saw_scan: bool, kept: bool)
    requires
        0 <= from,
        walk_from(bytes, from, true, saw_scan, kept) matches Ok((items, _)) && items.len() == 0,
    ensures
        walk_from(bytes, from, true, saw_scan, kept) matches Ok((_, rest)) && rest == bytes.skip(
            from,
        ),
    decreases bytes.len() - from,
{
    lemma_run_end(bytes, from);
    let at = run_end(bytes, from);
    let next = at + 1;
    if bytes[at] == 0xd9 {
        assert(bytes.subrange(from, next) =~= bytes.skip(from));
    } else if is_standalone(bytes[at]) {
        lemma_clean_step(bytes, from, next, walk_from(bytes, next, true, saw_scan, kept));
        lemma_clean_rest(bytes, next, saw_scan, kept);
        assert(bytes.subrange(from, next) + bytes.skip(next) =~= bytes.skip(from));
    } else {
        let end = next + be16(bytes, next);
        if bytes[at] == 0xda {
            lemma_scan_end(bytes, end);
            let stop = scan_end(bytes, end)->0;
            lemma_clean_step(bytes, from, stop, walk_from(bytes, stop, true, true, kept));
            lemma_clean_rest(bytes, stop, true, kept);
            assert(bytes.subrange(from, stop) + bytes.skip(stop) =~= bytes.skip(from));
        } else {
            let payload = bytes.subrange(next + 2, end);
            match jpeg_item_value(bytes[at], payload) {
                None => {
                    lemma_clean_step(bytes, from, end, walk_from(bytes, end, true, saw_scan, kept));
                    lemma_clean_rest(bytes, end, saw_scan, kept);
                    assert(bytes.subrange(from, end) + bytes.skip(end) =~= bytes.skip(from));
                },
                Some(found) => {
                    let whole = walk_from(bytes, from, true, saw_scan, kept);
                    assert(whole->Ok_0.0.len() > 0);
                },
            }
        }
    }
}

proof fn lemma_clean_step(
    bytes: Seq<u8>,
    from: int,
    to: int,
    rest: Result<(Seq<ItemValue>, Seq<u8>), Seq<char>>,
)
    requires
        prefixed(Seq::empty(), bytes.subrange(from, to), rest) matches Ok((items, _))
            && items.len() == 0,
    ensures
        rest matches Ok((items, _)) && items.len() == 0,
{
    assert((Seq::<ItemValue>::empty() + rest->Ok_0.0).len() == rest->Ok_0.0.len());
}

/// An orientation that is read lies from 1 to 8.
pub proof fn orientation_is_valid(payload: Seq<u8>)
    ensures
        orientation_of(payload) matches Some(value) ==> 1 <= value <= 8,
{
    let tiff = tiff_of(payload);
    if let Some(directory) = first_directory(tiff) {
        lemma_orientation_valid(tiff, directory, 0);
    }
}

proof fn lemma_orientation_valid(tiff: Seq<u8>, directory: Directory, from: int)
    ensures
        orientation_from(tiff, directory, from) matches Some(value) ==> 1 <= value <= 8,
    decreases directory.count - from,
{
    if from < directory.count {
        lemma_orientation_valid(tiff, directory, from + 1);
    }
}

/// A run of `FF` bytes with the byte behind it has the same length wherever the
/// same bytes stand.
proof fn lemma_same_run(bytes: Seq<u8>, from: int, whole: Seq<u8>, start: int)
    requires
        0 <= from <= bytes.len(),
        0 <= start,
        run_end(bytes, from) < bytes.len(),
        start + run_end(bytes, from) - from < whole.len(),
        forall|i: int|
            from <= i <= run_end(bytes, from) ==> whole[start + i - from] == #[trigger] bytes[i],
    ensures
        run_end(whole, start) == start + run_end(bytes, from) - from,
    decreases bytes.len() - from,
{
    lemma_run_end(bytes, from);
    assert(whole[start + from - from] == bytes[from]);
    if bytes[from] == 0xff {
        assert(run_end(bytes, from) == run_end(bytes, from + 1));
        assert forall|i: int| from + 1 <= i <= run_end(bytes, from + 1) implies whole[(start + 1)
            + i - (from + 1)] == #[trigger] bytes[i] by {
            assert(whole[start + i - from] == bytes[i]);
        }
        lemma_same_run(bytes, from + 1, whole, start + 1);
    }
}

/// Scan data read elsewhere goes on where it ended before.
proof fn lemma_same_scan(bytes: Seq<u8>, from: int, stop: int, whole: Seq<u8>, start: int)
    requires
        0 <= from,
        0 <= start,
        scan_end(bytes, from) == Some(stop),
        start + stop - from <= whole.len(),
        forall|i: int| from <= i < stop ==> whole[start + i - from] == #[trigger] bytes[i],
    ensures
        scan_end(whole, start) == scan_end(whole, start + stop - from),
    decreases bytes.len() - from,
{
    lemma_scan_end(bytes, from);
    if from == stop {
    } else if bytes[from] != 0xff {
        assert(whole[start + from - from] == bytes[from]);
        lemma_scan_end(bytes, from + 1);
        assert forall|i: int| from + 1 <= i < stop implies whole[(start + 1) + i - (from + 1)]
            == #[trigger] bytes[i] by {
            assert(whole[start + i - from] == bytes[i]);
        }
        lemma_same_scan(bytes, from + 1, stop, whole, start + 1);
    } else {
        lemma_run_end(bytes, from);
        let at = run_end(bytes, from);
        assert(at < bytes.len() && is_scan_data(bytes[at]));
        lemma_scan_end(bytes, at + 1);
        assert(whole[start + from - from] == bytes[from]);
        assert forall|i: int| from <= i <= at implies whole[start + i - from]
            == #[trigger] bytes[i] by {}
        lemma_same_run(bytes, from, whole, start);
        let there = start + at - from;
        assert(whole[start + at - from] == bytes[at]);
        assert forall|i: int| at + 1 <= i < stop implies whole[(there + 1) + i - (at + 1)]
            == #[trigger] bytes[i] by {
            assert(whole[start + i - from] == bytes[i]);
        }
        lemma_same_scan(bytes, at + 1, stop, whole, there + 1);
    }
}

/// Whether a segment is none that the picture is decoded from: an application
/// segment or a comment.
pub open spec fn is_side_segment(marker: u8) -> bool {
    0xe0 <= marker <= 0xef || marker == 0xfe
}

/// The bytes of the marker stream from `from` on to the end of the image, without
/// application segments and comments: tables, frame headers and every scan.
pub open spec fn image_data_from(bytes: Seq<u8>, from: int) -> Seq<u8>
    decreases bytes.len() - from,
{
    if from < 0 || from >= bytes.len() || bytes[from] != 0xff {
        Seq::empty()
    } else {
        let at = run_end(bytes, from);
        let next = at + 1;
        proof {
            lemma_run_end(bytes, from);
        }
        if at >= bytes.len() {
            Seq::empty()
        } else if bytes[at] == 0xd9 {
            bytes.subrange(from, next)
        } else if is_standalone(bytes[at]) {
            bytes.subrange(from, next) + image_data_from(bytes, next)
        } else if next + 2 > bytes.len() || be16(bytes, next) < 2 || next + be16(bytes, next)
            > bytes.len() {
            Seq::empty()
        } else {
            let end = next + be16(bytes, next);
            proof {
                lemma_scan_end(bytes, end);
            }
            if is_side_segment(bytes[at]) {
                image_data_from(bytes, end)
            } else if bytes[at] == 0xda {
                match scan_end(bytes, end) {
                    Some(stop) => bytes.subrange(from, stop) + image_data_from(bytes, stop),
                    None => Seq::empty(),
                }
            } else {
                bytes.subrange(from, end) + image_data_from(bytes, end)
            }
        }
    }
}

/// What a JPEG's picture is decoded from, byte for byte.
pub open spec fn jpeg_image_data(bytes: Seq<u8>) -> Seq<u8> {
    image_data_from(bytes, 2)
}

/// The first orientation that turns the picture, from the segment at `from` on to
/// the end of the image: what a viewer goes by.
pub open spec fn first_turn_from(bytes: Seq<u8>, from: int) -> Option<u16>
    decreases bytes.len() - from,
{
    if from < 0 || from >= bytes.len() || bytes[from] != 0xff {
        None
    } else {
        let at = run_end(bytes, from);
        let next = at + 1;
        proof {
            lemma_run_end(bytes, from);
        }
        if at >= bytes.len() || bytes[at] == 0xd9 {
            None
        } else if is_standalone(bytes[at]) {
            first_turn_from(bytes, next)
        } else if next + 2 > bytes.len() || be16(bytes, next) < 2 || next + be16(bytes, next)
            > bytes.len() {
            None
        } else {
            let end = next + be16(bytes, next);
            proof {
                lemma_scan_end(bytes, end);
            }
            match kept_orientation(bytes[at], bytes.subrange(next + 2, end), false) {
                Some(value) => Some(value),
                None => if bytes[at] == 0xda {
                    match scan_end(bytes, end) {
                        Some(stop) => first_turn_from(bytes, stop),
                        None => None,
                    }
                } else {
                    first_turn_from(bytes, end)
                },
            }
        }
    }
}

/// How a JPEG's picture is turned before it is shown; `None` when it is upright.
pub open spec fn jpeg_turn(bytes: Seq<u8>) -> Option<u16> {
    first_turn_from(bytes, 2)
}

/// Whether a stream that goes on at `start` passes the check, is stripped to
/// itself, holds this image data and turns the picture so, both when it is read as markers and when it
/// is read as the rest of scan data.
#[verifier::opaque]
spec fn is_settled(
    whole: Seq<u8>,
    start: int,
    saw_scan: bool,
    kept: bool,
    image: Seq<u8>,
    turn: Option<u16>,
) -> bool {
    &&& 0 <= start < whole.len()
    &&& whole[start] == 0xff
    &&& checked_from(whole, start) is Ok
    &&& keeps(walk_from(whole, start, true, saw_scan, kept), whole.skip(start), kept)
    &&& image_data_from(whole, start) == image
    &&& first_turn_from(whole, start) == turn
    &&& saw_scan ==> match scan_end(whole, start) {
        Some(stop) => checked_from(whole, stop) is Ok && keeps(
            walk_from(whole, stop, true, true, kept),
            whole.skip(stop),
            kept,
        ) && whole.subrange(start, stop) + image_data_from(whole, stop) == image
            && first_turn_from(whole, stop) == turn,
        None => false,
    }
}

/// Whether a walk succeeds and keeps exactly these bytes, and reports nothing where
/// no orientation is left to report.
spec fn keeps(
    walked: Result<(Seq<ItemValue>, Seq<u8>), Seq<char>>,
    bytes: Seq<u8>,
    settled: bool,
) -> bool {
    match walked {
        Ok((items, kept)) => kept == bytes && (settled ==> items.len() == 0),
        Err(_) => false,
    }
}

/// A segment in front of a settled rest, which is read as one step.
proof fn lemma_settled_step(
    whole: Seq<u8>,
    start: int,
    next: int,
    items: Seq<ItemValue>,
    saw_scan: bool,
    kept: bool,
    rest: Result<(Seq<ItemValue>, Seq<u8>), Seq<char>>,
)
    requires
        0 <= start < next <= whole.len(),
        walk_from(whole, start, true, saw_scan, kept) == prefixed(
            items,
            whole.subrange(start, next),
            rest,
        ),
        keeps(rest, whole.skip(next), kept),
        kept ==> items.len() == 0,
    ensures
        keeps(walk_from(whole, start, true, saw_scan, kept), whole.skip(start), kept),
{
    assert(whole.subrange(start, next) + whole.skip(next) =~= whole.skip(start));
}

/// The end of the image is settled.
proof fn lemma_settled_end(whole: Seq<u8>, start: int, kept: bool)
    requires
        0 <= start < whole.len(),
        whole[start] == 0xff,
        run_end(whole, start) + 1 == whole.len(),
        whole[run_end(whole, start)] == 0xd9,
    ensures
        is_settled(whole, start, true, kept, whole.skip(start), None),
{
    reveal(is_settled);
    assert(whole.subrange(start, whole.len() as int) =~= whole.skip(start));
    assert(walk_from(whole, start, true, true, kept) matches Ok((_, rest)) && rest
        == whole.subrange(start, whole.len() as int));
    assert(checked_from(whole, start) is Ok);
    assert(scan_end(whole, start) == Some(start));
    assert(image_data_from(whole, start) == whole.skip(start));
    assert(whole.subrange(start, start) + image_data_from(whole, start) =~= whole.skip(start));
}

/// A marker that stands alone in front of a settled rest is settled.
#[verifier::spinoff_prover]
#[verifier::rlimit(50)]
proof fn lemma_settled_alone(
    whole: Seq<u8>,
    start: int,
    saw_scan: bool,
    kept: bool,
    image: Seq<u8>,
    turn: Option<u16>,
)
    requires
        0 <= start < whole.len(),
        whole[start] == 0xff,
        run_end(whole, start) < whole.len(),
        is_standalone(whole[run_end(whole, start)]),
        is_settled(whole, run_end(whole, start) + 1, saw_scan, kept, image, turn),
    ensures
        is_settled(
            whole,
            start,
            saw_scan,
            kept,
            whole.subrange(start, run_end(whole, start) + 1) + image,
            turn,
        ),
{
    reveal(is_settled);
    lemma_run_end(whole, start);
    let next = run_end(whole, start) + 1;
    lemma_settled_step(
        whole,
        start,
        next,
        Seq::empty(),
        saw_scan,
        kept,
        walk_from(whole, next, true, saw_scan, kept),
    );
    assert(checked_from(whole, start) == checked_from(whole, next));
    assert(image_data_from(whole, start) == whole.subrange(start, next) + image);
    if saw_scan {
        lemma_scan_end(whole, start);
        let stop = scan_end(whole, start)->0;
        if is_scan_data(whole[run_end(whole, start)]) {
            assert(scan_end(whole, start) == scan_end(whole, next));
            lemma_scan_end(whole, next);
            assert(whole.subrange(start, stop) + image_data_from(whole, stop)
                =~= whole.subrange(start, next) + (whole.subrange(next, stop) + image_data_from(
                whole,
                stop,
            )));
        } else {
            assert(stop == start);
            assert(whole.subrange(start, stop) + image_data_from(whole, stop)
                =~= image_data_from(whole, start));
        }
    }
}

/// A segment as far as the picture is decoded from it.
spec fn shown(marker: u8, segment: Seq<u8>) -> Seq<u8> {
    if is_side_segment(marker) {
        Seq::empty()
    } else {
        segment
    }
}

/// A segment that is kept, in front of a settled rest, is settled.
#[verifier::spinoff_prover]
#[verifier::rlimit(50)]
proof fn lemma_settled_segment(
    whole: Seq<u8>,
    start: int,
    end: int,
    saw_scan: bool,
    kept: bool,
    image: Seq<u8>,
    turn: Option<u16>,
)
    requires
        0 <= start < whole.len(),
        whole[start] == 0xff,
        run_end(whole, start) + 3 <= whole.len(),
        ({
            let at = run_end(whole, start);
            let marker = whole[at];
            &&& marker != 0x00 && marker != 0xd9 && marker != 0xda
            &&& !is_standalone(marker)
            &&& be16(whole, at + 1) >= 2
            &&& at + 1 + be16(whole, at + 1) == end
            &&& end <= whole.len()
            &&& jpeg_item_value(marker, whole.subrange(at + 3, end)) is None
        }),
        is_settled(whole, end, saw_scan, kept, image, turn),
    ensures
        is_settled(
            whole,
            start,
            saw_scan,
            kept,
            shown(whole[run_end(whole, start)], whole.subrange(start, end)) + image,
            turn,
        ),
{
    reveal(is_settled);
    lemma_run_end(whole, start);
    let at = run_end(whole, start);
    lemma_kept_is_no_leftover(whole[at], whole.subrange(at + 3, end));
    lemma_settled_step(
        whole,
        start,
        end,
        Seq::empty(),
        saw_scan,
        kept,
        walk_from(whole, end, true, saw_scan, kept),
    );
    assert(checked_from(whole, start) == checked_from(whole, end));
    assert(scan_end(whole, start) == Some(start));
    assert(image_data_from(whole, start) =~= shown(whole[at], whole.subrange(start, end)) + image);
    assert(whole.subrange(start, start) + image_data_from(whole, start) =~= image_data_from(
        whole,
        start,
    ));
}

/// A scan that runs into a settled rest is settled.
#[verifier::spinoff_prover]
#[verifier::rlimit(50)]
proof fn lemma_settled_scan(
    whole: Seq<u8>,
    start: int,
    rest: int,
    saw_scan: bool,
    kept: bool,
    image: Seq<u8>,
    turn: Option<u16>,
)
    requires
        0 <= start < whole.len(),
        whole[start] == 0xff,
        run_end(whole, start) + 3 <= whole.len(),
        ({
            let at = run_end(whole, start);
            let end = at + 1 + be16(whole, at + 1);
            &&& whole[at] == 0xda
            &&& be16(whole, at + 1) >= 2
            &&& end <= whole.len()
            &&& end <= rest
            &&& scan_end(whole, end) == scan_end(whole, rest)
        }),
        is_settled(whole, rest, true, kept, image, turn),
    ensures
        is_settled(whole, start, saw_scan, kept, whole.subrange(start, rest) + image, turn),
{
    reveal(is_settled);
    lemma_run_end(whole, start);
    let at = run_end(whole, start);
    let end = at + 1 + be16(whole, at + 1);
    lemma_scan_end(whole, rest);
    let stop = scan_end(whole, rest)->0;
    assert(leftover(0xda, whole.subrange(at + 3, end)) is None);
    lemma_settled_step(
        whole,
        start,
        stop,
        Seq::empty(),
        saw_scan,
        kept,
        walk_from(whole, stop, true, true, kept),
    );
    assert(checked_from(whole, start) == checked_from(whole, stop));
    assert(scan_end(whole, start) == Some(start));
    assert(image_data_from(whole, start) == whole.subrange(start, stop) + image_data_from(
        whole,
        stop,
    ));
    assert(whole.subrange(start, stop) + image_data_from(whole, stop) =~= whole.subrange(
        start,
        rest,
    ) + (whole.subrange(rest, stop) + image_data_from(whole, stop)));
    assert(whole.subrange(start, start) + image_data_from(whole, start) =~= image_data_from(
        whole,
        start,
    ));
}

/// Bytes that are copied are read as they were where they came from.
proof fn lemma_copied_marker(
    bytes: Seq<u8>,
    from: int,
    to: int,
    before: Seq<u8>,
    rest: Seq<u8>,
    whole: Seq<u8>,
)
    requires
        0 <= from < bytes.len(),
        bytes[from] == 0xff,
        run_end(bytes, from) < to <= bytes.len(),
        whole == before + bytes.subrange(from, to) + rest,
    ensures
        run_end(whole, before.len() as int) == before.len() + run_end(bytes, from) - from,
        forall|i: int| from <= i < to ==> whole[before.len() + i - from] == #[trigger] bytes[i],
{
    let segment = bytes.subrange(from, to);
    assert forall|i: int| from <= i < to implies whole[before.len() + i - from]
        == #[trigger] bytes[i] by {
        assert(segment[i - from] == bytes[i]);
    }
    lemma_run_end(bytes, from);
    lemma_same_run(bytes, from, whole, before.len() as int);
}

/// A copied marker that stands alone, in front of a settled rest, is settled.
#[verifier::spinoff_prover]
#[verifier::rlimit(50)]
proof fn lemma_copied_alone(
    bytes: Seq<u8>,
    from: int,
    before: Seq<u8>,
    rest: Seq<u8>,
    saw_scan: bool,
    kept: bool,
    image: Seq<u8>,
    turn: Option<u16>,
)
    requires
        0 <= from < bytes.len(),
        bytes[from] == 0xff,
        run_end(bytes, from) < bytes.len(),
        is_standalone(bytes[run_end(bytes, from)]),
        ({
            let further = before + bytes.subrange(from, run_end(bytes, from) + 1);
            is_settled(further + rest, further.len() as int, saw_scan, kept, image, turn)
        }),
    ensures
        is_settled(
            before + (bytes.subrange(from, run_end(bytes, from) + 1) + rest),
            before.len() as int,
            saw_scan,
            kept,
            bytes.subrange(from, run_end(bytes, from) + 1) + image,
            turn,
        ),
{
    lemma_run_end(bytes, from);
    let at = run_end(bytes, from);
    let segment = bytes.subrange(from, at + 1);
    let whole = before + (segment + rest);
    let start = before.len() as int;
    assert(whole =~= before + segment + rest);
    lemma_copied_marker(bytes, from, at + 1, before, rest, whole);
    assert(whole[start + from - from] == bytes[from]);
    assert(whole[start + at - from] == bytes[at]);
    assert((before + segment).len() == start + at - from + 1);
    assert(whole.subrange(start, start + at - from + 1) =~= segment);
    lemma_settled_alone(whole, start, saw_scan, kept, image, turn);
}

/// A copied scan in front of a settled rest is settled.
#[verifier::spinoff_prover]
#[verifier::rlimit(50)]
proof fn lemma_copied_scan(
    bytes: Seq<u8>,
    from: int,
    stop: int,
    before: Seq<u8>,
    rest: Seq<u8>,
    saw_scan: bool,
    kept: bool,
    image: Seq<u8>,
    turn: Option<u16>,
)
    requires
        0 <= from < bytes.len(),
        bytes[from] == 0xff,
        run_end(bytes, from) + 3 <= bytes.len(),
        ({
            let at = run_end(bytes, from);
            let end = at + 1 + be16(bytes, at + 1);
            let further = before + bytes.subrange(from, stop);
            &&& bytes[at] == 0xda
            &&& be16(bytes, at + 1) >= 2
            &&& end <= bytes.len()
            &&& scan_end(bytes, end) == Some(stop)
            &&& is_settled(further + rest, further.len() as int, true, kept, image, turn)
        }),
    ensures
        is_settled(
            before + (bytes.subrange(from, stop) + rest),
            before.len() as int,
            saw_scan,
            kept,
            bytes.subrange(from, stop) + image,
            turn,
        ),
{
    lemma_run_end(bytes, from);
    let at = run_end(bytes, from);
    let end = at + 1 + be16(bytes, at + 1);
    lemma_scan_end(bytes, end);
    let segment = bytes.subrange(from, stop);
    let whole = before + (segment + rest);
    let start = before.len() as int;
    assert(whole =~= before + segment + rest);
    lemma_copied_marker(bytes, from, stop, before, rest, whole);
    assert(whole[start + from - from] == bytes[from]);
    assert(whole[start + at - from] == bytes[at]);
    assert(whole[start + (at + 1) - from] == bytes[at + 1]);
    assert(whole[start + (at + 2) - from] == bytes[at + 2]);
    let there = start + end - from;
    assert forall|i: int| end <= i < stop implies whole[there + i - end] == #[trigger] bytes[i] by {
        assert(whole[start + i - from] == bytes[i]);
    }
    lemma_same_scan(bytes, end, stop, whole, there);
    assert((before + segment).len() == start + stop - from);
    assert(whole.subrange(start, start + stop - from) =~= segment);
    lemma_settled_scan(whole, start, start + stop - from, saw_scan, kept, image, turn);
}

/// A copied segment in front of a settled rest is settled.
#[verifier::spinoff_prover]
#[verifier::rlimit(50)]
proof fn lemma_copied_segment(
    bytes: Seq<u8>,
    from: int,
    before: Seq<u8>,
    rest: Seq<u8>,
    saw_scan: bool,
    kept: bool,
    image: Seq<u8>,
    turn: Option<u16>,
)
    requires
        0 <= from < bytes.len(),
        bytes[from] == 0xff,
        run_end(bytes, from) + 3 <= bytes.len(),
        ({
            let at = run_end(bytes, from);
            let end = at + 1 + be16(bytes, at + 1);
            let marker = bytes[at];
            let further = before + bytes.subrange(from, end);
            &&& marker != 0x00 && marker != 0xd9 && marker != 0xda
            &&& !is_standalone(marker)
            &&& be16(bytes, at + 1) >= 2
            &&& end <= bytes.len()
            &&& jpeg_item_value(marker, bytes.subrange(at + 3, end)) is None
            &&& is_settled(further + rest, further.len() as int, saw_scan, kept, image, turn)
        }),
    ensures
        ({
            let at = run_end(bytes, from);
            let end = at + 1 + be16(bytes, at + 1);
            is_settled(
                before + (bytes.subrange(from, end) + rest),
                before.len() as int,
                saw_scan,
                kept,
                shown(bytes[at], bytes.subrange(from, end)) + image,
                turn,
            )
        }),
{
    lemma_run_end(bytes, from);
    let at = run_end(bytes, from);
    let end = at + 1 + be16(bytes, at + 1);
    let segment = bytes.subrange(from, end);
    let whole = before + (segment + rest);
    let start = before.len() as int;
    assert(whole =~= before + segment + rest);
    lemma_copied_marker(bytes, from, end, before, rest, whole);
    assert(whole[start + from - from] == bytes[from]);
    assert(whole[start + at - from] == bytes[at]);
    assert(whole[start + (at + 1) - from] == bytes[at + 1]);
    assert(whole[start + (at + 2) - from] == bytes[at + 2]);
    let payload = bytes.subrange(at + 3, end);
    let there = whole.subrange(start + at + 3 - from, start + end - from);
    assert(there =~= payload) by {
        assert forall|i: int| 0 <= i < payload.len() implies there[i] == payload[i] by {
            assert(whole[start + (at + 3 + i) - from] == bytes[at + 3 + i]);
        }
    }
    assert((before + segment).len() == start + end - from);
    assert(whole.subrange(start, start + end - from) =~= segment);
    lemma_settled_segment(whole, start, start + end - from, saw_scan, kept, image, turn);
}

/// What the strip of a marker stream leaves is settled, behind whatever bytes it
/// is put.
#[verifier::spinoff_prover]
#[verifier::rlimit(90)]
proof fn lemma_settled(bytes: Seq<u8>, from: int, saw_scan: bool, kept: bool, before: Seq<u8>)
    requires
        0 <= from,
        walk_from(bytes, from, true, saw_scan, kept) is Ok,
    ensures
        is_settled(
            before + walk_from(bytes, from, true, saw_scan, kept)->Ok_0.1,
            before.len() as int,
            saw_scan,
            kept,
            image_data_from(bytes, from),
            turn_left(bytes, from, kept),
        ),
    decreases bytes.len() - from,
{
    lemma_run_end(bytes, from);
    let out = walk_from(bytes, from, true, saw_scan, kept)->Ok_0.1;
    let start = before.len() as int;
    let at = run_end(bytes, from);
    let next = at + 1;
    let marker = bytes[at];
    if marker == 0xd9 {
        let whole = before + out;
        assert(whole =~= before + bytes.subrange(from, next) + Seq::empty());
        lemma_copied_marker(bytes, from, next, before, Seq::empty(), whole);
        assert(whole[start + from - from] == bytes[from]);
        assert(whole[start + at - from] == bytes[at]);
        assert(whole.skip(start) =~= bytes.subrange(from, next));
        lemma_settled_end(whole, start, kept);
    } else if is_standalone(marker) {
        let rest = walk_from(bytes, next, true, saw_scan, kept)->Ok_0.1;
        lemma_settled(bytes, next, saw_scan, kept, before + bytes.subrange(from, next));
        let image = image_data_from(bytes, next);
        let turn = turn_left(bytes, next, kept);
        lemma_copied_alone(bytes, from, before, rest, saw_scan, kept, image, turn);
    } else {
        let end = next + be16(bytes, next);
        let payload = bytes.subrange(next + 2, end);
        if marker == 0xda {
            lemma_scan_end(bytes, end);
            let stop = scan_end(bytes, end)->0;
            let rest = walk_from(bytes, stop, true, true, kept)->Ok_0.1;
            lemma_settled(bytes, stop, true, kept, before + bytes.subrange(from, stop));
            let image = image_data_from(bytes, stop);
            let turn = turn_left(bytes, stop, kept);
            lemma_copied_scan(bytes, from, stop, before, rest, saw_scan, kept, image, turn);
        } else {
            let image = image_data_from(bytes, end);
            assert(image_data_from(bytes, from) =~= shown(marker, bytes.subrange(from, end)) + image);
            match jpeg_item_value(marker, payload) {
                None => {
                    let rest = walk_from(bytes, end, true, saw_scan, kept)->Ok_0.1;
                    lemma_settled(bytes, end, saw_scan, kept, before + bytes.subrange(from, end));
                    lemma_kept_is_no_leftover(marker, payload);
                    let turn = turn_left(bytes, end, kept);
                    lemma_copied_segment(bytes, from, before, rest, saw_scan, kept, image, turn);
                },
                Some(found) => {
                    lemma_reported_is_aside(marker, payload);
                    match kept_orientation(marker, payload, kept) {
                        Some(value) => {
                            let segment = segment_bytes(0xe1, minimal_exif(value));
                            let rest = walk_from(bytes, end, true, saw_scan, true)->Ok_0.1;
                            let whole = before + out;
                            lemma_settled(bytes, end, saw_scan, true, before + segment);
                            assert(whole =~= before + segment + rest);
                            assert(segment.len() == 36);
                            assert(whole.subrange(start, start + 36) =~= segment);
                            orientation_is_valid(payload);
                            lemma_minimal_segment(whole, start, value, saw_scan, kept, image);
                        },
                        None => {
                            let rest = walk_from(bytes, end, true, saw_scan, kept)->Ok_0.1;
                            lemma_settled(bytes, end, saw_scan, kept, before);
                            assert(out =~= rest);
                        },
                    }
                },
            }
        }
    }
}

/// The turn that the strip of a marker stream leaves: none once it was re-emitted.
spec fn turn_left(bytes: Seq<u8>, from: int, kept: bool) -> Option<u16> {
    if kept {
        None
    } else {
        first_turn_from(bytes, from)
    }
}

/// A segment that the scrubber keeps is none that must not remain, and turns
/// nothing.
proof fn lemma_kept_is_no_leftover(marker: u8, payload: Seq<u8>)
    requires
        jpeg_item_value(marker, payload) is None,
    ensures
        leftover(marker, payload) is None,
        kept_orientation(marker, payload, false) is None,
{
    reveal(jpeg_item_value);
}

/// The picture is decoded from no segment that is reported.
proof fn lemma_reported_is_aside(marker: u8, payload: Seq<u8>)
    requires
        jpeg_item_value(marker, payload) is Some,
    ensures
        is_side_segment(marker),
{
    reveal(jpeg_item_value);
}

/// A re-emitted orientation segment is allowed, and re-emitted again.
proof fn lemma_minimal_segment(
    whole: Seq<u8>,
    start: int,
    value: u16,
    saw_scan: bool,
    kept: bool,
    image: Seq<u8>,
)
    requires
        0 <= start,
        !kept,
        1 <= value <= 8,
        value != 1,
        start + 36 <= whole.len(),
        whole.subrange(start, start + 36) == segment_bytes(0xe1, minimal_exif(value)),
        is_settled(whole, start + 36, saw_scan, true, image, None),
    ensures
        is_settled(whole, start, saw_scan, kept, image, Some(value)),
{
    reveal(is_settled);
    let segment = segment_bytes(0xe1, minimal_exif(value));
    minimal_exif_reads_back(value);
    assert(segment.len() == 36);
    assert(whole[start] == segment[0]);
    assert(whole[start + 1] == segment[1]);
    assert(whole[start + 2] == segment[2]);
    assert(whole[start + 3] == segment[3]);
    assert(run_end(whole, start) == start + 1) by {
        assert(run_end(whole, start + 1) == start + 1);
    }
    assert(be16(whole, start + 2) == 34);
    let payload = whole.subrange(start + 4, start + 36);
    assert(payload =~= minimal_exif(value)) by {
        assert forall|i: int| 0 <= i < 32 implies payload[i] == minimal_exif(value)[i] by {
            assert(whole[start + 4 + i] == segment[4 + i]);
        }
    }
    assert(leftover(0xe1, payload) is None);
    assert(jpeg_item_value(0xe1, payload) is Some) by {
        reveal(jpeg_item_value);
    }
    let found = jpeg_item_value(0xe1, payload)->0;
    lemma_settled_step(
        whole,
        start,
        start + 36,
        seq![found],
        saw_scan,
        kept,
        walk_from(whole, start + 36, true, saw_scan, true),
    );
    assert(image_data_from(whole, start) == image_data_from(whole, start + 36));
    assert(kept_orientation(0xe1, payload, false) == Some(value));
    assert(first_turn_from(whole, start) == Some(value));
    assert(whole.subrange(start, start) + image_data_from(whole, start) =~= image_data_from(
        whole,
        start,
    ));
}

/// What the scrubber leaves of a JPEG always passes the structural check.
pub proof fn stripped_jpeg_passes_the_check(bytes: Seq<u8>)
    requires
        walked_jpeg(bytes, true) is Ok,
    ensures
        checked_jpeg(walked_jpeg(bytes, true)->Ok_0.1) is Ok,
        stripped_jpeg(bytes) == Some(walked_jpeg(bytes, true)->Ok_0.1),
{
    reveal(is_settled);
    let start = bytes.subrange(0, 2);
    let stripped = walked_jpeg(bytes, true)->Ok_0.1;
    lemma_settled(bytes, 2, false, false, start);
    assert(bytes.subrange(0, 3) == jpeg_start());
    assert(bytes.subrange(0, 3)[0] == bytes[0]);
    assert(bytes.subrange(0, 3)[1] == bytes[1]);
    assert(stripped.subrange(0, 3) =~= jpeg_start());
}

/// Stripping a stripped JPEG changes nothing.
pub proof fn stripping_jpeg_twice_is_stripping_once(bytes: Seq<u8>)
    requires
        walked_jpeg(bytes, true) is Ok,
    ensures
        walked_jpeg(walked_jpeg(bytes, true)->Ok_0.1, true) matches Ok((_, again)) && again
            == walked_jpeg(bytes, true)->Ok_0.1,
{
    reveal(is_settled);
    let start = bytes.subrange(0, 2);
    let stripped = walked_jpeg(bytes, true)->Ok_0.1;
    lemma_settled(bytes, 2, false, false, start);
    assert(bytes.subrange(0, 3) == jpeg_start());
    assert(bytes.subrange(0, 3)[0] == bytes[0]);
    assert(bytes.subrange(0, 3)[1] == bytes[1]);
    assert(stripped.subrange(0, 3) =~= jpeg_start());
    assert(stripped.subrange(0, 2) + stripped.skip(2) =~= stripped);
}

/// Stripping leaves the bytes that the picture is decoded from exactly as they
/// were: every table, every frame header and every scan.
pub proof fn stripping_keeps_jpeg_image_data(bytes: Seq<u8>)
    requires
        walked_jpeg(bytes, true) is Ok,
    ensures
        jpeg_image_data(walked_jpeg(bytes, true)->Ok_0.1) == jpeg_image_data(bytes),
{
    reveal(is_settled);
    lemma_settled(bytes, 2, false, false, bytes.subrange(0, 2));
}

/// Stripping leaves a picture turned as it was: a portrait photo still shows
/// upright.
pub proof fn stripping_keeps_the_turn(bytes: Seq<u8>)
    requires
        walked_jpeg(bytes, true) is Ok,
    ensures
        jpeg_turn(walked_jpeg(bytes, true)->Ok_0.1) == jpeg_turn(bytes),
{
    reveal(is_settled);
    lemma_settled(bytes, 2, false, false, bytes.subrange(0, 2));
}

/// A JPEG that carries nothing to strip passes the structural check.
pub proof fn bare_jpeg_passes_the_check(bytes: Seq<u8>)
    requires
        is_bare_jpeg(bytes),
    ensures
        checked_jpeg(bytes) is Ok,
{
    stripped_jpeg_passes_the_check(bytes);
}

/// A cleared JPEG carries nothing that is reported or dropped, no orientation either,
/// and the bytes that its picture is decoded from are as they were.
pub proof fn cleared_jpeg_is_bare(bytes: Seq<u8>)
    requires
        cleared_walk(bytes) is Ok,
    ensures
        cleared_jpeg(bytes) matches Some(cleared) && is_bare_jpeg(cleared) && jpeg_turn(cleared)
            is None && jpeg_image_data(cleared) == jpeg_image_data(bytes),
{
    reveal(is_settled);
    let start = bytes.subrange(0, 2);
    let cleared = cleared_walk(bytes)->Ok_0.1;
    lemma_settled(bytes, 2, false, true, start);
    assert(bytes.subrange(0, 3) == jpeg_start());
    assert(bytes.subrange(0, 3)[0] == bytes[0]);
    assert(bytes.subrange(0, 3)[1] == bytes[1]);
    assert(cleared.subrange(0, 3) =~= jpeg_start());
    assert(cleared.subrange(0, 2) + cleared.skip(2) =~= cleared);
    lemma_unturned(cleared, 2, false);
    let rest = walk_from(cleared, 2, true, false, true);
    assert(Seq::<ItemValue>::empty() + rest->Ok_0.0 =~= Seq::<ItemValue>::empty());
}

/// A walk that reports nothing leaves the same whether or not an orientation was
/// kept before.
proof fn lemma_unturned(bytes: Seq<u8>, from: int, saw_scan: bool)
    requires
        0 <= from,
        walk_from(bytes, from, true, saw_scan, true) matches Ok((items, _)) && items.len() == 0,
    ensures
        walk_from(bytes, from, true, saw_scan, false) == walk_from(
            bytes,
            from,
            true,
            saw_scan,
            true,
        ),
    decreases bytes.len() - from,
{
    if from < bytes.len() && bytes[from] == 0xff {
        lemma_run_end(bytes, from);
        let at = run_end(bytes, from);
        let next = at + 1;
        if at < bytes.len() && bytes[at] != 0 && bytes[at] != 0xd9 {
            if is_standalone(bytes[at]) {
                let rest = walk_from(bytes, next, true, saw_scan, true)->Ok_0.0;
                assert((Seq::<ItemValue>::empty() + rest).len() == rest.len());
                lemma_unturned(bytes, next, saw_scan);
            } else if next + 2 <= bytes.len() && be16(bytes, next) >= 2 && next + be16(bytes, next)
                <= bytes.len() {
                let end = next + be16(bytes, next);
                let payload = bytes.subrange(next + 2, end);
                if bytes[at] == 0xda {
                    lemma_scan_end(bytes, end);
                    if let Some(stop) = scan_end(bytes, end) {
                        let rest = walk_from(bytes, stop, true, true, true)->Ok_0.0;
                        assert((Seq::<ItemValue>::empty() + rest).len() == rest.len());
                        lemma_unturned(bytes, stop, true);
                    }
                } else {
                    let rest = walk_from(bytes, end, true, saw_scan, true)->Ok_0.0;
                    match jpeg_item_value(bytes[at], payload) {
                        None => {
                            assert((Seq::<ItemValue>::empty() + rest).len() == rest.len());
                            lemma_unturned(bytes, end, saw_scan);
                        },
                        Some(found) => {
                            assert((seq![found] + rest).len() > 0);
                        },
                    }
                }
            }
        }
    }
}

/// A run of `FF` bytes ends in the same place behind other bytes.
proof fn lemma_run_behind(before: Seq<u8>, bytes: Seq<u8>, from: int)
    requires
        0 <= from <= bytes.len(),
    ensures
        run_end(before + bytes, before.len() + from) == before.len() + run_end(bytes, from),
    decreases bytes.len() - from,
{
    let whole = before + bytes;
    if from < bytes.len() {
        assert(whole[before.len() + from] == bytes[from]);
        if bytes[from] == 0xff {
            lemma_run_behind(before, bytes, from + 1);
        }
    }
}

/// Scan data ends in the same place behind other bytes.
proof fn lemma_scan_behind(before: Seq<u8>, bytes: Seq<u8>, from: int)
    requires
        0 <= from <= bytes.len(),
    ensures
        scan_end(before + bytes, before.len() + from) == match scan_end(bytes, from) {
            Some(end) => Some(before.len() + end),
            None => None,
        },
    decreases bytes.len() - from,
{
    let whole = before + bytes;
    if from < bytes.len() {
        assert(whole[before.len() + from] == bytes[from]);
        if bytes[from] != 0xff {
            lemma_scan_behind(before, bytes, from + 1);
        } else {
            lemma_run_end(bytes, from);
            lemma_run_behind(before, bytes, from);
            let at = run_end(bytes, from);
            if at < bytes.len() {
                assert(whole[before.len() + at] == bytes[at]);
                if is_scan_data(bytes[at]) {
                    lemma_scan_behind(before, bytes, at + 1);
                }
            }
        }
    }
}

/// A marker stream is walked in the same way behind other bytes.
#[verifier::spinoff_prover]
#[verifier::rlimit(50)]
proof fn lemma_walk_behind(
    before: Seq<u8>,
    bytes: Seq<u8>,
    from: int,
    strip: bool,
    saw_scan: bool,
    kept: bool,
)
    requires
        0 <= from <= bytes.len(),
    ensures
        walk_from(before + bytes, before.len() + from, strip, saw_scan, kept) == walk_from(
            bytes,
            from,
            strip,
            saw_scan,
            kept,
        ),
    decreases bytes.len() - from,
{
    let whole = before + bytes;
    let shift = before.len() as int;
    if from < bytes.len() {
        assert(whole[shift + from] == bytes[from]);
        if bytes[from] == 0xff {
            lemma_run_end(bytes, from);
            lemma_run_behind(before, bytes, from);
            let at = run_end(bytes, from);
            let next = at + 1;
            if at < bytes.len() {
                assert(whole[shift + at] == bytes[at]);
                assert(whole.subrange(shift + from, shift + next) =~= bytes.subrange(from, next));
                if bytes[at] == 0xd9 {
                    assert(whole.skip(shift + next) =~= bytes.skip(next));
                } else if is_standalone(bytes[at]) {
                    lemma_walk_behind(before, bytes, next, strip, saw_scan, kept);
                } else if bytes[at] != 0 && next + 2 <= bytes.len() {
                    assert(whole[shift + next] == bytes[next]);
                    assert(whole[shift + next + 1] == bytes[next + 1]);
                    assert(be16(whole, shift + next) == be16(bytes, next));
                    let end = next + be16(bytes, next);
                    if be16(bytes, next) >= 2 && end <= bytes.len() {
                        assert(whole.subrange(shift + next + 2, shift + end) =~= bytes.subrange(
                            next + 2,
                            end,
                        ));
                        assert(whole.subrange(shift + from, shift + end) =~= bytes.subrange(
                            from,
                            end,
                        ));
                        if bytes[at] == 0xda {
                            lemma_scan_behind(before, bytes, end);
                            lemma_scan_end(bytes, end);
                            if let Some(stop) = scan_end(bytes, end) {
                                assert(whole.subrange(shift + from, shift + stop)
                                    =~= bytes.subrange(from, stop));
                                lemma_walk_behind(before, bytes, stop, strip, true, kept);
                            }
                        } else {
                            lemma_walk_behind(before, bytes, end, strip, saw_scan, kept);
                            lemma_walk_behind(before, bytes, end, strip, saw_scan, true);
                        }
                    }
                }
            }
        }
    }
}

/// A metadata segment put in front of a scrubbed JPEG is taken out again, and nothing
/// else changes: the report gains the item for it, and the file is as it was. An EXIF
/// block with a turn of its own is left out, since its turn is kept.
pub proof fn inserted_segment_is_removed(bytes: Seq<u8>, marker: u8, payload: Seq<u8>)
    requires
        walked_jpeg(bytes, true) matches Ok((_, stripped)) && stripped == bytes,
        payload.len() + 2 <= u16::MAX,
        jpeg_item_value(marker, payload) is Some,
        kept_orientation(marker, payload, false) is None,
    ensures
        walked_jpeg(
            bytes.subrange(0, 2) + segment_bytes(marker, payload) + bytes.skip(2),
            true,
        ) == Ok::<(Seq<ItemValue>, Seq<u8>), Seq<char>>(
            (
                seq![jpeg_item_value(marker, payload)->0] + walked_jpeg(bytes, true)->Ok_0.0,
                bytes,
            ),
        ),
{
    let start = bytes.subrange(0, 2);
    let segment = segment_bytes(marker, payload);
    let rest = bytes.skip(2);
    let whole = start + segment + rest;
    assert(bytes =~= start + rest);
    assert(whole =~= (start + segment) + rest);
    lemma_walk_behind(start, rest, 0, true, false, false);
    lemma_walk_behind(start + segment, rest, 0, true, false, false);
    lemma_reported_is_aside(marker, payload);
    assert(segment.len() == 4 + payload.len());
    assert(whole[2] == segment[0]);
    assert(whole[3] == segment[1]);
    assert(whole[4] == segment[2]);
    assert(whole[5] == segment[3]);
    assert(run_end(whole, 2) == 3) by {
        assert(run_end(whole, 3) == 3);
    }
    let end = 6 + payload.len() as int;
    assert(be16(whole, 4) == payload.len() + 2);
    assert(whole.subrange(6, end) =~= payload) by {
        assert forall|i: int| 0 <= i < payload.len() implies whole.subrange(6, end)[i]
            == payload[i] by {
            assert(whole[6 + i] == segment[4 + i]);
        }
    }
    assert(bytes.subrange(0, 3) == jpeg_start());
    assert(bytes.subrange(0, 3)[0] == bytes[0]);
    assert(bytes.subrange(0, 3)[1] == bytes[1]);
    assert(whole.subrange(0, 3) =~= jpeg_start());
    assert(whole.subrange(0, 2) =~= start);
    let found = jpeg_item_value(marker, payload)->0;
    let further = walk_from(bytes, 2, true, false, false);
    assert(walk_from(whole, end, true, false, false) == further);
    assert(walk_from(whole, 2, true, false, false) == prefixed(
        seq![found],
        Seq::empty(),
        further,
    ));
    assert(Seq::<ItemValue>::empty() + (seq![found] + further->Ok_0.0) =~= seq![found] + (
    Seq::<ItemValue>::empty() + further->Ok_0.0));
    assert(start + (Seq::<u8>::empty() + further->Ok_0.1) =~= start + further->Ok_0.1);
}

} // verus!
