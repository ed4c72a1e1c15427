//! Which parts of a JPEG stay when it is scrubbed, and which are reported.

use vstd::prelude::*;

use crate::bytes::{be16, begins_with, utf8};
use crate::metadata::exif::{has_gps, minimal_exif, orientation_of};
use crate::metadata::item::ItemValue;
use crate::metadata::jpeg::{
    baseline_from, frame_at, is_baseline, is_standalone, jpeg_item_value, lemma_run_end, lemma_scan_end, run_end, scan_end,
    segment_bytes, trailing_item, walk_from, walked_jpeg, JpegFrame,
};

verus! {

/// Whether a segment is needed to show the picture as it is: any but the application segments
/// and comments, and of those the pixel density, the colour profile and the colour transform.
pub open spec fn shows_the_picture(marker: u8, payload: Seq<u8>) -> bool {
    ||| !(0xe0 <= marker <= 0xef) && marker != 0xfe
    ||| marker == 0xe0 && begins_with(payload, utf8("JFIF\0"@))
    ||| marker == 0xe2 && begins_with(payload, utf8("ICC_PROFILE\0"@))
    ||| marker == 0xee && begins_with(payload, utf8("Adobe"@))
}

/// The turn that an EXIF block gives the picture, if it gives one.
pub open spec fn turn_of(marker: u8, payload: Seq<u8>) -> Option<u16> {
    match orientation_of(payload) {
        Some(value) => if marker == 0xe1 && value != 1 {
            Some(value)
        } else {
            None
        },
        None => None,
    }
}

/// The bytes of a marker stream from `from` on that show the picture, in order, with the first
/// turn, unless there was one before, in a block of its own.
pub open spec fn picture_from(bytes: Seq<u8>, from: int, turned: bool) -> Seq<u8>
    decreases bytes.len() - from,
{
    if from < 0 || from >= bytes.len() {
        Seq::empty()
    } else {
        let at = run_end(bytes, from);
        let next = at + 1;
        proof {
            lemma_run_end(bytes, from);
        }
        if at >= bytes.len() {
            Seq::empty()
        } else if bytes[at] == 0xd9 {
            bytes.subrange(from, next)
        } else if is_standalone(bytes[at]) {
            bytes.subrange(from, next) + picture_from(bytes, next, turned)
        } else if next + 2 > bytes.len() || be16(bytes, next) < 2 || next + be16(bytes, next)
            > bytes.len() {
            Seq::empty()
        } else {
            let end = next + be16(bytes, next);
            let payload = bytes.subrange(next + 2, end);
            if bytes[at] == 0xda {
                proof {
                    lemma_scan_end(bytes, end);
                }
                match scan_end(bytes, end) {
                    Some(stop) => bytes.subrange(from, stop) + picture_from(bytes, stop, turned),
                    None => Seq::empty(),
                }
            } else if shows_the_picture(bytes[at], payload) {
                bytes.subrange(from, end) + picture_from(bytes, end, turned)
            } else if !turned && turn_of(bytes[at], payload) is Some {
                segment_bytes(0xe1, minimal_exif(turn_of(bytes[at], payload)->0)) + picture_from(
                    bytes,
                    end,
                    true,
                )
            } else {
                picture_from(bytes, end, turned)
            }
        }
    }
}

/// Whether each segment of a marker stream from `from` on that goes holds a location, in order,
/// and then whether what follows the picture does.
pub open spec fn locations_from(bytes: Seq<u8>, from: int) -> Seq<bool>
    decreases bytes.len() - from,
{
    if from < 0 || from >= bytes.len() {
        Seq::empty()
    } else {
        let at = run_end(bytes, from);
        let next = at + 1;
        proof {
            lemma_run_end(bytes, from);
        }
        if at >= bytes.len() {
            Seq::empty()
        } else if bytes[at] == 0xd9 {
            if next < bytes.len() {
                seq![trailing_item(bytes.skip(next)).sensitive]
            } else {
                Seq::empty()
            }
        } else if is_standalone(bytes[at]) {
            locations_from(bytes, next)
        } else if next + 2 > bytes.len() || be16(bytes, next) < 2 || next + be16(bytes, next)
            > bytes.len() {
            Seq::empty()
        } else {
            let end = next + be16(bytes, next);
            let payload = bytes.subrange(next + 2, end);
            if bytes[at] == 0xda {
                proof {
                    lemma_scan_end(bytes, end);
                }
                match scan_end(bytes, end) {
                    Some(stop) => locations_from(bytes, stop),
                    None => Seq::empty(),
                }
            } else if shows_the_picture(bytes[at], payload) {
                locations_from(bytes, end)
            } else {
                seq![
                    bytes[at] == 0xe1 && begins_with(payload, utf8("Exif\0\0"@)) && has_gps(
                        payload,
                    ),
                ] + locations_from(bytes, end)
            }
        }
    }
}

/// The part of a report that says what holds a location.
pub open spec fn flags(items: Seq<ItemValue>) -> Seq<bool> {
    items.map_values(|item: ItemValue| item.sensitive)
}

/// A segment is reported exactly when the picture does not need it, and as a location exactly
/// when it is an EXIF block with one.
pub proof fn needless_segments_are_reported(marker: u8, payload: Seq<u8>)
    ensures
        jpeg_item_value(marker, payload) is None <==> shows_the_picture(marker, payload),
        jpeg_item_value(marker, payload) matches Some(found) ==> (found.sensitive <==> marker
            == 0xe1 && begins_with(payload, utf8("Exif\0\0"@)) && has_gps(payload)),
{
    reveal(jpeg_item_value);
}

#[verifier::spinoff_prover]
#[verifier::rlimit(60)]
proof fn lemma_walk(bytes: Seq<u8>, from: int, saw_scan: bool, kept: bool)
    requires
        walk_from(bytes, from, true, saw_scan, kept) is Ok,
    ensures
        walk_from(bytes, from, true, saw_scan, kept)->Ok_0.1 == picture_from(bytes, from, kept),
        flags(walk_from(bytes, from, true, saw_scan, kept)->Ok_0.0) == locations_from(bytes, from),
    decreases bytes.len() - from,
{
    let at = run_end(bytes, from);
    let next = at + 1;
    lemma_run_end(bytes, from);
    if bytes[at] == 0xd9 {
        let items = walk_from(bytes, from, true, saw_scan, kept)->Ok_0.0;
        assert(flags(items) =~= locations_from(bytes, from));
    } else if is_standalone(bytes[at]) {
        lemma_walk(bytes, next, saw_scan, kept);
        lemma_no_item(walk_from(bytes, next, true, saw_scan, kept)->Ok_0.0);
    } else {
        let end = next + be16(bytes, next);
        let payload = bytes.subrange(next + 2, end);
        if bytes[at] == 0xda {
            lemma_scan_end(bytes, end);
            let stop = scan_end(bytes, end)->0;
            lemma_walk(bytes, stop, true, kept);
            lemma_no_item(walk_from(bytes, stop, true, true, kept)->Ok_0.0);
        } else {
            needless_segments_are_reported(bytes[at], payload);
            let turns = !kept && turn_of(bytes[at], payload) is Some && !shows_the_picture(
                bytes[at],
                payload,
            );
            lemma_walk(bytes, end, saw_scan, kept || turns);
            let rest = walk_from(bytes, end, true, saw_scan, kept || turns)->Ok_0;
            if let Some(found) = jpeg_item_value(bytes[at], payload) {
                assert(flags(seq![found] + rest.0) =~= seq![found.sensitive] + flags(rest.0));
                assert(Seq::<u8>::empty() + rest.1 =~= rest.1);
            } else {
                lemma_no_item(rest.0);
            }
        }
    }
}

proof fn lemma_no_item(items: Seq<ItemValue>)
    ensures
        Seq::<ItemValue>::empty() + items == items,
{
    assert(Seq::<ItemValue>::empty() + items =~= items);
}

/// Scrubbing a JPEG keeps, byte for byte and in order, every part that the picture is shown
/// from, its colour profile and its pixel density among them, and its first turn. All else
/// goes, and each part that goes is reported, one that holds a location as such.
pub proof fn scrubbing_keeps_exactly_the_picture(bytes: Seq<u8>)
    requires
        walked_jpeg(bytes, true) is Ok,
    ensures
        walked_jpeg(bytes, true)->Ok_0.1 == bytes.subrange(0, 2) + picture_from(bytes, 2, false),
        flags(walked_jpeg(bytes, true)->Ok_0.0) == locations_from(bytes, 2),
{
    lemma_walk(bytes, 2, false, false);
    lemma_no_item(walk_from(bytes, 2, true, false, false)->Ok_0.0);
}

/// Whether a marker begins a frame header of any kind.
pub open spec fn begins_a_frame(marker: u8) -> bool {
    0xc0 <= marker <= 0xcf && marker != 0xc4 && marker != 0xc8 && marker != 0xcc
}

/// The marker of the first frame header from the marker at `from` on, if there is one before
/// the first scan.
pub open spec fn first_frame_from(bytes: Seq<u8>, from: int) -> Option<u8>
    decreases bytes.len() - from,
{
    if from < 0 || from >= bytes.len() || bytes[from] != 0xff {
        None
    } else {
        let at = run_end(bytes, from);
        proof {
            lemma_run_end(bytes, from);
        }
        if at >= bytes.len() || bytes[at] == 0xda {
            None
        } else if begins_a_frame(bytes[at]) {
            Some(bytes[at])
        } else if bytes[at] == 0x01 || 0xd0 <= bytes[at] <= 0xd9 {
            first_frame_from(bytes, at + 1)
        } else if at + 3 > bytes.len() || be16(bytes, at + 1) < 2 || at + 1 + be16(bytes, at + 1)
            > bytes.len() {
            None
        } else {
            first_frame_from(bytes, at + 1 + be16(bytes, at + 1))
        }
    }
}

proof fn lemma_baseline(bytes: Seq<u8>, from: int)
    ensures
        baseline_from(bytes, from) <==> first_frame_from(bytes, from) == Some(0xc0u8),
    decreases bytes.len() - from,
{
    if 0 <= from < bytes.len() && bytes[from] == 0xff {
        let at = run_end(bytes, from);
        lemma_run_end(bytes, from);
        if at < bytes.len() && bytes[at] != 0xda && !begins_a_frame(bytes[at]) {
            if bytes[at] == 0x01 || 0xd0 <= bytes[at] <= 0xd9 {
                lemma_baseline(bytes, at + 1);
            } else if at + 3 <= bytes.len() && be16(bytes, at + 1) >= 2 && at + 1 + be16(
                bytes,
                at + 1,
            ) <= bytes.len() {
                lemma_baseline(bytes, at + 1 + be16(bytes, at + 1));
            }
        }
    }
}

/// A JPEG is taken for a baseline one exactly when its first frame header says so: a
/// progressive, lossless or arithmetic one never is.
pub proof fn first_frame_decides_the_kind(bytes: Seq<u8>)
    requires
        bytes.len() >= 2,
        bytes[0] == 0xff,
        bytes[1] == 0xd8,
    ensures
        is_baseline(bytes) <==> first_frame_from(bytes, 2) == Some(0xc0u8),
{
    lemma_baseline(bytes, 2);
}

/// A frame header is read by place: its height, its width and its components, of eight bits.
pub proof fn frames_are_read_by_place(bytes: Seq<u8>, at: int, frame: JpegFrame)
    requires
        frame_at(bytes, at) == Some(frame),
    ensures
        frame.height == 256 * bytes[at + 3] + bytes[at + 4],
        frame.width == 256 * bytes[at + 5] + bytes[at + 6],
        frame.components == bytes[at + 7],
        bytes[at + 2] == 8,
{
}

} // verus!
