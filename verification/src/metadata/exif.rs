//! The two facts read from EXIF data: whether it points at a GPS directory, and
//! the orientation it records.

use vstd::prelude::*;

use crate::bytes::{be16, be32, begins_with, begins_with_text, in_bounds, le16, le32, read_be16,
    read_be32, read_le16, read_le32, same_bytes, utf8};

verus! {

/// The 16-bit number at `at` in the byte order of the data.
pub open spec fn tiff16(tiff: Seq<u8>, at: int, little_endian: bool) -> nat {
    if little_endian {
        le16(tiff, at)
    } else {
        be16(tiff, at)
    }
}

/// The 32-bit number at `at` in the byte order of the data.
pub open spec fn tiff32(tiff: Seq<u8>, at: int, little_endian: bool) -> nat {
    if little_endian {
        le32(tiff, at)
    } else {
        be32(tiff, at)
    }
}

fn read_tiff16(tiff: &[u8], at: usize, little_endian: bool) -> (value: u16)
    requires
        in_bounds(tiff@, at as int, 2),
    ensures
        value == tiff16(tiff@, at as int, little_endian),
{
    if little_endian {
        read_le16(tiff, at)
    } else {
        read_be16(tiff, at)
    }
}

fn read_tiff32(tiff: &[u8], at: usize, little_endian: bool) -> (value: u32)
    requires
        in_bounds(tiff@, at as int, 4),
    ensures
        value == tiff32(tiff@, at as int, little_endian),
{
    if little_endian {
        read_le32(tiff, at)
    } else {
        read_be32(tiff, at)
    }
}

/// The TIFF data behind an optional `Exif` header.
pub open spec fn tiff_of(payload: Seq<u8>) -> Seq<u8> {
    if begins_with(payload, utf8("Exif\0\0"@)) {
        payload.skip(utf8("Exif\0\0"@).len() as int)
    } else {
        payload
    }
}

fn find_tiff(payload: &[u8]) -> (tiff: &[u8])
    ensures
        tiff@ == tiff_of(payload@),
{
    if begins_with_text(payload, "Exif\0\0") {
        let header: usize = "Exif\0\0".as_bytes().len();
        &payload[header..payload.len()]
    } else {
        payload
    }
}

/// The first directory of TIFF data: its byte order, where its entries begin,
/// and how many it declares.
pub struct Directory {
    pub little_endian: bool,
    pub entries: int,
    pub count: nat,
}

/// The byte order that TIFF data begins with.
pub open spec fn byte_order(tiff: Seq<u8>) -> Option<bool> {
    if begins_with(tiff, utf8("II"@)) {
        Some(true)
    } else if begins_with(tiff, utf8("MM"@)) {
        Some(false)
    } else {
        None
    }
}

/// The first directory of TIFF data, if its header is in order.
pub open spec fn first_directory(tiff: Seq<u8>) -> Option<Directory> {
    match byte_order(tiff) {
        Some(little_endian) => if tiff.len() < 8 || tiff16(tiff, 2, little_endian) != 42 {
            None
        } else {
            let offset = tiff32(tiff, 4, little_endian);
            if offset + 2 > tiff.len() {
                None
            } else {
                Some(
                    Directory {
                        little_endian,
                        entries: offset as int + 2,
                        count: tiff16(tiff, offset as int, little_endian),
                    },
                )
            }
        },
        None => None,
    }
}

struct FoundDirectory {
    little_endian: bool,
    entries: usize,
    count: usize,
}

fn read_first_directory(tiff: &[u8]) -> (found: Option<FoundDirectory>)
    ensures
        match found {
            Some(found) => first_directory(tiff@) == Some(
                Directory {
                    little_endian: found.little_endian,
                    entries: found.entries as int,
                    count: found.count as nat,
                },
            ) && found.entries <= tiff@.len() && found.count <= u16::MAX,
            None => first_directory(tiff@) is None,
        },
{
    let little_endian = if begins_with_text(tiff, "II") {
        true
    } else if begins_with_text(tiff, "MM") {
        false
    } else {
        return None;
    };
    if tiff.len() < 8 || read_tiff16(tiff, 2, little_endian) != 42 {
        return None;
    }
    let offset: usize = read_tiff32(tiff, 4, little_endian) as usize;
    if offset > tiff.len() - 2 {
        return None;
    }
    let count: usize = read_tiff16(tiff, offset, little_endian) as usize;
    Some(FoundDirectory { little_endian, entries: offset + 2, count })
}

/// The tag of the GPS directory pointer.
pub const GPS_TAG: u16 = 0x8825;

/// The tag of the orientation.
pub const ORIENTATION_TAG: u16 = 0x0112;

/// Whether one of the directory's entries is the GPS directory pointer.
pub open spec fn has_gps(payload: Seq<u8>) -> bool {
    let tiff = tiff_of(payload);
    match first_directory(tiff) {
        Some(directory) => exists|i: int|
            0 <= i < directory.count && #[trigger] entry_has_tag(tiff, directory, i, GPS_TAG as nat),
        None => false,
    }
}

/// Whether entry `i` of the directory lies in the data and has this tag.
pub open spec fn entry_has_tag(tiff: Seq<u8>, directory: Directory, i: int, tag: nat) -> bool {
    let at = directory.entries + 12 * i;
    in_bounds(tiff, at, 2) && tiff16(tiff, at, directory.little_endian) == tag
}

/// EXIF stores the GPS directory pointer as tag 0x8825 in TIFF IFD0.
pub fn exif_has_gps(payload: &[u8]) -> (found: bool)
    ensures
        found == has_gps(payload@),
{
    let tiff = find_tiff(payload);
    match read_first_directory(tiff) {
        Some(directory) => {
            let ghost value = first_directory(tiff@)->0;
            let mut i: usize = 0;
            let mut at: usize = directory.entries;
            while i < directory.count
                invariant
                    i <= directory.count,
                    directory.entries <= at <= tiff@.len(),
                    at == directory.entries + 12 * i,
                    value == (Directory {
                        little_endian: directory.little_endian,
                        entries: directory.entries as int,
                        count: directory.count as nat,
                    }),
                    first_directory(tiff_of(payload@)) == Some(value),
                    tiff@ == tiff_of(payload@),
                    forall|j: int| 0 <= j < i ==> !entry_has_tag(tiff@, value, j, GPS_TAG as nat),
                decreases directory.count - i,
            {
                if tiff.len() - at < 2 {
                    assert(forall|j: int|
                        i <= j < directory.count ==> !entry_has_tag(
                            tiff@,
                            value,
                            j,
                            GPS_TAG as nat,
                        ));
                    return false;
                }
                if read_tiff16(tiff, at, directory.little_endian) == GPS_TAG {
                    assert(0 <= i < value.count && entry_has_tag(
                        tiff_of(payload@),
                        value,
                        i as int,
                        GPS_TAG as nat,
                    ));
                    assert(has_gps(payload@));
                    return true;
                }
                i += 1;
                if tiff.len() - at < 12 {
                    assert(forall|j: int|
                        i <= j < directory.count ==> !entry_has_tag(
                            tiff@,
                            value,
                            j,
                            GPS_TAG as nat,
                        ));
                    return false;
                }
                at += 12;
            }
            false
        },
        None => false,
    }
}

/// The orientation that entry `i` holds: a single 16-bit number from 1 to 8,
/// left-aligned in the value field regardless of byte order.
pub open spec fn entry_orientation(tiff: Seq<u8>, directory: Directory, i: int) -> Option<u16> {
    let at = directory.entries + 12 * i;
    let order = directory.little_endian;
    if in_bounds(tiff, at, 12) && tiff16(tiff, at, order) == ORIENTATION_TAG && tiff16(
        tiff,
        at + 2,
        order,
    ) == 3 && 1 <= tiff16(tiff, at + 8, order) <= 8 {
        Some(tiff16(tiff, at + 8, order) as u16)
    } else {
        None
    }
}

/// The first orientation that the entries from `from` on hold.
pub open spec fn orientation_from(tiff: Seq<u8>, directory: Directory, from: int) -> Option<u16>
    decreases directory.count - from,
{
    if from >= directory.count {
        None
    } else {
        match entry_orientation(tiff, directory, from) {
            Some(value) => Some(value),
            None => orientation_from(tiff, directory, from + 1),
        }
    }
}

/// The orientation stored in IFD0, if present and valid.
pub open spec fn orientation_of(payload: Seq<u8>) -> Option<u16> {
    let tiff = tiff_of(payload);
    match first_directory(tiff) {
        Some(directory) => orientation_from(tiff, directory, 0),
        None => None,
    }
}

proof fn lemma_no_orientation(tiff: Seq<u8>, directory: Directory, from: int)
    requires
        0 <= from,
        directory.entries + 12 * from + 12 > tiff.len(),
    ensures
        orientation_from(tiff, directory, from) is None,
    decreases directory.count - from,
{
    if from < directory.count {
        lemma_no_orientation(tiff, directory, from + 1);
    }
}

/// EXIF Orientation (TIFF tag 0x0112) as stored in IFD0, if present and valid.
///
/// Orientation is the one EXIF field that changes rendered geometry: dropping it
/// silently turns every portrait phone photo sideways. It is read here so the
/// scrubber can re-emit it instead of losing it.
pub fn exif_orientation(payload: &[u8]) -> (orientation: Option<u16>)
    ensures
        orientation == orientation_of(payload@),
{
    let tiff = find_tiff(payload);
    match read_first_directory(tiff) {
        Some(directory) => {
            let ghost value = first_directory(tiff@)->0;
            let order = directory.little_endian;
            let mut i: usize = 0;
            let mut at: usize = directory.entries;
            while i < directory.count
                invariant
                    i <= directory.count,
                    directory.entries <= at <= tiff@.len(),
                    at == directory.entries + 12 * i,
                    order == directory.little_endian,
                    value == (Directory {
                        little_endian: directory.little_endian,
                        entries: directory.entries as int,
                        count: directory.count as nat,
                    }),
                    first_directory(tiff_of(payload@)) == Some(value),
                    tiff@ == tiff_of(payload@),
                    orientation_of(payload@) == orientation_from(tiff@, value, i as int),
                decreases directory.count - i,
            {
                if tiff.len() - at < 12 {
                    proof {
                        lemma_no_orientation(tiff@, value, i as int);
                    }
                    return None;
                }
                if read_tiff16(tiff, at, order) == ORIENTATION_TAG && read_tiff16(
                    tiff,
                    at + 2,
                    order,
                ) == 3 {
                    let orientation: u16 = read_tiff16(tiff, at + 8, order);
                    if 1 <= orientation && orientation <= 8 {
                        return Some(orientation);
                    }
                }
                i += 1;
                at += 12;
            }
            None
        },
        None => None,
    }
}

/// The smallest legal EXIF payload that carries nothing but an orientation:
/// big-endian TIFF, one IFD0 entry, no IFD1, no thumbnail, no maker notes, no
/// GPS.
pub open spec fn minimal_exif(orientation: u16) -> Seq<u8> {
    seq![
        0x45u8, 0x78u8, 0x69u8, 0x66u8, 0u8, 0u8,
        0x4du8, 0x4du8, 0u8, 0x2au8, 0u8, 0u8, 0u8, 8u8,
        0u8, 1u8,
        1u8, 0x12u8, 0u8, 3u8, 0u8, 0u8, 0u8, 1u8,
        (orientation / 256) as u8, (orientation % 256) as u8, 0u8, 0u8,
        0u8, 0u8, 0u8, 0u8,
    ]
}

/// The smallest legal EXIF payload that carries nothing but Orientation. Emitted
/// in place of a stripped EXIF block so a portrait photo keeps rendering
/// portrait.
pub fn minimal_orientation_exif(orientation: u16) -> (payload: Vec<u8>)
    ensures
        payload@ == minimal_exif(orientation),
{
    let payload: Vec<u8> = vec![
        0x45, 0x78, 0x69, 0x66, 0, 0,
        0x4d, 0x4d, 0, 0x2a, 0, 0, 0, 8,
        0, 1,
        1, 0x12, 0, 3, 0, 0, 0, 1,
        (orientation / 256) as u8, (orientation % 256) as u8, 0, 0,
        0, 0, 0, 0,
    ];
    assert(payload@ =~= minimal_exif(orientation));
    payload
}

/// Whether an APP1 payload is exactly a re-emitted orientation-only EXIF block.
pub open spec fn is_minimal_exif(payload: Seq<u8>) -> bool {
    match orientation_of(payload) {
        Some(value) => minimal_exif(value) == payload,
        None => false,
    }
}

/// Whether an APP1 payload is exactly a re-emitted orientation-only EXIF block.
/// Used by the structural verifier, so the one metadata-shaped segment the
/// scrubber is allowed to write is allowed by value, not by marker class.
pub fn is_minimal_orientation_exif(payload: &[u8]) -> (minimal: bool)
    ensures
        minimal == is_minimal_exif(payload@),
{
    match exif_orientation(payload) {
        Some(value) => {
            let expected = minimal_orientation_exif(value);
            same_bytes(payload, &expected)
        },
        None => false,
    }
}

/// What the minimal block says is read back as it was written, and nothing else
/// is in it.
pub proof fn minimal_exif_reads_back(orientation: u16)
    requires
        1 <= orientation <= 8,
    ensures
        orientation_of(minimal_exif(orientation)) == Some(orientation),
        is_minimal_exif(minimal_exif(orientation)),
        !has_gps(minimal_exif(orientation)),
{
    let payload = minimal_exif(orientation);
    let header = utf8("Exif\0\0"@);
    reveal_strlit("Exif\0\0");
    reveal_strlit("II");
    reveal_strlit("MM");
    crate::bytes::lemma_ascii("Exif\0\0");
    crate::bytes::lemma_ascii("II");
    crate::bytes::lemma_ascii("MM");
    assert(payload.subrange(0, 6) =~= header);
    let tiff = tiff_of(payload);
    assert(tiff =~= payload.skip(6));
    assert(utf8("II"@)[0] == 0x49u8);
    assert(!begins_with(tiff, utf8("II"@))) by {
        assert(tiff.subrange(0, 2)[0] == 0x4du8);
    }
    assert(tiff.subrange(0, 2) =~= utf8("MM"@));
    let directory = first_directory(tiff)->0;
    assert(directory.entries == 10);
    assert(directory.count == 1);
    assert(entry_orientation(tiff, directory, 0) == Some(orientation));
    assert forall|i: int| 0 <= i < directory.count implies !entry_has_tag(
        tiff,
        directory,
        i,
        GPS_TAG as nat,
    ) by {
        assert(i == 0);
    }
}

} // verus!
