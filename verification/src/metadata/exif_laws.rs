//! What is read from an EXIF block, in either byte order.

use vstd::prelude::*;

use crate::bytes::{begins_with, lemma_ascii, utf8};
use crate::metadata::exif::{
    entry_has_tag, entry_orientation, first_directory, has_gps, orientation_from, orientation_of,
    tiff16, tiff_of, Directory,
};

verus! {

/// One entry of a directory: its tag, the kind of its value, how many values it has, and a
/// value of two bytes.
pub struct ExifEntry {
    pub tag: u16,
    pub kind: u16,
    pub count: u16,
    pub value: u16,
}

/// The lower or the upper byte of a number.
pub open spec fn byte_of(number: u16, upper: bool) -> u8 {
    if upper {
        (number / 256) as u8
    } else {
        (number % 256) as u8
    }
}

/// The byte at a place of an entry of twelve.
pub open spec fn entry_byte(entry: ExifEntry, little_endian: bool, place: int) -> u8 {
    if place < 2 {
        byte_of(entry.tag, (place == 0) != little_endian)
    } else if place < 4 {
        byte_of(entry.kind, (place == 2) != little_endian)
    } else if place < 8 {
        if little_endian && place < 6 {
            byte_of(entry.count, place == 5)
        } else if !little_endian && place >= 6 {
            byte_of(entry.count, place == 6)
        } else {
            0
        }
    } else if place < 10 {
        byte_of(entry.value, (place == 8) != little_endian)
    } else {
        0
    }
}

/// An EXIF block with one directory of these entries, in one of the byte orders.
pub open spec fn exif_block(entries: Seq<ExifEntry>, little_endian: bool) -> Seq<u8> {
    utf8("Exif\0\0"@) + (if little_endian {
        seq![0x49u8, 0x49u8, 42u8, 0u8, 8u8, 0u8, 0u8, 0u8]
    } else {
        seq![0x4du8, 0x4du8, 0u8, 42u8, 0u8, 0u8, 0u8, 8u8]
    }) + seq![
        byte_of(entries.len() as u16, !little_endian),
        byte_of(entries.len() as u16, little_endian),
    ] + Seq::new(
        entries.len() * 12,
        |i: int| entry_byte(entries[i / 12], little_endian, i % 12),
    )
}

/// Whether an entry turns the picture: it is the orientation, one of eight.
pub open spec fn turns(entry: ExifEntry) -> bool {
    entry.tag == 0x112 && entry.kind == 3 && 1 <= entry.value <= 8
}

proof fn lemma_block(entries: Seq<ExifEntry>, little_endian: bool)
    requires
        entries.len() <= u16::MAX,
    ensures
        ({
            let tiff = tiff_of(exif_block(entries, little_endian));
            &&& first_directory(tiff) == Some(
                Directory { little_endian, entries: 10, count: entries.len() },
            )
            &&& tiff.len() == 10 + 12 * entries.len()
            &&& forall|i: int|
                #![trigger entries[i]]
                0 <= i < entries.len() ==> tiff16(tiff, 10 + 12 * i, little_endian)
                    == entries[i].tag && tiff16(tiff, 10 + 12 * i + 2, little_endian)
                    == entries[i].kind && tiff16(tiff, 10 + 12 * i + 8, little_endian)
                    == entries[i].value
        }),
{
    reveal_strlit("Exif\0\0");
    reveal_strlit("II");
    reveal_strlit("MM");
    lemma_ascii("Exif\0\0");
    lemma_ascii("II");
    lemma_ascii("MM");
    let payload = exif_block(entries, little_endian);
    let header = utf8("Exif\0\0"@);
    assert(header.len() == 6);
    assert(payload.subrange(0, 6) =~= header);
    let tiff = tiff_of(payload);
    assert(tiff =~= payload.skip(6));
    assert(utf8("II"@).len() == 2 && utf8("II"@)[0] == 0x49u8 && utf8("II"@)[1] == 0x49u8);
    assert(utf8("MM"@).len() == 2 && utf8("MM"@)[0] == 0x4du8 && utf8("MM"@)[1] == 0x4du8);
    assert(tiff.subrange(0, 2)[0] == tiff[0]);
    if little_endian {
        assert(tiff.subrange(0, 2) =~= utf8("II"@));
    } else {
        assert(!begins_with(tiff, utf8("II"@)));
        assert(tiff.subrange(0, 2) =~= utf8("MM"@));
    }
    let count = entries.len() as u16;
    assert(tiff[8] == byte_of(count, !little_endian));
    assert(tiff[9] == byte_of(count, little_endian));
    assert forall|i: int|
        #![trigger entries[i]]
        0 <= i < entries.len() implies tiff16(tiff, 10 + 12 * i, little_endian) == entries[i].tag
        && tiff16(tiff, 10 + 12 * i + 2, little_endian) == entries[i].kind && tiff16(
        tiff,
        10 + 12 * i + 8,
        little_endian,
    ) == entries[i].value by {
        assert forall|j: int| 0 <= j < 12 implies #[trigger] tiff[10 + 12 * i + j] == entry_byte(
            entries[i],
            little_endian,
            j,
        ) by {
            assert((12 * i + j) / 12 == i);
            assert((12 * i + j) % 12 == j);
        }
        assert(tiff[10 + 12 * i + 0] == entry_byte(entries[i], little_endian, 0));
        assert(tiff[10 + 12 * i + 1] == entry_byte(entries[i], little_endian, 1));
        assert(tiff[10 + 12 * i + 2] == entry_byte(entries[i], little_endian, 2));
        assert(tiff[10 + 12 * i + 3] == entry_byte(entries[i], little_endian, 3));
        assert(tiff[10 + 12 * i + 8] == entry_byte(entries[i], little_endian, 8));
        assert(tiff[10 + 12 * i + 9] == entry_byte(entries[i], little_endian, 9));
    }
}

/// A block tells a location exactly when one of its entries points to a GPS directory, whatever
/// the byte order and wherever the entry stands.
pub proof fn locations_are_found_in_any_block(entries: Seq<ExifEntry>, little_endian: bool)
    requires
        entries.len() <= u16::MAX,
    ensures
        has_gps(exif_block(entries, little_endian)) <==> exists|i: int|
            0 <= i < entries.len() && (#[trigger] entries[i]).tag == 0x8825,
{
    lemma_block(entries, little_endian);
    let tiff = tiff_of(exif_block(entries, little_endian));
    let directory = first_directory(tiff)->0;
    assert forall|i: int| 0 <= i < entries.len() implies #[trigger] entry_has_tag(
        tiff,
        directory,
        i,
        0x8825,
    ) == (entries[i].tag == 0x8825) by {
        assert(entries[i] == entries[i]);
    }
    if exists|i: int| 0 <= i < entries.len() && (#[trigger] entries[i]).tag == 0x8825 {
        let i = choose|i: int| 0 <= i < entries.len() && (#[trigger] entries[i]).tag == 0x8825;
        assert(entry_has_tag(tiff, directory, i, 0x8825));
    }
}

proof fn lemma_first_turn(
    entries: Seq<ExifEntry>,
    little_endian: bool,
    tiff: Seq<u8>,
    from: int,
    k: int,
)
    requires
        0 <= from <= k <= entries.len(),
        forall|i: int| from <= i < k ==> !turns(#[trigger] entries[i]),
        k < entries.len() ==> turns(entries[k]),
        forall|i: int|
            0 <= i < entries.len() ==> #[trigger] entry_orientation(
                tiff,
                (Directory { little_endian, entries: 10, count: entries.len() }),
                i,
            ) == (if turns(entries[i]) {
                Some(entries[i].value)
            } else {
                None
            }),
    ensures
        orientation_from(
            tiff,
            (Directory { little_endian, entries: 10, count: entries.len() }),
            from,
        ) == (if k < entries.len() {
            Some(entries[k].value)
        } else {
            None
        }),
    decreases entries.len() - from,
{
    let directory = Directory { little_endian, entries: 10, count: entries.len() };
    if from < entries.len() {
        assert(entry_orientation(tiff, directory, from) == (if turns(entries[from]) {
            Some(entries[from].value)
        } else {
            None
        }));
        if from < k {
            lemma_first_turn(entries, little_endian, tiff, from + 1, k);
        }
    }
}

/// A block turns the picture as the first of its entries that is an orientation from one to
/// eight says, whatever the byte order, and not at all without one.
pub proof fn turns_are_found_in_any_block(entries: Seq<ExifEntry>, little_endian: bool, k: int)
    requires
        entries.len() <= u16::MAX,
        0 <= k <= entries.len(),
        forall|i: int| 0 <= i < k ==> !turns(#[trigger] entries[i]),
        k < entries.len() ==> turns(entries[k]),
    ensures
        orientation_of(exif_block(entries, little_endian)) == (if k < entries.len() {
            Some(entries[k].value)
        } else {
            None
        }),
{
    lemma_block(entries, little_endian);
    let tiff = tiff_of(exif_block(entries, little_endian));
    let directory = first_directory(tiff)->0;
    assert forall|i: int| 0 <= i < entries.len() implies #[trigger] entry_orientation(
        tiff,
        directory,
        i,
    ) == (if turns(entries[i]) {
        Some(entries[i].value)
    } else {
        None
    }) by {
        assert(entries[i] == entries[i]);
    }
    lemma_first_turn(entries, little_endian, tiff, 0, k);
}

} // verus!
