//! What stays the same when other bytes stand in front of an archive.

use vstd::prelude::*;

use crate::archive::directory::{
    directory_at, directory_record, directory_start, end_record, entries_from, entry_at,
    has_signature, is_end_record, is_entry_start, last_end_record, marked, name_repeats,
    read_directory, sum_of_sizes, DirectoryRecord,
};
use crate::archive::entry::{EntryValue, MAX_ARCHIVE_ENTRY_BYTES};
use crate::archive::extract::{contents_of, entry_data, extracted_entry};
use crate::archive::list::{
    entries_json, extractable_entries, listed_archive, some_encrypted, some_other_method,
    some_repeat, some_too_large, uses_other_method,
};
use crate::bytes::{le16, le32};

verus! {

/// Whether no entry from `at` on keeps its place in the 64-bit fields.
pub open spec fn are_placed_narrowly(bytes: Seq<u8>, at: int, left: nat, end: int) -> bool
    decreases left,
{
    if left == 0 || at >= end || !is_entry_start(bytes, at) {
        true
    } else {
        match entry_at(bytes, at, 0) {
            None => true,
            Some((_, next)) => le32(bytes, at + 42) != u32::MAX && are_placed_narrowly(
                bytes,
                next,
                (left - 1) as nat,
                end,
            ),
        }
    }
}

/// Whether an archive keeps to the 16-bit and 32-bit fields of the format, and its
/// directory stands in front of its end record and not before where it is said to
/// begin.
pub open spec fn is_plain_archive(bytes: Seq<u8>) -> bool {
    match end_record(bytes) {
        None => false,
        Some(end) => {
            let record = directory_record(bytes, end);
            let start = end - record.size;
            &&& le16(bytes, end + 10) != u16::MAX
            &&& le32(bytes, end + 12) != u32::MAX
            &&& le32(bytes, end + 16) != u32::MAX
            &&& record.offset <= start
            &&& (record.count == 0 && record.size == 0) || (is_entry_start(bytes, start)
                && are_placed_narrowly(bytes, start, record.count as nat, end))
        },
    }
}

/// An entry whose local header stands further back.
pub open spec fn moved(entry: EntryValue, by: int) -> EntryValue {
    EntryValue { local_header_offset: (entry.local_header_offset + by) as u64, ..entry }
}

/// Entries whose local headers stand further back.
pub open spec fn all_moved(entries: Seq<EntryValue>, by: int) -> Seq<EntryValue> {
    entries.map_values(|entry: EntryValue| moved(entry, by))
}

/// Numbers are read in the same way behind other bytes.
proof fn lemma_numbers_behind(before: Seq<u8>, bytes: Seq<u8>, at: int)
    requires
        0 <= at,
    ensures
        at + 2 <= bytes.len() ==> le16(before + bytes, before.len() + at) == le16(bytes, at),
        at + 4 <= bytes.len() ==> le32(before + bytes, before.len() + at) == le32(bytes, at),
{
    let whole = before + bytes;
    let shift = before.len() as int;
    if at + 2 <= bytes.len() {
        assert(whole[shift + at] == bytes[at]);
        assert(whole[shift + at + 1] == bytes[at + 1]);
    }
    if at + 4 <= bytes.len() {
        assert(whole[shift + at + 2] == bytes[at + 2]);
        assert(whole[shift + at + 3] == bytes[at + 3]);
    }
}

/// The end record is found in the same place behind other bytes.
proof fn lemma_last_end_behind(before: Seq<u8>, bytes: Seq<u8>, at: int, low: int, floor: int)
    requires
        0 <= low,
        floor <= before.len() + low,
        last_end_record(bytes, at, low) is Some,
    ensures
        last_end_record(before + bytes, before.len() + at, floor) == Some(
            before.len() + last_end_record(bytes, at, low)->0,
        ),
        low <= last_end_record(bytes, at, low)->0 <= at,
        is_end_record(bytes, last_end_record(bytes, at, low)->0),
    decreases at - low + 1,
{
    lemma_numbers_behind(before, bytes, at);
    lemma_numbers_behind(before, bytes, at + 20);
    assert(is_end_record(before + bytes, before.len() + at) == is_end_record(bytes, at));
    if !is_end_record(bytes, at) {
        lemma_last_end_behind(before, bytes, at - 1, low, floor);
    }
}

/// An entry is read in the same way behind other bytes, but for its place.
proof fn lemma_entry_behind(before: Seq<u8>, bytes: Seq<u8>, at: int, shift: u64)
    requires
        0 <= at,
        entry_at(bytes, at, shift) is Some ==> le32(bytes, at + 42) != u32::MAX,
        shift + before.len() + u32::MAX <= u64::MAX,
    ensures
        entry_at(before + bytes, before.len() + at, (shift + before.len()) as u64) == match entry_at(
            bytes,
            at,
            shift,
        ) {
            Some((entry, next)) => Some((moved(entry, before.len() as int), before.len() + next)),
            None => None,
        },
        entry_at(bytes, at, shift) matches Some((entry, next)) ==> at < next
            && entry.local_header_offset <= shift + u32::MAX,
{
    let whole = before + bytes;
    let by = before.len() as int;
    if at + 46 <= bytes.len() {
        lemma_numbers_behind(before, bytes, at + 8);
        lemma_numbers_behind(before, bytes, at + 10);
        lemma_numbers_behind(before, bytes, at + 16);
        lemma_numbers_behind(before, bytes, at + 20);
        lemma_numbers_behind(before, bytes, at + 24);
        lemma_numbers_behind(before, bytes, at + 28);
        lemma_numbers_behind(before, bytes, at + 30);
        lemma_numbers_behind(before, bytes, at + 32);
        lemma_numbers_behind(before, bytes, at + 42);
        let name_end = at + 46 + le16(bytes, at + 28);
        let extra_end = name_end + le16(bytes, at + 30);
        if extra_end <= bytes.len() {
            assert(whole.subrange(by + at + 46, by + name_end) =~= bytes.subrange(
                at + 46,
                name_end,
            ));
            assert(whole.subrange(by + name_end, by + extra_end) =~= bytes.subrange(
                name_end,
                extra_end,
            ));
        }
    }
}

/// Whether entries can be reached when they move by this much.
spec fn are_near(entries: Seq<EntryValue>, shift: u64) -> bool {
    forall|i: int|
        0 <= i < entries.len() ==> (#[trigger] entries[i]).local_header_offset <= shift + u32::MAX
}

/// The entries are read in the same way behind other bytes, but for their places.
proof fn lemma_entries_behind(
    before: Seq<u8>,
    bytes: Seq<u8>,
    at: int,
    left: nat,
    end: int,
    shift: u64,
)
    requires
        0 <= at,
        are_placed_narrowly(bytes, at, left, end),
        shift + before.len() + u32::MAX <= u64::MAX,
    ensures
        entries_from(
            before + bytes,
            before.len() + at,
            left,
            before.len() + end,
            (shift + before.len()) as u64,
        ) == match entries_from(bytes, at, left, end, shift) {
            Ok(entries) => Ok(all_moved(entries, before.len() as int)),
            Err(error) => Err(error),
        },
        entries_from(bytes, at, left, end, shift) matches Ok(entries) ==> are_near(entries, shift),
    decreases left,
{
    let by = before.len() as int;
    lemma_numbers_behind(before, bytes, at);
    assert(is_entry_start(before + bytes, by + at) == is_entry_start(bytes, at));
    if left == 0 || at >= end || !is_entry_start(bytes, at) {
        assert(all_moved(Seq::empty(), by) =~= Seq::<EntryValue>::empty());
    } else {
        lemma_entry_behind(before, bytes, at, shift);
        if let Some((entry, next)) = entry_at(bytes, at, shift) {
            assert(entry_at(bytes, at, 0) matches Some((_, same)) && same == next);
            lemma_entries_behind(before, bytes, next, (left - 1) as nat, end, shift);
            if let Ok(rest) = entries_from(bytes, next, (left - 1) as nat, end, shift) {
                assert(all_moved(seq![entry] + rest, by) =~= seq![moved(entry, by)] + all_moved(
                    rest,
                    by,
                ));
            }
        }
    }
}

/// Moved entries have the same names.
proof fn lemma_marked_moved(entries: Seq<EntryValue>, by: int)
    ensures
        marked(all_moved(entries, by)) == all_moved(marked(entries), by),
{
    let after = all_moved(entries, by);
    assert forall|i: int| 0 <= i < entries.len() implies name_repeats(after, i) == name_repeats(
        entries,
        i,
    ) by {
        if name_repeats(entries, i) {
            let j = choose|j: int|
                0 <= j < entries.len() && j != i && (#[trigger] entries[j]).name == entries[i].name;
            assert(after[j].name == after[i].name);
        }
        if name_repeats(after, i) {
            let j = choose|j: int|
                0 <= j < after.len() && j != i && (#[trigger] after[j]).name == after[i].name;
            assert(entries[j].name == entries[i].name);
        }
    }
    assert(marked(after) =~= all_moved(marked(entries), by));
}

/// Moved entries have the same size.
proof fn lemma_sizes_moved(entries: Seq<EntryValue>, by: int)
    ensures
        sum_of_sizes(all_moved(entries, by)) == sum_of_sizes(entries),
    decreases entries.len(),
{
    if entries.len() > 0 {
        assert(all_moved(entries, by).drop_last() =~= all_moved(entries.drop_last(), by));
        lemma_sizes_moved(entries.drop_last(), by);
    }
}

/// An entry gives the same contents behind other bytes.
proof fn lemma_contents_behind(
    before: Seq<u8>,
    bytes: Seq<u8>,
    entry: EntryValue,
    limit: u64,
)
    requires
        entry.local_header_offset + before.len() <= u64::MAX,
    ensures
        contents_of(before + bytes, moved(entry, before.len() as int), limit) == contents_of(
            bytes,
            entry,
            limit,
        ),
{
    let whole = before + bytes;
    let by = before.len() as int;
    let header = entry.local_header_offset as int;
    lemma_numbers_behind(before, bytes, header);
    lemma_numbers_behind(before, bytes, header + 26);
    lemma_numbers_behind(before, bytes, header + 28);
    assert(has_signature(whole, by + header, 0x0403_4b50) == has_signature(
        bytes,
        header,
        0x0403_4b50,
    ));
    if has_signature(bytes, header, 0x0403_4b50) && header + 30 <= bytes.len() {
        let start = header + 30 + le16(bytes, header + 26) + le16(bytes, header + 28);
        let end = start + entry.compressed_size;
        if end <= bytes.len() {
            assert(whole.subrange(by + start, by + end) =~= bytes.subrange(start, end));
        }
    }
    assert(entry_data(whole, moved(entry, by)) == entry_data(bytes, entry));
}

/// The end record stands in the same place behind other bytes, and says the same.
#[verifier::spinoff_prover]
#[verifier::rlimit(50)]
proof fn lemma_record_behind(prefix: Seq<u8>, bytes: Seq<u8>)
    requires
        is_plain_archive(bytes),
        prefix.len() + bytes.len() <= i64::MAX,
    ensures
        end_record(prefix + bytes) == Some(prefix.len() + end_record(bytes)->0),
        directory_record(prefix + bytes, prefix.len() + end_record(bytes)->0) == (DirectoryRecord {
            limit: (prefix.len() + end_record(bytes)->0) as u64,
            ..directory_record(bytes, end_record(bytes)->0)
        }),
        directory_record(bytes, end_record(bytes)->0).limit == end_record(bytes)->0,
        0 <= end_record(bytes)->0 && end_record(bytes)->0 + 22 <= bytes.len(),
{
    let whole = prefix + bytes;
    let by = prefix.len() as int;
    let low: int = if bytes.len() > 65557 {
        bytes.len() - 65557
    } else {
        0
    };
    let floor: int = if whole.len() > 65557 {
        whole.len() - 65557
    } else {
        0
    };
    lemma_last_end_behind(prefix, bytes, bytes.len() - 22, low, floor);
    let end = end_record(bytes)->0;
    lemma_numbers_behind(prefix, bytes, end + 10);
    lemma_numbers_behind(prefix, bytes, end + 12);
    lemma_numbers_behind(prefix, bytes, end + 16);
}

/// Bytes in front of an archive leave its directory as it is: the same entries in the
/// same order, each of whose local headers stands that much further back.
#[verifier::spinoff_prover]
#[verifier::rlimit(50)]
pub proof fn prefix_moves_the_directory(prefix: Seq<u8>, bytes: Seq<u8>)
    requires
        is_plain_archive(bytes),
        prefix.len() + bytes.len() <= i64::MAX,
    ensures
        read_directory(prefix + bytes) == match read_directory(bytes) {
            Ok((entries, total)) => Ok::<(Seq<EntryValue>, u64), Seq<char>>(
                (all_moved(entries, prefix.len() as int), total),
            ),
            Err(error) => Err(error),
        },
        read_directory(bytes) matches Ok((entries, _)) ==> forall|i: int|
            0 <= i < entries.len() ==> (#[trigger] entries[i]).local_header_offset + prefix.len()
                <= u64::MAX,
{
    let whole = prefix + bytes;
    let by = prefix.len() as int;
    lemma_record_behind(prefix, bytes);
    let end = end_record(bytes)->0;
    let record = directory_record(bytes, end);
    let later = directory_record(whole, by + end);
    if record.count == 0 && record.size == 0 {
        assert(all_moved(Seq::empty(), by) =~= Seq::<EntryValue>::empty());
    } else {
        let start = end - record.size;
        lemma_numbers_behind(prefix, bytes, start);
        assert(is_entry_start(whole, by + start));
        let shift = (start - record.offset) as u64;
        let count = record.count as nat;
        lemma_entries_behind(prefix, bytes, start, count, end, shift);
        assert(directory_start(bytes, end, record) == Some(start));
        assert(directory_start(whole, by + end, later) == Some(by + start));
        if let Ok(entries) = entries_from(bytes, start, count, end, shift) {
            lemma_marked_moved(entries, by);
            assert(all_moved(entries, by).len() == entries.len());
            assert forall|i: int| 0 <= i < marked(entries).len() implies (#[trigger] marked(
                entries,
            )[i]).local_header_offset + by <= u64::MAX by {
                assert(entries[i].local_header_offset <= shift + u32::MAX);
            }
        }
    }
    if let Ok(entries) = directory_at(bytes, end) {
        lemma_sizes_moved(entries, by);
    }
}

/// Bytes in front of an archive shift nothing: every entry is extracted as before.
pub proof fn prefixed_archive_extracts_the_same(
    prefix: Seq<u8>,
    bytes: Seq<u8>,
    index: u32,
    limit: u64,
)
    requires
        is_plain_archive(bytes),
        prefix.len() + bytes.len() <= i64::MAX,
    ensures
        extracted_entry(prefix + bytes, index, limit) == extracted_entry(bytes, index, limit),
{
    prefix_moves_the_directory(prefix, bytes);
    if let Ok((entries, _)) = read_directory(bytes) {
        if index < entries.len() {
            lemma_contents_behind(prefix, bytes, entries[index as int], limit);
        }
    }
}

/// Bytes in front of an archive shift nothing: the listing is the same, letter for
/// letter.
pub proof fn prefixed_archive_lists_the_same(prefix: Seq<u8>, bytes: Seq<u8>)
    requires
        is_plain_archive(bytes),
        prefix.len() + bytes.len() <= i64::MAX,
    ensures
        listed_archive(prefix + bytes) == listed_archive(bytes),
{
    prefix_moves_the_directory(prefix, bytes);
    let whole = prefix + bytes;
    let by = prefix.len() as int;
    if let Ok((entries, _)) = read_directory(bytes) {
        let after = all_moved(entries, by);
        let flags = extractable_entries(bytes, entries);
        assert forall|i: int| 0 <= i < entries.len() implies extractable_entries(whole, after)[i]
            == flags[i] by {
            lemma_contents_behind(prefix, bytes, entries[i], MAX_ARCHIVE_ENTRY_BYTES);
        }
        assert(extractable_entries(whole, after) =~= flags);
        assert(entries_json(after, flags) =~= entries_json(entries, flags));
        lemma_same_warnings(entries, by);
    }
}

proof fn lemma_same_warnings(entries: Seq<EntryValue>, by: int)
    ensures
        some_repeat(all_moved(entries, by)) == some_repeat(entries),
        some_encrypted(all_moved(entries, by)) == some_encrypted(entries),
        some_other_method(all_moved(entries, by)) == some_other_method(entries),
        some_too_large(all_moved(entries, by)) == some_too_large(entries),
{
    let after = all_moved(entries, by);
    assert forall|i: int| 0 <= i < entries.len() implies (#[trigger] after[i]) == moved(
        entries[i],
        by,
    ) by {}
    assert forall|i: int| 0 <= i < entries.len() && (#[trigger] entries[i]).duplicate_name implies
        some_repeat(after) by {
        assert(after[i].duplicate_name);
    }
    assert forall|i: int| 0 <= i < entries.len() && (#[trigger] entries[i]).encrypted implies
        some_encrypted(after) by {
        assert(after[i].encrypted);
    }
    assert forall|i: int| 0 <= i < entries.len() && uses_other_method(
        #[trigger] entries[i],
    ) implies some_other_method(after) by {
        assert(uses_other_method(after[i]));
    }
    assert forall|i: int| 0 <= i < entries.len() && (#[trigger] entries[i]).size
        > MAX_ARCHIVE_ENTRY_BYTES implies some_too_large(after) by {
        assert(after[i].size > MAX_ARCHIVE_ENTRY_BYTES);
    }
}

} // verus!
