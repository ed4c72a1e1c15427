//! The central directory: every entry that an archive declares.

use vstd::prelude::*;

use crate::archive::entry::{decode_entry_name, decoded_name, entry_values, ArchiveEntry, EntryValue};
use crate::bytes::{le16, le32, le64, read_le16, read_le32, read_le64};
use crate::text::same_text;

verus! {

/// What is said of an archive that cannot be read.
pub open spec fn unreadable_archive() -> Seq<char> {
    "Could not read this ZIP archive."@
}

fn unreadable_text() -> (text: String)
    ensures
        text@ == unreadable_archive(),
{
    "Could not read this ZIP archive.".to_owned()
}

/// Whether a record with this signature begins at `at`.
pub open spec fn has_signature(bytes: Seq<u8>, at: int, signature: nat) -> bool {
    0 <= at && at + 4 <= bytes.len() && le32(bytes, at) == signature
}

/// Whether a record with this signature begins at `at`.
pub fn begins_record(bytes: &[u8], at: usize, signature: u32) -> (found: bool)
    ensures
        found == has_signature(bytes@, at as int, signature as nat),
{
    at <= bytes.len() && bytes.len() - at >= 4 && read_le32(bytes, at) == signature
}

/// Whether the end record stands at `at`: its comment reaches to the end of the
/// file.
pub open spec fn is_end_record(bytes: Seq<u8>, at: int) -> bool {
    has_signature(bytes, at, 0x0605_4b50) && at + 22 <= bytes.len() && le16(bytes, at + 20)
        == bytes.len() - (at + 22)
}

/// The last end record at or before `at` and not before `low`.
pub open spec fn last_end_record(bytes: Seq<u8>, at: int, low: int) -> Option<int>
    decreases at - low + 1,
{
    if at < low {
        None
    } else if is_end_record(bytes, at) {
        Some(at)
    } else {
        last_end_record(bytes, at - 1, low)
    }
}

/// The end-of-central-directory record, which is the only fixed point in a ZIP
/// file and always sits at the end, before an optional comment.
pub open spec fn end_record(bytes: Seq<u8>) -> Option<int> {
    if bytes.len() < 22 {
        None
    } else {
        last_end_record(
            bytes,
            bytes.len() - 22,
            if bytes.len() > 65557 {
                bytes.len() - 65557
            } else {
                0
            },
        )
    }
}

/// Locate the end-of-central-directory record.
pub fn find_end_of_central_directory(bytes: &[u8]) -> (place: Option<usize>)
    ensures
        match place {
            Some(at) => end_record(bytes@) == Some(at as int) && at + 22 <= bytes@.len(),
            None => end_record(bytes@) is None,
        },
{
    if bytes.len() < 22 {
        return None;
    }
    let low: usize = if bytes.len() > 65557 {
        bytes.len() - 65557
    } else {
        0
    };
    let mut at: usize = bytes.len() - 22;
    loop
        invariant
            low <= at,
            at + 22 <= bytes@.len(),
            bytes@.len() >= 22,
            low == if bytes@.len() > 65557 {
                bytes@.len() - 65557
            } else {
                0
            },
            end_record(bytes@) == last_end_record(bytes@, at as int, low as int),
        decreases at,
    {
        assert(at + 22 <= bytes.len());
        if begins_record(bytes, at, 0x0605_4b50) && read_le16(bytes, at + 20) as usize
            == bytes.len() - (at + 22) {
            return Some(at);
        }
        if at == low {
            assert(last_end_record(bytes@, at - 1, low as int) is None);
            return None;
        }
        at -= 1;
    }
}

/// The last 64-bit end record at or before `at` and not before `low`.
pub open spec fn last_wide_record(bytes: Seq<u8>, at: int, low: int) -> Option<int>
    decreases at - low + 1,
{
    if at < low {
        None
    } else if has_signature(bytes, at, 0x0606_4b50) {
        Some(at)
    } else {
        last_wide_record(bytes, at - 1, low)
    }
}

fn find_wide_record(bytes: &[u8], end: usize) -> (place: Option<usize>)
    requires
        end <= bytes@.len(),
    ensures
        match place {
            Some(at) => last_wide_record(
                bytes@,
                end - 1,
                if end > 128 {
                    end - 128
                } else {
                    0
                },
            ) == Some(at as int) && at < end,
            None => last_wide_record(
                bytes@,
                end - 1,
                if end > 128 {
                    end - 128
                } else {
                    0
                },
            ) is None,
        },
{
    let low: usize = if end > 128 {
        end - 128
    } else {
        0
    };
    let mut next: usize = end;
    while next > low
        invariant
            low <= next <= end <= bytes@.len(),
            low == if end > 128 {
                end - 128
            } else {
                0
            },
            last_wide_record(bytes@, end - 1, low as int) == last_wide_record(
                bytes@,
                next - 1,
                low as int,
            ),
        decreases next,
    {
        if begins_record(bytes, next - 1, 0x0606_4b50) {
            return Some(next - 1);
        }
        next -= 1;
    }
    None
}

/// What an archive says of its directory: how many entries it has, how long it
/// is, and where it begins, with the place in front of which it stands.
pub struct DirectoryRecord {
    pub count: u64,
    pub size: u64,
    pub offset: u64,
    pub limit: u64,
}

/// A 64-bit number, or another where there is no room for it.
pub open spec fn wide_or(bytes: Seq<u8>, at: int, other: u64) -> u64 {
    if 0 <= at && at + 8 <= bytes.len() {
        le64(bytes, at) as u64
    } else {
        other
    }
}

fn read_wide_or(bytes: &[u8], at: usize, other: u64) -> (value: u64)
    ensures
        value == wide_or(bytes@, at as int, other),
{
    if at <= bytes.len() && bytes.len() - at >= 8 {
        read_le64(bytes, at)
    } else {
        other
    }
}

/// What the end record at `end` says of the directory. Where a number does not
/// fit its field, the real ones stand in a separate record before it, and the
/// directory ends there.
pub open spec fn directory_record(bytes: Seq<u8>, end: int) -> DirectoryRecord {
    let narrow = DirectoryRecord {
        count: le16(bytes, end + 10) as u64,
        size: le32(bytes, end + 12) as u64,
        offset: le32(bytes, end + 16) as u64,
        limit: end as u64,
    };
    if narrow.count == u16::MAX || narrow.size == u32::MAX || narrow.offset == u32::MAX {
        match last_wide_record(
            bytes,
            end - 1,
            if end > 128 {
                end - 128
            } else {
                0
            },
        ) {
            Some(wide) => DirectoryRecord {
                count: wide_or(bytes, wide + 32, narrow.count),
                size: wide_or(bytes, wide + 40, narrow.size),
                offset: wide_or(bytes, wide + 48, narrow.offset),
                limit: wide as u64,
            },
            None => narrow,
        }
    } else {
        narrow
    }
}

fn read_directory_record(bytes: &[u8], end: usize) -> (record: DirectoryRecord)
    requires
        end + 22 <= bytes@.len(),
    ensures
        record == directory_record(bytes@, end as int),
        record.limit <= end,
{
    assert(end + 22 <= bytes.len());
    let count: u64 = read_le16(bytes, end + 10) as u64;
    let size: u64 = read_le32(bytes, end + 12) as u64;
    let offset: u64 = read_le32(bytes, end + 16) as u64;
    if count == u16::MAX as u64 || size == u32::MAX as u64 || offset == u32::MAX as u64 {
        match find_wide_record(bytes, end) {
            Some(wide) => {
                if bytes.len() - wide < 56 {
                    let room: usize = bytes.len() - wide;
                    return DirectoryRecord {
                        count: if room >= 40 {
                            read_wide_or(bytes, wide + 32, count)
                        } else {
                            count
                        },
                        size: if room >= 48 {
                            read_wide_or(bytes, wide + 40, size)
                        } else {
                            size
                        },
                        offset,
                        limit: wide as u64,
                    };
                }
                DirectoryRecord {
                    count: read_wide_or(bytes, wide + 32, count),
                    size: read_wide_or(bytes, wide + 40, size),
                    offset: read_wide_or(bytes, wide + 48, offset),
                    limit: wide as u64,
                }
            },
            None => DirectoryRecord { count, size, offset, limit: end as u64 },
        }
    } else {
        DirectoryRecord { count, size, offset, limit: end as u64 }
    }
}

/// Whether an entry of the directory begins at `at`.
pub open spec fn is_entry_start(bytes: Seq<u8>, at: int) -> bool {
    has_signature(bytes, at, 0x0201_4b50)
}

/// Where the directory begins. A self-extracting archive has a prefix, so the
/// recorded offset is not a file position: the position that the directory's own
/// size implies is preferred, from the record that it stands in front of and then
/// from the end record.
pub open spec fn directory_start(bytes: Seq<u8>, end: int, record: DirectoryRecord) -> Option<
    int,
> {
    if record.size <= record.limit && is_entry_start(bytes, record.limit - record.size) {
        Some(record.limit - record.size)
    } else if record.size <= end && is_entry_start(bytes, end - record.size) {
        Some(end - record.size)
    } else if is_entry_start(bytes, record.offset as int) {
        Some(record.offset as int)
    } else {
        None
    }
}

fn find_directory_start(bytes: &[u8], end: usize, record: &DirectoryRecord) -> (start: Option<
    usize,
>)
    requires
        end <= bytes@.len(),
        record.limit <= end,
    ensures
        match start {
            Some(start) => directory_start(bytes@, end as int, *record) == Some(start as int)
                && start + 4 <= bytes@.len(),
            None => directory_start(bytes@, end as int, *record) is None,
        },
{
    if record.size <= record.limit && begins_record(
        bytes,
        (record.limit - record.size) as usize,
        0x0201_4b50,
    ) {
        return Some((record.limit - record.size) as usize);
    }
    if record.size <= end as u64 && begins_record(bytes, end - record.size as usize, 0x0201_4b50) {
        return Some(end - record.size as usize);
    }
    if record.offset <= bytes.len() as u64 && begins_record(
        bytes,
        record.offset as usize,
        0x0201_4b50,
    ) {
        return Some(record.offset as usize);
    }
    None
}

/// A sum, as far as a machine word holds it.
pub open spec fn bounded_sum(left: int, right: int) -> u64 {
    if left + right > u64::MAX {
        u64::MAX
    } else {
        (left + right) as u64
    }
}

fn add_bounded(left: u64, right: u64) -> (sum: u64)
    ensures
        sum == bounded_sum(left as int, right as int),
{
    if left > u64::MAX - right {
        u64::MAX
    } else {
        left + right
    }
}

/// The 64-bit extended information in an entry's extra fields from `at` on.
pub open spec fn wide_field(extra: Seq<u8>, at: int) -> Option<Seq<u8>>
    decreases extra.len() - at,
{
    if at < 0 || at + 4 > extra.len() {
        None
    } else {
        let end = at + 4 + le16(extra, at + 2);
        if end > extra.len() {
            None
        } else if le16(extra, at) == 1 {
            Some(extra.subrange(at + 4, end))
        } else {
            wide_field(extra, end)
        }
    }
}

fn find_wide_field(extra: &[u8]) -> (field: Option<(usize, usize)>)
    ensures
        match field {
            Some((start, end)) => start <= end <= extra@.len() && wide_field(extra@, 0) == Some(
                extra@.subrange(start as int, end as int),
            ),
            None => wide_field(extra@, 0) is None,
        },
{
    let mut at: usize = 0;
    while extra.len() - at >= 4
        invariant
            at <= extra@.len(),
            wide_field(extra@, 0) == wide_field(extra@, at as int),
        decreases extra.len() - at,
    {
        let length: usize = read_le16(extra, at + 2) as usize;
        if length > extra.len() - at - 4 {
            return None;
        }
        if read_le16(extra, at) == 1 {
            return Some((at + 4, at + 4 + length));
        }
        at = at + 4 + length;
    }
    None
}

/// A number, or its 64-bit value where it is saturated and the field holds it at
/// `at`.
pub open spec fn widened(narrow: u64, saturated: bool, field: Option<Seq<u8>>, at: int) -> u64 {
    match field {
        Some(field) => if saturated {
            wide_or(field, at, narrow)
        } else {
            narrow
        },
        None => narrow,
    }
}

fn widen(narrow: u64, saturated: bool, field: Option<&[u8]>, at: usize) -> (value: u64)
    ensures
        value == widened(
            narrow,
            saturated,
            match field {
                Some(field) => Some(field@),
                None => None,
            },
            at as int,
        ),
{
    match field {
        Some(field) => {
            if saturated {
                read_wide_or(field, at, narrow)
            } else {
                narrow
            }
        },
        None => narrow,
    }
}

/// How many bytes a value takes in the extended information: none when it is not
/// saturated.
pub open spec fn wide_length(saturated: bool) -> int {
    if saturated {
        8
    } else {
        0
    }
}

/// The entry that the directory records at `at`, and where the next one begins.
/// `shift` is how far the archive stands from the start of the file.
pub open spec fn entry_at(bytes: Seq<u8>, at: int, shift: u64) -> Option<(EntryValue, int)> {
    if at < 0 || at + 46 > bytes.len() {
        None
    } else {
        let flags = le16(bytes, at + 8);
        let packed = le32(bytes, at + 20);
        let size = le32(bytes, at + 24);
        let name_end = at + 46 + le16(bytes, at + 28);
        let extra_end = name_end + le16(bytes, at + 30);
        let offset = le32(bytes, at + 42);
        if extra_end > bytes.len() {
            None
        } else {
            let field = wide_field(bytes.subrange(name_end, extra_end), 0);
            let size_wide = size == u32::MAX;
            let packed_wide = packed == u32::MAX;
            let offset_wide = offset == u32::MAX;
            let shifted = bounded_sum(offset as int, shift as int);
            let placed = widened(
                shifted,
                offset_wide,
                field,
                wide_length(size_wide) + wide_length(packed_wide),
            );
            Some(
                (
                    EntryValue {
                        name: decoded_name(
                            bytes.subrange(at + 46, name_end),
                            (flags / 0x800) % 2 == 1,
                        ),
                        size: widened(size as u64, size_wide, field, 0),
                        compressed_size: widened(
                            packed as u64,
                            packed_wide,
                            field,
                            wide_length(size_wide),
                        ),
                        crc32: le32(bytes, at + 16) as u32,
                        method: le16(bytes, at + 10) as u16,
                        encrypted: flags % 2 == 1,
                        local_header_offset: if placed != shifted {
                            bounded_sum(placed as int, shift as int)
                        } else {
                            placed
                        },
                        duplicate_name: false,
                    },
                    extra_end + le16(bytes, at + 32),
                ),
            )
        }
    }
}

fn read_entry(bytes: &[u8], at: usize, shift: u64) -> (found: Option<(ArchiveEntry, usize)>)
    requires
        at <= bytes@.len(),
    ensures
        match found {
            Some((entry, next)) => match entry_at(bytes@, at as int, shift) {
                Some((value, end)) => entry@ == value && next <= bytes@.len() && (next == end || (end > bytes@.len()
                    && next == bytes@.len())),
                None => false,
            },
            None => entry_at(bytes@, at as int, shift) is None,
        },
{
    if bytes.len() - at < 46 {
        return None;
    }
    assert(at + 46 <= bytes.len());
    let flags: u16 = read_le16(bytes, at + 8);
    let method: u16 = read_le16(bytes, at + 10);
    let crc32: u32 = read_le32(bytes, at + 16);
    let packed: u32 = read_le32(bytes, at + 20);
    let size: u32 = read_le32(bytes, at + 24);
    let name_length: usize = read_le16(bytes, at + 28) as usize;
    let extra_length: usize = read_le16(bytes, at + 30) as usize;
    let comment_length: usize = read_le16(bytes, at + 32) as usize;
    let offset: u32 = read_le32(bytes, at + 42);
    let room: usize = bytes.len() - (at + 46);
    if name_length > room || extra_length > room - name_length {
        return None;
    }
    let name_end: usize = at + 46 + name_length;
    let extra_end: usize = name_end + extra_length;
    let raw = &bytes[at + 46..name_end];
    let extra = &bytes[name_end..extra_end];
    assert(raw@ =~= bytes@.subrange(at + 46, name_end as int));
    assert(extra@ =~= bytes@.subrange(name_end as int, extra_end as int));
    let field = match find_wide_field(extra) {
        Some((start, end)) => {
            let found = &extra[start..end];
            assert(found@ =~= extra@.subrange(start as int, end as int));
            Some(found)
        },
        None => None,
    };
    let size_wide = size == u32::MAX;
    let packed_wide = packed == u32::MAX;
    let offset_wide = offset == u32::MAX;
    let first: usize = if size_wide {
        8
    } else {
        0
    };
    let second: usize = if packed_wide {
        8
    } else {
        0
    };
    let shifted: u64 = add_bounded(offset as u64, shift);
    let placed: u64 = widen(shifted, offset_wide, field, first + second);
    let entry = ArchiveEntry {
        name: decode_entry_name(raw, (flags / 0x800) % 2 == 1),
        size: widen(size as u64, size_wide, field, 0),
        compressed_size: widen(packed as u64, packed_wide, field, first),
        crc32,
        method,
        encrypted: flags % 2 == 1,
        local_header_offset: if placed != shifted {
            add_bounded(placed, shift)
        } else {
            placed
        },
        duplicate_name: false,
    };
    let next: usize = if comment_length > bytes.len() - extra_end {
        bytes.len()
    } else {
        extra_end + comment_length
    };
    Some((entry, next))
}

/// Where the directory's record with this index begins, when the first begins at
/// `start`.
pub open spec fn record_from(bytes: Seq<u8>, start: int, index: nat) -> int
    decreases index,
{
    if index == 0 {
        start
    } else {
        match entry_at(bytes, record_from(bytes, start, (index - 1) as nat), 0) {
            Some((_, next)) => next,
            None => -1,
        }
    }
}

/// The entries from `at` on: no more than `left` of them, and none at or behind
/// `end`. A directory that ends early gives what it holds.
pub open spec fn entries_from(
    bytes: Seq<u8>,
    at: int,
    left: nat,
    end: int,
    shift: u64,
) -> Result<Seq<EntryValue>, Seq<char>>
    decreases left,
{
    if left == 0 || at >= end || !is_entry_start(bytes, at) {
        Ok(Seq::empty())
    } else {
        match entry_at(bytes, at, shift) {
            None => Err(unreadable_archive()),
            Some((entry, next)) => match entries_from(
                bytes,
                next,
                (left - 1) as nat,
                end,
                shift,
            ) {
                Err(error) => Err(error),
                Ok(rest) => Ok(seq![entry] + rest),
            },
        }
    }
}

/// Entries by their values, or why there are none.
pub open spec fn entries_outcome(entries: Result<Vec<ArchiveEntry>, String>) -> Result<
    Seq<EntryValue>,
    Seq<char>,
> {
    match entries {
        Ok(entries) => Ok(entry_values(entries@)),
        Err(error) => Err(error@),
    }
}

/// Entries in front of a result.
pub open spec fn entries_before(
    entries: Seq<EntryValue>,
    rest: Result<Seq<EntryValue>, Seq<char>>,
) -> Result<Seq<EntryValue>, Seq<char>> {
    match rest {
        Ok(rest) => Ok(entries + rest),
        Err(error) => Err(error),
    }
}

fn read_entries(bytes: &[u8], start: usize, count: u64, end: usize, shift: u64) -> (entries: Result<
    Vec<ArchiveEntry>,
    String,
>)
    requires
        start <= bytes@.len(),
        end <= bytes@.len(),
    ensures
        entries_outcome(entries) == entries_from(
            bytes@,
            start as int,
            count as nat,
            end as int,
            shift,
        ),
{
    let ghost expected = entries_from(bytes@, start as int, count as nat, end as int, shift);
    let mut entries: Vec<ArchiveEntry> = Vec::new();
    let mut left: u64 = count;
    let mut at: usize = start;
    proof {
        assert(entry_values(entries@) =~= Seq::<EntryValue>::empty());
        if let Ok(rest) = expected {
            assert(entry_values(entries@) + rest =~= rest);
        }
    }
    while left > 0 && at < end && begins_record(bytes, at, 0x0201_4b50)
        invariant
            at <= bytes@.len(),
            end <= bytes@.len(),
            expected == entries_from(bytes@, start as int, count as nat, end as int, shift),
            expected == entries_before(
                entry_values(entries@),
                entries_from(bytes@, at as int, left as nat, end as int, shift),
            ),
        decreases left,
    {
        match read_entry(bytes, at, shift) {
            None => {
                return Err(unreadable_text());
            },
            Some((entry, next)) => {
                let ghost before = entry_values(entries@);
                let ghost (_, stop) = entry_at(bytes@, at as int, shift)->0;
                let ghost tail = entries_from(bytes@, stop, (left - 1) as nat, end as int, shift);
                entries.push(entry);
                assert(entry_values(entries@) =~= before.push(entry@));
                assert(entries_from(bytes@, next as int, (left - 1) as nat, end as int, shift)
                    == tail);
                proof {
                    if let Ok(more) = tail {
                        assert(before + (seq![entry@] + more) =~= before.push(entry@) + more);
                    }
                }
                at = next;
            },
        }
        left -= 1;
    }
    assert(entry_values(entries@) + Seq::<EntryValue>::empty() =~= entry_values(entries@));
    Ok(entries)
}

/// Whether another entry has the name of the one at `i`.
pub open spec fn name_repeats(entries: Seq<EntryValue>, i: int) -> bool {
    exists|j: int|
        0 <= j < entries.len() && j != i && (#[trigger] entries[j]).name == entries[i].name
}

/// The entries with those marked whose name repeats.
pub open spec fn marked(entries: Seq<EntryValue>) -> Seq<EntryValue> {
    Seq::new(
        entries.len(),
        |i: int| EntryValue { duplicate_name: name_repeats(entries, i), ..entries[i] },
    )
}

fn find_repeat(entries: &Vec<ArchiveEntry>, i: usize) -> (repeats: bool)
    requires
        i < entries@.len(),
    ensures
        repeats == name_repeats(entry_values(entries@), i as int),
{
    let mut j: usize = 0;
    while j < entries.len()
        invariant
            j <= entries@.len(),
            i < entries@.len(),
            forall|k: int|
                0 <= k < j && k != i ==> (#[trigger] entry_values(entries@)[k]).name
                    != entry_values(entries@)[i as int].name,
        decreases entries.len() - j,
    {
        if j != i && same_text(entries[j].name.as_str(), entries[i].name.as_str()) {
            assert(entry_values(entries@)[j as int].name == entry_values(entries@)[i as int].name);
            return true;
        }
        j += 1;
    }
    false
}

fn mark_repeats(entries: &Vec<ArchiveEntry>) -> (marks: Vec<ArchiveEntry>)
    ensures
        entry_values(marks@) == marked(entry_values(entries@)),
{
    let ghost expected = marked(entry_values(entries@));
    let mut marks: Vec<ArchiveEntry> = Vec::new();
    let mut i: usize = 0;
    while i < entries.len()
        invariant
            i <= entries@.len(),
            marks@.len() == i,
            expected == marked(entry_values(entries@)),
            forall|j: int| 0 <= j < i ==> (#[trigger] marks@[j])@ == expected[j],
        decreases entries.len() - i,
    {
        let entry = &entries[i];
        let duplicate_name = find_repeat(entries, i);
        marks.push(
            ArchiveEntry {
                name: entry.name.as_str().to_owned(),
                size: entry.size,
                compressed_size: entry.compressed_size,
                crc32: entry.crc32,
                method: entry.method,
                encrypted: entry.encrypted,
                local_header_offset: entry.local_header_offset,
                duplicate_name,
            },
        );
        i += 1;
    }
    assert(entry_values(marks@) =~= expected);
    marks
}

/// How many bytes the entries have together.
pub open spec fn sum_of_sizes(entries: Seq<EntryValue>) -> nat
    decreases entries.len(),
{
    if entries.len() == 0 {
        0
    } else {
        sum_of_sizes(entries.drop_last()) + entries.last().size as nat
    }
}

/// How many bytes the entries have together, as far as a machine word counts.
pub open spec fn total_size(entries: Seq<EntryValue>) -> u64 {
    bounded_sum(sum_of_sizes(entries) as int, 0)
}

fn add_sizes(entries: &Vec<ArchiveEntry>) -> (total: u64)
    ensures
        total == total_size(entry_values(entries@)),
{
    let ghost values = entry_values(entries@);
    let mut total: u64 = 0;
    let mut i: usize = 0;
    while i < entries.len()
        invariant
            i <= entries@.len(),
            values == entry_values(entries@),
            total == total_size(values.take(i as int)),
        decreases entries.len() - i,
    {
        assert(values.take(i + 1).drop_last() =~= values.take(i as int));
        assert(values.take(i + 1).last() == entries@[i as int]@);
        total = add_bounded(total, entries[i].size);
        i += 1;
    }
    assert(values.take(entries@.len() as int) =~= values);
    total
}

/// The entries of the directory that an end record at `end` points to.
pub open spec fn directory_at(bytes: Seq<u8>, end: int) -> Result<Seq<EntryValue>, Seq<char>> {
    let record = directory_record(bytes, end);
    if record.count == 0 && record.size == 0 {
        Ok(Seq::empty())
    } else {
        match directory_start(bytes, end, record) {
            None => Err(unreadable_archive()),
            Some(start) => {
                let shift = if start > record.offset {
                    (start - record.offset) as u64
                } else {
                    0
                };
                let stop = if start + record.size > bytes.len() {
                    bytes.len() as int
                } else {
                    start + record.size
                };
                match entries_from(bytes, start, record.count as nat, stop, shift) {
                    Err(error) => Err(error),
                    Ok(entries) => if entries.len() == 0 && record.count > 0 {
                        Err(unreadable_archive())
                    } else {
                        Ok(marked(entries))
                    },
                }
            },
        }
    }
}

/// Every entry the archive's central directory declares, in directory order,
/// including entries whose names repeat.
pub open spec fn directory_of(bytes: Seq<u8>) -> Result<Seq<EntryValue>, Seq<char>> {
    match end_record(bytes) {
        None => Err(unreadable_archive()),
        Some(end) => directory_at(bytes, end),
    }
}

fn read_directory_at(bytes: &[u8], end: usize) -> (entries: Result<Vec<ArchiveEntry>, String>)
    requires
        end + 22 <= bytes@.len(),
    ensures
        entries_outcome(entries) == directory_at(bytes@, end as int),
{
    let record = read_directory_record(bytes, end);
    if record.count == 0 && record.size == 0 {
        let none: Vec<ArchiveEntry> = Vec::new();
        assert(entry_values(none@) =~= Seq::<EntryValue>::empty());
        return Ok(none);
    }
    let start: usize = match find_directory_start(bytes, end, &record) {
        Some(start) => start,
        None => {
            return Err(unreadable_text());
        },
    };
    let shift: u64 = if start as u64 > record.offset {
        start as u64 - record.offset
    } else {
        0
    };
    let stop: usize = if record.size > (bytes.len() - start) as u64 {
        bytes.len()
    } else {
        start + record.size as usize
    };
    match read_entries(bytes, start, record.count, stop, shift) {
        Err(error) => Err(error),
        Ok(entries) => {
            if entries.len() == 0 && record.count > 0 {
                return Err(unreadable_text());
            }
            Ok(mark_repeats(&entries))
        },
    }
}

/// A directory and the size of what it lists.
pub open spec fn read_directory(bytes: Seq<u8>) -> Result<(Seq<EntryValue>, u64), Seq<char>> {
    match directory_of(bytes) {
        Err(error) => Err(error),
        Ok(entries) => Ok((entries, total_size(entries))),
    }
}

/// A directory by its value.
pub open spec fn directory_outcome(directory: Result<(Vec<ArchiveEntry>, u64), String>) -> Result<
    (Seq<EntryValue>, u64),
    Seq<char>,
> {
    match directory {
        Ok((entries, total)) => Ok((entry_values(entries@), total)),
        Err(error) => Err(error@),
    }
}

/// Read every entry the archive's central directory declares, in directory order,
/// including entries whose names repeat, and the size of them all.
pub fn read_central_directory(bytes: &[u8]) -> (directory: Result<
    (Vec<ArchiveEntry>, u64),
    String,
>)
    ensures
        directory_outcome(directory) == read_directory(bytes@),
{
    match find_end_of_central_directory(bytes) {
        None => Err(unreadable_text()),
        Some(end) => match read_directory_at(bytes, end) {
            Err(error) => Err(error),
            Ok(entries) => {
                let total: u64 = add_sizes(&entries);
                Ok((entries, total))
            },
        },
    }
}

} // verus!
