//! What the names in an archive are taken for, and what its directory lists.

use vstd::prelude::*;

use crate::archive::directory::{
    bounded_sum, entry_at, marked, name_repeats, read_directory, sum_of_sizes, total_size,
    wide_field, wide_or,
};
use crate::archive::entry::{climbs_from, decoded_name, escapes, EntryValue};
use crate::archive::names::{
    extension_start, is_separator, name_start, number_place, numbered_name,
};
use crate::bytes::{le16, le32, le64};
use crate::text::decimal;

verus! {

/// Whether a character parts the folders of a path.
pub open spec fn is_slash(c: char) -> bool {
    c == '/' || c == '\\'
}

/// Whether the two characters at a place of a path are a folder of their own, and lead up.
pub open spec fn leads_up(path: Seq<char>, i: int) -> bool {
    &&& 0 <= i
    &&& i + 2 <= path.len()
    &&& path[i] == '.'
    &&& path[i + 1] == '.'
    &&& i == 0 || is_slash(path[i - 1])
    &&& i + 2 == path.len() || is_slash(path[i + 2])
}

proof fn lemma_climbs(path: Seq<char>, open: int, from: int)
    requires
        0 <= open <= from <= path.len(),
        open == 0 || is_slash(path[open - 1]),
        forall|k: int| open <= k < from ==> !is_slash(#[trigger] path[k]),
    ensures
        climbs_from(path, open, from) <==> exists|i: int|
            open <= i && #[trigger] leads_up(path, i),
    decreases path.len() - from,
{
    let part = path.subrange(open, from);
    if from >= path.len() || is_slash(path[from]) {
        assert(part == seq!['.', '.'] <==> leads_up(path, open)) by {
            let dots = seq!['.', '.'];
            assert(dots.len() == 2 && dots[0] == '.' && dots[1] == '.');
            assert(part.len() == from - open);
            if part == dots {
                assert(from == open + 2);
                assert(part[0] == path[open]);
                assert(part[1] == path[open + 1]);
            }
            if leads_up(path, open) {
                if from > open + 2 {
                    assert(!is_slash(path[open + 2]));
                }
                if from == open {
                    assert(!is_slash(path[from]));
                }
                if from == open + 1 {
                    assert(!is_slash(path[from]));
                }
                assert(part =~= seq!['.', '.']);
            }
        }
        assert forall|i: int| open < i <= from implies !#[trigger] leads_up(path, i) by {
            assert(!is_slash(path[i - 1]));
        }
        if from < path.len() {
            lemma_climbs(path, from + 1, from + 1);
        }
        if exists|i: int| open <= i && #[trigger] leads_up(path, i) {
            let i = choose|i: int| open <= i && #[trigger] leads_up(path, i);
            assert(i == open || from + 1 <= i);
        }
    } else {
        lemma_climbs(path, open, from + 1);
    }
}

/// A path is unsafe exactly when it begins with a slash of either kind, begins with a drive,
/// or has a folder that leads up.
pub proof fn unsafe_paths_are_told(path: Seq<char>)
    ensures
        escapes(path) <==> {
            ||| path.len() > 0 && (path[0] == '/' || path[0] == '\\')
            ||| path.len() >= 2 && path[1] == ':' && ('a' <= path[0] <= 'z' || 'A' <= path[0]
                <= 'Z')
            ||| exists|i: int| #[trigger] leads_up(path, i)
        },
{
    lemma_climbs(path, 0, 0);
    if exists|i: int| #[trigger] leads_up(path, i) {
        let i = choose|i: int| #[trigger] leads_up(path, i);
        assert(0 <= i && leads_up(path, i));
    }
}

proof fn lemma_name_start(path: Seq<char>, end: int)
    requires
        0 <= end <= path.len(),
    ensures
        0 <= name_start(path, end) <= end,
        name_start(path, end) == 0 || is_slash(path[name_start(path, end) - 1]),
        forall|k: int| name_start(path, end) <= k < end ==> !is_slash(#[trigger] path[k]),
    decreases end,
{
    if end > 0 && !is_separator(path[end - 1]) {
        lemma_name_start(path, end - 1);
    }
}

proof fn lemma_extension(path: Seq<char>, start: int, end: int, whole: int)
    requires
        0 <= start <= end <= whole <= path.len(),
        forall|k: int| end <= k < whole ==> #[trigger] path[k] != '.',
    ensures
        ({
            let place = extension_start(path, start, end, whole);
            &&& start <= place <= whole
            &&& place < whole ==> start < place && path[place] == '.' && forall|k: int|
                place < k < whole ==> #[trigger] path[k] != '.'
            &&& place == whole ==> forall|k: int| start < k < whole ==> #[trigger] path[k] != '.'
        }),
    decreases end - start,
{
    if end > start && path[end - 1] != '.' {
        lemma_extension(path, start, end - 1, whole);
    }
}

/// A number goes between a file's name and its extension: what stands before stays in front,
/// what stands behind is the last dot of the name and the letters after it, or nothing where
/// the name has no dot but one that it begins with.
pub proof fn numbers_go_before_the_extension(path: Seq<char>, number: nat)
    ensures
        ({
            let place = number_place(path);
            let name = name_start(path, path.len() as int);
            &&& 0 <= name <= place <= path.len()
            &&& numbered_name(path, number) == path.take(place) + seq!['-'] + decimal(number)
                + path.skip(place)
            &&& name == 0 || is_slash(path[name - 1])
            &&& forall|k: int| name <= k < path.len() ==> !is_slash(#[trigger] path[k])
            &&& place < path.len() ==> name < place && path[place] == '.'
            &&& place < path.len() ==> forall|k: int|
                place < k < path.len() ==> #[trigger] path[k] != '.'
            &&& place == path.len() ==> forall|k: int|
                name < k < path.len() ==> #[trigger] path[k] != '.'
        }),
{
    let length = path.len() as int;
    lemma_name_start(path, length);
    lemma_extension(path, name_start(path, length), length, length);
    reveal_strlit("-");
    assert("-"@ =~= seq!['-']);
}

/// The record of an entry is read from its fixed places: its method, its checksum, its name
/// behind forty-six bytes, and whether it is password-protected and says that its name is
/// UTF-8. The next record follows its name, its extra fields and its comment.
pub proof fn records_are_read_by_place(bytes: Seq<u8>, at: int, shift: u64)
    requires
        0 <= at,
        entry_at(bytes, at, shift) is Some,
    ensures
        ({
            let (entry, next) = entry_at(bytes, at, shift)->0;
            let name_end = at + 46 + le16(bytes, at + 28);
            &&& entry.method == le16(bytes, at + 10)
            &&& entry.crc32 == le32(bytes, at + 16)
            &&& entry.encrypted == (bytes[at + 8] % 2 == 1)
            &&& entry.name == decoded_name(
                bytes.subrange(at + 46, name_end),
                (bytes[at + 9] / 8) % 2 == 1,
            )
            &&& next == name_end + le16(bytes, at + 30) + le16(bytes, at + 32)
        }),
{
    let flags = le16(bytes, at + 8);
    let low = bytes[at + 8] as nat;
    let high = bytes[at + 9] as nat;
    assert(flags == low + 256 * high);
    assert(flags % 2 == low % 2);
    assert((flags / 0x800) % 2 == (high / 8) % 2);
}

/// The sizes and the place of an entry are those of its record. One that does not fit there
/// stands as a 64-bit number in the first extra field of its kind: the size first, then the
/// packed size, then the place, of those that do not fit.
pub proof fn large_entries_are_read_by_their_extra_field(bytes: Seq<u8>, at: int, shift: u64)
    requires
        0 <= at,
        entry_at(bytes, at, shift) is Some,
    ensures
        ({
            let (entry, _) = entry_at(bytes, at, shift)->0;
            let name_end = at + 46 + le16(bytes, at + 28);
            let extra = bytes.subrange(name_end, name_end + le16(bytes, at + 30));
            let size = le32(bytes, at + 24);
            let packed = le32(bytes, at + 20);
            let offset = le32(bytes, at + 42);
            &&& size < u32::MAX ==> entry.size == size
            &&& packed < u32::MAX ==> entry.compressed_size == packed
            &&& offset < u32::MAX ==> entry.local_header_offset == bounded_sum(
                offset as int,
                shift as int,
            )
            &&& wide_field(extra, 0) matches Some(field) ==> {
                &&& size == u32::MAX && field.len() >= 8 ==> entry.size == le64(field, 0)
                &&& packed == u32::MAX && size < u32::MAX && field.len() >= 8
                    ==> entry.compressed_size == le64(field, 0)
                &&& packed == u32::MAX && size == u32::MAX && field.len() >= 16
                    ==> entry.compressed_size == le64(field, 8)
                &&& offset == u32::MAX && shift == 0 && packed < u32::MAX && size < u32::MAX
                    && field.len() >= 8 ==> entry.local_header_offset == le64(field, 0)
                &&& offset == u32::MAX && shift == 0 && packed == u32::MAX && size == u32::MAX
                    && field.len() >= 24 ==> entry.local_header_offset == le64(field, 16)
            }
        }),
{
    let name_end = at + 46 + le16(bytes, at + 28);
    let extra = bytes.subrange(name_end, name_end + le16(bytes, at + 30));
    if let Some(field) = wide_field(extra, 0) {
        lemma_wide(field, 0);
        lemma_wide(field, 8);
        lemma_wide(field, 16);
    }
}

proof fn lemma_wide(bytes: Seq<u8>, at: int)
    ensures
        0 <= at && at + 8 <= bytes.len() ==> forall|other: u64| #[trigger]
            wide_or(bytes, at, other) == le64(bytes, at),
{
    if 0 <= at && at + 8 <= bytes.len() {
        lemma_eight(bytes, at);
    }
}

proof fn lemma_eight(bytes: Seq<u8>, at: int)
    requires
        0 <= at,
        at + 8 <= bytes.len(),
    ensures
        le64(bytes, at) <= u64::MAX,
{
    assert(le32(bytes, at) <= u32::MAX);
    assert(le32(bytes, at + 4) <= u32::MAX);
}

/// An archive marks an entry as one of several of its name exactly when another entry has that
/// name, and says how many bytes all entries have together, as far as a machine word counts.
pub proof fn repeated_names_are_marked(bytes: Seq<u8>, i: int)
    ensures
        read_directory(bytes) matches Ok((entries, total)) ==> {
            &&& 0 <= i < entries.len() ==> (entries[i].duplicate_name <==> exists|j: int|
                0 <= j < entries.len() && j != i && (#[trigger] entries[j]).name
                    == entries[i].name)
            &&& total == total_size(entries)
            &&& 0 <= i < entries.len() ==> entries[i].size <= total
        },
{
    if let Ok((entries, total)) = read_directory(bytes) {
        if 0 <= i < entries.len() {
            lemma_marks(bytes, i);
            lemma_sizes(entries, i);
        }
    }
}

proof fn lemma_marks(bytes: Seq<u8>, i: int)
    requires
        read_directory(bytes) matches Ok((entries, _)) && 0 <= i < entries.len(),
    ensures
        read_directory(bytes) matches Ok((entries, _)) && (entries[i].duplicate_name <==> exists|
            j: int,
        |
            0 <= j < entries.len() && j != i && (#[trigger] entries[j]).name == entries[i].name),
{
    let (entries, _) = read_directory(bytes)->Ok_0;
    let unmarked = choose|unmarked: Seq<EntryValue>| entries == #[trigger] marked(unmarked);
    assert(entries == marked(unmarked));
    assert(unmarked.len() == entries.len());
    assert forall|j: int| 0 <= j < entries.len() implies (#[trigger] entries[j]).name
        == unmarked[j].name by {}
    if name_repeats(unmarked, i) {
        let j = choose|j: int|
            0 <= j < unmarked.len() && j != i && (#[trigger] unmarked[j]).name == unmarked[i].name;
        assert(entries[j].name == entries[i].name);
    }
    if exists|j: int|
        0 <= j < entries.len() && j != i && (#[trigger] entries[j]).name == entries[i].name {
        let j = choose|j: int|
            0 <= j < entries.len() && j != i && (#[trigger] entries[j]).name == entries[i].name;
        assert(unmarked[j].name == unmarked[i].name);
    }
}

proof fn lemma_sizes(entries: Seq<EntryValue>, i: int)
    requires
        0 <= i < entries.len(),
    ensures
        entries[i].size <= sum_of_sizes(entries),
    decreases entries.len(),
{
    if i < entries.len() - 1 {
        assert(entries.drop_last()[i] == entries[i]);
        lemma_sizes(entries.drop_last(), i);
    }
}

/// The sizes of some entries and of others add up to that of all, and a single entry counts
/// with its own.
pub proof fn sizes_add_up(first: Seq<EntryValue>, rest: Seq<EntryValue>)
    ensures
        sum_of_sizes(first + rest) == sum_of_sizes(first) + sum_of_sizes(rest),
        rest.len() == 1 ==> sum_of_sizes(rest) == rest[0].size,
    decreases rest.len(),
{
    if rest.len() == 0 {
        assert(first + rest =~= first);
    } else {
        assert((first + rest).drop_last() =~= first + rest.drop_last());
        sizes_add_up(first, rest.drop_last());
        if rest.len() == 1 {
            assert(sum_of_sizes(rest.drop_last()) == 0);
        }
    }
}

} // verus!
