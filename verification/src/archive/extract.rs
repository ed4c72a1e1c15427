//! Extracting one entry, bounded and checked against the archive's own checksum.

use vstd::prelude::*;

use crate::archive::directory::{
    begins_record, has_signature, read_central_directory, read_directory, unreadable_archive,
};
use crate::archive::entry::{
    entry_values, ArchiveEntry, EntryValue, MAX_ARCHIVE_ENTRY_BYTES, METHOD_DEFLATE, METHOD_STORE,
};
use crate::archive::list::is_extractable;
use crate::bytes::{copy_bytes, le16, read_le16};
use crate::checksum::crc32_of;
use crate::inflate::{crc_sum, deflate_prefix, read_deflate};
use crate::text::{joined, outcome};

verus! {

/// What is said of an entry that is too large.
pub open spec fn entry_too_large() -> Seq<char> {
    "This archive entry is too large to extract safely."@
}

/// Contents that match the archive's own checksum. Checking it turns silent
/// corruption into an honest error instead of a damaged download.
pub open spec fn checked_contents(contents: Seq<u8>, entry: EntryValue) -> Result<
    Seq<u8>,
    Seq<char>,
> {
    if crc32_of(contents) != entry.crc32 {
        Err(
            "This file inside the archive is damaged: its contents do not match the archive's own checksum."@,
        )
    } else {
        Ok(contents)
    }
}

/// Inflated bytes that keep to the limit.
pub open spec fn bounded_contents(inflated: Result<Seq<u8>, Seq<char>>, limit: u64) -> Result<
    Seq<u8>,
    Seq<char>,
> {
    match inflated {
        Err(error) => Err("Could not extract this archive entry: "@ + error),
        Ok(contents) => if contents.len() > limit {
            Err(entry_too_large())
        } else {
            Ok(contents)
        },
    }
}

/// One byte more than a limit, as far as a machine word counts.
pub open spec fn one_more(limit: u64) -> u64 {
    if limit == u64::MAX {
        limit
    } else {
        (limit + 1) as u64
    }
}

/// The contents of an entry, from its bytes in the archive.
pub open spec fn entry_contents(data: Seq<u8>, entry: EntryValue, limit: u64) -> Result<
    Seq<u8>,
    Seq<char>,
> {
    if entry.method == METHOD_STORE {
        if data.len() > limit {
            Err(entry_too_large())
        } else {
            checked_contents(data, entry)
        }
    } else if entry.method == METHOD_DEFLATE {
        match bounded_contents(deflate_prefix(data, one_more(limit)), limit) {
            Err(error) => Err(error),
            Ok(contents) => checked_contents(contents, entry),
        }
    } else {
        Err("This file inside the archive uses a compression method this tool cannot read."@)
    }
}

/// Hand out contents that match the archive's own checksum.
pub fn check_contents(contents: Vec<u8>, entry: &ArchiveEntry) -> (checked: Result<
    Vec<u8>,
    String,
>)
    ensures
        outcome(checked) == checked_contents(contents@, entry@),
{
    if crc_sum(&contents) != entry.crc32 {
        Err(
            "This file inside the archive is damaged: its contents do not match the archive's own checksum.".to_owned(),
        )
    } else {
        Ok(contents)
    }
}

/// Hand out inflated bytes that keep to the limit.
pub fn bound_contents(inflated: Result<Vec<u8>, String>, limit: u64) -> (bounded: Result<
    Vec<u8>,
    String,
>)
    ensures
        outcome(bounded) == bounded_contents(outcome(inflated), limit),
{
    match inflated {
        Err(error) => Err(joined("Could not extract this archive entry: ", error.as_str())),
        Ok(contents) => {
            if contents.len() as u64 > limit {
                Err("This archive entry is too large to extract safely.".to_owned())
            } else {
                Ok(contents)
            }
        },
    }
}

/// Inflate or copy one entry's bytes, refusing to allocate past the cap.
pub fn read_entry_data(data: &[u8], entry: &ArchiveEntry, limit: u64) -> (contents: Result<
    Vec<u8>,
    String,
>)
    ensures
        outcome(contents) == entry_contents(data@, entry@, limit),
{
    if entry.method == METHOD_STORE {
        if data.len() as u64 > limit {
            return Err("This archive entry is too large to extract safely.".to_owned());
        }
        return check_contents(copy_bytes(data), entry);
    }
    if entry.method == METHOD_DEFLATE {
        let most: u64 = if limit == u64::MAX {
            limit
        } else {
            limit + 1
        };
        return match bound_contents(read_deflate(data, most), limit) {
            Err(error) => Err(error),
            Ok(contents) => check_contents(contents, entry),
        };
    }
    Err("This file inside the archive uses a compression method this tool cannot read.".to_owned())
}

/// Where the bytes of an entry stand in the archive: behind its local header, whose
/// name and extra fields have lengths of their own.
pub open spec fn entry_data(bytes: Seq<u8>, entry: EntryValue) -> Option<Seq<u8>> {
    let header = entry.local_header_offset as int;
    if !has_signature(bytes, header, 0x0403_4b50) || header + 30 > bytes.len() {
        None
    } else {
        let start = header + 30 + le16(bytes, header + 26) + le16(bytes, header + 28);
        let end = start + entry.compressed_size;
        if end > bytes.len() {
            None
        } else {
            Some(bytes.subrange(start, end))
        }
    }
}

fn find_entry_data<'a>(bytes: &'a [u8], entry: &ArchiveEntry) -> (data: Option<&'a [u8]>)
    ensures
        match data {
            Some(data) => entry_data(bytes@, entry@) == Some(data@),
            None => entry_data(bytes@, entry@) is None,
        },
{
    if entry.local_header_offset > bytes.len() as u64 {
        return None;
    }
    let header: usize = entry.local_header_offset as usize;
    if !begins_record(bytes, header, 0x0403_4b50) || bytes.len() - header < 30 {
        return None;
    }
    assert(header + 30 <= bytes.len());
    let name_length: usize = read_le16(bytes, header + 26) as usize;
    let extra_length: usize = read_le16(bytes, header + 28) as usize;
    let room: usize = bytes.len() - (header + 30);
    if name_length > room || extra_length > room - name_length {
        return None;
    }
    let start: usize = header + 30 + name_length + extra_length;
    if entry.compressed_size > (bytes.len() - start) as u64 {
        return None;
    }
    let end: usize = start + entry.compressed_size as usize;
    let data = &bytes[start..end];
    assert(data@ =~= bytes@.subrange(start as int, end as int));
    Some(data)
}

/// The contents of an entry that a directory lists. Only the entry's own size bounds
/// the extraction: the archive's total size is irrelevant here.
pub open spec fn contents_of(bytes: Seq<u8>, entry: EntryValue, limit: u64) -> Result<
    Seq<u8>,
    Seq<char>,
> {
    if entry.encrypted {
        Err("This file inside the archive is password-protected, which isn't supported."@)
    } else if entry.size > limit {
        Err(entry_too_large())
    } else {
        match entry_data(bytes, entry) {
            None => Err(unreadable_archive()),
            Some(data) => entry_contents(data, entry, limit),
        }
    }
}

/// Extract an entry that a directory lists.
pub fn extract_contents(bytes: &[u8], entry: &ArchiveEntry, limit: u64) -> (contents: Result<
    Vec<u8>,
    String,
>)
    ensures
        outcome(contents) == contents_of(bytes@, entry@, limit),
{
    if entry.encrypted {
        return Err(
            "This file inside the archive is password-protected, which isn't supported.".to_owned(),
        );
    }
    if entry.size > limit {
        return Err("This archive entry is too large to extract safely.".to_owned());
    }
    match find_entry_data(bytes, entry) {
        None => Err("Could not read this ZIP archive.".to_owned()),
        Some(data) => read_entry_data(data, entry, limit),
    }
}

/// The contents of the entry at `index`.
pub open spec fn selected_contents(
    bytes: Seq<u8>,
    entries: Seq<EntryValue>,
    index: u32,
    limit: u64,
) -> Result<Seq<u8>, Seq<char>> {
    if index >= entries.len() {
        Err("That archive entry does not exist."@)
    } else {
        contents_of(bytes, entries[index as int], limit)
    }
}

/// Extract the entry at `index` of a directory that was read.
pub fn extract_selected(
    bytes: &[u8],
    entries: &Vec<ArchiveEntry>,
    index: u32,
    limit: u64,
) -> (contents: Result<Vec<u8>, String>)
    ensures
        outcome(contents) == selected_contents(bytes@, entry_values(entries@), index, limit),
{
    if index as u64 >= entries.len() as u64 {
        return Err("That archive entry does not exist.".to_owned());
    }
    extract_contents(bytes, &entries[index as usize], limit)
}

/// The contents of an entry of a file.
pub open spec fn extracted_entry(bytes: Seq<u8>, index: u32, limit: u64) -> Result<
    Seq<u8>,
    Seq<char>,
> {
    if bytes.len() == 0 {
        Err("Choose a ZIP archive to open."@)
    } else {
        match read_directory(bytes) {
            Err(error) => Err(error),
            Ok((entries, _)) => selected_contents(bytes, entries, index, limit),
        }
    }
}

/// Extract one entry by its listing index, with a limit on its size.
pub fn extract_entry_with_limit(bytes: &[u8], index: u32, entry_limit: u64) -> (contents: Result<
    Vec<u8>,
    String,
>)
    ensures
        outcome(contents) == extracted_entry(bytes@, index, entry_limit),
{
    if bytes.len() == 0 {
        return Err("Choose a ZIP archive to open.".to_owned());
    }
    match read_central_directory(bytes) {
        Err(error) => Err(error),
        Ok((entries, _)) => extract_selected(bytes, &entries, index, entry_limit),
    }
}

/// Extract one entry by its stable listing index with bounded reads.
pub fn extract_entry(bytes: &[u8], index: u32) -> (contents: Result<Vec<u8>, String>)
    ensures
        outcome(contents) == extracted_entry(bytes@, index, MAX_ARCHIVE_ENTRY_BYTES),
{
    extract_entry_with_limit(bytes, index, MAX_ARCHIVE_ENTRY_BYTES)
}

/// Extract one ZIP entry by its index in list order.
pub fn extract_zip_entry(bytes: &[u8], index: u32) -> (contents: Result<Vec<u8>, String>)
    ensures
        outcome(contents) == extracted_entry(bytes@, index, MAX_ARCHIVE_ENTRY_BYTES),
{
    extract_entry(bytes, index)
}

/// Whatever is extracted keeps to the limit, has the checksum that the archive
/// states, and comes from an entry that the directory lists as readable.
pub proof fn extraction_is_bounded_and_checked(bytes: Seq<u8>, index: u32, limit: u64)
    ensures
        match extracted_entry(bytes, index, limit) {
            Ok(contents) => match read_directory(bytes) {
                Ok((entries, _)) => {
                    &&& contents.len() <= limit
                    &&& index < entries.len()
                    &&& entries[index as int].can_be_read()
                    &&& entries[index as int].size <= limit
                    &&& crc32_of(contents) == entries[index as int].crc32
                },
                Err(_) => false,
            },
            Err(_) => true,
        },
{
}

/// Listing and extraction agree: an entry is listed as extractable exactly when
/// extracting it succeeds.
pub proof fn extractable_entries_are_extracted(bytes: Seq<u8>, index: u32)
    requires
        bytes.len() > 0,
        read_directory(bytes) matches Ok((entries, _)) && index < entries.len(),
    ensures
        read_directory(bytes) matches Ok((entries, _)) && is_extractable(
            bytes,
            entries[index as int],
        ) == (extracted_entry(bytes, index, MAX_ARCHIVE_ENTRY_BYTES) is Ok),
{
}

/// A larger limit never refuses what a smaller one extracts from a stored entry.
pub proof fn larger_limit_extracts_stored_entries(
    bytes: Seq<u8>,
    index: u32,
    limit: u64,
    larger: u64,
)
    requires
        limit <= larger,
    ensures
        match (read_directory(bytes), extracted_entry(bytes, index, limit)) {
            (Ok((entries, _)), Ok(contents)) => entries[index as int].method == METHOD_STORE
                ==> extracted_entry(bytes, index, larger) == Ok::<Seq<u8>, Seq<char>>(contents),
            _ => true,
        },
{
}

} // verus!
