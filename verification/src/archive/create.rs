//! Creating a deterministic Store and Deflate archive.

use vstd::prelude::*;

use crate::archive::directory::read_directory;
use crate::archive::entry::{MAX_ARCHIVE_ENTRY_BYTES, METHOD_DEFLATE, METHOD_STORE};
use crate::archive::extract::extracted_entry;
use crate::archive::laws::{
    is_plain_archive, prefixed_archive_extracts_the_same, prefixed_archive_lists_the_same,
};
use crate::archive::list::listed_archive;
use crate::archive::names::{
    archive_names_are_distinct, text_values, unique_names, unique_names_of,
};
use crate::archive::outside::{
    archived, are_small, finish_archive, holds, is_dated, is_located, is_ordinary, keeps,
    new_archive, start_file, started, write_file, written, zip_file, ArchiveWriter, ArchivedValue,
    FailureValue, Timestamp, ZipFailure,
};
use crate::bytes::{buffer_values, copy_bytes, utf8};
use crate::inflate::{deflated, write_deflate};
use crate::text::{joined, outcome};

verus! {

/// The most bytes that are archived at a time.
pub const MAX_ARCHIVE_TOTAL_BYTES: u64 = 512_000_000;

/// The level that files are deflated at.
pub const DEFLATE_LEVEL: u32 = 6;

/// A file to archive: its name and its bytes.
pub type ArchiveFile = (String, Vec<u8>);

/// Files by their values.
pub open spec fn file_values(files: Seq<ArchiveFile>) -> Seq<(Seq<char>, Seq<u8>)> {
    files.map_values(|file: ArchiveFile| (file.0@, file.1@))
}

/// The names of files.
pub open spec fn file_names(files: Seq<(Seq<char>, Seq<u8>)>) -> Seq<Seq<char>> {
    files.map_values(|file: (Seq<char>, Seq<u8>)| file.0)
}

/// How many bytes the files have together.
pub open spec fn total_bytes(files: Seq<(Seq<char>, Seq<u8>)>) -> nat
    decreases files.len(),
{
    if files.len() == 0 {
        0
    } else {
        total_bytes(files.drop_last()) + files.last().1.len()
    }
}

/// The modification time of every file: no clock is read.
pub open spec fn fixed_time() -> Timestamp {
    Timestamp { year: 1980, month: 1, day: 1, hour: 0, minute: 0, second: 0 }
}

fn fixed_modified_time() -> (time: Timestamp)
    ensures
        time == fixed_time(),
{
    Timestamp { year: 1980, month: 1, day: 1, hour: 0, minute: 0, second: 0 }
}

/// What a failure of the archive writer is told as.
pub open spec fn failure_text(context: Seq<char>, failure: FailureValue) -> Seq<char> {
    match failure {
        FailureValue::Other(text) => context + ": "@ + text,
        _ => "This archive is password-protected, which isn't supported."@,
    }
}

/// What a failure of the archive writer is told as.
pub fn map_zip_error(context: &str, failure: &ZipFailure) -> (text: String)
    ensures
        text@ == failure_text(context@, failure@),
{
    match failure {
        ZipFailure::Other(error) => {
            let mut text = joined(context, ": ");
            text.append(error.as_str());
            text
        },
        _ => "This archive is password-protected, which isn't supported.".to_owned(),
    }
}

/// The level at which a file is deflated: none when that does not make it smaller.
pub open spec fn chosen_level(packed: Seq<u8>, bytes: Seq<u8>) -> Option<i64> {
    if packed.len() < bytes.len() {
        Some(6)
    } else {
        None
    }
}

/// How large a file is once it is deflated.
pub open spec fn packed_size(bytes: Seq<u8>) -> Result<nat, Seq<char>> {
    match deflated(bytes, DEFLATE_LEVEL) {
        Err(error) => Err("Could not measure a compressed archive entry: "@ + error),
        Ok(packed) => Ok(packed.len()),
    }
}

/// How large a file is once it is deflated.
pub fn deflated_size(bytes: &[u8]) -> (size: Result<u64, String>)
    ensures
        match size {
            Ok(size) => packed_size(bytes@) == Ok::<nat, Seq<char>>(size as nat),
            Err(error) => packed_size(bytes@) == Err::<nat, Seq<char>>(error@),
        },
{
    match write_deflate(bytes, DEFLATE_LEVEL) {
        Err(error) => Err(
            joined("Could not measure a compressed archive entry: ", error.as_str()),
        ),
        Ok(packed) => Ok(packed.len() as u64),
    }
}

/// The files of a writer after one more was given to it, or why it was not.
pub open spec fn with_file(
    files: Seq<ArchivedValue>,
    name: Seq<char>,
    bytes: Seq<u8>,
) -> Result<Seq<ArchivedValue>, Seq<char>> {
    match deflated(bytes, DEFLATE_LEVEL) {
        Err(error) => Err("Could not measure a compressed archive entry: "@ + error),
        Ok(packed) => {
            let level = chosen_level(packed, bytes);
            match started(files, name, level, fixed_time()) {
                Err(failure) => Err(
                    failure_text("Could not add a file to the archive"@, failure),
                ),
                Ok(()) => {
                    let begun = files.push(
                        ArchivedValue {
                            name,
                            level,
                            modified: fixed_time(),
                            bytes: Seq::empty(),
                        },
                    );
                    match written(begun, bytes) {
                        Err(error) => Err("Could not write a file to the archive: "@ + error),
                        Ok(()) => Ok(
                            files.push(
                                ArchivedValue { name, level, modified: fixed_time(), bytes },
                            ),
                        ),
                    }
                },
            }
        },
    }
}

fn add_file(writer: &mut ArchiveWriter, name: &str, bytes: &Vec<u8>) -> (result: Result<(), String>)
    requires
        utf8(name@).len() <= u16::MAX,
    ensures
        match result {
            Ok(()) => with_file(archived(*old(writer)), name@, bytes@) == Ok::<
                Seq<ArchivedValue>,
                Seq<char>,
            >(archived(*final(writer))),
            Err(error) => with_file(archived(*old(writer)), name@, bytes@) == Err::<
                Seq<ArchivedValue>,
                Seq<char>,
            >(error@),
        },
{
    let ghost before = archived(*writer);
    let packed: u64 = match deflated_size(bytes) {
        Ok(size) => size,
        Err(error) => {
            return Err(error);
        },
    };
    let level: Option<i64> = if packed < bytes.len() as u64 {
        Some(6)
    } else {
        None
    };
    match start_file(writer, name, level, fixed_modified_time()) {
        Ok(()) => {},
        Err(failure) => {
            return Err(map_zip_error("Could not add a file to the archive", &failure));
        },
    }
    let ghost begun = archived(*writer);
    match write_file(writer, bytes) {
        Ok(()) => {
            assert(begun.drop_last() =~= before);
            Ok(())
        },
        Err(error) => Err(joined("Could not write a file to the archive: ", error.as_str())),
    }
}

/// The files of a writer after the first `count` were given to it, or why one was
/// not.
pub open spec fn with_files(
    files: Seq<(Seq<char>, Seq<u8>)>,
    names: Seq<Seq<char>>,
    count: nat,
) -> Result<Seq<ArchivedValue>, Seq<char>>
    decreases count,
{
    if count == 0 {
        Ok(Seq::empty())
    } else {
        match with_files(files, names, (count - 1) as nat) {
            Err(error) => Err(error),
            Ok(done) => with_file(done, names[count - 1], files[count - 1].1),
        }
    }
}

proof fn lemma_first_refusal(
    files: Seq<(Seq<char>, Seq<u8>)>,
    names: Seq<Seq<char>>,
    count: nat,
    all: nat,
)
    requires
        count <= all,
        with_files(files, names, count) is Err,
    ensures
        with_files(files, names, all) == with_files(files, names, count),
    decreases all - count,
{
    if count < all {
        lemma_first_refusal(files, names, count, (all - 1) as nat);
    }
}

/// An archive of files, under names of which no two are alike.
pub open spec fn created_archive(files: Seq<(Seq<char>, Seq<u8>)>, limit: u64) -> Result<
    Seq<u8>,
    Seq<char>,
> {
    if files.len() == 0 {
        Err("Choose at least one file to archive."@)
    } else if total_bytes(files) > limit {
        Err("These files are too large to archive safely."@)
    } else {
        match with_files(files, unique_names_of(file_names(files)), files.len()) {
            Err(error) => Err(error),
            Ok(all) => match zip_file(all) {
                Err(failure) => Err(failure_text("Could not finish the archive"@, failure)),
                Ok(bytes) => Ok(bytes),
            },
        }
    }
}

/// Whether every name that files are archived under fits its field.
pub open spec fn names_fit_archive(names: Seq<Seq<char>>) -> bool {
    forall|i: int|
        0 <= i < names.len() ==> utf8(#[trigger] unique_names_of(names)[i]).len() <= u16::MAX
}

/// Whether every name that files are archived under fits its field.
pub fn names_fit(names: &Vec<String>) -> (fit: bool)
    ensures
        fit == names_fit_archive(text_values(names@)),
{
    let unique = unique_names(names);
    proof {
        archive_names_are_distinct(text_values(names@));
    }
    let mut i: usize = 0;
    while i < unique.len()
        invariant
            i <= unique@.len(),
            unique@.len() == names@.len(),
            text_values(unique@) == unique_names_of(text_values(names@)),
            forall|j: int|
                0 <= j < i ==> utf8(#[trigger] unique_names_of(text_values(names@))[j]).len()
                    <= u16::MAX,
        decreases unique.len() - i,
    {
        assert(unique_names_of(text_values(names@))[i as int] == unique@[i as int]@);
        if unique[i].as_str().as_bytes().len() > u16::MAX as usize {
            return false;
        }
        i += 1;
    }
    true
}

proof fn lemma_total(files: Seq<(Seq<char>, Seq<u8>)>, count: int)
    requires
        0 <= count <= files.len(),
    ensures
        total_bytes(files.take(count)) <= total_bytes(files),
    decreases files.len() - count,
{
    if count < files.len() {
        lemma_total(files, count + 1);
        assert(files.take(count + 1).drop_last() =~= files.take(count));
    } else {
        assert(files.take(count) =~= files);
    }
}

fn keeps_to_limit(files: &Vec<ArchiveFile>, limit: u64) -> (keeps: bool)
    ensures
        keeps == (total_bytes(file_values(files@)) <= limit),
{
    let ghost values = file_values(files@);
    let mut total: u64 = 0;
    let mut i: usize = 0;
    while i < files.len()
        invariant
            i <= files@.len(),
            values == file_values(files@),
            total == total_bytes(values.take(i as int)),
            total <= limit,
        decreases files.len() - i,
    {
        proof {
            assert(values.take(i + 1).drop_last() =~= values.take(i as int));
            assert(values.take(i + 1).last() == (files@[i as int].0@, files@[i as int].1@));
            lemma_total(values, i + 1);
        }
        let length: u64 = files[i].1.len() as u64;
        if length > limit - total {
            return false;
        }
        total += length;
        i += 1;
    }
    assert(values.take(files@.len() as int) =~= values);
    true
}

fn copy_names(files: &Vec<ArchiveFile>) -> (names: Vec<String>)
    ensures
        text_values(names@) == file_names(file_values(files@)),
{
    let mut names: Vec<String> = Vec::new();
    let mut i: usize = 0;
    while i < files.len()
        invariant
            i <= files@.len(),
            names@.len() == i,
            forall|j: int| 0 <= j < i ==> (#[trigger] names@[j])@ == files@[j].0@,
        decreases files.len() - i,
    {
        names.push(files[i].0.as_str().to_owned());
        i += 1;
    }
    assert(text_values(names@) =~= file_names(file_values(files@)));
    names
}

fn write_archive(files: &Vec<ArchiveFile>, names: &Vec<String>) -> (archive: Result<
    Vec<u8>,
    String,
>)
    requires
        names@.len() == files@.len(),
        forall|i: int| 0 <= i < names@.len() ==> utf8((#[trigger] names@[i])@).len() <= u16::MAX,
    ensures
        match with_files(file_values(files@), text_values(names@), files@.len()) {
            Err(error) => outcome(archive) == Err::<Seq<u8>, Seq<char>>(error),
            Ok(all) => outcome(archive) == (match zip_file(all) {
                Err(failure) => Err(failure_text("Could not finish the archive"@, failure)),
                Ok(bytes) => Ok(bytes),
            }) && (match archive {
                Ok(bytes) => (is_located(bytes@) && are_small(all) ==> holds(bytes@, all)) && (
                is_ordinary(bytes@, all.len()) ==> is_plain_archive(bytes@)),
                Err(_) => true,
            }),
        },
{
    let ghost values = file_values(files@);
    let ghost texts = text_values(names@);
    let mut writer = new_archive();
    let mut i: usize = 0;
    while i < files.len()
        invariant
            i <= files@.len(),
            names@.len() == files@.len(),
            values == file_values(files@),
            texts == text_values(names@),
            forall|j: int|
                0 <= j < names@.len() ==> utf8((#[trigger] names@[j])@).len() <= u16::MAX,
            with_files(values, texts, i as nat) == Ok::<Seq<ArchivedValue>, Seq<char>>(
                archived(writer),
            ),
        decreases files.len() - i,
    {
        assert(utf8(names@[i as int]@).len() <= u16::MAX);
        match add_file(&mut writer, names[i].as_str(), &files[i].1) {
            Ok(()) => {},
            Err(error) => {
                proof {
                    lemma_first_refusal(values, texts, (i + 1) as nat, files@.len());
                }
                return Err(error);
            },
        }
        i += 1;
    }
    match finish_archive(writer) {
        Ok(bytes) => Ok(bytes),
        Err(failure) => Err(map_zip_error("Could not finish the archive", &failure)),
    }
}

/// How many bytes a file takes in an archive: those of its deflate stream where that
/// makes it smaller.
pub open spec fn archived_size(bytes: Seq<u8>) -> nat {
    match packed_size(bytes) {
        Ok(size) => if size < bytes.len() {
            size
        } else {
            bytes.len()
        },
        Err(_) => bytes.len(),
    }
}

/// The method that a file is archived with: Deflate where that makes it smaller.
pub open spec fn archived_method(bytes: Seq<u8>) -> u16 {
    if archived_size(bytes) < bytes.len() {
        METHOD_DEFLATE
    } else {
        METHOD_STORE
    }
}

/// Whether an archive lists these files under names of which no two are alike, in
/// order, each with its size, its method and the fixed time, and gives their bytes back.
pub open spec fn restores(archive: Seq<u8>, files: Seq<(Seq<char>, Seq<u8>)>) -> bool {
    match read_directory(archive) {
        Ok((entries, _)) => entries.len() == files.len() && forall|i: int|
            0 <= i < files.len() ==> (#[trigger] entries[i]).name == unique_names_of(
                file_names(files),
            )[i] && entries[i].size == files[i].1.len() && entries[i].method == archived_method(
                files[i].1,
            ) && entries[i].compressed_size == archived_size(files[i].1) && is_dated(
                archive,
                i as nat,
                fixed_time(),
            ) && (i <= u32::MAX ==> extracted_entry(archive, i as u32, MAX_ARCHIVE_ENTRY_BYTES)
                == Ok::<Seq<u8>, Seq<char>>(files[i].1)),
        Err(_) => false,
    }
}

/// Whether an archive is listed and extracted as before when other bytes stand in front
/// of it.
pub open spec fn bears_a_prefix(archive: Seq<u8>) -> bool {
    &&& forall|prefix: Seq<u8>, index: u32, limit: u64|
        prefix.len() + archive.len() <= i64::MAX ==> #[trigger] extracted_entry(
            prefix + archive,
            index,
            limit,
        ) == extracted_entry(archive, index, limit)
    &&& forall|prefix: Seq<u8>|
        prefix.len() + archive.len() <= i64::MAX ==> #[trigger] listed_archive(prefix + archive)
            == listed_archive(archive)
}

/// Whether a file that a writer was given has these bytes, and was taken as they ask.
spec fn is_taken(file: ArchivedValue, bytes: Seq<u8>) -> bool {
    &&& file.bytes == bytes
    &&& file.modified == fixed_time()
    &&& deflated(bytes, DEFLATE_LEVEL) matches Ok(packed) && file.level == chosen_level(
        packed,
        bytes,
    )
}

/// The files of a writer are those that were given to it, under their names.
proof fn lemma_with_files(
    files: Seq<(Seq<char>, Seq<u8>)>,
    names: Seq<Seq<char>>,
    count: nat,
)
    requires
        count <= files.len(),
        names.len() == files.len(),
        with_files(files, names, count) is Ok,
    ensures
        with_files(files, names, count)->Ok_0.len() == count,
        forall|i: int|
            0 <= i < count ==> (#[trigger] with_files(files, names, count)->Ok_0[i]).name
                == names[i] && is_taken(with_files(files, names, count)->Ok_0[i], files[i].1),
    decreases count,
{
    if count > 0 {
        let before = (count - 1) as nat;
        lemma_with_files(files, names, before);
        let done = with_files(files, names, before)->Ok_0;
        let all = with_files(files, names, count)->Ok_0;
        assert(all.drop_last() =~= done);
        assert forall|i: int| 0 <= i < count implies (#[trigger] all[i]).name == names[i]
            && is_taken(all[i], files[i].1) by {
            if i < before {
                assert(all[i] == done[i]);
            }
        }
    }
}

proof fn lemma_each_is_bounded(files: Seq<(Seq<char>, Seq<u8>)>, i: int)
    requires
        0 <= i < files.len(),
    ensures
        files[i].1.len() <= total_bytes(files),
    decreases files.len(),
{
    if i < files.len() - 1 {
        assert(files.drop_last()[i] == files[i]);
        lemma_each_is_bounded(files.drop_last(), i);
    }
}

proof fn lemma_restores(archive: Seq<u8>, files: Seq<(Seq<char>, Seq<u8>)>)
    requires
        total_bytes(files) <= MAX_ARCHIVE_ENTRY_BYTES,
        is_located(archive),
        match with_files(files, unique_names_of(file_names(files)), files.len()) {
            Ok(all) => are_small(all) ==> holds(archive, all),
            Err(_) => false,
        },
    ensures
        restores(archive, files),
{
    let names = unique_names_of(file_names(files));
    archive_names_are_distinct(file_names(files));
    lemma_with_files(files, names, files.len());
    let all = with_files(files, names, files.len())->Ok_0;
    assert forall|i: int| 0 <= i < all.len() implies (#[trigger] all[i]).bytes.len()
        <= MAX_ARCHIVE_ENTRY_BYTES by {
        assert(is_taken(all[i], files[i].1));
        lemma_each_is_bounded(files, i);
    }
    let (entries, _) = read_directory(archive)->Ok_0;
    assert forall|i: int| 0 <= i < files.len() implies (#[trigger] entries[i]).name == names[i]
        && entries[i].size == files[i].1.len() && entries[i].method == archived_method(files[i].1)
        && entries[i].compressed_size == archived_size(files[i].1) && is_dated(
        archive,
        i as nat,
        fixed_time(),
    ) && (i <= u32::MAX ==> extracted_entry(archive, i as u32, MAX_ARCHIVE_ENTRY_BYTES) == Ok::<
        Seq<u8>,
        Seq<char>,
    >(files[i].1)) by {
        assert(keeps(archive, i, entries[i], all[i]));
        assert(all[i].name == names[i] && is_taken(all[i], files[i].1));
    }
}

proof fn lemma_bears_a_prefix(archive: Seq<u8>)
    requires
        is_plain_archive(archive),
    ensures
        bears_a_prefix(archive),
        is_located(archive),
{
    assert forall|prefix: Seq<u8>, index: u32, limit: u64|
        prefix.len() + archive.len() <= i64::MAX implies #[trigger] extracted_entry(
        prefix + archive,
        index,
        limit,
    ) == extracted_entry(archive, index, limit) by {
        prefixed_archive_extracts_the_same(prefix, archive, index, limit);
    }
    assert forall|prefix: Seq<u8>| prefix.len() + archive.len() <= i64::MAX implies
        #[trigger] listed_archive(prefix + archive) == listed_archive(archive) by {
        prefixed_archive_lists_the_same(prefix, archive);
    }
}

/// Whether a new archive of these files does what it is for. It lists and restores them
/// where its 64-bit end record is found, if it needs one. Where it keeps to the narrow
/// fields of the format, it does so in any case, and bytes in front of it change nothing.
pub open spec fn serves(archive: Seq<u8>, files: Seq<(Seq<char>, Seq<u8>)>) -> bool {
    &&& is_located(archive) ==> restores(archive, files)
    &&& is_ordinary(archive, files.len()) ==> restores(archive, files) && bears_a_prefix(archive)
}

/// Build a deterministic Store and Deflate archive from ordered entries. A file
/// is deflated where that makes it smaller. What was archived is listed under its
/// name and can be extracted again.
pub fn create_archive_with_limit(files: &Vec<ArchiveFile>, total_limit: u64) -> (archive: Result<
    Vec<u8>,
    String,
>)
    requires
        total_bytes(file_values(files@)) <= total_limit ==> names_fit_archive(
            file_names(file_values(files@)),
        ),
    ensures
        outcome(archive) == created_archive(file_values(files@), total_limit),
        match archive {
            Ok(archive) => total_limit <= MAX_ARCHIVE_ENTRY_BYTES ==> serves(
                archive@,
                file_values(files@),
            ),
            Err(_) => true,
        },
{
    let ghost values = file_values(files@);
    if files.len() == 0 {
        return Err("Choose at least one file to archive.".to_owned());
    }
    if !keeps_to_limit(files, total_limit) {
        return Err("These files are too large to archive safely.".to_owned());
    }
    let names = unique_names(&copy_names(files));
    proof {
        archive_names_are_distinct(file_names(values));
        assert forall|i: int| 0 <= i < names@.len() implies utf8((#[trigger] names@[i])@).len()
            <= u16::MAX by {
            assert(text_values(names@)[i] == names@[i]@);
        }
    }
    let archive = write_archive(files, &names);
    proof {
        if archive is Ok && total_limit <= MAX_ARCHIVE_ENTRY_BYTES {
            let made = archive->Ok_0@;
            let texts = unique_names_of(file_names(values));
            lemma_with_files(values, texts, values.len());
            if is_ordinary(made, values.len()) {
                lemma_bears_a_prefix(made);
            }
            if is_located(made) {
                lemma_restores(made, values);
            }
        }
    }
    archive
}

/// Build a deterministic Store and Deflate archive from ordered entries.
pub fn create_archive(files: &Vec<ArchiveFile>) -> (archive: Result<Vec<u8>, String>)
    requires
        total_bytes(file_values(files@)) <= MAX_ARCHIVE_TOTAL_BYTES ==> names_fit_archive(
            file_names(file_values(files@)),
        ),
    ensures
        outcome(archive) == created_archive(file_values(files@), MAX_ARCHIVE_TOTAL_BYTES),
        match archive {
            Ok(archive) => serves(archive@, file_values(files@)),
            Err(_) => true,
        },
{
    create_archive_with_limit(files, MAX_ARCHIVE_TOTAL_BYTES)
}

/// Names and buffers put together.
pub open spec fn paired(names: Seq<Seq<char>>, buffers: Seq<Seq<u8>>) -> Seq<
    (Seq<char>, Seq<u8>),
> {
    Seq::new(names.len(), |i: int| (names[i], buffers[i]))
}

fn pair_files(names: &Vec<String>, buffers: &Vec<Vec<u8>>) -> (files: Vec<ArchiveFile>)
    requires
        names@.len() == buffers@.len(),
    ensures
        file_values(files@) == paired(
            text_values(names@),
            buffer_values(buffers@),
        ),
{
    let mut files: Vec<ArchiveFile> = Vec::new();
    let mut i: usize = 0;
    while i < names.len()
        invariant
            i <= names@.len(),
            names@.len() == buffers@.len(),
            files@.len() == i,
            forall|j: int|
                0 <= j < i ==> (#[trigger] files@[j]).0@ == names@[j]@ && files@[j].1@
                    == buffers@[j]@,
        decreases names.len() - i,
    {
        files.push((names[i].as_str().to_owned(), copy_bytes(&buffers[i])));
        i += 1;
    }
    assert(file_values(files@) =~= paired(
        text_values(names@),
        buffer_values(buffers@),
    ));
    files
}

/// An archive of parallel names and buffers.
pub open spec fn zipped(names: Seq<Seq<char>>, buffers: Seq<Seq<u8>>) -> Result<
    Seq<u8>,
    Seq<char>,
> {
    if names.len() != buffers.len() {
        Err("Every archive filename must have one matching file buffer."@)
    } else {
        created_archive(paired(names, buffers), MAX_ARCHIVE_TOTAL_BYTES)
    }
}

/// Whether every name that parallel names and buffers are archived under fits its field,
/// as far as they are archived at all.
pub open spec fn are_nameable(names: Seq<Seq<char>>, buffers: Seq<Seq<u8>>) -> bool {
    names.len() == buffers.len() && total_bytes(paired(names, buffers)) <= MAX_ARCHIVE_TOTAL_BYTES
        ==> names_fit_archive(names)
}

fn buffers_keep_to_limit(names: &Vec<String>, buffers: &Vec<Vec<u8>>) -> (keep: bool)
    requires
        names@.len() == buffers@.len(),
    ensures
        keep == (total_bytes(paired(text_values(names@), buffer_values(buffers@)))
            <= MAX_ARCHIVE_TOTAL_BYTES),
{
    let ghost values = paired(text_values(names@), buffer_values(buffers@));
    let mut total: u64 = 0;
    let mut i: usize = 0;
    while i < buffers.len()
        invariant
            i <= buffers@.len(),
            names@.len() == buffers@.len(),
            values == paired(text_values(names@), buffer_values(buffers@)),
            total == total_bytes(values.take(i as int)),
            total <= MAX_ARCHIVE_TOTAL_BYTES,
        decreases buffers.len() - i,
    {
        proof {
            assert(values.take(i + 1).drop_last() =~= values.take(i as int));
            assert(values.take(i + 1).last().1 == buffers@[i as int]@);
            lemma_total(values, i + 1);
        }
        let length: u64 = buffers[i].len() as u64;
        if length > MAX_ARCHIVE_TOTAL_BYTES - total {
            return false;
        }
        total += length;
        i += 1;
    }
    assert(values.take(buffers@.len() as int) =~= values);
    true
}

/// Whether every name that parallel names and buffers are archived under fits its field,
/// as far as they are archived at all.
pub fn check_names(names: &Vec<String>, buffers: &Vec<Vec<u8>>) -> (fit: bool)
    ensures
        fit == are_nameable(text_values(names@), buffer_values(buffers@)),
{
    if names.len() != buffers.len() || !buffers_keep_to_limit(names, buffers) {
        return true;
    }
    names_fit(names)
}

/// Build a deterministic Store and Deflate ZIP from parallel names and buffers.
pub fn create_zip(names: &Vec<String>, buffers: &Vec<Vec<u8>>) -> (archive: Result<
    Vec<u8>,
    String,
>)
    requires
        are_nameable(text_values(names@), buffer_values(buffers@)),
    ensures
        outcome(archive) == zipped(text_values(names@), buffer_values(buffers@)),
        match archive {
            Ok(archive) => serves(
                archive@,
                paired(text_values(names@), buffer_values(buffers@)),
            ),
            Err(_) => true,
        },
{
    if names.len() != buffers.len() {
        return Err("Every archive filename must have one matching file buffer.".to_owned());
    }
    let files = pair_files(names, buffers);
    assert(file_names(file_values(files@)) =~= text_values(names@));
    create_archive(&files)
}

} // verus!
