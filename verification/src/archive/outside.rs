//! The calls into `zip`: its archive writer.

use std::io::{Cursor, Write};

use vstd::prelude::*;
use zip::result::ZipError;
use zip::write::SimpleFileOptions;
use zip::{CompressionMethod, DateTime, ZipWriter};

use crate::archive::directory::{
    directory_record, directory_start, end_record, last_wide_record, read_directory, record_from,
};
use crate::archive::entry::{EntryValue, MAX_ARCHIVE_ENTRY_BYTES, METHOD_DEFLATE, METHOD_STORE};
use crate::archive::extract::extracted_entry;
use crate::archive::laws::is_plain_archive;
use crate::bytes::{le16, le32, utf8};
use crate::inflate::deflated;
use crate::text::outcome;

verus! {

/// A `zip::ZipWriter` over a buffer. Its files are known by [`archived`] alone.
#[verifier::external_body]
pub struct ArchiveWriter {
    inner: ZipWriter<Cursor<Vec<u8>>>,
}

/// `zip::result::ZipError`, carried without looking inside.
#[verifier::external_type_specification]
#[verifier::external_body]
pub struct ExZipError(ZipError);

/// A date and a time of day.
#[derive(Clone, Copy, Debug, PartialEq, Eq, Structural)]
pub struct Timestamp {
    pub year: u16,
    pub month: u8,
    pub day: u8,
    pub hour: u8,
    pub minute: u8,
    pub second: u8,
}

/// Whether an archive can keep this time: the first and the last year are 1980 and 2107.
pub open spec fn is_storable(time: Timestamp) -> bool {
    &&& 1980 <= time.year <= 2107
    &&& 1 <= time.month <= 12
    &&& 1 <= time.day <= 28
    &&& time.hour <= 23
    &&& time.minute <= 59
    &&& time.second <= 59
}

/// The date of a time, as an archive keeps it.
pub open spec fn stored_date(time: Timestamp) -> int {
    time.day + 32 * time.month + 512 * (time.year - 1980)
}

/// The time of day of a time, as an archive keeps it: seconds are counted by twos.
pub open spec fn stored_time(time: Timestamp) -> int {
    time.second as int / 2 + 32 * time.minute + 2048 * time.hour
}

/// Whether the directory's record with this index carries this time.
pub open spec fn is_dated(bytes: Seq<u8>, index: nat, time: Timestamp) -> bool {
    match end_record(bytes) {
        None => false,
        Some(end) => match directory_start(bytes, end, directory_record(bytes, end)) {
            None => false,
            Some(start) => {
                let at = record_from(bytes, start, index);
                le16(bytes, at + 12) == stored_time(time) && le16(bytes, at + 14) == stored_date(
                    time,
                )
            },
        },
    }
}

/// Why the archive writer gave up.
pub enum ZipFailure {
    PasswordRequired,
    WrongPassword,
    Other(String),
}

/// The value of a failure.
pub enum FailureValue {
    PasswordRequired,
    WrongPassword,
    Other(Seq<char>),
}

impl View for ZipFailure {
    type V = FailureValue;

    open spec fn view(&self) -> FailureValue {
        match self {
            ZipFailure::PasswordRequired => FailureValue::PasswordRequired,
            ZipFailure::WrongPassword => FailureValue::WrongPassword,
            ZipFailure::Other(text) => FailureValue::Other(text@),
        }
    }
}

/// A result by its value.
pub open spec fn failure_outcome<T: View>(result: Result<T, ZipFailure>) -> Result<
    T::V,
    FailureValue,
> {
    match result {
        Ok(value) => Ok(value@),
        Err(failure) => Err(failure@),
    }
}

/// A file in an archive that is being written: deflated at a level, or stored.
pub struct ArchivedValue {
    pub name: Seq<char>,
    pub level: Option<i64>,
    pub modified: Timestamp,
    pub bytes: Seq<u8>,
}

/// The files that a writer has been given so far.
pub uninterp spec fn archived(writer: ArchiveWriter) -> Seq<ArchivedValue>;

/// Converts a `zip::result::ZipError`, variant by variant.
#[verifier::external_body]
fn plain_failure(error: ZipError) -> ZipFailure {
    match error {
        ZipError::UnsupportedArchive(ZipError::PASSWORD_REQUIRED) => ZipFailure::PasswordRequired,
        ZipError::InvalidPassword => ZipFailure::WrongPassword,
        other => ZipFailure::Other(other.to_string()),
    }
}

/// `zip::ZipWriter::new` over an empty buffer: a writer without files.
#[verifier::external_body]
pub(crate) fn new_archive() -> (writer: ArchiveWriter)
    ensures
        archived(writer) == Seq::<ArchivedValue>::empty(),
{
    ArchiveWriter { inner: ZipWriter::new(Cursor::new(Vec::new())) }
}

/// Whether a writer with these files takes another one.
pub uninterp spec fn started(
    files: Seq<ArchivedValue>,
    name: Seq<char>,
    level: Option<i64>,
    modified: Timestamp,
) -> Result<(), FailureValue>;

/// `zip::ZipWriter::start_file`: begins a file, deflated at a level or stored, with
/// a modification time. Where it succeeds, the writer has one more file, which is
/// empty. Whether it does is a function of the files so far and of the arguments.
/// It panics on a name of more than 65,535 bytes.
#[verifier::external_body]
pub(crate) fn start_file(
    writer: &mut ArchiveWriter,
    name: &str,
    level: Option<i64>,
    modified: Timestamp,
) -> (result: Result<(), ZipFailure>)
    requires
        utf8(name@).len() <= u16::MAX,
    ensures
        failure_outcome(result) == started(archived(*old(writer)), name@, level, modified),
        result is Ok ==> archived(*final(writer)) == archived(*old(writer)).push(
            (ArchivedValue { name: name@, level, modified, bytes: Seq::empty() }),
        ),
{
    let Timestamp { year, month, day, hour, minute, second } = modified;
    let time = DateTime::from_date_and_time(year, month, day, hour, minute, second);
    let options = SimpleFileOptions::default()
        .compression_method(level.map_or(CompressionMethod::Stored, |_| CompressionMethod::Deflated))
        .compression_level(level)
        .last_modified_time(time.unwrap_or_default());
    writer.inner.start_file(name, options).map_err(plain_failure)
}

/// Whether a writer with these files takes these bytes for the last of them.
pub uninterp spec fn written(files: Seq<ArchivedValue>, bytes: Seq<u8>) -> Result<(), Seq<char>>;

/// A file with these bytes.
pub open spec fn with_bytes(file: ArchivedValue, bytes: Seq<u8>) -> ArchivedValue {
    ArchivedValue { bytes, ..file }
}

/// `std::io::Write::write_all` on a `zip::ZipWriter`: the bytes of the file that was
/// begun last, which has none yet. Whether it succeeds is a function of the files so far
/// and of the bytes.
#[verifier::external_body]
pub(crate) fn write_file(writer: &mut ArchiveWriter, bytes: &[u8]) -> (result: Result<
    (),
    String,
>)
    requires
        archived(*old(writer)).len() > 0,
        archived(*old(writer)).last().bytes.len() == 0,
    ensures
        outcome(result) == written(archived(*old(writer)), bytes@),
        result is Ok ==> archived(*final(writer)) == archived(*old(writer)).drop_last().push(
            with_bytes(archived(*old(writer)).last(), bytes@),
        ),
{
    writer.inner.write_all(bytes).map_err(|error| error.to_string())
}

/// The archive with these files.
pub uninterp spec fn zip_file(files: Seq<ArchivedValue>) -> Result<Seq<u8>, FailureValue>;

/// Whether each of the files can be extracted again.
pub open spec fn are_small(files: Seq<ArchivedValue>) -> bool {
    forall|i: int|
        0 <= i < files.len() ==> (#[trigger] files[i]).bytes.len() <= MAX_ARCHIVE_ENTRY_BYTES
}

/// Whether the 64-bit end record of an archive is found where it stands, or none is found
/// where there is none. An archive all of whose numbers fit their fields needs none, and
/// none is looked for. It has none as well where the directory reaches up to the end
/// record.
pub open spec fn is_located(bytes: Seq<u8>) -> bool {
    match end_record(bytes) {
        None => false,
        Some(end) => {
            let size = le32(bytes, end + 12);
            let offset = le32(bytes, end + 16);
            if le16(bytes, end + 10) == u16::MAX || size == u32::MAX || offset == u32::MAX {
                last_wide_record(
                    bytes,
                    end - 1,
                    if end > 128 {
                        end - 128
                    } else {
                        0
                    },
                ) == if offset + size == end {
                    None::<int>
                } else {
                    Some(end - 76)
                }
            } else {
                true
            }
        },
    }
}

/// How many bytes a file takes in an archive, when that is known: as many as it has where
/// it is stored, and as its deflate stream where it is deflated.
pub open spec fn kept_size(file: ArchivedValue) -> Option<nat> {
    match file.level {
        None => Some(file.bytes.len()),
        Some(level) => if 1 <= level <= 9 {
            match deflated(file.bytes, level as u32) {
                Ok(packed) => Some(packed.len()),
                Err(_) => None,
            }
        } else {
            None
        },
    }
}

/// Whether an entry of an archive is this file.
pub open spec fn keeps(bytes: Seq<u8>, index: int, entry: EntryValue, file: ArchivedValue) -> bool {
    &&& entry.name == file.name
    &&& entry.size == file.bytes.len()
    &&& entry.method == if file.level is Some {
        METHOD_DEFLATE
    } else {
        METHOD_STORE
    }
    &&& kept_size(file) matches Some(size) ==> entry.compressed_size == size
    &&& is_storable(file.modified) ==> is_dated(bytes, index as nat, file.modified)
    &&& index <= u32::MAX ==> extracted_entry(bytes, index as u32, MAX_ARCHIVE_ENTRY_BYTES)
        == Ok::<Seq<u8>, Seq<char>>(file.bytes)
}

/// Whether an archive lists these files, in order, and gives their bytes back.
pub open spec fn holds(bytes: Seq<u8>, files: Seq<ArchivedValue>) -> bool {
    match read_directory(bytes) {
        Ok((entries, _)) => entries.len() == files.len() && forall|i: int|
            0 <= i < files.len() ==> keeps(bytes, i, #[trigger] entries[i], files[i]),
        Err(_) => false,
    }
}

/// Whether an archive of this many files keeps to the 16-bit and 32-bit fields of the
/// format.
pub open spec fn is_ordinary(bytes: Seq<u8>, count: nat) -> bool {
    count < u16::MAX && bytes.len() <= u32::MAX
}

/// `zip::ZipWriter::finish`: the archive with the files that the writer was given.
/// Files that are not too large to be extracted are listed under their names, methods,
/// sizes and times, and their bytes are given back. Above 65,535 files, or where the
/// directory does not begin or is not held within 32 bits, a 64-bit end record stands
/// right behind the directory, 76 bytes in front of the end record. The bytes of that
/// record are not told from others that look the same, so this holds where they are found
/// in that place. An archive that keeps to the narrow fields has no such record and no
/// wide field, and its directory begins where the end record says.
#[verifier::external_body]
pub(crate) fn finish_archive(writer: ArchiveWriter) -> (result: Result<
    Vec<u8>,
    ZipFailure,
>)
    ensures
        failure_outcome(result) == zip_file(archived(writer)),
        match result {
            Ok(bytes) => (is_located(bytes@) && are_small(archived(writer)) ==> holds(
                bytes@,
                archived(writer),
            )) && (is_ordinary(bytes@, archived(writer).len()) ==> is_plain_archive(bytes@)),
            Err(_) => true,
        },
{
    writer.inner.finish().map(|cursor| cursor.into_inner()).map_err(plain_failure)
}

} // verus!
