//! Writing, listing and reading ZIP archives.
//!
//! Fixtures are parsed with the independent `zip` reader on purpose: the creation
//! path is checked against a second implementation, not against the reader of
//! this library.

use std::io::{Cursor, Write};

use flate2::Crc;
use localbench_core::archive::create::{create_archive, create_archive_with_limit};
use localbench_core::archive::entry::{MAX_ARCHIVE_ENTRY_BYTES, METHOD_STORE};
use localbench_core::archive::extract::{extract_entry, extract_entry_with_limit};
use localbench_core::archive::list::list_archive;
use zip::write::SimpleFileOptions;
use zip::{CompressionMethod, DateTime, ZipArchive, ZipWriter};

const ENTRY_TOO_LARGE_ERROR: &str = "This archive entry is too large to extract safely.";
const ENCRYPTED_ENTRY_ERROR: &str =
    "This file inside the archive is password-protected, which isn't supported.";
const UNSUPPORTED_METHOD_ERROR: &str =
    "This file inside the archive uses a compression method this tool cannot read.";
const DAMAGED_ENTRY_ERROR: &str =
    "This file inside the archive is damaged: its contents do not match the archive's own checksum.";

fn fixed_modified_time() -> Result<DateTime, zip::result::DateTimeRangeError> {
    DateTime::from_date_and_time(1980, 1, 1, 0, 0, 0)
}

fn raw_archive(entries: &[(&str, &[u8])]) -> Vec<u8> {
    let mut writer = ZipWriter::new(Cursor::new(Vec::new()));
    let options = SimpleFileOptions::default()
        .compression_method(CompressionMethod::Stored)
        .last_modified_time(fixed_modified_time().expect("fixed timestamp should be valid"));
    for (name, bytes) in entries {
        writer
            .start_file(*name, options)
            .expect("fixture entry should start");
        writer.write_all(bytes).expect("fixture bytes should write");
    }
    writer
        .finish()
        .expect("fixture archive should finish")
        .into_inner()
}

fn mark_first_entry_encrypted(mut bytes: Vec<u8>) -> Vec<u8> {
    bytes[6] |= 1;
    let central = bytes
        .windows(4)
        .position(|window| window == b"PK\x01\x02")
        .expect("fixture should contain a central header");
    bytes[central + 8] |= 1;
    bytes
}

fn lie_about_first_entry_size(mut bytes: Vec<u8>, declared_size: u32) -> Vec<u8> {
    bytes[22..26].copy_from_slice(&declared_size.to_le_bytes());
    let central = bytes
        .windows(4)
        .position(|window| window == b"PK\x01\x02")
        .expect("fixture should contain a central header");
    bytes[central + 24..central + 28].copy_from_slice(&declared_size.to_le_bytes());
    bytes
}

/// A hand-rolled ZIP writer for fixtures the `zip` crate will not produce:
/// repeated names, legacy code-page names, unsupported methods.
struct RawEntry {
    name: Vec<u8>,
    data: Vec<u8>,
    flags: u16,
    method: u16,
}

impl RawEntry {
    fn stored(name: &[u8], data: &[u8]) -> Self {
        Self {
            name: name.to_vec(),
            data: data.to_vec(),
            flags: 0,
            method: METHOD_STORE,
        }
    }
}

fn build_raw_zip(entries: &[RawEntry]) -> Vec<u8> {
    let mut output = Vec::new();
    let mut directory = Vec::new();
    let mut offsets = Vec::new();

    for entry in entries {
        let mut crc = Crc::new();
        crc.update(&entry.data);
        let checksum = crc.sum();
        offsets.push(output.len() as u32);

        output.extend_from_slice(&0x0403_4b50_u32.to_le_bytes());
        output.extend_from_slice(&20_u16.to_le_bytes());
        output.extend_from_slice(&entry.flags.to_le_bytes());
        output.extend_from_slice(&entry.method.to_le_bytes());
        output.extend_from_slice(&0_u16.to_le_bytes());
        output.extend_from_slice(&0x21_u16.to_le_bytes());
        output.extend_from_slice(&checksum.to_le_bytes());
        output.extend_from_slice(&(entry.data.len() as u32).to_le_bytes());
        output.extend_from_slice(&(entry.data.len() as u32).to_le_bytes());
        output.extend_from_slice(&(entry.name.len() as u16).to_le_bytes());
        output.extend_from_slice(&0_u16.to_le_bytes());
        output.extend_from_slice(&entry.name);
        output.extend_from_slice(&entry.data);
    }

    for (entry, offset) in entries.iter().zip(&offsets) {
        let mut crc = Crc::new();
        crc.update(&entry.data);
        directory.extend_from_slice(&0x0201_4b50_u32.to_le_bytes());
        directory.extend_from_slice(&20_u16.to_le_bytes());
        directory.extend_from_slice(&20_u16.to_le_bytes());
        directory.extend_from_slice(&entry.flags.to_le_bytes());
        directory.extend_from_slice(&entry.method.to_le_bytes());
        directory.extend_from_slice(&0_u16.to_le_bytes());
        directory.extend_from_slice(&0x21_u16.to_le_bytes());
        directory.extend_from_slice(&crc.sum().to_le_bytes());
        directory.extend_from_slice(&(entry.data.len() as u32).to_le_bytes());
        directory.extend_from_slice(&(entry.data.len() as u32).to_le_bytes());
        directory.extend_from_slice(&(entry.name.len() as u16).to_le_bytes());
        directory.extend_from_slice(&0_u16.to_le_bytes());
        directory.extend_from_slice(&0_u16.to_le_bytes());
        directory.extend_from_slice(&0_u16.to_le_bytes());
        directory.extend_from_slice(&0_u16.to_le_bytes());
        directory.extend_from_slice(&0_u32.to_le_bytes());
        directory.extend_from_slice(&offset.to_le_bytes());
        directory.extend_from_slice(&entry.name);
    }

    let directory_offset = output.len() as u32;
    let directory_size = directory.len() as u32;
    output.extend_from_slice(&directory);
    output.extend_from_slice(&0x0605_4b50_u32.to_le_bytes());
    output.extend_from_slice(&0_u16.to_le_bytes());
    output.extend_from_slice(&0_u16.to_le_bytes());
    output.extend_from_slice(&(entries.len() as u16).to_le_bytes());
    output.extend_from_slice(&(entries.len() as u16).to_le_bytes());
    output.extend_from_slice(&directory_size.to_le_bytes());
    output.extend_from_slice(&directory_offset.to_le_bytes());
    output.extend_from_slice(&0_u16.to_le_bytes());
    output
}

// A spec-legal archive can hold two files with the same name (JARs and
// `zip -g` produce them). Listing two of three entries and handing back
// the wrong bytes for one of them loses a file with no signal at all.
#[test]
fn repeated_names_are_all_listed_and_each_one_extracts_its_own_bytes() {
    let archive = build_raw_zip(&[
        RawEntry::stored(b"notes.txt", b"FIRST-A"),
        RawEntry::stored(b"keepme.txt", b"KEEP"),
        RawEntry::stored(b"notes.txt", b"SECOND-B"),
    ]);

    let report = list_archive(&archive).expect("archive should list");
    assert_eq!(
        report.matches("\"name\":").count(),
        3,
        "every entry in the directory must be listed, got {report}"
    );
    assert!(report.contains("\"duplicate_name\":true"));
    assert!(report.contains("same name"));
    assert_eq!(
        extract_entry(&archive, 0).expect("first entry should extract"),
        b"FIRST-A"
    );
    assert_eq!(
        extract_entry(&archive, 1).expect("second entry should extract"),
        b"KEEP"
    );
    assert_eq!(
        extract_entry(&archive, 2).expect("third entry should extract"),
        b"SECOND-B",
        "the shadowed entry must yield its own contents"
    );
}

// Names written as UTF-8 without the UTF-8 flag are the norm; treating
// them as code page 437 turns every accented filename into mojibake.
#[test]
fn filenames_are_decoded_as_utf8_first_and_code_page_437_only_as_a_fallback() {
    let archive = build_raw_zip(&[
        RawEntry::stored("äöü.txt".as_bytes(), b"one"),
        RawEntry::stored(&[0x84, 0x94, 0x81, b'.', b't', b'x', b't'], b"two"),
    ]);
    let report = list_archive(&archive).expect("archive should list");

    assert!(
        report.contains("\"äöü.txt\""),
        "a UTF-8 name must survive, got {report}"
    );
    assert_eq!(
        report.matches("äöü.txt").count(),
        2,
        "a legacy code-page name must decode to the same text, got {report}"
    );
}

#[test]
fn an_unreadable_compression_method_is_flagged_instead_of_hidden() {
    let archive = build_raw_zip(&[
        RawEntry {
            name: b"packed.bin".to_vec(),
            data: b"zstd-ish".to_vec(),
            flags: 0,
            method: 93,
        },
        RawEntry::stored(b"plain.txt", b"fine"),
    ]);

    let report = list_archive(&archive).expect("archive should list");
    assert!(report.contains("\"name\":\"packed.bin\""));
    assert!(report.contains("\"extractable\":false"));
    assert!(report.contains("compression method"));
    assert_eq!(
        extract_entry(&archive, 0).expect_err("an unreadable entry must be refused"),
        UNSUPPORTED_METHOD_ERROR
    );
    assert_eq!(
        extract_entry(&archive, 1).expect("the readable entry must still extract"),
        b"fine"
    );
}

#[test]
fn a_damaged_entry_is_reported_instead_of_silently_handed_over() {
    let mut archive = build_raw_zip(&[RawEntry::stored(b"notes.txt", b"original text")]);
    let at = archive
        .windows(13)
        .position(|window| window == b"original text")
        .expect("fixture data should be present");
    archive[at] = b'X';

    assert_eq!(
        extract_entry(&archive, 0).expect_err("a corrupted entry must be refused"),
        DAMAGED_ENTRY_ERROR
    );
}

#[test]
fn an_empty_archive_lists_as_empty_instead_of_failing() {
    let archive = build_raw_zip(&[]);
    let report = list_archive(&archive).expect("an empty archive is still an archive");
    assert!(report.contains("\"entries\":[]"), "got {report}");
    assert!(extract_entry(&archive, 0).is_err());
}

#[test]
fn zip64_archives_round_trip() {
    let mut writer = ZipWriter::new(Cursor::new(Vec::new()));
    let options = SimpleFileOptions::default()
        .compression_method(CompressionMethod::Stored)
        .large_file(true)
        .last_modified_time(fixed_modified_time().expect("fixed timestamp should be valid"));
    writer
        .start_file("big.txt", options)
        .expect("entry should start");
    writer.write_all(b"zip64 body").expect("bytes should write");
    let archive = writer.finish().expect("archive should finish").into_inner();

    let report = list_archive(&archive).expect("zip64 archive should list");
    assert!(report.contains("\"name\":\"big.txt\""));
    assert_eq!(
        extract_entry(&archive, 0).expect("zip64 entry should extract"),
        b"zip64 body"
    );
}

#[test]
fn round_trips_two_entries_byte_identically() {
    let first = b"private notes\n".to_vec();
    let second = vec![0, 1, 2, 3, 254, 255];
    let archive = create_archive(&vec![
        ("notes.txt".to_owned(), first.clone()),
        ("data.bin".to_owned(), second.clone()),
    ])
    .expect("archive should be created");
    let report = list_archive(&archive).expect("archive should list");

    assert!(report.contains("{\"name\":\"notes.txt\",\"size\":14,\"compressed\":"));
    assert!(report.contains("\"is_dir\":false,\"unsafe_path\":false"));
    assert!(report.contains("{\"name\":\"data.bin\",\"size\":6,\"compressed\":"));
    assert_eq!(
        extract_entry(&archive, 0).expect("first should extract"),
        first
    );
    assert_eq!(
        extract_entry(&archive, 1).expect("second should extract"),
        second
    );
    println!(
        "round-trip example: 2 files (20 input bytes) -> {} ZIP bytes -> both byte-identical",
        archive.len()
    );
}

#[test]
fn creation_is_byte_deterministic() {
    let entries = vec![
        ("a.txt".to_owned(), vec![b'a'; 4_096]),
        ("b.bin".to_owned(), (0_u8..=255).collect()),
    ];
    assert_eq!(
        create_archive(&entries).expect("first archive should build"),
        create_archive(&entries).expect("second archive should build")
    );
}

#[test]
fn created_entries_use_the_dos_epoch() {
    let bytes = create_archive(&vec![("clock.txt".to_owned(), b"secret".to_vec())])
        .expect("archive should build");
    let mut archive = ZipArchive::new(Cursor::new(bytes)).expect("archive should parse");
    let file = archive.by_index_raw(0).expect("entry should exist");
    assert_eq!(
        file.last_modified(),
        Some(fixed_modified_time().expect("valid time"))
    );
}

#[test]
fn already_compressed_style_bytes_are_stored_without_growth() {
    let mut state = 0x1234_5678_u32;
    let bytes = (0..65_536)
        .map(|_| {
            state = state.wrapping_mul(1_664_525).wrapping_add(1_013_904_223);
            (state >> 24) as u8
        })
        .collect::<Vec<_>>();
    let archive_bytes =
        create_archive(&vec![("noise.bin".to_owned(), bytes.clone())]).expect("should build");
    let mut archive = ZipArchive::new(Cursor::new(archive_bytes)).expect("should parse");
    let file = archive.by_index_raw(0).expect("entry should exist");
    assert_eq!(file.compression(), CompressionMethod::Stored);
    assert_eq!(file.compressed_size(), bytes.len() as u64);
}

#[test]
fn compressible_bytes_use_deflate_and_come_back_byte_identically() {
    let body = vec![b'x'; 16_384];
    let archive_bytes =
        create_archive(&vec![("repeat.txt".to_owned(), body.clone())]).expect("should build");
    let mut archive =
        ZipArchive::new(Cursor::new(archive_bytes.clone())).expect("should parse");
    let file = archive.by_index_raw(0).expect("entry should exist");
    assert_eq!(file.compression(), CompressionMethod::Deflated);
    assert!(file.compressed_size() < file.size());
    drop(file);

    // The common case: a compressed entry has to inflate back to exactly
    // what went in, through the shipped extract path.
    assert_eq!(
        extract_entry(&archive_bytes, 0).expect("deflated entry should extract"),
        body
    );
}

#[test]
fn extraction_stops_at_the_cap_even_when_the_declared_size_is_false() {
    let archive = lie_about_first_entry_size(raw_archive(&[("large.txt", &[b'z'; 128])]), 1);
    let error = extract_entry_with_limit(&archive, 0, 64)
        .expect_err("entry should exceed the test cap");
    assert_eq!(error, ENTRY_TOO_LARGE_ERROR);
}

// The public entry point must carry the shipped cap, not whatever a test
// passes in: rewiring `extract_entry` to an unlimited cap has to fail here.
#[test]
fn the_public_extract_path_uses_the_shipped_entry_cap() {
    let over_cap = u32::try_from(MAX_ARCHIVE_ENTRY_BYTES + 1).expect("cap fits in a u32");
    let archive = lie_about_first_entry_size(raw_archive(&[("huge.txt", b"small")]), over_cap);
    assert_eq!(
        extract_entry(&archive, 0).expect_err("an over-cap entry must be refused"),
        ENTRY_TOO_LARGE_ERROR
    );
}

// A big archive is not a reason to refuse a small file inside it. This is
// the goal the user is after: click Download, get the file.
#[test]
fn a_small_entry_extracts_from_an_archive_with_a_huge_declared_total() {
    let mut archive = raw_archive(&[("tiny.txt", b"five!"), ("huge.bin", b"x")]);
    // Restate the second entry's uncompressed size as 600 MB, which is
    // what a photo archive's real total looks like.
    let second_central = archive
        .windows(4)
        .enumerate()
        .filter(|(_, window)| *window == b"PK\x01\x02")
        .map(|(at, _)| at)
        .nth(1)
        .expect("fixture should have two central headers");
    archive[second_central + 24..second_central + 28]
        .copy_from_slice(&600_000_000_u32.to_le_bytes());

    let report = list_archive(&archive).expect("archive should list");
    assert!(
        report.contains("\"total_size\":600000005"),
        "listing must state the real total, got {report}"
    );
    assert_eq!(
        extract_entry(&archive, 0).expect("a small entry must still extract"),
        b"five!"
    );
}

#[test]
fn listing_flags_unsafe_paths() {
    let archive = raw_archive(&[
        ("../evil.txt", b"one"),
        ("/abs.txt", b"two"),
        ("a/b.txt", b"three"),
        ("C:\\escape.txt", b"four"),
        ("a\\..\\..\\windows.txt", b"five"),
        ("C:relative.txt", b"six"),
    ]);
    let report = list_archive(&archive).expect("archive should list");
    // Backslash-separated traversal and drive-relative paths escape the
    // extraction folder just as surely as `../` and `C:\\` do.
    assert!(report.contains(
        "\"name\":\"a\\\\..\\\\..\\\\windows.txt\",\"size\":4,\"compressed\":4,\"is_dir\":false,\"unsafe_path\":true"
    ));
    assert!(report.contains(
        "\"name\":\"C:relative.txt\",\"size\":3,\"compressed\":3,\"is_dir\":false,\"unsafe_path\":true"
    ));
    assert!(report.contains("\"name\":\"../evil.txt\""));
    assert!(report.contains("\"name\":\"../evil.txt\",\"size\":3,\"compressed\":3,\"is_dir\":false,\"unsafe_path\":true"));
    assert!(report.contains("\"name\":\"/abs.txt\",\"size\":3,\"compressed\":3,\"is_dir\":false,\"unsafe_path\":true"));
    assert!(report.contains("\"name\":\"a/b.txt\",\"size\":5,\"compressed\":5,\"is_dir\":false,\"unsafe_path\":false"));
    assert!(report.contains("\"name\":\"C:\\\\escape.txt\",\"size\":4,\"compressed\":4,\"is_dir\":false,\"unsafe_path\":true"));
}

// One locked file must not lock the whole archive: it is listed, flagged,
// and refused on its own, while its neighbours still extract.
#[test]
fn one_encrypted_entry_does_not_block_the_rest_of_the_archive() {
    let archive = mark_first_entry_encrypted(raw_archive(&[
        ("secret.txt", b"classified"),
        ("public.txt", b"open"),
    ]));

    let report = list_archive(&archive).expect("listing must still work");
    assert!(report.contains("\"name\":\"secret.txt\""));
    assert!(report.contains("\"encrypted\":true"));
    assert!(report.contains("password-protected"));
    assert_eq!(
        extract_entry(&archive, 0).expect_err("the locked entry must be refused"),
        ENCRYPTED_ENTRY_ERROR
    );
    assert_eq!(
        extract_entry(&archive, 1).expect("the unlocked entry must still extract"),
        b"open"
    );
}

#[test]
fn malformed_empty_and_truncated_inputs_never_succeed() {
    let valid = raw_archive(&[("ok.txt", b"okay")]);
    for bytes in [
        Vec::new(),
        b"not a zip".to_vec(),
        valid[..valid.len() / 2].to_vec(),
    ] {
        assert!(list_archive(&bytes).is_err());
        assert!(extract_entry(&bytes, 0).is_err());
    }
}

#[test]
fn rejects_out_of_range_entry_index() {
    let archive = raw_archive(&[("only.txt", b"one")]);
    assert_eq!(
        extract_entry(&archive, 9).expect_err("index should not exist"),
        "That archive entry does not exist."
    );
}

#[test]
fn rejects_empty_creation_and_over_limit_inputs() {
    assert_eq!(
        create_archive(&Vec::new()).expect_err("empty creation must fail"),
        "Choose at least one file to archive."
    );
    assert_eq!(
        create_archive_with_limit(&vec![("large".to_owned(), vec![0; 65])], 64)
            .expect_err("test limit should reject input"),
        "These files are too large to archive safely."
    );
}

#[test]
fn duplicate_names_receive_stable_suffixes() {
    let archive = create_archive(&vec![
        ("report.txt".to_owned(), b"first".to_vec()),
        ("report.txt".to_owned(), b"second".to_vec()),
        ("report-1.txt".to_owned(), b"third".to_vec()),
        ("report.txt".to_owned(), b"fourth".to_vec()),
    ])
    .expect("archive should build");
    let mut parsed = ZipArchive::new(Cursor::new(archive)).expect("archive should parse");
    let names = (0..parsed.len())
        .map(|index| {
            parsed
                .by_index_raw(index)
                .expect("entry should exist")
                .name()
                .to_owned()
        })
        .collect::<Vec<_>>();
    assert_eq!(
        names,
        [
            "report.txt",
            "report-1.txt",
            "report-1-1.txt",
            "report-2.txt"
        ]
    );
}

#[test]
fn listing_escapes_names_as_valid_json_strings() {
    let archive = raw_archive(&[("quote\"line\n.txt", b"x")]);
    let report = list_archive(&archive).expect("archive should list");
    assert!(report.contains("\"name\":\"quote\\\"line\\n.txt\""));
    assert!(!report.contains("line\n.txt"));
}
