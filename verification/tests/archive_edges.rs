//! Names, broken directories, and what a round trip gives back.

use std::io::Write;

use localbench_core::archive::create::{
    check_names, create_archive, create_archive_with_limit, create_zip, deflated_size,
    map_zip_error, names_fit,
};
use localbench_core::archive::directory::{
    begins_record, find_end_of_central_directory, read_central_directory,
};
use localbench_core::archive::entry::{
    decode_entry_name, is_unsafe_path, ArchiveEntry, METHOD_DEFLATE, METHOD_STORE,
};
use localbench_core::archive::extract::{
    bound_contents, check_contents, extract_entry, extract_entry_with_limit, extract_selected,
    extract_contents, extract_zip_entry, read_entry_data,
};
use localbench_core::archive::list::{find_extractable, list_archive, list_zip, write_listing};
use localbench_core::archive::names::{duplicate_name, unique_names};
use localbench_core::archive::outside::ZipFailure;
use localbench_core::checksum::crc32;

fn entry(name: &str, method: u16, contents: &[u8]) -> ArchiveEntry {
    ArchiveEntry {
        name: name.to_owned(),
        method,
        encrypted: false,
        crc32: crc32(contents),
        size: contents.len() as u64,
        compressed_size: contents.len() as u64,
        local_header_offset: 0,
        duplicate_name: false,
    }
}

fn texts(names: &[&str]) -> Vec<String> {
    names.iter().map(|name| (*name).to_owned()).collect()
}

#[test]
fn a_number_goes_before_the_extension() {
    assert_eq!(duplicate_name("report.txt", 1), "report-1.txt");
    assert_eq!(duplicate_name("archive.tar.gz", 2), "archive.tar-2.gz");
    assert_eq!(duplicate_name("folder.d/plain", 3), "folder.d/plain-3");
    assert_eq!(duplicate_name(".hidden", 4), ".hidden-4");
    assert_eq!(duplicate_name("a\\b.c", 5), "a\\b-5.c");
    assert_eq!(duplicate_name("", 6), "-6");
}

#[test]
fn no_two_archive_names_are_alike_and_unused_ones_stay() {
    let names = unique_names(&texts(&["a", "a", "a-1", "a", "b"]));
    assert_eq!(names, texts(&["a", "a-1", "a-1-1", "a-2", "b"]));
}

#[test]
fn paths_that_leave_their_folder_are_unsafe() {
    for unsafe_path in ["/x", "\\x", "c:x", "Z:", "..", "a/../b", "a\\..", "../"] {
        assert!(is_unsafe_path(unsafe_path), "{unsafe_path}");
    }
    for safe in ["", "a", "a..b", "...", "a/..b", "1:x", "a/b.txt"] {
        assert!(!is_unsafe_path(safe), "{safe}");
    }
}

#[test]
fn names_are_decoded_by_their_flag() {
    assert_eq!(decode_entry_name(b"a\xffb", true), "a\u{fffd}b");
    assert_eq!(decode_entry_name(b"a\xffb", false), "a\u{a0}b");
    assert_eq!(decode_entry_name("é".as_bytes(), false), "é");
    assert_eq!(decode_entry_name(&[0x80, 0xe1], false), "Çß");
}

#[test]
fn an_entry_tells_what_it_is() {
    assert!(entry("a/", METHOD_STORE, b"").is_dir());
    assert!(!entry("a", METHOD_STORE, b"").is_dir());
    assert!(entry("a", METHOD_DEFLATE, b"").is_readable());
    assert!(!entry("a", 93, b"").is_readable());
    let locked = ArchiveEntry { encrypted: true, ..entry("a", METHOD_STORE, b"") };
    assert!(!locked.is_readable());
}

#[test]
fn a_listing_is_exact_json() {
    assert_eq!(
        write_listing(&Vec::new(), &Vec::new(), 0),
        "{\"entries\":[],\"total_size\":0,\"warnings\":[]}"
    );
    let entries = vec![entry("a\"", METHOD_STORE, b"xyz")];
    assert_eq!(
        write_listing(&entries, &vec![false], 3),
        "{\"entries\":[{\"name\":\"a\\\"\",\"size\":3,\"compressed\":3,\"is_dir\":false,\"unsafe_path\":false,\"encrypted\":false,\"duplicate_name\":false,\"extractable\":false}],\"total_size\":3,\"warnings\":[]}"
    );
    assert_eq!(
        write_listing(&entries, &vec![true], 3),
        "{\"entries\":[{\"name\":\"a\\\"\",\"size\":3,\"compressed\":3,\"is_dir\":false,\"unsafe_path\":false,\"encrypted\":false,\"duplicate_name\":false,\"extractable\":true}],\"total_size\":3,\"warnings\":[]}"
    );
}

#[test]
fn what_was_archived_is_listed_and_extracted_again() {
    let files = vec![
        ("notes.txt".to_owned(), vec![b'n'; 5_000]),
        ("notes.txt".to_owned(), Vec::new()),
        ("ä/ö.bin".to_owned(), (0..=255).collect::<Vec<u8>>()),
    ];
    let archive = create_archive(&files).expect("the archive should be created");
    let (entries, total) = read_central_directory(&archive).expect("the directory should read");
    let names = entries.iter().map(|entry| entry.name.as_str()).collect::<Vec<_>>();
    assert_eq!(names, vec!["notes.txt", "notes-1.txt", "ä/ö.bin"]);
    assert_eq!(total, 5_256);
    assert_eq!(entries[0].method, METHOD_DEFLATE);
    assert!(entries[0].compressed_size < entries[0].size);
    assert_eq!(entries[2].method, METHOD_STORE);
    for (index, (_, contents)) in files.iter().enumerate() {
        assert_eq!(extract_entry(&archive, index as u32).as_ref(), Ok(contents));
        assert_eq!(extract_zip_entry(&archive, index as u32).as_ref(), Ok(contents));
    }
    let zipped = create_zip(
        &texts(&["notes.txt", "notes.txt", "ä/ö.bin"]),
        &files.iter().map(|file| file.1.clone()).collect(),
    );
    assert_eq!(zipped, Ok(archive.clone()));
    assert_eq!(list_zip(&archive), list_archive(&archive));
}

#[test]
fn a_limit_bounds_the_files_that_are_archived() {
    let files = vec![("a".to_owned(), vec![1; 3]), ("b".to_owned(), vec![2; 3])];
    assert!(create_archive_with_limit(&files, 6).is_ok());
    assert_eq!(
        create_archive_with_limit(&files, 5),
        Err("These files are too large to archive safely.".to_owned())
    );
    assert_eq!(
        create_zip(&texts(&["a"]), &Vec::new()),
        Err("Every archive filename must have one matching file buffer.".to_owned())
    );
}

#[test]
fn names_must_fit_their_field() {
    assert!(names_fit(&vec!["x".repeat(65_535)]));
    assert!(!names_fit(&vec!["x".repeat(65_536)]));
    assert!(!names_fit(&vec!["x".repeat(65_535), "x".repeat(65_535)]));
    let long = vec!["x".repeat(65_536)];
    assert!(!check_names(&long, &vec![vec![1]]));
    assert!(check_names(&texts(&["a"]), &vec![vec![1]]));
    assert!(check_names(&long, &Vec::new()));
    assert_eq!(
        create_zip(&long, &Vec::new()),
        Err("Every archive filename must have one matching file buffer.".to_owned())
    );
}

#[test]
fn a_record_carries_the_method_the_packed_size_and_the_fixed_date() {
    let files = vec![
        ("zeros".to_owned(), vec![0; 4_096]),
        ("few".to_owned(), b"few".to_vec()),
    ];
    let archive = create_archive(&files).expect("the archive should be created");
    let (entries, _) = read_central_directory(&archive).expect("the directory should read");
    assert_eq!((entries[0].method, entries[1].method), (METHOD_DEFLATE, METHOD_STORE));
    assert_eq!(Ok(entries[0].compressed_size), deflated_size(&files[0].1));
    assert_eq!(entries[1].compressed_size, 3);
    let end = find_end_of_central_directory(&archive).expect("the end record should be found");
    let start = u32::from_le_bytes(archive[end + 16..end + 20].try_into().unwrap()) as usize;
    for at in [start, start + 46 + "zeros".len()] {
        assert!(begins_record(&archive, at, 0x0201_4b50));
        assert_eq!(&archive[at + 12..at + 16], &[0, 0, 33, 0]);
    }
}

#[test]
fn bytes_in_front_of_a_new_archive_change_nothing() {
    let files = vec![
        ("a".to_owned(), vec![b'a'; 900]),
        ("b".to_owned(), b"second".to_vec()),
    ];
    let archive = create_archive(&files).expect("the archive should be created");
    let mut prefixed = b"a prefix that is no archive".to_vec();
    prefixed.extend_from_slice(&archive);
    assert_eq!(list_archive(&prefixed), list_archive(&archive));
    for (index, (_, contents)) in files.iter().enumerate() {
        assert_eq!(extract_entry(&prefixed, index as u32).as_ref(), Ok(contents));
    }
}

#[test]
fn writer_failures_are_told_with_their_context() {
    assert_eq!(
        map_zip_error("Could not finish", &ZipFailure::Other("odd".to_owned())),
        "Could not finish: odd"
    );
    for locked in [ZipFailure::PasswordRequired, ZipFailure::WrongPassword] {
        assert_eq!(
            map_zip_error("Could not finish", &locked),
            "This archive is password-protected, which isn't supported."
        );
    }
}

#[test]
fn deflating_is_measured() {
    let repeated = vec![b'r'; 10_000];
    let size = deflated_size(&repeated).expect("it should deflate");
    assert!(size < 100);
    assert_eq!(deflated_size(b"").ok(), Some(2));
}

#[test]
fn contents_are_bounded_and_checked() {
    let good = entry("a", METHOD_STORE, b"good");
    assert_eq!(check_contents(b"good".to_vec(), &good), Ok(b"good".to_vec()));
    assert_eq!(
        check_contents(b"evil".to_vec(), &good),
        Err("This file inside the archive is damaged: its contents do not match the archive's own checksum.".to_owned())
    );
    assert_eq!(
        bound_contents(Err("odd".to_owned()), 9),
        Err("Could not extract this archive entry: odd".to_owned())
    );
    assert_eq!(
        bound_contents(Ok(vec![0; 4]), 3),
        Err("This archive entry is too large to extract safely.".to_owned())
    );
    assert_eq!(bound_contents(Ok(vec![0; 3]), 3), Ok(vec![0; 3]));
    assert_eq!(
        read_entry_data(b"good", &good, 3),
        Err("This archive entry is too large to extract safely.".to_owned())
    );
    assert_eq!(read_entry_data(b"good", &good, 4), Ok(b"good".to_vec()));
    assert_eq!(
        read_entry_data(b"good", &entry("a", 12, b"good"), 4),
        Err("This file inside the archive uses a compression method this tool cannot read.".to_owned())
    );
    let mut encoder =
        flate2::write::DeflateEncoder::new(Vec::new(), flate2::Compression::default());
    encoder.write_all(b"good").expect("it should deflate");
    let packed = encoder.finish().expect("it should deflate");
    let deflated = entry("a", METHOD_DEFLATE, b"good");
    assert_eq!(read_entry_data(&packed, &deflated, 4), Ok(b"good".to_vec()));
    assert_eq!(read_entry_data(&packed, &deflated, u64::MAX), Ok(b"good".to_vec()));
    assert_eq!(
        read_entry_data(&packed, &deflated, 3),
        Err("This archive entry is too large to extract safely.".to_owned())
    );
    assert!(read_entry_data(b"\xff\xff", &deflated, 4)
        .expect_err("a broken stream must fail")
        .starts_with("Could not extract this archive entry: "));
}

#[test]
fn a_larger_limit_still_extracts_a_stored_entry() {
    let archive = create_archive(&vec![("a".to_owned(), b"good".to_vec())])
        .expect("the archive should be created");
    for limit in [4, 5, 1_000] {
        assert_eq!(extract_entry_with_limit(&archive, 0, limit), Ok(b"good".to_vec()));
    }
    assert_eq!(
        extract_entry_with_limit(&archive, 0, 3),
        Err("This archive entry is too large to extract safely.".to_owned())
    );
}

#[test]
fn broken_directories_are_refused() {
    let unreadable = Err("Could not read this ZIP archive.".to_owned());
    assert_eq!(list_archive(b""), Err("Choose a ZIP archive to open.".to_owned()));
    assert_eq!(extract_entry(b"", 0), Err("Choose a ZIP archive to open.".to_owned()));
    assert_eq!(list_archive(b"nothing here"), unreadable);
    let archive = create_archive(&vec![("a".to_owned(), b"good".to_vec())])
        .expect("the archive should be created");
    let end = find_end_of_central_directory(&archive).expect("the end record should be found");
    assert_eq!(end, archive.len() - 22);
    assert!(begins_record(&archive, end, 0x0605_4b50));
    let mut lying = archive.clone();
    lying[end + 10] = 9;
    assert_eq!(list_archive(&lying), list_archive(&archive), "a directory stops at its own end");
    let mut prefixed = b"self-extracting".to_vec();
    prefixed.extend_from_slice(&archive);
    assert_eq!(list_archive(&prefixed), list_archive(&archive));
    assert_eq!(extract_entry(&prefixed, 0), Ok(b"good".to_vec()));
    let directory = archive
        .windows(4)
        .position(|window| window == b"PK\x01\x02")
        .expect("the directory should be found");
    let mut undirected = archive.clone();
    undirected[directory] = 0;
    assert_eq!(list_archive(&undirected), unreadable);
    let (entries, _) = read_central_directory(&archive).expect("the directory should read");
    let mut headless = archive.clone();
    headless[0] = 0;
    assert_eq!(
        extract_selected(&headless, &entries, 0, 100),
        Err("Could not read this ZIP archive.".to_owned())
    );
    assert_eq!(
        extract_selected(&archive, &entries, 1, 100),
        Err("That archive entry does not exist.".to_owned())
    );
}

#[test]
fn listing_and_extraction_agree_on_every_entry() {
    let files = vec![
        ("whole".to_owned(), b"whole".to_vec()),
        ("damaged".to_owned(), b"damaged".to_vec()),
        ("cut".to_owned(), b"cut".to_vec()),
    ];
    let mut archive = create_archive(&files).expect("the archive should be created");
    let (entries, _) = read_central_directory(&archive).expect("the directory should read");
    let data = entries[1].local_header_offset as usize + 30 + "damaged".len();
    assert_eq!(&archive[data..data + 7], b"damaged");
    archive[data] ^= 1;
    archive[entries[2].local_header_offset as usize] = 0;
    let (entries, _) = read_central_directory(&archive).expect("the directory should read");
    assert_eq!(find_extractable(&archive, &entries), vec![true, false, false]);
    for index in 0..3 {
        assert_eq!(extract_entry(&archive, index).is_ok(), index == 0);
        assert_eq!(
            extract_contents(&archive, &entries[index as usize], 10).is_ok(),
            index == 0
        );
    }
    let listing = list_archive(&archive).expect("the archive should list");
    assert_eq!(listing.matches("\"extractable\":true").count(), 1);
    assert_eq!(listing.matches("\"extractable\":false").count(), 2);
    assert!(listing.ends_with("\"warnings\":[]}"));
}

/// The same archive with its directory described by a 64-bit end record.
fn widened(archive: &[u8]) -> Vec<u8> {
    let end = find_end_of_central_directory(archive).expect("the end record should be found");
    let number = |at: usize| u64::from(u32::from_le_bytes(archive[at..at + 4].try_into().unwrap()));
    let count = u64::from(u16::from_le_bytes(archive[end + 10..end + 12].try_into().unwrap()));
    let mut bytes = archive[..end].to_vec();
    bytes.extend_from_slice(&0x0606_4b50_u32.to_le_bytes());
    bytes.extend_from_slice(&44_u64.to_le_bytes());
    bytes.extend_from_slice(&[45, 0, 45, 0, 0, 0, 0, 0, 0, 0, 0, 0]);
    for value in [count, count, number(end + 12), number(end + 16)] {
        bytes.extend_from_slice(&value.to_le_bytes());
    }
    bytes.extend_from_slice(&0x0706_4b50_u32.to_le_bytes());
    bytes.extend_from_slice(&0_u32.to_le_bytes());
    bytes.extend_from_slice(&(end as u64).to_le_bytes());
    bytes.extend_from_slice(&1_u32.to_le_bytes());
    let tail = bytes.len();
    bytes.extend_from_slice(&archive[end..]);
    bytes[tail + 8..tail + 12].copy_from_slice(&[0xff; 4]);
    bytes
}

#[test]
fn a_directory_is_found_in_front_of_its_64_bit_record() {
    for length in [1, 30] {
        let files = vec![
            ("a".repeat(length), b"first".to_vec()),
            ("b".repeat(length), b"second".to_vec()),
        ];
        let archive = create_archive(&files).expect("the archive should be created");
        let wide = widened(&archive);
        let mut prefixed = b"self-extracting".to_vec();
        prefixed.extend_from_slice(&wide);
        for bytes in [wide, prefixed] {
            assert_eq!(list_archive(&bytes), list_archive(&archive));
            assert_eq!(extract_entry(&bytes, 0), Ok(b"first".to_vec()));
            assert_eq!(extract_entry(&bytes, 1), Ok(b"second".to_vec()));
        }
    }
}
