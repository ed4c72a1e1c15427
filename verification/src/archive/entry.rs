//! One entry as the archive's central directory records it.

use vstd::prelude::*;
use vstd::utf8::{decode_utf8, valid_utf8};

use crate::archive::names::is_separator;
use crate::encoding::{lossy_text, lossy_utf8, strict_text};
use crate::text::characters;

verus! {

/// The entry is stored as it is.
pub const METHOD_STORE: u16 = 0;

/// The entry is a deflate stream.
pub const METHOD_DEFLATE: u16 = 8;

/// The most bytes that an extracted entry may have.
pub const MAX_ARCHIVE_ENTRY_BYTES: u64 = 512_000_000;

/// One entry exactly as the archive's central directory records it.
pub struct ArchiveEntry {
    pub name: String,
    pub size: u64,
    pub compressed_size: u64,
    pub crc32: u32,
    pub method: u16,
    pub encrypted: bool,
    pub local_header_offset: u64,
    pub duplicate_name: bool,
}

/// The value of an entry.
pub struct EntryValue {
    pub name: Seq<char>,
    pub size: u64,
    pub compressed_size: u64,
    pub crc32: u32,
    pub method: u16,
    pub encrypted: bool,
    pub local_header_offset: u64,
    pub duplicate_name: bool,
}

impl View for ArchiveEntry {
    type V = EntryValue;

    open spec fn view(&self) -> EntryValue {
        EntryValue {
            name: self.name@,
            size: self.size,
            compressed_size: self.compressed_size,
            crc32: self.crc32,
            method: self.method,
            encrypted: self.encrypted,
            local_header_offset: self.local_header_offset,
            duplicate_name: self.duplicate_name,
        }
    }
}

/// Entries by their values.
pub open spec fn entry_values(entries: Seq<ArchiveEntry>) -> Seq<EntryValue> {
    entries.map_values(|entry: ArchiveEntry| entry@)
}

impl EntryValue {
    /// Whether the entry is a directory: its name ends in a separator.
    pub open spec fn is_directory(self) -> bool {
        self.name.len() > 0 && is_separator(self.name.last())
    }

    /// Whether the entry's contents can be read.
    pub open spec fn can_be_read(self) -> bool {
        !self.encrypted && (self.method == METHOD_STORE || self.method == METHOD_DEFLATE)
    }
}

impl ArchiveEntry {
    /// Whether the entry is a directory.
    pub fn is_dir(&self) -> (directory: bool)
        ensures
            directory == self@.is_directory(),
    {
        let length: usize = self.name.as_str().unicode_len();
        if length == 0 {
            return false;
        }
        let last: char = self.name.as_str().get_char(length - 1);
        last == '/' || last == '\\'
    }

    /// Whether the entry's contents can be read.
    pub fn is_readable(&self) -> (readable: bool)
        ensures
            readable == self@.can_be_read(),
    {
        !self.encrypted && (self.method == METHOD_STORE || self.method == METHOD_DEFLATE)
    }
}

/// The upper half of code page 437, used by entries that predate the UTF-8 flag.
pub open spec fn cp437_high() -> Seq<char> {
    "ÇüéâäàåçêëèïîìÄÅÉæÆôöòûùÿÖÜ¢£¥₧ƒáíóúñÑªº¿⌐¬½¼¡«»░▒▓│┤╡╢╖╕╣║╗╝╜╛┐└┴┬├─┼╞╟╚╔╩╦╠═╬╧╨╤╥╙╘╒╓╫╪┘┌█▄▌▐▀αßΓπΣσµτΦΘΩδ∞φε∩≡±≥≤⌠⌡÷≈°∙·√ⁿ²■\u{a0}"@
}

/// A byte as code page 437 reads it.
pub open spec fn cp437_char(byte: u8) -> char {
    if byte < 128 {
        byte as char
    } else {
        cp437_high()[byte - 128]
    }
}

/// Bytes as code page 437 reads them.
pub open spec fn cp437_text(raw: Seq<u8>) -> Seq<char> {
    raw.map_values(|byte: u8| cp437_char(byte))
}

/// A stored filename. The UTF-8 flag is honoured, and so is the fact that most
/// modern tools write UTF-8 without setting it; only a name that is not valid
/// UTF-8 is read as code page 437.
pub open spec fn decoded_name(raw: Seq<u8>, utf8_flag: bool) -> Seq<char> {
    if utf8_flag {
        lossy_utf8(raw)
    } else if valid_utf8(raw) {
        decode_utf8(raw)
    } else {
        cp437_text(raw)
    }
}

fn read_cp437(raw: &[u8]) -> (text: String)
    ensures
        text@ == cp437_text(raw@),
{
    let high = characters(
        "ÇüéâäàåçêëèïîìÄÅÉæÆôöòûùÿÖÜ¢£¥₧ƒáíóúñÑªº¿⌐¬½¼¡«»░▒▓│┤╡╢╖╕╣║╗╝╜╛┐└┴┬├─┼╞╟╚╔╩╦╠═╬╧╨╤╥╙╘╒╓╫╪┘┌█▄▌▐▀αßΓπΣσµτΦΘΩδ∞φε∩≡±≥≤⌠⌡÷≈°∙·√ⁿ²■\u{a0}",
    );
    proof {
        reveal_strlit(
            "ÇüéâäàåçêëèïîìÄÅÉæÆôöòûùÿÖÜ¢£¥₧ƒáíóúñÑªº¿⌐¬½¼¡«»░▒▓│┤╡╢╖╕╣║╗╝╜╛┐└┴┬├─┼╞╟╚╔╩╦╠═╬╧╨╤╥╙╘╒╓╫╪┘┌█▄▌▐▀αßΓπΣσµτΦΘΩδ∞φε∩≡±≥≤⌠⌡÷≈°∙·√ⁿ²■\u{a0}",
        );
    }
    let mut text = String::new();
    let mut i: usize = 0;
    while i < raw.len()
        invariant
            i <= raw@.len(),
            high@ == cp437_high(),
            high@.len() == 128,
            text@ == cp437_text(raw@).take(i as int),
        decreases raw.len() - i,
    {
        let byte: u8 = raw[i];
        if byte < 128 {
            text.push(byte as char);
        } else {
            text.push(high[byte as usize - 128]);
        }
        i += 1;
        assert(cp437_text(raw@).take(i as int) =~= cp437_text(raw@).take(i - 1).push(
            cp437_char(byte),
        ));
    }
    assert(cp437_text(raw@).take(raw@.len() as int) =~= cp437_text(raw@));
    text
}

/// Decode a stored filename.
pub fn decode_entry_name(raw: &[u8], utf8_flag: bool) -> (name: String)
    ensures
        name@ == decoded_name(raw@, utf8_flag),
{
    if utf8_flag {
        return lossy_text(raw);
    }
    match strict_text(raw) {
        Some(text) => text,
        None => read_cp437(raw),
    }
}

/// Whether a component of the path from `from` on is `..`. `open` is where the
/// component that is being read begins.
pub open spec fn climbs_from(path: Seq<char>, open: int, from: int) -> bool
    decreases path.len() - from,
{
    if from < 0 || from >= path.len() {
        path.subrange(open, path.len() as int) == seq!['.', '.']
    } else if is_separator(path[from]) {
        path.subrange(open, from) == seq!['.', '.'] || climbs_from(path, from + 1, from + 1)
    } else {
        climbs_from(path, open, from + 1)
    }
}

/// Whether a path leads out of the folder that it is extracted into: it is
/// rooted, it names a drive, or one of its components is `..`.
pub open spec fn escapes(path: Seq<char>) -> bool {
    ||| path.len() > 0 && is_separator(path[0])
    ||| path.len() >= 2 && is_letter(path[0]) && path[1] == ':'
    ||| climbs_from(path, 0, 0)
}

/// Whether a character is an ASCII letter.
pub open spec fn is_letter(c: char) -> bool {
    ('a' <= c && c <= 'z') || ('A' <= c && c <= 'Z')
}

fn is_parent(chars: &Vec<char>, open: usize, end: usize) -> (parent: bool)
    requires
        open <= end <= chars@.len(),
    ensures
        parent == (chars@.subrange(open as int, end as int) == seq!['.', '.']),
{
    let ghost component = chars@.subrange(open as int, end as int);
    let parent = end - open == 2 && chars[open] == '.' && chars[open + 1] == '.';
    proof {
        if parent {
            assert(component =~= seq!['.', '.']);
        } else if component == seq!['.', '.'] {
            assert(component.len() == 2);
            assert(component[0] == '.' && component[1] == '.');
        }
    }
    parent
}

fn climbs(chars: &Vec<char>) -> (found: bool)
    ensures
        found == climbs_from(chars@, 0, 0),
{
    let mut open: usize = 0;
    let mut i: usize = 0;
    while i < chars.len()
        invariant
            open <= i <= chars@.len(),
            climbs_from(chars@, 0, 0) == climbs_from(chars@, open as int, i as int),
        decreases chars.len() - i,
    {
        if chars[i] == '/' || chars[i] == '\\' {
            if is_parent(chars, open, i) {
                return true;
            }
            open = i + 1;
        }
        i += 1;
    }
    is_parent(chars, open, chars.len())
}

/// Whether a path leads out of the folder that it is extracted into.
pub fn is_unsafe_path(name: &str) -> (unsafe_path: bool)
    ensures
        unsafe_path == escapes(name@),
{
    let chars = characters(name);
    if chars.len() > 0 && (chars[0] == '/' || chars[0] == '\\') {
        return true;
    }
    if chars.len() >= 2 && (('a' <= chars[0] && chars[0] <= 'z') || ('A' <= chars[0] && chars[0]
        <= 'Z')) && chars[1] == ':' {
        return true;
    }
    climbs(&chars)
}

} // verus!
