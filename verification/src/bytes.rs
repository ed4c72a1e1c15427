//! Byte-level reading: fixed-width integers, prefixes, and searches.

use vstd::prelude::*;
use vstd::string::StringSliceAdditionalSpecFns;

verus! {

/// The bytes of a text in UTF-8.
pub open spec fn utf8(text: Seq<char>) -> Seq<u8> {
    vstd::utf8::encode_utf8(text)
}

/// An ASCII text takes one byte per character.
pub proof fn lemma_ascii(text: &str)
    ensures
        text.is_ascii() ==> utf8(text@) == Seq::new(text@.len(), |i: int| text@[i] as u8),
{
    if text.is_ascii() {
        vstd::utf8::is_ascii_chars_encode_utf8(text@);
        assert(utf8(text@) =~= Seq::new(text@.len(), |i: int| text@[i] as u8));
    }
}

/// Whether `at..at + length` lies inside `bytes`.
pub open spec fn in_bounds(bytes: Seq<u8>, at: int, length: int) -> bool {
    0 <= at && 0 <= length && at + length <= bytes.len()
}

/// The big-endian 16-bit number at `at`.
pub open spec fn be16(bytes: Seq<u8>, at: int) -> nat {
    (bytes[at] * 256 + bytes[at + 1]) as nat
}

/// The little-endian 16-bit number at `at`.
pub open spec fn le16(bytes: Seq<u8>, at: int) -> nat {
    (bytes[at] + bytes[at + 1] * 256) as nat
}

/// The big-endian 32-bit number at `at`.
pub open spec fn be32(bytes: Seq<u8>, at: int) -> nat {
    be16(bytes, at) * 65536 + be16(bytes, at + 2)
}

/// The little-endian 32-bit number at `at`.
pub open spec fn le32(bytes: Seq<u8>, at: int) -> nat {
    le16(bytes, at) + le16(bytes, at + 2) * 65536
}

/// The little-endian 64-bit number at `at`.
pub open spec fn le64(bytes: Seq<u8>, at: int) -> nat {
    le32(bytes, at) + le32(bytes, at + 4) * 0x1_0000_0000
}

/// Read a big-endian 16-bit number.
pub fn read_be16(bytes: &[u8], at: usize) -> (value: u16)
    requires
        in_bounds(bytes@, at as int, 2),
    ensures
        value == be16(bytes@, at as int),
{
    bytes[at] as u16 * 256 + bytes[at + 1] as u16
}

/// Read a little-endian 16-bit number.
pub fn read_le16(bytes: &[u8], at: usize) -> (value: u16)
    requires
        in_bounds(bytes@, at as int, 2),
    ensures
        value == le16(bytes@, at as int),
{
    bytes[at] as u16 + bytes[at + 1] as u16 * 256
}

/// Read a big-endian 32-bit number.
pub fn read_be32(bytes: &[u8], at: usize) -> (value: u32)
    requires
        in_bounds(bytes@, at as int, 4),
    ensures
        value == be32(bytes@, at as int),
{
    assert(at + 4 <= bytes.len());
    read_be16(bytes, at) as u32 * 65536 + read_be16(bytes, at + 2) as u32
}

/// Read a little-endian 32-bit number.
pub fn read_le32(bytes: &[u8], at: usize) -> (value: u32)
    requires
        in_bounds(bytes@, at as int, 4),
    ensures
        value == le32(bytes@, at as int),
{
    assert(at + 4 <= bytes.len());
    read_le16(bytes, at) as u32 + read_le16(bytes, at + 2) as u32 * 65536
}

/// Read a little-endian 64-bit number.
pub fn read_le64(bytes: &[u8], at: usize) -> (value: u64)
    requires
        in_bounds(bytes@, at as int, 8),
    ensures
        value == le64(bytes@, at as int),
{
    assert(at + 8 <= bytes.len());
    read_le32(bytes, at) as u64 + read_le32(bytes, at + 4) as u64 * 0x1_0000_0000
}

/// Whether `part` stands in `bytes` at `at`.
pub open spec fn occurs_at(bytes: Seq<u8>, part: Seq<u8>, at: int) -> bool {
    0 <= at && at + part.len() <= bytes.len() && bytes.subrange(at, at + part.len()) == part
}

/// Whether `bytes` begins with `part`.
pub open spec fn begins_with(bytes: Seq<u8>, part: Seq<u8>) -> bool {
    occurs_at(bytes, part, 0)
}

/// Whether `part` stands in `bytes` at `at`.
pub fn has_at(bytes: &[u8], part: &[u8], at: usize) -> (found: bool)
    ensures
        found == occurs_at(bytes@, part@, at as int),
{
    if at > bytes.len() || part.len() > bytes.len() - at {
        return false;
    }
    let mut i: usize = 0;
    while i < part.len()
        invariant
            i <= part.len(),
            at + part.len() <= bytes.len(),
            forall|j: int| 0 <= j < i ==> bytes@[at + j] == part@[j],
        decreases part.len() - i,
    {
        if bytes[at + i] != part[i] {
            assert(bytes@.subrange(at as int, at + part@.len())[i as int] != part@[i as int]);
            return false;
        }
        i += 1;
    }
    assert(bytes@.subrange(at as int, at + part@.len()) =~= part@);
    true
}

/// Whether `bytes` begins with the UTF-8 bytes of `text`.
pub fn begins_with_text(bytes: &[u8], text: &str) -> (found: bool)
    ensures
        found == begins_with(bytes@, utf8(text@)),
{
    has_at(bytes, text.as_bytes(), 0)
}

/// Whether `bytes` are exactly the UTF-8 bytes of `text`.
pub fn is_text(bytes: &[u8], text: &str) -> (same: bool)
    ensures
        same == (bytes@ == utf8(text@)),
{
    let part = text.as_bytes();
    if part.len() != bytes.len() {
        return false;
    }
    let same = has_at(bytes, part, 0);
    assert(bytes@.subrange(0, bytes@.len() as int) =~= bytes@);
    same
}

/// Whether one byte string comes before another in dictionary order.
pub open spec fn bytes_less(left: Seq<u8>, right: Seq<u8>) -> bool
    decreases left.len(),
{
    if right.len() == 0 {
        false
    } else if left.len() == 0 {
        true
    } else if left[0] != right[0] {
        left[0] < right[0]
    } else {
        bytes_less(left.skip(1), right.skip(1))
    }
}

/// Whether one byte string comes before another in dictionary order.
pub fn is_bytes_less(left: &[u8], right: &[u8]) -> (less: bool)
    ensures
        less == bytes_less(left@, right@),
{
    let mut i: usize = 0;
    assert(left@.skip(0) =~= left@);
    assert(right@.skip(0) =~= right@);
    while i < left.len() && i < right.len()
        invariant
            i <= left@.len(),
            i <= right@.len(),
            bytes_less(left@, right@) == bytes_less(left@.skip(i as int), right@.skip(i as int)),
        decreases left.len() - i,
    {
        if left[i] != right[i] {
            return left[i] < right[i];
        }
        assert(left@.skip(i as int).skip(1) =~= left@.skip(i + 1));
        assert(right@.skip(i as int).skip(1) =~= right@.skip(i + 1));
        i += 1;
    }
    i < right.len()
}

/// Whether two byte strings are the same.
pub fn same_bytes(left: &[u8], right: &[u8]) -> (same: bool)
    ensures
        same == (left@ == right@),
{
    if left.len() != right.len() {
        return false;
    }
    let same = has_at(left, right, 0);
    assert(left@.subrange(0, left@.len() as int) =~= left@);
    same
}

/// The first place at or after `from` where the nonempty `part` stands.
pub open spec fn find_from(bytes: Seq<u8>, part: Seq<u8>, from: int) -> Option<int>
    decreases bytes.len() - from,
{
    if part.len() == 0 || from + part.len() > bytes.len() {
        None
    } else if occurs_at(bytes, part, from) {
        Some(from)
    } else {
        find_from(bytes, part, from + 1)
    }
}

/// The first place where the nonempty `part` stands in `bytes`.
pub open spec fn find(bytes: Seq<u8>, part: Seq<u8>) -> Option<int> {
    find_from(bytes, part, 0)
}

/// A search result is the first match, and there is none only if nothing matches.
pub proof fn lemma_find_from(bytes: Seq<u8>, part: Seq<u8>, from: int)
    requires
        part.len() > 0,
        0 <= from,
    ensures
        match find_from(bytes, part, from) {
            Some(at) => {
                &&& from <= at
                &&& occurs_at(bytes, part, at)
                &&& forall|j: int| from <= j < at ==> !occurs_at(bytes, part, j)
            },
            None => forall|j: int| from <= j ==> !occurs_at(bytes, part, j),
        },
    decreases bytes.len() - from,
{
    if from + part.len() > bytes.len() {
    } else if occurs_at(bytes, part, from) {
    } else {
        lemma_find_from(bytes, part, from + 1);
    }
}

/// The first place at or after `from` where `part` stands, if `part` is not
/// empty.
pub fn find_subslice_from(haystack: &[u8], needle: &[u8], from: usize) -> (place: Option<usize>)
    ensures
        match place {
            Some(at) => find_from(haystack@, needle@, from as int) == Some(at as int),
            None => find_from(haystack@, needle@, from as int) is None,
        },
{
    if needle.len() == 0 || haystack.len() < needle.len() {
        return None;
    }
    let last: usize = haystack.len() - needle.len();
    let mut at: usize = from;
    while at <= last
        invariant
            needle.len() > 0,
            last + needle.len() == haystack.len(),
            find_from(haystack@, needle@, from as int) == find_from(
                haystack@,
                needle@,
                at as int,
            ),
        decreases last + 1 - at,
    {
        if has_at(haystack, needle, at) {
            return Some(at);
        }
        at += 1;
    }
    None
}

/// The first place where `needle` stands in `haystack`.
pub fn find_subslice(haystack: &[u8], needle: &[u8]) -> (place: Option<usize>)
    ensures
        match place {
            Some(at) => find(haystack@, needle@) == Some(at as int),
            None => find(haystack@, needle@) is None,
        },
{
    find_subslice_from(haystack, needle, 0)
}

/// The first place where a byte stands at or after `from`, or the length.
pub open spec fn byte_or_end(bytes: Seq<u8>, byte: u8, from: int) -> int
    decreases bytes.len() - from,
{
    if from >= bytes.len() {
        bytes.len() as int
    } else if bytes[from] == byte {
        from
    } else {
        byte_or_end(bytes, byte, from + 1)
    }
}

/// Copy a range of bytes into a vector of its own.
pub fn copied(bytes: &[u8], from: usize, to: usize) -> (copy: Vec<u8>)
    requires
        from <= to <= bytes@.len(),
    ensures
        copy@ == bytes@.subrange(from as int, to as int),
{
    let mut copy: Vec<u8> = Vec::new();
    push_range(&mut copy, bytes, from, to);
    assert(copy@ =~= bytes@.subrange(from as int, to as int));
    copy
}

/// A copy of bytes.
pub fn copy_bytes(bytes: &[u8]) -> (copy: Vec<u8>)
    ensures
        copy@ == bytes@,
{
    let mut copy: Vec<u8> = Vec::new();
    push_bytes(&mut copy, bytes);
    assert(copy@ =~= bytes@);
    copy
}

/// Append a range of bytes.
pub fn push_range(output: &mut Vec<u8>, bytes: &[u8], from: usize, to: usize)
    requires
        from <= to <= bytes@.len(),
    ensures
        final(output)@ == old(output)@ + bytes@.subrange(from as int, to as int),
{
    let part = &bytes[from..to];
    output.extend_from_slice(part);
    assert(output@ =~= old(output)@ + bytes@.subrange(from as int, to as int));
}

/// Append bytes.
pub fn push_bytes(output: &mut Vec<u8>, bytes: &[u8])
    ensures
        final(output)@ == old(output)@ + bytes@,
{
    output.extend_from_slice(bytes);
    assert(output@ =~= old(output)@ + bytes@);
}

/// Append the UTF-8 bytes of a text.
pub fn push_text(output: &mut Vec<u8>, text: &str)
    ensures
        final(output)@ == old(output)@ + utf8(text@),
{
    push_bytes(output, text.as_bytes());
}

/// The UTF-8 bytes of a text.
pub fn text_bytes(text: &str) -> (bytes: Vec<u8>)
    ensures
        bytes@ == utf8(text@),
{
    let mut bytes: Vec<u8> = Vec::new();
    push_text(&mut bytes, text);
    assert(bytes@ =~= utf8(text@));
    bytes
}

/// Byte buffers by their values.
pub open spec fn buffer_values(buffers: Seq<Vec<u8>>) -> Seq<Seq<u8>> {
    buffers.map_values(|buffer: Vec<u8>| buffer@)
}

} // verus!
