//! What scrubbing a PNG keeps and removes, chunk by chunk.

use vstd::prelude::*;

use crate::bytes::{be32, byte_or_end, lemma_ascii, utf8};
use crate::encoding::lossy_utf8;
use crate::metadata::exif::has_gps;
use crate::metadata::item::ItemValue;
use crate::metadata::png::{
    behind_keyword, keyword_of, png_item_value, png_walk_from, walked_png,
};
use crate::text::mentions_location;

verus! {

/// One chunk: its type and its data.
pub type Chunk = (Seq<u8>, Seq<u8>);

/// The chunks from `from` on, the end chunk and what is behind it left out.
pub open spec fn chunks_from(bytes: Seq<u8>, from: int) -> Seq<Chunk>
    decreases bytes.len() - from,
{
    if from < 0 || from + 12 > bytes.len() || from + 12 + be32(bytes, from) > bytes.len() {
        Seq::empty()
    } else {
        let end = from + 12 + be32(bytes, from);
        let kind = bytes.subrange(from + 4, from + 8);
        if kind == utf8("IEND"@) {
            Seq::empty()
        } else {
            seq![(kind, bytes.subrange(from + 8, end - 4))] + chunks_from(bytes, end)
        }
    }
}

/// Whether a chunk has a part in what the picture looks like: its header, palette and data,
/// its transparency, its colours, its size on paper, and its animation.
pub open spec fn makes_the_picture(kind: Seq<u8>) -> bool {
    ||| kind == utf8("IHDR"@)
    ||| kind == utf8("PLTE"@)
    ||| kind == utf8("IDAT"@)
    ||| kind == utf8("tRNS"@)
    ||| kind == utf8("gAMA"@)
    ||| kind == utf8("cHRM"@)
    ||| kind == utf8("sRGB"@)
    ||| kind == utf8("iCCP"@)
    ||| kind == utf8("sBIT"@)
    ||| kind == utf8("bKGD"@)
    ||| kind == utf8("hIST"@)
    ||| kind == utf8("sPLT"@)
    ||| kind == utf8("pHYs"@)
    ||| kind == utf8("cICP"@)
    ||| kind == utf8("mDCv"@)
    ||| kind == utf8("cLLi"@)
    ||| kind == utf8("acTL"@)
    ||| kind == utf8("fcTL"@)
    ||| kind == utf8("fdAT"@)
}

/// The chunks that make the picture, in order.
pub open spec fn picture_chunks(chunks: Seq<Chunk>) -> Seq<Chunk>
    decreases chunks.len(),
{
    if chunks.len() == 0 {
        Seq::empty()
    } else if makes_the_picture(chunks[0].0) {
        seq![chunks[0]] + picture_chunks(chunks.skip(1))
    } else {
        picture_chunks(chunks.skip(1))
    }
}

/// The first letters of the ancillary types are small.
proof fn lemma_small_letters()
    ensures
        !(0x41 <= utf8("tRNS"@)[0] <= 0x5a),
        !(0x41 <= utf8("gAMA"@)[0] <= 0x5a),
        !(0x41 <= utf8("cHRM"@)[0] <= 0x5a),
        !(0x41 <= utf8("sRGB"@)[0] <= 0x5a),
        !(0x41 <= utf8("iCCP"@)[0] <= 0x5a),
        !(0x41 <= utf8("sBIT"@)[0] <= 0x5a),
        !(0x41 <= utf8("bKGD"@)[0] <= 0x5a),
        !(0x41 <= utf8("hIST"@)[0] <= 0x5a),
        !(0x41 <= utf8("sPLT"@)[0] <= 0x5a),
        !(0x41 <= utf8("pHYs"@)[0] <= 0x5a),
        !(0x41 <= utf8("cICP"@)[0] <= 0x5a),
        !(0x41 <= utf8("mDCv"@)[0] <= 0x5a),
        !(0x41 <= utf8("cLLi"@)[0] <= 0x5a),
        !(0x41 <= utf8("acTL"@)[0] <= 0x5a),
        !(0x41 <= utf8("fcTL"@)[0] <= 0x5a),
        !(0x41 <= utf8("fdAT"@)[0] <= 0x5a),
{
    reveal_strlit("tRNS");
    reveal_strlit("gAMA");
    reveal_strlit("cHRM");
    reveal_strlit("sRGB");
    reveal_strlit("iCCP");
    reveal_strlit("sBIT");
    reveal_strlit("bKGD");
    reveal_strlit("hIST");
    reveal_strlit("sPLT");
    reveal_strlit("pHYs");
    reveal_strlit("cICP");
    reveal_strlit("mDCv");
    reveal_strlit("cLLi");
    reveal_strlit("acTL");
    reveal_strlit("fcTL");
    reveal_strlit("fdAT");
    lemma_ascii("tRNS");
    lemma_ascii("gAMA");
    lemma_ascii("cHRM");
    lemma_ascii("sRGB");
    lemma_ascii("iCCP");
    lemma_ascii("sBIT");
    lemma_ascii("bKGD");
    lemma_ascii("hIST");
    lemma_ascii("sPLT");
    lemma_ascii("pHYs");
    lemma_ascii("cICP");
    lemma_ascii("mDCv");
    lemma_ascii("cLLi");
    lemma_ascii("acTL");
    lemma_ascii("fcTL");
    lemma_ascii("fdAT");
    assert(utf8("tRNS"@)[0] == 't' as u8);
    assert(utf8("gAMA"@)[0] == 'g' as u8);
    assert(utf8("cHRM"@)[0] == 'c' as u8);
    assert(utf8("sRGB"@)[0] == 's' as u8);
    assert(utf8("iCCP"@)[0] == 'i' as u8);
    assert(utf8("sBIT"@)[0] == 's' as u8);
    assert(utf8("bKGD"@)[0] == 'b' as u8);
    assert(utf8("hIST"@)[0] == 'h' as u8);
    assert(utf8("sPLT"@)[0] == 's' as u8);
    assert(utf8("pHYs"@)[0] == 'p' as u8);
    assert(utf8("cICP"@)[0] == 'c' as u8);
    assert(utf8("mDCv"@)[0] == 'm' as u8);
    assert(utf8("cLLi"@)[0] == 'c' as u8);
    assert(utf8("acTL"@)[0] == 'a' as u8);
    assert(utf8("fcTL"@)[0] == 'f' as u8);
    assert(utf8("fdAT"@)[0] == 'f' as u8);
}

/// A chunk is kept exactly where it makes the picture or ends the file. A chunk of another
/// kind whose name begins with a capital letter is one that a decoder must understand, and
/// its file is refused. Every other one is reported.
pub proof fn picture_chunks_are_kept(kind: Seq<u8>, data: Seq<u8>)
    ensures
        (png_item_value(kind, data) == Ok::<Option<ItemValue>, Seq<char>>(None)) == (
        makes_the_picture(kind) || kind == utf8("IEND"@)),
        (png_item_value(kind, data) is Err) == (!makes_the_picture(kind) && kind != utf8("IEND"@)
            && 0x41 <= kind[0] <= 0x5a),
{
    reveal(png_item_value);
    lemma_small_letters();
}

/// Whether the chunks of a stripped stream are the picture's chunks of its source.
#[verifier::opaque]
spec fn is_picture_of(stripped: Seq<u8>, start: int, bytes: Seq<u8>, from: int) -> bool {
    chunks_from(stripped, start) == picture_chunks(chunks_from(bytes, from))
}

/// Numbers and parts are read in the same way behind other bytes.
proof fn lemma_read_behind(before: Seq<u8>, bytes: Seq<u8>, rest: Seq<u8>, from: int, end: int)
    requires
        0 <= from && from + 12 <= end <= bytes.len(),
        end == from + 12 + be32(bytes, from),
    ensures
        ({
            let whole = before + bytes.subrange(from, end) + rest;
            let start = before.len() as int;
            &&& be32(whole, start) == be32(bytes, from)
            &&& whole.subrange(start + 4, start + 8) == bytes.subrange(from + 4, from + 8)
            &&& whole.subrange(start + 8, start + end - from - 4) == bytes.subrange(
                from + 8,
                end - 4,
            )
        }),
{
    let part = bytes.subrange(from, end);
    let whole = before + part + rest;
    let start = before.len() as int;
    assert forall|i: int| 0 <= i < end - from implies #[trigger] whole[start + i] == bytes[from
        + i] by {
        assert(part[i] == bytes[from + i]);
    }
    assert(whole[start + 0] == bytes[from + 0]);
    assert(whole[start + 1] == bytes[from + 1]);
    assert(whole[start + 2] == bytes[from + 2]);
    assert(whole[start + 3] == bytes[from + 3]);
    assert(whole.subrange(start + 4, start + 8) =~= bytes.subrange(from + 4, from + 8)) by {
        assert(whole[start + 4] == bytes[from + 4]);
        assert(whole[start + 5] == bytes[from + 5]);
        assert(whole[start + 6] == bytes[from + 6]);
        assert(whole[start + 7] == bytes[from + 7]);
    }
    let data = whole.subrange(start + 8, start + end - from - 4);
    assert forall|i: int| 0 <= i < end - from - 12 implies #[trigger] data[i] == bytes[from + 8
        + i] by {
        assert(whole[start + (8 + i)] == bytes[from + (8 + i)]);
    }
    assert(data =~= bytes.subrange(from + 8, end - 4));
}

proof fn lemma_rest_is_the_picture(
    bytes: Seq<u8>,
    from: int,
    first: bool,
    saw_idat: bool,
    before: Seq<u8>,
)
    requires
        0 <= from,
        png_walk_from(bytes, from, true, first, saw_idat) is Ok,
    ensures
        is_picture_of(
            before + png_walk_from(bytes, from, true, first, saw_idat)->Ok_0.1,
            before.len() as int,
            bytes,
            from,
        ),
    decreases bytes.len() - from,
{
    reveal(is_picture_of);
    let end = from + 12 + be32(bytes, from);
    let kind = bytes.subrange(from + 4, from + 8);
    let data = bytes.subrange(from + 8, end - 4);
    let seen = saw_idat || kind == utf8("IDAT"@);
    let out = png_walk_from(bytes, from, true, first, saw_idat)->Ok_0.1;
    let start = before.len() as int;
    let whole = before + out;
    picture_chunks_are_kept(kind, data);
    if kind == utf8("IEND"@) {
        assert(whole =~= before + bytes.subrange(from, end) + Seq::empty());
        lemma_read_behind(before, bytes, Seq::empty(), from, end);
        assert(chunks_from(whole, start) =~= Seq::empty());
    } else {
        let rest = png_walk_from(bytes, end, true, false, seen)->Ok_0.1;
        let chunk: Chunk = (kind, data);
        let following = chunks_from(bytes, end);
        assert((seq![chunk] + following).skip(1) =~= following);
        if makes_the_picture(kind) {
            let further = before + bytes.subrange(from, end);
            lemma_rest_is_the_picture(bytes, end, false, seen, further);
            assert(whole =~= further + rest);
            lemma_read_behind(before, bytes, rest, from, end);
            assert(chunks_from(whole, start) == seq![chunk] + chunks_from(
                whole,
                further.len() as int,
            ));
        } else {
            lemma_rest_is_the_picture(bytes, end, false, seen, before);
            assert(out =~= rest);
        }
    }
}

/// Scrubbing a PNG keeps every chunk that makes the picture, byte for byte and in order, and
/// removes every other one.
pub proof fn scrubbing_keeps_exactly_the_picture(bytes: Seq<u8>)
    requires
        walked_png(bytes, true) is Ok,
    ensures
        chunks_from(walked_png(bytes, true)->Ok_0.1, 8) == picture_chunks(chunks_from(bytes, 8)),
{
    reveal(is_picture_of);
    lemma_rest_is_the_picture(bytes, 8, true, false, bytes.subrange(0, 8));
}

/// How many chunks have no part in the picture.
pub open spec fn other_chunks(chunks: Seq<Chunk>) -> nat
    decreases chunks.len(),
{
    if chunks.len() == 0 {
        0
    } else if makes_the_picture(chunks[0].0) {
        other_chunks(chunks.skip(1))
    } else {
        other_chunks(chunks.skip(1)) + 1
    }
}

/// Where the end chunk of a chunk stream ends, if there is one.
pub open spec fn stream_end(bytes: Seq<u8>, from: int) -> int
    decreases bytes.len() - from,
{
    if from < 0 || from + 12 > bytes.len() || from + 12 + be32(bytes, from) > bytes.len() {
        from
    } else {
        let end = from + 12 + be32(bytes, from);
        if bytes.subrange(from + 4, from + 8) == utf8("IEND"@) {
            end
        } else {
            stream_end(bytes, end)
        }
    }
}

proof fn lemma_counted(bytes: Seq<u8>, from: int, strip: bool, first: bool, saw_idat: bool)
    requires
        0 <= from,
        png_walk_from(bytes, from, strip, first, saw_idat) is Ok,
    ensures
        png_walk_from(bytes, from, strip, first, saw_idat)->Ok_0.0.len() == other_chunks(
            chunks_from(bytes, from),
        ) + if stream_end(bytes, from) < bytes.len() {
            1nat
        } else {
            0nat
        },
    decreases bytes.len() - from,
{
    let end = from + 12 + be32(bytes, from);
    let kind = bytes.subrange(from + 4, from + 8);
    let data = bytes.subrange(from + 8, end - 4);
    let seen = saw_idat || kind == utf8("IDAT"@);
    picture_chunks_are_kept(kind, data);
    if kind != utf8("IEND"@) {
        let chunk: Chunk = (kind, data);
        assert((seq![chunk] + chunks_from(bytes, end)).skip(1) =~= chunks_from(bytes, end));
        lemma_counted(bytes, end, strip, false, seen);
    }
}

/// Inspecting a PNG reports each chunk that has no part in the picture once, and one thing
/// more where bytes follow the end chunk.
pub proof fn every_other_chunk_is_reported(bytes: Seq<u8>, strip: bool)
    requires
        walked_png(bytes, strip) is Ok,
    ensures
        walked_png(bytes, strip)->Ok_0.0.len() == other_chunks(chunks_from(bytes, 8)) + if stream_end(
            bytes,
            8,
        ) < bytes.len() {
            1nat
        } else {
            0nat
        },
{
    lemma_counted(bytes, 8, strip, true, false);
    let rest = png_walk_from(bytes, 8, strip, true, false)->Ok_0.0;
    assert((Seq::<ItemValue>::empty() + rest).len() == rest.len());
}

proof fn lemma_report_kinds()
    ensures
        utf8("eXIf"@) != utf8("tEXt"@),
        utf8("eXIf"@) != utf8("zTXt"@),
        utf8("eXIf"@) != utf8("iTXt"@),
        utf8("tEXt"@) != utf8("zTXt"@),
        utf8("tEXt"@) != utf8("iTXt"@),
        utf8("zTXt"@) != utf8("iTXt"@),
{
    reveal_strlit("eXIf");
    reveal_strlit("tEXt");
    reveal_strlit("zTXt");
    reveal_strlit("iTXt");
    lemma_ascii("eXIf");
    lemma_ascii("tEXt");
    lemma_ascii("zTXt");
    lemma_ascii("iTXt");
    assert(utf8("eXIf"@).len() == 4);
    assert(utf8("tEXt"@).len() == 4);
    assert(utf8("zTXt"@).len() == 4);
    assert(utf8("iTXt"@).len() == 4);
    assert(utf8("eXIf"@)[0] == 0x65);
    assert(utf8("iTXt"@)[0] == 0x69);
    assert(utf8("tEXt"@)[0] == 0x74);
    assert(utf8("zTXt"@)[0] == 0x7a);
}

/// A chunk of EXIF data that is reported is reported as a location exactly when it holds one,
/// and a chunk of plain text when what stands behind its keyword mentions one.
pub proof fn png_locations_are_reported(kind: Seq<u8>, data: Seq<u8>, found: ItemValue)
    requires
        png_item_value(kind, data) == Ok::<Option<ItemValue>, Seq<char>>(Some(found)),
    ensures
        kind == utf8("eXIf"@) ==> found.sensitive == has_gps(data),
        kind == utf8("tEXt"@) && mentions_location(lossy_utf8(behind_keyword(data)))
            ==> found.sensitive,
{
    reveal(png_item_value);
    lemma_report_kinds();
}

/// What stands behind a keyword in a text chunk is what follows the first zero byte.
pub proof fn texts_follow_their_keyword(keyword: Seq<u8>, text: Seq<u8>)
    requires
        forall|i: int| 0 <= i < keyword.len() ==> #[trigger] keyword[i] != 0,
    ensures
        behind_keyword(keyword + seq![0u8] + text) == text,
        keyword_of(keyword + seq![0u8] + text) == keyword,
{
    let data = keyword + seq![0u8] + text;
    lemma_zero(data, keyword.len() as int, 0);
    assert(data.skip(keyword.len() as int + 1) =~= text);
    assert(data.take(keyword.len() as int) =~= keyword);
}

proof fn lemma_zero(data: Seq<u8>, at: int, from: int)
    requires
        0 <= from <= at < data.len(),
        data[at] == 0,
        forall|i: int| from <= i < at ==> #[trigger] data[i] != 0,
    ensures
        byte_or_end(data, 0, from) == at,
    decreases at - from,
{
    if from < at {
        lemma_zero(data, at, from + 1);
    }
}

} // verus!
