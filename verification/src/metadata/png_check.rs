//! What holds between the PNG scrubber and the structural check.

use vstd::prelude::*;

use crate::bytes::{be32, begins_with, utf8};
use crate::checksum::crc32_of;
use crate::metadata::item::ItemValue;
use crate::metadata::jpeg::{prefixed, trailing_item};
use crate::metadata::png::{
    checked_png, is_bare_png, is_critical, is_kept_ancillary, png_checked_from, png_item_value,
    png_signature, png_walk_from, walked_png,
};

verus! {

/// The image data of the chunk stream from `from` on: the contents of its IDAT
/// chunks, one after the other.
pub open spec fn idat_from(bytes: Seq<u8>, from: int) -> Seq<u8>
    decreases bytes.len() - from,
{
    if from < 0 || from + 8 > bytes.len() || from + 12 + be32(bytes, from) > bytes.len() {
        Seq::empty()
    } else {
        let end = from + 12 + be32(bytes, from);
        let chunk_type = bytes.subrange(from + 4, from + 8);
        if chunk_type == utf8("IEND"@) {
            Seq::empty()
        } else if chunk_type == utf8("IDAT"@) {
            bytes.subrange(from + 8, end - 4) + idat_from(bytes, end)
        } else {
            idat_from(bytes, end)
        }
    }
}

/// What is reported is what is removed: a walk that strips reports the same
/// items as one that does not.
pub proof fn stripping_png_reports_the_same(bytes: Seq<u8>)
    ensures
        match (walked_png(bytes, false), walked_png(bytes, true)) {
            (Ok((found, _)), Ok((removed, _))) => found == removed,
            (Err(left), Err(right)) => left == right,
            _ => false,
        },
{
    lemma_same_report(bytes, 8, true, false);
}

proof fn lemma_same_report(bytes: Seq<u8>, from: int, first: bool, saw_idat: bool)
    requires
        0 <= from,
    ensures
        match (
            png_walk_from(bytes, from, false, first, saw_idat),
            png_walk_from(bytes, from, true, first, saw_idat),
        ) {
            (Ok((found, _)), Ok((removed, _))) => found == removed,
            (Err(left), Err(right)) => left == right,
            _ => false,
        },
    decreases bytes.len() - from,
{
    if from + 8 <= bytes.len() && from + 12 + be32(bytes, from) <= bytes.len() {
        let end = from + 12 + be32(bytes, from);
        let chunk_type = bytes.subrange(from + 4, from + 8);
        lemma_same_report(bytes, end, false, saw_idat || chunk_type == utf8("IDAT"@));
    }
}

/// Whether a walk succeeds and keeps exactly these bytes.
spec fn keeps(walked: Result<(Seq<ItemValue>, Seq<u8>), Seq<char>>, bytes: Seq<u8>) -> bool {
    match walked {
        Ok((_, kept)) => kept == bytes,
        Err(_) => false,
    }
}

/// Whether a chunk stream passes the check, is stripped to itself, and holds this
/// image data.
#[verifier::opaque]
spec fn is_settled(whole: Seq<u8>, start: int, first: bool, saw_idat: bool, idat: Seq<u8>) -> bool {
    &&& 0 <= start <= whole.len()
    &&& png_checked_from(whole, start) is Ok
    &&& keeps(png_walk_from(whole, start, true, first, saw_idat), whole.skip(start))
    &&& idat_from(whole, start) == idat
}

/// Whether the chunk at `from` is sound and kept.
spec fn is_kept_chunk(bytes: Seq<u8>, from: int, first: bool) -> bool {
    &&& 0 <= from
    &&& from + 12 + be32(bytes, from) <= bytes.len()
    &&& ({
        let length = be32(bytes, from) as int;
        let chunk_type = bytes.subrange(from + 4, from + 8);
        &&& crc32_of(bytes.subrange(from + 4, from + 8 + length)) == be32(bytes, from + 8 + length)
        &&& first ==> chunk_type == utf8("IHDR"@) && length == 13
        &&& png_item_value(chunk_type, bytes.subrange(from + 8, from + 8 + length)) == Ok::<
            Option<ItemValue>,
            Seq<char>,
        >(None)
    })
}

/// A kept chunk in front of a settled rest is settled.
proof fn lemma_settled_chunk(
    whole: Seq<u8>,
    start: int,
    first: bool,
    saw_idat: bool,
    idat: Seq<u8>,
)
    requires
        is_kept_chunk(whole, start, first),
        ({
            let end = start + 12 + be32(whole, start);
            let chunk_type = whole.subrange(start + 4, start + 8);
            &&& chunk_type != utf8("IEND"@)
            &&& is_settled(
                whole,
                end,
                false,
                saw_idat || chunk_type == utf8("IDAT"@),
                idat,
            )
        }),
    ensures
        ({
            let end = start + 12 + be32(whole, start);
            let chunk_type = whole.subrange(start + 4, start + 8);
            is_settled(
                whole,
                start,
                first,
                saw_idat,
                if chunk_type == utf8("IDAT"@) {
                    whole.subrange(start + 8, end - 4) + idat
                } else {
                    idat
                },
            )
        }),
{
    reveal(is_settled);
    let end = start + 12 + be32(whole, start);
    let chunk_type = whole.subrange(start + 4, start + 8);
    assert(is_critical(chunk_type) || is_kept_ancillary(chunk_type)) by {
        reveal(png_item_value);
    }
    assert(png_checked_from(whole, start) == png_checked_from(whole, end));
    let following = png_walk_from(
        whole,
        end,
        true,
        false,
        saw_idat || chunk_type == utf8("IDAT"@),
    );
    assert(png_walk_from(whole, start, true, first, saw_idat) == prefixed(
        Seq::empty(),
        whole.subrange(start, end),
        following,
    ));
    assert(whole.subrange(start, end) + whole.skip(end) =~= whole.skip(start));
}

/// The last chunk is settled.
proof fn lemma_settled_end(whole: Seq<u8>, start: int)
    requires
        is_kept_chunk(whole, start, false),
        whole.subrange(start + 4, start + 8) == utf8("IEND"@),
        be32(whole, start) == 0,
        start + 12 == whole.len(),
    ensures
        is_settled(whole, start, false, true, Seq::empty()),
{
    reveal(is_settled);
    assert(png_checked_from(whole, start) is Ok);
    assert(whole.subrange(start, whole.len() as int) =~= whole.skip(start));
}

/// A chunk that is copied is read as it was where it came from.
proof fn lemma_copied_chunk(
    bytes: Seq<u8>,
    from: int,
    first: bool,
    before: Seq<u8>,
    rest: Seq<u8>,
)
    requires
        is_kept_chunk(bytes, from, first),
    ensures
        ({
            let end = from + 12 + be32(bytes, from);
            let whole = before + bytes.subrange(from, end) + rest;
            let start = before.len() as int;
            &&& is_kept_chunk(whole, start, first)
            &&& be32(whole, start) == be32(bytes, from)
            &&& whole.subrange(start + 4, start + 8) == bytes.subrange(from + 4, from + 8)
            &&& whole.subrange(start + 8, start + 8 + be32(bytes, from)) == bytes.subrange(
                from + 8,
                from + 8 + be32(bytes, from),
            )
        }),
{
    let length = be32(bytes, from) as int;
    let end = from + 12 + length;
    let segment = bytes.subrange(from, end);
    let whole = before + segment + rest;
    let start = before.len() as int;
    assert forall|i: int| from <= i < end implies whole[start + i - from] == #[trigger] bytes[i] by {
        assert(segment[i - from] == bytes[i]);
    }
    assert(whole[start + from - from] == bytes[from]);
    assert(whole[start + (from + 1) - from] == bytes[from + 1]);
    assert(whole[start + (from + 2) - from] == bytes[from + 2]);
    assert(whole[start + (from + 3) - from] == bytes[from + 3]);
    assert(be32(whole, start) == be32(bytes, from));
    let crc = from + 8 + length;
    assert(whole[start + crc - from] == bytes[crc]);
    assert(whole[start + (crc + 1) - from] == bytes[crc + 1]);
    assert(whole[start + (crc + 2) - from] == bytes[crc + 2]);
    assert(whole[start + (crc + 3) - from] == bytes[crc + 3]);
    assert(be32(whole, start + 8 + length) == be32(bytes, crc));
    assert(whole.subrange(start + 4, start + 8) =~= bytes.subrange(from + 4, from + 8)) by {
        assert(whole[start + (from + 4) - from] == bytes[from + 4]);
        assert(whole[start + (from + 5) - from] == bytes[from + 5]);
        assert(whole[start + (from + 6) - from] == bytes[from + 6]);
        assert(whole[start + (from + 7) - from] == bytes[from + 7]);
    }
    let data = whole.subrange(start + 8, start + 8 + length);
    assert forall|i: int| 0 <= i < length implies #[trigger] data[i] == bytes[from + 8 + i] by {
        assert(whole[start + (from + 8 + i) - from] == bytes[from + 8 + i]);
    }
    assert(data =~= bytes.subrange(from + 8, crc));
    let checked = whole.subrange(start + 4, start + 8 + length);
    assert forall|i: int| 0 <= i < length + 4 implies #[trigger] checked[i] == bytes[from + 4
        + i] by {
        assert(whole[start + (from + 4 + i) - from] == bytes[from + 4 + i]);
    }
    assert(checked =~= bytes.subrange(from + 4, crc));
}

/// What the strip of a chunk stream leaves is settled and holds the same image
/// data, behind whatever bytes it is put.
proof fn lemma_settled(bytes: Seq<u8>, from: int, first: bool, saw_idat: bool, before: Seq<u8>)
    requires
        0 <= from,
        png_walk_from(bytes, from, true, first, saw_idat) is Ok,
    ensures
        is_settled(
            before + png_walk_from(bytes, from, true, first, saw_idat)->Ok_0.1,
            before.len() as int,
            first,
            saw_idat,
            idat_from(bytes, from),
        ),
    decreases bytes.len() - from,
{
    let length = be32(bytes, from) as int;
    let end = from + 12 + length;
    let chunk_type = bytes.subrange(from + 4, from + 8);
    let data = bytes.subrange(from + 8, from + 8 + length);
    let seen = saw_idat || chunk_type == utf8("IDAT"@);
    let out = png_walk_from(bytes, from, true, first, saw_idat)->Ok_0.1;
    let start = before.len() as int;
    lemma_distinct_types();
    match png_item_value(chunk_type, data) {
        Ok(None) => {
            assert(is_kept_chunk(bytes, from, first));
            if chunk_type == utf8("IEND"@) {
                let whole = before + out;
                assert(whole =~= before + bytes.subrange(from, end) + Seq::empty());
                lemma_copied_chunk(bytes, from, first, before, Seq::empty());
                assert(!first);
                assert(saw_idat);
                lemma_settled_end(whole, start);
            } else {
                let rest = png_walk_from(bytes, end, true, false, seen)->Ok_0.1;
                let further = before + bytes.subrange(from, end);
                lemma_settled(bytes, end, false, seen, further);
                lemma_copied_chunk(bytes, from, first, before, rest);
                assert(before + out =~= further + rest);
                assert(further.len() == start + 12 + length);
                lemma_settled_chunk(further + rest, start, first, saw_idat, idat_from(bytes, end));
            }
        },
        Ok(Some(found)) => {
            assert(!is_critical(chunk_type)) by {
                reveal(png_item_value);
            }
            let rest = png_walk_from(bytes, end, true, false, seen)->Ok_0.1;
            lemma_settled(bytes, end, false, seen, before);
            assert(out =~= rest);
        },
        Err(_) => {},
    }
}

/// The chunk types that the walk tells apart are different.
proof fn lemma_distinct_types()
    ensures
        utf8("IHDR"@) != utf8("IEND"@),
        utf8("IDAT"@) != utf8("IEND"@),
{
    reveal_strlit("IHDR");
    reveal_strlit("IDAT");
    reveal_strlit("IEND");
    crate::bytes::lemma_ascii("IHDR");
    crate::bytes::lemma_ascii("IDAT");
    crate::bytes::lemma_ascii("IEND");
    assert(utf8("IHDR"@)[1] == 'H' as u8);
    assert(utf8("IDAT"@)[1] == 'D' as u8);
    assert(utf8("IEND"@)[1] == 'E' as u8);
}

/// What the scrubber leaves of a PNG always passes the structural check.
pub proof fn stripped_png_passes_the_check(bytes: Seq<u8>)
    requires
        walked_png(bytes, true) is Ok,
    ensures
        checked_png(walked_png(bytes, true)->Ok_0.1) is Ok,
{
    lemma_stripped(bytes);
}

/// A PNG that carries nothing to strip passes the structural check.
pub proof fn bare_png_passes_the_check(bytes: Seq<u8>)
    requires
        is_bare_png(bytes),
    ensures
        checked_png(bytes) is Ok,
{
    stripped_png_passes_the_check(bytes);
}

/// Stripping a stripped PNG changes nothing.
pub proof fn stripping_png_twice_is_stripping_once(bytes: Seq<u8>)
    requires
        walked_png(bytes, true) is Ok,
    ensures
        walked_png(walked_png(bytes, true)->Ok_0.1, true) matches Ok((_, again)) && again
            == walked_png(bytes, true)->Ok_0.1,
{
    lemma_stripped(bytes);
    let stripped = walked_png(bytes, true)->Ok_0.1;
    assert(stripped.subrange(0, 8) + stripped.skip(8) =~= stripped);
}

/// Stripping a PNG leaves its image data as it was, byte for byte.
pub proof fn stripping_keeps_image_data(bytes: Seq<u8>)
    requires
        walked_png(bytes, true) is Ok,
    ensures
        idat_from(walked_png(bytes, true)->Ok_0.1, 8) == idat_from(bytes, 8),
{
    lemma_stripped(bytes);
}

proof fn lemma_stripped(bytes: Seq<u8>)
    requires
        walked_png(bytes, true) is Ok,
    ensures
        ({
            let stripped = walked_png(bytes, true)->Ok_0.1;
            &&& begins_with(stripped, png_signature())
            &&& png_checked_from(stripped, 8) is Ok
            &&& keeps(png_walk_from(stripped, 8, true, true, false), stripped.skip(8))
            &&& idat_from(stripped, 8) == idat_from(bytes, 8)
        }),
{
    reveal(is_settled);
    let stripped = walked_png(bytes, true)->Ok_0.1;
    lemma_settled(bytes, 8, true, false, bytes.subrange(0, 8));
    assert(stripped.subrange(0, 8) =~= png_signature());
}

/// A PNG in which nothing is reported is stripped to exactly itself.
pub proof fn clean_png_is_unchanged(bytes: Seq<u8>)
    requires
        walked_png(bytes, true) matches Ok((items, _)) && items.len() == 0,
    ensures
        walked_png(bytes, true) matches Ok((_, stripped)) && stripped == bytes,
{
    let rest = png_walk_from(bytes, 8, true, true, false);
    assert((Seq::<ItemValue>::empty() + rest->Ok_0.0).len() == rest->Ok_0.0.len());
    lemma_clean_rest(bytes, 8, true, false);
    assert(bytes.subrange(0, 8) + bytes.skip(8) =~= bytes);
}

proof fn lemma_clean_rest(bytes: Seq<u8>, from: int, first: bool, saw_idat: bool)
    requires
        0 <= from,
        png_walk_from(bytes, from, true, first, saw_idat) matches Ok((items, _)) && items.len()
            == 0,
    ensures
        png_walk_from(bytes, from, true, first, saw_idat) matches Ok((_, rest)) && rest
            == bytes.skip(from),
    decreases bytes.len() - from,
{
    let length = be32(bytes, from) as int;
    let end = from + 12 + length;
    let chunk_type = bytes.subrange(from + 4, from + 8);
    let data = bytes.subrange(from + 8, from + 8 + length);
    let seen = saw_idat || chunk_type == utf8("IDAT"@);
    match png_item_value(chunk_type, data) {
        Ok(None) => {
            if chunk_type == utf8("IEND"@) {
                assert(bytes.subrange(from, end) =~= bytes.skip(from));
            } else {
                let rest = png_walk_from(bytes, end, true, false, seen);
                assert((Seq::<ItemValue>::empty() + rest->Ok_0.0).len() == rest->Ok_0.0.len());
                lemma_clean_rest(bytes, end, false, seen);
                assert(bytes.subrange(from, end) + bytes.skip(end) =~= bytes.skip(from));
            }
        },
        Ok(Some(found)) => {
            let whole = png_walk_from(bytes, from, true, first, saw_idat);
            assert(whole->Ok_0.0.len() > 0);
        },
        Err(_) => {},
    }
}

/// Bytes behind the end of a PNG are taken off and reported as one more item, and
/// nothing else changes.
pub proof fn trailing_bytes_are_removed(bytes: Seq<u8>, extra: Seq<u8>)
    requires
        walked_png(bytes, false) matches Ok((_, kept)) && kept == bytes,
        extra.len() > 0,
    ensures
        walked_png(bytes, true) matches Ok((items, stripped)) && walked_png(bytes + extra, true)
            == Ok::<(Seq<ItemValue>, Seq<u8>), Seq<char>>(
            (items.push(trailing_item(extra)), stripped),
        ),
{
    let longer = bytes + extra;
    let kept = png_walk_from(bytes, 8, false, true, false);
    assert(bytes.len() >= 8);
    assert(bytes == bytes.subrange(0, 8) + kept->Ok_0.1);
    assert(kept->Ok_0.1 =~= bytes.skip(8));
    lemma_trailing_rest(bytes, extra, 8, true, false);
    let stripped = png_walk_from(bytes, 8, true, true, false);
    assert(longer.subrange(0, 8) =~= bytes.subrange(0, 8));
    assert(longer.subrange(0, png_signature().len() as int) =~= bytes.subrange(
        0,
        png_signature().len() as int,
    ));
    assert(Seq::<ItemValue>::empty() + stripped->Ok_0.0.push(trailing_item(extra)) =~= (
    Seq::<ItemValue>::empty() + stripped->Ok_0.0).push(trailing_item(extra)));
}

proof fn lemma_trailing_rest(
    bytes: Seq<u8>,
    extra: Seq<u8>,
    from: int,
    first: bool,
    saw_idat: bool,
)
    requires
        0 <= from <= bytes.len(),
        extra.len() > 0,
        keeps(png_walk_from(bytes, from, false, first, saw_idat), bytes.skip(from)),
    ensures
        png_walk_from(bytes, from, true, first, saw_idat) matches Ok((items, stripped))
            && png_walk_from(bytes + extra, from, true, first, saw_idat) == Ok::<
            (Seq<ItemValue>, Seq<u8>),
            Seq<char>,
        >((items.push(trailing_item(extra)), stripped)),
    decreases bytes.len() - from,
{
    lemma_same_report(bytes, from, first, saw_idat);
    let longer = bytes + extra;
    let length = be32(bytes, from) as int;
    let end = from + 12 + length;
    let chunk_type = bytes.subrange(from + 4, from + 8);
    let data = bytes.subrange(from + 8, from + 8 + length);
    let seen = saw_idat || chunk_type == utf8("IDAT"@);
    assert(be32(longer, from) == be32(bytes, from));
    assert(be32(longer, from + 8 + length) == be32(bytes, from + 8 + length));
    assert(longer.subrange(from + 4, from + 8) =~= chunk_type);
    assert(longer.subrange(from + 8, from + 8 + length) =~= data);
    assert(longer.subrange(from + 4, from + 8 + length) =~= bytes.subrange(
        from + 4,
        from + 8 + length,
    ));
    assert(longer.subrange(from, end) =~= bytes.subrange(from, end));
    if chunk_type == utf8("IEND"@) {
        assert(bytes.subrange(from, end).len() == bytes.skip(from).len());
        assert(longer.skip(end) =~= extra);
    } else {
        let kept = png_walk_from(bytes, end, false, false, seen);
        assert(bytes.subrange(from, end) + kept->Ok_0.1 == bytes.skip(from));
        assert(kept->Ok_0.1 =~= (bytes.subrange(from, end) + kept->Ok_0.1).skip(12 + length));
        assert(kept->Ok_0.1 =~= bytes.skip(end));
        lemma_trailing_rest(bytes, extra, end, false, seen);
        let rest = png_walk_from(bytes, end, true, false, seen);
        match png_item_value(chunk_type, data) {
            Ok(Some(found)) => {
                assert(seq![found] + rest->Ok_0.0.push(trailing_item(extra)) =~= (seq![found]
                    + rest->Ok_0.0).push(trailing_item(extra)));
            },
            Ok(None) => {
                assert(Seq::<ItemValue>::empty() + rest->Ok_0.0.push(trailing_item(extra)) =~= (
                Seq::<ItemValue>::empty() + rest->Ok_0.0).push(trailing_item(extra)));
            },
            Err(_) => {},
        }
    }
}

} // verus!
