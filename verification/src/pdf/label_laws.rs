//! What combining page labels keeps: every page's own label.

use vstd::prelude::*;

use crate::bytes::{lemma_ascii, utf8};
use crate::notices::NoticeValue;
use crate::pdf::catalog::{
    clamped_sum, combined_labels, label_for_index, label_range, merged_labels, plain_label,
    shifted,
};
use crate::pdf::laws::storing_a_value;
use crate::pdf::model::{dict_get, dict_has, dict_set, PdfId, PdfValue};
use crate::pdf::tree_laws::written_number_tree_is_read_back;
use crate::pdf::trees::{insert_number, number_tree_pairs, sorted_number, TREE_LEVELS};

verus! {

/// The better of two label ranges for a page, of which the second stands behind the first.
spec fn better(
    best: Option<(i64, PdfValue)>,
    range: (i64, PdfValue),
    index: i64,
) -> Option<(i64, PdfValue)> {
    match best {
        Some(found) => if range.0 <= index && found.0 <= range.0 {
            Some(range)
        } else {
            best
        },
        None => if range.0 <= index {
            Some(range)
        } else {
            None
        },
    }
}

proof fn lemma_pushed_range(entries: Seq<(i64, PdfValue)>, range: (i64, PdfValue), index: i64)
    ensures
        label_range(entries.push(range), index) == better(label_range(entries, index), range, index),
{
    assert(entries.push(range).drop_last() =~= entries);
}

proof fn lemma_inserted_range(sorted: Seq<(i64, PdfValue)>, pair: (i64, PdfValue), index: i64)
    ensures
        label_range(insert_number(sorted, pair), index) == better(
            label_range(sorted, index),
            pair,
            index,
        ),
    decreases sorted.len(),
{
    if sorted.len() == 0 {
        assert(insert_number(sorted, pair) =~= sorted.push(pair));
        lemma_pushed_range(sorted, pair, index);
    } else if pair.0 < sorted.last().0 {
        let shorter = sorted.drop_last();
        lemma_inserted_range(shorter, pair, index);
        lemma_pushed_range(insert_number(shorter, pair), sorted.last(), index);
        assert(shorter.push(sorted.last()) =~= sorted);
        lemma_pushed_range(shorter, sorted.last(), index);
    } else {
        lemma_pushed_range(sorted, pair, index);
    }
}

/// Putting label ranges in order changes no page's label.
proof fn lemma_sorted_range(pairs: Seq<(i64, PdfValue)>, index: i64)
    ensures
        label_range(sorted_number(pairs), index) == label_range(pairs, index),
    decreases pairs.len(),
{
    if pairs.len() > 0 {
        let shorter = pairs.drop_last();
        lemma_sorted_range(shorter, index);
        lemma_inserted_range(sorted_number(shorter), pairs.last(), index);
        assert(shorter.push(pairs.last()) =~= pairs);
        lemma_pushed_range(shorter, pairs.last(), index);
    }
}

/// Ranges behind a page do not apply to it.
proof fn lemma_later_ranges(
    entries: Seq<(i64, PdfValue)>,
    more: Seq<(i64, PdfValue)>,
    index: i64,
)
    requires
        forall|k: int| 0 <= k < more.len() ==> (#[trigger] more[k]).0 > index,
    ensures
        label_range(entries + more, index) == label_range(entries, index),
    decreases more.len(),
{
    if more.len() == 0 {
        assert(entries + more =~= entries);
    } else {
        let shorter = more.drop_last();
        assert forall|k: int| 0 <= k < shorter.len() implies (#[trigger] shorter[k]).0 > index by {
            assert(shorter[k] == more[k]);
        }
        lemma_later_ranges(entries, shorter, index);
        assert((entries + shorter).push(more.last()) =~= entries + more);
        lemma_pushed_range(entries + shorter, more.last(), index);
        assert(more[more.len() - 1] == more.last());
    }
}

/// Ranges that begin before those of a document give way to them.
proof fn lemma_earlier_ranges(
    before: Seq<(i64, PdfValue)>,
    own: Seq<(i64, PdfValue)>,
    floor: i64,
    index: i64,
)
    requires
        forall|k: int| 0 <= k < before.len() ==> (#[trigger] before[k]).0 < floor,
        forall|k: int| 0 <= k < own.len() ==> (#[trigger] own[k]).0 >= floor,
    ensures
        label_range(own, index) is Some ==> label_range(before + own, index) == label_range(
            own,
            index,
        ),
        label_range(own, index) is None ==> label_range(before + own, index) == label_range(
            before,
            index,
        ),
        label_range(own, index) matches Some(range) ==> range.0 >= floor,
        label_range(before, index) matches Some(range) ==> range.0 < floor,
    decreases own.len(),
{
    lemma_range_is_one(before, index);
    if own.len() == 0 {
        assert(before + own =~= before);
    } else {
        let shorter = own.drop_last();
        assert forall|k: int| 0 <= k < shorter.len() implies (#[trigger] shorter[k]).0 >= floor by {
            assert(shorter[k] == own[k]);
        }
        lemma_earlier_ranges(before, shorter, floor, index);
        assert((before + shorter).push(own.last()) =~= before + own);
        lemma_pushed_range(before + shorter, own.last(), index);
        assert(shorter.push(own.last()) =~= own);
        lemma_pushed_range(shorter, own.last(), index);
        assert(own[own.len() - 1] == own.last());
    }
}

proof fn lemma_range_is_one(entries: Seq<(i64, PdfValue)>, index: i64)
    ensures
        label_range(entries, index) matches Some(range) ==> entries.contains(range),
    decreases entries.len(),
{
    if entries.len() > 0 {
        lemma_range_is_one(entries.drop_last(), index);
        assert(entries[entries.len() - 1] == entries.last());
        if let Some(range) = label_range(entries.drop_last(), index) {
            let shorter = entries.drop_last();
            let k = choose|k: int| 0 <= k < shorter.len() && shorter[k] == range;
            assert(entries[k] == range);
        }
    }
}

/// Whether label ranges begin within the pages of a document.
pub open spec fn begin_within(pairs: Seq<(i64, PdfValue)>, count: int) -> bool {
    forall|k: int| 0 <= k < pairs.len() ==> 0 <= (#[trigger] pairs[k]).0 < count
}

/// Moved ranges apply to the moved pages.
proof fn lemma_shifted_range(pairs: Seq<(i64, PdfValue)>, offset: i64, count: int, index: i64)
    requires
        begin_within(pairs, count),
        0 <= offset,
        offset + count <= i64::MAX,
        0 <= index < count,
    ensures
        label_range(shifted(pairs, offset), (offset + index) as i64) == (match label_range(
            pairs,
            index,
        ) {
            Some(range) => Some(((range.0 + offset) as i64, range.1)),
            None => None,
        }),
    decreases pairs.len(),
{
    if pairs.len() > 0 {
        let shorter = pairs.drop_last();
        assert forall|k: int| 0 <= k < shorter.len() implies 0 <= (#[trigger] shorter[k]).0
            < count by {
            assert(shorter[k] == pairs[k]);
        }
        lemma_shifted_range(shorter, offset, count, index);
        lemma_range_is_one(shorter, index);
        assert(shifted(pairs, offset).drop_last() =~= shifted(shorter, offset));
        assert(pairs[pairs.len() - 1] == pairs.last());
        if let Some(range) = label_range(shorter, index) {
            let k = choose|k: int| 0 <= k < shorter.len() && shorter[k] == range;
            assert(shorter[k].0 < count);
        }
    }
}

/// Whether the documents' pages lie one behind the other from these places on.
pub open spec fn are_placed(offsets: Seq<i64>, counts: Seq<int>) -> bool {
    &&& offsets.len() == counts.len()
    &&& forall|j: int| 0 <= j < offsets.len() ==> 0 <= #[trigger] offsets[j] && 0 <= counts[j]
        && offsets[j] + counts[j] <= i64::MAX
    &&& forall|j: int, k: int|
        0 <= j < k < offsets.len() ==> #[trigger] offsets[j] + counts[j] <= #[trigger] offsets[k]
}

/// The label ranges of a document, as far as they can be read.
pub open spec fn own_labels(
    objects: Seq<(PdfId, PdfValue)>,
    catalog: Seq<(Seq<u8>, PdfValue)>,
) -> Seq<(i64, PdfValue)> {
    match dict_get(catalog, utf8("PageLabels"@)) {
        Some(tree) => match number_tree_pairs(objects, tree, TREE_LEVELS as nat) {
            Some(pairs) => pairs,
            None => Seq::empty(),
        },
        None => Seq::empty(),
    }
}

/// The ranges of the documents before come first, and those of a document lie among its own
/// pages.
proof fn lemma_one_document(
    objects: Seq<(PdfId, PdfValue)>,
    catalogs: Seq<Seq<(Seq<u8>, PdfValue)>>,
    offsets: Seq<i64>,
    counts: Seq<int>,
    notices: Seq<NoticeValue>,
)
    requires
        catalogs.len() > 0,
        catalogs.len() <= offsets.len(),
        are_placed(offsets, counts),
        begin_within(own_labels(objects, catalogs.last()), counts[catalogs.len() - 1]),
    ensures
        ({
            let offset = offsets[catalogs.len() - 1];
            let before = combined_labels(objects, catalogs.drop_last(), offsets, notices).0;
            let all = combined_labels(objects, catalogs, offsets, notices).0;
            let pairs = own_labels(objects, catalogs.last());
            let moved = shifted(pairs, offset);
            let own = all.skip(before.len() as int);
            &&& all == before + own
            &&& own == moved || own == seq![(offset, plain_label())] + moved
            &&& own == moved ==> exists|k: int|
                0 <= k < pairs.len() && (#[trigger] pairs[k]).0 == 0
            &&& forall|k: int|
                0 <= k < own.len() ==> offset <= (#[trigger] own[k]).0 && (own[k].0 < offset
                    + counts[catalogs.len() - 1] || own[k].0 == offset)
        }),
{
    let offset = offsets[catalogs.len() - 1];
    let before = combined_labels(objects, catalogs.drop_last(), offsets, notices).0;
    let all = combined_labels(objects, catalogs, offsets, notices).0;
    let pairs = own_labels(objects, catalogs.last());
    let moved = shifted(pairs, offset);
    let own = all.skip(before.len() as int);
    let plain = before.push((offset, plain_label()));
    if all == before + moved {
        assert(own =~= moved);
    } else {
        assert(all =~= plain + moved);
        assert(own =~= seq![(offset, plain_label())] + moved);
    }
    assert(all =~= before + own);
    assert forall|k: int| 0 <= k < own.len() implies offset <= (#[trigger] own[k]).0 && (own[k].0
        < offset + counts[catalogs.len() - 1] || own[k].0 == offset) by {
        if own == moved {
            assert(own[k] == (clamped_sum(pairs[k].0, offset), pairs[k].1));
        } else if k > 0 {
            assert(own[k] == moved[k - 1]);
            assert(moved[k - 1] == (clamped_sum(pairs[k - 1].0, offset), pairs[k - 1].1));
        }
    }
}

/// Every range of some documents begins before where their pages end.
proof fn lemma_all_before(
    objects: Seq<(PdfId, PdfValue)>,
    catalogs: Seq<Seq<(Seq<u8>, PdfValue)>>,
    offsets: Seq<i64>,
    counts: Seq<int>,
    notices: Seq<NoticeValue>,
    floor: i64,
)
    requires
        catalogs.len() < offsets.len(),
        are_placed(offsets, counts),
        forall|j: int| 0 <= j < catalogs.len() ==> counts[j] > 0,
        forall|j: int|
            0 <= j < catalogs.len() ==> begin_within(
                own_labels(objects, #[trigger] catalogs[j]),
                counts[j],
            ),
        floor == offsets[catalogs.len() as int],
    ensures
        forall|k: int|
            0 <= k < combined_labels(objects, catalogs, offsets, notices).0.len() ==> (
            #[trigger] combined_labels(objects, catalogs, offsets, notices).0[k]).0 < floor,
    decreases catalogs.len(),
{
    if catalogs.len() > 0 {
        let last = catalogs.len() - 1;
        let shorter = catalogs.drop_last();
        assert(begin_within(own_labels(objects, catalogs[last]), counts[last]));
        assert forall|j: int| 0 <= j < shorter.len() implies begin_within(
            own_labels(objects, #[trigger] shorter[j]),
            counts[j],
        ) by {
            assert(shorter[j] == catalogs[j]);
        }
        lemma_all_before(objects, shorter, offsets, counts, notices, offsets[last]);
        lemma_one_document(objects, catalogs, offsets, counts, notices);
        let before = combined_labels(objects, shorter, offsets, notices).0;
        let all = combined_labels(objects, catalogs, offsets, notices).0;
        let own = all.skip(before.len() as int);
        assert(offsets[last] + counts[last] <= offsets[catalogs.len() as int]);
        assert forall|k: int| 0 <= k < all.len() implies (#[trigger] all[k]).0 < floor by {
            if k < before.len() {
                assert(all[k] == before[k]);
            } else {
                assert(all[k] == own[k - before.len()]);
            }
        }
    }
}

/// The label of a page in its own document: what its range says, or a plain number counted
/// from one.
pub open spec fn is_own_label(
    pairs: Seq<(i64, PdfValue)>,
    index: i64,
    label: Option<PdfValue>,
) -> bool {
    if label_range(pairs, index) is Some {
        label == label_for_index(pairs, index)
    } else {
        label matches Some(PdfValue::Dictionary(entries)) && dict_get(entries, utf8("S"@)) == Some(
            PdfValue::Name(utf8("D"@)),
        ) && dict_get(entries, utf8("St"@)) == Some(PdfValue::Integer((index + 1) as i64))
            && dict_get(entries, utf8("P"@)) is None
    }
}

proof fn lemma_plain(offset: i64, index: i64)
    requires
        0 <= offset,
        0 <= index,
        offset + index < i64::MAX,
    ensures
        label_for_index(seq![(offset, plain_label())], (offset + index) as i64) matches Some(
            PdfValue::Dictionary(entries),
        ) && dict_get(entries, utf8("S"@)) == Some(PdfValue::Name(utf8("D"@))) && dict_get(
            entries,
            utf8("St"@),
        ) == Some(PdfValue::Integer((index + 1) as i64)) && dict_get(entries, utf8("P"@)) is None,
{
    reveal_strlit("S");
    reveal_strlit("St");
    reveal_strlit("P");
    lemma_ascii("S");
    lemma_ascii("St");
    lemma_ascii("P");
    assert(utf8("S"@).len() == 1);
    assert(utf8("St"@).len() == 2);
    assert(utf8("P"@).len() == 1);
    assert(utf8("S"@)[0] == 0x53);
    assert(utf8("P"@)[0] == 0x50);
    let none = Seq::<(Seq<u8>, PdfValue)>::empty();
    let decimal = PdfValue::Name(utf8("D"@));
    storing_a_value(none, utf8("S"@), decimal, utf8("S"@));
    storing_a_value(none, utf8("S"@), decimal, utf8("St"@));
    storing_a_value(none, utf8("S"@), decimal, utf8("P"@));
    assert(dict_get(none, utf8("St"@)) is None);
    assert(dict_get(none, utf8("P"@)) is None);
    let entries = dict_set(none, utf8("S"@), decimal);
    let number = PdfValue::Integer((index + 1) as i64);
    storing_a_value(entries, utf8("St"@), number, utf8("S"@));
    storing_a_value(entries, utf8("St"@), number, utf8("P"@));
    let one = seq![(offset, plain_label())];
    assert(one.drop_last() =~= Seq::empty());
    assert(one.last() == (offset, plain_label()));
    assert(label_range(one.drop_last(), (offset + index) as i64) is None);
    assert(label_range(one, (offset + index) as i64) == Some((offset, plain_label())));
}

/// The label of a page depends on the range that applies to it alone.
proof fn lemma_same_range(
    left: Seq<(i64, PdfValue)>,
    at: i64,
    right: Seq<(i64, PdfValue)>,
    index: i64,
    offset: i64,
    range: (i64, PdfValue),
)
    requires
        at == index + offset,
        0 <= range.0 <= index,
        0 <= offset,
        label_range(right, index) == Some(range),
        label_range(left, at) == Some(((range.0 + offset) as i64, range.1)),
    ensures
        label_for_index(left, at) == label_for_index(right, index),
{
}

/// In the combined document every page has the label that it had in its own: the ranges of its
/// own document apply to it, counted from where its pages begin, and a page without a label is
/// numbered plainly from one.
pub proof fn merged_pages_keep_their_labels(
    objects: Seq<(PdfId, PdfValue)>,
    catalogs: Seq<Seq<(Seq<u8>, PdfValue)>>,
    offsets: Seq<i64>,
    counts: Seq<int>,
    notices: Seq<NoticeValue>,
    j: int,
    index: i64,
)
    requires
        catalogs.len() == offsets.len(),
        are_placed(offsets, counts),
        forall|k: int| 0 <= k < catalogs.len() ==> #[trigger] counts[k] > 0,
        forall|k: int|
            0 <= k < catalogs.len() ==> begin_within(
                own_labels(objects, #[trigger] catalogs[k]),
                counts[k],
            ),
        exists|k: int|
            0 <= k < catalogs.len() && dict_has(#[trigger] catalogs[k], utf8("PageLabels"@)),
        0 <= j < catalogs.len(),
        0 <= index < counts[j],
    ensures
        merged_labels(objects, catalogs, offsets, notices).0 matches Some(tree)
            && number_tree_pairs(objects, tree, TREE_LEVELS as nat) matches Some(read)
            && is_own_label(
            own_labels(objects, catalogs[j]),
            index,
            label_for_index(read, (offsets[j] + index) as i64),
        ),
{
    let all = combined_labels(objects, catalogs, offsets, notices).0;
    written_number_tree_is_read_back(objects, all, TREE_LEVELS as nat);
    let at = (offsets[j] + index) as i64;
    assert(counts[j] > 0);
    lemma_sorted_range(all, at);
    lemma_from_its_document(objects, catalogs, offsets, counts, notices, j, index);
    assert(label_for_index(sorted_number(all), at) == label_for_index(all, at));
}

proof fn lemma_from_its_document(
    objects: Seq<(PdfId, PdfValue)>,
    catalogs: Seq<Seq<(Seq<u8>, PdfValue)>>,
    offsets: Seq<i64>,
    counts: Seq<int>,
    notices: Seq<NoticeValue>,
    j: int,
    index: i64,
)
    requires
        catalogs.len() <= offsets.len(),
        are_placed(offsets, counts),
        forall|k: int| 0 <= k < catalogs.len() ==> #[trigger] counts[k] > 0,
        forall|k: int|
            0 <= k < catalogs.len() ==> begin_within(
                own_labels(objects, #[trigger] catalogs[k]),
                counts[k],
            ),
        0 <= j < catalogs.len(),
        0 <= index < counts[j],
    ensures
        is_own_label(
            own_labels(objects, catalogs[j]),
            index,
            label_for_index(
                combined_labels(objects, catalogs, offsets, notices).0,
                (offsets[j] + index) as i64,
            ),
        ),
    decreases catalogs.len(),
{
    let last = catalogs.len() - 1;
    let shorter = catalogs.drop_last();
    let at = (offsets[j] + index) as i64;
    let all = combined_labels(objects, catalogs, offsets, notices).0;
    let before = combined_labels(objects, shorter, offsets, notices).0;
    let own = all.skip(before.len() as int);
    assert(counts[last] > 0);
    assert(begin_within(own_labels(objects, catalogs[last]), counts[last]));
    assert forall|k: int| 0 <= k < shorter.len() implies begin_within(
        own_labels(objects, #[trigger] shorter[k]),
        counts[k],
    ) by {
        assert(shorter[k] == catalogs[k]);
    }
    lemma_one_document(objects, catalogs, offsets, counts, notices);
    if j < last {
        lemma_from_its_document(objects, shorter, offsets, counts, notices, j, index);
        assert(shorter[j] == catalogs[j]);
        assert(offsets[j] + counts[j] <= offsets[last]);
        assert forall|k: int| 0 <= k < own.len() implies (#[trigger] own[k]).0 > at by {}
        lemma_later_ranges(before, own, at);
        assert(label_for_index(all, at) == label_for_index(before, at));
    } else {
        let offset = offsets[last];
        let pairs = own_labels(objects, catalogs[last]);
        let moved = shifted(pairs, offset);
        assert forall|k: int| 0 <= k < shorter.len() implies counts[k] > 0 by {}
        lemma_all_before(objects, shorter, offsets, counts, notices, offset);
        lemma_earlier_ranges(before, own, offset, at);
        lemma_shifted_range(pairs, offset, counts[last], index);
        lemma_range_is_one(pairs, index);
        let plain = seq![(offset, plain_label())];
        lemma_plain(offset, index);
        if label_range(pairs, index) is Some {
            let range = label_range(pairs, index)->0;
            let k = choose|k: int| 0 <= k < pairs.len() && pairs[k] == range;
            assert(0 <= pairs[k].0 < counts[last]);
            lemma_range_below(pairs, index);
            if own != moved {
                lemma_front_range(offset, plain_label(), moved, at);
            }
            assert(label_range(own, at) == label_range(moved, at));
            lemma_same_range(all, at, pairs, index, offset, range);
        } else {
            if own == moved {
                let k = choose|k: int| 0 <= k < pairs.len() && (#[trigger] pairs[k]).0 == 0;
                lemma_range_found(pairs, index, k);
            }
            lemma_front_range(offset, plain_label(), moved, at);
            assert(plain.drop_last() =~= Seq::empty());
            assert(label_range(plain.drop_last(), at) is None);
            assert(label_range(plain, at) == Some((offset, plain_label())));
            assert(label_range(own, at) == label_range(plain, at));
            assert(label_for_index(all, at) == label_for_index(plain, at));
        }
    }
}

proof fn lemma_range_below(entries: Seq<(i64, PdfValue)>, index: i64)
    ensures
        label_range(entries, index) matches Some(range) ==> range.0 <= index,
    decreases entries.len(),
{
    if entries.len() > 0 {
        lemma_range_below(entries.drop_last(), index);
    }
}

proof fn lemma_range_found(entries: Seq<(i64, PdfValue)>, index: i64, k: int)
    requires
        0 <= k < entries.len(),
        entries[k].0 <= index,
    ensures
        label_range(entries, index) is Some,
    decreases entries.len(),
{
    if k < entries.len() - 1 {
        assert(entries.drop_last()[k] == entries[k]);
        lemma_range_found(entries.drop_last(), index, k);
    }
}

/// A range in front of others that begin no earlier applies where none of them does.
proof fn lemma_front_range(
    start: i64,
    label: PdfValue,
    more: Seq<(i64, PdfValue)>,
    index: i64,
)
    requires
        start <= index,
        forall|k: int| 0 <= k < more.len() ==> (#[trigger] more[k]).0 >= start,
    ensures
        label_range(seq![(start, label)] + more, index) == (match label_range(more, index) {
            Some(range) => Some(range),
            None => Some((start, label)),
        }),
    decreases more.len(),
{
    let front = seq![(start, label)];
    if more.len() == 0 {
        assert(front + more =~= front);
        assert(front.drop_last() =~= Seq::empty());
        assert(label_range(front.drop_last(), index) is None);
    } else {
        let shorter = more.drop_last();
        assert forall|k: int| 0 <= k < shorter.len() implies (#[trigger] shorter[k]).0 >= start by {
            assert(shorter[k] == more[k]);
        }
        lemma_front_range(start, label, shorter, index);
        assert((front + shorter).push(more.last()) =~= front + more);
        lemma_pushed_range(front + shorter, more.last(), index);
        assert(shorter.push(more.last()) =~= more);
        lemma_pushed_range(shorter, more.last(), index);
        assert(more[more.len() - 1] == more.last());
    }
}

} // verus!
