//! What holds between writing a name or number tree and reading it.

use vstd::prelude::*;

use crate::bytes::{lemma_ascii, utf8};
use crate::pdf::laws::storing_a_value;
use crate::pdf::model::{dict_get, dict_set, resolved_array, resolved_dict, PdfId, PdfValue};
use crate::pdf::trees::{
    alternating_name, alternating_number, insert_number, name_kids_pairs, name_pairs,
    name_tree_pairs, name_tree_value, number_kids_pairs, number_pairs, number_tree_pairs,
    number_tree_value, sorted_name, sorted_number,
};

verus! {

proof fn lemma_leaf_keys()
    ensures
        utf8("Names"@) != utf8("Kids"@),
        utf8("Nums"@) != utf8("Kids"@),
{
    reveal_strlit("Names");
    reveal_strlit("Nums");
    reveal_strlit("Kids");
    lemma_ascii("Names");
    lemma_ascii("Nums");
    lemma_ascii("Kids");
    assert(utf8("Names"@).len() == 5);
    assert(utf8("Nums"@)[0] == 0x4e);
    assert(utf8("Kids"@)[0] == 0x4b);
}

proof fn lemma_name_leaf(objects: Seq<(PdfId, PdfValue)>, pairs: Seq<(Seq<u8>, PdfValue)>)
    ensures
        alternating_name(pairs).len() == 2 * pairs.len(),
        name_pairs(objects, alternating_name(pairs)) == Some(pairs),
    decreases pairs.len(),
{
    if pairs.len() == 0 {
        assert(pairs =~= Seq::empty());
    } else {
        let items = alternating_name(pairs);
        let shorter = pairs.drop_last();
        lemma_name_leaf(objects, shorter);
        assert(items.take(items.len() - 2) =~= alternating_name(shorter));
        assert(shorter.push(pairs.last()) =~= pairs);
    }
}

proof fn lemma_number_leaf(objects: Seq<(PdfId, PdfValue)>, pairs: Seq<(i64, PdfValue)>)
    ensures
        alternating_number(pairs).len() == 2 * pairs.len(),
        number_pairs(objects, alternating_number(pairs)) == Some(pairs),
    decreases pairs.len(),
{
    if pairs.len() == 0 {
        assert(pairs =~= Seq::empty());
    } else {
        let items = alternating_number(pairs);
        let shorter = pairs.drop_last();
        lemma_number_leaf(objects, shorter);
        assert(items.take(items.len() - 2) =~= alternating_number(shorter));
        assert(shorter.push(pairs.last()) =~= pairs);
    }
}

/// A name tree that was written is read back as the pairs it was written from, in
/// the order of their keys.
pub proof fn written_name_tree_is_read_back(
    objects: Seq<(PdfId, PdfValue)>,
    pairs: Seq<(Seq<u8>, PdfValue)>,
    left: nat,
)
    requires
        left > 0,
    ensures
        name_tree_pairs(objects, name_tree_value(pairs), left) == Some(sorted_name(pairs)),
{
    let leaf = PdfValue::Array(alternating_name(sorted_name(pairs)));
    let entries = dict_set(Seq::empty(), utf8("Names"@), leaf);
    lemma_leaf_keys();
    lemma_name_leaf(objects, sorted_name(pairs));
    storing_a_value(Seq::empty(), utf8("Names"@), leaf, utf8("Kids"@));
    assert(dict_get(Seq::empty(), utf8("Kids"@)) is None);
    assert(resolved_dict(objects, Some(name_tree_value(pairs))) == Some(entries));
    assert(resolved_array(objects, Some(leaf)) == Some(alternating_name(sorted_name(pairs))));
    assert(sorted_name(pairs) + Seq::<(Seq<u8>, PdfValue)>::empty() =~= sorted_name(pairs));
}

/// A number tree that was written is read back as the pairs it was written from,
/// in the order of their keys.
pub proof fn written_number_tree_is_read_back(
    objects: Seq<(PdfId, PdfValue)>,
    pairs: Seq<(i64, PdfValue)>,
    left: nat,
)
    requires
        left > 0,
    ensures
        number_tree_pairs(objects, number_tree_value(pairs), left) == Some(sorted_number(pairs)),
{
    let leaf = PdfValue::Array(alternating_number(sorted_number(pairs)));
    let entries = dict_set(Seq::empty(), utf8("Nums"@), leaf);
    lemma_leaf_keys();
    lemma_number_leaf(objects, sorted_number(pairs));
    storing_a_value(Seq::empty(), utf8("Nums"@), leaf, utf8("Kids"@));
    assert(dict_get(Seq::empty(), utf8("Kids"@)) is None);
    assert(resolved_dict(objects, Some(number_tree_value(pairs))) == Some(entries));
    assert(resolved_array(objects, Some(leaf)) == Some(alternating_number(sorted_number(pairs))));
    assert(sorted_number(pairs) + Seq::<(i64, PdfValue)>::empty() =~= sorted_number(pairs));
}

/// Whether no key is below one before it.
pub open spec fn is_ascending(pairs: Seq<(i64, PdfValue)>) -> bool {
    forall|i: int, j: int|
        0 <= i < j < pairs.len() ==> (#[trigger] pairs[i]).0 <= (#[trigger] pairs[j]).0
}

proof fn lemma_inserted(sorted: Seq<(i64, PdfValue)>, pair: (i64, PdfValue))
    requires
        is_ascending(sorted),
    ensures
        is_ascending(insert_number(sorted, pair)),
        insert_number(sorted, pair).to_multiset() == sorted.to_multiset().insert(pair),
        forall|i: int|
            0 <= i < insert_number(sorted, pair).len() ==> (#[trigger] insert_number(
                sorted,
                pair,
            )[i]).0 <= pair.0 || (sorted.len() > 0 && insert_number(sorted, pair)[i].0
                <= sorted.last().0),
    decreases sorted.len(),
{
    broadcast use vstd::seq_lib::group_to_multiset_ensures;

    let inserted = insert_number(sorted, pair);
    if sorted.len() == 0 {
        assert(inserted =~= sorted.push(pair));
    } else if pair.0 < sorted.last().0 {
        let shorter = sorted.drop_last();
        lemma_inserted(shorter, pair);
        assert(shorter.push(sorted.last()) =~= sorted);
        assert(sorted.to_multiset() =~= shorter.to_multiset().insert(sorted.last()));
        assert(inserted.to_multiset() =~= insert_number(shorter, pair).to_multiset().insert(
            sorted.last(),
        ));
        assert(inserted.to_multiset() =~= sorted.to_multiset().insert(pair));
        if shorter.len() > 0 {
            assert(shorter.last() == sorted[shorter.len() - 1]);
        }
    }
}

/// Sorting loses no pair and adds none, and leaves the keys in ascending order.
pub proof fn sorting_keeps_every_pair(pairs: Seq<(i64, PdfValue)>)
    ensures
        sorted_number(pairs).to_multiset() == pairs.to_multiset(),
        is_ascending(sorted_number(pairs)),
    decreases pairs.len(),
{
    broadcast use vstd::seq_lib::group_to_multiset_ensures;

    if pairs.len() > 0 {
        let shorter = pairs.drop_last();
        sorting_keeps_every_pair(shorter);
        lemma_inserted(sorted_number(shorter), pairs.last());
        assert(shorter.push(pairs.last()) =~= pairs);
        assert(pairs.to_multiset() =~= shorter.to_multiset().insert(pairs.last()));
    }
}

/// What several branches of a name tree hold is what the first of them hold and then what the
/// rest hold.
pub proof fn name_branches_are_read_in_order(
    objects: Seq<(PdfId, PdfValue)>,
    first: Seq<PdfValue>,
    rest: Seq<PdfValue>,
    left: nat,
)
    ensures
        name_kids_pairs(objects, first + rest, left) == (match (
            name_kids_pairs(objects, first, left),
            name_kids_pairs(objects, rest, left),
        ) {
            (Some(early), Some(late)) => Some(early + late),
            _ => None,
        }),
        rest.len() == 1 ==> name_kids_pairs(objects, rest, left) == name_tree_pairs(
            objects,
            rest[0],
            left,
        ),
    decreases rest.len(),
{
    let none = Seq::<(Seq<u8>, PdfValue)>::empty();
    if rest.len() == 0 {
        assert(first + rest =~= first);
        if let Some(early) = name_kids_pairs(objects, first, left) {
            assert(early + none =~= early);
        }
    } else {
        let shorter = rest.drop_last();
        assert((first + rest).drop_last() =~= first + shorter);
        assert((first + rest).last() == rest.last());
        name_branches_are_read_in_order(objects, first, shorter, left);
        if let (Some(early), Some(middle), Some(late)) = (
            name_kids_pairs(objects, first, left),
            name_kids_pairs(objects, shorter, left),
            name_tree_pairs(objects, rest.last(), left),
        ) {
            assert(early + middle + late =~= early + (middle + late));
        }
        if rest.len() == 1 {
            assert(name_kids_pairs(objects, shorter, left) == Some(none));
            if let Some(late) = name_tree_pairs(objects, rest[0], left) {
                assert(none + late =~= late);
            }
        }
    }
}

/// A node of a name tree that has branches and no names of its own holds what its branches
/// hold.
pub proof fn name_nodes_hold_their_branches(
    objects: Seq<(PdfId, PdfValue)>,
    entries: Seq<(Seq<u8>, PdfValue)>,
    kids: Seq<PdfValue>,
    left: nat,
)
    requires
        left > 0,
        dict_get(entries, utf8("Names"@)) is None,
        dict_get(entries, utf8("Kids"@)) == Some(PdfValue::Array(kids)),
    ensures
        name_tree_pairs(objects, PdfValue::Dictionary(entries), left) == name_kids_pairs(
            objects,
            kids,
            (left - 1) as nat,
        ),
{
    assert(resolved_dict(objects, Some(PdfValue::Dictionary(entries))) == Some(entries));
    assert(resolved_array(objects, Some(PdfValue::Array(kids))) == Some(kids));
    if let Some(pairs) = name_kids_pairs(objects, kids, (left - 1) as nat) {
        assert(Seq::<(Seq<u8>, PdfValue)>::empty() + pairs =~= pairs);
    }
}

/// What several branches of a number tree hold is what the first of them hold and then what
/// the rest hold.
pub proof fn number_branches_are_read_in_order(
    objects: Seq<(PdfId, PdfValue)>,
    first: Seq<PdfValue>,
    rest: Seq<PdfValue>,
    left: nat,
)
    ensures
        number_kids_pairs(objects, first + rest, left) == (match (
            number_kids_pairs(objects, first, left),
            number_kids_pairs(objects, rest, left),
        ) {
            (Some(early), Some(late)) => Some(early + late),
            _ => None,
        }),
        rest.len() == 1 ==> number_kids_pairs(objects, rest, left) == number_tree_pairs(
            objects,
            rest[0],
            left,
        ),
    decreases rest.len(),
{
    let none = Seq::<(i64, PdfValue)>::empty();
    if rest.len() == 0 {
        assert(first + rest =~= first);
        if let Some(early) = number_kids_pairs(objects, first, left) {
            assert(early + none =~= early);
        }
    } else {
        let shorter = rest.drop_last();
        assert((first + rest).drop_last() =~= first + shorter);
        assert((first + rest).last() == rest.last());
        number_branches_are_read_in_order(objects, first, shorter, left);
        if let (Some(early), Some(middle), Some(late)) = (
            number_kids_pairs(objects, first, left),
            number_kids_pairs(objects, shorter, left),
            number_tree_pairs(objects, rest.last(), left),
        ) {
            assert(early + middle + late =~= early + (middle + late));
        }
        if rest.len() == 1 {
            assert(number_kids_pairs(objects, shorter, left) == Some(none));
            if let Some(late) = number_tree_pairs(objects, rest[0], left) {
                assert(none + late =~= late);
            }
        }
    }
}

/// A node of a number tree that has branches and no numbers of its own holds what its branches
/// hold.
pub proof fn number_nodes_hold_their_branches(
    objects: Seq<(PdfId, PdfValue)>,
    entries: Seq<(Seq<u8>, PdfValue)>,
    kids: Seq<PdfValue>,
    left: nat,
)
    requires
        left > 0,
        dict_get(entries, utf8("Nums"@)) is None,
        dict_get(entries, utf8("Kids"@)) == Some(PdfValue::Array(kids)),
    ensures
        number_tree_pairs(objects, PdfValue::Dictionary(entries), left) == number_kids_pairs(
            objects,
            kids,
            (left - 1) as nat,
        ),
{
    assert(resolved_dict(objects, Some(PdfValue::Dictionary(entries))) == Some(entries));
    assert(resolved_array(objects, Some(PdfValue::Array(kids))) == Some(kids));
    if let Some(pairs) = number_kids_pairs(objects, kids, (left - 1) as nat) {
        assert(Seq::<(i64, PdfValue)>::empty() + pairs =~= pairs);
    }
}

} // verus!
