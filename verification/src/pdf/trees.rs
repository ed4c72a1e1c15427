//! Name trees and number trees: flattening them into ordered pairs and building
//! single-node trees from pairs.

use vstd::prelude::*;

use crate::bytes::{bytes_less, copy_bytes, is_bytes_less, utf8};
use crate::pdf::model::{
    array_value, copy_object, resolve, resolve_array, resolve_dictionary, resolved, resolved_array,
    resolved_dict, dict_get, dict_set, table_value, PdfDictionary, PdfId, PdfObject, PdfValue,
    TextFormat,
};

verus! {

/// How many levels of a tree are read before it counts as too deep.
pub const TREE_LEVELS: u32 = 33;

/// Named pairs by their values.
pub open spec fn named_values(pairs: Seq<(Vec<u8>, PdfObject)>) -> Seq<(Seq<u8>, PdfValue)> {
    pairs.map_values(|pair: (Vec<u8>, PdfObject)| (pair.0@, pair.1@))
}

/// The pairs of a leaf, whose array alternates keys and values. `None` when the
/// array has an odd length or a key is no string.
pub open spec fn name_pairs(
    objects: Seq<(PdfId, PdfValue)>,
    items: Seq<PdfValue>,
) -> Option<Seq<(Seq<u8>, PdfValue)>>
    decreases items.len(),
{
    if items.len() == 0 {
        Some(Seq::empty())
    } else if items.len() == 1 {
        None
    } else {
        let before = name_pairs(objects, items.take(items.len() - 2));
        let key = resolved(objects, items[items.len() - 2]);
        match (before, key) {
            (Some(pairs), Some(PdfValue::Text(key_name, _))) => Some(
                pairs.push((key_name, items.last())),
            ),
            _ => None,
        }
    }
}

/// The pairs of a name tree, in order. `None` when the tree is malformed or
/// deeper than `left` levels.
pub open spec fn name_tree_pairs(
    objects: Seq<(PdfId, PdfValue)>,
    node: PdfValue,
    left: nat,
) -> Option<Seq<(Seq<u8>, PdfValue)>>
    decreases left, 0nat,
{
    if left == 0 {
        None
    } else {
        match resolved_dict(objects, Some(node)) {
            Some(entries) => {
                let leaves = dict_get(entries, utf8("Names"@));
                let kids = dict_get(entries, utf8("Kids"@));
                let own = match leaves {
                    Some(_) => match resolved_array(objects, leaves) {
                        Some(items) => name_pairs(objects, items),
                        None => None,
                    },
                    None => Some(Seq::empty()),
                };
                let below = match kids {
                    Some(_) => match resolved_array(objects, kids) {
                        Some(items) => name_kids_pairs(objects, items, (left - 1) as nat),
                        None => None,
                    },
                    None => Some(Seq::empty()),
                };
                if leaves is None && kids is None {
                    None
                } else {
                    match (own, below) {
                        (Some(first), Some(below_pairs)) => Some(first + below_pairs),
                        _ => None,
                    }
                }
            },
            None => None,
        }
    }
}

/// The pairs of several subtrees, one after the other.
pub open spec fn name_kids_pairs(
    objects: Seq<(PdfId, PdfValue)>,
    kids: Seq<PdfValue>,
    left: nat,
) -> Option<Seq<(Seq<u8>, PdfValue)>>
    decreases left, kids.len() + 1,
{
    if kids.len() == 0 {
        Some(Seq::empty())
    } else {
        match (name_kids_pairs(objects, kids.drop_last(), left), name_tree_pairs(objects, kids.last(), left)) {
            (Some(first), Some(below_pairs)) => Some(first + below_pairs),
            _ => None,
        }
    }
}

proof fn lemma_name_pairs_prefix(
    objects: Seq<(PdfId, PdfValue)>,
    items: Seq<PdfValue>,
    length: int,
)
    requires
        0 <= length <= items.len(),
        (items.len() - length) % 2 == 0,
        name_pairs(objects, items.take(length)) is None,
    ensures
        name_pairs(objects, items) is None,
    decreases items.len(),
{
    if length == items.len() {
        assert(items.take(length) =~= items);
    } else {
        let shorter = items.take(items.len() - 2);
        assert(shorter.take(length) =~= items.take(length));
        lemma_name_pairs_prefix(objects, shorter, length);
    }
}

proof fn lemma_name_pairs_odd(objects: Seq<(PdfId, PdfValue)>, items: Seq<PdfValue>)
    requires
        items.len() % 2 == 1,
    ensures
        name_pairs(objects, items) is None,
    decreases items.len(),
{
    if items.len() > 1 {
        lemma_name_pairs_odd(objects, items.take(items.len() - 2));
    }
}

proof fn lemma_name_kids_pairs_prefix(
    objects: Seq<(PdfId, PdfValue)>,
    kids: Seq<PdfValue>,
    length: int,
    left: nat,
)
    requires
        0 <= length <= kids.len(),
        name_kids_pairs(objects, kids.take(length), left) is None,
    ensures
        name_kids_pairs(objects, kids, left) is None,
    decreases kids.len(),
{
    if length == kids.len() {
        assert(kids.take(length) =~= kids);
    } else {
        let shorter = kids.drop_last();
        assert(shorter.take(length) =~= kids.take(length));
        lemma_name_kids_pairs_prefix(objects, shorter, length, left);
    }
}

fn read_name_leaf(
    objects: &Vec<(PdfId, PdfObject)>,
    items: &Vec<PdfObject>,
    output: &mut Vec<(Vec<u8>, PdfObject)>,
) -> (usable: bool)
    ensures
        match name_pairs(table_value(objects@), array_value(items@)) {
            Some(pairs) => usable && named_values(final(output)@) == named_values(old(output)@) + pairs,
            None => !usable,
        },
{
    let ghost table = table_value(objects@);
    let ghost all = array_value(items@);
    if items.len() % 2 != 0 {
        proof {
            lemma_name_pairs_odd(table, all);
        }
        return false;
    }
    let mut i: usize = 0;
    assert(named_values(output@) =~= named_values(old(output)@) + Seq::<(Seq<u8>, PdfValue)>::empty());
    while i < items.len()
        invariant
            i <= items@.len(),
            i % 2 == 0,
            items@.len() % 2 == 0,
            table == table_value(objects@),
            all == array_value(items@),
            name_pairs(table, all.take(i as int)) matches Some(pairs) && named_values(output@) == named_values(
                old(output)@,
            ) + pairs,
        decreases items.len() - i,
    {
        let ghost next = all.take(i + 2);
        let ghost before = named_values(output@);
        proof {
            assert(next.take(next.len() - 2) =~= all.take(i as int));
            assert(next[next.len() - 2] == items@[i as int]@);
            assert(next.last() == items@[i + 1]@);
        }
        match resolve(objects, &items[i]) {
            Some(PdfObject::Text(key, _)) => {
                output.push((copy_bytes(key), copy_object(&items[i + 1])));
                proof {
                    let pushed = (key@, items@[i + 1]@);
                    assert(named_values(output@) =~= before.push(pushed));
                    let pairs = name_pairs(table, next)->0;
                    assert(named_values(output@) =~= named_values(old(output)@) + pairs);
                }
            },
            _ => {
                proof {
                    lemma_name_pairs_prefix(table, all, i + 2);
                }
                return false;
            },
        }
        i += 2;
    }
    assert(all.take(all.len() as int) =~= all);
    true
}

fn read_name_kids(
    objects: &Vec<(PdfId, PdfObject)>,
    items: &Vec<PdfObject>,
    output: &mut Vec<(Vec<u8>, PdfObject)>,
    left: u32,
) -> (usable: bool)
    ensures
        match name_kids_pairs(table_value(objects@), array_value(items@), left as nat) {
            Some(pairs) => usable && named_values(final(output)@) == named_values(old(output)@) + pairs,
            None => !usable,
        },
    decreases left, 1nat,
{
    let ghost table = table_value(objects@);
    let ghost all = array_value(items@);
    let ghost own = named_values(output@);
    let mut i: usize = 0;
    assert(own =~= own + Seq::<(Seq<u8>, PdfValue)>::empty());
    while i < items.len()
        invariant
            i <= items@.len(),
            table == table_value(objects@),
            all == array_value(items@),
            name_kids_pairs(table, all.take(i as int), left as nat) matches Some(pairs) && named_values(
                output@,
            ) == own + pairs,
        decreases items.len() - i,
    {
        let ghost next = all.take(i + 1);
        proof {
            assert(next.drop_last() =~= all.take(i as int));
            assert(next.last() == items@[i as int]@);
        }
        if !flatten_name_tree(objects, &items[i], output, left) {
            proof {
                lemma_name_kids_pairs_prefix(table, all, i + 1, left as nat);
            }
            return false;
        }
        proof {
            let pairs = name_kids_pairs(table, next, left as nat)->0;
            assert(named_values(output@) =~= own + pairs);
        }
        i += 1;
    }
    assert(all.take(all.len() as int) =~= all);
    true
}

/// Flatten a PDF name tree (`/Names` leaves, `/Kids` branches) into ordered
/// key/value pairs. Returns false when the tree is malformed or too deep, so
/// callers can fall back instead of inventing entries.
pub fn flatten_name_tree(
    objects: &Vec<(PdfId, PdfObject)>,
    node: &PdfObject,
    output: &mut Vec<(Vec<u8>, PdfObject)>,
    left: u32,
) -> (usable: bool)
    ensures
        match name_tree_pairs(table_value(objects@), node@, left as nat) {
            Some(pairs) => usable && named_values(final(output)@) == named_values(old(output)@) + pairs,
            None => !usable,
        },
    decreases left, 0nat,
{
    let ghost table = table_value(objects@);
    if left == 0 {
        return false;
    }
    match resolve_dictionary(objects, Some(node)) {
        Some(dictionary) => {
            let leaves = dictionary.get("Names");
            let kids = dictionary.get("Kids");
            if leaves.is_none() && kids.is_none() {
                return false;
            }
            assert(named_values(output@) =~= named_values(old(output)@) + Seq::<(Seq<u8>, PdfValue)>::empty());
            if leaves.is_some() {
                match resolve_array(objects, leaves) {
                    Some(items) => {
                        if !read_name_leaf(objects, items, output) {
                            return false;
                        }
                    },
                    None => {
                        return false;
                    },
                }
            }
            let ghost own = named_values(output@);
            if kids.is_some() {
                match resolve_array(objects, kids) {
                    Some(items) => {
                        if !read_name_kids(objects, items, output, left - 1) {
                            return false;
                        }
                    },
                    None => {
                        return false;
                    },
                }
            }
            proof {
                let pairs = name_tree_pairs(table, node@, left as nat)->0;
                assert(named_values(output@) =~= named_values(old(output)@) + pairs);
            }
            true
        },
        None => false,
    }
}

/// Put a pair behind every pair whose key is not above its own.
pub open spec fn insert_name(
    sorted: Seq<(Seq<u8>, PdfValue)>,
    pair: (Seq<u8>, PdfValue),
) -> Seq<(Seq<u8>, PdfValue)>
    decreases sorted.len(),
{
    if sorted.len() == 0 {
        seq![pair]
    } else if bytes_less(pair.0, sorted.last().0) {
        insert_name(sorted.drop_last(), pair).push(sorted.last())
    } else {
        sorted.push(pair)
    }
}

/// Pairs in ascending order of their keys; equal keys keep their order.
pub open spec fn sorted_name(pairs: Seq<(Seq<u8>, PdfValue)>) -> Seq<(Seq<u8>, PdfValue)>
    decreases pairs.len(),
{
    if pairs.len() == 0 {
        pairs
    } else {
        insert_name(sorted_name(pairs.drop_last()), pairs.last())
    }
}

/// Keys and values in turn.
pub open spec fn alternating_name(pairs: Seq<(Seq<u8>, PdfValue)>) -> Seq<PdfValue>
    decreases pairs.len(),
{
    if pairs.len() == 0 {
        Seq::empty()
    } else {
        alternating_name(pairs.drop_last()).push(PdfValue::Text(pairs.last().0, TextFormat::Literal)).push(pairs.last().1)
    }
}

/// A single-node name tree that holds these pairs in key order.
pub open spec fn name_tree_value(pairs: Seq<(Seq<u8>, PdfValue)>) -> PdfValue {
    PdfValue::Dictionary(
        dict_set(
            Seq::empty(),
            utf8("Names"@),
            PdfValue::Array(alternating_name(sorted_name(pairs))),
        ),
    )
}

proof fn lemma_insert_name(
    sorted: Seq<(Seq<u8>, PdfValue)>,
    pair: (Seq<u8>, PdfValue),
    place: int,
)
    requires
        0 <= place <= sorted.len(),
        forall|j: int| place <= j < sorted.len() ==> #[trigger] bytes_less(pair.0, sorted[j].0),
        place > 0 ==> !(bytes_less(pair.0, sorted[place - 1].0)),
    ensures
        insert_name(sorted, pair) == sorted.insert(place, pair),
    decreases sorted.len(),
{
    if sorted.len() == 0 {
        assert(sorted.insert(place, pair) =~= seq![pair]);
    } else if place == sorted.len() {
        assert(sorted.insert(place, pair) =~= sorted.push(pair));
    } else {
        assert(sorted[sorted.len() - 1] == sorted.last());
        let shorter = sorted.drop_last();
        lemma_insert_name(shorter, pair, place);
        assert(sorted.insert(place, pair) =~= shorter.insert(place, pair).push(sorted.last()));
    }
}

fn sort_name_pairs(pairs: Vec<(Vec<u8>, PdfObject)>) -> (sorted: Vec<(Vec<u8>, PdfObject)>)
    ensures
        named_values(sorted@) == sorted_name(named_values(pairs@)),
{
    let ghost values = named_values(pairs@);
    let mut sorted: Vec<(Vec<u8>, PdfObject)> = Vec::new();
    assert(named_values(sorted@) =~= sorted_name(values.take(0)));
    let mut i: usize = 0;
    while i < pairs.len()
        invariant
            i <= pairs@.len(),
            values == named_values(pairs@),
            named_values(sorted@) == sorted_name(values.take(i as int)),
        decreases pairs.len() - i,
    {
        let ghost before = named_values(sorted@);
        let ghost pair = values[i as int];
        let mut place: usize = sorted.len();
        while place > 0 && is_bytes_less(&pairs[i].0, &sorted[place - 1].0)
            invariant
                i < pairs@.len(),
                place <= sorted@.len(),
                before == named_values(sorted@),
                values == named_values(pairs@),
                pair == values[i as int],
                forall|j: int| place <= j < before.len() ==> #[trigger] bytes_less(pair.0, before[j].0),
            decreases place,
        {
            place -= 1;
        }
        sorted.insert(place, (copy_bytes(&pairs[i].0), copy_object(&pairs[i].1)));
        proof {
            lemma_insert_name(before, pair, place as int);
            assert(named_values(sorted@) =~= before.insert(place as int, pair));
            assert(values.take(i + 1).drop_last() =~= values.take(i as int));
        }
        i += 1;
    }
    assert(values.take(values.len() as int) =~= values);
    sorted
}

/// Build a single-node name tree holding every pair in ascending key order.
pub fn name_tree(pairs: Vec<(Vec<u8>, PdfObject)>) -> (tree: PdfObject)
    ensures
        tree@ == name_tree_value(named_values(pairs@)),
{
    let sorted = sort_name_pairs(pairs);
    let ghost values = named_values(sorted@);
    let mut items: Vec<PdfObject> = Vec::new();
    assert(array_value(items@) =~= alternating_name(values.take(0)));
    let mut i: usize = 0;
    while i < sorted.len()
        invariant
            i <= sorted@.len(),
            values == named_values(sorted@),
            array_value(items@) == alternating_name(values.take(i as int)),
        decreases sorted.len() - i,
    {
        let ghost before = array_value(items@);
        items.push(PdfObject::Text(copy_bytes(&sorted[i].0), TextFormat::Literal));
        items.push(copy_object(&sorted[i].1));
        proof {
            let next = values.take(i + 1);
            assert(next.drop_last() =~= values.take(i as int));
            assert(array_value(items@) =~= alternating_name(next));
        }
        i += 1;
    }
    assert(values.take(values.len() as int) =~= values);
    let mut dictionary = PdfDictionary::empty();
    dictionary.set("Names", PdfObject::Array(items));
    PdfObject::Dictionary(dictionary)
}

/// Numbered pairs by their values.
pub open spec fn numbered_values(pairs: Seq<(i64, PdfObject)>) -> Seq<(i64, PdfValue)> {
    pairs.map_values(|pair: (i64, PdfObject)| (pair.0, pair.1@))
}

/// The pairs of a leaf, whose array alternates keys and values. `None` when the
/// array has an odd length or a key is no integer.
pub open spec fn number_pairs(
    objects: Seq<(PdfId, PdfValue)>,
    items: Seq<PdfValue>,
) -> Option<Seq<(i64, PdfValue)>>
    decreases items.len(),
{
    if items.len() == 0 {
        Some(Seq::empty())
    } else if items.len() == 1 {
        None
    } else {
        let before = number_pairs(objects, items.take(items.len() - 2));
        let key = resolved(objects, items[items.len() - 2]);
        match (before, key) {
            (Some(pairs), Some(PdfValue::Integer(key_number))) => Some(
                pairs.push((key_number, items.last())),
            ),
            _ => None,
        }
    }
}

/// The pairs of a number tree, in order. `None` when the tree is malformed or
/// deeper than `left` levels.
pub open spec fn number_tree_pairs(
    objects: Seq<(PdfId, PdfValue)>,
    node: PdfValue,
    left: nat,
) -> Option<Seq<(i64, PdfValue)>>
    decreases left, 0nat,
{
    if left == 0 {
        None
    } else {
        match resolved_dict(objects, Some(node)) {
            Some(entries) => {
                let leaves = dict_get(entries, utf8("Nums"@));
                let kids = dict_get(entries, utf8("Kids"@));
                let own = match leaves {
                    Some(_) => match resolved_array(objects, leaves) {
                        Some(items) => number_pairs(objects, items),
                        None => None,
                    },
                    None => Some(Seq::empty()),
                };
                let below = match kids {
                    Some(_) => match resolved_array(objects, kids) {
                        Some(items) => number_kids_pairs(objects, items, (left - 1) as nat),
                        None => None,
                    },
                    None => Some(Seq::empty()),
                };
                if leaves is None && kids is None {
                    None
                } else {
                    match (own, below) {
                        (Some(first), Some(below_pairs)) => Some(first + below_pairs),
                        _ => None,
                    }
                }
            },
            None => None,
        }
    }
}

/// The pairs of several subtrees, one after the other.
pub open spec fn number_kids_pairs(
    objects: Seq<(PdfId, PdfValue)>,
    kids: Seq<PdfValue>,
    left: nat,
) -> Option<Seq<(i64, PdfValue)>>
    decreases left, kids.len() + 1,
{
    if kids.len() == 0 {
        Some(Seq::empty())
    } else {
        match (number_kids_pairs(objects, kids.drop_last(), left), number_tree_pairs(objects, kids.last(), left)) {
            (Some(first), Some(below_pairs)) => Some(first + below_pairs),
            _ => None,
        }
    }
}

proof fn lemma_number_pairs_prefix(
    objects: Seq<(PdfId, PdfValue)>,
    items: Seq<PdfValue>,
    length: int,
)
    requires
        0 <= length <= items.len(),
        (items.len() - length) % 2 == 0,
        number_pairs(objects, items.take(length)) is None,
    ensures
        number_pairs(objects, items) is None,
    decreases items.len(),
{
    if length == items.len() {
        assert(items.take(length) =~= items);
    } else {
        let shorter = items.take(items.len() - 2);
        assert(shorter.take(length) =~= items.take(length));
        lemma_number_pairs_prefix(objects, shorter, length);
    }
}

proof fn lemma_number_pairs_odd(objects: Seq<(PdfId, PdfValue)>, items: Seq<PdfValue>)
    requires
        items.len() % 2 == 1,
    ensures
        number_pairs(objects, items) is None,
    decreases items.len(),
{
    if items.len() > 1 {
        lemma_number_pairs_odd(objects, items.take(items.len() - 2));
    }
}

proof fn lemma_number_kids_pairs_prefix(
    objects: Seq<(PdfId, PdfValue)>,
    kids: Seq<PdfValue>,
    length: int,
    left: nat,
)
    requires
        0 <= length <= kids.len(),
        number_kids_pairs(objects, kids.take(length), left) is None,
    ensures
        number_kids_pairs(objects, kids, left) is None,
    decreases kids.len(),
{
    if length == kids.len() {
        assert(kids.take(length) =~= kids);
    } else {
        let shorter = kids.drop_last();
        assert(shorter.take(length) =~= kids.take(length));
        lemma_number_kids_pairs_prefix(objects, shorter, length, left);
    }
}

fn read_number_leaf(
    objects: &Vec<(PdfId, PdfObject)>,
    items: &Vec<PdfObject>,
    output: &mut Vec<(i64, PdfObject)>,
) -> (usable: bool)
    ensures
        match number_pairs(table_value(objects@), array_value(items@)) {
            Some(pairs) => usable && numbered_values(final(output)@) == numbered_values(old(output)@) + pairs,
            None => !usable,
        },
{
    let ghost table = table_value(objects@);
    let ghost all = array_value(items@);
    if items.len() % 2 != 0 {
        proof {
            lemma_number_pairs_odd(table, all);
        }
        return false;
    }
    let mut i: usize = 0;
    assert(numbered_values(output@) =~= numbered_values(old(output)@) + Seq::<(i64, PdfValue)>::empty());
    while i < items.len()
        invariant
            i <= items@.len(),
            i % 2 == 0,
            items@.len() % 2 == 0,
            table == table_value(objects@),
            all == array_value(items@),
            number_pairs(table, all.take(i as int)) matches Some(pairs) && numbered_values(output@) == numbered_values(
                old(output)@,
            ) + pairs,
        decreases items.len() - i,
    {
        let ghost next = all.take(i + 2);
        let ghost before = numbered_values(output@);
        proof {
            assert(next.take(next.len() - 2) =~= all.take(i as int));
            assert(next[next.len() - 2] == items@[i as int]@);
            assert(next.last() == items@[i + 1]@);
        }
        match resolve(objects, &items[i]) {
            Some(PdfObject::Integer(key)) => {
                output.push((*key, copy_object(&items[i + 1])));
                proof {
                    let pushed = (*key, items@[i + 1]@);
                    assert(numbered_values(output@) =~= before.push(pushed));
                    let pairs = number_pairs(table, next)->0;
                    assert(numbered_values(output@) =~= numbered_values(old(output)@) + pairs);
                }
            },
            _ => {
                proof {
                    lemma_number_pairs_prefix(table, all, i + 2);
                }
                return false;
            },
        }
        i += 2;
    }
    assert(all.take(all.len() as int) =~= all);
    true
}

fn read_number_kids(
    objects: &Vec<(PdfId, PdfObject)>,
    items: &Vec<PdfObject>,
    output: &mut Vec<(i64, PdfObject)>,
    left: u32,
) -> (usable: bool)
    ensures
        match number_kids_pairs(table_value(objects@), array_value(items@), left as nat) {
            Some(pairs) => usable && numbered_values(final(output)@) == numbered_values(old(output)@) + pairs,
            None => !usable,
        },
    decreases left, 1nat,
{
    let ghost table = table_value(objects@);
    let ghost all = array_value(items@);
    let ghost own = numbered_values(output@);
    let mut i: usize = 0;
    assert(own =~= own + Seq::<(i64, PdfValue)>::empty());
    while i < items.len()
        invariant
            i <= items@.len(),
            table == table_value(objects@),
            all == array_value(items@),
            number_kids_pairs(table, all.take(i as int), left as nat) matches Some(pairs) && numbered_values(
                output@,
            ) == own + pairs,
        decreases items.len() - i,
    {
        let ghost next = all.take(i + 1);
        proof {
            assert(next.drop_last() =~= all.take(i as int));
            assert(next.last() == items@[i as int]@);
        }
        if !flatten_number_tree(objects, &items[i], output, left) {
            proof {
                lemma_number_kids_pairs_prefix(table, all, i + 1, left as nat);
            }
            return false;
        }
        proof {
            let pairs = number_kids_pairs(table, next, left as nat)->0;
            assert(numbered_values(output@) =~= own + pairs);
        }
        i += 1;
    }
    assert(all.take(all.len() as int) =~= all);
    true
}

/// Flatten a PDF number tree (`/Nums` leaves, `/Kids` branches) into ordered
/// key/value pairs. Returns false when the tree is malformed or too deep, so
/// callers can fall back instead of inventing entries.
pub fn flatten_number_tree(
    objects: &Vec<(PdfId, PdfObject)>,
    node: &PdfObject,
    output: &mut Vec<(i64, PdfObject)>,
    left: u32,
) -> (usable: bool)
    ensures
        match number_tree_pairs(table_value(objects@), node@, left as nat) {
            Some(pairs) => usable && numbered_values(final(output)@) == numbered_values(old(output)@) + pairs,
            None => !usable,
        },
    decreases left, 0nat,
{
    let ghost table = table_value(objects@);
    if left == 0 {
        return false;
    }
    match resolve_dictionary(objects, Some(node)) {
        Some(dictionary) => {
            let leaves = dictionary.get("Nums");
            let kids = dictionary.get("Kids");
            if leaves.is_none() && kids.is_none() {
                return false;
            }
            assert(numbered_values(output@) =~= numbered_values(old(output)@) + Seq::<(i64, PdfValue)>::empty());
            if leaves.is_some() {
                match resolve_array(objects, leaves) {
                    Some(items) => {
                        if !read_number_leaf(objects, items, output) {
                            return false;
                        }
                    },
                    None => {
                        return false;
                    },
                }
            }
            let ghost own = numbered_values(output@);
            if kids.is_some() {
                match resolve_array(objects, kids) {
                    Some(items) => {
                        if !read_number_kids(objects, items, output, left - 1) {
                            return false;
                        }
                    },
                    None => {
                        return false;
                    },
                }
            }
            proof {
                let pairs = number_tree_pairs(table, node@, left as nat)->0;
                assert(numbered_values(output@) =~= numbered_values(old(output)@) + pairs);
            }
            true
        },
        None => false,
    }
}

/// Put a pair behind every pair whose key is not above its own.
pub open spec fn insert_number(
    sorted: Seq<(i64, PdfValue)>,
    pair: (i64, PdfValue),
) -> Seq<(i64, PdfValue)>
    decreases sorted.len(),
{
    if sorted.len() == 0 {
        seq![pair]
    } else if pair.0 < sorted.last().0 {
        insert_number(sorted.drop_last(), pair).push(sorted.last())
    } else {
        sorted.push(pair)
    }
}

/// Pairs in ascending order of their keys; equal keys keep their order.
pub open spec fn sorted_number(pairs: Seq<(i64, PdfValue)>) -> Seq<(i64, PdfValue)>
    decreases pairs.len(),
{
    if pairs.len() == 0 {
        pairs
    } else {
        insert_number(sorted_number(pairs.drop_last()), pairs.last())
    }
}

/// Keys and values in turn.
pub open spec fn alternating_number(pairs: Seq<(i64, PdfValue)>) -> Seq<PdfValue>
    decreases pairs.len(),
{
    if pairs.len() == 0 {
        Seq::empty()
    } else {
        alternating_number(pairs.drop_last()).push(PdfValue::Integer(pairs.last().0)).push(pairs.last().1)
    }
}

/// A single-node number tree that holds these pairs in key order.
pub open spec fn number_tree_value(pairs: Seq<(i64, PdfValue)>) -> PdfValue {
    PdfValue::Dictionary(
        dict_set(
            Seq::empty(),
            utf8("Nums"@),
            PdfValue::Array(alternating_number(sorted_number(pairs))),
        ),
    )
}

proof fn lemma_insert_number(
    sorted: Seq<(i64, PdfValue)>,
    pair: (i64, PdfValue),
    place: int,
)
    requires
        0 <= place <= sorted.len(),
        forall|j: int| place <= j < sorted.len() ==> pair.0 < (#[trigger] sorted[j]).0,
        place > 0 ==> !(pair.0 < sorted[place - 1].0),
    ensures
        insert_number(sorted, pair) == sorted.insert(place, pair),
    decreases sorted.len(),
{
    if sorted.len() == 0 {
        assert(sorted.insert(place, pair) =~= seq![pair]);
    } else if place == sorted.len() {
        assert(sorted.insert(place, pair) =~= sorted.push(pair));
    } else {
        assert(sorted[sorted.len() - 1] == sorted.last());
        let shorter = sorted.drop_last();
        lemma_insert_number(shorter, pair, place);
        assert(sorted.insert(place, pair) =~= shorter.insert(place, pair).push(sorted.last()));
    }
}

fn sort_number_pairs(pairs: Vec<(i64, PdfObject)>) -> (sorted: Vec<(i64, PdfObject)>)
    ensures
        numbered_values(sorted@) == sorted_number(numbered_values(pairs@)),
{
    let ghost values = numbered_values(pairs@);
    let mut sorted: Vec<(i64, PdfObject)> = Vec::new();
    assert(numbered_values(sorted@) =~= sorted_number(values.take(0)));
    let mut i: usize = 0;
    while i < pairs.len()
        invariant
            i <= pairs@.len(),
            values == numbered_values(pairs@),
            numbered_values(sorted@) == sorted_number(values.take(i as int)),
        decreases pairs.len() - i,
    {
        let ghost before = numbered_values(sorted@);
        let ghost pair = values[i as int];
        let mut place: usize = sorted.len();
        while place > 0 && pairs[i].0 < sorted[place - 1].0
            invariant
                i < pairs@.len(),
                place <= sorted@.len(),
                before == numbered_values(sorted@),
                values == numbered_values(pairs@),
                pair == values[i as int],
                forall|j: int| place <= j < before.len() ==> pair.0 < (#[trigger] before[j]).0,
            decreases place,
        {
            place -= 1;
        }
        sorted.insert(place, (pairs[i].0, copy_object(&pairs[i].1)));
        proof {
            lemma_insert_number(before, pair, place as int);
            assert(numbered_values(sorted@) =~= before.insert(place as int, pair));
            assert(values.take(i + 1).drop_last() =~= values.take(i as int));
        }
        i += 1;
    }
    assert(values.take(values.len() as int) =~= values);
    sorted
}

/// Build a single-node number tree holding every pair in ascending key order.
pub fn number_tree(pairs: Vec<(i64, PdfObject)>) -> (tree: PdfObject)
    ensures
        tree@ == number_tree_value(numbered_values(pairs@)),
{
    let sorted = sort_number_pairs(pairs);
    let ghost values = numbered_values(sorted@);
    let mut items: Vec<PdfObject> = Vec::new();
    assert(array_value(items@) =~= alternating_number(values.take(0)));
    let mut i: usize = 0;
    while i < sorted.len()
        invariant
            i <= sorted@.len(),
            values == numbered_values(sorted@),
            array_value(items@) == alternating_number(values.take(i as int)),
        decreases sorted.len() - i,
    {
        let ghost before = array_value(items@);
        items.push(PdfObject::Integer(sorted[i].0));
        items.push(copy_object(&sorted[i].1));
        proof {
            let next = values.take(i + 1);
            assert(next.drop_last() =~= values.take(i as int));
            assert(array_value(items@) =~= alternating_number(next));
        }
        i += 1;
    }
    assert(values.take(values.len() as int) =~= values);
    let mut dictionary = PdfDictionary::empty();
    dictionary.set("Nums", PdfObject::Array(items));
    PdfObject::Dictionary(dictionary)
}

} // verus!
