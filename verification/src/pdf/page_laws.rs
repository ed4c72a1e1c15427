//! What a page keeps when it is hung under another page tree: its own entries, and every
//! attribute that applied to it, be it its own or inherited.

use vstd::prelude::*;
use vstd::set_lib::{lemma_int_range, lemma_len_subset, set_int_range};

use crate::bytes::{lemma_ascii, utf8};
use crate::pdf::laws::storing_a_value;
use crate::pdf::merge::adopted;
use crate::pdf::model::{
    dereferenced, dict_get, dict_set, dictionary_of, object_index_from, object_of, put_object,
    put_object_from, PdfDocumentValue, PdfId, PdfValue, DEREFERENCE_LIMIT,
};
use crate::pdf::organize::completed;
use crate::pdf::pages::{
    final_id, inherited, page_attribute, replace_dictionary, with_attribute, with_inherited,
};

verus! {

/// The place that is found for a number is the first one with it.
pub(crate) proof fn lemma_index(objects: Seq<(PdfId, PdfValue)>, id: PdfId, from: int)
    requires
        0 <= from,
    ensures
        match object_index_from(objects, id, from) {
            Some(i) => {
                &&& from <= i < objects.len()
                &&& objects[i].0 == id
                &&& forall|j: int| from <= j < i ==> (#[trigger] objects[j]).0 != id
            },
            None => forall|j: int| from <= j < objects.len() ==> (#[trigger] objects[j]).0 != id,
        },
    decreases objects.len() - from,
{
    if from < objects.len() && objects[from].0 != id {
        lemma_index(objects, id, from + 1);
    }
}

/// A number stands where the first entry with it stands.
pub(crate) proof fn lemma_first(objects: Seq<(PdfId, PdfValue)>, id: PdfId, at: int)
    requires
        0 <= at < objects.len(),
        objects[at].0 == id,
        forall|j: int| 0 <= j < at ==> (#[trigger] objects[j]).0 != id,
    ensures
        object_of(objects, id) == Some(objects[at].1),
{
    lemma_index(objects, id, 0);
}

/// An object that is stored is found under its number, and every other object as before.
pub proof fn storing_an_object(
    objects: Seq<(PdfId, PdfValue)>,
    id: PdfId,
    value: PdfValue,
    other: PdfId,
)
    ensures
        object_of(put_object(objects, id, value), id) == Some(value),
        other != id ==> object_of(put_object(objects, id, value), other) == object_of(
            objects,
            other,
        ),
{
    lemma_put_from(objects, id, value, 0);
    let stored = put_object(objects, id, value);
    lemma_index(stored, id, 0);
    lemma_index(stored, other, 0);
    lemma_index(objects, other, 0);
    let at = choose|at: int| is_stored_at(objects, stored, id, value, at);
    assert(is_stored_at(objects, stored, id, value, at));
    lemma_first(stored, id, at);
    if other != id {
        if stored.len() == objects.len() {
            match object_index_from(objects, other, 0) {
                Some(i) => {
                    assert(stored[i] == objects[i]);
                    lemma_first(stored, other, i);
                },
                None => {
                    if object_index_from(stored, other, 0) is Some {
                        let j = object_index_from(stored, other, 0)->0;
                        assert(objects[j].0 == other);
                    }
                },
            }
        } else {
            match object_index_from(objects, other, 0) {
                Some(i) => {
                    let place = if i < at {
                        i
                    } else {
                        i + 1
                    };
                    assert(stored[place] == objects[i]);
                    assert forall|j: int| 0 <= j < place implies (#[trigger] stored[j]).0 != other by {
                        if j < at {
                            assert(stored[j] == objects[j]);
                        } else if j > at {
                            assert(stored[j] == objects[j - 1]);
                        }
                    }
                    lemma_first(stored, other, place);
                },
                None => {
                    if object_index_from(stored, other, 0) is Some {
                        let j = object_index_from(stored, other, 0)->0;
                        if j < at {
                            assert(objects[j].0 == other);
                        } else {
                            assert(objects[j - 1].0 == other);
                        }
                    }
                },
            }
        }
    }
}

/// Whether `stored` is the table with this object stored at `at`.
spec fn is_stored_at(
    objects: Seq<(PdfId, PdfValue)>,
    stored: Seq<(PdfId, PdfValue)>,
    id: PdfId,
    value: PdfValue,
    at: int,
) -> bool {
    &&& 0 <= at < stored.len()
    &&& forall|j: int| 0 <= j < at ==> (#[trigger] objects[j]).0 != id
    &&& (at < objects.len() && objects[at].0 == id && stored == objects.update(at, (id, value)))
        || (at <= objects.len() && stored == objects.insert(at, (id, value)))
}

proof fn lemma_put_from(
    objects: Seq<(PdfId, PdfValue)>,
    id: PdfId,
    value: PdfValue,
    from: int,
)
    requires
        0 <= from <= objects.len(),
        forall|j: int| 0 <= j < from ==> (#[trigger] objects[j]).0 != id,
    ensures
        exists|at: int|
            is_stored_at(objects, put_object_from(objects, id, value, from), id, value, at),
    decreases objects.len() - from,
{
    let stored = put_object_from(objects, id, value, from);
    if from >= objects.len() {
        assert(stored =~= objects.insert(from, (id, value)));
        assert(is_stored_at(objects, stored, id, value, from));
    } else if objects[from].0 == id || crate::pdf::model::id_before(id, objects[from].0) {
        assert(is_stored_at(objects, stored, id, value, from));
    } else {
        lemma_put_from(objects, id, value, from + 1);
    }
}

/// Whether two tables differ in one dictionary alone.
spec fn differ_in(
    objects: Seq<(PdfId, PdfValue)>,
    changed: Seq<(PdfId, PdfValue)>,
    end: PdfId,
    before: Seq<(Seq<u8>, PdfValue)>,
    after: Seq<(Seq<u8>, PdfValue)>,
) -> bool {
    &&& changed.len() == objects.len()
    &&& object_of(objects, end) == Some(PdfValue::Dictionary(before))
    &&& object_of(changed, end) == Some(PdfValue::Dictionary(after))
    &&& forall|id: PdfId|
        id != end ==> #[trigger] object_of(changed, id) == object_of(objects, id)
}

/// Following references from a number leads to the object with the final number.
pub(crate) proof fn lemma_followed(objects: Seq<(PdfId, PdfValue)>, id: PdfId, left: nat)
    requires
        object_of(objects, id) is Some,
        dereferenced(objects, object_of(objects, id)->0, left) is Some,
    ensures
        dereferenced(objects, object_of(objects, id)->0, left) == object_of(
            objects,
            final_id(objects, id, left),
        ),
    decreases left,
{
    if let PdfValue::Reference(next) = object_of(objects, id)->0 {
        lemma_followed(objects, next, (left - 1) as nat);
    }
}

/// References are followed in the same way where one dictionary differs.
proof fn lemma_follow_changed(
    objects: Seq<(PdfId, PdfValue)>,
    changed: Seq<(PdfId, PdfValue)>,
    end: PdfId,
    before: Seq<(Seq<u8>, PdfValue)>,
    after: Seq<(Seq<u8>, PdfValue)>,
    id: PdfId,
    left: nat,
)
    requires
        differ_in(objects, changed, end, before, after),
    ensures
        (object_of(changed, id) is Some) == (object_of(objects, id) is Some),
        object_of(objects, id) matches Some(value) ==> ({
            let found = dereferenced(objects, value, left);
            let later = dereferenced(changed, object_of(changed, id)->0, left);
            if found is Some && final_id(objects, id, left) == end {
                found == Some(PdfValue::Dictionary(before)) && later == Some(
                    PdfValue::Dictionary(after),
                )
            } else {
                later == found
            }
        }),
    decreases left,
{
    if id != end {
        assert(object_of(changed, id) == object_of(objects, id));
        if let Some(PdfValue::Reference(next)) = object_of(objects, id) {
            if left > 0 {
                lemma_follow_changed(objects, changed, end, before, after, next, (left - 1) as nat);
            }
        }
    }
}

/// The dictionary that a number leads to, where one dictionary differs.
proof fn lemma_dictionary_changed(
    objects: Seq<(PdfId, PdfValue)>,
    changed: Seq<(PdfId, PdfValue)>,
    end: PdfId,
    before: Seq<(Seq<u8>, PdfValue)>,
    after: Seq<(Seq<u8>, PdfValue)>,
    id: PdfId,
)
    requires
        differ_in(objects, changed, end, before, after),
    ensures
        dictionary_of(changed, id) == if dictionary_of(objects, id) is Some && final_id(
            objects,
            id,
            DEREFERENCE_LIMIT as nat,
        ) == end {
            Some(after)
        } else {
            dictionary_of(objects, id)
        },
        dictionary_of(objects, id) is Some && final_id(objects, id, DEREFERENCE_LIMIT as nat) == end
            ==> dictionary_of(objects, id) == Some(before),
{
    lemma_follow_changed(objects, changed, end, before, after, id, DEREFERENCE_LIMIT as nat);
}

/// Replacing the dictionary that a number leads to changes that one alone.
proof fn lemma_replaced(
    objects: Seq<(PdfId, PdfValue)>,
    id: PdfId,
    entries: Seq<(Seq<u8>, PdfValue)>,
)
    requires
        dictionary_of(objects, id) is Some,
    ensures
        differ_in(
            objects,
            replace_dictionary(objects, id, entries),
            final_id(objects, id, DEREFERENCE_LIMIT as nat),
            dictionary_of(objects, id)->0,
            entries,
        ),
{
    let end = final_id(objects, id, DEREFERENCE_LIMIT as nat);
    lemma_followed(objects, id, DEREFERENCE_LIMIT as nat);
    lemma_index(objects, end, 0);
    let i = object_index_from(objects, end, 0)->0;
    let changed = replace_dictionary(objects, id, entries);
    assert(changed == objects.update(i, (end, PdfValue::Dictionary(entries))));
    lemma_first(changed, end, i);
    assert forall|other: PdfId| other != end implies #[trigger] object_of(changed, other)
        == object_of(objects, other) by {
        lemma_index(objects, other, 0);
        lemma_index(changed, other, 0);
        assert forall|j: int| 0 <= j < objects.len() implies (#[trigger] changed[j]).0
            == objects[j].0 by {}
        match object_index_from(objects, other, 0) {
            Some(k) => {
                assert(changed[k] == objects[k]);
                lemma_first(changed, other, k);
            },
            None => {
                if object_index_from(changed, other, 0) is Some {
                    let k = object_index_from(changed, other, 0)->0;
                    assert(objects[k].0 == other);
                }
            },
        }
    }
}

/// What is found within some steps is found within more.
proof fn lemma_inherited_grows(
    objects: Seq<(PdfId, PdfValue)>,
    id: PdfId,
    key: Seq<char>,
    left: nat,
    more: nat,
)
    requires
        left <= more,
        inherited(objects, id, key, left) is Some,
    ensures
        inherited(objects, id, key, more) == inherited(objects, id, key, left),
    decreases left,
{
    if let Some(entries) = dictionary_of(objects, id) {
        if dict_get(entries, utf8(key)) is None {
            if let Some(PdfValue::Reference(parent)) = dict_get(entries, utf8("Parent"@)) {
                lemma_inherited_grows(
                    objects,
                    parent,
                    key,
                    (left - 1) as nat,
                    (more - 1) as nat,
                );
            }
        }
    }
}

/// The value that entries have under a key, or that their parent has within some steps.
spec fn found_from(
    objects: Seq<(PdfId, PdfValue)>,
    entries: Seq<(Seq<u8>, PdfValue)>,
    key: Seq<char>,
    left: nat,
) -> Option<PdfValue> {
    match dict_get(entries, utf8(key)) {
        Some(value) => Some(value),
        None => match dict_get(entries, utf8("Parent"@)) {
            Some(PdfValue::Reference(parent)) => inherited(objects, parent, key, left),
            _ => None,
        },
    }
}

/// The dictionaries of a table from which a key is found within some steps.
spec fn finders(objects: Seq<(PdfId, PdfValue)>, key: Seq<char>, left: nat) -> Set<int> {
    Set::new(
        |k: int|
            0 <= k < objects.len() && (objects[k].1 matches PdfValue::Dictionary(entries)
                && found_from(objects, entries, key, left) is Some),
    )
}

/// A dictionary that a number leads to stands in the table.
proof fn lemma_stands_in(objects: Seq<(PdfId, PdfValue)>, id: PdfId) -> (k: int)
    requires
        dictionary_of(objects, id) is Some,
    ensures
        0 <= k < objects.len(),
        objects[k].1 == PdfValue::Dictionary(dictionary_of(objects, id)->0),
{
    lemma_followed(objects, id, DEREFERENCE_LIMIT as nat);
    let end = final_id(objects, id, DEREFERENCE_LIMIT as nat);
    lemma_index(objects, end, 0);
    object_index_from(objects, end, 0)->0
}

/// There are no more finders than objects, and none is lost with more steps.
proof fn lemma_finders(objects: Seq<(PdfId, PdfValue)>, key: Seq<char>, left: nat)
    ensures
        finders(objects, key, left).finite(),
        finders(objects, key, left).len() <= objects.len(),
        finders(objects, key, left).subset_of(finders(objects, key, left + 1)),
{
    lemma_int_range(0, objects.len() as int);
    lemma_len_subset(finders(objects, key, left), set_int_range(0, objects.len() as int));
    let now = finders(objects, key, left);
    let next = finders(objects, key, left + 1);
    assert forall|k: int| now.contains(k) implies next.contains(k) by {
        let entries = objects[k].1->Dictionary_0;
        if dict_get(entries, utf8(key)) is None {
            if let Some(PdfValue::Reference(parent)) = dict_get(entries, utf8("Parent"@)) {
                lemma_inherited_grows(objects, parent, key, left, left + 1);
            }
        }
    }
}

/// Where a step adds no finder, the next adds none.
proof fn lemma_settled(objects: Seq<(PdfId, PdfValue)>, key: Seq<char>, left: nat)
    requires
        finders(objects, key, left) == finders(objects, key, left + 1),
    ensures
        finders(objects, key, left + 1) == finders(objects, key, left + 2),
{
    lemma_finders(objects, key, left + 1);
    let next = finders(objects, key, left + 1);
    let last = finders(objects, key, left + 2);
    assert forall|k: int| last.contains(k) implies next.contains(k) by {
        let entries = objects[k].1->Dictionary_0;
        if dict_get(entries, utf8(key)) is None {
            if let Some(PdfValue::Reference(parent)) = dict_get(entries, utf8("Parent"@)) {
                assert(inherited(objects, parent, key, left + 2) is Some);
                let place = lemma_stands_in(objects, parent);
                assert(finders(objects, key, left + 1).contains(place));
                assert(finders(objects, key, left).contains(place));
                assert(inherited(objects, parent, key, left + 1) is Some);
            }
        }
    }
    assert(next =~= last);
}

/// Either the finders have settled, or there are as many as steps.
proof fn lemma_settles(objects: Seq<(PdfId, PdfValue)>, key: Seq<char>, left: nat)
    ensures
        finders(objects, key, left) == finders(objects, key, left + 1) || left + 1 <= finders(
            objects,
            key,
            left + 1,
        ).len(),
    decreases left,
{
    lemma_finders(objects, key, left);
    lemma_finders(objects, key, left + 1);
    let now = finders(objects, key, left);
    let next = finders(objects, key, left + 1);
    if left > 0 {
        lemma_settles(objects, key, (left - 1) as nat);
        if finders(objects, key, (left - 1) as nat) == now {
            lemma_settled(objects, key, (left - 1) as nat);
        }
    }
    if now != next {
        lemma_len_subset(now, next);
        if now.len() == next.len() {
            vstd::set_lib::lemma_subset_equality(now, next);
        }
    }
}

proof fn lemma_stays_settled(objects: Seq<(PdfId, PdfValue)>, key: Seq<char>, left: nat)
    requires
        objects.len() <= left,
    ensures
        finders(objects, key, left) == finders(objects, key, objects.len()),
    decreases left,
{
    if left > objects.len() {
        let before = (left - 1) as nat;
        lemma_stays_settled(objects, key, before);
        lemma_settles(objects, key, before);
        lemma_finders(objects, key, left);
    }
}

/// What is found at all is found within as many steps as the table has objects.
pub(crate) proof fn lemma_found_in_time(
    objects: Seq<(PdfId, PdfValue)>,
    id: PdfId,
    key: Seq<char>,
    left: nat,
)
    requires
        inherited(objects, id, key, left) is Some,
    ensures
        page_attribute(objects, id, key) == inherited(objects, id, key, left),
{
    if left <= objects.len() + 1 {
        lemma_inherited_grows(objects, id, key, left, objects.len() + 1);
    } else {
        let place = lemma_stands_in(objects, id);
        lemma_stays_settled(objects, key, (left - 1) as nat);
        assert(finders(objects, key, (left - 1) as nat).contains(place));
        assert(finders(objects, key, objects.len()).contains(place));
        assert(page_attribute(objects, id, key) is Some);
        lemma_inherited_grows(objects, id, key, objects.len() + 1, left);
    }
}

/// Whether a page may inherit this attribute.
pub open spec fn is_inheritable(key: Seq<char>) -> bool {
    key == "Resources"@ || key == "MediaBox"@ || key == "CropBox"@ || key == "Rotate"@
}

/// Whether a page cannot inherit this entry.
pub open spec fn is_never_inherited(key: Seq<u8>) -> bool {
    forall|other: Seq<char>| #[trigger] is_inheritable(other) ==> key != utf8(other)
}

/// Whether an entry is a page's own: it is neither the parent nor inheritable.
pub open spec fn is_own_key(key: Seq<u8>) -> bool {
    key != utf8("Parent"@) && is_never_inherited(key)
}

pub(crate) proof fn lemma_keys_differ()
    ensures
        utf8("Resources"@) != utf8("MediaBox"@),
        utf8("Resources"@) != utf8("CropBox"@),
        utf8("Resources"@) != utf8("Rotate"@),
        utf8("Resources"@) != utf8("Parent"@),
        utf8("MediaBox"@) != utf8("CropBox"@),
        utf8("MediaBox"@) != utf8("Rotate"@),
        utf8("MediaBox"@) != utf8("Parent"@),
        utf8("CropBox"@) != utf8("Rotate"@),
        utf8("CropBox"@) != utf8("Parent"@),
        utf8("Rotate"@) != utf8("Parent"@),
        is_never_inherited(utf8("Parent"@)),
        is_own_key(utf8("Type"@)),
        is_own_key(utf8("Linearized"@)),
{
    reveal_strlit("Resources");
    reveal_strlit("MediaBox");
    reveal_strlit("CropBox");
    reveal_strlit("Rotate");
    reveal_strlit("Parent");
    reveal_strlit("Type");
    reveal_strlit("Linearized");
    lemma_ascii("Resources");
    lemma_ascii("MediaBox");
    lemma_ascii("CropBox");
    lemma_ascii("Rotate");
    lemma_ascii("Parent");
    lemma_ascii("Type");
    lemma_ascii("Linearized");
    assert(utf8("Resources"@).len() == 9);
    assert(utf8("MediaBox"@).len() == 8);
    assert(utf8("CropBox"@).len() == 7);
    assert(utf8("Rotate"@).len() == 6);
    assert(utf8("Parent"@).len() == 6);
    assert(utf8("Type"@).len() == 4);
    assert(utf8("Linearized"@).len() == 10);
    assert(utf8("Rotate"@)[0] == 0x52);
    assert(utf8("Parent"@)[0] == 0x50);
}

/// Writing an attribute onto a page gives it the value that applies to it, and leaves
/// every other entry.
proof fn lemma_attribute_written(
    objects: Seq<(PdfId, PdfValue)>,
    id: PdfId,
    page: Seq<(Seq<u8>, PdfValue)>,
    current: Seq<(Seq<u8>, PdfValue)>,
    key: Seq<char>,
    other: Seq<u8>,
)
    requires
        dictionary_of(objects, id) == Some(page),
        dict_get(current, utf8(key)) == dict_get(page, utf8(key)),
    ensures
        dict_get(with_attribute(objects, id, current, key), utf8(key)) == page_attribute(
            objects,
            id,
            key,
        ),
        other != utf8(key) ==> dict_get(with_attribute(objects, id, current, key), other)
            == dict_get(current, other),
{
    if let Some(value) = page_attribute(objects, id, key) {
        storing_a_value(current, utf8(key), value, other);
    }
}

/// A page with its attributes written onto it has those that apply to it, and every other
/// entry as before.
pub(crate) proof fn lemma_with_inherited(
    objects: Seq<(PdfId, PdfValue)>,
    id: PdfId,
    page: Seq<(Seq<u8>, PdfValue)>,
    other: Seq<u8>,
)
    requires
        dictionary_of(objects, id) == Some(page),
    ensures
        forall|key: Seq<char>| #[trigger]
            is_inheritable(key) ==> dict_get(with_inherited(objects, id, page), utf8(key))
                == page_attribute(objects, id, key),
        is_never_inherited(other) ==> dict_get(with_inherited(objects, id, page), other)
            == dict_get(page, other),
{
    lemma_keys_differ();
    let first = with_attribute(objects, id, page, "Resources"@);
    let second = with_attribute(objects, id, first, "MediaBox"@);
    let third = with_attribute(objects, id, second, "CropBox"@);
    lemma_attribute_written(objects, id, page, page, "Resources"@, utf8("MediaBox"@));
    lemma_attribute_written(objects, id, page, page, "Resources"@, utf8("CropBox"@));
    lemma_attribute_written(objects, id, page, page, "Resources"@, utf8("Rotate"@));
    lemma_attribute_written(objects, id, page, page, "Resources"@, other);
    lemma_attribute_written(objects, id, page, first, "MediaBox"@, utf8("Resources"@));
    lemma_attribute_written(objects, id, page, first, "MediaBox"@, utf8("CropBox"@));
    lemma_attribute_written(objects, id, page, first, "MediaBox"@, utf8("Rotate"@));
    lemma_attribute_written(objects, id, page, first, "MediaBox"@, other);
    lemma_attribute_written(objects, id, page, second, "CropBox"@, utf8("Resources"@));
    lemma_attribute_written(objects, id, page, second, "CropBox"@, utf8("MediaBox"@));
    lemma_attribute_written(objects, id, page, second, "CropBox"@, utf8("Rotate"@));
    lemma_attribute_written(objects, id, page, second, "CropBox"@, other);
    lemma_attribute_written(objects, id, page, third, "Rotate"@, utf8("Resources"@));
    lemma_attribute_written(objects, id, page, third, "Rotate"@, utf8("MediaBox"@));
    lemma_attribute_written(objects, id, page, third, "Rotate"@, utf8("CropBox"@));
    lemma_attribute_written(objects, id, page, third, "Rotate"@, other);
    assert(is_inheritable("Resources"@));
    assert(is_inheritable("MediaBox"@));
    assert(is_inheritable("CropBox"@));
    assert(is_inheritable("Rotate"@));
}

/// The entries of a page that is hung under another tree.
pub open spec fn rehung(
    objects: Seq<(PdfId, PdfValue)>,
    id: PdfId,
    page: Seq<(Seq<u8>, PdfValue)>,
    tree: PdfId,
) -> Seq<(Seq<u8>, PdfValue)> {
    dict_set(with_inherited(objects, id, page), utf8("Parent"@), PdfValue::Reference(tree))
}

proof fn lemma_rehung(
    objects: Seq<(PdfId, PdfValue)>,
    id: PdfId,
    page: Seq<(Seq<u8>, PdfValue)>,
    tree: PdfId,
    other: Seq<u8>,
)
    requires
        dictionary_of(objects, id) == Some(page),
    ensures
        dict_get(rehung(objects, id, page, tree), utf8("Parent"@)) == Some(
            PdfValue::Reference(tree),
        ),
        forall|key: Seq<char>| #[trigger]
            is_inheritable(key) ==> dict_get(rehung(objects, id, page, tree), utf8(key))
                == page_attribute(objects, id, key),
        is_own_key(other) ==> dict_get(rehung(objects, id, page, tree), other) == dict_get(
            page,
            other,
        ),
{
    lemma_keys_differ();
    lemma_with_inherited(objects, id, page, other);
    let whole = with_inherited(objects, id, page);
    let parent = PdfValue::Reference(tree);
    assert forall|key: Seq<char>| #[trigger] is_inheritable(key) implies dict_get(
        rehung(objects, id, page, tree),
        utf8(key),
    ) == page_attribute(objects, id, key) by {
        storing_a_value(whole, utf8("Parent"@), parent, utf8(key));
    }
    storing_a_value(whole, utf8("Parent"@), parent, other);
}

/// Where two numbers lead to the same dictionary, the same attributes apply to them.
proof fn lemma_same_attribute(
    objects: Seq<(PdfId, PdfValue)>,
    left: PdfId,
    right: PdfId,
    key: Seq<char>,
)
    requires
        dictionary_of(objects, left) == dictionary_of(objects, right),
    ensures
        page_attribute(objects, left, key) == page_attribute(objects, right, key),
{
}

/// Whether these entries can stand for a page: the attributes that apply to it are its own,
/// and its parent is the same, or one that does not exist.
spec fn completes(
    objects: Seq<(PdfId, PdfValue)>,
    id: PdfId,
    after: Seq<(Seq<u8>, PdfValue)>,
) -> bool {
    &&& dictionary_of(objects, id) is Some
    &&& forall|key: Seq<char>| #[trigger]
        is_inheritable(key) ==> dict_get(after, utf8(key)) == page_attribute(objects, id, key)
    &&& dict_get(after, utf8("Parent"@)) == dict_get(dictionary_of(objects, id)->0, utf8("Parent"@))
        || (dict_get(after, utf8("Parent"@)) matches Some(PdfValue::Reference(tree)) && object_of(
        objects,
        tree,
    ) is None)
}

/// What applies to a page after another was completed, applied to it before.
proof fn lemma_attribute_came_from(
    objects: Seq<(PdfId, PdfValue)>,
    page_id: PdfId,
    after: Seq<(Seq<u8>, PdfValue)>,
    id: PdfId,
    key: Seq<char>,
    left: nat,
)
    requires
        completes(objects, page_id, after),
        is_inheritable(key),
        inherited(replace_dictionary(objects, page_id, after), id, key, left) is Some,
    ensures
        page_attribute(objects, id, key) == inherited(
            replace_dictionary(objects, page_id, after),
            id,
            key,
            left,
        ),
    decreases left,
{
    let page = dictionary_of(objects, page_id)->0;
    let changed = replace_dictionary(objects, page_id, after);
    let end = final_id(objects, page_id, DEREFERENCE_LIMIT as nat);
    lemma_replaced(objects, page_id, after);
    lemma_dictionary_changed(objects, changed, end, page, after, id);
    let entries = dictionary_of(changed, id)->0;
    let own = dictionary_of(objects, id)->0;
    if entries == after && own == page {
        lemma_same_attribute(objects, id, page_id, key);
    }
    if dict_get(entries, utf8(key)) is None {
        let parent = dict_get(entries, utf8("Parent"@))->0->Reference_0;
        assert(inherited(changed, parent, key, (left - 1) as nat) is Some);
        lemma_attribute_came_from(objects, page_id, after, parent, key, (left - 1) as nat);
        assert(object_of(objects, parent) is Some);
        assert(dict_get(own, utf8("Parent"@)) == Some(PdfValue::Reference(parent)));
        if dict_get(own, utf8(key)) is None {
            assert(inherited(objects, id, key, objects.len() + 2) == page_attribute(
                objects,
                parent,
                key,
            ));
            lemma_found_in_time(objects, id, key, objects.len() + 2);
        } else {
            assert(page_attribute(objects, id, key) == dict_get(own, utf8(key)));
        }
    } else {
        if dictionary_of(changed, id) == dictionary_of(objects, id) {
            assert(page_attribute(objects, id, key) == dict_get(entries, utf8(key)));
        }
    }
}

/// What applied to a page still does after another was completed.
proof fn lemma_attribute_stays(
    objects: Seq<(PdfId, PdfValue)>,
    page_id: PdfId,
    after: Seq<(Seq<u8>, PdfValue)>,
    id: PdfId,
    key: Seq<char>,
    left: nat,
)
    requires
        completes(objects, page_id, after),
        is_inheritable(key),
        inherited(objects, id, key, left) is Some,
    ensures
        inherited(replace_dictionary(objects, page_id, after), id, key, left) == inherited(
            objects,
            id,
            key,
            left,
        ),
    decreases left,
{
    let page = dictionary_of(objects, page_id)->0;
    let changed = replace_dictionary(objects, page_id, after);
    let end = final_id(objects, page_id, DEREFERENCE_LIMIT as nat);
    lemma_replaced(objects, page_id, after);
    lemma_dictionary_changed(objects, changed, end, page, after, id);
    if final_id(objects, id, DEREFERENCE_LIMIT as nat) == end {
        lemma_same_attribute(objects, id, page_id, key);
        lemma_found_in_time(objects, id, key, left);
    } else {
        let entries = dictionary_of(objects, id)->0;
        if dict_get(entries, utf8(key)) is None {
            if let Some(PdfValue::Reference(parent)) = dict_get(entries, utf8("Parent"@)) {
                lemma_attribute_stays(objects, page_id, after, parent, key, (left - 1) as nat);
            }
        }
    }
}

/// Completing one page changes no attribute that applies to any page.
proof fn lemma_attributes_agree(
    objects: Seq<(PdfId, PdfValue)>,
    page_id: PdfId,
    after: Seq<(Seq<u8>, PdfValue)>,
    id: PdfId,
)
    requires
        completes(objects, page_id, after),
    ensures
        attributes_agree(objects, replace_dictionary(objects, page_id, after), id),
{
    let changed = replace_dictionary(objects, page_id, after);
    lemma_replaced(objects, page_id, after);
    assert forall|key: Seq<char>| #[trigger] is_inheritable(key) implies page_attribute(
        changed,
        id,
        key,
    ) == page_attribute(objects, id, key) by {
        if page_attribute(objects, id, key) is Some {
            lemma_attribute_stays(objects, page_id, after, id, key, objects.len() + 1);
        } else if page_attribute(changed, id, key) is Some {
            lemma_attribute_came_from(objects, page_id, after, id, key, objects.len() + 1);
        }
    }
}

/// The table after one page was hung under another tree.
pub open spec fn rehung_table(
    objects: Seq<(PdfId, PdfValue)>,
    id: PdfId,
    tree: PdfId,
) -> Seq<(PdfId, PdfValue)> {
    match dictionary_of(objects, id) {
        Some(page) => replace_dictionary(objects, id, rehung(objects, id, page, tree)),
        None => objects,
    }
}

/// Whether entries are those of this page, hung under a tree: the attributes that applied
/// to it are its own, and nothing else has changed.
pub open spec fn is_kept_page(
    objects: Seq<(PdfId, PdfValue)>,
    id: PdfId,
    tree: PdfId,
    page: Seq<(Seq<u8>, PdfValue)>,
) -> bool {
    &&& dict_get(page, utf8("Parent"@)) == Some(PdfValue::Reference(tree))
    &&& forall|key: Seq<char>| #[trigger]
        is_inheritable(key) ==> dict_get(page, utf8(key)) == page_attribute(objects, id, key)
    &&& dictionary_of(objects, id) matches Some(own) && has_same_entries(own, page)
}

/// Whether a page has the same entries as another, but for its parent and what it may
/// inherit.
pub open spec fn has_same_entries(
    own: Seq<(Seq<u8>, PdfValue)>,
    page: Seq<(Seq<u8>, PdfValue)>,
) -> bool {
    forall|key: Seq<u8>| #[trigger]
        is_own_key(key) ==> dict_get(page, key) == dict_get(own, key)
}

/// Whether the same attributes apply to a page in both tables.
pub open spec fn attributes_agree(
    objects: Seq<(PdfId, PdfValue)>,
    later: Seq<(PdfId, PdfValue)>,
    id: PdfId,
) -> bool {
    forall|key: Seq<char>| #[trigger]
        is_inheritable(key) ==> page_attribute(later, id, key) == page_attribute(objects, id, key)
}

/// Whether a number leads to the same object in both tables, or to dictionaries with the
/// same entries.
pub open spec fn objects_agree(
    objects: Seq<(PdfId, PdfValue)>,
    later: Seq<(PdfId, PdfValue)>,
    id: PdfId,
) -> bool {
    match (object_of(objects, id), object_of(later, id)) {
        (Some(PdfValue::Dictionary(own)), Some(PdfValue::Dictionary(page))) => has_same_entries(
            own,
            page,
        ),
        (Some(PdfValue::Dictionary(_)), _) => false,
        (found, after) => found == after,
    }
}

/// Whether a number leads to dictionaries with the same entries in both tables, or to none
/// in either.
pub open spec fn dictionaries_agree(
    objects: Seq<(PdfId, PdfValue)>,
    later: Seq<(PdfId, PdfValue)>,
    id: PdfId,
) -> bool {
    match (dictionary_of(objects, id), dictionary_of(later, id)) {
        (Some(own), Some(page)) => has_same_entries(own, page),
        (None, None) => true,
        _ => false,
    }
}

/// Whether pages were hung under another tree between two tables, and nothing else was
/// changed.
pub open spec fn tables_agree(
    objects: Seq<(PdfId, PdfValue)>,
    later: Seq<(PdfId, PdfValue)>,
    tree: PdfId,
) -> bool {
    &&& later.len() == objects.len()
    &&& object_of(later, tree) is None
    &&& forall|i: int| 0 <= i < objects.len() ==> (#[trigger] later[i]).0 == objects[i].0
    &&& forall|id: PdfId| #[trigger] attributes_agree(objects, later, id)
    &&& forall|id: PdfId| #[trigger] objects_agree(objects, later, id)
    &&& forall|id: PdfId| #[trigger] dictionaries_agree(objects, later, id)
}

/// Hanging one page under another tree changes nothing else.
proof fn lemma_one_page(objects: Seq<(PdfId, PdfValue)>, page_id: PdfId, tree: PdfId)
    requires
        dictionary_of(objects, page_id) is Some,
        object_of(objects, tree) is None,
    ensures
        tables_agree(objects, rehung_table(objects, page_id, tree), tree),
{
    let changed = rehung_table(objects, page_id, tree);
    let page = dictionary_of(objects, page_id)->0;
    let after = rehung(objects, page_id, page, tree);
    let end = final_id(objects, page_id, DEREFERENCE_LIMIT as nat);
    lemma_replaced(objects, page_id, after);
    lemma_index(objects, end, 0);
    assert(has_same_entries(page, after)) by {
        assert forall|key: Seq<u8>| #[trigger] is_own_key(key) implies dict_get(after, key)
            == dict_get(page, key) by {
            lemma_rehung(objects, page_id, page, tree, key);
        }
    }
    lemma_rehung(objects, page_id, page, tree, utf8("Type"@));
    assert forall|id: PdfId| #[trigger] attributes_agree(objects, changed, id) by {
        lemma_attributes_agree(objects, page_id, after, id);
    }
    assert forall|id: PdfId| #[trigger] objects_agree(objects, changed, id) by {
        if id != end {
            assert(object_of(changed, id) == object_of(objects, id));
        }
    }
    assert forall|id: PdfId| #[trigger] dictionaries_agree(objects, changed, id) by {
        lemma_dictionary_changed(objects, changed, end, page, after, id);
    }
}

/// Whether a page was hung under this tree, with its attributes written onto it.
pub open spec fn is_rehung(
    objects: Seq<(PdfId, PdfValue)>,
    later: Seq<(PdfId, PdfValue)>,
    tree: PdfId,
    id: PdfId,
) -> bool {
    dictionary_of(later, id) matches Some(page) && dict_get(page, utf8("Parent"@)) == Some(
        PdfValue::Reference(tree),
    ) && forall|key: Seq<char>| #[trigger]
        is_inheritable(key) ==> dict_get(page, utf8(key)) == page_attribute(objects, id, key)
}

pub(crate) proof fn lemma_adopted(document: PdfDocumentValue, pages: Seq<PdfId>, tree: PdfId)
    requires
        adopted(document, pages, tree) is Ok,
        object_of(document.objects, tree) is None,
    ensures
        tables_agree(document.objects, adopted(document, pages, tree)->Ok_0, tree),
        forall|i: int|
            0 <= i < pages.len() ==> is_rehung(
                document.objects,
                adopted(document, pages, tree)->Ok_0,
                tree,
                #[trigger] pages[i],
            ),
    decreases pages.len(),
{
    let start = document.objects;
    if pages.len() > 0 {
        let shorter = pages.drop_last();
        lemma_adopted(document, shorter, tree);
        let before = adopted(document, shorter, tree)->Ok_0;
        let all = adopted(document, pages, tree)->Ok_0;
        let last = pages.last();
        assert(all == rehung_table(before, last, tree));
        lemma_one_page(before, last, tree);
        let page = dictionary_of(before, last)->0;
        let after = rehung(before, last, page, tree);
        let end = final_id(before, last, DEREFERENCE_LIMIT as nat);
        lemma_replaced(before, last, after);
        lemma_rehung(before, last, page, tree, utf8("Type"@));
        assert forall|id: PdfId| #[trigger] attributes_agree(start, all, id) by {
            assert(attributes_agree(start, before, id));
            assert(attributes_agree(before, all, id));
        }
        assert forall|id: PdfId| #[trigger] objects_agree(start, all, id) by {
            assert(objects_agree(start, before, id));
            assert(objects_agree(before, all, id));
        }
        assert forall|id: PdfId| #[trigger] dictionaries_agree(start, all, id) by {
            assert(dictionaries_agree(start, before, id));
            assert(dictionaries_agree(before, all, id));
        }
        assert forall|i: int| 0 <= i < pages.len() implies is_rehung(
            start,
            all,
            tree,
            #[trigger] pages[i],
        ) by {
            let id = pages[i];
            lemma_dictionary_changed(before, all, end, page, after, id);
            assert(attributes_agree(start, before, id));
            if i < shorter.len() {
                assert(shorter[i] == id);
                assert(is_rehung(start, before, tree, shorter[i]));
            }
            if dictionary_of(all, id) != dictionary_of(before, id) || i == pages.len() - 1 {
                assert(dictionary_of(before, id) == Some(page));
                assert forall|key: Seq<char>| #[trigger] is_inheritable(key) implies dict_get(
                    after,
                    utf8(key),
                ) == page_attribute(start, id, key) by {
                    lemma_same_attribute(before, id, last, key);
                }
                assert(dictionary_of(all, last) == Some(after)) by {
                    lemma_dictionary_changed(before, all, end, page, after, last);
                }
            }
        }
    } else {
        assert forall|id: PdfId| #[trigger] objects_agree(start, start, id) by {}
        assert forall|id: PdfId| #[trigger] dictionaries_agree(start, start, id) by {}
    }
}

/// Every page that is hung under another tree keeps its own entries, and every attribute
/// that applied to it, be it its own or inherited, is its own.
pub proof fn adopted_pages_keep_their_content(
    document: PdfDocumentValue,
    pages: Seq<PdfId>,
    tree: PdfId,
    i: int,
)
    requires
        adopted(document, pages, tree) is Ok,
        object_of(document.objects, tree) is None,
        0 <= i < pages.len(),
    ensures
        dictionary_of(adopted(document, pages, tree)->Ok_0, pages[i]) matches Some(page)
            && is_kept_page(document.objects, pages[i], tree, page),
{
    lemma_adopted(document, pages, tree);
    let later = adopted(document, pages, tree)->Ok_0;
    assert(is_rehung(document.objects, later, tree, pages[i]));
    assert(dictionaries_agree(document.objects, later, pages[i]));
}

/// The same attributes are written onto a page in tables that agree on them.
proof fn lemma_same_completion(
    objects: Seq<(PdfId, PdfValue)>,
    later: Seq<(PdfId, PdfValue)>,
    left: PdfId,
    right: PdfId,
    page: Seq<(Seq<u8>, PdfValue)>,
)
    requires
        forall|key: Seq<char>| #[trigger]
            is_inheritable(key) ==> page_attribute(later, right, key) == page_attribute(
                objects,
                left,
                key,
            ),
    ensures
        with_inherited(later, right, page) == with_inherited(objects, left, page),
{
    assert(is_inheritable("Resources"@));
    assert(is_inheritable("MediaBox"@));
    assert(is_inheritable("CropBox"@));
    assert(is_inheritable("Rotate"@));
}

/// A page that has every attribute that applies to it stays as it is.
proof fn lemma_complete_page_stays(
    objects: Seq<(PdfId, PdfValue)>,
    id: PdfId,
    page: Seq<(Seq<u8>, PdfValue)>,
)
    requires
        forall|key: Seq<char>| #[trigger]
            is_inheritable(key) ==> dict_get(page, utf8(key)) == page_attribute(objects, id, key),
    ensures
        with_inherited(objects, id, page) == page,
{
    assert(is_inheritable("Resources"@));
    assert(is_inheritable("MediaBox"@));
    assert(is_inheritable("CropBox"@));
    assert(is_inheritable("Rotate"@));
}

/// Whether a page stands in a later table as it was, or with its attributes written onto
/// it.
pub open spec fn is_same_or_complete(
    objects: Seq<(PdfId, PdfValue)>,
    later: Seq<(PdfId, PdfValue)>,
    id: PdfId,
) -> bool {
    match dictionary_of(objects, id) {
        Some(own) => dictionary_of(later, id) == Some(own) || dictionary_of(later, id) == Some(
            with_inherited(objects, id, own),
        ),
        None => dictionary_of(later, id) is None,
    }
}

/// Completing a page, be it as it was or complete already, completes it.
proof fn lemma_completion(
    objects: Seq<(PdfId, PdfValue)>,
    later: Seq<(PdfId, PdfValue)>,
    id: PdfId,
    last: PdfId,
)
    requires
        dictionary_of(later, id) is Some,
        dictionary_of(later, last) == dictionary_of(later, id),
        attributes_agree(objects, later, id),
        is_same_or_complete(objects, later, id),
    ensures
        dictionary_of(objects, id) is Some,
        with_inherited(later, last, dictionary_of(later, last)->0) == with_inherited(
            objects,
            id,
            dictionary_of(objects, id)->0,
        ),
{
    let own = dictionary_of(objects, id)->0;
    let current = dictionary_of(later, id)->0;
    assert forall|key: Seq<char>| #[trigger] is_inheritable(key) implies page_attribute(
        later,
        last,
        key,
    ) == page_attribute(objects, id, key) by {
        lemma_same_attribute(later, id, last, key);
    }
    lemma_same_completion(objects, later, id, last, current);
    if current != own {
        lemma_with_inherited(objects, id, own, utf8("Type"@));
        lemma_complete_page_stays(objects, id, current);
    }
}

/// Writing attributes onto pages writes onto each what applied to it, and changes nothing
/// else.
pub(crate) proof fn lemma_completed(document: PdfDocumentValue, pages: Seq<PdfId>)
    requires
        completed(document, pages) is Ok,
    ensures
        ({
            let later = completed(document, pages)->Ok_0;
            &&& forall|id: PdfId| #[trigger] attributes_agree(document.objects, later, id)
            &&& forall|id: PdfId| #[trigger] is_same_or_complete(document.objects, later, id)
            &&& forall|i: int|
                0 <= i < pages.len() ==> dictionary_of(document.objects, #[trigger] pages[i]) is Some
                    && dictionary_of(later, pages[i]) == Some(
                    with_inherited(
                        document.objects,
                        pages[i],
                        dictionary_of(document.objects, pages[i])->0,
                    ),
                )
        }),
    decreases pages.len(),
{
    let start = document.objects;
    if pages.len() > 0 {
        let shorter = pages.drop_last();
        lemma_completed(document, shorter);
        let before = completed(document, shorter)->Ok_0;
        let all = completed(document, pages)->Ok_0;
        let last = pages.last();
        let page = dictionary_of(before, last)->0;
        let after = with_inherited(before, last, page);
        let end = final_id(before, last, DEREFERENCE_LIMIT as nat);
        lemma_keys_differ();
        lemma_with_inherited(before, last, page, utf8("Parent"@));
        lemma_replaced(before, last, after);
        assert forall|id: PdfId| #[trigger] attributes_agree(start, all, id) by {
            assert(attributes_agree(start, before, id));
            lemma_attributes_agree(before, last, after, id);
        }
        assert forall|id: PdfId| #[trigger] is_same_or_complete(start, all, id) by {
            assert(attributes_agree(start, before, id));
            assert(is_same_or_complete(start, before, id));
            lemma_dictionary_changed(before, all, end, page, after, id);
            if dictionary_of(all, id) != dictionary_of(before, id) {
                lemma_completion(start, before, id, last);
            }
        }
        assert forall|i: int| 0 <= i < pages.len() implies dictionary_of(
            start,
            #[trigger] pages[i],
        ) is Some && dictionary_of(all, pages[i]) == Some(
            with_inherited(start, pages[i], dictionary_of(start, pages[i])->0),
        ) by {
            let id = pages[i];
            assert(attributes_agree(start, before, id));
            assert(is_same_or_complete(start, before, id));
            lemma_dictionary_changed(before, all, end, page, after, id);
            if i < shorter.len() {
                assert(shorter[i] == id);
            }
            if dictionary_of(all, id) != dictionary_of(before, id) || i == pages.len() - 1 {
                lemma_completion(start, before, id, last);
            }
        }
    }
}

} // verus!
