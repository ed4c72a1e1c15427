//! What the operations on a dictionary keep and change.

use vstd::prelude::*;

use crate::pdf::model::{
    dict_get, dict_has, dict_index, dict_remove, dict_set, lemma_dict_index_from, PdfValue,
};

verus! {

/// Whether no key occurs twice.
pub open spec fn keys_distinct(entries: Seq<(Seq<u8>, PdfValue)>) -> bool {
    forall|i: int, j: int|
        0 <= i < j < entries.len() ==> (#[trigger] entries[i]).0 != (#[trigger] entries[j]).0
}

/// A dictionary whose keys are distinct gives back each value under its key.
proof fn lemma_get(entries: Seq<(Seq<u8>, PdfValue)>, i: int)
    requires
        keys_distinct(entries),
        0 <= i < entries.len(),
    ensures
        dict_index(entries, entries[i].0) == Some(i),
        dict_get(entries, entries[i].0) == Some(entries[i].1),
{
    lemma_dict_index_from(entries, entries[i].0, 0);
}

/// A removed key is gone, the keys stay distinct, and every other key keeps its
/// value.
pub proof fn removing_a_key(entries: Seq<(Seq<u8>, PdfValue)>, key: Seq<u8>, other: Seq<u8>)
    requires
        keys_distinct(entries),
    ensures
        keys_distinct(dict_remove(entries, key)),
        !dict_has(dict_remove(entries, key), key),
        other != key ==> dict_get(dict_remove(entries, key), other) == dict_get(entries, other),
{
    let removed = dict_remove(entries, key);
    lemma_dict_index_from(entries, key, 0);
    lemma_dict_index_from(entries, other, 0);
    lemma_dict_index_from(removed, key, 0);
    lemma_dict_index_from(removed, other, 0);
    match dict_index(entries, key) {
        Some(at) => {
            let last = entries.len() - 1;
            assert forall|j: int| 0 <= j < removed.len() implies removed[j] == entries[if j == at {
                last
            } else {
                j
            }] by {}
            if other != key {
                match dict_index(entries, other) {
                    Some(i) => {
                        let place = if i == last {
                            at
                        } else {
                            i
                        };
                        assert(removed[place] == entries[i]);
                        lemma_get(removed, place);
                    },
                    None => {
                        if dict_index(removed, other) is Some {
                            let j = dict_index(removed, other)->0;
                            assert(removed[j].0 == other);
                        }
                    },
                }
            }
            if dict_index(removed, key) is Some {
                let j = dict_index(removed, key)->0;
                assert(removed[j].0 == key);
            }
        },
        None => {},
    }
}

/// A stored value is read back, the keys stay distinct, and every other key keeps
/// its value.
pub proof fn storing_a_value(
    entries: Seq<(Seq<u8>, PdfValue)>,
    key: Seq<u8>,
    value: PdfValue,
    other: Seq<u8>,
)
    ensures
        keys_distinct(entries) ==> keys_distinct(dict_set(entries, key, value)),
        dict_get(dict_set(entries, key, value), key) == Some(value),
        other != key ==> dict_get(dict_set(entries, key, value), other) == dict_get(
            entries,
            other,
        ),
{
    let stored = dict_set(entries, key, value);
    lemma_dict_index_from(entries, key, 0);
    lemma_dict_index_from(entries, other, 0);
    lemma_dict_index_from(stored, key, 0);
    lemma_dict_index_from(stored, other, 0);
    assert forall|j: int| 0 <= j < entries.len() implies (#[trigger] stored[j]).0
        == entries[j].0 by {}
    match dict_index(entries, key) {
        Some(at) => {
            assert(stored[at] == (key, value));
        },
        None => {
            assert(stored[entries.len() as int] == (key, value));
        },
    }
    match dict_index(stored, key) {
        Some(j) => {
            assert(stored[j].0 == key);
        },
        None => {},
    }
    if other != key {
        match dict_index(stored, other) {
            Some(j) => {
                assert(stored[j].0 == other);
                assert(j < entries.len());
                assert(entries[j].0 == other);
                let i = dict_index(entries, other)->0;
                assert(stored[i].0 == other);
                assert(i == j);
            },
            None => {
                if dict_index(entries, other) is Some {
                    let i = dict_index(entries, other)->0;
                    assert(stored[i].0 == other);
                }
            },
        }
    }
}

/// What a dictionary holds, but for its last entry.
pub proof fn lemma_last_entry(entries: Seq<(Seq<u8>, PdfValue)>, key: Seq<u8>)
    requires
        keys_distinct(entries),
        entries.len() > 0,
    ensures
        keys_distinct(entries.drop_last()),
        dict_get(entries, key) == (if key == entries.last().0 {
            Some(entries.last().1)
        } else {
            dict_get(entries.drop_last(), key)
        }),
        dict_get(entries.drop_last(), entries.last().0) is None,
{
    let shorter = entries.drop_last();
    let last = entries.len() - 1;
    lemma_dict_index_from(entries, key, 0);
    lemma_dict_index_from(shorter, key, 0);
    lemma_dict_index_from(shorter, entries.last().0, 0);
    assert forall|j: int| 0 <= j < last implies (#[trigger] shorter[j]) == entries[j] by {}
    if dict_index(shorter, entries.last().0) is Some {
        let j = dict_index(shorter, entries.last().0)->0;
        assert(entries[j].0 == entries[last].0);
    }
    if key == entries.last().0 {
        lemma_get(entries, last);
    } else {
        match dict_index(entries, key) {
            Some(i) => {
                assert(i < last);
                assert(shorter[i].0 == key);
                lemma_get(shorter, i);
            },
            None => {
                if dict_index(shorter, key) is Some {
                    let j = dict_index(shorter, key)->0;
                    assert(entries[j].0 == key);
                }
            },
        }
    }
}

} // verus!
