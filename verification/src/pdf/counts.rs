//! How many pages the nodes of a page tree declare. Numbering the objects of a document
//! anew makes room for as many pages as the nodes say that there are, before it looks at
//! them, so a document whose nodes say far more than it can hold is refused.

use vstd::prelude::*;

use crate::bytes::{same_bytes, utf8};
use crate::pdf::model::{
    array_value, dict_get, dictionary_of, find_dictionary, id_before, look_up, looked_up, name_at,
    object_dictionary, own_dictionary, table_value, PdfDictionary, PdfDocument, PdfDocumentValue,
    PdfId, PdfObject, PdfValue,
};

verus! {

/// How many pages a node may always declare, however few objects there are.
pub const MODEST_COUNT: u64 = 16_777_216;

/// How many pages the children of a node may declare together: as many as there are
/// objects, and some that are not there. The children of one node on each of the levels
/// that a walk goes down, 257 at most, are made room for at once, with twelve bytes for
/// each page.
pub open spec fn count_limit(objects: nat) -> int {
    let wanted = if objects > MODEST_COUNT {
        objects as int
    } else {
        MODEST_COUNT as int
    };
    if wanted > usize::MAX / 8192 {
        usize::MAX as int / 8192
    } else {
        wanted
    }
}

/// How many pages a child of a node declares: what it says for a node, and itself for
/// anything else.
pub open spec fn declared_count(objects: Seq<(PdfId, PdfValue)>, kid: PdfValue) -> nat {
    match kid {
        PdfValue::Reference(id) => match dictionary_of(objects, id) {
            Some(entries) => if name_at(entries, "Type"@) == Some(utf8("Pages"@)) {
                match dict_get(entries, utf8("Count"@)) {
                    Some(value) => match looked_up(objects, value) {
                        Some(PdfValue::Integer(count)) => if count > 0 {
                            count as nat
                        } else {
                            0
                        },
                        _ => 0,
                    },
                    None => 0,
                }
            } else {
                1
            },
            None => 1,
        },
        _ => 1,
    }
}

/// How many pages the children of a node declare together.
pub open spec fn declared_pages(objects: Seq<(PdfId, PdfValue)>, kids: Seq<PdfValue>) -> nat
    decreases kids.len(),
{
    if kids.len() == 0 {
        0
    } else {
        declared_pages(objects, kids.drop_last()) + declared_count(objects, kids.last())
    }
}

/// Whether a dictionary has at most one entry under a key.
pub open spec fn names_once(entries: Seq<(Seq<u8>, PdfValue)>, key: Seq<u8>) -> bool {
    forall|i: int, j: int|
        0 <= i < j < entries.len() && (#[trigger] entries[i]).0 == key ==> (#[trigger] entries[j]).0
            != key
}

/// Whether the children of a node declare no more pages than they may.
pub open spec fn is_modest(
    objects: Seq<(PdfId, PdfValue)>,
    entries: Seq<(Seq<u8>, PdfValue)>,
) -> bool {
    &&& names_once(entries, utf8("Type"@))
    &&& names_once(entries, utf8("Count"@))
    &&& names_once(entries, utf8("Kids"@))
    &&& match dict_get(entries, utf8("Kids"@)) {
        Some(value) => match looked_up(objects, value) {
            Some(PdfValue::Array(kids)) => declared_pages(objects, kids) <= count_limit(
                objects.len(),
            ),
            _ => true,
        },
        None => true,
    }
}

/// Whether an object, when it is a node, is a modest one.
pub open spec fn is_modest_object(objects: Seq<(PdfId, PdfValue)>, value: PdfValue) -> bool {
    match own_dictionary(value) {
        Some(entries) => is_modest(objects, entries),
        None => true,
    }
}

/// Whether the numbers of a table ascend.
pub open spec fn numbers_ascend(objects: Seq<(PdfId, PdfValue)>) -> bool {
    forall|i: int|
        0 < i < objects.len() ==> id_before(objects[i - 1].0, (#[trigger] objects[i]).0)
}

/// Whether no node of a document declares more pages than it may.
pub open spec fn counts_are_modest(document: PdfDocumentValue) -> bool {
    &&& document.objects.len() <= i32::MAX
    &&& numbers_ascend(document.objects)
    &&& forall|i: int|
        0 <= i < document.objects.len() ==> is_modest_object(
            document.objects,
            (#[trigger] document.objects[i]).1,
        )
}

/// The refusal of a document whose nodes declare more pages than they may.
pub open spec fn immodest_counts() -> Seq<char> {
    "This PDF declares more pages than it can hold."@
}

fn find_count(objects: &Vec<(PdfId, PdfObject)>, kid: &PdfObject) -> (count: u64)
    ensures
        count == declared_count(table_value(objects@), kid@),
{
    match kid {
        PdfObject::Reference(id) => match find_dictionary(objects, *id) {
            Some(dictionary) => {
                if !dictionary.name_is("Type", "Pages") {
                    return 1;
                }
                match dictionary.get("Count") {
                    Some(value) => match look_up(objects, value) {
                        Some(PdfObject::Integer(count)) => if *count > 0 {
                            *count as u64
                        } else {
                            0
                        },
                        _ => 0,
                    },
                    None => 0,
                }
            },
            None => 1,
        },
        _ => 1,
    }
}

proof fn lemma_sum_grows(objects: Seq<(PdfId, PdfValue)>, kids: Seq<PdfValue>, length: int)
    requires
        0 <= length <= kids.len(),
    ensures
        declared_pages(objects, kids.take(length)) <= declared_pages(objects, kids),
    decreases kids.len(),
{
    if length == kids.len() {
        assert(kids.take(length) =~= kids);
    } else {
        assert(kids.drop_last().take(length) =~= kids.take(length));
        lemma_sum_grows(objects, kids.drop_last(), length);
    }
}

fn sum_is_within(objects: &Vec<(PdfId, PdfObject)>, kids: &Vec<PdfObject>, limit: u64) -> (within:
    bool)
    ensures
        within == (declared_pages(table_value(objects@), array_value(kids@)) <= limit),
{
    let ghost table = table_value(objects@);
    let ghost values = array_value(kids@);
    let mut sum: u64 = 0;
    let mut i: usize = 0;
    while i < kids.len()
        invariant
            i <= kids@.len(),
            sum <= limit,
            table == table_value(objects@),
            values == array_value(kids@),
            sum == declared_pages(table, values.take(i as int)),
        decreases kids.len() - i,
    {
        assert(values.take(i + 1).drop_last() =~= values.take(i as int));
        assert(values.take(i + 1).last() == values[i as int]);
        let count: u64 = find_count(objects, &kids[i]);
        if count > limit - sum {
            proof {
                lemma_sum_grows(table, values, i + 1);
            }
            return false;
        }
        sum += count;
        i += 1;
    }
    assert(values.take(kids@.len() as int) =~= values);
    true
}

fn is_named_once(dictionary: &PdfDictionary, key: &str) -> (once: bool)
    ensures
        once == names_once(dictionary@, utf8(key@)),
{
    let ghost wanted = utf8(key@);
    let mut found = false;
    let mut i: usize = 0;
    while i < dictionary.entries.len()
        invariant
            i <= dictionary.entries@.len(),
            dictionary@.len() == dictionary.entries@.len(),
            wanted == utf8(key@),
            found == exists|j: int| 0 <= j < i && (#[trigger] dictionary@[j]).0 == wanted,
            forall|j: int, k: int|
                0 <= j < k < i && (#[trigger] dictionary@[j]).0 == wanted ==> (
                #[trigger] dictionary@[k]).0 != wanted,
        decreases dictionary.entries.len() - i,
    {
        assert(dictionary@[i as int].0 == dictionary.entries@[i as int].0@);
        if same_bytes(&dictionary.entries[i].0, key.as_bytes()) {
            if found {
                let ghost j = choose|j: int|
                    0 <= j < i && (#[trigger] dictionary@[j]).0 == wanted;
                assert(dictionary@[j].0 == wanted && dictionary@[i as int].0 == wanted);
                return false;
            }
            found = true;
        }
        i += 1;
    }
    true
}

fn find_limit(objects: usize) -> (limit: u64)
    ensures
        limit == count_limit(objects as nat),
{
    let wanted: u64 = if objects as u64 > MODEST_COUNT {
        objects as u64
    } else {
        MODEST_COUNT
    };
    let most: u64 = (usize::MAX / 8192) as u64;
    if wanted > most {
        most
    } else {
        wanted
    }
}

fn check_object(objects: &Vec<(PdfId, PdfObject)>, object: &PdfObject) -> (modest: bool)
    ensures
        modest == is_modest_object(table_value(objects@), object@),
{
    match object_dictionary(object) {
        Some(dictionary) => {
            if !is_named_once(dictionary, "Type") || !is_named_once(dictionary, "Count")
                || !is_named_once(dictionary, "Kids") {
                return false;
            }
            match dictionary.get("Kids") {
                Some(value) => match look_up(objects, value) {
                    Some(PdfObject::Array(kids)) => {
                        assert(table_value(objects@).len() == objects@.len());
                        sum_is_within(objects, kids, find_limit(objects.len()))
                    },
                    _ => true,
                },
                None => true,
            }
        },
        None => true,
    }
}

/// Whether no node of a document declares more pages than it may.
pub fn check_counts(document: &PdfDocument) -> (modest: bool)
    ensures
        modest == counts_are_modest(document@),
{
    let objects = &document.objects;
    assert(document@.objects == table_value(objects@));
    if objects.len() > i32::MAX as usize {
        return false;
    }
    let mut i: usize = 0;
    while i < objects.len()
        invariant
            i <= objects@.len(),
            document@.objects == table_value(objects@),
            objects == &document.objects,
            document@.objects.len() == objects@.len(),
            objects@.len() <= i32::MAX,
            forall|j: int|
                0 < j < i ==> id_before(
                    document@.objects[j - 1].0,
                    (#[trigger] document@.objects[j]).0,
                ),
            forall|j: int|
                0 <= j < i ==> is_modest_object(
                    document@.objects,
                    (#[trigger] document@.objects[j]).1,
                ),
        decreases objects.len() - i,
    {
        assert(document@.objects[i as int] == (objects@[i as int].0, objects@[i as int].1@));
        if i > 0 {
            let before = objects[i - 1].0;
            let here = objects[i].0;
            assert(document@.objects[i - 1].0 == before);
            if !(before.0 < here.0 || (before.0 == here.0 && before.1 < here.1)) {
                assert(!id_before(document@.objects[i - 1].0, document@.objects[i as int].0));
                return false;
            }
        }
        if !check_object(objects, &objects[i].1) {
            return false;
        }
        i += 1;
    }
    true
}

} // verus!
