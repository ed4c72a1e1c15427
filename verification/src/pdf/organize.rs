//! Keeping, reordering, repeating and rotating the pages of one PDF.

use vstd::prelude::*;

use crate::bytes::{copy_bytes, is_text, utf8};
use crate::notices::{
    notice, notice_values, push_notice, told_outcome, with_notice, FileResult, Notice, NoticeValue,
};
use crate::pdf::catalog::{label_for_index, page_label_for_index};
use crate::pdf::counts::{check_counts, counts_are_modest, immodest_counts};
use crate::pdf::merge::{
    bare_catalog, catalog_id, later_version, make_document, move_objects, moved_objects,
    new_bare_catalog, new_document, new_page_tree, page_tree, pick_later, tree_id,
    FIRST_SOURCE_ID,
};
use crate::pdf::model::{
    array_value, contains_id, copy_dictionary, copy_object, dict_get, dict_has, dict_set,
    dictionary_of, find_dictionary, insert_object, put_object, table_value, PdfDictionary,
    PdfDocument, PdfDocumentValue, PdfId, PdfObject, PdfStream, PdfStreamValue, PdfValue,
};
use crate::pdf::outside::{
    dictionary_error, dictionary_error_text, list_pages, page_ids, prune, pruned_pdf, renumber,
    renumbered_pdf, write_pdf, written_pdf,
};
use crate::pdf::pages::{
    catalog_of, document_catalog, load_pdf, loaded_pdf, replace_dictionary,
    replace_object_dictionary, with_inherited, write_inherited,
};
use crate::pdf::trees::{
    flatten_number_tree, number_tree, number_tree_pairs, number_tree_value, numbered_values,
    TREE_LEVELS,
};
use crate::text::{decimal, decimal_text, joined, outcome};

verus! {

/// A value with every reference to a removed page replaced by null.
pub open spec fn nulled(value: PdfValue, removed: Seq<PdfId>) -> PdfValue
    decreases value,
{
    match value {
        PdfValue::Reference(id) => if removed.contains(id) {
            PdfValue::Null
        } else {
            value
        },
        PdfValue::Array(items) => PdfValue::Array(nulled_items(items, removed)),
        PdfValue::Dictionary(entries) => PdfValue::Dictionary(nulled_entries(entries, removed)),
        PdfValue::Stream(stream) => PdfValue::Stream(
            PdfStreamValue { dict: nulled_entries(stream.dict, removed), ..stream },
        ),
        _ => value,
    }
}

/// An array with every reference to a removed page replaced by null.
pub open spec fn nulled_items(items: Seq<PdfValue>, removed: Seq<PdfId>) -> Seq<PdfValue>
    decreases items,
{
    Seq::new(
        items.len(),
        |i: int|
            if 0 <= i < items.len() {
                nulled(items[i], removed)
            } else {
                PdfValue::Null
            },
    )
}

/// A dictionary with every reference to a removed page replaced by null.
pub open spec fn nulled_entries(
    entries: Seq<(Seq<u8>, PdfValue)>,
    removed: Seq<PdfId>,
) -> Seq<(Seq<u8>, PdfValue)>
    decreases entries,
{
    Seq::new(
        entries.len(),
        |i: int|
            if 0 <= i < entries.len() {
                (entries[i].0, nulled(entries[i].1, removed))
            } else {
                (Seq::empty(), PdfValue::Null)
            },
    )
}

/// Replace every reference to a dropped page with null. Bookmarks and links that
/// pointed at a removed page stop pointing at it, which also lets pruning
/// actually delete the page's content instead of keeping it alive (and readable)
/// through a stale reference.
pub fn null_references_to(object: &PdfObject, removed: &Vec<PdfId>) -> (result: PdfObject)
    ensures
        result@ == nulled(object@, removed@),
    decreases object,
{
    match object {
        PdfObject::Reference(id) => {
            if contains_id(removed, *id) {
                PdfObject::Null
            } else {
                PdfObject::Reference(*id)
            }
        },
        PdfObject::Array(items) => PdfObject::Array(null_items(items, removed)),
        PdfObject::Dictionary(dictionary) => {
            PdfObject::Dictionary(null_entries(dictionary, removed))
        },
        PdfObject::Stream(stream) => PdfObject::Stream(null_stream(stream, removed)),
        _ => copy_object(object),
    }
}

fn null_items(items: &Vec<PdfObject>, removed: &Vec<PdfId>) -> (results: Vec<PdfObject>)
    ensures
        array_value(results@) == nulled_items(array_value(items@), removed@),
    decreases items,
{
    let mut results: Vec<PdfObject> = Vec::new();
    let mut i: usize = 0;
    while i < items.len()
        invariant
            i <= items@.len(),
            results@.len() == i,
            forall|j: int| 0 <= j < i ==> (#[trigger] results@[j])@ == nulled(items@[j]@, removed@),
        decreases items.len() - i,
    {
        let result = null_references_to(&items[i], removed);
        results.push(result);
        i += 1;
    }
    assert(array_value(results@) =~= nulled_items(array_value(items@), removed@));
    results
}

fn null_entries(dictionary: &PdfDictionary, removed: &Vec<PdfId>) -> (result: PdfDictionary)
    ensures
        result@ == nulled_entries(dictionary@, removed@),
    decreases dictionary,
{
    let mut entries: Vec<(Vec<u8>, PdfObject)> = Vec::new();
    let mut i: usize = 0;
    while i < dictionary.entries.len()
        invariant
            i <= dictionary.entries@.len(),
            entries@.len() == i,
            forall|j: int|
                0 <= j < i ==> (#[trigger] entries@[j]).0@ == dictionary.entries@[j].0@
                    && entries@[j].1@ == nulled(dictionary.entries@[j].1@, removed@),
        decreases dictionary.entries.len() - i,
    {
        let entry = &dictionary.entries[i];
        let value = null_references_to(&entry.1, removed);
        entries.push((copy_bytes(&entry.0), value));
        i += 1;
    }
    let result = PdfDictionary { entries };
    assert(result@ =~= nulled_entries(dictionary@, removed@));
    result
}

fn null_stream(stream: &PdfStream, removed: &Vec<PdfId>) -> (result: PdfStream)
    ensures
        PdfValue::Stream(result@) == nulled(PdfValue::Stream(stream@), removed@),
    decreases stream,
{
    PdfStream {
        dict: null_entries(&stream.dict, removed),
        content: copy_bytes(&stream.content),
        allows_compression: stream.allows_compression,
        start_position: stream.start_position,
    }
}

/// An object table with every reference to a removed page replaced by null.
pub open spec fn nulled_table(
    objects: Seq<(PdfId, PdfValue)>,
    removed: Seq<PdfId>,
) -> Seq<(PdfId, PdfValue)> {
    objects.map_values(|entry: (PdfId, PdfValue)| (entry.0, nulled(entry.1, removed)))
}

fn null_table(
    objects: &Vec<(PdfId, PdfObject)>,
    removed: &Vec<PdfId>,
) -> (results: Vec<(PdfId, PdfObject)>)
    ensures
        table_value(results@) == nulled_table(table_value(objects@), removed@),
{
    let mut results: Vec<(PdfId, PdfObject)> = Vec::new();
    let mut i: usize = 0;
    while i < objects.len()
        invariant
            i <= objects@.len(),
            results@.len() == i,
            forall|j: int|
                0 <= j < i ==> (#[trigger] results@[j]).0 == objects@[j].0 && results@[j].1@
                    == nulled(objects@[j].1@, removed@),
        decreases objects.len() - i,
    {
        let result = null_references_to(&objects[i].1, removed);
        results.push((objects[i].0, result));
        i += 1;
    }
    assert(table_value(results@) =~= nulled_table(table_value(objects@), removed@));
    results
}

/// Whether a clockwise turn is one that a page can take.
pub open spec fn is_quarter_turn(rotation: i32) -> bool {
    rotation == 0 || rotation == 90 || rotation == 180 || rotation == 270
}

/// The first rotation at or after `from` that is no quarter turn.
pub open spec fn bad_rotation_from(rotations: Seq<i32>, from: int) -> Option<int>
    decreases rotations.len() - from,
{
    if from >= rotations.len() {
        None
    } else if is_quarter_turn(rotations[from]) {
        bad_rotation_from(rotations, from + 1)
    } else {
        Some(from)
    }
}

fn find_bad_rotation(rotations: &Vec<i32>) -> (place: Option<usize>)
    ensures
        match place {
            Some(at) => bad_rotation_from(rotations@, 0) == Some(at as int) && at
                < rotations@.len(),
            None => bad_rotation_from(rotations@, 0) is None && forall|i: int|
                0 <= i < rotations@.len() ==> is_quarter_turn(#[trigger] rotations@[i]),
        },
{
    let mut i: usize = 0;
    while i < rotations.len()
        invariant
            i <= rotations@.len(),
            bad_rotation_from(rotations@, 0) == bad_rotation_from(rotations@, i as int),
            forall|j: int| 0 <= j < i ==> is_quarter_turn(#[trigger] rotations@[j]),
        decreases rotations.len() - i,
    {
        let rotation: i32 = rotations[i];
        if !(rotation == 0 || rotation == 90 || rotation == 180 || rotation == 270) {
            return Some(i);
        }
        i += 1;
    }
    None
}

/// The first page number at or after `from` that the document does not have.
pub open spec fn bad_page_from(pages: Seq<u32>, count: nat, from: int) -> Option<u32>
    decreases pages.len() - from,
{
    if from >= pages.len() {
        None
    } else if 1 <= pages[from] <= count {
        bad_page_from(pages, count, from + 1)
    } else {
        Some(pages[from])
    }
}

fn find_bad_page(pages: &Vec<u32>, count: u32) -> (bad: Option<u32>)
    ensures
        bad == bad_page_from(pages@, count as nat, 0),
        bad is None ==> forall|i: int| 0 <= i < pages@.len() ==> 1 <= #[trigger] pages@[i] <= count,
{
    let mut i: usize = 0;
    while i < pages.len()
        invariant
            i <= pages@.len(),
            bad_page_from(pages@, count as nat, 0) == bad_page_from(
                pages@,
                count as nat,
                i as int,
            ),
            forall|j: int| 0 <= j < i ==> 1 <= #[trigger] pages@[j] <= count,
        decreases pages.len() - i,
    {
        let page: u32 = pages[i];
        if page < 1 || page > count {
            return Some(page);
        }
        i += 1;
    }
    None
}

/// The page objects that the page numbers select, or the first number that has
/// no page.
pub open spec fn selected_pages(pages: Seq<u32>, ids: Seq<PdfId>) -> Result<Seq<PdfId>, Seq<char>>
    decreases pages.len(),
{
    if pages.len() == 0 {
        Ok(Seq::empty())
    } else {
        match selected_pages(pages.drop_last(), ids) {
            Err(error) => Err(error),
            Ok(before) => if 1 <= pages.last() <= ids.len() {
                Ok(before.push(ids[pages.last() - 1]))
            } else {
                Err("Could not find page "@ + decimal(pages.last() as nat) + " in this PDF."@)
            },
        }
    }
}

proof fn lemma_selected_error(pages: Seq<u32>, ids: Seq<PdfId>, length: int)
    requires
        0 <= length <= pages.len(),
        selected_pages(pages.take(length), ids) is Err,
    ensures
        selected_pages(pages, ids) == selected_pages(pages.take(length), ids),
    decreases pages.len(),
{
    if length == pages.len() {
        assert(pages.take(length) =~= pages);
    } else {
        assert(pages.drop_last().take(length) =~= pages.take(length));
        lemma_selected_error(pages.drop_last(), ids, length);
    }
}

fn select_pages(pages: &Vec<u32>, ids: &Vec<PdfId>) -> (selected: Result<Vec<PdfId>, String>)
    ensures
        outcome(selected) == selected_pages(pages@, ids@),
        selected matches Ok(list) ==> list@.len() == pages@.len(),
{
    let mut selected: Vec<PdfId> = Vec::new();
    assert(pages@.take(0) =~= Seq::empty());
    assert(selected@ =~= Seq::empty());
    let mut i: usize = 0;
    while i < pages.len()
        invariant
            i <= pages@.len(),
            selected@.len() == i,
            selected_pages(pages@.take(i as int), ids@) == Ok::<Seq<PdfId>, Seq<char>>(selected@),
        decreases pages.len() - i,
    {
        assert(pages@.take(i + 1).drop_last() =~= pages@.take(i as int));
        let page: u32 = pages[i];
        if page >= 1 && page as usize <= ids.len() {
            selected.push(ids[page as usize - 1]);
        } else {
            let mut text = joined("Could not find page ", decimal_text(page as u64).as_str());
            text.append(" in this PDF.");
            proof {
                lemma_selected_error(pages@, ids@, i + 1);
            }
            return Err(text);
        }
        i += 1;
    }
    assert(pages@.take(pages@.len() as int) =~= pages@);
    Ok(selected)
}

/// The distinct members of a list, in the order of their first use.
pub open spec fn distinct(ids: Seq<PdfId>) -> Seq<PdfId>
    decreases ids.len(),
{
    if ids.len() == 0 {
        Seq::empty()
    } else {
        let before = distinct(ids.drop_last());
        if before.contains(ids.last()) {
            before
        } else {
            before.push(ids.last())
        }
    }
}

fn list_distinct(ids: &Vec<PdfId>) -> (unique: Vec<PdfId>)
    ensures
        unique@ == distinct(ids@),
{
    let mut unique: Vec<PdfId> = Vec::new();
    assert(ids@.take(0) =~= Seq::empty());
    let mut i: usize = 0;
    while i < ids.len()
        invariant
            i <= ids@.len(),
            unique@ == distinct(ids@.take(i as int)),
        decreases ids.len() - i,
    {
        assert(ids@.take(i + 1).drop_last() =~= ids@.take(i as int));
        if !contains_id(&unique, ids[i]) {
            unique.push(ids[i]);
        }
        i += 1;
    }
    assert(ids@.take(ids@.len() as int) =~= ids@);
    unique
}

/// The refusal of a page that is no dictionary.
pub open spec fn page_error(document: PdfDocumentValue, id: PdfId) -> Seq<char> {
    "Could not read a PDF page: "@ + dictionary_error_text(document, id)
}

/// The object table with every inheritable attribute written onto these pages.
pub open spec fn completed(
    document: PdfDocumentValue,
    pages: Seq<PdfId>,
) -> Result<Seq<(PdfId, PdfValue)>, Seq<char>>
    decreases pages.len(),
{
    if pages.len() == 0 {
        Ok(document.objects)
    } else {
        match completed(document, pages.drop_last()) {
            Err(error) => Err(error),
            Ok(objects) => match dictionary_of(objects, pages.last()) {
                Some(page) => Ok(
                    replace_dictionary(
                        objects,
                        pages.last(),
                        with_inherited(objects, pages.last(), page),
                    ),
                ),
                None => Err(
                    page_error((PdfDocumentValue { objects, ..document }), pages.last()),
                ),
            },
        }
    }
}

proof fn lemma_completed_error(document: PdfDocumentValue, pages: Seq<PdfId>, length: int)
    requires
        0 <= length <= pages.len(),
        completed(document, pages.take(length)) is Err,
    ensures
        completed(document, pages) == completed(document, pages.take(length)),
    decreases pages.len(),
{
    if length == pages.len() {
        assert(pages.take(length) =~= pages);
    } else {
        assert(pages.drop_last().take(length) =~= pages.take(length));
        lemma_completed_error(document, pages.drop_last(), length);
    }
}

fn complete_pages(document: &mut PdfDocument, pages: &Vec<PdfId>) -> (done: Result<(), String>)
    ensures
        final(document)@ == (PdfDocumentValue {
            objects: final(document)@.objects,
            ..old(document)@
        }),
        match done {
            Ok(_) => completed(old(document)@, pages@) == Ok::<Seq<(PdfId, PdfValue)>, Seq<char>>(
                final(document)@.objects,
            ),
            Err(error) => completed(old(document)@, pages@) == Err::<
                Seq<(PdfId, PdfValue)>,
                Seq<char>,
            >(error@),
        },
{
    let ghost start = document@;
    assert(pages@.take(0) =~= Seq::empty());
    let mut i: usize = 0;
    while i < pages.len()
        invariant
            i <= pages@.len(),
            start == old(document)@,
            document@ == (PdfDocumentValue { objects: document@.objects, ..start }),
            completed(start, pages@.take(i as int)) == Ok::<Seq<(PdfId, PdfValue)>, Seq<char>>(
                document@.objects,
            ),
        decreases pages.len() - i,
    {
        assert(pages@.take(i + 1).drop_last() =~= pages@.take(i as int));
        let id = pages[i];
        let found: Option<PdfDictionary> = match find_dictionary(&document.objects, id) {
            Some(page) => Some(copy_dictionary(page)),
            None => None,
        };
        match found {
            Some(mut page) => {
                write_inherited(&document.objects, id, &mut page);
                replace_object_dictionary(&mut document.objects, id, page);
            },
            None => {
                let error = dictionary_error(document, id);
                proof {
                    lemma_completed_error(start, pages@, i + 1);
                }
                return Err(joined("Could not read a PDF page: ", error.as_str()));
            },
        }
        i += 1;
    }
    assert(pages@.take(pages@.len() as int) =~= pages@);
    Ok(())
}

/// The rotation a page has once a quarter turn was added: at least 0 and below
/// 360 degrees.
pub open spec fn turned(existing: i64, added: i32) -> i64 {
    ((existing + added) % 360) as i64
}

/// One output page: its number, its entries, and the next free number.
pub open spec fn output_page(
    document: PdfDocumentValue,
    id: PdfId,
    added: i32,
    used: Seq<PdfId>,
    next_id: u32,
) -> Result<(PdfId, PdfValue, u32), Seq<char>> {
    match dictionary_of(document.objects, id) {
        None => Err(page_error(document, id)),
        Some(page) => {
            let existing = match dict_get(page, utf8("Rotate"@)) {
                None => Some(0i64),
                Some(PdfValue::Integer(value)) => Some(value),
                Some(_) => None,
            };
            match existing {
                None => Err("A page has an invalid existing rotation value."@),
                Some(existing) => if existing + added > i64::MAX {
                    Err("A page rotation value is too large."@)
                } else {
                    let value = PdfValue::Dictionary(
                        dict_set(
                            dict_set(page, utf8("Parent"@), PdfValue::Reference(tree_id())),
                            utf8("Rotate"@),
                            PdfValue::Integer(turned(existing, added)),
                        ),
                    );
                    if !used.contains(id) {
                        Ok((id, value, next_id))
                    } else if next_id == u32::MAX {
                        Err("This PDF contains too many objects to organize."@)
                    } else {
                        Ok(((next_id, 0u16), value, (next_id + 1) as u32))
                    }
                },
            }
        },
    }
}

/// The output pages in order: their numbers and entries, and the next free
/// number. A page that was used before gets a number of its own.
pub open spec fn output_pages(
    document: PdfDocumentValue,
    selected: Seq<PdfId>,
    rotations: Seq<i32>,
    next_id: u32,
) -> Result<(Seq<(PdfId, PdfValue)>, u32), Seq<char>>
    decreases selected.len(),
{
    if selected.len() == 0 {
        Ok((Seq::empty(), next_id))
    } else {
        let shorter = selected.drop_last();
        match output_pages(document, shorter, rotations, next_id) {
            Err(error) => Err(error),
            Ok((before, next)) => match output_page(
                document,
                selected.last(),
                rotations[selected.len() - 1],
                distinct(shorter),
                next,
            ) {
                Err(error) => Err(error),
                Ok((id, value, following)) => Ok((before.push((id, value)), following)),
            },
        }
    }
}

proof fn lemma_output_error(
    document: PdfDocumentValue,
    selected: Seq<PdfId>,
    rotations: Seq<i32>,
    next_id: u32,
    length: int,
)
    requires
        0 <= length <= selected.len(),
        output_pages(document, selected.take(length), rotations, next_id) is Err,
    ensures
        output_pages(document, selected, rotations, next_id) == output_pages(
            document,
            selected.take(length),
            rotations,
            next_id,
        ),
    decreases selected.len(),
{
    if length == selected.len() {
        assert(selected.take(length) =~= selected);
    } else {
        assert(selected.drop_last().take(length) =~= selected.take(length));
        lemma_output_error(document, selected.drop_last(), rotations, next_id, length);
    }
}

fn make_output_page(
    document: &PdfDocument,
    id: PdfId,
    added: i32,
    used: &Vec<PdfId>,
    next_id: u32,
) -> (made: Result<(PdfId, PdfObject, u32), String>)
    requires
        is_quarter_turn(added),
    ensures
        match made {
            Ok((page_id, page, next)) => output_page(document@, id, added, used@, next_id) == Ok::<
                (PdfId, PdfValue, u32),
                Seq<char>,
            >((page_id, page@, next)),
            Err(error) => output_page(document@, id, added, used@, next_id) == Err::<
                (PdfId, PdfValue, u32),
                Seq<char>,
            >(error@),
        },
{
    let found: Option<PdfDictionary> = match find_dictionary(&document.objects, id) {
        Some(page) => Some(copy_dictionary(page)),
        None => None,
    };
    match found {
        None => {
            let error = dictionary_error(document, id);
            Err(joined("Could not read a PDF page: ", error.as_str()))
        },
        Some(mut page) => {
            let existing: i64 = match page.get("Rotate") {
                None => 0,
                Some(PdfObject::Integer(value)) => *value,
                Some(_) => {
                    return Err("A page has an invalid existing rotation value.".to_owned());
                },
            };
            if existing > i64::MAX - added as i64 {
                return Err("A page rotation value is too large.".to_owned());
            }
            let sum: i64 = existing + added as i64;
            let turn: i64 = euclidean_remainder(sum);
            page.set("Parent", PdfObject::Reference((1, 0)));
            page.set("Rotate", PdfObject::Integer(turn));
            if !contains_id(used, id) {
                Ok((id, PdfObject::Dictionary(page), next_id))
            } else if next_id == u32::MAX {
                Err("This PDF contains too many objects to organize.".to_owned())
            } else {
                Ok(((next_id, 0), PdfObject::Dictionary(page), next_id + 1))
            }
        },
    }
}

fn euclidean_remainder(value: i64) -> (remainder: i64)
    ensures
        remainder == value as int % 360,
        0 <= remainder < 360,
{
    if value >= 0 {
        (value as u64 % 360) as i64
    } else {
        let back: u64 = (-(value + 1)) as u64 % 360;
        359 - back as i64
    }
}

fn make_output_pages(
    document: &PdfDocument,
    selected: &Vec<PdfId>,
    rotations: &Vec<i32>,
    next_id: u32,
) -> (made: Result<(Vec<(PdfId, PdfObject)>, u32), String>)
    requires
        selected@.len() == rotations@.len(),
        forall|i: int| 0 <= i < rotations@.len() ==> is_quarter_turn(#[trigger] rotations@[i]),
    ensures
        match made {
            Ok((pages, next)) => output_pages(document@, selected@, rotations@, next_id) == Ok::<
                (Seq<(PdfId, PdfValue)>, u32),
                Seq<char>,
            >((table_value(pages@), next)) && next_id <= next,
            Err(error) => output_pages(document@, selected@, rotations@, next_id) == Err::<
                (Seq<(PdfId, PdfValue)>, u32),
                Seq<char>,
            >(error@),
        },
{
    let mut pages: Vec<(PdfId, PdfObject)> = Vec::new();
    let mut used: Vec<PdfId> = Vec::new();
    let mut next: u32 = next_id;
    assert(selected@.take(0) =~= Seq::empty());
    assert(table_value(pages@) =~= Seq::empty());
    let mut i: usize = 0;
    while i < selected.len()
        invariant
            i <= selected@.len(),
            selected@.len() == rotations@.len(),
            forall|j: int| 0 <= j < rotations@.len() ==> is_quarter_turn(#[trigger] rotations@[j]),
            next_id <= next,
            used@ == distinct(selected@.take(i as int)),
            output_pages(document@, selected@.take(i as int), rotations@, next_id) == Ok::<
                (Seq<(PdfId, PdfValue)>, u32),
                Seq<char>,
            >((table_value(pages@), next)),
        decreases selected.len() - i,
    {
        let ghost before = table_value(pages@);
        assert(selected@.take(i + 1).drop_last() =~= selected@.take(i as int));
        match make_output_page(document, selected[i], rotations[i], &used, next) {
            Err(error) => {
                proof {
                    lemma_output_error(document@, selected@, rotations@, next_id, i + 1);
                }
                return Err(error);
            },
            Ok((id, page, following)) => {
                pages.push((id, page));
                next = following;
                assert(table_value(pages@) =~= before.push((id, page@)));
            },
        }
        if !contains_id(&used, selected[i]) {
            used.push(selected[i]);
        }
        i += 1;
    }
    assert(selected@.take(selected@.len() as int) =~= selected@);
    Ok((pages, next))
}

/// The pages of the document that were not selected.
pub open spec fn removed_pages(ids: Seq<PdfId>, selected: Seq<PdfId>) -> Seq<PdfId>
    decreases ids.len(),
{
    if ids.len() == 0 {
        Seq::empty()
    } else {
        let before = removed_pages(ids.drop_last(), selected);
        if selected.contains(ids.last()) {
            before
        } else {
            before.push(ids.last())
        }
    }
}

fn list_removed(ids: &Vec<PdfId>, selected: &Vec<PdfId>) -> (removed: Vec<PdfId>)
    ensures
        removed@ == removed_pages(ids@, selected@),
{
    let mut removed: Vec<PdfId> = Vec::new();
    assert(ids@.take(0) =~= Seq::empty());
    let mut i: usize = 0;
    while i < ids.len()
        invariant
            i <= ids@.len(),
            removed@ == removed_pages(ids@.take(i as int), selected@),
        decreases ids.len() - i,
    {
        assert(ids@.take(i + 1).drop_last() =~= ids@.take(i as int));
        if !contains_id(selected, ids[i]) {
            removed.push(ids[i]);
        }
        i += 1;
    }
    assert(ids@.take(ids@.len() as int) =~= ids@);
    removed
}

/// Whether the page numbers count up from one.
pub open spec fn counts_up(pages: Seq<u32>) -> bool {
    forall|i: int| 0 <= i < pages.len() ==> #[trigger] pages[i] == i + 1
}

fn is_counting_up(pages: &Vec<u32>) -> (counting: bool)
    ensures
        counting == counts_up(pages@),
{
    let mut i: usize = 0;
    while i < pages.len()
        invariant
            i <= pages@.len(),
            forall|j: int| 0 <= j < i ==> #[trigger] pages@[j] == j + 1,
        decreases pages.len() - i,
    {
        if pages[i] as u64 != i as u64 + 1 {
            assert(pages@[i as int] != i + 1);
            return false;
        }
        i += 1;
    }
    true
}

/// Objects stored in the table in turn.
pub open spec fn put_all(
    objects: Seq<(PdfId, PdfValue)>,
    added: Seq<(PdfId, PdfValue)>,
) -> Seq<(PdfId, PdfValue)>
    decreases added.len(),
{
    if added.len() == 0 {
        objects
    } else {
        put_object(put_all(objects, added.drop_last()), added.last().0, added.last().1)
    }
}

fn insert_all(objects: &mut Vec<(PdfId, PdfObject)>, added: &Vec<(PdfId, PdfObject)>)
    ensures
        table_value(final(objects)@) == put_all(table_value(old(objects)@), table_value(added@)),
{
    let ghost start = table_value(objects@);
    let ghost all = table_value(added@);
    assert(all.take(0) =~= Seq::empty());
    let mut i: usize = 0;
    while i < added.len()
        invariant
            i <= added@.len(),
            all == table_value(added@),
            table_value(objects@) == put_all(start, all.take(i as int)),
        decreases added.len() - i,
    {
        assert(all.take(i + 1).drop_last() =~= all.take(i as int));
        assert(all.take(i + 1).last() == (added@[i as int].0, added@[i as int].1@));
        insert_object(objects, added[i].0, copy_object(&added[i].1));
        i += 1;
    }
    assert(all.take(all.len() as int) =~= all);
}

/// The label of each output page, keyed by its new place, when every page has
/// one.
pub open spec fn relabelled(labels: Seq<(i64, PdfValue)>, pages: Seq<u32>) -> Option<
    Seq<(i64, PdfValue)>,
>
    decreases pages.len(),
{
    if pages.len() == 0 {
        Some(Seq::empty())
    } else {
        let index = (pages.last() - 1) as i64;
        match (relabelled(labels, pages.drop_last()), label_for_index(labels, index)) {
            (Some(before), Some(label)) => Some(before.push(((pages.len() - 1) as i64, label))),
            _ => None,
        }
    }
}

proof fn lemma_relabelled_none(labels: Seq<(i64, PdfValue)>, pages: Seq<u32>, length: int)
    requires
        0 <= length <= pages.len(),
        relabelled(labels, pages.take(length)) is None,
    ensures
        relabelled(labels, pages) is None,
    decreases pages.len(),
{
    if length == pages.len() {
        assert(pages.take(length) =~= pages);
    } else {
        assert(pages.drop_last().take(length) =~= pages.take(length));
        lemma_relabelled_none(labels, pages.drop_last(), length);
    }
}

fn relabel(labels: &Vec<(i64, PdfObject)>, pages: &Vec<u32>) -> (result: Option<
    Vec<(i64, PdfObject)>,
>)
    requires
        pages@.len() <= i64::MAX,
    ensures
        match result {
            Some(result) => relabelled(numbered_values(labels@), pages@) == Some(
                numbered_values(result@),
            ),
            None => relabelled(numbered_values(labels@), pages@) is None,
        },
{
    let ghost all = numbered_values(labels@);
    let mut result: Vec<(i64, PdfObject)> = Vec::new();
    assert(pages@.take(0) =~= Seq::empty());
    assert(numbered_values(result@) =~= Seq::empty());
    let mut i: usize = 0;
    while i < pages.len()
        invariant
            i <= pages@.len(),
            pages@.len() <= i64::MAX,
            all == numbered_values(labels@),
            relabelled(all, pages@.take(i as int)) == Some(numbered_values(result@)),
        decreases pages.len() - i,
    {
        let ghost before = numbered_values(result@);
        assert(pages@.take(i + 1).drop_last() =~= pages@.take(i as int));
        match page_label_for_index(labels, pages[i] as i64 - 1) {
            Some(label) => {
                result.push((i as i64, label));
                assert(numbered_values(result@) =~= before.push((i as i64, label@)));
            },
            None => {
                proof {
                    lemma_relabelled_none(all, pages@, i + 1);
                }
                return None;
            },
        }
        i += 1;
    }
    assert(pages@.take(pages@.len() as int) =~= pages@);
    Some(result)
}

/// The statement that page numbering could not be rearranged.
pub open spec fn labels_dropped_notice() -> NoticeValue {
    notice(
        "pdf-page-labels-dropped"@,
        "This PDF stores its page numbering in a form this tool cannot rearrange, so the output uses plain page numbers."@,
    )
}

fn new_labels_dropped_notice() -> (dropped: Notice)
    ensures
        dropped@ == labels_dropped_notice(),
{
    Notice::new(
        "pdf-page-labels-dropped",
        "This PDF stores its page numbering in a form this tool cannot rearrange, so the output uses plain page numbers.",
    )
}

/// The statement that links to removed pages lead nowhere.
pub open spec fn links_notice() -> NoticeValue {
    notice(
        "pdf-links-to-removed-pages"@,
        "Bookmarks or links that pointed at a page you removed no longer jump anywhere. Every other bookmark and link still works."@,
    )
}

/// The statement that accessibility tags were left out.
pub open spec fn tags_notice() -> NoticeValue {
    notice(
        "pdf-tags-dropped"@,
        "Accessibility tags were removed because they describe the original page order, and keeping them would tell screen readers to read the new file in the old order. Pages, text, and images are unchanged."@,
    )
}

/// The statement that signatures could not stay valid in a rearranged file.
pub open spec fn rearranged_signature_notice() -> NoticeValue {
    notice(
        "pdf-signature-dropped"@,
        "Digital-signature information was removed: rearranging pages changes the bytes a signature covers, so the signature could not stay valid."@,
    )
}

/// The new catalog after some entries of the old one. `labels` are the page
/// labels, when they can be read.
pub open spec fn rearranged_catalog(
    catalog: Seq<(Seq<u8>, PdfValue)>,
    labels: Option<Seq<(i64, PdfValue)>>,
    pages: Seq<u32>,
    original_order: bool,
    notices: Seq<NoticeValue>,
) -> (Seq<(Seq<u8>, PdfValue)>, Seq<NoticeValue>)
    decreases catalog.len(),
{
    if catalog.len() == 0 {
        (bare_catalog(), notices)
    } else {
        let (before, told) = rearranged_catalog(
            catalog.drop_last(),
            labels,
            pages,
            original_order,
            notices,
        );
        let (key, value) = catalog.last();
        if key == utf8("Type"@) || key == utf8("Pages"@) {
            (before, told)
        } else if key == utf8("PageLabels"@) {
            match labels {
                None => (before, told),
                Some(labels) => if original_order {
                    (dict_set(before, key, value), told)
                } else {
                    match relabelled(labels, pages) {
                        Some(moved) => (dict_set(before, key, number_tree_value(moved)), told),
                        None => (before, with_notice(told, labels_dropped_notice())),
                    }
                },
            }
        } else if key == utf8("StructTreeRoot"@) || key == utf8("MarkInfo"@) {
            if original_order {
                (dict_set(before, key, value), told)
            } else {
                (before, with_notice(told, tags_notice()))
            }
        } else if key == utf8("Perms"@) || key == utf8("Legal"@) || key == utf8("DSS"@) {
            (before, with_notice(told, rearranged_signature_notice()))
        } else {
            (dict_set(before, key, value), told)
        }
    }
}

fn rearrange_catalog(
    catalog: &PdfDictionary,
    labels: &Option<Vec<(i64, PdfObject)>>,
    pages: &Vec<u32>,
    original_order: bool,
    notices: &mut Vec<Notice>,
) -> (result: PdfDictionary)
    requires
        pages@.len() <= i64::MAX,
    ensures
        (result@, notice_values(final(notices)@)) == rearranged_catalog(
            catalog@,
            optional_labels(*labels),
            pages@,
            original_order,
            notice_values(old(notices)@),
        ),
{
    let ghost all = catalog@;
    let ghost label_values = optional_labels(*labels);
    let ghost notices0 = notice_values(notices@);
    let mut result = new_bare_catalog();
    assert(all.take(0) =~= Seq::empty());
    let mut i: usize = 0;
    while i < catalog.entries.len()
        invariant
            i <= catalog.entries@.len(),
            pages@.len() <= i64::MAX,
            all == catalog@,
            label_values == optional_labels(*labels),
            (result@, notice_values(notices@)) == rearranged_catalog(
                all.take(i as int),
                label_values,
                pages@,
                original_order,
                notices0,
            ),
        decreases catalog.entries.len() - i,
    {
        let entry = &catalog.entries[i];
        let key = &entry.0;
        assert(all.take(i + 1).drop_last() =~= all.take(i as int));
        assert(all.take(i + 1).last() == (entry.0@, entry.1@));
        if is_text(key, "Type") || is_text(key, "Pages") {
        } else if is_text(key, "PageLabels") {
            if let Some(labels) = labels {
                if original_order {
                    result.set_key(copy_bytes(key), copy_object(&entry.1));
                } else {
                    match relabel(labels, pages) {
                        Some(moved) => {
                            result.set_key(copy_bytes(key), number_tree(moved));
                        },
                        None => {
                            push_notice(notices, new_labels_dropped_notice());
                        },
                    }
                }
            }
        } else if is_text(key, "StructTreeRoot") || is_text(key, "MarkInfo") {
            if original_order {
                result.set_key(copy_bytes(key), copy_object(&entry.1));
            } else {
                push_notice(
                    notices,
                    Notice::new(
                        "pdf-tags-dropped",
                        "Accessibility tags were removed because they describe the original page order, and keeping them would tell screen readers to read the new file in the old order. Pages, text, and images are unchanged.",
                    ),
                );
            }
        } else if is_text(key, "Perms") || is_text(key, "Legal") || is_text(key, "DSS") {
            push_notice(
                notices,
                Notice::new(
                    "pdf-signature-dropped",
                    "Digital-signature information was removed: rearranging pages changes the bytes a signature covers, so the signature could not stay valid.",
                ),
            );
        } else {
            result.set_key(copy_bytes(key), copy_object(&entry.1));
        }
        i += 1;
    }
    assert(all.take(all.len() as int) =~= all);
    result
}

/// Page labels by their values, when there are any.
pub open spec fn optional_labels(labels: Option<Vec<(i64, PdfObject)>>) -> Option<
    Seq<(i64, PdfValue)>,
> {
    match labels {
        Some(labels) => Some(numbered_values(labels@)),
        None => None,
    }
}

/// The page labels of a catalog, when they can be read.
pub open spec fn readable_labels(
    objects: Seq<(PdfId, PdfValue)>,
    catalog: Seq<(Seq<u8>, PdfValue)>,
) -> Option<Seq<(i64, PdfValue)>> {
    match dict_get(catalog, utf8("PageLabels"@)) {
        Some(tree) => number_tree_pairs(objects, tree, TREE_LEVELS as nat),
        None => None,
    }
}

fn read_labels(
    objects: &Vec<(PdfId, PdfObject)>,
    catalog: &PdfDictionary,
) -> (labels: Option<Vec<(i64, PdfObject)>>)
    ensures
        optional_labels(labels) == readable_labels(table_value(objects@), catalog@),
{
    match catalog.get("PageLabels") {
        Some(tree) => {
            let mut labels: Vec<(i64, PdfObject)> = Vec::new();
            assert(numbered_values(labels@) =~= Seq::empty());
            if flatten_number_tree(objects, tree, &mut labels, TREE_LEVELS) {
                proof {
                    let pairs = number_tree_pairs(
                        table_value(objects@),
                        tree@,
                        TREE_LEVELS as nat,
                    )->0;
                    assert(numbered_values(labels@) =~= pairs);
                }
                Some(labels)
            } else {
                None
            }
        },
        None => None,
    }
}

/// What the output needs: the source after its inheritable attributes were
/// written onto the selected pages, all its pages, the selected ones, the output
/// pages, and the next free number.
pub struct Selection {
    pub source: PdfDocumentValue,
    pub ids: Seq<PdfId>,
    pub selected: Seq<PdfId>,
    pub output: Seq<(PdfId, PdfValue)>,
    pub next_id: u32,
}

/// The selection that page numbers and rotations make in a document.
pub open spec fn selection(
    document: PdfDocumentValue,
    pages: Seq<u32>,
    rotations: Seq<i32>,
) -> Result<Selection, Seq<char>> {
    if FIRST_SOURCE_ID + document.objects.len() > u32::MAX {
        Err("This PDF contains too many objects to organize."@)
    } else if !counts_are_modest(document) {
        Err(immodest_counts())
    } else {
        let source = renumbered_pdf(document, FIRST_SOURCE_ID);
        let ids = page_ids(source);
        match selected_pages(pages, ids) {
            Err(error) => Err(error),
            Ok(selected) => match completed(source, distinct(selected)) {
                Err(error) => Err(error),
                Ok(objects) => if source.max_id == u32::MAX {
                    Err("This PDF contains too many objects to organize."@)
                } else {
                    let complete = PdfDocumentValue { objects, ..source };
                    match output_pages(
                        complete,
                        selected,
                        rotations,
                        (source.max_id + 1) as u32,
                    ) {
                        Err(error) => Err(error),
                        Ok((output, next_id)) => Ok(
                            Selection { source: complete, ids, selected, output, next_id },
                        ),
                    }
                },
            },
        }
    }
}

/// The output document of a selection, and what has to be said about it.
pub open spec fn organized_document(
    version: Seq<char>,
    chosen: Selection,
    pages: Seq<u32>,
) -> (PdfDocumentValue, Seq<NoticeValue>) {
    let catalog = catalog_of(chosen.source);
    let labels = readable_labels(chosen.source.objects, catalog);
    let removed = removed_pages(chosen.ids, chosen.selected);
    let original_order = removed.len() == 0 && pages.len() == distinct(chosen.selected).len()
        && counts_up(pages);
    let told_labels = if dict_has(catalog, utf8("PageLabels"@)) && labels is None {
        with_notice(Seq::empty(), labels_dropped_notice())
    } else {
        Seq::empty()
    };
    let carried = put_all(
        moved_objects(Seq::empty(), chosen.source.objects, Seq::empty()),
        chosen.output,
    );
    let told_links = if removed.len() > 0 {
        with_notice(told_labels, links_notice())
    } else {
        told_labels
    };
    let output_ids = chosen.output.map_values(|entry: (PdfId, PdfValue)| entry.0);
    let (rearranged, notices) = rearranged_catalog(
        catalog,
        labels,
        pages,
        original_order,
        told_links,
    );
    let objects = put_object(
        put_object(nulled_table(carried, removed), tree_id(), page_tree(output_ids)),
        catalog_id(),
        nulled(PdfValue::Dictionary(rearranged), removed),
    );
    (
        pruned_pdf(
            new_document(
                later_version(version, "1.5"@),
                objects,
                (chosen.next_id - 1) as u32,
                catalog_id(),
            ),
        ),
        notices,
    )
}

/// What organizing a loaded document gives, once the requested pages and
/// rotations were found to be in order.
pub open spec fn organized_pages(
    document: PdfDocumentValue,
    pages: Seq<u32>,
    rotations: Seq<i32>,
) -> Result<(Seq<u8>, Seq<NoticeValue>), Seq<char>> {
    match selection(document, pages, rotations) {
        Err(error) => Err(error),
        Ok(chosen) => if chosen.output.len() > i64::MAX {
            Err("This PDF has too many output pages."@)
        } else {
            let (output, notices) = organized_document(document.version, chosen, pages);
            match written_pdf(output) {
                Err(error) => Err("Could not create the organized PDF: "@ + error),
                Ok(bytes) => Ok((bytes, notices)),
            }
        },
    }
}

/// What organizing a loaded document gives.
pub open spec fn organized_loaded(
    document: PdfDocumentValue,
    pages: Seq<u32>,
    rotations: Seq<i32>,
) -> Result<(Seq<u8>, Seq<NoticeValue>), Seq<char>> {
    let count = page_ids(document).len();
    if count > u32::MAX {
        Err("This PDF has too many pages to organize."@)
    } else if count == 0 {
        Err("This PDF has no pages to organize."@)
    } else {
        match bad_page_from(pages, count, 0) {
            Some(page) => Err(
                "Page "@ + decimal(page as nat) + " is outside this PDF's page range (1–"@
                    + decimal(count) + ")."@,
            ),
            None => organized_pages(document, pages, rotations),
        }
    }
}

/// What keeping these pages with these rotations gives.
pub open spec fn organized_file(
    bytes: Seq<u8>,
    pages: Seq<u32>,
    rotations: Seq<i32>,
) -> Result<(Seq<u8>, Seq<NoticeValue>), Seq<char>> {
    if pages.len() == 0 {
        Err("Choose at least one page for the output PDF."@)
    } else if pages.len() != rotations.len() {
        Err("Every output page must have one rotation value."@)
    } else {
        match bad_rotation_from(rotations, 0) {
            Some(at) => Err(
                "Rotation for output page "@ + decimal((at + 1) as nat)
                    + " must be 0, 90, 180, or 270 degrees."@,
            ),
            None => match loaded_pdf(bytes) {
                Err(error) => Err(error),
                Ok(document) => organized_loaded(document, pages, rotations),
            },
        }
    }
}

struct Chosen {
    source: PdfDocument,
    ids: Vec<PdfId>,
    selected: Vec<PdfId>,
    output: Vec<(PdfId, PdfObject)>,
    next_id: u32,
}

spec fn chosen_value(chosen: Chosen) -> Selection {
    Selection {
        source: chosen.source@,
        ids: chosen.ids@,
        selected: chosen.selected@,
        output: table_value(chosen.output@),
        next_id: chosen.next_id,
    }
}

fn choose_pages(document: &PdfDocument, pages: &Vec<u32>, rotations: &Vec<i32>) -> (chosen: Result<
    Chosen,
    String,
>)
    requires
        pages@.len() == rotations@.len(),
        forall|i: int| 0 <= i < rotations@.len() ==> is_quarter_turn(#[trigger] rotations@[i]),
    ensures
        match chosen {
            Ok(chosen) => selection(document@, pages@, rotations@) == Ok::<Selection, Seq<char>>(
                chosen_value(chosen),
            ) && chosen.next_id > 0 && chosen.selected@.len() == pages@.len(),
            Err(error) => selection(document@, pages@, rotations@) == Err::<Selection, Seq<char>>(
                error@,
            ),
        },
{
    assert(document@.objects.len() == document.objects@.len());
    if document.objects.len() > (u32::MAX - FIRST_SOURCE_ID) as usize {
        return Err("This PDF contains too many objects to organize.".to_owned());
    }
    if !check_counts(document) {
        return Err("This PDF declares more pages than it can hold.".to_owned());
    }
    let mut source = renumber(document, FIRST_SOURCE_ID);
    let ids = list_pages(&source);
    let selected = match select_pages(pages, &ids) {
        Ok(selected) => selected,
        Err(error) => {
            return Err(error);
        },
    };
    let unique = list_distinct(&selected);
    match complete_pages(&mut source, &unique) {
        Ok(_) => {},
        Err(error) => {
            return Err(error);
        },
    }
    if source.max_id == u32::MAX {
        return Err("This PDF contains too many objects to organize.".to_owned());
    }
    match make_output_pages(&source, &selected, rotations, source.max_id + 1) {
        Ok((output, next_id)) => Ok(Chosen { source, ids, selected, output, next_id }),
        Err(error) => Err(error),
    }
}

fn output_numbers(output: &Vec<(PdfId, PdfObject)>) -> (numbers: Vec<PdfId>)
    ensures
        numbers@ == table_value(output@).map_values(|entry: (PdfId, PdfValue)| entry.0),
{
    let mut numbers: Vec<PdfId> = Vec::new();
    let mut i: usize = 0;
    while i < output.len()
        invariant
            i <= output@.len(),
            numbers@.len() == i,
            forall|j: int| 0 <= j < i ==> #[trigger] numbers@[j] == output@[j].0,
        decreases output.len() - i,
    {
        numbers.push(output[i].0);
        i += 1;
    }
    assert(numbers@ =~= table_value(output@).map_values(|entry: (PdfId, PdfValue)| entry.0));
    numbers
}

fn assemble(
    version: &str,
    chosen: Chosen,
    pages: &Vec<u32>,
    notices: &mut Vec<Notice>,
) -> (document: PdfDocument)
    requires
        chosen.next_id > 0,
        chosen.output@.len() <= i64::MAX,
        pages@.len() <= i64::MAX,
        old(notices)@.len() == 0,
    ensures
        (document@, notice_values(final(notices)@)) == organized_document(
            version@,
            chosen_value(chosen),
            pages@,
        ),
{
    let catalog = document_catalog(&chosen.source);
    let labels = read_labels(&chosen.source.objects, &catalog);
    assert(notice_values(notices@) =~= Seq::empty());
    if catalog.has("PageLabels") && labels.is_none() {
        push_notice(notices, new_labels_dropped_notice());
    }
    let removed = list_removed(&chosen.ids, &chosen.selected);
    let unique = list_distinct(&chosen.selected);
    let original_order = removed.len() == 0 && pages.len() == unique.len() && is_counting_up(pages);
    let mut carried: Vec<(PdfId, PdfObject)> = Vec::new();
    let no_pages: Vec<PdfId> = Vec::new();
    assert(table_value(carried@) =~= Seq::empty());
    assert(no_pages@ =~= Seq::empty());
    move_objects(&mut carried, &chosen.source.objects, &no_pages);
    insert_all(&mut carried, &chosen.output);
    let mut objects = null_table(&carried, &removed);
    if removed.len() > 0 {
        push_notice(
            notices,
            Notice::new(
                "pdf-links-to-removed-pages",
                "Bookmarks or links that pointed at a page you removed no longer jump anywhere. Every other bookmark and link still works.",
            ),
        );
    }
    let numbers = output_numbers(&chosen.output);
    insert_object(&mut objects, (1, 0), new_page_tree(&numbers));
    let rearranged = rearrange_catalog(&catalog, &labels, pages, original_order, notices);
    let root = null_references_to(&PdfObject::Dictionary(rearranged), &removed);
    insert_object(&mut objects, (2, 0), root);
    let document = make_document(
        pick_later(version, "1.5"),
        objects,
        chosen.next_id - 1,
        (2, 0),
    );
    prune(document)
}

/// Keep pages of a loaded document in the requested order, adding a clockwise
/// rotation to each one.
pub fn organize_document(
    document: &PdfDocument,
    pages: &Vec<u32>,
    rotations: &Vec<i32>,
) -> (organized: Result<(Vec<u8>, Vec<Notice>), String>)
    requires
        pages@.len() == rotations@.len(),
        forall|i: int| 0 <= i < rotations@.len() ==> is_quarter_turn(#[trigger] rotations@[i]),
    ensures
        told_outcome(organized) == organized_loaded(document@, pages@, rotations@),
{
    let ids = list_pages(document);
    if ids.len() > u32::MAX as usize {
        return Err("This PDF has too many pages to organize.".to_owned());
    }
    let count: u32 = ids.len() as u32;
    if count == 0 {
        return Err("This PDF has no pages to organize.".to_owned());
    }
    if let Some(page) = find_bad_page(pages, count) {
        let mut text = joined("Page ", decimal_text(page as u64).as_str());
        text.append(" is outside this PDF's page range (1–");
        text.append(decimal_text(count as u64).as_str());
        text.append(").");
        return Err(text);
    }
    match choose_pages(document, pages, rotations) {
        Err(error) => Err(error),
        Ok(chosen) => {
            let ghost value = chosen_value(chosen);
            proof {
                lemma_output_length(
                    value.source,
                    value.selected,
                    rotations@,
                    (value.source.max_id + 1) as u32,
                );
            }
            if chosen.output.len() as u64 > i64::MAX as u64 {
                return Err("This PDF has too many output pages.".to_owned());
            }
            let mut notices: Vec<Notice> = Vec::new();
            let output = assemble(document.version.as_str(), chosen, pages, &mut notices);
            match write_pdf(&output) {
                Err(error) => Err(joined("Could not create the organized PDF: ", error.as_str())),
                Ok(bytes) => Ok((bytes, notices)),
            }
        },
    }
}

/// There is one output page for each selected page.
pub proof fn lemma_output_length(
    document: PdfDocumentValue,
    selected: Seq<PdfId>,
    rotations: Seq<i32>,
    next_id: u32,
)
    ensures
        output_pages(document, selected, rotations, next_id) matches Ok((output, _))
            ==> output.len() == selected.len(),
    decreases selected.len(),
{
    if selected.len() > 0 {
        lemma_output_length(document, selected.drop_last(), rotations, next_id);
    }
}

/// Keep source pages in the requested output order, adding a clockwise rotation
/// to each one, and return the serialized PDF together with everything the user
/// must be told about the result.
pub fn organize(bytes: &[u8], pages: Vec<u32>, rotations: Vec<i32>) -> (organized: Result<
    (Vec<u8>, Vec<Notice>),
    String,
>)
    ensures
        told_outcome(organized) == organized_file(bytes@, pages@, rotations@),
{
    if pages.len() == 0 {
        return Err("Choose at least one page for the output PDF.".to_owned());
    }
    if pages.len() != rotations.len() {
        return Err("Every output page must have one rotation value.".to_owned());
    }
    if let Some(at) = find_bad_rotation(&rotations) {
        let mut text = joined("Rotation for output page ", decimal_text(at as u64 + 1).as_str());
        text.append(" must be 0, 90, 180, or 270 degrees.");
        return Err(text);
    }
    match load_pdf(bytes) {
        Err(error) => Err(error),
        Ok(document) => organize_document(&document, &pages, &rotations),
    }
}

/// Keep pages in the requested order, adding the parallel rotation values.
/// Returns the bytes plus every notice the interface must show.
pub fn organize_pdf(bytes: &[u8], pages: Vec<u32>, rotations: Vec<i32>) -> (organized: Result<
    FileResult,
    String,
>)
    ensures
        outcome(organized) == organized_file(bytes@, pages@, rotations@),
{
    match organize(bytes, pages, rotations) {
        Ok((bytes, notices)) => Ok(FileResult::new(bytes, notices)),
        Err(error) => Err(error),
    }
}

} // verus!
