//! What the pages of an organized document are, and where they stand.

use vstd::prelude::*;

use crate::bytes::{lemma_ascii, utf8};
use crate::pdf::laws::storing_a_value;
use crate::pdf::merge::{moved_objects, page_tree, references, FIRST_SOURCE_ID};
use crate::pdf::merge_laws::lemma_moved;
use crate::pdf::model::{
    dict_get, dict_set, dictionary_of, is_root, object_index_from, object_of, own_dictionary, put_object,
    PdfDocumentValue, PdfId, PdfValue,
};
use crate::pdf::organize::{
    bad_page_from, bad_rotation_from, counts_up, distinct, is_quarter_turn, nulled, nulled_table, organized_document, put_all,
    readable_labels, rearranged_catalog, removed_pages, selection, turned, Selection,
};
use crate::pdf::organize_laws::{
    angle_of, lemma_removed, organized_pages_keep_their_content, turned_page,
};
use crate::pdf::outside::{page_ids, pruned_pdf, renumbered_pdf};
use crate::pdf::page_laws::{
    is_inheritable, is_never_inherited, lemma_first, lemma_found_in_time, lemma_index,
    lemma_with_inherited, storing_an_object,
};
use crate::pdf::pages::{catalog_of, inherited, page_attribute, with_inherited};
use crate::pdf::rearrange_laws::{first_notices, lemma_unpruned, unpruned};

verus! {

/// A page has an attribute from itself, or else from its parent, which has it from itself or
/// its own parent, and so on.
pub proof fn pages_inherit_from_the_nearest(
    objects: Seq<(PdfId, PdfValue)>,
    id: PdfId,
    key: Seq<char>,
)
    ensures
        match dictionary_of(objects, id) {
            Some(page) => page_attribute(objects, id, key) == (match dict_get(page, utf8(key)) {
                Some(value) => Some(value),
                None => match dict_get(page, utf8("Parent"@)) {
                    Some(PdfValue::Reference(parent)) => page_attribute(objects, parent, key),
                    _ => None,
                },
            }),
            None => page_attribute(objects, id, key) is None,
        },
{
    let count = objects.len();
    if let Some(page) = dictionary_of(objects, id) {
        if dict_get(page, utf8(key)) is None {
            if let Some(PdfValue::Reference(parent)) = dict_get(page, utf8("Parent"@)) {
                if inherited(objects, parent, key, count) is Some {
                    lemma_found_in_time(objects, parent, key, count);
                } else if page_attribute(objects, parent, key) is Some {
                    assert(inherited(objects, id, key, count + 2) == page_attribute(
                        objects,
                        parent,
                        key,
                    ));
                    lemma_found_in_time(objects, id, key, count + 2);
                }
            }
        }
    }
}

proof fn lemma_page_keys()
    ensures
        utf8("Parent"@) != utf8("Rotate"@),
        utf8("Parent"@) != utf8("Resources"@),
        utf8("Parent"@) != utf8("MediaBox"@),
        utf8("Parent"@) != utf8("CropBox"@),
        utf8("Rotate"@) != utf8("Resources"@),
        utf8("Rotate"@) != utf8("MediaBox"@),
        utf8("Rotate"@) != utf8("CropBox"@),
        utf8("Parent"@) != utf8("Type"@),
        utf8("Type"@) != utf8("Kids"@),
        utf8("Type"@) != utf8("Count"@),
        utf8("Kids"@) != utf8("Count"@),
        utf8("Catalog"@) != utf8("Pages"@),
        utf8("Linearized"@) != utf8("Catalog"@),
        utf8("Linearized"@) != utf8("Pages"@),
{
    reveal_strlit("Parent");
    reveal_strlit("Rotate");
    reveal_strlit("Resources");
    reveal_strlit("MediaBox");
    reveal_strlit("CropBox");
    reveal_strlit("Type");
    reveal_strlit("Kids");
    reveal_strlit("Count");
    reveal_strlit("Catalog");
    reveal_strlit("Pages");
    lemma_ascii("Parent");
    lemma_ascii("Rotate");
    lemma_ascii("Resources");
    lemma_ascii("MediaBox");
    lemma_ascii("CropBox");
    lemma_ascii("Type");
    lemma_ascii("Kids");
    lemma_ascii("Count");
    lemma_ascii("Catalog");
    lemma_ascii("Pages");
    reveal_strlit("Linearized");
    lemma_ascii("Linearized");
    assert(utf8("Linearized"@).len() == 10);
    assert(utf8("Parent"@).len() == 6);
    assert(utf8("Rotate"@).len() == 6);
    assert(utf8("Resources"@).len() == 9);
    assert(utf8("MediaBox"@).len() == 8);
    assert(utf8("CropBox"@).len() == 7);
    assert(utf8("Type"@).len() == 4);
    assert(utf8("Kids"@).len() == 4);
    assert(utf8("Count"@).len() == 5);
    assert(utf8("Catalog"@).len() == 7);
    assert(utf8("Pages"@).len() == 5);
    assert(utf8("Parent"@)[0] == 0x50);
    assert(utf8("Rotate"@)[0] == 0x52);
    assert(utf8("Type"@)[0] == 0x54);
    assert(utf8("Kids"@)[0] == 0x4b);
}

/// Whether an entry of a page may change when the page is put into another document.
pub open spec fn is_page_entry(key: Seq<u8>) -> bool {
    ||| key == utf8("Parent"@)
    ||| key == utf8("Resources"@)
    ||| key == utf8("MediaBox"@)
    ||| key == utf8("CropBox"@)
    ||| key == utf8("Rotate"@)
}

/// An output page has the resources and the boxes that applied to the requested page, is turned
/// by the requested angle from how it stood, hangs under the new tree, and has every other
/// entry as it was.
pub proof fn organized_page_is_complete(
    document: PdfDocumentValue,
    pages: Seq<u32>,
    rotations: Seq<i32>,
    i: int,
    key: Seq<u8>,
)
    requires
        selection(document, pages, rotations) is Ok,
        0 <= i < pages.len(),
    ensures
        ({
            let source = renumbered_pdf(document, FIRST_SOURCE_ID);
            let chosen = selection(document, pages, rotations)->Ok_0;
            let id = page_ids(source)[pages[i] - 1];
            let own = match page_attribute(source.objects, id, "Rotate"@) {
                Some(PdfValue::Integer(angle)) => angle,
                _ => 0,
            };
            &&& 1 <= pages[i] <= page_ids(source).len()
            &&& chosen.output[i].1 matches PdfValue::Dictionary(page) && {
                &&& dict_get(page, utf8("Parent"@)) == Some(PdfValue::Reference((1u32, 0u16)))
                &&& dict_get(page, utf8("Resources"@)) == page_attribute(
                    source.objects,
                    id,
                    "Resources"@,
                )
                &&& dict_get(page, utf8("MediaBox"@)) == page_attribute(
                    source.objects,
                    id,
                    "MediaBox"@,
                )
                &&& dict_get(page, utf8("CropBox"@)) == page_attribute(
                    source.objects,
                    id,
                    "CropBox"@,
                )
                &&& dict_get(page, utf8("Rotate"@)) matches Some(PdfValue::Integer(angle)) && 0
                    <= angle < 360 && (angle - own - rotations[i]) % 360 == 0
                &&& dictionary_of(source.objects, id) matches Some(before) && (!is_page_entry(key)
                    ==> dict_get(page, key) == dict_get(before, key))
            }
        }),
{
    lemma_page_keys();
    organized_pages_keep_their_content(document, pages, rotations, i);
    let source = renumbered_pdf(document, FIRST_SOURCE_ID);
    let chosen = selection(document, pages, rotations)->Ok_0;
    let id = chosen.selected[i];
    let before = dictionary_of(source.objects, id)->0;
    lemma_with_inherited(source.objects, id, before, key);
    assert(is_inheritable("Resources"@));
    assert(is_inheritable("MediaBox"@));
    assert(is_inheritable("CropBox"@));
    assert(is_inheritable("Rotate"@));
    let whole = with_inherited(source.objects, id, before);
    lemma_turned(whole, rotations[i], utf8("Parent"@));
    lemma_turned(whole, rotations[i], utf8("Resources"@));
    lemma_turned(whole, rotations[i], utf8("MediaBox"@));
    lemma_turned(whole, rotations[i], utf8("CropBox"@));
    lemma_turned(whole, rotations[i], utf8("Rotate"@));
    lemma_turned(whole, rotations[i], key);
    if !is_page_entry(key) {
        assert(is_never_inherited(key));
    }
}

proof fn lemma_turned(page: Seq<(Seq<u8>, PdfValue)>, added: i32, key: Seq<u8>)
    ensures
        dict_get(turned_page(page, added), key) == (if key == utf8("Rotate"@) {
            Some(PdfValue::Integer(turned(angle_of(page), added)))
        } else if key == utf8("Parent"@) {
            Some(PdfValue::Reference((1u32, 0u16)))
        } else {
            dict_get(page, key)
        }),
{
    let tree = PdfValue::Reference((1u32, 0u16));
    let angle = PdfValue::Integer(turned(angle_of(page), added));
    storing_a_value(page, utf8("Parent"@), tree, key);
    storing_a_value(dict_set(page, utf8("Parent"@), tree), utf8("Rotate"@), angle, key);
}

/// A list of turns is in order exactly when each is by none, one, two or three quarters.
pub proof fn turns_are_by_quarters(rotations: Seq<i32>, from: int)
    requires
        0 <= from,
    ensures
        bad_rotation_from(rotations, from) is None <==> forall|k: int|
            from <= k < rotations.len() ==> (#[trigger] rotations[k] == 0 || rotations[k] == 90
                || rotations[k] == 180 || rotations[k] == 270),
        bad_rotation_from(rotations, from) matches Some(at) ==> from <= at < rotations.len(),
    decreases rotations.len() - from,
{
    if from < rotations.len() && is_quarter_turn(rotations[from]) {
        turns_are_by_quarters(rotations, from + 1);
    }
}

proof fn lemma_put_all(objects: Seq<(PdfId, PdfValue)>, added: Seq<(PdfId, PdfValue)>, id: PdfId)
    requires
        forall|i: int, j: int|
            0 <= i < j < added.len() ==> (#[trigger] added[i]).0 != (#[trigger] added[j]).0,
    ensures
        forall|i: int|
            0 <= i < added.len() && (#[trigger] added[i]).0 == id ==> object_of(
                put_all(objects, added),
                id,
            ) == Some(added[i].1),
        (forall|i: int| 0 <= i < added.len() ==> (#[trigger] added[i]).0 != id) ==> object_of(
            put_all(objects, added),
            id,
        ) == object_of(objects, id),
    decreases added.len(),
{
    if added.len() > 0 {
        let shorter = added.drop_last();
        let last = added.len() - 1;
        assert forall|i: int, j: int| 0 <= i < j < shorter.len() implies (#[trigger] shorter[i]).0
            != (#[trigger] shorter[j]).0 by {
            assert(added[i] == shorter[i] && added[j] == shorter[j]);
        }
        lemma_put_all(objects, shorter, id);
        storing_an_object(put_all(objects, shorter), added.last().0, added.last().1, id);
        assert(added[last] == added.last());
        assert forall|i: int| 0 <= i < added.len() && (#[trigger] added[i]).0 == id implies object_of(
            put_all(objects, added),
            id,
        ) == Some(added[i].1) by {
            if i < last {
                assert(shorter[i] == added[i]);
                assert(added[i].0 != added[last].0);
            }
        }
        if forall|i: int| 0 <= i < added.len() ==> (#[trigger] added[i]).0 != id {
            assert forall|i: int| 0 <= i < shorter.len() implies (#[trigger] shorter[i]).0 != id by {
                assert(added[i] == shorter[i]);
            }
        }
    }
}

proof fn lemma_nulled_table(objects: Seq<(PdfId, PdfValue)>, removed: Seq<PdfId>, id: PdfId)
    ensures
        object_of(nulled_table(objects, removed), id) == (match object_of(objects, id) {
            Some(value) => Some(nulled(value, removed)),
            None => None,
        }),
{
    let after = nulled_table(objects, removed);
    lemma_index(objects, id, 0);
    lemma_index(after, id, 0);
    match object_index_from(objects, id, 0) {
        Some(k) => {
            assert(after[k].0 == id);
            assert forall|j: int| 0 <= j < k implies (#[trigger] after[j]).0 != id by {
                assert(after[j].0 == objects[j].0);
            }
            lemma_first(after, id, k);
        },
        None => {
            if let Some(k) = object_index_from(after, id, 0) {
                assert(after[k].0 == objects[k].0);
            }
        },
    }
}

/// Whether an object is a catalog or a node of a page tree.
pub open spec fn is_framework(value: PdfValue) -> bool {
    own_dictionary(value) matches Some(entries) && {
        ||| dict_get(entries, utf8("Type"@)) == Some(PdfValue::Name(utf8("Catalog"@)))
        ||| dict_get(entries, utf8("Type"@)) == Some(PdfValue::Name(utf8("Pages"@)))
    }
}

/// Whether a document lists the output pages of a selection in order and holds them, and holds
/// every other object of the source, but for its catalog and its page tree, each with its
/// references to removed pages nulled.
pub open spec fn holds_the_output(
    whole: PdfDocumentValue,
    chosen: Selection,
    removed: Seq<PdfId>,
) -> bool {
    &&& forall|id: PdfId|
        removed.contains(id) <==> #[trigger] chosen.ids.contains(id) && !chosen.selected.contains(
            id,
        )
    &&& object_of(whole.objects, (1u32, 0u16)) matches Some(PdfValue::Dictionary(tree)) && {
        &&& dict_get(tree, utf8("Type"@)) == Some(PdfValue::Name(utf8("Pages"@)))
        &&& dict_get(tree, utf8("Count"@)) == Some(PdfValue::Integer(chosen.output.len() as i64))
        &&& dict_get(tree, utf8("Kids"@)) matches Some(PdfValue::Array(kids)) && kids.len()
            == chosen.output.len() && forall|i: int|
            0 <= i < kids.len() ==> #[trigger] kids[i] == PdfValue::Reference(chosen.output[i].0)
    }
    &&& forall|i: int|
        0 <= i < chosen.output.len() ==> object_of(
            whole.objects,
            (#[trigger] chosen.output[i]).0,
        ) == Some(nulled(chosen.output[i].1, removed))
    &&& forall|id: PdfId|
        #![trigger object_of(whole.objects, id)]
        id != (1u32, 0u16) && id != (2u32, 0u16) && (forall|i: int|
            0 <= i < chosen.output.len() ==> (#[trigger] chosen.output[i]).0 != id) ==> (
        object_of(chosen.source.objects, id) matches Some(value) ==> !is_framework(value)
            ==> object_of(whole.objects, id) == Some(nulled(value, removed)))
}

/// An organized document is one that holds the output of the selection, without what nothing
/// leads to.
#[verifier::spinoff_prover]
#[verifier::rlimit(60)]
pub proof fn organized_document_holds_the_output(
    version: Seq<char>,
    chosen: Selection,
    pages: Seq<u32>,
)
    requires
        forall|i: int, j: int|
            0 <= i < j < chosen.output.len() ==> (#[trigger] chosen.output[i]).0 != (
            #[trigger] chosen.output[j]).0,
        forall|i: int|
            0 <= i < chosen.output.len() ==> (#[trigger] chosen.output[i]).0 != (1u32, 0u16)
                && chosen.output[i].0 != (2u32, 0u16),
        forall|i: int, j: int|
            0 <= i < j < chosen.source.objects.len() ==> (#[trigger] chosen.source.objects[i]).0
                != (#[trigger] chosen.source.objects[j]).0,
    ensures
        exists|whole: PdfDocumentValue, removed: Seq<PdfId>| #[trigger]
            holds_the_output(whole, chosen, removed) && organized_document(
                version,
                chosen,
                pages,
            ).0 == pruned_pdf(whole),
{
    lemma_page_keys();
    lemma_unpruned(version, chosen, pages);
    let whole = unpruned(version, chosen, pages);
    let removed = removed_pages(chosen.ids, chosen.selected);
    let moved = moved_objects(Seq::empty(), chosen.source.objects, Seq::empty());
    let carried = put_all(moved, chosen.output);
    let output_ids = chosen.output.map_values(|entry: (PdfId, PdfValue)| entry.0);
    let listed = put_object(nulled_table(carried, removed), (1u32, 0u16), page_tree(output_ids));
    let catalog = object_catalog(version, chosen, pages);
    assert(whole.objects == put_object(listed, (2u32, 0u16), catalog));
    assert forall|id: PdfId|
        removed.contains(id) <==> #[trigger] chosen.ids.contains(id) && !chosen.selected.contains(
            id,
        ) by {
        lemma_removed(chosen.ids, chosen.selected, id);
    }
    storing_an_object(listed, (2u32, 0u16), catalog, (1u32, 0u16));
    storing_an_object(
        nulled_table(carried, removed),
        (1u32, 0u16),
        page_tree(output_ids),
        (1u32, 0u16),
    );
    lemma_tree(output_ids);
    assert forall|id: PdfId| id != (1u32, 0u16) && id != (2u32, 0u16) implies #[trigger] object_of(
        whole.objects,
        id,
    ) == (match object_of(carried, id) {
        Some(value) => Some(nulled(value, removed)),
        None => None,
    }) by {
        storing_an_object(listed, (2u32, 0u16), catalog, id);
        storing_an_object(
            nulled_table(carried, removed),
            (1u32, 0u16),
            page_tree(output_ids),
            id,
        );
        lemma_nulled_table(carried, removed, id);
    }
    assert forall|i: int| 0 <= i < chosen.output.len() implies object_of(
        whole.objects,
        (#[trigger] chosen.output[i]).0,
    ) == Some(nulled(chosen.output[i].1, removed)) by {
        lemma_put_all(moved, chosen.output, chosen.output[i].0);
    }
    assert forall|id: PdfId|
        #![trigger object_of(whole.objects, id)]
        id != (1u32, 0u16) && id != (2u32, 0u16) && (forall|i: int|
            0 <= i < chosen.output.len() ==> (#[trigger] chosen.output[i]).0 != id) implies (
    object_of(chosen.source.objects, id) matches Some(value) ==> !is_framework(value) ==> object_of(
        whole.objects,
        id,
    ) == Some(nulled(value, removed))) by {
        lemma_put_all(moved, chosen.output, id);
        lemma_moved(Seq::empty(), chosen.source.objects, Seq::empty(), id);
        if let Some(value) = object_of(chosen.source.objects, id) {
            assert(!Seq::<PdfId>::empty().contains(id));
            assert(!is_framework(value) ==> !is_root(value));
        }
    }
    assert(holds_the_output(whole, chosen, removed));
}

spec fn object_catalog(version: Seq<char>, chosen: Selection, pages: Seq<u32>) -> PdfValue {
    let catalog = catalog_of(chosen.source);
    let labels = readable_labels(chosen.source.objects, catalog);
    let removed = removed_pages(chosen.ids, chosen.selected);
    let original_order = removed.len() == 0 && pages.len() == distinct(
        chosen.selected,
    ).len() && counts_up(pages);
    nulled(
        PdfValue::Dictionary(
            rearranged_catalog(
                catalog,
                labels,
                pages,
                original_order,
                first_notices(chosen),
            ).0,
        ),
        removed,
    )
}

proof fn lemma_tree(pages: Seq<PdfId>)
    ensures
        ({
            let tree = page_tree(pages)->Dictionary_0;
            &&& page_tree(pages) is Dictionary
            &&& dict_get(tree, utf8("Type"@)) == Some(PdfValue::Name(utf8("Pages"@)))
            &&& dict_get(tree, utf8("Count"@)) == Some(PdfValue::Integer(pages.len() as i64))
            &&& dict_get(tree, utf8("Kids"@)) == Some(PdfValue::Array(references(pages)))
        }),
{
    lemma_page_keys();
    let none = Seq::<(Seq<u8>, PdfValue)>::empty();
    let kind = PdfValue::Name(utf8("Pages"@));
    let kids = PdfValue::Array(references(pages));
    let count = PdfValue::Integer(pages.len() as i64);
    let one = dict_set(none, utf8("Type"@), kind);
    let two = dict_set(one, utf8("Kids"@), kids);
    storing_a_value(none, utf8("Type"@), kind, utf8("Type"@));
    storing_a_value(one, utf8("Kids"@), kids, utf8("Type"@));
    storing_a_value(one, utf8("Kids"@), kids, utf8("Kids"@));
    storing_a_value(two, utf8("Count"@), count, utf8("Type"@));
    storing_a_value(two, utf8("Count"@), count, utf8("Kids"@));
    storing_a_value(two, utf8("Count"@), count, utf8("Count"@));
}

/// A list of pages is in order exactly when the document has each of them.
pub proof fn requested_pages_must_exist(pages: Seq<u32>, count: nat, from: int)
    requires
        0 <= from,
    ensures
        bad_page_from(pages, count, from) is None <==> forall|k: int|
            from <= k < pages.len() ==> 1 <= #[trigger] pages[k] <= count,
        bad_page_from(pages, count, from) matches Some(page) ==> page == 0 || page > count,
    decreases pages.len() - from,
{
    if from < pages.len() && 1 <= pages[from] <= count {
        requested_pages_must_exist(pages, count, from + 1);
    }
}

} // verus!
