//! What rearranging pages keeps of everything else: the catalog, the page labels, and what is
//! told of what could not be kept.

use vstd::prelude::*;

use crate::bytes::{lemma_ascii, utf8};
use crate::notices::{has_code, with_notice, NoticeValue};
use crate::pdf::catalog::{label_for_index, label_range};
use crate::pdf::laws::{keys_distinct, lemma_last_entry, storing_a_value};
use crate::pdf::merge::{
    bare_catalog, catalog_id, later_version, moved_objects, new_document, page_tree, references,
    tree_id,
};
use crate::pdf::model::{
    dict_get, dict_has, dict_index, dict_set, integer_at, lemma_dict_index_from, object_index_from,
    object_of, put_object, PdfDocumentValue, PdfId, PdfValue,
};
use crate::pdf::organize::{
    counts_up, distinct, labels_dropped_notice, links_notice, nulled, nulled_entries, nulled_items,
    nulled_table, organized_document, put_all, readable_labels, rearranged_catalog,
    rearranged_signature_notice, relabelled, removed_pages, tags_notice, Selection,
};
use crate::pdf::organize_laws::{is_page, lemma_removed, names_pages};
use crate::pdf::outside::{
    entries_mention, is_chain, mentions, pruned_pdf, reachable,
};
use crate::pdf::page_laws::{lemma_index, storing_an_object};
use crate::pdf::pages::catalog_of;
use crate::pdf::trees::number_tree_value;

verus! {

/// The catalog entries that rearranging looks at: the catalog's own two, the page labels, the
/// accessibility tags, and what belongs to signatures.
pub open spec fn is_looked_at(key: Seq<u8>) -> bool {
    ||| key == utf8("Type"@)
    ||| key == utf8("Pages"@)
    ||| key == utf8("PageLabels"@)
    ||| key == utf8("StructTreeRoot"@)
    ||| key == utf8("MarkInfo"@)
    ||| key == utf8("Perms"@)
    ||| key == utf8("Legal"@)
    ||| key == utf8("DSS"@)
}

proof fn lemma_catalog_keys()
    ensures
        utf8("Type"@) != utf8("Pages"@),
        utf8("Type"@) != utf8("PageLabels"@),
        utf8("Type"@) != utf8("StructTreeRoot"@),
        utf8("Type"@) != utf8("MarkInfo"@),
        utf8("Type"@) != utf8("Perms"@),
        utf8("Type"@) != utf8("Legal"@),
        utf8("Type"@) != utf8("DSS"@),
        utf8("Pages"@) != utf8("PageLabels"@),
        utf8("Pages"@) != utf8("StructTreeRoot"@),
        utf8("Pages"@) != utf8("MarkInfo"@),
        utf8("Pages"@) != utf8("Perms"@),
        utf8("Pages"@) != utf8("Legal"@),
        utf8("Pages"@) != utf8("DSS"@),
        utf8("PageLabels"@) != utf8("StructTreeRoot"@),
        utf8("PageLabels"@) != utf8("MarkInfo"@),
        utf8("PageLabels"@) != utf8("Perms"@),
        utf8("PageLabels"@) != utf8("Legal"@),
        utf8("PageLabels"@) != utf8("DSS"@),
        utf8("StructTreeRoot"@) != utf8("MarkInfo"@),
        utf8("StructTreeRoot"@) != utf8("Perms"@),
        utf8("StructTreeRoot"@) != utf8("Legal"@),
        utf8("StructTreeRoot"@) != utf8("DSS"@),
        utf8("MarkInfo"@) != utf8("Perms"@),
        utf8("MarkInfo"@) != utf8("Legal"@),
        utf8("MarkInfo"@) != utf8("DSS"@),
        utf8("Perms"@) != utf8("Legal"@),
        utf8("Perms"@) != utf8("DSS"@),
        utf8("Legal"@) != utf8("DSS"@),
{
    reveal_strlit("Type");
    reveal_strlit("Pages");
    reveal_strlit("PageLabels");
    reveal_strlit("StructTreeRoot");
    reveal_strlit("MarkInfo");
    reveal_strlit("Perms");
    reveal_strlit("Legal");
    reveal_strlit("DSS");
    lemma_ascii("Type");
    lemma_ascii("Pages");
    lemma_ascii("PageLabels");
    lemma_ascii("StructTreeRoot");
    lemma_ascii("MarkInfo");
    lemma_ascii("Perms");
    lemma_ascii("Legal");
    lemma_ascii("DSS");
    assert(utf8("Type"@).len() == 4);
    assert(utf8("Pages"@).len() == 5);
    assert(utf8("PageLabels"@).len() == 10);
    assert(utf8("StructTreeRoot"@).len() == 14);
    assert(utf8("MarkInfo"@).len() == 8);
    assert(utf8("Perms"@).len() == 5);
    assert(utf8("Legal"@).len() == 5);
    assert(utf8("DSS"@).len() == 3);
    assert(utf8("Legal"@)[0] == 0x4c);
    assert(utf8("Pages"@)[0] == 0x50);
    assert(utf8("Pages"@)[1] == 0x61);
    assert(utf8("Perms"@)[0] == 0x50);
    assert(utf8("Perms"@)[1] == 0x65);
}

proof fn lemma_codes()
    ensures
        "pdf-tags-dropped"@ != "pdf-signature-dropped"@,
        "pdf-tags-dropped"@ != "pdf-page-labels-dropped"@,
        "pdf-tags-dropped"@ != "pdf-links-to-removed-pages"@,
        "pdf-signature-dropped"@ != "pdf-page-labels-dropped"@,
        "pdf-signature-dropped"@ != "pdf-links-to-removed-pages"@,
        "pdf-page-labels-dropped"@ != "pdf-links-to-removed-pages"@,
{
    reveal_strlit("pdf-tags-dropped");
    reveal_strlit("pdf-signature-dropped");
    reveal_strlit("pdf-page-labels-dropped");
    reveal_strlit("pdf-links-to-removed-pages");
    assert("pdf-tags-dropped"@.len() == 16);
    assert("pdf-signature-dropped"@.len() == 21);
    assert("pdf-page-labels-dropped"@.len() == 23);
    assert("pdf-links-to-removed-pages"@.len() == 26);
}

proof fn lemma_told(notices: Seq<NoticeValue>, added: NoticeValue, code: Seq<char>)
    ensures
        has_code(with_notice(notices, added), code) == (has_code(notices, code) || added.code
            == code),
{
    let all = notices.push(added);
    if has_code(notices, code) {
        let i = choose|i: int| 0 <= i < notices.len() && (#[trigger] notices[i]).code == code;
        assert(all[i].code == code);
    }
    if has_code(all, code) && added.code != code {
        let i = choose|i: int| 0 <= i < all.len() && (#[trigger] all[i]).code == code;
        assert(notices[i].code == code);
    }
    assert(all[notices.len() as int] == added);
}

proof fn lemma_bare(key: Seq<u8>)
    ensures
        dict_get(bare_catalog(), key) == (if key == utf8("Type"@) {
            Some(PdfValue::Name(utf8("Catalog"@)))
        } else if key == utf8("Pages"@) {
            Some(PdfValue::Reference(tree_id()))
        } else {
            None
        }),
{
    lemma_catalog_keys();
    let none = Seq::<(Seq<u8>, PdfValue)>::empty();
    let kind = PdfValue::Name(utf8("Catalog"@));
    storing_a_value(none, utf8("Type"@), kind, key);
    storing_a_value(
        dict_set(none, utf8("Type"@), kind),
        utf8("Pages"@),
        PdfValue::Reference(tree_id()),
        key,
    );
    assert(dict_get(none, key) is None);
}

/// The page labels of the new catalog.
pub open spec fn new_labels(
    old: Option<PdfValue>,
    labels: Option<Seq<(i64, PdfValue)>>,
    pages: Seq<u32>,
    original_order: bool,
) -> Option<PdfValue> {
    match (old, labels) {
        (Some(tree), Some(labels)) => if original_order {
            Some(tree)
        } else {
            match relabelled(labels, pages) {
                Some(moved) => Some(number_tree_value(moved)),
                None => None,
            }
        },
        _ => None,
    }
}

proof fn lemma_rearranged(
    catalog: Seq<(Seq<u8>, PdfValue)>,
    labels: Option<Seq<(i64, PdfValue)>>,
    pages: Seq<u32>,
    original_order: bool,
    notices: Seq<NoticeValue>,
    key: Seq<u8>,
)
    requires
        keys_distinct(catalog),
    ensures
        dict_get(rearranged_catalog(catalog, labels, pages, original_order, notices).0, key) == (
        if key == utf8("Type"@) {
            Some(PdfValue::Name(utf8("Catalog"@)))
        } else if key == utf8("Pages"@) {
            Some(PdfValue::Reference(tree_id()))
        } else if key == utf8("PageLabels"@) {
            new_labels(dict_get(catalog, key), labels, pages, original_order)
        } else if key == utf8("StructTreeRoot"@) || key == utf8("MarkInfo"@) {
            if original_order {
                dict_get(catalog, key)
            } else {
                None
            }
        } else if key == utf8("Perms"@) || key == utf8("Legal"@) || key == utf8("DSS"@) {
            None
        } else {
            dict_get(catalog, key)
        }),
    decreases catalog.len(),
{
    lemma_catalog_keys();
    if catalog.len() == 0 {
        lemma_bare(key);
        assert(dict_get(catalog, key) is None);
    } else {
        let shorter = catalog.drop_last();
        lemma_last_entry(catalog, key);
        lemma_rearranged(shorter, labels, pages, original_order, notices, key);
        let before = rearranged_catalog(shorter, labels, pages, original_order, notices).0;
        let (last, value) = catalog.last();
        storing_a_value(before, last, value, key);
        if let Some(labels) = labels {
            if let Some(moved) = relabelled(labels, pages) {
                storing_a_value(before, last, number_tree_value(moved), key);
            }
        }
    }
}

/// Whether a catalog has one of these two entries.
spec fn has_either(catalog: Seq<(Seq<u8>, PdfValue)>, left: Seq<char>, right: Seq<char>) -> bool {
    dict_get(catalog, utf8(left)) is Some || dict_get(catalog, utf8(right)) is Some
}

proof fn lemma_rearranged_told(
    catalog: Seq<(Seq<u8>, PdfValue)>,
    labels: Option<Seq<(i64, PdfValue)>>,
    pages: Seq<u32>,
    original_order: bool,
    notices: Seq<NoticeValue>,
)
    requires
        keys_distinct(catalog),
    ensures
        ({
            let told = rearranged_catalog(catalog, labels, pages, original_order, notices).1;
            &&& has_code(told, "pdf-tags-dropped"@) == (has_code(notices, "pdf-tags-dropped"@) || (
            !original_order && has_either(catalog, "StructTreeRoot"@, "MarkInfo"@)))
            &&& has_code(told, "pdf-signature-dropped"@) == (has_code(
                notices,
                "pdf-signature-dropped"@,
            ) || has_either(catalog, "Perms"@, "Legal"@) || dict_get(catalog, utf8("DSS"@)) is Some)
            &&& has_code(told, "pdf-page-labels-dropped"@) == (has_code(
                notices,
                "pdf-page-labels-dropped"@,
            ) || (dict_get(catalog, utf8("PageLabels"@)) is Some && !original_order && (
            labels matches Some(pairs) && relabelled(pairs, pages) is None)))
            &&& has_code(told, "pdf-links-to-removed-pages"@) == has_code(
                notices,
                "pdf-links-to-removed-pages"@,
            )
        }),
    decreases catalog.len(),
{
    lemma_catalog_keys();
    lemma_codes();
    if catalog.len() == 0 {
        assert(dict_get(catalog, utf8("StructTreeRoot"@)) is None);
        assert(dict_get(catalog, utf8("MarkInfo"@)) is None);
        assert(dict_get(catalog, utf8("Perms"@)) is None);
        assert(dict_get(catalog, utf8("Legal"@)) is None);
        assert(dict_get(catalog, utf8("DSS"@)) is None);
        assert(dict_get(catalog, utf8("PageLabels"@)) is None);
    } else {
        let shorter = catalog.drop_last();
        lemma_last_entry(catalog, utf8("StructTreeRoot"@));
        lemma_last_entry(catalog, utf8("MarkInfo"@));
        lemma_last_entry(catalog, utf8("Perms"@));
        lemma_last_entry(catalog, utf8("Legal"@));
        lemma_last_entry(catalog, utf8("DSS"@));
        lemma_last_entry(catalog, utf8("PageLabels"@));
        lemma_rearranged_told(shorter, labels, pages, original_order, notices);
        let before = rearranged_catalog(shorter, labels, pages, original_order, notices).1;
        lemma_told(before, tags_notice(), "pdf-tags-dropped"@);
        lemma_told(before, tags_notice(), "pdf-signature-dropped"@);
        lemma_told(before, tags_notice(), "pdf-page-labels-dropped"@);
        lemma_told(before, tags_notice(), "pdf-links-to-removed-pages"@);
        lemma_told(before, rearranged_signature_notice(), "pdf-tags-dropped"@);
        lemma_told(before, rearranged_signature_notice(), "pdf-signature-dropped"@);
        lemma_told(before, rearranged_signature_notice(), "pdf-page-labels-dropped"@);
        lemma_told(before, rearranged_signature_notice(), "pdf-links-to-removed-pages"@);
        lemma_told(before, labels_dropped_notice(), "pdf-tags-dropped"@);
        lemma_told(before, labels_dropped_notice(), "pdf-signature-dropped"@);
        lemma_told(before, labels_dropped_notice(), "pdf-page-labels-dropped"@);
        lemma_told(before, labels_dropped_notice(), "pdf-links-to-removed-pages"@);
    }
}

/// Replacing references to removed pages leaves every other reference and every plain value
/// as it is.
pub proof fn nulling_keeps_other_values(value: PdfValue, removed: Seq<PdfId>)
    ensures
        match value {
            PdfValue::Reference(id) => nulled(value, removed) == (if removed.contains(id) {
                PdfValue::Null
            } else {
                value
            }),
            PdfValue::Array(items) => nulled(value, removed) matches PdfValue::Array(left)
                && left.len() == items.len() && forall|i: int|
                0 <= i < items.len() ==> #[trigger] left[i] == nulled(items[i], removed),
            PdfValue::Dictionary(_) => nulled(value, removed) is Dictionary,
            PdfValue::Stream(stream) => nulled(value, removed) matches PdfValue::Stream(left)
                && left.content == stream.content,
            _ => nulled(value, removed) == value,
        },
{
}

/// Replacing references to removed pages keeps every key of a dictionary, and changes what
/// stands under it in the same way.
pub proof fn nulling_keeps_keys(
    entries: Seq<(Seq<u8>, PdfValue)>,
    removed: Seq<PdfId>,
    key: Seq<u8>,
)
    ensures
        dict_get(nulled_entries(entries, removed), key) == (match dict_get(entries, key) {
            Some(value) => Some(nulled(value, removed)),
            None => None,
        }),
        nulled(PdfValue::Dictionary(entries), removed) == PdfValue::Dictionary(
            nulled_entries(entries, removed),
        ),
{
    let left = nulled_entries(entries, removed);
    lemma_dict_index_from(entries, key, 0);
    lemma_dict_index_from(left, key, 0);
    assert forall|j: int| 0 <= j < entries.len() implies (#[trigger] left[j]).0 == entries[j].0 by {}
    match dict_index(entries, key) {
        Some(i) => {
            assert(left[i].0 == key);
            let j = dict_index(left, key)->0;
            assert(entries[j].0 == key);
            assert(i == j);
        },
        None => {
            if dict_index(left, key) is Some {
                let j = dict_index(left, key)->0;
                assert(entries[j].0 == key);
            }
        },
    }
}

/// Where no page is removed, nothing is replaced.
pub proof fn nothing_is_nulled_without_removal(value: PdfValue)
    ensures
        nulled(value, Seq::empty()) == value,
    decreases value,
{
    match value {
        PdfValue::Array(items) => {
            lemma_no_items_nulled(items);
        },
        PdfValue::Dictionary(entries) => {
            lemma_no_entries_nulled(entries);
        },
        PdfValue::Stream(stream) => {
            lemma_no_entries_nulled(stream.dict);
        },
        _ => {},
    }
}

proof fn lemma_no_items_nulled(items: Seq<PdfValue>)
    ensures
        nulled_items(items, Seq::empty()) == items,
    decreases items,
{
    let left = nulled_items(items, Seq::empty());
    assert forall|i: int| 0 <= i < items.len() implies #[trigger] left[i] == items[i] by {
        nothing_is_nulled_without_removal(items[i]);
    }
    assert(left =~= items);
}

proof fn lemma_no_entries_nulled(entries: Seq<(Seq<u8>, PdfValue)>)
    ensures
        nulled_entries(entries, Seq::empty()) == entries,
    decreases entries,
{
    let left = nulled_entries(entries, Seq::empty());
    assert forall|i: int| 0 <= i < entries.len() implies #[trigger] left[i] == entries[i] by {
        nothing_is_nulled_without_removal(entries[i].1);
    }
    assert(left =~= entries);
}

/// A table with one more object at its end.
proof fn lemma_pushed(objects: Seq<(PdfId, PdfValue)>, entry: (PdfId, PdfValue), id: PdfId)
    ensures
        object_of(objects.push(entry), id) == (match object_of(objects, id) {
            Some(value) => Some(value),
            None => if entry.0 == id {
                Some(entry.1)
            } else {
                None
            },
        }),
{
    let all = objects.push(entry);
    lemma_index(objects, id, 0);
    lemma_index(all, id, 0);
    assert forall|j: int| 0 <= j < objects.len() implies #[trigger] all[j] == objects[j] by {}
    match object_index_from(objects, id, 0) {
        Some(i) => {
            assert(all[i].0 == id);
            let j = object_index_from(all, id, 0)->0;
            if j < objects.len() {
                assert(objects[j].0 == id);
            }
            assert(j == i);
        },
        None => {
            assert(all[objects.len() as int] == entry);
            if object_index_from(all, id, 0) is Some {
                let j = object_index_from(all, id, 0)->0;
                if j < objects.len() {
                    assert(objects[j].0 == id);
                }
            }
        },
    }
}

proof fn lemma_filtered(
    document: PdfDocumentValue,
    objects: Seq<(PdfId, PdfValue)>,
    id: PdfId,
)
    ensures
        object_of(
            objects.filter(|entry: (PdfId, PdfValue)| reachable(document, entry.0)),
            id,
        ) == (if reachable(document, id) {
            object_of(objects, id)
        } else {
            None
        }),
    decreases objects.len(),
{
    reveal(Seq::filter);
    let keep = |entry: (PdfId, PdfValue)| reachable(document, entry.0);
    if objects.len() > 0 {
        let shorter = objects.drop_last();
        lemma_filtered(document, shorter, id);
        assert(shorter.push(objects.last()) =~= objects);
        lemma_pushed(shorter, objects.last(), id);
        lemma_pushed(shorter.filter(keep), objects.last(), id);
    }
}

/// An object that references lead to is found after pruning as before, and no other one is.
pub proof fn pruning_finds_what_is_reachable(document: PdfDocumentValue, id: PdfId)
    ensures
        object_of(pruned_pdf(document).objects, id) == (if reachable(document, id) {
            object_of(document.objects, id)
        } else {
            None
        }),
{
    lemma_filtered(document, document.objects, id);
}

/// The table of the output before what nothing leads to is left out.
pub(crate) open spec fn unpruned(version: Seq<char>, chosen: Selection, pages: Seq<u32>) -> PdfDocumentValue {
    let catalog = catalog_of(chosen.source);
    let labels = readable_labels(chosen.source.objects, catalog);
    let removed = removed_pages(chosen.ids, chosen.selected);
    let original_order = removed.len() == 0 && pages.len() == distinct(chosen.selected).len()
        && counts_up(pages);
    let carried = put_all(
        moved_objects(Seq::empty(), chosen.source.objects, Seq::empty()),
        chosen.output,
    );
    let output_ids = chosen.output.map_values(|entry: (PdfId, PdfValue)| entry.0);
    let rearranged = rearranged_catalog(
        catalog,
        labels,
        pages,
        original_order,
        first_notices(chosen),
    ).0;
    new_document(
        later_version(version, "1.5"@),
        put_object(
            put_object(nulled_table(carried, removed), tree_id(), page_tree(output_ids)),
            catalog_id(),
            nulled(PdfValue::Dictionary(rearranged), removed),
        ),
        (chosen.next_id - 1) as u32,
        catalog_id(),
    )
}

pub(crate) open spec fn first_notices(chosen: Selection) -> Seq<NoticeValue> {
    let catalog = catalog_of(chosen.source);
    let labels = readable_labels(chosen.source.objects, catalog);
    let removed = removed_pages(chosen.ids, chosen.selected);
    let told_labels = if dict_has(catalog, utf8("PageLabels"@)) && labels is None {
        with_notice(Seq::empty(), labels_dropped_notice())
    } else {
        Seq::empty()
    };
    if removed.len() > 0 {
        with_notice(told_labels, links_notice())
    } else {
        told_labels
    }
}

pub(crate) proof fn lemma_unpruned(version: Seq<char>, chosen: Selection, pages: Seq<u32>)
    ensures
        organized_document(version, chosen, pages).0 == pruned_pdf(
            unpruned(version, chosen, pages),
        ),
{
}

/// The catalog of a document, found from its trailer.
pub open spec fn root_of(document: PdfDocumentValue) -> Option<Seq<(Seq<u8>, PdfValue)>> {
    match dict_get(document.trailer, utf8("Root"@)) {
        Some(PdfValue::Reference(root)) => match object_of(document.objects, root) {
            Some(PdfValue::Dictionary(entries)) => Some(entries),
            _ => None,
        },
        _ => None,
    }
}

proof fn lemma_root(version: Seq<char>, chosen: Selection, pages: Seq<u32>)
    ensures
        ({
            let catalog = catalog_of(chosen.source);
            let labels = readable_labels(chosen.source.objects, catalog);
            let removed = removed_pages(chosen.ids, chosen.selected);
            let original_order = removed.len() == 0 && pages.len() == distinct(
                chosen.selected,
            ).len() && counts_up(pages);
            root_of(organized_document(version, chosen, pages).0) == Some(
                nulled_entries(
                    rearranged_catalog(
                        catalog,
                        labels,
                        pages,
                        original_order,
                        first_notices(chosen),
                    ).0,
                    removed,
                ),
            )
        }),
{
    lemma_unpruned(version, chosen, pages);
    let whole = unpruned(version, chosen, pages);
    let none = Seq::<(Seq<u8>, PdfValue)>::empty();
    let root = PdfValue::Reference(catalog_id());
    storing_a_value(none, utf8("Root"@), root, utf8("Root"@));
    assert(whole.trailer =~= seq![(utf8("Root"@), root)]);
    assert(mentions(whole.trailer[0].1, catalog_id()));
    assert(entries_mention(whole.trailer, catalog_id()));
    let chain = seq![catalog_id()];
    assert(is_chain(whole, chain));
    assert(chain.last() == catalog_id());
    pruning_finds_what_is_reachable(whole, catalog_id());
    let removed = removed_pages(chosen.ids, chosen.selected);
    let output_ids = chosen.output.map_values(|entry: (PdfId, PdfValue)| entry.0);
    let carried = put_all(
        moved_objects(Seq::empty(), chosen.source.objects, Seq::empty()),
        chosen.output,
    );
    let before = put_object(nulled_table(carried, removed), tree_id(), page_tree(output_ids));
    let catalog = catalog_of(chosen.source);
    let original_order = removed.len() == 0 && pages.len() == distinct(chosen.selected).len()
        && counts_up(pages);
    let rearranged = rearranged_catalog(
        catalog,
        readable_labels(chosen.source.objects, catalog),
        pages,
        original_order,
        first_notices(chosen),
    ).0;
    storing_an_object(
        before,
        catalog_id(),
        nulled(PdfValue::Dictionary(rearranged), removed),
        catalog_id(),
    );
    nulling_keeps_keys(rearranged, removed, utf8("Root"@));
}

/// Rearranging keeps every catalog entry but those that it has to look at: named links,
/// attachments, bookmarks, forms, layers, the language, the way it is opened. A reference to
/// a removed page in it becomes null, and where no page is removed it is the very same value.
pub proof fn rearranging_keeps_the_catalog(
    version: Seq<char>,
    chosen: Selection,
    pages: Seq<u32>,
    key: Seq<u8>,
)
    requires
        keys_distinct(catalog_of(chosen.source)),
        !is_looked_at(key),
    ensures
        ({
            let removed = removed_pages(chosen.ids, chosen.selected);
            let old_value = dict_get(catalog_of(chosen.source), key);
            root_of(organized_document(version, chosen, pages).0) matches Some(catalog) && {
                &&& old_value is None ==> dict_get(catalog, key) is None
                &&& old_value is Some ==> dict_get(catalog, key) == Some(
                    nulled(old_value->0, removed),
                )
                &&& removed.len() == 0 ==> dict_get(catalog, key) == old_value
            }
        }),
{
    lemma_root(version, chosen, pages);
    let catalog = catalog_of(chosen.source);
    let labels = readable_labels(chosen.source.objects, catalog);
    let removed = removed_pages(chosen.ids, chosen.selected);
    let original_order = removed.len() == 0 && pages.len() == distinct(chosen.selected).len()
        && counts_up(pages);
    lemma_rearranged(catalog, labels, pages, original_order, first_notices(chosen), key);
    let rearranged = rearranged_catalog(
        catalog,
        labels,
        pages,
        original_order,
        first_notices(chosen),
    ).0;
    nulling_keeps_keys(rearranged, removed, key);
    if removed.len() == 0 && dict_get(catalog, key) is Some {
        assert(removed =~= Seq::empty());
        nothing_is_nulled_without_removal(dict_get(catalog, key)->0);
    }
}

/// Whether a request is for all pages in the order that they have.
pub open spec fn is_same_order(pages: Seq<u32>, count: nat) -> bool {
    pages.len() == count && forall|i: int| 0 <= i < pages.len() ==> #[trigger] pages[i] == i + 1
}

proof fn lemma_same_order(chosen: Selection, pages: Seq<u32>)
    requires
        names_pages(chosen.selected, pages, chosen.ids),
        chosen.ids.no_duplicates(),
    ensures
        ({
            let removed = removed_pages(chosen.ids, chosen.selected);
            (removed.len() == 0 && pages.len() == distinct(chosen.selected).len() && counts_up(
                pages,
            )) == is_same_order(pages, chosen.ids.len())
        }),
{
    let removed = removed_pages(chosen.ids, chosen.selected);
    let selected = chosen.selected;
    if counts_up(pages) && removed.len() == 0 {
        if pages.len() < chosen.ids.len() {
            let id = chosen.ids[pages.len() as int];
            lemma_removed(chosen.ids, selected, id);
            assert(chosen.ids.contains(id));
            assert(!removed.contains(id));
            let k = choose|k: int| 0 <= k < selected.len() && selected[k] == id;
            assert(is_page(selected[k], pages[k], chosen.ids));
            assert(chosen.ids[pages[k] - 1] == chosen.ids[pages.len() as int]);
        }
        if pages.len() > 0 {
            assert(is_page(selected[pages.len() - 1], pages[pages.len() - 1], chosen.ids));
        }
    }
    if is_same_order(pages, chosen.ids.len()) {
        assert forall|i: int| 0 <= i < selected.len() implies selected[i] == chosen.ids[i] by {
            assert(is_page(selected[i], pages[i], chosen.ids));
        }
        assert(selected =~= chosen.ids);
        lemma_all_distinct(chosen.ids);
        if removed.len() > 0 {
            lemma_removed(chosen.ids, selected, removed[0]);
            assert(removed.contains(removed[0]));
        }
    }
}

proof fn lemma_all_distinct(ids: Seq<PdfId>)
    requires
        ids.no_duplicates(),
    ensures
        distinct(ids) == ids,
    decreases ids.len(),
{
    if ids.len() > 0 {
        let shorter = ids.drop_last();
        assert forall|i: int, j: int|
            0 <= i < shorter.len() && 0 <= j < shorter.len() && i != j implies shorter[i]
            != shorter[j] by {
            assert(ids[i] != ids[j]);
        }
        lemma_all_distinct(shorter);
        if shorter.contains(ids.last()) {
            let k = choose|k: int| 0 <= k < shorter.len() && shorter[k] == ids.last();
            assert(ids[k] != ids[ids.len() - 1]);
        }
        assert(shorter.push(ids.last()) =~= ids);
    } else {
        assert(distinct(ids) =~= ids);
    }
}

/// Rearranging leaves what belongs to signatures out, and the accessibility tags unless every
/// page stays where it is. It says so exactly where there was something to leave out. It says
/// that links lead nowhere exactly where pages were removed.
pub proof fn rearranging_tells_what_it_leaves_out(
    version: Seq<char>,
    chosen: Selection,
    pages: Seq<u32>,
)
    requires
        keys_distinct(catalog_of(chosen.source)),
        names_pages(chosen.selected, pages, chosen.ids),
        chosen.ids.no_duplicates(),
    ensures
        ({
            let source = catalog_of(chosen.source);
            let (output, notices) = organized_document(version, chosen, pages);
            let same_order = is_same_order(pages, chosen.ids.len());
            let tagged = dict_get(source, utf8("StructTreeRoot"@)) is Some || dict_get(
                source,
                utf8("MarkInfo"@),
            ) is Some;
            let signed = dict_get(source, utf8("Perms"@)) is Some || dict_get(
                source,
                utf8("Legal"@),
            ) is Some || dict_get(source, utf8("DSS"@)) is Some;
            let removes = exists|i: int|
                0 <= i < chosen.ids.len() && !chosen.selected.contains(#[trigger] chosen.ids[i]);
            root_of(output) matches Some(catalog) && {
                &&& dict_get(catalog, utf8("Type"@)) == Some(PdfValue::Name(utf8("Catalog"@)))
                &&& dict_get(catalog, utf8("Perms"@)) is None
                &&& dict_get(catalog, utf8("Legal"@)) is None
                &&& dict_get(catalog, utf8("DSS"@)) is None
                &&& same_order ==> dict_get(catalog, utf8("StructTreeRoot"@)) == dict_get(
                    source,
                    utf8("StructTreeRoot"@),
                ) && dict_get(catalog, utf8("MarkInfo"@)) == dict_get(source, utf8("MarkInfo"@))
                &&& !same_order ==> dict_get(catalog, utf8("StructTreeRoot"@)) is None && dict_get(
                    catalog,
                    utf8("MarkInfo"@),
                ) is None
                &&& has_code(notices, "pdf-tags-dropped"@) == (tagged && !same_order)
                &&& has_code(notices, "pdf-signature-dropped"@) == signed
                &&& has_code(notices, "pdf-links-to-removed-pages"@) == removes
            }
        }),
{
    lemma_root(version, chosen, pages);
    lemma_same_order(chosen, pages);
    let source = catalog_of(chosen.source);
    let labels = readable_labels(chosen.source.objects, source);
    let removed = removed_pages(chosen.ids, chosen.selected);
    let first = first_notices(chosen);
    let original_order = is_same_order(pages, chosen.ids.len());
    let rearranged = rearranged_catalog(source, labels, pages, original_order, first).0;
    lemma_rearranged_told(source, labels, pages, original_order, first);
    assert(organized_document(version, chosen, pages).1 == rearranged_catalog(
        source,
        labels,
        pages,
        original_order,
        first,
    ).1);
    lemma_catalog_keys();
    lemma_entry(chosen, pages, original_order, utf8("Type"@));
    lemma_entry(chosen, pages, original_order, utf8("Perms"@));
    lemma_entry(chosen, pages, original_order, utf8("Legal"@));
    lemma_entry(chosen, pages, original_order, utf8("DSS"@));
    lemma_entry(chosen, pages, original_order, utf8("StructTreeRoot"@));
    lemma_entry(chosen, pages, original_order, utf8("MarkInfo"@));
    if original_order {
        assert(removed =~= Seq::empty());
        if dict_get(source, utf8("StructTreeRoot"@)) is Some {
            nothing_is_nulled_without_removal(dict_get(source, utf8("StructTreeRoot"@))->0);
        }
        if dict_get(source, utf8("MarkInfo"@)) is Some {
            nothing_is_nulled_without_removal(dict_get(source, utf8("MarkInfo"@))->0);
        }
    }
    lemma_codes();
    let none = Seq::<NoticeValue>::empty();
    lemma_told(none, labels_dropped_notice(), "pdf-tags-dropped"@);
    lemma_told(none, labels_dropped_notice(), "pdf-signature-dropped"@);
    lemma_told(none, labels_dropped_notice(), "pdf-links-to-removed-pages"@);
    lemma_told(none, links_notice(), "pdf-tags-dropped"@);
    lemma_told(none, links_notice(), "pdf-signature-dropped"@);
    lemma_told(none, links_notice(), "pdf-links-to-removed-pages"@);
    let one = with_notice(none, labels_dropped_notice());
    lemma_told(one, links_notice(), "pdf-tags-dropped"@);
    lemma_told(one, links_notice(), "pdf-signature-dropped"@);
    lemma_told(one, links_notice(), "pdf-links-to-removed-pages"@);
    if removed.len() > 0 {
        lemma_removed(chosen.ids, chosen.selected, removed[0]);
        assert(removed.contains(removed[0]));
        let i = choose|i: int| 0 <= i < chosen.ids.len() && chosen.ids[i] == removed[0];
        assert(!chosen.selected.contains(chosen.ids[i]));
    }
    if exists|i: int|
        0 <= i < chosen.ids.len() && !chosen.selected.contains(#[trigger] chosen.ids[i]) {
        let i = choose|i: int|
            0 <= i < chosen.ids.len() && !chosen.selected.contains(#[trigger] chosen.ids[i]);
        lemma_removed(chosen.ids, chosen.selected, chosen.ids[i]);
        assert(chosen.ids.contains(chosen.ids[i]));
        assert(removed.contains(chosen.ids[i]));
    }
}

/// One entry of the rearranged catalog, once references to removed pages are replaced.
proof fn lemma_entry(chosen: Selection, pages: Seq<u32>, original_order: bool, key: Seq<u8>)
    requires
        keys_distinct(catalog_of(chosen.source)),
    ensures
        ({
            let source = catalog_of(chosen.source);
            let labels = readable_labels(chosen.source.objects, source);
            let removed = removed_pages(chosen.ids, chosen.selected);
            let rearranged = rearranged_catalog(
                source,
                labels,
                pages,
                original_order,
                first_notices(chosen),
            ).0;
            let found = if key == utf8("Type"@) {
                Some(PdfValue::Name(utf8("Catalog"@)))
            } else if key == utf8("Pages"@) {
                Some(PdfValue::Reference(tree_id()))
            } else if key == utf8("PageLabels"@) {
                new_labels(dict_get(source, key), labels, pages, original_order)
            } else if key == utf8("StructTreeRoot"@) || key == utf8("MarkInfo"@) {
                if original_order {
                    dict_get(source, key)
                } else {
                    None
                }
            } else if key == utf8("Perms"@) || key == utf8("Legal"@) || key == utf8("DSS"@) {
                None
            } else {
                dict_get(source, key)
            };
            dict_get(nulled_entries(rearranged, removed), key) == (match found {
                Some(value) => Some(nulled(value, removed)),
                None => None,
            })
        }),
{
    let source = catalog_of(chosen.source);
    let labels = readable_labels(chosen.source.objects, source);
    let removed = removed_pages(chosen.ids, chosen.selected);
    let rearranged = rearranged_catalog(
        source,
        labels,
        pages,
        original_order,
        first_notices(chosen),
    ).0;
    lemma_rearranged(source, labels, pages, original_order, first_notices(chosen), key);
    nulling_keeps_keys(rearranged, removed, key);
}

/// The label range that applies begins at or before the page, and none begins between the
/// two.
proof fn lemma_range(entries: Seq<(i64, PdfValue)>, index: i64)
    ensures
        match label_range(entries, index) {
            Some(range) => {
                &&& entries.contains(range)
                &&& range.0 <= index
                &&& forall|k: int|
                    0 <= k < entries.len() && (#[trigger] entries[k]).0 <= index ==> entries[k].0
                        <= range.0
            },
            None => forall|k: int| 0 <= k < entries.len() ==> (#[trigger] entries[k]).0 > index,
        },
    decreases entries.len(),
{
    if entries.len() > 0 {
        let shorter = entries.drop_last();
        lemma_range(shorter, index);
        assert(entries[entries.len() - 1] == entries.last());
        if let Some(range) = label_range(shorter, index) {
            let k = choose|k: int| 0 <= k < shorter.len() && shorter[k] == range;
            assert(entries[k] == range);
        }
        assert forall|k: int| 0 <= k < entries.len() && k < shorter.len() implies #[trigger] entries[k]
            == shorter[k] by {}
    }
}

/// The label of a page is that of the range that it lies in: the one that begins last at or
/// before the page. It has the style and the prefix of that range, and counts on from the
/// number that the range begins with by as many pages as the page lies behind its beginning.
pub proof fn page_label_counts_on_from_its_range(
    entries: Seq<(i64, PdfValue)>,
    index: i64,
    key: Seq<u8>,
)
    requires
        0 <= index,
        forall|k: int| 0 <= k < entries.len() ==> 0 <= (#[trigger] entries[k]).0,
    ensures
        match label_for_index(entries, index) {
            Some(PdfValue::Dictionary(label)) => exists|k: int| #[trigger]
                is_range_of(entries, index, k) && (entries[k].1 matches PdfValue::Dictionary(range)
                    && (key != utf8("St"@) ==> dict_get(label, key) == dict_get(range, key)) && (
                match dict_get(range, utf8("St"@)) {
                    Some(PdfValue::Integer(first)) => first + index - entries[k].0 <= i64::MAX
                        ==> dict_get(label, utf8("St"@)) == Some(
                        PdfValue::Integer((first + index - entries[k].0) as i64),
                    ),
                    _ => index - entries[k].0 < i64::MAX ==> dict_get(label, utf8("St"@)) == Some(
                        PdfValue::Integer((1 + index - entries[k].0) as i64),
                    ),
                })),
            Some(_) => false,
            None => forall|k: int|
                0 <= k < entries.len() && is_range_of(entries, index, k) && last_of_start(entries, k)
                    ==> !((#[trigger] entries[k]).1 is Dictionary),
        },
{
    lemma_range(entries, index);
    if let Some(range) = label_range(entries, index) {
        let k = choose|k: int| 0 <= k < entries.len() && entries[k] == range;
        assert(is_range_of(entries, index, k));
        if let PdfValue::Dictionary(template) = range.1 {
            let label = label_for_index(entries, index)->0->Dictionary_0;
            storing_a_value(
                template,
                utf8("St"@),
                dict_get(label, utf8("St"@))->0,
                key,
            );
            let first = match integer_at(template, "St"@) {
                Some(first) => first,
                None => 1i64,
            };
            let ahead = (index - range.0) as i64;
            storing_a_value(
                template,
                utf8("St"@),
                PdfValue::Integer(crate::pdf::catalog::clamped_sum(first, ahead)),
                key,
            );
        } else {
            lemma_last_of_start(entries, index);
        }
    } else {
        assert forall|k: int|
            0 <= k < entries.len() && is_range_of(entries, index, k) && last_of_start(entries, k) implies !((
        #[trigger] entries[k]).1 is Dictionary) by {}
    }
}

/// Whether a page lies in this label range: it begins at or before the page, and no other
/// begins between the two.
pub open spec fn is_range_of(entries: Seq<(i64, PdfValue)>, index: i64, k: int) -> bool {
    &&& 0 <= k < entries.len()
    &&& entries[k].0 <= index
    &&& forall|j: int|
        0 <= j < entries.len() && (#[trigger] entries[j]).0 <= index ==> entries[j].0
            <= entries[k].0
}

/// Whether no later label range begins at the same page.
pub open spec fn last_of_start(entries: Seq<(i64, PdfValue)>, k: int) -> bool {
    forall|j: int| k < j < entries.len() ==> (#[trigger] entries[j]).0 != entries[k].0
}

proof fn lemma_last_of_start(entries: Seq<(i64, PdfValue)>, index: i64)
    requires
        label_range(entries, index) is Some,
    ensures
        forall|k: int|
            0 <= k < entries.len() && is_range_of(entries, index, k) && last_of_start(entries, k)
                ==> #[trigger] entries[k] == label_range(entries, index)->0,
    decreases entries.len(),
{
    lemma_range(entries, index);
    let range = label_range(entries, index)->0;
    let shorter = entries.drop_last();
    let last = entries.len() - 1;
    assert forall|k: int|
        0 <= k < entries.len() && is_range_of(entries, index, k) && last_of_start(entries, k) implies #[trigger] entries[k]
        == range by {
        lemma_range(shorter, index);
        assert(entries[last] == entries.last());
        if k < last {
            assert(shorter[k] == entries[k]);
            assert(label_range(shorter, index) is Some);
            assert(is_range_of(shorter, index, k)) by {
                assert forall|j: int| 0 <= j < shorter.len() && (#[trigger] shorter[j]).0
                    <= index implies shorter[j].0 <= shorter[k].0 by {
                    assert(entries[j] == shorter[j]);
                }
            }
            assert(last_of_start(shorter, k)) by {
                assert forall|j: int| k < j < shorter.len() implies (#[trigger] shorter[j]).0
                    != shorter[k].0 by {
                    assert(entries[j] == shorter[j]);
                }
            }
            lemma_last_of_start(shorter, index);
            let best = label_range(shorter, index)->0;
            assert(best == shorter[k]);
            assert(entries[last].0 != entries[k].0);
        } else {
            if let Some(best) = label_range(shorter, index) {
                let j = choose|j: int| 0 <= j < shorter.len() && shorter[j] == best;
                assert(entries[j] == best);
            }
        }
    }
}

proof fn lemma_relabelled(labels: Seq<(i64, PdfValue)>, pages: Seq<u32>)
    requires
        relabelled(labels, pages) is Some,
        pages.len() <= i64::MAX,
    ensures
        ({
            let moved = relabelled(labels, pages)->0;
            &&& moved.len() == pages.len()
            &&& forall|i: int|
                0 <= i < pages.len() ==> (#[trigger] moved[i]).0 == i && label_for_index(
                    labels,
                    (pages[i] - 1) as i64,
                ) == Some(moved[i].1)
        }),
    decreases pages.len(),
{
    if pages.len() > 0 {
        lemma_relabelled(labels, pages.drop_last());
        let before = relabelled(labels, pages.drop_last())->0;
        let moved = relabelled(labels, pages)->0;
        assert forall|i: int| 0 <= i < pages.len() implies (#[trigger] moved[i]).0 == i
            && label_for_index(labels, (pages[i] - 1) as i64) == Some(moved[i].1) by {
            if i < before.len() {
                assert(moved[i] == before[i]);
                assert(pages.drop_last()[i] == pages[i]);
            }
        }
    }
}

/// A page keeps its label when it is moved: what the new labels say of the page at a place is
/// what the old ones said of the page that was put there.
pub proof fn moved_pages_keep_their_labels(
    labels: Seq<(i64, PdfValue)>,
    pages: Seq<u32>,
    i: int,
)
    requires
        relabelled(labels, pages) is Some,
        0 <= i < pages.len() <= i64::MAX,
    ensures
        label_for_index(relabelled(labels, pages)->0, i as i64) == label_for_index(
            labels,
            (pages[i] - 1) as i64,
        ),
        relabelled(labels, pages)->0.len() == pages.len(),
{
    lemma_relabelled(labels, pages);
    let moved = relabelled(labels, pages)->0;
    lemma_range(moved, i as i64);
    assert(moved[i].0 <= i);
    let range = label_range(moved, i as i64)->0;
    let k = choose|k: int| 0 <= k < moved.len() && moved[k] == range;
    assert(k == i);
    let old_label = label_for_index(labels, (pages[i] - 1) as i64)->0;
    let template = old_label->Dictionary_0;
    let (start, range_label) = label_range(labels, (pages[i] - 1) as i64)->0;
    let source = range_label->Dictionary_0;
    lemma_range(labels, (pages[i] - 1) as i64);
    let first = match integer_at(source, "St"@) {
        Some(first) => first,
        None => 1i64,
    };
    let ahead = if pages[i] - 1 - start > i64::MAX {
        i64::MAX
    } else {
        (pages[i] - 1 - start) as i64
    };
    let value = PdfValue::Integer(crate::pdf::catalog::clamped_sum(first, ahead));
    storing_a_value(source, utf8("St"@), value, utf8("St"@));
    assert(template == dict_set(source, utf8("St"@), value));
    lemma_dict_index_from(template, utf8("St"@), 0);
    let at = dict_index(template, utf8("St"@))->0;
    assert(template[at] == (utf8("St"@), value));
    assert(template.update(at, (utf8("St"@), value)) =~= template);
}

/// The labels of the output: those of the source where every page stays where it is; else one
/// for each page, which is the label that the page had.
pub proof fn rearranging_carries_page_labels(
    version: Seq<char>,
    chosen: Selection,
    pages: Seq<u32>,
)
    requires
        keys_distinct(catalog_of(chosen.source)),
        names_pages(chosen.selected, pages, chosen.ids),
        chosen.ids.no_duplicates(),
    ensures
        ({
            let source = catalog_of(chosen.source);
            let removed = removed_pages(chosen.ids, chosen.selected);
            let labels = readable_labels(chosen.source.objects, source);
            root_of(organized_document(version, chosen, pages).0) matches Some(catalog) && {
                let found = dict_get(catalog, utf8("PageLabels"@));
                &&& labels is None ==> found is None
                &&& labels matches Some(pairs) ==> (if is_same_order(pages, chosen.ids.len()) {
                    found == dict_get(source, utf8("PageLabels"@))
                } else {
                    match relabelled(pairs, pages) {
                        Some(moved) => found == Some(nulled(number_tree_value(moved), removed)),
                        None => found is None,
                    }
                })
            }
        }),
{
    lemma_root(version, chosen, pages);
    lemma_same_order(chosen, pages);
    lemma_catalog_keys();
    let source = catalog_of(chosen.source);
    let removed = removed_pages(chosen.ids, chosen.selected);
    let same_order = is_same_order(pages, chosen.ids.len());
    lemma_entry(chosen, pages, same_order, utf8("PageLabels"@));
    if same_order && dict_get(source, utf8("PageLabels"@)) is Some {
        assert(removed =~= Seq::empty());
        nothing_is_nulled_without_removal(dict_get(source, utf8("PageLabels"@))->0);
    }
}

} // verus!
