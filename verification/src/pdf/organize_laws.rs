//! What rearranging pages keeps and removes.

use vstd::prelude::*;

use crate::bytes::utf8;
use crate::notices::with_notice;
use crate::pdf::laws::storing_a_value;
use crate::pdf::merge::{
    catalog_id, combined, moved_objects, new_document, page_offset, page_tree, references, tree_id,
    FIRST_SOURCE_ID,
};
use crate::pdf::model::{
    dict_get, dict_has, dict_index, dict_set, dictionary_of, lemma_dict_index_from, put_object,
    put_object_from, PdfDocumentValue, PdfId, PdfValue,
};
use crate::pdf::organize::{
    counts_up, distinct, is_quarter_turn, labels_dropped_notice, links_notice, nulled,
    nulled_entries, nulled_items, nulled_table, organized_document, output_pages, put_all,
    readable_labels, rearranged_catalog, removed_pages, selected_pages, selection, turned,
    Selection,
};
use crate::pdf::outside::{
    entries_mention, in_table, is_chain, items_mention, leads_to, mentions, page_ids, pruned_pdf,
    reachable, renumbered_pdf, stands_for,
};
use crate::pdf::page_laws::{lemma_completed, lemma_keys_differ};
use crate::pdf::pages::{catalog_of, with_inherited};

verus! {

/// A turned page lies at an angle within one full turn, and the angle is the old
/// one with the requested turn added, up to full turns.
pub proof fn turning_adds_up(existing: i64, added: i32)
    ensures
        0 <= turned(existing, added) < 360,
        (turned(existing, added) - (existing + added)) % 360 == 0,
{
}

/// Once references to removed pages are replaced, nothing refers to them.
pub proof fn nulled_values_never_mention(value: PdfValue, removed: Seq<PdfId>, id: PdfId)
    requires
        removed.contains(id),
    ensures
        !mentions(nulled(value, removed), id),
    decreases value,
{
    match value {
        PdfValue::Array(items) => {
            lemma_items(items, removed, id);
        },
        PdfValue::Dictionary(entries) => {
            lemma_entries(entries, removed, id);
        },
        PdfValue::Stream(stream) => {
            lemma_entries(stream.dict, removed, id);
        },
        _ => {},
    }
}

proof fn lemma_items(items: Seq<PdfValue>, removed: Seq<PdfId>, id: PdfId)
    requires
        removed.contains(id),
    ensures
        !items_mention(nulled_items(items, removed), id),
    decreases items,
{
    let left = nulled_items(items, removed);
    assert forall|i: int| 0 <= i < left.len() implies !mentions(#[trigger] left[i], id) by {
        nulled_values_never_mention(items[i], removed, id);
    }
}

proof fn lemma_entries(entries: Seq<(Seq<u8>, PdfValue)>, removed: Seq<PdfId>, id: PdfId)
    requires
        removed.contains(id),
    ensures
        !entries_mention(nulled_entries(entries, removed), id),
    decreases entries,
{
    let left = nulled_entries(entries, removed);
    assert forall|i: int| 0 <= i < left.len() implies !mentions((#[trigger] left[i]).1, id) by {
        nulled_values_never_mention(entries[i].1, removed, id);
    }
}

/// An object stored in the table is there, and every other entry was there before.
proof fn lemma_put_entries(
    objects: Seq<(PdfId, PdfValue)>,
    id: PdfId,
    value: PdfValue,
    from: int,
    entry: (PdfId, PdfValue),
)
    requires
        0 <= from <= objects.len(),
        put_object_from(objects, id, value, from).contains(entry),
    ensures
        entry == (id, value) || objects.contains(entry),
    decreases objects.len() - from,
{
    let stored = put_object_from(objects, id, value, from);
    let k = choose|k: int| 0 <= k < stored.len() && stored[k] == entry;
    if from >= objects.len() {
        if k < objects.len() {
            assert(objects[k] == entry);
        }
    } else if objects[from].0 == id {
        if k != from {
            assert(objects[k] == entry);
        }
    } else if crate::pdf::model::id_before(id, objects[from].0) {
        if k < from {
            assert(objects[k] == entry);
        } else if k > from {
            assert(objects[k - 1] == entry);
        }
    } else {
        lemma_put_entries(objects, id, value, from + 1, entry);
    }
}

/// Whether no object of a table refers to this one.
spec fn none_mention(objects: Seq<(PdfId, PdfValue)>, id: PdfId) -> bool {
    forall|i: int| 0 <= i < objects.len() ==> !mentions((#[trigger] objects[i]).1, id)
}

proof fn lemma_put_mentions(
    objects: Seq<(PdfId, PdfValue)>,
    added: PdfId,
    value: PdfValue,
    id: PdfId,
)
    requires
        none_mention(objects, id),
        !mentions(value, id),
    ensures
        none_mention(put_object(objects, added, value), id),
{
    let stored = put_object(objects, added, value);
    assert forall|i: int| 0 <= i < stored.len() implies !mentions((#[trigger] stored[i]).1, id) by {
        assert(stored.contains(stored[i]));
        lemma_put_entries(objects, added, value, 0, stored[i]);
        if stored[i] != (added, value) {
            let k = choose|k: int| 0 <= k < objects.len() && objects[k] == stored[i];
            assert(!mentions(objects[k].1, id));
        }
    }
}

/// A page tree refers to its pages alone.
proof fn lemma_tree_mentions(pages: Seq<PdfId>, id: PdfId)
    requires
        !pages.contains(id),
    ensures
        !mentions(page_tree(pages), id),
{
    let kids = references(pages);
    assert forall|i: int| 0 <= i < kids.len() implies !mentions(#[trigger] kids[i], id) by {
        assert(pages.contains(pages[i]));
    }
    assert(!items_mention(kids, id));
    let a = dict_set(Seq::empty(), utf8("Type"@), PdfValue::Name(utf8("Pages"@)));
    let b = dict_set(a, utf8("Kids"@), PdfValue::Array(kids));
    let c = dict_set(b, utf8("Count"@), PdfValue::Integer(pages.len() as i64));
    assert forall|i: int| 0 <= i < a.len() implies !mentions((#[trigger] a[i]).1, id) by {}
    assert forall|i: int| 0 <= i < b.len() implies !mentions((#[trigger] b[i]).1, id) by {
        crate::pdf::model::lemma_dict_index_from(a, utf8("Kids"@), 0);
    }
    assert forall|i: int| 0 <= i < c.len() implies !mentions((#[trigger] c[i]).1, id) by {
        crate::pdf::model::lemma_dict_index_from(b, utf8("Count"@), 0);
    }
}

/// What nothing refers to is pruned.
proof fn lemma_pruned(document: PdfDocumentValue, id: PdfId)
    requires
        none_mention(document.objects, id),
        !entries_mention(document.trailer, id),
    ensures
        !in_table(pruned_pdf(document), id),
        none_mention(pruned_pdf(document).objects, id),
{
    let keep = |entry: (PdfId, PdfValue)| reachable(document, entry.0);
    let left = document.objects.filter(keep);
    assert(!reachable(document, id)) by {
        if reachable(document, id) {
            let chain = choose|chain: Seq<PdfId>|
                #[trigger] is_chain(document, chain) && chain.last() == id;
            if chain.len() == 1 {
                assert(entries_mention(document.trailer, chain[0]));
            } else {
                let from = chain[chain.len() - 2];
                assert(leads_to(document, chain[chain.len() - 2], chain[chain.len() - 1]));
                let value = choose|value: PdfValue|
                    #[trigger] stands_for(document, from, value) && mentions(value, id);
                let i = choose|i: int|
                    0 <= i < document.objects.len() && #[trigger] document.objects[i] == (
                        from,
                        value,
                    );
                assert(!mentions(document.objects[i].1, id));
            }
        }
    }
    broadcast use vstd::seq_lib::group_filter_ensures;

    assert forall|i: int| 0 <= i < left.len() implies (#[trigger] left[i]).0 != id && !mentions(
        left[i].1,
        id,
    ) by {
        assert(keep(left[i]));
        assert(left.contains(left[i]));
        document.objects.lemma_filter_contains_rev(keep, left[i]);
        let k = choose|k: int|
            0 <= k < document.objects.len() && document.objects[k] == left[i];
        assert(!mentions(document.objects[k].1, id));
    }
}

/// The numbers of the output pages are selected ones, or fresh.
proof fn lemma_output_numbers(
    document: PdfDocumentValue,
    selected: Seq<PdfId>,
    rotations: Seq<i32>,
    next_id: u32,
)
    requires
        output_pages(document, selected, rotations, next_id) is Ok,
    ensures
        ({
            let (output, next) = output_pages(document, selected, rotations, next_id)->Ok_0;
            &&& output.len() == selected.len()
            &&& next_id <= next
            &&& forall|i: int|
                0 <= i < output.len() ==> (#[trigger] output[i]).0 == selected[i] || (
                next_id <= output[i].0.0 < next && output[i].0.1 == 0)
        }),
    decreases selected.len(),
{
    if selected.len() > 0 {
        let shorter = selected.drop_last();
        lemma_output_numbers(document, shorter, rotations, next_id);
    }
}

/// A removed page is none of the selected ones.
pub(crate) proof fn lemma_removed(ids: Seq<PdfId>, selected: Seq<PdfId>, id: PdfId)
    ensures
        removed_pages(ids, selected).contains(id) <==> ids.contains(id) && !selected.contains(id),
    decreases ids.len(),
{
    if ids.len() > 0 {
        let before = removed_pages(ids.drop_last(), selected);
        lemma_removed(ids.drop_last(), selected, id);
        if ids.contains(id) {
            let k = choose|k: int| 0 <= k < ids.len() && ids[k] == id;
            if k < ids.len() - 1 {
                assert(ids.drop_last()[k] == id);
            }
        }
        if ids.drop_last().contains(id) {
            let k = choose|k: int| 0 <= k < ids.drop_last().len() && ids.drop_last()[k] == id;
            assert(ids[k] == id);
        }
        if !selected.contains(ids.last()) {
            let all = before.push(ids.last());
            if all.contains(id) && id != ids.last() {
                let k = choose|k: int| 0 <= k < all.len() && all[k] == id;
                assert(before[k] == id);
            }
            if before.contains(id) {
                let k = choose|k: int| 0 <= k < before.len() && before[k] == id;
                assert(all[k] == id);
            }
            assert(all[before.len() as int] == ids.last());
        }
        assert(ids[ids.len() - 1] == ids.last());
    }
}

/// A removed page is gone from the output, and nothing in the output refers to it:
/// not a bookmark, not a link, not a name.
pub proof fn removed_pages_are_gone(
    version: Seq<char>,
    document: PdfDocumentValue,
    pages: Seq<u32>,
    rotations: Seq<i32>,
    id: PdfId,
)
    requires
        selection(document, pages, rotations) is Ok,
        ({
            let chosen = selection(document, pages, rotations)->Ok_0;
            &&& chosen.ids.contains(id)
            &&& !chosen.selected.contains(id)
            &&& FIRST_SOURCE_ID <= id.0 <= chosen.source.max_id
        }),
    ensures
        ({
            let chosen = selection(document, pages, rotations)->Ok_0;
            let (output, _) = organized_document(version, chosen, pages);
            &&& !in_table(output, id)
            &&& forall|i: int|
                0 <= i < output.objects.len() ==> !mentions((#[trigger] output.objects[i]).1, id)
        }),
{
    let chosen = selection(document, pages, rotations)->Ok_0;
    let (output, _) = organized_document(version, chosen, pages);
    let removed = removed_pages(chosen.ids, chosen.selected);
    lemma_removed(chosen.ids, chosen.selected, id);
    let carried = put_all(
        moved_objects(Seq::empty(), chosen.source.objects, Seq::empty()),
        chosen.output,
    );
    let cleared = nulled_table(carried, removed);
    assert forall|i: int| 0 <= i < cleared.len() implies !mentions((#[trigger] cleared[i]).1, id) by {
        nulled_values_never_mention(carried[i].1, removed, id);
    }
    assert(none_mention(cleared, id));
    let output_ids = chosen.output.map_values(|entry: (PdfId, PdfValue)| entry.0);
    lemma_output_numbers(
        chosen.source,
        chosen.selected,
        rotations,
        (chosen.source.max_id + 1) as u32,
    );
    assert(!output_ids.contains(id)) by {
        if output_ids.contains(id) {
            let k = choose|k: int| 0 <= k < output_ids.len() && output_ids[k] == id;
            assert(chosen.output[k].0 == id);
            if chosen.output[k].0 == chosen.selected[k] {
                assert(chosen.selected.contains(chosen.selected[k]));
            }
        }
    }
    lemma_tree_mentions(output_ids, id);
    lemma_put_mentions(cleared, tree_id(), page_tree(output_ids), id);
    let with_tree = put_object(cleared, tree_id(), page_tree(output_ids));
    let catalog = catalog_of(chosen.source);
    let labels = readable_labels(chosen.source.objects, catalog);
    let original_order = removed.len() == 0 && pages.len() == distinct(chosen.selected).len()
        && counts_up(pages);
    let told_labels = if dict_has(catalog, utf8("PageLabels"@)) && labels is None {
        with_notice(Seq::empty(), labels_dropped_notice())
    } else {
        Seq::empty()
    };
    let told_links = if removed.len() > 0 {
        with_notice(told_labels, links_notice())
    } else {
        told_labels
    };
    let (rearranged, _) = rearranged_catalog(catalog, labels, pages, original_order, told_links);
    let value = PdfValue::Dictionary(rearranged);
    assert(output == pruned_pdf(whole(version, chosen, with_tree, value, removed)));
    nulled_values_never_mention(value, removed, id);
    lemma_put_mentions(with_tree, catalog_id(), nulled(value, removed), id);
    let all = whole(version, chosen, with_tree, value, removed);
    assert(!entries_mention(all.trailer, id)) by {
        assert(all.trailer =~= seq![(utf8("Root"@), PdfValue::Reference(catalog_id()))]);
        assert(!mentions(all.trailer[0].1, id));
    }
    lemma_pruned(all, id);
}

/// The output before it is pruned.
spec fn whole(
    version: Seq<char>,
    chosen: Selection,
    with_tree: Seq<(PdfId, PdfValue)>,
    catalog: PdfValue,
    removed: Seq<PdfId>,
) -> PdfDocumentValue {
    new_document(
        crate::pdf::merge::later_version(version, "1.5"@),
        put_object(with_tree, catalog_id(), nulled(catalog, removed)),
        (chosen.next_id - 1) as u32,
        catalog_id(),
    )
}

/// Whether `id` is that of the page with this number.
pub open spec fn is_page(id: PdfId, page: u32, ids: Seq<PdfId>) -> bool {
    1 <= page <= ids.len() && id == ids[page - 1]
}

/// Whether `selected` lists the pages with these numbers, in order.
pub open spec fn names_pages(selected: Seq<PdfId>, pages: Seq<u32>, ids: Seq<PdfId>) -> bool {
    selected.len() == pages.len() && forall|i: int|
        0 <= i < pages.len() ==> is_page(#[trigger] selected[i], pages[i], ids)
}

/// The output has a page for each requested one, in the requested order.
pub proof fn output_follows_the_request(
    document: PdfDocumentValue,
    pages: Seq<u32>,
    rotations: Seq<i32>,
)
    requires
        selection(document, pages, rotations) is Ok,
    ensures
        ({
            let chosen = selection(document, pages, rotations)->Ok_0;
            &&& chosen.output.len() == pages.len()
            &&& names_pages(chosen.selected, pages, chosen.ids)
        }),
{
    let chosen = selection(document, pages, rotations)->Ok_0;
    lemma_selected(pages, chosen.ids);
    lemma_output_numbers(
        chosen.source,
        chosen.selected,
        rotations,
        (chosen.source.max_id + 1) as u32,
    );
}

proof fn lemma_selected(pages: Seq<u32>, ids: Seq<PdfId>)
    requires
        selected_pages(pages, ids) is Ok,
    ensures
        names_pages(selected_pages(pages, ids)->Ok_0, pages, ids),
    decreases pages.len(),
{
    if pages.len() > 0 {
        let shorter = pages.drop_last();
        lemma_selected(shorter, ids);
        let before = selected_pages(shorter, ids)->Ok_0;
        let all = selected_pages(pages, ids)->Ok_0;
        assert forall|i: int| 0 <= i < pages.len() implies is_page(
            #[trigger] all[i],
            pages[i],
            ids,
        ) by {
            if i < shorter.len() {
                assert(is_page(before[i], shorter[i], ids));
            }
        }
    }
}

/// Every output page is an object of its own: a page that is requested twice
/// appears twice, each with its own rotation.
pub proof fn output_pages_are_distinct(
    document: PdfDocumentValue,
    pages: Seq<u32>,
    rotations: Seq<i32>,
)
    requires
        selection(document, pages, rotations) is Ok,
        ({
            let chosen = selection(document, pages, rotations)->Ok_0;
            forall|i: int|
                0 <= i < chosen.selected.len() ==> (#[trigger] chosen.selected[i]).0
                    <= chosen.source.max_id
        }),
    ensures
        ({
            let output = (selection(document, pages, rotations)->Ok_0).output;
            forall|i: int, j: int|
                0 <= i < j < output.len() ==> (#[trigger] output[i]).0 != (#[trigger] output[j]).0
        }),
{
    let chosen = selection(document, pages, rotations)->Ok_0;
    lemma_distinct_output(
        chosen.source,
        chosen.selected,
        rotations,
        (chosen.source.max_id + 1) as u32,
    );
}

proof fn lemma_in_distinct(ids: Seq<PdfId>, i: int)
    requires
        0 <= i < ids.len(),
    ensures
        distinct(ids).contains(ids[i]),
    decreases ids.len(),
{
    let before = distinct(ids.drop_last());
    if i < ids.len() - 1 {
        lemma_in_distinct(ids.drop_last(), i);
        assert(ids.drop_last()[i] == ids[i]);
        let k = choose|k: int| 0 <= k < before.len() && before[k] == ids[i];
        assert(distinct(ids)[k] == ids[i]);
    } else if !before.contains(ids.last()) {
        assert(distinct(ids)[before.len() as int] == ids[i]);
    }
}

proof fn lemma_distinct_output(
    document: PdfDocumentValue,
    selected: Seq<PdfId>,
    rotations: Seq<i32>,
    next_id: u32,
)
    requires
        output_pages(document, selected, rotations, next_id) is Ok,
        forall|i: int| 0 <= i < selected.len() ==> (#[trigger] selected[i]).0 < next_id,
    ensures
        ({
            let (output, _) = output_pages(document, selected, rotations, next_id)->Ok_0;
            forall|i: int, j: int|
                0 <= i < j < output.len() ==> (#[trigger] output[i]).0 != (#[trigger] output[j]).0
        }),
    decreases selected.len(),
{
    if selected.len() > 0 {
        let shorter = selected.drop_last();
        assert forall|i: int| 0 <= i < shorter.len() implies (#[trigger] shorter[i]).0
            < next_id by {
            assert(shorter[i] == selected[i]);
        }
        lemma_distinct_output(document, shorter, rotations, next_id);
        lemma_output_numbers(document, shorter, rotations, next_id);
        let (before, next) = output_pages(document, shorter, rotations, next_id)->Ok_0;
        let (output, _) = output_pages(document, selected, rotations, next_id)->Ok_0;
        let last = selected.len() - 1;
        assert(selected[last] == selected.last());
        assert forall|i: int, j: int| 0 <= i < j < output.len() implies (#[trigger] output[i]).0
            != (#[trigger] output[j]).0 by {
            if j < last {
                assert(before[i].0 != before[j].0);
            } else {
                assert(output[i] == before[i]);
                lemma_in_distinct(shorter, i);
                if before[i].0 == shorter[i] {
                    assert(shorter[i] == selected[i]);
                }
            }
        }
    }
}

/// Combining keeps the order: the pages of earlier documents come first, as they
/// would without the later ones, and each document's pages are counted from where
/// they begin.
pub proof fn merging_keeps_page_order(documents: Seq<PdfDocumentValue>, count: int)
    requires
        0 <= count <= documents.len(),
        combined(documents) is Ok,
    ensures
        combined(documents.take(count)) is Ok,
        ({
            let all = combined(documents)->Ok_0;
            let before = combined(documents.take(count))->Ok_0;
            &&& all.offsets.len() == documents.len()
            &&& all.catalogs.len() == documents.len()
            &&& before.pages.len() <= all.pages.len()
            &&& before.pages == all.pages.take(before.pages.len() as int)
            &&& count < documents.len() ==> all.offsets[count] == page_offset(before.pages.len())
        }),
    decreases documents.len(),
{
    if documents.len() == 0 {
        assert(documents.take(count) =~= documents);
        assert(combined(documents)->Ok_0.pages.take(0) =~= combined(documents)->Ok_0.pages);
    } else {
        let shorter = documents.drop_last();
        let all = combined(documents)->Ok_0;
        let most = combined(shorter)->Ok_0;
        if count == documents.len() {
            merging_keeps_page_order(shorter, count - 1);
            assert(documents.take(count) =~= documents);
            assert(all.pages.take(all.pages.len() as int) =~= all.pages);
        } else {
            merging_keeps_page_order(shorter, count);
            assert(shorter.take(count) =~= documents.take(count));
            let before = combined(documents.take(count))->Ok_0;
            assert(all.pages.take(before.pages.len() as int) =~= most.pages.take(
                before.pages.len() as int,
            ));
            if count == documents.len() - 1 {
                assert(documents.take(count) =~= shorter);
            }
        }
    }
}

/// The page numbers that two requests in a row come to.
pub open spec fn composed_pages(pages: Seq<u32>, again: Seq<u32>) -> Seq<u32> {
    Seq::new(again.len(), |i: int| pages[again[i] - 1])
}

/// The turns that two requests in a row come to.
pub open spec fn composed_turns(rotations: Seq<i32>, again: Seq<u32>, added: Seq<i32>) -> Seq<
    i32,
> {
    Seq::new(again.len(), |i: int| ((rotations[again[i] - 1] + added[i]) % 360) as i32)
}

/// The angle that a page lies at.
pub open spec fn angle_of(page: Seq<(Seq<u8>, PdfValue)>) -> i64 {
    match dict_get(page, utf8("Rotate"@)) {
        Some(PdfValue::Integer(value)) => value,
        _ => 0,
    }
}

/// A page under the new tree, turned further.
pub open spec fn turned_page(page: Seq<(Seq<u8>, PdfValue)>, added: i32) -> Seq<
    (Seq<u8>, PdfValue),
> {
    dict_set(
        dict_set(page, utf8("Parent"@), PdfValue::Reference(tree_id())),
        utf8("Rotate"@),
        PdfValue::Integer(turned(angle_of(page), added)),
    )
}

proof fn lemma_turns_add(angle: i64, first: i32, second: i32)
    requires
        is_quarter_turn(first),
        is_quarter_turn(second),
    ensures
        is_quarter_turn(((first + second) % 360) as i32),
        turned(turned(angle, first), second) == turned(angle, ((first + second) % 360) as i32),
{
    let total = (first + second) % 360;
    assert(first + second == total || first + second == total + 360);
}

/// A value that is stored in place of another stands where that one stood.
proof fn lemma_stored_again(
    entries: Seq<(Seq<u8>, PdfValue)>,
    key: Seq<u8>,
    first: PdfValue,
    second: PdfValue,
)
    ensures
        dict_set(dict_set(entries, key, first), key, second) == dict_set(entries, key, second),
{
    let once = dict_set(entries, key, first);
    lemma_dict_index_from(entries, key, 0);
    lemma_dict_index_from(once, key, 0);
    let place = match dict_index(entries, key) {
        Some(at) => at,
        None => entries.len() as int,
    };
    assert(once[place].0 == key);
    assert forall|j: int| 0 <= j < place implies (#[trigger] once[j]).0 != key by {
        assert(once[j] == entries[j]);
    }
    assert(dict_index(once, key) == Some(place));
    assert(dict_set(once, key, second) =~= dict_set(entries, key, second));
}

/// Turning a page twice is turning it once by both angles.
#[verifier::spinoff_prover]
pub proof fn turning_twice_is_turning_once(
    page: Seq<(Seq<u8>, PdfValue)>,
    first: i32,
    second: i32,
)
    requires
        is_quarter_turn(first),
        is_quarter_turn(second),
    ensures
        is_quarter_turn(((first + second) % 360) as i32),
        turned_page(turned_page(page, first), second) == turned_page(
            page,
            ((first + second) % 360) as i32,
        ),
{
    lemma_keys_differ();
    let parent = utf8("Parent"@);
    let rotate = utf8("Rotate"@);
    let tree = PdfValue::Reference(tree_id());
    let hung = dict_set(page, parent, tree);
    let once = turned_page(page, first);
    let again = dict_set(once, parent, tree);
    let angle = PdfValue::Integer(turned(angle_of(page), first));
    let total = ((first + second) % 360) as i32;
    let whole = PdfValue::Integer(turned(angle_of(page), total));
    storing_a_value(page, parent, tree, rotate);
    storing_a_value(hung, rotate, angle, parent);
    lemma_dict_index_from(once, parent, 0);
    let i = dict_index(once, parent)->0;
    assert(once[i] == (parent, tree));
    assert(again =~= once);
    assert(angle_of(once) == turned(angle_of(page), first));
    lemma_turns_add(angle_of(page), first, second);
    lemma_stored_again(hung, rotate, angle, whole);
}

/// Every output page is the page that was selected, turned further.
proof fn lemma_output_entries(
    document: PdfDocumentValue,
    selected: Seq<PdfId>,
    rotations: Seq<i32>,
    next_id: u32,
    i: int,
)
    requires
        output_pages(document, selected, rotations, next_id) is Ok,
        0 <= i < selected.len(),
    ensures
        ({
            let (output, _) = output_pages(document, selected, rotations, next_id)->Ok_0;
            &&& output.len() == selected.len()
            &&& dictionary_of(document.objects, selected[i]) is Some
            &&& output[i].1 == PdfValue::Dictionary(
                turned_page(dictionary_of(document.objects, selected[i])->0, rotations[i]),
            )
        }),
    decreases selected.len(),
{
    let shorter = selected.drop_last();
    lemma_output_numbers(document, selected, rotations, next_id);
    lemma_output_numbers(document, shorter, rotations, next_id);
    if i < shorter.len() {
        lemma_output_entries(document, shorter, rotations, next_id, i);
        assert(shorter[i] == selected[i]);
    }
}

/// Every output page is the page that was asked for, with its own entries and every
/// attribute that applied to it, hung under the new tree and turned further. What else was
/// asked for changes nothing of it.
pub proof fn organized_pages_keep_their_content(
    document: PdfDocumentValue,
    pages: Seq<u32>,
    rotations: Seq<i32>,
    i: int,
)
    requires
        selection(document, pages, rotations) is Ok,
        0 <= i < pages.len(),
    ensures
        ({
            let chosen = selection(document, pages, rotations)->Ok_0;
            let source = renumbered_pdf(document, FIRST_SOURCE_ID);
            &&& chosen.ids == page_ids(source)
            &&& chosen.selected.len() == pages.len() && chosen.output.len() == pages.len()
            &&& is_page(chosen.selected[i], pages[i], chosen.ids)
            &&& dictionary_of(source.objects, chosen.selected[i]) is Some
            &&& chosen.output[i].1 == PdfValue::Dictionary(
                turned_page(
                    with_inherited(
                        source.objects,
                        chosen.selected[i],
                        dictionary_of(source.objects, chosen.selected[i])->0,
                    ),
                    rotations[i],
                ),
            )
            &&& dictionary_of(chosen.source.objects, chosen.selected[i]) == Some(
                with_inherited(
                    source.objects,
                    chosen.selected[i],
                    dictionary_of(source.objects, chosen.selected[i])->0,
                ),
            )
        }),
{
    output_follows_the_request(document, pages, rotations);
    let chosen = selection(document, pages, rotations)->Ok_0;
    let source = renumbered_pdf(document, FIRST_SOURCE_ID);
    let unique = distinct(chosen.selected);
    lemma_completed(source, unique);
    lemma_in_distinct(chosen.selected, i);
    let k = choose|k: int| 0 <= k < unique.len() && unique[k] == chosen.selected[i];
    assert(dictionary_of(source.objects, unique[k]) is Some);
    lemma_output_entries(
        chosen.source,
        chosen.selected,
        rotations,
        (chosen.source.max_id + 1) as u32,
        i,
    );
}

/// Whether the pages of a second selection are the output of a first one, as it was
/// written.
pub open spec fn reads_back(first: Selection, second: Selection) -> bool {
    &&& second.ids.len() == first.output.len()
    &&& forall|k: int|
        0 <= k < second.ids.len() && second.selected.contains(#[trigger] second.ids[k])
            ==> dictionary_of(second.source.objects, second.ids[k]) is Some && first.output[k].1
            == PdfValue::Dictionary(dictionary_of(second.source.objects, second.ids[k])->0)
}

/// Organizing what was organized, where its pages are read back as they were written, gives
/// the pages that organizing once gives with the selections composed and the turns added.
pub proof fn organizing_twice_is_organizing_once(
    document: PdfDocumentValue,
    pages: Seq<u32>,
    rotations: Seq<i32>,
    later: PdfDocumentValue,
    again: Seq<u32>,
    added: Seq<i32>,
    i: int,
)
    requires
        rotations.len() == pages.len(),
        added.len() == again.len(),
        forall|k: int| 0 <= k < rotations.len() ==> is_quarter_turn(#[trigger] rotations[k]),
        forall|k: int| 0 <= k < added.len() ==> is_quarter_turn(#[trigger] added[k]),
        selection(document, pages, rotations) is Ok,
        selection(later, again, added) is Ok,
        selection(
            document,
            composed_pages(pages, again),
            composed_turns(rotations, again, added),
        ) is Ok,
        reads_back(
            selection(document, pages, rotations)->Ok_0,
            selection(later, again, added)->Ok_0,
        ),
        0 <= i < again.len(),
    ensures
        ({
            let first = selection(document, pages, rotations)->Ok_0;
            let second = selection(later, again, added)->Ok_0;
            let once = selection(
                document,
                composed_pages(pages, again),
                composed_turns(rotations, again, added),
            )->Ok_0;
            &&& once.output.len() == second.output.len() == again.len()
            &&& 1 <= again[i] <= pages.len()
            &&& once.selected[i] == first.selected[again[i] - 1]
            &&& once.output[i].1 == second.output[i].1
        }),
{
    let whole = composed_pages(pages, again);
    let turns = composed_turns(rotations, again, added);
    let first = selection(document, pages, rotations)->Ok_0;
    let second = selection(later, again, added)->Ok_0;
    let once = selection(document, whole, turns)->Ok_0;
    output_follows_the_request(document, pages, rotations);
    organized_pages_keep_their_content(later, again, added, i);
    organized_pages_keep_their_content(document, whole, turns, i);
    let k = again[i] - 1;
    assert(second.selected[i] == second.ids[k]);
    assert(second.selected.contains(second.ids[k]));
    organized_pages_keep_their_content(document, pages, rotations, k);
    assert(whole[i] == pages[k]);
    let page = dictionary_of(first.source.objects, first.selected[k])->0;
    assert(is_quarter_turn(rotations[k]) && is_quarter_turn(added[i]));
    turning_twice_is_turning_once(page, rotations[k], added[i]);
}

} // verus!
