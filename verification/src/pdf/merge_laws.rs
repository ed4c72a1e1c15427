//! What combining documents keeps of each of them.

use vstd::prelude::*;

use crate::bytes::{lemma_ascii, utf8};
use crate::notices::NoticeValue;
use crate::pdf::merge::{
    adopted, catalog_id, combined, merged_document, moved_objects, page_tree, tree_id, MergeState,
    FIRST_SOURCE_ID,
};
use crate::pdf::model::{
    dereferenced, dict_get, dictionary_of, is_root, object_index_from, object_of, put_object,
    PdfDocumentValue, PdfId, PdfValue, DEREFERENCE_LIMIT,
};
use crate::pdf::organize_laws::merging_keeps_page_order;
use crate::pdf::outlines::{
    joined_outlines, next_sibling, outline_of, outline_root, outline_sources, reparented,
    set_entry, siblings, OutlineValue, MAX_TOP_LEVEL,
};
use crate::pdf::output_laws::is_framework;
use crate::pdf::outside::{lies_within, page_ids, renumbered_pdf};
use crate::pdf::page_laws::{
    adopted_pages_keep_their_content, dictionaries_agree, has_same_entries, is_kept_page,
    is_own_key, is_rehung, lemma_adopted, lemma_index, lemma_keys_differ, objects_agree,
    storing_an_object,
    tables_agree,
};
use crate::pdf::pages::final_id;

verus! {

/// The state in front of a document: what those before it add up to.
pub open spec fn state_before(documents: Seq<PdfDocumentValue>, j: int) -> MergeState {
    combined(documents.take(j))->Ok_0
}

/// A document as it is combined: with numbers behind those of the documents before it.
pub open spec fn placed_source(documents: Seq<PdfDocumentValue>, j: int) -> PdfDocumentValue {
    renumbered_pdf(documents[j], state_before(documents, j).next_id as u32)
}

/// Whether each document has the numbers of its own range.
pub open spec fn are_numbered_apart(documents: Seq<PdfDocumentValue>) -> bool {
    forall|j: int|
        0 <= j < documents.len() ==> lies_within(
            (#[trigger] placed_source(documents, j)).objects,
            state_before(documents, j).next_id,
            documents[j].objects.len(),
        )
}

/// Whether pages of different documents never share a number: that of a page of an earlier
/// document is less than that of a page of a later one.
pub open spec fn pages_stay_apart(documents: Seq<PdfDocumentValue>) -> bool {
    combined(documents) matches Ok(all) ==> forall|count: int, early: int, late: int|
        #![trigger documents.take(count), all.pages[early], all.pages[late]]
        0 <= count <= documents.len() && 0 <= early < state_before(documents, count).pages.len()
            <= late < all.pages.len() ==> all.pages[early].0 < all.pages[late].0
}

/// Whether a page is an object of its own: its number is not that of a reference to a
/// catalog or to a node of a page tree, which stay behind.
pub open spec fn is_own_page(objects: Seq<(PdfId, PdfValue)>, id: PdfId) -> bool {
    object_of(objects, id) is Some && (object_of(objects, id)->0 is Dictionary || (dictionary_of(
        objects,
        id,
    ) is Some && !is_root(PdfValue::Dictionary(dictionary_of(objects, id)->0))))
}

/// Whether a page of a document stands in the combined table, with its entries and the
/// attributes that applied to it.
pub open spec fn is_merged_page(all: MergeState, source: PdfDocumentValue, id: PdfId) -> bool {
    is_own_page(source.objects, id) ==> (dictionary_of(all.objects, id) matches Some(page)
        && is_kept_page(source.objects, id, tree_id(), page))
}

/// Whether a page of a document keeps its place in the order, its entries, and the
/// attributes that applied to it.
pub open spec fn is_page_kept(
    documents: Seq<PdfDocumentValue>,
    all: MergeState,
    j: int,
    i: int,
) -> bool {
    let id = page_ids(placed_source(documents, j))[i];
    let place = state_before(documents, j).pages.len() + i;
    &&& place < all.pages.len() && all.pages[place as int] == id
    &&& is_merged_page(all, placed_source(documents, j), id)
}

/// Whether every page of every document keeps its place in the order, its entries, and the
/// attributes that applied to it.
pub open spec fn pages_keep_their_content(documents: Seq<PdfDocumentValue>) -> bool {
    combined(documents) matches Ok(all) ==> forall|j: int, i: int|
        0 <= j < documents.len() && 0 <= i < page_ids(placed_source(documents, j)).len()
            ==> #[trigger] is_page_kept(documents, all, j, i)
}

/// A number that is found lies in the range of the table.
pub(crate) proof fn lemma_in_range(
    objects: Seq<(PdfId, PdfValue)>,
    start: nat,
    count: nat,
    id: PdfId,
)
    requires
        lies_within(objects, start, count),
    ensures
        object_of(objects, id) is Some ==> start <= id.0 < start + count,
{
    lemma_index(objects, id, 0);
}

/// An object that is moved is found in the combined table, and what was there before stays
/// where the numbers differ.
pub(crate) proof fn lemma_moved(
    output: Seq<(PdfId, PdfValue)>,
    objects: Seq<(PdfId, PdfValue)>,
    pages: Seq<PdfId>,
    id: PdfId,
)
    requires
        forall|i: int, j: int|
            0 <= i < j < objects.len() ==> (#[trigger] objects[i]).0 != (#[trigger] objects[j]).0,
    ensures
        match object_of(objects, id) {
            Some(value) => if pages.contains(id) || !is_root(value) {
                object_of(moved_objects(output, objects, pages), id) == Some(value)
            } else {
                object_of(moved_objects(output, objects, pages), id) == object_of(output, id)
            },
            None => object_of(moved_objects(output, objects, pages), id) == object_of(output, id),
        },
    decreases objects.len(),
{
    lemma_index(objects, id, 0);
    if objects.len() > 0 {
        let shorter = objects.drop_last();
        let (last, value) = objects.last();
        lemma_moved(output, shorter, pages, id);
        lemma_index(shorter, id, 0);
        let before = moved_objects(output, shorter, pages);
        storing_an_object(before, last, value, id);
        match object_index_from(objects, id, 0) {
            Some(k) => {
                if k < shorter.len() {
                    assert(shorter[k].0 == id);
                    let found = object_index_from(shorter, id, 0)->0;
                    assert(objects[found].0 == id);
                    assert(found == k);
                    assert(objects[objects.len() - 1].0 != objects[k].0);
                } else {
                    if object_index_from(shorter, id, 0) is Some {
                        let found = object_index_from(shorter, id, 0)->0;
                        assert(objects[found].0 == id);
                    }
                }
            },
            None => {
                if object_index_from(shorter, id, 0) is Some {
                    let found = object_index_from(shorter, id, 0)->0;
                    assert(objects[found].0 == id);
                }
                assert(objects[objects.len() - 1].0 != id);
            },
        }
    }
}

/// Whether the objects of a table that are not left behind stand in another.
spec fn are_carried(
    objects: Seq<(PdfId, PdfValue)>,
    pages: Seq<PdfId>,
    output: Seq<(PdfId, PdfValue)>,
) -> bool {
    forall|id: PdfId|
        (#[trigger] object_of(objects, id)) is Some && (pages.contains(id) || !is_root(
            object_of(objects, id)->0,
        )) ==> object_of(output, id) == object_of(objects, id)
}

/// References are followed in the same way among the objects that are carried over.
proof fn lemma_chain_carried(
    objects: Seq<(PdfId, PdfValue)>,
    pages: Seq<PdfId>,
    output: Seq<(PdfId, PdfValue)>,
    id: PdfId,
    left: nat,
)
    requires
        are_carried(objects, pages, output),
        object_of(objects, id) is Some,
        dereferenced(objects, object_of(objects, id)->0, left) is Some,
        (object_of(objects, id)->0 is Dictionary && pages.contains(id)) || !is_root(
            dereferenced(objects, object_of(objects, id)->0, left)->0,
        ),
    ensures
        object_of(output, id) == object_of(objects, id),
        dereferenced(output, object_of(objects, id)->0, left) == dereferenced(
            objects,
            object_of(objects, id)->0,
            left,
        ),
    decreases left,
{
    if let PdfValue::Reference(next) = object_of(objects, id)->0 {
        lemma_chain_carried(objects, pages, output, next, (left - 1) as nat);
    }
}

/// Hanging a page under another tree does not make it a node.
proof fn lemma_same_kind(own: Seq<(Seq<u8>, PdfValue)>, page: Seq<(Seq<u8>, PdfValue)>)
    requires
        has_same_entries(own, page),
    ensures
        is_root(PdfValue::Dictionary(page)) == is_root(PdfValue::Dictionary(own)),
{
    lemma_keys_differ();
    assert(is_own_key(utf8("Type"@)));
    assert(is_own_key(utf8("Linearized"@)));
    assert(dict_get(page, utf8("Type"@)) == dict_get(own, utf8("Type"@)));
    assert(dict_get(page, utf8("Linearized"@)) == dict_get(own, utf8("Linearized"@)));
}

/// Fewer documents are numbered apart too.
pub(crate) proof fn lemma_fewer(documents: Seq<PdfDocumentValue>)
    requires
        are_numbered_apart(documents),
        documents.len() > 0,
    ensures
        are_numbered_apart(documents.drop_last()),
{
    let shorter = documents.drop_last();
    assert forall|j: int| 0 <= j < shorter.len() implies lies_within(
        (#[trigger] placed_source(shorter, j)).objects,
        state_before(shorter, j).next_id,
        shorter[j].objects.len(),
    ) by {
        assert(shorter.take(j) =~= documents.take(j));
        assert(placed_source(shorter, j) == placed_source(documents, j));
    }
}

/// One more document is numbered apart from those before it.
pub(crate) proof fn lemma_one_more_apart(documents: Seq<PdfDocumentValue>, count: int)
    requires
        0 <= count < documents.len(),
        are_numbered_apart(documents.take(count)),
        lies_within(
            placed_source(documents, count).objects,
            state_before(documents, count).next_id,
            documents[count].objects.len(),
        ),
    ensures
        are_numbered_apart(documents.take(count + 1)),
{
    let fewer = documents.take(count);
    let more = documents.take(count + 1);
    assert forall|j: int| 0 <= j < more.len() implies lies_within(
        (#[trigger] placed_source(more, j)).objects,
        state_before(more, j).next_id,
        more[j].objects.len(),
    ) by {
        assert(more.take(j) =~= documents.take(j));
        assert(placed_source(more, j) == placed_source(documents, j));
        if j < count {
            assert(fewer.take(j) =~= documents.take(j));
            assert(placed_source(fewer, j) == placed_source(documents, j));
        }
    }
}

/// What one document adds: pages with numbers in its range, and its objects.
pub(crate) proof fn lemma_added(documents: Seq<PdfDocumentValue>)
    requires
        documents.len() > 0,
        are_numbered_apart(documents),
        combined(documents) is Ok,
        FIRST_SOURCE_ID <= combined(documents.drop_last())->Ok_0.next_id,
    ensures
        ({
            let j = documents.len() - 1;
            let before = combined(documents.drop_last())->Ok_0;
            let all = combined(documents)->Ok_0;
            let source = placed_source(documents, j);
            let pages = page_ids(source);
            let objects = adopted(source, pages, tree_id())->Ok_0;
            &&& state_before(documents, j) == before
            &&& adopted(source, pages, tree_id()) is Ok
            &&& all.objects == moved_objects(before.objects, objects, pages)
            &&& all.pages == before.pages + pages
            &&& all.next_id == before.next_id + documents[j].objects.len()
            &&& object_of(source.objects, tree_id()) is None
            &&& lies_within(objects, before.next_id, documents[j].objects.len())
            &&& tables_agree(source.objects, objects, tree_id())
            &&& forall|i: int|
                0 <= i < pages.len() ==> before.next_id <= (#[trigger] pages[i]).0 < all.next_id
        }),
{
    let j = documents.len() - 1;
    assert(documents.take(j) =~= documents.drop_last());
    let before = combined(documents.drop_last())->Ok_0;
    let source = placed_source(documents, j);
    let pages = page_ids(source);
    let objects = adopted(source, pages, tree_id())->Ok_0;
    let count = documents[j].objects.len();
    lemma_in_range(source.objects, before.next_id, count, tree_id());
    lemma_adopted(source, pages, tree_id());
    assert forall|i: int| 0 <= i < pages.len() implies before.next_id <= (#[trigger] pages[i]).0
        < before.next_id + count by {
        assert(is_rehung(source.objects, objects, tree_id(), pages[i]));
        assert(dictionaries_agree(source.objects, objects, pages[i]));
        lemma_in_range(source.objects, before.next_id, count, pages[i]);
    }
}

/// Every page and every object of the combined table has a number that was given out.
pub(crate) proof fn lemma_bounded(documents: Seq<PdfDocumentValue>)
    requires
        are_numbered_apart(documents),
        combined(documents) is Ok,
    ensures
        ({
            let all = combined(documents)->Ok_0;
            &&& FIRST_SOURCE_ID <= all.next_id
            &&& forall|p: int|
                0 <= p < all.pages.len() ==> (#[trigger] all.pages[p]).0 < all.next_id
            &&& forall|id: PdfId|
                (#[trigger] object_of(all.objects, id)) is Some ==> FIRST_SOURCE_ID <= id.0
                    < all.next_id
        }),
    decreases documents.len(),
{
    if documents.len() > 0 {
        let shorter = documents.drop_last();
        lemma_fewer(documents);
        lemma_bounded(shorter);
        lemma_added(documents);
        let before = combined(shorter)->Ok_0;
        let all = combined(documents)->Ok_0;
        let source = placed_source(documents, documents.len() - 1);
        let pages = page_ids(source);
        let objects = adopted(source, pages, tree_id())->Ok_0;
        assert forall|p: int| 0 <= p < all.pages.len() implies (#[trigger] all.pages[p]).0
            < all.next_id by {
            if p < before.pages.len() {
                assert(all.pages[p] == before.pages[p]);
            } else {
                assert(all.pages[p] == pages[p - before.pages.len()]);
            }
        }
        assert forall|id: PdfId|
            (#[trigger] object_of(all.objects, id)) is Some implies FIRST_SOURCE_ID <= id.0
            < all.next_id by {
            lemma_moved(before.objects, objects, pages, id);
            lemma_in_range(
                objects,
                before.next_id,
                documents[documents.len() - 1].objects.len(),
                id,
            );
        }
    }
}

/// Pages of different documents never share a number.
proof fn lemma_pages_stay_apart(documents: Seq<PdfDocumentValue>)
    requires
        are_numbered_apart(documents),
    ensures
        pages_stay_apart(documents),
    decreases documents.len(),
{
    if documents.len() > 0 && combined(documents) is Ok {
        let shorter = documents.drop_last();
        lemma_fewer(documents);
        lemma_pages_stay_apart(shorter);
        lemma_bounded(shorter);
        lemma_added(documents);
        let all = combined(documents)->Ok_0;
        let before = combined(shorter)->Ok_0;
        let pages = page_ids(placed_source(documents, documents.len() - 1));
        assert forall|count: int, early: int, late: int|
            #![trigger documents.take(count), all.pages[early], all.pages[late]]
            0 <= count <= documents.len() && 0 <= early < state_before(
                documents,
                count,
            ).pages.len() <= late < all.pages.len() implies all.pages[early].0
            < all.pages[late].0 by {
            assert(documents.take(documents.len() as int) =~= documents);
            if count < documents.len() {
                assert(shorter.take(count) =~= documents.take(count));
                merging_keeps_page_order(shorter, count);
                assert(all.pages[early] == before.pages[early]);
                if late < before.pages.len() {
                    assert(all.pages[late] == before.pages[late]);
                } else {
                    assert(all.pages[late] == pages[late - before.pages.len()]);
                }
            }
        }
    }
}

/// A page of the document that was combined last stands in the table.
proof fn lemma_last_page(documents: Seq<PdfDocumentValue>, i: int)
    requires
        documents.len() > 0,
        are_numbered_apart(documents),
        combined(documents) is Ok,
        0 <= i < page_ids(placed_source(documents, documents.len() - 1)).len(),
    ensures
        is_merged_page(
            combined(documents)->Ok_0,
            placed_source(documents, documents.len() - 1),
            page_ids(placed_source(documents, documents.len() - 1))[i],
        ),
{
    lemma_fewer(documents);
    lemma_bounded(documents.drop_last());
    lemma_added(documents);
    let all = combined(documents)->Ok_0;
    let before = combined(documents.drop_last())->Ok_0;
    let source = placed_source(documents, documents.len() - 1);
    let pages = page_ids(source);
    let objects = adopted(source, pages, tree_id())->Ok_0;
    let id = pages[i];
    adopted_pages_keep_their_content(source, pages, tree_id(), i);
    assert(are_carried(objects, pages, all.objects)) by {
        assert forall|other: PdfId|
            (#[trigger] object_of(objects, other)) is Some && (pages.contains(other) || !is_root(
                object_of(objects, other)->0,
            )) implies object_of(all.objects, other) == object_of(objects, other) by {
            lemma_moved(before.objects, objects, pages, other);
        }
    }
    if is_own_page(source.objects, id) {
        assert(crate::pdf::page_laws::objects_agree(source.objects, objects, id));
        assert(dictionaries_agree(source.objects, objects, id));
        assert(pages.contains(id));
        lemma_same_kind(
            dictionary_of(source.objects, id)->0,
            dictionary_of(objects, id)->0,
        );
        lemma_chain_carried(objects, pages, all.objects, id, DEREFERENCE_LIMIT as nat);
    }
}

/// A page that stands in the table stays there when another document is added.
proof fn lemma_page_stays(documents: Seq<PdfDocumentValue>, source: PdfDocumentValue, id: PdfId)
    requires
        documents.len() > 0,
        are_numbered_apart(documents),
        combined(documents) is Ok,
        is_merged_page(combined(documents.drop_last())->Ok_0, source, id),
    ensures
        is_merged_page(combined(documents)->Ok_0, source, id),
{
    lemma_fewer(documents);
    lemma_bounded(documents.drop_last());
    lemma_added(documents);
    let all = combined(documents)->Ok_0;
    let before = combined(documents.drop_last())->Ok_0;
    let last = placed_source(documents, documents.len() - 1);
    let pages = page_ids(last);
    let objects = adopted(last, pages, tree_id())->Ok_0;
    if is_own_page(source.objects, id) {
        lemma_same_chain(
            before.objects,
            all.objects,
            before.next_id,
            objects,
            pages,
            documents[documents.len() - 1].objects.len(),
            id,
            DEREFERENCE_LIMIT as nat,
        );
    }
}

/// References are followed in the same way when objects with higher numbers are added.
proof fn lemma_same_chain(
    before: Seq<(PdfId, PdfValue)>,
    all: Seq<(PdfId, PdfValue)>,
    next: nat,
    objects: Seq<(PdfId, PdfValue)>,
    pages: Seq<PdfId>,
    count: nat,
    id: PdfId,
    left: nat,
)
    requires
        all == moved_objects(before, objects, pages),
        lies_within(objects, next, count),
        forall|other: PdfId| (#[trigger] object_of(before, other)) is Some ==> other.0 < next,
        object_of(before, id) is Some,
        dereferenced(before, object_of(before, id)->0, left) is Some,
    ensures
        object_of(all, id) == object_of(before, id),
        dereferenced(all, object_of(before, id)->0, left) == dereferenced(
            before,
            object_of(before, id)->0,
            left,
        ),
    decreases left,
{
    lemma_moved(before, objects, pages, id);
    lemma_in_range(objects, next, count, id);
    if let PdfValue::Reference(following) = object_of(before, id)->0 {
        lemma_same_chain(
            before,
            all,
            next,
            objects,
            pages,
            count,
            following,
            (left - 1) as nat,
        );
    }
}

/// Every page keeps its place in the order, its entries, and the attributes that applied
/// to it.
proof fn lemma_pages_keep_their_content(documents: Seq<PdfDocumentValue>)
    requires
        are_numbered_apart(documents),
    ensures
        pages_keep_their_content(documents),
    decreases documents.len(),
{
    if documents.len() > 0 && combined(documents) is Ok {
        let shorter = documents.drop_last();
        lemma_fewer(documents);
        lemma_pages_keep_their_content(shorter);
        lemma_bounded(shorter);
        lemma_added(documents);
        let all = combined(documents)->Ok_0;
        let before = combined(shorter)->Ok_0;
        assert forall|j: int, i: int|
            0 <= j < documents.len() && 0 <= i < page_ids(
                placed_source(documents, j),
            ).len() implies #[trigger] is_page_kept(documents, all, j, i) by {
            let place = state_before(documents, j).pages.len() + i;
            let id = page_ids(placed_source(documents, j))[i];
            if j < shorter.len() {
                assert(shorter.take(j) =~= documents.take(j));
                assert(placed_source(shorter, j) == placed_source(documents, j));
                assert(is_page_kept(shorter, before, j, i));
                assert(all.pages[place as int] == before.pages[place as int]);
                lemma_page_stays(documents, placed_source(documents, j), id);
            } else {
                lemma_last_page(documents, i);
            }
        }
    }
}

/// Whether a number is that of a top-level bookmark of one of these outlines.
pub open spec fn is_bookmark(sources: Seq<OutlineValue>, id: PdfId) -> bool {
    exists|s: int| 0 <= s < sources.len() && (#[trigger] sources[s]).top_level.contains(id)
}

/// Whether one table holds what another does, but for the dictionaries of bookmarks.
spec fn differ_in_bookmarks(
    objects: Seq<(PdfId, PdfValue)>,
    later: Seq<(PdfId, PdfValue)>,
    sources: Seq<OutlineValue>,
) -> bool {
    forall|id: PdfId|
        (#[trigger] object_of(objects, id)) is Some ==> if is_bookmark(sources, id)
            && object_of(objects, id)->0 is Dictionary {
            object_of(later, id) is Some && object_of(later, id)->0 is Dictionary
        } else {
            object_of(later, id) == object_of(objects, id)
        }
}

/// Replacing an entry of a bookmark changes bookmarks alone.
proof fn lemma_entry_set(
    objects: Seq<(PdfId, PdfValue)>,
    later: Seq<(PdfId, PdfValue)>,
    sources: Seq<OutlineValue>,
    id: PdfId,
    key: Seq<char>,
    value: PdfValue,
)
    requires
        differ_in_bookmarks(objects, later, sources),
        is_bookmark(sources, id),
    ensures
        differ_in_bookmarks(objects, set_entry(later, id, key, value), sources),
{
    let changed = set_entry(later, id, key, value);
    assert forall|other: PdfId| (#[trigger] object_of(objects, other)) is Some implies if is_bookmark(
        sources,
        other,
    ) && object_of(objects, other)->0 is Dictionary {
        object_of(changed, other) is Some && object_of(changed, other)->0 is Dictionary
    } else {
        object_of(changed, other) == object_of(objects, other)
    } by {
        lemma_index(later, id, 0);
        lemma_index(later, other, 0);
        lemma_index(changed, other, 0);
        assert forall|j: int| 0 <= j < later.len() implies (#[trigger] changed[j]).0
            == later[j].0 by {}
        let k = object_index_from(later, other, 0)->0;
        assert(changed[k].0 == other);
        let found = object_index_from(changed, other, 0)->0;
        assert(later[found].0 == other);
        assert(found == k);
    }
}

proof fn lemma_reparented(
    objects: Seq<(PdfId, PdfValue)>,
    later: Seq<(PdfId, PdfValue)>,
    sources: Seq<OutlineValue>,
    items: Seq<PdfId>,
    root: PdfId,
)
    requires
        differ_in_bookmarks(objects, later, sources),
        forall|i: int| 0 <= i < items.len() ==> is_bookmark(sources, #[trigger] items[i]),
    ensures
        differ_in_bookmarks(objects, reparented(later, items, root), sources),
    decreases items.len(),
{
    if items.len() > 0 {
        let shorter = items.drop_last();
        assert forall|i: int| 0 <= i < shorter.len() implies is_bookmark(
            sources,
            #[trigger] shorter[i],
        ) by {
            assert(shorter[i] == items[i]);
        }
        lemma_reparented(objects, later, sources, shorter, root);
        assert(is_bookmark(sources, items[items.len() - 1]));
        lemma_entry_set(
            objects,
            reparented(later, shorter, root),
            sources,
            items.last(),
            "Parent"@,
            PdfValue::Reference(root),
        );
    }
}

/// Whether the ends of an outline are bookmarks of it.
spec fn has_its_ends(outline: OutlineValue) -> bool {
    outline.top_level.contains(outline.first) && outline.top_level.contains(outline.last)
}

proof fn lemma_siblings_grow(
    objects: Seq<(PdfId, PdfValue)>,
    current: Option<PdfId>,
    seen: Seq<PdfId>,
    id: PdfId,
)
    requires
        seen.contains(id),
    ensures
        siblings(objects, current, seen).contains(id),
    decreases MAX_TOP_LEVEL + 1 - seen.len(),
{
    if let Some(next) = current {
        if !seen.contains(next) && seen.len() <= MAX_TOP_LEVEL {
            let k = choose|k: int| 0 <= k < seen.len() && seen[k] == id;
            assert(seen.push(next)[k] == id);
            lemma_siblings_grow(objects, next_sibling(objects, next), seen.push(next), id);
        }
    }
}

proof fn lemma_outline_ends(
    objects: Seq<(PdfId, PdfValue)>,
    catalogs: Seq<Seq<(Seq<u8>, PdfValue)>>,
    notices: Seq<NoticeValue>,
)
    ensures
        forall|s: int|
            0 <= s < outline_sources(objects, catalogs, notices).0.len() ==> has_its_ends(
                #[trigger] outline_sources(objects, catalogs, notices).0[s],
            ),
    decreases catalogs.len(),
{
    if catalogs.len() > 0 {
        lemma_outline_ends(objects, catalogs.drop_last(), notices);
        if let Some(Ok(outline)) = outline_of(objects, catalogs.last()) {
            let none = Seq::<PdfId>::empty();
            assert(none.push(outline.first)[0] == outline.first);
            lemma_siblings_grow(
                objects,
                next_sibling(objects, outline.first),
                none.push(outline.first),
                outline.first,
            );
            assert(!none.contains(outline.first));
            assert(outline.top_level == siblings(objects, Some(outline.first), none));
            assert(outline.top_level == siblings(
                objects,
                next_sibling(objects, outline.first),
                none.push(outline.first),
            ));
            assert(outline.top_level[outline.top_level.len() - 1] == outline.last);
            assert(has_its_ends(outline));
        }
        let before = outline_sources(objects, catalogs.drop_last(), notices).0;
        let all = outline_sources(objects, catalogs, notices).0;
        assert forall|s: int| 0 <= s < all.len() implies has_its_ends(#[trigger] all[s]) by {
            if s < before.len() {
                assert(has_its_ends(before[s]));
            }
        }
    }
}

proof fn lemma_joined(
    objects: Seq<(PdfId, PdfValue)>,
    sources: Seq<OutlineValue>,
    done: int,
    root: PdfId,
)
    requires
        0 <= done <= sources.len(),
        forall|s: int| 0 <= s < sources.len() ==> has_its_ends(#[trigger] sources[s]),
    ensures
        differ_in_bookmarks(objects, joined_outlines(objects, sources, done, root), sources),
    decreases done,
{
    if done > 0 {
        lemma_joined(objects, sources, done - 1, root);
        let source = sources[done - 1];
        let before = joined_outlines(objects, sources, done - 1, root);
        assert forall|i: int| 0 <= i < source.top_level.len() implies is_bookmark(
            sources,
            #[trigger] source.top_level[i],
        ) by {
            assert(sources[done - 1].top_level.contains(source.top_level[i]));
        }
        lemma_reparented(objects, before, sources, source.top_level, root);
        let moved = reparented(before, source.top_level, root);
        if done < sources.len() {
            let next = sources[done];
            assert(has_its_ends(sources[done - 1]) && has_its_ends(sources[done]));
            assert(is_bookmark(sources, source.last) && is_bookmark(sources, next.first));
            lemma_entry_set(
                objects,
                moved,
                sources,
                source.last,
                "Next"@,
                PdfValue::Reference(next.first),
            );
            lemma_entry_set(
                objects,
                set_entry(moved, source.last, "Next"@, PdfValue::Reference(next.first)),
                sources,
                next.first,
                "Prev"@,
                PdfValue::Reference(source.last),
            );
        }
    }
}

/// The outlines whose bookmarks are joined: those of the documents that have one, when
/// there are several.
pub open spec fn joined_sources(all: MergeState) -> Seq<OutlineValue> {
    let with_tree = put_object(all.objects, tree_id(), page_tree(all.pages));
    let sources = outline_sources(with_tree, all.catalogs, Seq::empty()).0;
    if sources.len() < 2 {
        Seq::empty()
    } else {
        sources
    }
}

/// Whether the document that is written has the page tree of the combined pages, and each
/// page as it stands in the combined table. A page, or the tree, that a document also uses
/// as a bookmark is joined to other bookmarks.
pub open spec fn output_has_the_pages(documents: Seq<PdfDocumentValue>) -> bool {
    combined(documents) matches Ok(all) ==> {
        let output = merged_document(documents, all).0;
        let sources = joined_sources(all);
        &&& !is_bookmark(sources, tree_id()) ==> object_of(output.objects, tree_id()) == Some(
            page_tree(all.pages),
        )
        &&& forall|p: int|
            0 <= p < all.pages.len() && dictionary_of(all.objects, #[trigger] all.pages[p]) is Some
                && !is_bookmark(
                sources,
                final_id(all.objects, all.pages[p], DEREFERENCE_LIMIT as nat),
            ) ==> dictionary_of(output.objects, all.pages[p]) == dictionary_of(
                all.objects,
                all.pages[p],
            )
    }
}

/// What combining documents keeps of their pages: each stands behind those of the documents
/// before it, has a number that no page of another document has, keeps its entries and the
/// attributes that applied to it, and stands so in the document that is written.
pub open spec fn pages_are_merged(documents: Seq<PdfDocumentValue>) -> bool {
    &&& pages_stay_apart(documents)
    &&& pages_keep_their_content(documents)
    &&& output_has_the_pages(documents)
}

/// References are followed in the same way where bookmarks alone differ.
proof fn lemma_chain_unmarked(
    objects: Seq<(PdfId, PdfValue)>,
    later: Seq<(PdfId, PdfValue)>,
    sources: Seq<OutlineValue>,
    id: PdfId,
    left: nat,
)
    requires
        differ_in_bookmarks(objects, later, sources),
        object_of(objects, id) is Some,
        dereferenced(objects, object_of(objects, id)->0, left) is Some,
        !is_bookmark(sources, final_id(objects, id, left)),
    ensures
        object_of(later, id) == object_of(objects, id),
        dereferenced(later, object_of(objects, id)->0, left) == dereferenced(
            objects,
            object_of(objects, id)->0,
            left,
        ),
    decreases left,
{
    if let PdfValue::Reference(next) = object_of(objects, id)->0 {
        lemma_chain_unmarked(objects, later, sources, next, (left - 1) as nat);
    }
}

proof fn lemma_output_has_the_pages(documents: Seq<PdfDocumentValue>)
    requires
        are_numbered_apart(documents),
        combined(documents) matches Ok(all) ==> all.next_id <= u32::MAX,
    ensures
        output_has_the_pages(documents),
{
    if let Ok(all) = combined(documents) {
        lemma_bounded(documents);
        let tree = page_tree(all.pages);
        let with_tree = put_object(all.objects, tree_id(), tree);
        let sources = outline_sources(with_tree, all.catalogs, Seq::empty()).0;
        let marked = joined_sources(all);
        let root = (all.next_id as u32, 0u16);
        let joined = joined_outlines(with_tree, sources, sources.len() as int, root);
        let output = merged_document(documents, all).0;
        lemma_outline_ends(with_tree, all.catalogs, Seq::empty());
        lemma_joined(with_tree, sources, sources.len() as int, root);
        storing_an_object(all.objects, tree_id(), tree, tree_id());
        let table = if sources.len() < 2 {
            with_tree
        } else {
            put_object(joined, root, outline_root(sources))
        };
        let catalog = object_of(output.objects, catalog_id())->0;
        assert(output.objects == put_object(table, catalog_id(), catalog)) by {
            let entries = crate::pdf::merge::catalog_entries(
                with_tree,
                (all.next_id - 1) as u32,
                all.catalogs,
                all.offsets,
            ).entries;
            let value = PdfValue::Dictionary(
                crate::pdf::merge::with_entries(crate::pdf::merge::bare_catalog(), entries),
            );
            storing_an_object(table, catalog_id(), value, catalog_id());
        }
        assert(differ_in_bookmarks(all.objects, output.objects, marked)) by {
            assert forall|id: PdfId| (#[trigger] object_of(all.objects, id)) is Some implies if is_bookmark(
                marked,
                id,
            ) && object_of(all.objects, id)->0 is Dictionary {
                object_of(output.objects, id) is Some && object_of(
                    output.objects,
                    id,
                )->0 is Dictionary
            } else {
                object_of(output.objects, id) == object_of(all.objects, id)
            } by {
                storing_an_object(all.objects, tree_id(), tree, id);
                storing_an_object(table, catalog_id(), catalog, id);
                storing_an_object(joined, root, outline_root(sources), id);
                assert(object_of(with_tree, id) == object_of(all.objects, id));
            }
        }
        storing_an_object(table, catalog_id(), catalog, tree_id());
        storing_an_object(joined, root, outline_root(sources), tree_id());
        assert(object_of(with_tree, tree_id()) is Some);
        assert forall|p: int|
            0 <= p < all.pages.len() && dictionary_of(all.objects, #[trigger] all.pages[p]) is Some
                && !is_bookmark(
                marked,
                final_id(all.objects, all.pages[p], DEREFERENCE_LIMIT as nat),
            ) implies dictionary_of(output.objects, all.pages[p]) == dictionary_of(
            all.objects,
            all.pages[p],
        ) by {
            lemma_chain_unmarked(
                all.objects,
                output.objects,
                marked,
                all.pages[p],
                DEREFERENCE_LIMIT as nat,
            );
        }
    }
}

/// Documents that are numbered apart are combined as they should be.
pub(crate) proof fn lemma_pages_are_merged(documents: Seq<PdfDocumentValue>)
    requires
        are_numbered_apart(documents),
        combined(documents) matches Ok(all) ==> all.next_id <= u32::MAX,
    ensures
        pages_are_merged(documents),
{
    lemma_pages_stay_apart(documents);
    lemma_pages_keep_their_content(documents);
    lemma_output_has_the_pages(documents);
}

/// Combining carries every object of every document over, but for catalogs and the nodes of
/// page trees: a dictionary with all entries but those that hang a page under its tree or are
/// inherited from it, and anything else as it is.
pub proof fn merged_objects_are_carried(documents: Seq<PdfDocumentValue>, j: int, id: PdfId)
    requires
        are_numbered_apart(documents),
        combined(documents) is Ok,
        0 <= j < documents.len(),
        object_of(placed_source(documents, j).objects, id) matches Some(value) && !is_framework(
            value,
        ),
    ensures
        object_of(combined(documents)->Ok_0.objects, id) matches Some(after) && match object_of(
            placed_source(documents, j).objects,
            id,
        )->0 {
            PdfValue::Dictionary(own) => (after matches PdfValue::Dictionary(page)
                && has_same_entries(own, page)),
            other => after == other,
        },
    decreases documents.len(),
{
    let shorter = documents.drop_last();
    let last = documents.len() - 1;
    lemma_fewer(documents);
    lemma_bounded(shorter);
    lemma_added(documents);
    let before = combined(shorter)->Ok_0;
    let source = placed_source(documents, last);
    let pages = page_ids(source);
    let objects = adopted(source, pages, tree_id())->Ok_0;
    let count = documents[last].objects.len();
    lemma_moved(before.objects, objects, pages, id);
    if j < last {
        assert(shorter.take(j) =~= documents.take(j));
        assert(placed_source(shorter, j) == placed_source(documents, j));
        merged_objects_are_carried(shorter, j, id);
        assert(id.0 < before.next_id);
        lemma_in_range(objects, before.next_id, count, id);
    } else {
        assert(objects_agree(source.objects, objects, id));
        let value = object_of(source.objects, id)->0;
        let after = object_of(objects, id)->0;
        lemma_kinds();
        if let (PdfValue::Dictionary(own), PdfValue::Dictionary(page)) = (value, after) {
            lemma_keys_differ();
            assert(is_own_key(utf8("Type"@)));
            assert(dict_get(page, utf8("Type"@)) == dict_get(own, utf8("Type"@)));
            assert(!is_framework(after));
        }
        assert(!is_root(after));
    }
}

proof fn lemma_kinds()
    ensures
        utf8("Linearized"@) != utf8("Catalog"@),
        utf8("Linearized"@) != utf8("Pages"@),
{
    reveal_strlit("Linearized");
    reveal_strlit("Catalog");
    reveal_strlit("Pages");
    lemma_ascii("Linearized");
    lemma_ascii("Catalog");
    lemma_ascii("Pages");
    assert(utf8("Linearized"@).len() == 10);
    assert(utf8("Catalog"@).len() == 7);
    assert(utf8("Pages"@).len() == 5);
}

} // verus!
