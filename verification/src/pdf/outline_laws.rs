//! What combining outlines keeps: every bookmark of every document, in order, as one list.

use vstd::prelude::*;

use crate::bytes::{lemma_ascii, utf8};
use crate::notices::NoticeValue;
use crate::pdf::laws::storing_a_value;
use crate::pdf::model::{
    dict_get, dict_set, object_index_from, object_of, put_object, resolved_dict,
    PdfId, PdfValue,
};
use crate::pdf::outlines::{
    joined_outlines, merged_outlines, next_sibling, outline_of, outline_root, outline_sources,
    reparented, set_entry, siblings, total_count, OutlineValue, MAX_TOP_LEVEL,
};
use crate::pdf::page_laws::{lemma_first, lemma_index, storing_an_object};

verus! {

/// What a dictionary object has under a key.
pub open spec fn entry_of(
    objects: Seq<(PdfId, PdfValue)>,
    id: PdfId,
    key: Seq<char>,
) -> Option<PdfValue> {
    match object_of(objects, id) {
        Some(PdfValue::Dictionary(entries)) => dict_get(entries, utf8(key)),
        _ => None,
    }
}

/// Whether an object is a dictionary.
pub open spec fn is_dictionary(objects: Seq<(PdfId, PdfValue)>, id: PdfId) -> bool {
    object_of(objects, id) is Some && object_of(objects, id)->0 is Dictionary
}

/// Whether following `/Next` goes through these bookmarks, one after the other, and ends with
/// the last of them: that one leads on to none, or back to one of them.
pub open spec fn is_bookmark_list(objects: Seq<(PdfId, PdfValue)>, list: Seq<PdfId>) -> bool {
    &&& list.len() > 0
    &&& list.no_duplicates()
    &&& forall|i: int| 0 <= i < list.len() ==> is_dictionary(objects, #[trigger] list[i])
    &&& forall|i: int|
        0 <= i < list.len() - 1 ==> entry_of(objects, #[trigger] list[i], "Next"@) == Some(
            PdfValue::Reference(list[i + 1]),
        )
    &&& match entry_of(objects, list.last(), "Next"@) {
        Some(PdfValue::Reference(id)) => list.contains(id),
        _ => true,
    }
}

/// Whether each of these bookmarks leads back to the one before it.
pub open spec fn leads_back(objects: Seq<(PdfId, PdfValue)>, list: Seq<PdfId>) -> bool {
    forall|i: int|
        0 < i < list.len() ==> entry_of(objects, #[trigger] list[i], "Prev"@) == Some(
            PdfValue::Reference(list[i - 1]),
        )
}

/// Bookmarks that are listed are those that are found by going from one to the next.
pub proof fn listed_bookmarks_are_found(objects: Seq<(PdfId, PdfValue)>, list: Seq<PdfId>)
    requires
        is_bookmark_list(objects, list),
        list.len() <= MAX_TOP_LEVEL,
    ensures
        siblings(objects, Some(list[0]), Seq::empty()) == list,
{
    assert(list.take(0) =~= Seq::empty());
    lemma_found_from(objects, list, 0);
}

proof fn lemma_found_from(objects: Seq<(PdfId, PdfValue)>, list: Seq<PdfId>, done: int)
    requires
        is_bookmark_list(objects, list),
        list.len() <= MAX_TOP_LEVEL,
        0 <= done < list.len(),
    ensures
        siblings(objects, Some(list[done]), list.take(done)) == list,
    decreases list.len() - done,
{
    let seen = list.take(done);
    assert(is_dictionary(objects, list[done]));
    assert(!seen.contains(list[done])) by {
        if seen.contains(list[done]) {
            let k = choose|k: int| 0 <= k < seen.len() && seen[k] == list[done];
            assert(list[k] == list[done]);
        }
    }
    assert(seen.push(list[done]) =~= list.take(done + 1));
    let next = next_sibling(objects, list[done]);
    if done + 1 < list.len() {
        assert(next == Some(list[done + 1]));
        lemma_found_from(objects, list, done + 1);
    } else {
        assert(list.take(done + 1) =~= list);
        assert(list.last() == list[done]);
        if let Some(id) = next {
            assert(list.contains(id));
        }
        assert(siblings(objects, next, list) == list);
    }
}

/// Lists put one behind the other.
pub open spec fn all_of(lists: Seq<Seq<PdfId>>) -> Seq<PdfId>
    decreases lists.len(),
{
    if lists.len() == 0 {
        Seq::empty()
    } else {
        all_of(lists.drop_last()) + lists.last()
    }
}

/// Whether a document has these bookmarks: its outline begins with the first and ends with
/// the last of them. One without an outline has none.
pub open spec fn has_bookmarks(
    objects: Seq<(PdfId, PdfValue)>,
    catalog: Seq<(Seq<u8>, PdfValue)>,
    list: Seq<PdfId>,
) -> bool {
    if list.len() == 0 {
        dict_get(catalog, utf8("Outlines"@)) is None
    } else {
        &&& is_bookmark_list(objects, list)
        &&& list.len() <= MAX_TOP_LEVEL
        &&& resolved_dict(objects, dict_get(catalog, utf8("Outlines"@))) matches Some(root)
            && dict_get(root, utf8("First"@)) == Some(PdfValue::Reference(list[0])) && dict_get(
            root,
            utf8("Last"@),
        ) == Some(PdfValue::Reference(list.last()))
    }
}

proof fn lemma_outline_keys()
    ensures
        utf8("Type"@) != utf8("First"@),
        utf8("Type"@) != utf8("Last"@),
        utf8("Type"@) != utf8("Count"@),
        utf8("Type"@) != utf8("Next"@),
        utf8("Type"@) != utf8("Prev"@),
        utf8("Type"@) != utf8("Parent"@),
        utf8("First"@) != utf8("Last"@),
        utf8("First"@) != utf8("Count"@),
        utf8("First"@) != utf8("Next"@),
        utf8("First"@) != utf8("Prev"@),
        utf8("First"@) != utf8("Parent"@),
        utf8("Last"@) != utf8("Count"@),
        utf8("Last"@) != utf8("Next"@),
        utf8("Last"@) != utf8("Prev"@),
        utf8("Last"@) != utf8("Parent"@),
        utf8("Count"@) != utf8("Next"@),
        utf8("Count"@) != utf8("Prev"@),
        utf8("Count"@) != utf8("Parent"@),
        utf8("Next"@) != utf8("Prev"@),
        utf8("Next"@) != utf8("Parent"@),
        utf8("Prev"@) != utf8("Parent"@),
{
    reveal_strlit("Type");
    reveal_strlit("First");
    reveal_strlit("Last");
    reveal_strlit("Count");
    reveal_strlit("Next");
    reveal_strlit("Prev");
    reveal_strlit("Parent");
    lemma_ascii("Type");
    lemma_ascii("First");
    lemma_ascii("Last");
    lemma_ascii("Count");
    lemma_ascii("Next");
    lemma_ascii("Prev");
    lemma_ascii("Parent");
    assert(utf8("Type"@).len() == 4);
    assert(utf8("First"@).len() == 5);
    assert(utf8("Last"@).len() == 4);
    assert(utf8("Count"@).len() == 5);
    assert(utf8("Next"@).len() == 4);
    assert(utf8("Prev"@).len() == 4);
    assert(utf8("Parent"@).len() == 6);
    assert(utf8("Count"@)[0] == 0x43);
    assert(utf8("First"@)[0] == 0x46);
    assert(utf8("Last"@)[0] == 0x4c);
    assert(utf8("Next"@)[0] == 0x4e);
    assert(utf8("Prev"@)[0] == 0x50);
    assert(utf8("Type"@)[0] == 0x54);
}

proof fn lemma_set(
    objects: Seq<(PdfId, PdfValue)>,
    id: PdfId,
    key: Seq<char>,
    value: PdfValue,
    other: PdfId,
    wanted: Seq<char>,
)
    requires
        is_dictionary(objects, id),
    ensures
        is_dictionary(set_entry(objects, id, key, value), other) == is_dictionary(objects, other),
        entry_of(set_entry(objects, id, key, value), other, wanted) == (if other == id && utf8(
            wanted,
        ) == utf8(key) {
            Some(value)
        } else {
            entry_of(objects, other, wanted)
        }),
{
    let changed = set_entry(objects, id, key, value);
    lemma_index(objects, id, 0);
    lemma_index(objects, other, 0);
    lemma_index(changed, other, 0);
    let at = object_index_from(objects, id, 0)->0;
    let entries = object_of(objects, id)->0->Dictionary_0;
    storing_a_value(entries, utf8(key), value, utf8(wanted));
    assert forall|j: int| 0 <= j < objects.len() implies (#[trigger] changed[j]).0
        == objects[j].0 by {}
    match object_index_from(objects, other, 0) {
        Some(k) => {
            assert(changed[k].0 == other);
            let found = object_index_from(changed, other, 0)->0;
            assert(objects[found].0 == other);
            assert(found == k);
        },
        None => {
            if object_index_from(changed, other, 0) is Some {
                let found = object_index_from(changed, other, 0)->0;
                assert(objects[found].0 == other);
            }
        },
    }
}

proof fn lemma_reparented(
    objects: Seq<(PdfId, PdfValue)>,
    items: Seq<PdfId>,
    root: PdfId,
    other: PdfId,
    wanted: Seq<char>,
)
    requires
        forall|i: int| 0 <= i < items.len() ==> is_dictionary(objects, #[trigger] items[i]),
    ensures
        is_dictionary(reparented(objects, items, root), other) == is_dictionary(objects, other),
        entry_of(reparented(objects, items, root), other, wanted) == (if items.contains(other)
            && utf8(wanted) == utf8("Parent"@) {
            Some(PdfValue::Reference(root))
        } else {
            entry_of(objects, other, wanted)
        }),
    decreases items.len(),
{
    if items.len() > 0 {
        let shorter = items.drop_last();
        assert forall|i: int| 0 <= i < shorter.len() implies is_dictionary(
            objects,
            #[trigger] shorter[i],
        ) by {
            assert(shorter[i] == items[i]);
        }
        lemma_reparented(objects, shorter, root, other, wanted);
        lemma_reparented(objects, shorter, root, items.last(), wanted);
        assert(is_dictionary(objects, items[items.len() - 1]));
        lemma_set(
            reparented(objects, shorter, root),
            items.last(),
            "Parent"@,
            PdfValue::Reference(root),
            other,
            wanted,
        );
        if items.contains(other) {
            let k = choose|k: int| 0 <= k < items.len() && items[k] == other;
            if k < shorter.len() {
                assert(shorter[k] == other);
            }
        }
        if shorter.contains(other) {
            let k = choose|k: int| 0 <= k < shorter.len() && shorter[k] == other;
            assert(items[k] == other);
        }
        assert(items[items.len() - 1] == items.last());
    }
}

/// Whether outlines are sound and have no bookmark in common.
spec fn are_apart(objects: Seq<(PdfId, PdfValue)>, sources: Seq<OutlineValue>) -> bool {
    &&& forall|s: int|
        #![trigger sources[s]]
        0 <= s < sources.len() ==> sources[s].top_level.len() > 0 && sources[s].first
            == sources[s].top_level[0] && sources[s].last == sources[s].top_level.last()
    &&& forall|s: int, i: int|
        #![trigger sources[s].top_level[i]]
        0 <= s < sources.len() && 0 <= i < sources[s].top_level.len() ==> is_dictionary(
            objects,
            sources[s].top_level[i],
        )
    &&& forall|s: int, i: int, t: int, j: int|
        #![trigger sources[s].top_level[i], sources[t].top_level[j]]
        0 <= s < sources.len() && 0 <= i < sources[s].top_level.len() && 0 <= t < sources.len() && 0
            <= j < sources[t].top_level.len() && sources[s].top_level[i] == sources[t].top_level[j]
            ==> s == t && i == j
}

proof fn lemma_joined(
    objects: Seq<(PdfId, PdfValue)>,
    sources: Seq<OutlineValue>,
    done: int,
    root: PdfId,
    s: int,
    i: int,
)
    requires
        are_apart(objects, sources),
        0 <= done <= sources.len(),
        0 <= s < sources.len(),
        0 <= i < sources[s].top_level.len(),
    ensures
        ({
            let table = joined_outlines(objects, sources, done, root);
            let id = sources[s].top_level[i];
            &&& is_dictionary(table, id)
            &&& entry_of(table, id, "Next"@) == (if s < done && s + 1 < sources.len() && i
                == sources[s].top_level.len() - 1 {
                Some(PdfValue::Reference(sources[s + 1].first))
            } else {
                entry_of(objects, id, "Next"@)
            })
            &&& entry_of(table, id, "Prev"@) == (if 1 <= s <= done && i == 0 {
                Some(PdfValue::Reference(sources[s - 1].last))
            } else {
                entry_of(objects, id, "Prev"@)
            })
            &&& entry_of(table, id, "Parent"@) == (if s < done {
                Some(PdfValue::Reference(root))
            } else {
                entry_of(objects, id, "Parent"@)
            })
        }),
    decreases done,
{
    lemma_outline_keys();
    let id = sources[s].top_level[i];
    if done > 0 {
        let source = sources[done - 1];
        let before = joined_outlines(objects, sources, done - 1, root);
        lemma_joined(objects, sources, done - 1, root, s, i);
        assert forall|k: int| 0 <= k < source.top_level.len() implies is_dictionary(
            before,
            #[trigger] source.top_level[k],
        ) by {
            lemma_joined(objects, sources, done - 1, root, done - 1, k);
        }
        lemma_reparented(before, source.top_level, root, id, "Next"@);
        lemma_reparented(before, source.top_level, root, id, "Prev"@);
        lemma_reparented(before, source.top_level, root, id, "Parent"@);
        let moved = reparented(before, source.top_level, root);
        assert(source.top_level.contains(id) == (s == done - 1)) by {
            if source.top_level.contains(id) {
                let k = choose|k: int| 0 <= k < source.top_level.len() && source.top_level[k] == id;
                assert(sources[done - 1].top_level[k] == sources[s].top_level[i]);
            }
        }
        if done < sources.len() {
            let next = sources[done];
            let end = source.top_level.len() - 1;
            lemma_joined(objects, sources, done - 1, root, done - 1, end);
            lemma_joined(objects, sources, done - 1, root, done, 0);
            lemma_reparented(before, source.top_level, root, source.last, "Next"@);
            lemma_reparented(before, source.top_level, root, next.first, "Next"@);
            assert(source.last == sources[done - 1].top_level[end]);
            assert(next.first == sources[done].top_level[0]);
            let forward = PdfValue::Reference(next.first);
            let back = PdfValue::Reference(source.last);
            lemma_set(moved, source.last, "Next"@, forward, id, "Next"@);
            lemma_set(moved, source.last, "Next"@, forward, id, "Prev"@);
            lemma_set(moved, source.last, "Next"@, forward, id, "Parent"@);
            lemma_set(moved, source.last, "Next"@, forward, next.first, "Parent"@);
            let linked = set_entry(moved, source.last, "Next"@, forward);
            lemma_set(linked, next.first, "Prev"@, back, id, "Next"@);
            lemma_set(linked, next.first, "Prev"@, back, id, "Prev"@);
            lemma_set(linked, next.first, "Prev"@, back, id, "Parent"@);
        }
    }
}

/// The bookmarks of several outlines, one behind the other.
spec fn tops(sources: Seq<OutlineValue>) -> Seq<PdfId>
    decreases sources.len(),
{
    if sources.len() == 0 {
        Seq::empty()
    } else {
        tops(sources.drop_last()) + sources.last().top_level
    }
}

/// The outlines that are read are those of the documents, in order.
proof fn lemma_sources(
    objects: Seq<(PdfId, PdfValue)>,
    catalogs: Seq<Seq<(Seq<u8>, PdfValue)>>,
    notices: Seq<NoticeValue>,
    lists: Seq<Seq<PdfId>>,
)
    requires
        lists.len() == catalogs.len(),
        forall|j: int|
            0 <= j < lists.len() ==> has_bookmarks(objects, catalogs[j], #[trigger] lists[j]),
    ensures
        ({
            let (sources, told) = outline_sources(objects, catalogs, notices);
            &&& told == notices
            &&& tops(sources) == all_of(lists)
            &&& forall|s: int|
                #![trigger sources[s]]
                0 <= s < sources.len() ==> is_bookmark_list(objects, sources[s].top_level)
                    && sources[s].first == sources[s].top_level[0] && sources[s].last
                    == sources[s].top_level.last()
        }),
    decreases catalogs.len(),
{
    if catalogs.len() > 0 {
        let shorter = lists.drop_last();
        assert forall|j: int| 0 <= j < shorter.len() implies has_bookmarks(
            objects,
            catalogs.drop_last()[j],
            #[trigger] shorter[j],
        ) by {
            assert(shorter[j] == lists[j]);
        }
        lemma_sources(objects, catalogs.drop_last(), notices, shorter);
        let list = lists.last();
        assert(has_bookmarks(objects, catalogs[lists.len() - 1], lists[lists.len() - 1]));
        let before = outline_sources(objects, catalogs.drop_last(), notices).0;
        let sources = outline_sources(objects, catalogs, notices).0;
        if list.len() > 0 {
            listed_bookmarks_are_found(objects, list);
            let outline = outline_of(objects, catalogs.last())->0->Ok_0;
            assert(sources =~= before.push(outline));
            assert(sources.drop_last() =~= before);
            assert(outline.top_level == list);
        } else {
            assert(outline_of(objects, catalogs.last()) is None);
            assert(all_of(lists) =~= all_of(shorter));
        }
    }
}

/// Where a bookmark of an outline stands among all.
proof fn lemma_place(sources: Seq<OutlineValue>, s: int, i: int)
    requires
        0 <= s < sources.len(),
        0 <= i < sources[s].top_level.len(),
    ensures
        ({
            let place = tops(sources.take(s)).len() + i;
            place < tops(sources).len() && tops(sources)[place as int] == sources[s].top_level[i]
        }),
    decreases sources.len(),
{
    let shorter = sources.drop_last();
    if s < shorter.len() {
        lemma_place(shorter, s, i);
        assert(shorter.take(s) =~= sources.take(s));
    } else {
        assert(sources.take(s) =~= shorter);
    }
}

proof fn lemma_places_grow(sources: Seq<OutlineValue>, s: int, t: int)
    requires
        0 <= s < t <= sources.len(),
    ensures
        tops(sources.take(s)).len() + sources[s].top_level.len() <= tops(sources.take(t)).len(),
    decreases t - s,
{
    let next = sources.take(s + 1);
    assert(next.drop_last() =~= sources.take(s));
    if s + 1 < t {
        lemma_places_grow(sources, s + 1, t);
    }
}

/// Whether each of these bookmarks leads to the next and back, and all have this parent.
spec fn is_linked(
    table: Seq<(PdfId, PdfValue)>,
    list: Seq<PdfId>,
    root: PdfId,
    back: bool,
) -> bool {
    &&& forall|i: int| 0 <= i < list.len() ==> is_dictionary(table, #[trigger] list[i])
    &&& forall|i: int|
        0 <= i < list.len() - 1 ==> entry_of(table, #[trigger] list[i], "Next"@) == Some(
            PdfValue::Reference(list[i + 1]),
        )
    &&& back ==> leads_back(table, list)
    &&& forall|i: int|
        0 <= i < list.len() ==> entry_of(table, #[trigger] list[i], "Parent"@) == Some(
            PdfValue::Reference(root),
        )
}

proof fn lemma_linked_parts(
    table: Seq<(PdfId, PdfValue)>,
    left: Seq<PdfId>,
    right: Seq<PdfId>,
    root: PdfId,
    back: bool,
)
    requires
        is_linked(table, left, root, back),
        is_linked(table, right, root, back),
        right.len() > 0,
        left.len() > 0 ==> entry_of(table, left.last(), "Next"@) == Some(
            PdfValue::Reference(right[0]),
        ) && entry_of(table, right[0], "Prev"@) == Some(PdfValue::Reference(left.last())),
    ensures
        is_linked(table, left + right, root, back),
{
    let all = left + right;
    let split = left.len();
    assert forall|i: int| 0 <= i < all.len() implies is_dictionary(table, #[trigger] all[i])
        && entry_of(table, all[i], "Parent"@) == Some(PdfValue::Reference(root)) by {
        if i < split {
            assert(all[i] == left[i]);
        } else {
            assert(all[i] == right[i - split]);
        }
    }
    assert forall|i: int| 0 <= i < all.len() - 1 implies entry_of(
        table,
        #[trigger] all[i],
        "Next"@,
    ) == Some(PdfValue::Reference(all[i + 1])) by {
        if i < split - 1 {
            assert(all[i] == left[i] && all[i + 1] == left[i + 1]);
        } else if i >= split {
            assert(all[i] == right[i - split] && all[i + 1] == right[i - split + 1]);
        } else {
            assert(all[i] == left.last() && all[i + 1] == right[0]);
        }
    }
    if back {
        assert forall|i: int| 0 < i < all.len() implies entry_of(
            table,
            #[trigger] all[i],
            "Prev"@,
        ) == Some(PdfValue::Reference(all[i - 1])) by {
            if i < split {
                assert(all[i] == left[i] && all[i - 1] == left[i - 1]);
            } else if i > split {
                assert(all[i] == right[i - split] && all[i - 1] == right[i - split - 1]);
            } else {
                assert(all[i] == right[0]);
                if split > 0 {
                    assert(all[i - 1] == left.last());
                }
            }
        }
    }
}

proof fn lemma_linked(
    objects: Seq<(PdfId, PdfValue)>,
    sources: Seq<OutlineValue>,
    root: PdfId,
    count: int,
    back: bool,
)
    requires
        are_apart(objects, sources),
        0 <= count <= sources.len(),
        forall|s: int|
            #![trigger sources[s]]
            0 <= s < sources.len() ==> is_bookmark_list(objects, sources[s].top_level) && (back
                ==> leads_back(objects, sources[s].top_level)),
    ensures
        is_linked(
            joined_outlines(objects, sources, sources.len() as int, root),
            tops(sources.take(count)),
            root,
            back,
        ),
        count > 0 ==> tops(sources.take(count)).len() > 0 && tops(sources.take(count)).last()
            == sources[count - 1].last,
        count > 0 ==> tops(sources.take(count))[0] == sources[0].first,
    decreases count,
{
    let table = joined_outlines(objects, sources, sources.len() as int, root);
    let done = sources.len() as int;
    if count > 0 {
        let s = count - 1;
        lemma_linked(objects, sources, root, s, back);
        assert(sources.take(count).drop_last() =~= sources.take(s));
        let left = tops(sources.take(s));
        let right = sources[s].top_level;
        assert(is_linked(table, right, root, back)) by {
            assert forall|i: int| 0 <= i < right.len() implies is_dictionary(
                table,
                #[trigger] right[i],
            ) && entry_of(table, right[i], "Parent"@) == Some(PdfValue::Reference(root)) by {
                lemma_joined(objects, sources, done, root, s, i);
            }
            assert forall|i: int| 0 <= i < right.len() - 1 implies entry_of(
                table,
                #[trigger] right[i],
                "Next"@,
            ) == Some(PdfValue::Reference(right[i + 1])) by {
                lemma_joined(objects, sources, done, root, s, i);
            }
            if back {
                assert forall|i: int| 0 < i < right.len() implies entry_of(
                    table,
                    #[trigger] right[i],
                    "Prev"@,
                ) == Some(PdfValue::Reference(right[i - 1])) by {
                    lemma_joined(objects, sources, done, root, s, i);
                    assert(leads_back(objects, right));
                }
            }
        }
        if s > 0 {
            lemma_joined(objects, sources, done, root, s - 1, sources[s - 1].top_level.len() - 1);
            lemma_joined(objects, sources, done, root, s, 0);
        } else {
            assert(left =~= Seq::empty());
        }
        lemma_linked_parts(table, left, right, root, back);
        assert(tops(sources.take(count)) == left + right);
    }
}

/// The distinctness of all bookmarks, outline by outline.
proof fn lemma_apart(objects: Seq<(PdfId, PdfValue)>, sources: Seq<OutlineValue>)
    requires
        tops(sources).no_duplicates(),
        forall|s: int|
            #![trigger sources[s]]
            0 <= s < sources.len() ==> is_bookmark_list(objects, sources[s].top_level)
                && sources[s].first == sources[s].top_level[0] && sources[s].last
                == sources[s].top_level.last(),
    ensures
        are_apart(objects, sources),
{
    assert forall|s: int, i: int, t: int, j: int|
        #![trigger sources[s].top_level[i], sources[t].top_level[j]]
        0 <= s < sources.len() && 0 <= i < sources[s].top_level.len() && 0 <= t < sources.len() && 0
            <= j < sources[t].top_level.len() && sources[s].top_level[i] == sources[t].top_level[j] implies s
        == t && i == j by {
        lemma_place(sources, s, i);
        lemma_place(sources, t, j);
        if s < t {
            lemma_places_grow(sources, s, t);
        } else if t < s {
            lemma_places_grow(sources, t, s);
        }
    }
    assert forall|s: int, i: int|
        #![trigger sources[s].top_level[i]]
        0 <= s < sources.len() && 0 <= i < sources[s].top_level.len() implies is_dictionary(
        objects,
        sources[s].top_level[i],
    ) by {
        assert(is_bookmark_list(objects, sources[s].top_level));
    }
}

/// An object that is stored elsewhere changes no entry.
proof fn lemma_stored_elsewhere(
    objects: Seq<(PdfId, PdfValue)>,
    root: PdfId,
    value: PdfValue,
    list: Seq<PdfId>,
    back: bool,
)
    requires
        is_linked(objects, list, root, back),
        !list.contains(root),
    ensures
        is_linked(put_object(objects, root, value), list, root, back),
        list.len() > 0 ==> entry_of(put_object(objects, root, value), list.last(), "Next"@)
            == entry_of(objects, list.last(), "Next"@),
{
    let stored = put_object(objects, root, value);
    assert forall|i: int| 0 <= i < list.len() implies object_of(stored, #[trigger] list[i])
        == object_of(objects, list[i]) by {
        assert(list.contains(list[i]));
        storing_an_object(objects, root, value, list[i]);
    }
    if list.len() > 0 {
        assert(list.last() == list[list.len() - 1]);
    }
}

/// Combining the outlines of several documents gives one list of bookmarks: those of the first
/// document, then those of the second, and so on to the last. Going from the first to the next
/// visits them all, each stands under the new root, and the way back is the same where it was
/// so in each document.
#[verifier::spinoff_prover]
pub proof fn combined_outline_lists_every_bookmark(
    objects: Seq<(PdfId, PdfValue)>,
    max_id: u32,
    catalogs: Seq<Seq<(Seq<u8>, PdfValue)>>,
    notices: Seq<NoticeValue>,
    lists: Seq<Seq<PdfId>>,
    back: bool,
)
    requires
        max_id < u32::MAX,
        lists.len() == catalogs.len(),
        forall|j: int|
            0 <= j < lists.len() ==> has_bookmarks(objects, catalogs[j], #[trigger] lists[j]),
        back ==> forall|j: int|
            0 <= j < lists.len() ==> leads_back(objects, #[trigger] lists[j]),
        all_of(lists).no_duplicates(),
        forall|i: int| 0 <= i < all_of(lists).len() ==> (#[trigger] all_of(lists)[i]).0 <= max_id,
        exists|j: int, k: int|
            0 <= j < k < lists.len() && (#[trigger] lists[j]).len() > 0 && (
            #[trigger] lists[k]).len() > 0,
    ensures
        ({
            let all = all_of(lists);
            let (outlines, table, highest, told) = merged_outlines(
                objects,
                max_id,
                catalogs,
                notices,
            );
            &&& told == notices
            &&& outlines matches Some(PdfValue::Reference(root)) && {
                &&& entry_of(table, root, "Type"@) == Some(PdfValue::Name(utf8("Outlines"@)))
                &&& entry_of(table, root, "First"@) == Some(PdfValue::Reference(all[0]))
                &&& entry_of(table, root, "Last"@) == Some(PdfValue::Reference(all.last()))
                &&& is_bookmark_list(table, all)
                &&& back ==> leads_back(table, all)
                &&& forall|i: int|
                    0 <= i < all.len() ==> entry_of(table, #[trigger] all[i], "Parent"@) == Some(
                        PdfValue::Reference(root),
                    )
                &&& all.len() <= MAX_TOP_LEVEL ==> siblings(table, Some(all[0]), Seq::empty())
                    == all
            }
        }),
{
    lemma_sources(objects, catalogs, notices, lists);
    lemma_back(objects, catalogs, notices, lists, back);
    let all = all_of(lists);
    let sources = outline_sources(objects, catalogs, notices).0;
    lemma_several(objects, catalogs, notices, lists);
    assert(sources.len() >= 2);
    let root = ((max_id + 1) as u32, 0u16);
    lemma_apart(objects, sources);
    let count = sources.len() as int;
    assert(sources.take(count) =~= sources);
    lemma_linked(objects, sources, root, count, back);
    let joined = joined_outlines(objects, sources, count, root);
    let value = outline_root(sources);
    assert(!all.contains(root)) by {
        if all.contains(root) {
            let k = choose|k: int| 0 <= k < all.len() && all[k] == root;
            assert(all[k].0 <= max_id);
        }
    }
    lemma_stored_elsewhere(joined, root, value, all, back);
    storing_an_object(joined, root, value, root);
    let table = put_object(joined, root, value);
    lemma_root_entries(sources);
    lemma_joined(objects, sources, count, root, count - 1, sources[count - 1].top_level.len() - 1);
    let end = sources[count - 1];
    assert(is_bookmark_list(objects, end.top_level));
    if let Some(PdfValue::Reference(id)) = entry_of(table, all.last(), "Next"@) {
        let k = choose|k: int| 0 <= k < end.top_level.len() && end.top_level[k] == id;
        lemma_place(sources, count - 1, k);
        assert(all.contains(id));
    }
    assert(is_bookmark_list(table, all));
    if all.len() <= MAX_TOP_LEVEL {
        listed_bookmarks_are_found(table, all);
    }
}

proof fn lemma_root_entries(sources: Seq<OutlineValue>)
    requires
        sources.len() > 0,
    ensures
        outline_root(sources) matches PdfValue::Dictionary(entries) && dict_get(
            entries,
            utf8("Type"@),
        ) == Some(PdfValue::Name(utf8("Outlines"@))) && dict_get(entries, utf8("First"@)) == Some(
            PdfValue::Reference(sources[0].first),
        ) && dict_get(entries, utf8("Last"@)) == Some(PdfValue::Reference(sources.last().last)),
{
    lemma_outline_keys();
    let none = Seq::<(Seq<u8>, PdfValue)>::empty();
    let kind = PdfValue::Name(utf8("Outlines"@));
    let first = PdfValue::Reference(sources[0].first);
    let last = PdfValue::Reference(sources.last().last);
    let a = dict_set(none, utf8("Type"@), kind);
    let b = dict_set(a, utf8("First"@), first);
    let c = dict_set(b, utf8("Last"@), last);
    let count = PdfValue::Integer(total_count(sources));
    storing_a_value(none, utf8("Type"@), kind, utf8("Type"@));
    storing_a_value(a, utf8("First"@), first, utf8("Type"@));
    storing_a_value(b, utf8("Last"@), last, utf8("Type"@));
    storing_a_value(b, utf8("Last"@), last, utf8("First"@));
    storing_a_value(c, utf8("Count"@), count, utf8("Type"@));
    storing_a_value(c, utf8("Count"@), count, utf8("First"@));
    storing_a_value(c, utf8("Count"@), count, utf8("Last"@));
}

/// How many of the lists have bookmarks.
spec fn listed(lists: Seq<Seq<PdfId>>) -> nat
    decreases lists.len(),
{
    if lists.len() == 0 {
        0
    } else {
        listed(lists.drop_last()) + if lists.last().len() > 0 {
            1nat
        } else {
            0nat
        }
    }
}

proof fn lemma_listed(lists: Seq<Seq<PdfId>>, j: int)
    requires
        0 <= j < lists.len(),
        lists[j].len() > 0,
    ensures
        listed(lists) >= 1,
    decreases lists.len(),
{
    if j < lists.len() - 1 {
        assert(lists.drop_last()[j] == lists[j]);
        lemma_listed(lists.drop_last(), j);
    }
}

proof fn lemma_listed_twice(lists: Seq<Seq<PdfId>>, j: int, k: int)
    requires
        0 <= j < k < lists.len(),
        lists[j].len() > 0,
        lists[k].len() > 0,
    ensures
        listed(lists) >= 2,
    decreases lists.len(),
{
    assert(lists.drop_last()[j] == lists[j]);
    if k < lists.len() - 1 {
        assert(lists.drop_last()[k] == lists[k]);
        lemma_listed_twice(lists.drop_last(), j, k);
    } else {
        lemma_listed(lists.drop_last(), j);
    }
}

proof fn lemma_counted(
    objects: Seq<(PdfId, PdfValue)>,
    catalogs: Seq<Seq<(Seq<u8>, PdfValue)>>,
    notices: Seq<NoticeValue>,
    lists: Seq<Seq<PdfId>>,
)
    requires
        lists.len() == catalogs.len(),
        forall|j: int|
            0 <= j < lists.len() ==> has_bookmarks(objects, catalogs[j], #[trigger] lists[j]),
    ensures
        outline_sources(objects, catalogs, notices).0.len() == listed(lists),
    decreases catalogs.len(),
{
    if catalogs.len() > 0 {
        let shorter = lists.drop_last();
        assert forall|j: int| 0 <= j < shorter.len() implies has_bookmarks(
            objects,
            catalogs.drop_last()[j],
            #[trigger] shorter[j],
        ) by {
            assert(shorter[j] == lists[j]);
        }
        lemma_counted(objects, catalogs.drop_last(), notices, shorter);
        let list = lists.last();
        assert(has_bookmarks(objects, catalogs[lists.len() - 1], lists[lists.len() - 1]));
        if list.len() > 0 {
            listed_bookmarks_are_found(objects, list);
        }
    }
}

proof fn lemma_several(
    objects: Seq<(PdfId, PdfValue)>,
    catalogs: Seq<Seq<(Seq<u8>, PdfValue)>>,
    notices: Seq<NoticeValue>,
    lists: Seq<Seq<PdfId>>,
)
    requires
        lists.len() == catalogs.len(),
        forall|j: int|
            0 <= j < lists.len() ==> has_bookmarks(objects, catalogs[j], #[trigger] lists[j]),
        exists|j: int, k: int|
            0 <= j < k < lists.len() && (#[trigger] lists[j]).len() > 0 && (
            #[trigger] lists[k]).len() > 0,
    ensures
        outline_sources(objects, catalogs, notices).0.len() >= 2,
{
    lemma_counted(objects, catalogs, notices, lists);
    let (j, k) = choose|j: int, k: int|
        0 <= j < k < lists.len() && (#[trigger] lists[j]).len() > 0 && (
        #[trigger] lists[k]).len() > 0;
    lemma_listed_twice(lists, j, k);
}

proof fn lemma_back(
    objects: Seq<(PdfId, PdfValue)>,
    catalogs: Seq<Seq<(Seq<u8>, PdfValue)>>,
    notices: Seq<NoticeValue>,
    lists: Seq<Seq<PdfId>>,
    back: bool,
)
    requires
        lists.len() == catalogs.len(),
        forall|j: int|
            0 <= j < lists.len() ==> has_bookmarks(objects, catalogs[j], #[trigger] lists[j]),
        back ==> forall|j: int| 0 <= j < lists.len() ==> leads_back(objects, #[trigger] lists[j]),
    ensures
        ({
            let sources = outline_sources(objects, catalogs, notices).0;
            forall|s: int|
                #![trigger sources[s]]
                0 <= s < sources.len() ==> (back ==> leads_back(objects, sources[s].top_level))
        }),
    decreases catalogs.len(),
{
    if catalogs.len() > 0 && back {
        let shorter = lists.drop_last();
        assert forall|j: int| 0 <= j < shorter.len() implies has_bookmarks(
            objects,
            catalogs.drop_last()[j],
            #[trigger] shorter[j],
        ) && leads_back(objects, shorter[j]) by {
            assert(shorter[j] == lists[j]);
        }
        lemma_back(objects, catalogs.drop_last(), notices, shorter, back);
        let list = lists.last();
        assert(has_bookmarks(objects, catalogs[lists.len() - 1], lists[lists.len() - 1]));
        assert(leads_back(objects, lists[lists.len() - 1]));
        if list.len() > 0 {
            listed_bookmarks_are_found(objects, list);
        }
    }
}

/// The outline of the one document that has one is carried over as it is.
pub proof fn single_outline_is_carried_over(
    objects: Seq<(PdfId, PdfValue)>,
    max_id: u32,
    catalogs: Seq<Seq<(Seq<u8>, PdfValue)>>,
    notices: Seq<NoticeValue>,
    lists: Seq<Seq<PdfId>>,
    j: int,
)
    requires
        lists.len() == catalogs.len(),
        forall|k: int|
            0 <= k < lists.len() ==> has_bookmarks(objects, catalogs[k], #[trigger] lists[k]),
        0 <= j < lists.len(),
        lists[j].len() > 0,
        forall|k: int| 0 <= k < lists.len() && k != j ==> (#[trigger] lists[k]).len() == 0,
    ensures
        merged_outlines(objects, max_id, catalogs, notices) == (
            dict_get(catalogs[j], utf8("Outlines"@)),
            objects,
            max_id,
            notices,
        ),
{
    lemma_single(objects, catalogs, notices, lists, j);
}

proof fn lemma_single(
    objects: Seq<(PdfId, PdfValue)>,
    catalogs: Seq<Seq<(Seq<u8>, PdfValue)>>,
    notices: Seq<NoticeValue>,
    lists: Seq<Seq<PdfId>>,
    j: int,
)
    requires
        lists.len() == catalogs.len(),
        forall|k: int|
            0 <= k < lists.len() ==> has_bookmarks(objects, catalogs[k], #[trigger] lists[k]),
        forall|k: int| 0 <= k < lists.len() && k != j ==> (#[trigger] lists[k]).len() == 0,
        0 <= j < lists.len() ==> lists[j].len() > 0,
    ensures
        ({
            let (sources, told) = outline_sources(objects, catalogs, notices);
            &&& told == notices
            &&& 0 <= j < lists.len() ==> sources.len() == 1 && dict_get(
                catalogs[j],
                utf8("Outlines"@),
            ) == Some(sources[0].root)
            &&& !(0 <= j < lists.len()) ==> sources.len() == 0
        }),
    decreases catalogs.len(),
{
    if catalogs.len() > 0 {
        let shorter = lists.drop_last();
        assert forall|k: int| 0 <= k < shorter.len() implies has_bookmarks(
            objects,
            catalogs.drop_last()[k],
            #[trigger] shorter[k],
        ) && (k != j ==> shorter[k].len() == 0) by {
            assert(shorter[k] == lists[k]);
        }
        if 0 <= j < shorter.len() {
            assert(shorter[j] == lists[j]);
        }
        lemma_single(objects, catalogs.drop_last(), notices, shorter, j);
        let list = lists.last();
        assert(has_bookmarks(objects, catalogs[lists.len() - 1], lists[lists.len() - 1]));
        if list.len() > 0 {
            assert(j == lists.len() - 1);
            listed_bookmarks_are_found(objects, list);
        } else {
            assert(outline_of(objects, catalogs.last()) is None);
        }
    }
}

/// How many lines an outline shows when its top level is closed: as many as it says, or else
/// as it has bookmarks there.
pub open spec fn shown_lines(
    objects: Seq<(PdfId, PdfValue)>,
    catalog: Seq<(Seq<u8>, PdfValue)>,
    list: Seq<PdfId>,
) -> int {
    if list.len() == 0 {
        0
    } else {
        match dict_get(
            resolved_dict(objects, dict_get(catalog, utf8("Outlines"@)))->0,
            utf8("Count"@),
        ) {
            Some(PdfValue::Integer(count)) => if count > 0 {
                count as int
            } else {
                list.len() as int
            },
            _ => list.len() as int,
        }
    }
}

/// How many lines several outlines show together.
pub open spec fn all_lines(
    objects: Seq<(PdfId, PdfValue)>,
    catalogs: Seq<Seq<(Seq<u8>, PdfValue)>>,
    lists: Seq<Seq<PdfId>>,
) -> int
    decreases lists.len(),
{
    if lists.len() == 0 {
        0
    } else {
        all_lines(objects, catalogs.drop_last(), lists.drop_last()) + shown_lines(
            objects,
            catalogs.last(),
            lists.last(),
        )
    }
}

proof fn lemma_lines(
    objects: Seq<(PdfId, PdfValue)>,
    catalogs: Seq<Seq<(Seq<u8>, PdfValue)>>,
    notices: Seq<NoticeValue>,
    lists: Seq<Seq<PdfId>>,
)
    requires
        lists.len() == catalogs.len(),
        forall|j: int|
            0 <= j < lists.len() ==> has_bookmarks(objects, catalogs[j], #[trigger] lists[j]),
    ensures
        0 <= all_lines(objects, catalogs, lists),
        all_lines(objects, catalogs, lists) <= i64::MAX ==> total_count(
            outline_sources(objects, catalogs, notices).0,
        ) == all_lines(objects, catalogs, lists),
    decreases catalogs.len(),
{
    if catalogs.len() > 0 {
        let shorter = lists.drop_last();
        let fewer = catalogs.drop_last();
        assert forall|j: int| 0 <= j < shorter.len() implies has_bookmarks(
            objects,
            fewer[j],
            #[trigger] shorter[j],
        ) by {
            assert(shorter[j] == lists[j]);
        }
        lemma_lines(objects, fewer, notices, shorter);
        let list = lists.last();
        assert(has_bookmarks(objects, catalogs[lists.len() - 1], lists[lists.len() - 1]));
        let before = outline_sources(objects, fewer, notices).0;
        let sources = outline_sources(objects, catalogs, notices).0;
        if list.len() > 0 {
            listed_bookmarks_are_found(objects, list);
            let outline = outline_of(objects, catalogs.last())->0->Ok_0;
            assert(sources =~= before.push(outline));
            assert(sources.drop_last() =~= before);
            assert(outline.count == shown_lines(objects, catalogs.last(), list));
        } else {
            assert(outline_of(objects, catalogs.last()) is None);
            assert(sources == before);
        }
    }
}

/// The combined root says that it shows as many lines as the outlines show together.
pub proof fn combined_outline_counts_every_line(
    objects: Seq<(PdfId, PdfValue)>,
    max_id: u32,
    catalogs: Seq<Seq<(Seq<u8>, PdfValue)>>,
    notices: Seq<NoticeValue>,
    lists: Seq<Seq<PdfId>>,
)
    requires
        max_id < u32::MAX,
        lists.len() == catalogs.len(),
        forall|j: int|
            0 <= j < lists.len() ==> has_bookmarks(objects, catalogs[j], #[trigger] lists[j]),
        exists|j: int, k: int|
            0 <= j < k < lists.len() && (#[trigger] lists[j]).len() > 0 && (
            #[trigger] lists[k]).len() > 0,
        all_lines(objects, catalogs, lists) <= i64::MAX,
    ensures
        ({
            let (outlines, table, highest, told) = merged_outlines(
                objects,
                max_id,
                catalogs,
                notices,
            );
            outlines matches Some(PdfValue::Reference(root)) && highest == max_id + 1 && entry_of(
                table,
                root,
                "Count"@,
            ) == Some(PdfValue::Integer(all_lines(objects, catalogs, lists) as i64))
        }),
{
    lemma_lines(objects, catalogs, notices, lists);
    lemma_several(objects, catalogs, notices, lists);
    let sources = outline_sources(objects, catalogs, notices).0;
    let root = ((max_id + 1) as u32, 0u16);
    let joined = joined_outlines(objects, sources, sources.len() as int, root);
    storing_an_object(joined, root, outline_root(sources), root);
    let none = Seq::<(Seq<u8>, PdfValue)>::empty();
    let a = dict_set(none, utf8("Type"@), PdfValue::Name(utf8("Outlines"@)));
    let b = dict_set(a, utf8("First"@), PdfValue::Reference(sources[0].first));
    let c = dict_set(b, utf8("Last"@), PdfValue::Reference(sources.last().last));
    storing_a_value(c, utf8("Count"@), PdfValue::Integer(total_count(sources)), utf8("Count"@));
}

/// Whether an object is the same in two tables, but for the entries of a dictionary that link
/// a bookmark to those beside and above it.
pub open spec fn is_same_but_linked(
    objects: Seq<(PdfId, PdfValue)>,
    later: Seq<(PdfId, PdfValue)>,
    id: PdfId,
    key: Seq<u8>,
) -> bool {
    match (object_of(objects, id), object_of(later, id)) {
        (Some(PdfValue::Dictionary(before)), Some(PdfValue::Dictionary(after))) => key != utf8(
            "Next"@,
        ) && key != utf8("Prev"@) && key != utf8("Parent"@) ==> dict_get(after, key) == dict_get(
            before,
            key,
        ),
        (Some(PdfValue::Dictionary(_)), _) => false,
        (before, after) => before == after,
    }
}

proof fn lemma_entry_changed(
    objects: Seq<(PdfId, PdfValue)>,
    at: PdfId,
    link: Seq<char>,
    value: PdfValue,
    id: PdfId,
    key: Seq<u8>,
)
    requires
        link == "Next"@ || link == "Prev"@ || link == "Parent"@,
    ensures
        is_same_but_linked(objects, set_entry(objects, at, link, value), id, key),
{
    let after = set_entry(objects, at, link, value);
    lemma_index(objects, at, 0);
    lemma_index(objects, id, 0);
    lemma_index(after, id, 0);
    if let Some(i) = object_index_from(objects, at, 0) {
        if let PdfValue::Dictionary(entries) = objects[i].1 {
            storing_a_value(entries, utf8(link), value, key);
            assert forall|k: int| 0 <= k < objects.len() implies (#[trigger] after[k]).0
                == objects[k].0 by {}
            match object_index_from(objects, id, 0) {
                Some(k) => {
                    assert(after[k].0 == id);
                    assert forall|j: int| 0 <= j < k implies (#[trigger] after[j]).0 != id by {
                        assert(after[j].0 == objects[j].0);
                    }
                    lemma_first(after, id, k);
                },
                None => {
                    if let Some(k) = object_index_from(after, id, 0) {
                        assert(after[k].0 == objects[k].0);
                    }
                },
            }
        }
    }
}

proof fn lemma_reparented_links(
    objects: Seq<(PdfId, PdfValue)>,
    items: Seq<PdfId>,
    root: PdfId,
    id: PdfId,
    key: Seq<u8>,
)
    ensures
        is_same_but_linked(objects, reparented(objects, items, root), id, key),
    decreases items.len(),
{
    if items.len() > 0 {
        let before = reparented(objects, items.drop_last(), root);
        lemma_reparented_links(objects, items.drop_last(), root, id, key);
        lemma_entry_changed(
            before,
            items.last(),
            "Parent"@,
            PdfValue::Reference(root),
            id,
            key,
        );
    }
}

/// Joining outlines changes nothing but how bookmarks are linked: each keeps its title, its
/// target, its children and everything else, and so does every other object.
pub proof fn joining_keeps_what_bookmarks_say(
    objects: Seq<(PdfId, PdfValue)>,
    sources: Seq<OutlineValue>,
    done: int,
    root: PdfId,
    id: PdfId,
    key: Seq<u8>,
)
    ensures
        is_same_but_linked(objects, joined_outlines(objects, sources, done, root), id, key),
    decreases done,
{
    if done > 0 {
        let before = joined_outlines(objects, sources, done - 1, root);
        joining_keeps_what_bookmarks_say(objects, sources, done - 1, root, id, key);
        let source = sources[done - 1];
        let moved = reparented(before, source.top_level, root);
        lemma_reparented_links(before, source.top_level, root, id, key);
        if done < sources.len() {
            let next = sources[done];
            let to = PdfValue::Reference(next.first);
            lemma_entry_changed(moved, source.last, "Next"@, to, id, key);
            let linked = set_entry(moved, source.last, "Next"@, to);
            let back = PdfValue::Reference(source.last);
            lemma_entry_changed(linked, next.first, "Prev"@, back, id, key);
        }
    }
}

} // verus!
