//! Combining the outline (bookmark) trees of several documents.

use vstd::prelude::*;

use crate::bytes::{text_bytes, utf8};
use crate::notices::{notice, notice_values, push_notice, with_notice, Notice, NoticeValue};
use crate::pdf::catalog::{add_clamped, clamped_sum, dictionaries_value, optional_value};
use crate::pdf::model::{
    contains_id, copy_dictionary, copy_object, dict_get, dict_set, find_object, insert_object,
    integer_at, object_index_from, object_of, put_object, reference_at, resolve_dictionary,
    resolved_dict, table_value, PdfDictionary, PdfId, PdfObject, PdfValue,
};

verus! {

/// The longest chain of top-level bookmarks that is followed.
pub const MAX_TOP_LEVEL: usize = 100_000;

/// One document's outline: its root, its first and last top-level bookmark, all
/// of them in order, and how many lines it shows.
pub struct SourceOutline {
    pub root: PdfObject,
    pub first: PdfId,
    pub last: PdfId,
    pub top_level: Vec<PdfId>,
    pub count: i64,
}

/// The value of one document's outline.
pub struct OutlineValue {
    pub root: PdfValue,
    pub first: PdfId,
    pub last: PdfId,
    pub top_level: Seq<PdfId>,
    pub count: i64,
}

impl View for SourceOutline {
    type V = OutlineValue;

    open spec fn view(&self) -> OutlineValue {
        OutlineValue {
            root: self.root@,
            first: self.first,
            last: self.last,
            top_level: self.top_level@,
            count: self.count,
        }
    }
}

/// Outlines by their values.
pub open spec fn outline_values(outlines: Seq<SourceOutline>) -> Seq<OutlineValue> {
    outlines.map_values(|outline: SourceOutline| outline@)
}

/// The next bookmark beside this one.
pub open spec fn next_sibling(objects: Seq<(PdfId, PdfValue)>, id: PdfId) -> Option<PdfId> {
    match object_of(objects, id) {
        Some(PdfValue::Dictionary(entries)) => reference_at(entries, "Next"@),
        _ => None,
    }
}

/// The sibling chain from `current` on, behind those already `seen`. It ends at
/// a bookmark that was seen before.
pub open spec fn siblings(
    objects: Seq<(PdfId, PdfValue)>,
    current: Option<PdfId>,
    seen: Seq<PdfId>,
) -> Seq<PdfId>
    decreases MAX_TOP_LEVEL + 1 - seen.len(),
{
    match current {
        Some(id) => if seen.contains(id) || seen.len() > MAX_TOP_LEVEL {
            seen
        } else {
            siblings(objects, next_sibling(objects, id), seen.push(id))
        },
        None => seen,
    }
}

fn list_siblings(objects: &Vec<(PdfId, PdfObject)>, first: PdfId) -> (chain: Vec<PdfId>)
    ensures
        chain@ == siblings(table_value(objects@), Some(first), Seq::empty()),
{
    let ghost table = table_value(objects@);
    let mut chain: Vec<PdfId> = Vec::new();
    let mut current: Option<PdfId> = Some(first);
    loop
        invariant
            table == table_value(objects@),
            chain@.len() <= MAX_TOP_LEVEL + 1,
            siblings(table, Some(first), Seq::empty()) == siblings(table, current, chain@),
        decreases MAX_TOP_LEVEL + 1 - chain@.len(),
    {
        match current {
            Some(id) => {
                if contains_id(&chain, id) || chain.len() > MAX_TOP_LEVEL {
                    return chain;
                }
                chain.push(id);
                current = match find_object(objects, id) {
                    Some(PdfObject::Dictionary(item)) => item.reference("Next"),
                    _ => None,
                };
            },
            None => {
                return chain;
            },
        }
    }
}

/// The statement that bookmarks could not be combined.
pub open spec fn bookmarks_notice() -> NoticeValue {
    notice(
        "pdf-bookmarks-not-merged"@,
        "One PDF's bookmarks are stored in a form this tool cannot combine, so they were left out of the merged file."@,
    )
}

/// A catalog's outline, when it has bookmarks: its value, or `Err` when the
/// chain of its bookmarks does not end where the outline says.
pub open spec fn outline_of(
    objects: Seq<(PdfId, PdfValue)>,
    catalog: Seq<(Seq<u8>, PdfValue)>,
) -> Option<Result<OutlineValue, ()>> {
    let outlines = dict_get(catalog, utf8("Outlines"@));
    match resolved_dict(objects, outlines) {
        Some(root) => match (reference_at(root, "First"@), reference_at(root, "Last"@)) {
            (Some(first), Some(last)) => {
                let chain = siblings(objects, Some(first), Seq::empty());
                let declared = match integer_at(root, "Count"@) {
                    Some(count) => count,
                    None => 0i64,
                };
                if chain.len() > 0 && chain.last() == last {
                    Some(
                        Ok(
                            OutlineValue {
                                root: outlines->0,
                                first,
                                last,
                                top_level: chain,
                                count: if declared > 0 {
                                    declared
                                } else {
                                    chain.len() as i64
                                },
                            },
                        ),
                    )
                } else {
                    Some(Err(()))
                }
            },
            _ => None,
        },
        None => None,
    }
}

/// The outlines that can be combined, in document order.
pub open spec fn outline_sources(
    objects: Seq<(PdfId, PdfValue)>,
    catalogs: Seq<Seq<(Seq<u8>, PdfValue)>>,
    notices: Seq<NoticeValue>,
) -> (Seq<OutlineValue>, Seq<NoticeValue>)
    decreases catalogs.len(),
{
    if catalogs.len() == 0 {
        (Seq::empty(), notices)
    } else {
        let (before, told) = outline_sources(objects, catalogs.drop_last(), notices);
        match outline_of(objects, catalogs.last()) {
            Some(Ok(outline)) => (before.push(outline), told),
            Some(Err(_)) => (before, with_notice(told, bookmarks_notice())),
            None => (before, told),
        }
    }
}

fn read_outline(objects: &Vec<(PdfId, PdfObject)>, catalog: &PdfDictionary) -> (outline: Option<
    Result<SourceOutline, ()>,
>)
    ensures
        match outline {
            Some(Ok(outline)) => outline_of(table_value(objects@), catalog@) == Some(
                Ok::<OutlineValue, ()>(outline@),
            ),
            Some(Err(_)) => outline_of(table_value(objects@), catalog@) == Some(
                Err::<OutlineValue, ()>(()),
            ),
            None => outline_of(table_value(objects@), catalog@) is None,
        },
{
    let outlines = match catalog.get("Outlines") {
        Some(outlines) => outlines,
        None => {
            return None;
        },
    };
    match resolve_dictionary(objects, Some(outlines)) {
        Some(root) => match (root.reference("First"), root.reference("Last")) {
            (Some(first), Some(last)) => {
                let declared: i64 = match root.integer("Count") {
                    Some(count) => count,
                    None => 0,
                };
                let top_level = list_siblings(objects, first);
                proof {
                    lemma_siblings_bound(table_value(objects@), Some(first), Seq::empty());
                }
                if top_level.len() == 0 {
                    return Some(Err(()));
                }
                let end = top_level[top_level.len() - 1];
                if end.0 != last.0 || end.1 != last.1 {
                    return Some(Err(()));
                }
                let count: i64 = if declared > 0 {
                    declared
                } else {
                    top_level.len() as i64
                };
                Some(Ok(SourceOutline { root: copy_object(outlines), first, last, top_level, count }))
            },
            _ => None,
        },
        None => None,
    }
}

proof fn lemma_siblings_bound(
    objects: Seq<(PdfId, PdfValue)>,
    current: Option<PdfId>,
    seen: Seq<PdfId>,
)
    requires
        seen.len() <= MAX_TOP_LEVEL + 1,
    ensures
        siblings(objects, current, seen).len() <= MAX_TOP_LEVEL + 1,
    decreases MAX_TOP_LEVEL + 1 - seen.len(),
{
    match current {
        Some(id) => {
            if !(seen.contains(id) || seen.len() > MAX_TOP_LEVEL) {
                lemma_siblings_bound(objects, next_sibling(objects, id), seen.push(id));
            }
        },
        None => {},
    }
}

/// The object table with one entry of a dictionary object replaced. Objects that
/// are missing or no dictionary stay as they are.
pub open spec fn set_entry(
    objects: Seq<(PdfId, PdfValue)>,
    id: PdfId,
    key: Seq<char>,
    value: PdfValue,
) -> Seq<(PdfId, PdfValue)> {
    match object_index_from(objects, id, 0) {
        Some(i) => match objects[i].1 {
            PdfValue::Dictionary(entries) => objects.update(
                i,
                (id, PdfValue::Dictionary(dict_set(entries, utf8(key), value))),
            ),
            _ => objects,
        },
        None => objects,
    }
}

/// Replace one entry of a dictionary object.
pub fn set_object_entry(
    objects: &mut Vec<(PdfId, PdfObject)>,
    id: PdfId,
    key: &str,
    value: PdfObject,
)
    ensures
        table_value(final(objects)@) == set_entry(table_value(old(objects)@), id, key@, value@),
{
    let ghost table = table_value(objects@);
    let mut i: usize = 0;
    while i < objects.len()
        invariant
            i <= objects@.len(),
            objects@ == old(objects)@,
            table == table_value(objects@),
            object_index_from(table, id, 0) == object_index_from(table, id, i as int),
        decreases objects.len() - i,
    {
        let entry = &objects[i];
        if entry.0.0 == id.0 && entry.0.1 == id.1 {
            let changed: Option<PdfDictionary> = match &entry.1 {
                PdfObject::Dictionary(dictionary) => Some(copy_dictionary(dictionary)),
                _ => None,
            };
            if let Some(mut dictionary) = changed {
                dictionary.set(key, value);
                objects.set(i, (id, PdfObject::Dictionary(dictionary)));
                assert(table_value(objects@) =~= set_entry(table, id, key@, value@));
            }
            return;
        }
        i += 1;
    }
}

/// The object table with these bookmarks under a new root.
pub open spec fn reparented(
    objects: Seq<(PdfId, PdfValue)>,
    items: Seq<PdfId>,
    root: PdfId,
) -> Seq<(PdfId, PdfValue)>
    decreases items.len(),
{
    if items.len() == 0 {
        objects
    } else {
        set_entry(
            reparented(objects, items.drop_last(), root),
            items.last(),
            "Parent"@,
            PdfValue::Reference(root),
        )
    }
}

fn reparent(objects: &mut Vec<(PdfId, PdfObject)>, items: &Vec<PdfId>, root: PdfId)
    ensures
        table_value(final(objects)@) == reparented(table_value(old(objects)@), items@, root),
{
    let ghost start = table_value(objects@);
    assert(items@.take(0) =~= Seq::empty());
    let mut i: usize = 0;
    while i < items.len()
        invariant
            i <= items@.len(),
            table_value(objects@) == reparented(start, items@.take(i as int), root),
        decreases items.len() - i,
    {
        assert(items@.take(i + 1).drop_last() =~= items@.take(i as int));
        set_object_entry(objects, items[i], "Parent", PdfObject::Reference(root));
        i += 1;
    }
    assert(items@.take(items@.len() as int) =~= items@);
}

/// The object table after the first `done` outlines were moved under the new
/// root, each one's last bookmark joined to the next one's first.
pub open spec fn joined_outlines(
    objects: Seq<(PdfId, PdfValue)>,
    sources: Seq<OutlineValue>,
    done: int,
    root: PdfId,
) -> Seq<(PdfId, PdfValue)>
    decreases done,
{
    if done <= 0 {
        objects
    } else {
        let source = sources[done - 1];
        let moved = reparented(
            joined_outlines(objects, sources, done - 1, root),
            source.top_level,
            root,
        );
        if done < sources.len() {
            let next = sources[done];
            set_entry(
                set_entry(moved, source.last, "Next"@, PdfValue::Reference(next.first)),
                next.first,
                "Prev"@,
                PdfValue::Reference(source.last),
            )
        } else {
            moved
        }
    }
}

/// The lines that several outlines show together.
pub open spec fn total_count(sources: Seq<OutlineValue>) -> i64
    decreases sources.len(),
{
    if sources.len() == 0 {
        0
    } else {
        clamped_sum(total_count(sources.drop_last()), sources.last().count)
    }
}

/// The root of a combined outline.
pub open spec fn outline_root(sources: Seq<OutlineValue>) -> PdfValue {
    PdfValue::Dictionary(
        dict_set(
            dict_set(
                dict_set(
                    dict_set(
                        Seq::empty(),
                        utf8("Type"@),
                        PdfValue::Name(utf8("Outlines"@)),
                    ),
                    utf8("First"@),
                    PdfValue::Reference(sources[0].first),
                ),
                utf8("Last"@),
                PdfValue::Reference(sources.last().last),
            ),
            utf8("Count"@),
            PdfValue::Integer(total_count(sources)),
        ),
    )
}

/// The `/Outlines` entry of a combined catalog, with the object table and the
/// highest object number after it was made.
pub open spec fn merged_outlines(
    objects: Seq<(PdfId, PdfValue)>,
    max_id: u32,
    catalogs: Seq<Seq<(Seq<u8>, PdfValue)>>,
    notices: Seq<NoticeValue>,
) -> (Option<PdfValue>, Seq<(PdfId, PdfValue)>, u32, Seq<NoticeValue>) {
    let (sources, told) = outline_sources(objects, catalogs, notices);
    if sources.len() == 0 {
        (None, objects, max_id, told)
    } else if sources.len() == 1 {
        (Some(sources[0].root), objects, max_id, told)
    } else {
        let root = ((max_id + 1) as u32, 0u16);
        (
            Some(PdfValue::Reference(root)),
            put_object(
                joined_outlines(objects, sources, sources.len() as int, root),
                root,
                outline_root(sources),
            ),
            root.0,
            told,
        )
    }
}

fn read_outlines(
    objects: &Vec<(PdfId, PdfObject)>,
    catalogs: &Vec<PdfDictionary>,
    notices: &mut Vec<Notice>,
) -> (sources: Vec<SourceOutline>)
    ensures
        (outline_values(sources@), notice_values(final(notices)@)) == outline_sources(
            table_value(objects@),
            dictionaries_value(catalogs@),
            notice_values(old(notices)@),
        ),
{
    let ghost table = table_value(objects@);
    let ghost all = dictionaries_value(catalogs@);
    let ghost notices0 = notice_values(notices@);
    let mut sources: Vec<SourceOutline> = Vec::new();
    assert(all.take(0) =~= Seq::empty());
    assert(outline_values(sources@) =~= Seq::empty());
    let mut i: usize = 0;
    while i < catalogs.len()
        invariant
            i <= catalogs@.len(),
            table == table_value(objects@),
            all == dictionaries_value(catalogs@),
            (outline_values(sources@), notice_values(notices@)) == outline_sources(
                table,
                all.take(i as int),
                notices0,
            ),
        decreases catalogs.len() - i,
    {
        let ghost before = outline_values(sources@);
        assert(all.take(i + 1).drop_last() =~= all.take(i as int));
        assert(all.take(i + 1).last() == catalogs@[i as int]@);
        match read_outline(objects, &catalogs[i]) {
            Some(Ok(outline)) => {
                sources.push(outline);
                assert(outline_values(sources@) =~= before.push(outline@));
            },
            Some(Err(_)) => {
                push_notice(
                    notices,
                    Notice::new(
                        "pdf-bookmarks-not-merged",
                        "One PDF's bookmarks are stored in a form this tool cannot combine, so they were left out of the merged file.",
                    ),
                );
            },
            None => {},
        }
        i += 1;
    }
    assert(all.take(all.len() as int) =~= all);
    sources
}

fn add_counts(sources: &Vec<SourceOutline>) -> (count: i64)
    ensures
        count == total_count(outline_values(sources@)),
{
    let ghost all = outline_values(sources@);
    assert(all.take(0) =~= Seq::empty());
    let mut count: i64 = 0;
    let mut i: usize = 0;
    while i < sources.len()
        invariant
            i <= sources@.len(),
            all == outline_values(sources@),
            count == total_count(all.take(i as int)),
        decreases sources.len() - i,
    {
        assert(all.take(i + 1).drop_last() =~= all.take(i as int));
        count = add_clamped(count, sources[i].count);
        i += 1;
    }
    assert(all.take(all.len() as int) =~= all);
    count
}

/// Combine the top-level outline (bookmark) trees of several documents under
/// one new root so every source document's bookmarks survive the merge.
pub fn merge_outlines(
    objects: &mut Vec<(PdfId, PdfObject)>,
    max_id: &mut u32,
    catalogs: &Vec<PdfDictionary>,
    notices: &mut Vec<Notice>,
) -> (outlines: Option<PdfObject>)
    requires
        *old(max_id) < u32::MAX,
    ensures
        (
            optional_value(outlines),
            table_value(final(objects)@),
            *final(max_id),
            notice_values(final(notices)@),
        ) == merged_outlines(
            table_value(old(objects)@),
            *old(max_id),
            dictionaries_value(catalogs@),
            notice_values(old(notices)@),
        ),
{
    let ghost start = table_value(objects@);
    let sources = read_outlines(objects, catalogs, notices);
    let ghost all = outline_values(sources@);
    if sources.len() == 0 {
        return None;
    }
    if sources.len() == 1 {
        assert(all[0] == sources@[0]@);
        return Some(copy_object(&sources[0].root));
    }
    *max_id = *max_id + 1;
    let root: PdfId = (*max_id, 0);
    let mut i: usize = 0;
    while i < sources.len()
        invariant
            i <= sources@.len(),
            all == outline_values(sources@),
            table_value(objects@) == joined_outlines(start, all, i as int, root),
        decreases sources.len() - i,
    {
        let source = &sources[i];
        assert(all[i as int] == source@);
        reparent(objects, &source.top_level, root);
        if i + 1 < sources.len() {
            let next = sources[i + 1].first;
            assert(all[i + 1] == sources@[i + 1]@);
            set_object_entry(objects, source.last, "Next", PdfObject::Reference(next));
            set_object_entry(objects, next, "Prev", PdfObject::Reference(source.last));
        }
        i += 1;
    }
    let mut dictionary = PdfDictionary::empty();
    assert(all[0] == sources@[0]@);
    assert(all.last() == sources@[sources@.len() - 1]@);
    dictionary.set("Type", PdfObject::Name(text_bytes("Outlines")));
    dictionary.set("First", PdfObject::Reference(sources[0].first));
    dictionary.set("Last", PdfObject::Reference(sources[sources.len() - 1].last));
    dictionary.set("Count", PdfObject::Integer(add_counts(&sources)));
    insert_object(objects, root, PdfObject::Dictionary(dictionary));
    Some(PdfObject::Reference(root))
}

} // verus!
