//! What combining named entries keeps: every name, with what the first document gave it.

use vstd::prelude::*;

use crate::bytes::{bytes_less, utf8};
use crate::notices::{has_code, NoticeValue};
use crate::pdf::catalog::{
    add_keys, add_links, all_keys, collision_notice, combined_links, combined_names, first_with_from, gathered,
    has_pair, merged_names,
};
use crate::pdf::catalog_laws::lemma_less_is_ordered;
use crate::pdf::laws::storing_a_value;
use crate::pdf::model::{dict_get, lemma_dict_index_from, resolved_dict, PdfId, PdfValue};
use crate::pdf::tree_laws::written_name_tree_is_read_back;
use crate::pdf::trees::{
    insert_name, name_tree_pairs, name_tree_value, sorted_name, TREE_LEVELS,
};

verus! {

/// Whether a list holds every name of another one time, with its first value.
pub open spec fn keeps_first_values(
    kept: Seq<(Seq<u8>, PdfValue)>,
    all: Seq<(Seq<u8>, PdfValue)>,
) -> bool {
    &&& forall|i: int| 0 <= i < all.len() ==> has_pair(kept, (#[trigger] all[i]).0)
    &&& forall|i: int, j: int|
        0 <= i < j < kept.len() ==> (#[trigger] kept[i]).0 != (#[trigger] kept[j]).0
    &&& forall|i: int| 0 <= i < kept.len() ==> is_first_value(all, #[trigger] kept[i])
}

/// Whether a pair is the first of its name in a list.
pub open spec fn is_first_value(
    all: Seq<(Seq<u8>, PdfValue)>,
    pair: (Seq<u8>, PdfValue),
) -> bool {
    exists|k: int|
        0 <= k < all.len() && #[trigger] all[k] == pair && forall|j: int|
            0 <= j < k ==> (#[trigger] all[j]).0 != pair.0
}

proof fn lemma_added(
    links: Seq<(Seq<u8>, PdfValue)>,
    notices: Seq<NoticeValue>,
    all: Seq<(Seq<u8>, PdfValue)>,
    added: Seq<(Seq<u8>, PdfValue)>,
)
    requires
        keeps_first_values(links, all),
    ensures
        keeps_first_values(add_links(links, notices, added).0, all + added),
    decreases added.len(),
{
    if added.len() == 0 {
        assert(all + added =~= all);
    } else {
        let shorter = added.drop_last();
        lemma_added(links, notices, all, shorter);
        let before = add_links(links, notices, shorter).0;
        let after = add_links(links, notices, added).0;
        let seen = all + shorter;
        let every = all + added;
        let last = added.last();
        assert(every =~= seen.push(last));
        assert forall|i: int| 0 <= i < every.len() implies has_pair(
            after,
            (#[trigger] every[i]).0,
        ) by {
            if i < seen.len() {
                assert(every[i] == seen[i]);
                assert(has_pair(before, seen[i].0));
                let k = choose|k: int| 0 <= k < before.len() && (#[trigger] before[k]).0 == seen[i].0;
                assert(after[k] == before[k]);
            } else if !has_pair(before, last.0) {
                assert(after[before.len() as int] == last);
            }
        }
        assert forall|i: int| 0 <= i < after.len() implies is_first_value(
            every,
            #[trigger] after[i],
        ) by {
            if i < before.len() {
                assert(after[i] == before[i]);
                assert(is_first_value(seen, before[i]));
                let k = choose|k: int|
                    0 <= k < seen.len() && #[trigger] seen[k] == before[i] && forall|j: int|
                        0 <= j < k ==> (#[trigger] seen[j]).0 != before[i].0;
                assert(every[k] == seen[k]);
                assert forall|j: int| 0 <= j < k implies (#[trigger] every[j]).0 != before[i].0 by {
                    assert(every[j] == seen[j]);
                }
            } else {
                assert(after[i] == last);
                let k = seen.len() as int;
                assert(every[k] == last);
                assert forall|j: int| 0 <= j < k implies (#[trigger] every[j]).0 != last.0 by {
                    assert(every[j] == seen[j]);
                    assert(has_pair(before, seen[j].0));
                }
            }
        }
    }
}

/// The named entries of several dictionaries under one key, one behind the other, where all
/// of them can be read.
pub open spec fn all_named(
    objects: Seq<(PdfId, PdfValue)>,
    sources: Seq<Seq<(Seq<u8>, PdfValue)>>,
    key: Seq<u8>,
) -> Option<Seq<(Seq<u8>, PdfValue)>>
    decreases sources.len(),
{
    if sources.len() == 0 {
        Some(Seq::empty())
    } else {
        match (all_named(objects, sources.drop_last(), key), dict_get(sources.last(), key)) {
            (Some(before), None) => Some(before),
            (Some(before), Some(tree)) => match name_tree_pairs(
                objects,
                tree,
                TREE_LEVELS as nat,
            ) {
                Some(pairs) => Some(before + pairs),
                None => None,
            },
            (None, _) => None,
        }
    }
}

proof fn lemma_links(
    objects: Seq<(PdfId, PdfValue)>,
    sources: Seq<Seq<(Seq<u8>, PdfValue)>>,
    key: Seq<u8>,
    notices: Seq<NoticeValue>,
)
    requires
        all_named(objects, sources, key) is Some,
    ensures
        combined_links(objects, sources, key, notices).0 is Some,
        keeps_first_values(
            combined_links(objects, sources, key, notices).0->0,
            all_named(objects, sources, key)->0,
        ),
    decreases sources.len(),
{
    if sources.len() > 0 {
        let shorter = sources.drop_last();
        lemma_links(objects, shorter, key, notices);
        let (before, told) = combined_links(objects, shorter, key, notices);
        if let Some(tree) = dict_get(sources.last(), key) {
            let pairs = name_tree_pairs(objects, tree, TREE_LEVELS as nat)->0;
            lemma_added(before->0, told, all_named(objects, shorter, key)->0, pairs);
        }
    }
}

proof fn lemma_inserted_name(
    sorted: Seq<(Seq<u8>, PdfValue)>,
    pair: (Seq<u8>, PdfValue),
)
    ensures
        forall|other: (Seq<u8>, PdfValue)|
            insert_name(sorted, pair).contains(other) <==> sorted.contains(other) || other == pair,
        insert_name(sorted, pair).len() == sorted.len() + 1,
        are_apart(sorted) && !has_pair(sorted, pair.0) ==> are_apart(insert_name(sorted, pair)),
    decreases sorted.len(),
{
    let result = insert_name(sorted, pair);
    if sorted.len() == 0 {
        assert(result[0] == pair);
    } else if bytes_less(pair.0, sorted.last().0) {
        let shorter = sorted.drop_last();
        let inner = insert_name(shorter, pair);
        lemma_inserted_name(shorter, pair);
        assert(sorted =~= shorter.push(sorted.last()));
        lemma_pushed(shorter, sorted.last());
        lemma_pushed(inner, sorted.last());
        if are_apart(sorted) && !has_pair(sorted, pair.0) {
            assert(are_apart(shorter)) by {
                assert forall|i: int, j: int| 0 <= i < j < shorter.len() implies (
                #[trigger] shorter[i]).0 != (#[trigger] shorter[j]).0 by {
                    assert(sorted[i] == shorter[i] && sorted[j] == shorter[j]);
                }
            }
            assert(!has_pair(shorter, pair.0)) by {
                if has_pair(shorter, pair.0) {
                    let k = choose|k: int|
                        0 <= k < shorter.len() && (#[trigger] shorter[k]).0 == pair.0;
                    assert(sorted[k] == shorter[k]);
                }
            }
            assert forall|i: int, j: int| 0 <= i < j < result.len() implies (#[trigger] result[i]).0
                != (#[trigger] result[j]).0 by {
                assert(result[i] == inner[i]);
                if j < inner.len() {
                    assert(result[j] == inner[j]);
                } else {
                    assert(result[j] == sorted.last());
                    assert(inner.contains(inner[i]));
                    assert(sorted[sorted.len() - 1] == sorted.last());
                    if inner[i] != pair {
                        assert(shorter.contains(inner[i]));
                        let k = choose|k: int| 0 <= k < shorter.len() && shorter[k] == inner[i];
                        assert(sorted[k] == shorter[k]);
                    }
                }
            }
        }
    } else {
        lemma_pushed(sorted, pair);
        if are_apart(sorted) && !has_pair(sorted, pair.0) {
            assert forall|i: int, j: int| 0 <= i < j < result.len() implies (#[trigger] result[i]).0
                != (#[trigger] result[j]).0 by {
                assert(result[i] == sorted[i]);
                if j < sorted.len() {
                    assert(result[j] == sorted[j]);
                }
            }
        }
    }
}

proof fn lemma_pushed(list: Seq<(Seq<u8>, PdfValue)>, last: (Seq<u8>, PdfValue))
    ensures
        forall|other: (Seq<u8>, PdfValue)|
            #[trigger] list.push(last).contains(other) <==> list.contains(other) || other == last,
{
    let longer = list.push(last);
    assert forall|other: (Seq<u8>, PdfValue)|
        #[trigger] longer.contains(other) <==> list.contains(other) || other == last by {
        if list.contains(other) {
            let k = choose|k: int| 0 <= k < list.len() && list[k] == other;
            assert(longer[k] == other);
        }
        if other == last {
            assert(longer[list.len() as int] == last);
        }
        if longer.contains(other) {
            let k = choose|k: int| 0 <= k < longer.len() && longer[k] == other;
            if k < list.len() {
                assert(list[k] == other);
            }
        }
    }
}

/// Whether no name stands twice.
pub open spec fn are_apart(pairs: Seq<(Seq<u8>, PdfValue)>) -> bool {
    forall|i: int, j: int|
        0 <= i < j < pairs.len() ==> (#[trigger] pairs[i]).0 != (#[trigger] pairs[j]).0
}

/// Putting named entries in order loses none and adds none.
pub proof fn sorting_keeps_every_name(pairs: Seq<(Seq<u8>, PdfValue)>)
    ensures
        forall|pair: (Seq<u8>, PdfValue)|
            #[trigger] sorted_name(pairs).contains(pair) <==> pairs.contains(pair),
        sorted_name(pairs).len() == pairs.len(),
        are_apart(pairs) ==> are_apart(sorted_name(pairs)),
    decreases pairs.len(),
{
    if pairs.len() > 0 {
        let shorter = pairs.drop_last();
        let last = pairs.last();
        sorting_keeps_every_name(shorter);
        lemma_inserted_name(sorted_name(shorter), last);
        assert(pairs =~= shorter.push(last));
        lemma_pushed(shorter, last);
        assert forall|pair: (Seq<u8>, PdfValue)|
            #[trigger] sorted_name(pairs).contains(pair) <==> pairs.contains(pair) by {
            assert(sorted_name(shorter).contains(pair) <==> shorter.contains(pair));
            assert(shorter.push(last).contains(pair) <==> shorter.contains(pair) || pair == last);
        }
        if are_apart(pairs) {
            assert forall|i: int, j: int| 0 <= i < j < shorter.len() implies (
            #[trigger] shorter[i]).0 != (#[trigger] shorter[j]).0 by {
                assert(pairs[i] == shorter[i] && pairs[j] == shorter[j]);
            }
            if has_pair(sorted_name(shorter), last.0) {
                let sorted = sorted_name(shorter);
                let k = choose|k: int| 0 <= k < sorted.len() && (#[trigger] sorted[k]).0 == last.0;
                assert(sorted.contains(sorted[k]));
                let m = choose|m: int| 0 <= m < shorter.len() && shorter[m] == sorted[k];
                assert(pairs[m].0 != pairs[pairs.len() - 1].0);
            }
        }
    }
}

proof fn lemma_sorted_keeps(kept: Seq<(Seq<u8>, PdfValue)>, all: Seq<(Seq<u8>, PdfValue)>)
    requires
        keeps_first_values(kept, all),
    ensures
        keeps_first_values(sorted_name(kept), all),
{
    sorting_keeps_every_name(kept);
    let sorted = sorted_name(kept);
    assert forall|i: int| 0 <= i < all.len() implies has_pair(sorted, (#[trigger] all[i]).0) by {
        assert(has_pair(kept, all[i].0));
        let k = choose|k: int| 0 <= k < kept.len() && (#[trigger] kept[k]).0 == all[i].0;
        assert(kept.contains(kept[k]));
        assert(sorted.contains(kept[k]));
        let m = choose|m: int| 0 <= m < sorted.len() && sorted[m] == kept[k];
        assert(sorted[m].0 == all[i].0);
    }
    assert forall|i: int| 0 <= i < sorted.len() implies is_first_value(all, #[trigger] sorted[i]) by {
        assert(sorted.contains(sorted[i]));
        let k = choose|k: int| 0 <= k < kept.len() && kept[k] == sorted[i];
        assert(is_first_value(all, kept[k]));
    }
}

proof fn lemma_keys(keys: Seq<Seq<u8>>, entries: Seq<(Seq<u8>, PdfValue)>)
    ensures
        forall|key: Seq<u8>|
            #[trigger] add_keys(keys, entries).contains(key) <==> keys.contains(key) || has_pair(
                entries,
                key,
            ),
    decreases entries.len(),
{
    if entries.len() > 0 {
        let shorter = entries.drop_last();
        lemma_keys(keys, shorter);
        let before = add_keys(keys, shorter);
        let after = add_keys(keys, entries);
        let last = entries.last();
        assert forall|key: Seq<u8>|
            #[trigger] after.contains(key) <==> keys.contains(key) || has_pair(entries, key) by {
            assert(entries[entries.len() - 1] == last);
            if before.contains(key) {
                let k = choose|k: int| 0 <= k < before.len() && before[k] == key;
                assert(after[k] == key);
            }
            if has_pair(shorter, key) {
                let k = choose|k: int| 0 <= k < shorter.len() && (#[trigger] shorter[k]).0 == key;
                assert(entries[k] == shorter[k]);
            }
            if has_pair(entries, key) && key != last.0 {
                let k = choose|k: int| 0 <= k < entries.len() && (#[trigger] entries[k]).0 == key;
                assert(shorter[k] == entries[k]);
            }
            if after.contains(key) && !before.contains(key) {
                let k = choose|k: int| 0 <= k < after.len() && after[k] == key;
                if k < before.len() {
                    assert(before[k] == key);
                }
            }
            if key == last.0 && !before.contains(key) {
                assert(after[before.len() as int] == key);
            }
        }
    } else {
        assert forall|key: Seq<u8>|
            #[trigger] add_keys(keys, entries).contains(key) <==> keys.contains(key) || has_pair(
                entries,
                key,
            ) by {}
    }
}

proof fn lemma_all_keys(sources: Seq<Seq<(Seq<u8>, PdfValue)>>, j: int, key: Seq<u8>)
    requires
        0 <= j < sources.len(),
        dict_get(sources[j], key) is Some,
    ensures
        all_keys(sources).contains(key),
    decreases sources.len(),
{
    let shorter = sources.drop_last();
    lemma_keys(all_keys(shorter), sources.last());
    if j < sources.len() - 1 {
        assert(shorter[j] == sources[j]);
        lemma_all_keys(shorter, j, key);
    } else {
        lemma_dict_index_from(sources[j], key, 0);
        assert(has_pair(sources[j], key));
    }
}

/// The combined entry of one key does not depend on the keys behind it.
proof fn lemma_combined_names(
    objects: Seq<(PdfId, PdfValue)>,
    sources: Seq<Seq<(Seq<u8>, PdfValue)>>,
    keys: Seq<Seq<u8>>,
    notices: Seq<NoticeValue>,
    key: Seq<u8>,
)
    requires
        keys.contains(key),
        all_named(objects, sources, key) is Some,
    ensures
        exists|links: Seq<(Seq<u8>, PdfValue)>|
            keeps_first_values(links, all_named(objects, sources, key)->0) && dict_get(
                combined_names(objects, sources, keys, notices).0,
                key,
            ) == Some(#[trigger] name_tree_value(links)),
    decreases keys.len(),
{
    let shorter = keys.drop_last();
    let (before, told) = combined_names(objects, sources, shorter, notices);
    let last = keys.last();
    if key == last {
        lemma_links(objects, sources, key, told);
        let links = combined_links(objects, sources, key, told).0->0;
        storing_a_value(before, key, name_tree_value(links), key);
        assert(dict_get(combined_names(objects, sources, keys, notices).0, key) == Some(
            name_tree_value(links),
        ));
    } else {
        let k = choose|k: int| 0 <= k < keys.len() && keys[k] == key;
        assert(shorter[k] == key);
        lemma_combined_names(objects, sources, shorter, notices, key);
        let value = match combined_links(objects, sources, last, told).0 {
            Some(links) => name_tree_value(links),
            None => first_with_from(sources, last, 0)->0,
        };
        storing_a_value(before, last, value, key);
    }
}

/// In the combined document every kind of named entry (link targets, embedded files and the
/// like) of every document is found under its name: reading the combined tree gives each name
/// that some document has, one time, with the value of the first document that has it.
pub proof fn merged_names_are_all_found(
    objects: Seq<(PdfId, PdfValue)>,
    catalogs: Seq<Seq<(Seq<u8>, PdfValue)>>,
    notices: Seq<NoticeValue>,
    j: int,
    key: Seq<u8>,
)
    requires
        0 <= j < gathered(objects, catalogs, "Names"@).len(),
        dict_get(gathered(objects, catalogs, "Names"@)[j], key) is Some,
        all_named(objects, gathered(objects, catalogs, "Names"@), key) is Some,
    ensures
        merged_names(objects, catalogs, notices).0 matches Some(PdfValue::Dictionary(names))
            && dict_get(names, key) matches Some(tree) && name_tree_pairs(
            objects,
            tree,
            TREE_LEVELS as nat,
        ) matches Some(read) && keeps_first_values(
            read,
            all_named(objects, gathered(objects, catalogs, "Names"@), key)->0,
        ),
{
    let sources = gathered(objects, catalogs, "Names"@);
    let all = all_named(objects, sources, key)->0;
    lemma_all_keys(sources, j, key);
    lemma_combined_names(objects, sources, all_keys(sources), notices, key);
    let names = combined_names(objects, sources, all_keys(sources), notices).0;
    let links = choose|links: Seq<(Seq<u8>, PdfValue)>|
        keeps_first_values(links, all) && dict_get(names, key) == Some(
            #[trigger] name_tree_value(links),
        );
    lemma_dict_index_from(names, key, 0);
    assert(names.len() > 0);
    written_name_tree_is_read_back(objects, links, TREE_LEVELS as nat);
    lemma_sorted_keeps(links, all);
}

/// The dictionaries that several catalogs hold under a key are those of the first catalogs,
/// then those of the rest; a catalog with such a dictionary gives it, and one without gives
/// none.
pub proof fn gathering_takes_every_catalog(
    objects: Seq<(PdfId, PdfValue)>,
    first: Seq<Seq<(Seq<u8>, PdfValue)>>,
    rest: Seq<Seq<(Seq<u8>, PdfValue)>>,
    key: Seq<char>,
)
    ensures
        gathered(objects, first + rest, key) == gathered(objects, first, key) + gathered(
            objects,
            rest,
            key,
        ),
        rest.len() == 1 ==> gathered(objects, rest, key) == (match resolved_dict(
            objects,
            dict_get(rest[0], utf8(key)),
        ) {
            Some(entries) => seq![entries],
            None => Seq::empty(),
        }),
    decreases rest.len(),
{
    if rest.len() == 0 {
        assert(first + rest =~= first);
        assert(gathered(objects, first, key) + gathered(objects, rest, key) =~= gathered(
            objects,
            first,
            key,
        ));
    } else {
        let shorter = rest.drop_last();
        gathering_takes_every_catalog(objects, first, shorter, key);
        assert((first + rest).drop_last() =~= first + shorter);
        assert((first + rest).last() == rest.last());
        if rest.len() == 1 {
            assert(gathered(objects, shorter, key) =~= Seq::empty());
        }
        if let Some(entries) = resolved_dict(objects, dict_get(rest.last(), utf8(key))) {
            assert(gathered(objects, first, key) + gathered(objects, shorter, key).push(entries)
                =~= (gathered(objects, first, key) + gathered(objects, shorter, key)).push(
                entries,
            ));
            if rest.len() == 1 {
                assert(Seq::<Seq<(Seq<u8>, PdfValue)>>::empty().push(entries) =~= seq![entries]);
            }
        }
    }
}

/// Whether a name stands twice in a list.
pub open spec fn names_repeat(pairs: Seq<(Seq<u8>, PdfValue)>) -> bool {
    exists|i: int, j: int|
        0 <= i < j < pairs.len() && (#[trigger] pairs[i]).0 == (#[trigger] pairs[j]).0
}

proof fn lemma_collisions(
    links: Seq<(Seq<u8>, PdfValue)>,
    notices: Seq<NoticeValue>,
    all: Seq<(Seq<u8>, PdfValue)>,
    added: Seq<(Seq<u8>, PdfValue)>,
    start: bool,
)
    requires
        keeps_first_values(links, all),
        has_code(notices, "pdf-named-destination-collision"@) == (start || names_repeat(all)),
    ensures
        has_code(
            add_links(links, notices, added).1,
            "pdf-named-destination-collision"@,
        ) == (start || names_repeat(all + added)),
    decreases added.len(),
{
    if added.len() == 0 {
        assert(all + added =~= all);
    } else {
        let shorter = added.drop_last();
        let last = added.last();
        lemma_collisions(links, notices, all, shorter, start);
        lemma_added(links, notices, all, shorter);
        let (before, told) = add_links(links, notices, shorter);
        let seen = all + shorter;
        let every = all + added;
        assert(every =~= seen.push(last));
        assert(has_pair(before, last.0) <==> has_pair(seen, last.0)) by {
            if has_pair(before, last.0) {
                let k = choose|k: int| 0 <= k < before.len() && (#[trigger] before[k]).0 == last.0;
                assert(is_first_value(seen, before[k]));
                let m = choose|m: int|
                    0 <= m < seen.len() && #[trigger] seen[m] == before[k] && forall|j: int|
                        0 <= j < m ==> (#[trigger] seen[j]).0 != before[k].0;
                assert(seen[m].0 == last.0);
            }
            if has_pair(seen, last.0) {
                let k = choose|k: int| 0 <= k < seen.len() && (#[trigger] seen[k]).0 == last.0;
                assert(has_pair(before, seen[k].0));
            }
        }
        assert(names_repeat(every) <==> names_repeat(seen) || has_pair(seen, last.0)) by {
            if names_repeat(seen) {
                let (i, j) = choose|i: int, j: int|
                    0 <= i < j < seen.len() && (#[trigger] seen[i]).0 == (#[trigger] seen[j]).0;
                assert(every[i] == seen[i] && every[j] == seen[j]);
            }
            if has_pair(seen, last.0) {
                let k = choose|k: int| 0 <= k < seen.len() && (#[trigger] seen[k]).0 == last.0;
                assert(every[k] == seen[k] && every[seen.len() as int] == last);
            }
            if names_repeat(every) {
                let (i, j) = choose|i: int, j: int|
                    0 <= i < j < every.len() && (#[trigger] every[i]).0 == (#[trigger] every[j]).0;
                assert(every[i] == seen[i]);
                if j < seen.len() {
                    assert(every[j] == seen[j]);
                }
            }
        }
        let notice = collision_notice();
        assert(notice.code == "pdf-named-destination-collision"@);
        if has_pair(before, last.0) && !has_code(told, notice.code) {
            let after = told.push(notice);
            assert(after[told.len() as int].code == notice.code);
            assert(has_code(after, notice.code));
        }
    }
}

/// Combining named entries of one kind tells of a collision exactly when a name stands twice.
pub proof fn colliding_names_are_told(
    objects: Seq<(PdfId, PdfValue)>,
    sources: Seq<Seq<(Seq<u8>, PdfValue)>>,
    key: Seq<u8>,
    notices: Seq<NoticeValue>,
)
    requires
        all_named(objects, sources, key) is Some,
    ensures
        has_code(
            combined_links(objects, sources, key, notices).1,
            "pdf-named-destination-collision"@,
        ) == (has_code(notices, "pdf-named-destination-collision"@) || names_repeat(
            all_named(objects, sources, key)->0,
        )),
    decreases sources.len(),
{
    if sources.len() > 0 {
        let shorter = sources.drop_last();
        colliding_names_are_told(objects, shorter, key, notices);
        lemma_links(objects, shorter, key, notices);
        let (before, told) = combined_links(objects, shorter, key, notices);
        if let Some(tree) = dict_get(sources.last(), key) {
            let pairs = name_tree_pairs(objects, tree, TREE_LEVELS as nat)->0;
            lemma_collisions(
                before->0,
                told,
                all_named(objects, shorter, key)->0,
                pairs,
                has_code(notices, "pdf-named-destination-collision"@),
            );
        }
    } else {
        assert(!names_repeat(all_named(objects, sources, key)->0));
    }
}

/// Whether no name is below one before it.
pub open spec fn names_ascend(pairs: Seq<(Seq<u8>, PdfValue)>) -> bool {
    forall|i: int, j: int|
        0 <= i < j < pairs.len() ==> !bytes_less((#[trigger] pairs[j]).0, (#[trigger] pairs[i]).0)
}

proof fn lemma_inserted_in_order(
    sorted: Seq<(Seq<u8>, PdfValue)>,
    pair: (Seq<u8>, PdfValue),
)
    requires
        names_ascend(sorted),
    ensures
        names_ascend(insert_name(sorted, pair)),
    decreases sorted.len(),
{
    let result = insert_name(sorted, pair);
    if sorted.len() == 0 {
    } else if bytes_less(pair.0, sorted.last().0) {
        let shorter = sorted.drop_last();
        let last = sorted.last();
        assert forall|i: int, j: int| 0 <= i < j < shorter.len() implies !bytes_less(
            (#[trigger] shorter[j]).0,
            (#[trigger] shorter[i]).0,
        ) by {
            assert(sorted[i] == shorter[i] && sorted[j] == shorter[j]);
        }
        lemma_inserted_in_order(shorter, pair);
        lemma_inserted_name(shorter, pair);
        lemma_less_is_ordered(pair.0, last.0, last.0);
        let inner = insert_name(shorter, pair);
        assert forall|i: int, j: int| 0 <= i < j < result.len() implies !bytes_less(
            (#[trigger] result[j]).0,
            (#[trigger] result[i]).0,
        ) by {
            assert(result[i] == inner[i]);
            if j < inner.len() {
                assert(result[j] == inner[j]);
            } else {
                assert(inner.contains(inner[i]));
                if inner[i] != pair {
                    assert(shorter.contains(inner[i]));
                    let k = choose|k: int| 0 <= k < shorter.len() && shorter[k] == inner[i];
                    assert(sorted[k] == shorter[k]);
                    assert(sorted[sorted.len() - 1] == last);
                }
            }
        }
    } else {
        let last = sorted.last();
        assert forall|i: int, j: int| 0 <= i < j < result.len() implies !bytes_less(
            (#[trigger] result[j]).0,
            (#[trigger] result[i]).0,
        ) by {
            assert(result[i] == sorted[i]);
            if j < sorted.len() {
                assert(result[j] == sorted[j]);
            } else {
                assert(sorted[sorted.len() - 1] == last);
                lemma_less_is_ordered(sorted[i].0, last.0, pair.0);
            }
        }
    }
}

/// Named entries are put in the order of their names, as a name tree has to hold them.
pub proof fn sorted_names_ascend(pairs: Seq<(Seq<u8>, PdfValue)>)
    ensures
        names_ascend(sorted_name(pairs)),
    decreases pairs.len(),
{
    if pairs.len() > 0 {
        sorted_names_ascend(pairs.drop_last());
        lemma_inserted_in_order(sorted_name(pairs.drop_last()), pairs.last());
    }
}

} // verus!
