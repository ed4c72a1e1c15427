//! Combining the catalogs of several documents: named links, page numbering,
//! forms, and layers.

use vstd::prelude::*;

use crate::bytes::{copy_bytes, is_text, same_bytes, text_bytes, utf8};
use crate::notices::{notice, notice_values, push_notice, with_notice, Notice, NoticeValue};
use crate::pdf::model::{
    copy_dictionary, copy_object, dict_get, dict_has, dict_set,
    integer_at, resolve_dictionary,
    resolved_dict, table_value, PdfDictionary, PdfId, PdfObject, PdfValue,
};
use crate::pdf::trees::{
    flatten_name_tree, flatten_number_tree, name_tree, name_tree_pairs, name_tree_value,
    named_values, number_tree, number_tree_pairs, number_tree_value, numbered_values, TREE_LEVELS,
};

verus! {

/// Dictionaries by their entries.
pub open spec fn dictionaries_value(dictionaries: Seq<PdfDictionary>) -> Seq<
    Seq<(Seq<u8>, PdfValue)>,
> {
    dictionaries.map_values(|dictionary: PdfDictionary| dictionary@)
}

/// Catalog entries that describe one specific document and therefore cannot be
/// carried into a document assembled from several sources. Everything not
/// listed here is preserved.
pub open spec fn dropped_catalog_notice(key: Seq<u8>) -> Option<NoticeValue> {
    if key == utf8("Metadata"@) {
        Some(
            notice(
                "pdf-xmp-not-merged"@,
                "Document XMP metadata (title, author, and similar fields) described one source file, so it was not carried into the merged PDF."@,
            ),
        )
    } else if key == utf8("StructTreeRoot"@) || key == utf8("MarkInfo"@) {
        Some(
            notice(
                "pdf-tags-not-merged"@,
                "Accessibility tags (the tagged-PDF structure tree) describe one document's reading order and could not be combined, so the merged PDF is untagged. Pages, text, and images are unchanged."@,
            ),
        )
    } else if key == utf8("Perms"@) || key == utf8("Legal"@) || key == utf8("DSS"@) {
        Some(signature_notice())
    } else {
        None
    }
}

/// The statement that signatures could not stay valid in a combined file.
pub open spec fn signature_notice() -> NoticeValue {
    notice(
        "pdf-signature-dropped"@,
        "Digital-signature information was removed: combining PDFs changes the bytes a signature covers, so the signature could not stay valid."@,
    )
}

/// The notice for a catalog entry that cannot be carried over.
pub fn merge_dropped_catalog_notice(key: &[u8]) -> (dropped: Option<Notice>)
    ensures
        match dropped {
            Some(dropped) => dropped_catalog_notice(key@) == Some(dropped@),
            None => dropped_catalog_notice(key@) is None,
        },
{
    if is_text(key, "Metadata") {
        Some(
            Notice::new(
                "pdf-xmp-not-merged",
                "Document XMP metadata (title, author, and similar fields) described one source file, so it was not carried into the merged PDF.",
            ),
        )
    } else if is_text(key, "StructTreeRoot") || is_text(key, "MarkInfo") {
        Some(
            Notice::new(
                "pdf-tags-not-merged",
                "Accessibility tags (the tagged-PDF structure tree) describe one document's reading order and could not be combined, so the merged PDF is untagged. Pages, text, and images are unchanged.",
            ),
        )
    } else if is_text(key, "Perms") || is_text(key, "Legal") || is_text(key, "DSS") {
        Some(new_signature_notice())
    } else {
        None
    }
}

/// The statement that signatures could not stay valid in a combined file.
pub fn new_signature_notice() -> (dropped: Notice)
    ensures
        dropped@ == signature_notice(),
{
    Notice::new(
        "pdf-signature-dropped",
        "Digital-signature information was removed: combining PDFs changes the bytes a signature covers, so the signature could not stay valid.",
    )
}

/// The dictionaries that the catalogs hold under `key`, in order.
pub open spec fn gathered(
    objects: Seq<(PdfId, PdfValue)>,
    catalogs: Seq<Seq<(Seq<u8>, PdfValue)>>,
    key: Seq<char>,
) -> Seq<Seq<(Seq<u8>, PdfValue)>>
    decreases catalogs.len(),
{
    if catalogs.len() == 0 {
        Seq::empty()
    } else {
        let before = gathered(objects, catalogs.drop_last(), key);
        match resolved_dict(objects, dict_get(catalogs.last(), utf8(key))) {
            Some(entries) => before.push(entries),
            None => before,
        }
    }
}

/// The dictionaries that the catalogs hold under `key`, in order.
pub fn gather(
    objects: &Vec<(PdfId, PdfObject)>,
    catalogs: &Vec<PdfDictionary>,
    key: &str,
) -> (found: Vec<PdfDictionary>)
    ensures
        dictionaries_value(found@) == gathered(
            table_value(objects@),
            dictionaries_value(catalogs@),
            key@,
        ),
{
    let ghost table = table_value(objects@);
    let ghost all = dictionaries_value(catalogs@);
    let mut found: Vec<PdfDictionary> = Vec::new();
    assert(dictionaries_value(found@) =~= gathered(table, all.take(0), key@));
    let mut i: usize = 0;
    while i < catalogs.len()
        invariant
            i <= catalogs@.len(),
            table == table_value(objects@),
            all == dictionaries_value(catalogs@),
            dictionaries_value(found@) == gathered(table, all.take(i as int), key@),
        decreases catalogs.len() - i,
    {
        let ghost before = dictionaries_value(found@);
        assert(all.take(i + 1).drop_last() =~= all.take(i as int));
        if let Some(dictionary) = resolve_dictionary(objects, catalogs[i].get(key)) {
            found.push(copy_dictionary(dictionary));
            assert(dictionaries_value(found@) =~= before.push(dictionary@));
        }
        i += 1;
    }
    assert(all.take(all.len() as int) =~= all);
    found
}

/// The keys of a dictionary that are not listed yet, added to the list.
pub open spec fn add_keys(keys: Seq<Seq<u8>>, entries: Seq<(Seq<u8>, PdfValue)>) -> Seq<Seq<u8>>
    decreases entries.len(),
{
    if entries.len() == 0 {
        keys
    } else {
        let before = add_keys(keys, entries.drop_last());
        if before.contains(entries.last().0) {
            before
        } else {
            before.push(entries.last().0)
        }
    }
}

/// The keys of several dictionaries in the order of their first use.
pub open spec fn all_keys(sources: Seq<Seq<(Seq<u8>, PdfValue)>>) -> Seq<Seq<u8>>
    decreases sources.len(),
{
    if sources.len() == 0 {
        Seq::empty()
    } else {
        add_keys(all_keys(sources.drop_last()), sources.last())
    }
}

/// Byte strings by their values.
pub open spec fn keys_value(keys: Seq<Vec<u8>>) -> Seq<Seq<u8>> {
    keys.map_values(|key: Vec<u8>| key@)
}

/// Whether a list holds these bytes.
pub fn contains_key(keys: &Vec<Vec<u8>>, key: &[u8]) -> (found: bool)
    ensures
        found == keys_value(keys@).contains(key@),
{
    let ghost values = keys_value(keys@);
    let mut i: usize = 0;
    while i < keys.len()
        invariant
            i <= keys@.len(),
            values == keys_value(keys@),
            forall|j: int| 0 <= j < i ==> values[j] != key@,
        decreases keys.len() - i,
    {
        if same_bytes(&keys[i], key) {
            assert(values[i as int] == key@);
            return true;
        }
        i += 1;
    }
    false
}

fn push_keys(keys: &mut Vec<Vec<u8>>, dictionary: &PdfDictionary)
    ensures
        keys_value(final(keys)@) == add_keys(keys_value(old(keys)@), dictionary@),
{
    let ghost start = keys_value(keys@);
    let ghost entries = dictionary@;
    let mut i: usize = 0;
    assert(entries.take(0) =~= Seq::empty());
    while i < dictionary.entries.len()
        invariant
            i <= dictionary.entries@.len(),
            entries == dictionary@,
            keys_value(keys@) == add_keys(start, entries.take(i as int)),
        decreases dictionary.entries.len() - i,
    {
        let ghost before = keys_value(keys@);
        let key = &dictionary.entries[i].0;
        assert(entries.take(i + 1).drop_last() =~= entries.take(i as int));
        assert(entries.take(i + 1).last().0 == key@);
        if !contains_key(keys, key) {
            keys.push(copy_bytes(key));
            assert(keys_value(keys@) =~= before.push(key@));
        }
        i += 1;
    }
    assert(entries.take(entries.len() as int) =~= entries);
}

fn list_keys(sources: &Vec<PdfDictionary>) -> (keys: Vec<Vec<u8>>)
    ensures
        keys_value(keys@) == all_keys(dictionaries_value(sources@)),
{
    let ghost all = dictionaries_value(sources@);
    let mut keys: Vec<Vec<u8>> = Vec::new();
    assert(keys_value(keys@) =~= all_keys(all.take(0)));
    let mut i: usize = 0;
    while i < sources.len()
        invariant
            i <= sources@.len(),
            all == dictionaries_value(sources@),
            keys_value(keys@) == all_keys(all.take(i as int)),
        decreases sources.len() - i,
    {
        assert(all.take(i + 1).drop_last() =~= all.take(i as int));
        push_keys(&mut keys, &sources[i]);
        i += 1;
    }
    assert(all.take(all.len() as int) =~= all);
    keys
}

/// Whether a list of pairs holds this key.
pub open spec fn has_pair(pairs: Seq<(Seq<u8>, PdfValue)>, key: Seq<u8>) -> bool {
    exists|i: int| 0 <= i < pairs.len() && (#[trigger] pairs[i]).0 == key
}

/// Whether a list of pairs holds this key.
pub fn contains_pair(pairs: &Vec<(Vec<u8>, PdfObject)>, key: &[u8]) -> (found: bool)
    ensures
        found == has_pair(named_values(pairs@), key@),
{
    let ghost values = named_values(pairs@);
    let mut i: usize = 0;
    while i < pairs.len()
        invariant
            i <= pairs@.len(),
            values == named_values(pairs@),
            forall|j: int| 0 <= j < i ==> (#[trigger] values[j]).0 != key@,
        decreases pairs.len() - i,
    {
        if same_bytes(&pairs[i].0, key) {
            assert(values[i as int].0 == key@);
            return true;
        }
        i += 1;
    }
    false
}

/// The statement that a link name was used twice.
pub open spec fn collision_notice() -> NoticeValue {
    notice(
        "pdf-named-destination-collision"@,
        "Two of these PDFs use the same internal link name, so the later one was left out; links inside that file may not jump anywhere."@,
    )
}

/// The statement that named links could not be combined.
pub open spec fn names_notice() -> NoticeValue {
    notice(
        "pdf-names-not-merged"@,
        "One PDF stores its named links in a form this tool cannot combine, so only the first file's named links were kept."@,
    )
}

/// Named links after one more document's: the first use of a name wins.
pub open spec fn add_links(
    links: Seq<(Seq<u8>, PdfValue)>,
    notices: Seq<NoticeValue>,
    added: Seq<(Seq<u8>, PdfValue)>,
) -> (Seq<(Seq<u8>, PdfValue)>, Seq<NoticeValue>)
    decreases added.len(),
{
    if added.len() == 0 {
        (links, notices)
    } else {
        let (before, told) = add_links(links, notices, added.drop_last());
        if has_pair(before, added.last().0) {
            (before, with_notice(told, collision_notice()))
        } else {
            (before.push(added.last()), told)
        }
    }
}

fn push_links(
    links: &mut Vec<(Vec<u8>, PdfObject)>,
    notices: &mut Vec<Notice>,
    added: &Vec<(Vec<u8>, PdfObject)>,
)
    ensures
        (named_values(final(links)@), notice_values(final(notices)@)) == add_links(
            named_values(old(links)@),
            notice_values(old(notices)@),
            named_values(added@),
        ),
{
    let ghost links0 = named_values(links@);
    let ghost notices0 = notice_values(notices@);
    let ghost all = named_values(added@);
    assert(all.take(0) =~= Seq::empty());
    let mut i: usize = 0;
    while i < added.len()
        invariant
            i <= added@.len(),
            all == named_values(added@),
            (named_values(links@), notice_values(notices@)) == add_links(
                links0,
                notices0,
                all.take(i as int),
            ),
        decreases added.len() - i,
    {
        let ghost before = named_values(links@);
        let pair = &added[i];
        assert(all.take(i + 1).drop_last() =~= all.take(i as int));
        assert(all.take(i + 1).last() == (pair.0@, pair.1@));
        if contains_pair(links, &pair.0) {
            push_notice(
                notices,
                Notice::new(
                    "pdf-named-destination-collision",
                    "Two of these PDFs use the same internal link name, so the later one was left out; links inside that file may not jump anywhere.",
                ),
            );
        } else {
            links.push((copy_bytes(&pair.0), copy_object(&pair.1)));
            assert(named_values(links@) =~= before.push((pair.0@, pair.1@)));
        }
        i += 1;
    }
    assert(all.take(all.len() as int) =~= all);
}

/// The combined links of one name tree, or `None` when some source's tree cannot
/// be read.
pub open spec fn combined_links(
    objects: Seq<(PdfId, PdfValue)>,
    sources: Seq<Seq<(Seq<u8>, PdfValue)>>,
    key: Seq<u8>,
    notices: Seq<NoticeValue>,
) -> (Option<Seq<(Seq<u8>, PdfValue)>>, Seq<NoticeValue>)
    decreases sources.len(),
{
    if sources.len() == 0 {
        (Some(Seq::empty()), notices)
    } else {
        let (before, told) = combined_links(objects, sources.drop_last(), key, notices);
        match (before, dict_get(sources.last(), key)) {
            (None, _) => (None, told),
            (Some(links), None) => (Some(links), told),
            (Some(links), Some(tree)) => match name_tree_pairs(objects, tree, TREE_LEVELS as nat) {
                Some(pairs) => {
                    let (after, told_after) = add_links(links, told, pairs);
                    (Some(after), told_after)
                },
                None => (None, told),
            },
        }
    }
}

proof fn lemma_combined_links_none(
    objects: Seq<(PdfId, PdfValue)>,
    sources: Seq<Seq<(Seq<u8>, PdfValue)>>,
    key: Seq<u8>,
    notices: Seq<NoticeValue>,
    length: int,
)
    requires
        0 <= length <= sources.len(),
        combined_links(objects, sources.take(length), key, notices).0 is None,
    ensures
        combined_links(objects, sources, key, notices) == combined_links(
            objects,
            sources.take(length),
            key,
            notices,
        ),
    decreases sources.len(),
{
    if length == sources.len() {
        assert(sources.take(length) =~= sources);
    } else {
        assert(sources.drop_last().take(length) =~= sources.take(length));
        lemma_combined_links_none(objects, sources.drop_last(), key, notices, length);
    }
}

fn combine_links(
    objects: &Vec<(PdfId, PdfObject)>,
    sources: &Vec<PdfDictionary>,
    key: &[u8],
    notices: &mut Vec<Notice>,
) -> (links: Option<Vec<(Vec<u8>, PdfObject)>>)
    ensures
        ({
            let (combined, told) = combined_links(
                table_value(objects@),
                dictionaries_value(sources@),
                key@,
                notice_values(old(notices)@),
            );
            &&& notice_values(final(notices)@) == told
            &&& match links {
                Some(links) => combined == Some(named_values(links@)),
                None => combined is None,
            }
        }),
{
    let ghost table = table_value(objects@);
    let ghost all = dictionaries_value(sources@);
    let ghost notices0 = notice_values(notices@);
    let mut links: Vec<(Vec<u8>, PdfObject)> = Vec::new();
    assert(all.take(0) =~= Seq::empty());
    assert(named_values(links@) =~= Seq::empty());
    let mut i: usize = 0;
    while i < sources.len()
        invariant
            i <= sources@.len(),
            table == table_value(objects@),
            all == dictionaries_value(sources@),
            notices0 == notice_values(old(notices)@),
            (Some(named_values(links@)), notice_values(notices@)) == combined_links(
                table,
                all.take(i as int),
                key@,
                notices0,
            ),
        decreases sources.len() - i,
    {
        assert(all.take(i + 1).drop_last() =~= all.take(i as int));
        assert(all.take(i + 1).last() == sources@[i as int]@);
        if let Some(tree) = sources[i].get_key(key) {
            let mut flattened: Vec<(Vec<u8>, PdfObject)> = Vec::new();
            assert(named_values(flattened@) =~= Seq::empty());
            if !flatten_name_tree(objects, tree, &mut flattened, TREE_LEVELS) {
                proof {
                    lemma_combined_links_none(table, all, key@, notices0, i + 1);
                }
                return None;
            }
            proof {
                let pairs = name_tree_pairs(table, tree@, TREE_LEVELS as nat)->0;
                assert(named_values(flattened@) =~= pairs);
            }
            push_links(&mut links, notices, &flattened);
        }
        i += 1;
    }
    assert(all.take(all.len() as int) =~= all);
    Some(links)
}

/// The value under `key` of the first source that has it.
pub open spec fn first_with_from(
    sources: Seq<Seq<(Seq<u8>, PdfValue)>>,
    key: Seq<u8>,
    from: int,
) -> Option<PdfValue>
    decreases sources.len() - from,
{
    if from >= sources.len() {
        None
    } else {
        match dict_get(sources[from], key) {
            Some(value) => Some(value),
            None => first_with_from(sources, key, from + 1),
        }
    }
}

fn first_with(sources: &Vec<PdfDictionary>, key: &[u8]) -> (found: Option<PdfObject>)
    ensures
        match found {
            Some(found) => first_with_from(dictionaries_value(sources@), key@, 0) == Some(found@),
            None => first_with_from(dictionaries_value(sources@), key@, 0) is None,
        },
{
    let ghost all = dictionaries_value(sources@);
    let mut i: usize = 0;
    while i < sources.len()
        invariant
            i <= sources@.len(),
            all == dictionaries_value(sources@),
            first_with_from(all, key@, 0) == first_with_from(all, key@, i as int),
        decreases sources.len() - i,
    {
        assert(all[i as int] == sources@[i as int]@);
        if let Some(value) = sources[i].get_key(key) {
            return Some(copy_object(value));
        }
        i += 1;
    }
    None
}

/// The combined `/Names` dictionary for these keys.
pub open spec fn combined_names(
    objects: Seq<(PdfId, PdfValue)>,
    sources: Seq<Seq<(Seq<u8>, PdfValue)>>,
    keys: Seq<Seq<u8>>,
    notices: Seq<NoticeValue>,
) -> (Seq<(Seq<u8>, PdfValue)>, Seq<NoticeValue>)
    decreases keys.len(),
{
    if keys.len() == 0 {
        (Seq::empty(), notices)
    } else {
        let key = keys.last();
        let (before, told) = combined_names(objects, sources, keys.drop_last(), notices);
        let (links, told_links) = combined_links(objects, sources, key, told);
        match (links, first_with_from(sources, key, 0)) {
            (Some(links), _) => (dict_set(before, key, name_tree_value(links)), told_links),
            (None, Some(first)) => (
                dict_set(before, key, first),
                with_notice(told_links, names_notice()),
            ),
            (None, None) => (before, told_links),
        }
    }
}

/// The `/Names` entry of a combined catalog. Each sub-entry (`/Dests`,
/// `/EmbeddedFiles`, `/JavaScript`, …) is a name tree, merged by key with the
/// first document winning a collision.
pub open spec fn merged_names(
    objects: Seq<(PdfId, PdfValue)>,
    catalogs: Seq<Seq<(Seq<u8>, PdfValue)>>,
    notices: Seq<NoticeValue>,
) -> (Option<PdfValue>, Seq<NoticeValue>) {
    let sources = gathered(objects, catalogs, "Names"@);
    if sources.len() == 0 {
        (None, notices)
    } else {
        let (names, told) = combined_names(objects, sources, all_keys(sources), notices);
        if names.len() == 0 {
            (None, told)
        } else {
            (Some(PdfValue::Dictionary(names)), told)
        }
    }
}

/// An optional object by its value.
pub open spec fn optional_value(object: Option<PdfObject>) -> Option<PdfValue> {
    match object {
        Some(object) => Some(object@),
        None => None,
    }
}

/// Combine the `/Names` dictionaries of several documents.
pub fn merge_name_dictionaries(
    objects: &Vec<(PdfId, PdfObject)>,
    catalogs: &Vec<PdfDictionary>,
    notices: &mut Vec<Notice>,
) -> (names: Option<PdfObject>)
    ensures
        (optional_value(names), notice_values(final(notices)@)) == merged_names(
            table_value(objects@),
            dictionaries_value(catalogs@),
            notice_values(old(notices)@),
        ),
{
    let ghost table = table_value(objects@);
    let sources = gather(objects, catalogs, "Names");
    let ghost all = dictionaries_value(sources@);
    if sources.len() == 0 {
        return None;
    }
    let keys = list_keys(&sources);
    let ghost key_values = keys_value(keys@);
    let ghost notices0 = notice_values(notices@);
    let mut merged = PdfDictionary::empty();
    assert(key_values.take(0) =~= Seq::empty());
    let mut i: usize = 0;
    while i < keys.len()
        invariant
            i <= keys@.len(),
            table == table_value(objects@),
            all == dictionaries_value(sources@),
            key_values == keys_value(keys@),
            (merged@, notice_values(notices@)) == combined_names(
                table,
                all,
                key_values.take(i as int),
                notices0,
            ),
        decreases keys.len() - i,
    {
        assert(key_values.take(i + 1).drop_last() =~= key_values.take(i as int));
        assert(key_values.take(i + 1).last() == keys@[i as int]@);
        match combine_links(objects, &sources, &keys[i], notices) {
            Some(links) => {
                merged.set_key(copy_bytes(&keys[i]), name_tree(links));
            },
            None => {
                if let Some(first) = first_with(&sources, &keys[i]) {
                    merged.set_key(copy_bytes(&keys[i]), first);
                    push_notice(
                        notices,
                        Notice::new(
                            "pdf-names-not-merged",
                            "One PDF stores its named links in a form this tool cannot combine, so only the first file's named links were kept.",
                        ),
                    );
                }
            },
        }
        i += 1;
    }
    assert(key_values.take(key_values.len() as int) =~= key_values);
    if merged.entries.len() == 0 {
        None
    } else {
        Some(PdfObject::Dictionary(merged))
    }
}

/// The sum, held at the ends of the 64-bit range.
pub open spec fn clamped_sum(left: i64, right: i64) -> i64 {
    if left + right > i64::MAX {
        i64::MAX
    } else if left + right < i64::MIN {
        i64::MIN
    } else {
        (left + right) as i64
    }
}

/// The sum, held at the ends of the 64-bit range.
pub fn add_clamped(left: i64, right: i64) -> (sum: i64)
    ensures
        sum == clamped_sum(left, right),
{
    if right > 0 && left > i64::MAX - right {
        i64::MAX
    } else if right < 0 && left < i64::MIN - right {
        i64::MIN
    } else {
        left + right
    }
}

/// A page label that numbers pages plainly.
pub open spec fn plain_label() -> PdfValue {
    PdfValue::Dictionary(dict_set(Seq::empty(), utf8("S"@), PdfValue::Name(utf8("D"@))))
}

fn new_plain_label() -> (label: PdfObject)
    ensures
        label@ == plain_label(),
{
    let mut dictionary = PdfDictionary::empty();
    dictionary.set("S", PdfObject::Name(text_bytes("D")));
    PdfObject::Dictionary(dictionary)
}

/// Label ranges moved to where the document's pages landed.
pub open spec fn shifted(pairs: Seq<(i64, PdfValue)>, offset: i64) -> Seq<(i64, PdfValue)> {
    pairs.map_values(|pair: (i64, PdfValue)| (clamped_sum(pair.0, offset), pair.1))
}

/// Whether a label range begins at the first page.
pub open spec fn labels_first_page(pairs: Seq<(i64, PdfValue)>) -> bool {
    exists|i: int| 0 <= i < pairs.len() && (#[trigger] pairs[i]).0 == 0
}

/// The statement that page numbering could not be combined.
pub open spec fn labels_notice() -> NoticeValue {
    notice(
        "pdf-page-labels-not-merged"@,
        "One PDF stores its page numbering in a form this tool cannot combine, so plain numbering was used for its pages."@,
    )
}

/// The label ranges of several documents, each shifted by where its pages
/// landed. Pages without labels of their own get a plain range.
pub open spec fn combined_labels(
    objects: Seq<(PdfId, PdfValue)>,
    catalogs: Seq<Seq<(Seq<u8>, PdfValue)>>,
    offsets: Seq<i64>,
    notices: Seq<NoticeValue>,
) -> (Seq<(i64, PdfValue)>, Seq<NoticeValue>)
    decreases catalogs.len(),
{
    if catalogs.len() == 0 {
        (Seq::empty(), notices)
    } else {
        let (before, told) = combined_labels(objects, catalogs.drop_last(), offsets, notices);
        let offset = offsets[catalogs.len() - 1];
        let plain = before.push((offset, plain_label()));
        match dict_get(catalogs.last(), utf8("PageLabels"@)) {
            None => (plain, told),
            Some(labels) => match number_tree_pairs(objects, labels, TREE_LEVELS as nat) {
                None => (plain, with_notice(told, labels_notice())),
                Some(pairs) => if labels_first_page(pairs) {
                    (before + shifted(pairs, offset), told)
                } else {
                    (plain + shifted(pairs, offset), told)
                },
            },
        }
    }
}

/// The `/PageLabels` entry of a combined catalog.
pub open spec fn merged_labels(
    objects: Seq<(PdfId, PdfValue)>,
    catalogs: Seq<Seq<(Seq<u8>, PdfValue)>>,
    offsets: Seq<i64>,
    notices: Seq<NoticeValue>,
) -> (Option<PdfValue>, Seq<NoticeValue>) {
    if exists|i: int|
        0 <= i < catalogs.len() && dict_has(#[trigger] catalogs[i], utf8("PageLabels"@)) {
        let (labels, told) = combined_labels(objects, catalogs, offsets, notices);
        (Some(number_tree_value(labels)), told)
    } else {
        (None, notices)
    }
}

fn has_first_page_label(pairs: &Vec<(i64, PdfObject)>) -> (found: bool)
    ensures
        found == labels_first_page(numbered_values(pairs@)),
{
    let ghost values = numbered_values(pairs@);
    let mut i: usize = 0;
    while i < pairs.len()
        invariant
            i <= pairs@.len(),
            values == numbered_values(pairs@),
            forall|j: int| 0 <= j < i ==> (#[trigger] values[j]).0 != 0,
        decreases pairs.len() - i,
    {
        if pairs[i].0 == 0 {
            assert(values[i as int].0 == 0);
            return true;
        }
        i += 1;
    }
    false
}

fn push_shifted(
    labels: &mut Vec<(i64, PdfObject)>,
    pairs: &Vec<(i64, PdfObject)>,
    offset: i64,
)
    ensures
        numbered_values(final(labels)@) == numbered_values(old(labels)@) + shifted(
            numbered_values(pairs@),
            offset,
        ),
{
    let ghost start = numbered_values(labels@);
    let ghost all = shifted(numbered_values(pairs@), offset);
    assert(start + all.take(0) =~= start);
    let mut i: usize = 0;
    while i < pairs.len()
        invariant
            i <= pairs@.len(),
            all == shifted(numbered_values(pairs@), offset),
            numbered_values(labels@) == start + all.take(i as int),
        decreases pairs.len() - i,
    {
        let ghost before = numbered_values(labels@);
        labels.push((add_clamped(pairs[i].0, offset), copy_object(&pairs[i].1)));
        assert(numbered_values(labels@) =~= before.push(all[i as int]));
        i += 1;
        assert(numbered_values(labels@) =~= start + all.take(i as int));
    }
    assert(all.take(all.len() as int) =~= all);
}

fn has_any(catalogs: &Vec<PdfDictionary>, key: &str) -> (found: bool)
    ensures
        found == exists|i: int|
            0 <= i < catalogs@.len() && dict_has(
                #[trigger] dictionaries_value(catalogs@)[i],
                utf8(key@),
            ),
{
    let ghost all = dictionaries_value(catalogs@);
    let mut i: usize = 0;
    while i < catalogs.len()
        invariant
            i <= catalogs@.len(),
            all == dictionaries_value(catalogs@),
            forall|j: int| 0 <= j < i ==> !dict_has(#[trigger] all[j], utf8(key@)),
        decreases catalogs.len() - i,
    {
        if catalogs[i].has(key) {
            assert(dict_has(all[i as int], utf8(key@)));
            return true;
        }
        i += 1;
    }
    false
}

/// Combine `/PageLabels` number trees, shifting every source document's page
/// indices by where its pages landed in the merged document. Documents without
/// labels get an explicit plain-decimal range so they do not inherit the
/// previous document's labels.
pub fn merge_page_labels(
    objects: &Vec<(PdfId, PdfObject)>,
    catalogs: &Vec<PdfDictionary>,
    page_offsets: &Vec<i64>,
    notices: &mut Vec<Notice>,
) -> (labels: Option<PdfObject>)
    requires
        catalogs@.len() == page_offsets@.len(),
    ensures
        (optional_value(labels), notice_values(final(notices)@)) == merged_labels(
            table_value(objects@),
            dictionaries_value(catalogs@),
            page_offsets@,
            notice_values(old(notices)@),
        ),
{
    let ghost table = table_value(objects@);
    let ghost all = dictionaries_value(catalogs@);
    if !has_any(catalogs, "PageLabels") {
        return None;
    }
    let ghost notices0 = notice_values(notices@);
    let mut labels: Vec<(i64, PdfObject)> = Vec::new();
    assert(numbered_values(labels@) =~= Seq::empty());
    assert(all.take(0) =~= Seq::empty());
    let mut i: usize = 0;
    while i < catalogs.len()
        invariant
            i <= catalogs@.len(),
            catalogs@.len() == page_offsets@.len(),
            table == table_value(objects@),
            all == dictionaries_value(catalogs@),
            (numbered_values(labels@), notice_values(notices@)) == combined_labels(
                table,
                all.take(i as int),
                page_offsets@,
                notices0,
            ),
        decreases catalogs.len() - i,
    {
        let ghost before = numbered_values(labels@);
        let offset: i64 = page_offsets[i];
        let ghost plain = before.push((offset, plain_label()));
        assert(all.take(i + 1).drop_last() =~= all.take(i as int));
        assert(all.take(i + 1).last() == catalogs@[i as int]@);
        match catalogs[i].get("PageLabels") {
            None => {
                labels.push((offset, new_plain_label()));
                assert(numbered_values(labels@) =~= plain);
            },
            Some(tree) => {
                let mut flattened: Vec<(i64, PdfObject)> = Vec::new();
                assert(numbered_values(flattened@) =~= Seq::empty());
                if flatten_number_tree(objects, tree, &mut flattened, TREE_LEVELS) {
                    proof {
                        let pairs = number_tree_pairs(table, tree@, TREE_LEVELS as nat)->0;
                        assert(numbered_values(flattened@) =~= pairs);
                    }
                    if !has_first_page_label(&flattened) {
                        labels.push((offset, new_plain_label()));
                        assert(numbered_values(labels@) =~= plain);
                    }
                    push_shifted(&mut labels, &flattened, offset);
                } else {
                    push_notice(
                        notices,
                        Notice::new(
                            "pdf-page-labels-not-merged",
                            "One PDF stores its page numbering in a form this tool cannot combine, so plain numbering was used for its pages.",
                        ),
                    );
                    labels.push((offset, new_plain_label()));
                    assert(numbered_values(labels@) =~= plain);
                }
            },
        }
        i += 1;
    }
    assert(all.take(all.len() as int) =~= all);
    Some(number_tree(labels))
}

/// The label range that applies to a page: the one with the highest start that
/// is not behind the page, and the last of several with the same start.
pub open spec fn label_range(entries: Seq<(i64, PdfValue)>, index: i64) -> Option<(i64, PdfValue)>
    decreases entries.len(),
{
    if entries.len() == 0 {
        None
    } else {
        let before = label_range(entries.drop_last(), index);
        let last = entries.last();
        match before {
            Some(best) => if last.0 <= index && best.0 <= last.0 {
                Some(last)
            } else {
                before
            },
            None => if last.0 <= index {
                Some(last)
            } else {
                None
            },
        }
    }
}

/// The page-label dictionary that applies to a zero-based page index, with `/St`
/// rewritten so the label keeps the number it had in the source file.
pub open spec fn label_for_index(entries: Seq<(i64, PdfValue)>, index: i64) -> Option<PdfValue> {
    match label_range(entries, index) {
        Some((start, PdfValue::Dictionary(template))) => {
            let first = match integer_at(template, "St"@) {
                Some(first) => first,
                None => 1i64,
            };
            let ahead = if index - start > i64::MAX {
                i64::MAX
            } else {
                (index - start) as i64
            };
            Some(
                PdfValue::Dictionary(
                    dict_set(
                        template,
                        utf8("St"@),
                        PdfValue::Integer(clamped_sum(first, ahead)),
                    ),
                ),
            )
        },
        _ => None,
    }
}

/// Resolve the page-label dictionary that applies to a zero-based page index,
/// rewriting `/St` so the label keeps the number it had in the source file.
pub fn page_label_for_index(entries: &Vec<(i64, PdfObject)>, index: i64) -> (label: Option<
    PdfObject,
>)
    ensures
        optional_value(label) == label_for_index(numbered_values(entries@), index),
{
    let ghost values = numbered_values(entries@);
    let mut best: Option<usize> = None;
    assert(values.take(0) =~= Seq::empty());
    let mut i: usize = 0;
    while i < entries.len()
        invariant
            i <= entries@.len(),
            values == numbered_values(entries@),
            match best {
                Some(at) => at < i && values[at as int].0 <= index && label_range(
                    values.take(i as int),
                    index,
                ) == Some(values[at as int]),
                None => label_range(values.take(i as int), index) is None,
            },
        decreases entries.len() - i,
    {
        assert(values.take(i + 1).drop_last() =~= values.take(i as int));
        assert(values.take(i + 1).last() == values[i as int]);
        let start: i64 = entries[i].0;
        if start <= index {
            match best {
                Some(at) => {
                    if entries[at].0 <= start {
                        best = Some(i);
                    }
                },
                None => {
                    best = Some(i);
                },
            }
        }
        i += 1;
    }
    assert(values.take(values.len() as int) =~= values);
    match best {
        Some(at) => {
            let start: i64 = entries[at].0;
            match &entries[at].1 {
                PdfObject::Dictionary(template) => {
                    let first: i64 = match template.integer("St") {
                        Some(first) => first,
                        None => 1,
                    };
                    let ahead: i64 = if start < 0 && index > i64::MAX + start {
                        i64::MAX
                    } else {
                        index - start
                    };
                    let mut label = copy_dictionary(template);
                    label.set("St", PdfObject::Integer(add_clamped(first, ahead)));
                    Some(PdfObject::Dictionary(label))
                },
                _ => None,
            }
        },
        None => None,
    }
}

} // verus!
