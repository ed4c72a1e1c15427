//! What the catalog of a combined document holds.

use vstd::prelude::*;

use crate::bytes::{bytes_less, lemma_ascii, utf8};
use crate::notices::{has_code, with_notice, NoticeValue};
use crate::pdf::catalog::{dropped_catalog_notice, has_pair, merged_labels, merged_names};
use crate::pdf::forms::{merged_forms, merged_layers};
use crate::pdf::laws::{keys_distinct, lemma_last_entry, storing_a_value};
use crate::pdf::merge::{
    all_carried_over, bare_catalog, carried_over, catalog_entries, catalog_id, latest_version,
    loaded_all, merged_document, merged_files, page_tree, tree_id, with_entries, with_optional, MergeState,
};
use crate::pdf::model::{
    dict_get, dict_index, dict_set, lemma_dict_index_from, object_of, put_object, PdfDocumentValue,
    PdfId, PdfValue,
};
use crate::pdf::outlines::merged_outlines;
use crate::pdf::page_laws::storing_an_object;
use crate::pdf::pages::loaded_pdf;
use crate::pdf::rearrange_laws::root_of;

verus! {

proof fn lemma_catalog_keys()
    ensures
        utf8("Type"@) != utf8("Pages"@),
        utf8("Type"@) != utf8("Outlines"@),
        utf8("Type"@) != utf8("Names"@),
        utf8("Type"@) != utf8("PageLabels"@),
        utf8("Type"@) != utf8("AcroForm"@),
        utf8("Type"@) != utf8("OCProperties"@),
        utf8("Type"@) != utf8("Metadata"@),
        utf8("Type"@) != utf8("StructTreeRoot"@),
        utf8("Type"@) != utf8("MarkInfo"@),
        utf8("Type"@) != utf8("Perms"@),
        utf8("Type"@) != utf8("Legal"@),
        utf8("Type"@) != utf8("DSS"@),
        utf8("Pages"@) != utf8("Outlines"@),
        utf8("Pages"@) != utf8("Names"@),
        utf8("Pages"@) != utf8("PageLabels"@),
        utf8("Pages"@) != utf8("AcroForm"@),
        utf8("Pages"@) != utf8("OCProperties"@),
        utf8("Pages"@) != utf8("Metadata"@),
        utf8("Pages"@) != utf8("StructTreeRoot"@),
        utf8("Pages"@) != utf8("MarkInfo"@),
        utf8("Pages"@) != utf8("Perms"@),
        utf8("Pages"@) != utf8("Legal"@),
        utf8("Pages"@) != utf8("DSS"@),
        utf8("Outlines"@) != utf8("Names"@),
        utf8("Outlines"@) != utf8("PageLabels"@),
        utf8("Outlines"@) != utf8("AcroForm"@),
        utf8("Outlines"@) != utf8("OCProperties"@),
        utf8("Outlines"@) != utf8("Metadata"@),
        utf8("Outlines"@) != utf8("StructTreeRoot"@),
        utf8("Outlines"@) != utf8("MarkInfo"@),
        utf8("Outlines"@) != utf8("Perms"@),
        utf8("Outlines"@) != utf8("Legal"@),
        utf8("Outlines"@) != utf8("DSS"@),
        utf8("Names"@) != utf8("PageLabels"@),
        utf8("Names"@) != utf8("AcroForm"@),
        utf8("Names"@) != utf8("OCProperties"@),
        utf8("Names"@) != utf8("Metadata"@),
        utf8("Names"@) != utf8("StructTreeRoot"@),
        utf8("Names"@) != utf8("MarkInfo"@),
        utf8("Names"@) != utf8("Perms"@),
        utf8("Names"@) != utf8("Legal"@),
        utf8("Names"@) != utf8("DSS"@),
        utf8("PageLabels"@) != utf8("AcroForm"@),
        utf8("PageLabels"@) != utf8("OCProperties"@),
        utf8("PageLabels"@) != utf8("Metadata"@),
        utf8("PageLabels"@) != utf8("StructTreeRoot"@),
        utf8("PageLabels"@) != utf8("MarkInfo"@),
        utf8("PageLabels"@) != utf8("Perms"@),
        utf8("PageLabels"@) != utf8("Legal"@),
        utf8("PageLabels"@) != utf8("DSS"@),
        utf8("AcroForm"@) != utf8("OCProperties"@),
        utf8("AcroForm"@) != utf8("Metadata"@),
        utf8("AcroForm"@) != utf8("StructTreeRoot"@),
        utf8("AcroForm"@) != utf8("MarkInfo"@),
        utf8("AcroForm"@) != utf8("Perms"@),
        utf8("AcroForm"@) != utf8("Legal"@),
        utf8("AcroForm"@) != utf8("DSS"@),
        utf8("OCProperties"@) != utf8("Metadata"@),
        utf8("OCProperties"@) != utf8("StructTreeRoot"@),
        utf8("OCProperties"@) != utf8("MarkInfo"@),
        utf8("OCProperties"@) != utf8("Perms"@),
        utf8("OCProperties"@) != utf8("Legal"@),
        utf8("OCProperties"@) != utf8("DSS"@),
        utf8("Metadata"@) != utf8("StructTreeRoot"@),
        utf8("Metadata"@) != utf8("MarkInfo"@),
        utf8("Metadata"@) != utf8("Perms"@),
        utf8("Metadata"@) != utf8("Legal"@),
        utf8("Metadata"@) != utf8("DSS"@),
        utf8("StructTreeRoot"@) != utf8("MarkInfo"@),
        utf8("StructTreeRoot"@) != utf8("Perms"@),
        utf8("StructTreeRoot"@) != utf8("Legal"@),
        utf8("StructTreeRoot"@) != utf8("DSS"@),
        utf8("MarkInfo"@) != utf8("Perms"@),
        utf8("MarkInfo"@) != utf8("Legal"@),
        utf8("MarkInfo"@) != utf8("DSS"@),
        utf8("Perms"@) != utf8("Legal"@),
        utf8("Perms"@) != utf8("DSS"@),
        utf8("Legal"@) != utf8("DSS"@),
{
    reveal_strlit("Type");
    reveal_strlit("Pages");
    reveal_strlit("Outlines");
    reveal_strlit("Names");
    reveal_strlit("PageLabels");
    reveal_strlit("AcroForm");
    reveal_strlit("OCProperties");
    reveal_strlit("Metadata");
    reveal_strlit("StructTreeRoot");
    reveal_strlit("MarkInfo");
    reveal_strlit("Perms");
    reveal_strlit("Legal");
    reveal_strlit("DSS");
    lemma_ascii("Type");
    lemma_ascii("Pages");
    lemma_ascii("Outlines");
    lemma_ascii("Names");
    lemma_ascii("PageLabels");
    lemma_ascii("AcroForm");
    lemma_ascii("OCProperties");
    lemma_ascii("Metadata");
    lemma_ascii("StructTreeRoot");
    lemma_ascii("MarkInfo");
    lemma_ascii("Perms");
    lemma_ascii("Legal");
    lemma_ascii("DSS");
    assert(utf8("Type"@).len() == 4);
    assert(utf8("Pages"@).len() == 5);
    assert(utf8("Outlines"@).len() == 8);
    assert(utf8("Names"@).len() == 5);
    assert(utf8("PageLabels"@).len() == 10);
    assert(utf8("AcroForm"@).len() == 8);
    assert(utf8("OCProperties"@).len() == 12);
    assert(utf8("Metadata"@).len() == 8);
    assert(utf8("StructTreeRoot"@).len() == 14);
    assert(utf8("MarkInfo"@).len() == 8);
    assert(utf8("Perms"@).len() == 5);
    assert(utf8("Legal"@).len() == 5);
    assert(utf8("DSS"@).len() == 3);
    assert(utf8("AcroForm"@)[0] == 0x41);
    assert(utf8("Legal"@)[0] == 0x4c);
    assert(utf8("MarkInfo"@)[0] == 0x4d);
    assert(utf8("MarkInfo"@)[1] == 0x61);
    assert(utf8("Metadata"@)[0] == 0x4d);
    assert(utf8("Metadata"@)[1] == 0x65);
    assert(utf8("Names"@)[0] == 0x4e);
    assert(utf8("Outlines"@)[0] == 0x4f);
    assert(utf8("Pages"@)[0] == 0x50);
    assert(utf8("Pages"@)[1] == 0x61);
    assert(utf8("Perms"@)[0] == 0x50);
    assert(utf8("Perms"@)[1] == 0x65);
}

proof fn lemma_catalog_codes()
    ensures
        "pdf-xmp-not-merged"@ != "pdf-tags-not-merged"@,
        "pdf-xmp-not-merged"@ != "pdf-signature-dropped"@,
        "pdf-tags-not-merged"@ != "pdf-signature-dropped"@,
{
    reveal_strlit("pdf-xmp-not-merged");
    reveal_strlit("pdf-tags-not-merged");
    reveal_strlit("pdf-signature-dropped");
    assert("pdf-xmp-not-merged"@.len() == 18);
    assert("pdf-tags-not-merged"@.len() == 19);
    assert("pdf-signature-dropped"@.len() == 21);
}

/// Whether an entry describes one document and has no meaning in a combined one.
pub open spec fn describes_one_document(key: Seq<u8>) -> bool {
    ||| key == utf8("Metadata"@)
    ||| key == utf8("StructTreeRoot"@)
    ||| key == utf8("MarkInfo"@)
    ||| key == utf8("Perms"@)
    ||| key == utf8("Legal"@)
    ||| key == utf8("DSS"@)
}

/// Whether an entry of a combined catalog is made from those of all documents.
pub open spec fn is_made_anew(key: Seq<u8>) -> bool {
    ||| key == utf8("Type"@)
    ||| key == utf8("Pages"@)
    ||| key == utf8("Outlines"@)
    ||| key == utf8("Names"@)
    ||| key == utf8("PageLabels"@)
    ||| key == utf8("AcroForm"@)
    ||| key == utf8("OCProperties"@)
}

proof fn lemma_told(notices: Seq<NoticeValue>, added: NoticeValue, code: Seq<char>)
    ensures
        has_code(with_notice(notices, added), code) == (has_code(notices, code) || added.code
            == code),
{
    let all = notices.push(added);
    if has_code(notices, code) {
        let i = choose|i: int| 0 <= i < notices.len() && (#[trigger] notices[i]).code == code;
        assert(all[i].code == code);
    }
    if has_code(all, code) && added.code != code {
        let i = choose|i: int| 0 <= i < all.len() && (#[trigger] all[i]).code == code;
        assert(notices[i].code == code);
    }
    assert(all[notices.len() as int] == added);
}

proof fn lemma_front(entries: Seq<(Seq<u8>, PdfValue)>, key: Seq<u8>)
    requires
        entries.len() > 0,
    ensures
        dict_get(entries, key) == (if dict_get(entries.drop_last(), key) is Some {
            dict_get(entries.drop_last(), key)
        } else if entries.last().0 == key {
            Some(entries.last().1)
        } else {
            None
        }),
{
    let shorter = entries.drop_last();
    lemma_dict_index_from(entries, key, 0);
    lemma_dict_index_from(shorter, key, 0);
    assert(entries[entries.len() - 1] == entries.last());
    if let Some(i) = dict_index(shorter, key) {
        assert(entries[i] == shorter[i]);
        assert(dict_index(entries, key) is Some);
        let k = dict_index(entries, key)->0;
        if k < i {
            assert(shorter[k] == entries[k]);
        }
        if i < k {
            assert(entries[i].0 != key);
        }
    }
    if let Some(k) = dict_index(entries, key) {
        if k < shorter.len() {
            assert(shorter[k] == entries[k]);
        }
    }
}

proof fn lemma_has(entries: Seq<(Seq<u8>, PdfValue)>, key: Seq<u8>)
    ensures
        has_pair(entries, key) == dict_get(entries, key) is Some,
{
    lemma_dict_index_from(entries, key, 0);
    if has_pair(entries, key) {
        let i = choose|i: int| 0 <= i < entries.len() && (#[trigger] entries[i]).0 == key;
        assert(entries[i].0 == key);
    }
    if let Some(i) = dict_index(entries, key) {
        assert(entries[i].0 == key);
    }
}

proof fn lemma_grown(
    entries: Seq<(Seq<u8>, PdfValue)>,
    key: Seq<u8>,
    value: PdfValue,
    other: Seq<u8>,
)
    requires
        keys_distinct(entries),
        dict_get(entries, key) is None,
    ensures
        keys_distinct(entries.push((key, value))),
        dict_get(entries.push((key, value)), other) == (if other == key {
            Some(value)
        } else {
            dict_get(entries, other)
        }),
{
    let grown = entries.push((key, value));
    lemma_has(entries, key);
    assert forall|i: int, j: int| 0 <= i < j < grown.len() implies (#[trigger] grown[i]).0 != (
    #[trigger] grown[j]).0 by {
        assert(grown[i] == entries[i]);
        if j < entries.len() {
            assert(grown[j] == entries[j]);
        }
    }
    assert(grown.drop_last() =~= entries);
    lemma_last_entry(grown, other);
}

/// Whether none of these entries describes one document.
spec fn describe_all(entries: Seq<(Seq<u8>, PdfValue)>) -> bool {
    forall|key: Seq<u8>| describes_one_document(key) ==> #[trigger] dict_get(entries, key) is None
}

/// Whether a catalog has one of the entries that a notice is about.
pub open spec fn is_told_by(catalog: Seq<(Seq<u8>, PdfValue)>, code: Seq<char>) -> bool {
    ||| code == "pdf-xmp-not-merged"@ && dict_get(catalog, utf8("Metadata"@)) is Some
    ||| code == "pdf-tags-not-merged"@ && (dict_get(catalog, utf8("StructTreeRoot"@)) is Some
        || dict_get(catalog, utf8("MarkInfo"@)) is Some)
    ||| code == "pdf-signature-dropped"@ && (dict_get(catalog, utf8("Perms"@)) is Some || dict_get(
        catalog,
        utf8("Legal"@),
    ) is Some || dict_get(catalog, utf8("DSS"@)) is Some)
}

proof fn lemma_carried(
    entries: Seq<(Seq<u8>, PdfValue)>,
    notices: Seq<NoticeValue>,
    catalog: Seq<(Seq<u8>, PdfValue)>,
    key: Seq<u8>,
    code: Seq<char>,
)
    requires
        keys_distinct(entries),
        describe_all(entries),
    ensures
        ({
            let (after, told) = carried_over(entries, notices, catalog);
            &&& keys_distinct(after)
            &&& describe_all(after)
            &&& dict_get(after, key) == (if dict_get(entries, key) is Some {
                dict_get(entries, key)
            } else if is_made_anew(key) || describes_one_document(key) {
                None
            } else {
                dict_get(catalog, key)
            })
            &&& has_code(told, code) == (has_code(notices, code) || is_told_by(catalog, code))
        }),
    decreases catalog.len(),
{
    lemma_catalog_keys();
    lemma_catalog_codes();
    if catalog.len() == 0 {
        lemma_dict_index_from(catalog, key, 0);
        assert forall|any: Seq<u8>| #[trigger] dict_get(catalog, any) is None by {
            lemma_dict_index_from(catalog, any, 0);
        }
    } else {
        let shorter = catalog.drop_last();
        let (before, told) = carried_over(entries, notices, shorter);
        let (own, value) = catalog.last();
        lemma_carried(entries, notices, shorter, key, code);
        lemma_carried(entries, notices, shorter, own, code);
        lemma_has(before, own);
        lemma_front(catalog, key);
        lemma_told_by(catalog, code);
        if !is_made_anew(own) && dict_get(before, own) is None {
            if describes_one_document(own) {
                let dropped = dropped_catalog_notice(own)->0;
                lemma_told(told, dropped, code);
            } else {
                lemma_grown(before, own, value, key);
                let after = before.push((own, value));
                assert forall|any: Seq<u8>| describes_one_document(any) implies #[trigger] dict_get(
                    after,
                    any,
                ) is None by {
                    lemma_grown(before, own, value, any);
                }
            }
        } else if describes_one_document(own) {
            assert(dict_get(before, own) is None);
            assert(false);
        }
    }
}

proof fn lemma_told_by(catalog: Seq<(Seq<u8>, PdfValue)>, code: Seq<char>)
    requires
        catalog.len() > 0,
    ensures
        is_told_by(catalog, code) == (is_told_by(catalog.drop_last(), code) || {
            let own = catalog.last().0;
            ||| code == "pdf-xmp-not-merged"@ && own == utf8("Metadata"@)
            ||| code == "pdf-tags-not-merged"@ && (own == utf8("StructTreeRoot"@) || own == utf8(
                "MarkInfo"@,
            ))
            ||| code == "pdf-signature-dropped"@ && (own == utf8("Perms"@) || own == utf8("Legal"@)
                || own == utf8("DSS"@))
        }),
{
    lemma_front(catalog, utf8("Metadata"@));
    lemma_front(catalog, utf8("StructTreeRoot"@));
    lemma_front(catalog, utf8("MarkInfo"@));
    lemma_front(catalog, utf8("Perms"@));
    lemma_front(catalog, utf8("Legal"@));
    lemma_front(catalog, utf8("DSS"@));
}

proof fn lemma_all_carried(
    entries: Seq<(Seq<u8>, PdfValue)>,
    notices: Seq<NoticeValue>,
    catalogs: Seq<Seq<(Seq<u8>, PdfValue)>>,
    key: Seq<u8>,
    code: Seq<char>,
    j: int,
)
    requires
        keys_distinct(entries),
        describe_all(entries),
        0 <= j <= catalogs.len(),
        forall|i: int| 0 <= i < j ==> dict_get(#[trigger] catalogs[i], key) is None,
        j < catalogs.len() ==> dict_get(catalogs[j], key) is Some,
    ensures
        ({
            let (after, told) = all_carried_over(entries, notices, catalogs);
            &&& keys_distinct(after)
            &&& describe_all(after)
            &&& dict_get(after, key) == (if dict_get(entries, key) is Some {
                dict_get(entries, key)
            } else if is_made_anew(key) || describes_one_document(key) || j == catalogs.len() {
                None
            } else {
                dict_get(catalogs[j], key)
            })
            &&& has_code(told, code) == (has_code(notices, code) || exists|i: int|
                0 <= i < catalogs.len() && is_told_by(#[trigger] catalogs[i], code))
        }),
    decreases catalogs.len(),
{
    if catalogs.len() > 0 {
        let shorter = catalogs.drop_last();
        let last = catalogs.len() - 1;
        let first = if j <= last {
            j
        } else {
            last
        };
        assert forall|i: int| 0 <= i < first implies dict_get(#[trigger] shorter[i], key)
            is None by {
            assert(shorter[i] == catalogs[i]);
        }
        lemma_all_carried(entries, notices, shorter, key, code, first);
        let (before, told) = all_carried_over(entries, notices, shorter);
        lemma_carried(before, told, catalogs.last(), key, code);
        assert(catalogs[last] == catalogs.last());
        if exists|i: int| 0 <= i < catalogs.len() && is_told_by(#[trigger] catalogs[i], code) {
            let i = choose|i: int| 0 <= i < catalogs.len() && is_told_by(#[trigger] catalogs[i], code);
            if i < last {
                assert(shorter[i] == catalogs[i]);
            }
        }
        if exists|i: int| 0 <= i < shorter.len() && is_told_by(#[trigger] shorter[i], code) {
            let i = choose|i: int| 0 <= i < shorter.len() && is_told_by(#[trigger] shorter[i], code);
            assert(catalogs[i] == shorter[i]);
        }
    }
}

proof fn lemma_optional(
    entries: Seq<(Seq<u8>, PdfValue)>,
    key: Seq<char>,
    value: Option<PdfValue>,
)
    requires
        keys_distinct(entries),
        dict_get(entries, utf8(key)) is None,
    ensures
        keys_distinct(with_optional(entries, key, value)),
        forall|other: Seq<u8>| #[trigger]
            dict_get(with_optional(entries, key, value), other) == (if other == utf8(key) {
                value
            } else {
                dict_get(entries, other)
            }),
{
    if let Some(value) = value {
        assert forall|other: Seq<u8>| #[trigger]
            dict_get(entries.push((utf8(key), value)), other) == (if other == utf8(key) {
                Some(value)
            } else {
                dict_get(entries, other)
            }) by {
            lemma_grown(entries, utf8(key), value, other);
        }
        lemma_grown(entries, utf8(key), value, utf8(key));
    }
}

proof fn lemma_with_entries(
    dictionary: Seq<(Seq<u8>, PdfValue)>,
    entries: Seq<(Seq<u8>, PdfValue)>,
    key: Seq<u8>,
)
    requires
        keys_distinct(entries),
    ensures
        dict_get(with_entries(dictionary, entries), key) == (if dict_get(entries, key) is Some {
            dict_get(entries, key)
        } else {
            dict_get(dictionary, key)
        }),
    decreases entries.len(),
{
    if entries.len() == 0 {
        lemma_dict_index_from(entries, key, 0);
    } else {
        lemma_last_entry(entries, key);
        lemma_with_entries(dictionary, entries.drop_last(), key);
        storing_a_value(
            with_entries(dictionary, entries.drop_last()),
            entries.last().0,
            entries.last().1,
            key,
        );
    }
}

proof fn lemma_bare(key: Seq<u8>)
    ensures
        dict_get(bare_catalog(), key) == (if key == utf8("Type"@) {
            Some(PdfValue::Name(utf8("Catalog"@)))
        } else if key == utf8("Pages"@) {
            Some(PdfValue::Reference(tree_id()))
        } else {
            None
        }),
{
    lemma_catalog_keys();
    let none = Seq::<(Seq<u8>, PdfValue)>::empty();
    let kind = PdfValue::Name(utf8("Catalog"@));
    storing_a_value(none, utf8("Type"@), kind, key);
    let typed = dict_set(none, utf8("Type"@), kind);
    storing_a_value(typed, utf8("Pages"@), PdfValue::Reference(tree_id()), key);
    assert(dict_get(none, key) is None);
}

/// The catalog of a combined document names the combined bookmarks, named entries, page
/// labels, form and layers, each under its own key. An entry that describes one document alone
/// is not there. Any other entry is there if a document has it, as the first such document
/// gives it. The rest of the table is that which the bookmarks were joined in.
#[verifier::spinoff_prover]
#[verifier::rlimit(60)]
pub proof fn merged_catalog_is_complete(
    documents: Seq<PdfDocumentValue>,
    state: MergeState,
    key: Seq<u8>,
    id: PdfId,
    j: int,
)
    requires
        0 <= j <= state.catalogs.len(),
        forall|i: int| 0 <= i < j ==> dict_get(#[trigger] state.catalogs[i], key) is None,
        j < state.catalogs.len() ==> dict_get(state.catalogs[j], key) is Some,
    ensures
        ({
            let document = merged_document(documents, state).0;
            let catalogs = state.catalogs;
            let with_tree = put_object(state.objects, (1u32, 0u16), page_tree(state.pages));
            let (outlines, table, highest, told) = merged_outlines(
                with_tree,
                (state.next_id - 1) as u32,
                catalogs,
                Seq::empty(),
            );
            let (names, told_names) = merged_names(table, catalogs, told);
            let (labels, told_labels) = merged_labels(table, catalogs, state.offsets, told_names);
            let form = merged_forms(table, catalogs, told_labels).0;
            &&& document.max_id == highest
            &&& id != (2u32, 0u16) ==> object_of(document.objects, id) == object_of(table, id)
            &&& root_of(document) matches Some(root) && {
                &&& dict_get(root, utf8("Type"@)) == Some(PdfValue::Name(utf8("Catalog"@)))
                &&& dict_get(root, utf8("Pages"@)) == Some(PdfValue::Reference((1u32, 0u16)))
                &&& dict_get(root, utf8("Outlines"@)) == outlines
                &&& dict_get(root, utf8("Names"@)) == names
                &&& dict_get(root, utf8("PageLabels"@)) == labels
                &&& dict_get(root, utf8("AcroForm"@)) == form
                &&& dict_get(root, utf8("OCProperties"@)) == merged_layers(table, catalogs)
                &&& describes_one_document(key) ==> dict_get(root, key) is None
                &&& !describes_one_document(key) && !is_made_anew(key) ==> dict_get(root, key) == (
                if j < catalogs.len() {
                    dict_get(catalogs[j], key)
                } else {
                    None
                })
            }
        }),
{
    let with_tree = put_object(state.objects, (1u32, 0u16), page_tree(state.pages));
    let highest = (state.next_id - 1) as u32;
    lemma_catalog_keys();
    lemma_written_root(documents, state, id);
    lemma_root_entry(with_tree, highest, state.catalogs, state.offsets, key, j);
    lemma_made_entries(with_tree, highest, state.catalogs, state.offsets);
}

#[verifier::spinoff_prover]
#[verifier::rlimit(60)]
proof fn lemma_written_root(documents: Seq<PdfDocumentValue>, state: MergeState, id: PdfId)
    ensures
        ({
            let document = merged_document(documents, state).0;
            let with_tree = put_object(state.objects, (1u32, 0u16), page_tree(state.pages));
            let highest = (state.next_id - 1) as u32;
            let outlines = merged_outlines(with_tree, highest, state.catalogs, Seq::empty());
            let made = catalog_entries(with_tree, highest, state.catalogs, state.offsets);
            &&& root_of(document) == Some(with_entries(bare_catalog(), made.entries))
            &&& document.max_id == outlines.2
            &&& id != (2u32, 0u16) ==> object_of(document.objects, id) == object_of(outlines.1, id)
        }),
{
    let document = merged_document(documents, state).0;
    let with_tree = put_object(state.objects, (1u32, 0u16), page_tree(state.pages));
    let highest = (state.next_id - 1) as u32;
    let made = catalog_entries(with_tree, highest, state.catalogs, state.offsets);
    let root = with_entries(bare_catalog(), made.entries);
    storing_an_object(made.objects, catalog_id(), PdfValue::Dictionary(root), id);
    let none = Seq::<(Seq<u8>, PdfValue)>::empty();
    storing_a_value(none, utf8("Root"@), PdfValue::Reference(catalog_id()), utf8("Root"@));
    assert(document.objects == put_object(made.objects, catalog_id(), PdfValue::Dictionary(root)));
}

proof fn lemma_made_entries(
    objects: Seq<(PdfId, PdfValue)>,
    max_id: u32,
    catalogs: Seq<Seq<(Seq<u8>, PdfValue)>>,
    offsets: Seq<i64>,
)
    ensures
        ({
            let root = with_entries(
                bare_catalog(),
                catalog_entries(objects, max_id, catalogs, offsets).entries,
            );
            let (outlines, table, highest, told) = merged_outlines(
                objects,
                max_id,
                catalogs,
                Seq::empty(),
            );
            let (names, told_names) = merged_names(table, catalogs, told);
            let (labels, told_labels) = merged_labels(table, catalogs, offsets, told_names);
            let form = merged_forms(table, catalogs, told_labels).0;
            &&& dict_get(root, utf8("Type"@)) == Some(PdfValue::Name(utf8("Catalog"@)))
            &&& dict_get(root, utf8("Pages"@)) == Some(PdfValue::Reference((1u32, 0u16)))
            &&& dict_get(root, utf8("Outlines"@)) == outlines
            &&& dict_get(root, utf8("Names"@)) == names
            &&& dict_get(root, utf8("PageLabels"@)) == labels
            &&& dict_get(root, utf8("AcroForm"@)) == form
            &&& dict_get(root, utf8("OCProperties"@)) == merged_layers(table, catalogs)
        }),
{
    lemma_catalog_keys();
    lemma_first_with(catalogs, utf8("Type"@));
    lemma_root_entry(objects, max_id, catalogs, offsets, utf8("Type"@), first_with(
        catalogs,
        utf8("Type"@),
    ));
    lemma_first_with(catalogs, utf8("Pages"@));
    lemma_root_entry(objects, max_id, catalogs, offsets, utf8("Pages"@), first_with(
        catalogs,
        utf8("Pages"@),
    ));
    lemma_first_with(catalogs, utf8("Outlines"@));
    lemma_root_entry(objects, max_id, catalogs, offsets, utf8("Outlines"@), first_with(
        catalogs,
        utf8("Outlines"@),
    ));
    lemma_first_with(catalogs, utf8("Names"@));
    lemma_root_entry(objects, max_id, catalogs, offsets, utf8("Names"@), first_with(
        catalogs,
        utf8("Names"@),
    ));
    lemma_first_with(catalogs, utf8("PageLabels"@));
    lemma_root_entry(objects, max_id, catalogs, offsets, utf8("PageLabels"@), first_with(
        catalogs,
        utf8("PageLabels"@),
    ));
    lemma_first_with(catalogs, utf8("AcroForm"@));
    lemma_root_entry(objects, max_id, catalogs, offsets, utf8("AcroForm"@), first_with(
        catalogs,
        utf8("AcroForm"@),
    ));
    lemma_first_with(catalogs, utf8("OCProperties"@));
    lemma_root_entry(objects, max_id, catalogs, offsets, utf8("OCProperties"@), first_with(
        catalogs,
        utf8("OCProperties"@),
    ));
}

spec fn first_with(catalogs: Seq<Seq<(Seq<u8>, PdfValue)>>, key: Seq<u8>) -> int
    decreases catalogs.len(),
{
    if catalogs.len() == 0 {
        0
    } else if dict_get(catalogs[0], key) is Some {
        0
    } else {
        1 + first_with(catalogs.skip(1), key)
    }
}

proof fn lemma_first_with(catalogs: Seq<Seq<(Seq<u8>, PdfValue)>>, key: Seq<u8>)
    ensures
        0 <= first_with(catalogs, key) <= catalogs.len(),
        forall|i: int|
            0 <= i < first_with(catalogs, key) ==> dict_get(#[trigger] catalogs[i], key) is None,
        first_with(catalogs, key) < catalogs.len() ==> dict_get(
            catalogs[first_with(catalogs, key)],
            key,
        ) is Some,
    decreases catalogs.len(),
{
    if catalogs.len() > 0 && dict_get(catalogs[0], key) is None {
        let rest = catalogs.skip(1);
        lemma_first_with(rest, key);
        assert forall|i: int| 0 <= i < first_with(catalogs, key) implies dict_get(
            #[trigger] catalogs[i],
            key,
        ) is None by {
            if i > 0 {
                assert(rest[i - 1] == catalogs[i]);
            }
        }
    }
}

proof fn lemma_root_entry(
    objects: Seq<(PdfId, PdfValue)>,
    max_id: u32,
    catalogs: Seq<Seq<(Seq<u8>, PdfValue)>>,
    offsets: Seq<i64>,
    key: Seq<u8>,
    j: int,
)
    requires
        0 <= j <= catalogs.len(),
        forall|i: int| 0 <= i < j ==> dict_get(#[trigger] catalogs[i], key) is None,
        j < catalogs.len() ==> dict_get(catalogs[j], key) is Some,
    ensures
        ({
            let root = with_entries(
                bare_catalog(),
                catalog_entries(objects, max_id, catalogs, offsets).entries,
            );
            let (outlines, table, highest, told) = merged_outlines(
                objects,
                max_id,
                catalogs,
                Seq::empty(),
            );
            let (names, told_names) = merged_names(table, catalogs, told);
            let (labels, told_labels) = merged_labels(table, catalogs, offsets, told_names);
            let form = merged_forms(table, catalogs, told_labels).0;
            dict_get(root, key) == (if key == utf8("Outlines"@) {
                outlines
            } else if key == utf8("Names"@) {
                names
            } else if key == utf8("PageLabels"@) {
                labels
            } else if key == utf8("AcroForm"@) {
                form
            } else if key == utf8("OCProperties"@) {
                merged_layers(table, catalogs)
            } else if key == utf8("Type"@) {
                Some(PdfValue::Name(utf8("Catalog"@)))
            } else if key == utf8("Pages"@) {
                Some(PdfValue::Reference((1u32, 0u16)))
            } else if describes_one_document(key) || j == catalogs.len() {
                None
            } else {
                dict_get(catalogs[j], key)
            })
        }),
{
    lemma_catalog_keys();
    let (outlines, table, highest, told) = merged_outlines(objects, max_id, catalogs, Seq::empty());
    let (names, told_names) = merged_names(table, catalogs, told);
    let (labels, told_labels) = merged_labels(table, catalogs, offsets, told_names);
    let (form, told_form) = merged_forms(table, catalogs, told_labels);
    let layers = merged_layers(table, catalogs);
    let none = Seq::<(Seq<u8>, PdfValue)>::empty();
    assert forall|any: Seq<u8>| #[trigger] dict_get(none, any) is None by {
        lemma_dict_index_from(none, any, 0);
    }
    lemma_optional(none, "Outlines"@, outlines);
    let one = with_optional(none, "Outlines"@, outlines);
    lemma_optional(one, "Names"@, names);
    let two = with_optional(one, "Names"@, names);
    lemma_optional(two, "PageLabels"@, labels);
    let three = with_optional(two, "PageLabels"@, labels);
    lemma_optional(three, "AcroForm"@, form);
    let four = with_optional(three, "AcroForm"@, form);
    lemma_optional(four, "OCProperties"@, layers);
    let own = with_optional(four, "OCProperties"@, layers);
    assert(describe_all(own));
    lemma_all_carried(own, told_form, catalogs, key, "pdf-xmp-not-merged"@, j);
    lemma_with_entries(bare_catalog(), all_carried_over(own, told_form, catalogs).0, key);
    lemma_bare(key);
}

/// Combining catalogs tells of document metadata, of accessibility tags and of signatures that
/// were left out exactly when some catalog has them.
pub proof fn merging_catalogs_tells_what_it_leaves_out(
    notices: Seq<NoticeValue>,
    catalogs: Seq<Seq<(Seq<u8>, PdfValue)>>,
    code: Seq<char>,
)
    ensures
        has_code(all_carried_over(Seq::empty(), notices, catalogs).1, code) == (has_code(
            notices,
            code,
        ) || exists|i: int| 0 <= i < catalogs.len() && is_told_by(#[trigger] catalogs[i], code)),
{
    let none = Seq::<(Seq<u8>, PdfValue)>::empty();
    assert forall|any: Seq<u8>| #[trigger] dict_get(none, any) is None by {
        lemma_dict_index_from(none, any, 0);
    }
    let key = utf8("Type"@);
    lemma_first_with(catalogs, key);
    lemma_all_carried(none, notices, catalogs, key, code, first_with(catalogs, key));
}

/// A combined document tells of every entry that it had to leave out.
pub proof fn merged_document_tells_what_it_leaves_out(
    documents: Seq<PdfDocumentValue>,
    state: MergeState,
    code: Seq<char>,
    j: int,
)
    requires
        0 <= j < state.catalogs.len(),
        is_told_by(state.catalogs[j], code),
    ensures
        has_code(merged_document(documents, state).1, code),
{
    lemma_catalog_keys();
    let with_tree = put_object(state.objects, (1u32, 0u16), page_tree(state.pages));
    let catalogs = state.catalogs;
    let (outlines, table, highest, told) = merged_outlines(
        with_tree,
        (state.next_id - 1) as u32,
        catalogs,
        Seq::empty(),
    );
    let (names, told_names) = merged_names(table, catalogs, told);
    let (labels, told_labels) = merged_labels(table, catalogs, state.offsets, told_names);
    let (form, told_form) = merged_forms(table, catalogs, told_labels);
    let layers = merged_layers(table, catalogs);
    let none = Seq::<(Seq<u8>, PdfValue)>::empty();
    assert forall|any: Seq<u8>| #[trigger] dict_get(none, any) is None by {
        lemma_dict_index_from(none, any, 0);
    }
    lemma_optional(none, "Outlines"@, outlines);
    let one = with_optional(none, "Outlines"@, outlines);
    lemma_optional(one, "Names"@, names);
    let two = with_optional(one, "Names"@, names);
    lemma_optional(two, "PageLabels"@, labels);
    let three = with_optional(two, "PageLabels"@, labels);
    lemma_optional(three, "AcroForm"@, form);
    let four = with_optional(three, "AcroForm"@, form);
    lemma_optional(four, "OCProperties"@, layers);
    let own = with_optional(four, "OCProperties"@, layers);
    assert(describe_all(own));
    let key = utf8("Type"@);
    lemma_first_with(catalogs, key);
    lemma_all_carried(own, told_form, catalogs, key, code, first_with(catalogs, key));
}

pub(crate) proof fn lemma_less_is_ordered(one: Seq<u8>, two: Seq<u8>, three: Seq<u8>)
    ensures
        bytes_less(one, two) ==> !bytes_less(two, one),
        !bytes_less(two, one) && !bytes_less(three, two) ==> !bytes_less(three, one),
    decreases one.len() + two.len() + three.len(),
{
    if one.len() > 0 && two.len() > 0 && three.len() > 0 {
        lemma_less_is_ordered(one.skip(1), two.skip(1), three.skip(1));
    } else if one.len() > 0 && two.len() > 0 {
        lemma_less_is_ordered(one.skip(1), two.skip(1), three);
    }
}

/// A combined document has a version that none of its sources exceeds, and at least 1.5: no
/// later than one of these.
pub proof fn merged_version_covers_every_document(documents: Seq<PdfDocumentValue>, j: int)
    requires
        0 <= j < documents.len(),
    ensures
        !bytes_less(utf8(latest_version(documents)), utf8(documents[j].version)),
        !bytes_less(utf8(latest_version(documents)), utf8("1.5"@)),
        latest_version(documents) == "1.5"@ || exists|i: int|
            0 <= i < documents.len() && (#[trigger] documents[i]).version == latest_version(
                documents,
            ),
{
    lemma_version(documents);
}

proof fn lemma_version(documents: Seq<PdfDocumentValue>)
    ensures
        forall|j: int|
            0 <= j < documents.len() ==> !bytes_less(
                utf8(latest_version(documents)),
                utf8((#[trigger] documents[j]).version),
            ),
        !bytes_less(utf8(latest_version(documents)), utf8("1.5"@)),
        latest_version(documents) == "1.5"@ || exists|i: int|
            0 <= i < documents.len() && (#[trigger] documents[i]).version == latest_version(
                documents,
            ),
    decreases documents.len(),
{
    if documents.len() == 0 {
        lemma_less_is_ordered(utf8("1.5"@), utf8("1.5"@), utf8("1.5"@));
    } else {
        let shorter = documents.drop_last();
        lemma_version(shorter);
        let before = utf8(latest_version(shorter));
        let own = utf8(documents.last().version);
        let all = utf8(latest_version(documents));
        lemma_less_is_ordered(before, own, before);
        lemma_less_is_ordered(own, own, own);
        lemma_less_is_ordered(utf8("1.5"@), before, all);
        assert(documents[documents.len() - 1] == documents.last());
        assert forall|j: int| 0 <= j < documents.len() implies !bytes_less(
            all,
            utf8((#[trigger] documents[j]).version),
        ) by {
            if j < shorter.len() {
                assert(shorter[j] == documents[j]);
                lemma_less_is_ordered(utf8(documents[j].version), before, all);
            }
        }
        if latest_version(documents) == latest_version(shorter) && latest_version(shorter)
            != "1.5"@ {
            let i = choose|i: int|
                0 <= i < shorter.len() && (#[trigger] shorter[i]).version == latest_version(
                    shorter,
                );
            assert(documents[i] == shorter[i]);
        }
    }
}

/// A single file comes back as it is, no file is refused, and of several the first that cannot
/// be read decides.
pub proof fn single_pdf_comes_back(files: Seq<Seq<u8>>)
    ensures
        files.len() == 0 ==> merged_files(files) is Err,
        files.len() == 1 && loaded_pdf(files[0]) is Ok ==> merged_files(files) == Ok::<
            (Seq<u8>, Seq<NoticeValue>),
            Seq<char>,
        >((files[0], Seq::empty())),
        (exists|i: int| 0 <= i < files.len() && loaded_pdf(#[trigger] files[i]) is Err)
            ==> merged_files(files) is Err,
{
    if exists|i: int| 0 <= i < files.len() && loaded_pdf(#[trigger] files[i]) is Err {
        let i = choose|i: int| 0 <= i < files.len() && loaded_pdf(#[trigger] files[i]) is Err;
        lemma_one_unreadable(files, i);
    }
}

proof fn lemma_one_unreadable(files: Seq<Seq<u8>>, i: int)
    requires
        0 <= i < files.len(),
        loaded_pdf(files[i]) is Err,
    ensures
        loaded_all(files) is Err,
    decreases files.len(),
{
    if i < files.len() - 1 {
        assert(files.drop_last()[i] == files[i]);
        lemma_one_unreadable(files.drop_last(), i);
    }
}

/// Several files are read in their order.
pub proof fn files_are_read_in_order(files: Seq<Seq<u8>>, i: int)
    requires
        loaded_all(files) is Ok,
        0 <= i < files.len(),
    ensures
        loaded_all(files)->Ok_0.len() == files.len(),
        loaded_pdf(files[i]) == Ok::<PdfDocumentValue, Seq<char>>(loaded_all(files)->Ok_0[i]),
    decreases files.len(),
{
    let shorter = files.drop_last();
    lemma_loaded_count(shorter);
    if i < files.len() - 1 {
        files_are_read_in_order(shorter, i);
        assert(shorter[i] == files[i]);
    }
}

proof fn lemma_loaded_count(files: Seq<Seq<u8>>)
    ensures
        loaded_all(files) matches Ok(documents) ==> documents.len() == files.len(),
    decreases files.len(),
{
    if files.len() > 0 {
        lemma_loaded_count(files.drop_last());
    }
}

} // verus!
