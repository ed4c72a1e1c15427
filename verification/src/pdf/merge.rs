//! Combining PDFs in order into one document.

use vstd::prelude::*;

use crate::bytes::{
    buffer_values, bytes_less, copy_bytes, is_bytes_less, is_text, text_bytes, utf8,
};
use crate::notices::{
    notice_values, push_notice, told_outcome, with_notice, FileResult, Notice, NoticeValue,
};
use crate::pdf::catalog::{
    contains_pair, dictionaries_value, dropped_catalog_notice, has_pair,
    merge_dropped_catalog_notice, merge_name_dictionaries, merge_page_labels, merged_labels,
    merged_names, optional_value,
};
use crate::pdf::counts::{check_counts, counts_are_modest, immodest_counts};
use crate::pdf::forms::{merge_acroforms, merge_optional_content, merged_forms, merged_layers};
use crate::pdf::merge_laws::{
    are_numbered_apart, lemma_one_more_apart, lemma_pages_are_merged, pages_are_merged,
};
use crate::pdf::model::{
    array_value, contains_id, copy_dictionary, copy_object, dict_set, dictionary_of,
    find_dictionary, insert_object, is_root, is_root_object, put_object, table_value,
    PdfDictionary, PdfDocument, PdfDocumentValue, PdfId, PdfObject, PdfValue, XrefKind,
};
use crate::pdf::outlines::{merge_outlines, merged_outlines};
use crate::pdf::outside::{
    dictionary_error, dictionary_error_text, lies_within, list_pages, page_ids, renumber,
    renumbered_pdf, write_pdf, written_pdf,
};
use crate::pdf::pages::{
    catalog_of, document_catalog, load_pdf, loaded_pdf, replace_dictionary,
    replace_object_dictionary, with_inherited, write_inherited,
};
use crate::pdf::trees::named_values;
use crate::text::{decimal, decimal_text, joined, outcome};

verus! {

/// Documents by their values.
pub open spec fn document_values(documents: Seq<PdfDocument>) -> Seq<PdfDocumentValue> {
    documents.map_values(|document: PdfDocument| document@)
}

/// Every file loaded, or the first that cannot be, named by its place.
pub open spec fn loaded_all(files: Seq<Seq<u8>>) -> Result<Seq<PdfDocumentValue>, Seq<char>>
    decreases files.len(),
{
    if files.len() == 0 {
        Ok(Seq::empty())
    } else {
        match loaded_all(files.drop_last()) {
            Err(error) => Err(error),
            Ok(before) => match loaded_pdf(files.last()) {
                Err(error) => Err("PDF "@ + decimal(files.len()) + ": "@ + error),
                Ok(document) => Ok(before.push(document)),
            },
        }
    }
}

proof fn lemma_loaded_all_error(files: Seq<Seq<u8>>, length: int)
    requires
        0 <= length <= files.len(),
        loaded_all(files.take(length)) is Err,
    ensures
        loaded_all(files) == loaded_all(files.take(length)),
    decreases files.len(),
{
    if length == files.len() {
        assert(files.take(length) =~= files);
    } else {
        assert(files.drop_last().take(length) =~= files.take(length));
        lemma_loaded_all_error(files.drop_last(), length);
    }
}

fn load_all(files: &Vec<Vec<u8>>) -> (documents: Result<Vec<PdfDocument>, String>)
    ensures
        match documents {
            Ok(documents) => loaded_all(buffer_values(files@)) == Ok::<
                Seq<PdfDocumentValue>,
                Seq<char>,
            >(document_values(documents@)),
            Err(error) => loaded_all(buffer_values(files@)) == Err::<
                Seq<PdfDocumentValue>,
                Seq<char>,
            >(error@),
        },
{
    let ghost all = buffer_values(files@);
    let mut documents: Vec<PdfDocument> = Vec::new();
    assert(all.take(0) =~= Seq::empty());
    assert(document_values(documents@) =~= Seq::empty());
    let mut i: usize = 0;
    while i < files.len()
        invariant
            i <= files@.len(),
            all == buffer_values(files@),
            loaded_all(all.take(i as int)) == Ok::<Seq<PdfDocumentValue>, Seq<char>>(
                document_values(documents@),
            ),
        decreases files.len() - i,
    {
        let ghost before = document_values(documents@);
        assert(all.take(i + 1).drop_last() =~= all.take(i as int));
        assert(all.take(i + 1).last() == files@[i as int]@);
        match load_pdf(&files[i]) {
            Ok(document) => {
                documents.push(document);
                assert(document_values(documents@) =~= before.push(document@));
            },
            Err(error) => {
                let mut text = joined("PDF ", decimal_text((i as u64) + 1).as_str());
                text.append(": ");
                text.append(error.as_str());
                proof {
                    lemma_loaded_all_error(all, i + 1);
                }
                return Err(text);
            },
        }
        i += 1;
    }
    assert(all.take(all.len() as int) =~= all);
    Ok(documents)
}

/// The later of two versions in text order; the second where they are equal.
pub open spec fn later_version(left: Seq<char>, right: Seq<char>) -> Seq<char> {
    if bytes_less(utf8(right), utf8(left)) {
        left
    } else {
        right
    }
}

/// The latest version that the documents use, and at least 1.5.
pub open spec fn latest_version(documents: Seq<PdfDocumentValue>) -> Seq<char>
    decreases documents.len(),
{
    if documents.len() == 0 {
        "1.5"@
    } else {
        later_version(documents.last().version, latest_version(documents.drop_last()))
    }
}

/// The later of two versions in text order; the second where they are equal.
pub fn pick_later(left: &str, right: &str) -> (later: String)
    ensures
        later@ == later_version(left@, right@),
{
    if is_bytes_less(right.as_bytes(), left.as_bytes()) {
        left.to_owned()
    } else {
        right.to_owned()
    }
}

fn find_latest_version(documents: &Vec<PdfDocument>) -> (version: String)
    ensures
        version@ == latest_version(document_values(documents@)),
{
    let ghost all = document_values(documents@);
    assert(all.take(0) =~= Seq::empty());
    let mut version = "1.5".to_owned();
    let mut i: usize = 0;
    while i < documents.len()
        invariant
            i <= documents@.len(),
            all == document_values(documents@),
            version@ == latest_version(all.take(i as int)),
        decreases documents.len() - i,
    {
        assert(all.take(i + 1).drop_last() =~= all.take(i as int));
        assert(all.take(i + 1).last() == documents@[i as int]@);
        version = pick_later(documents[i].version.as_str(), version.as_str());
        i += 1;
    }
    assert(all.take(all.len() as int) =~= all);
    version
}

/// The object table after the first `done` pages were hung under a new page
/// tree, or the error of a page that is no dictionary.
pub open spec fn adopted(
    document: PdfDocumentValue,
    pages: Seq<PdfId>,
    tree: PdfId,
) -> Result<Seq<(PdfId, PdfValue)>, Seq<char>>
    decreases pages.len(),
{
    if pages.len() == 0 {
        Ok(document.objects)
    } else {
        match adopted(document, pages.drop_last(), tree) {
            Err(error) => Err(error),
            Ok(objects) => match dictionary_of(objects, pages.last()) {
                Some(page) => Ok(
                    replace_dictionary(
                        objects,
                        pages.last(),
                        dict_set(
                            with_inherited(objects, pages.last(), page),
                            utf8("Parent"@),
                            PdfValue::Reference(tree),
                        ),
                    ),
                ),
                None => Err(
                    "Could not read a PDF page: "@ + dictionary_error_text(
                        (PdfDocumentValue { objects, ..document }),
                        pages.last(),
                    ),
                ),
            },
        }
    }
}

proof fn lemma_adopted_error(
    document: PdfDocumentValue,
    pages: Seq<PdfId>,
    tree: PdfId,
    length: int,
)
    requires
        0 <= length <= pages.len(),
        adopted(document, pages.take(length), tree) is Err,
    ensures
        adopted(document, pages, tree) == adopted(document, pages.take(length), tree),
    decreases pages.len(),
{
    if length == pages.len() {
        assert(pages.take(length) =~= pages);
    } else {
        assert(pages.drop_last().take(length) =~= pages.take(length));
        lemma_adopted_error(document, pages.drop_last(), tree, length);
    }
}

fn adopt_pages(document: &mut PdfDocument, pages: &Vec<PdfId>, tree: PdfId) -> (done: Result<
    (),
    String,
>)
    ensures
        match done {
            Ok(_) => adopted(old(document)@, pages@, tree) == Ok::<
                Seq<(PdfId, PdfValue)>,
                Seq<char>,
            >(final(document)@.objects),
            Err(error) => adopted(old(document)@, pages@, tree) == Err::<
                Seq<(PdfId, PdfValue)>,
                Seq<char>,
            >(error@),
        },
{
    let ghost start = document@;
    assert(pages@.take(0) =~= Seq::empty());
    let mut i: usize = 0;
    while i < pages.len()
        invariant
            i <= pages@.len(),
            start == old(document)@,
            document@ == (PdfDocumentValue { objects: document@.objects, ..start }),
            adopted(start, pages@.take(i as int), tree) == Ok::<
                Seq<(PdfId, PdfValue)>,
                Seq<char>,
            >(document@.objects),
        decreases pages.len() - i,
    {
        assert(pages@.take(i + 1).drop_last() =~= pages@.take(i as int));
        let id = pages[i];
        let found: Option<PdfDictionary> = match find_dictionary(&document.objects, id) {
            Some(page) => Some(copy_dictionary(page)),
            None => None,
        };
        match found {
            Some(mut page) => {
                write_inherited(&document.objects, id, &mut page);
                page.set("Parent", PdfObject::Reference(tree));
                replace_object_dictionary(&mut document.objects, id, page);
            },
            None => {
                let error = dictionary_error(document, id);
                proof {
                    lemma_adopted_error(start, pages@, tree, i + 1);
                }
                return Err(joined("Could not read a PDF page: ", error.as_str()));
            },
        }
        i += 1;
    }
    assert(pages@.take(pages@.len() as int) =~= pages@);
    Ok(())
}

/// The objects of one document moved into the combined table. Page-tree nodes
/// and catalogs stay behind, unless they are pages.
pub open spec fn moved_objects(
    output: Seq<(PdfId, PdfValue)>,
    objects: Seq<(PdfId, PdfValue)>,
    pages: Seq<PdfId>,
) -> Seq<(PdfId, PdfValue)>
    decreases objects.len(),
{
    if objects.len() == 0 {
        output
    } else {
        let before = moved_objects(output, objects.drop_last(), pages);
        let (id, value) = objects.last();
        if pages.contains(id) || !is_root(value) {
            put_object(before, id, value)
        } else {
            before
        }
    }
}

/// Move one document's objects into the combined table.
pub fn move_objects(
    output: &mut Vec<(PdfId, PdfObject)>,
    objects: &Vec<(PdfId, PdfObject)>,
    pages: &Vec<PdfId>,
)
    ensures
        table_value(final(output)@) == moved_objects(
            table_value(old(output)@),
            table_value(objects@),
            pages@,
        ),
{
    let ghost start = table_value(output@);
    let ghost all = table_value(objects@);
    assert(all.take(0) =~= Seq::empty());
    let mut i: usize = 0;
    while i < objects.len()
        invariant
            i <= objects@.len(),
            all == table_value(objects@),
            table_value(output@) == moved_objects(start, all.take(i as int), pages@),
        decreases objects.len() - i,
    {
        let entry = &objects[i];
        assert(all.take(i + 1).drop_last() =~= all.take(i as int));
        assert(all.take(i + 1).last() == (entry.0, entry.1@));
        if contains_id(pages, entry.0) || !is_root_object(&entry.1) {
            insert_object(output, entry.0, copy_object(&entry.1));
        }
        i += 1;
    }
    assert(all.take(all.len() as int) =~= all);
}

/// What the documents read so far add up to.
pub struct MergeState {
    pub objects: Seq<(PdfId, PdfValue)>,
    pub pages: Seq<PdfId>,
    pub catalogs: Seq<Seq<(Seq<u8>, PdfValue)>>,
    pub offsets: Seq<i64>,
    pub next_id: nat,
}

/// The two numbers that the new page tree and the new catalog take.
pub open spec fn tree_id() -> PdfId {
    (1u32, 0u16)
}

/// The number of the new catalog.
pub open spec fn catalog_id() -> PdfId {
    (2u32, 0u16)
}

/// The first number for the objects of the sources.
pub const FIRST_SOURCE_ID: u32 = 3;

/// The refusal of more objects than there are numbers.
pub open spec fn too_many_objects() -> Seq<char> {
    "These PDFs contain too many objects to merge."@
}

/// The state after some documents: each one takes a range of object numbers of
/// its own, and its pages come behind those of the documents before it.
pub open spec fn combined(documents: Seq<PdfDocumentValue>) -> Result<MergeState, Seq<char>>
    decreases documents.len(),
{
    if documents.len() == 0 {
        Ok(
            MergeState {
                objects: Seq::empty(),
                pages: Seq::empty(),
                catalogs: Seq::empty(),
                offsets: Seq::empty(),
                next_id: FIRST_SOURCE_ID as nat,
            },
        )
    } else {
        match combined(documents.drop_last()) {
            Err(error) => Err(error),
            Ok(before) => {
                let following = before.next_id + documents.last().objects.len();
                if following > u32::MAX {
                    Err(too_many_objects())
                } else if !counts_are_modest(documents.last()) {
                    Err(immodest_counts())
                } else {
                    let document = renumbered_pdf(documents.last(), before.next_id as u32);
                    let pages = page_ids(document);
                    match adopted(document, pages, tree_id()) {
                        Err(error) => Err(error),
                        Ok(objects) => Ok(
                            MergeState {
                                objects: moved_objects(before.objects, objects, pages),
                                pages: before.pages + pages,
                                catalogs: before.catalogs.push(catalog_of(document)),
                                offsets: before.offsets.push(page_offset(before.pages.len())),
                                next_id: following,
                            },
                        ),
                    }
                }
            },
        }
    }
}

/// The number of pages before a document, as a page index.
pub open spec fn page_offset(pages: nat) -> i64 {
    if pages > i64::MAX {
        i64::MAX
    } else {
        pages as i64
    }
}

proof fn lemma_combined_error(documents: Seq<PdfDocumentValue>, length: int)
    requires
        0 <= length <= documents.len(),
        combined(documents.take(length)) is Err,
    ensures
        combined(documents) == combined(documents.take(length)),
    decreases documents.len(),
{
    if length == documents.len() {
        assert(documents.take(length) =~= documents);
    } else {
        assert(documents.drop_last().take(length) =~= documents.take(length));
        lemma_combined_error(documents.drop_last(), length);
    }
}

struct Combined {
    objects: Vec<(PdfId, PdfObject)>,
    pages: Vec<PdfId>,
    catalogs: Vec<PdfDictionary>,
    offsets: Vec<i64>,
    next_id: u32,
}

spec fn combined_value(state: Combined) -> MergeState {
    MergeState {
        objects: table_value(state.objects@),
        pages: state.pages@,
        catalogs: dictionaries_value(state.catalogs@),
        offsets: state.offsets@,
        next_id: state.next_id as nat,
    }
}

fn combine_document(state: &mut Combined, source: &PdfDocument) -> (done: Result<(), String>)
    requires
        FIRST_SOURCE_ID <= old(state).next_id,
    ensures
        ({
            let before = combined_value(*old(state));
            let following = before.next_id + source@.objects.len();
            let document = renumbered_pdf(source@, before.next_id as u32);
            let pages = page_ids(document);
            if following > u32::MAX {
                done matches Err(error) && error@ == too_many_objects()
            } else if !counts_are_modest(source@) {
                done matches Err(error) && error@ == immodest_counts()
            } else {
                match adopted(document, pages, tree_id()) {
                    Err(text) => done matches Err(error) && error@ == text,
                    Ok(objects) => done is Ok && combined_value(*final(state)) == (MergeState {
                        objects: moved_objects(before.objects, objects, pages),
                        pages: before.pages + pages,
                        catalogs: before.catalogs.push(catalog_of(document)),
                        offsets: before.offsets.push(page_offset(before.pages.len())),
                        next_id: following,
                    }) && lies_within(
                        document.objects,
                        before.next_id,
                        source@.objects.len(),
                    ),
                }
            }
        }),
{
    let ghost before = combined_value(*state);
    assert(source@.objects.len() == source.objects@.len());
    if source.objects.len() > (u32::MAX - state.next_id) as usize {
        return Err("These PDFs contain too many objects to merge.".to_owned());
    }
    if !check_counts(source) {
        return Err("This PDF declares more pages than it can hold.".to_owned());
    }
    let following: u32 = state.next_id + source.objects.len() as u32;
    let mut document = renumber(source, state.next_id);
    let catalog = document_catalog(&document);
    let pages = list_pages(&document);
    match adopt_pages(&mut document, &pages, (1, 0)) {
        Err(error) => Err(error),
        Ok(_) => {
            state.next_id = following;
            state.catalogs.push(catalog);
            assert(dictionaries_value(state.catalogs@) =~= before.catalogs.push(catalog@));
            let offset: i64 = if state.pages.len() as u64 > i64::MAX as u64 {
                i64::MAX
            } else {
                state.pages.len() as i64
            };
            state.offsets.push(offset);
            move_objects(&mut state.objects, &document.objects, &pages);
            let mut added: Vec<PdfId> = pages;
            state.pages.append(&mut added);
            Ok(())
        },
    }
}

fn combine_documents(documents: &Vec<PdfDocument>) -> (state: Result<Combined, String>)
    ensures
        match state {
            Ok(state) => combined(document_values(documents@)) == Ok::<MergeState, Seq<char>>(
                combined_value(state),
            ) && FIRST_SOURCE_ID <= state.next_id && state.catalogs@.len()
                == state.offsets@.len() && are_numbered_apart(document_values(documents@)),
            Err(error) => combined(document_values(documents@)) == Err::<MergeState, Seq<char>>(
                error@,
            ),
        },
{
    let ghost all = document_values(documents@);
    let mut state = Combined {
        objects: Vec::new(),
        pages: Vec::new(),
        catalogs: Vec::new(),
        offsets: Vec::new(),
        next_id: FIRST_SOURCE_ID,
    };
    assert(all.take(0) =~= Seq::empty());
    assert(table_value(state.objects@) =~= Seq::empty());
    assert(dictionaries_value(state.catalogs@) =~= Seq::empty());
    let mut i: usize = 0;
    while i < documents.len()
        invariant
            i <= documents@.len(),
            all == document_values(documents@),
            FIRST_SOURCE_ID <= state.next_id,
            combined_value(state).catalogs.len() == combined_value(state).offsets.len(),
            combined(all.take(i as int)) == Ok::<MergeState, Seq<char>>(combined_value(state)),
            are_numbered_apart(all.take(i as int)),
        decreases documents.len() - i,
    {
        assert(all.take(i + 1).drop_last() =~= all.take(i as int));
        assert(all.take(i + 1).last() == documents@[i as int]@);
        match combine_document(&mut state, &documents[i]) {
            Ok(_) => {
                proof {
                    lemma_one_more_apart(all, i as int);
                }
            },
            Err(error) => {
                proof {
                    lemma_combined_error(all, i + 1);
                }
                return Err(error);
            },
        }
        i += 1;
    }
    assert(all.take(all.len() as int) =~= all);
    Ok(state)
}

/// Whether a catalog entry is combined on its own.
pub open spec fn is_merged_separately(key: Seq<u8>) -> bool {
    ||| key == utf8("Type"@)
    ||| key == utf8("Pages"@)
    ||| key == utf8("Outlines"@)
    ||| key == utf8("Names"@)
    ||| key == utf8("PageLabels"@)
    ||| key == utf8("AcroForm"@)
    ||| key == utf8("OCProperties"@)
}

fn merged_separately(key: &[u8]) -> (separate: bool)
    ensures
        separate == is_merged_separately(key@),
{
    is_text(key, "Type") || is_text(key, "Pages") || is_text(key, "Outlines") || is_text(
        key,
        "Names",
    ) || is_text(key, "PageLabels") || is_text(key, "AcroForm") || is_text(key, "OCProperties")
}

/// Catalog entries after the remaining ones of one catalog: what the first
/// document has wins, and what describes one document alone is left out and said.
pub open spec fn carried_over(
    entries: Seq<(Seq<u8>, PdfValue)>,
    notices: Seq<NoticeValue>,
    catalog: Seq<(Seq<u8>, PdfValue)>,
) -> (Seq<(Seq<u8>, PdfValue)>, Seq<NoticeValue>)
    decreases catalog.len(),
{
    if catalog.len() == 0 {
        (entries, notices)
    } else {
        let (before, told) = carried_over(entries, notices, catalog.drop_last());
        let (key, value) = catalog.last();
        if is_merged_separately(key) || has_pair(before, key) {
            (before, told)
        } else {
            match dropped_catalog_notice(key) {
                Some(dropped) => (before, with_notice(told, dropped)),
                None => (before.push((key, value)), told),
            }
        }
    }
}

/// Catalog entries after the remaining ones of several catalogs.
pub open spec fn all_carried_over(
    entries: Seq<(Seq<u8>, PdfValue)>,
    notices: Seq<NoticeValue>,
    catalogs: Seq<Seq<(Seq<u8>, PdfValue)>>,
) -> (Seq<(Seq<u8>, PdfValue)>, Seq<NoticeValue>)
    decreases catalogs.len(),
{
    if catalogs.len() == 0 {
        (entries, notices)
    } else {
        let (before, told) = all_carried_over(entries, notices, catalogs.drop_last());
        carried_over(before, told, catalogs.last())
    }
}

fn carry_over(
    entries: &mut Vec<(Vec<u8>, PdfObject)>,
    notices: &mut Vec<Notice>,
    catalog: &PdfDictionary,
)
    ensures
        (named_values(final(entries)@), notice_values(final(notices)@)) == carried_over(
            named_values(old(entries)@),
            notice_values(old(notices)@),
            catalog@,
        ),
{
    let ghost entries0 = named_values(entries@);
    let ghost notices0 = notice_values(notices@);
    let ghost all = catalog@;
    assert(all.take(0) =~= Seq::empty());
    let mut i: usize = 0;
    while i < catalog.entries.len()
        invariant
            i <= catalog.entries@.len(),
            all == catalog@,
            (named_values(entries@), notice_values(notices@)) == carried_over(
                entries0,
                notices0,
                all.take(i as int),
            ),
        decreases catalog.entries.len() - i,
    {
        let entry = &catalog.entries[i];
        let ghost before = named_values(entries@);
        assert(all.take(i + 1).drop_last() =~= all.take(i as int));
        assert(all.take(i + 1).last() == (entry.0@, entry.1@));
        if !merged_separately(&entry.0) && !contains_pair(entries, &entry.0) {
            match merge_dropped_catalog_notice(&entry.0) {
                Some(dropped) => {
                    push_notice(notices, dropped);
                },
                None => {
                    entries.push((copy_bytes(&entry.0), copy_object(&entry.1)));
                    assert(named_values(entries@) =~= before.push((entry.0@, entry.1@)));
                },
            }
        }
        i += 1;
    }
    assert(all.take(all.len() as int) =~= all);
}

/// A list of entries with one more, when there is one.
pub open spec fn with_optional(
    entries: Seq<(Seq<u8>, PdfValue)>,
    key: Seq<char>,
    value: Option<PdfValue>,
) -> Seq<(Seq<u8>, PdfValue)> {
    match value {
        Some(value) => entries.push((utf8(key), value)),
        None => entries,
    }
}

fn push_optional(entries: &mut Vec<(Vec<u8>, PdfObject)>, key: &str, value: Option<PdfObject>)
    ensures
        named_values(final(entries)@) == with_optional(
            named_values(old(entries)@),
            key@,
            optional_value(value),
        ),
{
    let ghost before = named_values(entries@);
    if let Some(value) = value {
        entries.push((text_bytes(key), value));
        assert(named_values(entries@) =~= before.push((utf8(key@), value@)));
    }
}

/// What the catalog of a combined document needs besides `/Type` and `/Pages`.
pub struct CatalogState {
    pub entries: Seq<(Seq<u8>, PdfValue)>,
    pub objects: Seq<(PdfId, PdfValue)>,
    pub max_id: u32,
    pub notices: Seq<NoticeValue>,
}

/// Every catalog entry beyond `/Type` and `/Pages`, preserving what can be
/// preserved and stating what cannot.
pub open spec fn catalog_entries(
    objects: Seq<(PdfId, PdfValue)>,
    max_id: u32,
    catalogs: Seq<Seq<(Seq<u8>, PdfValue)>>,
    offsets: Seq<i64>,
) -> CatalogState {
    let (outlines, table, highest, told_outlines) = merged_outlines(
        objects,
        max_id,
        catalogs,
        Seq::empty(),
    );
    let (names, told_names) = merged_names(table, catalogs, told_outlines);
    let (labels, told_labels) = merged_labels(table, catalogs, offsets, told_names);
    let (form, told_form) = merged_forms(table, catalogs, told_labels);
    let layers = merged_layers(table, catalogs);
    let own = with_optional(
        with_optional(
            with_optional(
                with_optional(
                    with_optional(Seq::empty(), "Outlines"@, outlines),
                    "Names"@,
                    names,
                ),
                "PageLabels"@,
                labels,
            ),
            "AcroForm"@,
            form,
        ),
        "OCProperties"@,
        layers,
    );
    let (entries, notices) = all_carried_over(own, told_form, catalogs);
    CatalogState { entries, objects: table, max_id: highest, notices }
}

/// Build every catalog entry beyond `/Type` and `/Pages` for a merged
/// document, preserving what can be preserved and stating what cannot.
pub fn merged_catalog_entries(
    objects: &mut Vec<(PdfId, PdfObject)>,
    max_id: &mut u32,
    catalogs: &Vec<PdfDictionary>,
    page_offsets: &Vec<i64>,
    notices: &mut Vec<Notice>,
) -> (entries: Vec<(Vec<u8>, PdfObject)>)
    requires
        *old(max_id) < u32::MAX,
        catalogs@.len() == page_offsets@.len(),
        old(notices)@.len() == 0,
    ensures
        (CatalogState {
            entries: named_values(entries@),
            objects: table_value(final(objects)@),
            max_id: *final(max_id),
            notices: notice_values(final(notices)@),
        }) == catalog_entries(
            table_value(old(objects)@),
            *old(max_id),
            dictionaries_value(catalogs@),
            page_offsets@,
        ),
{
    let mut entries: Vec<(Vec<u8>, PdfObject)> = Vec::new();
    assert(named_values(entries@) =~= Seq::empty());
    assert(notice_values(notices@) =~= Seq::empty());
    push_optional(&mut entries, "Outlines", merge_outlines(objects, max_id, catalogs, notices));
    push_optional(&mut entries, "Names", merge_name_dictionaries(objects, catalogs, notices));
    push_optional(
        &mut entries,
        "PageLabels",
        merge_page_labels(objects, catalogs, page_offsets, notices),
    );
    push_optional(&mut entries, "AcroForm", merge_acroforms(objects, catalogs, notices));
    push_optional(&mut entries, "OCProperties", merge_optional_content(objects, catalogs));
    let ghost own = named_values(entries@);
    let ghost told = notice_values(notices@);
    let ghost all = dictionaries_value(catalogs@);
    assert(all.take(0) =~= Seq::empty());
    let mut i: usize = 0;
    while i < catalogs.len()
        invariant
            i <= catalogs@.len(),
            all == dictionaries_value(catalogs@),
            (named_values(entries@), notice_values(notices@)) == all_carried_over(
                own,
                told,
                all.take(i as int),
            ),
        decreases catalogs.len() - i,
    {
        assert(all.take(i + 1).drop_last() =~= all.take(i as int));
        assert(all.take(i + 1).last() == catalogs@[i as int]@);
        carry_over(&mut entries, notices, &catalogs[i]);
        i += 1;
    }
    assert(all.take(all.len() as int) =~= all);
    entries
}

/// References to these objects, in order.
pub open spec fn references(ids: Seq<PdfId>) -> Seq<PdfValue> {
    ids.map_values(|id: PdfId| PdfValue::Reference(id))
}

/// A flat page tree over these pages.
pub open spec fn page_tree(pages: Seq<PdfId>) -> PdfValue {
    PdfValue::Dictionary(
        dict_set(
            dict_set(
                dict_set(Seq::empty(), utf8("Type"@), PdfValue::Name(utf8("Pages"@))),
                utf8("Kids"@),
                PdfValue::Array(references(pages)),
            ),
            utf8("Count"@),
            PdfValue::Integer(pages.len() as i64),
        ),
    )
}

/// A flat page tree over these pages.
pub fn new_page_tree(pages: &Vec<PdfId>) -> (tree: PdfObject)
    requires
        pages@.len() <= i64::MAX,
    ensures
        tree@ == page_tree(pages@),
{
    let mut kids: Vec<PdfObject> = Vec::new();
    let mut i: usize = 0;
    while i < pages.len()
        invariant
            i <= pages@.len(),
            kids@.len() == i,
            forall|j: int| 0 <= j < i ==> #[trigger] kids@[j] == PdfObject::Reference(pages@[j]),
        decreases pages.len() - i,
    {
        kids.push(PdfObject::Reference(pages[i]));
        i += 1;
    }
    assert(array_value(kids@) =~= references(pages@));
    let mut dictionary = PdfDictionary::empty();
    dictionary.set("Type", PdfObject::Name(text_bytes("Pages")));
    dictionary.set("Kids", PdfObject::Array(kids));
    dictionary.set("Count", PdfObject::Integer(pages.len() as i64));
    PdfObject::Dictionary(dictionary)
}

/// The first two entries of every catalog.
pub open spec fn bare_catalog() -> Seq<(Seq<u8>, PdfValue)> {
    dict_set(
        dict_set(Seq::empty(), utf8("Type"@), PdfValue::Name(utf8("Catalog"@))),
        utf8("Pages"@),
        PdfValue::Reference(tree_id()),
    )
}

/// The first two entries of every catalog.
pub fn new_bare_catalog() -> (catalog: PdfDictionary)
    ensures
        catalog@ == bare_catalog(),
{
    let mut catalog = PdfDictionary::empty();
    catalog.set("Type", PdfObject::Name(text_bytes("Catalog")));
    catalog.set("Pages", PdfObject::Reference((1, 0)));
    catalog
}

/// A dictionary with several entries stored in turn.
pub open spec fn with_entries(
    dictionary: Seq<(Seq<u8>, PdfValue)>,
    entries: Seq<(Seq<u8>, PdfValue)>,
) -> Seq<(Seq<u8>, PdfValue)>
    decreases entries.len(),
{
    if entries.len() == 0 {
        dictionary
    } else {
        dict_set(
            with_entries(dictionary, entries.drop_last()),
            entries.last().0,
            entries.last().1,
        )
    }
}

fn set_entries(dictionary: &mut PdfDictionary, entries: &Vec<(Vec<u8>, PdfObject)>)
    ensures
        final(dictionary)@ == with_entries(old(dictionary)@, named_values(entries@)),
{
    let ghost start = dictionary@;
    let ghost all = named_values(entries@);
    assert(all.take(0) =~= Seq::empty());
    let mut i: usize = 0;
    while i < entries.len()
        invariant
            i <= entries@.len(),
            all == named_values(entries@),
            dictionary@ == with_entries(start, all.take(i as int)),
        decreases entries.len() - i,
    {
        assert(all.take(i + 1).drop_last() =~= all.take(i as int));
        assert(all.take(i + 1).last() == (entries@[i as int].0@, entries@[i as int].1@));
        dictionary.set_key(copy_bytes(&entries[i].0), copy_object(&entries[i].1));
        i += 1;
    }
    assert(all.take(all.len() as int) =~= all);
}

/// The marker bytes behind the header of a new file.
pub open spec fn new_binary_mark() -> Seq<u8> {
    seq![0xBBu8, 0xADu8, 0xC0u8, 0xDEu8]
}

/// A new document with this catalog object as its root.
pub open spec fn new_document(
    version: Seq<char>,
    objects: Seq<(PdfId, PdfValue)>,
    max_id: u32,
    root: PdfId,
) -> PdfDocumentValue {
    PdfDocumentValue {
        version,
        binary_mark: new_binary_mark(),
        trailer: dict_set(Seq::empty(), utf8("Root"@), PdfValue::Reference(root)),
        objects,
        max_id,
        xref: XrefKind::Stream,
    }
}

/// A new document with this catalog object as its root.
pub fn make_document(
    version: String,
    objects: Vec<(PdfId, PdfObject)>,
    max_id: u32,
    root: PdfId,
) -> (document: PdfDocument)
    ensures
        document@ == new_document(version@, table_value(objects@), max_id, root),
{
    let mut trailer = PdfDictionary::empty();
    trailer.set("Root", PdfObject::Reference(root));
    let binary_mark: Vec<u8> = vec![0xBB, 0xAD, 0xC0, 0xDE];
    assert(binary_mark@ =~= new_binary_mark());
    PdfDocument { version, binary_mark, trailer, objects, max_id, xref: XrefKind::Stream }
}

/// The combined document and what has to be said about it.
pub open spec fn merged_document(
    documents: Seq<PdfDocumentValue>,
    state: MergeState,
) -> (PdfDocumentValue, Seq<NoticeValue>) {
    let with_tree = put_object(state.objects, tree_id(), page_tree(state.pages));
    let catalog = catalog_entries(
        with_tree,
        (state.next_id - 1) as u32,
        state.catalogs,
        state.offsets,
    );
    (
        new_document(
            latest_version(documents),
            put_object(
                catalog.objects,
                catalog_id(),
                PdfValue::Dictionary(with_entries(bare_catalog(), catalog.entries)),
            ),
            catalog.max_id,
            catalog_id(),
        ),
        catalog.notices,
    )
}

/// What combining several loaded documents gives.
pub open spec fn merged_documents(documents: Seq<PdfDocumentValue>) -> Result<
    (Seq<u8>, Seq<NoticeValue>),
    Seq<char>,
> {
    match combined(documents) {
        Err(error) => Err(error),
        Ok(state) => if state.pages.len() > i64::MAX {
            Err("These PDFs contain too many pages to merge."@)
        } else {
            let (document, notices) = merged_document(documents, state);
            match written_pdf(document) {
                Err(error) => Err("Could not create the merged PDF: "@ + error),
                Ok(bytes) => Ok((bytes, notices)),
            }
        },
    }
}

/// What combining files in order gives: a single file comes back as it is.
pub open spec fn merged_files(files: Seq<Seq<u8>>) -> Result<
    (Seq<u8>, Seq<NoticeValue>),
    Seq<char>,
> {
    if files.len() == 0 {
        Err("Choose at least one PDF to merge."@)
    } else if files.len() == 1 {
        match loaded_pdf(files[0]) {
            Err(error) => Err(error),
            Ok(_) => Ok((files[0], Seq::empty())),
        }
    } else {
        match loaded_all(files) {
            Err(error) => Err(error),
            Ok(documents) => merged_documents(documents),
        }
    }
}

/// Combine loaded documents in order. Pages of different documents never share a number,
/// and each keeps its entries and the attributes that applied to it.
pub fn merge_documents(documents: &Vec<PdfDocument>) -> (merged: Result<
    (Vec<u8>, Vec<Notice>),
    String,
>)
    ensures
        told_outcome(merged) == merged_documents(document_values(documents@)),
        pages_are_merged(document_values(documents@)),
{
    let ghost all = document_values(documents@);
    let version = find_latest_version(documents);
    match combine_documents(documents) {
        Err(error) => Err(error),
        Ok(state) => {
            let ghost before = combined_value(state);
            proof {
                lemma_pages_are_merged(all);
            }
            let mut objects = state.objects;
            if state.pages.len() as u64 > i64::MAX as u64 {
                return Err("These PDFs contain too many pages to merge.".to_owned());
            }
            insert_object(&mut objects, (1, 0), new_page_tree(&state.pages));
            let mut max_id: u32 = state.next_id - 1;
            let mut notices: Vec<Notice> = Vec::new();
            let entries = merged_catalog_entries(
                &mut objects,
                &mut max_id,
                &state.catalogs,
                &state.offsets,
                &mut notices,
            );
            let mut catalog = new_bare_catalog();
            set_entries(&mut catalog, &entries);
            insert_object(&mut objects, (2, 0), PdfObject::Dictionary(catalog));
            let document = make_document(version, objects, max_id, (2, 0));
            assert((document@, notice_values(notices@)) == merged_document(all, before));
            match write_pdf(&document) {
                Err(error) => Err(joined("Could not create the merged PDF: ", error.as_str())),
                Ok(bytes) => Ok((bytes, notices)),
            }
        },
    }
}

/// Combine PDFs in the supplied order and return the serialized PDF together
/// with everything the user must be told about the combination.
pub fn merge(docs: Vec<Vec<u8>>) -> (merged: Result<(Vec<u8>, Vec<Notice>), String>)
    ensures
        told_outcome(merged) == merged_files(buffer_values(docs@)),
        merged is Ok && docs@.len() > 1 ==> (loaded_all(buffer_values(docs@)) matches Ok(documents)
            && pages_are_merged(documents)),
{
    if docs.len() == 0 {
        return Err("Choose at least one PDF to merge.".to_owned());
    }
    if docs.len() == 1 {
        return match load_pdf(&docs[0]) {
            Err(error) => Err(error),
            Ok(_) => {
                let notices: Vec<Notice> = Vec::new();
                assert(notice_values(notices@) =~= Seq::empty());
                Ok((copy_bytes(&docs[0]), notices))
            },
        };
    }
    match load_all(&docs) {
        Err(error) => Err(error),
        Ok(documents) => merge_documents(&documents),
    }
}

/// Combine PDFs in array order. Returns the merged bytes plus every notice the
/// interface must show about what could and could not be combined.
pub fn merge_pdfs(docs: Vec<Vec<u8>>) -> (merged: Result<FileResult, String>)
    ensures
        outcome(merged) == merged_files(buffer_values(docs@)),
        merged is Ok && docs@.len() > 1 ==> (loaded_all(buffer_values(docs@)) matches Ok(documents)
            && pages_are_merged(documents)),
{
    match merge(docs) {
        Ok((bytes, notices)) => Ok(FileResult::new(bytes, notices)),
        Err(error) => Err(error),
    }
}

} // verus!
