//! Removing what a PDF says about its author, its origin and its history, and
//! checking that it is gone.

use vstd::prelude::*;

use crate::bytes::{begins_with, lemma_ascii, utf8};
use crate::metadata::pdf_report::{
    annotation_ids, annotation_ids_of, embeds_xmp, holder_ids, holder_ids_of, is_scrubbable,
    is_scrubbable_annotation,
    is_signature, is_signature_dictionary, object_embeds_xmp, plain_content,
    stream_plain_content,
};
use crate::metadata::xmp::{strip_xmp_regions, stripped_xmp};
use crate::pdf::model::{
    array_value, contains_id, copy_dictionary, copy_object, dict_get, dict_has, dict_remove,
    dict_set, object_dictionary, own_dictionary, table_value, PdfDictionary, PdfDocument,
    PdfDocumentValue, PdfId, PdfObject, PdfStream, PdfStreamValue, PdfValue,
};
use crate::pdf::outside::{
    list_pages, page_ids, prune, pruned_pdf, write_pdf, written_pdf,
};
use crate::pdf::pages::{load_pdf, loaded_pdf};
use crate::text::{joined, outcome};

verus! {

/// An annotation without its author and its modification date. `/Contents`, the
/// visible comment text, is document content and is left alone.
pub open spec fn scrubbed_annotation(entries: Seq<(Seq<u8>, PdfValue)>) -> Seq<
    (Seq<u8>, PdfValue),
> {
    if is_scrubbable(entries) {
        dict_remove(dict_remove(entries, utf8("T"@)), utf8("M"@))
    } else {
        entries
    }
}

/// Remove an annotation's author and modification date.
pub fn scrub_annotation_dictionary(dictionary: &mut PdfDictionary)
    ensures
        final(dictionary)@ == scrubbed_annotation(old(dictionary)@),
{
    if is_scrubbable_annotation(dictionary) {
        dictionary.remove("T");
        dictionary.remove("M");
    }
}

/// A signature without the signer's identity. Rewriting the file already
/// invalidates the signature, so keeping these protects nothing.
pub open spec fn without_signer(entries: Seq<(Seq<u8>, PdfValue)>) -> Seq<(Seq<u8>, PdfValue)> {
    if is_signature(entries) {
        dict_remove(
            dict_remove(
                dict_remove(
                    dict_remove(dict_remove(entries, utf8("Name"@)), utf8("Location"@)),
                    utf8("Reason"@),
                ),
                utf8("ContactInfo"@),
            ),
            utf8("M"@),
        )
    } else {
        entries
    }
}

fn remove_signer(dictionary: &mut PdfDictionary)
    ensures
        final(dictionary)@ == without_signer(old(dictionary)@),
{
    if is_signature_dictionary(dictionary) {
        dictionary.remove("Name");
        dictionary.remove("Location");
        dictionary.remove("Reason");
        dictionary.remove("ContactInfo");
        dictionary.remove("M");
    }
}

/// An item of an `/Annots` array, scrubbed when it is an annotation written
/// inline.
pub open spec fn scrubbed_item(value: PdfValue) -> PdfValue {
    match value {
        PdfValue::Dictionary(entries) => PdfValue::Dictionary(scrubbed_annotation(entries)),
        _ => value,
    }
}

/// An `/Annots` array with its inline annotations scrubbed.
pub open spec fn scrubbed_items(items: Seq<PdfValue>) -> Seq<PdfValue> {
    items.map_values(|value: PdfValue| scrubbed_item(value))
}

/// A dictionary with the inline annotations of its `/Annots` scrubbed.
pub open spec fn with_scrubbed_annots(entries: Seq<(Seq<u8>, PdfValue)>) -> Seq<
    (Seq<u8>, PdfValue),
> {
    match dict_get(entries, utf8("Annots"@)) {
        Some(PdfValue::Array(items)) => dict_set(
            entries,
            utf8("Annots"@),
            PdfValue::Array(scrubbed_items(items)),
        ),
        _ => entries,
    }
}

fn scrub_item(object: &PdfObject) -> (scrubbed: PdfObject)
    ensures
        scrubbed@ == scrubbed_item(object@),
{
    match object {
        PdfObject::Dictionary(dictionary) => {
            let mut copy = copy_dictionary(dictionary);
            scrub_annotation_dictionary(&mut copy);
            PdfObject::Dictionary(copy)
        },
        _ => copy_object(object),
    }
}

fn scrub_items(items: &Vec<PdfObject>) -> (scrubbed: Vec<PdfObject>)
    ensures
        array_value(scrubbed@) == scrubbed_items(array_value(items@)),
{
    let ghost expected = scrubbed_items(array_value(items@));
    let mut scrubbed: Vec<PdfObject> = Vec::new();
    let mut i: usize = 0;
    while i < items.len()
        invariant
            i <= items@.len(),
            scrubbed@.len() == i,
            expected == scrubbed_items(array_value(items@)),
            forall|j: int| 0 <= j < i ==> (#[trigger] scrubbed@[j])@ == expected[j],
        decreases items.len() - i,
    {
        let item = scrub_item(&items[i]);
        assert(array_value(items@)[i as int] == items@[i as int]@);
        scrubbed.push(item);
        i += 1;
    }
    assert(array_value(scrubbed@) =~= expected);
    scrubbed
}

fn scrub_annots(dictionary: &mut PdfDictionary)
    ensures
        final(dictionary)@ == with_scrubbed_annots(old(dictionary)@),
{
    let scrubbed = match dictionary.get("Annots") {
        Some(PdfObject::Array(items)) => Some(scrub_items(items)),
        _ => None,
    };
    if let Some(items) = scrubbed {
        dictionary.set("Annots", PdfObject::Array(items));
    }
}

/// A dictionary without the entries that are removed wherever they stand, and
/// without those removed from an annotation when it is one.
pub open spec fn scrubbed_dictionary(
    entries: Seq<(Seq<u8>, PdfValue)>,
    annotation: bool,
) -> Seq<(Seq<u8>, PdfValue)> {
    let plain = dict_remove(dict_remove(entries, utf8("Metadata"@)), utf8("PieceInfo"@));
    let own = if annotation {
        scrubbed_annotation(plain)
    } else {
        plain
    };
    with_scrubbed_annots(without_signer(own))
}

fn scrub_dictionary(dictionary: &mut PdfDictionary, annotation: bool)
    ensures
        final(dictionary)@ == scrubbed_dictionary(old(dictionary)@, annotation),
{
    dictionary.remove("Metadata");
    dictionary.remove("PieceInfo");
    if annotation {
        scrub_annotation_dictionary(dictionary);
    }
    remove_signer(dictionary);
    scrub_annots(dictionary);
}

/// A stream with every XMP region cut out of what it holds, so XMP is gone even
/// when the stream stays reachable through a reference other than `/Metadata`.
/// The rest of its content is kept.
pub open spec fn scrubbed_stream(stream: PdfStreamValue) -> PdfStreamValue {
    match stripped_xmp(plain_content(stream)) {
        Some(content) => PdfStreamValue {
            dict: dict_set(
                dict_remove(dict_remove(stream.dict, utf8("DecodeParms"@)), utf8("Filter"@)),
                utf8("Length"@),
                PdfValue::Integer(content.len() as i64),
            ),
            content,
            ..stream
        },
        None => stream,
    }
}

fn scrub_stream(stream: &mut PdfStream)
    ensures
        final(stream)@ == scrubbed_stream(old(stream)@),
{
    let content = stream_plain_content(stream);
    if let Some(stripped) = strip_xmp_regions(&content) {
        stream.dict.remove("DecodeParms");
        stream.dict.remove("Filter");
        stream.dict.set("Length", PdfObject::Integer(stripped.len() as i64));
        stream.content = stripped;
    }
}

/// An object without its metadata. `annotation` says whether it is an annotation,
/// `holder` whether an `/Annots` entry refers to it.
pub open spec fn scrubbed_value(value: PdfValue, annotation: bool, holder: bool) -> PdfValue {
    match value {
        PdfValue::Stream(stream) => {
            let cut = scrubbed_stream(stream);
            PdfValue::Stream(
                PdfStreamValue { dict: scrubbed_dictionary(cut.dict, annotation), ..cut },
            )
        },
        PdfValue::Dictionary(entries) => PdfValue::Dictionary(
            scrubbed_dictionary(entries, annotation),
        ),
        PdfValue::Array(items) => if holder {
            PdfValue::Array(scrubbed_items(items))
        } else {
            value
        },
        _ => value,
    }
}

fn scrub_object(object: PdfObject, annotation: bool, holder: bool) -> (scrubbed: PdfObject)
    ensures
        scrubbed@ == scrubbed_value(object@, annotation, holder),
{
    match object {
        PdfObject::Stream(stream) => {
            let mut stream = stream;
            scrub_stream(&mut stream);
            scrub_dictionary(&mut stream.dict, annotation);
            PdfObject::Stream(stream)
        },
        PdfObject::Dictionary(dictionary) => {
            let mut dictionary = dictionary;
            scrub_dictionary(&mut dictionary, annotation);
            PdfObject::Dictionary(dictionary)
        },
        PdfObject::Array(items) => {
            if holder {
                PdfObject::Array(scrub_items(&items))
            } else {
                PdfObject::Array(items)
            }
        },
        other => other,
    }
}

/// The object table without its metadata.
pub open spec fn scrubbed_table(
    objects: Seq<(PdfId, PdfValue)>,
    annotations: Seq<PdfId>,
    holders: Seq<PdfId>,
) -> Seq<(PdfId, PdfValue)> {
    objects.map_values(
        |entry: (PdfId, PdfValue)|
            (
                entry.0,
                scrubbed_value(
                    entry.1,
                    annotations.contains(entry.0),
                    holders.contains(entry.0),
                ),
            ),
    )
}

fn scrub_table(
    objects: Vec<(PdfId, PdfObject)>,
    annotations: &Vec<PdfId>,
    holders: &Vec<PdfId>,
) -> (scrubbed: Vec<(PdfId, PdfObject)>)
    ensures
        table_value(scrubbed@) == scrubbed_table(table_value(objects@), annotations@, holders@),
{
    let ghost expected = scrubbed_table(table_value(objects@), annotations@, holders@);
    let mut scrubbed: Vec<(PdfId, PdfObject)> = Vec::new();
    let mut i: usize = 0;
    while i < objects.len()
        invariant
            i <= objects@.len(),
            scrubbed@.len() == i,
            expected == scrubbed_table(table_value(objects@), annotations@, holders@),
            forall|j: int|
                0 <= j < i ==> ((#[trigger] scrubbed@[j]).0, scrubbed@[j].1@) == expected[j],
        decreases objects.len() - i,
    {
        let entry = &objects[i];
        assert(table_value(objects@)[i as int] == (entry.0, entry.1@));
        let annotation = contains_id(annotations, entry.0);
        let holder = contains_id(holders, entry.0);
        scrubbed.push((entry.0, scrub_object(copy_object(&entry.1), annotation, holder)));
        i += 1;
    }
    assert(table_value(scrubbed@) =~= expected);
    scrubbed
}

/// A document without its metadata, and without the objects that nothing refers
/// to any more.
pub open spec fn scrubbed_document(document: PdfDocumentValue) -> PdfDocumentValue {
    pruned_pdf(
        PdfDocumentValue {
            trailer: dict_remove(
                dict_remove(document.trailer, utf8("Info"@)),
                utf8("Metadata"@),
            ),
            objects: scrubbed_table(
                document.objects,
                annotation_ids_of(document.objects),
                holder_ids_of(document.objects),
            ),
            ..document
        },
    )
}

/// Remove the metadata of a document.
pub fn scrub_document(document: PdfDocument) -> (scrubbed: PdfDocument)
    ensures
        scrubbed@ == scrubbed_document(document@),
{
    let annotations = annotation_ids(&document.objects);
    let holders = holder_ids(&document.objects);
    let mut document = document;
    document.trailer.remove("Info");
    document.trailer.remove("Metadata");
    let mut objects: Vec<(PdfId, PdfObject)> = Vec::new();
    std::mem::swap(&mut objects, &mut document.objects);
    document.objects = scrub_table(objects, &annotations, &holders);
    prune(document)
}

/// What the check says of a PDF that still holds something.
pub open spec fn still_in_pdf(what: Seq<char>) -> Seq<char> {
    "The scrubbed PDF still contains "@ + what + "."@
}

/// Whether a signature names its signer.
pub open spec fn names_signer(entries: Seq<(Seq<u8>, PdfValue)>) -> bool {
    dict_has(entries, utf8("Name"@)) || dict_has(entries, utf8("Location"@)) || dict_has(
        entries,
        utf8("Reason"@),
    ) || dict_has(entries, utf8("ContactInfo"@)) || dict_has(entries, utf8("M"@))
}

/// Whether an annotation names its author or its modification date.
pub open spec fn names_author(entries: Seq<(Seq<u8>, PdfValue)>) -> bool {
    is_scrubbable(entries) && (dict_has(entries, utf8("T"@)) || dict_has(entries, utf8("M"@)))
}

/// Whether a value is an annotation that names its author.
pub open spec fn inline_names_author(value: PdfValue) -> bool {
    match value {
        PdfValue::Dictionary(entries) => names_author(entries),
        _ => false,
    }
}

/// Whether an annotation among these names its author.
pub open spec fn some_names_author(items: Seq<PdfValue>) -> bool {
    exists|i: int| 0 <= i < items.len() && inline_names_author(#[trigger] items[i])
}

/// Whether an annotation written inline into `/Annots` names its author.
pub open spec fn has_inline_author(entries: Seq<(Seq<u8>, PdfValue)>) -> bool {
    match dict_get(entries, utf8("Annots"@)) {
        Some(PdfValue::Array(items)) => some_names_author(items),
        _ => false,
    }
}

/// Whether a value is an array with an annotation that names its author.
pub open spec fn array_names_author(value: PdfValue) -> bool {
    match value {
        PdfValue::Array(items) => some_names_author(items),
        _ => false,
    }
}

/// The metadata that an object's dictionary still holds.
pub open spec fn dictionary_leftover(
    entries: Seq<(Seq<u8>, PdfValue)>,
    annotation: bool,
) -> Option<Seq<char>> {
    if dict_has(entries, utf8("Metadata"@)) {
        Some("a /Metadata reference"@)
    } else if dict_has(entries, utf8("PieceInfo"@)) {
        Some("a /PieceInfo entry"@)
    } else if is_signature(entries) && names_signer(entries) {
        Some("signer identity in a signature dictionary"@)
    } else if has_inline_author(entries) {
        Some("authorship on an inline annotation"@)
    } else if annotation && names_author(entries) {
        Some("annotation authorship"@)
    } else {
        None
    }
}

/// The metadata that an object still holds.
pub open spec fn object_leftover(value: PdfValue, annotation: bool, holder: bool) -> Option<
    Seq<char>,
> {
    if embeds_xmp(value) {
        Some("an XMP packet"@)
    } else if holder && array_names_author(value) {
        Some("authorship on an inline annotation"@)
    } else {
        match own_dictionary(value) {
            Some(entries) => dictionary_leftover(entries, annotation),
            None => None,
        }
    }
}

/// The metadata that the first object with some at or after `from` still holds.
pub open spec fn table_leftover(
    objects: Seq<(PdfId, PdfValue)>,
    annotations: Seq<PdfId>,
    holders: Seq<PdfId>,
    from: int,
) -> Option<Seq<char>>
    decreases objects.len() - from,
{
    if from < 0 || from >= objects.len() {
        None
    } else {
        match object_leftover(
            objects[from].1,
            annotations.contains(objects[from].0),
            holders.contains(objects[from].0),
        ) {
            Some(what) => Some(what),
            None => table_leftover(objects, annotations, holders, from + 1),
        }
    }
}

/// What the structural check says of a document: none of the keys or byte
/// patterns that a scrub removes may stand anywhere in it.
pub open spec fn checked_pdf(document: PdfDocumentValue) -> Result<(), Seq<char>> {
    if dict_has(document.trailer, utf8("Info"@)) || dict_has(
        document.trailer,
        utf8("Metadata"@),
    ) {
        Err(still_in_pdf("a trailer metadata entry"@))
    } else {
        match table_leftover(
            document.objects,
            annotation_ids_of(document.objects),
            holder_ids_of(document.objects),
            0,
        ) {
            Some(what) => Err(still_in_pdf(what)),
            None => Ok(()),
        }
    }
}

fn still_contains(what: &str) -> (text: String)
    ensures
        text@ == still_in_pdf(what@),
{
    let mut text = joined("The scrubbed PDF still contains ", what);
    text.append(".");
    text
}

fn annotation_names_author(dictionary: &PdfDictionary) -> (found: bool)
    ensures
        found == names_author(dictionary@),
{
    is_scrubbable_annotation(dictionary) && (dictionary.has("T") || dictionary.has("M"))
}

fn some_inline_author(items: &Vec<PdfObject>) -> (found: bool)
    ensures
        found == some_names_author(array_value(items@)),
{
    let mut i: usize = 0;
    while i < items.len()
        invariant
            i <= items@.len(),
            forall|j: int| 0 <= j < i ==> !inline_names_author(#[trigger] array_value(items@)[j]),
        decreases items.len() - i,
    {
        assert(array_value(items@)[i as int] == items@[i as int]@);
        if let PdfObject::Dictionary(annotation) = &items[i] {
            if annotation_names_author(annotation) {
                assert(inline_names_author(array_value(items@)[i as int]));
                return true;
            }
        }
        i += 1;
    }
    false
}

fn find_dictionary_leftover(dictionary: &PdfDictionary, annotation: bool) -> (what: Option<
    &'static str,
>)
    ensures
        match what {
            Some(what) => dictionary_leftover(dictionary@, annotation) == Some(what@),
            None => dictionary_leftover(dictionary@, annotation) is None,
        },
{
    if dictionary.has("Metadata") {
        return Some("a /Metadata reference");
    }
    if dictionary.has("PieceInfo") {
        return Some("a /PieceInfo entry");
    }
    if is_signature_dictionary(dictionary) && (dictionary.has("Name") || dictionary.has("Location")
        || dictionary.has("Reason") || dictionary.has("ContactInfo") || dictionary.has("M")) {
        return Some("signer identity in a signature dictionary");
    }
    let inline_author = match dictionary.get("Annots") {
        Some(PdfObject::Array(items)) => some_inline_author(items),
        _ => false,
    };
    if inline_author {
        return Some("authorship on an inline annotation");
    }
    if annotation && annotation_names_author(dictionary) {
        return Some("annotation authorship");
    }
    None
}

fn find_object_leftover(object: &PdfObject, annotation: bool, holder: bool) -> (what: Option<
    &'static str,
>)
    ensures
        match what {
            Some(what) => object_leftover(object@, annotation, holder) == Some(what@),
            None => object_leftover(object@, annotation, holder) is None,
        },
{
    if object_embeds_xmp(object) {
        return Some("an XMP packet");
    }
    if holder {
        if let PdfObject::Array(items) = object {
            if some_inline_author(items) {
                return Some("authorship on an inline annotation");
            }
        }
    }
    match object_dictionary(object) {
        Some(dictionary) => find_dictionary_leftover(dictionary, annotation),
        None => None,
    }
}

/// Independent object-graph walk: none of the keys or byte patterns the scrubber
/// removes may survive anywhere in the saved document.
pub fn verify_pdf_structure(document: &PdfDocument) -> (checked: Result<(), String>)
    ensures
        outcome(checked) == checked_pdf(document@),
{
    if document.trailer.has("Info") || document.trailer.has("Metadata") {
        return Err(still_contains("a trailer metadata entry"));
    }
    let annotations = annotation_ids(&document.objects);
    let holders = holder_ids(&document.objects);
    let mut i: usize = 0;
    while i < document.objects.len()
        invariant
            i <= document.objects@.len(),
            annotations@ == annotation_ids_of(document@.objects),
            holders@ == holder_ids_of(document@.objects),
            !dict_has(document@.trailer, utf8("Info"@)),
            !dict_has(document@.trailer, utf8("Metadata"@)),
            table_leftover(document@.objects, annotations@, holders@, 0) == table_leftover(
                document@.objects,
                annotations@,
                holders@,
                i as int,
            ),
        decreases document.objects.len() - i,
    {
        let entry = &document.objects[i];
        assert(document@.objects[i as int] == (entry.0, entry.1@));
        let annotation = contains_id(&annotations, entry.0);
        let holder = contains_id(&holders, entry.0);
        match find_object_leftover(&entry.1, annotation, holder) {
            Some(what) => {
                return Err(still_contains(what));
            },
            None => {},
        }
        i += 1;
    }
    Ok(())
}

/// A written PDF once it was read again: it must load, have as many pages as the
/// source, and pass the structural check.
pub open spec fn accepted_pdf(
    output: Seq<u8>,
    reparsed: Result<PdfDocumentValue, Seq<char>>,
    pages: nat,
    found_pages: nat,
) -> Result<Seq<u8>, Seq<char>> {
    match reparsed {
        Err(error) => Err("Could not validate the scrubbed PDF: "@ + error),
        Ok(document) => if found_pages != pages {
            Err("Could not validate the scrubbed PDF page count."@)
        } else {
            match checked_pdf(document) {
                Err(error) => Err(error),
                Ok(()) => Ok(output),
            }
        },
    }
}

/// The output of a scrub, once it was read again.
pub fn accept_scrubbed(
    output: Vec<u8>,
    reparsed: &Result<PdfDocument, String>,
    pages: usize,
    found_pages: usize,
) -> (accepted: Result<Vec<u8>, String>)
    ensures
        outcome(accepted) == accepted_pdf(
            output@,
            outcome(*reparsed),
            pages as nat,
            found_pages as nat,
        ),
{
    match reparsed {
        Err(error) => Err(joined("Could not validate the scrubbed PDF: ", error.as_str())),
        Ok(document) => {
            if found_pages != pages {
                return Err("Could not validate the scrubbed PDF page count.".to_owned());
            }
            match verify_pdf_structure(document) {
                Err(error) => Err(error),
                Ok(()) => Ok(output),
            }
        },
    }
}

/// How many pages a document has, when it could be loaded.
pub open spec fn pages_of(loaded: Result<PdfDocumentValue, Seq<char>>) -> nat {
    match loaded {
        Ok(document) => page_ids(document).len(),
        Err(_) => 0,
    }
}

/// A PDF file without its metadata, or why it cannot be made.
pub open spec fn scrubbed_pdf(bytes: Seq<u8>) -> Result<Seq<u8>, Seq<char>> {
    match loaded_pdf(bytes) {
        Err(error) => Err(error),
        Ok(document) => match written_pdf(scrubbed_document(document)) {
            Err(error) => Err("Could not create the scrubbed PDF: "@ + error),
            Ok(output) => accepted_pdf(
                output,
                loaded_pdf(output),
                page_ids(document).len(),
                pages_of(loaded_pdf(output)),
            ),
        },
    }
}

/// Remove the metadata of a PDF file. What is returned begins as a PDF does and
/// passes the structural check.
pub fn scrub_pdf(bytes: &[u8]) -> (scrubbed: Result<Vec<u8>, String>)
    ensures
        outcome(scrubbed) == scrubbed_pdf(bytes@),
        match scrubbed {
            Ok(output) => begins_with(output@, utf8("%PDF"@)) && match loaded_pdf(output@) {
                Ok(document) => checked_pdf(document) is Ok,
                Err(_) => false,
            },
            Err(_) => true,
        },
{
    let document = match load_pdf(bytes) {
        Ok(document) => document,
        Err(error) => {
            return Err(error);
        },
    };
    let pages: usize = list_pages(&document).len();
    match write_pdf(&scrub_document(document)) {
        Err(error) => Err(joined("Could not create the scrubbed PDF: ", error.as_str())),
        Ok(output) => {
            proof {
                lemma_header(output@);
            }
            let reparsed = load_pdf(&output);
            let found_pages: usize = match &reparsed {
                Ok(document) => list_pages(document).len(),
                Err(_) => 0,
            };
            accept_scrubbed(output, &reparsed, pages, found_pages)
        },
    }
}

proof fn lemma_header(bytes: Seq<u8>)
    requires
        begins_with(bytes, utf8("%PDF-"@)),
    ensures
        begins_with(bytes, utf8("%PDF"@)),
{
    reveal_strlit("%PDF-");
    reveal_strlit("%PDF");
    lemma_ascii("%PDF-");
    lemma_ascii("%PDF");
    assert(bytes.subrange(0, 4) =~= bytes.subrange(0, 5).subrange(0, 4));
    assert(utf8("%PDF"@) =~= utf8("%PDF-"@).subrange(0, 4));
}

} // verus!
