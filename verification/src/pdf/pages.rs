//! Loading a PDF, counting its pages, and the attributes a page inherits.

use vstd::prelude::*;

use crate::bytes::utf8;
use crate::pdf::model::{
    copy_dictionary, copy_object, dict_get, dict_has, dict_set, dictionary_of, find_dictionary,
    find_object, object_index_from, object_of, resolve_dictionary, resolved_dict, table_value,
    PdfDictionary, PdfDocument, PdfDocumentValue, PdfId, PdfObject, PdfValue, DEREFERENCE_LIMIT,
};
use crate::pdf::outside::{
    ids_distinct, list_pages, page_ids, parse_outcome, parse_pdf, parsed_pdf,
};
use crate::text::{joined, outcome};

verus! {

/// What a file says that is password-protected.
pub open spec fn encrypted_error() -> Seq<char> {
    "This PDF is password-protected, so its pages can't be read."@
}

/// The document in a file, or why it cannot be used: it does not parse, or it is
/// encrypted, be it with an empty password.
pub open spec fn loaded_pdf(bytes: Seq<u8>) -> Result<PdfDocumentValue, Seq<char>> {
    match parsed_pdf(bytes) {
        Err(error) => Err("Could not read this PDF: "@ + error),
        Ok(None) => Err(encrypted_error()),
        Ok(Some(document)) => if dict_has(document.trailer, utf8("Encrypt"@)) {
            Err(encrypted_error())
        } else {
            Ok(document)
        },
    }
}

/// A parsed document, unless it is encrypted or was decrypted. An encrypted file has
/// an unreadable page tree, so it is refused before any operation reads it.
pub fn accept_parsed(parsed: Result<(PdfDocument, bool), String>) -> (document: Result<
    PdfDocument,
    String,
>)
    ensures
        outcome(document) == match parse_outcome(parsed) {
            Err(error) => Err("Could not read this PDF: "@ + error),
            Ok(None) => Err(encrypted_error()),
            Ok(Some(document)) => if dict_has(document.trailer, utf8("Encrypt"@)) {
                Err(encrypted_error())
            } else {
                Ok(document)
            },
        },
{
    match parsed {
        Err(error) => Err(joined("Could not read this PDF: ", error.as_str())),
        Ok((document, decrypted)) => {
            if decrypted || document.trailer.has("Encrypt") {
                Err("This PDF is password-protected, so its pages can't be read.".to_owned())
            } else {
                Ok(document)
            }
        },
    }
}

/// Parse a PDF and reject encryption before any operation reads its page tree. No two
/// objects of the document have the same number.
pub fn load_pdf(bytes: &[u8]) -> (document: Result<PdfDocument, String>)
    ensures
        outcome(document) == loaded_pdf(bytes@),
        match document {
            Ok(document) => ids_distinct(document@.objects),
            Err(_) => true,
        },
{
    let parsed = parse_pdf(bytes);
    let ghost values = parse_outcome(parsed);
    assert(values matches Ok(Some(document)) ==> ids_distinct(document.objects));
    let accepted = accept_parsed(parsed);
    accepted
}

/// A document that was read without being decrypted.
pub open spec fn undecrypted(parsed: Result<Option<PdfDocumentValue>, Seq<char>>) -> Result<
    PdfDocumentValue,
    Seq<char>,
> {
    match parsed {
        Err(error) => Err(error),
        Ok(None) => Err(encrypted_error()),
        Ok(Some(document)) => Ok(document),
    }
}

/// Refuse a document that had to be decrypted.
pub fn refuse_decrypted(parsed: Result<(PdfDocument, bool), String>) -> (document: Result<
    PdfDocument,
    String,
>)
    ensures
        outcome(document) == undecrypted(parse_outcome(parsed)),
{
    match parsed {
        Err(error) => Err(error),
        Ok((document, decrypted)) => {
            if decrypted {
                Err("This PDF is password-protected, so its pages can't be read.".to_owned())
            } else {
                Ok(document)
            }
        },
    }
}

/// The number of pages of a file, or why they cannot be counted.
pub open spec fn counted_pages(bytes: Seq<u8>) -> Result<u32, Seq<char>> {
    match loaded_pdf(bytes) {
        Err(error) => Err(error),
        Ok(document) => if page_ids(document).len() > u32::MAX {
            Err("This PDF has too many pages to count."@)
        } else {
            Ok(page_ids(document).len() as u32)
        },
    }
}

/// Parse a PDF from memory and return its page count.
pub fn page_count(bytes: &[u8]) -> (count: Result<u32, String>)
    ensures
        outcome(count) == counted_pages(bytes@),
{
    match load_pdf(bytes) {
        Err(error) => Err(error),
        Ok(document) => {
            let pages = list_pages(&document);
            if pages.len() > u32::MAX as usize {
                Err("This PDF has too many pages to count.".to_owned())
            } else {
                Ok(pages.len() as u32)
            }
        },
    }
}

/// Parse a PDF from memory and return its number of pages.
pub fn pdf_page_count(bytes: &[u8]) -> (count: Result<u32, String>)
    ensures
        outcome(count) == counted_pages(bytes@),
{
    page_count(bytes)
}

/// The value of `key` on a page or on the nearest ancestor that has it, looking
/// at no more than `left` dictionaries.
pub open spec fn inherited(
    objects: Seq<(PdfId, PdfValue)>,
    id: PdfId,
    key: Seq<char>,
    left: nat,
) -> Option<PdfValue>
    decreases left,
{
    if left == 0 {
        None
    } else {
        match dictionary_of(objects, id) {
            Some(entries) => match dict_get(entries, utf8(key)) {
                Some(value) => Some(value),
                None => match dict_get(entries, utf8("Parent"@)) {
                    Some(PdfValue::Reference(parent)) => inherited(
                        objects,
                        parent,
                        key,
                        (left - 1) as nat,
                    ),
                    _ => None,
                },
            },
            None => None,
        }
    }
}

/// The value of `key` that applies to a page. A chain of parents that is longer
/// than the document has objects goes in a circle.
pub open spec fn page_attribute(
    objects: Seq<(PdfId, PdfValue)>,
    id: PdfId,
    key: Seq<char>,
) -> Option<PdfValue> {
    inherited(objects, id, key, objects.len() + 1)
}

/// Find a page attribute, following its parent chain when the value is inherited.
pub fn inherited_page_attribute(
    objects: &Vec<(PdfId, PdfObject)>,
    page_id: PdfId,
    key: &str,
) -> (value: Option<PdfObject>)
    ensures
        match value {
            Some(value) => page_attribute(table_value(objects@), page_id, key@) == Some(value@),
            None => page_attribute(table_value(objects@), page_id, key@) is None,
        },
{
    let ghost table = table_value(objects@);
    let mut current = page_id;
    let mut step: usize = 0;
    let last: usize = objects.len();
    loop
        invariant
            table == table_value(objects@),
            last == objects@.len(),
            step <= last,
            page_attribute(table, page_id, key@) == inherited(
                table,
                current,
                key@,
                (last + 1 - step) as nat,
            ),
        decreases last + 1 - step,
    {
        match find_dictionary(objects, current) {
            Some(dictionary) => {
                if let Some(value) = dictionary.get(key) {
                    return Some(copy_object(value));
                }
                match dictionary.reference("Parent") {
                    Some(parent) => {
                        current = parent;
                    },
                    None => {
                        return None;
                    },
                }
            },
            None => {
                return None;
            },
        }
        if step == last {
            assert(inherited(table, current, key@, 0) is None);
            return None;
        }
        step += 1;
    }
}

/// A page's own entries with one inherited attribute written onto it.
pub open spec fn with_attribute(
    objects: Seq<(PdfId, PdfValue)>,
    id: PdfId,
    page: Seq<(Seq<u8>, PdfValue)>,
    key: Seq<char>,
) -> Seq<(Seq<u8>, PdfValue)> {
    match page_attribute(objects, id, key) {
        Some(value) => if dict_has(page, utf8(key)) {
            page
        } else {
            dict_set(page, utf8(key), value)
        },
        None => page,
    }
}

/// A page with every attribute that it may inherit written onto it.
pub open spec fn with_inherited(
    objects: Seq<(PdfId, PdfValue)>,
    id: PdfId,
    page: Seq<(Seq<u8>, PdfValue)>,
) -> Seq<(Seq<u8>, PdfValue)> {
    with_attribute(
        objects,
        id,
        with_attribute(
            objects,
            id,
            with_attribute(objects, id, with_attribute(objects, id, page, "Resources"@), "MediaBox"@),
            "CropBox"@,
        ),
        "Rotate"@,
    )
}

fn write_attribute(
    objects: &Vec<(PdfId, PdfObject)>,
    id: PdfId,
    page: &mut PdfDictionary,
    key: &str,
)
    ensures
        final(page)@ == with_attribute(table_value(objects@), id, old(page)@, key@),
{
    if let Some(value) = inherited_page_attribute(objects, id, key) {
        if !page.has(key) {
            page.set(key, value);
        }
    }
}

/// Write every attribute that a page may inherit onto a copy of it.
pub fn write_inherited(objects: &Vec<(PdfId, PdfObject)>, id: PdfId, page: &mut PdfDictionary)
    ensures
        final(page)@ == with_inherited(table_value(objects@), id, old(page)@),
{
    write_attribute(objects, id, page, "Resources");
    write_attribute(objects, id, page, "MediaBox");
    write_attribute(objects, id, page, "CropBox");
    write_attribute(objects, id, page, "Rotate");
}

/// The number of the object that a chain of references ends at.
pub open spec fn final_id(objects: Seq<(PdfId, PdfValue)>, id: PdfId, left: nat) -> PdfId
    decreases left,
{
    match object_of(objects, id) {
        Some(PdfValue::Reference(next)) => if left == 0 {
            id
        } else {
            final_id(objects, next, (left - 1) as nat)
        },
        _ => id,
    }
}

fn find_final_id(objects: &Vec<(PdfId, PdfObject)>, id: PdfId) -> (end: PdfId)
    ensures
        end == final_id(table_value(objects@), id, DEREFERENCE_LIMIT as nat),
{
    let ghost table = table_value(objects@);
    let mut current = id;
    let mut left: usize = DEREFERENCE_LIMIT;
    loop
        invariant
            table == table_value(objects@),
            final_id(table, id, DEREFERENCE_LIMIT as nat) == final_id(table, current, left as nat),
        decreases left,
    {
        match find_object(objects, current) {
            Some(PdfObject::Reference(next)) => {
                if left == 0 {
                    return current;
                }
                current = *next;
                left -= 1;
            },
            _ => {
                return current;
            },
        }
    }
}

/// The object table with the dictionary object that `id` leads to replaced.
pub open spec fn replace_dictionary(
    objects: Seq<(PdfId, PdfValue)>,
    id: PdfId,
    entries: Seq<(Seq<u8>, PdfValue)>,
) -> Seq<(PdfId, PdfValue)> {
    let end = final_id(objects, id, DEREFERENCE_LIMIT as nat);
    match object_index_from(objects, end, 0) {
        Some(i) => objects.update(i, (end, PdfValue::Dictionary(entries))),
        None => objects,
    }
}

/// Replace the dictionary object that `id` leads to.
pub fn replace_object_dictionary(
    objects: &mut Vec<(PdfId, PdfObject)>,
    id: PdfId,
    dictionary: PdfDictionary,
)
    ensures
        table_value(final(objects)@) == replace_dictionary(
            table_value(old(objects)@),
            id,
            dictionary@,
        ),
{
    let ghost table = table_value(objects@);
    let end = find_final_id(objects, id);
    let mut i: usize = 0;
    while i < objects.len()
        invariant
            i <= objects@.len(),
            objects@ == old(objects)@,
            table == table_value(objects@),
            end == final_id(table, id, DEREFERENCE_LIMIT as nat),
            object_index_from(table, end, 0) == object_index_from(table, end, i as int),
        decreases objects.len() - i,
    {
        let found = objects[i].0;
        if found.0 == end.0 && found.1 == end.1 {
            objects.set(i, (end, PdfObject::Dictionary(dictionary)));
            assert(table_value(objects@) =~= replace_dictionary(table, id, dictionary@));
            return;
        }
        i += 1;
    }
}

/// A document's catalog, or no entries when it has none.
pub open spec fn catalog_of(document: PdfDocumentValue) -> Seq<(Seq<u8>, PdfValue)> {
    match resolved_dict(document.objects, dict_get(document.trailer, utf8("Root"@))) {
        Some(entries) => entries,
        None => Seq::empty(),
    }
}

/// Return a document's catalog dictionary by value, or an empty one when the
/// document has none.
pub fn document_catalog(document: &PdfDocument) -> (catalog: PdfDictionary)
    ensures
        catalog@ == catalog_of(document@),
{
    match resolve_dictionary(&document.objects, document.trailer.get("Root")) {
        Some(dictionary) => copy_dictionary(dictionary),
        None => PdfDictionary::empty(),
    }
}

} // verus!
