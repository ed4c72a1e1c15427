//! The calls into `lopdf`: parsing and writing a file, walking its page tree,
//! renumbering, pruning, and decoding streams and text.
//!
//! Every call takes the plain document and hands plain values back. What
//! converts between the two object models moves values one for one.

use lopdf::xref::XrefType;
use lopdf::{Dictionary, Document, Object, Stream, StringFormat};
use vstd::prelude::*;

use crate::pdf::counts::counts_are_modest;
use crate::pdf::model::{
    contains_id, copy_object, dictionary_of, table_value, PdfDictionary, PdfDocument,
    PdfDocumentValue, PdfId, PdfObject, PdfStream, PdfValue, TextFormat, XrefKind,
};

verus! {

/// `lopdf::Document`, carried without looking inside.
#[verifier::external_type_specification]
#[verifier::external_body]
pub struct ExDocument(Document);

/// `lopdf::Object`, carried without looking inside.
#[verifier::external_type_specification]
#[verifier::external_body]
pub struct ExObject(Object);

/// `lopdf::Dictionary`, carried without looking inside.
#[verifier::external_type_specification]
#[verifier::external_body]
pub struct ExDictionary(Dictionary);

/// `lopdf::Stream`, carried without looking inside.
#[verifier::external_type_specification]
#[verifier::external_body]
pub struct ExStream(Stream);

/// `lopdf::StringFormat`, carried without looking inside.
#[verifier::external_type_specification]
#[verifier::external_body]
pub struct ExStringFormat(StringFormat);

/// Converts a text with its `lopdf::StringFormat`, variant by variant.
#[verifier::external_body]
fn plain_text(text: Vec<u8>, format: StringFormat) -> PdfObject {
    match format {
        StringFormat::Literal => PdfObject::Text(text, TextFormat::Literal),
        StringFormat::Hexadecimal => PdfObject::Text(text, TextFormat::Hexadecimal),
    }
}

/// Converts a text into a `lopdf::Object`, format by format.
#[verifier::external_body]
fn outside_text(text: &Vec<u8>, format: &TextFormat) -> Object {
    match format {
        TextFormat::Literal => Object::String(text.clone(), StringFormat::Literal),
        TextFormat::Hexadecimal => Object::String(text.clone(), StringFormat::Hexadecimal),
    }
}

/// Converts a `lopdf::Object`, variant by variant. A real number is carried as
/// its shortest decimal text.
#[verifier::external_body]
fn plain_object(object: Object) -> PdfObject {
    match object {
        Object::Null => PdfObject::Null,
        Object::Boolean(value) => PdfObject::Boolean(value),
        Object::Integer(value) => PdfObject::Integer(value),
        Object::Real(value) => PdfObject::Real(value.to_string()),
        Object::Name(name) => PdfObject::Name(name),
        Object::String(text, format) => plain_text(text, format),
        Object::Array(items) => PdfObject::Array(items.into_iter().map(plain_object).collect()),
        Object::Dictionary(entries) => PdfObject::Dictionary(plain_dictionary(entries)),
        Object::Stream(stream) => PdfObject::Stream(plain_stream(stream)),
        Object::Reference(id) => PdfObject::Reference(id),
    }
}

/// Converts a `lopdf::Dictionary`, entry by entry in its own order.
#[verifier::external_body]
fn plain_dictionary(dictionary: Dictionary) -> PdfDictionary {
    PdfDictionary {
        entries: dictionary.into_iter().map(|(key, value)| (key, plain_object(value))).collect(),
    }
}

/// Converts a `lopdf::Stream`, field by field.
#[verifier::external_body]
fn plain_stream(stream: Stream) -> PdfStream {
    PdfStream {
        dict: plain_dictionary(stream.dict),
        content: stream.content,
        allows_compression: stream.allows_compression,
        start_position: stream.start_position,
    }
}

/// Converts a `lopdf::Document`, field by field.
#[verifier::external_body]
fn plain_document(document: Document) -> PdfDocument {
    PdfDocument {
        version: document.version,
        binary_mark: document.binary_mark,
        trailer: plain_dictionary(document.trailer),
        objects: document.objects.into_iter().map(|(id, object)| (id, plain_object(object))).collect(),
        max_id: document.max_id,
        xref: match document.reference_table.cross_reference_type {
            XrefType::CrossReferenceStream => XrefKind::Stream,
            XrefType::CrossReferenceTable => XrefKind::Table,
        },
    }
}

/// Converts an object into a `lopdf::Object`, variant by variant.
#[verifier::external_body]
fn outside_object(object: &PdfObject) -> Object {
    match object {
        PdfObject::Null => Object::Null,
        PdfObject::Boolean(value) => Object::Boolean(*value),
        PdfObject::Integer(value) => Object::Integer(*value),
        PdfObject::Real(text) => Object::Real(text.parse().unwrap_or_default()),
        PdfObject::Name(name) => Object::Name(name.clone()),
        PdfObject::Text(text, format) => outside_text(text, format),
        PdfObject::Array(items) => Object::Array(items.iter().map(outside_object).collect()),
        PdfObject::Dictionary(entries) => Object::Dictionary(outside_dictionary(entries)),
        PdfObject::Stream(stream) => Object::Stream(outside_stream(stream)),
        PdfObject::Reference(id) => Object::Reference(*id),
    }
}

/// Converts a dictionary into a `lopdf::Dictionary`, entry by entry.
#[verifier::external_body]
fn outside_dictionary(dictionary: &PdfDictionary) -> Dictionary {
    dictionary.entries.iter().map(|(key, value)| (key.clone(), outside_object(value))).collect()
}

/// Converts a stream into a `lopdf::Stream`, field by field.
#[verifier::external_body]
fn outside_stream(stream: &PdfStream) -> Stream {
    Stream {
        dict: outside_dictionary(&stream.dict),
        content: stream.content.clone(),
        allows_compression: stream.allows_compression,
        start_position: stream.start_position,
    }
}

/// Converts a document into a `lopdf::Document`, field by field.
#[verifier::external_body]
fn outside_document(document: &PdfDocument) -> Document {
    let mut outside = Document::with_version(document.version.as_str());
    outside.binary_mark = document.binary_mark.clone();
    outside.trailer = outside_dictionary(&document.trailer);
    outside.objects = document.objects.iter().map(|(id, object)| (*id, outside_object(object))).collect();
    outside.max_id = document.max_id;
    outside.reference_table.cross_reference_type = match document.xref {
        XrefKind::Stream => XrefType::CrossReferenceStream,
        XrefKind::Table => XrefType::CrossReferenceTable,
    };
    outside
}

/// What `lopdf::Document::load_mem` reads from a file, or the text of its error.
/// Nothing is named for a file that it decrypts with the empty password: it walks the
/// object streams of such a file in no fixed order, and where two of them hold the
/// same object either may win.
pub uninterp spec fn parsed_pdf(bytes: Seq<u8>) -> Result<Option<PdfDocumentValue>, Seq<char>>;

/// A document that was read, with whether it was decrypted, by its values.
pub open spec fn parse_outcome(parsed: Result<(PdfDocument, bool), String>) -> Result<
    Option<PdfDocumentValue>,
    Seq<char>,
> {
    match parsed {
        Err(error) => Err(error@),
        Ok((document, decrypted)) => if decrypted {
            Ok(None)
        } else {
            Ok(Some(document@))
        },
    }
}

/// Whether no two objects of a table have the same number.
pub open spec fn ids_distinct(objects: Seq<(PdfId, PdfValue)>) -> bool {
    forall|i: int, j: int|
        0 <= i < j < objects.len() ==> (#[trigger] objects[i]).0 != (#[trigger] objects[j]).0
}

/// `lopdf::Document::load_mem`: the document that the bytes hold, with what
/// `lopdf::Document::was_encrypted` says of it, or the text of the error. Whether a
/// file is read, is refused or is decrypted is a function of the bytes, and so is the
/// document where none was decrypted. The objects come out of a map, so no two have
/// the same number.
#[verifier::external_body]
pub(crate) fn parse_pdf(bytes: &[u8]) -> (parsed: Result<(PdfDocument, bool), String>)
    ensures
        parse_outcome(parsed) == parsed_pdf(bytes@),
        match parsed {
            Ok((document, _)) => ids_distinct(document@.objects),
            Err(_) => true,
        },
{
    let document = Document::load_mem(bytes).map_err(|error| error.to_string())?;
    let decrypted = document.was_encrypted();
    Ok((plain_document(document), decrypted))
}

/// What `lopdf::Document::save_to` writes, or the text of its error.
pub uninterp spec fn written_pdf(document: PdfDocumentValue) -> Result<Seq<u8>, Seq<char>>;

/// `lopdf::Document::save_to`: the file's bytes, or the text of the error. The
/// result is a function of the document, and a file begins with `%PDF-`.
#[verifier::external_body]
pub(crate) fn write_pdf(document: &PdfDocument) -> (written: Result<Vec<u8>, String>)
    ensures
        crate::text::outcome(written) == written_pdf(document@),
        written matches Ok(bytes) ==> crate::bytes::begins_with(bytes@, crate::bytes::utf8("%PDF-"@)),
{
    let mut bytes = Vec::new();
    outside_document(document).save_to(&mut bytes).map(|_| bytes).map_err(|error| error.to_string())
}

/// The page objects that `lopdf::Document::page_iter` gives, in page order.
pub uninterp spec fn page_ids(document: PdfDocumentValue) -> Seq<PdfId>;

/// `lopdf::Document::page_iter`: the page objects in page order. The walk visits
/// at most as many page-tree entries as the document has objects. The pages are taken
/// one by one, so that no room is made for as many as the tree declares.
#[verifier::external_body]
pub(crate) fn list_pages(document: &PdfDocument) -> (pages: Vec<PdfId>)
    ensures
        pages@ == page_ids(document@),
        pages@.len() <= document@.objects.len(),
{
    let outside = outside_document(document);
    let mut pages = Vec::new();
    for page in outside.page_iter() {
        pages.push(page);
    }
    pages
}

/// Whether the numbers of a table ascend and lie in the range of `count` numbers that
/// begins with `start`.
pub open spec fn lies_within(objects: Seq<(PdfId, PdfValue)>, start: nat, count: nat) -> bool {
    &&& forall|i: int|
        0 <= i < objects.len() ==> start <= (#[trigger] objects[i]).0.0 < start + count
    &&& forall|i: int, j: int|
        0 <= i < j < objects.len() ==> (#[trigger] objects[i]).0.0 < (#[trigger] objects[j]).0.0
}

/// What `lopdf::Document::renumber_objects_with` makes of a document.
pub uninterp spec fn renumbered_pdf(document: PdfDocumentValue, start: u32) -> PdfDocumentValue;

/// `lopdf::Document::renumber_objects_with`: the document with its objects
/// numbered from `start` on and every reference rewritten. Each object has a number of
/// its own in the range that begins there, and the table is in the order of the numbers.
/// It stops with a panic when the numbers run out, and when the page tree declares more
/// pages than there can be room for, which the precondition rules out.
#[verifier::external_body]
pub(crate) fn renumber(document: &PdfDocument, start: u32) -> (renumbered: PdfDocument)
    requires
        0 < start,
        start + document@.objects.len() <= u32::MAX,
        counts_are_modest(document@),
    ensures
        renumbered@ == renumbered_pdf(document@, start),
        renumbered@.objects.len() <= document@.objects.len(),
        lies_within(renumbered@.objects, start as nat, document@.objects.len()),
{
    let mut outside = outside_document(document);
    outside.renumber_objects_with(start);
    plain_document(outside)
}

/// Whether a value holds a reference to this object.
pub open spec fn mentions(value: PdfValue, id: PdfId) -> bool
    decreases value,
{
    match value {
        PdfValue::Reference(found) => found == id,
        PdfValue::Array(items) => items_mention(items, id),
        PdfValue::Dictionary(entries) => entries_mention(entries, id),
        PdfValue::Stream(stream) => entries_mention(stream.dict, id),
        _ => false,
    }
}

/// Whether an array holds a reference to this object.
pub open spec fn items_mention(items: Seq<PdfValue>, id: PdfId) -> bool
    decreases items,
{
    exists|i: int| 0 <= i < items.len() && mentions(#[trigger] items[i], id)
}

/// Whether a dictionary holds a reference to this object.
pub open spec fn entries_mention(entries: Seq<(Seq<u8>, PdfValue)>, id: PdfId) -> bool
    decreases entries,
{
    exists|i: int|
        0 <= i < entries.len() && is_last_of_key(entries, i) && mentions(
            (#[trigger] entries[i]).1,
            id,
        )
}

/// Whether no later entry has the same key.
pub open spec fn is_last_of_key(entries: Seq<(Seq<u8>, PdfValue)>, at: int) -> bool {
    forall|j: int| at < j < entries.len() ==> (#[trigger] entries[j]).0 != entries[at].0
}

/// Whether the last object with this number is `value`.
pub open spec fn stands_for(document: PdfDocumentValue, id: PdfId, value: PdfValue) -> bool {
    exists|i: int|
        0 <= i < document.objects.len() && #[trigger] document.objects[i] == (id, value) && forall|
            j: int,
        |
            i < j < document.objects.len() ==> (#[trigger] document.objects[j]).0 != id
}

/// Whether the object with this number holds a reference to another.
pub open spec fn leads_to(document: PdfDocumentValue, from: PdfId, to: PdfId) -> bool {
    exists|value: PdfValue| #[trigger] stands_for(document, from, value) && mentions(value, to)
}

/// Whether each object of a chain holds a reference to the next, beginning at
/// the trailer.
pub open spec fn is_chain(document: PdfDocumentValue, chain: Seq<PdfId>) -> bool {
    &&& chain.len() > 0
    &&& entries_mention(document.trailer, chain[0])
    &&& forall|i: int|
        0 <= i < chain.len() - 1 ==> leads_to(document, #[trigger] chain[i], chain[i + 1])
}

/// Whether references lead from the trailer to this object.
pub open spec fn reachable(document: PdfDocumentValue, id: PdfId) -> bool {
    exists|chain: Seq<PdfId>| #[trigger] is_chain(document, chain) && chain.last() == id
}

/// A document without the objects that nothing leads to.
pub open spec fn pruned_pdf(document: PdfDocumentValue) -> PdfDocumentValue {
    PdfDocumentValue {
        objects: document.objects.filter(
            |entry: (PdfId, PdfValue)| reachable(document, entry.0),
        ),
        ..document
    }
}

/// Whether the object table holds this number.
pub open spec fn in_table(document: PdfDocumentValue, id: PdfId) -> bool {
    exists|i: int| 0 <= i < document.objects.len() && (#[trigger] document.objects[i]).0 == id
}

/// Whether a list holds exactly the numbers of the objects that nothing leads to.
pub open spec fn lists_unused(unused: Seq<PdfId>, document: PdfDocumentValue) -> bool {
    forall|id: PdfId|
        #[trigger] unused.contains(id) <==> in_table(document, id) && !reachable(document, id)
}

/// `lopdf::Document::prune_objects`: the numbers it removes, which are those of
/// the objects to which no chain of references leads from the trailer.
#[verifier::external_body]
pub(crate) fn unused_objects(document: &PdfDocument) -> (unused: Vec<PdfId>)
    ensures
        lists_unused(unused@, document@),
{
    outside_document(document).prune_objects()
}

/// Remove the objects to which no chain of references leads from the trailer.
pub fn prune(document: PdfDocument) -> (pruned: PdfDocument)
    ensures
        pruned@ == pruned_pdf(document@),
{
    let unused = unused_objects(&document);
    let ghost before = document@;
    let ghost keep = |entry: (PdfId, PdfValue)| reachable(before, entry.0);
    let mut objects: Vec<(PdfId, PdfObject)> = Vec::new();
    let mut i: usize = 0;
    while i < document.objects.len()
        invariant
            i <= document.objects@.len(),
            before == document@,
            keep == (|entry: (PdfId, PdfValue)| reachable(before, entry.0)),
            table_value(objects@) == before.objects.take(i as int).filter(keep),
            lists_unused(unused@, before),
        decreases document.objects.len() - i,
    {
        let entry = &document.objects[i];
        let ghost next = before.objects.take(i + 1);
        proof {
            assert(before.objects[i as int].0 == entry.0);
            assert(in_table(before, entry.0));
            assert(next.drop_last() =~= before.objects.take(i as int));
            reveal(Seq::filter);
        }
        if !contains_id(&unused, entry.0) {
            objects.push((entry.0, copy_object(&entry.1)));
            assert(table_value(objects@) =~= before.objects.take(i as int).filter(keep).push(
                before.objects[i as int],
            ));
        }
        i += 1;
    }
    assert(before.objects.take(before.objects.len() as int) =~= before.objects);
    PdfDocument {
        version: document.version,
        binary_mark: document.binary_mark,
        trailer: document.trailer,
        objects,
        max_id: document.max_id,
        xref: document.xref,
    }
}

/// What `lopdf::Document::compress` makes of a document.
pub uninterp spec fn deflated_pdf(document: PdfDocumentValue) -> PdfDocumentValue;

/// `lopdf::Document::compress`: the document with its unfiltered streams
/// compressed where that makes them smaller. The result is a function of the
/// document.
#[verifier::external_body]
pub(crate) fn deflate_streams(document: &PdfDocument) -> (deflated: PdfDocument)
    ensures
        deflated@ == deflated_pdf(document@),
{
    let mut outside = outside_document(document);
    outside.compress();
    plain_document(outside)
}

/// The error text of a lookup that finds no dictionary.
pub uninterp spec fn dictionary_error_text(document: PdfDocumentValue, id: PdfId) -> Seq<char>;

/// `lopdf::Document::get_dictionary` on an object that is missing or no
/// dictionary: the text of its error.
#[verifier::external_body]
pub(crate) fn dictionary_error(document: &PdfDocument, id: PdfId) -> (text: String)
    requires
        dictionary_of(document@.objects, id) is None,
    ensures
        text@ == dictionary_error_text(document@, id),
{
    match outside_document(document).get_dictionary(id) {
        Ok(_) => String::new(),
        Err(error) => error.to_string(),
    }
}

/// What bytes stand for once the filters named by `/Filter`, with the parameters
/// of `/DecodeParms`, are undone, when that is possible.
pub uninterp spec fn unfiltered(
    filter: Option<PdfValue>,
    parameters: Option<PdfValue>,
    content: Seq<u8>,
) -> Option<Seq<u8>>;

/// An optional object by its value.
pub open spec fn optional_object(object: Option<&PdfObject>) -> Option<PdfValue> {
    match object {
        Some(object) => Some(object@),
        None => None,
    }
}

/// `lopdf::Stream::get_plain_content` on a stream with these two entries: its
/// bytes with its filters undone, or `None` where a filter is unknown or fails.
/// A stream without a `/Filter` is its own bytes.
#[verifier::external_body]
pub(crate) fn undo_filters(
    filter: Option<&PdfObject>,
    parameters: Option<&PdfObject>,
    content: &[u8],
) -> (plain: Option<Vec<u8>>)
    ensures
        match plain {
            Some(bytes) => unfiltered(
                optional_object(filter),
                optional_object(parameters),
                content@,
            ) == Some(bytes@),
            None => unfiltered(optional_object(filter), optional_object(parameters), content@)
                is None,
        },
        filter is None ==> plain is Some && plain->0@ == content@,
{
    let named = filter.map(|object| ("Filter", outside_object(object)));
    let shaped = parameters.map(|object| ("DecodeParms", outside_object(object)));
    Stream::new(named.into_iter().chain(shaped).collect(), content.to_vec()).get_plain_content().ok()
}

/// The text that a PDF string stands for, when it can be decoded.
pub uninterp spec fn pdf_text(text: Seq<u8>) -> Option<Seq<char>>;

/// `lopdf::decode_text_string`: the text of a PDF string, or `None` where its
/// encoding is broken.
#[verifier::external_body]
pub(crate) fn decode_pdf_text(text: &[u8]) -> (decoded: Option<String>)
    ensures
        match decoded {
            Some(decoded) => pdf_text(text@) == Some(decoded@),
            None => pdf_text(text@) is None,
        },
{
    lopdf::decode_text_string(&Object::string_literal(text)).ok()
}

} // verus!
