//! What a PDF says about its author, its origin and its history.

use vstd::prelude::*;

use crate::bytes::{copy_bytes, is_text, utf8};
use crate::encoding::{lossy_detail, lossy_detail_of, lossy_text, lossy_utf8};
use crate::metadata::item::{item, item_values, ItemValue, MetadataItem};
use crate::metadata::xmp::{contains_xmp, has_xmp};
use crate::pdf::model::{
    array_value, contains_id, dict_get, dict_has, find_object, id_before, look_up, looked_up, name_at,
    object_dictionary, object_of, own_dictionary, table_value, PdfDictionary, PdfDocument,
    PdfDocumentValue, PdfId, PdfObject, PdfStream, PdfStreamValue, PdfValue, DEREFERENCE_LIMIT,
};
use crate::pdf::outside::{decode_pdf_text, pdf_text, undo_filters, unfiltered};
use crate::text::{decimal, decimal_text, json_bool, signed_decimal, signed_decimal_text};

verus! {

/// A value as a report shows it, once references are followed.
pub open spec fn value_detail(objects: Seq<(PdfId, PdfValue)>, value: PdfValue) -> Seq<char> {
    let found = match looked_up(objects, value) {
        Some(found) => found,
        None => value,
    };
    match found {
        PdfValue::Text(text, _) => match pdf_text(text) {
            Some(decoded) => decoded,
            None => lossy_detail_of(text),
        },
        PdfValue::Name(name) => lossy_detail_of(name),
        PdfValue::Boolean(value) => json_bool(value),
        PdfValue::Integer(value) => signed_decimal(value as int),
        PdfValue::Real(text) => text,
        _ => "(non-text value)"@,
    }
}

/// A value as a report shows it.
pub fn pdf_value_detail(objects: &Vec<(PdfId, PdfObject)>, value: &PdfObject) -> (detail: String)
    ensures
        detail@ == value_detail(table_value(objects@), value@),
{
    let found = match look_up(objects, value) {
        Some(found) => found,
        None => value,
    };
    match found {
        PdfObject::Text(text, _) => match decode_pdf_text(text) {
            Some(decoded) => decoded,
            None => lossy_detail(text),
        },
        PdfObject::Name(name) => lossy_detail(name),
        PdfObject::Boolean(value) => if *value {
            "true".to_owned()
        } else {
            "false".to_owned()
        },
        PdfObject::Integer(value) => signed_decimal_text(*value),
        PdfObject::Real(text) => text.as_str().to_owned(),
        _ => "(non-text value)".to_owned(),
    }
}

/// The dictionary that a value is, once references are followed.
pub open spec fn looked_up_dict(objects: Seq<(PdfId, PdfValue)>, value: PdfValue) -> Option<
    Seq<(Seq<u8>, PdfValue)>,
> {
    match looked_up(objects, value) {
        Some(PdfValue::Dictionary(entries)) => Some(entries),
        _ => None,
    }
}

/// The dictionary that a value is, once references are followed.
pub fn resolved_dictionary<'a>(
    objects: &'a Vec<(PdfId, PdfObject)>,
    value: &'a PdfObject,
) -> (found: Option<&'a PdfDictionary>)
    ensures
        match found {
            Some(found) => looked_up_dict(table_value(objects@), value@) == Some(found@),
            None => looked_up_dict(table_value(objects@), value@) is None,
        },
{
    match look_up(objects, value) {
        Some(PdfObject::Dictionary(found)) => Some(found),
        _ => None,
    }
}

/// What a stream holds with its filters undone, or its bytes as they stand where
/// that is impossible. A stream without a filter is its own bytes.
pub open spec fn plain_content(stream: PdfStreamValue) -> Seq<u8> {
    let filter = dict_get(stream.dict, utf8("Filter"@));
    if filter is None {
        stream.content
    } else {
        match unfiltered(filter, dict_get(stream.dict, utf8("DecodeParms"@)), stream.content) {
            Some(content) => content,
            None => stream.content,
        }
    }
}

/// What a stream holds with its filters undone.
pub fn stream_plain_content(stream: &PdfStream) -> (content: Vec<u8>)
    ensures
        content@ == plain_content(stream@),
{
    match undo_filters(stream.dict.get("Filter"), stream.dict.get("DecodeParms"), &stream.content) {
        Some(content) => content,
        None => copy_bytes(&stream.content),
    }
}

/// Whether an object is a stream that embeds XMP.
pub open spec fn embeds_xmp(value: PdfValue) -> bool {
    match value {
        PdfValue::Stream(stream) => has_xmp(plain_content(stream)),
        _ => false,
    }
}

/// Whether an object is a stream that embeds XMP.
pub fn object_embeds_xmp(object: &PdfObject) -> (found: bool)
    ensures
        found == embeds_xmp(object@),
{
    match object {
        PdfObject::Stream(stream) => contains_xmp(&stream_plain_content(stream)),
        _ => false,
    }
}

/// Whether any stream object embeds XMP, regardless of how it is referenced. A
/// `/Metadata` reference can be dropped while the stream lingers reachable
/// through another key.
pub open spec fn some_embed_xmp(objects: Seq<(PdfId, PdfValue)>) -> bool {
    exists|i: int| 0 <= i < objects.len() && embeds_xmp((#[trigger] objects[i]).1)
}

/// Whether any stream object embeds XMP.
pub fn document_has_xmp(document: &PdfDocument) -> (found: bool)
    ensures
        found == some_embed_xmp(document@.objects),
{
    let mut i: usize = 0;
    while i < document.objects.len()
        invariant
            i <= document.objects@.len(),
            forall|j: int| 0 <= j < i ==> !embeds_xmp((#[trigger] document@.objects[j]).1),
        decreases document.objects.len() - i,
    {
        if object_embeds_xmp(&document.objects[i].1) {
            assert(embeds_xmp(document@.objects[i as int].1));
            return true;
        }
        i += 1;
    }
    false
}

/// A list of object numbers in ascending order, with one more in its place.
pub open spec fn put_id_from(ids: Seq<PdfId>, id: PdfId, from: int) -> Seq<PdfId>
    decreases ids.len() - from,
{
    if from < 0 || from >= ids.len() {
        ids.push(id)
    } else if ids[from] == id {
        ids
    } else if id_before(id, ids[from]) {
        ids.insert(from, id)
    } else {
        put_id_from(ids, id, from + 1)
    }
}

/// A list of object numbers in ascending order, with one more in its place.
pub open spec fn put_id(ids: Seq<PdfId>, id: PdfId) -> Seq<PdfId> {
    put_id_from(ids, id, 0)
}

fn insert_id(ids: &mut Vec<PdfId>, id: PdfId)
    ensures
        final(ids)@ == put_id(old(ids)@, id),
{
    let mut i: usize = 0;
    while i < ids.len()
        invariant
            i <= ids@.len(),
            ids@ == old(ids)@,
            put_id(ids@, id) == put_id_from(ids@, id, i as int),
        decreases ids.len() - i,
    {
        let found = ids[i];
        if found.0 == id.0 && found.1 == id.1 {
            assert(ids@[i as int] == id);
            return;
        }
        if id.0 < found.0 || (id.0 == found.0 && id.1 < found.1) {
            ids.insert(i, id);
            return;
        }
        i += 1;
    }
    ids.push(id);
}

/// The number of the object that a reference leads to, once references are followed.
pub open spec fn led_to(objects: Seq<(PdfId, PdfValue)>, id: PdfId, steps: nat) -> PdfId
    decreases steps,
{
    match object_of(objects, id) {
        Some(PdfValue::Reference(next)) => if steps == 0 {
            id
        } else {
            led_to(objects, next, (steps - 1) as nat)
        },
        _ => id,
    }
}

/// The number of the object that a reference leads to.
pub fn follow_reference(objects: &Vec<(PdfId, PdfObject)>, id: PdfId) -> (found: PdfId)
    ensures
        found == led_to(table_value(objects@), id, DEREFERENCE_LIMIT as nat),
{
    let mut found: PdfId = id;
    let mut steps: usize = DEREFERENCE_LIMIT;
    while steps > 0
        invariant
            led_to(table_value(objects@), id, DEREFERENCE_LIMIT as nat) == led_to(
                table_value(objects@),
                found,
                steps as nat,
            ),
        decreases steps,
    {
        match find_object(objects, found) {
            Some(PdfObject::Reference(next)) => {
                found = *next;
                steps -= 1;
            },
            _ => {
                return found;
            },
        }
    }
    found
}

/// The numbers that an array refers to, put into a list.
pub open spec fn put_references(
    objects: Seq<(PdfId, PdfValue)>,
    ids: Seq<PdfId>,
    items: Seq<PdfValue>,
) -> Seq<PdfId>
    decreases items.len(),
{
    if items.len() == 0 {
        ids
    } else {
        let before = put_references(objects, ids, items.drop_last());
        match items.last() {
            PdfValue::Reference(id) => put_id(
                before,
                led_to(objects, id, DEREFERENCE_LIMIT as nat),
            ),
            _ => before,
        }
    }
}

fn insert_references(
    objects: &Vec<(PdfId, PdfObject)>,
    ids: &mut Vec<PdfId>,
    items: &Vec<PdfObject>,
)
    ensures
        final(ids)@ == put_references(table_value(objects@), old(ids)@, array_value(items@)),
{
    let ghost start = ids@;
    let ghost table = table_value(objects@);
    let ghost values = array_value(items@);
    let mut i: usize = 0;
    while i < items.len()
        invariant
            i <= items@.len(),
            table == table_value(objects@),
            values == array_value(items@),
            ids@ == put_references(table, start, values.take(i as int)),
        decreases items.len() - i,
    {
        assert(values.take(i + 1).drop_last() =~= values.take(i as int));
        assert(values.take(i + 1).last() == values[i as int]);
        match &items[i] {
            PdfObject::Reference(id) => {
                insert_id(ids, follow_reference(objects, *id));
            },
            _ => {},
        }
        i += 1;
    }
    assert(values.take(items@.len() as int) =~= values);
}

/// The array that `/Annots` names, once references are followed.
pub open spec fn annots_of(
    objects: Seq<(PdfId, PdfValue)>,
    entries: Seq<(Seq<u8>, PdfValue)>,
) -> Option<Seq<PdfValue>> {
    match dict_get(entries, utf8("Annots"@)) {
        Some(value) => {
            let found = match looked_up(objects, value) {
                Some(found) => found,
                None => value,
            };
            match found {
                PdfValue::Array(items) => Some(items),
                _ => None,
            }
        },
        None => None,
    }
}

/// The annotations that one object shows: itself, and those that its `/Annots`
/// array refers to.
pub open spec fn put_annotations(
    objects: Seq<(PdfId, PdfValue)>,
    ids: Seq<PdfId>,
    entry: (PdfId, PdfValue),
) -> Seq<PdfId> {
    match own_dictionary(entry.1) {
        Some(entries) => {
            let with_own = if name_at(entries, "Type"@) == Some(utf8("Annot"@)) {
                put_id(ids, entry.0)
            } else {
                ids
            };
            match annots_of(objects, entries) {
                Some(items) => put_references(objects, with_own, items),
                None => with_own,
            }
        },
        None => ids,
    }
}

/// The annotations that the objects of `part` show.
pub open spec fn annotations_in(
    objects: Seq<(PdfId, PdfValue)>,
    part: Seq<(PdfId, PdfValue)>,
) -> Seq<PdfId>
    decreases part.len(),
{
    if part.len() == 0 {
        Seq::empty()
    } else {
        put_annotations(objects, annotations_in(objects, part.drop_last()), part.last())
    }
}

/// The numbers of all annotations, in ascending order. They are found both by
/// `/Type /Annot`, which is optional, and by walking every `/Annots` array, so an
/// annotation that omits `/Type` is still caught.
pub open spec fn annotation_ids_of(objects: Seq<(PdfId, PdfValue)>) -> Seq<PdfId> {
    annotations_in(objects, objects)
}

fn insert_annotations(objects: &Vec<(PdfId, PdfObject)>, ids: &mut Vec<PdfId>, i: usize)
    requires
        i < objects@.len(),
    ensures
        final(ids)@ == put_annotations(
            table_value(objects@),
            old(ids)@,
            table_value(objects@)[i as int],
        ),
{
    let entry = &objects[i];
    assert(table_value(objects@)[i as int] == (entry.0, entry.1@));
    if let Some(dictionary) = object_dictionary(&entry.1) {
        if dictionary.name_is("Type", "Annot") {
            insert_id(ids, entry.0);
        }
        if let Some(value) = dictionary.get("Annots") {
            let found = match look_up(objects, value) {
                Some(found) => found,
                None => value,
            };
            if let PdfObject::Array(items) = found {
                insert_references(objects, ids, items);
            }
        }
    }
}

/// The numbers of all annotations, in ascending order.
pub fn annotation_ids(objects: &Vec<(PdfId, PdfObject)>) -> (ids: Vec<PdfId>)
    ensures
        ids@ == annotation_ids_of(table_value(objects@)),
{
    let ghost values = table_value(objects@);
    let mut ids: Vec<PdfId> = Vec::new();
    let mut i: usize = 0;
    while i < objects.len()
        invariant
            i <= objects@.len(),
            values == table_value(objects@),
            ids@ == annotations_in(values, values.take(i as int)),
        decreases objects.len() - i,
    {
        assert(values.take(i + 1).drop_last() =~= values.take(i as int));
        assert(values.take(i + 1).last() == values[i as int]);
        insert_annotations(objects, &mut ids, i);
        i += 1;
    }
    assert(values.take(objects@.len() as int) =~= values);
    ids
}

/// The array object that one object's `/Annots` refers to, put into a list.
pub open spec fn put_holder(
    objects: Seq<(PdfId, PdfValue)>,
    ids: Seq<PdfId>,
    entry: (PdfId, PdfValue),
) -> Seq<PdfId> {
    match own_dictionary(entry.1) {
        Some(entries) => match dict_get(entries, utf8("Annots"@)) {
            Some(PdfValue::Reference(id)) => put_id(
                ids,
                led_to(objects, id, DEREFERENCE_LIMIT as nat),
            ),
            _ => ids,
        },
        None => ids,
    }
}

/// The objects that the `/Annots` entries of `part` refer to.
pub open spec fn holders_in(
    objects: Seq<(PdfId, PdfValue)>,
    part: Seq<(PdfId, PdfValue)>,
) -> Seq<PdfId>
    decreases part.len(),
{
    if part.len() == 0 {
        Seq::empty()
    } else {
        put_holder(objects, holders_in(objects, part.drop_last()), part.last())
    }
}

/// The numbers of all objects that an `/Annots` entry refers to, in ascending order:
/// the arrays of annotations that stand on their own.
pub open spec fn holder_ids_of(objects: Seq<(PdfId, PdfValue)>) -> Seq<PdfId> {
    holders_in(objects, objects)
}

/// The numbers of all objects that an `/Annots` entry refers to.
pub fn holder_ids(objects: &Vec<(PdfId, PdfObject)>) -> (ids: Vec<PdfId>)
    ensures
        ids@ == holder_ids_of(table_value(objects@)),
{
    let ghost values = table_value(objects@);
    let mut ids: Vec<PdfId> = Vec::new();
    let mut i: usize = 0;
    while i < objects.len()
        invariant
            i <= objects@.len(),
            values == table_value(objects@),
            ids@ == holders_in(values, values.take(i as int)),
        decreases objects.len() - i,
    {
        assert(values.take(i + 1).drop_last() =~= values.take(i as int));
        assert(values.take(i + 1).last() == values[i as int]);
        let entry = &objects[i];
        assert(values[i as int] == (entry.0, entry.1@));
        if let Some(dictionary) = object_dictionary(&entry.1) {
            if let Some(PdfObject::Reference(id)) = dictionary.get("Annots") {
                insert_id(&mut ids, follow_reference(objects, *id));
            }
        }
        i += 1;
    }
    assert(values.take(objects@.len() as int) =~= values);
    ids
}

/// The array of annotations that an object holds: that of its own `/Annots`, or
/// itself, where an `/Annots` entry refers to it.
pub open spec fn held_annotations(value: PdfValue, holder: bool) -> Seq<PdfValue> {
    match value {
        PdfValue::Array(items) => if holder {
            items
        } else {
            Seq::empty()
        },
        _ => match own_dictionary(value) {
            Some(entries) => match dict_get(entries, utf8("Annots"@)) {
                Some(PdfValue::Array(items)) => items,
                _ => Seq::empty(),
            },
            None => Seq::empty(),
        },
    }
}

/// Whether `/T` of an annotation names an author. The `/T` of a widget is the
/// form field's name, which the form needs to function.
pub open spec fn is_scrubbable(entries: Seq<(Seq<u8>, PdfValue)>) -> bool {
    name_at(entries, "Subtype"@) != Some(utf8("Widget"@))
}

/// Whether `/T` of an annotation names an author.
pub fn is_scrubbable_annotation(dictionary: &PdfDictionary) -> (scrubbable: bool)
    ensures
        scrubbable == is_scrubbable(dictionary@),
{
    !dictionary.name_is("Subtype", "Widget")
}

/// Whether a dictionary is a digital signature.
pub open spec fn is_signature(entries: Seq<(Seq<u8>, PdfValue)>) -> bool {
    name_at(entries, "Type"@) == Some(utf8("Sig"@)) || (dict_has(entries, utf8("ByteRange"@))
        && dict_has(entries, utf8("SubFilter"@)))
}

/// Whether a dictionary is a digital signature.
pub fn is_signature_dictionary(dictionary: &PdfDictionary) -> (signature: bool)
    ensures
        signature == is_signature(dictionary@),
{
    dictionary.name_is("Type", "Sig") || (dictionary.has("ByteRange") && dictionary.has(
        "SubFilter",
    ))
}

/// Whether an object has a `/Metadata` entry.
pub open spec fn links_metadata(value: PdfValue) -> bool {
    match own_dictionary(value) {
        Some(entries) => dict_has(entries, utf8("Metadata"@)),
        None => false,
    }
}

/// How many objects have a `/Metadata` entry.
pub open spec fn linking_objects(objects: Seq<(PdfId, PdfValue)>) -> nat
    decreases objects.len(),
{
    if objects.len() == 0 {
        0
    } else {
        linking_objects(objects.drop_last()) + if links_metadata(objects.last().1) {
            1nat
        } else {
            0nat
        }
    }
}

/// How many `/Metadata` entries a document has, in its trailer and its objects,
/// as far as a machine word counts.
pub open spec fn metadata_links(document: PdfDocumentValue) -> nat {
    let count = linking_objects(document.objects) + if dict_has(
        document.trailer,
        utf8("Metadata"@),
    ) {
        1nat
    } else {
        0nat
    };
    if count > u64::MAX {
        u64::MAX as nat
    } else {
        count
    }
}

/// How many `/Metadata` entries a document has.
pub fn pdf_metadata_link_count(document: &PdfDocument) -> (count: u64)
    ensures
        count == metadata_links(document@),
{
    let ghost values = document@.objects;
    let mut count: u64 = 0;
    let mut i: usize = 0;
    while i < document.objects.len()
        invariant
            i <= document.objects@.len(),
            values == document@.objects,
            count == linking_objects(values.take(i as int)),
            count <= i,
        decreases document.objects.len() - i,
    {
        assert(values.take(i + 1).drop_last() =~= values.take(i as int));
        assert(values.take(i + 1).last() == values[i as int]);
        if let Some(dictionary) = object_dictionary(&document.objects[i].1) {
            if dictionary.has("Metadata") {
                count += 1;
            }
        }
        i += 1;
    }
    assert(values.take(document.objects@.len() as int) =~= values);
    if document.trailer.has("Metadata") && count < u64::MAX {
        count += 1;
    }
    count
}

fn add_item(items: &mut Vec<MetadataItem>, label: &str, detail: String, sensitive: bool)
    ensures
        item_values(final(items)@) == item_values(old(items)@).push(
            item(label@, detail@, sensitive),
        ),
{
    let ghost before = item_values(items@);
    items.push(MetadataItem::new(label.to_owned(), detail, sensitive));
    assert(item_values(items@) =~= before.push(item(label@, detail@, sensitive)));
}

/// What one entry of the document information dictionary is reported as.
/// `/Author` names a person outright.
pub open spec fn info_item(
    objects: Seq<(PdfId, PdfValue)>,
    entry: (Seq<u8>, PdfValue),
) -> ItemValue {
    item(lossy_utf8(entry.0), value_detail(objects, entry.1), entry.0 == utf8("Author"@))
}

/// What the document information is reported as: every key, whether it is a
/// standard one or a producer's own, or that there is none.
pub open spec fn info_items(
    objects: Seq<(PdfId, PdfValue)>,
    entries: Seq<(Seq<u8>, PdfValue)>,
) -> Seq<ItemValue> {
    if entries.len() == 0 {
        seq![item("Document information"@, "empty"@, false)]
    } else {
        entries.map_values(|entry: (Seq<u8>, PdfValue)| info_item(objects, entry))
    }
}

fn add_info_items(
    objects: &Vec<(PdfId, PdfObject)>,
    info: &PdfDictionary,
    items: &mut Vec<MetadataItem>,
)
    ensures
        item_values(final(items)@) == item_values(old(items)@) + info_items(
            table_value(objects@),
            info@,
        ),
{
    let ghost start = item_values(items@);
    let ghost expected = info_items(table_value(objects@), info@);
    if info.entries.len() == 0 {
        assert(info@.len() == 0);
        add_item(items, "Document information", "empty".to_owned(), false);
        assert(item_values(items@) =~= start + expected);
        return;
    }
    let mut i: usize = 0;
    while i < info.entries.len()
        invariant
            i <= info.entries@.len(),
            info.entries@.len() > 0,
            expected == info_items(table_value(objects@), info@),
            item_values(items@) == start + expected.take(i as int),
        decreases info.entries.len() - i,
    {
        let (key, value) = &info.entries[i];
        assert(info@[i as int] == (key@, value@));
        let detail = pdf_value_detail(objects, value);
        add_item(items, lossy_text(key).as_str(), detail, is_text(key, "Author"));
        assert(start + expected.take(i + 1) =~= (start + expected.take(i as int)).push(
            expected[i as int],
        ));
        i += 1;
    }
    assert(expected.take(info.entries@.len() as int) =~= expected);
}

/// What XMP is reported as.
pub open spec fn xmp_items(document: PdfDocumentValue) -> Seq<ItemValue> {
    let count = metadata_links(document);
    if count == 1 {
        seq![item("XMP metadata"@, decimal(count) + " block"@, false)]
    } else if count > 0 {
        seq![item("XMP metadata"@, decimal(count) + " blocks"@, false)]
    } else if some_embed_xmp(document.objects) {
        seq![item("XMP metadata"@, "embedded packet"@, false)]
    } else {
        Seq::empty()
    }
}

fn add_xmp_items(document: &PdfDocument, items: &mut Vec<MetadataItem>)
    ensures
        item_values(final(items)@) == item_values(old(items)@) + xmp_items(document@),
{
    let ghost start = item_values(items@);
    let count = pdf_metadata_link_count(document);
    if count > 0 {
        let mut detail = decimal_text(count);
        detail.append(if count == 1 {
            " block"
        } else {
            " blocks"
        });
        add_item(items, "XMP metadata", detail, false);
    } else if document_has_xmp(document) {
        add_item(items, "XMP metadata", "embedded packet".to_owned(), false);
    }
    assert(item_values(items@) =~= start + xmp_items(document@));
}

/// What an optional entry is reported as.
pub open spec fn entry_items(
    objects: Seq<(PdfId, PdfValue)>,
    entries: Seq<(Seq<u8>, PdfValue)>,
    key: Seq<char>,
    label: Seq<char>,
    sensitive: bool,
) -> Seq<ItemValue> {
    match dict_get(entries, utf8(key)) {
        Some(value) => seq![item(label, value_detail(objects, value), sensitive)],
        None => Seq::empty(),
    }
}

/// What an annotation's dictionary is reported as.
pub open spec fn authorship_items(
    objects: Seq<(PdfId, PdfValue)>,
    entries: Seq<(Seq<u8>, PdfValue)>,
) -> Seq<ItemValue> {
    if is_scrubbable(entries) {
        entry_items(objects, entries, "T"@, "Annotation author"@, true) + entry_items(
            objects,
            entries,
            "M"@,
            "Annotation modified"@,
            false,
        )
    } else {
        Seq::empty()
    }
}

/// What one annotation is reported as.
pub open spec fn annotation_items(objects: Seq<(PdfId, PdfValue)>, id: PdfId) -> Seq<ItemValue> {
    match object_of(objects, id) {
        Some(value) => match own_dictionary(value) {
            Some(entries) => authorship_items(objects, entries),
            None => Seq::empty(),
        },
        None => Seq::empty(),
    }
}

/// What the annotations that are written inline into an array are reported as.
pub open spec fn inline_items(objects: Seq<(PdfId, PdfValue)>, list: Seq<PdfValue>) -> Seq<
    ItemValue,
>
    decreases list.len(),
{
    if list.len() == 0 {
        Seq::empty()
    } else {
        inline_items(objects, list.drop_last()) + match list.last() {
            PdfValue::Dictionary(entries) => authorship_items(objects, entries),
            _ => Seq::empty(),
        }
    }
}

/// What the annotations that are written inline into the objects of `part` are
/// reported as.
pub open spec fn held_items(
    objects: Seq<(PdfId, PdfValue)>,
    part: Seq<(PdfId, PdfValue)>,
    holders: Seq<PdfId>,
) -> Seq<ItemValue>
    decreases part.len(),
{
    if part.len() == 0 {
        Seq::empty()
    } else {
        held_items(objects, part.drop_last(), holders) + inline_items(
            objects,
            held_annotations(part.last().1, holders.contains(part.last().0)),
        )
    }
}

/// What the annotations in a list are reported as.
pub open spec fn annotations_items(objects: Seq<(PdfId, PdfValue)>, ids: Seq<PdfId>) -> Seq<
    ItemValue,
>
    decreases ids.len(),
{
    if ids.len() == 0 {
        Seq::empty()
    } else {
        annotations_items(objects, ids.drop_last()) + annotation_items(objects, ids.last())
    }
}

fn add_entry_item(
    objects: &Vec<(PdfId, PdfObject)>,
    dictionary: &PdfDictionary,
    key: &str,
    label: &str,
    sensitive: bool,
    items: &mut Vec<MetadataItem>,
)
    ensures
        item_values(final(items)@) == item_values(old(items)@) + entry_items(
            table_value(objects@),
            dictionary@,
            key@,
            label@,
            sensitive,
        ),
{
    let ghost start = item_values(items@);
    if let Some(value) = dictionary.get(key) {
        add_item(items, label, pdf_value_detail(objects, value), sensitive);
    }
    assert(item_values(items@) =~= start + entry_items(
        table_value(objects@),
        dictionary@,
        key@,
        label@,
        sensitive,
    ));
}

fn add_authorship_items(
    objects: &Vec<(PdfId, PdfObject)>,
    dictionary: &PdfDictionary,
    items: &mut Vec<MetadataItem>,
)
    ensures
        item_values(final(items)@) == item_values(old(items)@) + authorship_items(
            table_value(objects@),
            dictionary@,
        ),
{
    let ghost start = item_values(items@);
    if is_scrubbable_annotation(dictionary) {
        add_entry_item(objects, dictionary, "T", "Annotation author", true, items);
        add_entry_item(objects, dictionary, "M", "Annotation modified", false, items);
    }
    assert(item_values(items@) =~= start + authorship_items(table_value(objects@), dictionary@));
}

fn add_inline_items(
    objects: &Vec<(PdfId, PdfObject)>,
    list: &Vec<PdfObject>,
    items: &mut Vec<MetadataItem>,
)
    ensures
        item_values(final(items)@) == item_values(old(items)@) + inline_items(
            table_value(objects@),
            array_value(list@),
        ),
{
    let ghost start = item_values(items@);
    let ghost table = table_value(objects@);
    let ghost values = array_value(list@);
    let mut i: usize = 0;
    assert(start + Seq::<ItemValue>::empty() =~= start);
    while i < list.len()
        invariant
            i <= list@.len(),
            table == table_value(objects@),
            values == array_value(list@),
            item_values(items@) == start + inline_items(table, values.take(i as int)),
        decreases list.len() - i,
    {
        assert(values.take(i + 1).drop_last() =~= values.take(i as int));
        assert(values.take(i + 1).last() == values[i as int]);
        if let PdfObject::Dictionary(dictionary) = &list[i] {
            add_authorship_items(objects, dictionary, items);
        }
        assert(item_values(items@) =~= start + inline_items(table, values.take(i + 1)));
        i += 1;
    }
    assert(values.take(list@.len() as int) =~= values);
}

fn add_held_items(
    objects: &Vec<(PdfId, PdfObject)>,
    holders: &Vec<PdfId>,
    items: &mut Vec<MetadataItem>,
)
    ensures
        item_values(final(items)@) == item_values(old(items)@) + held_items(
            table_value(objects@),
            table_value(objects@),
            holders@,
        ),
{
    let ghost start = item_values(items@);
    let ghost values = table_value(objects@);
    let mut i: usize = 0;
    assert(start + Seq::<ItemValue>::empty() =~= start);
    while i < objects.len()
        invariant
            i <= objects@.len(),
            values == table_value(objects@),
            item_values(items@) == start + held_items(values, values.take(i as int), holders@),
        decreases objects.len() - i,
    {
        assert(values.take(i + 1).drop_last() =~= values.take(i as int));
        assert(values.take(i + 1).last() == values[i as int]);
        let entry = &objects[i];
        assert(values[i as int] == (entry.0, entry.1@));
        let ghost before = item_values(items@);
        let ghost holder = holders@.contains(entry.0);
        if let PdfObject::Array(list) = &entry.1 {
            if contains_id(holders, entry.0) {
                add_inline_items(objects, list, items);
            }
        } else if let Some(dictionary) = object_dictionary(&entry.1) {
            if let Some(PdfObject::Array(list)) = dictionary.get("Annots") {
                add_inline_items(objects, list, items);
            }
        }
        assert(item_values(items@) =~= before + inline_items(
            values,
            held_annotations(entry.1@, holder),
        ));
        assert(item_values(items@) =~= start + held_items(values, values.take(i + 1), holders@));
        i += 1;
    }
    assert(values.take(objects@.len() as int) =~= values);
}

fn add_annotation_items(
    objects: &Vec<(PdfId, PdfObject)>,
    id: PdfId,
    items: &mut Vec<MetadataItem>,
)
    ensures
        item_values(final(items)@) == item_values(old(items)@) + annotation_items(
            table_value(objects@),
            id,
        ),
{
    let ghost start = item_values(items@);
    if let Some(object) = find_object(objects, id) {
        if let Some(dictionary) = object_dictionary(object) {
            add_authorship_items(objects, dictionary, items);
        }
    }
    assert(item_values(items@) =~= start + annotation_items(table_value(objects@), id));
}

fn add_annotations_items(
    objects: &Vec<(PdfId, PdfObject)>,
    ids: &Vec<PdfId>,
    items: &mut Vec<MetadataItem>,
)
    ensures
        item_values(final(items)@) == item_values(old(items)@) + annotations_items(
            table_value(objects@),
            ids@,
        ),
{
    let ghost start = item_values(items@);
    let ghost values = table_value(objects@);
    let mut i: usize = 0;
    assert(start + Seq::<ItemValue>::empty() =~= start);
    while i < ids.len()
        invariant
            i <= ids@.len(),
            values == table_value(objects@),
            item_values(items@) == start + annotations_items(values, ids@.take(i as int)),
        decreases ids.len() - i,
    {
        assert(ids@.take(i + 1).drop_last() =~= ids@.take(i as int));
        assert(ids@.take(i + 1).last() == ids@[i as int]);
        add_annotation_items(objects, ids[i], items);
        assert(item_values(items@) =~= start + annotations_items(values, ids@.take(i + 1)));
        i += 1;
    }
    assert(ids@.take(ids@.len() as int) =~= ids@);
}

/// What private application data is reported as.
pub open spec fn piece_items(entries: Seq<(Seq<u8>, PdfValue)>) -> Seq<ItemValue> {
    if dict_has(entries, utf8("PieceInfo"@)) {
        seq![item("PieceInfo (private application data)"@, "removed"@, false)]
    } else {
        Seq::empty()
    }
}

/// The name an embedded file goes by.
pub open spec fn file_name(
    objects: Seq<(PdfId, PdfValue)>,
    entries: Seq<(Seq<u8>, PdfValue)>,
) -> Seq<char> {
    match dict_get(entries, utf8("UF"@)) {
        Some(value) => value_detail(objects, value),
        None => match dict_get(entries, utf8("F"@)) {
            Some(value) => value_detail(objects, value),
            None => "unnamed"@,
        },
    }
}

/// What an embedded file is reported as. It is document content, so it is kept:
/// the report says that it is still inside.
pub open spec fn file_items(
    objects: Seq<(PdfId, PdfValue)>,
    entries: Seq<(Seq<u8>, PdfValue)>,
) -> Seq<ItemValue> {
    if name_at(entries, "Type"@) == Some(utf8("Filespec"@)) || dict_has(entries, utf8("EF"@)) {
        seq![
            item(
                "Embedded file"@,
                file_name(objects, entries) + " (kept: an attachment is document content)"@,
                true,
            ),
        ]
    } else {
        Seq::empty()
    }
}

/// What XFA form data is reported as.
pub open spec fn form_items(
    objects: Seq<(PdfId, PdfValue)>,
    entries: Seq<(Seq<u8>, PdfValue)>,
) -> Seq<ItemValue> {
    match dict_get(entries, utf8("AcroForm"@)) {
        Some(form) => match looked_up_dict(objects, form) {
            Some(form) => if dict_has(form, utf8("XFA"@)) {
                seq![
                    item(
                        "XFA form data"@,
                        "kept: XFA is the form itself, and removing it breaks it"@,
                        true,
                    ),
                ]
            } else {
                Seq::empty()
            },
            None => Seq::empty(),
        },
        None => Seq::empty(),
    }
}

/// What a digital signature is reported as.
pub open spec fn signature_items(
    objects: Seq<(PdfId, PdfValue)>,
    entries: Seq<(Seq<u8>, PdfValue)>,
) -> Seq<ItemValue> {
    if is_signature(entries) {
        let signer = match dict_get(entries, utf8("Name"@)) {
            Some(value) => value_detail(objects, value),
            None => "unnamed signer"@,
        };
        seq![
            item(
                "Digital signature"@,
                signer + " (the signature is invalidated by scrubbing)"@,
                true,
            ),
        ]
    } else {
        Seq::empty()
    }
}

/// What one object is reported as.
pub open spec fn object_items(objects: Seq<(PdfId, PdfValue)>, value: PdfValue) -> Seq<ItemValue> {
    match own_dictionary(value) {
        Some(entries) => piece_items(entries) + file_items(objects, entries) + form_items(
            objects,
            entries,
        ) + signature_items(objects, entries),
        None => Seq::empty(),
    }
}

/// What the objects of `part` are reported as.
pub open spec fn objects_items(
    objects: Seq<(PdfId, PdfValue)>,
    part: Seq<(PdfId, PdfValue)>,
) -> Seq<ItemValue>
    decreases part.len(),
{
    if part.len() == 0 {
        Seq::empty()
    } else {
        objects_items(objects, part.drop_last()) + object_items(objects, part.last().1)
    }
}

fn add_file_items(
    objects: &Vec<(PdfId, PdfObject)>,
    dictionary: &PdfDictionary,
    items: &mut Vec<MetadataItem>,
)
    ensures
        item_values(final(items)@) == item_values(old(items)@) + file_items(
            table_value(objects@),
            dictionary@,
        ),
{
    let ghost start = item_values(items@);
    if dictionary.name_is("Type", "Filespec") || dictionary.has("EF") {
        let mut detail = match dictionary.get("UF") {
            Some(value) => pdf_value_detail(objects, value),
            None => match dictionary.get("F") {
                Some(value) => pdf_value_detail(objects, value),
                None => "unnamed".to_owned(),
            },
        };
        detail.append(" (kept: an attachment is document content)");
        add_item(items, "Embedded file", detail, true);
    }
    assert(item_values(items@) =~= start + file_items(table_value(objects@), dictionary@));
}

fn add_form_items(
    objects: &Vec<(PdfId, PdfObject)>,
    dictionary: &PdfDictionary,
    items: &mut Vec<MetadataItem>,
)
    ensures
        item_values(final(items)@) == item_values(old(items)@) + form_items(
            table_value(objects@),
            dictionary@,
        ),
{
    let ghost start = item_values(items@);
    if let Some(form) = dictionary.get("AcroForm") {
        if let Some(form) = resolved_dictionary(objects, form) {
            if form.has("XFA") {
                add_item(
                    items,
                    "XFA form data",
                    "kept: XFA is the form itself, and removing it breaks it".to_owned(),
                    true,
                );
            }
        }
    }
    assert(item_values(items@) =~= start + form_items(table_value(objects@), dictionary@));
}

fn add_signature_items(
    objects: &Vec<(PdfId, PdfObject)>,
    dictionary: &PdfDictionary,
    items: &mut Vec<MetadataItem>,
)
    ensures
        item_values(final(items)@) == item_values(old(items)@) + signature_items(
            table_value(objects@),
            dictionary@,
        ),
{
    let ghost start = item_values(items@);
    if is_signature_dictionary(dictionary) {
        let mut detail = match dictionary.get("Name") {
            Some(value) => pdf_value_detail(objects, value),
            None => "unnamed signer".to_owned(),
        };
        detail.append(" (the signature is invalidated by scrubbing)");
        add_item(items, "Digital signature", detail, true);
    }
    assert(item_values(items@) =~= start + signature_items(table_value(objects@), dictionary@));
}

fn add_object_items(
    objects: &Vec<(PdfId, PdfObject)>,
    object: &PdfObject,
    items: &mut Vec<MetadataItem>,
)
    ensures
        item_values(final(items)@) == item_values(old(items)@) + object_items(
            table_value(objects@),
            object@,
        ),
{
    let ghost start = item_values(items@);
    if let Some(dictionary) = object_dictionary(object) {
        if dictionary.has("PieceInfo") {
            add_item(
                items,
                "PieceInfo (private application data)",
                "removed".to_owned(),
                false,
            );
        }
        assert(item_values(items@) =~= start + piece_items(dictionary@));
        add_file_items(objects, dictionary, items);
        add_form_items(objects, dictionary, items);
        add_signature_items(objects, dictionary, items);
    }
    assert(item_values(items@) =~= start + object_items(table_value(objects@), object@));
}

fn add_objects_items(objects: &Vec<(PdfId, PdfObject)>, items: &mut Vec<MetadataItem>)
    ensures
        item_values(final(items)@) == item_values(old(items)@) + objects_items(
            table_value(objects@),
            table_value(objects@),
        ),
{
    let ghost start = item_values(items@);
    let ghost values = table_value(objects@);
    let mut i: usize = 0;
    assert(start + Seq::<ItemValue>::empty() =~= start);
    while i < objects.len()
        invariant
            i <= objects@.len(),
            values == table_value(objects@),
            item_values(items@) == start + objects_items(values, values.take(i as int)),
        decreases objects.len() - i,
    {
        assert(values.take(i + 1).drop_last() =~= values.take(i as int));
        assert(values.take(i + 1).last() == values[i as int]);
        add_object_items(objects, &objects[i].1, items);
        assert(item_values(items@) =~= start + objects_items(values, values.take(i + 1)));
        i += 1;
    }
    assert(values.take(objects@.len() as int) =~= values);
}

/// What a PDF is reported to hold besides its document information: XMP, annotations
/// with a number of their own, annotations written inline, and then what each object
/// shows.
pub open spec fn content_items(document: PdfDocumentValue) -> Seq<ItemValue> {
    let objects = document.objects;
    xmp_items(document) + annotations_items(objects, annotation_ids_of(objects)) + held_items(
        objects,
        objects,
        holder_ids_of(objects),
    ) + objects_items(objects, objects)
}

/// What a PDF is reported to hold, or why it cannot be told: the document
/// information, and then everything else.
pub open spec fn reported_pdf(document: PdfDocumentValue) -> Result<Seq<ItemValue>, Seq<char>> {
    let objects = document.objects;
    let rest = content_items(document);
    match dict_get(document.trailer, utf8("Info"@)) {
        Some(info) => match looked_up_dict(objects, info) {
            Some(entries) => Ok(info_items(objects, entries) + rest),
            None => Err("Could not read this PDF's document information."@),
        },
        None => Ok(rest),
    }
}

/// The values of a reported list, or why there is none.
pub open spec fn report_outcome(report: Result<Vec<MetadataItem>, String>) -> Result<
    Seq<ItemValue>,
    Seq<char>,
> {
    match report {
        Ok(items) => Ok(item_values(items@)),
        Err(error) => Err(error@),
    }
}

/// Describe the metadata of a PDF.
pub fn pdf_items(document: &PdfDocument) -> (report: Result<Vec<MetadataItem>, String>)
    ensures
        report_outcome(report) == reported_pdf(document@),
{
    let mut items: Vec<MetadataItem> = Vec::new();
    assert(item_values(items@) =~= Seq::<ItemValue>::empty());
    if let Some(info_value) = document.trailer.get("Info") {
        match resolved_dictionary(&document.objects, info_value) {
            Some(info) => {
                add_info_items(&document.objects, info, &mut items);
            },
            None => {
                return Err("Could not read this PDF's document information.".to_owned());
            },
        }
    }
    let ghost start = item_values(items@);
    add_xmp_items(document, &mut items);
    add_annotations_items(&document.objects, &annotation_ids(&document.objects), &mut items);
    add_held_items(&document.objects, &holder_ids(&document.objects), &mut items);
    add_objects_items(&document.objects, &mut items);
    let ghost objects = document@.objects;
    assert(item_values(items@) =~= start + content_items(document@));
    assert(Seq::<ItemValue>::empty() + content_items(document@) =~= content_items(document@));
    assert(dict_get(document@.trailer, utf8("Info"@)) is None ==> start =~= Seq::<
        ItemValue,
    >::empty());
    assert(dict_get(document@.trailer, utf8("Info"@)) is Some ==> start =~= info_items(
        objects,
        looked_up_dict(objects, dict_get(document@.trailer, utf8("Info"@))->0)->0,
    ));
    Ok(items)
}

} // verus!
