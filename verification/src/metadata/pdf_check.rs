//! What a scrub leaves of a PDF's objects.

use vstd::prelude::*;

use crate::bytes::{lemma_ascii, utf8};
use crate::metadata::pdf_report::{
    annotation_ids_of, annotation_items, annotations_items, authorship_items, content_items,
    embeds_xmp, entry_items, file_items, form_items, held_annotations, held_items, holder_ids_of,
    inline_items, is_scrubbable, is_signature, linking_objects, links_metadata, metadata_links,
    object_items, objects_items, piece_items, plain_content, reported_pdf, signature_items,
    some_embed_xmp, xmp_items,
};
use crate::metadata::pdf_scrub::{
    array_names_author, checked_pdf, dictionary_leftover, has_inline_author, inline_names_author,
    names_author, names_signer, object_leftover, scrubbed_annotation, scrubbed_dictionary,
    scrubbed_item, scrubbed_items, scrubbed_stream, scrubbed_value, some_names_author,
    table_leftover, with_scrubbed_annots, without_signer,
};
use crate::metadata::xmp::{cutting_leaves_no_xmp, has_xmp, region_count, MAX_XMP_REGIONS};
use crate::pdf::laws::{keys_distinct, removing_a_key, storing_a_value};
use crate::pdf::model::{
    dict_get, dict_has, dict_remove, dict_set, object_index_from, own_dictionary, PdfDocumentValue,
    PdfId, PdfStreamValue, PdfValue,
};
use crate::pdf::outside::ids_distinct;

verus! {

/// Whether a value, when it is a dictionary, names no key twice.
pub open spec fn is_tidy_item(value: PdfValue) -> bool {
    match value {
        PdfValue::Dictionary(entries) => keys_distinct(entries),
        _ => true,
    }
}

/// Whether a dictionary and the annotations written inline into its `/Annots`
/// name no key twice.
pub open spec fn is_tidy(entries: Seq<(Seq<u8>, PdfValue)>) -> bool {
    keys_distinct(entries) && match dict_get(entries, utf8("Annots"@)) {
        Some(PdfValue::Array(items)) => forall|i: int|
            0 <= i < items.len() ==> is_tidy_item(#[trigger] items[i]),
        _ => true,
    }
}

/// The lengths and the first letters of the keys tell them apart.
proof fn lemma_key_names()
    ensures
        utf8("T"@).len() == 1 && utf8("T"@)[0] == 0x54,
        utf8("M"@).len() == 1 && utf8("M"@)[0] == 0x4d,
        utf8("Name"@).len() == 4 && utf8("Name"@)[0] == 0x4e,
        utf8("Type"@).len() == 4 && utf8("Type"@)[0] == 0x54,
        utf8("Annots"@).len() == 6 && utf8("Annots"@)[0] == 0x41,
        utf8("Filter"@).len() == 6 && utf8("Filter"@)[0] == 0x46,
        utf8("Length"@).len() == 6 && utf8("Length"@)[0] == 0x4c,
        utf8("Reason"@).len() == 6 && utf8("Reason"@)[0] == 0x52,
        utf8("Subtype"@).len() == 7,
        utf8("Location"@).len() == 8 && utf8("Location"@)[0] == 0x4c,
        utf8("Metadata"@).len() == 8 && utf8("Metadata"@)[0] == 0x4d,
        utf8("ByteRange"@).len() == 9 && utf8("ByteRange"@)[0] == 0x42,
        utf8("PieceInfo"@).len() == 9 && utf8("PieceInfo"@)[0] == 0x50,
        utf8("SubFilter"@).len() == 9 && utf8("SubFilter"@)[0] == 0x53,
        utf8("ContactInfo"@).len() == 11 && utf8("ContactInfo"@)[0] == 0x43,
        utf8("DecodeParms"@).len() == 11 && utf8("DecodeParms"@)[0] == 0x44,
{
    reveal_strlit("T");
    reveal_strlit("M");
    reveal_strlit("Name");
    reveal_strlit("Type");
    reveal_strlit("Annots");
    reveal_strlit("Filter");
    reveal_strlit("Length");
    reveal_strlit("Reason");
    reveal_strlit("Subtype");
    reveal_strlit("Location");
    reveal_strlit("Metadata");
    reveal_strlit("ByteRange");
    reveal_strlit("PieceInfo");
    reveal_strlit("SubFilter");
    reveal_strlit("ContactInfo");
    reveal_strlit("DecodeParms");
    lemma_ascii("T");
    lemma_ascii("M");
    lemma_ascii("Name");
    lemma_ascii("Type");
    lemma_ascii("Annots");
    lemma_ascii("Filter");
    lemma_ascii("Length");
    lemma_ascii("Reason");
    lemma_ascii("Subtype");
    lemma_ascii("Location");
    lemma_ascii("Metadata");
    lemma_ascii("ByteRange");
    lemma_ascii("PieceInfo");
    lemma_ascii("SubFilter");
    lemma_ascii("ContactInfo");
    lemma_ascii("DecodeParms");
}

proof fn lemma_removed(entries: Seq<(Seq<u8>, PdfValue)>, key: Seq<u8>)
    requires
        keys_distinct(entries),
    ensures
        keys_distinct(dict_remove(entries, key)),
        dict_get(dict_remove(entries, key), key) is None,
        forall|other: Seq<u8>|
            other != key ==> #[trigger] dict_get(dict_remove(entries, key), other) == dict_get(
                entries,
                other,
            ),
{
    removing_a_key(entries, key, key);
    assert forall|other: Seq<u8>| other != key implies #[trigger] dict_get(
        dict_remove(entries, key),
        other,
    ) == dict_get(entries, other) by {
        removing_a_key(entries, key, other);
    }
}

proof fn lemma_stored(entries: Seq<(Seq<u8>, PdfValue)>, key: Seq<u8>, value: PdfValue)
    ensures
        keys_distinct(entries) ==> keys_distinct(dict_set(entries, key, value)),
        dict_get(dict_set(entries, key, value), key) == Some(value),
        forall|other: Seq<u8>|
            other != key ==> #[trigger] dict_get(dict_set(entries, key, value), other) == dict_get(
                entries,
                other,
            ),
{
    storing_a_value(entries, key, value, key);
    assert forall|other: Seq<u8>| other != key implies #[trigger] dict_get(
        dict_set(entries, key, value),
        other,
    ) == dict_get(entries, other) by {
        storing_a_value(entries, key, value, other);
    }
}

/// A scrubbed annotation names no author, and its other entries are kept.
proof fn lemma_scrubbed_annotation(entries: Seq<(Seq<u8>, PdfValue)>)
    requires
        keys_distinct(entries),
    ensures
        keys_distinct(scrubbed_annotation(entries)),
        !names_author(scrubbed_annotation(entries)),
        is_scrubbable(scrubbed_annotation(entries)) == is_scrubbable(entries),
        forall|other: Seq<u8>|
            other != utf8("T"@) && other != utf8("M"@) ==> #[trigger] dict_get(
                scrubbed_annotation(entries),
                other,
            ) == dict_get(entries, other),
{
    lemma_key_names();
    let first = dict_remove(entries, utf8("T"@));
    lemma_removed(entries, utf8("T"@));
    lemma_removed(first, utf8("M"@));
    let second = dict_remove(first, utf8("M"@));
    assert(dict_get(second, utf8("T"@)) == dict_get(first, utf8("T"@)));
    assert(dict_get(second, utf8("Subtype"@)) == dict_get(first, utf8("Subtype"@)));
}

/// A signature that went through the removal names no signer, and its other
/// entries are kept.
proof fn lemma_without_signer(entries: Seq<(Seq<u8>, PdfValue)>)
    requires
        keys_distinct(entries),
    ensures
        keys_distinct(without_signer(entries)),
        is_signature(without_signer(entries)) == is_signature(entries),
        is_signature(entries) ==> !names_signer(without_signer(entries)),
        forall|other: Seq<u8>|
            other != utf8("Name"@) && other != utf8("Location"@) && other != utf8("Reason"@)
                && other != utf8("ContactInfo"@) && other != utf8("M"@) ==> #[trigger] dict_get(
                without_signer(entries),
                other,
            ) == dict_get(entries, other),
        dict_get(entries, utf8("M"@)) is None ==> dict_get(
            without_signer(entries),
            utf8("M"@),
        ) is None,
{
    lemma_key_names();
    if is_signature(entries) {
        let a = dict_remove(entries, utf8("Name"@));
        let b = dict_remove(a, utf8("Location"@));
        let c = dict_remove(b, utf8("Reason"@));
        let d = dict_remove(c, utf8("ContactInfo"@));
        let e = dict_remove(d, utf8("M"@));
        lemma_removed(entries, utf8("Name"@));
        lemma_removed(a, utf8("Location"@));
        lemma_removed(b, utf8("Reason"@));
        lemma_removed(c, utf8("ContactInfo"@));
        lemma_removed(d, utf8("M"@));
        assert(dict_get(e, utf8("Name"@)) is None);
        assert(dict_get(e, utf8("Location"@)) is None);
        assert(dict_get(e, utf8("Reason"@)) is None);
        assert(dict_get(e, utf8("ContactInfo"@)) is None);
        assert(dict_get(e, utf8("Type"@)) == dict_get(entries, utf8("Type"@)));
        assert(dict_get(e, utf8("ByteRange"@)) == dict_get(entries, utf8("ByteRange"@)));
        assert(dict_get(e, utf8("SubFilter"@)) == dict_get(entries, utf8("SubFilter"@)));
    }
}

/// No annotation of a scrubbed array names an author.
proof fn lemma_scrubbed_items(items: Seq<PdfValue>)
    requires
        forall|i: int| 0 <= i < items.len() ==> is_tidy_item(#[trigger] items[i]),
    ensures
        !some_names_author(scrubbed_items(items)),
{
    let scrubbed = scrubbed_items(items);
    assert forall|i: int| 0 <= i < scrubbed.len() implies !inline_names_author(
        #[trigger] scrubbed[i],
    ) by {
        assert(is_tidy_item(items[i]));
        assert(scrubbed[i] == scrubbed_item(items[i]));
        if let PdfValue::Dictionary(annotation) = items[i] {
            lemma_scrubbed_annotation(annotation);
        }
    }
}

/// No annotation written inline names an author any more, and the other entries
/// are kept.
proof fn lemma_scrubbed_annots(entries: Seq<(Seq<u8>, PdfValue)>)
    requires
        is_tidy(entries),
    ensures
        match dict_get(with_scrubbed_annots(entries), utf8("Annots"@)) {
            Some(PdfValue::Array(items)) => !some_names_author(items),
            _ => true,
        },
        forall|other: Seq<u8>|
            other != utf8("Annots"@) ==> #[trigger] dict_get(with_scrubbed_annots(entries), other)
                == dict_get(entries, other),
{
    match dict_get(entries, utf8("Annots"@)) {
        Some(PdfValue::Array(items)) => {
            let scrubbed = scrubbed_items(items);
            lemma_stored(entries, utf8("Annots"@), PdfValue::Array(scrubbed));
            lemma_scrubbed_items(items);
        },
        _ => {},
    }
}

/// A scrubbed dictionary holds none of the entries that are removed, and what
/// says how a stream is encoded is kept.
pub proof fn scrubbed_dictionary_holds_nothing(
    entries: Seq<(Seq<u8>, PdfValue)>,
    annotation: bool,
)
    requires
        is_tidy(entries),
    ensures
        dictionary_leftover(scrubbed_dictionary(entries, annotation), annotation) is None,
        dict_get(scrubbed_dictionary(entries, annotation), utf8("Filter"@)) == dict_get(
            entries,
            utf8("Filter"@),
        ),
        dict_get(scrubbed_dictionary(entries, annotation), utf8("DecodeParms"@)) == dict_get(
            entries,
            utf8("DecodeParms"@),
        ),
{
    lemma_key_names();
    let linked = dict_remove(entries, utf8("Metadata"@));
    let plain = dict_remove(linked, utf8("PieceInfo"@));
    let own = if annotation {
        scrubbed_annotation(plain)
    } else {
        plain
    };
    let unsigned = without_signer(own);
    lemma_removed(entries, utf8("Metadata"@));
    lemma_removed(linked, utf8("PieceInfo"@));
    lemma_scrubbed_annotation(plain);
    lemma_without_signer(own);
    assert(dict_get(unsigned, utf8("Annots"@)) == dict_get(entries, utf8("Annots"@)));
    lemma_scrubbed_annots(unsigned);
    let result = with_scrubbed_annots(unsigned);
    assert(dict_get(result, utf8("Metadata"@)) is None);
    assert(dict_get(result, utf8("PieceInfo"@)) is None);
    assert(dict_get(result, utf8("Type"@)) == dict_get(unsigned, utf8("Type"@)));
    assert(dict_get(result, utf8("ByteRange"@)) == dict_get(unsigned, utf8("ByteRange"@)));
    assert(dict_get(result, utf8("SubFilter"@)) == dict_get(unsigned, utf8("SubFilter"@)));
    assert(dict_get(result, utf8("Name"@)) == dict_get(unsigned, utf8("Name"@)));
    assert(dict_get(result, utf8("Location"@)) == dict_get(unsigned, utf8("Location"@)));
    assert(dict_get(result, utf8("Reason"@)) == dict_get(unsigned, utf8("Reason"@)));
    assert(dict_get(result, utf8("ContactInfo"@)) == dict_get(unsigned, utf8("ContactInfo"@)));
    assert(dict_get(result, utf8("M"@)) == dict_get(unsigned, utf8("M"@)));
    assert(dict_get(result, utf8("T"@)) == dict_get(unsigned, utf8("T"@)));
    assert(dict_get(unsigned, utf8("T"@)) == dict_get(own, utf8("T"@)));
    assert(dict_get(result, utf8("Subtype"@)) == dict_get(own, utf8("Subtype"@)));
    assert(dict_get(result, utf8("Filter"@)) == dict_get(entries, utf8("Filter"@)));
    assert(dict_get(result, utf8("DecodeParms"@)) == dict_get(entries, utf8("DecodeParms"@)));
}

/// A scrubbed stream holds no XMP, unless it held more regions than the guard allows.
/// Its dictionary stays tidy.
proof fn lemma_scrubbed_stream(stream: PdfStreamValue)
    requires
        is_tidy(stream.dict),
    ensures
        is_tidy(scrubbed_stream(stream).dict),
        has_xmp(plain_content(scrubbed_stream(stream))) == (region_count(plain_content(stream))
            > MAX_XMP_REGIONS),
{
    lemma_key_names();
    let content = plain_content(stream);
    if has_xmp(content) {
        let a = dict_remove(stream.dict, utf8("DecodeParms"@));
        let b = dict_remove(a, utf8("Filter"@));
        lemma_removed(stream.dict, utf8("DecodeParms"@));
        lemma_removed(a, utf8("Filter"@));
        let cut = scrubbed_stream(stream);
        lemma_stored(b, utf8("Length"@), PdfValue::Integer(cut.content.len() as i64));
        assert(dict_get(cut.dict, utf8("Filter"@)) is None);
        assert(dict_get(cut.dict, utf8("Annots"@)) == dict_get(stream.dict, utf8("Annots"@)));
        cutting_leaves_no_xmp(content, MAX_XMP_REGIONS as nat);
    }
}

/// An object that went through a scrub passes the check: it holds none of the
/// entries that are removed, and no XMP, unless it held more regions than the guard
/// allows. An array of annotations holds no author either.
pub proof fn scrubbed_object_passes_the_check(value: PdfValue, annotation: bool, holder: bool)
    requires
        own_dictionary(value) matches Some(entries) ==> is_tidy(entries),
        value matches PdfValue::Array(items) ==> forall|i: int|
            0 <= i < items.len() ==> is_tidy_item(#[trigger] items[i]),
    ensures
        object_leftover(scrubbed_value(value, annotation, holder), annotation, holder) is None
            || match value {
            PdfValue::Stream(stream) => region_count(plain_content(stream)) > MAX_XMP_REGIONS,
            _ => false,
        },
{
    match value {
        PdfValue::Stream(stream) => {
            lemma_scrubbed_stream(stream);
            let cut = scrubbed_stream(stream);
            scrubbed_dictionary_holds_nothing(cut.dict, annotation);
            let after = PdfStreamValue { dict: scrubbed_dictionary(cut.dict, annotation), ..cut };
            assert(plain_content(after) == plain_content(cut));
        },
        PdfValue::Dictionary(entries) => {
            scrubbed_dictionary_holds_nothing(entries, annotation);
        },
        PdfValue::Array(items) => {
            lemma_scrubbed_items(items);
        },
        _ => {},
    }
}

/// Whether a scrub may remove or rewrite the entry under this key.
pub open spec fn is_scrubbed_key(key: Seq<u8>) -> bool {
    key == utf8("Metadata"@) || key == utf8("PieceInfo"@) || key == utf8("T"@) || key == utf8("M"@)
        || key == utf8("Name"@) || key == utf8("Location"@) || key == utf8("Reason"@) || key
        == utf8("ContactInfo"@) || key == utf8("Annots"@)
}

/// Every entry of a dictionary that is no metadata is kept: its page content, its
/// resources, its links.
pub proof fn scrubbing_keeps_other_entries(
    entries: Seq<(Seq<u8>, PdfValue)>,
    annotation: bool,
    key: Seq<u8>,
)
    requires
        is_tidy(entries),
        !is_scrubbed_key(key),
    ensures
        dict_get(scrubbed_dictionary(entries, annotation), key) == dict_get(entries, key),
{
    lemma_key_names();
    let linked = dict_remove(entries, utf8("Metadata"@));
    let plain = dict_remove(linked, utf8("PieceInfo"@));
    let own = if annotation {
        scrubbed_annotation(plain)
    } else {
        plain
    };
    let unsigned = without_signer(own);
    lemma_removed(entries, utf8("Metadata"@));
    lemma_removed(linked, utf8("PieceInfo"@));
    lemma_scrubbed_annotation(plain);
    lemma_without_signer(own);
    assert(dict_get(unsigned, utf8("Annots"@)) == dict_get(entries, utf8("Annots"@)));
    lemma_scrubbed_annots(unsigned);
    assert(dict_get(unsigned, key) == dict_get(own, key));
}

/// A stream that holds no XMP keeps its content as it is.
pub proof fn scrubbing_keeps_other_streams(stream: PdfStreamValue)
    requires
        !has_xmp(plain_content(stream)),
    ensures
        scrubbed_stream(stream) == stream,
{
}

/// An object that still holds metadata stands somewhere in the table.
proof fn lemma_leftover_place(
    objects: Seq<(PdfId, PdfValue)>,
    annotations: Seq<PdfId>,
    holders: Seq<PdfId>,
    from: int,
) -> (place: int)
    requires
        0 <= from,
        table_leftover(objects, annotations, holders, from) is Some,
    ensures
        from <= place < objects.len(),
        object_leftover(
            objects[place].1,
            annotations.contains(objects[place].0),
            holders.contains(objects[place].0),
        ) is Some,
    decreases objects.len() - from,
{
    let found = object_leftover(
        objects[from].1,
        annotations.contains(objects[from].0),
        holders.contains(objects[from].0),
    );
    if found is Some {
        from
    } else {
        lemma_leftover_place(objects, annotations, holders, from + 1)
    }
}

/// In a table without repeated numbers, a number finds its own object.
proof fn lemma_own_place(objects: Seq<(PdfId, PdfValue)>, place: int, from: int)
    requires
        ids_distinct(objects),
        0 <= from <= place < objects.len(),
    ensures
        object_index_from(objects, objects[place].0, from) == Some(place),
    decreases place - from,
{
    if from < place {
        assert(objects[from].0 != objects[place].0);
        lemma_own_place(objects, place, from + 1);
    }
}

proof fn lemma_linked(objects: Seq<(PdfId, PdfValue)>, place: int)
    requires
        0 <= place < objects.len(),
        links_metadata(objects[place].1),
    ensures
        linking_objects(objects) > 0,
    decreases objects.len(),
{
    if place < objects.len() - 1 {
        lemma_linked(objects.drop_last(), place);
    }
}

proof fn lemma_shown(objects: Seq<(PdfId, PdfValue)>, part: Seq<(PdfId, PdfValue)>, place: int)
    requires
        0 <= place < part.len(),
        object_items(objects, part[place].1).len() > 0,
    ensures
        objects_items(objects, part).len() > 0,
    decreases part.len(),
{
    if place < part.len() - 1 {
        lemma_shown(objects, part.drop_last(), place);
    }
}

proof fn lemma_listed(objects: Seq<(PdfId, PdfValue)>, ids: Seq<PdfId>, place: int)
    requires
        0 <= place < ids.len(),
        annotation_items(objects, ids[place]).len() > 0,
    ensures
        annotations_items(objects, ids).len() > 0,
    decreases ids.len(),
{
    if place < ids.len() - 1 {
        lemma_listed(objects, ids.drop_last(), place);
    }
}

proof fn lemma_inline(objects: Seq<(PdfId, PdfValue)>, list: Seq<PdfValue>, place: int)
    requires
        0 <= place < list.len(),
        inline_names_author(list[place]),
    ensures
        inline_items(objects, list).len() > 0,
    decreases list.len(),
{
    if place < list.len() - 1 {
        lemma_inline(objects, list.drop_last(), place);
    } else if let PdfValue::Dictionary(entries) = list[place] {
        lemma_authorship(objects, entries);
    }
}

proof fn lemma_held(
    objects: Seq<(PdfId, PdfValue)>,
    part: Seq<(PdfId, PdfValue)>,
    holders: Seq<PdfId>,
    place: int,
)
    requires
        0 <= place < part.len(),
        some_names_author(held_annotations(part[place].1, holders.contains(part[place].0))),
    ensures
        held_items(objects, part, holders).len() > 0,
    decreases part.len(),
{
    if place < part.len() - 1 {
        lemma_held(objects, part.drop_last(), holders, place);
    } else {
        let list = held_annotations(part[place].1, holders.contains(part[place].0));
        let i = choose|i: int| 0 <= i < list.len() && inline_names_author(#[trigger] list[i]);
        lemma_inline(objects, list, i);
    }
}

/// An annotation that names its author is reported.
proof fn lemma_authorship(objects: Seq<(PdfId, PdfValue)>, entries: Seq<(Seq<u8>, PdfValue)>)
    requires
        names_author(entries),
    ensures
        authorship_items(objects, entries).len() > 0,
{
    let author = entry_items(objects, entries, "T"@, "Annotation author"@, true);
    let modified = entry_items(objects, entries, "M"@, "Annotation modified"@, false);
    assert((author + modified).len() == author.len() + modified.len());
    assert(author.len() > 0 || modified.len() > 0);
}

/// A document that does not pass the check is never reported as empty: an empty report
/// means that the document is already clean.
pub proof fn unclean_pdf_is_reported(document: PdfDocumentValue)
    requires
        ids_distinct(document.objects),
        checked_pdf(document) is Err,
    ensures
        match reported_pdf(document) {
            Ok(items) => items.len() > 0,
            Err(_) => true,
        },
{
    let objects = document.objects;
    let annotations = annotation_ids_of(objects);
    let holders = holder_ids_of(objects);
    let xmp = xmp_items(document);
    let listed = annotations_items(objects, annotations);
    let held = held_items(objects, objects, holders);
    let shown = objects_items(objects, objects);
    assert(content_items(document).len() == xmp.len() + listed.len() + held.len() + shown.len());
    if dict_has(document.trailer, utf8("Info"@)) {
    } else if dict_has(document.trailer, utf8("Metadata"@)) {
        assert(metadata_links(document) > 0);
    } else {
        let place = lemma_leftover_place(objects, annotations, holders, 0);
        let (id, value) = objects[place];
        if embeds_xmp(value) {
            assert(some_embed_xmp(objects));
        } else if holders.contains(id) && array_names_author(value) {
            lemma_held(objects, objects, holders, place);
        } else {
            let entries = own_dictionary(value)->0;
            if dict_has(entries, utf8("Metadata"@)) {
                lemma_linked(objects, place);
            } else if dict_has(entries, utf8("PieceInfo"@)) || is_signature(entries) {
                let piece = piece_items(entries);
                let file = file_items(objects, entries);
                let form = form_items(objects, entries);
                let signature = signature_items(objects, entries);
                assert((piece + file + form + signature).len() == piece.len() + file.len()
                    + form.len() + signature.len());
                lemma_shown(objects, objects, place);
            } else if has_inline_author(entries) {
                lemma_held(objects, objects, holders, place);
            } else {
                lemma_authorship(objects, entries);
                lemma_own_place(objects, place, 0);
                let i = choose|i: int| 0 <= i < annotations.len() && annotations[i] == id;
                lemma_listed(objects, annotations, i);
            }
        }
    }
}

} // verus!
