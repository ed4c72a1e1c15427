//! What scrubbing a PDF keeps of it, and what it takes away.

use vstd::prelude::*;

use crate::bytes::{find, find_from, lemma_ascii, lemma_find_from, occurs_at, utf8};
use crate::metadata::pdf_report::{
    annotation_ids_of, annotations_in, annots_of, holder_ids_of, led_to, plain_content, put_id,
    put_id_from, put_references,
};
use crate::metadata::pdf_scrub::{
    scrubbed_annotation, scrubbed_dictionary, scrubbed_document, scrubbed_item, scrubbed_items,
    scrubbed_stream, scrubbed_table, scrubbed_value, without_signer,
};
use crate::metadata::xmp::{element_region, lemma_region_bounds, lemma_tag_bounds, packet_region, region_of, tag_at, tag_from};
use crate::pdf::laws::{keys_distinct, removing_a_key, storing_a_value};
use crate::pdf::model::{
    dict_get, dict_remove, dict_set, id_before, own_dictionary, PdfDocumentValue, PdfId,
    PdfStreamValue, PdfValue, DEREFERENCE_LIMIT,
};
use crate::pdf::outside::pruned_pdf;

verus! {

proof fn lemma_scrub_keys()
    ensures
        utf8("Metadata"@) != utf8("PieceInfo"@),
        utf8("Metadata"@) != utf8("T"@),
        utf8("Metadata"@) != utf8("M"@),
        utf8("Metadata"@) != utf8("Name"@),
        utf8("Metadata"@) != utf8("Location"@),
        utf8("Metadata"@) != utf8("Reason"@),
        utf8("Metadata"@) != utf8("ContactInfo"@),
        utf8("Metadata"@) != utf8("Annots"@),
        utf8("Metadata"@) != utf8("Subtype"@),
        utf8("Metadata"@) != utf8("Type"@),
        utf8("Metadata"@) != utf8("ByteRange"@),
        utf8("Metadata"@) != utf8("SubFilter"@),
        utf8("Metadata"@) != utf8("DecodeParms"@),
        utf8("Metadata"@) != utf8("Filter"@),
        utf8("Metadata"@) != utf8("Length"@),
        utf8("PieceInfo"@) != utf8("T"@),
        utf8("PieceInfo"@) != utf8("M"@),
        utf8("PieceInfo"@) != utf8("Name"@),
        utf8("PieceInfo"@) != utf8("Location"@),
        utf8("PieceInfo"@) != utf8("Reason"@),
        utf8("PieceInfo"@) != utf8("ContactInfo"@),
        utf8("PieceInfo"@) != utf8("Annots"@),
        utf8("PieceInfo"@) != utf8("Subtype"@),
        utf8("PieceInfo"@) != utf8("Type"@),
        utf8("PieceInfo"@) != utf8("ByteRange"@),
        utf8("PieceInfo"@) != utf8("SubFilter"@),
        utf8("PieceInfo"@) != utf8("DecodeParms"@),
        utf8("PieceInfo"@) != utf8("Filter"@),
        utf8("PieceInfo"@) != utf8("Length"@),
        utf8("T"@) != utf8("M"@),
        utf8("T"@) != utf8("Name"@),
        utf8("T"@) != utf8("Location"@),
        utf8("T"@) != utf8("Reason"@),
        utf8("T"@) != utf8("ContactInfo"@),
        utf8("T"@) != utf8("Annots"@),
        utf8("T"@) != utf8("Subtype"@),
        utf8("T"@) != utf8("Type"@),
        utf8("T"@) != utf8("ByteRange"@),
        utf8("T"@) != utf8("SubFilter"@),
        utf8("T"@) != utf8("DecodeParms"@),
        utf8("T"@) != utf8("Filter"@),
        utf8("T"@) != utf8("Length"@),
        utf8("M"@) != utf8("Name"@),
        utf8("M"@) != utf8("Location"@),
        utf8("M"@) != utf8("Reason"@),
        utf8("M"@) != utf8("ContactInfo"@),
        utf8("M"@) != utf8("Annots"@),
        utf8("M"@) != utf8("Subtype"@),
        utf8("M"@) != utf8("Type"@),
        utf8("M"@) != utf8("ByteRange"@),
        utf8("M"@) != utf8("SubFilter"@),
        utf8("M"@) != utf8("DecodeParms"@),
        utf8("M"@) != utf8("Filter"@),
        utf8("M"@) != utf8("Length"@),
        utf8("Name"@) != utf8("Location"@),
        utf8("Name"@) != utf8("Reason"@),
        utf8("Name"@) != utf8("ContactInfo"@),
        utf8("Name"@) != utf8("Annots"@),
        utf8("Name"@) != utf8("Subtype"@),
        utf8("Name"@) != utf8("Type"@),
        utf8("Name"@) != utf8("ByteRange"@),
        utf8("Name"@) != utf8("SubFilter"@),
        utf8("Name"@) != utf8("DecodeParms"@),
        utf8("Name"@) != utf8("Filter"@),
        utf8("Name"@) != utf8("Length"@),
        utf8("Location"@) != utf8("Reason"@),
        utf8("Location"@) != utf8("ContactInfo"@),
        utf8("Location"@) != utf8("Annots"@),
        utf8("Location"@) != utf8("Subtype"@),
        utf8("Location"@) != utf8("Type"@),
        utf8("Location"@) != utf8("ByteRange"@),
        utf8("Location"@) != utf8("SubFilter"@),
        utf8("Location"@) != utf8("DecodeParms"@),
        utf8("Location"@) != utf8("Filter"@),
        utf8("Location"@) != utf8("Length"@),
        utf8("Reason"@) != utf8("ContactInfo"@),
        utf8("Reason"@) != utf8("Annots"@),
        utf8("Reason"@) != utf8("Subtype"@),
        utf8("Reason"@) != utf8("Type"@),
        utf8("Reason"@) != utf8("ByteRange"@),
        utf8("Reason"@) != utf8("SubFilter"@),
        utf8("Reason"@) != utf8("DecodeParms"@),
        utf8("Reason"@) != utf8("Filter"@),
        utf8("Reason"@) != utf8("Length"@),
        utf8("ContactInfo"@) != utf8("Annots"@),
        utf8("ContactInfo"@) != utf8("Subtype"@),
        utf8("ContactInfo"@) != utf8("Type"@),
        utf8("ContactInfo"@) != utf8("ByteRange"@),
        utf8("ContactInfo"@) != utf8("SubFilter"@),
        utf8("ContactInfo"@) != utf8("DecodeParms"@),
        utf8("ContactInfo"@) != utf8("Filter"@),
        utf8("ContactInfo"@) != utf8("Length"@),
        utf8("Annots"@) != utf8("Subtype"@),
        utf8("Annots"@) != utf8("Type"@),
        utf8("Annots"@) != utf8("ByteRange"@),
        utf8("Annots"@) != utf8("SubFilter"@),
        utf8("Annots"@) != utf8("DecodeParms"@),
        utf8("Annots"@) != utf8("Filter"@),
        utf8("Annots"@) != utf8("Length"@),
        utf8("Subtype"@) != utf8("Type"@),
        utf8("Subtype"@) != utf8("ByteRange"@),
        utf8("Subtype"@) != utf8("SubFilter"@),
        utf8("Subtype"@) != utf8("DecodeParms"@),
        utf8("Subtype"@) != utf8("Filter"@),
        utf8("Subtype"@) != utf8("Length"@),
        utf8("Type"@) != utf8("ByteRange"@),
        utf8("Type"@) != utf8("SubFilter"@),
        utf8("Type"@) != utf8("DecodeParms"@),
        utf8("Type"@) != utf8("Filter"@),
        utf8("Type"@) != utf8("Length"@),
        utf8("ByteRange"@) != utf8("SubFilter"@),
        utf8("ByteRange"@) != utf8("DecodeParms"@),
        utf8("ByteRange"@) != utf8("Filter"@),
        utf8("ByteRange"@) != utf8("Length"@),
        utf8("SubFilter"@) != utf8("DecodeParms"@),
        utf8("SubFilter"@) != utf8("Filter"@),
        utf8("SubFilter"@) != utf8("Length"@),
        utf8("DecodeParms"@) != utf8("Filter"@),
        utf8("DecodeParms"@) != utf8("Length"@),
        utf8("Filter"@) != utf8("Length"@),
{
    reveal_strlit("Metadata");
    reveal_strlit("PieceInfo");
    reveal_strlit("T");
    reveal_strlit("M");
    reveal_strlit("Name");
    reveal_strlit("Location");
    reveal_strlit("Reason");
    reveal_strlit("ContactInfo");
    reveal_strlit("Annots");
    reveal_strlit("Subtype");
    reveal_strlit("Type");
    reveal_strlit("ByteRange");
    reveal_strlit("SubFilter");
    reveal_strlit("DecodeParms");
    reveal_strlit("Filter");
    reveal_strlit("Length");
    lemma_ascii("Metadata");
    lemma_ascii("PieceInfo");
    lemma_ascii("T");
    lemma_ascii("M");
    lemma_ascii("Name");
    lemma_ascii("Location");
    lemma_ascii("Reason");
    lemma_ascii("ContactInfo");
    lemma_ascii("Annots");
    lemma_ascii("Subtype");
    lemma_ascii("Type");
    lemma_ascii("ByteRange");
    lemma_ascii("SubFilter");
    lemma_ascii("DecodeParms");
    lemma_ascii("Filter");
    lemma_ascii("Length");
    assert(utf8("Metadata"@).len() == 8);
    assert(utf8("PieceInfo"@).len() == 9);
    assert(utf8("T"@).len() == 1);
    assert(utf8("M"@).len() == 1);
    assert(utf8("Name"@).len() == 4);
    assert(utf8("Location"@).len() == 8);
    assert(utf8("Reason"@).len() == 6);
    assert(utf8("ContactInfo"@).len() == 11);
    assert(utf8("Annots"@).len() == 6);
    assert(utf8("Subtype"@).len() == 7);
    assert(utf8("Type"@).len() == 4);
    assert(utf8("ByteRange"@).len() == 9);
    assert(utf8("SubFilter"@).len() == 9);
    assert(utf8("DecodeParms"@).len() == 11);
    assert(utf8("Filter"@).len() == 6);
    assert(utf8("Length"@).len() == 6);
    assert(utf8("Annots"@)[0] == 0x41);
    assert(utf8("ByteRange"@)[0] == 0x42);
    assert(utf8("ContactInfo"@)[0] == 0x43);
    assert(utf8("DecodeParms"@)[0] == 0x44);
    assert(utf8("Filter"@)[0] == 0x46);
    assert(utf8("Length"@)[0] == 0x4c);
    assert(utf8("Location"@)[0] == 0x4c);
    assert(utf8("M"@)[0] == 0x4d);
    assert(utf8("Metadata"@)[0] == 0x4d);
    assert(utf8("Name"@)[0] == 0x4e);
    assert(utf8("PieceInfo"@)[0] == 0x50);
    assert(utf8("Reason"@)[0] == 0x52);
    assert(utf8("SubFilter"@)[0] == 0x53);
    assert(utf8("T"@)[0] == 0x54);
    assert(utf8("Type"@)[0] == 0x54);
}

proof fn lemma_trailer_keys()
    ensures
        utf8("Info"@) != utf8("Metadata"@),
{
    reveal_strlit("Info");
    reveal_strlit("Metadata");
    lemma_ascii("Info");
    lemma_ascii("Metadata");
    assert(utf8("Info"@).len() == 4);
    assert(utf8("Metadata"@).len() == 8);
}

/// Whether a dictionary is that of a form field's place on a page, whose `/T` is the name of
/// the field.
pub open spec fn is_field(entries: Seq<(Seq<u8>, PdfValue)>) -> bool {
    dict_get(entries, utf8("Subtype"@)) == Some(PdfValue::Name(utf8("Widget"@)))
}

/// Whether a dictionary is a digital signature: it says so, or it signs a range of bytes.
pub open spec fn signs(entries: Seq<(Seq<u8>, PdfValue)>) -> bool {
    ||| dict_get(entries, utf8("Type"@)) == Some(PdfValue::Name(utf8("Sig"@)))
    ||| dict_get(entries, utf8("ByteRange"@)) is Some && dict_get(entries, utf8("SubFilter"@))
        is Some
}

/// Whether an entry of an annotation says who wrote it or when.
pub open spec fn tells_author(entries: Seq<(Seq<u8>, PdfValue)>, key: Seq<u8>) -> bool {
    !is_field(entries) && (key == utf8("T"@) || key == utf8("M"@))
}

/// Whether an entry of a signature says who signed, where, why or when.
pub open spec fn tells_signer(entries: Seq<(Seq<u8>, PdfValue)>, key: Seq<u8>) -> bool {
    signs(entries) && (key == utf8("Name"@) || key == utf8("Location"@) || key == utf8("Reason"@)
        || key == utf8("ContactInfo"@) || key == utf8("M"@))
}

/// Whether an entry goes when a PDF is scrubbed.
pub open spec fn goes(entries: Seq<(Seq<u8>, PdfValue)>, annotation: bool, key: Seq<u8>) -> bool {
    ||| key == utf8("Metadata"@)
    ||| key == utf8("PieceInfo"@)
    ||| annotation && tells_author(entries, key)
    ||| tells_signer(entries, key)
}

proof fn lemma_annotation(entries: Seq<(Seq<u8>, PdfValue)>, key: Seq<u8>)
    requires
        keys_distinct(entries),
    ensures
        keys_distinct(scrubbed_annotation(entries)),
        dict_get(scrubbed_annotation(entries), key) == (if tells_author(entries, key) {
            None
        } else {
            dict_get(entries, key)
        }),
{
    lemma_scrub_keys();
    removing_a_key(entries, utf8("T"@), key);
    removing_a_key(dict_remove(entries, utf8("T"@)), utf8("M"@), key);
}

proof fn lemma_signer(entries: Seq<(Seq<u8>, PdfValue)>, key: Seq<u8>)
    requires
        keys_distinct(entries),
    ensures
        keys_distinct(without_signer(entries)),
        dict_get(without_signer(entries), key) == (if tells_signer(entries, key) {
            None
        } else {
            dict_get(entries, key)
        }),
{
    lemma_scrub_keys();
    let one = dict_remove(entries, utf8("Name"@));
    let two = dict_remove(one, utf8("Location"@));
    let three = dict_remove(two, utf8("Reason"@));
    let four = dict_remove(three, utf8("ContactInfo"@));
    removing_a_key(entries, utf8("Name"@), key);
    removing_a_key(one, utf8("Location"@), key);
    removing_a_key(two, utf8("Reason"@), key);
    removing_a_key(three, utf8("ContactInfo"@), key);
    removing_a_key(four, utf8("M"@), key);
}

/// An annotation written inline loses its author and its date, unless it stands for a form
/// field, and keeps everything else, its text above all. Any other item of a list of
/// annotations stays.
pub proof fn inline_annotation_keeps_its_text(value: PdfValue, key: Seq<u8>)
    ensures
        match value {
            PdfValue::Dictionary(entries) => keys_distinct(entries) ==> (scrubbed_item(
                value,
            ) matches PdfValue::Dictionary(after) && dict_get(after, key) == (if tells_author(
                entries,
                key,
            ) {
                None
            } else {
                dict_get(entries, key)
            })),
            _ => scrubbed_item(value) == value,
        },
{
    if let PdfValue::Dictionary(entries) = value {
        if keys_distinct(entries) {
            lemma_annotation(entries, key);
        }
    }
}

/// Scrubbing a dictionary takes exactly the entries away that name metadata, private data of
/// a program, the author of an annotation or the signer of a signature. Every other entry
/// stays as it is, but for the annotations written inline, which stay in their places.
pub proof fn scrubbing_takes_only_metadata(
    entries: Seq<(Seq<u8>, PdfValue)>,
    annotation: bool,
    key: Seq<u8>,
)
    requires
        keys_distinct(entries),
    ensures
        ({
            let after = scrubbed_dictionary(entries, annotation);
            &&& keys_distinct(after)
            &&& goes(entries, annotation, key) ==> dict_get(after, key) is None
            &&& !goes(entries, annotation, key) ==> match dict_get(entries, key) {
                Some(PdfValue::Array(items)) => if key == utf8("Annots"@) {
                    dict_get(after, key) matches Some(PdfValue::Array(kept)) && kept.len()
                        == items.len() && forall|i: int|
                        0 <= i < items.len() ==> #[trigger] kept[i] == scrubbed_item(items[i])
                } else {
                    dict_get(after, key) == dict_get(entries, key)
                },
                _ => dict_get(after, key) == dict_get(entries, key),
            }
        }),
{
    lemma_scrub_keys();
    lemma_plain_steps(entries, annotation, key);
    lemma_plain_steps(entries, annotation, utf8("Annots"@));
    let linked = dict_remove(entries, utf8("Metadata"@));
    let plain = dict_remove(linked, utf8("PieceInfo"@));
    let own = if annotation {
        scrubbed_annotation(plain)
    } else {
        plain
    };
    let unsigned = without_signer(own);
    if let Some(PdfValue::Array(items)) = dict_get(unsigned, utf8("Annots"@)) {
        let kept = PdfValue::Array(scrubbed_items(items));
        storing_a_value(unsigned, utf8("Annots"@), kept, key);
    }
}

proof fn lemma_plain_steps(
    entries: Seq<(Seq<u8>, PdfValue)>,
    annotation: bool,
    key: Seq<u8>,
)
    requires
        keys_distinct(entries),
    ensures
        ({
            let plain = dict_remove(
                dict_remove(entries, utf8("Metadata"@)),
                utf8("PieceInfo"@),
            );
            let own = if annotation {
                scrubbed_annotation(plain)
            } else {
                plain
            };
            let unsigned = without_signer(own);
            &&& keys_distinct(unsigned)
            &&& dict_get(unsigned, key) == (if goes(entries, annotation, key) {
                None
            } else {
                dict_get(entries, key)
            })
        }),
{
    lemma_scrub_keys();
    let linked = dict_remove(entries, utf8("Metadata"@));
    let plain = dict_remove(linked, utf8("PieceInfo"@));
    let own = if annotation {
        scrubbed_annotation(plain)
    } else {
        plain
    };
    lemma_two(entries, key);
    lemma_two(entries, utf8("Subtype"@));
    lemma_two(entries, utf8("Type"@));
    lemma_two(entries, utf8("ByteRange"@));
    lemma_two(entries, utf8("SubFilter"@));
    lemma_annotation(plain, key);
    lemma_annotation(plain, utf8("Type"@));
    lemma_annotation(plain, utf8("ByteRange"@));
    lemma_annotation(plain, utf8("SubFilter"@));
    lemma_signer(own, key);
    assert(is_field(plain) == is_field(entries));
    assert(signs(own) == signs(entries));
}

proof fn lemma_two(entries: Seq<(Seq<u8>, PdfValue)>, key: Seq<u8>)
    requires
        keys_distinct(entries),
    ensures
        ({
            let plain = dict_remove(
                dict_remove(entries, utf8("Metadata"@)),
                utf8("PieceInfo"@),
            );
            &&& keys_distinct(plain)
            &&& dict_get(plain, key) == (if key == utf8("Metadata"@) || key == utf8("PieceInfo"@) {
                None
            } else {
                dict_get(entries, key)
            })
        }),
{
    lemma_scrub_keys();
    removing_a_key(entries, utf8("Metadata"@), key);
    removing_a_key(dict_remove(entries, utf8("Metadata"@)), utf8("PieceInfo"@), key);
}

/// Whether a dictionary is another without the entries that go.
pub open spec fn is_cleaned(
    before: Seq<(Seq<u8>, PdfValue)>,
    after: Seq<(Seq<u8>, PdfValue)>,
    annotation: bool,
) -> bool {
    forall|key: Seq<u8>|
        key != utf8("Annots"@) ==> #[trigger] dict_get(after, key) == (if goes(
            before,
            annotation,
            key,
        ) {
            None
        } else {
            dict_get(before, key)
        })
}

proof fn lemma_cleaned(entries: Seq<(Seq<u8>, PdfValue)>, annotation: bool)
    requires
        keys_distinct(entries),
    ensures
        is_cleaned(entries, scrubbed_dictionary(entries, annotation), annotation),
{
    let after = scrubbed_dictionary(entries, annotation);
    assert forall|key: Seq<u8>| key != utf8("Annots"@) implies #[trigger] dict_get(after, key) == (
    if goes(entries, annotation, key) {
        None
    } else {
        dict_get(entries, key)
    }) by {
        scrubbing_takes_only_metadata(entries, annotation, key);
    }
}

/// Scrubbing a stream without an XMP packet leaves its bytes alone, and its dictionary but for
/// what goes from any. From a stream with one the filter goes as well, and its length is that
/// of what is left.
pub proof fn scrubbing_keeps_stream_content(
    stream: PdfStreamValue,
    annotation: bool,
    holder: bool,
    key: Seq<u8>,
)
    requires
        keys_distinct(stream.dict),
    ensures
        scrubbed_value(PdfValue::Stream(stream), annotation, holder) matches PdfValue::Stream(after)
            && {
            let cuts = region_of(plain_content(stream)) is Some;
            &&& after.allows_compression == stream.allows_compression
            &&& !cuts ==> after.content == stream.content && is_cleaned(
                stream.dict,
                after.dict,
                annotation,
            )
            &&& cuts ==> dict_get(after.dict, utf8("Length"@)) == Some(
                PdfValue::Integer(after.content.len() as i64),
            ) && dict_get(after.dict, utf8("Filter"@)) is None && dict_get(
                after.dict,
                utf8("DecodeParms"@),
            ) is None
            &&& cuts && key != utf8("Length"@) && key != utf8("Filter"@) && key != utf8(
                "DecodeParms"@,
            ) && key != utf8("Annots"@) ==> dict_get(after.dict, key) == (if goes(
                stream.dict,
                annotation,
                key,
            ) {
                None
            } else {
                dict_get(stream.dict, key)
            })
        },
{
    lemma_scrub_keys();
    let cut = scrubbed_stream(stream);
    if region_of(plain_content(stream)) is Some {
        let length = PdfValue::Integer(cut.content.len() as i64);
        lemma_cut_keys(stream.dict, length, key);
        lemma_cut_keys(stream.dict, length, utf8("Length"@));
        lemma_cut_keys(stream.dict, length, utf8("Filter"@));
        lemma_cut_keys(stream.dict, length, utf8("DecodeParms"@));
        lemma_cut_keys(stream.dict, length, utf8("Subtype"@));
        lemma_cut_keys(stream.dict, length, utf8("Type"@));
        lemma_cut_keys(stream.dict, length, utf8("ByteRange"@));
        lemma_cut_keys(stream.dict, length, utf8("SubFilter"@));
        lemma_cleaned(cut.dict, annotation);
        assert(is_field(cut.dict) == is_field(stream.dict));
        assert(signs(cut.dict) == signs(stream.dict));
        let after = scrubbed_dictionary(cut.dict, annotation);
        assert(dict_get(after, key) == dict_get(after, key));
        assert(dict_get(after, utf8("Length"@)) == Some(length));
        assert(dict_get(after, utf8("Filter"@)) is None);
        assert(dict_get(after, utf8("DecodeParms"@)) is None);
    } else {
        lemma_cleaned(stream.dict, annotation);
    }
}

proof fn lemma_cut_keys(entries: Seq<(Seq<u8>, PdfValue)>, length: PdfValue, key: Seq<u8>)
    requires
        keys_distinct(entries),
    ensures
        ({
            let cut = dict_set(
                dict_remove(dict_remove(entries, utf8("DecodeParms"@)), utf8("Filter"@)),
                utf8("Length"@),
                length,
            );
            &&& keys_distinct(cut)
            &&& dict_get(cut, key) == (if key == utf8("Length"@) {
                Some(length)
            } else if key == utf8("Filter"@) || key == utf8("DecodeParms"@) {
                None
            } else {
                dict_get(entries, key)
            })
        }),
{
    lemma_scrub_keys();
    let one = dict_remove(entries, utf8("DecodeParms"@));
    let two = dict_remove(one, utf8("Filter"@));
    removing_a_key(entries, utf8("DecodeParms"@), key);
    removing_a_key(one, utf8("Filter"@), key);
    storing_a_value(two, utf8("Length"@), length, key);
}

/// What scrubbing makes of an object that is neither a dictionary nor a stream: a list of
/// annotations is gone through, and anything else stays.
pub proof fn scrubbing_keeps_other_objects(value: PdfValue, annotation: bool, holder: bool)
    ensures
        !(value is Dictionary) && !(value is Stream) && !(value is Array && holder)
            ==> scrubbed_value(value, annotation, holder) == value,
        value matches PdfValue::Array(items) ==> holder ==> (scrubbed_value(
            value,
            annotation,
            holder,
        ) matches PdfValue::Array(kept) && kept.len() == items.len() && forall|i: int|
            0 <= i < items.len() ==> #[trigger] kept[i] == scrubbed_item(items[i])),
        value matches PdfValue::Dictionary(entries) ==> scrubbed_value(value, annotation, holder)
            == PdfValue::Dictionary(scrubbed_dictionary(entries, annotation)),
{
}

/// Whether a document is another with each object scrubbed by itself, in its place and under
/// its number, and without the trailer's metadata.
pub open spec fn is_cleaned_document(before: PdfDocumentValue, after: PdfDocumentValue) -> bool {
    &&& after.version == before.version
    &&& after.binary_mark == before.binary_mark
    &&& after.max_id == before.max_id
    &&& after.xref == before.xref
    &&& forall|key: Seq<u8>| #[trigger]
        dict_get(after.trailer, key) == (if key == utf8("Info"@) || key == utf8("Metadata"@) {
            None
        } else {
            dict_get(before.trailer, key)
        })
    &&& after.objects.len() == before.objects.len()
    &&& forall|i: int|
        0 <= i < before.objects.len() ==> (#[trigger] after.objects[i]).0 == before.objects[i].0
            && after.objects[i].1 == scrubbed_value(
            before.objects[i].1,
            is_shown_as_annotation(before.objects, before.objects[i].0),
            holder_ids_of(before.objects).contains(before.objects[i].0),
        )
}

/// Whether the object of this number is an annotation: it says so, or a list of annotations
/// refers to it.
pub open spec fn is_shown_as_annotation(objects: Seq<(PdfId, PdfValue)>, id: PdfId) -> bool {
    exists|k: int| 0 <= k < objects.len() && shows_annotation(objects, #[trigger] objects[k], id)
}

/// Whether an object shows that of this number as an annotation.
pub open spec fn shows_annotation(
    objects: Seq<(PdfId, PdfValue)>,
    entry: (PdfId, PdfValue),
    id: PdfId,
) -> bool {
    own_dictionary(entry.1) matches Some(entries) && {
        ||| entry.0 == id && dict_get(entries, utf8("Type"@)) == Some(
            PdfValue::Name(utf8("Annot"@)),
        )
        ||| annots_of(objects, entries) matches Some(items) && refers_to(objects, items, id)
    }
}

/// Whether an item of a list leads to the object of this number.
pub open spec fn refers_to(
    objects: Seq<(PdfId, PdfValue)>,
    items: Seq<PdfValue>,
    id: PdfId,
) -> bool {
    exists|i: int|
        0 <= i < items.len() && leads_to(objects, #[trigger] items[i], id)
}

/// Whether a value is a reference that leads to the object of this number.
pub open spec fn leads_to(objects: Seq<(PdfId, PdfValue)>, value: PdfValue, id: PdfId) -> bool {
    value matches PdfValue::Reference(to) && led_to(objects, to, DEREFERENCE_LIMIT as nat) == id
}

proof fn lemma_put_id(ids: Seq<PdfId>, id: PdfId, from: int, other: PdfId)
    requires
        0 <= from <= ids.len(),
    ensures
        put_id_from(ids, id, from).contains(other) <==> ids.contains(other) || other == id,
    decreases ids.len() - from,
{
    let after = put_id_from(ids, id, from);
    if from >= ids.len() {
        assert(after[ids.len() as int] == id);
        if ids.contains(other) {
            let k = choose|k: int| 0 <= k < ids.len() && ids[k] == other;
            assert(after[k] == other);
        }
        if after.contains(other) && other != id {
            let k = choose|k: int| 0 <= k < after.len() && after[k] == other;
            assert(ids[k] == other);
        }
    } else if ids[from] == id {
        assert(ids.contains(id));
    } else if id_before(id, ids[from]) {
        assert(after == ids.insert(from, id));
        assert(after[from] == id);
        if ids.contains(other) {
            let k = choose|k: int| 0 <= k < ids.len() && ids[k] == other;
            if k < from {
                assert(after[k] == other);
            } else {
                assert(after[k + 1] == other);
            }
        }
        if after.contains(other) && other != id {
            let k = choose|k: int| 0 <= k < after.len() && after[k] == other;
            if k < from {
                assert(ids[k] == other);
            } else {
                assert(ids[k - 1] == other);
            }
        }
    } else {
        lemma_put_id(ids, id, from + 1, other);
    }
}

proof fn lemma_put_references(
    objects: Seq<(PdfId, PdfValue)>,
    ids: Seq<PdfId>,
    items: Seq<PdfValue>,
    id: PdfId,
)
    ensures
        put_references(objects, ids, items).contains(id) <==> ids.contains(id) || refers_to(
            objects,
            items,
            id,
        ),
    decreases items.len(),
{
    if items.len() > 0 {
        let shorter = items.drop_last();
        lemma_put_references(objects, ids, shorter, id);
        let last = items.len() - 1;
        assert(items[last] == items.last());
        if let PdfValue::Reference(to) = items.last() {
            let found = led_to(objects, to, DEREFERENCE_LIMIT as nat);
            lemma_put_id(put_references(objects, ids, shorter), found, 0, id);
        }
        if refers_to(objects, shorter, id) {
            let i = choose|i: int|
                0 <= i < shorter.len() && leads_to(objects, #[trigger] shorter[i], id);
            assert(items[i] == shorter[i]);
        }
        if refers_to(objects, items, id) {
            let i = choose|i: int|
                0 <= i < items.len() && leads_to(objects, #[trigger] items[i], id);
            if i < last {
                assert(shorter[i] == items[i]);
            }
        }
    }
}

pub(crate) proof fn lemma_shown(
    objects: Seq<(PdfId, PdfValue)>,
    part: Seq<(PdfId, PdfValue)>,
    id: PdfId,
)
    ensures
        annotations_in(objects, part).contains(id) <==> exists|k: int|
            0 <= k < part.len() && shows_annotation(objects, #[trigger] part[k], id),
    decreases part.len(),
{
    if part.len() > 0 {
        let shorter = part.drop_last();
        lemma_shown(objects, shorter, id);
        let before = annotations_in(objects, shorter);
        let entry = part.last();
        let last = part.len() - 1;
        assert(part[last] == entry);
        if let Some(entries) = own_dictionary(entry.1) {
            let own = dict_get(entries, utf8("Type"@)) == Some(PdfValue::Name(utf8("Annot"@)));
            let with_own = if own {
                put_id(before, entry.0)
            } else {
                before
            };
            lemma_put_id(before, entry.0, 0, id);
            if let Some(items) = annots_of(objects, entries) {
                lemma_put_references(objects, with_own, items, id);
            }
        }
        assert(annotations_in(objects, part).contains(id) <==> before.contains(id)
            || shows_annotation(objects, entry, id));
        if exists|k: int| 0 <= k < shorter.len() && shows_annotation(objects, #[trigger] shorter[k], id) {
            let k = choose|k: int|
                0 <= k < shorter.len() && shows_annotation(objects, #[trigger] shorter[k], id);
            assert(part[k] == shorter[k]);
        }
        if exists|k: int| 0 <= k < part.len() && shows_annotation(objects, #[trigger] part[k], id) {
            let k = choose|k: int|
                0 <= k < part.len() && shows_annotation(objects, #[trigger] part[k], id);
            if k < last {
                assert(shorter[k] == part[k]);
            }
        }
    }
}

/// Scrubbing a document scrubs each object by itself, takes the metadata of its trailer away,
/// and then leaves out what nothing leads to.
pub proof fn scrubbing_keeps_the_document(document: PdfDocumentValue)
    requires
        keys_distinct(document.trailer),
    ensures
        exists|clean: PdfDocumentValue| #[trigger]
            is_cleaned_document(document, clean) && scrubbed_document(document) == pruned_pdf(
                clean,
            ),
{
    lemma_trailer_keys();
    let first = dict_remove(document.trailer, utf8("Info"@));
    let second = dict_remove(first, utf8("Metadata"@));
    let annotations = annotation_ids_of(document.objects);
    let holders = holder_ids_of(document.objects);
    let clean = PdfDocumentValue {
        trailer: second,
        objects: scrubbed_table(document.objects, annotations, holders),
        ..document
    };
    assert forall|key: Seq<u8>| #[trigger]
        dict_get(clean.trailer, key) == (if key == utf8("Info"@) || key == utf8("Metadata"@) {
            None
        } else {
            dict_get(document.trailer, key)
        }) by {
        removing_a_key(document.trailer, utf8("Info"@), key);
        removing_a_key(first, utf8("Metadata"@), key);
    }
    assert forall|i: int| 0 <= i < document.objects.len() implies (#[trigger] clean.objects[i]).0
        == document.objects[i].0 && clean.objects[i].1 == scrubbed_value(
        document.objects[i].1,
        is_shown_as_annotation(document.objects, document.objects[i].0),
        holders.contains(document.objects[i].0),
    ) by {
        lemma_shown(document.objects, document.objects, document.objects[i].0);
    }
    assert(is_cleaned_document(document, clean));
    assert(scrubbed_document(document) == pruned_pdf(clean));
}

/// What is cut out of a stream as XMP is markup: it begins with an opening bracket and ends
/// with a closing one. A packet is cut from its first marker on.
pub proof fn cut_xmp_is_markup(content: Seq<u8>)
    ensures
        region_of(content) matches Some((start, end)) ==> {
            &&& 0 <= start < end <= content.len()
            &&& content[start] == 0x3c
            &&& content[end - 1] == 0x3e
            &&& packet_region(content) is Some ==> occurs_at(
                content,
                utf8("<?xpacket begin"@),
                start,
            )
        },
{
    lemma_region_bounds(content);
    lemma_marks();
    if let Some((start, end)) = packet_region(content) {
        lemma_find_from(content, utf8("<?xpacket begin"@), 0);
        let begin = find(content, utf8("<?xpacket begin"@))->0;
        lemma_find_from(content.skip(begin), utf8("<?xpacket end"@), 0);
        let stop = find(content.skip(begin), utf8("<?xpacket end"@))->0;
        let tail = content.skip(begin + stop);
        lemma_find_from(tail, utf8("?>"@), 0);
        let close = find(tail, utf8("?>"@))->0;
        assert(content.subrange(begin, begin + 15)[0] == content[begin]);
        assert(tail.subrange(close, close + 2)[1] == tail[close + 1]);
    } else if element_region(content, "xmpmeta"@) is Some {
        lemma_element(content, "xmpmeta"@);
    } else {
        lemma_element(content, "RDF"@);
    }
}

proof fn lemma_element(content: Seq<u8>, name: Seq<char>)
    requires
        utf8(name).len() > 0,
    ensures
        element_region(content, name) matches Some((start, end)) ==> 0 <= start < end
            <= content.len() ==> content[start] == 0x3c && content[end - 1] == 0x3e,
{
    lemma_marks();
    if let Some(open) = tag_from(content, utf8(name), false, 0) {
        lemma_tag(content, utf8(name), false, 0);
        if let Some(close) = tag_from(content.skip(open), utf8(name), true, 0) {
            lemma_tag_bounds(content, utf8(name), false, 0);
            lemma_tag_bounds(content.skip(open), utf8(name), true, 0);
            let tail = content.skip(open + close);
            lemma_find_from(tail, utf8(">"@), 0);
            if let Some(end) = find(tail, utf8(">"@)) {
                assert(tail.subrange(end, end + 1)[0] == tail[end]);
            }
        }
    }
}

proof fn lemma_tag(content: Seq<u8>, name: Seq<u8>, closing: bool, from: int)
    requires
        0 <= from,
        name.len() > 0,
    ensures
        tag_from(content, name, closing, from) matches Some(open) ==> content[open] == 0x3c,
    decreases content.len() - from,
{
    lemma_find_from(content, name, from);
    if let Some(at) = find_from(content, name, from) {
        if tag_at(content, name.len() as int, closing, at) is None {
            lemma_tag(content, name, closing, at + 1);
        }
    }
}

proof fn lemma_marks()
    ensures
        utf8("<?xpacket begin"@).len() == 15,
        utf8("<?xpacket begin"@)[0] == 0x3c,
        utf8("<?xpacket end"@).len() == 13,
        utf8("?>"@).len() == 2,
        utf8("?>"@)[1] == 0x3e,
        utf8(">"@).len() == 1,
        utf8(">"@)[0] == 0x3e,
        utf8("xmpmeta"@).len() == 7,
        utf8("RDF"@).len() == 3,
{
    reveal_strlit("<?xpacket begin");
    reveal_strlit("<?xpacket end");
    reveal_strlit("?>");
    reveal_strlit(">");
    reveal_strlit("xmpmeta");
    reveal_strlit("RDF");
    lemma_ascii("<?xpacket begin");
    lemma_ascii("<?xpacket end");
    lemma_ascii("?>");
    lemma_ascii(">");
    lemma_ascii("xmpmeta");
    lemma_ascii("RDF");
}

} // verus!
