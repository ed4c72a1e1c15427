//! What the report on a PDF tells, whatever the document holds.

use vstd::prelude::*;

use crate::bytes::utf8;
use crate::encoding::lossy_utf8;
use crate::metadata::item::{item, ItemValue};
use crate::metadata::pdf_report::{
    annotation_ids_of, annotation_items, annotations_items, authorship_items, content_items,
    file_items, form_items, held_annotations, held_items, holder_ids_of, info_items, inline_items, linking_objects,
    links_metadata, looked_up_dict, metadata_links, object_items, objects_items, piece_items,
    plain_content, reported_pdf, signature_items, some_embed_xmp, value_detail, xmp_items,
};
use crate::metadata::scrub_laws::{is_field, is_shown_as_annotation, lemma_shown, signs};
use crate::metadata::xmp::region_of;
use crate::pdf::model::{
    dict_get, dict_has, object_of, own_dictionary, PdfDocumentValue, PdfId, PdfValue,
};

verus! {

proof fn lemma_joined(first: Seq<ItemValue>, second: Seq<ItemValue>, found: ItemValue)
    ensures
        (first + second).contains(found) == (first.contains(found) || second.contains(found)),
{
    let all = first + second;
    if first.contains(found) {
        let k = choose|k: int| 0 <= k < first.len() && first[k] == found;
        assert(all[k] == found);
    }
    if second.contains(found) {
        let k = choose|k: int| 0 <= k < second.len() && second[k] == found;
        assert(all[first.len() + k] == found);
    }
    if all.contains(found) {
        let k = choose|k: int| 0 <= k < all.len() && all[k] == found;
        if k < first.len() {
            assert(first[k] == found);
        } else {
            assert(second[k - first.len()] == found);
        }
    }
}

proof fn lemma_of_object(
    objects: Seq<(PdfId, PdfValue)>,
    part: Seq<(PdfId, PdfValue)>,
    k: int,
    found: ItemValue,
)
    requires
        0 <= k < part.len(),
        object_items(objects, part[k].1).contains(found),
    ensures
        objects_items(objects, part).contains(found),
    decreases part.len(),
{
    let shorter = part.drop_last();
    lemma_joined(
        objects_items(objects, shorter),
        object_items(objects, part.last().1),
        found,
    );
    if k < part.len() - 1 {
        assert(shorter[k] == part[k]);
        lemma_of_object(objects, shorter, k, found);
    }
}

proof fn lemma_of_annotation(
    objects: Seq<(PdfId, PdfValue)>,
    ids: Seq<PdfId>,
    k: int,
    found: ItemValue,
)
    requires
        0 <= k < ids.len(),
        annotation_items(objects, ids[k]).contains(found),
    ensures
        annotations_items(objects, ids).contains(found),
    decreases ids.len(),
{
    let shorter = ids.drop_last();
    lemma_joined(
        annotations_items(objects, shorter),
        annotation_items(objects, ids.last()),
        found,
    );
    if k < ids.len() - 1 {
        assert(shorter[k] == ids[k]);
        lemma_of_annotation(objects, shorter, k, found);
    }
}

proof fn lemma_of_inline(
    objects: Seq<(PdfId, PdfValue)>,
    list: Seq<PdfValue>,
    k: int,
    found: ItemValue,
)
    requires
        0 <= k < list.len(),
        list[k] matches PdfValue::Dictionary(entries) && authorship_items(
            objects,
            entries,
        ).contains(found),
    ensures
        inline_items(objects, list).contains(found),
    decreases list.len(),
{
    let shorter = list.drop_last();
    let own = match list.last() {
        PdfValue::Dictionary(entries) => authorship_items(objects, entries),
        _ => Seq::empty(),
    };
    lemma_joined(inline_items(objects, shorter), own, found);
    if k < list.len() - 1 {
        assert(shorter[k] == list[k]);
        lemma_of_inline(objects, shorter, k, found);
    }
}

proof fn lemma_of_held(
    objects: Seq<(PdfId, PdfValue)>,
    part: Seq<(PdfId, PdfValue)>,
    holders: Seq<PdfId>,
    k: int,
    found: ItemValue,
)
    requires
        0 <= k < part.len(),
        inline_items(
            objects,
            held_annotations(part[k].1, holders.contains(part[k].0)),
        ).contains(found),
    ensures
        held_items(objects, part, holders).contains(found),
    decreases part.len(),
{
    let shorter = part.drop_last();
    lemma_joined(
        held_items(objects, shorter, holders),
        inline_items(
            objects,
            held_annotations(part.last().1, holders.contains(part.last().0)),
        ),
        found,
    );
    if k < part.len() - 1 {
        assert(shorter[k] == part[k]);
        lemma_of_held(objects, shorter, holders, k, found);
    }
}

proof fn lemma_report(document: PdfDocumentValue, found: ItemValue)
    requires
        reported_pdf(document) is Ok,
    ensures
        ({
            let objects = document.objects;
            xmp_items(document).contains(found) || annotations_items(
                objects,
                annotation_ids_of(objects),
            ).contains(found) || held_items(objects, objects, holder_ids_of(objects)).contains(
                found,
            ) || objects_items(objects, objects).contains(found)
        }) ==> reported_pdf(document)->Ok_0.contains(found),
{
    let objects = document.objects;
    let xmp = xmp_items(document);
    let listed = annotations_items(objects, annotation_ids_of(objects));
    let held = held_items(objects, objects, holder_ids_of(objects));
    let shown = objects_items(objects, objects);
    lemma_joined(xmp, listed, found);
    lemma_joined(xmp + listed, held, found);
    lemma_joined(xmp + listed + held, shown, found);
    if let Some(info) = dict_get(document.trailer, utf8("Info"@)) {
        let entries = looked_up_dict(objects, info)->0;
        lemma_joined(info_items(objects, entries), content_items(document), found);
    }
}

/// Every entry of the document information is reported by its name, in order and in front of
/// everything else, and the author as a person.
pub proof fn document_information_is_reported(document: PdfDocumentValue, k: int)
    requires
        dict_get(document.trailer, utf8("Info"@)) matches Some(info) && looked_up_dict(
            document.objects,
            info,
        ) matches Some(entries) && 0 <= k < entries.len(),
    ensures
        ({
            let info = dict_get(document.trailer, utf8("Info"@))->0;
            let entries = looked_up_dict(document.objects, info)->0;
            reported_pdf(document) matches Ok(items) && k < items.len() && {
                &&& items[k].label == lossy_utf8(entries[k].0)
                &&& items[k].detail == Some(value_detail(document.objects, entries[k].1))
                &&& items[k].sensitive == (entries[k].0 == utf8("Author"@))
            }
        }),
{
}

/// An annotation that is no form field is reported with its author, as a person, and with its
/// date, if it has them.
pub proof fn annotation_authors_are_reported(document: PdfDocumentValue, id: PdfId)
    requires
        reported_pdf(document) is Ok,
        is_shown_as_annotation(document.objects, id),
        object_of(document.objects, id) matches Some(value) && own_dictionary(value) matches Some(
            entries,
        ) && !is_field(entries),
    ensures
        ({
            let objects = document.objects;
            let entries = own_dictionary(object_of(objects, id)->0)->0;
            let items = reported_pdf(document)->Ok_0;
            &&& dict_get(entries, utf8("T"@)) matches Some(author) ==> items.contains(
                item("Annotation author"@, value_detail(objects, author), true),
            )
            &&& dict_get(entries, utf8("M"@)) matches Some(date) ==> items.contains(
                item("Annotation modified"@, value_detail(objects, date), false),
            )
        }),
{
    let objects = document.objects;
    let entries = own_dictionary(object_of(objects, id)->0)->0;
    let ids = annotation_ids_of(objects);
    lemma_shown(objects, objects, id);
    let k = choose|k: int| 0 <= k < ids.len() && ids[k] == id;
    if let Some(author) = dict_get(entries, utf8("T"@)) {
        let found = item("Annotation author"@, value_detail(objects, author), true);
        lemma_author(objects, entries, found);
        lemma_of_annotation(objects, ids, k, found);
        lemma_report(document, found);
    }
    if let Some(date) = dict_get(entries, utf8("M"@)) {
        let found = item("Annotation modified"@, value_detail(objects, date), false);
        lemma_author(objects, entries, found);
        lemma_of_annotation(objects, ids, k, found);
        lemma_report(document, found);
    }
}

proof fn lemma_author(
    objects: Seq<(PdfId, PdfValue)>,
    entries: Seq<(Seq<u8>, PdfValue)>,
    found: ItemValue,
)
    requires
        !is_field(entries),
        (dict_get(entries, utf8("T"@)) matches Some(author) && found == item(
            "Annotation author"@,
            value_detail(objects, author),
            true,
        )) || (dict_get(entries, utf8("M"@)) matches Some(date) && found == item(
            "Annotation modified"@,
            value_detail(objects, date),
            false,
        )),
    ensures
        authorship_items(objects, entries).contains(found),
{
    let first = match dict_get(entries, utf8("T"@)) {
        Some(author) => seq![item("Annotation author"@, value_detail(objects, author), true)],
        None => Seq::empty(),
    };
    let second = match dict_get(entries, utf8("M"@)) {
        Some(date) => seq![item("Annotation modified"@, value_detail(objects, date), false)],
        None => Seq::empty(),
    };
    lemma_joined(first, second, found);
    assert(authorship_items(objects, entries) == first + second);
    if first.len() > 0 && found == first[0] {
        assert(first.contains(found));
    }
    if second.len() > 0 && found == second[0] {
        assert(second.contains(found));
    }
}

/// An annotation that is written inline on a page and is no form field is reported with its
/// author, as a person.
pub proof fn inline_authors_are_reported(document: PdfDocumentValue, k: int, i: int)
    requires
        reported_pdf(document) is Ok,
        0 <= k < document.objects.len(),
        document.objects[k].1 matches PdfValue::Dictionary(page) && dict_get(
            page,
            utf8("Annots"@),
        ) matches Some(PdfValue::Array(list)) && 0 <= i < list.len() && (list[i] matches
            PdfValue::Dictionary(entries) && !is_field(entries) && dict_has(entries, utf8("T"@))),
    ensures
        ({
            let page = document.objects[k].1->Dictionary_0;
            let list = dict_get(page, utf8("Annots"@))->0->Array_0;
            let author = dict_get(list[i]->Dictionary_0, utf8("T"@))->0;
            reported_pdf(document)->Ok_0.contains(
                item("Annotation author"@, value_detail(document.objects, author), true),
            )
        }),
{
    let objects = document.objects;
    let page = objects[k].1->Dictionary_0;
    let list = dict_get(page, utf8("Annots"@))->0->Array_0;
    let entries = list[i]->Dictionary_0;
    let author = dict_get(entries, utf8("T"@))->0;
    let found = item("Annotation author"@, value_detail(objects, author), true);
    lemma_author(objects, entries, found);
    lemma_of_inline(objects, list, i, found);
    lemma_of_held(objects, objects, holder_ids_of(objects), k, found);
    lemma_report(document, found);
}

/// Private data of a program, an embedded file and a signature are reported, wherever they
/// stand; a file and a signer as what can name a person.
pub proof fn objects_are_reported(document: PdfDocumentValue, k: int)
    requires
        reported_pdf(document) is Ok,
        0 <= k < document.objects.len(),
        own_dictionary(document.objects[k].1) is Some,
    ensures
        ({
            let objects = document.objects;
            let entries = own_dictionary(objects[k].1)->0;
            let items = reported_pdf(document)->Ok_0;
            &&& dict_has(entries, utf8("PieceInfo"@)) ==> items.contains(
                item("PieceInfo (private application data)"@, "removed"@, false),
            )
            &&& dict_get(entries, utf8("Type"@)) == Some(PdfValue::Name(utf8("Filespec"@)))
                || dict_has(entries, utf8("EF"@)) ==> exists|found: ItemValue| #[trigger]
                items.contains(found) && found.label == "Embedded file"@ && found.sensitive
            &&& signs(entries) ==> exists|found: ItemValue| #[trigger]
                items.contains(found) && found.label == "Digital signature"@ && found.sensitive
        }),
{
    let objects = document.objects;
    let value = objects[k].1;
    let entries = own_dictionary(value)->0;
    let piece = piece_items(entries);
    let file = file_items(objects, entries);
    let form = form_items(objects, entries);
    let signature = signature_items(objects, entries);
    assert(object_items(objects, value) == piece + file + form + signature);
    assert forall|found: ItemValue|
        piece.contains(found) || file.contains(found) || signature.contains(found) implies
        #[trigger] reported_pdf(document)->Ok_0.contains(found) by {
        lemma_joined(piece, file, found);
        lemma_joined(piece + file, form, found);
        lemma_joined(piece + file + form, signature, found);
        lemma_of_object(objects, objects, k, found);
        lemma_report(document, found);
    }
    if piece.len() > 0 {
        assert(piece.contains(piece[0]));
        assert(reported_pdf(document)->Ok_0.contains(piece[0]));
    }
    if file.len() > 0 {
        assert(file.contains(file[0]));
        assert(reported_pdf(document)->Ok_0.contains(file[0]));
    }
    if signature.len() > 0 {
        assert(signature.contains(signature[0]));
        assert(reported_pdf(document)->Ok_0.contains(signature[0]));
    }
}

proof fn lemma_links(objects: Seq<(PdfId, PdfValue)>)
    ensures
        linking_objects(objects) > 0 <==> exists|k: int|
            0 <= k < objects.len() && links_metadata((#[trigger] objects[k]).1),
    decreases objects.len(),
{
    if objects.len() > 0 {
        let shorter = objects.drop_last();
        lemma_links(shorter);
        let last = objects.len() - 1;
        assert(objects[last] == objects.last());
        if linking_objects(shorter) > 0 {
            let k = choose|k: int|
                0 <= k < shorter.len() && links_metadata((#[trigger] shorter[k]).1);
            assert(objects[k] == shorter[k]);
        }
        if exists|k: int| 0 <= k < objects.len() && links_metadata((#[trigger] objects[k]).1) {
            let k = choose|k: int|
                0 <= k < objects.len() && links_metadata((#[trigger] objects[k]).1);
            if k < last {
                assert(shorter[k] == objects[k]);
            }
        }
    }
}

/// XMP is reported when the trailer or some object names it, or a stream holds a packet.
pub proof fn xmp_is_reported(document: PdfDocumentValue)
    requires
        reported_pdf(document) is Ok,
        dict_has(document.trailer, utf8("Metadata"@)) || exists|k: int|
            0 <= k < document.objects.len() && holds_xmp((#[trigger] document.objects[k]).1),
    ensures
        exists|found: ItemValue| #[trigger]
            reported_pdf(document)->Ok_0.contains(found) && found.label == "XMP metadata"@,
{
    lemma_links(document.objects);
    let xmp = xmp_items(document);
    if exists|k: int| 0 <= k < document.objects.len() && holds_xmp((#[trigger] document.objects[k]).1) {
        let k = choose|k: int|
            0 <= k < document.objects.len() && holds_xmp((#[trigger] document.objects[k]).1);
        assert(links_metadata(document.objects[k].1) || some_embed_xmp(document.objects));
    }
    assert(metadata_links(document) > 0 || some_embed_xmp(document.objects));
    assert(xmp.len() > 0);
    assert(xmp.contains(xmp[0]));
    lemma_report(document, xmp[0]);
}

/// Whether an object names metadata or holds an XMP packet.
pub open spec fn holds_xmp(value: PdfValue) -> bool {
    ||| own_dictionary(value) matches Some(entries) && dict_has(entries, utf8("Metadata"@))
    ||| value matches PdfValue::Stream(stream) && region_of(plain_content(stream)) is Some
}

} // verus!
