//! What combining forms and layers keeps: every field, resource and layer.

use vstd::prelude::*;

use crate::bytes::{lemma_ascii, utf8};
use crate::notices::{has_code, with_notice, NoticeValue};
use crate::pdf::catalog::{gathered, signature_notice};
use crate::pdf::forms::{
    add_distinct, add_field_names, add_resources, combined_forms, field_collision_notice,
    field_name, filled_in,
    forms_notice, listed_layers, merged_forms, merged_layers, with_layers,
};
use crate::pdf::laws::{keys_distinct, lemma_last_entry, removing_a_key, storing_a_value};
use crate::pdf::model::{
    dict_get, dict_has, dict_index, dict_remove, dict_set, lemma_dict_index_from, resolved, resolved_array,
    resolved_dict, same_value, PdfId, PdfValue,
};

verus! {

proof fn lemma_form_keys()
    ensures
        utf8("Fields"@) != utf8("DR"@),
        utf8("Fields"@) != utf8("NeedAppearances"@),
        utf8("Fields"@) != utf8("SigFlags"@),
        utf8("Fields"@) != utf8("XFA"@),
        utf8("DR"@) != utf8("NeedAppearances"@),
        utf8("DR"@) != utf8("SigFlags"@),
        utf8("DR"@) != utf8("XFA"@),
        utf8("NeedAppearances"@) != utf8("SigFlags"@),
        utf8("NeedAppearances"@) != utf8("XFA"@),
        utf8("SigFlags"@) != utf8("XFA"@),
{
    reveal_strlit("Fields");
    reveal_strlit("DR");
    reveal_strlit("NeedAppearances");
    reveal_strlit("SigFlags");
    reveal_strlit("XFA");
    lemma_ascii("Fields");
    lemma_ascii("DR");
    lemma_ascii("NeedAppearances");
    lemma_ascii("SigFlags");
    lemma_ascii("XFA");
    assert(utf8("Fields"@).len() == 6);
    assert(utf8("DR"@).len() == 2);
    assert(utf8("NeedAppearances"@).len() == 15);
    assert(utf8("SigFlags"@).len() == 8);
    assert(utf8("XFA"@).len() == 3);
}
proof fn lemma_form_codes()
    ensures
        "pdf-forms-combined"@ != "pdf-form-field-name-collision"@,
        "pdf-forms-combined"@ != "pdf-signature-dropped"@,
        "pdf-form-field-name-collision"@ != "pdf-signature-dropped"@,
{
    reveal_strlit("pdf-forms-combined");
    reveal_strlit("pdf-form-field-name-collision");
    reveal_strlit("pdf-signature-dropped");
    assert("pdf-forms-combined"@.len() == 18);
    assert("pdf-form-field-name-collision"@.len() == 29);
    assert("pdf-signature-dropped"@.len() == 21);
}
proof fn lemma_layer_keys()
    ensures
        utf8("OCGs"@) != utf8("D"@),
        utf8("OCGs"@) != utf8("Configs"@),
        utf8("D"@) != utf8("Configs"@),
{
    reveal_strlit("OCGs");
    reveal_strlit("D");
    reveal_strlit("Configs");
    lemma_ascii("OCGs");
    lemma_ascii("D");
    lemma_ascii("Configs");
    assert(utf8("OCGs"@).len() == 4);
    assert(utf8("D"@).len() == 1);
    assert(utf8("Configs"@).len() == 7);
}
proof fn lemma_default_keys()
    ensures
        utf8("ON"@) != utf8("OFF"@),
        utf8("ON"@) != utf8("Order"@),
        utf8("ON"@) != utf8("AS"@),
        utf8("ON"@) != utf8("RBGroups"@),
        utf8("OFF"@) != utf8("Order"@),
        utf8("OFF"@) != utf8("AS"@),
        utf8("OFF"@) != utf8("RBGroups"@),
        utf8("Order"@) != utf8("AS"@),
        utf8("Order"@) != utf8("RBGroups"@),
        utf8("AS"@) != utf8("RBGroups"@),
{
    reveal_strlit("ON");
    reveal_strlit("OFF");
    reveal_strlit("Order");
    reveal_strlit("AS");
    reveal_strlit("RBGroups");
    lemma_ascii("ON");
    lemma_ascii("OFF");
    lemma_ascii("Order");
    lemma_ascii("AS");
    lemma_ascii("RBGroups");
    assert(utf8("ON"@).len() == 2);
    assert(utf8("OFF"@).len() == 3);
    assert(utf8("Order"@).len() == 5);
    assert(utf8("AS"@).len() == 2);
    assert(utf8("RBGroups"@).len() == 8);
    assert(utf8("AS"@)[0] == 0x41);
    assert(utf8("ON"@)[0] == 0x4f);
}

proof fn lemma_told(notices: Seq<NoticeValue>, added: NoticeValue, code: Seq<char>)
    ensures
        has_code(with_notice(notices, added), code) == (has_code(notices, code) || added.code
            == code),
{
    let all = notices.push(added);
    if has_code(notices, code) {
        let i = choose|i: int| 0 <= i < notices.len() && (#[trigger] notices[i]).code == code;
        assert(all[i].code == code);
    }
    if has_code(all, code) && added.code != code {
        let i = choose|i: int| 0 <= i < all.len() && (#[trigger] all[i]).code == code;
        assert(notices[i].code == code);
    }
    assert(all[notices.len() as int] == added);
}

/// The fields of several forms, one behind the other.
pub open spec fn all_fields(
    objects: Seq<(PdfId, PdfValue)>,
    forms: Seq<Seq<(Seq<u8>, PdfValue)>>,
) -> Seq<PdfValue>
    decreases forms.len(),
{
    if forms.len() == 0 {
        Seq::empty()
    } else {
        match resolved_array(objects, dict_get(forms.last(), utf8("Fields"@))) {
            Some(fields) => all_fields(objects, forms.drop_last()) + fields,
            None => all_fields(objects, forms.drop_last()),
        }
    }
}

proof fn lemma_fields(
    objects: Seq<(PdfId, PdfValue)>,
    forms: Seq<Seq<(Seq<u8>, PdfValue)>>,
    notices: Seq<NoticeValue>,
)
    ensures
        combined_forms(objects, forms, notices).fields == all_fields(objects, forms),
    decreases forms.len(),
{
    if forms.len() > 0 {
        lemma_fields(objects, forms.drop_last(), notices);
        let before = all_fields(objects, forms.drop_last());
        assert(before + Seq::<PdfValue>::empty() =~= before);
    }
}

proof fn lemma_single_appearance(
    objects: Seq<(PdfId, PdfValue)>,
    forms: Seq<Seq<(Seq<u8>, PdfValue)>>,
    notices: Seq<NoticeValue>,
)
    requires
        forms.len() == 1,
    ensures
        combined_forms(objects, forms, notices).needs_appearances == (dict_get(
            forms[0],
            utf8("NeedAppearances"@),
        ) == Some(PdfValue::Boolean(true))),
{
    let none = forms.drop_last();
    assert(none.len() == 0);
    assert(!combined_forms(objects, none, notices).needs_appearances);
    assert(forms.last() == forms[0]);
}

/// The combined form lists the fields of every document's form in order. It asks a viewer to
/// draw them where more than one form came in, holds no signature flags and no second
/// description of itself, and has everything else from the first form.
pub proof fn merged_form_keeps_every_field(
    objects: Seq<(PdfId, PdfValue)>,
    catalogs: Seq<Seq<(Seq<u8>, PdfValue)>>,
    notices: Seq<NoticeValue>,
    key: Seq<u8>,
)
    requires
        gathered(objects, catalogs, "AcroForm"@).len() > 0,
        keys_distinct(gathered(objects, catalogs, "AcroForm"@)[0]),
    ensures
        ({
            let forms = gathered(objects, catalogs, "AcroForm"@);
            merged_forms(objects, catalogs, notices).0 matches Some(PdfValue::Dictionary(form)) && {
                &&& dict_get(form, utf8("Fields"@)) == Some(
                    PdfValue::Array(all_fields(objects, forms)),
                )
                &&& dict_get(form, utf8("SigFlags"@)) is None
                &&& dict_get(form, utf8("XFA"@)) is None
                &&& forms.len() > 1 ==> dict_get(form, utf8("NeedAppearances"@)) == Some(
                    PdfValue::Boolean(true),
                )
                &&& forms.len() == 1 ==> dict_get(form, utf8("NeedAppearances"@)) == dict_get(
                    forms[0],
                    utf8("NeedAppearances"@),
                )
                &&& key != utf8("Fields"@) && key != utf8("DR"@) && key != utf8("NeedAppearances"@)
                    && key != utf8("SigFlags"@) && key != utf8("XFA"@) ==> dict_get(form, key)
                    == dict_get(forms[0], key)
            }
        }),
{
    lemma_merged_form(objects, catalogs, notices, key);
    lemma_merged_form(objects, catalogs, notices, utf8("Fields"@));
    lemma_merged_form(objects, catalogs, notices, utf8("SigFlags"@));
    lemma_merged_form(objects, catalogs, notices, utf8("XFA"@));
    lemma_merged_form(objects, catalogs, notices, utf8("NeedAppearances"@));
    lemma_form_keys();
    let forms = gathered(objects, catalogs, "AcroForm"@);
    let started = if forms.len() > 1 {
        with_notice(notices, forms_notice())
    } else {
        notices
    };
    lemma_fields(objects, forms, started);
    if forms.len() == 1 {
        lemma_single_appearance(objects, forms, started);
    }
}

proof fn lemma_merged_form(
    objects: Seq<(PdfId, PdfValue)>,
    catalogs: Seq<Seq<(Seq<u8>, PdfValue)>>,
    notices: Seq<NoticeValue>,
    key: Seq<u8>,
)
    requires
        gathered(objects, catalogs, "AcroForm"@).len() > 0,
        keys_distinct(gathered(objects, catalogs, "AcroForm"@)[0]),
    ensures
        ({
            let forms = gathered(objects, catalogs, "AcroForm"@);
            let started = if forms.len() > 1 {
                with_notice(notices, forms_notice())
            } else {
                notices
            };
            let state = combined_forms(objects, forms, started);
            merged_forms(objects, catalogs, notices).0 matches Some(PdfValue::Dictionary(form))
                && dict_get(form, key) == (if key == utf8("SigFlags"@) || key == utf8("XFA"@) {
                None
            } else if key == utf8("NeedAppearances"@) && (state.needs_appearances || forms.len()
                > 1) {
                Some(PdfValue::Boolean(true))
            } else if key == utf8("DR"@) && state.resources.len() > 0 {
                Some(PdfValue::Dictionary(state.resources))
            } else if key == utf8("Fields"@) {
                Some(PdfValue::Array(state.fields))
            } else {
                dict_get(forms[0], key)
            })
        }),
{
    lemma_form_keys();
    let forms = gathered(objects, catalogs, "AcroForm"@);
    let started = if forms.len() > 1 {
        with_notice(notices, forms_notice())
    } else {
        notices
    };
    let state = combined_forms(objects, forms, started);
    let fields = PdfValue::Array(state.fields);
    storing_a_value(forms[0], utf8("Fields"@), fields, key);
    let with_fields = dict_set(forms[0], utf8("Fields"@), fields);
    let resources = PdfValue::Dictionary(state.resources);
    storing_a_value(with_fields, utf8("DR"@), resources, key);
    let with_resources = if state.resources.len() > 0 {
        dict_set(with_fields, utf8("DR"@), resources)
    } else {
        with_fields
    };
    storing_a_value(with_resources, utf8("NeedAppearances"@), PdfValue::Boolean(true), key);
    let with_appearances = if state.needs_appearances || forms.len() > 1 {
        dict_set(with_resources, utf8("NeedAppearances"@), PdfValue::Boolean(true))
    } else {
        with_resources
    };
    assert(keys_distinct(with_appearances));
    removing_a_key(with_appearances, utf8("SigFlags"@), key);
    let without = dict_remove(with_appearances, utf8("SigFlags"@));
    removing_a_key(without, utf8("XFA"@), key);
}

proof fn lemma_filled(
    existing: Seq<(Seq<u8>, PdfValue)>,
    added: Seq<(Seq<u8>, PdfValue)>,
    key: Seq<u8>,
)
    ensures
        dict_get(existing, key) is Some ==> dict_get(filled_in(existing, added), key) == dict_get(
            existing,
            key,
        ),
        dict_get(added, key) is Some ==> dict_get(filled_in(existing, added), key) is Some,
        dict_get(existing, key) is None && keys_distinct(added) ==> dict_get(
            filled_in(existing, added),
            key,
        ) == dict_get(added, key),
    decreases added.len(),
{
    if added.len() > 0 {
        let shorter = added.drop_last();
        let last = added.last();
        let before = filled_in(existing, shorter);
        lemma_filled(existing, shorter, key);
        storing_a_value(before, last.0, last.1, key);
        lemma_dict_index_from(added, key, 0);
        lemma_dict_index_from(shorter, key, 0);
        if let Some(i) = dict_index(added, key) {
            if i < shorter.len() {
                assert(shorter[i] == added[i]);
            }
        }
        if keys_distinct(added) {
            lemma_last_entry(added, key);
        }
    }
}

/// The resource of this kind and name in a set whose kinds are dictionaries.
pub open spec fn resource(
    resources: Seq<(Seq<u8>, PdfValue)>,
    kind: Seq<u8>,
    name: Seq<u8>,
) -> Option<PdfValue> {
    match dict_get(resources, kind) {
        Some(PdfValue::Dictionary(named)) => dict_get(named, name),
        _ => None,
    }
}

/// Whether a set of resources holds those of a kind, if any, in a dictionary of its own, and
/// no key stands twice.
pub open spec fn is_plain(resources: Seq<(Seq<u8>, PdfValue)>, kind: Seq<u8>) -> bool {
    &&& keys_distinct(resources)
    &&& match dict_get(resources, kind) {
        Some(PdfValue::Dictionary(named)) => keys_distinct(named),
        Some(_) => false,
        None => true,
    }
}

proof fn lemma_resources(
    objects: Seq<(PdfId, PdfValue)>,
    resources: Seq<(Seq<u8>, PdfValue)>,
    added: Seq<(Seq<u8>, PdfValue)>,
    kind: Seq<u8>,
    name: Seq<u8>,
)
    requires
        dict_get(resources, kind) is None || dict_get(resources, kind)->0 is Dictionary,
        is_plain(added, kind),
    ensures
        ({
            let after = add_resources(objects, resources, added);
            &&& dict_get(after, kind) is None || dict_get(after, kind)->0 is Dictionary
            &&& resource(after, kind, name) == (if resource(resources, kind, name) is Some {
                resource(resources, kind, name)
            } else {
                resource(added, kind, name)
            })
            &&& dict_get(added, kind) is None ==> dict_get(after, kind) == dict_get(resources, kind)
        }),
    decreases added.len(),
{
    if added.len() == 0 {
        lemma_dict_index_from(added, kind, 0);
    } else {
        let shorter = added.drop_last();
        let (key, value) = added.last();
        let before = add_resources(objects, resources, shorter);
        lemma_last_entry(added, kind);
        lemma_resources(objects, resources, shorter, kind, name);
        match (dict_get(before, key), resolved(objects, value)) {
            (Some(PdfValue::Dictionary(existing)), Some(PdfValue::Dictionary(more))) => {
                let all = PdfValue::Dictionary(filled_in(existing, more));
                storing_a_value(before, key, all, kind);
                lemma_filled(existing, more, name);
            },
            (None, _) => {
                storing_a_value(before, key, value, kind);
            },
            _ => {},
        }
        if key == kind {
            assert(resolved(objects, value) == Some(value));
        }
    }
}

/// The resources that a form brings.
pub open spec fn own_resources(
    objects: Seq<(PdfId, PdfValue)>,
    form: Seq<(Seq<u8>, PdfValue)>,
) -> Seq<(Seq<u8>, PdfValue)> {
    match resolved_dict(objects, dict_get(form, utf8("DR"@))) {
        Some(resources) => resources,
        None => Seq::empty(),
    }
}

proof fn lemma_all_resources(
    objects: Seq<(PdfId, PdfValue)>,
    forms: Seq<Seq<(Seq<u8>, PdfValue)>>,
    notices: Seq<NoticeValue>,
    kind: Seq<u8>,
    name: Seq<u8>,
    j: int,
)
    requires
        0 <= j <= forms.len(),
        forall|i: int|
            0 <= i < forms.len() ==> is_plain(own_resources(objects, #[trigger] forms[i]), kind),
        forall|i: int|
            0 <= i < j ==> resource(own_resources(objects, #[trigger] forms[i]), kind, name)
                is None,
        j < forms.len() ==> resource(own_resources(objects, forms[j]), kind, name) is Some,
    ensures
        ({
            let all = combined_forms(objects, forms, notices).resources;
            &&& dict_get(all, kind) is None || dict_get(all, kind)->0 is Dictionary
            &&& resource(all, kind, name) == (if j < forms.len() {
                resource(own_resources(objects, forms[j]), kind, name)
            } else {
                None
            })
        }),
    decreases forms.len(),
{
    let all = combined_forms(objects, forms, notices).resources;
    if forms.len() == 0 {
        lemma_dict_index_from(all, kind, 0);
    } else {
        let shorter = forms.drop_last();
        let last = forms.len() - 1;
        let before = combined_forms(objects, shorter, notices).resources;
        assert forall|i: int| 0 <= i < shorter.len() implies is_plain(
            own_resources(objects, #[trigger] shorter[i]),
            kind,
        ) by {
            assert(shorter[i] == forms[i]);
        }
        let first = if j <= last {
            j
        } else {
            last
        };
        assert forall|i: int| 0 <= i < first implies resource(
            own_resources(objects, #[trigger] shorter[i]),
            kind,
            name,
        ) is None by {
            assert(shorter[i] == forms[i]);
        }
        lemma_all_resources(objects, shorter, notices, kind, name, first);
        assert(is_plain(own_resources(objects, forms[last]), kind));
        assert(j > last ==> resource(own_resources(objects, forms[last]), kind, name) is None);
        lemma_resources(objects, before, own_resources(objects, forms[last]), kind, name);
        if resolved_dict(objects, dict_get(forms[last], utf8("DR"@))) is None {
            lemma_dict_index_from(own_resources(objects, forms[last]), kind, 0);
            assert(all == before);
        }
    }
}

/// The combined form holds every font and other resource that a document's form brings under
/// its name, as the first form that has it gives it.
pub proof fn merged_form_keeps_every_resource(
    objects: Seq<(PdfId, PdfValue)>,
    catalogs: Seq<Seq<(Seq<u8>, PdfValue)>>,
    notices: Seq<NoticeValue>,
    kind: Seq<u8>,
    name: Seq<u8>,
    j: int,
)
    requires
        0 <= j < gathered(objects, catalogs, "AcroForm"@).len(),
        keys_distinct(gathered(objects, catalogs, "AcroForm"@)[0]),
        forall|i: int|
            0 <= i < gathered(objects, catalogs, "AcroForm"@).len() ==> is_plain(
                own_resources(objects, #[trigger] gathered(objects, catalogs, "AcroForm"@)[i]),
                kind,
            ),
        forall|i: int|
            0 <= i < j ==> resource(
                own_resources(objects, #[trigger] gathered(objects, catalogs, "AcroForm"@)[i]),
                kind,
                name,
            ) is None,
        resource(
            own_resources(objects, gathered(objects, catalogs, "AcroForm"@)[j]),
            kind,
            name,
        ) is Some,
    ensures
        merged_forms(objects, catalogs, notices).0 matches Some(PdfValue::Dictionary(form))
            && dict_get(form, utf8("DR"@)) matches Some(PdfValue::Dictionary(all)) && resource(
            all,
            kind,
            name,
        ) == resource(
            own_resources(objects, gathered(objects, catalogs, "AcroForm"@)[j]),
            kind,
            name,
        ),
{
    let forms = gathered(objects, catalogs, "AcroForm"@);
    let started = if forms.len() > 1 {
        with_notice(notices, forms_notice())
    } else {
        notices
    };
    lemma_form_keys();
    lemma_all_resources(objects, forms, started, kind, name, j);
    lemma_merged_form(objects, catalogs, notices, utf8("DR"@));
    let all = combined_forms(objects, forms, started).resources;
    lemma_dict_index_from(all, kind, 0);
}

/// Whether two fields of a list have the same name.
pub open spec fn names_collide(objects: Seq<(PdfId, PdfValue)>, fields: Seq<PdfValue>) -> bool {
    exists|i: int, j: int|
        0 <= i < j < fields.len() && field_name(objects, #[trigger] fields[i]) is Some
            && field_name(objects, fields[i]) == field_name(objects, #[trigger] fields[j])
}

/// Whether a field of a list has this name.
spec fn is_named(objects: Seq<(PdfId, PdfValue)>, fields: Seq<PdfValue>, name: Seq<u8>) -> bool {
    exists|i: int|
        0 <= i < fields.len() && field_name(objects, #[trigger] fields[i]) == Some(name)
}

proof fn lemma_one_field(objects: Seq<(PdfId, PdfValue)>, fields: Seq<PdfValue>, last: PdfValue)
    ensures
        names_collide(objects, fields.push(last)) == (names_collide(objects, fields) || (
        field_name(objects, last) matches Some(name) && is_named(objects, fields, name))),
        forall|name: Seq<u8>|
            #[trigger] is_named(objects, fields.push(last), name) <==> is_named(
                objects,
                fields,
                name,
            ) || field_name(objects, last) == Some(name),
{
    let longer = fields.push(last);
    assert(longer[fields.len() as int] == last);
    if names_collide(objects, fields) {
        let (i, j) = choose|i: int, j: int|
            0 <= i < j < fields.len() && field_name(objects, #[trigger] fields[i]) is Some
                && field_name(objects, fields[i]) == field_name(objects, #[trigger] fields[j]);
        assert(longer[i] == fields[i] && longer[j] == fields[j]);
    }
    if let Some(name) = field_name(objects, last) {
        if is_named(objects, fields, name) {
            let i = choose|i: int|
                0 <= i < fields.len() && field_name(objects, #[trigger] fields[i]) == Some(name);
            assert(longer[i] == fields[i]);
            assert(names_collide(objects, longer));
        }
    }
    if names_collide(objects, longer) {
        let (i, j) = choose|i: int, j: int|
            0 <= i < j < longer.len() && field_name(objects, #[trigger] longer[i]) is Some
                && field_name(objects, longer[i]) == field_name(objects, #[trigger] longer[j]);
        assert(longer[i] == fields[i]);
        if j < fields.len() {
            assert(longer[j] == fields[j]);
        }
    }
    assert forall|name: Seq<u8>|
        #[trigger] is_named(objects, longer, name) <==> is_named(objects, fields, name)
            || field_name(objects, last) == Some(name) by {
        if is_named(objects, fields, name) {
            let i = choose|i: int|
                0 <= i < fields.len() && field_name(objects, #[trigger] fields[i]) == Some(name);
            assert(longer[i] == fields[i]);
        }
        if is_named(objects, longer, name) {
            let i = choose|i: int|
                0 <= i < longer.len() && field_name(objects, #[trigger] longer[i]) == Some(name);
            if i < fields.len() {
                assert(longer[i] == fields[i]);
            }
        }
    }
}

proof fn lemma_field_names(
    objects: Seq<(PdfId, PdfValue)>,
    names: Seq<Seq<u8>>,
    notices: Seq<NoticeValue>,
    seen: Seq<PdfValue>,
    fields: Seq<PdfValue>,
    start: bool,
)
    requires
        forall|name: Seq<u8>| #[trigger] names.contains(name) <==> is_named(objects, seen, name),
        has_code(notices, "pdf-form-field-name-collision"@) == (start || names_collide(
            objects,
            seen,
        )),
    ensures
        forall|name: Seq<u8>|
            #[trigger] add_field_names(objects, names, notices, fields).0.contains(name)
                <==> is_named(objects, seen + fields, name),
        has_code(
            add_field_names(objects, names, notices, fields).1,
            "pdf-form-field-name-collision"@,
        ) == (start || names_collide(objects, seen + fields)),
        forall|code: Seq<char>|
            code != "pdf-form-field-name-collision"@ ==> #[trigger] has_code(
                add_field_names(objects, names, notices, fields).1,
                code,
            ) == has_code(notices, code),
    decreases fields.len(),
{
    if fields.len() == 0 {
        assert(seen + fields =~= seen);
    } else {
        let shorter = fields.drop_last();
        let last = fields.last();
        lemma_field_names(objects, names, notices, seen, shorter, start);
        let (before, told) = add_field_names(objects, names, notices, shorter);
        let (after, told_after) = add_field_names(objects, names, notices, fields);
        assert(seen + fields =~= (seen + shorter).push(last));
        lemma_one_field(objects, seen + shorter, last);
        assert forall|name: Seq<u8>|
            #[trigger] after.contains(name) <==> is_named(objects, seen + fields, name) by {
            assert(before.contains(name) <==> is_named(objects, seen + shorter, name));
            assert(is_named(objects, (seen + shorter).push(last), name) <==> is_named(
                objects,
                seen + shorter,
                name,
            ) || field_name(objects, last) == Some(name));
            if let Some(own) = field_name(objects, last) {
                if !before.contains(own) {
                    assert(after == before.push(own));
                    assert(after[before.len() as int] == own);
                    if before.contains(name) {
                        let k = choose|k: int| 0 <= k < before.len() && before[k] == name;
                        assert(after[k] == name);
                    }
                    if after.contains(name) && name != own {
                        let k = choose|k: int| 0 <= k < after.len() && after[k] == name;
                        assert(before[k] == name);
                    }
                }
            }
        }
        if let Some(own) = field_name(objects, last) {
            assert(before.contains(own) <==> is_named(objects, seen + shorter, own));
            lemma_told(
                told,
                field_collision_notice(),
                "pdf-form-field-name-collision"@,
            );
        }
        assert forall|code: Seq<char>|
            code != "pdf-form-field-name-collision"@ implies #[trigger] has_code(told_after, code)
            == has_code(notices, code) by {
            lemma_told(told, field_collision_notice(), code);
            assert(has_code(told, code) == has_code(notices, code));
        }
    }
}

/// Whether a form is signed or describes itself a second time.
pub open spec fn is_signed(form: Seq<(Seq<u8>, PdfValue)>) -> bool {
    dict_has(form, utf8("SigFlags"@)) || dict_has(form, utf8("XFA"@))
}

proof fn lemma_form_notices(
    objects: Seq<(PdfId, PdfValue)>,
    forms: Seq<Seq<(Seq<u8>, PdfValue)>>,
    notices: Seq<NoticeValue>,
)
    ensures
        ({
            let state = combined_forms(objects, forms, notices);
            &&& forall|name: Seq<u8>|
                #[trigger] state.names.contains(name) <==> is_named(
                    objects,
                    all_fields(objects, forms),
                    name,
                )
            &&& has_code(state.notices, "pdf-form-field-name-collision"@) == (has_code(
                notices,
                "pdf-form-field-name-collision"@,
            ) || names_collide(objects, all_fields(objects, forms)))
            &&& has_code(state.notices, "pdf-signature-dropped"@) == (has_code(
                notices,
                "pdf-signature-dropped"@,
            ) || exists|i: int| 0 <= i < forms.len() && is_signed(#[trigger] forms[i]))
            &&& has_code(state.notices, "pdf-forms-combined"@) == has_code(
                notices,
                "pdf-forms-combined"@,
            )
        }),
    decreases forms.len(),
{
    lemma_form_codes();
    if forms.len() > 0 {
        let shorter = forms.drop_last();
        let last = forms.len() - 1;
        let before = combined_forms(objects, shorter, notices);
        let seen = all_fields(objects, shorter);
        lemma_form_notices(objects, shorter, notices);
        let added = match resolved_array(objects, dict_get(forms.last(), utf8("Fields"@))) {
            Some(fields) => fields,
            None => Seq::empty(),
        };
        assert(seen + Seq::<PdfValue>::empty() =~= seen);
        assert(all_fields(objects, forms) == seen + added);
        lemma_field_names(
            objects,
            before.names,
            before.notices,
            seen,
            added,
            has_code(notices, "pdf-form-field-name-collision"@),
        );
        let told = add_field_names(objects, before.names, before.notices, added).1;
        lemma_told(told, signature_notice(), "pdf-form-field-name-collision"@);
        lemma_told(told, signature_notice(), "pdf-signature-dropped"@);
        lemma_told(told, signature_notice(), "pdf-forms-combined"@);
        assert(has_code(told, "pdf-signature-dropped"@) == has_code(
            before.notices,
            "pdf-signature-dropped"@,
        ));
        assert(has_code(told, "pdf-forms-combined"@) == has_code(
            before.notices,
            "pdf-forms-combined"@,
        ));
        if exists|i: int| 0 <= i < forms.len() && is_signed(#[trigger] forms[i]) {
            let i = choose|i: int| 0 <= i < forms.len() && is_signed(#[trigger] forms[i]);
            if i < last {
                assert(shorter[i] == forms[i]);
            }
        }
        if exists|i: int| 0 <= i < shorter.len() && is_signed(#[trigger] shorter[i]) {
            let i = choose|i: int| 0 <= i < shorter.len() && is_signed(#[trigger] shorter[i]);
            assert(forms[i] == shorter[i]);
        }
        assert(forms[last] == forms.last());
    } else {
        assert(!names_collide(objects, all_fields(objects, forms)));
    }
}

/// Combining forms tells that several were combined exactly when there was more than one, that
/// fields share a name exactly when two of them do, and that a signature went exactly when one
/// of the forms was signed.
pub proof fn merging_forms_tells_what_it_did(
    objects: Seq<(PdfId, PdfValue)>,
    catalogs: Seq<Seq<(Seq<u8>, PdfValue)>>,
    notices: Seq<NoticeValue>,
)
    ensures
        ({
            let forms = gathered(objects, catalogs, "AcroForm"@);
            let told = merged_forms(objects, catalogs, notices).1;
            &&& has_code(told, "pdf-forms-combined"@) == (has_code(notices, "pdf-forms-combined"@)
                || forms.len() > 1)
            &&& has_code(told, "pdf-form-field-name-collision"@) == (has_code(
                notices,
                "pdf-form-field-name-collision"@,
            ) || names_collide(objects, all_fields(objects, forms)))
            &&& has_code(told, "pdf-signature-dropped"@) == (has_code(
                notices,
                "pdf-signature-dropped"@,
            ) || exists|i: int| 0 <= i < forms.len() && is_signed(#[trigger] forms[i]))
        }),
{
    lemma_form_codes();
    let forms = gathered(objects, catalogs, "AcroForm"@);
    let started = if forms.len() > 1 {
        with_notice(notices, forms_notice())
    } else {
        notices
    };
    lemma_told(notices, forms_notice(), "pdf-forms-combined"@);
    lemma_told(notices, forms_notice(), "pdf-form-field-name-collision"@);
    lemma_told(notices, forms_notice(), "pdf-signature-dropped"@);
    lemma_form_notices(objects, forms, started);
    if forms.len() == 0 {
        assert(all_fields(objects, forms) =~= Seq::empty());
        assert(!names_collide(objects, all_fields(objects, forms)));
    }
}

proof fn lemma_distinct(values: Seq<PdfValue>, added: Seq<PdfValue>)
    ensures
        forall|id: PdfId|
            #[trigger] add_distinct(values, added).contains(PdfValue::Reference(id))
                <==> values.contains(PdfValue::Reference(id)) || added.contains(
                PdfValue::Reference(id),
            ),
        forall|value: PdfValue|
            #[trigger] add_distinct(values, added).contains(value) ==> values.contains(value)
                || added.contains(value),
        are_unlike(values) ==> are_unlike(add_distinct(values, added)),
    decreases added.len(),
{
    if added.len() == 0 {
    } else {
        let shorter = added.drop_last();
        let last = added.last();
        let before = add_distinct(values, shorter);
        let after = add_distinct(values, added);
        lemma_distinct(values, shorter);
        assert(added =~= shorter.push(last));
        assert(added[added.len() - 1] == last);
        if after != before {
            assert(after == before.push(last));
            assert(after[before.len() as int] == last);
        }
        assert forall|value: PdfValue| #[trigger] after.contains(value) implies values.contains(
            value,
        ) || added.contains(value) by {
            let k = choose|k: int| 0 <= k < after.len() && after[k] == value;
            if k < before.len() {
                assert(before[k] == value);
                assert(before.contains(value));
                if shorter.contains(value) {
                    let m = choose|m: int| 0 <= m < shorter.len() && shorter[m] == value;
                    assert(added[m] == value);
                }
            }
        }
        assert forall|id: PdfId|
            #[trigger] after.contains(PdfValue::Reference(id)) <==> values.contains(
                PdfValue::Reference(id),
            ) || added.contains(PdfValue::Reference(id)) by {
            let value = PdfValue::Reference(id);
            assert(before.contains(value) <==> values.contains(value) || shorter.contains(value));
            if before.contains(value) {
                let k = choose|k: int| 0 <= k < before.len() && before[k] == value;
                assert(after[k] == value);
            }
            if added.contains(value) && !shorter.contains(value) {
                let m = choose|m: int| 0 <= m < added.len() && added[m] == value;
                if m < shorter.len() {
                    assert(shorter[m] == value);
                }
                assert(last == value);
                if after == before {
                    let k = choose|k: int|
                        0 <= k < before.len() && same_value(#[trigger] before[k], last);
                    assert(before[k] == value);
                }
            }
        }
        if are_unlike(values) {
            assert forall|i: int, j: int| 0 <= i < j < after.len() implies !same_value(
                #[trigger] after[i],
                #[trigger] after[j],
            ) by {
                assert(after[i] == before[i]);
                if j < before.len() {
                    assert(after[j] == before[j]);
                }
            }
        }
    }
}

/// Whether no value of a list stands in it twice.
pub open spec fn are_unlike(values: Seq<PdfValue>) -> bool {
    forall|i: int, j: int|
        0 <= i < j < values.len() ==> !same_value(#[trigger] values[i], #[trigger] values[j])
}

/// Whether the layer of this number stands in the list under `key`.
pub open spec fn lists_layer(
    objects: Seq<(PdfId, PdfValue)>,
    holder: Option<Seq<(Seq<u8>, PdfValue)>>,
    key: Seq<char>,
    id: PdfId,
) -> bool {
    holder matches Some(entries) && resolved_array(objects, dict_get(entries, utf8(key))) matches
        Some(values) && values.contains(PdfValue::Reference(id))
}

proof fn lemma_listed(
    objects: Seq<(PdfId, PdfValue)>,
    sources: Seq<Seq<(Seq<u8>, PdfValue)>>,
    key: Seq<char>,
    id: PdfId,
)
    ensures
        listed_layers(objects, sources, key, false).contains(PdfValue::Reference(id)) == (exists|
            j: int,
        |
            0 <= j < sources.len() && lists_layer(objects, Some(#[trigger] sources[j]), key, id)),
        listed_layers(objects, sources, key, true).contains(PdfValue::Reference(id)) == (exists|
            j: int,
        |
            0 <= j < sources.len() && lists_layer(
                objects,
                resolved_dict(objects, dict_get(#[trigger] sources[j], utf8("D"@))),
                key,
                id,
            )),
        are_unlike(listed_layers(objects, sources, key, false)),
        are_unlike(listed_layers(objects, sources, key, true)),
    decreases sources.len(),
{
    if sources.len() > 0 {
        let shorter = sources.drop_last();
        let last = sources.len() - 1;
        lemma_listed(objects, shorter, key, id);
        assert(sources[last] == sources.last());
        assert forall|j: int| 0 <= j < last implies shorter[j] == sources[j] by {}
        if let Some(values) = resolved_array(objects, dict_get(sources.last(), utf8(key))) {
            lemma_distinct(listed_layers(objects, shorter, key, false), values);
        }
        if let Some(entries) = resolved_dict(objects, dict_get(sources.last(), utf8("D"@))) {
            if let Some(values) = resolved_array(objects, dict_get(entries, utf8(key))) {
                lemma_distinct(listed_layers(objects, shorter, key, true), values);
            }
        }
        lemma_witness(objects, sources, key, id);
    }
}

proof fn lemma_witness(
    objects: Seq<(PdfId, PdfValue)>,
    sources: Seq<Seq<(Seq<u8>, PdfValue)>>,
    key: Seq<char>,
    id: PdfId,
)
    requires
        sources.len() > 0,
    ensures
        (exists|j: int|
            0 <= j < sources.len() && lists_layer(objects, Some(#[trigger] sources[j]), key, id))
            == (lists_layer(objects, Some(sources.last()), key, id) || exists|j: int|
            0 <= j < sources.drop_last().len() && lists_layer(
                objects,
                Some(#[trigger] sources.drop_last()[j]),
                key,
                id,
            )),
        (exists|j: int|
            0 <= j < sources.len() && lists_layer(
                objects,
                resolved_dict(objects, dict_get(#[trigger] sources[j], utf8("D"@))),
                key,
                id,
            )) == (lists_layer(
            objects,
            resolved_dict(objects, dict_get(sources.last(), utf8("D"@))),
            key,
            id,
        ) || exists|j: int|
            0 <= j < sources.drop_last().len() && lists_layer(
                objects,
                resolved_dict(objects, dict_get(#[trigger] sources.drop_last()[j], utf8("D"@))),
                key,
                id,
            )),
{
    let shorter = sources.drop_last();
    let last = sources.len() - 1;
    assert(sources[last] == sources.last());
    assert forall|j: int| 0 <= j < last implies #[trigger] sources[j] == shorter[j] by {}
    assert forall|j: int| 0 <= j < last implies #[trigger] shorter[j] == sources[j] by {}
}

/// The lists of the combined layers that say which are shown, hidden, ordered, switched
/// together or apart.
pub open spec fn is_layer_list(key: Seq<char>) -> bool {
    key == "ON"@ || key == "OFF"@ || key == "Order"@ || key == "AS"@ || key == "RBGroups"@
}

proof fn lemma_with_layers(
    objects: Seq<(PdfId, PdfValue)>,
    sources: Seq<Seq<(Seq<u8>, PdfValue)>>,
    default: Seq<(Seq<u8>, PdfValue)>,
    key: Seq<char>,
    other: Seq<u8>,
)
    ensures
        dict_get(with_layers(objects, sources, default, key), other) == (if other == utf8(key)
            && listed_layers(objects, sources, key, true).len() > 0 {
            Some(PdfValue::Array(listed_layers(objects, sources, key, true)))
        } else {
            dict_get(default, other)
        }),
{
    storing_a_value(
        default,
        utf8(key),
        PdfValue::Array(listed_layers(objects, sources, key, true)),
        other,
    );
}

/// The combined layers hold a layer exactly when some document has it, and each one time. The
/// default view lists a layer as shown, hidden, ordered or switched exactly when some
/// document's does. Everything else is as in the first document with layers.
pub proof fn merged_layers_hold_every_layer(
    objects: Seq<(PdfId, PdfValue)>,
    catalogs: Seq<Seq<(Seq<u8>, PdfValue)>>,
    key: Seq<char>,
    other: Seq<u8>,
    id: PdfId,
)
    requires
        gathered(objects, catalogs, "OCProperties"@).len() > 0,
        keys_distinct(gathered(objects, catalogs, "OCProperties"@)[0]),
        is_layer_list(key),
    ensures
        ({
            let sources = gathered(objects, catalogs, "OCProperties"@);
            merged_layers(objects, catalogs) matches Some(PdfValue::Dictionary(layers)) && {
                &&& dict_get(layers, utf8("OCGs"@)) matches Some(PdfValue::Array(all))
                    && are_unlike(all) && (all.contains(PdfValue::Reference(id)) <==> exists|
                    j: int,
                |
                    0 <= j < sources.len() && lists_layer(
                        objects,
                        Some(#[trigger] sources[j]),
                        "OCGs"@,
                        id,
                    ))
                &&& dict_get(layers, utf8("D"@)) matches Some(PdfValue::Dictionary(view))
                    && (lists_layer(objects, Some(view), key, id) <==> exists|j: int|
                    0 <= j < sources.len() && lists_layer(
                        objects,
                        resolved_dict(objects, dict_get(#[trigger] sources[j], utf8("D"@))),
                        key,
                        id,
                    ))
                &&& dict_get(layers, utf8("Configs"@)) is None
                &&& other != utf8("OCGs"@) && other != utf8("D"@) && other != utf8("Configs"@)
                    ==> dict_get(layers, other) == dict_get(sources[0], other)
            }
        }),
{
    lemma_layer_keys();
    lemma_default_keys();
    let sources = gathered(objects, catalogs, "OCProperties"@);
    lemma_listed(objects, sources, "OCGs"@, id);
    lemma_listed(objects, sources, key, id);
    let all = PdfValue::Array(listed_layers(objects, sources, "OCGs"@, false));
    let listed = dict_set(sources[0], utf8("OCGs"@), all);
    storing_a_value(sources[0], utf8("OCGs"@), all, utf8("OCGs"@));
    storing_a_value(sources[0], utf8("OCGs"@), all, utf8("D"@));
    storing_a_value(sources[0], utf8("OCGs"@), all, other);
    let start = match resolved_dict(objects, dict_get(listed, utf8("D"@))) {
        Some(entries) => entries,
        None => Seq::empty(),
    };
    let shown = with_layers(objects, sources, start, "ON"@);
    let hidden = with_layers(objects, sources, shown, "OFF"@);
    let ordered = with_layers(objects, sources, hidden, "Order"@);
    let automatic = with_layers(objects, sources, ordered, "AS"@);
    let grouped = with_layers(objects, sources, automatic, "RBGroups"@);
    lemma_with_layers(objects, sources, start, "ON"@, utf8(key));
    lemma_with_layers(objects, sources, shown, "OFF"@, utf8(key));
    lemma_with_layers(objects, sources, hidden, "Order"@, utf8(key));
    lemma_with_layers(objects, sources, ordered, "AS"@, utf8(key));
    lemma_with_layers(objects, sources, automatic, "RBGroups"@, utf8(key));
    let view = PdfValue::Dictionary(grouped);
    storing_a_value(listed, utf8("D"@), view, utf8("OCGs"@));
    storing_a_value(listed, utf8("D"@), view, utf8("D"@));
    storing_a_value(listed, utf8("D"@), view, other);
    let whole = dict_set(listed, utf8("D"@), view);
    removing_a_key(whole, utf8("Configs"@), utf8("OCGs"@));
    removing_a_key(whole, utf8("Configs"@), utf8("D"@));
    removing_a_key(whole, utf8("Configs"@), utf8("Configs"@));
    removing_a_key(whole, utf8("Configs"@), other);
    let lists = listed_layers(objects, sources, key, true);
    if lists.len() > 0 {
        assert(dict_get(grouped, utf8(key)) == Some(PdfValue::Array(lists)));
        assert(resolved_array(objects, dict_get(grouped, utf8(key))) == Some(lists));
    } else {
        assert(!lists.contains(PdfValue::Reference(id)));
        assert(dict_get(grouped, utf8(key)) == dict_get(start, utf8(key)));
        if lists_layer(objects, Some(grouped), key, id) {
            lemma_dict_index_from(start, utf8(key), 0);
            assert(resolved_dict(objects, dict_get(sources[0], utf8("D"@))) == Some(start));
            assert(lists_layer(
                objects,
                resolved_dict(objects, dict_get(sources[0], utf8("D"@))),
                key,
                id,
            ));
        }
    }
}

} // verus!
