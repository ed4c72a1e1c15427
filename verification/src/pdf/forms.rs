//! Combining interactive forms and optional-content (layer) definitions.

use vstd::prelude::*;

use crate::bytes::{copy_bytes, utf8};
use crate::notices::{notice, notice_values, push_notice, with_notice, Notice, NoticeValue};
use crate::pdf::catalog::{
    contains_key, dictionaries_value, gather, gathered, keys_value, new_signature_notice,
    optional_value, signature_notice,
};
use crate::pdf::model::{
    array_value, copy_dictionary, copy_object, dict_get, dict_has, dict_remove, dict_set, resolve,
    resolve_array, resolve_dictionary, resolved, resolved_array, resolved_dict, same_object,
    same_value, table_value, PdfDictionary, PdfId, PdfObject, PdfValue,
};

verus! {

/// The statement that several forms became one.
pub open spec fn forms_notice() -> NoticeValue {
    notice(
        "pdf-forms-combined"@,
        "These PDFs each contain a fillable form. The forms were combined into one; fields that share a name across files now share a single value."@,
    )
}

/// The statement that fields of different files share a name.
pub open spec fn field_collision_notice() -> NoticeValue {
    notice(
        "pdf-form-field-name-collision"@,
        "Some form fields in different PDFs share the same name. Filling one now fills the other, because a PDF form treats identically named fields as one field."@,
    )
}

/// The name of a form field, when it has one.
pub open spec fn field_name(
    objects: Seq<(PdfId, PdfValue)>,
    field: PdfValue,
) -> Option<Seq<u8>> {
    match resolved_dict(objects, Some(field)) {
        Some(entries) => match dict_get(entries, utf8("T"@)) {
            Some(PdfValue::Text(name, _)) => Some(name),
            _ => None,
        },
        None => None,
    }
}

/// Field names after more fields, and what has to be said about repeated ones.
pub open spec fn add_field_names(
    objects: Seq<(PdfId, PdfValue)>,
    names: Seq<Seq<u8>>,
    notices: Seq<NoticeValue>,
    fields: Seq<PdfValue>,
) -> (Seq<Seq<u8>>, Seq<NoticeValue>)
    decreases fields.len(),
{
    if fields.len() == 0 {
        (names, notices)
    } else {
        let (before, told) = add_field_names(objects, names, notices, fields.drop_last());
        match field_name(objects, fields.last()) {
            Some(name) => if before.contains(name) {
                (before, with_notice(told, field_collision_notice()))
            } else {
                (before.push(name), told)
            },
            None => (before, told),
        }
    }
}

fn push_fields(
    objects: &Vec<(PdfId, PdfObject)>,
    form_fields: &Vec<PdfObject>,
    fields: &mut Vec<PdfObject>,
    names: &mut Vec<Vec<u8>>,
    notices: &mut Vec<Notice>,
)
    ensures
        array_value(final(fields)@) == array_value(old(fields)@) + array_value(form_fields@),
        (keys_value(final(names)@), notice_values(final(notices)@)) == add_field_names(
            table_value(objects@),
            keys_value(old(names)@),
            notice_values(old(notices)@),
            array_value(form_fields@),
        ),
{
    let ghost table = table_value(objects@);
    let ghost all = array_value(form_fields@);
    let ghost fields0 = array_value(fields@);
    let ghost names0 = keys_value(names@);
    let ghost notices0 = notice_values(notices@);
    assert(all.take(0) =~= Seq::empty());
    assert(fields0 + all.take(0) =~= fields0);
    let mut i: usize = 0;
    while i < form_fields.len()
        invariant
            i <= form_fields@.len(),
            table == table_value(objects@),
            all == array_value(form_fields@),
            array_value(fields@) == fields0 + all.take(i as int),
            (keys_value(names@), notice_values(notices@)) == add_field_names(
                table,
                names0,
                notices0,
                all.take(i as int),
            ),
        decreases form_fields.len() - i,
    {
        let field = &form_fields[i];
        assert(all.take(i + 1).drop_last() =~= all.take(i as int));
        assert(all.take(i + 1).last() == field@);
        if let Some(dictionary) = resolve_dictionary(objects, Some(field)) {
            if let Some(PdfObject::Text(name, _)) = dictionary.get("T") {
                if contains_key(names, name) {
                    push_notice(
                        notices,
                        Notice::new(
                            "pdf-form-field-name-collision",
                            "Some form fields in different PDFs share the same name. Filling one now fills the other, because a PDF form treats identically named fields as one field.",
                        ),
                    );
                } else {
                    let ghost before = keys_value(names@);
                    names.push(copy_bytes(name));
                    assert(keys_value(names@) =~= before.push(name@));
                }
            }
        }
        let ghost before = array_value(fields@);
        fields.push(copy_object(field));
        assert(array_value(fields@) =~= before.push(field@));
        assert(array_value(fields@) =~= fields0 + all.take(i + 1));
        i += 1;
    }
    assert(all.take(all.len() as int) =~= all);
}

/// A dictionary with the entries of another that it does not have yet.
pub open spec fn filled_in(
    existing: Seq<(Seq<u8>, PdfValue)>,
    added: Seq<(Seq<u8>, PdfValue)>,
) -> Seq<(Seq<u8>, PdfValue)>
    decreases added.len(),
{
    if added.len() == 0 {
        existing
    } else {
        let before = filled_in(existing, added.drop_last());
        if dict_has(before, added.last().0) {
            before
        } else {
            dict_set(before, added.last().0, added.last().1)
        }
    }
}

fn fill_in(existing: &mut PdfDictionary, added: &PdfDictionary)
    ensures
        final(existing)@ == filled_in(old(existing)@, added@),
{
    let ghost start = existing@;
    let ghost all = added@;
    assert(all.take(0) =~= Seq::empty());
    let mut i: usize = 0;
    while i < added.entries.len()
        invariant
            i <= added.entries@.len(),
            all == added@,
            existing@ == filled_in(start, all.take(i as int)),
        decreases added.entries.len() - i,
    {
        let entry = &added.entries[i];
        assert(all.take(i + 1).drop_last() =~= all.take(i as int));
        assert(all.take(i + 1).last() == (entry.0@, entry.1@));
        if !existing.has_key(&entry.0) {
            existing.set_key(copy_bytes(&entry.0), copy_object(&entry.1));
        }
        i += 1;
    }
    assert(all.take(all.len() as int) =~= all);
}

/// Default resources after one more form's: whole entries are added, and
/// dictionaries under the same key are filled in.
pub open spec fn add_resources(
    objects: Seq<(PdfId, PdfValue)>,
    resources: Seq<(Seq<u8>, PdfValue)>,
    added: Seq<(Seq<u8>, PdfValue)>,
) -> Seq<(Seq<u8>, PdfValue)>
    decreases added.len(),
{
    if added.len() == 0 {
        resources
    } else {
        let before = add_resources(objects, resources, added.drop_last());
        let (key, value) = added.last();
        match (dict_get(before, key), resolved(objects, value)) {
            (Some(PdfValue::Dictionary(existing)), Some(PdfValue::Dictionary(more))) => dict_set(
                before,
                key,
                PdfValue::Dictionary(filled_in(existing, more)),
            ),
            (None, _) => dict_set(before, key, value),
            _ => before,
        }
    }
}

fn push_resources(
    objects: &Vec<(PdfId, PdfObject)>,
    resources: &mut PdfDictionary,
    added: &PdfDictionary,
)
    ensures
        final(resources)@ == add_resources(table_value(objects@), old(resources)@, added@),
{
    let ghost table = table_value(objects@);
    let ghost start = resources@;
    let ghost all = added@;
    assert(all.take(0) =~= Seq::empty());
    let mut i: usize = 0;
    while i < added.entries.len()
        invariant
            i <= added.entries@.len(),
            table == table_value(objects@),
            all == added@,
            resources@ == add_resources(table, start, all.take(i as int)),
        decreases added.entries.len() - i,
    {
        let entry = &added.entries[i];
        assert(all.take(i + 1).drop_last() =~= all.take(i as int));
        assert(all.take(i + 1).last() == (entry.0@, entry.1@));
        let merged: Option<PdfObject> = match resources.get_key(&entry.0) {
            Some(PdfObject::Dictionary(existing)) => match resolve(objects, &entry.1) {
                Some(PdfObject::Dictionary(more)) => {
                    let mut filled = copy_dictionary(existing);
                    fill_in(&mut filled, more);
                    Some(PdfObject::Dictionary(filled))
                },
                _ => None,
            },
            Some(_) => None,
            None => Some(copy_object(&entry.1)),
        };
        if let Some(value) = merged {
            resources.set_key(copy_bytes(&entry.0), value);
        }
        i += 1;
    }
    assert(all.take(all.len() as int) =~= all);
}

/// What the forms read so far add up to.
pub struct FormState {
    pub fields: Seq<PdfValue>,
    pub names: Seq<Seq<u8>>,
    pub resources: Seq<(Seq<u8>, PdfValue)>,
    pub needs_appearances: bool,
    pub notices: Seq<NoticeValue>,
}

/// The state after some forms.
pub open spec fn combined_forms(
    objects: Seq<(PdfId, PdfValue)>,
    forms: Seq<Seq<(Seq<u8>, PdfValue)>>,
    notices: Seq<NoticeValue>,
) -> FormState
    decreases forms.len(),
{
    if forms.len() == 0 {
        FormState {
            fields: Seq::empty(),
            names: Seq::empty(),
            resources: Seq::empty(),
            needs_appearances: false,
            notices,
        }
    } else {
        let before = combined_forms(objects, forms.drop_last(), notices);
        let form = forms.last();
        let added = match resolved_array(objects, dict_get(form, utf8("Fields"@))) {
            Some(fields) => fields,
            None => Seq::empty(),
        };
        let (names, told) = add_field_names(objects, before.names, before.notices, added);
        FormState {
            fields: before.fields + added,
            names,
            resources: match resolved_dict(objects, dict_get(form, utf8("DR"@))) {
                Some(resources) => add_resources(objects, before.resources, resources),
                None => before.resources,
            },
            needs_appearances: before.needs_appearances || dict_get(
                form,
                utf8("NeedAppearances"@),
            ) == Some(PdfValue::Boolean(true)),
            notices: if dict_has(form, utf8("SigFlags"@)) || dict_has(form, utf8("XFA"@)) {
                with_notice(told, signature_notice())
            } else {
                told
            },
        }
    }
}

/// The `/AcroForm` entry of a combined catalog: the first form, with the fields
/// and resources of all and without signature data.
pub open spec fn merged_forms(
    objects: Seq<(PdfId, PdfValue)>,
    catalogs: Seq<Seq<(Seq<u8>, PdfValue)>>,
    notices: Seq<NoticeValue>,
) -> (Option<PdfValue>, Seq<NoticeValue>) {
    let forms = gathered(objects, catalogs, "AcroForm"@);
    if forms.len() == 0 {
        (None, notices)
    } else {
        let started = if forms.len() > 1 {
            with_notice(notices, forms_notice())
        } else {
            notices
        };
        let state = combined_forms(objects, forms, started);
        let with_fields = dict_set(forms[0], utf8("Fields"@), PdfValue::Array(state.fields));
        let with_resources = if state.resources.len() > 0 {
            dict_set(with_fields, utf8("DR"@), PdfValue::Dictionary(state.resources))
        } else {
            with_fields
        };
        let with_appearances = if state.needs_appearances || forms.len() > 1 {
            dict_set(with_resources, utf8("NeedAppearances"@), PdfValue::Boolean(true))
        } else {
            with_resources
        };
        (
            Some(
                PdfValue::Dictionary(
                    dict_remove(
                        dict_remove(with_appearances, utf8("SigFlags"@)),
                        utf8("XFA"@),
                    ),
                ),
            ),
            state.notices,
        )
    }
}

/// Combine interactive form definitions so widgets on every merged page keep a
/// live field. Field values, appearance defaults, and resources come from the
/// first form; the field lists are concatenated.
pub fn merge_acroforms(
    objects: &Vec<(PdfId, PdfObject)>,
    catalogs: &Vec<PdfDictionary>,
    notices: &mut Vec<Notice>,
) -> (form: Option<PdfObject>)
    ensures
        (optional_value(form), notice_values(final(notices)@)) == merged_forms(
            table_value(objects@),
            dictionaries_value(catalogs@),
            notice_values(old(notices)@),
        ),
{
    let ghost table = table_value(objects@);
    let forms = gather(objects, catalogs, "AcroForm");
    let ghost all = dictionaries_value(forms@);
    if forms.len() == 0 {
        return None;
    }
    if forms.len() > 1 {
        push_notice(
            notices,
            Notice::new(
                "pdf-forms-combined",
                "These PDFs each contain a fillable form. The forms were combined into one; fields that share a name across files now share a single value.",
            ),
        );
    }
    let ghost started = notice_values(notices@);
    let mut fields: Vec<PdfObject> = Vec::new();
    let mut names: Vec<Vec<u8>> = Vec::new();
    let mut resources = PdfDictionary::empty();
    let mut needs_appearances = false;
    assert(all.take(0) =~= Seq::empty());
    assert(array_value(fields@) =~= Seq::empty());
    assert(keys_value(names@) =~= Seq::empty());
    let mut i: usize = 0;
    while i < forms.len()
        invariant
            i <= forms@.len(),
            table == table_value(objects@),
            all == dictionaries_value(forms@),
            combined_forms(table, all.take(i as int), started) == (FormState {
                fields: array_value(fields@),
                names: keys_value(names@),
                resources: resources@,
                needs_appearances,
                notices: notice_values(notices@),
            }),
        decreases forms.len() - i,
    {
        let form = &forms[i];
        let ghost fields0 = array_value(fields@);
        let ghost names0 = keys_value(names@);
        let ghost told0 = notice_values(notices@);
        assert(all.take(i + 1).drop_last() =~= all.take(i as int));
        assert(all.take(i + 1).last() == form@);
        match resolve_array(objects, form.get("Fields")) {
            Some(form_fields) => {
                push_fields(objects, form_fields, &mut fields, &mut names, notices);
            },
            None => {
                assert(add_field_names(table, names0, told0, Seq::empty()) == (names0, told0));
                assert(fields0 + Seq::<PdfValue>::empty() =~= fields0);
            },
        }
        if let Some(added) = resolve_dictionary(objects, form.get("DR")) {
            push_resources(objects, &mut resources, added);
        }
        let wants_appearances = match form.get("NeedAppearances") {
            Some(PdfObject::Boolean(value)) => *value,
            _ => false,
        };
        if wants_appearances {
            needs_appearances = true;
        }
        if form.has("SigFlags") || form.has("XFA") {
            push_notice(notices, new_signature_notice());
        }
        i += 1;
    }
    assert(all.take(all.len() as int) =~= all);
    let mut merged = copy_dictionary(&forms[0]);
    assert(merged@ == all[0]);
    merged.set("Fields", PdfObject::Array(fields));
    if resources.entries.len() > 0 {
        merged.set("DR", PdfObject::Dictionary(resources));
    }
    if needs_appearances || forms.len() > 1 {
        merged.set("NeedAppearances", PdfObject::Boolean(true));
    }
    merged.remove("SigFlags");
    merged.remove("XFA");
    Some(PdfObject::Dictionary(merged))
}

/// Whether a list holds an equal value.
pub open spec fn holds_same(values: Seq<PdfValue>, value: PdfValue) -> bool {
    exists|i: int| 0 <= i < values.len() && same_value(#[trigger] values[i], value)
}

fn contains_same(values: &Vec<PdfObject>, value: &PdfObject) -> (found: bool)
    ensures
        found == holds_same(array_value(values@), value@),
{
    let ghost all = array_value(values@);
    let mut i: usize = 0;
    while i < values.len()
        invariant
            i <= values@.len(),
            all == array_value(values@),
            forall|j: int| 0 <= j < i ==> !same_value(#[trigger] all[j], value@),
        decreases values.len() - i,
    {
        if same_object(&values[i], value) {
            assert(same_value(all[i as int], value@));
            return true;
        }
        i += 1;
    }
    false
}

/// Values with more behind them, each only once.
pub open spec fn add_distinct(values: Seq<PdfValue>, added: Seq<PdfValue>) -> Seq<PdfValue>
    decreases added.len(),
{
    if added.len() == 0 {
        values
    } else {
        let before = add_distinct(values, added.drop_last());
        if holds_same(before, added.last()) {
            before
        } else {
            before.push(added.last())
        }
    }
}

fn push_distinct(values: &mut Vec<PdfObject>, added: &Vec<PdfObject>)
    ensures
        array_value(final(values)@) == add_distinct(array_value(old(values)@), array_value(added@)),
{
    let ghost start = array_value(values@);
    let ghost all = array_value(added@);
    assert(all.take(0) =~= Seq::empty());
    let mut i: usize = 0;
    while i < added.len()
        invariant
            i <= added@.len(),
            all == array_value(added@),
            array_value(values@) == add_distinct(start, all.take(i as int)),
        decreases added.len() - i,
    {
        assert(all.take(i + 1).drop_last() =~= all.take(i as int));
        assert(all.take(i + 1).last() == added@[i as int]@);
        if !contains_same(values, &added[i]) {
            let ghost before = array_value(values@);
            values.push(copy_object(&added[i]));
            assert(array_value(values@) =~= before.push(added@[i as int]@));
        }
        i += 1;
    }
    assert(all.take(all.len() as int) =~= all);
}

/// The items that the sources list under `key`, each once: directly, or in their
/// default configuration `/D`.
pub open spec fn listed_layers(
    objects: Seq<(PdfId, PdfValue)>,
    sources: Seq<Seq<(Seq<u8>, PdfValue)>>,
    key: Seq<char>,
    from_default: bool,
) -> Seq<PdfValue>
    decreases sources.len(),
{
    if sources.len() == 0 {
        Seq::empty()
    } else {
        let before = listed_layers(objects, sources.drop_last(), key, from_default);
        let holder = if from_default {
            resolved_dict(objects, dict_get(sources.last(), utf8("D"@)))
        } else {
            Some(sources.last())
        };
        match holder {
            Some(entries) => match resolved_array(objects, dict_get(entries, utf8(key))) {
                Some(values) => add_distinct(before, values),
                None => before,
            },
            None => before,
        }
    }
}

fn list_layers(
    objects: &Vec<(PdfId, PdfObject)>,
    sources: &Vec<PdfDictionary>,
    key: &str,
    from_default: bool,
) -> (layers: Vec<PdfObject>)
    ensures
        array_value(layers@) == listed_layers(
            table_value(objects@),
            dictionaries_value(sources@),
            key@,
            from_default,
        ),
{
    let ghost table = table_value(objects@);
    let ghost all = dictionaries_value(sources@);
    let mut layers: Vec<PdfObject> = Vec::new();
    assert(array_value(layers@) =~= listed_layers(table, all.take(0), key@, from_default));
    let mut i: usize = 0;
    while i < sources.len()
        invariant
            i <= sources@.len(),
            table == table_value(objects@),
            all == dictionaries_value(sources@),
            array_value(layers@) == listed_layers(table, all.take(i as int), key@, from_default),
        decreases sources.len() - i,
    {
        assert(all.take(i + 1).drop_last() =~= all.take(i as int));
        assert(all.take(i + 1).last() == sources@[i as int]@);
        let holder = if from_default {
            resolve_dictionary(objects, sources[i].get("D"))
        } else {
            Some(&sources[i])
        };
        if let Some(dictionary) = holder {
            if let Some(values) = resolve_array(objects, dictionary.get(key)) {
                push_distinct(&mut layers, values);
            }
        }
        i += 1;
    }
    assert(all.take(all.len() as int) =~= all);
    layers
}

/// The default configuration with the combined items of one list, if there are
/// any.
pub open spec fn with_layers(
    objects: Seq<(PdfId, PdfValue)>,
    sources: Seq<Seq<(Seq<u8>, PdfValue)>>,
    default: Seq<(Seq<u8>, PdfValue)>,
    key: Seq<char>,
) -> Seq<(Seq<u8>, PdfValue)> {
    let layers = listed_layers(objects, sources, key, true);
    if layers.len() > 0 {
        dict_set(default, utf8(key), PdfValue::Array(layers))
    } else {
        default
    }
}

fn set_layers(
    objects: &Vec<(PdfId, PdfObject)>,
    sources: &Vec<PdfDictionary>,
    default: &mut PdfDictionary,
    key: &str,
)
    ensures
        final(default)@ == with_layers(
            table_value(objects@),
            dictionaries_value(sources@),
            old(default)@,
            key@,
        ),
{
    let layers = list_layers(objects, sources, key, true);
    if layers.len() > 0 {
        default.set(key, PdfObject::Array(layers));
    }
}

/// The `/OCProperties` entry of a combined catalog: every document's layers stay
/// listed, in the configuration of the first.
pub open spec fn merged_layers(
    objects: Seq<(PdfId, PdfValue)>,
    catalogs: Seq<Seq<(Seq<u8>, PdfValue)>>,
) -> Option<PdfValue> {
    let sources = gathered(objects, catalogs, "OCProperties"@);
    if sources.len() == 0 {
        None
    } else {
        let listed = dict_set(
            sources[0],
            utf8("OCGs"@),
            PdfValue::Array(listed_layers(objects, sources, "OCGs"@, false)),
        );
        let start = match resolved_dict(objects, dict_get(listed, utf8("D"@))) {
            Some(entries) => entries,
            None => Seq::empty(),
        };
        let shown = with_layers(objects, sources, start, "ON"@);
        let hidden = with_layers(objects, sources, shown, "OFF"@);
        let ordered = with_layers(objects, sources, hidden, "Order"@);
        let automatic = with_layers(objects, sources, ordered, "AS"@);
        let grouped = with_layers(objects, sources, automatic, "RBGroups"@);
        Some(
            PdfValue::Dictionary(
                dict_remove(
                    dict_set(listed, utf8("D"@), PdfValue::Dictionary(grouped)),
                    utf8("Configs"@),
                ),
            ),
        )
    }
}

/// Combine optional-content (layer) definitions so every source document's
/// layers stay switchable in the merged file.
pub fn merge_optional_content(
    objects: &Vec<(PdfId, PdfObject)>,
    catalogs: &Vec<PdfDictionary>,
) -> (layers: Option<PdfObject>)
    ensures
        optional_value(layers) == merged_layers(
            table_value(objects@),
            dictionaries_value(catalogs@),
        ),
{
    let sources = gather(objects, catalogs, "OCProperties");
    if sources.len() == 0 {
        return None;
    }
    let mut merged = copy_dictionary(&sources[0]);
    assert(merged@ == dictionaries_value(sources@)[0]);
    merged.set("OCGs", PdfObject::Array(list_layers(objects, &sources, "OCGs", false)));
    let mut default = match resolve_dictionary(objects, merged.get("D")) {
        Some(dictionary) => copy_dictionary(dictionary),
        None => PdfDictionary::empty(),
    };
    set_layers(objects, &sources, &mut default, "ON");
    set_layers(objects, &sources, &mut default, "OFF");
    set_layers(objects, &sources, &mut default, "Order");
    set_layers(objects, &sources, &mut default, "AS");
    set_layers(objects, &sources, &mut default, "RBGroups");
    merged.set("D", PdfObject::Dictionary(default));
    merged.remove("Configs");
    Some(PdfObject::Dictionary(merged))
}

} // verus!
