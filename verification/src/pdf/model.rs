//! A PDF document as plain values: objects, ordered dictionaries, streams, and
//! the table of indirect objects.

use vstd::prelude::*;

use crate::bytes::{copy_bytes, is_text, same_bytes, text_bytes, utf8};
use crate::text::same_text;

verus! {

/// An object number together with its generation number.
pub type PdfId = (u32, u16);

/// How a string is written.
#[derive(Clone, Copy, PartialEq, Eq, Structural)]
pub enum TextFormat {
    Literal,
    Hexadecimal,
}

/// How the cross-reference data of a file is written.
#[derive(Clone, Copy, PartialEq, Eq, Structural)]
pub enum XrefKind {
    Stream,
    Table,
}

/// One PDF object.
pub enum PdfObject {
    Null,
    Boolean(bool),
    Integer(i64),
    /// A real number, held as its shortest decimal text.
    Real(String),
    Name(Vec<u8>),
    /// A string, and how it is written.
    Text(Vec<u8>, TextFormat),
    Array(Vec<PdfObject>),
    Dictionary(PdfDictionary),
    Stream(PdfStream),
    Reference(PdfId),
}

/// A dictionary whose entries keep the order they were added in.
pub struct PdfDictionary {
    pub entries: Vec<(Vec<u8>, PdfObject)>,
}

/// A stream: its dictionary and its bytes as they stand in the file.
pub struct PdfStream {
    pub dict: PdfDictionary,
    pub content: Vec<u8>,
    pub allows_compression: bool,
    pub start_position: Option<usize>,
}

/// The value of a PDF object.
pub enum PdfValue {
    Null,
    Boolean(bool),
    Integer(i64),
    Real(Seq<char>),
    Name(Seq<u8>),
    Text(Seq<u8>, TextFormat),
    Array(Seq<PdfValue>),
    Dictionary(Seq<(Seq<u8>, PdfValue)>),
    Stream(PdfStreamValue),
    Reference(PdfId),
}

/// The value of a stream.
pub struct PdfStreamValue {
    pub dict: Seq<(Seq<u8>, PdfValue)>,
    pub content: Seq<u8>,
    pub allows_compression: bool,
    pub start_position: Option<usize>,
}

/// The value of an object.
pub open spec fn object_value(object: PdfObject) -> PdfValue
    decreases object,
{
    match object {
        PdfObject::Null => PdfValue::Null,
        PdfObject::Boolean(value) => PdfValue::Boolean(value),
        PdfObject::Integer(value) => PdfValue::Integer(value),
        PdfObject::Real(text) => PdfValue::Real(text@),
        PdfObject::Name(name) => PdfValue::Name(name@),
        PdfObject::Text(text, format) => PdfValue::Text(text@, format),
        PdfObject::Array(items) => PdfValue::Array(array_value(items@)),
        PdfObject::Dictionary(dictionary) => PdfValue::Dictionary(dictionary_value(dictionary)),
        PdfObject::Stream(stream) => PdfValue::Stream(stream_value(stream)),
        PdfObject::Reference(id) => PdfValue::Reference(id),
    }
}

/// The values of an array's items.
pub open spec fn array_value(items: Seq<PdfObject>) -> Seq<PdfValue>
    decreases items,
{
    Seq::new(
        items.len(),
        |i: int|
            if 0 <= i < items.len() {
                object_value(items[i])
            } else {
                PdfValue::Null
            },
    )
}

/// The entries of a dictionary.
pub open spec fn dictionary_value(dictionary: PdfDictionary) -> Seq<(Seq<u8>, PdfValue)>
    decreases dictionary,
{
    Seq::new(
        dictionary.entries@.len(),
        |i: int|
            if 0 <= i < dictionary.entries@.len() {
                (dictionary.entries@[i].0@, object_value(dictionary.entries@[i].1))
            } else {
                (Seq::empty(), PdfValue::Null)
            },
    )
}

/// The value of a stream.
pub open spec fn stream_value(stream: PdfStream) -> PdfStreamValue
    decreases stream,
{
    PdfStreamValue {
        dict: dictionary_value(stream.dict),
        content: stream.content@,
        allows_compression: stream.allows_compression,
        start_position: stream.start_position,
    }
}

impl View for PdfObject {
    type V = PdfValue;

    open spec fn view(&self) -> PdfValue {
        object_value(*self)
    }
}

impl View for PdfDictionary {
    type V = Seq<(Seq<u8>, PdfValue)>;

    open spec fn view(&self) -> Seq<(Seq<u8>, PdfValue)> {
        dictionary_value(*self)
    }
}

impl View for PdfStream {
    type V = PdfStreamValue;

    open spec fn view(&self) -> PdfStreamValue {
        stream_value(*self)
    }
}

/// A copy of an object.
pub fn copy_object(object: &PdfObject) -> (copy: PdfObject)
    ensures
        copy@ == object@,
    decreases object,
{
    match object {
        PdfObject::Null => PdfObject::Null,
        PdfObject::Boolean(value) => PdfObject::Boolean(*value),
        PdfObject::Integer(value) => PdfObject::Integer(*value),
        PdfObject::Real(text) => PdfObject::Real(text.clone()),
        PdfObject::Name(name) => PdfObject::Name(copy_bytes(name)),
        PdfObject::Text(text, format) => PdfObject::Text(copy_bytes(text), *format),
        PdfObject::Array(items) => {
            PdfObject::Array(copy_array(items))
        },
        PdfObject::Dictionary(dictionary) => PdfObject::Dictionary(copy_dictionary(dictionary)),
        PdfObject::Stream(stream) => PdfObject::Stream(copy_stream(stream)),
        PdfObject::Reference(id) => PdfObject::Reference(*id),
    }
}

/// A copy of an array's items.
pub fn copy_array(items: &Vec<PdfObject>) -> (copies: Vec<PdfObject>)
    ensures
        array_value(copies@) == array_value(items@),
    decreases items,
{
    let mut copies: Vec<PdfObject> = Vec::new();
    let mut i: usize = 0;
    while i < items.len()
        invariant
            i <= items@.len(),
            copies@.len() == i,
            forall|j: int| 0 <= j < i ==> object_value(#[trigger] copies@[j]) == object_value(items@[j]),
        decreases items.len() - i,
    {
        let item = copy_object(&items[i]);
        copies.push(item);
        i += 1;
    }
    assert(array_value(copies@) =~= array_value(items@));
    copies
}

/// A copy of a dictionary.
pub fn copy_dictionary(dictionary: &PdfDictionary) -> (copy: PdfDictionary)
    ensures
        copy@ == dictionary@,
    decreases dictionary,
{
    let mut entries: Vec<(Vec<u8>, PdfObject)> = Vec::new();
    let mut i: usize = 0;
    while i < dictionary.entries.len()
        invariant
            i <= dictionary.entries@.len(),
            entries@.len() == i,
            forall|j: int| 0 <= j < i ==> (#[trigger] entries@[j]).0@ == dictionary.entries@[j].0@
                && object_value(entries@[j].1) == object_value(dictionary.entries@[j].1),
        decreases dictionary.entries.len() - i,
    {
        let entry = &dictionary.entries[i];
        entries.push((copy_bytes(&entry.0), copy_object(&entry.1)));
        i += 1;
    }
    let copy = PdfDictionary { entries };
    assert(copy@ =~= dictionary@);
    copy
}

/// A copy of a stream.
pub fn copy_stream(stream: &PdfStream) -> (copy: PdfStream)
    ensures
        copy@ == stream@,
    decreases stream,
{
    PdfStream {
        dict: copy_dictionary(&stream.dict),
        content: copy_bytes(&stream.content),
        allows_compression: stream.allows_compression,
        start_position: stream.start_position,
    }
}

/// The first place at or after `from` that holds `key`.
pub open spec fn dict_index_from(
    entries: Seq<(Seq<u8>, PdfValue)>,
    key: Seq<u8>,
    from: int,
) -> Option<int>
    decreases entries.len() - from,
{
    if from >= entries.len() {
        None
    } else if entries[from].0 == key {
        Some(from)
    } else {
        dict_index_from(entries, key, from + 1)
    }
}

/// The place of `key` in a dictionary.
pub open spec fn dict_index(entries: Seq<(Seq<u8>, PdfValue)>, key: Seq<u8>) -> Option<int> {
    dict_index_from(entries, key, 0)
}

/// The value stored under `key`.
pub open spec fn dict_get(entries: Seq<(Seq<u8>, PdfValue)>, key: Seq<u8>) -> Option<PdfValue> {
    match dict_index(entries, key) {
        Some(i) => Some(entries[i].1),
        None => None,
    }
}

/// Whether `key` is present.
pub open spec fn dict_has(entries: Seq<(Seq<u8>, PdfValue)>, key: Seq<u8>) -> bool {
    dict_index(entries, key) is Some
}

/// Store a value: in place of the old one, or as a new last entry.
pub open spec fn dict_set(
    entries: Seq<(Seq<u8>, PdfValue)>,
    key: Seq<u8>,
    value: PdfValue,
) -> Seq<(Seq<u8>, PdfValue)> {
    match dict_index(entries, key) {
        Some(i) => entries.update(i, (key, value)),
        None => entries.push((key, value)),
    }
}

/// Remove `key`: the last entry takes the place of the removed one.
pub open spec fn dict_remove(
    entries: Seq<(Seq<u8>, PdfValue)>,
    key: Seq<u8>,
) -> Seq<(Seq<u8>, PdfValue)> {
    match dict_index(entries, key) {
        Some(i) => entries.update(i, entries.last()).drop_last(),
        None => entries,
    }
}

/// A place that a search returns lies in the dictionary and holds the key, and
/// no earlier place does.
pub proof fn lemma_dict_index_from(entries: Seq<(Seq<u8>, PdfValue)>, key: Seq<u8>, from: int)
    requires
        0 <= from,
    ensures
        match dict_index_from(entries, key, from) {
            Some(i) => {
                &&& from <= i < entries.len()
                &&& entries[i].0 == key
                &&& forall|j: int| from <= j < i ==> (#[trigger] entries[j]).0 != key
            },
            None => forall|j: int| from <= j < entries.len() ==> (#[trigger] entries[j]).0 != key,
        },
    decreases entries.len() - from,
{
    if from >= entries.len() {
    } else if entries[from].0 == key {
    } else {
        lemma_dict_index_from(entries, key, from + 1);
    }
}

impl PdfDictionary {
    /// A dictionary without entries.
    pub fn empty() -> (dictionary: PdfDictionary)
        ensures
            dictionary@ == Seq::<(Seq<u8>, PdfValue)>::empty(),
    {
        let dictionary = PdfDictionary { entries: Vec::new() };
        assert(dictionary@ =~= Seq::<(Seq<u8>, PdfValue)>::empty());
        dictionary
    }

    /// The place of a key.
    pub fn index_of(&self, key: &[u8]) -> (place: Option<usize>)
        ensures
            match place {
                Some(i) => i < self.entries@.len() && dict_index(self@, key@) == Some(i as int),
                None => dict_index(self@, key@) is None,
            },
    {
        let mut i: usize = 0;
        while i < self.entries.len()
            invariant
                i <= self.entries@.len(),
                dict_index(self@, key@) == dict_index_from(self@, key@, i as int),
            decreases self.entries.len() - i,
        {
            if same_bytes(&self.entries[i].0, key) {
                return Some(i);
            }
            i += 1;
        }
        None
    }

    /// The value stored under a key given as bytes.
    pub fn get_key(&self, key: &[u8]) -> (value: Option<&PdfObject>)
        ensures
            match value {
                Some(object) => dict_get(self@, key@) == Some(object@),
                None => dict_get(self@, key@) is None,
            },
    {
        match self.index_of(key) {
            Some(i) => Some(&self.entries[i].1),
            None => None,
        }
    }

    /// The value stored under a key.
    pub fn get(&self, key: &str) -> (value: Option<&PdfObject>)
        ensures
            match value {
                Some(object) => dict_get(self@, utf8(key@)) == Some(object@),
                None => dict_get(self@, utf8(key@)) is None,
            },
    {
        self.get_key(key.as_bytes())
    }

    /// Whether a key given as bytes is present.
    pub fn has_key(&self, key: &[u8]) -> (present: bool)
        ensures
            present == dict_has(self@, key@),
    {
        self.index_of(key).is_some()
    }

    /// Whether a key is present.
    pub fn has(&self, key: &str) -> (present: bool)
        ensures
            present == dict_has(self@, utf8(key@)),
    {
        self.has_key(key.as_bytes())
    }

    /// Store a value under a key given as bytes.
    pub fn set_key(&mut self, key: Vec<u8>, value: PdfObject)
        ensures
            final(self)@ == dict_set(old(self)@, key@, value@),
    {
        match self.index_of(&key) {
            Some(i) => {
                self.entries.set(i, (key, value));
            },
            None => {
                self.entries.push((key, value));
            },
        }
        assert(self@ =~= dict_set(old(self)@, key@, value@));
    }

    /// Store a value under a key.
    pub fn set(&mut self, key: &str, value: PdfObject)
        ensures
            final(self)@ == dict_set(old(self)@, utf8(key@), value@),
    {
        self.set_key(text_bytes(key), value);
    }

    /// Remove a key.
    pub fn remove(&mut self, key: &str)
        ensures
            final(self)@ == dict_remove(old(self)@, utf8(key@)),
    {
        match self.index_of(key.as_bytes()) {
            Some(i) => {
                self.entries.swap_remove(i);
            },
            None => {},
        }
        assert(self@ =~= dict_remove(old(self)@, utf8(key@)));
    }
}

/// The reference a value is.
pub open spec fn as_reference(value: PdfValue) -> Option<PdfId> {
    match value {
        PdfValue::Reference(id) => Some(id),
        _ => None,
    }
}

/// The integer a value is.
pub open spec fn as_integer(value: PdfValue) -> Option<i64> {
    match value {
        PdfValue::Integer(n) => Some(n),
        _ => None,
    }
}

/// The name a value is.
pub open spec fn as_name(value: PdfValue) -> Option<Seq<u8>> {
    match value {
        PdfValue::Name(name) => Some(name),
        _ => None,
    }
}

/// The reference stored under `key`.
pub open spec fn reference_at(entries: Seq<(Seq<u8>, PdfValue)>, key: Seq<char>) -> Option<PdfId> {
    match dict_get(entries, utf8(key)) {
        Some(value) => as_reference(value),
        None => None,
    }
}

/// The integer stored under `key`.
pub open spec fn integer_at(entries: Seq<(Seq<u8>, PdfValue)>, key: Seq<char>) -> Option<i64> {
    match dict_get(entries, utf8(key)) {
        Some(value) => as_integer(value),
        None => None,
    }
}

/// The name stored under `key`.
pub open spec fn name_at(entries: Seq<(Seq<u8>, PdfValue)>, key: Seq<char>) -> Option<Seq<u8>> {
    match dict_get(entries, utf8(key)) {
        Some(value) => as_name(value),
        None => None,
    }
}

impl PdfDictionary {
    /// The reference stored under a key.
    pub fn reference(&self, key: &str) -> (id: Option<PdfId>)
        ensures
            id == reference_at(self@, key@),
    {
        match self.get(key) {
            Some(PdfObject::Reference(id)) => Some(*id),
            _ => None,
        }
    }

    /// The integer stored under a key.
    pub fn integer(&self, key: &str) -> (value: Option<i64>)
        ensures
            value == integer_at(self@, key@),
    {
        match self.get(key) {
            Some(PdfObject::Integer(value)) => Some(*value),
            _ => None,
        }
    }

    /// The name stored under a key.
    pub fn name(&self, key: &str) -> (name: Option<&Vec<u8>>)
        ensures
            match name {
                Some(name) => name_at(self@, key@) == Some(name@),
                None => name_at(self@, key@) is None,
            },
    {
        match self.get(key) {
            Some(PdfObject::Name(name)) => Some(name),
            _ => None,
        }
    }

    /// Whether a key holds this name.
    pub fn name_is(&self, key: &str, name: &str) -> (same: bool)
        ensures
            same == (name_at(self@, key@) == Some(utf8(name@))),
    {
        match self.name(key) {
            Some(found) => is_text(found, name),
            None => false,
        }
    }
}

/// The name a dictionary gives itself: its `/Type`, or `Linearized` when it has
/// that key.
pub open spec fn dict_type(entries: Seq<(Seq<u8>, PdfValue)>) -> Option<Seq<u8>> {
    match name_at(entries, "Type"@) {
        Some(name) => Some(name),
        None => if dict_has(entries, utf8("Linearized"@)) {
            Some(utf8("Linearized"@))
        } else {
            None
        },
    }
}

/// The dictionary of a dictionary or of a stream.
pub open spec fn own_dictionary(value: PdfValue) -> Option<Seq<(Seq<u8>, PdfValue)>> {
    match value {
        PdfValue::Dictionary(entries) => Some(entries),
        PdfValue::Stream(stream) => Some(stream.dict),
        _ => None,
    }
}

/// Whether an object is a page-tree node or a catalog.
pub open spec fn is_root(value: PdfValue) -> bool {
    match own_dictionary(value) {
        Some(entries) => dict_type(entries) == Some(utf8("Catalog"@)) || dict_type(entries) == Some(
            utf8("Pages"@),
        ),
        None => false,
    }
}

/// The dictionary of a dictionary or of a stream.
pub fn object_dictionary(object: &PdfObject) -> (dictionary: Option<&PdfDictionary>)
    ensures
        match dictionary {
            Some(dictionary) => own_dictionary(object@) == Some(dictionary@),
            None => own_dictionary(object@) is None,
        },
{
    match object {
        PdfObject::Dictionary(dictionary) => Some(dictionary),
        PdfObject::Stream(stream) => Some(&stream.dict),
        _ => None,
    }
}

/// Whether an object is a page-tree node or a catalog.
pub fn is_root_object(object: &PdfObject) -> (root: bool)
    ensures
        root == is_root(object@),
{
    match object_dictionary(object) {
        Some(dictionary) => {
            if dictionary.name("Type").is_some() {
                dictionary.name_is("Type", "Catalog") || dictionary.name_is("Type", "Pages")
            } else {
                proof {
                    crate::bytes::lemma_ascii("Linearized");
                    crate::bytes::lemma_ascii("Catalog");
                    crate::bytes::lemma_ascii("Pages");
                    reveal_strlit("Linearized");
                    reveal_strlit("Catalog");
                    reveal_strlit("Pages");
                    assert(utf8("Linearized"@).len() == 10);
                    assert(utf8("Catalog"@).len() == 7);
                    assert(utf8("Pages"@).len() == 5);
                }
                false
            }
        },
        None => false,
    }
}

/// Whether two real numbers are equal: the same text, or two zeros. `NaN` is
/// equal to nothing.
pub open spec fn same_real(left: Seq<char>, right: Seq<char>) -> bool {
    ||| left == right && left != "NaN"@
    ||| (left == "0"@ || left == "-0"@) && (right == "0"@ || right == "-0"@)
}

/// Whether two objects are equal. The order of a dictionary's entries does not
/// matter.
pub open spec fn same_value(left: PdfValue, right: PdfValue) -> bool
    decreases left,
{
    match (left, right) {
        (PdfValue::Null, PdfValue::Null) => true,
        (PdfValue::Boolean(a), PdfValue::Boolean(b)) => a == b,
        (PdfValue::Integer(a), PdfValue::Integer(b)) => a == b,
        (PdfValue::Real(a), PdfValue::Real(b)) => same_real(a, b),
        (PdfValue::Name(a), PdfValue::Name(b)) => a == b,
        (PdfValue::Text(a, f), PdfValue::Text(b, g)) => a == b && f == g,
        (PdfValue::Array(a), PdfValue::Array(b)) => same_items(a, b),
        (PdfValue::Dictionary(a), PdfValue::Dictionary(b)) => same_entries(a, b),
        (PdfValue::Stream(a), PdfValue::Stream(b)) => {
            &&& same_entries(a.dict, b.dict)
            &&& a.content == b.content
            &&& a.allows_compression == b.allows_compression
            &&& a.start_position == b.start_position
        },
        (PdfValue::Reference(a), PdfValue::Reference(b)) => a == b,
        _ => false,
    }
}

/// Whether two arrays hold equal items in the same order.
pub open spec fn same_items(left: Seq<PdfValue>, right: Seq<PdfValue>) -> bool
    decreases left,
{
    left.len() == right.len() && forall|i: int|
        0 <= i < left.len() ==> same_value(#[trigger] left[i], right[i])
}

/// Whether two dictionaries hold equal values under the same keys.
pub open spec fn same_entries(
    left: Seq<(Seq<u8>, PdfValue)>,
    right: Seq<(Seq<u8>, PdfValue)>,
) -> bool
    decreases left,
{
    left.len() == right.len() && forall|i: int|
        0 <= i < left.len() ==> match dict_get(right, (#[trigger] left[i]).0) {
            Some(value) => same_value(left[i].1, value),
            None => false,
        }
}

/// Whether two objects are equal.
pub fn same_object(left: &PdfObject, right: &PdfObject) -> (same: bool)
    ensures
        same == same_value(left@, right@),
    decreases left,
{
    match (left, right) {
        (PdfObject::Null, PdfObject::Null) => true,
        (PdfObject::Boolean(a), PdfObject::Boolean(b)) => *a == *b,
        (PdfObject::Integer(a), PdfObject::Integer(b)) => *a == *b,
        (PdfObject::Real(a), PdfObject::Real(b)) => {
            (same_text(a, b) && !same_text(a, "NaN")) || ((same_text(a, "0") || same_text(a, "-0"))
                && (same_text(b, "0") || same_text(b, "-0")))
        },
        (PdfObject::Name(a), PdfObject::Name(b)) => same_bytes(a, b),
        (PdfObject::Text(a, f), PdfObject::Text(b, g)) => same_bytes(a, b) && *f == *g,
        (PdfObject::Array(a), PdfObject::Array(b)) => same_array(a, b),
        (PdfObject::Dictionary(a), PdfObject::Dictionary(b)) => same_dictionary(a, b),
        (PdfObject::Stream(a), PdfObject::Stream(b)) => same_stream(a, b),
        (PdfObject::Reference(a), PdfObject::Reference(b)) => a.0 == b.0 && a.1 == b.1,
        _ => false,
    }
}

fn same_array(left: &Vec<PdfObject>, right: &Vec<PdfObject>) -> (same: bool)
    ensures
        same == same_items(array_value(left@), array_value(right@)),
    decreases left,
{
    if left.len() != right.len() {
        return false;
    }
    let mut i: usize = 0;
    while i < left.len()
        invariant
            i <= left@.len(),
            left@.len() == right@.len(),
            forall|j: int|
                0 <= j < i ==> same_value(#[trigger] array_value(left@)[j], array_value(right@)[j]),
        decreases left.len() - i,
    {
        if !same_object(&left[i], &right[i]) {
            assert(!same_value(array_value(left@)[i as int], array_value(right@)[i as int]));
            return false;
        }
        i += 1;
    }
    true
}

fn same_dictionary(left: &PdfDictionary, right: &PdfDictionary) -> (same: bool)
    ensures
        same == same_entries(left@, right@),
    decreases left,
{
    if left.entries.len() != right.entries.len() {
        return false;
    }
    let mut i: usize = 0;
    while i < left.entries.len()
        invariant
            i <= left.entries@.len(),
            left.entries@.len() == right.entries@.len(),
            forall|j: int|
                0 <= j < i ==> match dict_get(right@, (#[trigger] left@[j]).0) {
                    Some(value) => same_value(left@[j].1, value),
                    None => false,
                },
        decreases left.entries.len() - i,
    {
        let entry = &left.entries[i];
        assert(left@[i as int] == (entry.0@, entry.1@));
        match right.get_key(&entry.0) {
            Some(value) => {
                if !same_object(&entry.1, value) {
                    return false;
                }
            },
            None => {
                return false;
            },
        }
        i += 1;
    }
    true
}

fn same_stream(left: &PdfStream, right: &PdfStream) -> (same: bool)
    ensures
        same == same_value(PdfValue::Stream(left@), PdfValue::Stream(right@)),
    decreases left,
{
    let same_position = match (left.start_position, right.start_position) {
        (Some(a), Some(b)) => a == b,
        (None, None) => true,
        _ => false,
    };
    same_position && left.allows_compression == right.allows_compression && same_bytes(
        &left.content,
        &right.content,
    ) && same_dictionary(&left.dict, &right.dict)
}

/// The place of an object in the object table, at or after `from`.
pub open spec fn object_index_from(
    objects: Seq<(PdfId, PdfValue)>,
    id: PdfId,
    from: int,
) -> Option<int>
    decreases objects.len() - from,
{
    if from >= objects.len() {
        None
    } else if objects[from].0 == id {
        Some(from)
    } else {
        object_index_from(objects, id, from + 1)
    }
}

/// The object with this number.
pub open spec fn object_of(objects: Seq<(PdfId, PdfValue)>, id: PdfId) -> Option<PdfValue> {
    match object_index_from(objects, id, 0) {
        Some(i) => Some(objects[i].1),
        None => None,
    }
}

/// The order of object numbers: by number, then by generation.
pub open spec fn id_before(left: PdfId, right: PdfId) -> bool {
    left.0 < right.0 || (left.0 == right.0 && left.1 < right.1)
}

/// Store an object: in place of the one with this number, or where its number
/// falls in the order.
pub open spec fn put_object_from(
    objects: Seq<(PdfId, PdfValue)>,
    id: PdfId,
    value: PdfValue,
    from: int,
) -> Seq<(PdfId, PdfValue)>
    decreases objects.len() - from,
{
    if from >= objects.len() {
        objects.push((id, value))
    } else if objects[from].0 == id {
        objects.update(from, (id, value))
    } else if id_before(id, objects[from].0) {
        objects.insert(from, (id, value))
    } else {
        put_object_from(objects, id, value, from + 1)
    }
}

/// Store an object in the table.
pub open spec fn put_object(
    objects: Seq<(PdfId, PdfValue)>,
    id: PdfId,
    value: PdfValue,
) -> Seq<(PdfId, PdfValue)> {
    put_object_from(objects, id, value, 0)
}

/// A PDF document.
pub struct PdfDocument {
    pub version: String,
    pub binary_mark: Vec<u8>,
    pub trailer: PdfDictionary,
    /// The indirect objects, in ascending order of their numbers.
    pub objects: Vec<(PdfId, PdfObject)>,
    pub max_id: u32,
    pub xref: XrefKind,
}

/// The value of a PDF document.
pub struct PdfDocumentValue {
    pub version: Seq<char>,
    pub binary_mark: Seq<u8>,
    pub trailer: Seq<(Seq<u8>, PdfValue)>,
    pub objects: Seq<(PdfId, PdfValue)>,
    pub max_id: u32,
    pub xref: XrefKind,
}

/// The values of an object table.
pub open spec fn table_value(objects: Seq<(PdfId, PdfObject)>) -> Seq<(PdfId, PdfValue)> {
    objects.map_values(|entry: (PdfId, PdfObject)| (entry.0, entry.1@))
}

impl View for PdfDocument {
    type V = PdfDocumentValue;

    open spec fn view(&self) -> PdfDocumentValue {
        PdfDocumentValue {
            version: self.version@,
            binary_mark: self.binary_mark@,
            trailer: self.trailer@,
            objects: table_value(self.objects@),
            max_id: self.max_id,
            xref: self.xref,
        }
    }
}

/// Whether a list holds this object number.
pub fn contains_id(ids: &Vec<PdfId>, id: PdfId) -> (found: bool)
    ensures
        found == ids@.contains(id),
{
    let mut i: usize = 0;
    while i < ids.len()
        invariant
            i <= ids@.len(),
            forall|j: int| 0 <= j < i ==> ids@[j] != id,
        decreases ids.len() - i,
    {
        let found = ids[i];
        if found.0 == id.0 && found.1 == id.1 {
            assert(ids@[i as int] == id);
            return true;
        }
        i += 1;
    }
    false
}

/// The object with this number.
pub fn find_object(objects: &Vec<(PdfId, PdfObject)>, id: PdfId) -> (found: Option<&PdfObject>)
    ensures
        match found {
            Some(object) => object_of(table_value(objects@), id) == Some(object@),
            None => object_of(table_value(objects@), id) is None,
        },
{
    let ghost values = table_value(objects@);
    let mut i: usize = 0;
    while i < objects.len()
        invariant
            i <= objects@.len(),
            values == table_value(objects@),
            object_index_from(values, id, 0) == object_index_from(values, id, i as int),
        decreases objects.len() - i,
    {
        let entry = &objects[i];
        if entry.0.0 == id.0 && entry.0.1 == id.1 {
            return Some(&entry.1);
        }
        i += 1;
    }
    None
}

/// Store an object in the table.
pub fn insert_object(objects: &mut Vec<(PdfId, PdfObject)>, id: PdfId, object: PdfObject)
    ensures
        table_value(final(objects)@) == put_object(table_value(old(objects)@), id, object@),
{
    let ghost values = table_value(objects@);
    let mut i: usize = 0;
    while i < objects.len()
        invariant
            i <= objects@.len(),
            objects@ == old(objects)@,
            values == table_value(objects@),
            put_object(values, id, object@) == put_object_from(values, id, object@, i as int),
        decreases objects.len() - i,
    {
        let found = objects[i].0;
        if found.0 == id.0 && found.1 == id.1 {
            objects.set(i, (id, object));
            assert(table_value(objects@) =~= put_object(values, id, object@));
            return;
        }
        if id.0 < found.0 || (id.0 == found.0 && id.1 < found.1) {
            objects.insert(i, (id, object));
            assert(table_value(objects@) =~= put_object(values, id, object@));
            return;
        }
        i += 1;
    }
    objects.push((id, object));
    assert(table_value(objects@) =~= put_object(values, id, object@));
}

/// Follow references, at most `left` of them, to the object they finally name.
pub open spec fn dereferenced(
    objects: Seq<(PdfId, PdfValue)>,
    value: PdfValue,
    left: nat,
) -> Option<PdfValue>
    decreases left,
{
    match value {
        PdfValue::Reference(id) => if left == 0 {
            None
        } else {
            match object_of(objects, id) {
                Some(next) => dereferenced(objects, next, (left - 1) as nat),
                None => None,
            }
        },
        _ => Some(value),
    }
}

/// The longest chain of references that a lookup by number follows.
pub const DEREFERENCE_LIMIT: usize = 128;

/// The longest chain of references that a tree or catalog entry may take.
pub const RESOLVE_LIMIT: usize = 31;

fn follow<'a>(
    objects: &'a Vec<(PdfId, PdfObject)>,
    object: &'a PdfObject,
    limit: usize,
) -> (found: Option<&'a PdfObject>)
    ensures
        match found {
            Some(found) => dereferenced(table_value(objects@), object@, limit as nat) == Some(
                found@,
            ),
            None => dereferenced(table_value(objects@), object@, limit as nat) is None,
        },
{
    let ghost values = table_value(objects@);
    let mut current = object;
    let mut left: usize = limit;
    loop
        invariant
            values == table_value(objects@),
            left <= limit,
            dereferenced(values, object@, limit as nat) == dereferenced(
                values,
                current@,
                left as nat,
            ),
        decreases left,
    {
        match current {
            PdfObject::Reference(id) => {
                if left == 0 {
                    return None;
                }
                match find_object(objects, *id) {
                    Some(next) => {
                        current = next;
                        left -= 1;
                    },
                    None => {
                        return None;
                    },
                }
            },
            _ => {
                return Some(current);
            },
        }
    }
}

/// Follow a chain of indirect references to the object it finally names.
pub open spec fn resolved(objects: Seq<(PdfId, PdfValue)>, value: PdfValue) -> Option<PdfValue> {
    dereferenced(objects, value, RESOLVE_LIMIT as nat)
}

/// Follow a chain of indirect references to the object it finally names.
pub fn resolve<'a>(
    objects: &'a Vec<(PdfId, PdfObject)>,
    object: &'a PdfObject,
) -> (found: Option<&'a PdfObject>)
    ensures
        match found {
            Some(found) => resolved(table_value(objects@), object@) == Some(found@),
            None => resolved(table_value(objects@), object@) is None,
        },
{
    follow(objects, object, RESOLVE_LIMIT)
}

/// Follow references as a lookup by number does.
pub open spec fn looked_up(objects: Seq<(PdfId, PdfValue)>, value: PdfValue) -> Option<PdfValue> {
    dereferenced(objects, value, DEREFERENCE_LIMIT as nat)
}

/// Follow references as a lookup by number does.
pub fn look_up<'a>(
    objects: &'a Vec<(PdfId, PdfObject)>,
    object: &'a PdfObject,
) -> (found: Option<&'a PdfObject>)
    ensures
        match found {
            Some(found) => looked_up(table_value(objects@), object@) == Some(found@),
            None => looked_up(table_value(objects@), object@) is None,
        },
{
    follow(objects, object, DEREFERENCE_LIMIT)
}

/// A dictionary that a value is, once references are followed.
pub open spec fn resolved_dict(
    objects: Seq<(PdfId, PdfValue)>,
    value: Option<PdfValue>,
) -> Option<Seq<(Seq<u8>, PdfValue)>> {
    match value {
        Some(value) => match resolved(objects, value) {
            Some(PdfValue::Dictionary(entries)) => Some(entries),
            _ => None,
        },
        None => None,
    }
}

/// An array that a value is, once references are followed.
pub open spec fn resolved_array(
    objects: Seq<(PdfId, PdfValue)>,
    value: Option<PdfValue>,
) -> Option<Seq<PdfValue>> {
    match value {
        Some(value) => match resolved(objects, value) {
            Some(PdfValue::Array(items)) => Some(items),
            _ => None,
        },
        None => None,
    }
}

/// A dictionary that a value is, once references are followed.
pub fn resolve_dictionary<'a>(
    objects: &'a Vec<(PdfId, PdfObject)>,
    object: Option<&'a PdfObject>,
) -> (found: Option<&'a PdfDictionary>)
    ensures
        match object {
            Some(object) => match found {
                Some(found) => resolved_dict(table_value(objects@), Some(object@)) == Some(found@),
                None => resolved_dict(table_value(objects@), Some(object@)) is None,
            },
            None => found is None,
        },
{
    match object {
        Some(object) => match resolve(objects, object) {
            Some(PdfObject::Dictionary(found)) => Some(found),
            _ => None,
        },
        None => None,
    }
}

/// An array that a value is, once references are followed.
pub fn resolve_array<'a>(
    objects: &'a Vec<(PdfId, PdfObject)>,
    object: Option<&'a PdfObject>,
) -> (found: Option<&'a Vec<PdfObject>>)
    ensures
        match object {
            Some(object) => match found {
                Some(found) => resolved_array(table_value(objects@), Some(object@)) == Some(
                    array_value(found@),
                ),
                None => resolved_array(table_value(objects@), Some(object@)) is None,
            },
            None => found is None,
        },
{
    match object {
        Some(object) => match resolve(objects, object) {
            Some(PdfObject::Array(found)) => Some(found),
            _ => None,
        },
        None => None,
    }
}

/// The dictionary with this object number.
pub open spec fn dictionary_of(
    objects: Seq<(PdfId, PdfValue)>,
    id: PdfId,
) -> Option<Seq<(Seq<u8>, PdfValue)>> {
    match object_of(objects, id) {
        Some(value) => match looked_up(objects, value) {
            Some(PdfValue::Dictionary(entries)) => Some(entries),
            _ => None,
        },
        None => None,
    }
}

/// The dictionary with this object number.
pub fn find_dictionary(objects: &Vec<(PdfId, PdfObject)>, id: PdfId) -> (found: Option<
    &PdfDictionary,
>)
    ensures
        match found {
            Some(found) => dictionary_of(table_value(objects@), id) == Some(found@),
            None => dictionary_of(table_value(objects@), id) is None,
        },
{
    match find_object(objects, id) {
        Some(object) => match look_up(objects, object) {
            Some(PdfObject::Dictionary(found)) => Some(found),
            _ => None,
        },
        None => None,
    }
}

} // verus!
