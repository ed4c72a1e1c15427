//! One piece of metadata as it is reported.

use vstd::prelude::*;

use crate::text::{decimal, decimal_text};

verus! {

/// One piece of metadata found in a file.
pub struct MetadataItem {
    pub label: String,
    pub detail: Option<String>,
    pub sensitive: bool,
}

/// The value of a reported item.
pub struct ItemValue {
    pub label: Seq<char>,
    pub detail: Option<Seq<char>>,
    pub sensitive: bool,
}

impl View for MetadataItem {
    type V = ItemValue;

    open spec fn view(&self) -> ItemValue {
        ItemValue {
            label: self.label@,
            detail: match self.detail {
                Some(detail) => Some(detail@),
                None => None,
            },
            sensitive: self.sensitive,
        }
    }
}

/// Items by their values.
pub open spec fn item_values(items: Seq<MetadataItem>) -> Seq<ItemValue> {
    items.map_values(|item: MetadataItem| item@)
}

/// An item with a detail text.
pub open spec fn item(label: Seq<char>, detail: Seq<char>, sensitive: bool) -> ItemValue {
    ItemValue { label, detail: Some(detail), sensitive }
}

impl MetadataItem {
    /// An item with a detail text.
    pub fn new(label: String, detail: String, sensitive: bool) -> (new: MetadataItem)
        ensures
            new@ == item(label@, detail@, sensitive),
    {
        MetadataItem { label, detail: Some(detail), sensitive }
    }
}

/// A size in bytes, in words.
pub open spec fn byte_count(count: nat) -> Seq<char> {
    decimal(count) + " bytes"@
}

/// A size in bytes, in words.
pub fn byte_count_text(count: usize) -> (text: String)
    ensures
        text@ == byte_count(count as nat),
{
    let mut text = decimal_text(count as u64);
    text.append(" bytes");
    text
}

} // verus!
