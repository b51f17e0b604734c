//! Parsed JSON documents, read through JSON pointers.

use vstd::prelude::*;

verus! {

#[verifier::external_type_specification]
#[verifier::external_body]
pub struct ExJsonValue(serde_json::Value);

#[verifier::external_type_specification]
#[verifier::external_body]
pub struct ExJsonError(serde_json::Error);

/// What a JSON pointer finds in a document: nothing, or a value of one of the JSON
/// kinds; strings carry their text and arrays their length.
pub enum JsonItem {
    Missing,
    Null,
    Bool(bool),
    Number,
    Str(String),
    Array(usize),
    Object,
}

/// The abstract value of a found item.
pub enum JsonItemView {
    Missing,
    Null,
    Bool(bool),
    Number,
    Str(Seq<char>),
    Array(nat),
    Object,
}

impl View for JsonItem {
    type V = JsonItemView;

    open spec fn view(&self) -> JsonItemView {
        match self {
            JsonItem::Missing => JsonItemView::Missing,
            JsonItem::Null => JsonItemView::Null,
            JsonItem::Bool(b) => JsonItemView::Bool(*b),
            JsonItem::Number => JsonItemView::Number,
            JsonItem::Str(s) => JsonItemView::Str(s@),
            JsonItem::Array(n) => JsonItemView::Array(*n as nat),
            JsonItem::Object => JsonItemView::Object,
        }
    }
}

/// Whether `serde_json::from_str::<serde_json::Value>` accepts the text.
pub uninterp spec fn json_text_valid(text: Seq<char>) -> bool;

/// What `serde_json::Value::pointer` finds at a pointer in the document parsed from
/// the text.
pub uninterp spec fn json_item_at(text: Seq<char>, pointer: Seq<char>) -> JsonItemView;

/// A JSON document together with the text it was parsed from.
pub struct JsonDoc {
    text: String,
    value: serde_json::Value,
}

impl View for JsonDoc {
    type V = Seq<char>;

    closed spec fn view(&self) -> Seq<char> {
        self.text@
    }
}

impl JsonDoc {
    /// Parses a JSON text (`serde_json::from_str::<serde_json::Value>`). The contract
    /// names whether the text is accepted; the document keeps the text.
    #[verifier::external_body]
    pub(crate) fn parse(text: &str) -> (r: Result<JsonDoc, serde_json::Error>)
        ensures
            r is Ok <==> json_text_valid(text@),
            r matches Ok(d) ==> d@ == text@,
    {
        serde_json::from_str::<serde_json::Value>(text).map(|value| JsonDoc { text: text.to_string(), value })
    }

    /// What the pointer finds in the document (`serde_json::Value::pointer`), told
    /// apart by kind. The contract names the result as a function of the document's
    /// text and the pointer.
    #[verifier::external_body]
    pub(crate) fn lookup(&self, pointer: &str) -> (r: JsonItem)
        ensures
            r@ == json_item_at(self@, pointer@),
    {
        match self.value.pointer(pointer) {
            None => JsonItem::Missing,
            Some(serde_json::Value::Null) => JsonItem::Null,
            Some(serde_json::Value::Bool(b)) => JsonItem::Bool(*b),
            Some(serde_json::Value::Number(_)) => JsonItem::Number,
            Some(serde_json::Value::String(s)) => JsonItem::Str(s.clone()),
            Some(serde_json::Value::Array(a)) => JsonItem::Array(a.len()),
            Some(serde_json::Value::Object(_)) => JsonItem::Object,
        }
    }
}

} // verus!
