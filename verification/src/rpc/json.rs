//! JSON values, as far as requests look into them.

use serde_json::Value;
use vstd::prelude::*;

verus! {

/// A JSON value of `serde_json`.
#[verifier::external_type_specification]
#[verifier::external_body]
pub struct ExValue(serde_json::Value);

/// Why `serde_json` could not do what it was asked.
#[verifier::external_type_specification]
#[verifier::external_body]
pub struct ExError(serde_json::Error);

/// What a JSON value holds.
pub enum JsonView {
    /// A string.
    Text(Seq<char>),
    /// An array.
    List(Seq<JsonView>),
    /// Anything else: null, a boolean, a number or an object.
    Other,
}

/// The characters of each string.
pub open spec fn texts(list: Seq<String>) -> Seq<Seq<char>> {
    Seq::new(list.len(), |i: int| list[i]@)
}

impl JsonView {
    /// The array of these strings.
    pub open spec fn of_texts(texts: Seq<Seq<char>>) -> JsonView {
        JsonView::List(Seq::new(texts.len(), |i: int| JsonView::Text(texts[i])))
    }

    /// The strings of an array that holds nothing but strings.
    pub open spec fn as_texts(self) -> Option<Seq<Seq<char>>> {
        match self {
            JsonView::List(items) => if forall|i: int|
                0 <= i < items.len() ==> items[i] is Text {
                Some(Seq::new(items.len(), |i: int| items[i]->Text_0))
            } else {
                None
            },
            _ => None,
        }
    }
}

/// What a value of `serde_json` holds.
pub uninterp spec fn json_view(value: Value) -> JsonView;

/// Calls `serde_json::from_value` on a copy of `value`. Claimed of it: read as a list of strings,
/// an array of nothing but strings gives these strings in their order, and every other value gives
/// an error.
#[verifier::external_body]
pub(crate) fn from_value(value: &Value) -> (result: Result<Vec<String>, serde_json::Error>)
    ensures
        match result {
            Ok(list) => json_view(*value).as_texts() == Some(texts(list@)),
            Err(_) => json_view(*value).as_texts() is None,
        },
{
    serde_json::from_value(value.clone())
}

/// Calls `serde_json::to_value`. Claimed of it: a list of strings is never refused, and gives the
/// array of these strings in their order.
#[verifier::external_body]
pub(crate) fn to_value(list: &Vec<String>) -> (value: Value)
    ensures
        json_view(value) == JsonView::of_texts(texts(list@)),
{
    serde_json::to_value(list).unwrap()
}

/// The array of some strings holds these strings.
pub proof fn texts_come_back(texts: Seq<Seq<char>>)
    ensures
        JsonView::of_texts(texts).as_texts() == Some(texts),
{
    if let JsonView::List(items) = JsonView::of_texts(texts) {
        assert(Seq::new(items.len(), |i: int| items[i]->Text_0) =~= texts);
    }
}

/// A value is read as these strings exactly if it is an array with each of them in its place, and
/// nothing else.
pub proof fn texts_of_a_list(value: JsonView, names: Seq<Seq<char>>)
    ensures
        value.as_texts() == Some(names) <==> (value matches JsonView::List(items) && items.len()
            == names.len() && forall|i: int|
            0 <= i < names.len() ==> #[trigger] items[i] == JsonView::Text(names[i])),
        JsonView::of_texts(names) matches JsonView::List(items) && items.len() == names.len()
            && forall|i: int|
            0 <= i < names.len() ==> #[trigger] items[i] == JsonView::Text(names[i]),
{
    if let JsonView::List(items) = value {
        if value.as_texts() == Some(names) {
            let read = Seq::new(items.len(), |i: int| items[i]->Text_0);
            assert forall|i: int| 0 <= i < names.len() implies #[trigger] items[i]
                == JsonView::Text(names[i]) by {
                assert(read[i] == names[i]);
            }
        }
        if items.len() == names.len() && forall|i: int|
            0 <= i < names.len() ==> #[trigger] items[i] == JsonView::Text(names[i]) {
            assert(Seq::new(items.len(), |i: int| items[i]->Text_0) =~= names);
        }
    }
}

/// Strings are told by their characters, each in its place.
pub proof fn texts_in_their_places(list: Seq<String>)
    ensures
        texts(list).len() == list.len(),
        forall|i: int| 0 <= i < list.len() ==> #[trigger] texts(list)[i] == list[i]@,
{
}

} // verus!
