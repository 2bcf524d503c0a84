//! Values in JSON texts.

use crate::html::opt_text;
use crate::text::decimal;
use serde_json::Value;
use vstd::prelude::*;

verus! {

/// The text at `outer.inner` of a JSON object; nothing if the JSON is invalid or
/// no text stands there.
pub uninterp spec fn json_text(json: Seq<char>, outer: Seq<char>, inner: Seq<char>) -> Option<
    Seq<char>,
>;

/// The texts at `outer.inner` of the entries of the array at `list`; nothing if
/// the JSON is invalid or no array stands there.
pub uninterp spec fn json_texts(
    json: Seq<char>,
    list: Seq<char>,
    outer: Seq<char>,
    inner: Seq<char>,
) -> Option<Seq<Option<Seq<char>>>>;

pub open spec fn opt_texts(v: Seq<Option<String>>) -> Seq<Option<Seq<char>>> {
    v.map_values(|s: Option<String>| opt_text(s))
}

/// `serde_json::from_str`, `Value::get` and `Value::as_str`: the text at two
/// nested keys, a function of the JSON text and the keys.
#[verifier::external_body]
pub(crate) fn text_at(json: &str, outer: &str, inner: &str) -> (text: Option<String>)
    ensures
        opt_text(text) == json_text(json@, outer@, inner@),
{
    let value: Value = serde_json::from_str(json).ok()?;
    value.get(outer)?.get(inner)?.as_str().map(str::to_string)
}

/// `serde_json::from_str`, `Value::get`, `Value::as_array` and `Value::as_str`:
/// the texts at two nested keys of each entry of an array, a function of the
/// JSON text and the keys.
#[verifier::external_body]
pub(crate) fn texts_at(json: &str, list: &str, outer: &str, inner: &str) -> (found: Option<
    Vec<Option<String>>,
>)
    ensures
        match found {
            Some(v) => json_texts(json@, list@, outer@, inner@) == Some(opt_texts(v@)),
            None => json_texts(json@, list@, outer@, inner@) is None,
        },
{
    let value: Value = serde_json::from_str(json).ok()?;
    let items = value.get(list)?.as_array()?;
    let found = items.iter().map(|item| {
        let text = item.get(outer).and_then(|o| o.get(inner)).and_then(|t| t.as_str());
        text.map(str::to_string)
    });
    Some(found.collect())
}

/// Numbers and nulls with commas between them.
pub open spec fn choice_items(choices: Seq<Option<usize>>) -> Seq<char>
    decreases choices.len(),
{
    if choices.len() == 0 {
        Seq::empty()
    } else {
        let item = match choices.last() {
            Some(oi) => decimal(oi as nat),
            None => "null"@,
        };
        if choices.len() == 1 {
            item
        } else {
            choice_items(choices.drop_last()) + ","@ + item
        }
    }
}

/// Choices as a JSON array of numbers and nulls.
pub open spec fn choices_json(choices: Seq<Option<usize>>) -> Seq<char> {
    "["@ + choice_items(choices) + "]"@
}

/// The choices that a JSON array of numbers and nulls holds; nothing if the text
/// is not one.
pub uninterp spec fn json_choices(json: Seq<char>) -> Option<Seq<Option<usize>>>;

/// `serde_json::to_string`: the choices as a compact JSON array, numbers in decimal
/// and skips as `null`.  Reading it back gives the choices.
#[verifier::external_body]
pub(crate) fn choices_to_json(choices: &Vec<Option<usize>>) -> (json: String)
    ensures
        json@ == choices_json(choices@),
        json_choices(json@) == Some(choices@),
{
    serde_json::to_string(choices).unwrap_or_default()
}

/// `serde_json::from_str`: the choices in a JSON text, a function of the text.
#[verifier::external_body]
pub(crate) fn choices_from_json(json: &str) -> (choices: Option<Vec<Option<usize>>>)
    ensures
        match choices {
            Some(v) => json_choices(json@) == Some(v@),
            None => json_choices(json@) is None,
        },
{
    serde_json::from_str(json).ok()
}

} // verus!
