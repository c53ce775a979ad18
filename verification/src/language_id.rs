//! The label table of the spoken-language identification model.
use vstd::prelude::*;

verus! {

/// What `serde_json` decodes from a JSON text as an array of strings:
/// nothing when the text is not such an array.
pub uninterp spec fn json_string_array(text: Seq<char>) -> Option<Seq<Seq<char>>>;

/// Strings as their characters.
pub open spec fn strings_view(strings: Seq<String>) -> Seq<Seq<char>> {
    strings.map_values(|s: String| s@)
}

/// `serde_json::from_str::<Vec<String>>`. Trusted: the result is only named
/// (`json_string_array` of the text); what JSON decodes to what is left to
/// `serde_json`.
#[verifier::external_body]
fn decode_string_array(text: &str) -> (r: Option<Vec<String>>)
    ensures
        match r {
            Some(strings) => json_string_array(text@) == Some(strings_view(strings@)),
            None => json_string_array(text@) is None,
        },
{
    serde_json::from_str::<Vec<String>>(text).ok()
}

/// Reads the language labels of the identification model from the JSON
/// array of strings in its `labels.json`; nothing when the text is not one.
pub fn parse_language_labels(text: &str) -> (r: Option<Vec<String>>)
    ensures
        match r {
            Some(labels) => json_string_array(text@) == Some(strings_view(labels@)),
            None => json_string_array(text@) is None,
        },
{
    decode_string_array(text)
}

} // verus!
