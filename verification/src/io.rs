//! The dictionary as it is stored: a JSON text that holds a list of strings.

use vstd::prelude::*;

verus! {

/// The error that `serde_json` reports. Nothing is known of its contents.
#[verifier::external_type_specification]
#[verifier::external_body]
pub struct ExJsonError(serde_json::Error);

/// What `serde_json::from_str` makes of `text` when it is asked for a list of
/// strings: the strings in order, or `None` where it reports an error.
pub uninterp spec fn json_string_list(text: Seq<char>) -> Option<Seq<Seq<char>>>;

/// The mathematical value of a list of words.
pub open spec fn word_views(words: Seq<String>) -> Seq<Seq<char>> {
    words.map_values(|word: String| word@)
}

/// `serde_json::from_str`, asked for a `Vec<String>`.
///
/// Believed of it: what it returns depends on `text` alone, and
/// `json_string_list` is the name of that: the strings of an `Ok` are the list
/// that it names, and an `Err` comes where it names none.
#[verifier::external_body]
fn string_list_from_json(text: &str) -> (parsed: Result<Vec<String>, serde_json::Error>)
    ensures
        match parsed {
            Ok(words) => json_string_list(text@) == Some(word_views(words@)),
            Err(_) => json_string_list(text@) is None,
        },
{
    serde_json::from_str::<Vec<String>>(text)
}

/// `to_string` of a `serde_json::Error`: the error in its own words.
/// Nothing is claimed of them.
#[verifier::external_body]
fn error_text(error: &serde_json::Error) -> String {
    error.to_string()
}

/// A text is not a dictionary.
#[derive(Debug)]
pub struct DictionaryError {
    /// What is wrong with the text, and where.
    pub message: String,
}

/// Reads a dictionary from `text`, a JSON list of strings. The words come in
/// the order of the list, and nothing is asked of them.
pub fn parse_dictionary(text: &str) -> (res: Result<Vec<String>, DictionaryError>)
    ensures
        match res {
            Ok(words) => json_string_list(text@) == Some(word_views(words@)),
            Err(_) => json_string_list(text@) is None,
        },
{
    match string_list_from_json(text) {
        Ok(words) => Ok(words),
        Err(error) => Err(DictionaryError { message: error_text(&error) }),
    }
}

} // verus!
