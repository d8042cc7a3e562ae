//! The four text parsers a config file can be read with, each turning text into a
//! `Doc`. What a parser makes of a text is named here, not spelled out: each name
//! is a function of the text alone.
use vstd::prelude::*;
use crate::doc::Doc;

verus! {

/// Declares `serde_json::Value`, the tree the parsers produce before it becomes a `Doc`.
#[verifier::external_type_specification]
#[verifier::external_body]
pub struct ExJsonValue(serde_json::Value);

/// The document that strict JSON `text` holds, or `None` when `text` is not JSON.
pub uninterp spec fn json_document(text: Seq<char>) -> Option<Doc>;

/// The document that JSONC `text` holds (comments and trailing commas allowed;
/// empty text is `null`), or `None` when `text` does not parse.
pub uninterp spec fn jsonc_document(text: Seq<char>) -> Option<Doc>;

/// The document that TOML `text` holds, or `None` when `text` is not TOML.
pub uninterp spec fn toml_document(text: Seq<char>) -> Option<Doc>;

/// The document that YAML `text` holds, or `None` when `text` is not YAML.
pub uninterp spec fn yaml_document(text: Seq<char>) -> Option<Doc>;

/// Converts a parsed `serde_json::Value` into a `Doc`, variant for variant: numbers
/// become their `to_string` text, and object members keep their order. Nothing is
/// stated of it; it only serves the parser wrappers below.
#[verifier::external_body]
fn doc_from_json(value: serde_json::Value) -> Doc {
    match value {
        serde_json::Value::Null => Doc::Null,
        serde_json::Value::Bool(flag) => Doc::Bool(flag),
        serde_json::Value::Number(number) => Doc::Number(number.to_string()),
        serde_json::Value::String(text) => Doc::String(text),
        serde_json::Value::Array(items) => Doc::Array(items.into_iter().map(doc_from_json).collect()),
        serde_json::Value::Object(members) => Doc::Object(
            members.into_iter().map(|(key, item)| (key, doc_from_json(item))).collect(),
        ),
    }
}

/// `serde_json::from_str` into a `serde_json::Value`, converted to a `Doc`.
/// Claimed: it succeeds exactly when `json_document` gives a document, and then
/// returns that document. The error message is the crate's own; nothing is
/// stated of it.
#[verifier::external_body]
pub(crate) fn parse_json(text: &str) -> (r: Result<Doc, String>)
    ensures
        r is Ok <==> json_document(text@) is Some,
        r matches Ok(d) ==> json_document(text@) == Some(d),
{
    match serde_json::from_str::<serde_json::Value>(text) {
        Ok(value) => Ok(doc_from_json(value)),
        Err(error) => Err(error.to_string()),
    }
}

/// `jsonc_parser::parse_to_serde_value` with the default (permissive) options,
/// converted to a `Doc`. Claimed: it succeeds exactly when `jsonc_document` gives
/// a document, and then returns that document. The error message is the crate's
/// own; nothing is stated of it.
#[verifier::external_body]
pub(crate) fn parse_jsonc(text: &str) -> (r: Result<Doc, String>)
    ensures
        r is Ok <==> jsonc_document(text@) is Some,
        r matches Ok(d) ==> jsonc_document(text@) == Some(d),
{
    let options = jsonc_parser::ParseOptions::default();
    match jsonc_parser::parse_to_serde_value::<serde_json::Value>(text, &options) {
        Ok(value) => Ok(doc_from_json(value)),
        Err(error) => Err(error.to_string()),
    }
}

/// `toml::from_str` into a `serde_json::Value`, converted to a `Doc`. Claimed: it
/// succeeds exactly when `toml_document` gives a document, and then returns that
/// document. The error message is the crate's own; nothing is stated of it.
#[verifier::external_body]
pub(crate) fn parse_toml(text: &str) -> (r: Result<Doc, String>)
    ensures
        r is Ok <==> toml_document(text@) is Some,
        r matches Ok(d) ==> toml_document(text@) == Some(d),
{
    match toml::from_str::<serde_json::Value>(text) {
        Ok(value) => Ok(doc_from_json(value)),
        Err(error) => Err(error.to_string()),
    }
}

/// `yaml_serde::from_str` into a `serde_json::Value`, converted to a `Doc`.
/// Claimed: it succeeds exactly when `yaml_document` gives a document, and then
/// returns that document. The error message is the crate's own; nothing is
/// stated of it.
#[verifier::external_body]
pub(crate) fn parse_yaml(text: &str) -> (r: Result<Doc, String>)
    ensures
        r is Ok <==> yaml_document(text@) is Some,
        r matches Ok(d) ==> yaml_document(text@) == Some(d),
{
    match yaml_serde::from_str::<serde_json::Value>(text) {
        Ok(value) => Ok(doc_from_json(value)),
        Err(error) => Err(error.to_string()),
    }
}

} // verus!
