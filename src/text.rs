use vstd::prelude::*;
use crate::tree::{JsonNode, JsonTree};
use crate::value::JsonifyValue;

verus! {

#[verifier::external_type_specification]
#[verifier::external_body]
pub struct ExJsonError(serde_json::Error);

#[verifier::external_type_specification]
#[verifier::external_body]
pub struct ExJsonValue(serde_json::Value);

/// The value that serde_json reads from a JSON text, or `None` where the text
/// is not JSON.
pub uninterp spec fn json_parse(text: Seq<char>) -> Option<JsonTree>;

/// The JSON string literal (quoted and escaped) that serde_json writes for a string.
pub uninterp spec fn json_quoted(s: Seq<char>) -> Seq<char>;

/// Relies on `serde_json::from_str::<serde_json::Value>`: it reads one JSON
/// value from the text, or fails with a syntax error; the outcome depends on
/// the text alone.
#[verifier::external_body]
pub(crate) fn parse_value(text: &str) -> (r: Result<JsonNode, serde_json::Error>)
    ensures
        match r {
            Ok(node) => json_parse(text@) == Some(node@),
            Err(_) => json_parse(text@) is None,
        },
{
    serde_json::from_str::<serde_json::Value>(text).map(node_of)
}

/// Moves a `serde_json::Value` into the library's tree, variant for variant;
/// a number is kept as the text that `serde_json::Number`'s `Display` writes.
#[verifier::external_body]
fn node_of(v: serde_json::Value) -> JsonNode {
    match v {
        serde_json::Value::Null => JsonNode::Scalar(JsonifyValue::Null),
        serde_json::Value::Bool(b) => JsonNode::Scalar(JsonifyValue::Bool(b)),
        serde_json::Value::Number(n) => JsonNode::Scalar(JsonifyValue::Number(n.to_string())),
        serde_json::Value::String(s) => JsonNode::Scalar(JsonifyValue::Str(s)),
        serde_json::Value::Array(a) => JsonNode::Array(a.into_iter().map(node_of).collect()),
        serde_json::Value::Object(m) => JsonNode::Object(
            m.into_iter().map(|(k, x)| (k, node_of(x))).collect(),
        ),
    }
}

/// Relies on `Display` of `serde_json::Error`: the parser's diagnostic text.
#[verifier::external_body]
pub(crate) fn error_message(e: &serde_json::Error) -> String {
    e.to_string()
}

/// Relies on `serde_json::to_string` on a `&str`: the quoted, escaped JSON
/// string literal. Writing a string into a byte buffer cannot fail.
#[verifier::external_body]
pub(crate) fn quoted(s: &str) -> (r: String)
    ensures
        r@ == json_quoted(s@),
{
    serde_json::to_string(s).unwrap_or_default()
}

} // verus!
