//! Reading single values out of JSON texts (hook payloads, log lines).
use vstd::prelude::*;

verus! {

/// The string at a JSON pointer of a JSON text (`None` when the text is not
/// JSON or the value there is not a string).
pub uninterp spec fn json_string_at_spec(text: Seq<char>, pointer: Seq<char>) -> Option<Seq<char>>;

/// `serde_json::from_str::<Value>` then `Value::pointer` and `as_str`.
#[verifier::external_body]
pub(crate) fn json_string_at(text: &str, pointer: &str) -> (r: Option<String>)
    ensures
        match r {
            Some(s) => json_string_at_spec(text@, pointer@) == Some(s@),
            None => json_string_at_spec(text@, pointer@) is None,
        },
{
    let v: serde_json::Value = serde_json::from_str(text).ok()?;
    v.pointer(pointer).and_then(serde_json::Value::as_str).map(String::from)
}

/// The boolean at a JSON pointer of a JSON text (`None` when the text is not
/// JSON or the value there is not a boolean).
pub uninterp spec fn json_bool_at_spec(text: Seq<char>, pointer: Seq<char>) -> Option<bool>;

/// `serde_json::from_str::<Value>` then `Value::pointer` and `as_bool`.
#[verifier::external_body]
pub(crate) fn json_bool_at(text: &str, pointer: &str) -> (r: Option<bool>)
    ensures
        r == json_bool_at_spec(text@, pointer@),
{
    let v: serde_json::Value = serde_json::from_str(text).ok()?;
    v.pointer(pointer).and_then(serde_json::Value::as_bool)
}

} // verus!
