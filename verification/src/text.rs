//! The text boundary: parsing JSON text and serializing typed values,
//! both through serde_json, and the flatten entry points that go through
//! text.

use vstd::prelude::*;

use crate::flatten::flatten_model;
use crate::flatten::from_json;
use crate::value::JsonModel;
use crate::value::Json;

verus! {

/// Why flattening through the text boundary failed: the input text was
/// not well-formed JSON, or the typed input value could not be turned
/// into JSON text. The flattener itself never fails.
#[derive(Debug, Clone, Copy, PartialEq, Eq, Structural)]
pub enum FlattenError {
    Parse,
    Serialize,
}

#[verifier::external_type_specification]
#[verifier::external_body]
pub struct ExSerdeJsonValue(serde_json::Value);

#[verifier::external_type_specification]
#[verifier::external_body]
pub struct ExSerdeJsonError(serde_json::Error);

/// What serde_json's parser makes of a text: `Some` of the parsed tree
/// (read as this crate's model, numbers as their shortest display text,
/// object members in serde_json's map order) when the text is well-formed
/// JSON, `None` otherwise. A function of the text alone.
pub uninterp spec fn json_parse(s: Seq<char>) -> Option<JsonModel>;

/// Relies on serde_json::from_str: it returns `Ok` exactly on well-formed
/// JSON text, and the tree it returns is a function of the text alone;
/// the body rebuilds that tree as this crate's [`Json`].
#[verifier::external_body]
fn parse_json_text(s: &str) -> (r: Result<Json, serde_json::Error>)
    ensures
        match r {
            Ok(v) => json_parse(s@) == Some(v@),
            Err(_) => json_parse(s@) is None,
        },
{
    match serde_json::from_str::<serde_json::Value>(s) {
        Ok(v) => Ok(raw_to_value(&v)),
        Err(e) => Err(e),
    }
}

/// Relies on serde_json::Value being the faithful tagged tree of the
/// parsed document: each variant is carried over one for one, a number as
/// its display text. Only [`parse_json_text`] calls this.
#[verifier::external_body]
fn raw_to_value(v: &serde_json::Value) -> Json {
    match v {
        serde_json::Value::Null => Json::Null,
        serde_json::Value::Bool(b) => Json::Bool(*b),
        serde_json::Value::Number(n) => Json::Number(n.to_string()),
        serde_json::Value::String(s) => Json::Str(s.clone()),
        serde_json::Value::Array(a) => Json::Array(a.iter().map(raw_to_value).collect()),
        serde_json::Value::Object(m) => Json::Object(
            m.iter().map(|(k, w)| (k.clone(), raw_to_value(w))).collect(),
        ),
    }
}

/// Relies on serde_json::to_string: it turns any `Serialize` value into
/// JSON text, or fails. What comes back depends on the value's own
/// `Serialize` impl, so nothing more is promised of it.
#[verifier::external_body]
fn to_json_text<T: serde::Serialize>(value: &T) -> Result<String, serde_json::Error> {
    serde_json::to_string(value)
}

/// Flatten a JSON text: parse it, then flatten the parsed value. Returns
/// the flat map of the parsed value exactly when the text parses, and
/// `FlattenError::Parse` exactly when it does not; no output is produced then.
pub fn from_str(s: &str) -> (r: Result<Json, FlattenError>)
    ensures
        json_parse(s@) matches Some(m) ==> r matches Ok(v) && v@ == flatten_model(m),
        json_parse(s@) is None ==> r == Err::<Json, FlattenError>(FlattenError::Parse),
{
    match parse_json_text(s) {
        Ok(v) => Ok(from_json(&v)),
        Err(_) => Err(FlattenError::Parse),
    }
}

/// Flatten any serializable value: serialize it to JSON text, then
/// flatten that text. An `Ok` result is always the flat map of some
/// parsed JSON value; `FlattenError::Serialize` reports a value that could not
/// be serialized, `FlattenError::Parse` an intermediate text that did not parse.
pub fn from<T: serde::Serialize>(value: &T) -> (r: Result<Json, FlattenError>)
    ensures
        r matches Ok(v) ==> exists|s: Seq<char>, m: JsonModel|
            json_parse(s) == Some(m) && v@ == flatten_model(m),
{
    let text = match to_json_text(value) {
        Ok(t) => t,
        Err(_) => {
            return Err(FlattenError::Serialize);
        },
    };
    let r = from_str(text.as_str());
    proof {
        if r is Ok {
            let m = json_parse(text@)->Some_0;
            assert(json_parse(text@) == Some(m) && r->Ok_0@ == flatten_model(m));
        }
    }
    r
}

} // verus!
