//! Reading the discriminant out of one JSON record.
use vstd::prelude::*;

verus! {

/// The string that field `field` of the JSON object written in `line` holds,
/// if `line` is a JSON object and that field holds a string.
pub uninterp spec fn json_string_field(line: Seq<u8>, field: Seq<char>) -> Option<Seq<char>>;

/// Relies on `serde_json::from_slice` (into a `serde_json::Value`), then
/// `Value::get` and `Value::as_str`: the string value of field `field` of the
/// object that `line` holds. An empty line is no JSON value at all.
#[verifier::external_body]
pub(crate) fn string_field(line: &[u8], field: &str) -> (r: Option<String>)
    ensures
        r.is_some() == json_string_field(line@, field@).is_some(),
        r.is_some() ==> r.unwrap()@ == json_string_field(line@, field@).unwrap(),
        line@.len() == 0 ==> r.is_none(),
{
    match serde_json::from_slice::<serde_json::Value>(line) {
        Ok(value) => match value.get(field) {
            Some(found) => found.as_str().map(|s| s.to_string()),
            None => None,
        },
        Err(_) => None,
    }
}

} // verus!
