//! Reading strings out of JSON response bodies with serde_json.
use vstd::prelude::*;
use serde_json::Value;

verus! {

/// The view of an optional string.
pub open spec fn opt_string_view(o: Option<String>) -> Option<Seq<char>> {
    match o {
        Some(s) => Some(s@),
        None => None,
    }
}

/// The view of a JSON lookup result.
pub open spec fn lookup_view(r: Option<Option<String>>) -> Option<Option<Seq<char>>> {
    match r {
        Some(o) => Some(opt_string_view(o)),
        None => None,
    }
}

/// What reading `body` as JSON and taking the string member `key` gives: `None`
/// where the body is not JSON, `Some(None)` where the member is missing or not
/// a string, `Some(Some(s))` where it is the string `s`.
pub uninterp spec fn json_str_member(body: Seq<u8>, key: Seq<char>) -> Option<Option<Seq<char>>>;

/// The same for the string member `key` of the member `outer`.
pub uninterp spec fn json_str_nested_member(body: Seq<u8>, outer: Seq<char>, key: Seq<char>) -> Option<
    Option<Seq<char>>,
>;

/// Calls `serde_json::from_slice` into a `Value`, then indexes it by `key` and
/// takes `as_str`. The contract claims that the result is `json_str_member` of
/// the body and the key, a function of those alone: `None` exactly where
/// `from_slice` fails, otherwise the string, if the member is one (indexing a
/// `Value` that is no object, or lacks the key, gives `Null`).
#[verifier::external_body]
pub(crate) fn json_member_str(body: &[u8], key: &str) -> (r: Option<Option<String>>)
    ensures
        lookup_view(r) == json_str_member(body@, key@),
{
    match serde_json::from_slice::<Value>(body) {
        Ok(v) => Some(v[key].as_str().map(|s| s.to_string())),
        Err(_) => None,
    }
}

/// Calls `serde_json::from_slice` into a `Value`, then indexes it by `outer`
/// and by `key` and takes `as_str`. The contract claims that the result is
/// `json_str_nested_member` of the body and the keys, a function of those alone.
#[verifier::external_body]
pub(crate) fn json_nested_member_str(body: &[u8], outer: &str, key: &str) -> (r: Option<Option<String>>)
    ensures
        lookup_view(r) == json_str_nested_member(body@, outer@, key@),
{
    match serde_json::from_slice::<Value>(body) {
        Ok(v) => Some(v[outer][key].as_str().map(|s| s.to_string())),
        Err(_) => None,
    }
}

} // verus!
