use vstd::prelude::*;

use crate::text::strings_view;

verus! {

/// The keys of the JSON object that the bytes encode, or `None` where
/// serde_json does not read the bytes as a JSON object (including objects it
/// refuses, such as one holding a number out of its range).
pub uninterp spec fn json_object_keys(b: Seq<u8>) -> Option<Seq<Seq<char>>>;

/// Relies on `serde_json::from_slice` into a `serde_json::Map`: `None` where
/// that call returns an error, else the keys of the map it returns.
#[verifier::external_body]
pub(crate) fn object_keys(bytes: &[u8]) -> (r: Option<Vec<String>>)
    ensures
        r.is_none() ==> json_object_keys(bytes@).is_none(),
        r.is_some() ==> json_object_keys(bytes@) == Some(strings_view(r.unwrap()@)),
{
    serde_json::from_slice::<serde_json::Map<String, serde_json::Value>>(bytes)
        .ok()
        .map(|m| m.into_iter().map(|(k, _)| k).collect())
}

/// An account-data payload is acceptable when it is a JSON object that holds
/// both a `type` and a `content` field.
pub open spec fn has_type_and_content(keys: Option<Seq<Seq<char>>>) -> bool {
    match keys {
        Some(k) => k.contains("type"@) && k.contains("content"@),
        None => false,
    }
}

/// Whether a list of object keys holds both `type` and `content`.
pub fn keys_have_type_and_content(keys: &Vec<String>) -> (r: bool)
    ensures
        r == has_type_and_content(Some(strings_view(keys@))),
{
    let type_key = String::from_str("type");
    let content_key = String::from_str("content");
    let mut has_type = false;
    let mut has_content = false;
    let mut i: usize = 0;
    while i < keys.len()
        invariant
            i <= keys.len(),
            type_key@ == "type"@,
            content_key@ == "content"@,
            has_type == exists|j: int| 0 <= j < i && keys@[j]@ == "type"@,
            has_content == exists|j: int| 0 <= j < i && keys@[j]@ == "content"@,
        decreases keys.len() - i,
    {
        if keys[i] == type_key {
            has_type = true;
        }
        if keys[i] == content_key {
            has_content = true;
        }
        i = i + 1;
    }
    let ghost sv = strings_view(keys@);
    assert(has_type == sv.contains("type"@)) by {
        if has_type {
            let j = choose|j: int| 0 <= j < i && keys@[j]@ == "type"@;
            assert(sv[j] == "type"@);
        }
        if sv.contains("type"@) {
            let j = choose|j: int| 0 <= j < sv.len() && sv[j] == "type"@;
            assert(keys@[j]@ == "type"@);
        }
    }
    assert(has_content == sv.contains("content"@)) by {
        if has_content {
            let j = choose|j: int| 0 <= j < i && keys@[j]@ == "content"@;
            assert(sv[j] == "content"@);
        }
        if sv.contains("content"@) {
            let j = choose|j: int| 0 <= j < sv.len() && sv[j] == "content"@;
            assert(keys@[j]@ == "content"@);
        }
    }
    has_type && has_content
}

/// Whether the bytes are an acceptable account-data payload: a JSON object
/// with both a `type` and a `content` field.
pub fn is_valid_account_payload(bytes: &[u8]) -> (r: bool)
    ensures
        r == has_type_and_content(json_object_keys(bytes@)),
{
    match object_keys(bytes) {
        Some(keys) => keys_have_type_and_content(&keys),
        None => false,
    }
}

} // verus!
