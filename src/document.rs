//! Decoded measurement documents and the fixed query that pulls the median
//! point estimate out of one.
use serde_cbor::Value;
use vstd::prelude::*;

verus! {

/// A decoded CBOR value. Floating-point leaves are kept as their IEEE-754
/// bit patterns; map entries are kept in the decoder's key order.
#[derive(Debug, PartialEq, Eq)]
pub enum Doc {
    Null,
    Bool(bool),
    Integer(i128),
    Float(u64),
    Bytes(Vec<u8>),
    Text(String),
    Array(Vec<Doc>),
    Dict(Vec<(Doc, Doc)>),
    Tag(u64, Box<Doc>),
}

#[verifier::external_type_specification]
#[verifier::external_body]
pub struct ExCborError(serde_cbor::Error);

#[verifier::external_type_specification]
#[verifier::external_body]
pub struct ExCborValue(serde_cbor::Value);

/// The document that serde_cbor decodes from `bytes`, or `None` where it
/// refuses them (malformed or truncated data, trailing bytes, nesting too deep).
pub uninterp spec fn cbor_document(bytes: Seq<u8>) -> Option<Doc>;

/// Relies on serde_cbor::from_slice into serde_cbor::Value: the outcome depends
/// on the bytes alone. The decoded value is carried over by `doc_of_value`.
#[verifier::external_body]
pub(crate) fn decode_document(bytes: &[u8]) -> (r: Result<Doc, serde_cbor::Error>)
    ensures
        match r {
            Ok(d) => cbor_document(bytes@) == Some(d),
            Err(_) => cbor_document(bytes@) is None,
        },
{
    serde_cbor::from_slice::<Value>(bytes).map(doc_of_value)
}

/// Converts a serde_cbor::Value into a `Doc`, variant for variant; a float is
/// kept as its bit pattern. The decoder never produces the hidden variant.
/// Claims nothing: what `decode_document` states covers the conversion too.
#[verifier::external_body]
fn doc_of_value(v: Value) -> Doc {
    match v {
        Value::Null | Value::__Hidden => Doc::Null,
        Value::Bool(b) => Doc::Bool(b),
        Value::Integer(i) => Doc::Integer(i),
        Value::Float(x) => Doc::Float(x.to_bits()),
        Value::Bytes(b) => Doc::Bytes(b),
        Value::Text(t) => Doc::Text(t),
        Value::Array(a) => Doc::Array(a.into_iter().map(doc_of_value).collect()),
        Value::Map(m) => Doc::Dict(m.into_iter().map(|(k, x)| (doc_of_value(k), doc_of_value(x))).collect()),
        Value::Tag(t, x) => Doc::Tag(t, Box::new(doc_of_value(*x))),
    }
}

/// The value stored under the text key `key` among `entries`.
pub open spec fn entry_for(entries: Seq<(Doc, Doc)>, key: Seq<char>) -> Option<Doc>
    decreases entries.len(),
{
    if entries.len() == 0 {
        None
    } else if entries[0].0 is Text && entries[0].0->Text_0@ == key {
        Some(entries[0].1)
    } else {
        entry_for(entries.drop_first(), key)
    }
}

/// The value under the text key `key` of `d`, when `d` is a map.
pub open spec fn member(d: Doc, key: Seq<char>) -> Option<Doc> {
    match d {
        Doc::Dict(entries) => entry_for(entries@, key),
        _ => None,
    }
}

/// The float bits at `estimates` / `median` / `point_estimate`, when each step
/// finds a map and the last finds a float.
pub open spec fn point_estimate_of(d: Doc) -> Option<u64> {
    match member(d, "estimates"@) {
        Some(estimates) => match member(estimates, "median"@) {
            Some(median) => match member(median, "point_estimate"@) {
                Some(Doc::Float(bits)) => Some(bits),
                _ => None,
            },
            None => None,
        },
        None => None,
    }
}

fn same_text(a: &String, b: &str) -> (r: bool)
    ensures
        r == (a@ == b@),
{
    let b = String::from_str(b);
    *a == b
}

/// Looks up the text key `key` in `d`, when `d` is a map.
pub fn get_member<'a>(d: &'a Doc, key: &str) -> (r: Option<&'a Doc>)
    ensures
        match r {
            Some(x) => member(*d, key@) == Some(*x),
            None => member(*d, key@) is None,
        },
{
    match d {
        Doc::Dict(entries) => {
            let mut i: usize = 0;
            assert(entries@.skip(0) =~= entries@);
            while i < entries.len()
                invariant
                    i <= entries@.len(),
                    member(*d, key@) == entry_for(entries@, key@),
                    entry_for(entries@, key@) == entry_for(entries@.skip(i as int), key@),
                decreases entries.len() - i,
            {
                proof {
                    assert(entries@.skip(i as int).drop_first() =~= entries@.skip(i + 1));
                    assert(entries@.skip(i as int)[0] == entries@[i as int]);
                }
                if let Doc::Text(t) = &entries[i].0 {
                    if same_text(t, key) {
                        return Some(&entries[i].1);
                    }
                }
                i = i + 1;
            }
            None
        },
        _ => None,
    }
}

/// The median point estimate of a decoded document, as float bits.
pub fn point_estimate(d: &Doc) -> (r: Option<u64>)
    ensures
        r == point_estimate_of(*d),
{
    let estimates = match get_member(d, "estimates") {
        Some(x) => x,
        None => return None,
    };
    let median = match get_member(estimates, "median") {
        Some(x) => x,
        None => return None,
    };
    match get_member(median, "point_estimate") {
        Some(Doc::Float(bits)) => Some(*bits),
        _ => None,
    }
}

} // verus!
