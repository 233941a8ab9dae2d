//! Types of other crates that values are carried in. Of what is inside, only what the functions
//! here give is known.

use vstd::prelude::*;

verus! {

/// A JSON value, `serde_json::Value`.
#[verifier::external_type_specification]
#[verifier::external_body]
pub struct ExJsonValue(serde_json::Value);

/// The elements of a JSON value that is an array.
pub uninterp spec fn json_array(value: serde_json::Value) -> Option<Seq<serde_json::Value>>;

/// The text of a JSON value that is a string.
pub uninterp spec fn json_text(value: serde_json::Value) -> Option<Seq<char>>;

/// The member of that name of a JSON value that is an object and has one.
pub uninterp spec fn json_member(value: serde_json::Value, key: Seq<char>) -> Option<
    serde_json::Value,
>;

/// `serde_json::Value::as_array`, which gives the elements of an array, and nothing for any other
/// value.
pub assume_specification[ serde_json::Value::as_array ](value: &serde_json::Value) -> (items:
    Option<&Vec<serde_json::Value>>)
    ensures
        match items {
            Some(items) => json_array(*value) == Some(items@),
            None => json_array(*value) is None,
        },
;

/// `serde_json::Value::as_str`, which gives the text of a string, and nothing for any other value.
pub assume_specification[ serde_json::Value::as_str ](value: &serde_json::Value) -> (word: Option<
    &str,
>)
    ensures
        match word {
            Some(word) => json_text(*value) == Some(word@),
            None => json_text(*value) is None,
        },
;

/// `serde_json::Value::get` with a text, which gives the member of that name of an object, and
/// nothing for an object without one or for any other value.
#[verifier::external_body]
pub(crate) fn get_member<'a>(value: &'a serde_json::Value, key: &str) -> (found: Option<
    &'a serde_json::Value,
>)
    ensures
        match found {
            Some(member) => json_member(*value, key@) == Some(*member),
            None => json_member(*value, key@) is None,
        },
{
    value.get(key)
}

/// A contract's interface, `ethabi::Contract`.
#[verifier::external_type_specification]
#[verifier::external_body]
pub struct ExAbi(ethabi::Contract);

/// `Clone` of a JSON value, which its enum derives: the clone is the same value.
pub assume_specification[ <serde_json::Value as Clone>::clone ](value: &serde_json::Value) -> (copy:
    serde_json::Value)
    ensures
        copy == *value,
;

/// `Clone` of a contract's interface, which its struct derives: the clone is the same interface.
pub assume_specification[ <ethabi::Contract as Clone>::clone ](interface: &ethabi::Contract) -> (copy:
    ethabi::Contract)
    ensures
        copy == *interface,
;

} // verus!
