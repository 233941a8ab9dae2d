//! Contract interfaces in JSON.

use crate::abi_type;
use crate::abi_type::check_type_name;
use crate::opaque;
use crate::opaque::get_member;
use crate::order::same_text;
use vstd::prelude::*;

verus! {

/// How deep the components of a parameter may be nested. Reading calls itself for each level, and
/// takes some two kibibytes of stack each time. This is twice as deep as the texts allow that
/// `serde_json` reads.
pub const MAX_DEPTH: usize = 128;

/// Whether the type of a parameter can be read, if it has one.
pub open spec fn has_type_name(param: serde_json::Value) -> bool {
    match opaque::json_member(param, "type"@) {
        Some(kind) => match opaque::json_text(kind) {
            Some(name) => abi_type::is_type_name(name),
            None => true,
        },
        None => true,
    }
}

/// Whether the types of all parameters in a list can be read, and those of their components.
pub open spec fn are_params(list: serde_json::Value, depth: nat) -> bool
    decreases depth,
{
    match opaque::json_array(list) {
        Some(params) => depth > 0 && forall|i: int|
            0 <= i < params.len() ==> has_type_name(#[trigger] params[i]) && match opaque::json_member(
                params[i],
                "components"@,
            ) {
                Some(components) => are_params(components, (depth - 1) as nat),
                None => true,
            },
        None => true,
    }
}

/// Whether the types of all parameters can be read in a member of that name, if there is one.
pub open spec fn member_params(entry: serde_json::Value, key: Seq<char>) -> bool {
    match opaque::json_member(entry, key) {
        Some(list) => are_params(list, MAX_DEPTH as nat),
        None => true,
    }
}

/// Whether a JSON value names a kind of entry that has parameters.
pub open spec fn takes_params(tag: serde_json::Value) -> bool {
    ||| opaque::json_text(tag) == Some("constructor"@)
    ||| opaque::json_text(tag) == Some("function"@)
    ||| opaque::json_text(tag) == Some("event"@)
    ||| opaque::json_text(tag) == Some("error"@)
}

/// Whether the types of all parameters of an interface's entry can be read. An entry is an object
/// that says what kind it is, or an array of that and its parts. Functions have inputs and
/// outputs, the other kinds inputs alone.
pub open spec fn is_entry(entry: serde_json::Value) -> bool {
    match opaque::json_array(entry) {
        Some(parts) => parts.len() > 0 && takes_params(parts[0]) ==> forall|i: int|
            0 <= i < parts.len() ==> are_params(#[trigger] parts[i], MAX_DEPTH as nat),
        None => match opaque::json_member(entry, "type"@) {
            Some(tag) => {
                &&& takes_params(tag) ==> member_params(entry, "inputs"@)
                &&& opaque::json_text(tag) == Some("function"@) ==> member_params(
                    entry,
                    "outputs"@,
                )
            },
            None => true,
        },
    }
}

/// Whether the types of all parameters in an interface can be read.
pub open spec fn is_readable(value: serde_json::Value) -> bool {
    match opaque::json_array(value) {
        Some(entries) => forall|i: int| 0 <= i < entries.len() ==> is_entry(#[trigger] entries[i]),
        None => true,
    }
}

/// The interface that a JSON value reads as, or the text of the error where it reads as none.
pub uninterp spec fn abi_of(value: serde_json::Value) -> Result<ethabi::Contract, Seq<char>>;

/// Reads an interface from a JSON value with `serde_json::from_value`, which goes by the value
/// alone. An error is given as its text.
///
/// The types of parameters are read by `ethabi::param_type::Reader`, which panics on some names, as
/// on `]`, `5]` and `é[]`. Values with such a name are left out, also those in which an error would
/// come before it.
#[verifier::external_body]
pub(crate) fn read_abi(value: serde_json::Value) -> (abi: Result<ethabi::Contract, String>)
    requires
        is_readable(value),
    ensures
        match abi {
            Ok(abi) => abi_of(value) == Ok::<ethabi::Contract, Seq<char>>(abi),
            Err(message) => abi_of(value) == Err::<ethabi::Contract, Seq<char>>(message@),
        },
{
    serde_json::from_value(value).map_err(|error: serde_json::Error| error.to_string())
}

/// Whether the type of a parameter can be read, if it has one.
fn check_param(param: &serde_json::Value) -> (ok: bool)
    ensures
        ok == has_type_name(*param),
{
    match get_member(param, "type") {
        Some(kind) => match kind.as_str() {
            Some(name) => check_type_name(name),
            None => true,
        },
        None => true,
    }
}

/// Whether the types of all parameters in a list can be read, and those of their components.
fn check_params(list: &serde_json::Value, depth: usize) -> (ok: bool)
    ensures
        ok == are_params(*list, depth as nat),
    decreases depth,
{
    match list.as_array() {
        Some(params) => {
            if depth == 0 {
                return false;
            }
            for i in 0..params.len()
                invariant
                    depth > 0,
                    opaque::json_array(*list) == Some(params@),
                    forall|k: int|
                        0 <= k < i ==> has_type_name(#[trigger] params@[k])
                            && match opaque::json_member(params@[k], "components"@) {
                            Some(components) => are_params(components, (depth - 1) as nat),
                            None => true,
                        },
            {
                let param: &serde_json::Value = &params[i];
                let nested_ok = match get_member(param, "components") {
                    Some(components) => check_params(components, depth - 1),
                    None => true,
                };
                if !check_param(param) || !nested_ok {
                    assert(*param == params@[i as int]);
                    return false;
                }
            }
            true
        },
        None => true,
    }
}

/// Whether the types of all parameters can be read in a member of that name, if there is one.
fn check_member(entry: &serde_json::Value, key: &str) -> (ok: bool)
    ensures
        ok == member_params(*entry, key@),
{
    match get_member(entry, key) {
        Some(list) => check_params(list, MAX_DEPTH),
        None => true,
    }
}

/// Whether a JSON value is a string of that text.
fn says(value: &serde_json::Value, text: &str) -> (b: bool)
    ensures
        b == (opaque::json_text(*value) == Some(text@)),
{
    match value.as_str() {
        Some(found) => same_text(found, text),
        None => false,
    }
}

/// Whether a JSON value names a kind of entry that has parameters.
fn check_tag(tag: &serde_json::Value) -> (b: bool)
    ensures
        b == takes_params(*tag),
{
    says(tag, "constructor") || says(tag, "function") || says(tag, "event") || says(tag, "error")
}

/// Whether the types of all parameters of an interface's entry can be read.
fn check_entry(entry: &serde_json::Value) -> (ok: bool)
    ensures
        ok == is_entry(*entry),
{
    match entry.as_array() {
        Some(parts) => {
            if parts.len() == 0 || !check_tag(&parts[0]) {
                return true;
            }
            for i in 0..parts.len()
                invariant
                    opaque::json_array(*entry) == Some(parts@),
                    parts@.len() > 0 && takes_params(parts@[0]),
                    forall|k: int|
                        0 <= k < i ==> are_params(#[trigger] parts@[k], MAX_DEPTH as nat),
            {
                if !check_params(&parts[i], MAX_DEPTH) {
                    assert(opaque::json_array(*entry)->0[i as int] == parts[i as int]);
                    return false;
                }
            }
            true
        },
        None => match get_member(entry, "type") {
            Some(tag) => {
                if check_tag(tag) && !check_member(entry, "inputs") {
                    return false;
                }
                !says(tag, "function") || check_member(entry, "outputs")
            },
            None => true,
        },
    }
}

/// Whether the types of all parameters in an interface can be read.
pub(crate) fn check_interface(value: &serde_json::Value) -> (ok: bool)
    ensures
        ok == is_readable(*value),
{
    match value.as_array() {
        Some(entries) => {
            for i in 0..entries.len()
                invariant
                    opaque::json_array(*value) == Some(entries@),
                    forall|k: int| 0 <= k < i ==> is_entry(#[trigger] entries@[k]),
            {
                if !check_entry(&entries[i]) {
                    assert(opaque::json_array(*value)->0[i as int] == entries[i as int]);
                    return false;
                }
            }
            true
        },
        None => true,
    }
}

/// The types of all parameters in a list can be read that is one of some fine lists.
proof fn lemma_fine_params(
    list: serde_json::Value,
    depth: nat,
    fine: spec_fn(serde_json::Value, nat) -> bool,
)
    requires
        fine(list, depth),
        forall|l: serde_json::Value, d: nat| #[trigger]
            fine(l, d) ==> match opaque::json_array(l) {
                Some(params) => d > 0 && forall|i: int|
                    #![trigger params[i]]
                    0 <= i < params.len() ==> match opaque::json_member(params[i], "type"@) {
                        Some(kind) => match opaque::json_text(kind) {
                            Some(name) => abi_type::outcome(name, 512) != abi_type::Outcome::Broken,
                            None => true,
                        },
                        None => true,
                    } && match opaque::json_member(params[i], "components"@) {
                        Some(components) => fine(components, (d - 1) as nat),
                        None => true,
                    },
                None => true,
            },
    ensures
        are_params(list, depth),
    decreases depth,
{
    if let Some(params) = opaque::json_array(list) {
        assert forall|i: int| 0 <= i < params.len() implies has_type_name(#[trigger] params[i])
            && match opaque::json_member(params[i], "components"@) {
            Some(components) => are_params(components, (depth - 1) as nat),
            None => true,
        } by {
            if let Some(components) = opaque::json_member(params[i], "components"@) {
                lemma_fine_params(components, (depth - 1) as nat, fine);
            }
        }
    }
}

/// An interface is refused only because of a parameter. Let some lists be fine, each of parameters
/// whose types are no names that break the reader and whose components are fine lists one level
/// down. Where the inputs of all constructors, functions, events and errors and the outputs of all
/// functions are fine, the interface can be read.
pub proof fn lemma_readable_unless_param(
    value: serde_json::Value,
    fine: spec_fn(serde_json::Value, nat) -> bool,
)
    requires
        forall|l: serde_json::Value, d: nat| #[trigger]
            fine(l, d) ==> match opaque::json_array(l) {
                Some(params) => d > 0 && forall|i: int|
                    #![trigger params[i]]
                    0 <= i < params.len() ==> match opaque::json_member(params[i], "type"@) {
                        Some(kind) => match opaque::json_text(kind) {
                            Some(name) => abi_type::outcome(name, 512) != abi_type::Outcome::Broken,
                            None => true,
                        },
                        None => true,
                    } && match opaque::json_member(params[i], "components"@) {
                        Some(components) => fine(components, (d - 1) as nat),
                        None => true,
                    },
                None => true,
            },
        opaque::json_array(value) matches Some(entries) ==> forall|i: int|
            #![trigger entries[i]]
            0 <= i < entries.len() ==> match opaque::json_array(entries[i]) {
                Some(parts) => parts.len() > 0 && (opaque::json_text(parts[0]) == Some(
                    "constructor"@,
                ) || opaque::json_text(parts[0]) == Some("function"@) || opaque::json_text(parts[0])
                    == Some("event"@) || opaque::json_text(parts[0]) == Some("error"@)) ==> forall|
                    j: int,
                |
                    0 <= j < parts.len() ==> fine(#[trigger] parts[j], 128),
                None => match opaque::json_member(entries[i], "type"@) {
                    Some(tag) => {
                        &&& (opaque::json_text(tag) == Some("constructor"@) || opaque::json_text(
                            tag,
                        ) == Some("function"@) || opaque::json_text(tag) == Some("event"@)
                            || opaque::json_text(tag) == Some("error"@)) ==> match opaque::json_member(
                            entries[i],
                            "inputs"@,
                        ) {
                            Some(list) => fine(list, 128),
                            None => true,
                        }
                        &&& opaque::json_text(tag) == Some("function"@) ==> match opaque::json_member(
                            entries[i],
                            "outputs"@,
                        ) {
                            Some(list) => fine(list, 128),
                            None => true,
                        }
                    },
                    None => true,
                },
            },
    ensures
        is_readable(value),
{
    if let Some(entries) = opaque::json_array(value) {
        assert forall|i: int| 0 <= i < entries.len() implies is_entry(#[trigger] entries[i]) by {
            let entry = entries[i];
            if let Some(parts) = opaque::json_array(entry) {
                if parts.len() > 0 && takes_params(parts[0]) {
                    assert forall|j: int| 0 <= j < parts.len() implies are_params(
                        #[trigger] parts[j],
                        MAX_DEPTH as nat,
                    ) by {
                        lemma_fine_params(parts[j], 128, fine);
                    }
                }
            } else if let Some(tag) = opaque::json_member(entry, "type"@) {
                if takes_params(tag) {
                    if let Some(list) = opaque::json_member(entry, "inputs"@) {
                        lemma_fine_params(list, 128, fine);
                    }
                }
                if opaque::json_text(tag) == Some("function"@) {
                    if let Some(list) = opaque::json_member(entry, "outputs"@) {
                        lemma_fine_params(list, 128, fine);
                    }
                }
            }
        }
    }
}

/// One more entry, of whatever kind, makes an interface no less readable and no more, if its inputs
/// are parameters without components whose types are neither tuples nor arrays, and if it has no
/// outputs.
pub proof fn lemma_plain_entry_added(
    shorter: serde_json::Value,
    longer: serde_json::Value,
    entries: Seq<serde_json::Value>,
    at: int,
    entry: serde_json::Value,
    inputs: serde_json::Value,
    params: Seq<serde_json::Value>,
)
    requires
        0 <= at <= entries.len(),
        opaque::json_array(shorter) == Some(entries),
        opaque::json_array(longer) == Some(entries.insert(at, entry)),
        opaque::json_array(entry) is None,
        opaque::json_member(entry, "inputs"@) == Some(inputs),
        opaque::json_member(entry, "outputs"@) is None,
        opaque::json_array(inputs) == Some(params),
        forall|i: int|
            #![trigger params[i]]
            0 <= i < params.len() ==> opaque::json_member(params[i], "components"@) is None
                && match opaque::json_member(params[i], "type"@) {
                Some(kind) => match opaque::json_text(kind) {
                    Some(name) => name.len() > 0 && name.last() != ')' && name.last() != ']',
                    None => true,
                },
                None => true,
            },
    ensures
        is_readable(longer) == is_readable(shorter),
{
    assert forall|i: int| 0 <= i < params.len() implies has_type_name(#[trigger] params[i]) by {
        if let Some(kind) = opaque::json_member(params[i], "type"@) {
            if let Some(name) = opaque::json_text(kind) {
                abi_type::lemma_plain_names(name);
            }
        }
    }
    assert(are_params(inputs, MAX_DEPTH as nat));
    assert(is_entry(entry));
    let more = entries.insert(at, entry);
    if is_readable(shorter) {
        assert forall|i: int| 0 <= i < more.len() implies is_entry(#[trigger] more[i]) by {
            if i < at {
                assert(opaque::json_array(shorter)->0[i] == more[i]);
            } else if i > at {
                assert(opaque::json_array(shorter)->0[i - 1] == more[i]);
            }
        }
    }
    if is_readable(longer) {
        assert forall|i: int| 0 <= i < entries.len() implies is_entry(#[trigger] entries[i]) by {
            if i < at {
                assert(opaque::json_array(longer)->0[i] == entries[i]);
            } else {
                assert(opaque::json_array(longer)->0[i + 1] == entries[i]);
            }
        }
    }
}

/// In a readable interface no parameter has a type whose name breaks the reader. The parameter is
/// one of the inputs of an entry, or one of the outputs of a function, or one of the components of
/// such a parameter at any depth: each list but the first is that of the components of a parameter
/// in the one before it.
pub proof fn lemma_no_param_breaks(
    value: serde_json::Value,
    entries: Seq<serde_json::Value>,
    at: int,
    tag: serde_json::Value,
    lists: Seq<serde_json::Value>,
    places: Seq<int>,
    params: Seq<serde_json::Value>,
    kind: serde_json::Value,
    name: Seq<char>,
)
    requires
        is_readable(value),
        opaque::json_array(value) == Some(entries),
        0 <= at < entries.len(),
        opaque::json_array(entries[at]) is None,
        opaque::json_member(entries[at], "type"@) == Some(tag),
        opaque::json_text(tag) == Some("constructor"@) || opaque::json_text(tag) == Some(
            "function"@,
        ) || opaque::json_text(tag) == Some("event"@) || opaque::json_text(tag) == Some("error"@),
        lists.len() > 0,
        places.len() == lists.len(),
        opaque::json_member(entries[at], "inputs"@) == Some(lists[0]) || (opaque::json_text(tag)
            == Some("function"@) && opaque::json_member(entries[at], "outputs"@) == Some(lists[0])),
        forall|n: int|
            #![trigger lists[n]]
            0 <= n < lists.len() - 1 ==> match opaque::json_array(lists[n]) {
                Some(params) => 0 <= places[n] < params.len() && opaque::json_member(
                    params[places[n]],
                    "components"@,
                ) == Some(lists[n + 1]),
                None => false,
            },
        opaque::json_array(lists.last()) == Some(params),
        0 <= places.last() < params.len(),
        opaque::json_member(params[places.last()], "type"@) == Some(kind),
        opaque::json_text(kind) == Some(name),
    ensures
        abi_type::outcome(name, 512) != abi_type::Outcome::Broken,
        lists.len() <= 128,
{
    assert(is_entry(opaque::json_array(value)->0[at]));
    assert(takes_params(tag));
    assert(are_params(lists[0], MAX_DEPTH as nat));
    lemma_lists_readable(lists, places, lists.len() - 1);
    assert(has_type_name(params[places.last()]));
}

/// In a chain of lists, each but the first that of the components of a parameter in the one before
/// it, the types of all parameters can be read if they can in the first.
proof fn lemma_lists_readable(lists: Seq<serde_json::Value>, places: Seq<int>, n: int)
    requires
        0 <= n < lists.len(),
        places.len() == lists.len(),
        are_params(lists[0], MAX_DEPTH as nat),
        forall|m: int|
            #![trigger lists[m]]
            0 <= m < lists.len() - 1 ==> match opaque::json_array(lists[m]) {
                Some(params) => 0 <= places[m] < params.len() && opaque::json_member(
                    params[places[m]],
                    "components"@,
                ) == Some(lists[m + 1]),
                None => false,
            },
    ensures
        n <= MAX_DEPTH,
        are_params(lists[n], (MAX_DEPTH - n) as nat),
    decreases n,
{
    if n > 0 {
        lemma_lists_readable(lists, places, n - 1);
        let before = lists[n - 1];
        let params = opaque::json_array(before)->0;
        assert(opaque::json_member(params[places[n - 1]], "components"@) == Some(lists[n - 1 + 1]));
        assert(are_params(before, (MAX_DEPTH - (n - 1)) as nat));
        assert(has_type_name(params[places[n - 1]]));
    }
}

} // verus!
