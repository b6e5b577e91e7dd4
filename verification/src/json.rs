//! Values in JSON texts.
//!
//! A place in a text is given by a JSON pointer, such as `/params/m`.

use vstd::prelude::*;

verus! {

/// Whether a text is JSON.
pub uninterp spec fn json_is_valid(text: Seq<u8>) -> bool;

/// Whether there is a value at a place.
pub uninterp spec fn json_has(text: Seq<u8>, place: Seq<char>) -> bool;

/// The number without sign or fraction at a place.
pub uninterp spec fn json_number_at(text: Seq<u8>, place: Seq<char>) -> Option<u64>;

/// The truth value at a place.
pub uninterp spec fn json_flag_at(text: Seq<u8>, place: Seq<char>) -> Option<bool>;

/// The string at a place.
pub uninterp spec fn json_string_at(text: Seq<u8>, place: Seq<char>) -> Option<Seq<char>>;

/// The length of the array at a place.
pub uninterp spec fn json_length_at(text: Seq<u8>, place: Seq<char>) -> Option<usize>;

/// The number without sign or fraction that is an element of the array at a
/// place.
pub uninterp spec fn json_element_at(text: Seq<u8>, place: Seq<char>, i: nat) -> Option<u64>;

/// Calls `serde_json::from_slice` and says whether it succeeds: whether the
/// text is JSON is a matter of the text alone.
#[verifier::external_body]
pub(crate) fn is_json(text: &[u8]) -> (r: bool)
    ensures
        r == json_is_valid(text@),
{
    serde_json::from_slice::<serde_json::Value>(text).is_ok()
}

/// Calls `serde_json::Value::pointer` on the parsed text and says whether it
/// finds a value.
#[verifier::external_body]
pub(crate) fn has_value(text: &[u8], place: &str) -> (r: bool)
    ensures
        r == json_has(text@, place@),
{
    match serde_json::from_slice::<serde_json::Value>(text) {
        Ok(value) => value.pointer(place).is_some(),
        Err(_) => false,
    }
}

/// Calls `serde_json::Value::as_u64` on what stands at a place of the parsed
/// text.
#[verifier::external_body]
pub(crate) fn number_at(text: &[u8], place: &str) -> (r: Option<u64>)
    ensures
        r == json_number_at(text@, place@),
{
    let value: serde_json::Value = serde_json::from_slice(text).ok()?;
    value.pointer(place)?.as_u64()
}

/// Calls `serde_json::Value::as_bool` on what stands at a place of the parsed
/// text.
#[verifier::external_body]
pub(crate) fn flag_at(text: &[u8], place: &str) -> (r: Option<bool>)
    ensures
        r == json_flag_at(text@, place@),
{
    let value: serde_json::Value = serde_json::from_slice(text).ok()?;
    value.pointer(place)?.as_bool()
}

/// The characters of a string that may be missing.
pub open spec fn chars_of(s: Option<String>) -> Option<Seq<char>> {
    match s {
        Some(s) => Some(s@),
        None => None,
    }
}

/// Calls `serde_json::Value::as_str` on what stands at a place of the parsed
/// text.
#[verifier::external_body]
pub(crate) fn string_at(text: &[u8], place: &str) -> (r: Option<String>)
    ensures
        chars_of(r) == json_string_at(text@, place@),
{
    let value: serde_json::Value = serde_json::from_slice(text).ok()?;
    Some(value.pointer(place)?.as_str()?.to_string())
}

/// Calls `serde_json::Value::as_array` on what stands at a place of the parsed
/// text, and gives the length of the array.
#[verifier::external_body]
pub(crate) fn length_at(text: &[u8], place: &str) -> (r: Option<usize>)
    ensures
        r == json_length_at(text@, place@),
{
    let value: serde_json::Value = serde_json::from_slice(text).ok()?;
    Some(value.pointer(place)?.as_array()?.len())
}

/// Calls `serde_json::Value::get` for an element of the array at a place of the
/// parsed text, and `as_u64` on the element.
#[verifier::external_body]
pub(crate) fn element_at(text: &[u8], place: &str, i: usize) -> (r: Option<u64>)
    ensures
        r == json_element_at(text@, place@, i as nat),
{
    let value: serde_json::Value = serde_json::from_slice(text).ok()?;
    value.pointer(place)?.get(i)?.as_u64()
}

/// The first `n` elements of an array that are numbers without sign or
/// fraction.
pub open spec fn numbers_up_to(text: Seq<u8>, place: Seq<char>, n: nat) -> Seq<u64>
    decreases n,
{
    if n == 0 {
        Seq::empty()
    } else {
        let front = numbers_up_to(text, place, (n - 1) as nat);
        match json_element_at(text, place, (n - 1) as nat) {
            Some(x) => front.push(x),
            None => front,
        }
    }
}

/// The elements of an array that are numbers without sign or fraction; none
/// where there is no array.
pub open spec fn json_numbers_at(text: Seq<u8>, place: Seq<char>) -> Seq<u64> {
    match json_length_at(text, place) {
        Some(n) => numbers_up_to(text, place, n as nat),
        None => Seq::empty(),
    }
}

/// The numbers in an array; other elements are passed over.
pub fn numbers_at(text: &[u8], place: &str) -> (r: Vec<u64>)
    ensures
        r@ == json_numbers_at(text@, place@),
{
    let mut out: Vec<u64> = Vec::new();
    match length_at(text, place) {
        None => {},
        Some(n) => {
            let mut i: usize = 0;
            while i < n
                invariant
                    i <= n,
                    out@ == numbers_up_to(text@, place@, i as nat),
                decreases n - i,
            {
                match element_at(text, place, i) {
                    Some(x) => {
                        out.push(x);
                    },
                    None => {},
                }
                i += 1;
            }
        },
    }
    out
}

} // verus!
