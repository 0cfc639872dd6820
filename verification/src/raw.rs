//! A dynamically typed value as it reaches the library: what it answered to
//! each question that normalization asks of it.

use vstd::prelude::*;

verus! {

/// One value of a dynamically typed document, before normalization.
///
/// A dynamic value may pass more than one test of its type (a boolean that
/// also reads as an integer, an integer that also reads as a float), so the
/// record keeps the answer to each test apart; normalization decides among
/// them. A value that passed none of them is one of an unsupported type.
#[derive(Debug, PartialEq, Eq)]
pub struct RawValue {
    /// The entries, in the value's own order, if the value is map-like.
    pub as_map: Option<Vec<(RawValue, RawValue)>>,
    /// The elements, in index order, if the value is sequence-like.
    pub as_sequence: Option<Vec<RawValue>>,
    /// The text, if the value is string-like.
    pub as_string: Option<String>,
    /// The integer, if the value reads as a signed 64-bit integer.
    pub as_integer: Option<i64>,
    /// The bit pattern of the IEEE 754 double, if the value reads as one.
    pub as_float: Option<u64>,
    /// The truth value, if the value is boolean-like.
    pub as_boolean: Option<bool>,
    /// Whether the value is the absence-of-value marker.
    pub is_none: bool,
}

impl RawValue {
    /// The record in which every test failed.
    pub open spec fn blank() -> RawValue {
        RawValue {
            as_map: None,
            as_sequence: None,
            as_string: None,
            as_integer: None,
            as_float: None,
            as_boolean: None,
            is_none: false,
        }
    }

    /// The value passed no test: it is of none of the supported shapes.
    pub open spec fn shapeless(self) -> bool {
        &&& self.as_map is None
        &&& self.as_sequence is None
        &&& self.as_string is None
        &&& self.as_integer is None
        &&& self.as_float is None
        &&& self.as_boolean is None
        &&& !self.is_none
    }

    /// A value that passes no test: one of an unsupported type.
    pub fn unsupported() -> (raw: RawValue)
        ensures
            raw == RawValue::blank(),
            raw.shapeless(),
    {
        RawValue {
            as_map: None,
            as_sequence: None,
            as_string: None,
            as_integer: None,
            as_float: None,
            as_boolean: None,
            is_none: false,
        }
    }

    /// A map-like value with the entries `entries` and no other shape.
    pub fn map(entries: Vec<(RawValue, RawValue)>) -> (raw: RawValue)
        ensures
            raw == (RawValue { as_map: Some(entries), ..RawValue::blank() }),
    {
        let mut raw = RawValue::unsupported();
        raw.as_map = Some(entries);
        raw
    }

    /// A sequence-like value with the elements `items` and no other shape.
    pub fn sequence(items: Vec<RawValue>) -> (raw: RawValue)
        ensures
            raw == (RawValue { as_sequence: Some(items), ..RawValue::blank() }),
    {
        let mut raw = RawValue::unsupported();
        raw.as_sequence = Some(items);
        raw
    }

    /// A string-like value with the text `text` and no other shape.
    pub fn string(text: String) -> (raw: RawValue)
        ensures
            raw == (RawValue { as_string: Some(text), ..RawValue::blank() }),
    {
        let mut raw = RawValue::unsupported();
        raw.as_string = Some(text);
        raw
    }

    /// A value that reads as the integer `integer` and as nothing else.
    pub fn integer(integer: i64) -> (raw: RawValue)
        ensures
            raw == (RawValue { as_integer: Some(integer), ..RawValue::blank() }),
    {
        let mut raw = RawValue::unsupported();
        raw.as_integer = Some(integer);
        raw
    }

    /// A value that reads as the double with the bit pattern `bits` and as
    /// nothing else.
    pub fn float(bits: u64) -> (raw: RawValue)
        ensures
            raw == (RawValue { as_float: Some(bits), ..RawValue::blank() }),
    {
        let mut raw = RawValue::unsupported();
        raw.as_float = Some(bits);
        raw
    }

    /// A boolean-like value of no other shape.
    pub fn boolean(flag: bool) -> (raw: RawValue)
        ensures
            raw == (RawValue { as_boolean: Some(flag), ..RawValue::blank() }),
    {
        let mut raw = RawValue::unsupported();
        raw.as_boolean = Some(flag);
        raw
    }

    /// The absence-of-value marker.
    pub fn none() -> (raw: RawValue)
        ensures
            raw == (RawValue { is_none: true, ..RawValue::blank() }),
    {
        let mut raw = RawValue::unsupported();
        raw.is_none = true;
        raw
    }
}

} // verus!
