//! Making values out of plain data.

use vstd::prelude::*;
use vstd::std_specs::convert::FromSpecImpl;
use crate::text::{decimal_string, signed_decimal};
use crate::value::{Json, JsonValue, Object};

verus! {

impl From<bool> for Json {
    fn from(value: bool) -> (r: Json) {
        if value {
            Json::True
        } else {
            Json::False
        }
    }
}

impl FromSpecImpl<bool> for Json {
    open spec fn obeys_from_spec() -> bool {
        true
    }

    open spec fn from_spec(value: bool) -> Json {
        if value {
            Json::True
        } else {
            Json::False
        }
    }
}

impl From<String> for Json {
    fn from(value: String) -> (r: Json) {
        Json::String(value)
    }
}

impl FromSpecImpl<String> for Json {
    open spec fn obeys_from_spec() -> bool {
        true
    }

    open spec fn from_spec(value: String) -> Json {
        Json::String(value)
    }
}

impl From<Vec<Json>> for Json {
    fn from(value: Vec<Json>) -> (r: Json) {
        Json::Array(value)
    }
}

impl FromSpecImpl<Vec<Json>> for Json {
    open spec fn obeys_from_spec() -> bool {
        true
    }

    open spec fn from_spec(value: Vec<Json>) -> Json {
        Json::Array(value)
    }
}

impl From<Object> for Json {
    fn from(value: Object) -> (r: Json) {
        Json::Object(value)
    }
}

impl FromSpecImpl<Object> for Json {
    open spec fn obeys_from_spec() -> bool {
        true
    }

    open spec fn from_spec(value: Object) -> Json {
        Json::Object(value)
    }
}

/// The string that holds the characters of `value`.  The result is known by
/// what it stands for, which `from` states.
impl<'a> From<&'a str> for Json {
    fn from(value: &'a str) -> (r: Json)
        ensures
            r@ == JsonValue::String(value@),
    {
        Json::String(value.to_owned())
    }
}

impl<'a> FromSpecImpl<&'a str> for Json {
    open spec fn obeys_from_spec() -> bool {
        false
    }

    open spec fn from_spec(value: &'a str) -> Json {
        choose|json: Json| json@ == JsonValue::String(value@)
    }
}

/// The number whose literal is the decimal numeral of `value`.  The result
/// is known by what it stands for, which `from` states.
impl From<i32> for Json {
    fn from(value: i32) -> (r: Json)
        ensures
            r@ == JsonValue::Number(signed_decimal(value as int)),
    {
        Json::Number(decimal_string(value as i64))
    }
}

impl FromSpecImpl<i32> for Json {
    open spec fn obeys_from_spec() -> bool {
        false
    }

    open spec fn from_spec(value: i32) -> Json {
        choose|json: Json| json@ == JsonValue::Number(signed_decimal(value as int))
    }
}

/// The number whose literal is the decimal numeral of `value`.  The result
/// is known by what it stands for, which `from` states.
impl From<i16> for Json {
    fn from(value: i16) -> (r: Json)
        ensures
            r@ == JsonValue::Number(signed_decimal(value as int)),
    {
        Json::Number(decimal_string(value as i64))
    }
}

impl FromSpecImpl<i16> for Json {
    open spec fn obeys_from_spec() -> bool {
        false
    }

    open spec fn from_spec(value: i16) -> Json {
        choose|json: Json| json@ == JsonValue::Number(signed_decimal(value as int))
    }
}

/// The number whose literal is the decimal numeral of `value`.  The result
/// is known by what it stands for, which `from` states.
impl From<u16> for Json {
    fn from(value: u16) -> (r: Json)
        ensures
            r@ == JsonValue::Number(signed_decimal(value as int)),
    {
        Json::Number(decimal_string(value as i64))
    }
}

impl FromSpecImpl<u16> for Json {
    open spec fn obeys_from_spec() -> bool {
        false
    }

    open spec fn from_spec(value: u16) -> Json {
        choose|json: Json| json@ == JsonValue::Number(signed_decimal(value as int))
    }
}

/// The number whose literal is the decimal numeral of `value`.  The result
/// is known by what it stands for, which `from` states.
impl From<u8> for Json {
    fn from(value: u8) -> (r: Json)
        ensures
            r@ == JsonValue::Number(signed_decimal(value as int)),
    {
        Json::Number(decimal_string(value as i64))
    }
}

impl FromSpecImpl<u8> for Json {
    open spec fn obeys_from_spec() -> bool {
        false
    }

    open spec fn from_spec(value: u8) -> Json {
        choose|json: Json| json@ == JsonValue::Number(signed_decimal(value as int))
    }
}

} // verus!
