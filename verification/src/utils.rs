//! The JSON type name of a value.
use vstd::prelude::*;
use crate::types::JsonValue;

verus! {

/// The name of the JSON type of `v`: `null`, `boolean`, `number`, `string`,
/// `array` or `object`.
pub open spec fn json_type_name(v: JsonValue) -> Seq<char> {
    match v {
        JsonValue::Null => seq!['n', 'u', 'l', 'l'],
        JsonValue::Bool(_) => seq!['b', 'o', 'o', 'l', 'e', 'a', 'n'],
        JsonValue::Number(_) => seq!['n', 'u', 'm', 'b', 'e', 'r'],
        JsonValue::String(_) => seq!['s', 't', 'r', 'i', 'n', 'g'],
        JsonValue::Array(_) => seq!['a', 'r', 'r', 'a', 'y'],
        JsonValue::Object(_) => seq!['o', 'b', 'j', 'e', 'c', 't'],
    }
}

/// The name of the JSON type of `value`.
pub fn get_value_type(value: &JsonValue) -> (r: &'static str)
    ensures
        r@ == json_type_name(*value),
{
    match value {
        JsonValue::Null => {
            proof {
                reveal_strlit("null");
            }
            "null"
        },
        JsonValue::Bool(_) => {
            proof {
                reveal_strlit("boolean");
            }
            "boolean"
        },
        JsonValue::Number(_) => {
            proof {
                reveal_strlit("number");
            }
            "number"
        },
        JsonValue::String(_) => {
            proof {
                reveal_strlit("string");
            }
            "string"
        },
        JsonValue::Array(_) => {
            proof {
                reveal_strlit("array");
            }
            "array"
        },
        JsonValue::Object(_) => {
            proof {
                reveal_strlit("object");
            }
            "object"
        },
    }
}

} // verus!
