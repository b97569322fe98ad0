use compare_json::{
    get_value_type, is_index_segment, path_segments_to_string, JsonNumber, JsonString, JsonValue,
};

fn number_key(x: f64) -> u64 {
    if x == 0.0 {
        0
    } else {
        x.to_bits()
    }
}

#[test]
fn get_value_type_covers_all_variants() {
    assert_eq!(get_value_type(&JsonValue::Null), "null");
    assert_eq!(get_value_type(&JsonValue::Bool(true)), "boolean");
    assert_eq!(
        get_value_type(&JsonValue::Number(JsonNumber { integer: Some(1), f64_key: number_key(1.0) })),
        "number"
    );
    assert_eq!(
        get_value_type(&JsonValue::Number(JsonNumber { integer: None, f64_key: number_key(1.5) })),
        "number"
    );
    assert_eq!(
        get_value_type(&JsonValue::String(JsonString { text: "s".to_string(), f64_key: None })),
        "string"
    );
    assert_eq!(get_value_type(&JsonValue::Array(vec![])), "array");
    assert_eq!(get_value_type(&JsonValue::Object(vec![])), "object");
}

#[test]
fn path_segments_to_string_formats_paths() {
    assert_eq!(path_segments_to_string(&[]), "");
    assert_eq!(path_segments_to_string(&["a".to_string()]), "a");
    assert_eq!(
        path_segments_to_string(&["users".to_string(), "[0]".to_string(), "name".to_string()]),
        "users[0].name"
    );
    assert_eq!(
        path_segments_to_string(&[
            "root".to_string(),
            "[123]".to_string(),
            "key".to_string(),
            "456".to_string(),
            "subkey".to_string()
        ]),
        "root[123].key.456.subkey"
    );
}

#[test]
fn index_segments_need_digits_between_brackets() {
    assert!(is_index_segment("[0]"));
    assert!(is_index_segment("[12]"));
    assert!(!is_index_segment("[]"));
    assert!(!is_index_segment("[x]"));
    assert!(!is_index_segment("[1][2]"));
    assert!(!is_index_segment("["));
    assert!(!is_index_segment("[\u{0661}]"));
    assert!(!is_index_segment("0"));
}

#[test]
fn non_index_bracket_keys_get_a_dot() {
    assert_eq!(
        path_segments_to_string(&["a".to_string(), "[]".to_string(), "[x]".to_string(), "[1][2]".to_string()]),
        "a.[].[x].[1][2]"
    );
    assert_eq!(path_segments_to_string(&["[3]".to_string(), "[4]".to_string()]), "[3][4]");
}
