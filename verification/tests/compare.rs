use compare_json::{
    compare_json, ArrayCompareMethod, CompareOptions, DiffType, JsonNumber, JsonString, JsonValue,
    PathBelongsTo,
};

/// The key of a double: its bits, with negative zero folded into zero.
fn key_of(x: f64) -> u64 {
    if x == 0.0 {
        0
    } else {
        x.to_bits()
    }
}

fn integer(n: i64) -> JsonValue {
    JsonValue::Number(JsonNumber { integer: Some(n as i128), f64_key: key_of(n as f64) })
}

fn float(x: f64) -> JsonValue {
    JsonValue::Number(JsonNumber { integer: None, f64_key: key_of(x) })
}

fn text(s: &str) -> JsonValue {
    JsonValue::String(JsonString {
        text: s.to_string(),
        f64_key: s.parse::<f64>().ok().map(key_of),
    })
}

fn boolean(b: bool) -> JsonValue {
    JsonValue::Bool(b)
}

fn null() -> JsonValue {
    JsonValue::Null
}

fn array(items: Vec<JsonValue>) -> JsonValue {
    JsonValue::Array(items)
}

/// An object with its members in key order, as a `serde_json` map walks them.
fn object(members: Vec<(&str, JsonValue)>) -> JsonValue {
    let mut members: Vec<(String, JsonValue)> =
        members.into_iter().map(|(k, v)| (k.to_string(), v)).collect();
    members.sort_by(|a, b| a.0.cmp(&b.0));
    JsonValue::Object(members)
}

fn lcs() -> CompareOptions {
    CompareOptions { array_compare_method: Some(ArrayCompareMethod::Lcs), ..Default::default() }
}

fn unordered() -> CompareOptions {
    CompareOptions { array_compare_method: Some(ArrayCompareMethod::Unordered), ..Default::default() }
}

#[test]
fn test_same_values() {
    let opts = CompareOptions::default();
    assert!(compare_json(&text("test"), &text("test"), &opts).is_empty());
    assert!(compare_json(&integer(123), &integer(123), &opts).is_empty());
    assert!(compare_json(&boolean(true), &boolean(true), &opts).is_empty());
    assert!(compare_json(&null(), &null(), &opts).is_empty());
}

#[test]
fn test_value_changes() {
    let opts = CompareOptions::default();
    let diffs = compare_json(&text("old"), &text("new"), &opts);
    assert_eq!(diffs.len(), 1);
    assert_eq!(diffs[0].path_string, "");
    assert_eq!(diffs[0].path_belongs_to, PathBelongsTo::Both);
    assert_eq!(diffs[0].diff_type, DiffType::ValueChanged);
}

#[test]
fn test_type_changes() {
    let opts = CompareOptions::default();
    let diffs = compare_json(&text("string"), &integer(123), &opts);
    assert_eq!(diffs.len(), 1);
    assert_eq!(diffs[0].path_belongs_to, PathBelongsTo::Both);
    assert_eq!(diffs[0].diff_type, DiffType::TypeChanged);
}

#[test]
fn test_object_deleted_keys() {
    let opts = CompareOptions::default();
    let diffs = compare_json(
        &object(vec![("a", integer(1)), ("b", integer(2))]),
        &object(vec![("a", integer(1))]),
        &opts,
    );
    assert_eq!(diffs.len(), 1);
    assert_eq!(diffs[0].path_string, "b");
    assert_eq!(diffs[0].path_belongs_to, PathBelongsTo::Base);
    assert_eq!(diffs[0].diff_type, DiffType::Deleted);
}

#[test]
fn test_object_added_keys() {
    let opts = CompareOptions::default();
    let diffs = compare_json(
        &object(vec![("a", integer(1))]),
        &object(vec![("a", integer(1)), ("b", integer(2))]),
        &opts,
    );
    assert_eq!(diffs.len(), 1);
    assert_eq!(diffs[0].path_string, "b");
    assert_eq!(diffs[0].path_belongs_to, PathBelongsTo::Contrast);
    assert_eq!(diffs[0].diff_type, DiffType::Added);
}

#[test]
fn test_nested_object_value_changes() {
    let opts = CompareOptions::default();
    let diffs = compare_json(
        &object(vec![("nested", object(vec![("value", text("old"))]))]),
        &object(vec![("nested", object(vec![("value", text("new"))]))]),
        &opts,
    );
    assert_eq!(diffs.len(), 1);
    assert_eq!(diffs[0].path_string, "nested.value");
    assert_eq!(diffs[0].path_belongs_to, PathBelongsTo::Both);
    assert_eq!(diffs[0].diff_type, DiffType::ValueChanged);
}

#[test]
fn test_array_deleted_elements() {
    let opts = CompareOptions::default();
    let diffs = compare_json(&array(vec![integer(1), integer(2), integer(3)]), &array(vec![integer(1), integer(2)]), &opts);
    assert_eq!(diffs.len(), 1);
    assert_eq!(diffs[0].path_string, "[2]");
    assert_eq!(diffs[0].path_belongs_to, PathBelongsTo::Base);
    assert_eq!(diffs[0].diff_type, DiffType::Deleted);
}

#[test]
fn test_array_added_elements() {
    let opts = CompareOptions::default();
    let diffs = compare_json(&array(vec![integer(1), integer(2)]), &array(vec![integer(1), integer(2), integer(3)]), &opts);
    assert_eq!(diffs.len(), 1);
    assert_eq!(diffs[0].path_string, "[2]");
    assert_eq!(diffs[0].path_belongs_to, PathBelongsTo::Contrast);
    assert_eq!(diffs[0].diff_type, DiffType::Added);
}

#[test]
fn test_array_value_changes() {
    let opts = CompareOptions::default();
    let diffs = compare_json(
        &array(vec![integer(1), text("old"), boolean(true)]),
        &array(vec![integer(1), text("new"), boolean(true)]),
        &opts,
    );
    assert_eq!(diffs.len(), 1);
    assert_eq!(diffs[0].path_string, "[1]");
    assert_eq!(diffs[0].path_belongs_to, PathBelongsTo::Both);
    assert_eq!(diffs[0].diff_type, DiffType::ValueChanged);
}

#[test]
fn test_nested_arrays() {
    let opts = CompareOptions::default();
    let diffs = compare_json(
        &array(vec![array(vec![integer(1), integer(2)]), array(vec![integer(3), integer(4)])]),
        &array(vec![array(vec![integer(1), integer(2)]), array(vec![integer(3), text("5")])]),
        &opts,
    );
    assert_eq!(diffs.len(), 1);
    assert_eq!(diffs[0].path_string, "[1][1]");
    assert_eq!(diffs[0].path_belongs_to, PathBelongsTo::Both);
    assert_eq!(diffs[0].diff_type, DiffType::TypeChanged);
}

#[test]
fn test_lcs_shifted_arrays() {
    let opts = lcs();
    let diffs = compare_json(
        &array(vec![text("a"), text("b"), text("c")]),
        &array(vec![text("b"), text("c"), text("d")]),
        &opts,
    );
    assert_eq!(diffs.len(), 2);
    assert_eq!(diffs[0].path_string, "[0]");
    assert_eq!(diffs[0].path_belongs_to, PathBelongsTo::Base);
    assert_eq!(diffs[0].diff_type, DiffType::Deleted);
    assert_eq!(diffs[1].path_string, "[2]");
    assert_eq!(diffs[1].path_belongs_to, PathBelongsTo::Contrast);
    assert_eq!(diffs[1].diff_type, DiffType::Added);
}

#[test]
fn test_lcs_identical_arrays() {
    let opts = lcs();
    assert!(compare_json(&array(vec![integer(1), integer(2), integer(3)]), &array(vec![integer(1), integer(2), integer(3)]), &opts).is_empty());
}

#[test]
fn test_lcs_empty_arrays() {
    let opts = lcs();
    assert!(compare_json(&array(vec![]), &array(vec![]), &opts).is_empty());
}

#[test]
fn test_lcs_no_common_elements() {
    let opts = lcs();
    let diffs = compare_json(&array(vec![integer(1), integer(2), integer(3)]), &array(vec![integer(4), integer(5), integer(6)]), &opts);
    assert_eq!(diffs.len(), 6);
}

#[test]
fn test_lcs_objects_in_arrays() {
    let opts = lcs();
    let diffs = compare_json(
        &array(vec![object(vec![("id", integer(1))]), object(vec![("id", integer(2))]), object(vec![("id", integer(3))])]),
        &array(vec![object(vec![("id", integer(2))]), object(vec![("id", integer(3))]), object(vec![("id", integer(4))])]),
        &opts,
    );
    assert_eq!(diffs.len(), 2);
    assert_eq!(diffs[0].path_string, "[0]");
    assert_eq!(diffs[0].path_belongs_to, PathBelongsTo::Base);
    assert_eq!(diffs[1].path_string, "[2]");
    assert_eq!(diffs[1].path_belongs_to, PathBelongsTo::Contrast);
}

#[test]
fn test_lcs_extra_middle_element() {
    let opts = lcs();
    let diffs = compare_json(
        &array(vec![text("a"), text("x"), text("b")]),
        &array(vec![text("a"), text("b")]),
        &opts,
    );
    assert_eq!(diffs.len(), 1);
    assert_eq!(diffs[0].path_string, "[1]");
    assert_eq!(diffs[0].path_belongs_to, PathBelongsTo::Base);
    assert_eq!(diffs[0].diff_type, DiffType::Deleted);
}

#[test]
fn test_unordered_reordered_equal() {
    let opts = unordered();
    assert!(compare_json(
        &array(vec![text("a"), text("b"), text("c")]),
        &array(vec![text("c"), text("b"), text("a")]),
        &opts
    )
    .is_empty());
}

#[test]
fn test_unordered_added_deleted() {
    let opts = unordered();
    let diffs = compare_json(
        &array(vec![text("a"), text("b"), text("c")]),
        &array(vec![text("a"), text("c"), text("d")]),
        &opts,
    );
    assert_eq!(diffs.len(), 2);
    assert_eq!(diffs[0].path_belongs_to, PathBelongsTo::Base);
    assert_eq!(diffs[0].diff_type, DiffType::Deleted);
    assert_eq!(diffs[1].path_belongs_to, PathBelongsTo::Contrast);
    assert_eq!(diffs[1].diff_type, DiffType::Added);
}

#[test]
fn test_unordered_duplicates() {
    let opts = unordered();
    let diffs = compare_json(
        &array(vec![text("a"), text("a"), text("b")]),
        &array(vec![text("a"), text("b"), text("b")]),
        &opts,
    );
    assert_eq!(diffs.len(), 2);
}

#[test]
fn test_unordered_objects() {
    let opts = unordered();
    assert!(compare_json(
        &array(vec![object(vec![("id", integer(1))]), object(vec![("id", integer(2))]), object(vec![("id", integer(3))])]),
        &array(vec![object(vec![("id", integer(3))]), object(vec![("id", integer(1))]), object(vec![("id", integer(2))])]),
        &opts,
    )
    .is_empty());
}

#[test]
fn test_value_case_insensitive() {
    let opts = CompareOptions { value_case_insensitive: true, ..Default::default() };
    assert!(compare_json(&text("Hello"), &text("hello"), &opts).is_empty());
    let diffs = compare_json(&text("hello"), &text("world"), &opts);
    assert_eq!(diffs.len(), 1);
    assert_eq!(diffs[0].diff_type, DiffType::ValueChanged);
}

#[test]
fn test_value_case_insensitive_in_objects() {
    let opts = CompareOptions { value_case_insensitive: true, ..Default::default() };
    assert!(compare_json(
        &object(vec![("name", text("Alice"))]),
        &object(vec![("name", text("alice"))]),
        &opts
    )
    .is_empty());
}

#[test]
fn test_value_case_insensitive_in_arrays() {
    let opts = CompareOptions { value_case_insensitive: true, ..Default::default() };
    assert!(compare_json(
        &array(vec![text("Hello"), text("World")]),
        &array(vec![text("hello"), text("world")]),
        &opts
    )
    .is_empty());
}

#[test]
fn test_key_case_insensitive() {
    let opts = CompareOptions { key_case_insensitive: true, ..Default::default() };
    assert!(compare_json(
        &object(vec![("Name", text("Alice"))]),
        &object(vec![("name", text("Alice"))]),
        &opts
    )
    .is_empty());
}

#[test]
fn test_key_case_insensitive_nested() {
    let opts = CompareOptions { key_case_insensitive: true, ..Default::default() };
    assert!(compare_json(
        &object(vec![("User", object(vec![("Name", text("Alice"))]))]),
        &object(vec![("user", object(vec![("name", text("Alice"))]))]),
        &opts,
    )
    .is_empty());
}

#[test]
fn test_key_case_insensitive_deleted() {
    let opts = CompareOptions { key_case_insensitive: true, ..Default::default() };
    let diffs = compare_json(
        &object(vec![("a", integer(1)), ("B", integer(2))]),
        &object(vec![("A", integer(1))]),
        &opts,
    );
    assert_eq!(diffs.len(), 1);
    assert_eq!(diffs[0].path_string, "B");
    assert_eq!(diffs[0].path_belongs_to, PathBelongsTo::Base);
    assert_eq!(diffs[0].diff_type, DiffType::Deleted);
}

#[test]
fn test_key_case_insensitive_added() {
    let opts = CompareOptions { key_case_insensitive: true, ..Default::default() };
    let diffs = compare_json(
        &object(vec![("a", integer(1))]),
        &object(vec![("A", integer(1)), ("b", integer(2))]),
        &opts,
    );
    assert_eq!(diffs.len(), 1);
    assert_eq!(diffs[0].path_string, "b");
    assert_eq!(diffs[0].path_belongs_to, PathBelongsTo::Contrast);
    assert_eq!(diffs[0].diff_type, DiffType::Added);
}

#[test]
fn test_numeric_string_equals_number() {
    let opts = CompareOptions { numeric_string_equals_number: true, ..Default::default() };
    assert!(compare_json(&text("123"), &integer(123), &opts).is_empty());
    assert!(compare_json(&integer(456), &text("456"), &opts).is_empty());
}

#[test]
fn test_numeric_string_non_numeric() {
    let opts = CompareOptions { numeric_string_equals_number: true, ..Default::default() };
    let diffs = compare_json(&text("abc"), &integer(123), &opts);
    assert_eq!(diffs.len(), 1);
    assert_eq!(diffs[0].diff_type, DiffType::TypeChanged);
}

#[test]
fn test_numeric_string_float() {
    let opts = CompareOptions { numeric_string_equals_number: true, ..Default::default() };
    assert!(compare_json(&text("3.14"), &float(3.14), &opts).is_empty());
}

#[test]
fn test_numeric_string_negative() {
    let opts = CompareOptions { numeric_string_equals_number: true, ..Default::default() };
    assert!(compare_json(&text("-42"), &integer(-42), &opts).is_empty());
}

#[test]
fn test_numeric_string_in_objects() {
    let opts = CompareOptions { numeric_string_equals_number: true, ..Default::default() };
    assert!(compare_json(
        &object(vec![("count", text("100"))]),
        &object(vec![("count", integer(100))]),
        &opts
    )
    .is_empty());
}

#[test]
fn test_numeric_string_in_arrays() {
    let opts = CompareOptions { numeric_string_equals_number: true, ..Default::default() };
    assert!(compare_json(
        &array(vec![text("1"), text("2"), text("3")]),
        &array(vec![integer(1), integer(2), integer(3)]),
        &opts
    )
    .is_empty());
}

#[test]
fn test_numeric_string_unordered() {
    let opts = CompareOptions {
        numeric_string_equals_number: true,
        array_compare_method: Some(ArrayCompareMethod::Unordered),
        ..Default::default()
    };
    assert!(compare_json(
        &array(vec![text("1"), text("2"), text("3")]),
        &array(vec![integer(3), integer(2), integer(1)]),
        &opts
    )
    .is_empty());
}

#[test]
fn test_numeric_string_lcs() {
    let opts = CompareOptions {
        numeric_string_equals_number: true,
        array_compare_method: Some(ArrayCompareMethod::Lcs),
        ..Default::default()
    };
    let diffs = compare_json(
        &array(vec![text("1"), text("2"), text("3")]),
        &array(vec![integer(2), integer(3), integer(4)]),
        &opts,
    );
    assert_eq!(diffs.len(), 2);
    assert_eq!(diffs[0].path_string, "[0]");
    assert_eq!(diffs[0].path_belongs_to, PathBelongsTo::Base);
    assert_eq!(diffs[1].path_string, "[2]");
    assert_eq!(diffs[1].path_belongs_to, PathBelongsTo::Contrast);
}
