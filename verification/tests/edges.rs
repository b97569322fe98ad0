use compare_json::{
    compare_json, ArrayCompareMethod, CompareOptions, DiffType, JsonNumber, JsonString, JsonValue,
    PathBelongsTo,
};

fn k(x: f64) -> u64 {
    if x == 0.0 {
        0
    } else {
        x.to_bits()
    }
}

fn i(n: i64) -> JsonValue {
    JsonValue::Number(JsonNumber { integer: Some(n as i128), f64_key: k(n as f64) })
}

fn u(n: u64) -> JsonValue {
    JsonValue::Number(JsonNumber { integer: Some(n as i128), f64_key: k(n as f64) })
}

fn f(x: f64) -> JsonValue {
    JsonValue::Number(JsonNumber { integer: None, f64_key: k(x) })
}

fn s(x: &str) -> JsonValue {
    JsonValue::String(JsonString { text: x.to_string(), f64_key: x.parse::<f64>().ok().map(k) })
}

fn o(members: Vec<(&str, JsonValue)>) -> JsonValue {
    let mut members: Vec<(String, JsonValue)> =
        members.into_iter().map(|(a, b)| (a.to_string(), b)).collect();
    members.sort_by(|a, b| a.0.cmp(&b.0));
    JsonValue::Object(members)
}

fn kinds(base: &JsonValue, contrast: &JsonValue, opts: &CompareOptions) -> Vec<(String, PathBelongsTo, DiffType)> {
    compare_json(base, contrast, opts)
        .into_iter()
        .map(|d| (d.path_string, d.path_belongs_to, d.diff_type))
        .collect()
}

#[test]
fn integer_and_float_of_the_same_value_are_equal() {
    let opts = CompareOptions::default();
    assert!(compare_json(&i(1), &f(1.0), &opts).is_empty());
    assert!(compare_json(&f(-0.0), &i(0), &opts).is_empty());
    assert_eq!(kinds(&f(1.5), &i(1), &opts), vec![(String::new(), PathBelongsTo::Both, DiffType::ValueChanged)]);
}

#[test]
fn large_integers_compare_exactly_but_floats_round() {
    let opts = CompareOptions::default();
    // 2^53 + 1 and 2^53 are different integers...
    assert_eq!(
        kinds(&u(9007199254740993), &u(9007199254740992), &opts),
        vec![(String::new(), PathBelongsTo::Both, DiffType::ValueChanged)]
    );
    // ... but against a double they are compared as doubles.
    assert!(compare_json(&u(9007199254740993), &f(9007199254740992.0), &opts).is_empty());
    assert!(compare_json(&u(u64::MAX), &u(u64::MAX), &opts).is_empty());
    assert!(compare_json(&i(i64::MIN), &i(i64::MIN), &opts).is_empty());
}

#[test]
fn numeric_strings_need_the_option() {
    let off = CompareOptions::default();
    let on = CompareOptions { numeric_string_equals_number: true, ..Default::default() };
    assert_eq!(kinds(&s("1"), &i(1), &off), vec![(String::new(), PathBelongsTo::Both, DiffType::TypeChanged)]);
    assert!(compare_json(&s("1.0"), &i(1), &on).is_empty());
    assert!(compare_json(&s("-0"), &i(0), &on).is_empty());
    assert!(compare_json(&s("1e2"), &i(100), &on).is_empty());
    assert_eq!(kinds(&s("NaN"), &f(1.0), &on), vec![(String::new(), PathBelongsTo::Both, DiffType::TypeChanged)]);
    assert_eq!(kinds(&s(" 1"), &i(1), &on), vec![(String::new(), PathBelongsTo::Both, DiffType::TypeChanged)]);
    assert_eq!(kinds(&s(""), &i(0), &on), vec![(String::new(), PathBelongsTo::Both, DiffType::TypeChanged)]);
    // Two strings are compared as text, numeric or not.
    assert_eq!(kinds(&s("1"), &s("1.0"), &on), vec![(String::new(), PathBelongsTo::Both, DiffType::ValueChanged)]);
}

#[test]
fn type_changes_between_containers_and_scalars() {
    let opts = CompareOptions::default();
    let both = vec![(String::new(), PathBelongsTo::Both, DiffType::TypeChanged)];
    assert_eq!(kinds(&JsonValue::Null, &o(vec![]), &opts), both);
    assert_eq!(kinds(&JsonValue::Array(vec![]), &o(vec![]), &opts), both);
    assert_eq!(kinds(&JsonValue::Bool(true), &i(1), &opts), both);
    assert_eq!(
        kinds(&JsonValue::Bool(true), &JsonValue::Bool(false), &opts),
        vec![(String::new(), PathBelongsTo::Both, DiffType::ValueChanged)]
    );
}

#[test]
fn value_case_applies_to_strings_only() {
    let opts = CompareOptions { value_case_insensitive: true, ..Default::default() };
    // Keys still match by case.
    assert_eq!(
        kinds(&o(vec![("A", s("x"))]), &o(vec![("a", s("X"))]), &opts),
        vec![
            ("A".to_string(), PathBelongsTo::Base, DiffType::Deleted),
            ("a".to_string(), PathBelongsTo::Contrast, DiffType::Added),
        ]
    );
    assert!(compare_json(&s("STRASSE"), &s("strasse"), &opts).is_empty());
}

#[test]
fn key_case_pairs_keys_but_reports_the_base_key() {
    let opts = CompareOptions { key_case_insensitive: true, ..Default::default() };
    assert_eq!(
        kinds(&o(vec![("User", o(vec![("Age", i(1))]))]), &o(vec![("user", o(vec![("age", i(2))]))]), &opts),
        vec![("User.Age".to_string(), PathBelongsTo::Both, DiffType::ValueChanged)]
    );
    // Values still compare by case.
    assert_eq!(
        kinds(&o(vec![("k", s("A"))]), &o(vec![("K", s("a"))]), &opts),
        vec![("k".to_string(), PathBelongsTo::Both, DiffType::ValueChanged)]
    );
}

#[test]
fn key_case_with_two_variants_on_one_side() {
    let opts = CompareOptions { key_case_insensitive: true, ..Default::default() };
    // Base "A" takes contrast "a"; base "a" finds no free partner.
    assert_eq!(
        kinds(&o(vec![("A", i(1)), ("a", i(1))]), &o(vec![("a", i(1))]), &opts),
        vec![("a".to_string(), PathBelongsTo::Base, DiffType::Deleted)]
    );
    // The other way round, the extra contrast key has a base key of the same
    // case-folded form and is not reported.
    assert!(compare_json(&o(vec![("a", i(1))]), &o(vec![("A", i(1)), ("a", i(1))]), &opts).is_empty());
}

#[test]
fn by_index_reports_pairs_then_deletions_then_additions() {
    let opts = CompareOptions { array_compare_method: Some(ArrayCompareMethod::ByIndex), ..Default::default() };
    assert_eq!(
        kinds(&JsonValue::Array(vec![i(1), i(2), i(3)]), &JsonValue::Array(vec![i(9)]), &opts),
        vec![
            ("[0]".to_string(), PathBelongsTo::Both, DiffType::ValueChanged),
            ("[1]".to_string(), PathBelongsTo::Base, DiffType::Deleted),
            ("[2]".to_string(), PathBelongsTo::Base, DiffType::Deleted),
        ]
    );
    let many: Vec<JsonValue> = (0..12).map(i).collect();
    let fewer: Vec<JsonValue> = (0..10).map(i).collect();
    assert_eq!(
        kinds(&JsonValue::Array(fewer), &JsonValue::Array(many), &opts),
        vec![
            ("[10]".to_string(), PathBelongsTo::Contrast, DiffType::Added),
            ("[11]".to_string(), PathBelongsTo::Contrast, DiffType::Added),
        ]
    );
}

#[test]
fn members_are_reported_in_key_order_then_added_ones() {
    let opts = CompareOptions::default();
    assert_eq!(
        kinds(&o(vec![("b", i(1)), ("a", i(1)), ("c", i(1))]), &o(vec![("d", i(1)), ("b", i(2))]), &opts),
        vec![
            ("a".to_string(), PathBelongsTo::Base, DiffType::Deleted),
            ("b".to_string(), PathBelongsTo::Both, DiffType::ValueChanged),
            ("c".to_string(), PathBelongsTo::Base, DiffType::Deleted),
            ("d".to_string(), PathBelongsTo::Contrast, DiffType::Added),
        ]
    );
}

#[test]
fn difference_names() {
    assert_eq!(DiffType::Added.to_string(), "added");
    assert_eq!(DiffType::Deleted.to_string(), "deleted");
    assert_eq!(DiffType::TypeChanged.to_string(), "typeChanged");
    assert_eq!(DiffType::ValueChanged.to_string(), "valueChanged");
    assert_eq!(PathBelongsTo::Base.to_string(), "base");
    assert_eq!(PathBelongsTo::Contrast.to_string(), "contrast");
    assert_eq!(PathBelongsTo::Both.to_string(), "both");
}

#[test]
fn default_options_are_all_off() {
    let opts = CompareOptions::default();
    assert!(opts.array_compare_method.is_none());
    assert!(!opts.key_case_insensitive);
    assert!(!opts.value_case_insensitive);
    assert!(!opts.numeric_string_equals_number);
}

#[test]
fn case_folding_is_unicode_aware() {
    let values = CompareOptions { value_case_insensitive: true, ..Default::default() };
    assert!(compare_json(&s("\u{c9}T\u{c9}"), &s("\u{e9}t\u{e9}"), &values).is_empty());
    let keys = CompareOptions { key_case_insensitive: true, ..Default::default() };
    assert!(compare_json(&o(vec![("\u{c4}rger", i(1))]), &o(vec![("\u{e4}rger", i(1))]), &keys).is_empty());
    let plain = CompareOptions::default();
    assert_eq!(
        kinds(&o(vec![("\u{c4}rger", i(1))]), &o(vec![("\u{e4}rger", i(1))]), &plain),
        vec![
            ("\u{c4}rger".to_string(), PathBelongsTo::Base, DiffType::Deleted),
            ("\u{e4}rger".to_string(), PathBelongsTo::Contrast, DiffType::Added),
        ]
    );
}
