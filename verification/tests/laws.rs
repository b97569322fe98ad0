use compare_json::{
    compare_json, path_segments_to_string, ArrayCompareMethod, CompareOptions, DiffType, JsonNumber,
    JsonString, JsonValue, PathBelongsTo,
};

fn fkey(x: f64) -> u64 {
    if x == 0.0 {
        0
    } else {
        x.to_bits()
    }
}

fn num(n: i64) -> JsonValue {
    JsonValue::Number(JsonNumber { integer: Some(n as i128), f64_key: fkey(n as f64) })
}

fn big(n: u64) -> JsonValue {
    JsonValue::Number(JsonNumber { integer: Some(n as i128), f64_key: fkey(n as f64) })
}

fn dbl(x: f64) -> JsonValue {
    JsonValue::Number(JsonNumber { integer: None, f64_key: fkey(x) })
}

fn st(s: &str) -> JsonValue {
    JsonValue::String(JsonString { text: s.to_string(), f64_key: s.parse::<f64>().ok().map(fkey) })
}

fn arr(items: Vec<JsonValue>) -> JsonValue {
    JsonValue::Array(items)
}

fn obj(members: Vec<(&str, JsonValue)>) -> JsonValue {
    let mut members: Vec<(String, JsonValue)> =
        members.into_iter().map(|(k, v)| (k.to_string(), v)).collect();
    members.sort_by(|a, b| a.0.cmp(&b.0));
    JsonValue::Object(members)
}

fn sample() -> JsonValue {
    obj(vec![
        ("Name", st("Alice")),
        ("name", st("alice")),
        ("age", num(30)),
        ("ratio", dbl(0.5)),
        ("tags", arr(vec![st("x"), st("X"), st("1"), num(1), JsonValue::Null])),
        ("nested", obj(vec![("deep", arr(vec![obj(vec![("k", JsonValue::Bool(false))]), arr(vec![])]))])),
    ])
}

fn all_options() -> Vec<CompareOptions> {
    let mut out = Vec::new();
    for method in [None, Some(ArrayCompareMethod::ByIndex), Some(ArrayCompareMethod::Lcs), Some(ArrayCompareMethod::Unordered)] {
        for bits in 0..8u8 {
            out.push(CompareOptions {
                array_compare_method: method,
                key_case_insensitive: bits & 1 != 0,
                value_case_insensitive: bits & 2 != 0,
                numeric_string_equals_number: bits & 4 != 0,
            });
        }
    }
    out
}

#[test]
fn a_value_compared_with_itself_shows_no_difference() {
    for opts in all_options() {
        assert!(compare_json(&sample(), &sample(), &opts).is_empty());
    }
}

#[test]
fn entries_carry_consistent_sides_and_strings() {
    let base = obj(vec![
        ("a", num(1)),
        ("b", arr(vec![num(1), num(2), num(3)])),
        ("c", st("x")),
        ("d", obj(vec![("e", JsonValue::Null)])),
    ]);
    let contrast = obj(vec![
        ("a", st("1")),
        ("b", arr(vec![num(2), num(3), num(4), num(5)])),
        ("d", obj(vec![("e", num(0)), ("f", num(1))])),
        ("g", JsonValue::Bool(true)),
    ]);
    for opts in all_options() {
        let diffs = compare_json(&base, &contrast, &opts);
        assert!(!diffs.is_empty());
        for d in &diffs {
            let side = match d.diff_type {
                DiffType::Added => PathBelongsTo::Contrast,
                DiffType::Deleted => PathBelongsTo::Base,
                _ => PathBelongsTo::Both,
            };
            assert_eq!(d.path_belongs_to, side);
            assert_eq!(d.path_string, path_segments_to_string(&d.path_segments));
            if d.diff_type == DiffType::Added || d.diff_type == DiffType::Deleted {
                assert!(!d.path_segments.is_empty());
            }
        }
    }
}

#[test]
fn lcs_reports_a_minimal_difference() {
    let opts = CompareOptions { array_compare_method: Some(ArrayCompareMethod::Lcs), ..Default::default() };
    // Longest common subsequence of [a b c d] and [b d a] has length 2.
    let diffs = compare_json(
        &arr(vec![st("a"), st("b"), st("c"), st("d")]),
        &arr(vec![st("b"), st("d"), st("a")]),
        &opts,
    );
    assert_eq!(diffs.len(), 4 + 3 - 2 * 2);
    let rendered: Vec<(String, DiffType)> = diffs.iter().map(|d| (d.path_string.clone(), d.diff_type)).collect();
    assert_eq!(
        rendered,
        vec![
            ("[0]".to_string(), DiffType::Deleted),
            ("[2]".to_string(), DiffType::Deleted),
            ("[2]".to_string(), DiffType::Added),
        ]
    );
}

#[test]
fn lcs_ties_step_back_in_the_contrast() {
    let opts = CompareOptions { array_compare_method: Some(ArrayCompareMethod::Lcs), ..Default::default() };
    // [a b] against [b a]: both single elements are longest; on the tie the
    // walk back steps in the contrast and keeps `b`, deleting base [0] and
    // adding contrast [1].
    let diffs = compare_json(&arr(vec![st("a"), st("b")]), &arr(vec![st("b"), st("a")]), &opts);
    let rendered: Vec<(String, DiffType)> = diffs.iter().map(|d| (d.path_string.clone(), d.diff_type)).collect();
    assert_eq!(rendered, vec![("[0]".to_string(), DiffType::Deleted), ("[1]".to_string(), DiffType::Added)]);
}

#[test]
fn unordered_leaves_no_equal_pair_unmatched() {
    let opts = CompareOptions { array_compare_method: Some(ArrayCompareMethod::Unordered), ..Default::default() };
    let diffs = compare_json(&arr(vec![num(1), num(2), num(2)]), &arr(vec![num(2), num(3), num(1)]), &opts);
    let rendered: Vec<(String, DiffType)> = diffs.iter().map(|d| (d.path_string.clone(), d.diff_type)).collect();
    assert_eq!(rendered, vec![("[2]".to_string(), DiffType::Deleted), ("[1]".to_string(), DiffType::Added)]);
}

#[test]
fn array_positions_join_without_a_dot() {
    let opts = CompareOptions::default();
    let diffs = compare_json(
        &obj(vec![("items", arr(vec![num(0), num(1), num(2), num(3)]))]),
        &obj(vec![("items", arr(vec![num(0), num(1), num(2), num(4)]))]),
        &opts,
    );
    assert_eq!(diffs.len(), 1);
    assert_eq!(diffs[0].path_string, "items[3]");
    assert_eq!(diffs[0].path_segments, vec!["items".to_string(), "[3]".to_string()]);
}

#[test]
fn value_case_changes_nothing_without_strings() {
    let base = obj(vec![("a", num(1)), ("b", arr(vec![JsonValue::Bool(true), dbl(2.5)])), ("c", JsonValue::Null)]);
    let contrast = obj(vec![("a", st("1")), ("b", arr(vec![st("TRUE"), dbl(2.5), num(3)])), ("d", st("x"))]);
    for opts in all_options() {
        let mut flipped = opts;
        flipped.value_case_insensitive = !opts.value_case_insensitive;
        let one: Vec<(String, DiffType)> =
            compare_json(&base, &contrast, &opts).into_iter().map(|d| (d.path_string, d.diff_type)).collect();
        let other: Vec<(String, DiffType)> =
            compare_json(&base, &contrast, &flipped).into_iter().map(|d| (d.path_string, d.diff_type)).collect();
        assert_eq!(one, other);
    }
}

#[test]
fn unordered_ignores_any_reordering() {
    let opts = CompareOptions { array_compare_method: Some(ArrayCompareMethod::Unordered), ..Default::default() };
    let base = arr(vec![num(1), st("a"), num(1), obj(vec![("k", num(2))]), JsonValue::Null]);
    let contrast = arr(vec![JsonValue::Null, num(1), obj(vec![("k", num(2))]), st("a"), num(1)]);
    assert!(compare_json(&base, &contrast, &opts).is_empty());
}

#[test]
fn different_types_are_one_type_change() {
    let opts = CompareOptions::default();
    let diffs = compare_json(&obj(vec![("a", arr(vec![]))]), &obj(vec![("a", obj(vec![]))]), &opts);
    assert_eq!(diffs.len(), 1);
    assert_eq!(diffs[0].path_string, "a");
    assert_eq!(diffs[0].path_belongs_to, PathBelongsTo::Both);
    assert_eq!(diffs[0].diff_type, DiffType::TypeChanged);
}

#[test]
fn value_case_changes_nothing_where_strings_never_meet() {
    // A string base against non-strings, and strings against a side without strings.
    let base = obj(vec![("a", st("Yes")), ("b", arr(vec![st("X"), num(2)])), ("c", st("1"))]);
    let contrast = obj(vec![("a", num(1)), ("b", arr(vec![JsonValue::Bool(true), JsonValue::Null])), ("c", num(1))]);
    for opts in all_options() {
        let mut flipped = opts;
        flipped.value_case_insensitive = !opts.value_case_insensitive;
        let one: Vec<(String, DiffType)> =
            compare_json(&base, &contrast, &opts).into_iter().map(|d| (d.path_string, d.diff_type)).collect();
        let other: Vec<(String, DiffType)> =
            compare_json(&base, &contrast, &flipped).into_iter().map(|d| (d.path_string, d.diff_type)).collect();
        assert_eq!(one, other);
    }
}

#[test]
fn an_entry_at_the_root_comes_alone() {
    let opts = CompareOptions::default();
    for (base, contrast) in [
        (st("a"), num(1)),
        (st("a"), st("b")),
        (arr(vec![num(1)]), obj(vec![("a", num(1))])),
    ] {
        let diffs = compare_json(&base, &contrast, &opts);
        assert_eq!(diffs.len(), 1);
        assert!(diffs[0].path_segments.is_empty());
        assert!(diffs[0].diff_type == DiffType::TypeChanged || diffs[0].diff_type == DiffType::ValueChanged);
    }
    // Inside containers every entry lies below the root.
    let diffs = compare_json(&arr(vec![num(1), num(2)]), &arr(vec![st("1")]), &opts);
    assert_eq!(diffs.len(), 2);
    assert!(diffs.iter().all(|d| !d.path_segments.is_empty()));
}

#[test]
fn objects_compare_key_by_key() {
    let opts = CompareOptions::default();
    let base = obj(vec![
        ("a", num(1)),
        ("b", obj(vec![("x", num(1)), ("y", num(2))])),
        ("d", num(4)),
        ("e", st("same")),
    ]);
    let contrast = obj(vec![
        ("a", num(1)),
        ("b", obj(vec![("x", num(9)), ("z", num(3))])),
        ("c", num(5)),
        ("e", st("same")),
        ("f", JsonValue::Null),
    ]);
    let got: Vec<(String, PathBelongsTo, DiffType)> = compare_json(&base, &contrast, &opts)
        .into_iter()
        .map(|d| (d.path_string, d.path_belongs_to, d.diff_type))
        .collect();
    // Base members in key order (with what their values give), then the
    // contrast's extra keys in key order.
    let want = vec![
        ("b.x".to_string(), PathBelongsTo::Both, DiffType::ValueChanged),
        ("b.y".to_string(), PathBelongsTo::Base, DiffType::Deleted),
        ("b.z".to_string(), PathBelongsTo::Contrast, DiffType::Added),
        ("d".to_string(), PathBelongsTo::Base, DiffType::Deleted),
        ("c".to_string(), PathBelongsTo::Contrast, DiffType::Added),
        ("f".to_string(), PathBelongsTo::Contrast, DiffType::Added),
    ];
    assert_eq!(got, want);
}
