//! What a comparison reports, as mathematical functions of the two values
//! and the options.
use vstd::prelude::*;
use crate::types::{ArrayCompareMethod, CompareOptions, DiffEntry, DiffType, Difference, JsonNumber, JsonValue, PathBelongsTo, entry};
use crate::path::index_segment;
use crate::text::lowercase;
use crate::seqs::concat_map;
use crate::lcs::lcs_trace;
use crate::unordered::unordered_matching;

verus! {

/// Both values have the same JSON type.
pub open spec fn same_json_type(a: JsonValue, b: JsonValue) -> bool {
    match (a, b) {
        (JsonValue::Null, JsonValue::Null) => true,
        (JsonValue::Bool(_), JsonValue::Bool(_)) => true,
        (JsonValue::Number(_), JsonValue::Number(_)) => true,
        (JsonValue::String(_), JsonValue::String(_)) => true,
        (JsonValue::Array(_), JsonValue::Array(_)) => true,
        (JsonValue::Object(_), JsonValue::Object(_)) => true,
        _ => false,
    }
}

/// Numbers are equal by value: two integers exactly, and otherwise as
/// doubles.
pub open spec fn json_numbers_equal(a: JsonNumber, b: JsonNumber) -> bool {
    match (a.integer, b.integer) {
        (Some(x), Some(y)) => x == y,
        _ => a.f64_key == b.f64_key,
    }
}

/// A string on one side and a number on the other, where the string reads as
/// a double equal to the number.
pub open spec fn numeric_match(a: JsonValue, b: JsonValue) -> bool {
    match (a, b) {
        (JsonValue::String(s), JsonValue::Number(n)) => s.f64_key == Some(n.f64_key),
        (JsonValue::Number(n), JsonValue::String(s)) => s.f64_key == Some(n.f64_key),
        _ => false,
    }
}

/// Equality of two values of the same scalar type: strings ignore case when
/// `value_case_insensitive` is set, numbers compare by value.
pub open spec fn scalar_values_equal(a: JsonValue, b: JsonValue, o: CompareOptions) -> bool {
    match (a, b) {
        (JsonValue::String(x), JsonValue::String(y)) => if o.value_case_insensitive {
            lowercase(x.text@) == lowercase(y.text@)
        } else {
            x.text@ == y.text@
        },
        (JsonValue::Number(x), JsonValue::Number(y)) => json_numbers_equal(x, y),
        (JsonValue::Null, JsonValue::Null) => true,
        (JsonValue::Bool(x), JsonValue::Bool(y)) => x == y,
        _ => false,
    }
}

/// Whether two object keys pair up: equal, or equal once lower-cased.
pub open spec fn key_matches(a: Seq<char>, b: Seq<char>, ci: bool) -> bool {
    if ci {
        lowercase(a) == lowercase(b)
    } else {
        a == b
    }
}

/// The contrast member that base key `key` pairs with, looking from `j` on:
/// the first whose key matches, and, when keys ignore case, that no earlier
/// base key has taken.
pub open spec fn pick_target(
    t: Seq<(String, JsonValue)>,
    key: Seq<char>,
    matched: Seq<bool>,
    ci: bool,
    j: int,
) -> Option<int>
    decreases t.len() - j,
{
    if j < 0 || j >= t.len() {
        None
    } else if key_matches(t[j].0@, key, ci) && !(ci && matched[j]) {
        Some(j)
    } else {
        pick_target(t, key, matched, ci, j + 1)
    }
}

/// After the first `k` base members: the contrast member each one paired
/// with, and which contrast members are taken.
pub open spec fn match_state(s: Seq<(String, JsonValue)>, t: Seq<(String, JsonValue)>, ci: bool, k: int) -> (
    Seq<Option<int>>,
    Seq<bool>,
)
    decreases k,
{
    if k <= 0 {
        (seq![], Seq::new(t.len(), |j: int| false))
    } else {
        let prev = match_state(s, t, ci, k - 1);
        let p = pick_target(t, s[k - 1].0@, prev.1, ci, 0);
        (
            prev.0.push(p),
            match p {
                Some(j) => prev.1.update(j, true),
                None => prev.1,
            },
        )
    }
}

/// Some base key matches `key`.
pub open spec fn base_has_key(s: Seq<(String, JsonValue)>, key: Seq<char>, ci: bool) -> bool {
    exists|i: int| 0 <= i < s.len() && key_matches(#[trigger] s[i].0@, key, ci)
}

/// What base member `i` contributes: the differences of its value against
/// the paired contrast value, under its own key, or its deletion.
pub open spec fn member_entries(
    s: Seq<(String, JsonValue)>,
    t: Seq<(String, JsonValue)>,
    targets: Seq<Option<int>>,
    path: Seq<Seq<char>>,
    o: CompareOptions,
) -> spec_fn(int) -> Seq<DiffEntry>
    decreases s,
{
    |i: int|
        if 0 <= i < s.len() && i < targets.len() {
            let p = path.push(s[i].0@);
            match targets[i] {
                Some(j) => if 0 <= j < t.len() {
                    diffs_of(s[i].1, t[j].1, p, o)
                } else {
                    seq![]
                },
                None => seq![entry(p, PathBelongsTo::Base, DiffType::Deleted)],
            }
        } else {
            seq![]
        }
}

/// What contrast member `j` contributes: its addition, when no base member
/// took it and no base key matches it.
pub open spec fn added_member_entries(
    s: Seq<(String, JsonValue)>,
    t: Seq<(String, JsonValue)>,
    matched: Seq<bool>,
    path: Seq<Seq<char>>,
    ci: bool,
) -> spec_fn(int) -> Seq<DiffEntry> {
    |j: int|
        if 0 <= j < t.len() && j < matched.len() && !matched[j] && !base_has_key(s, t[j].0@, ci) {
            seq![entry(path.push(t[j].0@), PathBelongsTo::Contrast, DiffType::Added)]
        } else {
            seq![]
        }
}

/// The differences between two objects: base members in order, then added
/// contrast members in order.
pub open spec fn object_diffs_with(
    s: Seq<(String, JsonValue)>,
    t: Seq<(String, JsonValue)>,
    path: Seq<Seq<char>>,
    o: CompareOptions,
    members: spec_fn(int) -> Seq<DiffEntry>,
) -> Seq<DiffEntry> {
    let st = match_state(s, t, o.key_case_insensitive, s.len() as int);
    concat_map(s.len() as int, members) + concat_map(
        t.len() as int,
        added_member_entries(s, t, st.1, path, o.key_case_insensitive),
    )
}

/// Base element `i` and contrast element `j` show no difference.
pub open spec fn elem_eq(s: Seq<JsonValue>, t: Seq<JsonValue>, o: CompareOptions) -> spec_fn(int, int) -> bool
    decreases s,
{
    |i: int, j: int| 0 <= i < s.len() && 0 <= j < t.len() && diffs_of(s[i], t[j], seq![], o).len() == 0
}

/// The differences of the elements at position `i` of both arrays, under
/// that position's segment.
pub open spec fn pair_entries(s: Seq<JsonValue>, t: Seq<JsonValue>, path: Seq<Seq<char>>, o: CompareOptions) -> spec_fn(int) -> Seq<DiffEntry>
    decreases s,
{
    |i: int|
        if 0 <= i < s.len() && i < t.len() {
            diffs_of(s[i], t[i], path.push(index_segment(i as nat)), o)
        } else {
            seq![]
        }
}

/// One entry per position below `n` that `skip` does not exclude, under the
/// position's segment.
pub open spec fn position_entries(
    n: int,
    skip: spec_fn(int) -> bool,
    path: Seq<Seq<char>>,
    belongs: PathBelongsTo,
    kind: DiffType,
) -> Seq<DiffEntry> {
    concat_map(
        n,
        |i: int|
            if skip(i) {
                seq![]
            } else {
                seq![entry(path.push(index_segment(i as nat)), belongs, kind)]
            },
    )
}

/// Positions below `k`.
pub open spec fn below(k: int) -> spec_fn(int) -> bool {
    |i: int| i < k
}

/// Positions listed in `s`.
pub open spec fn listed_in(s: Seq<int>) -> spec_fn(int) -> bool {
    |i: int| s.contains(i)
}

/// Positions whose flag in `flags` is set.
pub open spec fn flagged_in(flags: Seq<bool>) -> spec_fn(int) -> bool {
    |i: int| 0 <= i < flags.len() && flags[i]
}

/// Arrays compared position by position: the common positions recursively,
/// then the base's extra positions as deleted, then the contrast's as added.
pub open spec fn by_index_diffs_with(m: int, n: int, path: Seq<Seq<char>>, pairs: spec_fn(int) -> Seq<DiffEntry>) -> Seq<DiffEntry> {
    let min = if m <= n { m } else { n };
    concat_map(min, pairs) + position_entries(m, below(min), path, PathBelongsTo::Base, DiffType::Deleted)
        + position_entries(n, below(min), path, PathBelongsTo::Contrast, DiffType::Added)
}

/// Arrays compared along the longest common subsequence: base positions off
/// it are deleted, then contrast positions off it are added.
pub open spec fn lcs_diffs(eq: spec_fn(int, int) -> bool, m: int, n: int, path: Seq<Seq<char>>) -> Seq<DiffEntry> {
    let tr = lcs_trace(eq, m, n);
    position_entries(m, listed_in(tr.0), path, PathBelongsTo::Base, DiffType::Deleted)
        + position_entries(n, listed_in(tr.1), path, PathBelongsTo::Contrast, DiffType::Added)
}

/// Arrays compared as multisets: base positions that found no free equal
/// partner are deleted, then contrast positions left free are added.
pub open spec fn unordered_diffs(eq: spec_fn(int, int) -> bool, m: int, n: int, path: Seq<Seq<char>>) -> Seq<DiffEntry> {
    let um = unordered_matching(eq, m, n);
    position_entries(m, flagged_in(um.1), path, PathBelongsTo::Base, DiffType::Deleted)
        + position_entries(n, flagged_in(um.0), path, PathBelongsTo::Contrast, DiffType::Added)
}

/// The differences of two scalar (or differently typed) values at `path`.
pub open spec fn scalar_diffs(base: JsonValue, contrast: JsonValue, path: Seq<Seq<char>>, o: CompareOptions) -> Seq<DiffEntry> {
    if !same_json_type(base, contrast) {
        if o.numeric_string_equals_number && numeric_match(base, contrast) {
            seq![]
        } else {
            seq![entry(path, PathBelongsTo::Both, DiffType::TypeChanged)]
        }
    } else if !scalar_values_equal(base, contrast, o) {
        seq![entry(path, PathBelongsTo::Both, DiffType::ValueChanged)]
    } else {
        seq![]
    }
}

/// Everything that differs between `base` and `contrast`, below `path`.
pub open spec fn diffs_of(base: JsonValue, contrast: JsonValue, path: Seq<Seq<char>>, o: CompareOptions) -> Seq<DiffEntry>
    decreases base,
{
    match (base, contrast) {
        (JsonValue::Object(s), JsonValue::Object(t)) => {
            let st = match_state(s@, t@, o.key_case_insensitive, s@.len() as int);
            object_diffs_with(s@, t@, path, o, member_entries(s@, t@, st.0, path, o))
        },
        (JsonValue::Array(s), JsonValue::Array(t)) => match o.array_compare_method {
            Some(ArrayCompareMethod::Lcs) => lcs_diffs(elem_eq(s@, t@, o), s@.len() as int, t@.len() as int, path),
            Some(ArrayCompareMethod::Unordered) => unordered_diffs(
                elem_eq(s@, t@, o),
                s@.len() as int,
                t@.len() as int,
                path,
            ),
            _ => by_index_diffs_with(s@.len() as int, t@.len() as int, path, pair_entries(s@, t@, path, o)),
        },
        _ => scalar_diffs(base, contrast, path, o),
    }
}

/// The two values show no difference.
pub open spec fn no_difference(a: JsonValue, b: JsonValue, o: CompareOptions) -> bool {
    diffs_of(a, b, seq![], o).len() == 0
}

/// A picked member lies in range, matches, and is free when keys ignore
/// case; members passed over do not qualify.
pub proof fn lemma_pick_target(t: Seq<(String, JsonValue)>, key: Seq<char>, matched: Seq<bool>, ci: bool, j: int)
    requires
        j >= 0,
    ensures
        pick_target(t, key, matched, ci, j) matches Some(r) ==> {
            &&& j <= r < t.len()
            &&& key_matches(t[r].0@, key, ci)
            &&& !(ci && matched[r])
            &&& forall|q: int| j <= q < r ==> !(key_matches(#[trigger] t[q].0@, key, ci) && !(ci && matched[q]))
        },
        pick_target(t, key, matched, ci, j) is None ==> forall|q: int|
            j <= q < t.len() ==> !(key_matches(#[trigger] t[q].0@, key, ci) && !(ci && matched[q])),
    decreases t.len() - j,
{
    if j < t.len() {
        lemma_pick_target(t, key, matched, ci, j + 1);
    }
}

/// The base members' pairing is built one member at a time: earlier
/// members keep their partners, and the taken flags cover the contrast.
pub proof fn lemma_match_state_shape(s: Seq<(String, JsonValue)>, t: Seq<(String, JsonValue)>, ci: bool, m: int)
    requires
        m >= 0,
    ensures
        match_state(s, t, ci, m).0.len() == m,
        match_state(s, t, ci, m).1.len() == t.len(),
        forall|i: int, k: int| 0 <= k < i <= m ==>
            #[trigger] match_state(s, t, ci, i).0[k] == match_state(s, t, ci, m).0[k],
    decreases m,
{
    if m > 0 {
        lemma_match_state_shape(s, t, ci, m - 1);
        let prev = match_state(s, t, ci, m - 1);
        lemma_pick_target(t, s[m - 1].0@, prev.1, ci, 0);
        assert forall|i: int, k: int| 0 <= k < i <= m implies
            #[trigger] match_state(s, t, ci, i).0[k] == match_state(s, t, ci, m).0[k] by {
            if i < m {
                assert(match_state(s, t, ci, m).0[k] == prev.0[k]);
            }
        }
    }
}

/// No two members of an object share a key.
pub open spec fn distinct_keys(s: Seq<(String, JsonValue)>) -> bool {
    forall|i: int, j: int| 0 <= i < s.len() && 0 <= j < s.len() && i != j ==> s[i].0@ != s[j].0@
}

/// Key `a` sorts strictly before key `b`: compared character by character
/// on code points, a proper prefix first.
pub open spec fn key_less(a: Seq<char>, b: Seq<char>) -> bool
    decreases a.len(),
{
    if b.len() == 0 {
        false
    } else if a.len() == 0 {
        true
    } else if a[0] != b[0] {
        (a[0] as u32) < (b[0] as u32)
    } else {
        key_less(a.drop_first(), b.drop_first())
    }
}

/// The members of an object stand in strictly ascending order of their keys.
pub open spec fn keys_ascending(s: Seq<(String, JsonValue)>) -> bool {
    forall|i: int, j: int| 0 <= i < j < s.len() ==> key_less(#[trigger] s[i].0@, #[trigger] s[j].0@)
}

/// No key sorts before itself.
pub proof fn lemma_key_less_irreflexive(a: Seq<char>)
    ensures
        !key_less(a, a),
    decreases a.len(),
{
    if a.len() > 0 {
        lemma_key_less_irreflexive(a.drop_first());
    }
}

/// Keys in ascending order are distinct.
pub proof fn lemma_ascending_keys_distinct(s: Seq<(String, JsonValue)>)
    requires
        keys_ascending(s),
    ensures
        distinct_keys(s),
{
    assert forall|i: int, j: int| 0 <= i < s.len() && 0 <= j < s.len() && i != j implies s[i].0@ != s[j].0@ by {
        lemma_key_less_irreflexive(s[i].0@);
        if i < j {
            assert(key_less(s[i].0@, s[j].0@));
        } else {
            assert(key_less(s[j].0@, s[i].0@));
        }
    }
}

/// The key of a double other than negative zero.
pub open spec fn canonical_key(k: u64) -> bool {
    k != 0x8000_0000_0000_0000u64
}

/// The key of a finite double (its exponent bits are not all set).
pub open spec fn finite_key(k: u64) -> bool {
    (k >> 52u64) & 0x7ffu64 != 0x7ffu64
}

/// A JSON value as `serde_json` holds one: numbers are finite doubles (or
/// integers) with canonical keys, string keys are canonical, and the members
/// of every object stand in strictly ascending order of their keys, at every
/// depth.
pub open spec fn well_formed(v: JsonValue) -> bool
    decreases v,
{
    match v {
        JsonValue::Number(n) => canonical_key(n.f64_key) && finite_key(n.f64_key),
        JsonValue::String(x) => match x.f64_key {
            Some(k) => canonical_key(k),
            None => true,
        },
        JsonValue::Array(s) => forall|i: int| 0 <= i < s@.len() ==> well_formed(#[trigger] s@[i]),
        JsonValue::Object(s) => keys_ascending(s@) && forall|i: int| 0 <= i < s@.len() ==> well_formed(#[trigger] s@[i].1),
        _ => true,
    }
}

/// Position entries vanish where every position is skipped.
pub proof fn lemma_position_entries_empty(
    n: int,
    skip: spec_fn(int) -> bool,
    path: Seq<Seq<char>>,
    belongs: PathBelongsTo,
    kind: DiffType,
)
    requires
        forall|i: int| 0 <= i < n ==> #[trigger] skip(i),
    ensures
        position_entries(n, skip, path, belongs, kind).len() == 0,
{
    let f = |i: int|
        if skip(i) {
            seq![]
        } else {
            seq![entry(path.push(index_segment(i as nat)), belongs, kind)]
        };
    assert(position_entries(n, skip, path, belongs, kind) == concat_map(n, f));
    assert forall|i: int| 0 <= i < n implies (#[trigger] f(i)).len() == 0 by {
        assert(skip(i));
    }
    crate::seqs::lemma_concat_map_empty(n, f);
}

/// The mathematical entries of a list of differences.
pub open spec fn entries_of(ds: Seq<Difference>) -> Seq<DiffEntry> {
    ds.map_values(|d: Difference| d@)
}

} // verus!
