//! The comparison itself.
use vstd::prelude::*;
use crate::types::{
    ArrayCompareMethod, CompareOptions, DiffType, Difference, JsonNumber, JsonString, JsonValue,
    PathBelongsTo, entry,
};
use crate::spec::{
    below, diffs_of, elem_eq, entries_of, flagged_in, key_matches, lemma_match_state_shape,
    lemma_pick_target, listed_in, match_state, member_entries, numeric_match, object_diffs_with, json_numbers_equal, no_difference,
    pair_entries, pick_target, position_entries, same_json_type, scalar_diffs, scalar_values_equal,
    added_member_entries, base_has_key, by_index_diffs_with, lcs_diffs, unordered_diffs,
};
use crate::path::{index_segment, index_segment_string, path_segments_to_string, segments_view};
use crate::text::{lowercase, to_lowercase};
use crate::utils::json_type_name;
use crate::seqs::{concat_map, lemma_concat_map_empty};
use crate::lcs::{compute_lcs, lcs_trace};
use crate::unordered::{
    first_free_match, lemma_first_free_match_range, lemma_unordered_matching_shape,
    unordered_matching,
};

verus! {

/// Compares `base` with `contrast` and lists every difference, in order:
/// the paths of the result start at the root.
pub fn compare_json(base: &JsonValue, contrast: &JsonValue, options: &CompareOptions) -> (diffs: Vec<Difference>)
    ensures
        entries_of(diffs@) == diffs_of(*base, *contrast, seq![], *options),
{
    let path: Vec<String> = Vec::new();
    assert(segments_view(path@) =~= seq![]);
    compare_value(base, contrast, &path, options)
}

/// A difference at `path_segments`, with its string form.
fn make_difference(path_segments: Vec<String>, belongs: PathBelongsTo, kind: DiffType) -> (d: Difference)
    ensures
        d@ == entry(segments_view(path_segments@), belongs, kind),
{
    let path_string = path_segments_to_string(path_segments.as_slice());
    Difference { path_segments, path_string, path_belongs_to: belongs, diff_type: kind }
}

/// `path` with one more segment.
fn child_path(path: &Vec<String>, seg: String) -> (r: Vec<String>)
    ensures
        segments_view(r@) == segments_view(path@).push(seg@),
{
    let mut r = copy_path(path);
    let ghost r0 = r@;
    r.push(seg);
    assert(r@ == r0.push(seg));
    assert forall|k: int| 0 <= k < r@.len() implies #[trigger] segments_view(r@)[k] == segments_view(path@).push(seg@)[k] by {
        if k < r0.len() {
            assert(segments_view(r0)[k] == r0[k]@);
        }
    }
    assert(segments_view(r@) =~= segments_view(path@).push(seg@));
    r
}

/// Appends `more` to `out`.
fn extend(out: &mut Vec<Difference>, more: Vec<Difference>)
    ensures
        entries_of(final(out)@) == entries_of(old(out)@) + entries_of(more@),
{
    let mut more = more;
    let ghost a = old(out)@;
    let ghost b = more@;
    out.append(&mut more);
    assert(entries_of(a + b) =~= entries_of(a) + entries_of(b));
}

/// Appends one difference to `out`.
fn push_difference(out: &mut Vec<Difference>, d: Difference)
    ensures
        entries_of(final(out)@) == entries_of(old(out)@).push(d@),
{
    let ghost a = old(out)@;
    out.push(d);
    assert(entries_of(a.push(d)) =~= entries_of(a).push(d@));
}

/// Both values have the same JSON type.
pub fn same_type(a: &JsonValue, b: &JsonValue) -> (r: bool)
    ensures
        r == same_json_type(*a, *b),
        r == (json_type_name(*a) == json_type_name(*b)),
{
    proof {
        crate::laws::law_same_type_is_same_type_name(*a, *b);
    }
    match (a, b) {
        (JsonValue::Null, JsonValue::Null) => true,
        (JsonValue::Bool(_), JsonValue::Bool(_)) => true,
        (JsonValue::Number(_), JsonValue::Number(_)) => true,
        (JsonValue::String(_), JsonValue::String(_)) => true,
        (JsonValue::Array(_), JsonValue::Array(_)) => true,
        (JsonValue::Object(_), JsonValue::Object(_)) => true,
        _ => false,
    }
}

/// A string and a number where the string reads as a double equal to the
/// number.
pub fn is_numeric_match(a: &JsonValue, b: &JsonValue) -> (r: bool)
    ensures
        r == numeric_match(*a, *b),
        r == numeric_match(*b, *a),
{
    match (a, b) {
        (JsonValue::String(s), JsonValue::Number(n)) => numeric_string_equals(s, n),
        (JsonValue::Number(n), JsonValue::String(s)) => numeric_string_equals(s, n),
        _ => false,
    }
}

/// The string reads as a double equal to the number.
pub fn numeric_string_equals(s: &JsonString, n: &JsonNumber) -> (r: bool)
    ensures
        r == (s.f64_key == Some(n.f64_key)),
{
    match s.f64_key {
        Some(k) => k == n.f64_key,
        None => false,
    }
}

/// Numbers are equal by value: two integers exactly, otherwise as doubles.
pub fn numbers_equal(a: &JsonNumber, b: &JsonNumber) -> (r: bool)
    ensures
        r == json_numbers_equal(*a, *b),
        (a.integer is Some && b.integer is Some) ==> (r <==> a.integer == b.integer),
        !(a.integer is Some && b.integer is Some) ==> (r <==> a.f64_key == b.f64_key),
{
    match (a.integer, b.integer) {
        (Some(p), Some(q)) => p == q,
        _ => a.f64_key == b.f64_key,
    }
}

/// Equality of two scalars of the same type.
pub fn values_equal(a: &JsonValue, b: &JsonValue, o: &CompareOptions) -> (r: bool)
    ensures
        r == scalar_values_equal(*a, *b, *o),
        r == scalar_values_equal(*b, *a, *o),
        (*a is String && *b is String && o.value_case_insensitive) ==> (r <==> lowercase(
            a->String_0.text@,
        ) == lowercase(b->String_0.text@)),
{
    match (a, b) {
        (JsonValue::String(x), JsonValue::String(y)) => {
            if o.value_case_insensitive {
                let lx = to_lowercase(x.text.as_str());
                let ly = to_lowercase(y.text.as_str());
                lx == ly
            } else {
                x.text == y.text
            }
        },
        (JsonValue::Number(x), JsonValue::Number(y)) => numbers_equal(x, y),
        (JsonValue::Null, JsonValue::Null) => true,
        (JsonValue::Bool(x), JsonValue::Bool(y)) => *x == *y,
        _ => false,
    }
}

/// Two values that are not both objects or both arrays: a change of type,
/// a change of value, or nothing.
pub fn compare_scalar(base: &JsonValue, contrast: &JsonValue, path: &Vec<String>, o: &CompareOptions) -> (r: Vec<Difference>)
    ensures
        entries_of(r@) == scalar_diffs(*base, *contrast, segments_view(path@), *o),
{
    let mut out: Vec<Difference> = Vec::new();
    if !same_type(base, contrast) {
        if !(o.numeric_string_equals_number && is_numeric_match(base, contrast)) {
            let d = make_difference(copy_path(path), PathBelongsTo::Both, DiffType::TypeChanged);
            push_difference(&mut out, d);
        }
    } else if !values_equal(base, contrast, o) {
        let d = make_difference(copy_path(path), PathBelongsTo::Both, DiffType::ValueChanged);
        push_difference(&mut out, d);
    }
    assert(entries_of(out@) =~= scalar_diffs(*base, *contrast, segments_view(path@), *o));
    out
}

/// A copy of `path`.
fn copy_path(path: &Vec<String>) -> (r: Vec<String>)
    ensures
        segments_view(r@) == segments_view(path@),
{
    let mut r: Vec<String> = Vec::new();
    let mut i: usize = 0;
    while i < path.len()
        invariant
            i <= path.len(),
            r@.len() == i,
            segments_view(r@) == segments_view(path@).take(i as int),
        decreases path.len() - i,
    {
        let s = path[i].clone();
        assert(s@ == path@[i as int]@);
        let ghost r0 = r@;
        r.push(s);
        assert(r@ == r0.push(s));
        assert forall|k: int| 0 <= k < i + 1 implies #[trigger] segments_view(r@)[k] == segments_view(path@).take(i + 1)[k] by {
            if k < i {
                assert(segments_view(r0)[k] == segments_view(path@).take(i as int)[k]);
            }
        }
        assert(segments_view(r@) =~= segments_view(path@).take(i + 1));
        i += 1;
    }
    assert(segments_view(path@).take(path.len() as int) =~= segments_view(path@));
    r
}

/// An element is smaller than the array holding it.
proof fn lemma_elem_decreases(v: &Vec<JsonValue>, k: int)
    requires
        0 <= k < v@.len(),
    ensures
        decreases_to!(*v => v@[k]),
{
    assert(decreases_to!(*v => v@));
    assert(decreases_to!(v@ => v@[k]));
}

/// A member's value is smaller than the object holding it.
proof fn lemma_member_decreases(v: &Vec<(String, JsonValue)>, k: int)
    requires
        0 <= k < v@.len(),
    ensures
        decreases_to!(*v => v@[k].1),
{
    assert(decreases_to!(*v => v@));
    assert(decreases_to!(v@ => v@[k]));
    assert(decreases_to!(v@[k] => v@[k].1));
}

/// The two values show no difference.
pub fn deep_equal(a: &JsonValue, b: &JsonValue, o: &CompareOptions) -> (r: bool)
    ensures
        r == no_difference(*a, *b, *o),
    decreases a, 2nat,
{
    let empty: Vec<String> = Vec::new();
    assert(segments_view(empty@) =~= seq![]);
    compare_value(a, b, &empty, o).len() == 0
}

/// The differences between `base` and `contrast` below `path`.
pub fn compare_value(base: &JsonValue, contrast: &JsonValue, path: &Vec<String>, o: &CompareOptions) -> (r: Vec<Difference>)
    ensures
        entries_of(r@) == diffs_of(*base, *contrast, segments_view(path@), *o),
    decreases base, 1nat,
{
    match (base, contrast) {
        (JsonValue::Object(s), JsonValue::Object(t)) => {
            proof {
                assert(decreases_to!(*base => *s));
            }
            compare_object(s, t, path, o)
        },
        (JsonValue::Array(s), JsonValue::Array(t)) => {
            proof {
                assert(decreases_to!(*base => *s));
            }
            match o.array_compare_method {
                Some(ArrayCompareMethod::Lcs) => compare_array_lcs(s, t, path, o),
                Some(ArrayCompareMethod::Unordered) => compare_array_unordered(s, t, path, o),
                _ => compare_array(s, t, path, o),
            }
        },
        _ => compare_scalar(base, contrast, path, o),
    }
}

/// The lower-cased keys of `v`, when `ci` is set (and nothing otherwise).
fn lower_keys(v: &Vec<(String, JsonValue)>, ci: bool) -> (r: Vec<String>)
    ensures
        ci ==> r@.len() == v@.len(),
        ci ==> forall|k: int| 0 <= k < v@.len() ==> (#[trigger] r@[k])@ == lowercase(v@[k].0@),
{
    let mut r: Vec<String> = Vec::new();
    if ci {
        let mut k: usize = 0;
        while k < v.len()
            invariant
                k <= v@.len(),
                r@.len() == k,
                forall|q: int| 0 <= q < k ==> (#[trigger] r@[q])@ == lowercase(v@[q].0@),
            decreases v.len() - k,
        {
            let l = to_lowercase(v[k].0.as_str());
            r.push(l);
            k += 1;
        }
    }
    r
}

/// The first contrast member whose key equals `key`.
fn find_exact(t: &Vec<(String, JsonValue)>, key: &String, Ghost(matched): Ghost<Seq<bool>>) -> (r: Option<usize>)
    ensures
        match r {
            Some(j) => pick_target(t@, key@, matched, false, 0) == Some(j as int),
            None => pick_target(t@, key@, matched, false, 0) is None,
        },
{
    let mut j: usize = 0;
    while j < t.len()
        invariant
            j <= t@.len(),
            pick_target(t@, key@, matched, false, 0) == pick_target(t@, key@, matched, false, j as int),
        decreases t.len() - j,
    {
        if t[j].0 == *key {
            return Some(j);
        }
        j += 1;
    }
    None
}

/// The first contrast member, not yet taken, whose lower-cased key equals
/// `key_lower`.
fn find_folded(
    t: &Vec<(String, JsonValue)>,
    t_lower: &Vec<String>,
    key_lower: &String,
    matched: &Vec<bool>,
    Ghost(key): Ghost<Seq<char>>,
) -> (r: Option<usize>)
    requires
        t_lower@.len() == t@.len(),
        matched@.len() == t@.len(),
        forall|k: int| 0 <= k < t@.len() ==> (#[trigger] t_lower@[k])@ == lowercase(t@[k].0@),
        key_lower@ == lowercase(key),
    ensures
        match r {
            Some(j) => pick_target(t@, key, matched@, true, 0) == Some(j as int),
            None => pick_target(t@, key, matched@, true, 0) is None,
        },
{
    let mut j: usize = 0;
    while j < t_lower.len()
        invariant
            j <= t@.len(),
            t_lower@.len() == t@.len(),
            matched@.len() == t@.len(),
            forall|k: int| 0 <= k < t@.len() ==> (#[trigger] t_lower@[k])@ == lowercase(t@[k].0@),
            key_lower@ == lowercase(key),
            pick_target(t@, key, matched@, true, 0) == pick_target(t@, key, matched@, true, j as int),
        decreases t.len() - j,
    {
        if !matched[j] && t_lower[j] == *key_lower {
            return Some(j);
        }
        j += 1;
    }
    None
}

/// Whether some base key matches contrast key `j`.
fn base_has(
    s: &Vec<(String, JsonValue)>,
    t: &Vec<(String, JsonValue)>,
    s_lower: &Vec<String>,
    t_lower: &Vec<String>,
    j: usize,
    ci: bool,
) -> (r: bool)
    requires
        j < t@.len(),
        ci ==> s_lower@.len() == s@.len(),
        ci ==> forall|k: int| 0 <= k < s@.len() ==> (#[trigger] s_lower@[k])@ == lowercase(s@[k].0@),
        ci ==> t_lower@.len() == t@.len(),
        ci ==> forall|k: int| 0 <= k < t@.len() ==> (#[trigger] t_lower@[k])@ == lowercase(t@[k].0@),
    ensures
        r == base_has_key(s@, t@[j as int].0@, ci),
{
    let mut i: usize = 0;
    while i < s.len()
        invariant
            i <= s@.len(),
            j < t@.len(),
            ci ==> s_lower@.len() == s@.len(),
            ci ==> forall|k: int| 0 <= k < s@.len() ==> (#[trigger] s_lower@[k])@ == lowercase(s@[k].0@),
            ci ==> t_lower@.len() == t@.len(),
            ci ==> forall|k: int| 0 <= k < t@.len() ==> (#[trigger] t_lower@[k])@ == lowercase(t@[k].0@),
            forall|q: int| 0 <= q < i ==> !key_matches(#[trigger] s@[q].0@, t@[j as int].0@, ci),
        decreases s.len() - i,
    {
        let hit = if ci {
            s_lower[i] == t_lower[j]
        } else {
            s[i].0 == t[j].0
        };
        if hit {
            assert(key_matches(s@[i as int].0@, t@[j as int].0@, ci));
            return true;
        }
        i += 1;
    }
    false
}

/// Objects: each base member, in order, is compared with the contrast member
/// its key pairs with (or reported deleted); then each contrast member that
/// no base member took and no base key matches is reported added.
pub fn compare_object(
    s: &Vec<(String, JsonValue)>,
    t: &Vec<(String, JsonValue)>,
    path: &Vec<String>,
    o: &CompareOptions,
) -> (r: Vec<Difference>)
    ensures
        entries_of(r@) == object_diffs_with(
            s@,
            t@,
            segments_view(path@),
            *o,
            member_entries(
                s@,
                t@,
                match_state(s@, t@, o.key_case_insensitive, s@.len() as int).0,
                segments_view(path@),
                *o,
            ),
        ),
    decreases s, 0nat,
{
    let ci = o.key_case_insensitive;
    let m = s.len();
    let n = t.len();
    let ghost pv = segments_view(path@);
    let ghost st = match_state(s@, t@, ci, m as int);
    let ghost members = member_entries(s@, t@, st.0, pv, *o);
    proof {
        lemma_match_state_shape(s@, t@, ci, m as int);
    }
    let s_lower = lower_keys(s, ci);
    let t_lower = lower_keys(t, ci);
    let mut matched: Vec<bool> = Vec::new();
    let mut q: usize = 0;
    while q < n
        invariant
            q <= n,
            n == t@.len(),
            matched@ == Seq::new(q as nat, |k: int| false),
        decreases n - q,
    {
        matched.push(false);
        assert(matched@ =~= Seq::new((q + 1) as nat, |k: int| false));
        q += 1;
    }
    assert(matched@ =~= match_state(s@, t@, ci, 0).1);
    let mut out: Vec<Difference> = Vec::new();
    let mut i: usize = 0;
    while i < m
        invariant
            i <= m,
            m == s@.len(),
            n == t@.len(),
            ci == o.key_case_insensitive,
            pv == segments_view(path@),
            st == match_state(s@, t@, ci, m as int),
            members == member_entries(s@, t@, st.0, pv, *o),
            st.0.len() == m,
            forall|a: int, k: int| 0 <= k < a <= m ==> #[trigger] match_state(s@, t@, ci, a).0[k] == st.0[k],
            match_state(s@, t@, ci, i as int).1 == matched@,
            matched@.len() == n,
            ci ==> s_lower@.len() == s@.len(),
            ci ==> forall|k: int| 0 <= k < s@.len() ==> (#[trigger] s_lower@[k])@ == lowercase(s@[k].0@),
            ci ==> t_lower@.len() == t@.len(),
            ci ==> forall|k: int| 0 <= k < t@.len() ==> (#[trigger] t_lower@[k])@ == lowercase(t@[k].0@),
            entries_of(out@) == concat_map(i as int, members),
        decreases m - i,
    {
        let ghost key = s@[i as int].0@;
        let target = if ci {
            find_folded(t, &t_lower, &s_lower[i], &matched, Ghost(key))
        } else {
            find_exact(t, &s[i].0, Ghost(matched@))
        };
        proof {
            lemma_pick_target(t@, key, matched@, ci, 0);
            lemma_match_state_shape(s@, t@, ci, i + 1);
            assert(match_state(s@, t@, ci, i + 1).0[i as int] == st.0[i as int]);
        }
        let ghost tgt = st.0[i as int];
        let key_copy = s[i].0.clone();
        let new_path = child_path(path, key_copy);
        assert(segments_view(new_path@) == pv.push(key));
        match target {
            Some(j) => {
                assert(tgt == Some(j as int));
                matched.set(j, true);
                proof {
                    lemma_member_decreases(s, i as int);
                }
                let sub = compare_value(&s[i].1, &t[j].1, &new_path, o);
                assert(entries_of(sub@) == members(i as int));
                extend(&mut out, sub);
            },
            None => {
                assert(tgt is None);
                let d = make_difference(new_path, PathBelongsTo::Base, DiffType::Deleted);
                assert(seq![d@] == members(i as int));
                push_difference(&mut out, d);
            },
        }
        assert(concat_map(i + 1, members) == concat_map(i as int, members) + members(i as int));
        assert(entries_of(out@) =~= concat_map(i + 1, members));
        assert(match_state(s@, t@, ci, i + 1).1 == matched@);
        i += 1;
    }
    let ghost added = added_member_entries(s@, t@, st.1, pv, ci);
    assert(matched@ == st.1);
    let mut j: usize = 0;
    while j < n
        invariant
            j <= n,
            m == s@.len(),
            n == t@.len(),
            ci == o.key_case_insensitive,
            pv == segments_view(path@),
            st == match_state(s@, t@, ci, m as int),
            members == member_entries(s@, t@, st.0, pv, *o),
            added == added_member_entries(s@, t@, st.1, pv, ci),
            matched@ == st.1,
            matched@.len() == n,
            ci ==> s_lower@.len() == s@.len(),
            ci ==> forall|k: int| 0 <= k < s@.len() ==> (#[trigger] s_lower@[k])@ == lowercase(s@[k].0@),
            ci ==> t_lower@.len() == t@.len(),
            ci ==> forall|k: int| 0 <= k < t@.len() ==> (#[trigger] t_lower@[k])@ == lowercase(t@[k].0@),
            entries_of(out@) == concat_map(m as int, members) + concat_map(j as int, added),
        decreases n - j,
    {
        if !matched[j] {
            let present = base_has(s, t, &s_lower, &t_lower, j, ci);
            if !present {
                let key_copy = t[j].0.clone();
                let new_path = child_path(path, key_copy);
                let d = make_difference(new_path, PathBelongsTo::Contrast, DiffType::Added);
                push_difference(&mut out, d);
            }
        }
        assert(concat_map(m as int, members) + concat_map(j + 1, added) =~= concat_map(m as int, members) + concat_map(j as int, added) + added(j as int));
        j += 1;
    }
    out
}

/// Appends the entry for array position `i` below `path`.
fn push_position(out: &mut Vec<Difference>, path: &Vec<String>, i: usize, belongs: PathBelongsTo, kind: DiffType)
    ensures
        entries_of(final(out)@) == entries_of(old(out)@).push(
            entry(segments_view(path@).push(index_segment(i as nat)), belongs, kind),
        ),
{
    let seg = index_segment_string(i);
    let new_path = child_path(path, seg);
    let d = make_difference(new_path, belongs, kind);
    push_difference(out, d);
}

/// Appends the entries for positions `from..to`.
fn push_range(out: &mut Vec<Difference>, path: &Vec<String>, from: usize, to: usize, belongs: PathBelongsTo, kind: DiffType)
    requires
        from <= to,
    ensures
        entries_of(final(out)@) == entries_of(old(out)@) + position_entries(
            to as int,
            below(from as int),
            segments_view(path@),
            belongs,
            kind,
        ),
{
    let ghost pv = segments_view(path@);
    let ghost start = entries_of(out@);
    let ghost f = |i: int|
        if below(from as int)(i) {
            seq![]
        } else {
            seq![entry(pv.push(index_segment(i as nat)), belongs, kind)]
        };
    proof {
        lemma_concat_map_empty(from as int, f);
        assert(position_entries(from as int, below(from as int), pv, belongs, kind) == concat_map(from as int, f));
    }
    assert(entries_of(out@) =~= start + position_entries(from as int, below(from as int), pv, belongs, kind));
    let mut k: usize = from;
    while k < to
        invariant
            from <= k <= to,
            pv == segments_view(path@),
            entries_of(out@) == start + position_entries(k as int, below(from as int), pv, belongs, kind),
        decreases to - k,
    {
        push_position(out, path, k, belongs, kind);
        assert(start + position_entries(k + 1, below(from as int), pv, belongs, kind) =~= start
            + position_entries(k as int, below(from as int), pv, belongs, kind).push(
            entry(pv.push(index_segment(k as nat)), belongs, kind),
        ));
        k += 1;
    }
}

/// Arrays position by position.
pub fn compare_array(s: &Vec<JsonValue>, t: &Vec<JsonValue>, path: &Vec<String>, o: &CompareOptions) -> (r: Vec<Difference>)
    ensures
        entries_of(r@) == by_index_diffs_with(
            s@.len() as int,
            t@.len() as int,
            segments_view(path@),
            pair_entries(s@, t@, segments_view(path@), *o),
        ),
    decreases s, 0nat,
{
    let m = s.len();
    let n = t.len();
    let min = if m <= n { m } else { n };
    let ghost pv = segments_view(path@);
    let ghost pairs = pair_entries(s@, t@, pv, *o);
    let mut out: Vec<Difference> = Vec::new();
    let mut i: usize = 0;
    while i < min
        invariant
            i <= min,
            min <= m,
            min <= n,
            m == s@.len(),
            n == t@.len(),
            pv == segments_view(path@),
            pairs == pair_entries(s@, t@, pv, *o),
            entries_of(out@) == concat_map(i as int, pairs),
        decreases min - i,
    {
        let seg = index_segment_string(i);
        let new_path = child_path(path, seg);
        proof {
            lemma_elem_decreases(s, i as int);
        }
        let sub = compare_value(&s[i], &t[i], &new_path, o);
        extend(&mut out, sub);
        i += 1;
    }
    push_range(&mut out, path, min, m, PathBelongsTo::Base, DiffType::Deleted);
    push_range(&mut out, path, min, n, PathBelongsTo::Contrast, DiffType::Added);
    out
}

/// Whether `x` is among the positions in `v`.
fn contains_index(v: &Vec<usize>, x: usize) -> (r: bool)
    ensures
        r == v@.map_values(|y: usize| y as int).contains(x as int),
{
    let ghost vi = v@.map_values(|y: usize| y as int);
    let mut k: usize = 0;
    while k < v.len()
        invariant
            k <= v@.len(),
            vi == v@.map_values(|y: usize| y as int),
            forall|q: int| 0 <= q < k ==> vi[q] != x as int,
        decreases v.len() - k,
    {
        if v[k] == x {
            assert(vi[k as int] == x as int);
            return true;
        }
        k += 1;
    }
    false
}

/// Arrays along a longest common subsequence of elements that show no
/// difference.
pub fn compare_array_lcs(s: &Vec<JsonValue>, t: &Vec<JsonValue>, path: &Vec<String>, o: &CompareOptions) -> (r: Vec<Difference>)
    ensures
        entries_of(r@) == lcs_diffs(elem_eq(s@, t@, *o), s@.len() as int, t@.len() as int, segments_view(path@)),
    decreases s, 0nat,
{
    let m = s.len();
    let n = t.len();
    let ghost pv = segments_view(path@);
    let ghost eq = elem_eq(s@, t@, *o);
    let mut table: Vec<Vec<bool>> = Vec::new();
    let mut a: usize = 0;
    while a < m
        invariant
            a <= m,
            m == s@.len(),
            n == t@.len(),
            eq == elem_eq(s@, t@, *o),
            table@.len() == a,
            forall|x: int| 0 <= x < table@.len() ==> (#[trigger] table@[x])@.len() == n,
            forall|x: int, y: int| 0 <= x < table@.len() && 0 <= y < n ==> (#[trigger] table@[x]@[y]) == eq(x, y),
        decreases m - a,
    {
        let mut row: Vec<bool> = Vec::new();
        let mut b: usize = 0;
        while b < n
            invariant
                a < m,
                b <= n,
                m == s@.len(),
                n == t@.len(),
                eq == elem_eq(s@, t@, *o),
                row@.len() == b,
                forall|y: int| 0 <= y < b ==> (#[trigger] row@[y]) == eq(a as int, y),
            decreases n - b,
        {
            proof {
                lemma_elem_decreases(s, a as int);
            }
            let e = deep_equal(&s[a], &t[b], o);
            row.push(e);
            b += 1;
        }
        table.push(row);
        a += 1;
    }
    let (bm, cm) = compute_lcs(&table, n, Ghost(eq));
    let ghost tr = lcs_trace(eq, m as int, n as int);
    let mut out: Vec<Difference> = Vec::new();
    let mut i: usize = 0;
    while i < m
        invariant
            i <= m,
            pv == segments_view(path@),
            bm@.map_values(|x: usize| x as int) == tr.0,
            entries_of(out@) == position_entries(i as int, listed_in(tr.0), pv, PathBelongsTo::Base, DiffType::Deleted),
        decreases m - i,
    {
        if !contains_index(&bm, i) {
            push_position(&mut out, path, i, PathBelongsTo::Base, DiffType::Deleted);
        }
        assert(entries_of(out@) =~= position_entries(i + 1, listed_in(tr.0), pv, PathBelongsTo::Base, DiffType::Deleted));
        i += 1;
    }
    let ghost first = entries_of(out@);
    let mut j: usize = 0;
    while j < n
        invariant
            j <= n,
            pv == segments_view(path@),
            cm@.map_values(|x: usize| x as int) == tr.1,
            entries_of(out@) == first + position_entries(j as int, listed_in(tr.1), pv, PathBelongsTo::Contrast, DiffType::Added),
        decreases n - j,
    {
        if !contains_index(&cm, j) {
            push_position(&mut out, path, j, PathBelongsTo::Contrast, DiffType::Added);
        }
        assert(entries_of(out@) =~= first + position_entries(j + 1, listed_in(tr.1), pv, PathBelongsTo::Contrast, DiffType::Added));
        j += 1;
    }
    out
}

/// Arrays as multisets: each base element takes the first free contrast
/// element that shows no difference from it.
pub fn compare_array_unordered(s: &Vec<JsonValue>, t: &Vec<JsonValue>, path: &Vec<String>, o: &CompareOptions) -> (r: Vec<Difference>)
    ensures
        entries_of(r@) == unordered_diffs(elem_eq(s@, t@, *o), s@.len() as int, t@.len() as int, segments_view(path@)),
    decreases s, 0nat,
{
    let m = s.len();
    let n = t.len();
    let ghost pv = segments_view(path@);
    let ghost eq = elem_eq(s@, t@, *o);
    let ghost um = unordered_matching(eq, m as int, n as int);
    proof {
        lemma_unordered_matching_shape(eq, m as int, n as int);
    }
    let mut matched: Vec<bool> = Vec::new();
    let mut q: usize = 0;
    while q < n
        invariant
            q <= n,
            matched@ == Seq::new(q as nat, |k: int| false),
        decreases n - q,
    {
        matched.push(false);
        assert(matched@ =~= Seq::new((q + 1) as nat, |k: int| false));
        q += 1;
    }
    let ghost mut found: Seq<bool> = seq![];
    assert(unordered_matching(eq, 0, n as int).0 =~= matched@);
    let mut out: Vec<Difference> = Vec::new();
    let mut i: usize = 0;
    while i < m
        invariant
            i <= m,
            m == s@.len(),
            n == t@.len(),
            pv == segments_view(path@),
            eq == elem_eq(s@, t@, *o),
            um == unordered_matching(eq, m as int, n as int),
            um.1.len() == m,
            forall|a: int, k: int| 0 <= k < a <= m ==> #[trigger] unordered_matching(eq, a, n as int).1[k] == um.1[k],
            unordered_matching(eq, i as int, n as int) == (matched@, found),
            matched@.len() == n,
            entries_of(out@) == position_entries(i as int, flagged_in(um.1), pv, PathBelongsTo::Base, DiffType::Deleted),
        decreases m - i,
    {
        let mut pick: Option<usize> = None;
        let mut j: usize = 0;
        while pick.is_none() && j < n
            invariant
                i < m,
                j <= n,
                m == s@.len(),
                n == t@.len(),
                matched@.len() == n,
                eq == elem_eq(s@, t@, *o),
                match pick {
                    Some(p) => first_free_match(eq, i as int, matched@, 0) == Some(p as int),
                    None => first_free_match(eq, i as int, matched@, 0) == first_free_match(eq, i as int, matched@, j as int),
                },
            decreases n - j,
        {
            if !matched[j] {
                proof {
                    lemma_elem_decreases(s, i as int);
                }
                if deep_equal(&s[i], &t[j], o) {
                    pick = Some(j);
                }
            }
            j += 1;
        }
        proof {
            lemma_first_free_match_range(eq, i as int, matched@, 0);
            lemma_unordered_matching_shape(eq, i + 1, n as int);
        }
        match pick {
            Some(p) => {
                matched.set(p, true);
                proof {
                    found = found.push(true);
                }
            },
            None => {
                push_position(&mut out, path, i, PathBelongsTo::Base, DiffType::Deleted);
                proof {
                    found = found.push(false);
                }
            },
        }
        assert(unordered_matching(eq, i + 1, n as int).1[i as int] == um.1[i as int]);
        assert(entries_of(out@) =~= position_entries(i + 1, flagged_in(um.1), pv, PathBelongsTo::Base, DiffType::Deleted));
        i += 1;
    }
    let ghost first = entries_of(out@);
    assert(matched@ == um.0);
    let mut j: usize = 0;
    while j < n
        invariant
            j <= n,
            n == t@.len(),
            pv == segments_view(path@),
            matched@ == um.0,
            matched@.len() == n,
            entries_of(out@) == first + position_entries(j as int, flagged_in(um.0), pv, PathBelongsTo::Contrast, DiffType::Added),
        decreases n - j,
    {
        if !matched[j] {
            push_position(&mut out, path, j, PathBelongsTo::Contrast, DiffType::Added);
        }
        assert(entries_of(out@) =~= first + position_entries(j + 1, flagged_in(um.0), pv, PathBelongsTo::Contrast, DiffType::Added));
        j += 1;
    }
    out
}

} // verus!
