//! What holds of every comparison.
use vstd::prelude::*;
use crate::types::{ArrayCompareMethod, CompareOptions, DiffEntry, DiffType, JsonValue, PathBelongsTo, entry};
use crate::spec::{
    added_member_entries, diffs_of, distinct_keys, elem_eq, key_matches, lemma_pick_target,
    lemma_position_entries_empty, match_state, member_entries, pair_entries, below, listed_in,
    flagged_in, well_formed, same_json_type, scalar_values_equal, position_entries, no_difference, numeric_match,
};
use crate::seqs::{concat_map, lemma_concat_map_all, lemma_concat_map_congruent, lemma_concat_map_empty};
use crate::lcs::{is_common_subsequence, law_lcs_trace_is_longest, lcs_length, lcs_trace, lemma_lcs_trace_diagonal};
use crate::unordered::{
    inverse_permutations, is_equivalence, law_unordered_leftovers_unequal,
    law_unordered_matches_reorderings, lemma_unordered_diagonal, unordered_matching,
};
use crate::path::{index_segment, path_to_string};
use crate::types::{JsonNumber, JsonString};
use crate::utils::json_type_name;
use crate::text::lowercase;
use crate::table::{border, key_width, row_key, row_line, text_change_type, text_key, type_width, utf8_len};

verus! {

/// Comparing an object with itself, each member pairs with itself and every
/// member is taken.
proof fn lemma_match_state_self(s: Seq<(String, JsonValue)>, ci: bool, k: int)
    requires
        0 <= k <= s.len(),
        !ci ==> distinct_keys(s),
    ensures
        match_state(s, s, ci, k).0 == Seq::new(k as nat, |i: int| Some(i)),
        match_state(s, s, ci, k).1 == Seq::new(s.len(), |j: int| j < k),
    decreases k,
{
    if k == 0 {
        assert(match_state(s, s, ci, 0).1 =~= Seq::new(s.len(), |j: int| j < 0));
        assert(match_state(s, s, ci, 0).0 =~= Seq::new(0, |i: int| Some(i)));
    } else {
        lemma_match_state_self(s, ci, k - 1);
        let prev = match_state(s, s, ci, k - 1);
        let key = s[k - 1].0@;
        lemma_pick_target(s, key, prev.1, ci, 0);
        assert(key_matches(s[k - 1].0@, key, ci));
        assert(!prev.1[k - 1]);
        let p = crate::spec::pick_target(s, key, prev.1, ci, 0);
        match p {
            Some(r) => {
                if r < k - 1 {
                    assert(prev.1[r]);
                    if !ci {
                        assert(s[r].0@ != s[k - 1].0@);
                    }
                    assert(false);
                }
                if r > k - 1 {
                    assert(!(key_matches(s[k - 1].0@, key, ci) && !(ci && prev.1[k - 1])));
                    assert(false);
                }
            },
            None => {
                assert(!(key_matches(s[k - 1].0@, key, ci) && !(ci && prev.1[k - 1])));
                assert(false);
            },
        }
        assert(p == Some(k - 1));
        assert(prev.0.push(Some(k - 1)) =~= Seq::new(k as nat, |i: int| Some(i)));
        assert(prev.1.update(k - 1, true) =~= Seq::new(s.len(), |j: int| j < k));
    }
}

/// Comparing a value with itself reports nothing, under any options, at any
/// path: objects pair every key with itself, arrays pair every element with
/// itself under each of the three methods, and a scalar equals itself.
/// (Without case-insensitive keys this needs the object keys to be distinct,
/// which their ascending order gives.)
pub proof fn law_compare_with_itself(v: JsonValue, path: Seq<Seq<char>>, o: CompareOptions)
    requires
        well_formed(v),
    ensures
        diffs_of(v, v, path, o).len() == 0,
    decreases v,
{
    match v {
        JsonValue::Object(s) => {
            let ci = o.key_case_insensitive;
            let m = s@.len() as int;
            crate::spec::lemma_ascending_keys_distinct(s@);
            lemma_match_state_self(s@, ci, m);
            let st = match_state(s@, s@, ci, m);
            let members = member_entries(s@, s@, st.0, path, o);
            assert forall|i: int| 0 <= i < m implies (#[trigger] members(i)).len() == 0 by {
                assert(st.0[i] == Some(i));
                assert(decreases_to!(v => s));
                assert(decreases_to!(s => s@));
                assert(decreases_to!(s@ => s@[i]));
                assert(decreases_to!(s@[i] => s@[i].1));
                assert(well_formed(s@[i].1));
                law_compare_with_itself(s@[i].1, path.push(s@[i].0@), o);
            }
            lemma_concat_map_empty(m, members);
            let added = added_member_entries(s@, s@, st.1, path, ci);
            assert forall|j: int| 0 <= j < m implies (#[trigger] added(j)).len() == 0 by {
                assert(st.1[j]);
            }
            lemma_concat_map_empty(m, added);
        },
        JsonValue::Array(s) => {
            let m = s@.len() as int;
            let eq = elem_eq(s@, s@, o);
            assert forall|i: int| 0 <= i < m implies #[trigger] eq(i, i) by {
                assert(decreases_to!(v => s));
                assert(decreases_to!(s => s@));
                assert(decreases_to!(s@ => s@[i]));
                assert(well_formed(s@[i]));
                law_compare_with_itself(s@[i], seq![], o);
            }
            match o.array_compare_method {
                Some(ArrayCompareMethod::Lcs) => {
                    lemma_lcs_trace_diagonal(eq, m);
                    let tr = lcs_trace(eq, m, m);
                    assert forall|i: int| 0 <= i < m implies #[trigger] listed_in(tr.0)(i) by {
                        assert(tr.0[i] == i);
                    }
                    assert forall|i: int| 0 <= i < m implies #[trigger] listed_in(tr.1)(i) by {
                        assert(tr.1[i] == i);
                    }
                    lemma_position_entries_empty(m, listed_in(tr.0), path, crate::types::PathBelongsTo::Base, crate::types::DiffType::Deleted);
                    lemma_position_entries_empty(m, listed_in(tr.1), path, crate::types::PathBelongsTo::Contrast, crate::types::DiffType::Added);
                },
                Some(ArrayCompareMethod::Unordered) => {
                    lemma_unordered_diagonal(eq, m, m);
                    let um = unordered_matching(eq, m, m);
                    assert forall|i: int| 0 <= i < m implies #[trigger] flagged_in(um.1)(i) by {
                        assert(um.1[i]);
                    }
                    assert forall|i: int| 0 <= i < m implies #[trigger] flagged_in(um.0)(i) by {
                        assert(um.0[i]);
                    }
                    lemma_position_entries_empty(m, flagged_in(um.1), path, crate::types::PathBelongsTo::Base, crate::types::DiffType::Deleted);
                    lemma_position_entries_empty(m, flagged_in(um.0), path, crate::types::PathBelongsTo::Contrast, crate::types::DiffType::Added);
                },
                _ => {
                    let pairs = pair_entries(s@, s@, path, o);
                    assert forall|i: int| 0 <= i < m implies (#[trigger] pairs(i)).len() == 0 by {
                        assert(decreases_to!(v => s));
                        assert(decreases_to!(s => s@));
                        assert(decreases_to!(s@ => s@[i]));
                        assert(well_formed(s@[i]));
                        law_compare_with_itself(s@[i], path.push(index_segment(i as nat)), o);
                    }
                    lemma_concat_map_empty(m, pairs);
                    assert forall|i: int| 0 <= i < m implies #[trigger] below(m)(i) by {}
                    lemma_position_entries_empty(m, below(m), path, crate::types::PathBelongsTo::Base, crate::types::DiffType::Deleted);
                    lemma_position_entries_empty(m, below(m), path, crate::types::PathBelongsTo::Contrast, crate::types::DiffType::Added);
                },
            }
        },
        _ => {
            assert(same_json_type(v, v));
            assert(scalar_values_equal(v, v, o));
        },
    }
}

/// The side a change belongs to: an addition to the contrast, a deletion
/// to the base, and a change of type or value to both.
pub open spec fn side_of(kind: DiffType) -> PathBelongsTo {
    match kind {
        DiffType::Added => PathBelongsTo::Contrast,
        DiffType::Deleted => PathBelongsTo::Base,
        _ => PathBelongsTo::Both,
    }
}

/// An entry reported below `prefix`: its side follows from its kind, its
/// string is the rendering of its segments, its path extends `prefix`, and
/// an addition or deletion names a member or position strictly below it.
pub open spec fn entry_consistent(e: DiffEntry, prefix: Seq<Seq<char>>) -> bool {
    &&& e.belongs == side_of(e.kind)
    &&& e.path_string == path_to_string(e.path)
    &&& prefix.len() <= e.path.len()
    &&& e.path.subrange(0, prefix.len() as int) == prefix
    &&& (e.kind == DiffType::Added || e.kind == DiffType::Deleted) ==> prefix.len() < e.path.len()
}

/// An entry consistent below `prefix` whose path is strictly longer.
pub open spec fn consistent_strictly_below(prefix: Seq<Seq<char>>) -> spec_fn(DiffEntry) -> bool {
    |e: DiffEntry| entry_consistent(e, prefix) && prefix.len() < e.path.len()
}

proof fn lemma_consistent_parent(e: DiffEntry, prefix: Seq<Seq<char>>, seg: Seq<char>)
    requires
        entry_consistent(e, prefix.push(seg)),
    ensures
        entry_consistent(e, prefix),
        prefix.len() < e.path.len(),
{
    assert(e.path.subrange(0, prefix.len() as int) =~= prefix.push(seg).subrange(0, prefix.len() as int));
    assert(prefix.push(seg).subrange(0, prefix.len() as int) =~= prefix);
}

proof fn lemma_position_entries_consistent(
    n: int,
    skip: spec_fn(int) -> bool,
    path: Seq<Seq<char>>,
    kind: DiffType,
)
    ensures
        forall|k: int| 0 <= k < position_entries(n, skip, path, side_of(kind), kind).len()
            ==> #[trigger] consistent_strictly_below(path)(position_entries(n, skip, path, side_of(kind), kind)[k]),
{
    let f = |i: int|
        if skip(i) {
            seq![]
        } else {
            seq![entry(path.push(index_segment(i as nat)), side_of(kind), kind)]
        };
    assert(position_entries(n, skip, path, side_of(kind), kind) == concat_map(n, f));
    assert forall|i: int, k: int| 0 <= i < n && 0 <= k < f(i).len() implies #[trigger] consistent_strictly_below(path)(#[trigger] f(i)[k]) by {
        let e = f(i)[k];
        assert(e.path.subrange(0, path.len() as int) =~= path);
    }
    lemma_concat_map_all(n, f, consistent_strictly_below(path));
}

/// Every reported entry is consistent: a deletion belongs to the base, an
/// addition to the contrast, and a change of type or value to both; each
/// entry's string is the rendering of its segments; each path extends the
/// path the comparison started from, and additions and deletions name a
/// member or position below it. An entry at the starting path itself comes
/// alone, and is a change of type or of value.
pub proof fn law_entries_consistent(base: JsonValue, contrast: JsonValue, path: Seq<Seq<char>>, o: CompareOptions)
    ensures
        forall|k: int| 0 <= k < diffs_of(base, contrast, path, o).len()
            ==> entry_consistent(#[trigger] diffs_of(base, contrast, path, o)[k], path),
        forall|k: int| 0 <= k < diffs_of(base, contrast, path, o).len()
            && (#[trigger] diffs_of(base, contrast, path, o)[k]).path.len() == path.len() ==> {
                &&& diffs_of(base, contrast, path, o).len() == 1
                &&& (diffs_of(base, contrast, path, o)[k].kind == DiffType::TypeChanged
                    || diffs_of(base, contrast, path, o)[k].kind == DiffType::ValueChanged)
            },
    decreases base,
{
    let d = diffs_of(base, contrast, path, o);
    let p = consistent_strictly_below(path);
    match (base, contrast) {
        (JsonValue::Object(s), JsonValue::Object(t)) => {
            let ci = o.key_case_insensitive;
            let st = match_state(s@, t@, ci, s@.len() as int);
            let members = member_entries(s@, t@, st.0, path, o);
            assert forall|i: int, k: int| 0 <= i < s@.len() && 0 <= k < members(i).len() implies #[trigger] p(#[trigger] members(i)[k]) by {
                let key = s@[i].0@;
                match st.0[i] {
                    Some(j) => {
                        if 0 <= j < t@.len() {
                            assert(decreases_to!(base => s));
                            assert(decreases_to!(s => s@));
                            assert(decreases_to!(s@ => s@[i]));
                            assert(decreases_to!(s@[i] => s@[i].1));
                            law_entries_consistent(s@[i].1, t@[j].1, path.push(key), o);
                            let sub = diffs_of(s@[i].1, t@[j].1, path.push(key), o);
                            assert(members(i) == sub);
                            assert(entry_consistent(sub[k], path.push(key)));
                            lemma_consistent_parent(members(i)[k], path, key);
                        }
                    },
                    None => {
                        let e = members(i)[k];
                        assert(e.path.subrange(0, path.len() as int) =~= path);
                    },
                }
            }
            lemma_concat_map_all(s@.len() as int, members, p);
            let added = added_member_entries(s@, t@, st.1, path, ci);
            assert forall|j: int, k: int| 0 <= j < t@.len() && 0 <= k < added(j).len() implies #[trigger] p(#[trigger] added(j)[k]) by {
                let e = added(j)[k];
                assert(e.path.subrange(0, path.len() as int) =~= path);
            }
            lemma_concat_map_all(t@.len() as int, added, p);
            let a = concat_map(s@.len() as int, members);
            let b = concat_map(t@.len() as int, added);
            assert(d == a + b);
            assert forall|k: int| 0 <= k < d.len() implies entry_consistent(#[trigger] d[k], path) && path.len() < d[k].path.len() by {
                if k < a.len() {
                    assert(p(a[k]));
                } else {
                    assert(p(b[k - a.len()]));
                }
            }
        },
        (JsonValue::Array(s), JsonValue::Array(t)) => {
            let m = s@.len() as int;
            let n = t@.len() as int;
            let eq = elem_eq(s@, t@, o);
            let (x, y, z) = match o.array_compare_method {
                Some(ArrayCompareMethod::Lcs) => {
                    let tr = lcs_trace(eq, m, n);
                    lemma_position_entries_consistent(m, listed_in(tr.0), path, DiffType::Deleted);
                    lemma_position_entries_consistent(n, listed_in(tr.1), path, DiffType::Added);
                    (
                        Seq::<DiffEntry>::empty(),
                        position_entries(m, listed_in(tr.0), path, PathBelongsTo::Base, DiffType::Deleted),
                        position_entries(n, listed_in(tr.1), path, PathBelongsTo::Contrast, DiffType::Added),
                    )
                },
                Some(ArrayCompareMethod::Unordered) => {
                    let um = unordered_matching(eq, m, n);
                    lemma_position_entries_consistent(m, flagged_in(um.1), path, DiffType::Deleted);
                    lemma_position_entries_consistent(n, flagged_in(um.0), path, DiffType::Added);
                    (
                        Seq::<DiffEntry>::empty(),
                        position_entries(m, flagged_in(um.1), path, PathBelongsTo::Base, DiffType::Deleted),
                        position_entries(n, flagged_in(um.0), path, PathBelongsTo::Contrast, DiffType::Added),
                    )
                },
                _ => {
                    let min = if m <= n { m } else { n };
                    let pairs = pair_entries(s@, t@, path, o);
                    assert forall|i: int, k: int| 0 <= i < min && 0 <= k < pairs(i).len() implies #[trigger] p(#[trigger] pairs(i)[k]) by {
                        assert(decreases_to!(base => s));
                        assert(decreases_to!(s => s@));
                        assert(decreases_to!(s@ => s@[i]));
                        let seg = index_segment(i as nat);
                        law_entries_consistent(s@[i], t@[i], path.push(seg), o);
                        let sub = diffs_of(s@[i], t@[i], path.push(seg), o);
                        assert(pairs(i) == sub);
                        assert(entry_consistent(sub[k], path.push(seg)));
                        lemma_consistent_parent(pairs(i)[k], path, seg);
                    }
                    lemma_concat_map_all(min, pairs, p);
                    lemma_position_entries_consistent(m, below(min), path, DiffType::Deleted);
                    lemma_position_entries_consistent(n, below(min), path, DiffType::Added);
                    (
                        concat_map(min, pairs),
                        position_entries(m, below(min), path, PathBelongsTo::Base, DiffType::Deleted),
                        position_entries(n, below(min), path, PathBelongsTo::Contrast, DiffType::Added),
                    )
                },
            };
            assert(d == x + y + z);
            assert forall|k: int| 0 <= k < d.len() implies entry_consistent(#[trigger] d[k], path) && path.len() < d[k].path.len() by {
                if k < x.len() {
                    assert(p(x[k]));
                } else if k < x.len() + y.len() {
                    assert(p(y[k - x.len()]));
                } else {
                    assert(p(z[k - x.len() - y.len()]));
                }
            }
        },
        _ => {
            assert forall|k: int| 0 <= k < d.len() implies entry_consistent(#[trigger] d[k], path) by {
                assert(d[k].path.subrange(0, path.len() as int) =~= path);
            }
        },
    }
}

/// Position entries depend only on which positions below `n` are skipped.
proof fn lemma_position_entries_congruent(
    n: int,
    s1: spec_fn(int) -> bool,
    s2: spec_fn(int) -> bool,
    path: Seq<Seq<char>>,
    belongs: PathBelongsTo,
    kind: DiffType,
)
    requires
        forall|i: int| 0 <= i < n ==> #[trigger] s1(i) == s2(i),
    ensures
        position_entries(n, s1, path, belongs, kind) == position_entries(n, s2, path, belongs, kind),
{
    let f = |i: int|
        if s1(i) {
            seq![]
        } else {
            seq![entry(path.push(index_segment(i as nat)), belongs, kind)]
        };
    let g = |i: int|
        if s2(i) {
            seq![]
        } else {
            seq![entry(path.push(index_segment(i as nat)), belongs, kind)]
        };
    assert(position_entries(n, s1, path, belongs, kind) == concat_map(n, f));
    assert(position_entries(n, s2, path, belongs, kind) == concat_map(n, g));
    assert forall|i: int| 0 <= i < n implies #[trigger] f(i) == g(i) by {
        assert(s1(i) == s2(i));
    }
    lemma_concat_map_congruent(n, f, g);
}

/// Positions below `n` that are not among the strictly increasing positions
/// of `a` (all below `n`) number `n - a.len()`.
proof fn lemma_position_entries_unlisted_len(
    n: int,
    a: Seq<int>,
    path: Seq<Seq<char>>,
    belongs: PathBelongsTo,
    kind: DiffType,
)
    requires
        n >= 0,
        forall|k: int| 0 <= k < a.len() ==> 0 <= #[trigger] a[k] < n,
        forall|k: int, l: int| 0 <= k < l < a.len() ==> a[k] < a[l],
    ensures
        position_entries(n, listed_in(a), path, belongs, kind).len() == n - a.len(),
    decreases n,
{
    let f = |i: int|
        if listed_in(a)(i) {
            seq![]
        } else {
            seq![entry(path.push(index_segment(i as nat)), belongs, kind)]
        };
    assert(position_entries(n, listed_in(a), path, belongs, kind) == concat_map(n, f));
    if n == 0 {
        assert(a.len() == 0) by {
            if a.len() > 0 {
                assert(0 <= a[0] < n);
            }
        }
    } else {
        assert(position_entries(n - 1, listed_in(a), path, belongs, kind) == concat_map(n - 1, f));
        if a.len() > 0 && a[a.len() - 1] == n - 1 {
            let a2 = a.drop_last();
            assert forall|k: int| 0 <= k < a2.len() implies 0 <= #[trigger] a2[k] < n - 1 by {
                assert(a[k] < a[a.len() - 1]);
            }
            assert forall|i: int| 0 <= i < n - 1 implies #[trigger] listed_in(a)(i) == listed_in(a2)(i) by {
                if a.contains(i) {
                    let k = choose|k: int| 0 <= k < a.len() && a[k] == i;
                    assert(k != a.len() - 1);
                    assert(a2[k] == i);
                }
                if a2.contains(i) {
                    let k = choose|k: int| 0 <= k < a2.len() && a2[k] == i;
                    assert(a[k] == i);
                }
            }
            lemma_position_entries_congruent(n - 1, listed_in(a), listed_in(a2), path, belongs, kind);
            lemma_position_entries_unlisted_len(n - 1, a2, path, belongs, kind);
            assert(a[a.len() - 1] == n - 1);
            assert(listed_in(a)(n - 1));
            assert(f(n - 1).len() == 0);
        } else {
            assert forall|k: int| 0 <= k < a.len() implies 0 <= #[trigger] a[k] < n - 1 by {
                if a[k] == n - 1 {
                    if k < a.len() - 1 {
                        assert(a[k] < a[a.len() - 1]);
                    }
                }
            }
            assert(!a.contains(n - 1));
            lemma_position_entries_unlisted_len(n - 1, a, path, belongs, kind);
            assert(f(n - 1).len() == 1);
        }
    }
}

/// Under the longest-common-subsequence method, two arrays differ in
/// `m + n - 2 * L` entries, where `L` is the length of a longest common
/// subsequence of elements that show no difference; and no way of keeping
/// equal elements in order could report fewer.
pub proof fn law_lcs_diff_is_minimal(
    s: Vec<JsonValue>,
    t: Vec<JsonValue>,
    path: Seq<Seq<char>>,
    o: CompareOptions,
    a: Seq<int>,
    b: Seq<int>,
)
    requires
        o.array_compare_method == Some(ArrayCompareMethod::Lcs),
    ensures
        diffs_of(JsonValue::Array(s), JsonValue::Array(t), path, o).len() == s@.len() + t@.len() - 2
            * lcs_length(elem_eq(s@, t@, o), s@.len() as int, t@.len() as int),
        is_common_subsequence(elem_eq(s@, t@, o), s@.len() as int, t@.len() as int, a, b) ==> diffs_of(
            JsonValue::Array(s),
            JsonValue::Array(t),
            path,
            o,
        ).len() <= s@.len() + t@.len() - 2 * a.len(),
{
    let m = s@.len() as int;
    let n = t@.len() as int;
    let eq = elem_eq(s@, t@, o);
    law_lcs_trace_is_longest(eq, m, n, a, b);
    let tr = lcs_trace(eq, m, n);
    lemma_position_entries_unlisted_len(m, tr.0, path, PathBelongsTo::Base, DiffType::Deleted);
    lemma_position_entries_unlisted_len(n, tr.1, path, PathBelongsTo::Contrast, DiffType::Added);
}

/// Under the unordered method, no base element reported as deleted shows
/// no difference from a contrast element reported as added: the matching
/// leaves no equal pair behind.
pub proof fn law_unordered_leaves_no_equal_pair(s: Vec<JsonValue>, t: Vec<JsonValue>, o: CompareOptions)
    ensures
        forall|i: int, j: int|
            0 <= i < s@.len() && 0 <= j < t@.len()
                && !(#[trigger] unordered_matching(elem_eq(s@, t@, o), s@.len() as int, t@.len() as int).1[i])
                && !(#[trigger] unordered_matching(elem_eq(s@, t@, o), s@.len() as int, t@.len() as int).0[j])
                ==> !no_difference(s@[i], t@[j], o),
{
    let eq = elem_eq(s@, t@, o);
    law_unordered_leftovers_unequal(eq, s@.len() as int, t@.len() as int);
    assert forall|i: int, j: int|
        0 <= i < s@.len() && 0 <= j < t@.len()
            && !(#[trigger] unordered_matching(eq, s@.len() as int, t@.len() as int).1[i])
            && !(#[trigger] unordered_matching(eq, s@.len() as int, t@.len() as int).0[j])
            implies !no_difference(s@[i], t@[j], o) by {
        assert(!eq(i, j));
    }
}

/// The unordered method compares arrays as multisets: when the contrast
/// holds the base's elements reordered by `p`, and showing no difference is
/// symmetric and transitive among those elements, nothing is reported.
pub proof fn law_unordered_ignores_reordering(
    s: Vec<JsonValue>,
    t: Vec<JsonValue>,
    path: Seq<Seq<char>>,
    o: CompareOptions,
    p: Seq<int>,
    pi: Seq<int>,
)
    requires
        o.array_compare_method == Some(ArrayCompareMethod::Unordered),
        t@.len() == s@.len(),
        inverse_permutations(p, pi, s@.len() as int),
        forall|j: int| 0 <= j < t@.len() ==> #[trigger] t@[j] == s@[p[j]],
        forall|a: int| 0 <= a < s@.len() ==> well_formed(#[trigger] s@[a]),
        forall|a: int, b: int|
            0 <= a < s@.len() && 0 <= b < s@.len() && #[trigger] no_difference(s@[a], s@[b], o) ==> no_difference(
                s@[b],
                s@[a],
                o,
            ),
        forall|a: int, b: int, c: int|
            0 <= a < s@.len() && 0 <= b < s@.len() && 0 <= c < s@.len() && #[trigger] no_difference(s@[a], s@[b], o)
                && #[trigger] no_difference(s@[b], s@[c], o) ==> no_difference(s@[a], s@[c], o),
    ensures
        diffs_of(JsonValue::Array(s), JsonValue::Array(t), path, o).len() == 0,
{
    let n = s@.len() as int;
    let eq = elem_eq(s@, t@, o);
    let e = |a: int, b: int| no_difference(s@[a], s@[b], o);
    assert forall|a: int| 0 <= a < n implies #[trigger] e(a, a) by {
        law_compare_with_itself(s@[a], seq![], o);
    }
    assert(is_equivalence(e, n));
    assert forall|i: int, j: int| 0 <= i < n && 0 <= j < n implies #[trigger] eq(i, j) == e(i, p[j]) by {
        assert(t@[j] == s@[p[j]]);
    }
    law_unordered_matches_reorderings(eq, e, p, pi, n);
    let um = unordered_matching(eq, n, n);
    crate::unordered::lemma_unordered_matching_shape(eq, n, n);
    assert forall|i: int| 0 <= i < n implies #[trigger] flagged_in(um.1)(i) by {
        assert(um.1[i]);
    }
    assert forall|i: int| 0 <= i < n implies #[trigger] flagged_in(um.0)(i) by {
        assert(um.0[i]);
    }
    lemma_position_entries_empty(n, flagged_in(um.1), path, PathBelongsTo::Base, DiffType::Deleted);
    lemma_position_entries_empty(n, flagged_in(um.0), path, PathBelongsTo::Contrast, DiffType::Added);
}

/// Two values of different JSON types are reported once, as a change of
/// type at the path itself, unless they are a string and a number that the
/// numeric-string option lets match, in which case nothing is reported.
pub proof fn law_type_change(base: JsonValue, contrast: JsonValue, path: Seq<Seq<char>>, o: CompareOptions)
    requires
        !same_json_type(base, contrast),
    ensures
        o.numeric_string_equals_number && numeric_match(base, contrast) ==> diffs_of(base, contrast, path, o).len() == 0,
        !(o.numeric_string_equals_number && numeric_match(base, contrast)) ==> diffs_of(base, contrast, path, o) == seq![
            entry(path, PathBelongsTo::Both, DiffType::TypeChanged),
        ],
{
}

/// No string of `base` can face a string of `contrast`: the two are not
/// both strings, and, for two arrays (or two objects), no element (or member
/// value) of the base can face any element (or member value) of the
/// contrast, whichever way they are paired.
pub open spec fn strings_never_meet(base: JsonValue, contrast: JsonValue) -> bool
    decreases base,
{
    match (base, contrast) {
        (JsonValue::String(_), JsonValue::String(_)) => false,
        (JsonValue::Array(s), JsonValue::Array(t)) => forall|i: int, j: int|
            0 <= i < s@.len() && 0 <= j < t@.len() ==> strings_never_meet(#[trigger] s@[i], #[trigger] t@[j]),
        (JsonValue::Object(s), JsonValue::Object(t)) => forall|i: int, j: int|
            0 <= i < s@.len() && 0 <= j < t@.len() ==> strings_never_meet(#[trigger] s@[i].1, #[trigger] t@[j].1),
        _ => true,
    }
}

/// Case-insensitive values apply to strings only: wherever no string can be
/// compared with a string (in particular for two scalars that are not both
/// strings), setting or clearing `value_case_insensitive` changes nothing.
pub proof fn law_value_case_applies_to_strings_only(
    base: JsonValue,
    contrast: JsonValue,
    path: Seq<Seq<char>>,
    o1: CompareOptions,
    o2: CompareOptions,
)
    requires
        strings_never_meet(base, contrast),
        o1.array_compare_method == o2.array_compare_method,
        o1.key_case_insensitive == o2.key_case_insensitive,
        o1.numeric_string_equals_number == o2.numeric_string_equals_number,
    ensures
        diffs_of(base, contrast, path, o1) == diffs_of(base, contrast, path, o2),
    decreases base,
{
    match (base, contrast) {
        (JsonValue::Object(s), JsonValue::Object(t)) => {
            let ci = o1.key_case_insensitive;
            let st = match_state(s@, t@, ci, s@.len() as int);
            let m1 = member_entries(s@, t@, st.0, path, o1);
            let m2 = member_entries(s@, t@, st.0, path, o2);
            assert forall|i: int| 0 <= i < s@.len() implies #[trigger] m1(i) == m2(i) by {
                if i < st.0.len() {
                    match st.0[i] {
                        Some(j) => {
                            if 0 <= j < t@.len() {
                                assert(decreases_to!(base => s));
                                assert(decreases_to!(s => s@));
                                assert(decreases_to!(s@ => s@[i]));
                                assert(decreases_to!(s@[i] => s@[i].1));
                                assert(strings_never_meet(s@[i].1, t@[j].1));
                                law_value_case_applies_to_strings_only(s@[i].1, t@[j].1, path.push(s@[i].0@), o1, o2);
                            }
                        },
                        None => {},
                    }
                }
            }
            lemma_concat_map_congruent(s@.len() as int, m1, m2);
        },
        (JsonValue::Array(s), JsonValue::Array(t)) => {
            let eq1 = elem_eq(s@, t@, o1);
            let eq2 = elem_eq(s@, t@, o2);
            assert forall|i: int, j: int| #[trigger] eq1(i, j) == eq2(i, j) by {
                if 0 <= i < s@.len() && 0 <= j < t@.len() {
                    assert(decreases_to!(base => s));
                    assert(decreases_to!(s => s@));
                    assert(decreases_to!(s@ => s@[i]));
                    assert(strings_never_meet(s@[i], t@[j]));
                    law_value_case_applies_to_strings_only(s@[i], t@[j], seq![], o1, o2);
                }
            }
            assert(eq1 =~= eq2);
            let p1 = pair_entries(s@, t@, path, o1);
            let p2 = pair_entries(s@, t@, path, o2);
            assert forall|i: int| 0 <= i < s@.len() implies #[trigger] p1(i) == p2(i) by {
                if i < t@.len() {
                    assert(decreases_to!(base => s));
                    assert(decreases_to!(s => s@));
                    assert(decreases_to!(s@ => s@[i]));
                    assert(strings_never_meet(s@[i], t@[i]));
                    law_value_case_applies_to_strings_only(s@[i], t@[i], path.push(index_segment(i as nat)), o1, o2);
                }
            }
            let min = if s@.len() <= t@.len() { s@.len() as int } else { t@.len() as int };
            lemma_concat_map_congruent(min, p1, p2);
        },
        _ => {
            assert(scalar_values_equal(base, contrast, o1) == scalar_values_equal(base, contrast, o2));
        },
    }
}

/// For a scalar base, `value_case_insensitive` matters only when both
/// sides are strings.
pub proof fn law_value_case_scalars(
    base: JsonValue,
    contrast: JsonValue,
    path: Seq<Seq<char>>,
    o1: CompareOptions,
    o2: CompareOptions,
)
    requires
        !(base is Array),
        !(base is Object),
        !(base is String && contrast is String),
        o1.array_compare_method == o2.array_compare_method,
        o1.key_case_insensitive == o2.key_case_insensitive,
        o1.numeric_string_equals_number == o2.numeric_string_equals_number,
    ensures
        diffs_of(base, contrast, path, o1) == diffs_of(base, contrast, path, o2),
{
    assert(strings_never_meet(base, contrast));
    law_value_case_applies_to_strings_only(base, contrast, path, o1, o2);
}

/// Some member of `t` has key `key`.
pub open spec fn has_key(t: Seq<(String, JsonValue)>, key: Seq<char>) -> bool {
    exists|j: int| 0 <= j < t.len() && #[trigger] t[j].0@ == key
}

/// The position of a member of `t` with key `key`, where there is one.
pub open spec fn key_position(t: Seq<(String, JsonValue)>, key: Seq<char>) -> int {
    choose|j: int| 0 <= j < t.len() && #[trigger] t[j].0@ == key
}

/// Base member `i` looked up by its key: the differences of its value
/// against the contrast value under the same key, or its deletion where
/// the contrast has no such key.
pub open spec fn keyed_member_entries(
    s: Seq<(String, JsonValue)>,
    t: Seq<(String, JsonValue)>,
    path: Seq<Seq<char>>,
    o: CompareOptions,
) -> spec_fn(int) -> Seq<DiffEntry>
    decreases s,
{
    |i: int|
        if 0 <= i < s.len() {
            let p = path.push(s[i].0@);
            if has_key(t, s[i].0@) {
                diffs_of(s[i].1, t[key_position(t, s[i].0@)].1, p, o)
            } else {
                seq![entry(p, PathBelongsTo::Base, DiffType::Deleted)]
            }
        } else {
            seq![]
        }
}

/// Contrast member `j`'s addition, where the base has no member with its key.
pub open spec fn keyed_added_entries(
    s: Seq<(String, JsonValue)>,
    t: Seq<(String, JsonValue)>,
    path: Seq<Seq<char>>,
) -> spec_fn(int) -> Seq<DiffEntry> {
    |j: int|
        if 0 <= j < t.len() && !has_key(s, t[j].0@) {
            seq![entry(path.push(t[j].0@), PathBelongsTo::Contrast, DiffType::Added)]
        } else {
            seq![]
        }
}

/// With keys compared exactly and distinct in the contrast, a base key
/// finds the contrast member with that key, whatever is already taken.
proof fn lemma_pick_by_key(t: Seq<(String, JsonValue)>, key: Seq<char>, matched: Seq<bool>)
    requires
        distinct_keys(t),
    ensures
        crate::spec::pick_target(t, key, matched, false, 0) == if has_key(t, key) {
            Some(key_position(t, key))
        } else {
            None::<int>
        },
{
    lemma_pick_target(t, key, matched, false, 0);
    match crate::spec::pick_target(t, key, matched, false, 0) {
        Some(r) => {
            assert(t[r].0@ == key);
            assert(has_key(t, key));
            let c = key_position(t, key);
            assert(0 <= c < t.len() && t[c].0@ == key);
            if c != r {
                assert(t[c].0@ != t[r].0@);
            }
        },
        None => {
            if has_key(t, key) {
                let c = key_position(t, key);
                assert(key_matches(t[c].0@, key, false));
                assert(false);
            }
        },
    }
}

/// With keys compared exactly, a contrast member is taken only by a base
/// member with the same key.
proof fn lemma_taken_has_key(s: Seq<(String, JsonValue)>, t: Seq<(String, JsonValue)>, k: int)
    requires
        0 <= k <= s.len(),
    ensures
        forall|j: int| 0 <= j < t.len() && #[trigger] match_state(s, t, false, k).1[j]
            ==> has_key(s.subrange(0, k), t[j].0@),
    decreases k,
{
    crate::spec::lemma_match_state_shape(s, t, false, k);
    if k > 0 {
        lemma_taken_has_key(s, t, k - 1);
        crate::spec::lemma_match_state_shape(s, t, false, k - 1);
        let prev = match_state(s, t, false, k - 1);
        let key = s[k - 1].0@;
        lemma_pick_target(t, key, prev.1, false, 0);
        assert forall|j: int| 0 <= j < t.len() && #[trigger] match_state(s, t, false, k).1[j]
            implies has_key(s.subrange(0, k), t[j].0@) by {
            let pre = s.subrange(0, k);
            match crate::spec::pick_target(t, key, prev.1, false, 0) {
                Some(r) => {
                    if j == r {
                        assert(pre[k - 1].0@ == t[j].0@);
                    } else {
                        assert(prev.1[j]);
                        let w = key_position(s.subrange(0, k - 1), t[j].0@);
                        assert(pre[w].0@ == t[j].0@);
                    }
                },
                None => {
                    assert(prev.1[j]);
                    let w = key_position(s.subrange(0, k - 1), t[j].0@);
                    assert(pre[w].0@ == t[j].0@);
                },
            }
        }
    }
}

/// With keys compared exactly and no key repeated in the contrast, objects
/// are compared key by key: each base member in turn gives the differences
/// of its value against the contrast value with the same key, or one
/// deletion where the contrast lacks that key; then each contrast member
/// whose key the base lacks gives one addition, in contrast order. Every
/// path is the base-side key below `path`.
pub proof fn law_object_members_by_key(
    s: Vec<(String, JsonValue)>,
    t: Vec<(String, JsonValue)>,
    path: Seq<Seq<char>>,
    o: CompareOptions,
)
    requires
        !o.key_case_insensitive,
        distinct_keys(t@),
    ensures
        diffs_of(JsonValue::Object(s), JsonValue::Object(t), path, o) == concat_map(
            s@.len() as int,
            keyed_member_entries(s@, t@, path, o),
        ) + concat_map(t@.len() as int, keyed_added_entries(s@, t@, path)),
{
    let m = s@.len() as int;
    let st = match_state(s@, t@, false, m);
    crate::spec::lemma_match_state_shape(s@, t@, false, m);
    let members = member_entries(s@, t@, st.0, path, o);
    let keyed = keyed_member_entries(s@, t@, path, o);
    assert forall|i: int| 0 <= i < m implies #[trigger] members(i) == keyed(i) by {
        crate::spec::lemma_match_state_shape(s@, t@, false, i);
        let prev = match_state(s@, t@, false, i);
        let key = s@[i].0@;
        assert(match_state(s@, t@, false, i + 1).0[i] == st.0[i]);
        assert(match_state(s@, t@, false, i + 1).0 == prev.0.push(
            crate::spec::pick_target(t@, key, prev.1, false, 0),
        ));
        lemma_pick_by_key(t@, key, prev.1);
        if has_key(t@, key) {
            let c = key_position(t@, key);
            assert(0 <= c < t@.len() && t@[c].0@ == key);
        }
    }
    lemma_concat_map_congruent(m, members, keyed);
    let added = added_member_entries(s@, t@, st.1, path, false);
    let keyed_added = keyed_added_entries(s@, t@, path);
    lemma_taken_has_key(s@, t@, m);
    assert(s@.subrange(0, m) =~= s@);
    assert forall|j: int| 0 <= j < t@.len() implies #[trigger] added(j) == keyed_added(j) by {
        let key = t@[j].0@;
        if has_key(s@, key) {
            let w = key_position(s@, key);
            assert(key_matches(s@[w].0@, key, false));
            assert(crate::spec::base_has_key(s@, key, false));
        } else {
            assert(!st.1[j]);
            if crate::spec::base_has_key(s@, key, false) {
                let w = choose|i: int| 0 <= i < s@.len() && key_matches(#[trigger] s@[i].0@, key, false);
                assert(s@[w].0@ == key);
                assert(false);
            }
        }
    }
    lemma_concat_map_congruent(t@.len() as int, added, keyed_added);
}

/// Numbers compare by value. Two integers differ exactly when they are
/// unequal; any other two numbers differ exactly when their doubles differ
/// (so an integer equals the double with the same value). A difference is a
/// single change of value at the path, and the order of the two does not
/// matter.
pub proof fn law_numbers_compare_by_value(a: JsonNumber, b: JsonNumber, path: Seq<Seq<char>>, o: CompareOptions)
    ensures
        (a.integer is Some && b.integer is Some) ==> (diffs_of(
            JsonValue::Number(a),
            JsonValue::Number(b),
            path,
            o,
        ).len() == 0 <==> a.integer == b.integer),
        !(a.integer is Some && b.integer is Some) ==> (diffs_of(
            JsonValue::Number(a),
            JsonValue::Number(b),
            path,
            o,
        ).len() == 0 <==> a.f64_key == b.f64_key),
        diffs_of(JsonValue::Number(a), JsonValue::Number(b), path, o).len() == 0 || diffs_of(
            JsonValue::Number(a),
            JsonValue::Number(b),
            path,
            o,
        ) == seq![entry(path, PathBelongsTo::Both, DiffType::ValueChanged)],
        diffs_of(JsonValue::Number(a), JsonValue::Number(b), path, o) == diffs_of(
            JsonValue::Number(b),
            JsonValue::Number(a),
            path,
            o,
        ),
{
}

/// A number and a string always differ in type. With
/// `numeric_string_equals_number` set they show no difference exactly when
/// the string reads as a double equal to the number, whichever side each is
/// on; otherwise, and without the option, they give one change of type at
/// the path.
pub proof fn law_numeric_strings(n: JsonNumber, s: JsonString, path: Seq<Seq<char>>, o: CompareOptions)
    ensures
        diffs_of(JsonValue::Number(n), JsonValue::String(s), path, o) == diffs_of(
            JsonValue::String(s),
            JsonValue::Number(n),
            path,
            o,
        ),
        o.numeric_string_equals_number ==> (diffs_of(
            JsonValue::Number(n),
            JsonValue::String(s),
            path,
            o,
        ).len() == 0 <==> s.f64_key == Some(n.f64_key)),
        !o.numeric_string_equals_number ==> diffs_of(JsonValue::Number(n), JsonValue::String(s), path, o)
            == seq![entry(path, PathBelongsTo::Both, DiffType::TypeChanged)],
        diffs_of(JsonValue::Number(n), JsonValue::String(s), path, o).len() == 0 || diffs_of(
            JsonValue::Number(n),
            JsonValue::String(s),
            path,
            o,
        ) == seq![entry(path, PathBelongsTo::Both, DiffType::TypeChanged)],
{
}

/// Two strings show no difference exactly when their texts are equal, or,
/// with `value_case_insensitive` set, when their lower-case forms are equal.
/// A difference is a single change of value at the path, and the order of
/// the two does not matter.
pub proof fn law_string_values(x: JsonString, y: JsonString, path: Seq<Seq<char>>, o: CompareOptions)
    ensures
        o.value_case_insensitive ==> (diffs_of(JsonValue::String(x), JsonValue::String(y), path, o).len() == 0
            <==> lowercase(x.text@) == lowercase(y.text@)),
        !o.value_case_insensitive ==> (diffs_of(JsonValue::String(x), JsonValue::String(y), path, o).len() == 0
            <==> x.text@ == y.text@),
        x.text@ == y.text@ ==> diffs_of(JsonValue::String(x), JsonValue::String(y), path, o).len() == 0,
        diffs_of(JsonValue::String(x), JsonValue::String(y), path, o).len() == 0 || diffs_of(
            JsonValue::String(x),
            JsonValue::String(y),
            path,
            o,
        ) == seq![entry(path, PathBelongsTo::Both, DiffType::ValueChanged)],
        diffs_of(JsonValue::String(x), JsonValue::String(y), path, o) == diffs_of(
            JsonValue::String(y),
            JsonValue::String(x),
            path,
            o,
        ),
{
}

/// Two values have the same JSON type exactly when their type names agree.
pub proof fn law_same_type_is_same_type_name(a: JsonValue, b: JsonValue)
    ensures
        same_json_type(a, b) <==> json_type_name(a) == json_type_name(b),
{
    if !same_json_type(a, b) {
        assert(json_type_name(a).len() != json_type_name(b).len() || json_type_name(a)[0] != json_type_name(b)[0]);
    }
}

/// Values of different JSON types (by name) give one change of type at the
/// path, unless a numeric string meets its number with
/// `numeric_string_equals_number` set; values of one scalar type never give
/// a change of type, only nothing or one change of value.
pub proof fn law_type_names_decide_type_change(base: JsonValue, contrast: JsonValue, path: Seq<Seq<char>>, o: CompareOptions)
    ensures
        json_type_name(base) != json_type_name(contrast) && !(o.numeric_string_equals_number && numeric_match(base, contrast))
            ==> diffs_of(base, contrast, path, o) == seq![entry(path, PathBelongsTo::Both, DiffType::TypeChanged)],
        json_type_name(base) != json_type_name(contrast) && o.numeric_string_equals_number && numeric_match(base, contrast)
            ==> diffs_of(base, contrast, path, o).len() == 0,
        json_type_name(base) == json_type_name(contrast) && !(base is Array) && !(base is Object) ==> (diffs_of(
            base,
            contrast,
            path,
            o,
        ).len() == 0 || diffs_of(base, contrast, path, o) == seq![entry(path, PathBelongsTo::Both, DiffType::ValueChanged)]),
{
    law_same_type_is_same_type_name(base, contrast);
}

/// A text takes at least one UTF-8 byte per character.
proof fn lemma_utf8_len_at_least_chars(s: Seq<char>)
    ensures
        s.len() <= utf8_len(s),
    decreases s.len(),
{
    if s.len() > 0 {
        lemma_utf8_len_at_least_chars(s.drop_last());
    }
}

/// The key column is as wide as the widest of the first `n` key cells
/// (counted in UTF-8 bytes) and `floor`: no cell is wider, and the width is
/// `floor` or the width of one of the cells.
pub proof fn law_key_width_covers_every_row(ds: Seq<DiffEntry>, n: int, floor: nat)
    requires
        0 <= n <= ds.len(),
    ensures
        floor <= key_width(ds, n, floor),
        forall|i: int| 0 <= i < n ==> utf8_len(row_key(#[trigger] ds[i])) <= key_width(ds, n, floor),
        key_width(ds, n, floor) == floor || exists|i: int|
            0 <= i < n && key_width(ds, n, floor) == utf8_len(row_key(#[trigger] ds[i])),
    decreases n,
{
    if n > 0 {
        law_key_width_covers_every_row(ds, n - 1, floor);
        if key_width(ds, n, floor) != floor && key_width(ds, n, floor) != key_width(ds, n - 1, floor) {
            assert(key_width(ds, n, floor) == utf8_len(row_key(ds[n - 1])));
        }
    }
}

/// The change-type column is as wide as the widest of the first `n`
/// change-type names and `floor`: no name is wider, and the width is
/// `floor` or the width of one of the names.
pub proof fn law_type_width_covers_every_row(ds: Seq<DiffEntry>, n: int, floor: nat)
    requires
        0 <= n <= ds.len(),
    ensures
        floor <= type_width(ds, n, floor),
        forall|i: int| 0 <= i < n ==> utf8_len((#[trigger] ds[i]).kind.name()) <= type_width(ds, n, floor),
        type_width(ds, n, floor) == floor || exists|i: int|
            0 <= i < n && type_width(ds, n, floor) == utf8_len((#[trigger] ds[i]).kind.name()),
    decreases n,
{
    if n > 0 {
        law_type_width_covers_every_row(ds, n - 1, floor);
        if type_width(ds, n, floor) != floor && type_width(ds, n, floor) != type_width(ds, n - 1, floor) {
            assert(type_width(ds, n, floor) == utf8_len(ds[n - 1].kind.name()));
        }
    }
}

/// The table's lines line up: with the column widths of the table of `ds`,
/// the header and every row take the same number of characters (their
/// borders at the same places), and every border line one fewer (it has no
/// newline).
pub proof fn law_table_rows_aligned(ds: Seq<DiffEntry>)
    ensures
        forall|i: int| 0 <= i < ds.len() ==> (#[trigger] row_line(
            row_key(ds[i]),
            ds[i].kind.name(),
            key_width(ds, ds.len() as int, utf8_len(text_key())),
            type_width(ds, ds.len() as int, utf8_len(text_change_type())),
        )).len() == row_line(
            text_key(),
            text_change_type(),
            key_width(ds, ds.len() as int, utf8_len(text_key())),
            type_width(ds, ds.len() as int, utf8_len(text_change_type())),
        ).len(),
        forall|l: char, m: char, r: char| (#[trigger] border(
            l,
            m,
            r,
            key_width(ds, ds.len() as int, utf8_len(text_key())),
            type_width(ds, ds.len() as int, utf8_len(text_change_type())),
        )).len() + 1 == row_line(
            text_key(),
            text_change_type(),
            key_width(ds, ds.len() as int, utf8_len(text_key())),
            type_width(ds, ds.len() as int, utf8_len(text_change_type())),
        ).len(),
{
    let n = ds.len() as int;
    let wk = key_width(ds, n, utf8_len(text_key()));
    let wt = type_width(ds, n, utf8_len(text_change_type()));
    law_key_width_covers_every_row(ds, n, utf8_len(text_key()));
    law_type_width_covers_every_row(ds, n, utf8_len(text_change_type()));
    lemma_utf8_len_at_least_chars(text_key());
    lemma_utf8_len_at_least_chars(text_change_type());
    assert(row_line(text_key(), text_change_type(), wk, wt).len() == wk + wt + 8);
    assert forall|i: int| 0 <= i < n implies (#[trigger] row_line(row_key(ds[i]), ds[i].kind.name(), wk, wt)).len()
        == wk + wt + 8 by {
        lemma_utf8_len_at_least_chars(row_key(ds[i]));
        lemma_utf8_len_at_least_chars(ds[i].kind.name());
    }
}

} // verus!
