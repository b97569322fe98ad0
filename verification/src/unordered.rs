//! Greedy multiset matching of two index ranges under an equality on index
//! pairs: each base position, in order, takes the first contrast position
//! that is still free and equal to it.
use vstd::prelude::*;

verus! {

/// The first contrast position at or after `j` that is not yet matched and
/// is equal to base position `i`.
pub open spec fn first_free_match(eq: spec_fn(int, int) -> bool, i: int, matched: Seq<bool>, j: int) -> Option<int>
    decreases matched.len() - j,
{
    if j < 0 || j >= matched.len() {
        None
    } else if !matched[j] && eq(i, j) {
        Some(j)
    } else {
        first_free_match(eq, i, matched, j + 1)
    }
}

/// After the first `m` base positions have been placed among `n` contrast
/// positions: which contrast positions are taken, and for each base position
/// whether it found a partner.
pub open spec fn unordered_matching(eq: spec_fn(int, int) -> bool, m: int, n: int) -> (Seq<bool>, Seq<bool>)
    decreases m,
{
    if m <= 0 {
        (Seq::new(n as nat, |j: int| false), seq![])
    } else {
        let prev = unordered_matching(eq, m - 1, n);
        match first_free_match(eq, m - 1, prev.0, 0) {
            Some(j) => (prev.0.update(j, true), prev.1.push(true)),
            None => (prev.0, prev.1.push(false)),
        }
    }
}

/// The taken flags cover the contrast positions, and the found flags grow
/// by one per base position without changing earlier ones.
pub proof fn lemma_unordered_matching_shape(eq: spec_fn(int, int) -> bool, m: int, n: int)
    requires
        m >= 0,
        n >= 0,
    ensures
        unordered_matching(eq, m, n).0.len() == n,
        unordered_matching(eq, m, n).1.len() == m,
        forall|i: int, k: int| 0 <= k < i <= m ==>
            #[trigger] unordered_matching(eq, i, n).1[k] == unordered_matching(eq, m, n).1[k],
    decreases m,
{
    if m > 0 {
        lemma_unordered_matching_shape(eq, m - 1, n);
        let prev = unordered_matching(eq, m - 1, n);
        lemma_first_free_match_range(eq, m - 1, prev.0, 0);
        assert forall|i: int, k: int| 0 <= k < i <= m implies
            #[trigger] unordered_matching(eq, i, n).1[k] == unordered_matching(eq, m, n).1[k] by {
            if i < m {
                assert(unordered_matching(eq, m, n).1[k] == prev.1[k]);
            }
        }
    }
}

/// A found position lies in range, is free, and is equal to the base
/// position; positions passed over are taken or unequal.
pub proof fn lemma_first_free_match_range(eq: spec_fn(int, int) -> bool, i: int, matched: Seq<bool>, j: int)
    requires
        j >= 0,
    ensures
        first_free_match(eq, i, matched, j) matches Some(r) ==> j <= r < matched.len() && !matched[r] && eq(i, r)
            && forall|q: int| j <= q < r ==> matched[q] || !eq(i, q),
        first_free_match(eq, i, matched, j) is None ==> forall|q: int| j <= q < matched.len() ==> matched[q] || !eq(i, q),
    decreases matched.len() - j,
{
    if j < matched.len() {
        lemma_first_free_match_range(eq, i, matched, j + 1);
    }
}

/// The greedy matching leaves no pair behind that it could still have
/// made: a base position that found no partner is unequal to every contrast
/// position left free at the end.
pub proof fn law_unordered_leftovers_unequal(eq: spec_fn(int, int) -> bool, m: int, n: int)
    requires
        m >= 0,
        n >= 0,
    ensures
        forall|i: int, j: int|
            0 <= i < m && 0 <= j < n && !(#[trigger] unordered_matching(eq, m, n).1[i]) && !(
            #[trigger] unordered_matching(eq, m, n).0[j]) ==> !eq(i, j),
    decreases m,
{
    lemma_unordered_matching_shape(eq, m, n);
    if m > 0 {
        law_unordered_leftovers_unequal(eq, m - 1, n);
        lemma_unordered_matching_shape(eq, m - 1, n);
        let prev = unordered_matching(eq, m - 1, n);
        let cur = unordered_matching(eq, m, n);
        lemma_first_free_match_range(eq, m - 1, prev.0, 0);
        assert forall|i: int, j: int|
            0 <= i < m && 0 <= j < n && !(#[trigger] cur.1[i]) && !(#[trigger] cur.0[j]) implies !eq(i, j) by {
            assert(!prev.0[j]);
            if i < m - 1 {
                assert(cur.1[i] == prev.1[i]);
            }
        }
    }
}

/// `q` and `r` are mutually inverse permutations of `0..n`.
pub open spec fn inverse_permutations(q: Seq<int>, r: Seq<int>, n: int) -> bool {
    &&& q.len() == n
    &&& r.len() == n
    &&& forall|j: int| 0 <= j < n ==> 0 <= #[trigger] q[j] < n && r[q[j]] == j
    &&& forall|i: int| 0 <= i < n ==> 0 <= #[trigger] r[i] < n && q[r[i]] == i
}

/// `e` is an equivalence on `0..n`.
pub open spec fn is_equivalence(e: spec_fn(int, int) -> bool, n: int) -> bool {
    &&& forall|a: int| 0 <= a < n ==> #[trigger] e(a, a)
    &&& forall|a: int, b: int| 0 <= a < n && 0 <= b < n && #[trigger] e(a, b) ==> e(b, a)
    &&& forall|a: int, b: int, c: int| 0 <= a < n && 0 <= b < n && 0 <= c < n && #[trigger] e(a, b) && #[trigger] e(b, c) ==> e(a, c)
}

/// After `k` steps on a reordering, the taken contrast positions can be
/// completed to a pairing of equal positions that pairs them with the base
/// positions below `k`: `q` pairs contrast `j` with base `q[j]`.
proof fn lemma_reordering_step(
    eq: spec_fn(int, int) -> bool,
    e: spec_fn(int, int) -> bool,
    p: Seq<int>,
    pi: Seq<int>,
    n: int,
    k: int,
) -> (qr: (Seq<int>, Seq<int>))
    requires
        0 <= k <= n,
        inverse_permutations(p, pi, n),
        is_equivalence(e, n),
        forall|i: int, j: int| 0 <= i < n && 0 <= j < n ==> #[trigger] eq(i, j) == e(i, p[j]),
    ensures
        inverse_permutations(qr.0, qr.1, n),
        forall|j: int| 0 <= j < n ==> #[trigger] e(qr.0[j], p[j]),
        forall|j: int| 0 <= j < n ==> (#[trigger] unordered_matching(eq, k, n).0[j] <==> qr.0[j] < k),
        forall|i: int| 0 <= i < k ==> #[trigger] unordered_matching(eq, k, n).1[i],
    decreases k,
{
    lemma_unordered_matching_shape(eq, k, n);
    if k == 0 {
        (p, pi)
    } else {
        let (q, r) = lemma_reordering_step(eq, e, p, pi, n, k - 1);
        lemma_unordered_matching_shape(eq, k - 1, n);
        let prev = unordered_matching(eq, k - 1, n);
        let base = k - 1;
        let j0 = r[base];
        assert(q[j0] == base);
        assert(!prev.0[j0]);
        assert(e(base, p[j0]));
        assert(eq(base, j0));
        lemma_first_free_match_range(eq, base, prev.0, 0);
        let found = first_free_match(eq, base, prev.0, 0);
        assert(found is Some);
        let js = found->0;
        assert(0 <= js < n && !prev.0[js] && eq(base, js));
        assert(e(base, p[js]));
        // Swap the partners of `js` and `j0`.
        let qs = q[js];
        let q2 = q.update(js, base).update(j0, qs);
        let r2 = r.update(base, js).update(qs, j0);
        assert(qs >= base);
        if js != j0 {
            assert(qs != base);
            assert(e(qs, p[js]));
            assert(e(p[js], base));
            assert(e(qs, base));
            assert(e(qs, p[j0]));
        }
        assert(inverse_permutations(q2, r2, n)) by {
            assert forall|j: int| 0 <= j < n implies 0 <= #[trigger] q2[j] < n && r2[q2[j]] == j by {
                if j == j0 {
                } else if j == js {
                } else {
                    assert(q2[j] == q[j]);
                    assert(q[j] != base && q[j] != qs);
                }
            }
            assert forall|i: int| 0 <= i < n implies 0 <= #[trigger] r2[i] < n && q2[r2[i]] == i by {
                if i == base {
                } else if i == qs {
                } else {
                    assert(r2[i] == r[i]);
                    assert(r[i] != j0 && r[i] != js);
                }
            }
        }
        assert forall|j: int| 0 <= j < n implies #[trigger] e(q2[j], p[j]) by {
            if j == j0 {
            } else if j == js {
            } else {
                assert(q2[j] == q[j]);
            }
        }
        let cur = unordered_matching(eq, k, n);
        assert(cur.0 == prev.0.update(js, true));
        assert forall|j: int| 0 <= j < n implies (#[trigger] cur.0[j] <==> q2[j] < k) by {
            if j == js {
            } else if j == j0 {
                assert(!prev.0[j0]);
            } else {
                assert(q2[j] == q[j]);
                assert(q[j] != base);
            }
        }
        assert forall|i: int| 0 <= i < k implies #[trigger] cur.1[i] by {
            if i < k - 1 {
                assert(cur.1[i] == prev.1[i]);
            }
        }
        (q2, r2)
    }
}

/// Greedy matching is a multiset match on reorderings: when the contrast
/// is a reordering `p` of the base and equality of base positions is an
/// equivalence, every base position finds a partner and every contrast
/// position is taken.
pub proof fn law_unordered_matches_reorderings(
    eq: spec_fn(int, int) -> bool,
    e: spec_fn(int, int) -> bool,
    p: Seq<int>,
    pi: Seq<int>,
    n: int,
)
    requires
        n >= 0,
        inverse_permutations(p, pi, n),
        is_equivalence(e, n),
        forall|i: int, j: int| 0 <= i < n && 0 <= j < n ==> #[trigger] eq(i, j) == e(i, p[j]),
    ensures
        forall|i: int| 0 <= i < n ==> #[trigger] unordered_matching(eq, n, n).1[i],
        forall|j: int| 0 <= j < n ==> #[trigger] unordered_matching(eq, n, n).0[j],
{
    let (q, r) = lemma_reordering_step(eq, e, p, pi, n, n);
    assert forall|j: int| 0 <= j < n implies #[trigger] unordered_matching(eq, n, n).0[j] by {
        assert(q[j] < n);
    }
}

/// When every base position is equal to the contrast position with the same
/// index, base position `i` takes contrast position `i`.
pub proof fn lemma_unordered_diagonal(eq: spec_fn(int, int) -> bool, k: int, n: int)
    requires
        0 <= k <= n,
        forall|i: int| 0 <= i < k ==> #[trigger] eq(i, i),
    ensures
        unordered_matching(eq, k, n).0 == Seq::new(n as nat, |j: int| j < k),
        unordered_matching(eq, k, n).1 == Seq::new(k as nat, |i: int| true),
    decreases k,
{
    if k == 0 {
        assert(unordered_matching(eq, 0, n).0 =~= Seq::new(n as nat, |j: int| j < 0));
        assert(unordered_matching(eq, 0, n).1 =~= Seq::new(0, |i: int| true));
    } else {
        lemma_unordered_diagonal(eq, k - 1, n);
        let prev = unordered_matching(eq, k - 1, n);
        lemma_first_free_match_range(eq, k - 1, prev.0, 0);
        assert(eq(k - 1, k - 1));
        assert(!prev.0[k - 1]);
        assert(first_free_match(eq, k - 1, prev.0, 0) == Some(k - 1));
        assert(prev.0.update(k - 1, true) =~= Seq::new(n as nat, |j: int| j < k));
        assert(prev.1.push(true) =~= Seq::new(k as nat, |i: int| true));
    }
}

} // verus!
