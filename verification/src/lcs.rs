//! Longest common subsequence of two index ranges under an equality on
//! index pairs, and the trace that the comparison follows back through it.
use vstd::prelude::*;

verus! {

/// The length of a longest common subsequence of the first `i` base
/// positions and the first `j` contrast positions, where base position `a`
/// and contrast position `b` may be paired when `eq(a, b)`.
pub open spec fn lcs_length(eq: spec_fn(int, int) -> bool, i: int, j: int) -> nat
    decreases i + j,
{
    if i <= 0 || j <= 0 {
        0
    } else if eq(i - 1, j - 1) {
        lcs_length(eq, i - 1, j - 1) + 1
    } else {
        let up = lcs_length(eq, i - 1, j);
        let left = lcs_length(eq, i, j - 1);
        if up >= left { up } else { left }
    }
}

/// The pairs picked when walking back from `(i, j)`: on equal elements both
/// positions are kept and both step back; otherwise the walk steps back in
/// the base when that keeps a strictly longer subsequence, and in the
/// contrast otherwise. The positions come out in increasing order.
pub open spec fn lcs_trace(eq: spec_fn(int, int) -> bool, i: int, j: int) -> (Seq<int>, Seq<int>)
    decreases i + j,
{
    if i <= 0 || j <= 0 {
        (seq![], seq![])
    } else if eq(i - 1, j - 1) {
        let p = lcs_trace(eq, i - 1, j - 1);
        (p.0.push(i - 1), p.1.push(j - 1))
    } else if lcs_length(eq, i - 1, j) > lcs_length(eq, i, j - 1) {
        lcs_trace(eq, i - 1, j)
    } else {
        lcs_trace(eq, i, j - 1)
    }
}

/// `a` and `b` pair up positions below `i` and `j`, each strictly
/// increasing, and every pair is equal.
pub open spec fn is_common_subsequence(
    eq: spec_fn(int, int) -> bool,
    i: int,
    j: int,
    a: Seq<int>,
    b: Seq<int>,
) -> bool {
    &&& a.len() == b.len()
    &&& forall|k: int| 0 <= k < a.len() ==> 0 <= #[trigger] a[k] < i
    &&& forall|k: int| 0 <= k < b.len() ==> 0 <= #[trigger] b[k] < j
    &&& forall|k: int, l: int| 0 <= k < l < a.len() ==> a[k] < a[l] && b[k] < b[l]
    &&& forall|k: int| 0 <= k < a.len() ==> eq(#[trigger] a[k], b[k])
}

pub proof fn lemma_lcs_length_bounds(eq: spec_fn(int, int) -> bool, i: int, j: int)
    ensures
        i >= 0 ==> lcs_length(eq, i, j) <= i,
        j >= 0 ==> lcs_length(eq, i, j) <= j,
    decreases i + j,
{
    if i > 0 && j > 0 {
        lemma_lcs_length_bounds(eq, i - 1, j - 1);
        lemma_lcs_length_bounds(eq, i - 1, j);
        lemma_lcs_length_bounds(eq, i, j - 1);
    }
}

/// Dropping a position changes the length by at most one, and never
/// lengthens it.
pub proof fn lemma_lcs_length_steps(eq: spec_fn(int, int) -> bool, i: int, j: int)
    requires
        i >= 1,
        j >= 1,
    ensures
        lcs_length(eq, i - 1, j) <= lcs_length(eq, i, j) <= lcs_length(eq, i - 1, j) + 1,
        lcs_length(eq, i, j - 1) <= lcs_length(eq, i, j) <= lcs_length(eq, i, j - 1) + 1,
    decreases i + j,
{
    if i >= 2 {
        lemma_lcs_length_steps(eq, i - 1, j);
    }
    if j >= 2 {
        lemma_lcs_length_steps(eq, i, j - 1);
    }
    if i >= 2 && j >= 2 {
        lemma_lcs_length_steps(eq, i - 1, j - 1);
    }
}

/// The trace is a common subsequence whose length is `lcs_length`.
pub proof fn lemma_lcs_trace_valid(eq: spec_fn(int, int) -> bool, i: int, j: int)
    requires
        i >= 0,
        j >= 0,
    ensures
        is_common_subsequence(eq, i, j, lcs_trace(eq, i, j).0, lcs_trace(eq, i, j).1),
        lcs_trace(eq, i, j).0.len() == lcs_length(eq, i, j),
    decreases i + j,
{
    if i > 0 && j > 0 {
        if eq(i - 1, j - 1) {
            lemma_lcs_trace_valid(eq, i - 1, j - 1);
            let p = lcs_trace(eq, i - 1, j - 1);
            let a = p.0.push(i - 1);
            let b = p.1.push(j - 1);
            assert forall|k: int, l: int| 0 <= k < l < a.len() implies a[k] < a[l] && b[k] < b[l] by {
                if l < a.len() - 1 {
                    assert(a[k] == p.0[k] && a[l] == p.0[l]);
                    assert(b[k] == p.1[k] && b[l] == p.1[l]);
                } else {
                    assert(a[k] == p.0[k]);
                    assert(b[k] == p.1[k]);
                }
            }
            assert forall|k: int| 0 <= k < a.len() implies eq(#[trigger] a[k], b[k]) by {
                if k < a.len() - 1 {
                    assert(a[k] == p.0[k] && b[k] == p.1[k]);
                }
            }
            assert forall|k: int| 0 <= k < a.len() implies 0 <= #[trigger] a[k] < i by {
                if k < a.len() - 1 {
                    assert(a[k] == p.0[k]);
                }
            }
            assert forall|k: int| 0 <= k < b.len() implies 0 <= #[trigger] b[k] < j by {
                if k < b.len() - 1 {
                    assert(b[k] == p.1[k]);
                }
            }
        } else if lcs_length(eq, i - 1, j) > lcs_length(eq, i, j - 1) {
            lemma_lcs_trace_valid(eq, i - 1, j);
        } else {
            lemma_lcs_trace_valid(eq, i, j - 1);
        }
    }
}

/// No common subsequence is longer than `lcs_length`.
pub proof fn lemma_lcs_length_is_max(
    eq: spec_fn(int, int) -> bool,
    i: int,
    j: int,
    a: Seq<int>,
    b: Seq<int>,
)
    requires
        i >= 0,
        j >= 0,
        is_common_subsequence(eq, i, j, a, b),
    ensures
        a.len() <= lcs_length(eq, i, j),
    decreases i + j,
{
    if a.len() > 0 {
        let last = a.len() - 1;
        if a[last] < i - 1 {
            assert(is_common_subsequence(eq, i - 1, j, a, b)) by {
                assert forall|k: int| 0 <= k < a.len() implies 0 <= #[trigger] a[k] < i - 1 by {
                    if k < last {
                        assert(a[k] < a[last]);
                    }
                }
            }
            lemma_lcs_length_is_max(eq, i - 1, j, a, b);
            lemma_lcs_length_steps(eq, i, j);
        } else if b[last] < j - 1 {
            assert(is_common_subsequence(eq, i, j - 1, a, b)) by {
                assert forall|k: int| 0 <= k < b.len() implies 0 <= #[trigger] b[k] < j - 1 by {
                    if k < last {
                        assert(b[k] < b[last]);
                    }
                }
            }
            lemma_lcs_length_is_max(eq, i, j - 1, a, b);
            lemma_lcs_length_steps(eq, i, j);
        } else {
            assert(a[last] == i - 1 && b[last] == j - 1);
            assert(eq(a[last], b[last]));
            let a2 = a.drop_last();
            let b2 = b.drop_last();
            assert(is_common_subsequence(eq, i - 1, j - 1, a2, b2)) by {
                assert forall|k: int| 0 <= k < a2.len() implies 0 <= #[trigger] a2[k] < i - 1 by {
                    assert(a[k] < a[last]);
                }
                assert forall|k: int| 0 <= k < b2.len() implies 0 <= #[trigger] b2[k] < j - 1 by {
                    assert(b[k] < b[last]);
                }
                assert forall|k: int| 0 <= k < a2.len() implies eq(#[trigger] a2[k], b2[k]) by {
                    assert(a2[k] == a[k] && b2[k] == b[k]);
                }
            }
            lemma_lcs_length_is_max(eq, i - 1, j - 1, a2, b2);
        }
    }
}

/// When every position is equal to its counterpart, the trace keeps the
/// whole diagonal.
pub proof fn lemma_lcs_trace_diagonal(eq: spec_fn(int, int) -> bool, k: int)
    requires
        k >= 0,
        forall|i: int| 0 <= i < k ==> #[trigger] eq(i, i),
    ensures
        lcs_trace(eq, k, k).0 == Seq::new(k as nat, |i: int| i),
        lcs_trace(eq, k, k).1 == Seq::new(k as nat, |i: int| i),
    decreases k,
{
    if k > 0 {
        lemma_lcs_trace_diagonal(eq, k - 1);
        assert(eq(k - 1, k - 1));
        assert(Seq::new((k - 1) as nat, |i: int| i).push(k - 1) =~= Seq::new(k as nat, |i: int| i));
    }
}

/// The length of the longest common subsequence, and the trace, are the
/// longest possible: the trace is a common subsequence of that length, and
/// no common subsequence is longer.
pub proof fn law_lcs_trace_is_longest(eq: spec_fn(int, int) -> bool, m: int, n: int, a: Seq<int>, b: Seq<int>)
    requires
        m >= 0,
        n >= 0,
    ensures
        is_common_subsequence(eq, m, n, lcs_trace(eq, m, n).0, lcs_trace(eq, m, n).1),
        lcs_trace(eq, m, n).0.len() == lcs_length(eq, m, n),
        is_common_subsequence(eq, m, n, a, b) ==> a.len() <= lcs_length(eq, m, n),
{
    lemma_lcs_trace_valid(eq, m, n);
    if is_common_subsequence(eq, m, n, a, b) {
        lemma_lcs_length_is_max(eq, m, n, a, b);
    }
}

/// The length of the longest common subsequence at `(i, j)`, read from the
/// table of the lengths at positive prefixes.
fn table_get(d: &Vec<Vec<usize>>, i: usize, j: usize, Ghost(eq): Ghost<spec_fn(int, int) -> bool>, Ghost(n): Ghost<int>) -> (r: usize)
    requires
        i <= d@.len(),
        j <= n,
        forall|a: int| 0 <= a < d@.len() ==> (#[trigger] d@[a]).len() == n,
        forall|a: int, b: int| 0 <= a < d@.len() && 0 <= b < n ==> (#[trigger] d@[a]@[b]) == lcs_length(eq, a + 1, b + 1),
    ensures
        r == lcs_length(eq, i as int, j as int),
{
    if i == 0 || j == 0 {
        0
    } else {
        d[i - 1][j - 1]
    }
}

/// Fills the table of longest-common-subsequence lengths and walks back
/// through it. `eq_table[a][b]` tells whether base position `a` may be paired
/// with contrast position `b`.
pub(crate) fn compute_lcs(eq_table: &Vec<Vec<bool>>, n: usize, Ghost(eq): Ghost<spec_fn(int, int) -> bool>) -> (r: (Vec<usize>, Vec<usize>))
    requires
        forall|a: int| 0 <= a < eq_table@.len() ==> (#[trigger] eq_table@[a])@.len() == n,
        forall|a: int, b: int| 0 <= a < eq_table@.len() && 0 <= b < n ==> (#[trigger] eq_table@[a]@[b]) == eq(a, b),
    ensures
        r.0@.map_values(|x: usize| x as int) == lcs_trace(eq, eq_table@.len() as int, n as int).0,
        r.1@.map_values(|x: usize| x as int) == lcs_trace(eq, eq_table@.len() as int, n as int).1,
{
    let m = eq_table.len();
    // d[a][b] is the length at prefixes of lengths a + 1 and b + 1.
    let mut d: Vec<Vec<usize>> = Vec::new();
    let mut i: usize = 0;
    while i < m
        invariant
            m == eq_table@.len(),
            i <= m,
            d@.len() == i,
            forall|a: int| 0 <= a < eq_table@.len() ==> (#[trigger] eq_table@[a])@.len() == n,
            forall|a: int, b: int| 0 <= a < eq_table@.len() && 0 <= b < n ==> (#[trigger] eq_table@[a]@[b]) == eq(a, b),
            forall|a: int| 0 <= a < d@.len() ==> (#[trigger] d@[a]).len() == n,
            forall|a: int, b: int| 0 <= a < d@.len() && 0 <= b < n ==> (#[trigger] d@[a]@[b]) == lcs_length(eq, a + 1, b + 1),
        decreases m - i,
    {
        let mut row: Vec<usize> = Vec::new();
        let mut j: usize = 0;
        while j < n
            invariant
                m == eq_table@.len(),
                i < m,
                j <= n,
                d@.len() == i,
                row@.len() == j,
                forall|a: int| 0 <= a < eq_table@.len() ==> (#[trigger] eq_table@[a])@.len() == n,
                forall|a: int, b: int| 0 <= a < eq_table@.len() && 0 <= b < n ==> (#[trigger] eq_table@[a]@[b]) == eq(a, b),
                forall|a: int| 0 <= a < d@.len() ==> (#[trigger] d@[a]).len() == n,
                forall|a: int, b: int| 0 <= a < d@.len() && 0 <= b < n ==> (#[trigger] d@[a]@[b]) == lcs_length(eq, a + 1, b + 1),
                forall|b: int| 0 <= b < j ==> (#[trigger] row@[b]) == lcs_length(eq, i + 1, b + 1),
            decreases n - j,
        {
            let v: usize;
            if eq_table[i][j] {
                let prev = table_get(&d, i, j, Ghost(eq), Ghost(n as int));
                proof {
                    lemma_lcs_length_bounds(eq, i as int, j as int);
                }
                v = prev + 1;
            } else {
                let up = table_get(&d, i, j + 1, Ghost(eq), Ghost(n as int));
                let left = if j == 0 { 0 } else { row[j - 1] };
                v = if up >= left { up } else { left };
                assert(left == lcs_length(eq, i + 1, j as int));
            }
            assert(v == lcs_length(eq, i + 1, j + 1));
            row.push(v);
            assert(row@[j as int] == v);
            j += 1;
        }
        d.push(row);
        i += 1;
    }
    let mut bm: Vec<usize> = Vec::new();
    let mut cm: Vec<usize> = Vec::new();
    let mut i: usize = m;
    let mut j: usize = n;
    let ghost full = lcs_trace(eq, m as int, n as int);
    while i > 0 && j > 0
        invariant
            m == eq_table@.len(),
            i <= m,
            j <= n,
            d@.len() == m,
            forall|a: int| 0 <= a < eq_table@.len() ==> (#[trigger] eq_table@[a])@.len() == n,
            forall|a: int, b: int| 0 <= a < eq_table@.len() && 0 <= b < n ==> (#[trigger] eq_table@[a]@[b]) == eq(a, b),
            forall|a: int| 0 <= a < d@.len() ==> (#[trigger] d@[a]).len() == n,
            forall|a: int, b: int| 0 <= a < d@.len() && 0 <= b < n ==> (#[trigger] d@[a]@[b]) == lcs_length(eq, a + 1, b + 1),
            full == lcs_trace(eq, m as int, n as int),
            full.0 == lcs_trace(eq, i as int, j as int).0 + bm@.map_values(|x: usize| x as int).reverse(),
            full.1 == lcs_trace(eq, i as int, j as int).1 + cm@.map_values(|x: usize| x as int).reverse(),
        decreases i + j,
    {
        if eq_table[i - 1][j - 1] {
            let ghost p = lcs_trace(eq, i - 1, j - 1);
            let ghost old_b = bm@.map_values(|x: usize| x as int);
            let ghost old_c = cm@.map_values(|x: usize| x as int);
            bm.push(i - 1);
            cm.push(j - 1);
            assert(bm@.map_values(|x: usize| x as int).reverse() =~= seq![(i - 1) as int] + old_b.reverse());
            assert(cm@.map_values(|x: usize| x as int).reverse() =~= seq![(j - 1) as int] + old_c.reverse());
            assert(p.0.push(i - 1) + old_b.reverse() =~= p.0 + (seq![(i - 1) as int] + old_b.reverse()));
            assert(p.1.push(j - 1) + old_c.reverse() =~= p.1 + (seq![(j - 1) as int] + old_c.reverse()));
            i -= 1;
            j -= 1;
        } else {
            let up = table_get(&d, i - 1, j, Ghost(eq), Ghost(n as int));
            let left = table_get(&d, i, j - 1, Ghost(eq), Ghost(n as int));
            if up > left {
                i -= 1;
            } else {
                j -= 1;
            }
        }
    }
    let ghost bv = bm@.map_values(|x: usize| x as int);
    let ghost cv = cm@.map_values(|x: usize| x as int);
    assert(full.0 =~= bv.reverse());
    assert(full.1 =~= cv.reverse());
    let rb = reversed(&bm);
    let rc = reversed(&cm);
    assert(rb@.map_values(|x: usize| x as int) =~= bv.reverse());
    assert(rc@.map_values(|x: usize| x as int) =~= cv.reverse());
    (rb, rc)
}

/// The elements of `v` in reverse order.
fn reversed(v: &Vec<usize>) -> (r: Vec<usize>)
    ensures
        r@ == v@.reverse(),
{
    let mut r: Vec<usize> = Vec::new();
    let mut k: usize = v.len();
    while k > 0
        invariant
            k <= v@.len(),
            r@ == v@.subrange(k as int, v@.len() as int).reverse(),
        decreases k,
    {
        k -= 1;
        r.push(v[k]);
        assert(v@.subrange(k as int, v@.len() as int).reverse() =~= v@.subrange(k + 1, v@.len() as int).reverse().push(v@[k as int]));
    }
    assert(v@.subrange(0, v@.len() as int) =~= v@);
    r
}

} // verus!
