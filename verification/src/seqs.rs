//! Concatenation of indexed pieces, with the facts that the comparison's
//! proofs use about it.
use vstd::prelude::*;

verus! {

/// `f(0) + f(1) + ... + f(n - 1)`.
pub open spec fn concat_map<T>(n: int, f: spec_fn(int) -> Seq<T>) -> Seq<T>
    decreases n,
{
    if n <= 0 {
        seq![]
    } else {
        concat_map(n - 1, f) + f(n - 1)
    }
}

/// When every piece is empty, so is their concatenation.
pub proof fn lemma_concat_map_empty<T>(n: int, f: spec_fn(int) -> Seq<T>)
    requires
        forall|i: int| 0 <= i < n ==> (#[trigger] f(i)).len() == 0,
    ensures
        concat_map(n, f).len() == 0,
    decreases n,
{
    if n > 0 {
        lemma_concat_map_empty(n - 1, f);
    }
}

/// A property held by every element of every piece is held by every element
/// of the concatenation.
pub proof fn lemma_concat_map_all<T>(n: int, f: spec_fn(int) -> Seq<T>, p: spec_fn(T) -> bool)
    requires
        forall|i: int, k: int| 0 <= i < n && 0 <= k < f(i).len() ==> #[trigger] p(#[trigger] f(i)[k]),
    ensures
        forall|k: int| 0 <= k < concat_map(n, f).len() ==> #[trigger] p(concat_map(n, f)[k]),
    decreases n,
{
    if n > 0 {
        lemma_concat_map_all(n - 1, f, p);
        let prev = concat_map(n - 1, f);
        let last = f(n - 1);
        assert forall|k: int| 0 <= k < concat_map(n, f).len() implies #[trigger] p(concat_map(n, f)[k]) by {
            if k < prev.len() {
                assert(concat_map(n, f)[k] == prev[k]);
            } else {
                assert(concat_map(n, f)[k] == last[k - prev.len()]);
            }
        }
    }
}

/// Pieces that agree give the same concatenation.
pub proof fn lemma_concat_map_congruent<T>(n: int, f: spec_fn(int) -> Seq<T>, g: spec_fn(int) -> Seq<T>)
    requires
        forall|i: int| 0 <= i < n ==> #[trigger] f(i) == g(i),
    ensures
        concat_map(n, f) == concat_map(n, g),
    decreases n,
{
    if n > 0 {
        lemma_concat_map_congruent(n - 1, f, g);
        assert(f(n - 1) == g(n - 1));
    }
}

} // verus!
