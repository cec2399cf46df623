//! Counting.

use vstd::prelude::*;

verus! {

/// How often `x` occurs in `s`.
pub open spec fn tally<T>(s: Seq<T>, x: T) -> nat
    decreases s.len(),
{
    if s.len() == 0 {
        0
    } else {
        tally(s.drop_last(), x) + if s.last() == x {
            1nat
        } else {
            0nat
        }
    }
}

/// The sum of `f(0)` up to `f(n - 1)`.
pub open spec fn total(n: nat, f: spec_fn(int) -> nat) -> nat
    decreases n,
{
    if n == 0 {
        0
    } else {
        total((n - 1) as nat, f) + f(n - 1)
    }
}

/// What is counted in two sequences adds up.
pub proof fn lemma_tally_add<T>(a: Seq<T>, b: Seq<T>, x: T)
    ensures
        tally(a + b, x) == tally(a, x) + tally(b, x),
    decreases b.len(),
{
    if b.len() == 0 {
        assert(a + b =~= a);
    } else {
        lemma_tally_add(a, b.drop_last(), x);
        assert((a + b).drop_last() =~= a + b.drop_last());
    }
}

/// Equal summands have equal sums.
pub proof fn lemma_total_same(n: nat, f: spec_fn(int) -> nat, g: spec_fn(int) -> nat)
    requires
        forall|w: int| 0 <= w < n ==> #[trigger] f(w) == g(w),
    ensures
        total(n, f) == total(n, g),
    decreases n,
{
    if n > 0 {
        lemma_total_same((n - 1) as nat, f, g);
        assert(f(n - 1) == g(n - 1));
    }
}

/// Larger summands have a larger sum.
pub proof fn lemma_total_le(n: nat, f: spec_fn(int) -> nat, g: spec_fn(int) -> nat)
    requires
        forall|w: int| 0 <= w < n ==> #[trigger] f(w) <= g(w),
    ensures
        total(n, f) <= total(n, g),
    decreases n,
{
    if n > 0 {
        lemma_total_le((n - 1) as nat, f, g);
        assert(f(n - 1) <= g(n - 1));
    }
}

/// A sum of nothing but ones.
pub proof fn lemma_total_ones(n: nat, f: spec_fn(int) -> nat)
    requires
        forall|w: int| 0 <= w < n ==> #[trigger] f(w) == 1,
    ensures
        total(n, f) == n,
    decreases n,
{
    if n > 0 {
        lemma_total_ones((n - 1) as nat, f);
        assert(f(n - 1) == 1);
    }
}

/// Sums add up.
pub proof fn lemma_total_add(
    n: nat,
    f: spec_fn(int) -> nat,
    g: spec_fn(int) -> nat,
    h: spec_fn(int) -> nat,
)
    requires
        forall|w: int| 0 <= w < n ==> #[trigger] h(w) == f(w) + g(w),
    ensures
        total(n, h) == total(n, f) + total(n, g),
    decreases n,
{
    if n > 0 {
        lemma_total_add((n - 1) as nat, f, g, h);
        assert(h(n - 1) == f(n - 1) + g(n - 1));
    }
}

/// A sum of nothing but zeros.
pub proof fn lemma_total_zero(n: nat, f: spec_fn(int) -> nat)
    requires
        forall|w: int| 0 <= w < n ==> #[trigger] f(w) == 0,
    ensures
        total(n, f) == 0,
    decreases n,
{
    if n > 0 {
        lemma_total_zero((n - 1) as nat, f);
        assert(f(n - 1) == 0);
    }
}

/// A sum with one summand that is not zero.
pub proof fn lemma_total_single(n: nat, f: spec_fn(int) -> nat, at: int)
    requires
        0 <= at < n,
        forall|w: int| 0 <= w < n && w != at ==> #[trigger] f(w) == 0,
    ensures
        total(n, f) == f(at),
    decreases n,
{
    if at == n - 1 {
        lemma_total_zero((n - 1) as nat, f);
    } else {
        lemma_total_single((n - 1) as nat, f, at);
        assert(f(n - 1) == 0);
    }
}

} // verus!
