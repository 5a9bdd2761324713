//! Finite sums.

use vstd::prelude::*;

verus! {

/// `f(lo) + ... + f(hi - 1)`.
pub open spec fn sum_over(f: spec_fn(int) -> int, lo: int, hi: int) -> int
    decreases hi - lo,
{
    if lo >= hi {
        0
    } else {
        sum_over(f, lo, hi - 1) + f(hi - 1)
    }
}

/// A sum starts with its first term.
pub proof fn lemma_sum_first(f: spec_fn(int) -> int, lo: int, hi: int)
    requires
        lo < hi,
    ensures
        sum_over(f, lo, hi) == f(lo) + sum_over(f, lo + 1, hi),
    decreases hi - lo,
{
    reveal_with_fuel(sum_over, 2);
    if lo + 1 < hi {
        lemma_sum_first(f, lo, hi - 1);
    }
}

/// A sum of terms between 0 and `top` is at most `top` times their number.
pub proof fn lemma_sum_bound(f: spec_fn(int) -> int, lo: int, hi: int, top: int)
    requires
        lo <= hi,
        forall|i: int| lo <= i < hi ==> 0 <= #[trigger] f(i) <= top,
    ensures
        0 <= sum_over(f, lo, hi) <= (hi - lo) * top,
    decreases hi - lo,
{
    if lo < hi {
        lemma_sum_bound(f, lo, hi - 1, top);
        assert((hi - lo) * top == (hi - 1 - lo) * top + top) by (nonlinear_arith);
    } else {
        assert((hi - lo) * top == 0) by (nonlinear_arith)
            requires
                hi == lo,
        ;
    }
}

} // verus!
