//! Sizes of several things of the same size.

use vstd::prelude::*;

verus! {

/// The size of `n` things of size `r`.
pub open spec fn times(r: int, n: int) -> int {
    r * n
}

/// More things take more, each as much as the others.
pub broadcast proof fn lemma_times(r: int, i: int, j: int)
    requires
        0 <= r,
        i <= j,
    ensures
        i < j ==> (#[trigger] times(r, i)) + r <= #[trigger] times(r, j),
        j == i + 1 ==> times(r, j) == times(r, i) + r,
        0 <= i ==> 0 <= times(r, i),
        i == 0 ==> times(r, i) == 0,
        0 < r && 0 <= j ==> j <= times(r, j),
{
    assert(r * i + r * (j - i) == r * j) by (nonlinear_arith);
    if i < j {
        assert(r <= r * (j - i)) by (nonlinear_arith)
            requires
                i < j,
                0 <= r,
        ;
    }
    if 0 <= i {
        assert(0 <= r * i) by (nonlinear_arith)
            requires
                0 <= i,
                0 <= r,
        ;
    }
    assert(i == 0 ==> r * i == 0) by (nonlinear_arith);
    assert(j == i + 1 ==> r * (j - i) == r) by (nonlinear_arith);
    if 0 < r && 0 <= j {
        assert(j <= r * j) by (nonlinear_arith)
            requires
                0 < r,
                0 <= j,
        ;
    }
}

/// Things in two groups.
pub proof fn lemma_times_add(r: int, i: int, j: int)
    ensures
        times(r, i + j) == times(r, i) + times(r, j),
{
    assert(r * (i + j) == r * i + r * j) by (nonlinear_arith);
}

} // verus!
