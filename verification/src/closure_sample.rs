//! The square used by the closure examples.
use vstd::prelude::*;

verus! {

/// The square of `n`.
pub fn pow(n: usize) -> (r: usize)
    requires
        n * n <= usize::MAX,
    ensures
        r == n * n,
{
    n * n
}

/// The value that `calc` gives for `num`.
pub fn calc_specify_fn<F: Fn(usize) -> usize>(num: usize, calc: F) -> (r: usize)
    requires
        calc.requires((num,)),
    ensures
        calc.ensures((num,), r),
{
    calc(num)
}

} // verus!
