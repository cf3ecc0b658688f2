//! Facts about products and quotients that the solver wants to be told.

use vstd::prelude::*;

verus! {

pub(crate) proof fn lemma_product_bounds(x: int, y: int, x_max: int, y_max: int)
    by (nonlinear_arith)
    requires
        0 <= x <= x_max,
        0 <= y <= y_max,
    ensures
        0 <= x * y <= x_max * y_max,
{
}

pub(crate) proof fn lemma_product_grows(x: int, y: int, x_min: int)
    by (nonlinear_arith)
    requires
        0 <= x_min <= x,
        0 <= y,
    ensures
        x_min * y <= x * y,
{
}

pub(crate) proof fn lemma_negative_product(x: int, y: int)
    by (nonlinear_arith)
    requires
        0 < x,
        y < 0,
    ensures
        x * y < 0,
{
}

pub(crate) proof fn lemma_quotient_bound(x: int, d: int, k: int)
    by (nonlinear_arith)
    requires
        0 < d,
        0 <= x <= k * d,
    ensures
        0 <= x / d <= k,
{
}

pub(crate) proof fn lemma_whole_quotient(d: int, k: int)
    by (nonlinear_arith)
    requires
        0 < d,
        0 <= k,
    ensures
        (k * d) / d == k,
{
}

} // verus!
