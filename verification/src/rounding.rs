//! Division that rounds down and division that rounds up, and what pins
//! each of them down.

use vstd::arithmetic::div_mod::{
    lemma_fundamental_div_mod, lemma_fundamental_div_mod_converse, lemma_mod_bound,
};
use vstd::prelude::*;

verus! {

/// `n / d` rounded up: the least whole number of `d`s that make at least `n`.
pub open spec fn ceil_div(n: int, d: int) -> int {
    -((-n) / d)
}

/// The quotient rounded down is the one whole number `q` with
/// `q * d <= n < (q + 1) * d`.
pub proof fn lemma_floor(n: int, d: int)
    requires
        d > 0,
    ensures
        (n / d) * d <= n < (n / d) * d + d,
{
    lemma_fundamental_div_mod(n, d);
    lemma_mod_bound(n, d);
    assert((n / d) * d == d * (n / d)) by (nonlinear_arith);
}

/// A whole number `q` with `q * d <= n < (q + 1) * d` is the quotient
/// rounded down.
pub proof fn lemma_floor_is(n: int, d: int, q: int)
    requires
        d > 0,
        q * d <= n < q * d + d,
    ensures
        n / d == q,
{
    lemma_fundamental_div_mod_converse(n, d, q, n - q * d);
}

/// The quotient rounded up is the one whole number `c` with
/// `(c - 1) * d < n <= c * d`.
pub proof fn lemma_ceil(n: int, d: int)
    requires
        d > 0,
    ensures
        ceil_div(n, d) * d - d < n <= ceil_div(n, d) * d,
{
    lemma_floor(-n, d);
    let q = (-n) / d;
    assert((-q) * d == -(q * d)) by (nonlinear_arith);
}

/// A whole number `c` with `(c - 1) * d < n <= c * d` is the quotient
/// rounded up.
pub proof fn lemma_ceil_is(n: int, d: int, c: int)
    requires
        d > 0,
        c * d - d < n <= c * d,
    ensures
        ceil_div(n, d) == c,
{
    assert((-c) * d == -(c * d)) by (nonlinear_arith);
    lemma_floor_is(-n, d, -c);
}

} // verus!
