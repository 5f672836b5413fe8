//! Powers of two and integer division facts used by the hypercube indexing.
use vstd::arithmetic::div_mod::{lemma_fundamental_div_mod_converse, lemma_div_multiples_vanish};
use vstd::arithmetic::mul::{lemma_mul_is_associative, lemma_mul_is_commutative};
use vstd::prelude::*;

verus! {

/// `2^n`.
pub open spec fn two_pow(n: nat) -> nat
    decreases n,
{
    if n == 0 {
        1
    } else {
        2 * two_pow((n - 1) as nat)
    }
}

pub proof fn lemma_two_pow_small()
    ensures
        two_pow(0) == 1,
        two_pow(1) == 2,
        two_pow(2) == 4,
{
    reveal_with_fuel(two_pow, 3);
}

pub proof fn lemma_two_pow_pos(n: nat)
    ensures
        two_pow(n) >= 1,
    decreases n,
{
    if n > 0 {
        lemma_two_pow_pos((n - 1) as nat);
    }
}

pub proof fn lemma_two_pow_adds(a: nat, b: nat)
    ensures
        two_pow(a + b) == two_pow(a) * two_pow(b),
    decreases a,
{
    if a > 0 {
        lemma_two_pow_adds((a - 1) as nat, b);
        let x = two_pow((a - 1) as nat);
        let y = two_pow(b);
        assert(two_pow(a) == 2 * x);
        assert(((a + b) - 1) as nat == ((a - 1) + b) as nat);
        assert(two_pow(a + b) == 2 * two_pow(((a - 1) + b) as nat));
        assert(2 * (x * y) == (2 * x) * y) by (nonlinear_arith);
    } else {
        assert(two_pow(0) == 1);
        assert(a + b == b);
    }
}

pub proof fn lemma_two_pow_gt(n: nat)
    ensures
        two_pow(n) > n,
    decreases n,
{
    if n > 0 {
        lemma_two_pow_gt((n - 1) as nat);
    }
}

pub proof fn lemma_two_pow_monotone(a: nat, b: nat)
    requires
        a <= b,
    ensures
        two_pow(a) <= two_pow(b),
    decreases b,
{
    if a < b {
        lemma_two_pow_monotone(a, (b - 1) as nat);
        lemma_two_pow_pos((b - 1) as nat);
    }
}

/// `2^n` is even for `n > 0`, and halving it gives `2^(n-1)`.
pub proof fn lemma_two_pow_half(n: nat)
    requires
        n > 0,
    ensures
        two_pow(n) / 2 == two_pow((n - 1) as nat),
        two_pow(n) % 2 == 0,
{
    lemma_fundamental_div_mod_converse(two_pow(n) as int, 2, two_pow((n - 1) as nat) as int, 0);
}

/// `2^b / 2^a == 2^(b - a)` for `a <= b`.
pub proof fn lemma_two_pow_div(a: nat, b: nat)
    requires
        a <= b,
    ensures
        two_pow(b) / two_pow(a) == two_pow((b - a) as nat),
{
    lemma_two_pow_adds(a, (b - a) as nat);
    lemma_two_pow_pos(a);
    lemma_div_multiples_vanish(two_pow((b - a) as nat) as int, two_pow(a) as int);
}

/// Splitting `t = i * h + j` with `0 <= j < h`.
pub proof fn lemma_div_decomp(i: int, j: int, h: int)
    requires
        0 <= j < h,
    ensures
        (i * h + j) / h == i,
        (i * h + j) % h == j,
{
    lemma_fundamental_div_mod_converse(i * h + j, h, i, j);
}

/// `(i * h + j) < n * h` when `i < n` and `j < h`.
pub proof fn lemma_index_bound(i: int, j: int, h: int, n: int)
    requires
        0 <= i < n,
        0 <= j < h,
    ensures
        0 <= i * h + j < n * h,
{
    assert((n - 1) * h + h == n * h) by (nonlinear_arith);
    assert(i * h <= (n - 1) * h) by (nonlinear_arith)
        requires
            i <= n - 1,
            h >= 0,
    ;
    assert(0 <= i * h) by (nonlinear_arith)
        requires
            i >= 0,
            h >= 0,
    ;
}

} // verus!
