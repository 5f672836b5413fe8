//! Ring laws of the field operations on integer representatives.
use crate::field::{fadd, finv, fmul, fneg, fr_modulus, fsub, is_inverse};
use vstd::arithmetic::div_mod::*;
use vstd::arithmetic::mul::*;
use vstd::prelude::*;

verus! {

/// Results of the field operations are canonical.
pub proof fn lemma_ops_range(a: int, b: int)
    ensures
        0 <= fadd(a, b) < fr_modulus(),
        0 <= fsub(a, b) < fr_modulus(),
        0 <= fmul(a, b) < fr_modulus(),
        0 <= fneg(a) < fr_modulus(),
{
    lemma_mod_bound(a + b, fr_modulus());
    lemma_mod_bound(a - b, fr_modulus());
    lemma_mod_bound(a * b, fr_modulus());
    lemma_mod_bound(0 - a, fr_modulus());
}

pub proof fn lemma_fadd_comm(a: int, b: int)
    ensures
        fadd(a, b) == fadd(b, a),
{
}

pub proof fn lemma_fmul_comm(a: int, b: int)
    ensures
        fmul(a, b) == fmul(b, a),
{
    lemma_mul_is_commutative(a, b);
}

pub proof fn lemma_fadd_assoc(a: int, b: int, c: int)
    ensures
        fadd(fadd(a, b), c) == fadd(a, fadd(b, c)),
{
    let m = fr_modulus();
    lemma_add_mod_noop(a + b, c, m);
    lemma_add_mod_noop(a, b + c, m);
    lemma_mod_twice(a + b, m);
    lemma_mod_twice(b + c, m);
    lemma_mod_twice(a, m);
    lemma_mod_twice(c, m);
    lemma_add_mod_noop(a, b, m);
    lemma_add_mod_noop(b, c, m);
    lemma_add_mod_noop((a + b) % m, c, m);
    lemma_add_mod_noop(a, (b + c) % m, m);
}

pub proof fn lemma_fmul_assoc(a: int, b: int, c: int)
    ensures
        fmul(fmul(a, b), c) == fmul(a, fmul(b, c)),
{
    let m = fr_modulus();
    lemma_mul_mod_noop_left(a * b, c, m);
    lemma_mul_mod_noop_right(a, b * c, m);
    lemma_mul_is_associative(a, b, c);
}

/// Multiplication distributes over addition.
pub proof fn lemma_fmul_distrib(a: int, b: int, c: int)
    ensures
        fmul(a, fadd(b, c)) == fadd(fmul(a, b), fmul(a, c)),
{
    let m = fr_modulus();
    lemma_mul_mod_noop_right(a, b + c, m);
    lemma_mul_is_distributive_add(a, b, c);
    lemma_add_mod_noop(a * b, a * c, m);
}

pub proof fn lemma_fmul_one(a: int)
    requires
        0 <= a < fr_modulus(),
    ensures
        fmul(a, 1) == a,
        fmul(1, a) == a,
{
    lemma_small_mod(a as nat, fr_modulus() as nat);
}

pub proof fn lemma_fmul_zero(a: int)
    ensures
        fmul(a, 0) == 0,
        fmul(0, a) == 0,
{
}

pub proof fn lemma_fadd_zero(a: int)
    requires
        0 <= a < fr_modulus(),
    ensures
        fadd(a, 0) == a,
        fadd(0, a) == a,
{
    lemma_small_mod(a as nat, fr_modulus() as nat);
}

/// Reducing an argument first does not change a sum.
pub proof fn lemma_fadd_mod(a: int, b: int)
    ensures
        fadd(a % fr_modulus(), b) == fadd(a, b),
        fadd(a, b % fr_modulus()) == fadd(a, b),
{
    let m = fr_modulus();
    lemma_add_mod_noop(a, b, m);
    lemma_add_mod_noop(a % m, b, m);
    lemma_mod_twice(a, m);
    lemma_add_mod_noop(a, b % m, m);
    lemma_mod_twice(b, m);
}

/// Reducing an argument first does not change a product.
pub proof fn lemma_fmul_mod(a: int, b: int)
    ensures
        fmul(a % fr_modulus(), b) == fmul(a, b),
        fmul(a, b % fr_modulus()) == fmul(a, b),
{
    lemma_mul_mod_noop_left(a, b, fr_modulus());
    lemma_mul_mod_noop_right(a, b, fr_modulus());
}

/// `a - b + b == a` for canonical `a`.
pub proof fn lemma_fsub_fadd(a: int, b: int)
    requires
        0 <= a < fr_modulus(),
    ensures
        fadd(fsub(a, b), b) == a,
        fsub(fadd(a, b), b) == a,
{
    let m = fr_modulus();
    lemma_add_mod_noop(a - b, b, m);
    lemma_mod_twice(b, m);
    lemma_add_mod_noop_right(a - b, b, m);
    lemma_small_mod(a as nat, m as nat);
    lemma_sub_mod_noop(a + b, b, m);
    lemma_mod_twice(a + b, m);
    lemma_sub_mod_noop_right(a + b, b, m);
    assert((a - b) % m == (a - b) % m);
    lemma_add_mod_noop(a - b, b, m);
    lemma_mod_twice(a - b, m);
    assert(((a - b) % m + b) % m == ((a - b) % m % m + b % m) % m);
}

/// `1 - r` times `y1` plus `r` times `y2` is `y1 + r * (y2 - y1)`.
pub proof fn lemma_lerp(r: int, y1: int, y2: int)
    requires
        0 <= y1 < fr_modulus(),
    ensures
        fadd(fmul(r, y2), fmul(fsub(1, r), y1)) == fadd(y1, fmul(fsub(y2, y1), r)),
{
    let m = fr_modulus();
    // both sides equal (r*y2 + (1-r)*y1) mod m
    lemma_mul_mod_noop_left(1 - r, y1, m);
    lemma_mul_mod_noop_left(y2 - y1, r, m);
    lemma_add_mod_noop(r * y2, (1 - r) * y1, m);
    lemma_add_mod_noop(y1, (y2 - y1) * r, m);
    lemma_small_mod(y1 as nat, m as nat);
    lemma_mul_is_distributive_sub(y1, 1, r);
    lemma_mul_is_distributive_sub(r, y2, y1);
    lemma_mul_is_commutative(y1, 1 - r);
    lemma_mul_is_commutative(r, y2 - y1);
    lemma_mul_is_commutative(r, y1);
    assert((1 - r) * y1 == y1 - r * y1) by (nonlinear_arith);
    assert((y2 - y1) * r == r * y2 - r * y1) by (nonlinear_arith);
    lemma_mod_twice(r * y2, m);
    assert(fmul(r, y2) + fmul(fsub(1, r), y1) == (r * y2) % m + ((1 - r) * y1) % m);
    assert(y1 + fmul(fsub(y2, y1), r) == y1 % m + ((y2 - y1) * r) % m);
    lemma_add_mod_noop(y1, (y2 - y1) * r, m);
}

/// The difference of two different canonical elements is nonzero.
pub proof fn lemma_fsub_nonzero(a: int, b: int)
    requires
        0 <= a < fr_modulus(),
        0 <= b < fr_modulus(),
        a != b,
    ensures
        fsub(a, b) != 0,
{
    let m = fr_modulus();
    if a > b {
        lemma_small_mod((a - b) as nat, m as nat);
    } else {
        lemma_fundamental_div_mod_converse(a - b, m, -1, a - b + m);
    }
}

/// An element has at most one inverse.
pub proof fn lemma_inverse_unique(a: int, i1: int, i2: int)
    requires
        is_inverse(a, i1),
        is_inverse(a, i2),
    ensures
        i1 == i2,
{
    lemma_fmul_one(i1);
    lemma_fmul_one(i2);
    lemma_fmul_assoc(i1, a, i2);
    lemma_fmul_comm(i1, a);
}

/// An inverse is the one that `finv` names.
pub proof fn lemma_inverse_is_finv(a: int, v: int)
    requires
        is_inverse(a, v),
    ensures
        v == finv(a),
        is_inverse(a, finv(a)),
{
    lemma_inverse_unique(a, v, finv(a));
}

} // verus!
