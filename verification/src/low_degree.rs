//! A polynomial with at most `m` coefficients is fixed by its values at `m`
//! nodes whose differences are invertible: it vanishes everywhere when it
//! vanishes at the nodes, and Lagrange interpolation gives it back.
use crate::algebra::{lemma_fadd_mod, lemma_fmul_assoc, lemma_fmul_comm, lemma_fmul_mod, lemma_fmul_one, lemma_fmul_zero, lemma_fsub_nonzero};
use crate::field::{fadd, finv, fmul, fneg, fr_modulus, fsub, is_inverse};
use crate::kzg::{lemma_interpolant_len, lemma_quotient_by_linear, quotient_by_linear};
use crate::univariate::{canonical, differences_invertible, lagrange_interpolant, lemma_eval_add, lemma_eval_range, lemma_eval_scale, lemma_interpolant_at_node, poly_add, poly_eval, poly_scale};
use vstd::prelude::*;

verus! {

/// A canonical `v` with `d * v == 0`, `d` invertible, is zero.
proof fn lemma_cancel(d: int, inv: int, v: int)
    requires
        is_inverse(d, inv),
        fmul(d, v) == 0,
        0 <= v < fr_modulus(),
    ensures
        v == 0,
{
    lemma_fmul_assoc(inv, d, v);
    lemma_fmul_comm(inv, d);
    lemma_fmul_one(v);
    lemma_fmul_zero(inv);
}

/// `a - 0 == a` for canonical `a`.
proof fn lemma_fsub_zero(a: int)
    requires
        0 <= a < fr_modulus(),
    ensures
        fsub(a, 0) == a,
{
    vstd::arithmetic::div_mod::lemma_small_mod(a as nat, fr_modulus() as nat);
}

/// `a + (-1) b` is `a - b`.
proof fn lemma_add_neg_one(a: int, b: int)
    ensures
        fadd(a, fmul(fneg(1), b)) == fsub(a, b),
{
    lemma_fmul_mod(0 - 1, b);
    assert((0 - 1) * b == 0 - b) by (nonlinear_arith);
    lemma_fadd_mod(a, 0 - b);
}

/// A polynomial with at most as many coefficients as there are nodes, zero at
/// every node, is zero at every point.
pub proof fn lemma_zero_at_nodes(q: Seq<int>, xs: Seq<int>, x: int)
    requires
        q.len() <= xs.len(),
        forall|k: int| 0 <= k < xs.len() ==> poly_eval(q, #[trigger] xs[k]) == 0,
        forall|i: int| 0 <= i < xs.len() ==> #[trigger] differences_invertible(xs, i, xs.len()),
    ensures
        poly_eval(q, x) == 0,
    decreases xs.len(),
{
    if q.len() > 0 {
        let z = xs[0];
        let qq = quotient_by_linear(q, z);
        let ys = xs.drop_first();
        assert(poly_eval(q, xs[0]) == 0);
        assert forall|k: int| 0 <= k < ys.len() implies poly_eval(qq, #[trigger] ys[k]) == 0 by {
            let xk = xs[k + 1];
            assert(poly_eval(q, xs[k + 1]) == 0);
            lemma_quotient_by_linear(q, z, xk);
            assert(differences_invertible(xs, k + 1, xs.len()));
            let d = fsub(xs[k + 1], xs[0]);
            assert(is_inverse(d, finv(d)));
            lemma_eval_range(qq, xk);
            lemma_cancel(d, finv(d), poly_eval(qq, xk));
        }
        assert forall|i: int| 0 <= i < ys.len() implies #[trigger] differences_invertible(
            ys,
            i,
            ys.len(),
        ) by {
            assert(differences_invertible(xs, i + 1, xs.len()));
            assert forall|j: int| 0 <= j < ys.len() && j != i implies is_inverse(
                #[trigger] fsub(ys[i], ys[j]),
                finv(fsub(ys[i], ys[j])),
            ) by {
                assert(fsub(xs[i + 1], xs[j + 1]) == fsub(ys[i], ys[j]));
            }
        }
        lemma_zero_at_nodes(qq, ys, x);
        lemma_quotient_by_linear(q, z, x);
        lemma_fmul_zero(fsub(x, z));
        lemma_eval_range(q, x);
        lemma_fsub_zero(poly_eval(q, x));
    }
}

/// Interpolating the values, at the nodes, of a polynomial with at most as many
/// coefficients as there are nodes gives back that polynomial's values at every
/// point.
pub proof fn lemma_interpolant_reproduces(q: Seq<int>, xs: Seq<int>, ys: Seq<int>, x: int)
    requires
        q.len() <= xs.len(),
        xs.len() == ys.len(),
        canonical(xs),
        forall|k: int| 0 <= k < xs.len() ==> #[trigger] ys[k] == poly_eval(q, xs[k]),
        forall|i: int| 0 <= i < xs.len() ==> #[trigger] differences_invertible(xs, i, xs.len()),
    ensures
        poly_eval(lagrange_interpolant(xs, ys), x) == poly_eval(q, x),
{
    let l = lagrange_interpolant(xs, ys);
    let m1 = fneg(1);
    let dd = poly_add(q, poly_scale(l, m1));
    lemma_interpolant_len(xs, ys);
    assert forall|k: int| 0 <= k < ys.len() implies 0 <= #[trigger] ys[k] < fr_modulus() by {
        lemma_eval_range(q, xs[k]);
    }
    assert forall|k: int| 0 <= k < xs.len() implies poly_eval(dd, #[trigger] xs[k]) == 0 by {
        lemma_interpolant_at_node(xs, ys, k);
        lemma_eval_add(q, poly_scale(l, m1), xs[k]);
        lemma_eval_scale(l, m1, xs[k]);
        lemma_add_neg_one(ys[k], ys[k]);
    }
    lemma_zero_at_nodes(dd, xs, x);
    lemma_eval_add(q, poly_scale(l, m1), x);
    lemma_eval_scale(l, m1, x);
    lemma_add_neg_one(poly_eval(q, x), poly_eval(l, x));
    lemma_eval_range(q, x);
    lemma_eval_range(l, x);
    if poly_eval(q, x) != poly_eval(l, x) {
        lemma_fsub_nonzero(poly_eval(q, x), poly_eval(l, x));
    }
}

} // verus!
