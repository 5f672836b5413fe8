//! The prover of the sum-check for virtual polynomials: in each round it fixes
//! the lowest variable at the last challenge and sends the round polynomial's
//! values at `0, 1, ..., max_degree`; a product with fewer factors than
//! `max_degree` is evaluated at `0, ..., #factors` and extrapolated to the rest.
use crate::algebra::{lemma_fadd_assoc, lemma_fadd_comm, lemma_fadd_mod, lemma_fmul_comm, lemma_fmul_distrib};
use crate::field::{fadd, fmul, fr_modulus, fsub, Fr};
use crate::kzg::{lemma_poly_mul_len, lemma_poly_sum_len};
use crate::low_degree::lemma_interpolant_reproduces;
use crate::univariate::{
    canonical, differences_invertible, lagrange_interpolant, lemma_eval_const, lemma_eval_mul,
    poly_eval, poly_mul, poly_sum,
};
use crate::multilinear::Multilinear;
use crate::pow2::{lemma_two_pow_half, lemma_two_pow_monotone, two_pow};
use crate::sumcheck::seq_sum;
use crate::virtual_poly::{
    barycentric_weights, bary_weights, extrapolate, extrapolated, fix_all_spec, fix_one_spec,
    fix_variables,
    VirtualSumCheckError,
};
use crate::virtual_verifier::{elems, SumCheckProverMessage};
use vstd::prelude::*;

verus! {

/// The points `0, 1, ..., n - 1`.
pub open spec fn node_points(n: nat) -> Seq<int> {
    Seq::new(n, |i: int| i)
}

/// The product of the elements, multiplied in from the left starting at one.
pub open spec fn seq_prod(s: Seq<int>) -> int
    decreases s.len(),
{
    if s.len() == 0 {
        1
    } else {
        fmul(seq_prod(s.drop_last()), s.last())
    }
}

/// The value at `t` of the line through `(0, e0)` and `(1, e1)`.
pub open spec fn line_at(e0: int, e1: int, t: int) -> int {
    fadd(e0, fmul(t, fsub(e1, e0)))
}

/// The factors of a product at the pair `(2b, 2b + 1)` of every table, each
/// taken as a line in the lowest variable and evaluated at `t`.
pub open spec fn factor_values(tables: Seq<Seq<int>>, idx: Seq<usize>, b: int, t: int) -> Seq<int> {
    Seq::new(
        idx.len(),
        |f: int| line_at(tables[idx[f] as int][2 * b], tables[idx[f] as int][2 * b + 1], t),
    )
}

/// The values at `0, ..., idx.len()` of `X -> c sum_b prod_f f(X, b)`, where the
/// lowest variable is `X` and `b` ranges over `half` assignments of the others.
pub open spec fn product_values(tables: Seq<Seq<int>>, c: int, idx: Seq<usize>, half: nat) -> Seq<int> {
    Seq::new(
        idx.len() + 1,
        |t: int| fmul(seq_sum(Seq::new(half, |b: int| seq_prod(factor_values(tables, idx, b, t)))), c),
    )
}

/// The values at `0, ..., max_degree` that a product contributes to the round
/// message: computed up to its number of factors, extrapolated beyond.
pub open spec fn product_message(
    tables: Seq<Seq<int>>,
    c: int,
    idx: Seq<usize>,
    half: nat,
    max_degree: nat,
) -> Seq<int> {
    let vals = product_values(tables, c, idx, half);
    let pts = node_points(idx.len() + 1);
    Seq::new(
        max_degree + 1,
        |t: int|
            if t <= idx.len() {
                vals[t]
            } else {
                extrapolated(pts, bary_weights(pts), vals, t)
            },
    )
}

/// The round message: the sum over the products of their contributions.
pub open spec fn round_message(
    tables: Seq<Seq<int>>,
    terms: Seq<(int, Seq<usize>)>,
    half: nat,
    max_degree: nat,
) -> Seq<int> {
    Seq::new(
        max_degree + 1,
        |t: int|
            seq_sum(
                Seq::new(
                    terms.len(),
                    |k: int| product_message(tables, terms[k].0, terms[k].1, half, max_degree)[t],
                ),
            ),
    )
}

/// The tables with their lowest variable fixed at `r`, as `fix_variables` does.
pub open spec fn fixed_tables(tables: Seq<Seq<int>>, nv: nat, r: int) -> Seq<Seq<int>> {
    Seq::new(
        tables.len(),
        |j: int| fix_all_spec(tables[j], nv, seq![r]).subrange(0, two_pow((nv - 1) as nat) as int),
    )
}

/// A product's factor list is usable: every index names a polynomial, there
/// are at most `max_degree` factors, and none only when `max_degree` is zero.
pub open spec fn factors_ok(idx: Seq<usize>, n: nat, max_degree: nat) -> bool {
    &&& idx.len() <= max_degree
    &&& idx.len() == 0 ==> max_degree == 0
    &&& forall|i: int| 0 <= i < idx.len() ==> #[trigger] idx[i] < n
}

/// A sum of products of multilinear polynomials,
/// `sum_k products[k].0 * prod_{j in products[k].1} flattened_multilinear_poly[j]`.
pub struct VirtualPolynomial {
    pub max_degree: usize,
    pub num_var: usize,
    pub products: Vec<(Fr, Vec<usize>)>,
    pub flattened_multilinear_poly: Vec<Multilinear>,
}

impl VirtualPolynomial {
    /// The evaluation tables of the polynomials.
    pub open spec fn tables(&self) -> Seq<Seq<int>> {
        Seq::new(
            self.flattened_multilinear_poly.len() as nat,
            |j: int| self.flattened_multilinear_poly[j].evals(),
        )
    }

    /// The products: each coefficient with its factor list.
    pub open spec fn terms(&self) -> Seq<(int, Seq<usize>)> {
        Seq::new(self.products.len() as nat, |k: int| (self.products[k].0@, self.products[k].1@))
    }

    /// Every polynomial is well formed in `nv` variables and every factor list
    /// is usable.
    pub open spec fn wf_at(&self, nv: nat) -> bool {
        &&& forall|j: int|
            0 <= j < self.flattened_multilinear_poly.len() ==> (
            #[trigger] self.flattened_multilinear_poly[j]).wf()
                && self.flattened_multilinear_poly[j].num_vars == nv
        &&& forall|k: int|
            0 <= k < self.products.len() ==> factors_ok(
                (#[trigger] self.products[k]).1@,
                self.flattened_multilinear_poly.len() as nat,
                self.max_degree as nat,
            )
    }

    /// Well formed in its own number of variables (whose tables fit in memory).
    pub open spec fn wf(&self) -> bool {
        &&& self.wf_at(self.num_var as nat)
        &&& two_pow(self.num_var as nat) <= usize::MAX
    }

    /// A copy of this polynomial.
    pub fn copy(&self) -> (r: Self)
        ensures
            r.max_degree == self.max_degree,
            r.num_var == self.num_var,
            r.tables() == self.tables(),
            r.terms() == self.terms(),
            r.products.len() == self.products.len(),
            r.flattened_multilinear_poly.len() == self.flattened_multilinear_poly.len(),
            forall|k: int| 0 <= k < self.products.len() ==> (#[trigger] r.products[k]).1@ == self.products[k].1@,
            forall|j: int|
                0 <= j < self.flattened_multilinear_poly.len() ==> (
                #[trigger] r.flattened_multilinear_poly[j]).num_vars
                    == self.flattened_multilinear_poly[j].num_vars
                    && r.flattened_multilinear_poly[j].evaluations@
                    == self.flattened_multilinear_poly[j].evaluations@,
    {
        let mut products: Vec<(Fr, Vec<usize>)> = Vec::new();
        let mut k: usize = 0;
        while k < self.products.len()
            invariant
                k <= self.products.len(),
                products.len() == k,
                forall|i: int|
                    0 <= i < k ==> (#[trigger] products[i]).0 == self.products[i].0 && products[i].1@
                        == self.products[i].1@,
            decreases self.products.len() - k,
        {
            let c = self.products[k].0;
            let idx = self.products[k].1.clone();
            products.push((c, idx));
            k = k + 1;
        }
        let mut polys: Vec<Multilinear> = Vec::new();
        let mut j: usize = 0;
        while j < self.flattened_multilinear_poly.len()
            invariant
                j <= self.flattened_multilinear_poly.len(),
                polys.len() == j,
                forall|i: int|
                    0 <= i < j ==> (#[trigger] polys[i]).num_vars
                        == self.flattened_multilinear_poly[i].num_vars && polys[i].evaluations@
                        == self.flattened_multilinear_poly[i].evaluations@,
            decreases self.flattened_multilinear_poly.len() - j,
        {
            polys.push(self.flattened_multilinear_poly[j].clone());
            j = j + 1;
        }
        let r = VirtualPolynomial {
            max_degree: self.max_degree,
            num_var: self.num_var,
            products,
            flattened_multilinear_poly: polys,
        };
        proof {
            assert(r.tables() =~= self.tables());
            assert(r.terms() =~= self.terms());
        }
        r
    }
}

/// Adding the step once more moves the line one point further.
proof fn lemma_line_step(e0: int, e1: int, t: int)
    requires
        0 <= e0 < fr_modulus(),
    ensures
        fadd(line_at(e0, e1, t - 1), fsub(e1, e0)) == line_at(e0, e1, t),
        line_at(e0, e1, 0) == e0,
{
    let m = fr_modulus();
    let s = fsub(e1, e0);
    vstd::arithmetic::div_mod::lemma_small_mod(e0 as nat, m as nat);
    vstd::arithmetic::div_mod::lemma_add_mod_noop(e0, (t - 1) * s, m);
    vstd::arithmetic::div_mod::lemma_mod_twice(e0 + (t - 1) * s, m);
    vstd::arithmetic::div_mod::lemma_add_mod_noop(e0 + (t - 1) * s, s, m);
    vstd::arithmetic::div_mod::lemma_add_mod_noop(e0, t * s, m);
    vstd::arithmetic::div_mod::lemma_mod_twice(s, m);
    assert(e0 + (t - 1) * s + s == e0 + t * s) by (nonlinear_arith);
    assert(fmul(0, s) == 0);
}

/// The product of the elements of a vector.
fn product_of(v: &Vec<Fr>) -> (r: Fr)
    ensures
        r@ == seq_prod(v.deep_view()),
{
    let mut acc = Fr::one();
    let mut i: usize = 0;
    proof {
        assert(v.deep_view().subrange(0, 0) =~= Seq::<int>::empty());
    }
    while i < v.len()
        invariant
            i <= v.len(),
            acc@ == seq_prod(v.deep_view().subrange(0, i as int)),
        decreases v.len() - i,
    {
        acc = acc.mul(&v[i]);
        proof {
            assert(v.deep_view().subrange(0, i + 1).drop_last() =~= v.deep_view().subrange(
                0,
                i as int,
            ));
        }
        i = i + 1;
    }
    proof {
        assert(v.deep_view().subrange(0, v.len() as int) =~= v.deep_view());
    }
    acc
}

/// The evaluation tables of a list of polynomials.
pub open spec fn ml_tables(v: Seq<Multilinear>) -> Seq<Seq<int>> {
    Seq::new(v.len(), |j: int| v[j].evals())
}

/// The extrapolation aids: for each degree `d` in `1..max_degree`, the points
/// `0, ..., d` and their barycentric weights.
pub open spec fn aux_ok(aux: Seq<(Vec<Fr>, Vec<Fr>)>, max_degree: nat) -> bool {
    &&& aux.len() == if max_degree == 0 {
        0
    } else {
        (max_degree - 1) as nat
    }
    &&& forall|d: int|
        1 <= d < max_degree ==> elems((#[trigger] aux[d - 1]).0@) == node_points((d + 1) as nat)
            && elems(aux[d - 1].1@) == bary_weights(node_points((d + 1) as nat))
}

/// The sum over the first `n` pairs of the product's value at `t`.
pub open spec fn partial_product_sum(tables: Seq<Seq<int>>, idx: Seq<usize>, n: nat, t: int) -> int {
    seq_sum(Seq::new(n, |b: int| seq_prod(factor_values(tables, idx, b, t))))
}

/// One more pair in a partial sum.
proof fn lemma_partial_step(tables: Seq<Seq<int>>, idx: Seq<usize>, n: nat, t: int)
    ensures
        partial_product_sum(tables, idx, n + 1, t) == fadd(
            partial_product_sum(tables, idx, n, t),
            seq_prod(factor_values(tables, idx, n as int, t)),
        ),
{
    let g = Seq::new(n + 1, |b: int| seq_prod(factor_values(tables, idx, b, t)));
    assert(g.drop_last() =~= Seq::new(n, |b: int| seq_prod(factor_values(tables, idx, b, t))));
}

/// The contribution of one product to the round message.
fn product_contribution(
    tables: &Vec<Multilinear>,
    coefficient: &Fr,
    idx: &Vec<usize>,
    half: usize,
    max_degree: usize,
    aux: &Vec<(Vec<Fr>, Vec<Fr>)>,
) -> (r: Vec<Fr>)
    requires
        factors_ok(idx@, tables.len() as nat, max_degree as nat),
        forall|j: int| 0 <= j < tables.len() ==> 2 * half <= (#[trigger] tables[j]).evaluations.len(),
        aux_ok(aux@, max_degree as nat),
    ensures
        r.deep_view() == product_message(
            ml_tables(tables@),
            coefficient@,
            idx@,
            half as nat,
            max_degree as nat,
        ),
{
    let ghost ts = ml_tables(tables@);
    let d = idx.len();
    let mut sums: Vec<Fr> = Vec::new();
    sums.push(Fr::zero());
    let mut t: usize = 0;
    while t < d
        invariant
            t <= d,
            sums.len() == t + 1,
            forall|k: int| 0 <= k <= t ==> (#[trigger] sums[k])@ == 0,
        decreases d - t,
    {
        sums.push(Fr::zero());
        t = t + 1;
    }
    let mut b: usize = 0;
    while b < half
        invariant
            d == idx.len(),
            ts == ml_tables(tables@),
            factors_ok(idx@, tables.len() as nat, max_degree as nat),
            forall|j: int| 0 <= j < tables.len() ==> 2 * half <= (#[trigger] tables[j]).evaluations.len(),
            b <= half,
            sums.len() == d + 1,
            forall|k: int|
                0 <= k <= d ==> (#[trigger] sums[k])@ == partial_product_sum(ts, idx@, b as nat, k),
        decreases half - b,
    {
        let mut evals: Vec<Fr> = Vec::new();
        let mut steps: Vec<Fr> = Vec::new();
        let mut f: usize = 0;
        while f < d
            invariant
                d == idx.len(),
                ts == ml_tables(tables@),
                factors_ok(idx@, tables.len() as nat, max_degree as nat),
                forall|j: int| 0 <= j < tables.len() ==> 2 * half <= (#[trigger] tables[j]).evaluations.len(),
                b < half,
                f <= d,
                evals.len() == f,
                steps.len() == f,
                forall|g: int|
                    0 <= g < f ==> (#[trigger] evals[g])@ == line_at(
                        ts[idx[g] as int][2 * b],
                        ts[idx[g] as int][2 * b + 1],
                        0,
                    ),
                forall|g: int|
                    0 <= g < f ==> (#[trigger] steps[g])@ == fsub(
                        ts[idx[g] as int][2 * b + 1],
                        ts[idx[g] as int][2 * b],
                    ),
            decreases d - f,
        {
            let tab = &tables[idx[f]].evaluations;
            let e0 = tab[2 * b];
            let e1 = tab[2 * b + 1];
            proof {
                assert(idx@[f as int] < tables.len());
                e0.lemma_view_range();
                lemma_line_step(e0@, e1@, 0);
                assert(ts[idx[f as int] as int] == tables[idx[f as int] as int].evaluations.deep_view());
            }
            evals.push(e0);
            steps.push(e1.sub(&e0));
            f = f + 1;
        }
        proof {
            assert(evals.deep_view() =~= factor_values(ts, idx@, b as int, 0));
        }
        let p = product_of(&evals);
        proof {
            lemma_partial_step(ts, idx@, b as nat, 0);
        }
        let s0 = sums[0].add(&p);
        sums.set(0, s0);
        let mut t: usize = 0;
        while t < d
            invariant
                d == idx.len(),
                ts == ml_tables(tables@),
                factors_ok(idx@, tables.len() as nat, max_degree as nat),
                forall|j: int| 0 <= j < tables.len() ==> 2 * half <= (#[trigger] tables[j]).evaluations.len(),
                b < half,
                t <= d,
                sums.len() == d + 1,
                evals.len() == d,
                steps.len() == d,
                evals.deep_view() == factor_values(ts, idx@, b as int, t as int),
                forall|g: int|
                    0 <= g < d ==> (#[trigger] steps[g])@ == fsub(
                        ts[idx[g] as int][2 * b + 1],
                        ts[idx[g] as int][2 * b],
                    ),
                forall|k: int|
                    0 <= k <= t ==> (#[trigger] sums[k])@ == partial_product_sum(ts, idx@, (b + 1) as nat, k),
                forall|k: int|
                    t < k <= d ==> (#[trigger] sums[k])@ == partial_product_sum(ts, idx@, b as nat, k),
            decreases d - t,
        {
            t = t + 1;
            let ghost before = evals.deep_view();
            let mut g: usize = 0;
            while g < d
                invariant
                    d == idx.len(),
                    ts == ml_tables(tables@),
                    factors_ok(idx@, tables.len() as nat, max_degree as nat),
                    forall|j: int| 0 <= j < tables.len() ==> 2 * half <= (#[trigger] tables[j]).evaluations.len(),
                    b < half,
                    1 <= t <= d,
                    g <= d,
                    evals.len() == d,
                    steps.len() == d,
                    before == factor_values(ts, idx@, b as int, t - 1),
                    forall|h: int|
                        0 <= h < d ==> (#[trigger] steps[h])@ == fsub(
                            ts[idx[h] as int][2 * b + 1],
                            ts[idx[h] as int][2 * b],
                        ),
                    forall|h: int|
                        0 <= h < g ==> (#[trigger] evals[h])@ == factor_values(ts, idx@, b as int, t as int)[h],
                    forall|h: int| g <= h < d ==> (#[trigger] evals[h])@ == before[h],
                decreases d - g,
            {
                let v = evals[g].add(&steps[g]);
                proof {
                    let e0 = ts[idx[g as int] as int][2 * b];
                    let e1 = ts[idx[g as int] as int][2 * b + 1];
                    assert(idx@[g as int] < tables.len());
                    assert(tables@[idx[g as int] as int].evaluations@[2 * b]@ == e0);
                    tables@[idx[g as int] as int].evaluations@[2 * b].lemma_view_range();
                    lemma_line_step(e0, e1, t as int);
                }
                evals.set(g, v);
                g = g + 1;
            }
            proof {
                assert(evals.deep_view() =~= factor_values(ts, idx@, b as int, t as int));
                lemma_partial_step(ts, idx@, b as nat, t as int);
            }
            let p = product_of(&evals);
            let st = sums[t].add(&p);
            sums.set(t, st);
        }
        b = b + 1;
    }
    let mut k: usize = 0;
    while k <= d
        invariant
            d == idx.len(),
            k <= d + 1,
            sums.len() == d + 1,
            forall|j: int|
                0 <= j < k ==> (#[trigger] sums[j])@ == product_values(ts, coefficient@, idx@, half as nat)[j],
            forall|j: int|
                k <= j <= d ==> (#[trigger] sums[j])@ == partial_product_sum(ts, idx@, half as nat, j),
        decreases d + 1 - k,
    {
        let v = sums[k].mul(coefficient);
        sums.set(k, v);
        k = k + 1;
    }
    let ghost vals = product_values(ts, coefficient@, idx@, half as nat);
    proof {
        assert(sums.deep_view() =~= vals);
    }
    let mut out: Vec<Fr> = Vec::new();
    let mut j: usize = 0;
    while j < sums.len()
        invariant
            sums.deep_view() == vals,
            sums.len() == d + 1,
            d <= max_degree,
            j <= d + 1,
            out.len() == j,
            forall|i: int| 0 <= i < j ==> (#[trigger] out[i])@ == vals[i],
        decreases d + 1 - j,
    {
        out.push(sums[j]);
        j = j + 1;
    }
    let ghost pts = node_points((d + 1) as nat);
    let mut i: usize = 0;
    while i < max_degree - d
        invariant
            d == idx.len(),
            factors_ok(idx@, tables.len() as nat, max_degree as nat),
            aux_ok(aux@, max_degree as nat),
            sums.deep_view() == vals,
            pts == node_points((d + 1) as nat),
            i <= max_degree - d,
            out.len() == d + 1 + i,
            forall|q: int| 0 <= q <= d ==> (#[trigger] out[q])@ == vals[q],
            forall|q: int|
                d < q < d + 1 + i ==> (#[trigger] out[q])@ == extrapolated(pts, bary_weights(pts), vals, q),
        decreases max_degree - d - i,
    {
        let at = Fr::from_u64((d + 1 + i) as u64);
        let pair = &aux[d - 1];
        proof {
            assert(elems(aux@[d - 1].0@) == pts);
            assert(pair.0@.map_values(|x: Fr| x@) == pts);
            assert(sums@.map_values(|x: Fr| x@) =~= vals);
        }
        let e = extrapolate(pair.0.as_slice(), pair.1.as_slice(), sums.as_slice(), &at);
        out.push(e);
        i = i + 1;
    }
    proof {
        assert(out.deep_view() =~= product_message(ts, coefficient@, idx@, half as nat, max_degree as nat));
    }
    out
}

/// The points `0, ..., d` and their barycentric weights.
fn points_and_weights(d: usize) -> (r: (Vec<Fr>, Vec<Fr>))
    ensures
        elems(r.0@) == node_points((d + 1) as nat),
        elems(r.1@) == bary_weights(node_points((d + 1) as nat)),
{
    let mut points: Vec<Fr> = Vec::new();
    points.push(Fr::zero());
    let mut i: usize = 0;
    while i < d
        invariant
            i <= d,
            points.len() == i + 1,
            forall|k: int| 0 <= k <= i ==> (#[trigger] points[k])@ == k,
        decreases d - i,
    {
        i = i + 1;
        points.push(Fr::from_u64(i as u64));
    }
    proof {
        assert(elems(points@) =~= node_points((d + 1) as nat));
    }
    let weights = barycentric_weights(points.as_slice());
    proof {
        assert(elems(weights@) =~= weights.deep_view());
    }
    (points, weights)
}

/// The prover of the virtual sum-check.
pub struct VirtualProver {
    /// The challenges received so far.
    pub challenges: Vec<Fr>,
    pub(crate) round: usize,
    pub(crate) poly: VirtualPolynomial,
    pub(crate) extrapolation_aux: Vec<(Vec<Fr>, Vec<Fr>)>,
}

impl VirtualProver {
    /// The number of rounds answered so far.
    pub closed spec fn round_count(&self) -> nat {
        self.round as nat
    }

    /// The number of variables of the polynomial.
    pub closed spec fn vars(&self) -> nat {
        self.poly.num_var as nat
    }

    /// The challenges received so far, as field values.
    pub closed spec fn drawn(&self) -> Seq<int> {
        elems(self.challenges@)
    }

    /// The largest number of factors of a product.
    pub closed spec fn degree(&self) -> nat {
        self.poly.max_degree as nat
    }

    /// The current tables of the polynomials.
    pub closed spec fn tables(&self) -> Seq<Seq<int>> {
        self.poly.tables()
    }

    /// The products.
    pub closed spec fn terms(&self) -> Seq<(int, Seq<usize>)> {
        self.poly.terms()
    }

    /// The number of variables the tables have left: one challenge is applied
    /// at the start of every round but the first.
    pub closed spec fn table_vars(&self) -> nat {
        if self.round == 0 {
            self.poly.num_var as nat
        } else {
            (self.poly.num_var - (self.round - 1)) as nat
        }
    }

    /// The state is consistent: the polynomial has a variable, the tables
    /// have as many variables as are left, one challenge was recorded for every
    /// round after the first, and the extrapolation aids are in place.
    pub closed spec fn wf(&self) -> bool {
        &&& 1 <= self.poly.num_var
        &&& self.round <= self.poly.num_var
        &&& two_pow(self.poly.num_var as nat) <= usize::MAX
        &&& self.poly.wf_at(self.table_vars())
        &&& self.challenges.len() == if self.round == 0 {
            0
        } else {
            self.round - 1
        }
        &&& aux_ok(self.extrapolation_aux@, self.poly.max_degree as nat)
    }

    /// A prover for `polynomial`, which must have a variable.
    pub fn prover_init(polynomial: &VirtualPolynomial) -> (r: Result<Self, VirtualSumCheckError>)
        ensures
            r is Err <==> polynomial.num_var == 0,
            r is Err ==> r == Err::<Self, VirtualSumCheckError>(VirtualSumCheckError::NoVariables),
            r matches Ok(p) ==> {
                &&& p.round_count() == 0
                &&& p.drawn() == Seq::<int>::empty()
                &&& p.vars() == polynomial.num_var
                &&& p.degree() == polynomial.max_degree
                &&& p.tables() == polynomial.tables()
                &&& p.terms() == polynomial.terms()
                &&& polynomial.wf() ==> p.wf()
            },
    {
        if polynomial.num_var == 0 {
            return Err(VirtualSumCheckError::NoVariables);
        }
        let poly = polynomial.copy();
        let mut aux: Vec<(Vec<Fr>, Vec<Fr>)> = Vec::new();
        let mut degree: usize = 1;
        while degree < polynomial.max_degree
            invariant
                1 <= degree,
                polynomial.max_degree >= 1 ==> degree <= polynomial.max_degree,
                polynomial.max_degree == 0 ==> degree == 1,
                aux.len() == degree - 1,
                forall|d: int|
                    1 <= d < degree ==> elems((#[trigger] aux@[d - 1]).0@) == node_points((d + 1) as nat)
                        && elems(aux@[d - 1].1@) == bary_weights(node_points((d + 1) as nat)),
            decreases polynomial.max_degree - degree,
        {
            let pw = points_and_weights(degree);
            aux.push(pw);
            degree = degree + 1;
        }
        let r = VirtualProver { challenges: Vec::new(), round: 0, poly, extrapolation_aux: aux };
        proof {
            assert(elems(r.challenges@) =~= Seq::<int>::empty());
            if polynomial.wf() {
                assert forall|j: int| 0 <= j < r.poly.flattened_multilinear_poly.len() implies (
                #[trigger] r.poly.flattened_multilinear_poly[j]).wf()
                    && r.poly.flattened_multilinear_poly[j].num_vars == r.table_vars() by {
                    assert(polynomial.flattened_multilinear_poly[j].wf());
                }
                assert forall|k: int| 0 <= k < r.poly.products.len() implies factors_ok(
                    (#[trigger] r.poly.products[k]).1@,
                    r.poly.flattened_multilinear_poly.len() as nat,
                    r.poly.max_degree as nat,
                ) by {
                    assert(factors_ok(
                        polynomial.products[k].1@,
                        polynomial.flattened_multilinear_poly.len() as nat,
                        polynomial.max_degree as nat,
                    ));
                }
            }
        }
        Ok(r)
    }
    /// Answers a round. The first round takes no challenge; every later round
    /// takes the verifier's challenge, records it and fixes the lowest
    /// variable of every table at it. The message is the round polynomial's
    /// values at `0, ..., max_degree`. A prover that has answered every round,
    /// a challenge before the first round, or a missing one later is refused
    /// and nothing changes.
    pub fn prove_round_and_update_state(&mut self, challenge: &Option<Fr>) -> (r: Result<
        SumCheckProverMessage,
        VirtualSumCheckError,
    >)
        requires
            old(self).wf(),
        ensures
            final(self).wf(),
            old(self).round_count() >= old(self).vars() ==> r == Err::<
                SumCheckProverMessage,
                VirtualSumCheckError,
            >(VirtualSumCheckError::ProverNotActive),
            old(self).round_count() < old(self).vars() && old(self).round_count() == 0
                && challenge is Some ==> r == Err::<SumCheckProverMessage, VirtualSumCheckError>(
                VirtualSumCheckError::ProverFirst,
            ),
            old(self).round_count() < old(self).vars() && old(self).round_count() > 0
                && challenge is None ==> r == Err::<SumCheckProverMessage, VirtualSumCheckError>(
                VirtualSumCheckError::MissingChallenge,
            ),
            r is Ok <==> (old(self).round_count() < old(self).vars() && (old(self).round_count()
                == 0) == (challenge is None)),
            r is Err ==> *final(self) == *old(self),
            final(self).vars() == old(self).vars(),
            final(self).degree() == old(self).degree(),
            final(self).terms() == old(self).terms(),
            r matches Ok(msg) ==> {
                let tabs = match challenge {
                    Some(c) => fixed_tables(old(self).tables(), old(self).table_vars(), c@),
                    None => old(self).tables(),
                };
                &&& final(self).round_count() == old(self).round_count() + 1
                &&& final(self).tables() == tabs
                &&& final(self).drawn() == match challenge {
                    Some(c) => old(self).drawn().push(c@),
                    None => old(self).drawn(),
                }
                &&& elems(msg.evaluations@) == round_message(
                    tabs,
                    old(self).terms(),
                    two_pow((old(self).vars() - old(self).round_count() - 1) as nat),
                    old(self).degree(),
                )
            },
    {
        if self.round >= self.poly.num_var {
            return Err(VirtualSumCheckError::ProverNotActive);
        }
        let ghost old_tables = self.poly.tables();
        let ghost nv_old = self.table_vars();
        let n_polys = self.poly.flattened_multilinear_poly.len();
        let mut flattened: Vec<Multilinear> = Vec::new();
        match challenge {
            Some(chal) => {
                if self.round == 0 {
                    return Err(VirtualSumCheckError::ProverFirst);
                }
                let ghost old_challenges = self.challenges@;
                self.challenges.push(*chal);
                proof {
                    assert(elems(self.challenges@) =~= elems(old_challenges).push(chal@));
                }
                let r = self.challenges[self.round - 1];
                let mut pt: Vec<Fr> = Vec::new();
                pt.push(r);
                proof {
                    assert(pt@.map_values(|x: Fr| x@) =~= seq![chal@]);
                }
                let mut j: usize = 0;
                while j < n_polys
                    invariant
                        n_polys == self.poly.flattened_multilinear_poly.len(),
                        self.poly.wf_at(nv_old),
                        old_tables == self.poly.tables(),
                        nv_old >= 2,
                        pt@.map_values(|x: Fr| x@) == seq![chal@],
                        pt.len() == 1,
                        j <= n_polys,
                        flattened.len() == j,
                        forall|i: int|
                            0 <= i < j ==> (#[trigger] flattened[i]).wf() && flattened[i].num_vars == nv_old
                                - 1 && flattened[i].evals() == fixed_tables(old_tables, nv_old, chal@)[i],
                    decreases n_polys - j,
                {
                    let m = fix_variables(&self.poly.flattened_multilinear_poly[j], pt.as_slice());
                    flattened.push(m);
                    j = j + 1;
                }
                proof {
                    assert(ml_tables(flattened@) =~= fixed_tables(old_tables, nv_old, chal@));
                }
            },
            None => {
                if self.round > 0 {
                    return Err(VirtualSumCheckError::MissingChallenge);
                }
                let mut j: usize = 0;
                while j < n_polys
                    invariant
                        n_polys == self.poly.flattened_multilinear_poly.len(),
                        self.poly.wf_at(nv_old),
                        j <= n_polys,
                        flattened.len() == j,
                        forall|i: int|
                            0 <= i < j ==> (#[trigger] flattened[i]).num_vars == nv_old
                                && flattened[i].evaluations@
                                == self.poly.flattened_multilinear_poly[i].evaluations@,
                    decreases n_polys - j,
                {
                    flattened.push(self.poly.flattened_multilinear_poly[j].clone());
                    j = j + 1;
                }
                proof {
                    assert(ml_tables(flattened@) =~= old_tables);
                }
            },
        }
        let ghost tabs = ml_tables(flattened@);
        self.round = self.round + 1;
        proof {
            lemma_two_pow_monotone((self.poly.num_var - self.round) as nat, self.poly.num_var as nat);
            lemma_two_pow_half((self.poly.num_var - self.round + 1) as nat);
        }
        let half = crate::multilinear::two_pow_exec(self.poly.num_var - self.round);
        let max_degree = self.poly.max_degree;
        let mut products_sum: Vec<Fr> = Vec::new();
        products_sum.push(Fr::zero());
        let mut t: usize = 0;
        while t < max_degree
            invariant
                t <= max_degree,
                products_sum.len() == t + 1,
                forall|q: int| 0 <= q <= t ==> (#[trigger] products_sum[q])@ == 0,
            decreases max_degree - t,
        {
            products_sum.push(Fr::zero());
            t = t + 1;
        }
        let ghost terms = self.poly.terms();
        let mut k: usize = 0;
        while k < self.poly.products.len()
            invariant
                terms == self.poly.terms(),
                max_degree == self.poly.max_degree,
                forall|q: int|
                    0 <= q < self.poly.products.len() ==> factors_ok(
                        (#[trigger] self.poly.products[q]).1@,
                        flattened.len() as nat,
                        max_degree as nat,
                    ),
                forall|j: int| 0 <= j < flattened.len() ==> 2 * half <= (#[trigger] flattened[j]).evaluations.len(),
                aux_ok(self.extrapolation_aux@, max_degree as nat),
                tabs == ml_tables(flattened@),
                k <= self.poly.products.len(),
                products_sum.len() == max_degree + 1,
                forall|q: int|
                    0 <= q <= max_degree ==> (#[trigger] products_sum[q])@ == seq_sum(
                        Seq::new(
                            k as nat,
                            |kk: int| product_message(tabs, terms[kk].0, terms[kk].1, half as nat, max_degree as nat)[q],
                        ),
                    ),
            decreases self.poly.products.len() - k,
        {
            let contribution = product_contribution(
                &flattened,
                &self.poly.products[k].0,
                &self.poly.products[k].1,
                half,
                max_degree,
                &self.extrapolation_aux,
            );
            let ghost before = products_sum@;
            let ghost cview = product_message(tabs, terms[k as int].0, terms[k as int].1, half as nat, max_degree as nat);
            proof {
                assert(contribution.len() == contribution.deep_view().len());
            }
            let mut q: usize = 0;
            while q < products_sum.len()
                invariant
                    q <= products_sum.len(),
                    products_sum.len() == max_degree + 1,
                    before.len() == max_degree + 1,
                    contribution.len() == max_degree + 1,
                    contribution.deep_view() == cview,
                    forall|i: int| q <= i <= max_degree ==> (#[trigger] products_sum[i]) == before[i],
                    forall|i: int|
                        0 <= i < q ==> (#[trigger] products_sum[i])@ == fadd(before[i]@, cview[i]),
                decreases products_sum.len() - q,
            {
                let v = products_sum[q].add(&contribution[q]);
                products_sum.set(q, v);
                q = q + 1;
            }
            proof {
                assert forall|q: int| 0 <= q <= max_degree implies (#[trigger] products_sum[q])@ == seq_sum(
                    Seq::new(
                        (k + 1) as nat,
                        |kk: int| product_message(tabs, terms[kk].0, terms[kk].1, half as nat, max_degree as nat)[q],
                    ),
                ) by {
                    let g = Seq::new(
                        (k + 1) as nat,
                        |kk: int| product_message(tabs, terms[kk].0, terms[kk].1, half as nat, max_degree as nat)[q],
                    );
                    assert(g.drop_last() =~= Seq::new(
                        k as nat,
                        |kk: int| product_message(tabs, terms[kk].0, terms[kk].1, half as nat, max_degree as nat)[q],
                    ));
                }
            }
            k = k + 1;
        }
        self.poly.flattened_multilinear_poly = flattened;
        proof {
            assert(self.poly.tables() =~= tabs);
            assert(elems(products_sum@) =~= round_message(tabs, terms, half as nat, max_degree as nat));
        }
        Ok(SumCheckProverMessage { evaluations: products_sum })
    }
}

/// The product of the factors' entries at hypercube index `x`.
pub open spec fn product_at(tables: Seq<Seq<int>>, idx: Seq<usize>, x: int) -> int {
    seq_prod(Seq::new(idx.len(), |f: int| tables[idx[f] as int][x]))
}

/// The sum of the virtual polynomial over the first `size` hypercube points:
/// `sum_k c_k * sum_x prod_{f in idx_k} f(x)`.
pub open spec fn virtual_sum(tables: Seq<Seq<int>>, terms: Seq<(int, Seq<usize>)>, size: nat) -> int {
    seq_sum(Seq::new(terms.len(), |k: int| fmul(product_total(tables, terms[k].1, size), terms[k].0)))
}

/// `sum_{x < size} prod_{f in idx} f(x)`.
pub open spec fn product_total(tables: Seq<Seq<int>>, idx: Seq<usize>, size: nat) -> int {
    seq_sum(Seq::new(size, |x: int| product_at(tables, idx, x)))
}

/// The tables that `idx` names hold `2 half` canonical entries.
pub open spec fn named_tables_ok(tables: Seq<Seq<int>>, idx: Seq<usize>, half: nat) -> bool {
    forall|f: int|
        0 <= f < idx.len() ==> idx[f] < tables.len() && (#[trigger] tables[idx[f] as int]).len()
            == 2 * half && canonical(tables[idx[f] as int])
}

/// `(a + b) + (c + d) == (a + c) + (b + d)`.
proof fn lemma_fadd_swap(a: int, b: int, c: int, d: int)
    ensures
        fadd(fadd(a, b), fadd(c, d)) == fadd(fadd(a, c), fadd(b, d)),
{
    lemma_fadd_assoc(a, b, fadd(c, d));
    lemma_fadd_assoc(b, c, d);
    lemma_fadd_comm(b, c);
    lemma_fadd_assoc(c, b, d);
    lemma_fadd_assoc(a, c, fadd(b, d));
    lemma_fadd_mod(a, fadd(b, fadd(c, d)));
    lemma_fadd_mod(a, fadd(c, fadd(b, d)));
    lemma_fadd_mod(b, fadd(c, d));
    lemma_fadd_mod(c, fadd(b, d));
    assert(fadd(b, fadd(c, d)) == fadd(fadd(b, c), d));
    assert(fadd(c, fadd(b, d)) == fadd(fadd(c, b), d));
}

/// At `0` and at `1` the factors' lines take the entries `2b` and `2b + 1`.
proof fn lemma_factor_values_bool(tables: Seq<Seq<int>>, idx: Seq<usize>, half: nat, b: int)
    requires
        named_tables_ok(tables, idx, half),
        0 <= b < half,
    ensures
        seq_prod(factor_values(tables, idx, b, 0)) == product_at(tables, idx, 2 * b),
        seq_prod(factor_values(tables, idx, b, 1)) == product_at(tables, idx, 2 * b + 1),
{
    assert forall|f: int| 0 <= f < idx.len() implies #[trigger] factor_values(tables, idx, b, 0)[f]
        == tables[idx[f] as int][2 * b] && factor_values(tables, idx, b, 1)[f] == tables[idx[f] as int][2
        * b + 1] by {
        let t = tables[idx[f] as int];
        assert(canonical(t));
        let e0 = t[2 * b];
        let e1 = t[2 * b + 1];
        lemma_line_step(e0, e1, 1);
        lemma_fadd_comm(e0, fsub(e1, e0));
        crate::algebra::lemma_fsub_fadd(e1, e0);
    }
    assert(factor_values(tables, idx, b, 0) =~= Seq::new(
        idx.len(),
        |f: int| tables[idx[f] as int][2 * b],
    ));
    assert(factor_values(tables, idx, b, 1) =~= Seq::new(
        idx.len(),
        |f: int| tables[idx[f] as int][2 * b + 1],
    ));
}

/// The sums at `0` and at `1` over the first `n` pairs add up to the sum over
/// the first `2 n` points.
proof fn lemma_pair_sums(tables: Seq<Seq<int>>, idx: Seq<usize>, half: nat, n: nat)
    requires
        named_tables_ok(tables, idx, half),
        n <= half,
    ensures
        fadd(partial_product_sum(tables, idx, n, 0), partial_product_sum(tables, idx, n, 1))
            == seq_sum(Seq::new(2 * n, |x: int| product_at(tables, idx, x))),
    decreases n,
{
    let all = Seq::new(2 * n, |x: int| product_at(tables, idx, x));
    if n == 0 {
        assert(partial_product_sum(tables, idx, 0, 0) == 0) by {
            assert(Seq::new(0, |b: int| seq_prod(factor_values(tables, idx, b, 0))) =~= Seq::<
                int,
            >::empty());
        }
        assert(partial_product_sum(tables, idx, 0, 1) == 0) by {
            assert(Seq::new(0, |b: int| seq_prod(factor_values(tables, idx, b, 1))) =~= Seq::<
                int,
            >::empty());
        }
        assert(all =~= Seq::<int>::empty());
        assert(seq_sum(all) == 0);
        assert(fadd(0, 0) == 0);
    } else {
        let m = (n - 1) as nat;
        lemma_pair_sums(tables, idx, half, m);
        lemma_partial_step(tables, idx, m, 0);
        lemma_partial_step(tables, idx, m, 1);
        lemma_factor_values_bool(tables, idx, half, m as int);
        let a = product_at(tables, idx, 2 * m as int);
        let b = product_at(tables, idx, 2 * m as int + 1);
        let prev = Seq::new(2 * m, |x: int| product_at(tables, idx, x));
        assert(all.drop_last() =~= Seq::new((2 * m + 1) as nat, |x: int| product_at(tables, idx, x)));
        assert(all.drop_last().drop_last() =~= prev);
        let p0 = partial_product_sum(tables, idx, m, 0);
        let p1 = partial_product_sum(tables, idx, m, 1);
        assert(partial_product_sum(tables, idx, n, 0) == fadd(p0, a));
        assert(partial_product_sum(tables, idx, n, 1) == fadd(p1, b));
        assert(all.last() == b);
        assert(all.drop_last().last() == a);
        assert(seq_sum(all) == fadd(seq_sum(all.drop_last()), b));
        assert(seq_sum(all.drop_last()) == fadd(seq_sum(prev), a));
        assert(fadd(p0, p1) == seq_sum(prev));
        lemma_fadd_swap(p0, a, p1, b);
        lemma_fadd_assoc(seq_sum(prev), a, b);
    }
}

/// Summing two sequences entry by entry.
proof fn lemma_seq_sum_pointwise(a: Seq<int>, b: Seq<int>)
    requires
        a.len() == b.len(),
    ensures
        fadd(seq_sum(a), seq_sum(b)) == seq_sum(Seq::new(a.len(), |k: int| fadd(a[k], b[k]))),
    decreases a.len(),
{
    let s = Seq::new(a.len(), |k: int| fadd(a[k], b[k]));
    if a.len() == 0 {
        assert(s =~= Seq::<int>::empty());
    } else {
        lemma_seq_sum_pointwise(a.drop_last(), b.drop_last());
        assert(s.drop_last() =~= Seq::new(
            a.drop_last().len(),
            |k: int| fadd(a.drop_last()[k], b.drop_last()[k]),
        ));
        lemma_fadd_swap(seq_sum(a.drop_last()), a.last(), seq_sum(b.drop_last()), b.last());
    }
}

/// In every round the message's values at `0` and `1` add up to the sum of the
/// virtual polynomial over the hypercube of the variables still free: the
/// round polynomial is consistent with the claim it reduces.
pub proof fn lemma_round_message_sum(
    tables: Seq<Seq<int>>,
    terms: Seq<(int, Seq<usize>)>,
    half: nat,
    max_degree: nat,
)
    requires
        max_degree >= 1,
        forall|k: int|
            0 <= k < terms.len() ==> factors_ok(
                (#[trigger] terms[k]).1,
                tables.len() as nat,
                max_degree,
            ),
        forall|j: int|
            0 <= j < tables.len() ==> (#[trigger] tables[j]).len() == 2 * half && canonical(
                tables[j],
            ),
    ensures
        fadd(
            round_message(tables, terms, half, max_degree)[0],
            round_message(tables, terms, half, max_degree)[1],
        ) == virtual_sum(tables, terms, 2 * half),
{
    let msg = round_message(tables, terms, half, max_degree);
    let a = Seq::new(
        terms.len(),
        |k: int| product_message(tables, terms[k].0, terms[k].1, half, max_degree)[0],
    );
    let b = Seq::new(
        terms.len(),
        |k: int| product_message(tables, terms[k].0, terms[k].1, half, max_degree)[1],
    );
    let v = Seq::new(
        terms.len(),
        |k: int| fmul(product_total(tables, terms[k].1, 2 * half), terms[k].0),
    );
    assert(msg[0] == seq_sum(a));
    assert(msg[1] == seq_sum(b));
    lemma_seq_sum_pointwise(a, b);
    assert forall|k: int| 0 <= k < terms.len() implies #[trigger] fadd(a[k], b[k]) == v[k] by {
        let (c, idx) = terms[k];
        assert(factors_ok(terms[k].1, tables.len() as nat, max_degree));
        assert(idx.len() >= 1);
        assert(named_tables_ok(tables, idx, half)) by {
            assert forall|f: int| 0 <= f < idx.len() implies idx[f] < tables.len() && (
            #[trigger] tables[idx[f] as int]).len() == 2 * half && canonical(tables[idx[f] as int]) by {
                assert(idx[f] < tables.len());
            }
        }
        let s0 = partial_product_sum(tables, idx, half, 0);
        let s1 = partial_product_sum(tables, idx, half, 1);
        assert(a[k] == fmul(s0, c));
        assert(b[k] == fmul(s1, c));
        lemma_pair_sums(tables, idx, half, half);
        lemma_fmul_distrib(c, s0, s1);
        lemma_fmul_comm(c, s0);
        lemma_fmul_comm(c, s1);
        lemma_fmul_comm(c, fadd(s0, s1));
    }
    assert(Seq::new(a.len(), |k: int| fadd(a[k], b[k])) =~= v);
}

/// The round polynomial `t -> sum_k c_k sum_{b < half} prod_{f in idx_k} f(t, b)`
/// at `t`, the lowest variable being `t` and `b` the others.
pub open spec fn round_value(tables: Seq<Seq<int>>, terms: Seq<(int, Seq<usize>)>, half: nat, t: int) -> int {
    seq_sum(
        Seq::new(
            terms.len(),
            |k: int| fmul(partial_product_sum(tables, terms[k].1, half, t), terms[k].0),
        ),
    )
}

/// Up to the smallest number of factors, the round message holds the round
/// polynomial's values.
pub proof fn lemma_round_message_values(
    tables: Seq<Seq<int>>,
    terms: Seq<(int, Seq<usize>)>,
    half: nat,
    max_degree: nat,
    t: int,
)
    requires
        0 <= t <= max_degree,
        forall|k: int| 0 <= k < terms.len() ==> t <= (#[trigger] terms[k]).1.len(),
    ensures
        round_message(tables, terms, half, max_degree)[t] == round_value(tables, terms, half, t),
{
    let a = Seq::new(
        terms.len(),
        |k: int| product_message(tables, terms[k].0, terms[k].1, half, max_degree)[t],
    );
    let b = Seq::new(
        terms.len(),
        |k: int| fmul(partial_product_sum(tables, terms[k].1, half, t), terms[k].0),
    );
    assert forall|k: int| 0 <= k < terms.len() implies #[trigger] a[k] == b[k] by {
        assert(t <= terms[k].1.len());
    }
    assert(a =~= b);
}

/// Fixing the lowest variable at `r` and summing the virtual polynomial over
/// the rest gives the round polynomial's value at `r`.
proof fn lemma_fixed_sum(
    tables: Seq<Seq<int>>,
    terms: Seq<(int, Seq<usize>)>,
    nv: nat,
    r: int,
    max_degree: nat,
)
    requires
        nv >= 1,
        forall|k: int|
            0 <= k < terms.len() ==> factors_ok(
                (#[trigger] terms[k]).1,
                tables.len() as nat,
                max_degree,
            ),
    ensures
        virtual_sum(fixed_tables(tables, nv, r), terms, two_pow((nv - 1) as nat)) == round_value(
            tables,
            terms,
            two_pow((nv - 1) as nat),
            r,
        ),
{
    let h = two_pow((nv - 1) as nat);
    let f = fixed_tables(tables, nv, r);
    assert forall|j: int| 0 <= j < tables.len() implies #[trigger] f[j] == fix_one_spec(
        tables[j],
        nv,
        r,
    ) by {
        let one = fix_one_spec(tables[j], nv, r);
        assert(seq![r].drop_first() =~= Seq::<int>::empty());
        assert(seq![r][0] == r);
        assert(fix_all_spec(one, (nv - 1) as nat, Seq::<int>::empty()) == one);
        assert(fix_all_spec(tables[j], nv, seq![r]) == one);
        assert(one.subrange(0, h as int) =~= one);
    }
    assert forall|k: int| 0 <= k < terms.len() implies #[trigger] product_total(
        f,
        terms[k].1,
        h,
    ) == partial_product_sum(tables, terms[k].1, h, r) by {
        let idx = terms[k].1;
        assert(factors_ok(idx, tables.len() as nat, max_degree));
        assert forall|x: int| 0 <= x < h implies #[trigger] product_at(f, idx, x) == seq_prod(
            factor_values(tables, idx, x, r),
        ) by {
            assert forall|g: int| 0 <= g < idx.len() implies #[trigger] factor_values(
                tables,
                idx,
                x,
                r,
            )[g] == f[idx[g] as int][x] by {
                assert(idx[g] < tables.len());
                let t = tables[idx[g] as int];
                assert(f[idx[g] as int] == fix_one_spec(t, nv, r));
                lemma_fmul_comm(fsub(t[2 * x + 1], t[2 * x]), r);
            }
            assert(Seq::new(idx.len(), |g: int| f[idx[g] as int][x]) =~= factor_values(
                tables,
                idx,
                x,
                r,
            ));
        }
        assert(Seq::new(h, |x: int| product_at(f, idx, x)) =~= Seq::new(
            h,
            |b: int| seq_prod(factor_values(tables, idx, b, r)),
        ));
    }
    assert(Seq::new(
        terms.len(),
        |k: int| fmul(product_total(f, terms[k].1, h), terms[k].0),
    ) =~= Seq::new(
        terms.len(),
        |k: int| fmul(partial_product_sum(tables, terms[k].1, h, r), terms[k].0),
    ));
}

/// Consecutive rounds agree: when the prover holds tables `tables` in `nv`
/// variables and the verifier's challenge is `r`, the next round's message
/// (built on the tables with the lowest variable fixed at `r`) has values at
/// `0` and `1` that add up to the current round polynomial's value at `r`; and
/// the current message holds that polynomial's values at `0, 1, ...` up to
/// the smallest number of factors (`lemma_round_message_values`).
pub proof fn lemma_consecutive_rounds(
    tables: Seq<Seq<int>>,
    terms: Seq<(int, Seq<usize>)>,
    nv: nat,
    r: int,
    max_degree: nat,
)
    requires
        nv >= 2,
        max_degree >= 1,
        forall|k: int|
            0 <= k < terms.len() ==> factors_ok(
                (#[trigger] terms[k]).1,
                tables.len() as nat,
                max_degree,
            ),
        forall|j: int| 0 <= j < tables.len() ==> (#[trigger] tables[j]).len() >= two_pow(nv),
    ensures
        ({
            let next = round_message(
                fixed_tables(tables, nv, r),
                terms,
                two_pow((nv - 2) as nat),
                max_degree,
            );
            fadd(next[0], next[1]) == round_value(tables, terms, two_pow((nv - 1) as nat), r)
        }),
{
    let f = fixed_tables(tables, nv, r);
    let h2 = two_pow((nv - 2) as nat);
    lemma_two_pow_half(nv);
    lemma_two_pow_half((nv - 1) as nat);
    assert forall|j: int| 0 <= j < f.len() implies (#[trigger] f[j]).len() == 2 * h2 && canonical(
        f[j],
    ) by {
        let one = fix_one_spec(tables[j], nv, r);
        assert(seq![r].drop_first() =~= Seq::<int>::empty());
        assert(seq![r][0] == r);
        assert(fix_all_spec(one, (nv - 1) as nat, Seq::<int>::empty()) == one);
        assert(fix_all_spec(tables[j], nv, seq![r]) == one);
        assert forall|i: int| 0 <= i < f[j].len() implies 0 <= #[trigger] f[j][i] < fr_modulus() by {
            crate::algebra::lemma_ops_range(
                tables[j][2 * i],
                fmul(fsub(tables[j][2 * i + 1], tables[j][2 * i]), r),
            );
        }
    }
    lemma_round_message_sum(f, terms, h2, max_degree);
    lemma_fixed_sum(tables, terms, nv, r, max_degree);
}

/// `tab[2b] + X (tab[2b + 1] - tab[2b])`: the pair `b` of a table as a line in
/// the lowest variable.
pub open spec fn pair_line(tab: Seq<int>, b: int) -> Seq<int> {
    seq![tab[2 * b], fsub(tab[2 * b + 1], tab[2 * b])]
}

/// The product of the lines of the first `m` factors at pair `b`.
pub open spec fn factors_poly(tables: Seq<Seq<int>>, idx: Seq<usize>, b: int, m: nat) -> Seq<int>
    decreases m,
{
    if m == 0 {
        seq![1int]
    } else {
        poly_mul(factors_poly(tables, idx, b, (m - 1) as nat), pair_line(tables[idx[m - 1] as int], b))
    }
}

/// The round polynomial in coefficient form:
/// `sum_k c_k sum_{b < half} prod_{f in idx_k} line_f(b)`.
pub open spec fn round_poly(tables: Seq<Seq<int>>, terms: Seq<(int, Seq<usize>)>, half: nat) -> Seq<int> {
    poly_sum(
        Seq::new(
            terms.len(),
            |k: int|
                poly_mul(
                    poly_sum(
                        Seq::new(half, |b: int| factors_poly(tables, terms[k].1, b, terms[k].1.len())),
                        half,
                    ),
                    seq![terms[k].0],
                ),
        ),
        terms.len(),
    )
}

proof fn lemma_factors_poly(tables: Seq<Seq<int>>, idx: Seq<usize>, b: int, m: nat, t: int)
    requires
        m <= idx.len(),
        forall|f: int| 0 <= f < idx.len() ==> 0 <= #[trigger] tables[idx[f] as int][2 * b] < fr_modulus(),
    ensures
        poly_eval(factors_poly(tables, idx, b, m), t) == seq_prod(
            factor_values(tables, idx, b, t).take(m as int),
        ),
        factors_poly(tables, idx, b, m).len() == m + 1,
    decreases m,
{
    let fv = factor_values(tables, idx, b, t);
    if m == 0 {
        lemma_eval_const(1, t);
        vstd::arithmetic::div_mod::lemma_small_mod(1, fr_modulus() as nat);
        assert(fv.take(0) =~= Seq::<int>::empty());
    } else {
        let k = (m - 1) as nat;
        lemma_factors_poly(tables, idx, b, k, t);
        let tab = tables[idx[k as int] as int];
        let l = pair_line(tab, b);
        lemma_eval_mul(factors_poly(tables, idx, b, k), l, t);
        lemma_poly_mul_len(factors_poly(tables, idx, b, k), l);
        let a = tab[2 * b];
        let sd = fsub(tab[2 * b + 1], tab[2 * b]);
        assert(l.drop_first() =~= seq![sd]);
        lemma_eval_const(sd, t);
        crate::algebra::lemma_ops_range(tab[2 * b + 1], tab[2 * b]);
        vstd::arithmetic::div_mod::lemma_small_mod(sd as nat, fr_modulus() as nat);
        assert(poly_eval(l, t) == fv[k as int]);
        assert(fv.take(m as int).drop_last() =~= fv.take(k as int));
    }
}

/// The coefficient form evaluates to the round polynomial's value.
proof fn lemma_round_poly_eval(
    tables: Seq<Seq<int>>,
    terms: Seq<(int, Seq<usize>)>,
    half: nat,
    d: nat,
    t: int,
)
    requires
        forall|k: int| 0 <= k < terms.len() ==> (#[trigger] terms[k]).1.len() == d,
        forall|k: int| 0 <= k < terms.len() ==> 0 <= (#[trigger] terms[k]).0 < fr_modulus(),
        forall|j: int| 0 <= j < tables.len() ==> canonical(#[trigger] tables[j]),
        forall|k: int, f: int|
            0 <= k < terms.len() && 0 <= f < d ==> (#[trigger] terms[k].1[f]) < tables.len(),
        forall|j: int| 0 <= j < tables.len() ==> (#[trigger] tables[j]).len() >= 2 * half,
        half >= 1,
    ensures
        poly_eval(round_poly(tables, terms, half), t) == round_value(tables, terms, half, t),
        round_poly(tables, terms, half).len() <= d + 1,
{
    let tps = Seq::new(
        terms.len(),
        |k: int|
            poly_mul(
                poly_sum(
                    Seq::new(half, |b: int| factors_poly(tables, terms[k].1, b, terms[k].1.len())),
                    half,
                ),
                seq![terms[k].0],
            ),
    );
    crate::composed::lemma_poly_sum_eval(tps, terms.len(), t);
    assert forall|k: int| 0 <= k < terms.len() implies #[trigger] tps[k].len() == d + 1 && poly_eval(
        tps[k],
        t,
    ) == fmul(partial_product_sum(tables, terms[k].1, half, t), terms[k].0) by {
        let idx = terms[k].1;
        let c = terms[k].0;
        let bs = Seq::new(half, |b: int| factors_poly(tables, idx, b, idx.len()));
        crate::composed::lemma_poly_sum_eval(bs, half, t);
        assert forall|b: int| 0 <= b < half implies #[trigger] bs[b].len() == d + 1 && poly_eval(
            bs[b],
            t,
        ) == seq_prod(factor_values(tables, idx, b, t)) by {
            assert forall|f: int| 0 <= f < idx.len() implies 0 <= #[trigger] tables[idx[f] as int][2
                * b] < fr_modulus() by {
                assert(terms[k].1[f] < tables.len());
                assert(canonical(tables[idx[f] as int]));
            }
            lemma_factors_poly(tables, idx, b, idx.len(), t);
            assert(factor_values(tables, idx, b, t).take(idx.len() as int) =~= factor_values(
                tables,
                idx,
                b,
                t,
            ));
        }
        assert(Seq::new(half, |b: int| poly_eval(bs[b], t)) =~= Seq::new(
            half,
            |b: int| seq_prod(factor_values(tables, idx, b, t)),
        ));
        let s = poly_sum(bs, half);
        lemma_poly_sum_len(bs, half, d + 1);
        lemma_eval_mul(s, seq![c], t);
        lemma_eval_const(c, t);
        vstd::arithmetic::div_mod::lemma_small_mod(c as nat, fr_modulus() as nat);
        lemma_poly_mul_len(s, seq![c]);
    }
    assert(Seq::new(terms.len(), |k: int| poly_eval(tps[k], t)) =~= Seq::new(
        terms.len(),
        |k: int| fmul(partial_product_sum(tables, terms[k].1, half, t), terms[k].0),
    ));
    if terms.len() > 0 {
        lemma_poly_sum_len(tps, terms.len(), d + 1);
    } else {
        assert(round_poly(tables, terms, half) == poly_sum(tps, 0));
    }
}

/// When every product has `max_degree` factors (so that no value of the
/// message is extrapolated), the polynomial through the message's values at
/// `0, ..., max_degree` is the round polynomial: at the verifier's challenge
/// it gives the value that the next message's values at `0` and `1` add up to
/// (`lemma_consecutive_rounds`). The nodes' differences must be invertible.
pub proof fn lemma_message_interpolates_round(
    tables: Seq<Seq<int>>,
    terms: Seq<(int, Seq<usize>)>,
    half: nat,
    max_degree: nat,
    x: int,
)
    requires
        half >= 1,
        max_degree < fr_modulus(),
        forall|k: int| 0 <= k < terms.len() ==> (#[trigger] terms[k]).1.len() == max_degree,
        forall|k: int| 0 <= k < terms.len() ==> 0 <= (#[trigger] terms[k]).0 < fr_modulus(),
        forall|k: int, f: int|
            0 <= k < terms.len() && 0 <= f < max_degree ==> (#[trigger] terms[k].1[f])
                < tables.len(),
        forall|j: int|
            0 <= j < tables.len() ==> (#[trigger] tables[j]).len() >= 2 * half && canonical(
                tables[j],
            ),
        forall|i: int|
            0 <= i <= max_degree ==> #[trigger] differences_invertible(
                node_points(max_degree + 1),
                i,
                max_degree + 1,
            ),
    ensures
        poly_eval(
            lagrange_interpolant(
                node_points(max_degree + 1),
                round_message(tables, terms, half, max_degree),
            ),
            x,
        ) == round_value(tables, terms, half, x),
{
    let d = max_degree;
    let xs = node_points(d + 1);
    let ys = round_message(tables, terms, half, d);
    let q = round_poly(tables, terms, half);
    lemma_round_poly_eval(tables, terms, half, d, x);
    assert forall|k: int| 0 <= k < xs.len() implies #[trigger] ys[k] == poly_eval(q, xs[k]) by {
        lemma_round_message_values(tables, terms, half, d, k);
        lemma_round_poly_eval(tables, terms, half, d, k);
    }
    assert forall|i: int| 0 <= i < xs.len() implies #[trigger] differences_invertible(
        xs,
        i,
        xs.len(),
    ) by {
        assert(differences_invertible(node_points(d + 1), i, d + 1));
    }
    lemma_interpolant_reproduces(q, xs, ys, x);
}

/// Completeness across rounds of the virtual sum-check: when every product
/// has `max_degree` factors, the message of the round after fixing the first
/// variable to `r` sums, over `0` and `1`, to the previous round's message
/// interpolated (through the nodes `0, ..., max_degree`) at `r`; and the first
/// message sums to the sum of the polynomial over the hypercube.
pub proof fn lemma_sumcheck_round_chain(
    tables: Seq<Seq<int>>,
    terms: Seq<(int, Seq<usize>)>,
    nv: nat,
    r: int,
    max_degree: nat,
)
    requires
        nv >= 2,
        1 <= max_degree < fr_modulus(),
        forall|k: int| 0 <= k < terms.len() ==> (#[trigger] terms[k]).1.len() == max_degree,
        forall|k: int| 0 <= k < terms.len() ==> 0 <= (#[trigger] terms[k]).0 < fr_modulus(),
        forall|k: int, f: int|
            0 <= k < terms.len() && 0 <= f < max_degree ==> (#[trigger] terms[k].1[f]) < tables.len(),
        forall|j: int|
            0 <= j < tables.len() ==> (#[trigger] tables[j]).len() == two_pow(nv) && canonical(
                tables[j],
            ),
        forall|i: int|
            0 <= i <= max_degree ==> #[trigger] differences_invertible(
                node_points(max_degree + 1),
                i,
                max_degree + 1,
            ),
    ensures
        ({
            let half = two_pow((nv - 1) as nat);
            let first = round_message(tables, terms, half, max_degree);
            let next = round_message(
                fixed_tables(tables, nv, r),
                terms,
                two_pow((nv - 2) as nat),
                max_degree,
            );
            &&& fadd(first[0], first[1]) == virtual_sum(tables, terms, two_pow(nv))
            &&& fadd(next[0], next[1]) == poly_eval(
                lagrange_interpolant(node_points(max_degree + 1), first),
                r,
            )
        }),
{
    let half = two_pow((nv - 1) as nat);
    lemma_two_pow_half(nv);
    crate::pow2::lemma_two_pow_pos((nv - 1) as nat);
    assert(two_pow(nv) == 2 * half);
    assert forall|k: int| 0 <= k < terms.len() implies factors_ok(
        (#[trigger] terms[k]).1,
        tables.len() as nat,
        max_degree,
    ) by {
        assert forall|i: int| 0 <= i < terms[k].1.len() implies #[trigger] terms[k].1[i] < tables.len() by {
            assert(terms[k].1[i] < tables.len());
        }
    }
    lemma_round_message_sum(tables, terms, half, max_degree);
    lemma_consecutive_rounds(tables, terms, nv, r, max_degree);
    lemma_message_interpolates_round(tables, terms, half, max_degree, r);
}

} // verus!
