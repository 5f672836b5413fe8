//! Products of multilinear polynomials over the same variables, and the
//! sum-check protocol for such products.
//!
//! A `ComposedMultilinear` with factors `f_1, ..., f_d` stands for the
//! polynomial `f_1 * ... * f_d`, of degree `d` in each variable. Each round of
//! the sum-check sends the polynomial `X -> sum_b prod_k f_k(r, X, b)` through
//! its values at `0, 1, ..., d`.
use crate::algebra::{lemma_fmul_comm, lemma_lerp, lemma_ops_range};
use crate::field::{be_bytes, fadd, fmul, fr_modulus, fsub, Fr};
use crate::kzg::{lemma_poly_mul_len, lemma_poly_sum_len};
use crate::low_degree::lemma_interpolant_reproduces;
use crate::multilinear::{
    fold_all, fold_first, lemma_fold_all_push, lemma_lerp_bool, lemma_partial_eval_first, ml_lerp,
    partial_eval_seq, partial_evals_seq, Multilinear,
};
use crate::pow2::{lemma_two_pow_half, lemma_two_pow_pos, two_pow};
use crate::sumcheck::{lemma_seq_sum_concat, seq_sum};
use crate::transcript::{after_sample, challenge, FiatShamirTranscript};
use crate::univariate::{
    canonical, differences_invertible, distinct, elems_bytes, lagrange_interpolant, lemma_eval_add,
    lemma_eval_const, lemma_eval_mul, lemma_vec_canonical, poly_eval, poly_mul, poly_sum,
    UnivariantPolynomial,
};
use vstd::prelude::*;

verus! {

/// The product of the `j`-th entries of the tables.
pub open spec fn prod_at(ts: Seq<Seq<int>>, j: int) -> int
    decreases ts.len(),
{
    if ts.len() == 0 {
        1
    } else {
        fmul(prod_at(ts.drop_last(), j), ts.last()[j])
    }
}

/// The entry-wise product of the tables, as long as the first one (empty when
/// there is no table).
pub open spec fn table_product(ts: Seq<Seq<int>>) -> Seq<int> {
    if ts.len() == 0 {
        Seq::empty()
    } else {
        Seq::new(ts[0].len(), |j: int| prod_at(ts, j))
    }
}

/// Every table with its first variable fixed at `r`.
pub open spec fn fold_tables(ts: Seq<Seq<int>>, r: int) -> Seq<Seq<int>> {
    Seq::new(ts.len(), |k: int| fold_first(ts[k], r))
}

/// The points `0, 1, ..., n - 1`.
pub open spec fn small_points(n: nat) -> Seq<int> {
    Seq::new(n, |i: int| i)
}

/// The values at `0, ..., d` of `X -> sum_b prod_k f_k(X, b)`.
pub open spec fn round_values(ts: Seq<Seq<int>>, d: nat) -> Seq<int> {
    Seq::new(d + 1, |i: int| seq_sum(table_product(fold_tables(ts, i))))
}

/// The coefficients of the round polynomial: the interpolant of `round_values`.
pub open spec fn round_coeffs(ts: Seq<Seq<int>>, d: nat) -> Seq<int> {
    lagrange_interpolant(small_points(d + 1), round_values(ts, d))
}

/// The tables serialised one after the other.
pub open spec fn tables_bytes(ts: Seq<Seq<int>>) -> Seq<u8>
    decreases ts.len(),
{
    if ts.len() == 0 {
        Seq::empty()
    } else {
        tables_bytes(ts.drop_last()) + elems_bytes(ts.last())
    }
}

/// The transcript log once the polynomial and the claimed sum are appended.
pub open spec fn opening_log(log: Seq<u8>, ts: Seq<Seq<int>>, sum: int) -> Seq<u8> {
    log + tables_bytes(ts) + be_bytes(sum, 32)
}

/// The prover's state after `i` rounds: the factor tables with the first `i`
/// variables fixed, the transcript log, and the challenges.
pub open spec fn composed_state(ts: Seq<Seq<int>>, log0: Seq<u8>, d: nat, i: nat) -> (
    Seq<Seq<int>>,
    Seq<u8>,
    Seq<int>,
)
    decreases i,
{
    if i == 0 {
        (ts, log0, Seq::empty())
    } else {
        let (cur, log, rs) = composed_state(ts, log0, d, (i - 1) as nat);
        let l2 = log + elems_bytes(round_coeffs(cur, d));
        let r = challenge(l2);
        (fold_tables(cur, r), after_sample(l2), rs.push(r))
    }
}

/// The round polynomials of the honest proof.
pub open spec fn composed_rounds(ts: Seq<Seq<int>>, log0: Seq<u8>, d: nat, n: nat) -> Seq<Seq<int>> {
    Seq::new(n, |i: int| round_coeffs(composed_state(ts, log0, d, i as nat).0, d))
}

/// The verifier's state before round `i`: the log, the challenges so far and
/// the value the next round polynomial must sum to.
pub open spec fn check_state(rounds: Seq<Seq<int>>, log0: Seq<u8>, sum: int, i: nat) -> (
    Seq<u8>,
    Seq<int>,
    int,
)
    decreases i,
{
    if i == 0 {
        (log0, Seq::empty(), sum)
    } else {
        let (log, rs, s) = check_state(rounds, log0, sum, (i - 1) as nat);
        let c = rounds[i - 1];
        let l2 = log + elems_bytes(c);
        let r = challenge(l2);
        (after_sample(l2), rs.push(r), poly_eval(c, r))
    }
}

/// Round `i` sums to what the previous round promised.
pub open spec fn check_round_ok(rounds: Seq<Seq<int>>, log0: Seq<u8>, sum: int, i: int) -> bool {
    fadd(poly_eval(rounds[i], 0), poly_eval(rounds[i], 1)) == check_state(
        rounds,
        log0,
        sum,
        i as nat,
    ).2
}

/// The value of the product at `point`.
pub open spec fn composed_value(ts: Seq<Seq<int>>, point: Seq<int>) -> int {
    prod_at(Seq::new(ts.len(), |k: int| fold_all(ts[k], point)), 0)
}

/// When the verifier accepts: every round is consistent and the last promised
/// value is the product's value at the challenges.
pub open spec fn composed_accepts(
    ts: Seq<Seq<int>>,
    rounds: Seq<Seq<int>>,
    log0: Seq<u8>,
    sum: int,
) -> bool {
    let (logn, rs, s) = check_state(rounds, log0, sum, rounds.len());
    &&& forall|i: int| 0 <= i < rounds.len() ==> #[trigger] check_round_ok(rounds, log0, sum, i)
    &&& composed_value(ts, rs) == s
}

/// A product of multilinear polynomials.
#[derive(Debug)]
pub struct ComposedMultilinear {
    /// The factors.
    pub polys: Vec<Multilinear>,
}

/// The interface of a product of multilinear polynomials.
pub trait ComposedMultilinearInterface {
    /// The factors are well formed and share their variables.
    spec fn well_formed(&self) -> bool;

    /// The entry-wise product of the factors' evaluations.
    fn elementwise_product(&self) -> Vec<Fr>
        requires
            self.well_formed(),
    ;
}

impl ComposedMultilinear {
    /// The factors' evaluation tables.
    pub open spec fn tables(&self) -> Seq<Seq<int>> {
        Seq::new(self.polys.len() as nat, |k: int| self.polys[k].evals())
    }

    /// Every factor is well formed and all have the same number of variables.
    pub open spec fn wf(&self) -> bool {
        forall|k: int|
            0 <= k < self.polys.len() ==> #[trigger] self.polys[k].wf() && self.polys[k].num_vars
                == self.polys[0].num_vars
    }

    /// The number of variables (zero without factors).
    pub open spec fn nv(&self) -> nat {
        if self.polys.len() == 0 {
            0
        } else {
            self.polys[0].num_vars as nat
        }
    }

    /// Creates the product of `polys`, which must share their number of variables.
    pub fn new(polys: Vec<Multilinear>) -> (r: Self)
        requires
            polys.len() > 0,
            forall|k: int| 0 <= k < polys.len() ==> #[trigger] polys[k].num_vars == polys[0].num_vars,
        ensures
            r.polys@ == polys@,
    {
        ComposedMultilinear { polys }
    }

    /// A copy of this product.
    pub fn clone(&self) -> (r: Self)
        ensures
            r.polys.len() == self.polys.len(),
            forall|k: int|
                0 <= k < self.polys.len() ==> (#[trigger] r.polys[k]).num_vars == self.polys[k].num_vars
                    && r.polys[k].evaluations@ == self.polys[k].evaluations@,
    {
        let mut polys: Vec<Multilinear> = Vec::new();
        let mut k: usize = 0;
        while k < self.polys.len()
            invariant
                k <= self.polys.len(),
                polys.len() == k,
                forall|j: int|
                    0 <= j < k ==> (#[trigger] polys[j]).num_vars == self.polys[j].num_vars
                        && polys[j].evaluations@ == self.polys[j].evaluations@,
            decreases self.polys.len() - k,
        {
            polys.push(self.polys[k].clone());
            k = k + 1;
        }
        ComposedMultilinear { polys }
    }

    /// The number of variables.
    pub fn num_vars(&self) -> (r: usize)
        requires
            self.polys.len() > 0,
        ensures
            r == self.nv(),
    {
        self.polys[0].num_vars
    }

    /// The degree in each variable: the number of factors.
    pub fn max_degree(&self) -> (r: usize)
        ensures
            r == self.polys.len(),
    {
        self.polys.len()
    }

    /// Fixes variable `variable_index` of every factor at `evaluation_point`.
    pub fn partial_evaluation(&self, evaluation_point: Fr, variable_index: usize) -> (r: Self)
        requires
            self.wf(),
            variable_index < self.nv(),
        ensures
            r.wf(),
            r.polys.len() == self.polys.len(),
            r.nv() == self.nv() - 1,
            forall|k: int|
                0 <= k < self.polys.len() ==> #[trigger] r.tables()[k] == partial_eval_seq(
                    self.tables()[k],
                    variable_index as nat,
                    evaluation_point@,
                ),
    {
        let mut polys: Vec<Multilinear> = Vec::new();
        let mut k: usize = 0;
        while k < self.polys.len()
            invariant
                self.wf(),
                variable_index < self.nv(),
                k <= self.polys.len(),
                polys.len() == k,
                forall|j: int|
                    0 <= j < k ==> (#[trigger] polys[j]).wf() && polys[j].num_vars == self.nv() - 1
                        && polys[j].evals() == partial_eval_seq(
                        self.polys[j].evals(),
                        variable_index as nat,
                        evaluation_point@,
                    ),
            decreases self.polys.len() - k,
        {
            assert(self.polys[k as int].wf());
            let p = self.polys[k].partial_evaluation(evaluation_point, variable_index);
            polys.push(p);
            k = k + 1;
        }
        let r = ComposedMultilinear { polys };
        proof {
            assert forall|k: int| 0 <= k < self.polys.len() implies #[trigger] r.tables()[k]
                == partial_eval_seq(self.tables()[k], variable_index as nat, evaluation_point@) by {
                assert(r.polys[k].evals() == partial_eval_seq(
                    self.polys[k].evals(),
                    variable_index as nat,
                    evaluation_point@,
                ));
            }
        }
        r
    }

    /// Fixes the listed variables one after the other.
    pub fn partial_evaluations(&self, evaluation_points: Vec<Fr>, variable_indices: Vec<usize>) -> (r: Self)
        requires
            self.wf(),
            evaluation_points.len() == variable_indices.len(),
            forall|i: int|
                0 <= i < variable_indices.len() ==> #[trigger] variable_indices[i] < self.nv() - i,
        ensures
            r.wf(),
            r.polys.len() == self.polys.len(),
            r.nv() == self.nv() - evaluation_points.len(),
            forall|k: int|
                0 <= k < self.polys.len() ==> #[trigger] r.tables()[k] == partial_evals_seq(
                    self.tables()[k],
                    evaluation_points.deep_view(),
                    variable_indices@,
                ),
    {
        let mut cur = self.clone();
        let mut i: usize = 0;
        let n = evaluation_points.len();
        let ghost pts = evaluation_points.deep_view();
        let ghost idx = variable_indices@;
        proof {
            assert forall|k: int| 0 <= k < cur.polys.len() implies #[trigger] cur.polys[k].wf()
                && cur.polys[k].num_vars == cur.polys[0].num_vars by {
                assert(self.polys[k].wf());
            }
            assert(pts.subrange(0, n as int) =~= pts);
            assert(idx.subrange(0, n as int) =~= idx);
            assert(cur.tables() =~= self.tables());
        }
        while i < n
            invariant
                i <= n,
                n == evaluation_points.len(),
                n == variable_indices.len(),
                pts == evaluation_points.deep_view(),
                idx == variable_indices@,
                forall|j: int|
                    0 <= j < variable_indices.len() ==> #[trigger] variable_indices[j] < self.nv() - j,
                cur.wf(),
                cur.polys.len() == self.polys.len(),
                cur.nv() == self.nv() - i,
                forall|k: int|
                    0 <= k < self.polys.len() ==> #[trigger] partial_evals_seq(
                        self.tables()[k],
                        pts,
                        idx,
                    ) == partial_evals_seq(
                        cur.tables()[k],
                        pts.subrange(i as int, n as int),
                        idx.subrange(i as int, n as int),
                    ),
            decreases n - i,
        {
            assert(variable_indices[i as int] < self.nv() - i);
            let next = cur.partial_evaluation(evaluation_points[i], variable_indices[i]);
            proof {
                let ps = pts.subrange(i as int, n as int);
                let is = idx.subrange(i as int, n as int);
                assert(ps.drop_first() =~= pts.subrange(i + 1, n as int));
                assert(is.drop_first() =~= idx.subrange(i + 1, n as int));
                assert(ps[0] == evaluation_points[i as int]@);
                assert(is[0] == variable_indices[i as int]);
                assert forall|k: int| 0 <= k < self.polys.len() implies #[trigger] partial_evals_seq(
                    self.tables()[k],
                    pts,
                    idx,
                ) == partial_evals_seq(
                    next.tables()[k],
                    pts.subrange(i + 1, n as int),
                    idx.subrange(i + 1, n as int),
                ) by {
                    assert(next.tables()[k] == partial_eval_seq(
                        cur.tables()[k],
                        variable_indices[i as int] as nat,
                        evaluation_points[i as int]@,
                    ));
                }
            }
            cur = next;
            i = i + 1;
        }
        proof {
            assert(pts.subrange(n as int, n as int) =~= Seq::<int>::empty());
            assert(idx.subrange(n as int, n as int) =~= Seq::<usize>::empty());
        }
        cur
    }

    /// The product of the factors' values at `point`; `None` where a factor has
    /// no value there (an empty point).
    pub fn evaluate(&self, point: &Vec<Fr>) -> (r: Option<Fr>)
        requires
            self.wf(),
            point.len() <= self.nv(),
        ensures
            self.polys.len() > 0 && point.len() == 0 ==> r is None,
            self.polys.len() == 0 || point.len() > 0 ==> r == Some(r->0) && r->0@ == composed_value(
                self.tables(),
                point.deep_view(),
            ),
    {
        let mut result = Fr::one();
        let mut k: usize = 0;
        let ghost vals = Seq::new(
            self.polys.len() as nat,
            |j: int| fold_all(self.tables()[j], point.deep_view()),
        );
        while k < self.polys.len()
            invariant
                self.wf(),
                point.len() <= self.nv(),
                k <= self.polys.len(),
                vals.len() == self.polys.len(),
                forall|j: int|
                    0 <= j < self.polys.len() ==> #[trigger] vals[j] == fold_all(
                        self.tables()[j],
                        point.deep_view(),
                    ),
                result@ == prod_at(vals.take(k as int), 0),
                k > 0 ==> point.len() > 0,
            decreases self.polys.len() - k,
        {
            assert(self.polys[k as int].wf());
            match self.polys[k].evaluate(point) {
                Some(v) => {
                    proof {
                        assert(vals.take(k + 1).drop_last() =~= vals.take(k as int));
                        assert(self.tables()[k as int] == self.polys[k as int].evals());
                    }
                    result = result.mul(&v);
                },
                None => {
                    return None;
                },
            }
            k = k + 1;
        }
        proof {
            assert(vals.take(self.polys.len() as int) =~= vals);
            assert(vals =~= Seq::new(
                self.tables().len(),
                |j: int| fold_all(self.tables()[j], point.deep_view()),
            ));
        }
        Some(result)
    }

    /// The product with no factors.
    pub fn zero(num_vars: usize) -> (r: Self)
        ensures
            r.polys.len() == 0,
    {
        ComposedMultilinear { polys: Vec::new() }
    }

    /// Whether there is no factor, or every factor is zero.
    pub fn is_zero(&self) -> (r: bool)
        ensures
            r == (self.polys.len() == 0 || forall|k: int|
                0 <= k < self.polys.len() ==> crate::multilinear::all_zero(
                    #[trigger] self.tables()[k],
                )),
    {
        if self.polys.len() == 0 {
            return true;
        }
        let mut k: usize = 0;
        while k < self.polys.len()
            invariant
                k <= self.polys.len(),
                forall|j: int|
                    0 <= j < k ==> crate::multilinear::all_zero(#[trigger] self.tables()[j]),
            decreases self.polys.len() - k,
        {
            if !self.polys[k].is_zero() {
                proof {
                    assert(self.tables()[k as int] == self.polys[k as int].evals());
                }
                return false;
            }
            k = k + 1;
        }
        true
    }

    /// The factors serialised one after the other.
    pub fn to_bytes(&self) -> (r: Vec<u8>)
        ensures
            r@ == tables_bytes(self.tables()),
    {
        let mut bytes: Vec<u8> = Vec::new();
        let mut k: usize = 0;
        while k < self.polys.len()
            invariant
                k <= self.polys.len(),
                bytes@ == tables_bytes(self.tables().take(k as int)),
            decreases self.polys.len() - k,
        {
            let mut b = self.polys[k].to_bytes();
            bytes.append(&mut b);
            proof {
                assert(self.tables().take(k + 1).drop_last() =~= self.tables().take(k as int));
            }
            k = k + 1;
        }
        proof {
            assert(self.tables().take(self.polys.len() as int) =~= self.tables());
        }
        bytes
    }

    /// Multiplies the product by one more factor.
    pub fn mul_by_mle(&self, mle: &Multilinear) -> (r: Self)
        ensures
            r.polys.len() == self.polys.len() + 1,
            r.tables() == self.tables().push(mle.evals()),
            r.polys[self.polys.len() as int].num_vars == mle.num_vars,
            forall|k: int|
                0 <= k < self.polys.len() ==> (#[trigger] r.polys[k]).num_vars == self.polys[k].num_vars,
    {
        let mut r = self.clone();
        r.polys.push(mle.clone());
        proof {
            assert(r.tables() =~= self.tables().push(mle.evals()));
        }
        r
    }

    /// Appends factors.
    pub fn extend_mle(&mut self, mles: &[Multilinear])
        ensures
            final(self).polys.len() == old(self).polys.len() + mles.len(),
            forall|k: int|
                0 <= k < old(self).polys.len() ==> (#[trigger] final(self).polys[k]).num_vars == old(
                    self,
                ).polys[k].num_vars,
            forall|k: int|
                0 <= k < mles.len() ==> (#[trigger] final(self).polys[old(self).polys.len() + k]).num_vars
                    == mles[k].num_vars,
            final(self).tables() == old(self).tables() + Seq::new(
                mles.len() as nat,
                |k: int| mles[k].evals(),
            ),
    {
        let ghost start = self.tables();
        let ghost start_polys = self.polys@;
        let mut k: usize = 0;
        while k < mles.len()
            invariant
                k <= mles.len(),
                self.tables() == start + Seq::new(k as nat, |j: int| mles[j].evals()),
                start.len() == start_polys.len(),
                self.polys.len() == start_polys.len() + k,
                forall|j: int|
                    0 <= j < start_polys.len() ==> (#[trigger] self.polys[j]).num_vars
                        == start_polys[j].num_vars,
                forall|j: int|
                    0 <= j < k ==> (#[trigger] self.polys[start_polys.len() + j]).num_vars
                        == mles[j].num_vars,
            decreases mles.len() - k,
        {
            let c = mles[k].clone();
            proof {
                assert(c.evals() =~= mles[k as int].evals());
            }
            let ghost before = self.tables();
            let ghost old_polys = self.polys@;
            self.polys.push(c);
            proof {
                let target = start + Seq::new((k + 1) as nat, |j: int| mles[j].evals());
                assert(self.polys@ == old_polys.push(c));
                assert(before.len() == old_polys.len());
                assert(before.len() == start.len() + k);
                assert(target.len() == self.polys.len());
                assert(target[old_polys.len() as int] == mles[k as int].evals());
                assert forall|j: int| 0 <= j < self.polys.len() implies #[trigger] self.tables()[j]
                    == target[j] by {
                    if j < old_polys.len() {
                        assert(self.polys[j] == old_polys[j]);
                        assert(before[j] == old_polys[j].evals());
                        assert(before[j] == target[j]);
                    } else {
                        assert(j == old_polys.len());
                        assert(self.polys[j] == c);
                    }
                }
                assert(self.tables() =~= target);
            }
            k = k + 1;
        }
    }
}

impl ComposedMultilinearInterface for ComposedMultilinear {
    open spec fn well_formed(&self) -> bool {
        self.wf()
    }

    fn elementwise_product(&self) -> (r: Vec<Fr>)
        ensures
            r.deep_view() == table_product(self.tables()),
    {
        let mut r: Vec<Fr> = Vec::new();
        if self.polys.len() == 0 {
            proof {
                assert(r.deep_view() =~= table_product(self.tables()));
            }
            return r;
        }
        let len = self.polys[0].evaluations.len();
        let ghost ts = self.tables();
        let mut j: usize = 0;
        while j < len
            invariant
                self.wf(),
                self.polys.len() > 0,
                ts == self.tables(),
                len == self.polys[0].evaluations.len(),
                j <= len,
                r.len() == j,
                forall|i: int| 0 <= i < j ==> #[trigger] r.deep_view()[i] == prod_at(ts, i),
            decreases len - j,
        {
            let mut acc = Fr::one();
            let mut k: usize = 0;
            while k < self.polys.len()
                invariant
                    self.wf(),
                    self.polys.len() > 0,
                    ts == self.tables(),
                    len == self.polys[0].evaluations.len(),
                    j < len,
                    k <= self.polys.len(),
                    acc@ == prod_at(ts.take(k as int), j as int),
                decreases self.polys.len() - k,
            {
                assert(self.polys[k as int].wf() && self.polys[k as int].num_vars
                    == self.polys[0].num_vars);
                assert(self.polys[0].wf());
                assert(self.polys[k as int].evaluations.len() == len);
                assert(ts.take(k + 1).drop_last() =~= ts.take(k as int));
                assert(ts[k as int] == self.polys[k as int].evals());
                assert(ts[k as int][j as int] == self.polys[k as int].evaluations[j as int]@);
                acc = acc.mul(&self.polys[k].evaluations[j]);
                k = k + 1;
            }
            assert(ts.take(self.polys.len() as int) =~= ts);
            let ghost before = r.deep_view();
            r.push(acc);
            proof {
                assert forall|i: int| 0 <= i <= j implies #[trigger] r.deep_view()[i] == prod_at(ts, i) by {
                    if i < j {
                        assert(r.deep_view()[i] == r@[i]@);
                        assert(before[i] == r@[i]@);
                    } else {
                        assert(r.deep_view()[i] == acc@);
                    }
                }
            }
            j = j + 1;
        }
        proof {
            assert(r.deep_view() =~= table_product(self.tables()));
        }
        r
    }
}

/// A product is well formed when every factor has `n` variables and a table of
/// `2^n` entries.
pub proof fn lemma_wf_from_tables(c: &ComposedMultilinear, n: nat)
    requires
        forall|k: int|
            0 <= k < c.polys.len() ==> (#[trigger] c.polys[k]).num_vars == n && c.polys[k].evals().len()
                == two_pow(n),
    ensures
        c.wf(),
        c.polys.len() > 0 ==> c.nv() == n,
{
    assert forall|k: int| 0 <= k < c.polys.len() implies #[trigger] c.polys[k].wf()
        && c.polys[k].num_vars == c.polys[0].num_vars by {
        assert(c.tables()[k] == c.polys[k].evals());
        assert(c.polys[k].evaluations.len() == c.polys[k].evals().len());
        assert(c.polys[0].num_vars == n);
    }
}

/// Fixing the first variable of every factor, as tables.
proof fn lemma_fold_tables(c: &ComposedMultilinear, r: &ComposedMultilinear, x: int)
    requires
        c.wf(),
        c.nv() >= 1,
        r.polys.len() == c.polys.len(),
        forall|k: int|
            0 <= k < c.polys.len() ==> #[trigger] r.tables()[k] == partial_eval_seq(
                c.tables()[k],
                0,
                x,
            ),
    ensures
        r.tables() == fold_tables(c.tables(), x),
{
    assert forall|k: int| 0 <= k < c.polys.len() implies #[trigger] r.tables()[k] == fold_first(
        c.tables()[k],
        x,
    ) by {
        assert(c.polys[k].wf());
        crate::pow2::lemma_two_pow_monotone(0, c.nv());
        lemma_partial_eval_first(c.tables()[k], c.nv(), x);
    }
    assert(r.tables() =~= fold_tables(c.tables(), x));
}

/// The points `0, ..., n - 1` are different.
proof fn lemma_small_points_distinct(n: nat)
    ensures
        distinct(small_points(n)),
{
}

/// The sum of a vector of field elements.
fn sum_elems(v: &Vec<Fr>) -> (r: Fr)
    ensures
        r@ == seq_sum(v.deep_view()),
{
    let mut acc = Fr::zero();
    let mut i: usize = 0;
    proof {
        assert(v.deep_view().subrange(0, 0) =~= Seq::<int>::empty());
    }
    while i < v.len()
        invariant
            i <= v.len(),
            acc@ == seq_sum(v.deep_view().subrange(0, i as int)),
        decreases v.len() - i,
    {
        acc = acc.add(&v[i]);
        proof {
            assert(v.deep_view().subrange(0, i + 1).drop_last() =~= v.deep_view().subrange(
                0,
                i as int,
            ));
        }
        i = i + 1;
    }
    proof {
        assert(v.deep_view().subrange(0, v.len() as int) =~= v.deep_view());
    }
    acc
}

/// The value at `t` of `X -> sum_b prod_k f_k(X, b)`.
fn value_at(cur: &ComposedMultilinear, t: usize) -> (r: Fr)
    requires
        cur.wf(),
        cur.nv() >= 1,
    ensures
        r@ == seq_sum(table_product(fold_tables(cur.tables(), t as int))),
{
    let x = Fr::from_u64(t as u64);
    let p = cur.partial_evaluation(x, 0);
    proof {
        lemma_fold_tables(cur, &p, t as int);
    }
    let e = p.elementwise_product();
    sum_elems(&e)
}

/// The values at `0, ..., d` of the round polynomial, `d` being the number of factors.
fn round_values_exec(cur: &ComposedMultilinear) -> (r: Vec<Fr>)
    requires
        cur.wf(),
        cur.nv() >= 1,
    ensures
        r.deep_view() == round_values(cur.tables(), cur.polys.len() as nat),
{
    let d = cur.polys.len();
    let mut ys: Vec<Fr> = Vec::new();
    let mut t: usize = 0;
    while t < d
        invariant
            cur.wf(),
            cur.nv() >= 1,
            d == cur.polys.len(),
            t <= d,
            ys.len() == t,
            forall|i: int|
                0 <= i < t ==> #[trigger] ys.deep_view()[i] == round_values(cur.tables(), d as nat)[i],
        decreases d - t,
    {
        let v = value_at(cur, t);
        let ghost before = ys.deep_view();
        ys.push(v);
        proof {
            assert(ys.deep_view() =~= before.push(v@));
        }
        t = t + 1;
    }
    let v = value_at(cur, d);
    let ghost before = ys.deep_view();
    ys.push(v);
    proof {
        assert(ys.deep_view() =~= before.push(v@));
        assert(ys.deep_view() =~= round_values(cur.tables(), d as nat));
    }
    ys
}

/// The field elements `0, ..., d`.
fn small_points_exec(d: usize) -> (r: Vec<Fr>)
    ensures
        r.deep_view() == small_points(d as nat + 1),
{
    let mut xs: Vec<Fr> = Vec::new();
    let mut t: usize = 0;
    while t < d
        invariant
            t <= d,
            xs.len() == t,
            forall|i: int| 0 <= i < t ==> #[trigger] xs.deep_view()[i] == i,
        decreases d - t,
    {
        let x = Fr::from_u64(t as u64);
        let ghost before = xs.deep_view();
        xs.push(x);
        proof {
            assert(xs.deep_view() =~= before.push(x@));
        }
        t = t + 1;
    }
    let x = Fr::from_u64(d as u64);
    let ghost before = xs.deep_view();
    xs.push(x);
    proof {
        assert(xs.deep_view() =~= before.push(x@));
        assert(xs.deep_view() =~= small_points(d as nat + 1));
    }
    xs
}

/// The round polynomial of the current factors, by interpolation through its
/// values at `0, ..., d`.
fn round_poly_of(cur: &ComposedMultilinear) -> (r: UnivariantPolynomial)
    requires
        cur.wf(),
        cur.nv() >= 1,
    ensures
        r.coeffs() == round_coeffs(cur.tables(), cur.polys.len() as nat),
        forall|a: int|
            0 <= a <= cur.polys.len() ==> #[trigger] differences_invertible(
                small_points(cur.polys.len() as nat + 1),
                a,
                cur.polys.len() as nat + 1,
            ),
{
    let ys = round_values_exec(cur);
    let xs = small_points_exec(cur.polys.len());
    proof {
        lemma_small_points_distinct(cur.polys.len() as nat + 1);
        assert(ys.len() == ys.deep_view().len());
        assert(xs.len() == xs.deep_view().len());
    }
    let r = UnivariantPolynomial::interpolate(ys, xs);
    proof {
        assert forall|a: int| 0 <= a <= cur.polys.len() implies #[trigger] differences_invertible(
            small_points(cur.polys.len() as nat + 1),
            a,
            cur.polys.len() as nat + 1,
        ) by {
            assert(differences_invertible(xs.deep_view(), a, xs.len() as nat));
        }
    }
    r
}

// ---------------------------------------------------------------------------
// The round polynomial in coefficient form, and completeness
// ---------------------------------------------------------------------------
/// `t[j] + X (t[j + h] - t[j])`, `h` being half the length of `t`: entry `j` of
/// the table with its first variable left free.
pub open spec fn line_poly(t: Seq<int>, j: int) -> Seq<int> {
    seq![t[j], fsub(t[j + t.len() / 2], t[j])]
}

/// The product over the tables of their line polynomials at entry `j`.
pub open spec fn entry_poly(ts: Seq<Seq<int>>, j: int) -> Seq<int>
    decreases ts.len(),
{
    if ts.len() == 0 {
        seq![1int]
    } else {
        poly_mul(entry_poly(ts.drop_last(), j), line_poly(ts.last(), j))
    }
}

/// `X -> sum_b prod_k f_k(X, b)` in coefficient form.
pub open spec fn round_sum_poly(ts: Seq<Seq<int>>) -> Seq<int> {
    let h = ts[0].len() / 2;
    poly_sum(Seq::new(h, |j: int| entry_poly(ts, j)), h)
}

/// Every table has `2 h` canonical entries.
pub open spec fn tables_shape(ts: Seq<Seq<int>>, h: nat) -> bool {
    forall|k: int| 0 <= k < ts.len() ==> (#[trigger] ts[k]).len() == 2 * h && canonical(ts[k])
}

/// The line polynomial of entry `j` is the table with its first variable fixed,
/// read at `j`.
proof fn lemma_line_poly_eval(t: Seq<int>, j: int, x: int)
    requires
        0 <= j,
        j + t.len() / 2 < t.len(),
        canonical(t),
    ensures
        poly_eval(line_poly(t, j), x) == ml_lerp(x, t[j], t[j + t.len() / 2]),
{
    let a = t[j];
    let b = t[j + t.len() / 2];
    let s = fsub(b, a);
    assert(line_poly(t, j).drop_first() =~= seq![s]);
    lemma_eval_const(s, x);
    lemma_ops_range(b, a);
    vstd::arithmetic::div_mod::lemma_small_mod(s as nat, fr_modulus() as nat);
    lemma_lerp(x, a, b);
    lemma_fmul_comm(s, x);
}

/// The product of the line polynomials of entry `j` evaluates to the product of
/// the tables' entries `j` with the first variable fixed.
proof fn lemma_entry_poly_eval(ts: Seq<Seq<int>>, h: nat, j: int, x: int)
    requires
        tables_shape(ts, h),
        0 <= j < h,
    ensures
        poly_eval(entry_poly(ts, j), x) == prod_at(fold_tables(ts, x), j),
    decreases ts.len(),
{
    if ts.len() == 0 {
        lemma_eval_const(1, x);
        vstd::arithmetic::div_mod::lemma_small_mod(1, fr_modulus() as nat);
    } else {
        let init = ts.drop_last();
        assert(tables_shape(init, h)) by {
            assert forall|k: int| 0 <= k < init.len() implies (#[trigger] init[k]).len() == 2 * h
                && canonical(init[k]) by {
                assert(init[k] == ts[k]);
            }
        }
        lemma_entry_poly_eval(init, h, j, x);
        let t = ts.last();
        assert(t == ts[ts.len() - 1]);
        lemma_line_poly_eval(t, j, x);
        lemma_eval_mul(entry_poly(init, j), line_poly(t, j), x);
        let ft = fold_tables(ts, x);
        assert(ft.drop_last() =~= fold_tables(init, x));
        assert(ft.last() == fold_first(t, x));
    }
}

/// Evaluating a sum of polynomials is summing their values.
pub proof fn lemma_poly_sum_eval(ps: Seq<Seq<int>>, m: nat, x: int)
    requires
        m <= ps.len(),
    ensures
        poly_eval(poly_sum(ps, m), x) == seq_sum(Seq::new(m, |j: int| poly_eval(ps[j], x))),
    decreases m,
{
    if m > 0 {
        lemma_poly_sum_eval(ps, (m - 1) as nat, x);
        lemma_eval_add(poly_sum(ps, (m - 1) as nat), ps[m - 1], x);
        assert(Seq::new(m, |j: int| poly_eval(ps[j], x)).drop_last() =~= Seq::new(
            (m - 1) as nat,
            |j: int| poly_eval(ps[j], x),
        ));
    }
}

/// The coefficient form evaluates to the sum over the hypercube with the first
/// variable fixed.
proof fn lemma_round_sum_poly_eval(ts: Seq<Seq<int>>, h: nat, x: int)
    requires
        ts.len() >= 1,
        tables_shape(ts, h),
    ensures
        poly_eval(round_sum_poly(ts), x) == seq_sum(table_product(fold_tables(ts, x))),
{
    let ps = Seq::new(h, |j: int| entry_poly(ts, j));
    assert(ts[0].len() == 2 * h);
    assert(round_sum_poly(ts) == poly_sum(ps, h));
    lemma_poly_sum_eval(ps, h, x);
    let ft = fold_tables(ts, x);
    assert forall|j: int| 0 <= j < h implies #[trigger] poly_eval(ps[j], x) == prod_at(ft, j) by {
        lemma_entry_poly_eval(ts, h, j, x);
    }
    assert(Seq::new(h, |j: int| poly_eval(ps[j], x)) =~= table_product(ft));
}

/// A product of `d` line polynomials has `d + 1` coefficients.
proof fn lemma_entry_poly_len(ts: Seq<Seq<int>>, j: int)
    ensures
        entry_poly(ts, j).len() == ts.len() + 1,
    decreases ts.len(),
{
    if ts.len() > 0 {
        lemma_entry_poly_len(ts.drop_last(), j);
        lemma_poly_mul_len(entry_poly(ts.drop_last(), j), line_poly(ts.last(), j));
    }
}

/// The round polynomial of `d` factors has `d + 1` coefficients.
proof fn lemma_round_sum_poly_len(ts: Seq<Seq<int>>, h: nat)
    requires
        ts.len() >= 1,
        h >= 1,
        tables_shape(ts, h),
    ensures
        round_sum_poly(ts).len() == ts.len() + 1,
{
    let ps = Seq::new(h, |j: int| entry_poly(ts, j));
    assert(ts[0].len() == 2 * h);
    assert forall|j: int| 0 <= j < h implies (#[trigger] ps[j]).len() == ts.len() + 1 by {
        lemma_entry_poly_len(ts, j);
    }
    lemma_poly_sum_len(ps, h, ts.len() + 1);
}

/// Fixing the first variable at `0` (or `1`) keeps the first (or second) half
/// of the entry-wise product.
proof fn lemma_prod_at_fold_bool(ts: Seq<Seq<int>>, h: nat, b: int, j: int)
    requires
        tables_shape(ts, h),
        b == 0 || b == 1,
        0 <= j < h,
    ensures
        prod_at(fold_tables(ts, b), j) == prod_at(ts, j + b * h),
    decreases ts.len(),
{
    if ts.len() > 0 {
        let init = ts.drop_last();
        assert(tables_shape(init, h)) by {
            assert forall|k: int| 0 <= k < init.len() implies (#[trigger] init[k]).len() == 2 * h
                && canonical(init[k]) by {
                assert(init[k] == ts[k]);
            }
        }
        lemma_prod_at_fold_bool(init, h, b, j);
        let t = ts.last();
        assert(t == ts[ts.len() - 1]);
        let ft = fold_tables(ts, b);
        assert(ft.drop_last() =~= fold_tables(init, b));
        assert(ft.last() == fold_first(t, b));
        lemma_lerp_bool(b, t[j], t[j + h]);
        assert(b * h == if b == 0 {
            0
        } else {
            h as int
        });
    }
}

/// The values at `0` and `1` of the round polynomial add up to the sum over
/// the hypercube.
proof fn lemma_halves(ts: Seq<Seq<int>>, h: nat)
    requires
        ts.len() >= 1,
        tables_shape(ts, h),
    ensures
        fadd(
            seq_sum(table_product(fold_tables(ts, 0))),
            seq_sum(table_product(fold_tables(ts, 1))),
        ) == seq_sum(table_product(ts)),
{
    let tp = table_product(ts);
    assert(ts[0].len() == 2 * h);
    assert forall|j: int| 0 <= j < h implies #[trigger] prod_at(fold_tables(ts, 0), j) == prod_at(
        ts,
        j,
    ) by {
        lemma_prod_at_fold_bool(ts, h, 0, j);
    }
    assert forall|j: int| 0 <= j < h implies #[trigger] prod_at(fold_tables(ts, 1), j) == prod_at(
        ts,
        j + h,
    ) by {
        lemma_prod_at_fold_bool(ts, h, 1, j);
    }
    assert(table_product(fold_tables(ts, 0)) =~= tp.subrange(0, h as int));
    assert(table_product(fold_tables(ts, 1)) =~= tp.subrange(h as int, 2 * h as int));
    assert(tp.subrange(0, h as int) + tp.subrange(h as int, 2 * h as int) =~= tp);
    lemma_seq_sum_concat(tp.subrange(0, h as int), tp.subrange(h as int, 2 * h as int));
}

/// The interpolated round polynomial agrees everywhere with the sum over the
/// hypercube with the first variable fixed.
proof fn lemma_round_value_anywhere(ts: Seq<Seq<int>>, h: nat, d: nat, x: int)
    requires
        ts.len() == d,
        d >= 1,
        d < fr_modulus(),
        h >= 1,
        tables_shape(ts, h),
        forall|a: int| 0 <= a <= d ==> #[trigger] differences_invertible(small_points(d + 1), a, d + 1),
    ensures
        poly_eval(round_coeffs(ts, d), x) == seq_sum(table_product(fold_tables(ts, x))),
{
    let q = round_sum_poly(ts);
    let xs = small_points(d + 1);
    let ys = round_values(ts, d);
    lemma_round_sum_poly_len(ts, h);
    assert forall|k: int| 0 <= k < xs.len() implies #[trigger] ys[k] == poly_eval(q, xs[k]) by {
        lemma_round_sum_poly_eval(ts, h, k);
    }
    assert forall|i: int| 0 <= i < xs.len() implies #[trigger] differences_invertible(
        xs,
        i,
        xs.len(),
    ) by {
        assert(differences_invertible(small_points(d + 1), i, d + 1));
    }
    lemma_interpolant_reproduces(q, xs, ys, x);
    lemma_round_sum_poly_eval(ts, h, x);
}

/// The prover's tables after `i` rounds are the initial ones with the first
/// `i` variables fixed at the challenges.
proof fn lemma_composed_state_shape(ts: Seq<Seq<int>>, log0: Seq<u8>, d: nat, n: nat, i: nat)
    requires
        ts.len() == d,
        i <= n,
        forall|k: int| 0 <= k < d ==> (#[trigger] ts[k]).len() == two_pow(n) && canonical(ts[k]),
    ensures
        composed_state(ts, log0, d, i).2.len() == i,
        composed_state(ts, log0, d, i).0.len() == d,
        forall|k: int|
            0 <= k < d ==> (#[trigger] composed_state(ts, log0, d, i).0[k]) == fold_all(
                ts[k],
                composed_state(ts, log0, d, i).2,
            ),
        forall|k: int|
            0 <= k < d ==> (#[trigger] composed_state(ts, log0, d, i).0[k]).len() == two_pow(
                (n - i) as nat,
            ) && canonical(composed_state(ts, log0, d, i).0[k]),
    decreases i,
{
    if i > 0 {
        lemma_composed_state_shape(ts, log0, d, n, (i - 1) as nat);
        let (cur, log, rs) = composed_state(ts, log0, d, (i - 1) as nat);
        let l2 = log + elems_bytes(round_coeffs(cur, d));
        let r = challenge(l2);
        let next = composed_state(ts, log0, d, i).0;
        assert(next == fold_tables(cur, r));
        assert forall|k: int| 0 <= k < d implies (#[trigger] next[k]) == fold_all(ts[k], rs.push(r))
            && next[k].len() == two_pow((n - i) as nat) && canonical(next[k]) by {
            lemma_fold_all_push(ts[k], rs, r);
            lemma_two_pow_half((n - (i - 1)) as nat);
            let c = cur[k];
            assert forall|j: int| 0 <= j < next[k].len() implies 0 <= #[trigger] next[k][j]
                < fr_modulus() by {
                lemma_ops_range(fmul(r, c[j + c.len() / 2]), fmul(fsub(1, r), c[j]));
            }
        }
    }
}

/// The verifier's replay of the honest proof: its state after `i` rounds is the
/// prover's, its running claim is the true sum of what is left, and every round
/// so far passes.
proof fn lemma_honest_check(ts: Seq<Seq<int>>, log0: Seq<u8>, d: nat, n: nat, i: nat)
    requires
        ts.len() == d,
        d >= 1,
        d < fr_modulus(),
        i <= n,
        forall|k: int| 0 <= k < d ==> (#[trigger] ts[k]).len() == two_pow(n) && canonical(ts[k]),
        n >= 1 ==> forall|a: int|
            0 <= a <= d ==> #[trigger] differences_invertible(small_points(d + 1), a, d + 1),
    ensures
        ({
            let rounds = composed_rounds(ts, log0, d, n);
            let sum = seq_sum(table_product(ts));
            let (cur, log, rs) = composed_state(ts, log0, d, i);
            &&& check_state(rounds, log0, sum, i) == (log, rs, seq_sum(table_product(cur)))
            &&& forall|a: int| 0 <= a < i ==> #[trigger] check_round_ok(rounds, log0, sum, a)
        }),
    decreases i,
{
    let rounds = composed_rounds(ts, log0, d, n);
    let sum = seq_sum(table_product(ts));
    if i > 0 {
        let p = (i - 1) as nat;
        lemma_honest_check(ts, log0, d, n, p);
        lemma_composed_state_shape(ts, log0, d, n, p);
        let (cur, log, rs) = composed_state(ts, log0, d, p);
        let h = two_pow((n - i) as nat);
        lemma_two_pow_half((n - p) as nat);
        lemma_two_pow_pos((n - i) as nat);
        assert(tables_shape(cur, h)) by {
            assert forall|k: int| 0 <= k < cur.len() implies (#[trigger] cur[k]).len() == 2 * h
                && canonical(cur[k]) by {
                assert(cur[k] == composed_state(ts, log0, d, p).0[k]);
            }
        }
        let c = rounds[p as int];
        assert(c == round_coeffs(cur, d));
        let l2 = log + elems_bytes(c);
        let r = challenge(l2);
        lemma_round_value_anywhere(cur, h, d, r);
        lemma_round_value_anywhere(cur, h, d, 0);
        lemma_round_value_anywhere(cur, h, d, 1);
        lemma_halves(cur, h);
        assert(check_round_ok(rounds, log0, sum, p as int));
        assert forall|a: int| 0 <= a < i implies #[trigger] check_round_ok(rounds, log0, sum, a) by {
            if a < p {
                assert(check_round_ok(rounds, log0, sum, a));
            }
        }
    }
}

/// Completeness of the sum-check for products: the honest round polynomials
/// (what `sum_check_proof` returns), with the true sum, are accepted by
/// `verify` on a transcript that starts from the same log. The interpolation
/// points `0..=d` must have invertible differences, which holds in the field and
/// which every run of `sum_check_proof` on a polynomial with a variable confirms.
pub proof fn lemma_composed_complete(ts: Seq<Seq<int>>, log0: Seq<u8>, d: nat, n: nat)
    requires
        ts.len() == d,
        d >= 1,
        d < fr_modulus(),
        forall|k: int| 0 <= k < d ==> (#[trigger] ts[k]).len() == two_pow(n) && canonical(ts[k]),
        n >= 1 ==> forall|a: int|
            0 <= a <= d ==> #[trigger] differences_invertible(small_points(d + 1), a, d + 1),
    ensures
        composed_accepts(ts, composed_rounds(ts, log0, d, n), log0, seq_sum(table_product(ts))),
{
    let rounds = composed_rounds(ts, log0, d, n);
    let sum = seq_sum(table_product(ts));
    lemma_honest_check(ts, log0, d, n, n);
    lemma_composed_state_shape(ts, log0, d, n, n);
    let cur = composed_state(ts, log0, d, n).0;
    let rs = composed_state(ts, log0, d, n).2;
    assert(rounds.len() == n);
    assert(two_pow(0) == 1) by {
        crate::pow2::lemma_two_pow_small();
    }
    assert(cur[0].len() == 1) by {
        assert(composed_state(ts, log0, d, n).0[0].len() == two_pow((n - n) as nat));
    }
    assert forall|k: int| 0 <= k < d implies #[trigger] cur[k] == fold_all(ts[k], rs) by {
        assert(composed_state(ts, log0, d, n).0[k] == fold_all(ts[k], rs));
    }
    assert(Seq::new(ts.len(), |k: int| fold_all(ts[k], rs)) =~= cur);
    let v = prod_at(cur, 0);
    assert(table_product(cur) =~= seq![v]);
    assert(seq![v].drop_last() =~= Seq::<int>::empty());
    lemma_prod_at_range(cur, 0);
    crate::algebra::lemma_fadd_zero(v);
    assert(seq_sum(Seq::<int>::empty()) == 0);
    assert(seq![v].last() == v);
    assert(seq_sum(seq![v]) == fadd(seq_sum(seq![v].drop_last()), seq![v].last()));
    assert(seq_sum(table_product(cur)) == v);
    assert(composed_value(ts, rs) == v);
    assert(check_state(rounds, log0, sum, n) == (composed_state(ts, log0, d, n).1, rs, v));
}

/// An entry-wise product is canonical.
proof fn lemma_prod_at_range(ts: Seq<Seq<int>>, j: int)
    ensures
        0 <= prod_at(ts, j) < fr_modulus(),
{
    if ts.len() > 0 {
        lemma_ops_range(prod_at(ts.drop_last(), j), ts.last()[j]);
    }
}

/// A sum-check proof for a product of multilinear polynomials.
#[derive(Debug)]
pub struct ComposedSumCheckProof {
    /// One polynomial per variable.
    pub round_poly: Vec<UnivariantPolynomial>,
    /// The claimed sum.
    pub sum: Fr,
}

impl ComposedSumCheckProof {
    /// The round polynomials' coefficients.
    pub open spec fn rounds(&self) -> Seq<Seq<int>> {
        Seq::new(self.round_poly.len() as nat, |i: int| self.round_poly[i].coeffs())
    }
}

/// The sum-check prover for products of multilinear polynomials.
#[derive(Clone, Copy, Debug, Default)]
pub struct ComposedProver;

/// The sum-check verifier for products of multilinear polynomials.
#[derive(Clone, Copy, Debug, Default)]
pub struct ComposedVerifier;

impl ComposedProver {
    /// The sum of the product over the boolean hypercube.
    pub fn calculate_sum(poly: &ComposedMultilinear) -> (r: Fr)
        requires
            poly.wf(),
        ensures
            r@ == seq_sum(table_product(poly.tables())),
    {
        let e = poly.elementwise_product();
        sum_elems(&e)
    }

    /// The first round polynomial, appended to the transcript.
    pub fn compute_round_zero_poly(poly: &ComposedMultilinear, transcript: &mut FiatShamirTranscript) -> (r: UnivariantPolynomial)
        requires
            poly.wf(),
            poly.nv() >= 1,
        ensures
            r.coeffs() == round_coeffs(poly.tables(), poly.polys.len() as nat),
            final(transcript).log() == old(transcript).log() + elems_bytes(r.coeffs()),
    {
        let g = round_poly_of(poly);
        let bytes = g.to_bytes();
        transcript.append(bytes.as_slice());
        g
    }

    /// The proof that `sum` is the sum of `poly_` over the hypercube, with the
    /// challenges drawn.
    pub fn sum_check_proof(poly_: &ComposedMultilinear, transcript: &mut FiatShamirTranscript, sum: &Fr) -> (r: (ComposedSumCheckProof, Vec<Fr>))
        requires
            poly_.wf(),
            poly_.polys.len() > 0,
        ensures
            r.0.sum == *sum,
            r.0.round_poly.len() == poly_.nv(),
            poly_.nv() >= 1 ==> forall|a: int|
                0 <= a <= poly_.polys.len() ==> #[trigger] differences_invertible(
                    small_points(poly_.polys.len() as nat + 1),
                    a,
                    poly_.polys.len() as nat + 1,
                ),
            forall|i: int|
                0 <= i < r.0.round_poly.len() ==> #[trigger] r.0.round_poly[i].coefficients.len()
                    == poly_.polys.len() + 1,
            r.0.rounds() == composed_rounds(
                poly_.tables(),
                opening_log(old(transcript).log(), poly_.tables(), sum@),
                poly_.polys.len() as nat,
                poly_.nv(),
            ),
            r.1.deep_view() == composed_state(
                poly_.tables(),
                opening_log(old(transcript).log(), poly_.tables(), sum@),
                poly_.polys.len() as nat,
                poly_.nv(),
            ).2,
            final(transcript).log() == composed_state(
                poly_.tables(),
                opening_log(old(transcript).log(), poly_.tables(), sum@),
                poly_.polys.len() as nat,
                poly_.nv(),
            ).1,
            sum@ == seq_sum(table_product(poly_.tables())) ==> composed_accepts(
                poly_.tables(),
                r.0.rounds(),
                opening_log(old(transcript).log(), poly_.tables(), sum@),
                sum@,
            ),
    {
        let mut poly = poly_.clone();
        let ghost ts = poly_.tables();
        let ghost d = poly_.polys.len() as nat;
        proof {
            assert(poly.tables() =~= ts);
            assert forall|k: int| 0 <= k < poly.polys.len() implies #[trigger] poly.polys[k].wf()
                && poly.polys[k].num_vars == poly.polys[0].num_vars by {
                assert(poly_.polys[k].wf());
            }
        }
        let pb = poly.to_bytes();
        transcript.append(pb.as_slice());
        let sb = sum.to_bytes_be();
        transcript.append(sb.as_slice());
        let ghost log0 = transcript.log();
        let mut all_random_reponse: Vec<Fr> = Vec::new();
        let mut round_polys: Vec<UnivariantPolynomial> = Vec::new();
        let n = poly.num_vars();
        let mut i: usize = 0;
        while i < n
            invariant
                n == poly_.nv(),
                d == poly_.polys.len(),
                i <= n,
                poly.wf(),
                poly.polys.len() == d,
                poly.nv() == n - i,
                poly.tables() == composed_state(ts, log0, d, i as nat).0,
                transcript.log() == composed_state(ts, log0, d, i as nat).1,
                all_random_reponse.deep_view() == composed_state(ts, log0, d, i as nat).2,
                round_polys.len() == i,
                forall|k: int|
                    0 <= k < i ==> #[trigger] round_polys[k].coeffs() == composed_rounds(
                        ts,
                        log0,
                        d,
                        n as nat,
                    )[k],
                i > 0 ==> forall|a: int|
                    0 <= a <= d ==> #[trigger] differences_invertible(
                        small_points(d + 1),
                        a,
                        d + 1,
                    ),
            decreases n - i,
        {
            let round_poly = round_poly_of(&poly);
            let rb = round_poly.to_bytes();
            transcript.append(rb.as_slice());
            let random_response = transcript.sample_as_field_element();
            let next = poly.partial_evaluation(random_response, 0);
            proof {
                lemma_fold_tables(&poly, &next, random_response@);
            }
            poly = next;
            let ghost before = all_random_reponse.deep_view();
            all_random_reponse.push(random_response);
            proof {
                assert(all_random_reponse.deep_view() =~= before.push(random_response@));
            }
            round_polys.push(round_poly);
            i = i + 1;
        }
        let proof = ComposedSumCheckProof { round_poly: round_polys, sum: *sum };
        proof {
            assert(proof.rounds() =~= composed_rounds(ts, log0, d, n as nat));
            assert forall|k: int| 0 <= k < proof.round_poly.len() implies #[trigger] proof.round_poly[k].coefficients.len()
                == d + 1 by {
                let cur = composed_state(ts, log0, d, k as nat).0;
                crate::kzg::lemma_interpolant_len(small_points(d + 1), round_values(cur, d));
                assert(proof.round_poly[k].coeffs() == composed_rounds(ts, log0, d, n as nat)[k]);
                assert(proof.round_poly[k].coeffs().len() == proof.round_poly[k].coefficients.len());
            }
            assert forall|k: int| 0 <= k < d implies (#[trigger] ts[k]).len() == two_pow(n as nat)
                && canonical(ts[k]) by {
                assert(poly_.polys[k].wf());
                assert(ts[k] == poly_.polys[k].evaluations.deep_view());
                lemma_vec_canonical(poly_.polys[k].evaluations);
            }
            assert(d < fr_modulus()) by {
                assert(d <= usize::MAX);
            }
            lemma_composed_complete(ts, log0, d, n as nat);
        }
        (proof, all_random_reponse)
    }
}

impl ComposedVerifier {
    /// Replays the transcript and checks every round and the final value.
    pub fn verify(proof: &ComposedSumCheckProof, poly: &ComposedMultilinear, transcript: &mut FiatShamirTranscript) -> (r: bool)
        requires
            poly.wf(),
            proof.round_poly.len() <= poly.nv(),
            poly.polys.len() > 0 ==> proof.round_poly.len() > 0,
            forall|i: int|
                0 <= i < proof.round_poly.len() ==> #[trigger] proof.round_poly[i].coefficients.len()
                    > 0,
        ensures
            r == composed_accepts(
                poly.tables(),
                proof.rounds(),
                opening_log(old(transcript).log(), poly.tables(), proof.sum@),
                proof.sum@,
            ),
    {
        let pb = poly.to_bytes();
        transcript.append(pb.as_slice());
        let sb = proof.sum.to_bytes_be();
        transcript.append(sb.as_slice());
        let ghost log0 = transcript.log();
        let ghost rounds = proof.rounds();
        assert(log0 == opening_log(old(transcript).log(), poly.tables(), proof.sum@));
        let mut all_rands: Vec<Fr> = Vec::new();
        let mut mutating_sum = proof.sum;
        let zero = Fr::zero();
        let one = Fr::one();
        let mut i: usize = 0;
        while i < proof.round_poly.len()
            invariant
                rounds == proof.rounds(),
                log0 == opening_log(old(transcript).log(), poly.tables(), proof.sum@),
                i <= proof.round_poly.len(),
                forall|k: int|
                    0 <= k < proof.round_poly.len() ==> #[trigger] proof.round_poly[k].coefficients.len()
                        > 0,
                zero@ == 0,
                one@ == 1,
                (transcript.log(), all_rands.deep_view(), mutating_sum@) == check_state(
                    rounds,
                    log0,
                    proof.sum@,
                    i as nat,
                ),
                all_rands.len() == i,
                forall|k: int| 0 <= k < i ==> #[trigger] check_round_ok(rounds, log0, proof.sum@, k),
            decreases proof.round_poly.len() - i,
        {
            let r_poly = &proof.round_poly[i];
            let rb = r_poly.to_bytes();
            transcript.append(rb.as_slice());
            let untrusted_sum = r_poly.evaluate(&zero).add(&r_poly.evaluate(&one));
            proof {
                assert(rounds[i as int] == r_poly.coeffs());
            }
            if !untrusted_sum.eq(&mutating_sum) {
                proof {
                    assert(check_state(rounds, log0, proof.sum@, i as nat).2 == mutating_sum@);
                    assert(!check_round_ok(rounds, log0, proof.sum@, i as int));
                    assert(!composed_accepts(poly.tables(), rounds, log0, proof.sum@));
                }
                return false;
            }
            let sample = transcript.sample_as_field_element();
            mutating_sum = r_poly.evaluate(&sample);
            let ghost before = all_rands.deep_view();
            all_rands.push(sample);
            proof {
                assert(all_rands.deep_view() =~= before.push(sample@));
            }
            i = i + 1;
        }
        match poly.evaluate(&all_rands) {
            Some(v) => v.eq(&mutating_sum),
            None => false,
        }
    }
}

} // verus!
