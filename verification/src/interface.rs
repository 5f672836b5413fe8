//! The common interfaces of the polynomial types.
use crate::field::Fr;
use crate::multilinear::{
    all_zero, distinct_product, distinct_sum, least_vars, ml_evaluate, partial_eval_seq,
    partial_evals_seq, pointwise_add, repeat_each, valid_indices, Multilinear,
};
use crate::pow2::two_pow;
use crate::univariate::{distinct, elems_bytes, lagrange_interpolant, poly_eval, UnivariantPolynomial};
use vstd::prelude::*;

verus! {

/// What univariate and multivariate polynomials share.
pub trait PolynomialInterface {
    /// The points the polynomial is evaluated at.
    type Point;

    /// The polynomial has at least one term, so that its degree and values are
    /// defined.
    spec fn has_terms(&self) -> bool;

    /// The total degree.
    fn degree(&self) -> usize
        requires
            self.has_terms(),
    ;

    /// The value at `point`.
    fn evaluate(&self, point: &Self::Point) -> Fr
        requires
            self.has_terms(),
    ;

    /// Whether this is the zero polynomial.
    fn is_zero(&self) -> bool;
}

/// Univariate polynomials in coefficient form.
pub trait UnivariantPolynomialInterface: PolynomialInterface + Sized {
    /// The coefficients, lowest degree first.
    fn coefficients(&self) -> &[Fr];

    /// The polynomial with the given coefficients.
    fn from_coefficients_slice(coeffs: &[Fr]) -> Self;

    /// The polynomial with the given coefficients.
    fn from_coefficients_vec(coeffs: Vec<Fr>) -> Self;

    /// The interpolant through the points `(domain[i], point_ys[i])`.
    fn interpolate(point_ys: Vec<Fr>, domain: Vec<Fr>) -> Self
        requires
            point_ys.len() == domain.len(),
            distinct(domain.deep_view()),
    ;
}

/// Multilinear polynomials.
pub trait MultilinearPolynomialInterface: Sized {
    /// The evaluation table has `2^n` entries for `n` variables.
    spec fn well_formed(&self) -> bool;

    /// The number of variables.
    spec fn vars(&self) -> nat;

    /// The number of variables.
    fn num_vars(&self) -> usize;

    /// Fixes one variable.
    fn partial_evaluation(&self, evaluation_point: Fr, variable_index: usize) -> Self
        requires
            self.well_formed(),
            variable_index < self.vars(),
    ;

    /// Fixes several variables one after the other.
    fn partial_evaluations(&self, evaluation_points: Vec<Fr>, variable_indices: Vec<usize>) -> Self
        requires
            self.well_formed(),
            evaluation_points.len() == variable_indices.len(),
            valid_indices(self.vars(), variable_indices@),
    ;

    /// The value at `point` (`None` for an empty point).
    fn evaluate(&self, point: &Vec<Fr>) -> Option<Fr>
        requires
            self.well_formed(),
            point.len() <= self.vars(),
    ;

    /// Adds variables the polynomial does not depend on.
    fn extend_with_new_variables(&self, num_of_new_variables: usize) -> Self
        requires
            self.well_formed(),
            two_pow(self.vars() + num_of_new_variables as nat) <= usize::MAX,
    ;

    /// `f(x) + g(y)` on distinct variables.
    fn add_distinct(&self, rhs: &Self) -> Self
        requires
            self.well_formed(),
            rhs.well_formed(),
            two_pow(self.vars() + rhs.vars()) <= usize::MAX,
    ;

    /// `f(x) * g(y)` on distinct variables.
    fn mul_distinct(&self, rhs: &Self) -> Self
        requires
            self.well_formed(),
            rhs.well_formed(),
            two_pow(self.vars() + rhs.vars()) <= usize::MAX,
    ;

    /// The polynomial whose table starts with `y_s`, padded with zeros.
    fn interpolate(y_s: &[Fr]) -> Self
        requires
            y_s.len() <= usize::MAX / 2 + 1,
    ;

    /// The zero polynomial in `num_vars` variables.
    fn zero(num_vars: usize) -> Self
        requires
            two_pow(num_vars as nat) <= usize::MAX,
    ;

    /// Whether the polynomial is zero.
    fn is_zero(&self) -> bool;

    /// The sum of two polynomials in the same variables.
    fn internal_add(&self, rhs: &Self) -> Self
        requires
            self.well_formed(),
            rhs.well_formed(),
            self.vars() == rhs.vars(),
    ;

    /// Adds `rhs` into `self`.
    fn internal_add_assign(&mut self, rhs: &Self)
        requires
            old(self).well_formed(),
            rhs.well_formed(),
            old(self).vars() == rhs.vars(),
    ;

    /// The bytes of the polynomial.
    fn to_bytes(&self) -> Vec<u8>;
}

/// Multivariate polynomials in evaluation form over a grid.
pub trait MultivariatePolynomialInterface: Sized {
    /// The number of variables.
    fn num_vars(&self) -> usize;

    /// The number of grid points per variable.
    fn hc_index(&self) -> usize;

    /// The value at `point`.
    fn evaluate(&self, point: &Vec<Fr>) -> Option<Fr>;

    /// Fixes one variable.
    fn partial_evaluation(&self, evaluation_point: Fr, variable_index: usize) -> Self;

    /// Fixes several variables.
    fn partial_evaluations(&self, evaluation_points: Vec<Fr>, variable_indices: Vec<usize>) -> Self;
}

impl PolynomialInterface for UnivariantPolynomial {
    type Point = Fr;

    open spec fn has_terms(&self) -> bool {
        self.coefficients.len() > 0
    }

    fn degree(&self) -> (r: usize)
        ensures
            r == self.coefficients.len() - 1,
    {
        UnivariantPolynomial::degree(self)
    }

    fn evaluate(&self, point: &Fr) -> (r: Fr)
        ensures
            r@ == poly_eval(self.coeffs(), point@),
    {
        UnivariantPolynomial::evaluate(self, point)
    }

    fn is_zero(&self) -> (r: bool)
        ensures
            r == (self.coefficients.len() == 0),
    {
        UnivariantPolynomial::is_zero(self)
    }
}

impl UnivariantPolynomialInterface for UnivariantPolynomial {
    fn coefficients(&self) -> (r: &[Fr])
        ensures
            r@ == self.coefficients@,
    {
        UnivariantPolynomial::coefficients(self)
    }

    fn from_coefficients_slice(coeffs: &[Fr]) -> (r: Self)
        ensures
            r.coefficients@ == coeffs@,
    {
        UnivariantPolynomial::from_coefficients_slice(coeffs)
    }

    fn from_coefficients_vec(coeffs: Vec<Fr>) -> (r: Self)
        ensures
            r.coefficients@ == coeffs@,
    {
        UnivariantPolynomial::from_coefficients_vec(coeffs)
    }

    fn interpolate(point_ys: Vec<Fr>, domain: Vec<Fr>) -> (r: Self)
        ensures
            r.coeffs() == lagrange_interpolant(domain.deep_view(), point_ys.deep_view()),
    {
        UnivariantPolynomial::interpolate(point_ys, domain)
    }
}

impl MultilinearPolynomialInterface for Multilinear {
    open spec fn well_formed(&self) -> bool {
        self.wf()
    }

    open spec fn vars(&self) -> nat {
        self.num_vars as nat
    }

    fn num_vars(&self) -> (r: usize)
        ensures
            r == self.num_vars,
    {
        self.num_vars
    }

    fn partial_evaluation(&self, evaluation_point: Fr, variable_index: usize) -> (r: Self)
        ensures
            r.wf(),
            r.num_vars == self.num_vars - 1,
            r.evals() == partial_eval_seq(self.evals(), variable_index as nat, evaluation_point@),
    {
        Multilinear::partial_evaluation(self, evaluation_point, variable_index)
    }

    fn partial_evaluations(&self, evaluation_points: Vec<Fr>, variable_indices: Vec<usize>) -> (r: Self)
        ensures
            r.wf(),
            r.num_vars == self.num_vars - evaluation_points.len(),
            r.evals() == partial_evals_seq(
                self.evals(),
                evaluation_points.deep_view(),
                variable_indices@,
            ),
    {
        Multilinear::partial_evaluations(self, evaluation_points, variable_indices)
    }

    fn evaluate(&self, point: &Vec<Fr>) -> (r: Option<Fr>)
        ensures
            match r {
                None => ml_evaluate(self.evals(), point.deep_view()) is None,
                Some(v) => ml_evaluate(self.evals(), point.deep_view()) == Some(v@),
            },
    {
        Multilinear::evaluate(self, point)
    }

    fn extend_with_new_variables(&self, num_of_new_variables: usize) -> (r: Self)
        ensures
            r.wf(),
            r.num_vars == self.num_vars + num_of_new_variables,
            r.evals() == repeat_each(self.evals(), two_pow(num_of_new_variables as nat)),
    {
        Multilinear::extend_with_new_variables(self, num_of_new_variables)
    }

    fn add_distinct(&self, rhs: &Self) -> (r: Self)
        ensures
            r.wf(),
            r.num_vars == self.num_vars + rhs.num_vars,
            r.evals() == distinct_sum(self.evals(), rhs.evals()),
    {
        Multilinear::add_distinct(self, rhs)
    }

    fn mul_distinct(&self, rhs: &Self) -> (r: Self)
        ensures
            r.wf(),
            r.num_vars == self.num_vars + rhs.num_vars,
            r.evals() == distinct_product(self.evals(), rhs.evals()),
    {
        Multilinear::mul_distinct(self, rhs)
    }

    fn interpolate(y_s: &[Fr]) -> (r: Self)
        ensures
            r.wf(),
            least_vars(y_s.len() as nat, r.num_vars as nat),
            r.evals().subrange(0, y_s.len() as int) == y_s@.map_values(|x: Fr| x@),
            all_zero(r.evals().subrange(y_s.len() as int, r.evals().len() as int)),
    {
        Multilinear::interpolate(y_s)
    }

    fn zero(num_vars: usize) -> (r: Self)
        ensures
            r.wf(),
            r.num_vars == num_vars,
            all_zero(r.evals()),
    {
        Multilinear::zero(num_vars)
    }

    fn is_zero(&self) -> (r: bool)
        ensures
            r == all_zero(self.evals()),
    {
        Multilinear::is_zero(self)
    }

    fn internal_add(&self, rhs: &Self) -> (r: Self)
        ensures
            r.wf(),
            r.num_vars == self.num_vars,
            r.evals() == pointwise_add(self.evals(), rhs.evals()),
    {
        Multilinear::add(self, rhs)
    }

    fn internal_add_assign(&mut self, rhs: &Self)
        ensures
            final(self).wf(),
            final(self).num_vars == old(self).num_vars,
            final(self).evals() == pointwise_add(old(self).evals(), rhs.evals()),
    {
        Multilinear::add_assign(self, rhs)
    }

    fn to_bytes(&self) -> (r: Vec<u8>)
        ensures
            r@ == elems_bytes(self.evals()),
    {
        Multilinear::to_bytes(self)
    }
}

} // verus!
