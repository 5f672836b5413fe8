//! Polynomials given by their evaluations over a grid `{0, ..., h - 1}^n`.
use crate::field::Fr;
use crate::univariate::{elems_bytes, elems_to_bytes};
use vstd::prelude::*;

verus! {

/// `base^e`.
pub open spec fn nat_pow(base: nat, e: nat) -> nat
    decreases e,
{
    if e == 0 {
        1
    } else {
        base * nat_pow(base, (e - 1) as nat)
    }
}

/// A multivariate polynomial in evaluation form.
#[derive(Clone, Debug)]
pub struct Multivariate {
    /// The evaluations over the grid.
    pub evaluations: Vec<Fr>,
    /// The number of variables.
    pub num_vars: usize,
    /// The number of grid points per variable.
    pub hc_index: usize,
}

impl Multivariate {
    /// Creates a polynomial; there must be `hc_index^num_vars` evaluations.
    pub fn new(evaluations: Vec<Fr>, num_vars: usize, hc_index: usize) -> (r: Self)
        requires
            evaluations.len() == nat_pow(hc_index as nat, num_vars as nat),
        ensures
            r.evaluations@ == evaluations@,
            r.num_vars == num_vars,
            r.hc_index == hc_index,
    {
        Multivariate { evaluations, num_vars, hc_index }
    }

    /// Whether every evaluation is zero.
    pub fn is_zero(&self) -> (r: bool)
        ensures
            r == (forall|i: int| 0 <= i < self.evaluations.len() ==> #[trigger] self.evaluations[i]@ == 0),
    {
        let mut i: usize = 0;
        while i < self.evaluations.len()
            invariant
                i <= self.evaluations.len(),
                forall|k: int| 0 <= k < i ==> #[trigger] self.evaluations[k]@ == 0,
            decreases self.evaluations.len() - i,
        {
            if !self.evaluations[i].is_zero() {
                return false;
            }
            i = i + 1;
        }
        true
    }

    /// The evaluations serialised one after the other, 32 big-endian bytes each.
    pub fn to_bytes(&self) -> (r: Vec<u8>)
        ensures
            r@ == elems_bytes(self.evaluations.deep_view()),
    {
        elems_to_bytes(&self.evaluations)
    }
}

} // verus!
