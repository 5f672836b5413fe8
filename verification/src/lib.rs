//! Polynomials over the BLS12-381 scalar field and the interactive proofs
//! built on them: sum-check, zero-check, product-check helpers and KZG-style
//! commitments.
pub mod algebra;
pub mod field;
pub mod univariate;
pub mod multilinear;
pub mod pow2;
pub mod transcript;
pub mod sumcheck;
pub mod composed;
pub mod product_check;
pub mod zero_check;
pub mod libra;
pub mod plonk;
pub mod assembly;
pub mod program;
pub mod prover;
pub mod virtual_poly;
pub mod virtual_verifier;
pub mod virtual_prover;
pub mod ml_sumcheck;
pub mod plonk_core;
pub mod evaluation;
pub mod fft;
pub mod multivariate;
pub mod kzg;
pub mod low_degree;
pub mod interface;

use vstd::prelude::*;

verus! {

/// The sum of two machine integers; it must not overflow.
pub fn add(left: usize, right: usize) -> (r: usize)
    requires
        left + right <= usize::MAX,
    ensures
        r == left + right,
{
    left + right
}

} // verus!
