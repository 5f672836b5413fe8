//! Wires and gates of a PLONK circuit.
#![allow(non_snake_case)]
use crate::field::Fr;
use vstd::prelude::*;

verus! {

/// Variable names of the left, right and output wires of a gate.
#[derive(Debug, Clone, PartialEq, Eq, Hash)]
pub struct GateWire {
    /// The left input.
    pub L: Option<String>,
    /// The right input.
    pub R: Option<String>,
    /// The output.
    pub O: Option<String>,
}

/// The selector values of a gate: `L a + R b + M a b + O c + C = 0` in PLONK's
/// sign convention.
#[derive(Debug, Clone, Copy, PartialEq, Eq)]
pub struct Gate {
    /// Left selector.
    pub L: Fr,
    /// Right selector.
    pub R: Fr,
    /// Multiplication selector.
    pub M: Fr,
    /// Output selector.
    pub O: Fr,
    /// Constant selector.
    pub C: Fr,
}

impl GateWire {
    /// The three wires, left, right and output.
    pub fn as_list(&self) -> (r: Vec<Option<String>>)
        ensures
            r@ == seq![self.L, self.R, self.O],
    {
        let mut r: Vec<Option<String>> = Vec::new();
        r.push(self.L.clone());
        r.push(self.R.clone());
        r.push(self.O.clone());
        proof {
            assert(r@ =~= seq![self.L, self.R, self.O]);
        }
        r
    }
}

} // verus!
