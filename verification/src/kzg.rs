//! KZG polynomial commitments over BLS12-381, for univariate and multilinear
//! polynomials.
//!
//! Group elements are kept as their compressed encodings; every group
//! operation and the pairing check are done by `ark_ec` through the trusted
//! functions below, whose results are named by the specification functions
//! `g1_gen_mul`, `g1_mul`, `g1_add`, `g1_sub`, `g2_gen_mul`, `g2_sub` and
//! `pairing_eq`. What the library computes from them is verified.
use crate::field::{fadd, fmul, fpow, fr_modulus, fsub, limbs_value, Fr};
use crate::multilinear::Multilinear;
use crate::pow2::two_pow;
use crate::univariate::{distinct, lagrange_basis, lagrange_interpolant, lagrange_prod, poly_eval, poly_mul, poly_sum, vanishing, UnivariantPolynomial};
use ark_bls12_381::{Bls12_381, G1Projective, G2Projective};
use ark_ec::pairing::Pairing;
use ark_ec::Group;
use ark_ff::BigInt;
use ark_serialize::{CanonicalDeserialize, CanonicalSerialize};
use vstd::prelude::*;

verus! {

/// A name for "the bytes decode (compressed) to a point of G1".
pub uninterp spec fn g1_valid(b: Seq<u8>) -> bool;

/// A name for "the bytes decode (compressed) to a point of G2".
pub uninterp spec fn g2_valid(b: Seq<u8>) -> bool;

/// A name for the encoding of `s` times the generator of G1.
pub uninterp spec fn g1_gen_mul(s: int) -> Seq<u8>;

/// A name for the encoding of `s` times the G1 point encoded by `p`.
pub uninterp spec fn g1_mul(p: Seq<u8>, s: int) -> Seq<u8>;

/// A name for the encoding of the sum of two G1 points.
pub uninterp spec fn g1_add(p: Seq<u8>, q: Seq<u8>) -> Seq<u8>;

/// A name for the encoding of the difference of two G1 points.
pub uninterp spec fn g1_sub(p: Seq<u8>, q: Seq<u8>) -> Seq<u8>;

/// A name for the encoding of `s` times the generator of G2.
pub uninterp spec fn g2_gen_mul(s: int) -> Seq<u8>;

/// A name for the encoding of the difference of two G2 points.
pub uninterp spec fn g2_sub(p: Seq<u8>, q: Seq<u8>) -> Seq<u8>;

/// A name for the encoding of `s` times the G2 point encoded by `p`.
pub uninterp spec fn g2_mul(p: Seq<u8>, s: int) -> Seq<u8>;

/// A name for the encoding of the sum of two G2 points.
pub uninterp spec fn g2_add(p: Seq<u8>, q: Seq<u8>) -> Seq<u8>;

/// A name for `e(a, b) == e(c, d)` for the BLS12-381 pairing.
pub uninterp spec fn pairing_eq(a: Seq<u8>, b: Seq<u8>, c: Seq<u8>, d: Seq<u8>) -> bool;

/// A name for the text (as UTF-8 bytes) that `Display` writes for the G1 point
/// encoded by `p`: its affine coordinates in decimal, or `infinity`.
pub uninterp spec fn g1_text(p: Seq<u8>) -> Seq<u8>;

/// Decodes a G1 point and writes it with `ark_ec`'s `Display` for projective
/// points; the bytes of the text are named by `g1_text`.
#[verifier::external_body]
fn ark_g1_text(p: &[u8]) -> (r: Vec<u8>)
    requires
        g1_valid(p@),
    ensures
        r@ == g1_text(p@),
{
    let x = G1Projective::deserialize_compressed(p).unwrap();
    x.to_string().into_bytes()
}

/// Computes `s` times the G1 generator with `ark_ec`'s `Group::generator` and
/// `mul_bigint`, and encodes it compressed. The contract names the bytes by
/// `g1_gen_mul` of the scalar and says that they decode.
#[verifier::external_body]
fn ark_g1_gen_mul(s: [u64; 4]) -> (r: Vec<u8>)
    requires
        limbs_value(s) < fr_modulus(),
    ensures
        r@ == g1_gen_mul(limbs_value(s)),
        g1_valid(r@),
{
    let p = G1Projective::generator().mul_bigint(BigInt::new(s));
    let mut out: Vec<u8> = Vec::new();
    p.serialize_compressed(&mut out).unwrap();
    out
}

/// Decodes a G1 point, multiplies it by `s` with `mul_bigint`, and encodes the
/// result; named by `g1_mul`.
#[verifier::external_body]
fn ark_g1_mul(p: &[u8], s: [u64; 4]) -> (r: Vec<u8>)
    requires
        g1_valid(p@),
        limbs_value(s) < fr_modulus(),
    ensures
        r@ == g1_mul(p@, limbs_value(s)),
        g1_valid(r@),
{
    let x = G1Projective::deserialize_compressed(p).unwrap();
    let mut out: Vec<u8> = Vec::new();
    x.mul_bigint(BigInt::new(s)).serialize_compressed(&mut out).unwrap();
    out
}

/// Decodes two G1 points, adds them, and encodes the sum; named by `g1_add`.
#[verifier::external_body]
fn ark_g1_add(p: &[u8], q: &[u8]) -> (r: Vec<u8>)
    requires
        g1_valid(p@),
        g1_valid(q@),
    ensures
        r@ == g1_add(p@, q@),
        g1_valid(r@),
{
    let x = G1Projective::deserialize_compressed(p).unwrap();
    let y = G1Projective::deserialize_compressed(q).unwrap();
    let mut out: Vec<u8> = Vec::new();
    (x + y).serialize_compressed(&mut out).unwrap();
    out
}

/// Decodes two G1 points, subtracts them, and encodes the difference; named by
/// `g1_sub`.
#[verifier::external_body]
fn ark_g1_sub(p: &[u8], q: &[u8]) -> (r: Vec<u8>)
    requires
        g1_valid(p@),
        g1_valid(q@),
    ensures
        r@ == g1_sub(p@, q@),
        g1_valid(r@),
{
    let x = G1Projective::deserialize_compressed(p).unwrap();
    let y = G1Projective::deserialize_compressed(q).unwrap();
    let mut out: Vec<u8> = Vec::new();
    (x - y).serialize_compressed(&mut out).unwrap();
    out
}

/// Computes `s` times the G2 generator and encodes it; named by `g2_gen_mul`.
#[verifier::external_body]
fn ark_g2_gen_mul(s: [u64; 4]) -> (r: Vec<u8>)
    requires
        limbs_value(s) < fr_modulus(),
    ensures
        r@ == g2_gen_mul(limbs_value(s)),
        g2_valid(r@),
{
    let p = G2Projective::generator().mul_bigint(BigInt::new(s));
    let mut out: Vec<u8> = Vec::new();
    p.serialize_compressed(&mut out).unwrap();
    out
}

/// Decodes two G2 points, subtracts them, and encodes the difference; named by
/// `g2_sub`.
#[verifier::external_body]
fn ark_g2_sub(p: &[u8], q: &[u8]) -> (r: Vec<u8>)
    requires
        g2_valid(p@),
        g2_valid(q@),
    ensures
        r@ == g2_sub(p@, q@),
        g2_valid(r@),
{
    let x = G2Projective::deserialize_compressed(p).unwrap();
    let y = G2Projective::deserialize_compressed(q).unwrap();
    let mut out: Vec<u8> = Vec::new();
    (x - y).serialize_compressed(&mut out).unwrap();
    out
}

/// Decodes a G2 point, multiplies it by `s` with `mul_bigint`, and encodes the
/// result; named by `g2_mul`.
#[verifier::external_body]
fn ark_g2_mul(p: &[u8], s: [u64; 4]) -> (r: Vec<u8>)
    requires
        g2_valid(p@),
        limbs_value(s) < fr_modulus(),
    ensures
        r@ == g2_mul(p@, limbs_value(s)),
        g2_valid(r@),
{
    let x = G2Projective::deserialize_compressed(p).unwrap();
    let mut out: Vec<u8> = Vec::new();
    x.mul_bigint(BigInt::new(s)).serialize_compressed(&mut out).unwrap();
    out
}

/// Decodes two G2 points, adds them, and encodes the sum; named by `g2_add`.
#[verifier::external_body]
fn ark_g2_add(p: &[u8], q: &[u8]) -> (r: Vec<u8>)
    requires
        g2_valid(p@),
        g2_valid(q@),
    ensures
        r@ == g2_add(p@, q@),
        g2_valid(r@),
{
    let x = G2Projective::deserialize_compressed(p).unwrap();
    let y = G2Projective::deserialize_compressed(q).unwrap();
    let mut out: Vec<u8> = Vec::new();
    (x + y).serialize_compressed(&mut out).unwrap();
    out
}

/// Compares the pairings `e(a, b)` and `e(c, d)` with `ark_ec`'s
/// `Pairing::pairing` for BLS12-381; named by `pairing_eq`.
#[verifier::external_body]
fn ark_pairing_eq(a: &[u8], b: &[u8], c: &[u8], d: &[u8]) -> (r: bool)
    requires
        g1_valid(a@),
        g2_valid(b@),
        g1_valid(c@),
        g2_valid(d@),
    ensures
        r == pairing_eq(a@, b@, c@, d@),
{
    let a = G1Projective::deserialize_compressed(a).unwrap();
    let b = G2Projective::deserialize_compressed(b).unwrap();
    let c = G1Projective::deserialize_compressed(c).unwrap();
    let d = G2Projective::deserialize_compressed(d).unwrap();
    Bls12_381::pairing(a, b) == Bls12_381::pairing(c, d)
}

/// A point of G1.
#[derive(Debug, PartialEq, Eq)]
pub struct G1 {
    bytes: Vec<u8>,
}

/// A point of G2.
#[derive(Debug, PartialEq, Eq)]
pub struct G2 {
    bytes: Vec<u8>,
}

impl View for G1 {
    type V = Seq<u8>;

    closed spec fn view(&self) -> Seq<u8> {
        self.bytes@
    }
}

impl View for G2 {
    type V = Seq<u8>;

    closed spec fn view(&self) -> Seq<u8> {
        self.bytes@
    }
}

impl G1 {
    #[verifier::type_invariant]
    spec fn decodes(&self) -> bool {
        g1_valid(self.bytes@)
    }

    /// `s` times the generator.
    pub fn generator_mul(s: &Fr) -> (r: G1)
        ensures
            r@ == g1_gen_mul(s@),
    {
        G1 { bytes: ark_g1_gen_mul(s.limbs_of()) }
    }

    /// `s` times this point.
    pub fn mul(&self, s: &Fr) -> (r: G1)
        ensures
            r@ == g1_mul(self@, s@),
    {
        proof {
            use_type_invariant(self);
        }
        G1 { bytes: ark_g1_mul(self.bytes.as_slice(), s.limbs_of()) }
    }

    /// The sum of two points.
    pub fn add(&self, other: &G1) -> (r: G1)
        ensures
            r@ == g1_add(self@, other@),
    {
        proof {
            use_type_invariant(self);
            use_type_invariant(other);
        }
        G1 { bytes: ark_g1_add(self.bytes.as_slice(), other.bytes.as_slice()) }
    }

    /// The difference of two points.
    pub fn sub(&self, other: &G1) -> (r: G1)
        ensures
            r@ == g1_sub(self@, other@),
    {
        proof {
            use_type_invariant(self);
            use_type_invariant(other);
        }
        G1 { bytes: ark_g1_sub(self.bytes.as_slice(), other.bytes.as_slice()) }
    }

    /// The compressed encoding.
    pub fn to_bytes(&self) -> (r: Vec<u8>)
        ensures
            r@ == self@,
    {
        self.bytes.clone()
    }

    /// The point as text (its affine coordinates), as bytes.
    pub fn display_bytes(&self) -> (r: Vec<u8>)
        ensures
            r@ == g1_text(self@),
    {
        proof {
            use_type_invariant(self);
        }
        ark_g1_text(self.bytes.as_slice())
    }
}

impl Clone for G1 {
    fn clone(&self) -> (r: Self)
        ensures
            r@ == self@,
    {
        proof {
            use_type_invariant(self);
        }
        G1 { bytes: self.bytes.clone() }
    }
}

impl Clone for G2 {
    fn clone(&self) -> (r: Self)
        ensures
            r@ == self@,
    {
        proof {
            use_type_invariant(self);
        }
        G2 { bytes: self.bytes.clone() }
    }
}

impl G2 {
    #[verifier::type_invariant]
    spec fn decodes(&self) -> bool {
        g2_valid(self.bytes@)
    }

    /// `s` times the generator.
    pub fn generator_mul(s: &Fr) -> (r: G2)
        ensures
            r@ == g2_gen_mul(s@),
    {
        G2 { bytes: ark_g2_gen_mul(s.limbs_of()) }
    }

    /// The difference of two points.
    pub fn sub(&self, other: &G2) -> (r: G2)
        ensures
            r@ == g2_sub(self@, other@),
    {
        proof {
            use_type_invariant(self);
            use_type_invariant(other);
        }
        G2 { bytes: ark_g2_sub(self.bytes.as_slice(), other.bytes.as_slice()) }
    }

    /// `s` times this point.
    pub fn mul(&self, s: &Fr) -> (r: G2)
        ensures
            r@ == g2_mul(self@, s@),
    {
        proof {
            use_type_invariant(self);
        }
        G2 { bytes: ark_g2_mul(self.bytes.as_slice(), s.limbs_of()) }
    }

    /// The sum of two points.
    pub fn add(&self, other: &G2) -> (r: G2)
        ensures
            r@ == g2_add(self@, other@),
    {
        proof {
            use_type_invariant(self);
            use_type_invariant(other);
        }
        G2 { bytes: ark_g2_add(self.bytes.as_slice(), other.bytes.as_slice()) }
    }

    /// The compressed encoding.
    pub fn to_bytes(&self) -> (r: Vec<u8>)
        ensures
            r@ == self@,
    {
        self.bytes.clone()
    }
}

/// Whether `e(a, b) == e(c, d)`.
pub fn pairing_check(a: &G1, b: &G2, c: &G1, d: &G2) -> (r: bool)
    ensures
        r == pairing_eq(a@, b@, c@, d@),
{
    proof {
        use_type_invariant(a);
        use_type_invariant(b);
        use_type_invariant(c);
        use_type_invariant(d);
    }
    ark_pairing_eq(a.bytes.as_slice(), b.bytes.as_slice(), c.bytes.as_slice(), d.bytes.as_slice())
}

/// The points' encodings.
pub open spec fn g1_views(ps: Seq<G1>) -> Seq<Seq<u8>> {
    Seq::new(ps.len(), |i: int| ps[i]@)
}

/// The points' encodings.
pub open spec fn g2_views(ps: Seq<G2>) -> Seq<Seq<u8>> {
    Seq::new(ps.len(), |i: int| ps[i]@)
}

/// `sum_{i < n} cs[i] ps[i]`, added from the first term, starting at the
/// identity `0 * g`.
pub open spec fn lincomb_g1(ps: Seq<Seq<u8>>, cs: Seq<int>, n: nat) -> Seq<u8>
    decreases n,
{
    if n == 0 {
        g1_gen_mul(0)
    } else {
        g1_add(lincomb_g1(ps, cs, (n - 1) as nat), g1_mul(ps[n - 1], cs[n - 1]))
    }
}

/// `sum_{i < n} cs[i] ps[i]` in G2, added from the first term, starting at the
/// identity `0 * g`.
pub open spec fn lincomb_g2(ps: Seq<Seq<u8>>, cs: Seq<int>, n: nat) -> Seq<u8>
    decreases n,
{
    if n == 0 {
        g2_gen_mul(0)
    } else {
        g2_add(lincomb_g2(ps, cs, (n - 1) as nat), g2_mul(ps[n - 1], cs[n - 1]))
    }
}

/// `[poly(tau)]_1` from the powers of tau, for coefficients of the scalar
/// field itself (the same combination as
/// `linear_combination_homomorphic_poly_eval_g1`).
pub fn linear_combination_homomorphic_poly_eval_g1_primefield(poly: &UnivariantPolynomial, powers_of_secret_gx: &[G1]) -> (r: G1)
    requires
        poly.coefficients.len() <= powers_of_secret_gx.len(),
    ensures
        r@ == lincomb_g1(g1_views(powers_of_secret_gx@), poly.coeffs(), poly.coefficients.len() as nat),
{
    linear_combination_homomorphic_poly_eval_g1(poly, powers_of_secret_gx)
}

/// `[poly(tau)]_2` from the powers of tau in G2.
pub fn linear_combination_homomorphic_poly_eval_g2_primefield(poly: &UnivariantPolynomial, powers_of_secret_gx: &[G2]) -> (r: G2)
    requires
        poly.coefficients.len() <= powers_of_secret_gx.len(),
    ensures
        r@ == lincomb_g2(g2_views(powers_of_secret_gx@), poly.coeffs(), poly.coefficients.len() as nat),
{
    let zero = Fr::zero();
    let mut acc = G2::generator_mul(&zero);
    let mut index: usize = 0;
    while index < poly.coefficients.len()
        invariant
            poly.coefficients.len() <= powers_of_secret_gx.len(),
            index <= poly.coefficients.len(),
            acc@ == lincomb_g2(g2_views(powers_of_secret_gx@), poly.coeffs(), index as nat),
        decreases poly.coefficients.len() - index,
    {
        let res = powers_of_secret_gx[index].mul(&poly.coefficients[index]);
        acc = acc.add(&res);
        index = index + 1;
    }
    acc
}

/// `[poly(tau)]_1` from the powers of tau: the coefficients combined with the
/// matching points.
pub fn linear_combination_homomorphic_poly_eval_g1(poly: &UnivariantPolynomial, powers_of_secret_gx: &[G1]) -> (r: G1)
    requires
        poly.coefficients.len() <= powers_of_secret_gx.len(),
    ensures
        r@ == lincomb_g1(g1_views(powers_of_secret_gx@), poly.coeffs(), poly.coefficients.len() as nat),
{
    let zero = Fr::zero();
    let mut acc = G1::generator_mul(&zero);
    let mut index: usize = 0;
    while index < poly.coefficients.len()
        invariant
            poly.coefficients.len() <= powers_of_secret_gx.len(),
            index <= poly.coefficients.len(),
            acc@ == lincomb_g1(g1_views(powers_of_secret_gx@), poly.coeffs(), index as nat),
        decreases poly.coefficients.len() - index,
    {
        let res = powers_of_secret_gx[index].mul(&poly.coefficients[index]);
        acc = acc.add(&res);
        index = index + 1;
    }
    acc
}

/// `[1, tau, tau^2, ..., tau^n]` times the G1 generator.
pub fn generate_powers_of_tau_g1(tau: &Fr, n: usize) -> (r: Vec<G1>)
    requires
        n < usize::MAX,
    ensures
        r.len() == n + 1,
        forall|k: int| 0 <= k <= n ==> (#[trigger] r[k])@ == g1_gen_mul(fpow(tau@, k as nat)),
{
    let one = Fr::one();
    let mut powers_of_tau_g1: Vec<G1> = Vec::new();
    let mut tau_power = *tau;
    powers_of_tau_g1.push(G1::generator_mul(&one));
    proof {
        assert(fpow(tau@, 0) == 1);
        tau.lemma_view_range();
        crate::algebra::lemma_fmul_one(tau@);
        assert(fpow(tau@, 1) == fmul(1, tau@));
    }
    let mut k: usize = 1;
    while k <= n
        invariant
            n < usize::MAX,
            1 <= k <= n + 1,
            powers_of_tau_g1.len() == k,
            tau_power@ == fpow(tau@, k as nat),
            forall|j: int| 0 <= j < k ==> (#[trigger] powers_of_tau_g1[j])@ == g1_gen_mul(fpow(tau@, j as nat)),
        decreases n + 1 - k,
    {
        powers_of_tau_g1.push(G1::generator_mul(&tau_power));
        tau_power = tau_power.mul(tau);
        k = k + 1;
    }
    powers_of_tau_g1
}

/// `[1, tau, tau^2, ..., tau^n]` times the G2 generator.
pub fn generate_powers_of_tau_g2(tau: &Fr, n: usize) -> (r: Vec<G2>)
    requires
        n < usize::MAX,
    ensures
        r.len() == n + 1,
        forall|k: int| 0 <= k <= n ==> (#[trigger] r[k])@ == g2_gen_mul(fpow(tau@, k as nat)),
{
    let one = Fr::one();
    let mut powers_of_tau_g2: Vec<G2> = Vec::new();
    let mut tau_power = *tau;
    powers_of_tau_g2.push(G2::generator_mul(&one));
    proof {
        assert(fpow(tau@, 0) == 1);
        tau.lemma_view_range();
        crate::algebra::lemma_fmul_one(tau@);
        assert(fpow(tau@, 1) == fmul(1, tau@));
    }
    let mut k: usize = 1;
    while k <= n
        invariant
            n < usize::MAX,
            1 <= k <= n + 1,
            powers_of_tau_g2.len() == k,
            tau_power@ == fpow(tau@, k as nat),
            forall|j: int| 0 <= j < k ==> (#[trigger] powers_of_tau_g2[j])@ == g2_gen_mul(fpow(tau@, j as nat)),
        decreases n + 1 - k,
    {
        powers_of_tau_g2.push(G2::generator_mul(&tau_power));
        tau_power = tau_power.mul(tau);
        k = k + 1;
    }
    powers_of_tau_g2
}

/// The coefficients of `(p(X) - p(z)) / (X - z)`: entry `k` is the value at `z`
/// of the polynomial with the coefficients of `p` from `k + 1` on.
pub open spec fn quotient_by_linear(c: Seq<int>, z: int) -> Seq<int> {
    Seq::new(
        if c.len() == 0 {
            0
        } else {
            (c.len() - 1) as nat
        },
        |k: int| poly_eval(c.subrange(k + 1, c.len() as int), z),
    )
}

/// One step of the division identity, modulo the field order.
proof fn lemma_division_step(c0: int, x: int, z: int, tx: int, tz: int, qt: int)
    requires
        fsub(tx, tz) == fmul(fsub(x, z), qt),
    ensures
        fsub(fadd(c0, fmul(x, tx)), fadd(c0, fmul(z, tz))) == fmul(
            fsub(x, z),
            fadd(tz, fmul(x, qt)),
        ),
{
    let m = fr_modulus();
    crate::algebra::lemma_fadd_mod(c0, x * tx);
    crate::algebra::lemma_fadd_mod(c0, z * tz);
    crate::algebra::lemma_fadd_mod(tz, x * qt);
    let a1 = c0 + x * tx;
    let b1 = c0 + z * tz;
    vstd::arithmetic::div_mod::lemma_sub_mod_noop(a1, b1, m);
    assert(fsub(fadd(c0, fmul(x, tx)), fadd(c0, fmul(z, tz))) == (x * tx - z * tz) % m);
    vstd::arithmetic::div_mod::lemma_mul_mod_noop(x - z, tz + x * qt, m);
    assert(fmul(fsub(x, z), fadd(tz, fmul(x, qt))) == ((x - z) * (tz + x * qt)) % m);
    vstd::arithmetic::div_mod::lemma_sub_mod_noop(tx, tz, m);
    vstd::arithmetic::div_mod::lemma_mul_mod_noop_left(x - z, qt, m);
    assert((tx - tz) % m == ((x - z) * qt) % m);
    vstd::arithmetic::div_mod::lemma_mul_mod_noop_right(x, tx - tz, m);
    vstd::arithmetic::div_mod::lemma_mul_mod_noop_right(x, (x - z) * qt, m);
    assert((x * (tx - tz)) % m == (x * ((x - z) * qt)) % m);
    vstd::arithmetic::div_mod::lemma_add_mod_noop(x * (tx - tz), (x - z) * tz, m);
    vstd::arithmetic::div_mod::lemma_add_mod_noop(x * ((x - z) * qt), (x - z) * tz, m);
    assert(x * tx - z * tz == x * (tx - tz) + (x - z) * tz) by (nonlinear_arith);
    assert(x * ((x - z) * qt) + (x - z) * tz == (x - z) * (tz + x * qt)) by (nonlinear_arith);
}

/// Dividing by `X - z`: `p(x) - p(z) = (x - z) q(x)` for every `x`, `q` being
/// `quotient_by_linear(p, z)`.
pub proof fn lemma_quotient_by_linear(c: Seq<int>, z: int, x: int)
    ensures
        fsub(poly_eval(c, x), poly_eval(c, z)) == fmul(fsub(x, z), poly_eval(quotient_by_linear(c, z), x)),
    decreases c.len(),
{
    let q = quotient_by_linear(c, z);
    if c.len() == 0 {
        crate::algebra::lemma_fmul_zero(fsub(x, z));
        assert(fsub(0, 0) == 0);
    } else {
        let t = c.drop_first();
        lemma_quotient_by_linear(t, z, x);
        let qt = quotient_by_linear(t, z);
        if c.len() == 1 {
            assert(t.len() == 0);
            crate::algebra::lemma_fmul_zero(x);
            crate::algebra::lemma_fmul_zero(z);
            crate::algebra::lemma_fmul_zero(fsub(x, z));
            assert(fsub(fadd(c[0], 0), fadd(c[0], 0)) == 0);
        } else {
            assert(c.subrange(1, c.len() as int) =~= t);
            assert(q[0] == poly_eval(t, z));
            assert forall|k: int| 0 <= k < qt.len() implies #[trigger] q.drop_first()[k] == qt[k] by {
                assert(c.subrange(k + 2, c.len() as int) =~= t.subrange(k + 1, t.len() as int));
            }
            assert(q.drop_first() =~= qt);
            lemma_division_step(c[0], x, z, poly_eval(t, x), poly_eval(t, z), poly_eval(qt, x));
        }
    }
}

/// The quotient of `p(X) - p(z)` by `X - z`, by synthetic division.
pub(crate) fn divide_by_linear(c: &Vec<Fr>, z: &Fr) -> (q: Vec<Fr>)
    ensures
        q.deep_view() == quotient_by_linear(c.deep_view(), z@),
{
    let n = c.len();
    let mut q: Vec<Fr> = Vec::new();
    if n == 0 {
        proof {
            assert(q.deep_view() =~= quotient_by_linear(c.deep_view(), z@));
        }
        return q;
    }
    let mut j: usize = 0;
    while j < n - 1
        invariant
            n == c.len(),
            n >= 1,
            j <= n - 1,
            q.len() == j,
        decreases n - 1 - j,
    {
        q.push(Fr::zero());
        j = j + 1;
    }
    let mut acc = Fr::zero();
    let mut k: usize = n;
    proof {
        assert(c.deep_view().subrange(n as int, n as int) =~= Seq::<int>::empty());
    }
    while k > 1
        invariant
            n == c.len(),
            1 <= k <= n,
            q.len() == n - 1,
            acc@ == poly_eval(c.deep_view().subrange(k as int, n as int), z@),
            forall|i: int|
                k - 1 <= i < n - 1 ==> #[trigger] q[i]@ == poly_eval(
                    c.deep_view().subrange(i + 1, n as int),
                    z@,
                ),
        decreases k,
    {
        k = k - 1;
        let t = z.mul(&acc);
        acc = c[k].add(&t);
        proof {
            let s = c.deep_view().subrange(k as int, n as int);
            assert(s.drop_first() =~= c.deep_view().subrange(k + 1, n as int));
            assert(s[0] == c[k as int]@);
        }
        q.set(k - 1, acc);
    }
    proof {
        assert(q.deep_view() =~= quotient_by_linear(c.deep_view(), z@));
    }
    q
}

/// The structured reference string of the univariate scheme.
#[derive(Debug)]
pub struct SRS {
    /// `[tau^i]_1` for `i = 0..=d`.
    pub g1_power_of_taus: Vec<G1>,
    /// `[tau^i]_2` for `i = 0..=d`.
    pub g2_power_of_tau: Vec<G2>,
}

/// The univariate KZG scheme.
#[derive(Clone, Copy, Debug, Default, PartialEq, Eq, Hash)]
pub struct UnivariateKZG;

/// Building a reference string from its text form, for schemes that load one.
pub trait FromStringToSRS {
    /// The reference string that `srs` describes.
    fn from_string_to_srs(&self, srs: String) -> SRS;
}

/// The univariate KZG polynomial commitment scheme.
pub trait KZGUnivariateInterface {
    /// The reference string for polynomials of degree up to `poly_degree`.
    fn generate_srs(tau: &Fr, poly_degree: usize) -> (r: SRS)
        requires
            poly_degree < usize::MAX,
        ensures
            r.g1_power_of_taus.len() == poly_degree + 1,
            r.g2_power_of_tau.len() == poly_degree + 1,
            forall|k: int|
                0 <= k <= poly_degree ==> (#[trigger] r.g1_power_of_taus[k])@ == g1_gen_mul(
                    fpow(tau@, k as nat),
                ),
            forall|k: int|
                0 <= k <= poly_degree ==> (#[trigger] r.g2_power_of_tau[k])@ == g2_gen_mul(
                    fpow(tau@, k as nat),
                ),
    ;

    /// The commitment `[poly(tau)]_1`.
    fn commit(srs: &SRS, poly: &UnivariantPolynomial) -> (r: G1)
        requires
            poly.coefficients.len() <= srs.g1_power_of_taus.len(),
        ensures
            r@ == lincomb_g1(
                g1_views(srs.g1_power_of_taus@),
                poly.coeffs(),
                poly.coefficients.len() as nat,
            ),
    ;

    /// Opens `poly` at `point`: the value there, and the commitment to the
    /// quotient `(poly(X) - poly(point)) / (X - point)`.
    fn open(srs: &SRS, poly: &UnivariantPolynomial, point: &Fr) -> (r: (Fr, G1))
        requires
            poly.coefficients.len() >= 1,
            poly.coefficients.len() - 1 <= srs.g1_power_of_taus.len(),
        ensures
            r.0@ == poly_eval(poly.coeffs(), point@),
            r.1@ == lincomb_g1(
                g1_views(srs.g1_power_of_taus@),
                quotient_by_linear(poly.coeffs(), point@),
                (poly.coefficients.len() - 1) as nat,
            ),
    ;

    /// Checks `e(C - [v]_1, g_2) == e(proof, [tau]_2 - [z]_2)`.
    fn verify(srs: &SRS, commitment: &G1, point: &Fr, point_evaluation: &Fr, proof: &G1) -> (r: bool)
        requires
            srs.g1_power_of_taus.len() >= 1,
            srs.g2_power_of_tau.len() >= 2,
        ensures
            r == pairing_eq(
                g1_sub(commitment@, g1_mul(srs.g1_power_of_taus[0]@, point_evaluation@)),
                g2_gen_mul(1),
                proof@,
                g2_sub(srs.g2_power_of_tau[1]@, g2_gen_mul(point@)),
            ),
    ;
}

impl KZGUnivariateInterface for UnivariateKZG {
    fn generate_srs(tau: &Fr, poly_degree: usize) -> (r: SRS)
    {
        let g1_power_of_taus = generate_powers_of_tau_g1(tau, poly_degree);
        let g2_power_of_tau = generate_powers_of_tau_g2(tau, poly_degree);
        SRS { g1_power_of_taus, g2_power_of_tau }
    }

    fn commit(srs: &SRS, poly: &UnivariantPolynomial) -> (r: G1)
    {
        linear_combination_homomorphic_poly_eval_g1(poly, srs.g1_power_of_taus.as_slice())
    }

    fn open(srs: &SRS, poly: &UnivariantPolynomial, point: &Fr) -> (r: (Fr, G1))
    {
        let point_evaluation = poly.evaluate(point);
        let q = divide_by_linear(&poly.coefficients, point);
        let quotient = UnivariantPolynomial::new(q);
        proof {
            assert(quotient.coeffs() =~= quotient_by_linear(poly.coeffs(), point@));
            assert(quotient.coefficients.len() == quotient.coeffs().len());
        }
        let proof = linear_combination_homomorphic_poly_eval_g1(
            &quotient,
            srs.g1_power_of_taus.as_slice(),
        );
        (point_evaluation, proof)
    }

    fn verify(srs: &SRS, commitment: &G1, point: &Fr, point_evaluation: &Fr, proof: &G1) -> (r: bool)
    {
        let one = Fr::one();
        let g2_generator = G2::generator_mul(&one);
        let g1_point_evalauation = srs.g1_power_of_taus[0].mul(point_evaluation);
        let g2_point = G2::generator_mul(point);
        let left = commitment.sub(&g1_point_evalauation);
        let right = srs.g2_power_of_tau[1].sub(&g2_point);
        pairing_check(&left, &g2_generator, proof, &right)
    }
}

/// `prod_k (pattern_k == 0 ? 1 - object_k : object_k)` over the first `n`
/// coordinates, multiplied in order.
pub open spec fn zero_one_weight(pattern: Seq<int>, object: Seq<int>, n: nat) -> int
    decreases n,
{
    if n == 0 {
        1
    } else {
        fmul(
            zero_one_weight(pattern, object, (n - 1) as nat),
            if pattern[n - 1] == 0 {
                fsub(1, object[n - 1])
            } else {
                object[n - 1]
            },
        )
    }
}

/// The Lagrange weight of a hypercube point: the product, over its coordinates,
/// of `1 - object_k` where the coordinate is zero and `object_k` elsewhere.
pub fn perform_zero_and_one_check(pattern: &[Fr], object: &[Fr]) -> (r: Fr)
    requires
        pattern.len() <= object.len(),
    ensures
        r@ == zero_one_weight(
            pattern@.map_values(|x: Fr| x@),
            object@.map_values(|x: Fr| x@),
            pattern.len() as nat,
        ),
{
    let ghost pt = pattern@.map_values(|x: Fr| x@);
    let ghost ob = object@.map_values(|x: Fr| x@);
    let one = Fr::one();
    let mut result = Fr::one();
    let mut i: usize = 0;
    while i < pattern.len()
        invariant
            pattern.len() <= object.len(),
            pt == pattern@.map_values(|x: Fr| x@),
            ob == object@.map_values(|x: Fr| x@),
            one@ == 1,
            i <= pattern.len(),
            result@ == zero_one_weight(pt, ob, i as nat),
        decreases pattern.len() - i,
    {
        if pattern[i].is_zero() {
            result = result.mul(&one.sub(&object[i]));
        } else {
            result = result.mul(&object[i]);
        }
        i = i + 1;
    }
    result
}

/// The point with index `i` of the hypercube of dimension `n`, as 0/1 field
/// values with the first coordinate most significant.
pub open spec fn hypercube_point(n: nat, i: nat) -> Seq<int> {
    Seq::new(n, |k: int| ((i / two_pow((n - 1 - k) as nat)) % 2) as int)
}

/// The points of the boolean hypercube of dimension `n`, in index order.
pub fn boolean_hypercube(n: usize) -> (r: Vec<Vec<Fr>>)
    requires
        two_pow(n as nat) <= usize::MAX,
    ensures
        r.len() == two_pow(n as nat),
        forall|i: int| 0 <= i < r.len() ==> (#[trigger] r[i]).deep_view() == hypercube_point(n as nat, i as nat),
{
    let size = crate::multilinear::two_pow_exec(n);
    let mut r: Vec<Vec<Fr>> = Vec::new();
    let mut i: usize = 0;
    while i < size
        invariant
            size == two_pow(n as nat),
            i <= size,
            r.len() == i,
            forall|j: int| 0 <= j < i ==> (#[trigger] r[j]).deep_view() == hypercube_point(n as nat, j as nat),
        decreases size - i,
    {
        let mut point: Vec<Fr> = Vec::new();
        let mut k: usize = 0;
        while k < n
            invariant
                k <= n,
                point.len() == k,
                forall|t: int| 0 <= t < k ==> #[trigger] point[t]@ == 0,
            decreases n - k,
        {
            point.push(Fr::zero());
            k = k + 1;
        }
        let mut v: usize = i;
        let mut t: usize = 0;
        proof {
            assert(two_pow(0) == 1);
            assert(i as nat / 1 == i as nat);
        }
        while t < n
            invariant
                t <= n,
                point.len() == n,
                v as nat == i as nat / two_pow(t as nat),
                forall|p: int|
                    0 <= p < n ==> #[trigger] point[p]@ == (if p >= n - t {
                        hypercube_point(n as nat, i as nat)[p]
                    } else {
                        0
                    }),
            decreases n - t,
        {
            let bit = Fr::from_u64((v % 2) as u64);
            proof {
                crate::pow2::lemma_two_pow_pos(t as nat);
                vstd::arithmetic::div_mod::lemma_div_denominator(i as int, two_pow(t as nat) as int, 2);
                assert(two_pow((t + 1) as nat) == two_pow(t as nat) * 2);
                assert((n - 1 - (n - 1 - t)) as nat == t as nat);
            }
            point.set(n - 1 - t, bit);
            v = v / 2;
            t = t + 1;
        }
        proof {
            assert(point.deep_view() =~= hypercube_point(n as nat, i as nat));
        }
        r.push(point);
        i = i + 1;
    }
    r
}

/// `[w(taus)]_1` for every point `w` of `bh`: the generator times the point's
/// Lagrange weight at `object`.
pub fn bh_to_g1_srs(bh: &[Vec<Fr>], object: &[Fr]) -> (r: Vec<G1>)
    requires
        forall|i: int| 0 <= i < bh.len() ==> (#[trigger] bh[i]).len() <= object.len(),
    ensures
        r.len() == bh.len(),
        forall|i: int|
            0 <= i < bh.len() ==> (#[trigger] r[i])@ == g1_gen_mul(
                zero_one_weight(bh[i].deep_view(), object@.map_values(|x: Fr| x@), bh[i].len() as nat),
            ),
{
    let mut srs: Vec<G1> = Vec::new();
    let mut i: usize = 0;
    while i < bh.len()
        invariant
            forall|j: int| 0 <= j < bh.len() ==> (#[trigger] bh[j]).len() <= object.len(),
            i <= bh.len(),
            srs.len() == i,
            forall|j: int|
                0 <= j < i ==> (#[trigger] srs[j])@ == g1_gen_mul(
                    zero_one_weight(bh[j].deep_view(), object@.map_values(|x: Fr| x@), bh[j].len() as nat),
                ),
        decreases bh.len() - i,
    {
        let result = perform_zero_and_one_check(bh[i].as_slice(), object);
        proof {
            assert(bh[i as int]@.map_values(|x: Fr| x@) =~= bh[i as int].deep_view());
        }
        srs.push(G1::generator_mul(&result));
        i = i + 1;
    }
    srs
}

/// `[o]_2` for every operand `o`.
pub fn g2_operation(oprands: &[Fr]) -> (r: Vec<G2>)
    ensures
        r.len() == oprands.len(),
        forall|i: int| 0 <= i < oprands.len() ==> (#[trigger] r[i])@ == g2_gen_mul(oprands[i]@),
{
    let mut result: Vec<G2> = Vec::new();
    let mut i: usize = 0;
    while i < oprands.len()
        invariant
            i <= oprands.len(),
            result.len() == i,
            forall|j: int| 0 <= j < i ==> (#[trigger] result[j])@ == g2_gen_mul(oprands[j]@),
        decreases oprands.len() - i,
    {
        result.push(G2::generator_mul(&oprands[i]));
        i = i + 1;
    }
    result
}

/// The structured reference string of the multilinear scheme.
#[derive(Debug)]
pub struct MultiLinearSRS {
    /// `[eq(w, taus)]_1` for every hypercube point `w`.
    pub g1_power_of_taus: Vec<G1>,
    /// `[tau_i]_2` for every coordinate.
    pub g2_power_of_taus: Vec<G2>,
}

/// The multilinear KZG scheme.
#[derive(Clone, Copy, Debug, Default, PartialEq, Eq, Hash)]
pub struct MultilinearKZG;

impl MultilinearKZG {
    /// The reference string for the secret point `taus`.
    pub fn generate_srs(taus: &[Fr]) -> (r: MultiLinearSRS)
        requires
            two_pow(taus.len() as nat) <= usize::MAX,
        ensures
            r.g1_power_of_taus.len() == two_pow(taus.len() as nat),
            forall|i: int|
                0 <= i < r.g1_power_of_taus.len() ==> (#[trigger] r.g1_power_of_taus[i])@ == g1_gen_mul(
                    zero_one_weight(
                        hypercube_point(taus.len() as nat, i as nat),
                        taus@.map_values(|x: Fr| x@),
                        taus.len() as nat,
                    ),
                ),
            r.g2_power_of_taus.len() == taus.len(),
            forall|i: int|
                0 <= i < taus.len() ==> (#[trigger] r.g2_power_of_taus[i])@ == g2_gen_mul(taus[i]@),
    {
        let number_of_variables = taus.len();
        let boolean_hypercube = boolean_hypercube(number_of_variables);
        proof {
            assert forall|i: int| 0 <= i < boolean_hypercube.len() implies (
            #[trigger] boolean_hypercube[i]).len() <= taus.len() by {
                assert(boolean_hypercube[i].len() == boolean_hypercube[i].deep_view().len());
            }
        }
        let g1_power_of_taus = bh_to_g1_srs(boolean_hypercube.as_slice(), taus);
        let g2_power_of_taus = g2_operation(taus);
        proof {
            assert forall|i: int| 0 <= i < g1_power_of_taus.len() implies (
            #[trigger] g1_power_of_taus[i])@ == g1_gen_mul(
                zero_one_weight(
                    hypercube_point(taus.len() as nat, i as nat),
                    taus@.map_values(|x: Fr| x@),
                    taus.len() as nat,
                ),
            ) by {
                assert(boolean_hypercube[i].len() == boolean_hypercube[i].deep_view().len());
            }
        }
        MultiLinearSRS { g1_power_of_taus, g2_power_of_taus }
    }

    /// The commitment `sum_w f(w) [eq(w, taus)]_1`, over as many entries as the
    /// table and the reference string share.
    pub fn commit(srs: &MultiLinearSRS, poly: &Multilinear) -> (r: G1)
        ensures
            r@ == lincomb_g1(
                g1_views(srs.g1_power_of_taus@),
                poly.evals(),
                if poly.evaluations.len() <= srs.g1_power_of_taus.len() {
                    poly.evaluations.len() as nat
                } else {
                    srs.g1_power_of_taus.len() as nat
                },
            ),
    {
        let n = if poly.evaluations.len() <= srs.g1_power_of_taus.len() {
            poly.evaluations.len()
        } else {
            srs.g1_power_of_taus.len()
        };
        let zero = Fr::zero();
        let mut acc = G1::generator_mul(&zero);
        let mut i: usize = 0;
        while i < n
            invariant
                n <= poly.evaluations.len(),
                n <= srs.g1_power_of_taus.len(),
                i <= n,
                acc@ == lincomb_g1(g1_views(srs.g1_power_of_taus@), poly.evals(), i as nat),
            decreases n - i,
        {
            let term = srs.g1_power_of_taus[i].mul(&poly.evaluations[i]);
            acc = acc.add(&term);
            i = i + 1;
        }
        acc
    }
}

/// A product has one coefficient fewer than its factors together.
pub proof fn lemma_poly_mul_len(a: Seq<int>, b: Seq<int>)
    requires
        a.len() > 0,
        b.len() > 0,
    ensures
        poly_mul(a, b).len() == a.len() + b.len() - 1,
    decreases a.len(),
{
    let rest = poly_mul(a.drop_first(), b);
    if a.len() > 1 {
        lemma_poly_mul_len(a.drop_first(), b);
        assert(crate::univariate::poly_shift(rest).len() == rest.len() + 1);
    } else {
        assert(rest == Seq::<int>::empty());
        assert(crate::univariate::poly_shift(rest).len() == 0);
    }
    assert(crate::univariate::poly_scale(b, a[0]).len() == b.len());
}

/// The vanishing polynomial of `n` points has `n + 1` coefficients.
proof fn lemma_vanishing_len(data: Seq<int>)
    ensures
        vanishing(data).len() == data.len() + 1,
    decreases data.len(),
{
    if data.len() > 0 {
        lemma_vanishing_len(data.drop_last());
        lemma_poly_mul_len(vanishing(data.drop_last()), seq![crate::field::fneg(data.last()), 1int]);
    }
}

/// The product behind a Lagrange basis polynomial has one coefficient per
/// factor, plus one.
proof fn lemma_lagrange_prod_len(xs: Seq<int>, i: int, upto: nat)
    requires
        0 <= i,
    ensures
        lagrange_prod(xs, i, upto).len() == if i < upto {
            upto
        } else {
            upto + 1
        },
    decreases upto,
{
    if upto > 0 {
        lemma_lagrange_prod_len(xs, i, (upto - 1) as nat);
        if upto - 1 != i {
            let j = upto - 1;
            let lin = seq![crate::field::fneg(xs[j]), 1int];
            let c = seq![crate::field::finv(crate::field::fsub(xs[i], xs[j]))];
            lemma_poly_mul_len(lin, c);
            lemma_poly_mul_len(lagrange_prod(xs, i, (upto - 1) as nat), poly_mul(lin, c));
        }
    }
}

/// The interpolant through `n` points has `n` coefficients.
pub proof fn lemma_interpolant_len(xs: Seq<int>, ys: Seq<int>)
    ensures
        lagrange_interpolant(xs, ys).len() == xs.len(),
{
    let n = xs.len();
    let ps = Seq::new(n, |i: int| lagrange_basis(xs, ys, i));
    assert forall|i: int| 0 <= i < n implies (#[trigger] ps[i]).len() == n by {
        lemma_lagrange_prod_len(xs, i, n);
        lemma_poly_mul_len(lagrange_prod(xs, i, n), seq![ys[i]]);
    }
    lemma_poly_sum_len(ps, n, n);
}

/// A sum of polynomials of `m` coefficients each has `m` coefficients.
pub proof fn lemma_poly_sum_len(ps: Seq<Seq<int>>, k: nat, m: nat)
    requires
        k <= ps.len(),
        forall|i: int| 0 <= i < k ==> (#[trigger] ps[i]).len() == m,
    ensures
        k > 0 ==> poly_sum(ps, k).len() == m,
    decreases k,
{
    if k > 1 {
        lemma_poly_sum_len(ps, (k - 1) as nat, m);
    }
    if k == 1 {
        assert(poly_sum(ps, 0) == Seq::<int>::empty());
    }
}

/// Checking an opening at several points at once.
pub trait BatchKZGUnivariateInterface {
    /// Checks the opening of `commitment` at the `point`s to the values
    /// `point_evaluation`: with `r` the interpolant of the values and `Z` the
    /// vanishing polynomial of the points, whether
    /// `e(C - [r(tau)]_1, g_2) == e(proof, [Z(tau)]_2)`.
    fn verify(
        srs: &SRS,
        commitment: &G1,
        point: &Vec<Fr>,
        point_evaluation: &Vec<Fr>,
        proof: &G1,
    ) -> (r: bool)
        requires
            point.len() == point_evaluation.len(),
            distinct(point.deep_view()),
            point.len() <= srs.g1_power_of_taus.len(),
            point.len() + 1 <= srs.g2_power_of_tau.len(),
        ensures
            r == pairing_eq(
                g1_sub(
                    commitment@,
                    lincomb_g1(
                        g1_views(srs.g1_power_of_taus@),
                        lagrange_interpolant(point.deep_view(), point_evaluation.deep_view()),
                        point.len() as nat,
                    ),
                ),
                g2_gen_mul(1),
                proof@,
                lincomb_g2(
                    g2_views(srs.g2_power_of_tau@),
                    vanishing(point.deep_view()),
                    (point.len() + 1) as nat,
                ),
            ),
    ;
}

impl BatchKZGUnivariateInterface for UnivariateKZG {
    fn verify(
        srs: &SRS,
        commitment: &G1,
        point: &Vec<Fr>,
        point_evaluation: &Vec<Fr>,
        proof: &G1,
    ) -> (r: bool) {
        let r = UnivariantPolynomial::interpolate(point_evaluation.clone(), point.clone());
        proof {
            lemma_interpolant_len(point.deep_view(), point_evaluation.deep_view());
            assert(r.coefficients.len() == r.coeffs().len());
        }
        let mut i: usize = 0;
        while i < point.len()
            invariant
                i <= point.len(),
                r.coefficients.len() == point.len(),
                point.len() == point_evaluation.len(),
                forall|k: int|
                    0 <= k < point.len() ==> #[trigger] poly_eval(r.coeffs(), point.deep_view()[k])
                        == point_evaluation.deep_view()[k],
            decreases point.len() - i,
        {
            let v = r.evaluate(&point[i]);
            proof {
                assert(poly_eval(r.coeffs(), point.deep_view()[i as int]) == point_evaluation.deep_view()[i as int]);
            }
            if !v.eq(&point_evaluation[i]) {
                return false;
            }
            i = i + 1;
        }
        let one = Fr::one();
        let g2_generator = G2::generator_mul(&one);
        let vanishing_polynomial = crate::univariate::generate_vanishing_polynomial(point);
        proof {
            lemma_interpolant_len(point.deep_view(), point_evaluation.deep_view());
            lemma_vanishing_len(point.deep_view());
            assert(r.coefficients.len() == r.coeffs().len());
            assert(vanishing_polynomial.coefficients.len() == vanishing_polynomial.coeffs().len());
        }
        let r_commitment = linear_combination_homomorphic_poly_eval_g1_primefield(
            &r,
            srs.g1_power_of_taus.as_slice(),
        );
        let vanishing_poly_commitment = linear_combination_homomorphic_poly_eval_g2_primefield(
            &vanishing_polynomial,
            srs.g2_power_of_tau.as_slice(),
        );
        let left = commitment.sub(&r_commitment);
        pairing_check(&left, &g2_generator, proof, &vanishing_poly_commitment)
    }
}

} // verus!
