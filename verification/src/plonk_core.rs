//! The data that the PLONK prover passes between its rounds, and the replay
//! of the challenges of a PLONK proof from its transcript.
use crate::evaluation::UnivariateEval;
use crate::field::{extend_bytes, fpow, fr_display_text, Fr};
use crate::kzg::{g1_gen_mul, g1_text, g2_gen_mul, KZGUnivariateInterface, UnivariateKZG, G1, G2};
use crate::transcript::{after_sample, challenge, sample_n, FiatShamirTranscript};
use crate::univariate::{poly_text, UnivariantPolynomial};
use crate::prover::{column_coeffs, commitment};
use crate::kzg::SRS;
use vstd::prelude::*;
use vstd::string::StringSliceAdditionalSpecFns;

verus! {

/// The reference string of the PLONK protocol.
pub struct PlonkSRS {
    pub g1_power_of_taus: Vec<G1>,
    pub g2_power_of_tau: Vec<G2>,
}

impl PlonkSRS {
    /// A reference string from its powers.
    pub fn new(g1_power_of_taus: Vec<G1>, g2_power_of_tau: Vec<G2>) -> (r: Self)
        ensures
            r.g1_power_of_taus@ == g1_power_of_taus@,
            r.g2_power_of_tau@ == g2_power_of_tau@,
    {
        PlonkSRS { g1_power_of_taus, g2_power_of_tau }
    }

    /// The KZG reference string for the secret `tau` and polynomials of degree
    /// up to `poly_degree`.
    pub fn run_setup(&self, tau: Fr, poly_degree: usize) -> (r: PlonkSRS)
        requires
            poly_degree < usize::MAX,
        ensures
            r.g1_power_of_taus.len() == poly_degree + 1,
            r.g2_power_of_tau.len() == poly_degree + 1,
            forall|k: int|
                0 <= k <= poly_degree ==> (#[trigger] r.g1_power_of_taus[k])@ == g1_gen_mul(
                    fpow(tau@, k as nat),
                ),
            forall|k: int|
                0 <= k <= poly_degree ==> (#[trigger] r.g2_power_of_tau[k])@ == g2_gen_mul(
                    fpow(tau@, k as nat),
                ),
    {
        let kzg_srs = UnivariateKZG::generate_srs(&tau, poly_degree);
        PlonkSRS {
            g1_power_of_taus: kzg_srs.g1_power_of_taus,
            g2_power_of_tau: kzg_srs.g2_power_of_tau,
        }
    }
}

/// The witness: the three wire columns and the public inputs.
pub struct Witness {
    pub a: UnivariateEval,
    pub b: UnivariateEval,
    pub c: UnivariateEval,
    pub pi: UnivariateEval,
}

impl Witness {
    /// A witness from its columns.
    pub fn new(a: UnivariateEval, b: UnivariateEval, c: UnivariateEval, pi: UnivariateEval) -> (r: Self)
        ensures
            r.a == a,
            r.b == b,
            r.c == c,
            r.pi == pi,
    {
        Witness { a, b, c, pi }
    }
}

/// A circuit in PLONK form: the selector and permutation polynomials over the
/// evaluation domain, and the domain's size.
#[allow(non_snake_case)]
pub struct PlonkishIntermediateRepresentation {
    /// The multiplication selector `q_M`.
    pub QM: UnivariateEval,
    /// The left selector `q_L`.
    pub QL: UnivariateEval,
    /// The right selector `q_R`.
    pub QR: UnivariateEval,
    /// The output selector `q_O`.
    pub QO: UnivariateEval,
    /// The constant selector `q_C`.
    pub QC: UnivariateEval,
    /// The first permutation polynomial.
    pub S1: UnivariateEval,
    /// The second permutation polynomial.
    pub S2: UnivariateEval,
    /// The third permutation polynomial.
    pub S3: UnivariateEval,
    /// The order of the evaluation group.
    pub group_order: u64,
}

impl PlonkishIntermediateRepresentation {
    /// What the verifier keeps of the circuit: the commitments to the selector
    /// and permutation polynomials in coefficient form, and `[tau]_2`.
    pub fn to_vpi(&self, srs: &SRS) -> (r: VerifierPreprocessedInput)
        requires
            srs.g2_power_of_tau.len() >= 2,
            self.QM.domain.size <= usize::MAX,
            self.QL.domain.size <= usize::MAX,
            self.QR.domain.size <= usize::MAX,
            self.QO.domain.size <= usize::MAX,
            self.QC.domain.size <= usize::MAX,
            self.S1.domain.size <= usize::MAX,
            self.S2.domain.size <= usize::MAX,
            self.S3.domain.size <= usize::MAX,
            column_coeffs(self.QM).len() <= srs.g1_power_of_taus.len(),
            column_coeffs(self.QL).len() <= srs.g1_power_of_taus.len(),
            column_coeffs(self.QR).len() <= srs.g1_power_of_taus.len(),
            column_coeffs(self.QO).len() <= srs.g1_power_of_taus.len(),
            column_coeffs(self.QC).len() <= srs.g1_power_of_taus.len(),
            column_coeffs(self.S1).len() <= srs.g1_power_of_taus.len(),
            column_coeffs(self.S2).len() <= srs.g1_power_of_taus.len(),
            column_coeffs(self.S3).len() <= srs.g1_power_of_taus.len(),
        ensures
            r.qm_1_commitment@ == commitment(*srs, column_coeffs(self.QM)),
            r.ql_1_commitment@ == commitment(*srs, column_coeffs(self.QL)),
            r.qr_1_commitment@ == commitment(*srs, column_coeffs(self.QR)),
            r.qo_1_commitment@ == commitment(*srs, column_coeffs(self.QO)),
            r.qc_1_commitment@ == commitment(*srs, column_coeffs(self.QC)),
            r.s1_1_commitment@ == commitment(*srs, column_coeffs(self.S1)),
            r.s2_1_commitment@ == commitment(*srs, column_coeffs(self.S2)),
            r.s3_1_commitment@ == commitment(*srs, column_coeffs(self.S3)),
            r.x_2@ == srs.g2_power_of_tau@[1]@,
    {
        let qm = self.QM.to_coefficient_poly();
        let ql = self.QL.to_coefficient_poly();
        let qr = self.QR.to_coefficient_poly();
        let qo = self.QO.to_coefficient_poly();
        let qc = self.QC.to_coefficient_poly();
        let s1 = self.S1.to_coefficient_poly();
        let s2 = self.S2.to_coefficient_poly();
        let s3 = self.S3.to_coefficient_poly();
        proof {
            assert(qm.coefficients.len() == qm.coeffs().len());
            assert(ql.coefficients.len() == ql.coeffs().len());
            assert(qr.coefficients.len() == qr.coeffs().len());
            assert(qo.coefficients.len() == qo.coeffs().len());
            assert(qc.coefficients.len() == qc.coeffs().len());
            assert(s1.coefficients.len() == s1.coeffs().len());
            assert(s2.coefficients.len() == s2.coeffs().len());
            assert(s3.coefficients.len() == s3.coeffs().len());
        }
        VerifierPreprocessedInput {
            qm_1_commitment: UnivariateKZG::commit(srs, &qm),
            ql_1_commitment: UnivariateKZG::commit(srs, &ql),
            qr_1_commitment: UnivariateKZG::commit(srs, &qr),
            qo_1_commitment: UnivariateKZG::commit(srs, &qo),
            qc_1_commitment: UnivariateKZG::commit(srs, &qc),
            s1_1_commitment: UnivariateKZG::commit(srs, &s1),
            s2_1_commitment: UnivariateKZG::commit(srs, &s2),
            s3_1_commitment: UnivariateKZG::commit(srs, &s3),
            x_2: srs.g2_power_of_tau[1].clone(),
        }
    }
}

/// What the verifier keeps of a circuit: the commitments to its selector and
/// permutation polynomials, and `[tau]_2`.
pub struct VerifierPreprocessedInput {
    pub qm_1_commitment: G1,
    pub ql_1_commitment: G1,
    pub qr_1_commitment: G1,
    pub qo_1_commitment: G1,
    pub qc_1_commitment: G1,
    pub s1_1_commitment: G1,
    pub s2_1_commitment: G1,
    pub s3_1_commitment: G1,
    pub x_2: G2,
}

/// What the first round sends: the commitments to the wire polynomials.
pub struct RoundOneOutput {
    pub a_commitment: G1,
    pub b_commitment: G1,
    pub c_commitment: G1,
    pub a_x: UnivariantPolynomial,
    pub b_x: UnivariantPolynomial,
    pub c_x: UnivariantPolynomial,
}

impl RoundOneOutput {
    /// The output from its parts.
    pub fn new(
        a_commitment: G1,
        b_commitment: G1,
        c_commitment: G1,
        a_x: UnivariantPolynomial,
        b_x: UnivariantPolynomial,
        c_x: UnivariantPolynomial,
    ) -> (r: Self)
        ensures
            r.a_commitment == a_commitment,
            r.b_commitment == b_commitment,
            r.c_commitment == c_commitment,
            r.a_x == a_x,
            r.b_x == b_x,
            r.c_x == c_x,
    {
        RoundOneOutput { a_commitment, b_commitment, c_commitment, a_x, b_x, c_x }
    }

    /// The transcript bytes: the three commitments as text.
    pub fn to_bytes(&self) -> (r: Vec<u8>)
        ensures
            r@ == g1_text(self.a_commitment@) + g1_text(self.b_commitment@) + g1_text(
                self.c_commitment@,
            ),
    {
        let mut bytes: Vec<u8> = Vec::new();
        let a = self.a_commitment.display_bytes();
        let b = self.b_commitment.display_bytes();
        let c = self.c_commitment.display_bytes();
        extend_bytes(&mut bytes, a.as_slice());
        extend_bytes(&mut bytes, b.as_slice());
        extend_bytes(&mut bytes, c.as_slice());
        proof {
            assert(bytes@ =~= g1_text(self.a_commitment@) + g1_text(self.b_commitment@) + g1_text(
                self.c_commitment@,
            ));
        }
        bytes
    }
}

/// What the second round sends: the commitment to the accumulator polynomial.
pub struct RoundTwoOutput {
    pub accumulator_commitment: G1,
    pub accumulator_poly: UnivariantPolynomial,
    pub beta: Fr,
    pub gamma: Fr,
}

impl RoundTwoOutput {
    /// The output from its parts.
    pub fn new(accumulator_commitment: G1, beta: Fr, gamma: Fr, accumulator_poly: UnivariantPolynomial) -> (r: Self)
        ensures
            r.accumulator_commitment == accumulator_commitment,
            r.beta == beta,
            r.gamma == gamma,
            r.accumulator_poly == accumulator_poly,
    {
        RoundTwoOutput { accumulator_commitment, accumulator_poly, beta, gamma }
    }

    /// The transcript bytes: the accumulator commitment as text.
    pub fn to_bytes(&self) -> (r: Vec<u8>)
        ensures
            r@ == g1_text(self.accumulator_commitment@),
    {
        self.accumulator_commitment.display_bytes()
    }
}

/// What the third round sends: the split quotient polynomial.
#[allow(non_snake_case)]
pub struct RoundThreeOutput {
    pub t_lo_commitment: G1,
    pub t_mid_commitment: G1,
    pub t_hi_commitment: G1,
    pub w_accumulator_poly: UnivariantPolynomial,
    pub t_lo_poly: UnivariantPolynomial,
    pub t_mid_poly: UnivariantPolynomial,
    pub t_hi_poly: UnivariantPolynomial,
    pub alpha: Fr,
}

impl RoundThreeOutput {
    /// The transcript bytes: the commitments to the three parts of the quotient
    /// as text (what the verifier receives of this round).
    pub fn to_bytes(&self) -> (r: Vec<u8>)
        ensures
            r@ == g1_text(self.t_lo_commitment@) + g1_text(self.t_mid_commitment@) + g1_text(
                self.t_hi_commitment@,
            ),
    {
        let mut bytes: Vec<u8> = Vec::new();
        let lo = self.t_lo_commitment.display_bytes();
        let mid = self.t_mid_commitment.display_bytes();
        let hi = self.t_hi_commitment.display_bytes();
        extend_bytes(&mut bytes, lo.as_slice());
        extend_bytes(&mut bytes, mid.as_slice());
        extend_bytes(&mut bytes, hi.as_slice());
        proof {
            assert(bytes@ =~= g1_text(self.t_lo_commitment@) + g1_text(self.t_mid_commitment@) + g1_text(
                self.t_hi_commitment@,
            ));
        }
        bytes
    }
}

/// What the fourth round sends: the evaluations at `zeta`.
pub struct RoundFourOutput {
    pub a_x_ploy_zeta: Fr,
    pub b_x_ploy_zeta: Fr,
    pub c_x_ploy_zeta: Fr,
    pub w_accumulator_poly_zeta: Fr,
    pub s1_poly_zeta: Fr,
    pub s2_poly_zeta: Fr,
    pub zeta: Fr,
}

impl RoundFourOutput {
    /// The transcript bytes: the wire polynomials' values at `zeta` as text.
    pub fn to_bytes(&self) -> (r: Vec<u8>)
        ensures
            r@ == fr_display_text(self.a_x_ploy_zeta@) + fr_display_text(self.b_x_ploy_zeta@)
                + fr_display_text(self.c_x_ploy_zeta@),
    {
        let mut bytes: Vec<u8> = Vec::new();
        let a = self.a_x_ploy_zeta.display_bytes();
        let b = self.b_x_ploy_zeta.display_bytes();
        let c = self.c_x_ploy_zeta.display_bytes();
        extend_bytes(&mut bytes, a.as_slice());
        extend_bytes(&mut bytes, b.as_slice());
        extend_bytes(&mut bytes, c.as_slice());
        proof {
            assert(bytes@ =~= fr_display_text(self.a_x_ploy_zeta@) + fr_display_text(
                self.b_x_ploy_zeta@,
            ) + fr_display_text(self.c_x_ploy_zeta@));
        }
        bytes
    }
}

/// What the fifth round sends: the two opening proofs.
#[allow(non_snake_case)]
pub struct RoundFiveOutput {
    pub W_zeta_poly_commitment: G1,
    pub W_zeta_w_poly_commitment: G1,
    pub mu: Fr,
}

impl RoundFiveOutput {
    /// The transcript bytes: the two opening proofs as text.
    pub fn to_bytes(&self) -> (r: Vec<u8>)
        ensures
            r@ == g1_text(self.W_zeta_poly_commitment@) + g1_text(self.W_zeta_w_poly_commitment@),
    {
        let mut bytes: Vec<u8> = Vec::new();
        let a = self.W_zeta_poly_commitment.display_bytes();
        let b = self.W_zeta_w_poly_commitment.display_bytes();
        extend_bytes(&mut bytes, a.as_slice());
        extend_bytes(&mut bytes, b.as_slice());
        proof {
            assert(bytes@ =~= g1_text(self.W_zeta_poly_commitment@) + g1_text(
                self.W_zeta_w_poly_commitment@,
            ));
        }
        bytes
    }
}

/// A PLONK proof.
#[allow(non_snake_case)]
pub struct PlonkProof {
    pub a_poly_commitment: G1,
    pub b_poly_commitment: G1,
    pub c_poly_commitment: G1,
    pub accumulator_poly_commitment: G1,
    pub t_lo_poly_commitment: G1,
    pub t_mid_poly_commitment: G1,
    pub t_hi_poly_commitment: G1,
    pub W_zeta_poly_commitment: G1,
    pub W_zeta_w_poly_commitment: G1,
    pub a_x_zeta: Fr,
    pub b_x_zeta: Fr,
    pub c_x_zeta: Fr,
    pub w_accumulator_poly_zeta: Fr,
    pub s1_poly_zeta: Fr,
    pub s2_poly_zeta: Fr,
}

/// The challenges `(beta, gamma, alpha, zeta, vinculum, mu)` that the
/// transcript of a proof gives: it starts with the protocol label; the wire
/// commitments give `beta` and `gamma`, the accumulator commitment `alpha`,
/// the (empty) quotient text `zeta`, and the wire values at `zeta` give
/// `vinculum` and then `mu`.
pub open spec fn plonk_challenges(
    a: Seq<u8>,
    b: Seq<u8>,
    c: Seq<u8>,
    acc: Seq<u8>,
    t_lo: Seq<u8>,
    t_mid: Seq<u8>,
    t_hi: Seq<u8>,
    a_zeta: int,
    b_zeta: int,
    c_zeta: int,
) -> (int, int, int, int, int, int) {
    let l1 = "plonk-protocol".spec_bytes() + "round_one_output".spec_bytes() + g1_text(a) + g1_text(b)
        + g1_text(c);
    let (l2, bg) = sample_n(l1, 2);
    let l3 = l2 + "round_two_output".spec_bytes() + g1_text(acc);
    let l4 = after_sample(l3) + "round_three_output".spec_bytes() + g1_text(t_lo) + g1_text(t_mid)
        + g1_text(t_hi);
    let l5 = after_sample(l4) + "round_four_output".spec_bytes() + fr_display_text(a_zeta)
        + fr_display_text(b_zeta) + fr_display_text(c_zeta);
    let l6 = after_sample(l5);
    (bg[0], bg[1], challenge(l3), challenge(l4), challenge(l5), challenge(l6))
}

impl PlonkProof {
    /// Replays the transcript of the proof and gives its challenges
    /// `(beta, gamma, alpha, zeta, vinculum, mu)`.
    pub fn output_transcript_challenges(&self) -> (r: (Fr, Fr, Fr, Fr, Fr, Fr))
        ensures
            ({
                let e = plonk_challenges(
                    self.a_poly_commitment@,
                    self.b_poly_commitment@,
                    self.c_poly_commitment@,
                    self.accumulator_poly_commitment@,
                    self.t_lo_poly_commitment@,
                    self.t_mid_poly_commitment@,
                    self.t_hi_poly_commitment@,
                    self.a_x_zeta@,
                    self.b_x_zeta@,
                    self.c_x_zeta@,
                );
                &&& r.0@ == e.0
                &&& r.1@ == e.1
                &&& r.2@ == e.2
                &&& r.3@ == e.3
                &&& r.4@ == e.4
                &&& r.5@ == e.5
            }),
    {
        let mut init: Vec<u8> = Vec::new();
        extend_bytes(&mut init, "plonk-protocol".as_bytes());
        let mut transcript = FiatShamirTranscript::new(init);
        let round_one_output = RoundOneOutput {
            a_commitment: self.a_poly_commitment.clone(),
            b_commitment: self.b_poly_commitment.clone(),
            c_commitment: self.c_poly_commitment.clone(),
            a_x: UnivariantPolynomial::zero(),
            b_x: UnivariantPolynomial::zero(),
            c_x: UnivariantPolynomial::zero(),
        };
        let one_bytes = round_one_output.to_bytes();
        proof {
            assert(init@ =~= "plonk-protocol".spec_bytes());
        }
        transcript.append_with_label("round_one_output", one_bytes.as_slice());
        let ghost l1 = "plonk-protocol".spec_bytes() + "round_one_output".spec_bytes() + g1_text(
            self.a_poly_commitment@,
        ) + g1_text(self.b_poly_commitment@) + g1_text(self.c_poly_commitment@);
        proof {
            assert(transcript.log() =~= l1);
        }
        let rand_round_2 = transcript.sample_n_as_field_elements(2);
        let beta = rand_round_2[0];
        let gamma = rand_round_2[1];
        let round_two_output = RoundTwoOutput {
            accumulator_commitment: self.accumulator_poly_commitment.clone(),
            beta: Fr::zero(),
            gamma: Fr::zero(),
            accumulator_poly: UnivariantPolynomial::zero(),
        };
        let two_bytes = round_two_output.to_bytes();
        transcript.append_with_label("round_two_output", two_bytes.as_slice());
        let alpha = transcript.sample_as_field_element();
        let round_three_output = RoundThreeOutput {
            t_lo_commitment: self.t_lo_poly_commitment.clone(),
            t_mid_commitment: self.t_mid_poly_commitment.clone(),
            t_hi_commitment: self.t_hi_poly_commitment.clone(),
            w_accumulator_poly: UnivariantPolynomial::zero(),
            t_lo_poly: UnivariantPolynomial::zero(),
            t_mid_poly: UnivariantPolynomial::zero(),
            t_hi_poly: UnivariantPolynomial::zero(),
            alpha: Fr::zero(),
        };
        let three_bytes = round_three_output.to_bytes();
        let ghost l3 = transcript.log();
        transcript.append_with_label("round_three_output", three_bytes.as_slice());
        proof {
            assert(transcript.log() =~= l3 + "round_three_output".spec_bytes() + g1_text(
                self.t_lo_poly_commitment@,
            ) + g1_text(self.t_mid_poly_commitment@) + g1_text(self.t_hi_poly_commitment@));
        }
        let zeta = transcript.sample_as_field_element();
        let round_four_output = RoundFourOutput {
            a_x_ploy_zeta: self.a_x_zeta,
            b_x_ploy_zeta: self.b_x_zeta,
            c_x_ploy_zeta: self.c_x_zeta,
            w_accumulator_poly_zeta: Fr::zero(),
            s1_poly_zeta: Fr::zero(),
            s2_poly_zeta: Fr::zero(),
            zeta: Fr::zero(),
        };
        let four_bytes = round_four_output.to_bytes();
        let ghost l4 = transcript.log();
        transcript.append_with_label("round_four_output", four_bytes.as_slice());
        proof {
            assert(transcript.log() =~= l4 + "round_four_output".spec_bytes() + fr_display_text(
                self.a_x_zeta@,
            ) + fr_display_text(self.b_x_zeta@) + fr_display_text(self.c_x_zeta@));
        }
        let vinculum = transcript.sample_as_field_element();
        let mu = transcript.sample_as_field_element();
        proof {
            assert(rand_round_2.deep_view()[0] == beta@);
            assert(rand_round_2.deep_view()[1] == gamma@);
        }
        (beta, gamma, alpha, zeta, vinculum, mu)
    }
}

} // verus!
