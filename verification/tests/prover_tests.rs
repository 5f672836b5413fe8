use zk_toolkit::assembly::eq_to_assembly;
use zk_toolkit::evaluation::{Domain, UnivariateEval};
use zk_toolkit::field::Fr;
use zk_toolkit::kzg::{KZGUnivariateInterface, UnivariateKZG};
use zk_toolkit::plonk_core::Witness;
use zk_toolkit::program::Program;
use zk_toolkit::prover::{
    apply_w_to_polynomial, divide_by_vanishing, permutation_accumulator, split_poly_in_3, PlonkProver,
};
use zk_toolkit::univariate::UnivariantPolynomial;
use zk_toolkit::transcript::FiatShamirTranscript;

fn fr(x: i64) -> Fr {
    Fr::from_i64(x)
}

fn column(values: &[i64]) -> UnivariateEval {
    UnivariateEval::new(values.iter().map(|&v| fr(v)).collect(), Domain::new(values.len()))
}

fn small_prover() -> (PlonkProver, Witness) {
    let program = Program::new(vec![eq_to_assembly("c <== a * b").unwrap()], 4);
    let ir = program.common_preproccessed_input();
    let srs = UnivariateKZG::generate_srs(&fr(7), 32);
    let prover = PlonkProver::new(FiatShamirTranscript::new(b"plonk".to_vec()), ir, srs);
    let witness = Witness::new(
        column(&[3, 0, 0, 0]),
        column(&[5, 0, 0, 0]),
        column(&[15, 0, 0, 0]),
        column(&[0, 0, 0, 0]),
    );
    (prover, witness)
}

#[test]
fn round_one_blinds_and_commits_the_wires() {
    let (mut prover, witness) = small_prover();
    let blinders = [fr(1), fr(2), fr(3), fr(4), fr(5), fr(6)];
    let out = prover.round_one(&witness, &blinders);
    let w = Fr::get_root_of_unity(4).unwrap();
    // The blinding vanishes on the rows.
    assert_eq!(out.a_x.evaluate(&Fr::one()), fr(3));
    assert_eq!(out.b_x.evaluate(&Fr::one()), fr(5));
    assert_eq!(out.c_x.evaluate(&w), fr(0));
    // (X + 2)(X^4 - 1) contributes to the coefficients of X^5 and X^4.
    assert_eq!(out.a_x.coefficients.len(), 6);
    assert_eq!(out.a_x.coefficients[5], fr(1));
    assert_eq!(out.a_x.coefficients[4], fr(2));
    assert_eq!(out.a_commitment, UnivariateKZG::commit(&prover.srs, &out.a_x));
    assert_eq!(out.c_commitment, UnivariateKZG::commit(&prover.srs, &out.c_x));
}

#[test]
fn round_two_draws_challenges_and_commits_the_accumulator() {
    let (mut prover, witness) = small_prover();
    let mut replay = FiatShamirTranscript::new(b"plonk".to_vec());
    let expected = replay.sample_n_as_field_elements(2);
    let out = prover.round_two(&witness, &[fr(1), fr(2), fr(3)]).unwrap();
    assert_eq!(out.beta, expected[0]);
    assert_eq!(out.gamma, expected[1]);
    // The accumulator is one on the first row.
    assert_eq!(out.accumulator_poly.evaluate(&Fr::one()), fr(1));
    assert_eq!(out.accumulator_commitment, UnivariateKZG::commit(&prover.srs, &out.accumulator_poly));
}

#[test]
fn accumulator_satisfies_its_recurrence() {
    let (prover, witness) = small_prover();
    let beta = fr(11);
    let gamma = fr(13);
    let w = Fr::get_root_of_unity(4).unwrap();
    let z = permutation_accumulator(&witness, &prover.circuit_ir, beta, gamma, w, 4).unwrap();
    assert_eq!(z.len(), 4);
    assert_eq!(z[0], Fr::one());
    let ir = &prover.circuit_ir;
    for i in 0..3usize {
        let x = beta.mul(&w.pow(i as u64));
        let num = witness.a.values[i].add(&x).add(&gamma)
            .mul(&witness.b.values[i].add(&fr(2).mul(&x)).add(&gamma))
            .mul(&witness.c.values[i].add(&fr(3).mul(&x)).add(&gamma));
        let den = witness.a.values[i].add(&beta.mul(&ir.S1.values[i])).add(&gamma)
            .mul(&witness.b.values[i].add(&beta.mul(&ir.S2.values[i])).add(&gamma))
            .mul(&witness.c.values[i].add(&beta.mul(&ir.S3.values[i])).add(&gamma));
        assert_eq!(num.mul(&z[i]), den.mul(&z[i + 1]));
    }
    // A zero denominator is refused: with beta = 0 and gamma = 0 the
    // denominator of the second (empty) row is 0 * 0 * 0.
    assert!(permutation_accumulator(&witness, ir, fr(0), fr(0), w, 4).is_none());
}

fn poly(c: &[i64]) -> UnivariantPolynomial {
    UnivariantPolynomial::new(c.iter().map(|&v| fr(v)).collect())
}

#[test]
fn quotient_by_the_vanishing_polynomial() {
    // (X^4 - 1)(X + 2) = X^5 + 2X^4 - X - 2.
    let q = divide_by_vanishing(&poly(&[-2, -1, 0, 0, 2, 1]), 4);
    assert_eq!(q.coefficients, vec![fr(2), fr(1)]);
    // X^9 + 3 = (X^4 - 1)(X^5 + X) + X + 3.
    let q = divide_by_vanishing(&poly(&[3, 0, 0, 0, 0, 0, 0, 0, 0, 1]), 4);
    assert_eq!(q.coefficients, vec![fr(0), fr(1), fr(0), fr(0), fr(0), fr(1)]);
    assert!(divide_by_vanishing(&poly(&[1, 2, 3]), 4).coefficients.is_empty());
}

#[test]
fn splitting_and_shifting_polynomials() {
    let t = poly(&[1, 2, 3, 4, 5, 6, 7]);
    let (lo, mid, hi) = split_poly_in_3(&t, 3);
    assert_eq!(lo.coefficients, vec![fr(1), fr(2), fr(3)]);
    assert_eq!(mid.coefficients, vec![fr(4), fr(5), fr(6)]);
    assert_eq!(hi.coefficients, vec![fr(7)]);
    let x = fr(5);
    let whole = lo.evaluate(&x).add(&x.pow(3).mul(&mid.evaluate(&x))).add(&x.pow(6).mul(&hi.evaluate(&x)));
    assert_eq!(whole, t.evaluate(&x));
    let shifted = apply_w_to_polynomial(&poly(&[1, 1, 1]), &fr(2));
    assert_eq!(shifted.coefficients, vec![fr(1), fr(2), fr(4)]);
}

#[test]
fn proof_agrees_with_its_rounds() {
    let (mut prover, witness) = small_prover();
    let b1 = [fr(1), fr(2), fr(3), fr(4), fr(5), fr(6)];
    let b2 = [fr(7), fr(8), fr(9)];
    let b3 = [fr(10), fr(11)];
    let proof = prover.prove(&witness, &b1, &b2, &b3).unwrap();

    let (mut step, _) = small_prover();
    let o1 = step.round_one(&witness, &b1);
    step.transcript.append_with_label("round_one_output", &o1.to_bytes());
    let o2 = step.round_two(&witness, &b2).unwrap();
    step.transcript.append_with_label("round_two_output", &o2.to_bytes());
    let o3 = step.round_three(&witness, &o1, &o2, &b3).unwrap();
    step.transcript.append_with_label("round_three_output", &o3.to_bytes());
    let o4 = step.round_four(&o1, &o3);
    step.transcript.append_with_label("round_four_output", &o4.to_bytes());
    let o5 = step.round_five(&witness, &o1, &o2, &o3, &o4).unwrap();

    assert_eq!(proof.a_poly_commitment, o1.a_commitment);
    assert_eq!(proof.accumulator_poly_commitment, o2.accumulator_commitment);
    assert_eq!(proof.t_hi_poly_commitment, o3.t_hi_commitment);
    assert_eq!(proof.a_x_zeta, o1.a_x.evaluate(&o4.zeta));
    assert_eq!(proof.s2_poly_zeta, o4.s2_poly_zeta);
    assert_eq!(proof.W_zeta_poly_commitment, o5.W_zeta_poly_commitment);
    assert_eq!(proof.W_zeta_w_poly_commitment, o5.W_zeta_w_poly_commitment);
    // The blinding of the quotient's parts cancels: t_lo + X^n t_mid + X^2n t_hi
    // does not depend on the two blinders.
    let (mut other, _) = small_prover();
    let p1 = other.round_one(&witness, &b1);
    other.transcript.append_with_label("round_one_output", &p1.to_bytes());
    let p2 = other.round_two(&witness, &b2).unwrap();
    other.transcript.append_with_label("round_two_output", &p2.to_bytes());
    let p3 = other.round_three(&witness, &p1, &p2, &[fr(0), fr(0)]).unwrap();
    let x = fr(5);
    let x4 = x.pow(4);
    let x8 = x.pow(8);
    let whole = |o: &zk_toolkit::plonk_core::RoundThreeOutput| {
        o.t_lo_poly.evaluate(&x).add(&x4.mul(&o.t_mid_poly.evaluate(&x))).add(&x8.mul(&o.t_hi_poly.evaluate(&x)))
    };
    assert_eq!(whole(&o3), whole(&p3));
}

#[test]
fn verifier_preprocessed_input_commits_to_the_circuit() {
    let (prover, _) = small_prover();
    let vpi = prover.circuit_ir.to_vpi(&prover.srs);
    let qm = prover.circuit_ir.QM.to_coefficient_poly();
    assert_eq!(vpi.qm_1_commitment, UnivariateKZG::commit(&prover.srs, &qm));
    let s3 = prover.circuit_ir.S3.to_coefficient_poly();
    assert_eq!(vpi.s3_1_commitment, UnivariateKZG::commit(&prover.srs, &s3));
    assert_eq!(vpi.x_2, prover.srs.g2_power_of_tau[1].clone());
}

#[test]
fn replayed_challenges_match_the_prover() {
    let program = Program::new(vec![eq_to_assembly("c <== a * b").unwrap()], 4);
    let ir = program.common_preproccessed_input();
    let srs = UnivariateKZG::generate_srs(&fr(7), 32);
    let mut step = PlonkProver::new(FiatShamirTranscript::new(b"plonk-protocol".to_vec()), ir, srs);
    let (_, witness) = small_prover();
    let o1 = step.round_one(&witness, &[fr(1), fr(2), fr(3), fr(4), fr(5), fr(6)]);
    step.transcript.append_with_label("round_one_output", &o1.to_bytes());
    let o2 = step.round_two(&witness, &[fr(7), fr(8), fr(9)]).unwrap();
    step.transcript.append_with_label("round_two_output", &o2.to_bytes());
    let o3 = step.round_three(&witness, &o1, &o2, &[fr(10), fr(11)]).unwrap();
    step.transcript.append_with_label("round_three_output", &o3.to_bytes());
    let o4 = step.round_four(&o1, &o3);
    step.transcript.append_with_label("round_four_output", &o4.to_bytes());
    let o5 = step.round_five(&witness, &o1, &o2, &o3, &o4).unwrap();
    let proof = zk_toolkit::plonk_core::PlonkProof {
        a_poly_commitment: o1.a_commitment.clone(),
        b_poly_commitment: o1.b_commitment.clone(),
        c_poly_commitment: o1.c_commitment.clone(),
        accumulator_poly_commitment: o2.accumulator_commitment.clone(),
        t_lo_poly_commitment: o3.t_lo_commitment.clone(),
        t_mid_poly_commitment: o3.t_mid_commitment.clone(),
        t_hi_poly_commitment: o3.t_hi_commitment.clone(),
        W_zeta_poly_commitment: o5.W_zeta_poly_commitment.clone(),
        W_zeta_w_poly_commitment: o5.W_zeta_w_poly_commitment.clone(),
        a_x_zeta: o4.a_x_ploy_zeta,
        b_x_zeta: o4.b_x_ploy_zeta,
        c_x_zeta: o4.c_x_ploy_zeta,
        w_accumulator_poly_zeta: o4.w_accumulator_poly_zeta,
        s1_poly_zeta: o4.s1_poly_zeta,
        s2_poly_zeta: o4.s2_poly_zeta,
    };
    let (beta, gamma, alpha, zeta, _vinculum, mu) = proof.output_transcript_challenges();
    assert_eq!(beta, o2.beta);
    assert_eq!(gamma, o2.gamma);
    assert_eq!(alpha, o3.alpha);
    assert_eq!(zeta, o4.zeta);
    assert_eq!(mu, o5.mu);
}

#[test]
fn accumulator_closes_on_the_last_row_for_a_valid_witness() {
    let (prover, witness) = small_prover();
    let beta = fr(11);
    let gamma = fr(13);
    let w = Fr::get_root_of_unity(4).unwrap();
    let z = permutation_accumulator(&witness, &prover.circuit_ir, beta, gamma, w, 4).unwrap();
    let ir = &prover.circuit_ir;
    let mut nums = Vec::new();
    let mut dens = Vec::new();
    for i in 0..4usize {
        let x = beta.mul(&w.pow(i as u64));
        nums.push(witness.a.values[i].add(&x).add(&gamma)
            .mul(&witness.b.values[i].add(&fr(2).mul(&x)).add(&gamma))
            .mul(&witness.c.values[i].add(&fr(3).mul(&x)).add(&gamma)));
        dens.push(witness.a.values[i].add(&beta.mul(&ir.S1.values[i])).add(&gamma)
            .mul(&witness.b.values[i].add(&beta.mul(&ir.S2.values[i])).add(&gamma))
            .mul(&witness.c.values[i].add(&beta.mul(&ir.S3.values[i])).add(&gamma)));
    }
    let pn = nums.iter().fold(Fr::one(), |acc, v| acc.mul(v));
    let pd = dens.iter().fold(Fr::one(), |acc, v| acc.mul(v));
    // The witness respects the copy constraints, so the products agree ...
    assert_eq!(pn, pd);
    // ... and the recurrence closes on the last row.
    assert_eq!(nums[3].mul(&z[3]), dens[3].mul(&z[0]));
}
