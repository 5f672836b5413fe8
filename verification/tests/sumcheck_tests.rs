use zk_toolkit::composed::{ComposedMultilinear, ComposedProver, ComposedVerifier};
use zk_toolkit::field::Fr;
use zk_toolkit::multilinear::Multilinear;
use zk_toolkit::sumcheck::{Prover, Verifier};
use zk_toolkit::transcript::FiatShamirTranscript;

fn fr(x: i64) -> Fr {
    Fr::from_i64(x)
}

fn frs(xs: &[i64]) -> Vec<Fr> {
    xs.iter().map(|&x| fr(x)).collect()
}

#[test]
fn test_sum_calculation() {
    let poly = Multilinear::new(frs(&[0, 0, 0, 2, 2, 2, 2, 4]), 3);
    let sum = Prover::calculate_sum(&poly);
    assert_eq!(sum, fr(12));
}

#[test]
fn prover_test_compute_round_zero_poly() {
    let poly = Multilinear::new(frs(&[0, 0, 0, 2, 2, 2, 2, 4]), 3);
    let mut transcript = FiatShamirTranscript::default();
    let round_0_poly = Prover::compute_round_zero_poly(&poly, &mut transcript);
    assert_eq!(round_0_poly.evaluations, frs(&[2, 10]));
}

#[test]
fn prover_test_compute_round_zero_poly_2() {
    let poly = Multilinear::new(frs(&[0, 0, 0, 2, 2, 2, 2, 4]), 3);
    let mut transcript = FiatShamirTranscript::default();
    let round_0_poly = Prover::compute_round_zero_poly(&poly, &mut transcript);
    let sum = round_0_poly
        .evaluate(&frs(&[1]))
        .unwrap()
        .add(&round_0_poly.evaluate(&frs(&[0])).unwrap());
    assert_eq!(sum, fr(12));
}

#[test]
fn prover_test_compute_round_zero_poly_3() {
    let poly = Multilinear::new(frs(&[0, 0, 2, 7, 3, 3, 5, 11]), 3);
    let mut transcript = FiatShamirTranscript::default();
    let round_0_poly = Prover::compute_round_zero_poly(&poly, &mut transcript);
    assert_eq!(round_0_poly.evaluations, frs(&[9, 22]));
}

#[test]
fn test_compute_round_zero_poly_4() {
    let poly = Multilinear::new(frs(&[0, 0, 2, 7, 3, 3, 5, 11]), 3);
    let mut transcript = FiatShamirTranscript::default();
    let round_0_poly = Prover::compute_round_zero_poly(&poly, &mut transcript);
    let sum = round_0_poly
        .evaluate(&frs(&[1]))
        .unwrap()
        .add(&round_0_poly.evaluate(&frs(&[0])).unwrap());
    assert_eq!(sum, fr(31));
}

#[test]
fn test_compute_round_zero_poly_5() {
    let poly = Multilinear::new(frs(&[0, 0, 0, 0, 0, 1, 1, 1, 0, 0, 0, 0, 0, 0, 0, 0]), 4);
    let mut transcript = FiatShamirTranscript::default();
    let round_0_poly = Prover::compute_round_zero_poly(&poly, &mut transcript);
    let sum = round_0_poly
        .evaluate(&frs(&[1]))
        .unwrap()
        .add(&round_0_poly.evaluate(&frs(&[0])).unwrap());
    assert_eq!(sum, fr(3));
}

#[test]
fn prover_test_sum_check_proof() {
    let poly = Multilinear::new(frs(&[0, 0, 2, 7, 3, 3, 6, 11]), 3);
    let mut transcript = FiatShamirTranscript::default();
    let sum = Prover::calculate_sum(&poly);
    let proof = Prover::sum_check_proof(&poly, &mut transcript, &sum);
    assert!(Verifier::verify(&proof));
}

#[test]
fn prover_test_sum_check_proof_2() {
    let poly = Multilinear::new(frs(&[0, 0, 0, 0, 0, 1, 1, 1, 0, 0, 0, 0, 0, 0, 0, 0]), 4);
    let mut transcript = FiatShamirTranscript::default();
    let sum = Prover::calculate_sum(&poly);
    let proof = Prover::sum_check_proof(&poly, &mut transcript, &sum);
    assert!(Verifier::verify(&proof));
}

#[test]
fn prover_test_sum_check_proof_3() {
    let poly = Multilinear::new(frs(&[1, 3, 5, 7, 2, 4, 6, 8, 3, 5, 7, 9, 4, 6, 8, 10]), 4);
    let mut transcript = FiatShamirTranscript::default();
    let sum = Prover::calculate_sum(&poly);
    let proof = Prover::sum_check_proof(&poly, &mut transcript, &sum);
    assert!(Verifier::verify(&proof));
}

// A proof of a wrong sum is refused (the first check of `sumcheck_accepts`).
#[test]
fn sum_check_refuses_wrong_sum() {
    let poly = Multilinear::new(frs(&[0, 0, 2, 7, 3, 3, 6, 11]), 3);
    let mut transcript = FiatShamirTranscript::default();
    let sum = Prover::calculate_sum(&poly).add(&fr(1));
    let proof = Prover::sum_check_proof(&poly, &mut transcript, &sum);
    assert!(!Verifier::verify(&proof));
}

// A tampered round polynomial is refused.
#[test]
fn sum_check_refuses_tampered_round() {
    let poly = Multilinear::new(frs(&[1, 3, 5, 7, 2, 4, 6, 8, 3, 5, 7, 9, 4, 6, 8, 10]), 4);
    let mut transcript = FiatShamirTranscript::default();
    let sum = Prover::calculate_sum(&poly);
    let mut proof = Prover::sum_check_proof(&poly, &mut transcript, &sum);
    let v = proof.round_poly[1].evaluations[0];
    proof.round_poly[1].evaluations[0] = v.add(&fr(1));
    assert!(!Verifier::verify(&proof));
}

#[test]
fn sum_check_one_variable() {
    let poly = Multilinear::new(frs(&[4, 9]), 1);
    let mut transcript = FiatShamirTranscript::default();
    let sum = Prover::calculate_sum(&poly);
    assert_eq!(sum, fr(13));
    let proof = Prover::sum_check_proof(&poly, &mut transcript, &sum);
    assert!(proof.round_poly.is_empty());
    assert!(Verifier::verify(&proof));
}

#[test]
fn test_calculate_sum() {
    let poly1 = Multilinear::new(frs(&[0, 1, 2, 3]), 2);
    let poly2 = Multilinear::new(frs(&[0, 0, 0, 1]), 2);
    let composed = ComposedMultilinear::new(vec![poly1, poly2]);
    let sum = ComposedProver::calculate_sum(&composed);
    assert_eq!(sum, fr(3));
}

#[test]
fn test_calculate_sum_2() {
    let poly1 = Multilinear::new(frs(&[0, 1, 2, 3]), 2);
    let composed = ComposedMultilinear::new(vec![poly1]);
    let sum = ComposedProver::calculate_sum(&composed);
    assert_eq!(sum, fr(6));
}

#[test]
fn test_calculate_sum_3() {
    let poly = Multilinear::new(frs(&[0, 0, 0, 2, 2, 2, 2, 4]), 3);
    let composed = ComposedMultilinear::new(vec![poly]);
    let sum = ComposedProver::calculate_sum(&composed);
    assert_eq!(sum, fr(12));
}

#[test]
fn composed_prover_test_compute_round_zero_poly() {
    let poly1 = Multilinear::new(frs(&[0, 1, 2, 3]), 2);
    let composed = ComposedMultilinear::new(vec![poly1]);
    let sum = ComposedProver::calculate_sum(&composed);
    let mut transcript = FiatShamirTranscript::default();
    let round_0_poly = ComposedProver::compute_round_zero_poly(&composed, &mut transcript);
    let sum_half_0 = round_0_poly.evaluate(&fr(0));
    let sum_half_1 = round_0_poly.evaluate(&fr(1));
    assert_eq!(sum, sum_half_0.add(&sum_half_1));
}

#[test]
fn composed_prover_test_compute_round_zero_poly_2() {
    let poly = Multilinear::new(frs(&[0, 0, 0, 2, 2, 2, 2, 4]), 3);
    let composed = ComposedMultilinear::new(vec![poly]);
    let sum = ComposedProver::calculate_sum(&composed);
    let mut transcript = FiatShamirTranscript::default();
    let round_0_poly = ComposedProver::compute_round_zero_poly(&composed, &mut transcript);
    let sum_half_0 = round_0_poly.evaluate(&fr(0));
    let sum_half_1 = round_0_poly.evaluate(&fr(1));
    assert_eq!(sum, sum_half_0.add(&sum_half_1));
}

#[test]
fn composed_prover_test_compute_round_zero_poly_3() {
    let poly = Multilinear::new(frs(&[0, 0, 0, 2, 2, 2, 2, 4]), 3);
    let composed = ComposedMultilinear::new(vec![poly]);
    let sum = ComposedProver::calculate_sum(&composed);
    let mut transcript = FiatShamirTranscript::default();
    let round_0_poly = ComposedProver::compute_round_zero_poly(&composed, &mut transcript);
    let sum_half_0 = round_0_poly.evaluate(&fr(0));
    let sum_half_1 = round_0_poly.evaluate(&fr(1));
    println!("round_0_poly_vec: {:?}", round_0_poly);
    assert_eq!(sum, sum_half_0.add(&sum_half_1));
}

#[test]
fn composed_prover_test_sum_check_proof() {
    let poly = Multilinear::new(frs(&[0, 0, 2, 7, 3, 3, 6, 11]), 3);
    let composed = ComposedMultilinear::new(vec![poly]);
    let sum = ComposedProver::calculate_sum(&composed);
    let mut transcript = FiatShamirTranscript::default();
    let (proof, _) = ComposedProver::sum_check_proof(&composed, &mut transcript, &sum);
    let mut transcript_ = FiatShamirTranscript::default();
    assert!(ComposedVerifier::verify(&proof, &composed, &mut transcript_));
}

#[test]
fn composed_prover_test_sum_check_proof_2() {
    let poly1 = Multilinear::new(frs(&[0, 1, 2, 3]), 2);
    let poly2 = Multilinear::new(frs(&[0, 0, 0, 1]), 2);
    let composed = ComposedMultilinear::new(vec![poly1, poly2]);
    let sum = ComposedProver::calculate_sum(&composed);
    let mut transcript = FiatShamirTranscript::default();
    let (proof, _) = ComposedProver::sum_check_proof(&composed, &mut transcript, &sum);
    let mut transcript_ = FiatShamirTranscript::default();
    assert!(ComposedVerifier::verify(&proof, &composed, &mut transcript_));
}

#[test]
fn composed_prover_test_sum_check_proof_3() {
    let poly1 = Multilinear::new(frs(&[0, 1, 2, 3]), 2);
    let poly2 = Multilinear::new(frs(&[0, 0, 0, 1]), 2);
    let poly3 = Multilinear::new(frs(&[0, 2, 0, 3]), 2);
    let composed = ComposedMultilinear::new(vec![poly1.clone(), poly2, poly3, poly1]);
    let sum = ComposedProver::calculate_sum(&composed);
    let mut transcript = FiatShamirTranscript::default();
    let (proof, _) = ComposedProver::sum_check_proof(&composed, &mut transcript, &sum);
    let mut transcript_ = FiatShamirTranscript::default();
    assert!(ComposedVerifier::verify(&proof, &composed, &mut transcript_));
}

#[test]
fn composed_sum_check_refuses_wrong_sum() {
    let poly1 = Multilinear::new(frs(&[0, 1, 2, 3]), 2);
    let poly2 = Multilinear::new(frs(&[0, 0, 0, 1]), 2);
    let composed = ComposedMultilinear::new(vec![poly1, poly2]);
    let sum = ComposedProver::calculate_sum(&composed).add(&fr(5));
    let mut transcript = FiatShamirTranscript::default();
    let (proof, rands) = ComposedProver::sum_check_proof(&composed, &mut transcript, &sum);
    assert_eq!(rands.len(), 2);
    assert_eq!(proof.round_poly.len(), 2);
    let mut transcript_ = FiatShamirTranscript::default();
    assert!(!ComposedVerifier::verify(&proof, &composed, &mut transcript_));
}

#[test]
fn composed_product_helpers() {
    let poly1 = Multilinear::new(frs(&[0, 1, 2, 3]), 2);
    let poly2 = Multilinear::new(frs(&[5, 0, 0, 1]), 2);
    let composed = ComposedMultilinear::new(vec![poly1, poly2]);
    assert_eq!(composed.num_vars(), 2);
    assert_eq!(composed.max_degree(), 2);
    assert!(!composed.is_zero());
    assert!(ComposedMultilinear::zero(2).is_zero());
    assert_eq!(composed.to_bytes().len(), 256);
    let p = composed.partial_evaluation(fr(1), 0);
    assert_eq!(p.polys[0].evaluations, frs(&[2, 3]));
    assert_eq!(p.polys[1].evaluations, frs(&[0, 1]));
}
