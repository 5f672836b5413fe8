use zk_toolkit::field::Fr;
use zk_toolkit::multilinear::Multilinear;
use zk_toolkit::transcript::FiatShamirTranscript;
use zk_toolkit::virtual_poly::{
    barycentric_weights, extrapolate, field_factorial, fix_variables, interpolate_uni_poly,
    u128_factorial, u64_factorial, VirtualSumCheckError,
};
use zk_toolkit::virtual_prover::{VirtualPolynomial, VirtualProver};
use zk_toolkit::virtual_verifier::{SumCheckProverMessage, VirtualVerifier};

fn fr(x: i64) -> Fr {
    Fr::from_i64(x)
}

fn frs(xs: &[i64]) -> Vec<Fr> {
    xs.iter().map(|&x| fr(x)).collect()
}

#[test]
fn factorials() {
    assert_eq!(u64_factorial(0), 1);
    assert_eq!(u64_factorial(5), 120);
    assert_eq!(u64_factorial(20), 2432902008176640000);
    assert_eq!(u128_factorial(25), 15511210043330985984000000);
    assert_eq!(field_factorial(4), fr(24));
    assert_eq!(field_factorial(0), fr(1));
}

#[test]
fn interpolation_of_a_square() {
    // x^2 through 0, 1, 2, read at 5.
    assert_eq!(interpolate_uni_poly(&frs(&[1 - 1, 1, 4]), fr(5)), Ok(fr(25)));
    assert_eq!(interpolate_uni_poly(&frs(&[1, 4, 9]), fr(5)), Ok(fr(36)));
}

#[test]
fn interpolation_of_a_constant() {
    assert_eq!(interpolate_uni_poly(&frs(&[7]), fr(3)), Ok(fr(7)));
}

#[test]
fn interpolation_on_each_path() {
    // a cube through 20 points (64-bit ratios)
    let ys: Vec<i64> = (0..20).map(|x| x * x * x).collect();
    assert_eq!(interpolate_uni_poly(&frs(&ys), fr(30)), Ok(fr(27000)));
    // a square through 25 points (128-bit ratios)
    let ys: Vec<i64> = (0..25).map(|x| x * x).collect();
    assert_eq!(interpolate_uni_poly(&frs(&ys), fr(100)), Ok(fr(10000)));
    // a line through 40 points (field ratios)
    let ys: Vec<i64> = (0..40).map(|x| 3 * x + 1).collect();
    assert_eq!(interpolate_uni_poly(&frs(&ys), fr(50)), Ok(fr(151)));
}

#[test]
fn extrapolation_of_a_square() {
    let points = frs(&[0, 1, 2]);
    let weights = barycentric_weights(&points);
    // 1 / ((0-1)(0-2)), 1 / ((1-0)(1-2)), 1 / ((2-0)(2-1))
    assert_eq!(weights[0].mul(&fr(2)), fr(1));
    assert_eq!(weights[1], fr(-1));
    assert_eq!(weights[2].mul(&fr(2)), fr(1));
    let evals = frs(&[0, 1, 4]);
    assert_eq!(extrapolate(&points, &weights, &evals, &fr(3)), fr(9));
    assert_eq!(extrapolate(&points, &weights, &evals, &fr(-4)), fr(16));
}

#[test]
fn fixing_one_variable() {
    let poly = Multilinear::new(frs(&[1, 2, 3, 4]), 2);
    let fixed = fix_variables(&poly, &frs(&[5]));
    assert_eq!(fixed.num_vars, 1);
    assert_eq!(fixed.evaluations, frs(&[6, 8]));
    let at_two = fix_variables(&Multilinear::new(frs(&[1, 2, 3, 4]), 2), &frs(&[2]));
    assert_eq!(at_two.evaluations, frs(&[3, 5]));
    let untouched = fix_variables(&poly, &[]);
    assert_eq!(untouched.evaluations, frs(&[1, 2, 3, 4]));
}

fn two_factor_poly(max_degree: usize) -> VirtualPolynomial {
    VirtualPolynomial {
        max_degree,
        num_var: 2,
        products: vec![(fr(1), vec![0, 1])],
        flattened_multilinear_poly: vec![
            Multilinear::new(frs(&[1, 2, 3, 4]), 2),
            Multilinear::new(frs(&[5, 6, 7, 8]), 2),
        ],
    }
}

#[test]
fn virtual_prover_rounds() {
    let mut prover = VirtualProver::prover_init(&two_factor_poly(2)).unwrap();
    assert!(matches!(
        prover.prove_round_and_update_state(&None),
        Ok(SumCheckProverMessage { ref evaluations }) if *evaluations == frs(&[26, 44, 66])
    ));
    assert_eq!(
        prover.prove_round_and_update_state(&None).err(),
        Some(VirtualSumCheckError::MissingChallenge)
    );
    let msg = prover.prove_round_and_update_state(&Some(fr(3))).unwrap();
    assert_eq!(msg.evaluations, frs(&[32, 60, 96]));
    // the first round polynomial 26 + 18 t + 2 t (t - 1) is 92 at the challenge 3
    assert_eq!(msg.evaluations[0].add(&msg.evaluations[1]), fr(92));
    assert_eq!(prover.challenges, frs(&[3]));
    assert_eq!(
        prover.prove_round_and_update_state(&Some(fr(4))).err(),
        Some(VirtualSumCheckError::ProverNotActive)
    );
}

#[test]
fn virtual_prover_extrapolates() {
    let mut prover = VirtualProver::prover_init(&two_factor_poly(3)).unwrap();
    let msg = prover.prove_round_and_update_state(&None).unwrap();
    assert_eq!(msg.evaluations, frs(&[26, 44, 66, 92]));
}

#[test]
fn virtual_prover_refusals() {
    let mut prover = VirtualProver::prover_init(&two_factor_poly(2)).unwrap();
    assert_eq!(
        prover.prove_round_and_update_state(&Some(fr(1))).err(),
        Some(VirtualSumCheckError::ProverFirst)
    );
    let mut empty = two_factor_poly(2);
    empty.num_var = 0;
    assert!(matches!(VirtualProver::prover_init(&empty), Err(VirtualSumCheckError::NoVariables)));
}

#[test]
fn virtual_verifier_state_machine() {
    let mut verifier = VirtualVerifier::verifier_init(&(2, 2));
    let mut transcript = FiatShamirTranscript::default();
    let msg = SumCheckProverMessage { evaluations: frs(&[26, 44, 66]) };
    assert_eq!(
        verifier.check_and_generate_subclaim(&fr(70)).err(),
        Some(VirtualSumCheckError::VerifierNotFinished)
    );
    let mut expected_log = FiatShamirTranscript::default();
    expected_log.append("Internal round".as_bytes());
    let expected_challenge = expected_log.sample_as_field_element();
    let c = verifier.verify_round_and_update_state(&msg, &mut transcript).unwrap();
    assert_eq!(c, expected_challenge);
    assert!(verifier.verify_round_and_update_state(&msg, &mut transcript).is_ok());
    assert_eq!(
        verifier.verify_round_and_update_state(&msg, &mut transcript).err(),
        Some(VirtualSumCheckError::VerifierFinished)
    );
    // the same message twice: the second round does not sum to the first
    // round's value at its challenge
    assert_eq!(
        verifier.check_and_generate_subclaim(&fr(70)).err(),
        Some(VirtualSumCheckError::InconsistentClaim)
    );
}

#[test]
fn virtual_sum_check_end_to_end() {
    let poly = two_factor_poly(2);
    let mut prover = VirtualProver::prover_init(&poly).unwrap();
    let mut verifier = VirtualVerifier::verifier_init(&(2, 2));
    let mut transcript = FiatShamirTranscript::default();
    let m1 = prover.prove_round_and_update_state(&None).unwrap();
    let c1 = verifier.verify_round_and_update_state(&m1, &mut transcript).unwrap();
    let m2 = prover.prove_round_and_update_state(&Some(c1)).unwrap();
    let c2 = verifier.verify_round_and_update_state(&m2, &mut transcript).unwrap();
    // 1*5 + 2*6 + 3*7 + 4*8 = 70
    let sub = verifier.check_and_generate_subclaim(&fr(70)).unwrap();
    assert_eq!(sub.point, vec![c1, c2]);
    let f0 = fix_variables(&poly.flattened_multilinear_poly[0], &[c1, c2]);
    let f1 = fix_variables(&poly.flattened_multilinear_poly[1], &[c1, c2]);
    assert_eq!(sub.expected_evaluation, f0.evaluations[0].mul(&f1.evaluations[0]));
    // a wrong claimed sum is refused
    assert_eq!(
        verifier.check_and_generate_subclaim(&fr(71)).err(),
        Some(VirtualSumCheckError::InconsistentClaim)
    );
}

#[test]
fn virtual_round_message_sums_to_the_polynomial_sum() {
    // 2 * f0 * f1 + 3 * f0, whose sum over the hypercube is 2 * 70 + 3 * 10.
    let poly = VirtualPolynomial {
        max_degree: 2,
        num_var: 2,
        products: vec![(fr(2), vec![0, 1]), (fr(3), vec![0])],
        flattened_multilinear_poly: vec![
            Multilinear::new(frs(&[1, 2, 3, 4]), 2),
            Multilinear::new(frs(&[5, 6, 7, 8]), 2),
        ],
    };
    let mut prover = VirtualProver::prover_init(&poly).unwrap();
    let msg = prover.prove_round_and_update_state(&None).unwrap();
    assert_eq!(msg.evaluations.len(), 3);
    assert_eq!(msg.evaluations[0].add(&msg.evaluations[1]), fr(170));
}

// Consecutive rounds agree: the second message sums to the first round
// polynomial (here t -> t) at the challenge.
#[test]
fn virtual_consecutive_rounds_agree() {
    let mut table = frs(&[0; 8]);
    table[1] = fr(1);
    let poly = VirtualPolynomial {
        max_degree: 1,
        num_var: 3,
        products: vec![(fr(1), vec![0])],
        flattened_multilinear_poly: vec![Multilinear::new(table, 3)],
    };
    let mut prover = VirtualProver::prover_init(&poly).unwrap();
    let m1 = prover.prove_round_and_update_state(&None).unwrap();
    assert_eq!(m1.evaluations, frs(&[0, 1]));
    let m2 = prover.prove_round_and_update_state(&Some(fr(5))).unwrap();
    assert_eq!(m2.evaluations[0].add(&m2.evaluations[1]), fr(5));
    let m3 = prover.prove_round_and_update_state(&Some(fr(9))).unwrap();
    // m2 is the line through (0, 5) and (1, 0); at 9 it is 5 - 45
    assert_eq!(m3.evaluations[0].add(&m3.evaluations[1]), fr(5 - 45));
}
