use zk_toolkit::field::Fr;
use zk_toolkit::kzg::{
    bh_to_g1_srs, boolean_hypercube, generate_powers_of_tau_g1, g2_operation, perform_zero_and_one_check,
    BatchKZGUnivariateInterface, KZGUnivariateInterface, MultilinearKZG, UnivariateKZG, G1, G2,
};
use zk_toolkit::multilinear::Multilinear;
use zk_toolkit::univariate::UnivariantPolynomial;

fn fr(x: i64) -> Fr {
    Fr::from_i64(x)
}

fn frs(xs: &[i64]) -> Vec<Fr> {
    xs.iter().map(|&x| fr(x)).collect()
}

fn generator_operation(oprands: &[Fr]) -> Vec<G1> {
    oprands.iter().map(|x| G1::generator_mul(x)).collect()
}

#[test]
fn test_perform_zero_and_one_check() {
    let object = frs(&[2, 4]);

    let pattern_1 = frs(&[0, 0]);
    let pattern_2 = frs(&[0, 1]);
    let pattern_3 = frs(&[1, 0]);
    let pattern_4 = frs(&[1, 1]);

    let result_1 = perform_zero_and_one_check(&pattern_1, &object);
    let result_2 = perform_zero_and_one_check(&pattern_2, &object);
    let result_3 = perform_zero_and_one_check(&pattern_3, &object);
    let result_4 = perform_zero_and_one_check(&pattern_4, &object);

    assert_eq!(result_1, fr(3));
    assert_eq!(result_2, fr(-4));
    assert_eq!(result_3, fr(-6));
    assert_eq!(result_4, fr(8));
}

#[test]
fn test_bh_to_g1_srs() {
    let object = frs(&[2, 4]);
    let bh = vec![frs(&[0, 0]), frs(&[0, 1]), frs(&[1, 0]), frs(&[1, 1])];

    let srs = bh_to_g1_srs(&bh, &object);

    assert_eq!(srs.len(), 4);
    assert_eq!(srs, generator_operation(&frs(&[3, -4, -6, 8])));
}

#[test]
fn boolean_hypercube_order() {
    let bh = boolean_hypercube(2);
    assert_eq!(bh, vec![frs(&[0, 0]), frs(&[0, 1]), frs(&[1, 0]), frs(&[1, 1])]);
    assert_eq!(boolean_hypercube(0), vec![Vec::<Fr>::new()]);
}

#[test]
fn test_multilinear_kzg() {}

#[test]
fn test_multilinear_kzg_commit_one_variable_poly() {
    let srs = MultilinearKZG::generate_srs(&frs(&[5]));
    let poly = Multilinear::new(frs(&[5, 7]), 1);
    let commitment = MultilinearKZG::commit(&srs, &poly);

    let expected_commitment = G1::generator_mul(&fr(15));

    assert_eq!(commitment, expected_commitment);
}

#[test]
fn test_multilinear_kzg_commit_two_variable_poly() {
    let srs = MultilinearKZG::generate_srs(&frs(&[5, 7]));
    let poly = Multilinear::new(frs(&[3, 3, 7, 10]), 2);
    let commitment = MultilinearKZG::commit(&srs, &poly);

    let expected_commitment = G1::generator_mul(&fr(128));

    assert_eq!(commitment, expected_commitment);
}

#[test]
fn test_univariate_kzg() {
    let tau = fr(10);
    let poly_degree = 4;
    let srs = UnivariateKZG::generate_srs(&tau, poly_degree);

    let poly = UnivariantPolynomial::new(frs(&[1, 2, 3, 4, 5]));
    let commitment = UnivariateKZG::commit(&srs, &poly);
    let (point_evaluation, proof) = UnivariateKZG::open(&srs, &poly, &fr(2));
    let is_valid = <UnivariateKZG as KZGUnivariateInterface>::verify(&srs, &commitment, &fr(2), &point_evaluation, &proof);

    assert!(is_valid);
}

#[test]
fn test_univariate_kzg_invalid_opening() {
    let tau = fr(10);
    let poly_degree = 4;
    let srs = UnivariateKZG::generate_srs(&tau, poly_degree);

    let poly = UnivariantPolynomial::new(frs(&[1, 2, 3, 4, 5]));
    let commitment = UnivariateKZG::commit(&srs, &poly);
    let (point_evaluation, proof) = UnivariateKZG::open(&srs, &poly, &fr(2));
    let is_valid = <UnivariateKZG as KZGUnivariateInterface>::verify(&srs, &commitment, &fr(4), &point_evaluation, &proof);

    assert_eq!(is_valid, false);
}

// The commitment is `[p(tau)]_1`: with tau = 10, 1 + 2x + 3x^2 is 321.
#[test]
fn univariate_commitment_is_value_at_tau() {
    let srs = UnivariateKZG::generate_srs(&fr(10), 2);
    let poly = UnivariantPolynomial::new(frs(&[1, 2, 3]));
    assert_eq!(UnivariateKZG::commit(&srs, &poly), G1::generator_mul(&fr(321)));
}

// The opening's quotient q satisfies p(x) - p(z) = (x - z) q(x): with
// p = 1 + 2x + 3x^2 and z = 2, q = 8 + 3x, committed at tau = 10 as 38.
#[test]
fn univariate_opening_commits_to_quotient() {
    let srs = UnivariateKZG::generate_srs(&fr(10), 2);
    let poly = UnivariantPolynomial::new(frs(&[1, 2, 3]));
    let (v, proof) = UnivariateKZG::open(&srs, &poly, &fr(2));
    assert_eq!(v, fr(17));
    assert_eq!(proof, G1::generator_mul(&fr(38)));
}

#[test]
fn powers_of_tau_and_g2_operation() {
    let powers = generate_powers_of_tau_g1(&fr(3), 2);
    assert_eq!(powers, generator_operation(&frs(&[1, 3, 9])));
    let g2s = g2_operation(&frs(&[4, 5]));
    assert_eq!(g2s[0], G2::generator_mul(&fr(4)));
    assert_eq!(g2s.len(), 2);
}

#[test]
fn group_operations() {
    let a = G1::generator_mul(&fr(6));
    let b = G1::generator_mul(&fr(4));
    assert_eq!(a.add(&b), G1::generator_mul(&fr(10)));
    assert_eq!(a.sub(&b), G1::generator_mul(&fr(2)));
    assert_eq!(b.mul(&fr(3)), G1::generator_mul(&fr(12)));
    assert_eq!(a.to_bytes().len(), 48);
}

// p = (x - 2)(x - 3)(1 + x) + (7 + 2x): opened at 2 and 3 to 11 and 13, the
// quotient by the vanishing polynomial is 1 + x.
#[test]
fn batch_verify_accepts_matching_quotient() {
    let srs = UnivariateKZG::generate_srs(&fr(10), 4);
    let poly = UnivariantPolynomial::new(frs(&[13, 3, -4, 1]));
    let commitment = UnivariateKZG::commit(&srs, &poly);
    let quotient = UnivariantPolynomial::new(frs(&[1, 1]));
    let proof = UnivariateKZG::commit(&srs, &quotient);
    let points = frs(&[2, 3]);
    let values = frs(&[11, 13]);
    assert!(<UnivariateKZG as BatchKZGUnivariateInterface>::verify(
        &srs,
        &commitment,
        &points,
        &values,
        &proof
    ));
    let wrong_values = frs(&[11, 14]);
    assert!(!<UnivariateKZG as BatchKZGUnivariateInterface>::verify(
        &srs,
        &commitment,
        &points,
        &wrong_values,
        &proof
    ));
    let g2 = G2::generator_mul(&fr(3));
    assert_eq!(g2.add(&G2::generator_mul(&fr(4))), G2::generator_mul(&fr(7)));
    assert_eq!(g2.mul(&fr(5)), G2::generator_mul(&fr(15)));
}
