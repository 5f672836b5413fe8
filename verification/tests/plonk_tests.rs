use zk_toolkit::field::Fr;
use zk_toolkit::kzg::G1;
use zk_toolkit::plonk_core::{
    PlonkProof, PlonkSRS, RoundFiveOutput, RoundFourOutput, RoundOneOutput, RoundThreeOutput,
    RoundTwoOutput,
};
use zk_toolkit::transcript::FiatShamirTranscript;
use zk_toolkit::univariate::UnivariantPolynomial;

fn fr(x: i64) -> Fr {
    Fr::from_i64(x)
}

fn frs(xs: &[i64]) -> Vec<Fr> {
    xs.iter().map(|&x| fr(x)).collect()
}

fn point(s: i64) -> G1 {
    G1::generator_mul(&fr(s))
}

#[test]
fn field_element_texts() {
    assert_eq!(fr(12345).display_bytes(), b"12345".to_vec());
    assert_eq!(fr(0).display_bytes(), Vec::<u8>::new());
    assert_eq!(fr(7).debug_bytes(), b"BigInt([7, 0, 0, 0])".to_vec());
    let big = Fr::from_u128(1u128 << 64);
    assert_eq!(big.debug_bytes(), b"BigInt([0, 1, 0, 0])".to_vec());
}

#[test]
fn polynomial_text() {
    let p = UnivariantPolynomial::new(frs(&[1, 2, 3]));
    assert_eq!(
        p.display_bytes(),
        b"BigInt([1, 0, 0, 0]) + BigInt([2, 0, 0, 0])x^1 + BigInt([3, 0, 0, 0])x^2".to_vec()
    );
    assert_eq!(UnivariantPolynomial::zero().display_bytes(), Vec::<u8>::new());
}

#[test]
fn round_outputs_to_bytes() {
    let one = RoundOneOutput::new(
        point(0),
        point(0),
        point(0),
        UnivariantPolynomial::zero(),
        UnivariantPolynomial::zero(),
        UnivariantPolynomial::zero(),
    );
    assert_eq!(one.to_bytes(), b"infinityinfinityinfinity".to_vec());
    let two = RoundTwoOutput::new(point(0), fr(1), fr(2), UnivariantPolynomial::zero());
    assert_eq!(two.to_bytes(), b"infinity".to_vec());
    let three = RoundThreeOutput {
        t_lo_commitment: point(1),
        t_mid_commitment: point(2),
        t_hi_commitment: point(0),
        w_accumulator_poly: UnivariantPolynomial::zero(),
        t_lo_poly: UnivariantPolynomial::new(frs(&[4])),
        t_mid_poly: UnivariantPolynomial::zero(),
        t_hi_poly: UnivariantPolynomial::new(frs(&[5])),
        alpha: fr(0),
    };
    let mut expected = point(1).display_bytes();
    expected.extend(point(2).display_bytes());
    expected.extend(b"infinity".to_vec());
    assert_eq!(three.to_bytes(), expected);
    let four = RoundFourOutput {
        a_x_ploy_zeta: fr(12),
        b_x_ploy_zeta: fr(0),
        c_x_ploy_zeta: fr(345),
        w_accumulator_poly_zeta: fr(0),
        s1_poly_zeta: fr(0),
        s2_poly_zeta: fr(0),
        zeta: fr(0),
    };
    assert_eq!(four.to_bytes(), b"12345".to_vec());
    let five = RoundFiveOutput {
        W_zeta_poly_commitment: point(0),
        W_zeta_w_poly_commitment: point(2),
        mu: fr(0),
    };
    let mut expected = b"infinity".to_vec();
    expected.extend(point(2).display_bytes());
    assert_eq!(five.to_bytes(), expected);
}

#[test]
fn transcript_challenges_replay() {
    let proof = PlonkProof {
        a_poly_commitment: point(1),
        b_poly_commitment: point(2),
        c_poly_commitment: point(3),
        accumulator_poly_commitment: point(4),
        t_lo_poly_commitment: point(5),
        t_mid_poly_commitment: point(6),
        t_hi_poly_commitment: point(7),
        W_zeta_poly_commitment: point(8),
        W_zeta_w_poly_commitment: point(9),
        a_x_zeta: fr(10),
        b_x_zeta: fr(11),
        c_x_zeta: fr(12),
        w_accumulator_poly_zeta: fr(13),
        s1_poly_zeta: fr(14),
        s2_poly_zeta: fr(15),
    };
    let (beta, gamma, alpha, zeta, vinculum, mu) = proof.output_transcript_challenges();

    let mut t = FiatShamirTranscript::new(b"plonk-protocol".to_vec());
    let mut one = point(1).display_bytes();
    one.extend(point(2).display_bytes());
    one.extend(point(3).display_bytes());
    t.append_with_label("round_one_output", &one);
    let bg = t.sample_n_as_field_elements(2);
    t.append_with_label("round_two_output", &point(4).display_bytes());
    let a = t.sample_as_field_element();
    let mut three = point(5).display_bytes();
    three.extend(point(6).display_bytes());
    three.extend(point(7).display_bytes());
    t.append_with_label("round_three_output", &three);
    let z = t.sample_as_field_element();
    t.append_with_label("round_four_output", b"101112");
    let v = t.sample_as_field_element();
    let m = t.sample_as_field_element();
    assert_eq!((beta, gamma, alpha, zeta, vinculum, mu), (bg[0], bg[1], a, z, v, m));
    assert_ne!(beta, gamma);
}

#[test]
fn plonk_srs_setup() {
    let base = PlonkSRS::new(vec![], vec![]);
    let srs = base.run_setup(fr(10), 2);
    assert_eq!(srs.g1_power_of_taus.len(), 3);
    assert_eq!(srs.g1_power_of_taus[2], point(100));
    assert_eq!(srs.g2_power_of_tau.len(), 3);
}
