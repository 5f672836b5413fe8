use zk_toolkit::composed::{ComposedMultilinear, ComposedVerifier};
use zk_toolkit::field::Fr;
use zk_toolkit::libra::{generate_igz, initialize_phase_1, initialize_phase_2, merge_sumcheck_proofs};
use zk_toolkit::multilinear::Multilinear;
use zk_toolkit::kzg::{MultilinearKZG, G1};
use zk_toolkit::product_check::{
    bit_decompose, generate_fractional_polynomial, generate_product_poly, get_index,
    perform_zero_check_protocol, project, ProductCheck, ProductCheckError, ProductCheckInterface,
    ProductCheckProof,
};
use zk_toolkit::transcript::FiatShamirTranscript;
use zk_toolkit::zero_check::{generate_eq_poly, ZeroCheck, ZeroCheckError, ZeroCheckInterface};

fn fr(x: i64) -> Fr {
    Fr::from_i64(x)
}

fn frs(xs: &[i64]) -> Vec<Fr> {
    xs.iter().map(|&x| fr(x)).collect()
}

#[test]
fn test_zero_check() {
    let zero_poly = ComposedMultilinear::new(vec![
        Multilinear::new(frs(&[0, 0]), 1),
        Multilinear::new(frs(&[0, 0]), 1),
    ]);
    let mut transcript = FiatShamirTranscript::default();
    let proof = ZeroCheck::prove(&zero_poly, &mut transcript).unwrap();
    let mut transcript_ = FiatShamirTranscript::default();
    let result = ZeroCheck::verify(&proof, &zero_poly, &mut transcript_).unwrap();
    assert!(result);
}

#[test]
fn test_zero_check_non_zero() {
    let zero_poly = ComposedMultilinear::new(vec![
        Multilinear::new(frs(&[1, 0]), 1),
        Multilinear::new(frs(&[1, 0]), 1),
    ]);
    let mut transcript = FiatShamirTranscript::default();
    let proof = ZeroCheck::prove(&zero_poly, &mut transcript).unwrap();
    let mut transcript_ = FiatShamirTranscript::default();
    assert!(ZeroCheck::verify(&proof, &zero_poly, &mut transcript_).is_err());
}

#[test]
fn test_zero_check_non_zero_with_forge() {
    let zero_poly = ComposedMultilinear::new(vec![Multilinear::new(frs(&[2, -2, -3, 3]), 2)]);
    let mut transcript = FiatShamirTranscript::default();
    let proof = ZeroCheck::prove(&zero_poly, &mut transcript).unwrap();
    let mut transcript_ = FiatShamirTranscript::default();
    assert!(ZeroCheck::verify(&proof, &zero_poly, &mut transcript_).is_err());
}

#[test]
fn test_product_check() {
    let f1 = Multilinear::new(frs(&[2, 2, 5, 5, 6, 9, 9, 14]), 3);
    let f2 = Multilinear::new(frs(&[12, 2, 5, 5, 16, 9, 19, 14]), 3);

    let mut g1 = f1.clone();
    let mut g2 = f2.clone();

    g1.evaluations.reverse();
    g2.evaluations.reverse();

    let poly_1 = ComposedMultilinear::new(vec![f1, f2]);
    let poly_2 = ComposedMultilinear::new(vec![g1, g2]);

    let test_fractional_poly = generate_fractional_polynomial(&poly_1, &poly_2);
    let product_poly = generate_product_poly(&test_fractional_poly);

    let alpha = fr(10);

    let mut transcript = FiatShamirTranscript::default();

    let (_zero_check_proof, _q_x) = perform_zero_check_protocol(
        &poly_1,
        &poly_2,
        &test_fractional_poly,
        &product_poly,
        &alpha,
        &mut transcript,
    )
    .unwrap();
}

// The root of the product tree of f / g is the product of all entries; with g
// a permutation of f that product is one.
#[test]
fn product_tree_root_is_total_product() {
    let f1 = Multilinear::new(frs(&[2, 2, 5, 5, 6, 9, 9, 14]), 3);
    let mut g1 = f1.clone();
    g1.evaluations.reverse();
    let poly_1 = ComposedMultilinear::new(vec![f1]);
    let poly_2 = ComposedMultilinear::new(vec![g1]);
    let frac = generate_fractional_polynomial(&poly_1, &poly_2);
    let tree = generate_product_poly(&frac);
    assert_eq!(tree.evaluations.len(), 8);
    assert_eq!(tree.evaluations[6], fr(1));
    assert_eq!(tree.evaluations[7], fr(0));
}

#[test]
fn fractional_polynomial_divides() {
    let f = Multilinear::new(frs(&[6, 10]), 1);
    let g = Multilinear::new(frs(&[3, 0]), 1);
    let frac = generate_fractional_polynomial(
        &ComposedMultilinear::new(vec![f]),
        &ComposedMultilinear::new(vec![g]),
    );
    assert_eq!(frac.evaluations, frs(&[2, 0]));
}

#[test]
fn product_tree_small() {
    let frac = Multilinear::new(frs(&[2, 3, 5, 7]), 2);
    let tree = generate_product_poly(&frac);
    assert_eq!(tree.evaluations, frs(&[6, 35, 210, 0]));
}

#[test]
fn index_helpers() {
    assert_eq!(bit_decompose(6, 4), vec![false, true, true, false]);
    assert_eq!(bit_decompose(5, 2), vec![true, false]);
    assert_eq!(project(&[true, false, true]), 5);
    assert_eq!(project(&[]), 0);
    assert_eq!(get_index(5, 3), (2, 3, true));
    assert_eq!(get_index(2, 3), (4, 5, false));
    assert_eq!(get_index(0, 1), (0, 1, false));
}

#[test]
fn test_merge_sumcheck_proofs() {
    let vec1 = vec![1u32, 2, 3];
    let vec2 = vec![4u32, 5, 6];
    let vec3 = vec![7u32, 8, 9];

    let vecs = vec![vec1, vec2, vec3];
    let merged = merge_sumcheck_proofs(vecs).unwrap();
    assert_eq!(merged, vec![12, 15, 18]);

    let empty_vecs: Vec<Vec<u32>> = vec![];
    assert!(merge_sumcheck_proofs(empty_vecs).is_none());

    let single_vec = vec![vec![10u32, 20, 30]];
    let merged_single = merge_sumcheck_proofs(single_vec).unwrap();
    assert_eq!(merged_single, vec![10, 20, 30]);

    let ragged = vec![vec![1u64, 2, 3], vec![4u64, 5]];
    assert_eq!(merge_sumcheck_proofs(ragged).unwrap(), vec![5, 7]);
}

#[test]
fn test_generate_igz() {
    let points = frs(&[2, 3]);
    let expected = frs(&[2, -3, -4, 6]);
    let igz_table = generate_igz(&points);
    assert_eq!(igz_table.len(), 4);
    assert_eq!(igz_table, expected);

    // I(w, w) = 1 at every boolean point w (`lemma_eq_at_own_point`).
    for w in [[0i64, 0], [1, 1], [0, 1], [1, 0]] {
        let w_point = frs(&w);
        let table = Multilinear::new(generate_igz(&w_point), 2);
        assert_eq!(table.evaluate(&w_point), Some(fr(1)));
    }
}

#[test]
fn eq_poly_matches_igz() {
    let r = frs(&[7, -1, 4]);
    let eq = generate_eq_poly(&r);
    assert_eq!(eq.num_vars, 3);
    assert_eq!(eq.evaluations, generate_igz(&r));
}

#[test]
fn libra_phase_tables() {
    // gates (z, x, y)
    let gates = vec![(0usize, 1usize, 0usize), (1, 1, 1), (0, 0, 1)];
    let f3 = frs(&[3, 5]);
    let igz = frs(&[2, 7]);
    let iuz = frs(&[11, 13]);
    // A(x=0) = igz[0] * f3[1] = 10; A(x=1) = igz[0] * f3[0] + igz[1] * f3[1] = 6 + 35
    assert_eq!(initialize_phase_1(&gates, &f3, &igz), frs(&[10, 41]));
    // B(y=0) = igz[0] * iuz[1] = 26; B(y=1) = igz[1] * iuz[1] + igz[0] * iuz[0] = 91 + 22
    assert_eq!(initialize_phase_2(&gates, &igz, &iuz), frs(&[26, 113]));
}

fn product_check_inputs() -> (ComposedMultilinear, ComposedMultilinear) {
    let f1 = Multilinear::new(frs(&[2, 2, 5, 5, 6, 9, 9, 14]), 3);
    let f2 = Multilinear::new(frs(&[12, 2, 5, 5, 16, 9, 19, 14]), 3);
    let mut g1 = f1.clone();
    let mut g2 = f2.clone();
    g1.evaluations.reverse();
    g2.evaluations.reverse();
    (ComposedMultilinear::new(vec![f1, f2]), ComposedMultilinear::new(vec![g1, g2]))
}

// The prover's fractional polynomial times the denominator is the numerator
// and its commitments are the multilinear commitments. The zero-check verifier
// checks the round polynomials against `q` itself rather than against `q`
// times the equality polynomial that the prover used, so a `q` that is not
// identically zero is refused.
#[test]
fn product_check_prove_and_verify() {
    let (poly_1, poly_2) = product_check_inputs();
    let srs = MultilinearKZG::generate_srs(&frs(&[5, 7, 11]));
    let mut transcript = FiatShamirTranscript::default();
    let (proof, product_poly, fractional_poly, q_x) =
        ProductCheck::prove(&poly_1, &poly_2, &srs, &mut transcript).unwrap();
    for i in 0..8 {
        let num = poly_1.polys[0].evaluations[i].mul(&poly_1.polys[1].evaluations[i]);
        let den = poly_2.polys[0].evaluations[i].mul(&poly_2.polys[1].evaluations[i]);
        assert_eq!(fractional_poly.evaluations[i].mul(&den), num);
    }
    assert_eq!(proof.fractional_poly_commitment, MultilinearKZG::commit(&srs, &fractional_poly));
    assert_eq!(proof.product_poly_commitment, MultilinearKZG::commit(&srs, &product_poly));
    let mut transcript_ = FiatShamirTranscript::default();
    let r = ProductCheck::verify(&proof, &q_x, &mut transcript_);
    assert!(matches!(
        r,
        Err(ProductCheckError::ZeroCheck(ZeroCheckError::VerificationFailed))
    ));
}

// With a product check whose `q` vanishes, the verifier accepts and gives the
// query (1, ..., 1, 0) with the value one.
#[test]
fn product_check_verify_accepts_vanishing_q() {
    let zero = ComposedMultilinear::new(vec![
        Multilinear::new(frs(&[0, 0, 0, 0]), 2),
        Multilinear::new(frs(&[0, 0, 0, 0]), 2),
    ]);
    let srs = MultilinearKZG::generate_srs(&frs(&[5, 7]));
    let mut transcript = FiatShamirTranscript::default();
    let zero_check_proof = ZeroCheck::prove(&zero, &mut transcript).unwrap();
    let commitment = MultilinearKZG::commit(&srs, &zero.polys[0]);
    let proof = ProductCheckProof {
        zero_check_proof,
        product_poly_commitment: MultilinearKZG::commit(&srs, &zero.polys[1]),
        fractional_poly_commitment: commitment,
    };
    let mut transcript_ = FiatShamirTranscript::default();
    let (final_query, final_eval, _alpha) =
        ProductCheck::verify(&proof, &zero, &mut transcript_).unwrap();
    assert_eq!(final_query, frs(&[1, 0]));
    assert_eq!(final_eval, fr(1));
}

#[test]
fn product_check_refuses_different_lengths() {
    let (poly_1, _) = product_check_inputs();
    let single = ComposedMultilinear::new(vec![Multilinear::new(frs(&[1, 2, 3, 4, 5, 6, 7, 8]), 3)]);
    let srs = MultilinearKZG::generate_srs(&frs(&[5, 7, 11]));
    let mut transcript = FiatShamirTranscript::default();
    let r = ProductCheck::prove(&poly_1, &single, &srs, &mut transcript);
    assert!(matches!(r, Err(ProductCheckError::LengthMismatch)));
}

#[test]
fn commitment_text_is_affine_coordinates() {
    let zero = G1::generator_mul(&fr(0));
    assert_eq!(zero.display_bytes(), b"infinity".to_vec());
    let g = G1::generator_mul(&fr(1));
    let text = String::from_utf8(g.display_bytes()).unwrap();
    assert!(text.starts_with('(') && text.ends_with(')') && text.contains(", "));
}

#[test]
fn zero_check_proof_is_a_sum_check_of_the_weighted_product() {
    // The product vanishes on the hypercube although neither factor does.
    let poly = ComposedMultilinear::new(vec![
        Multilinear::new(frs(&[1, 0, 3, 0]), 2),
        Multilinear::new(frs(&[0, 5, 0, 7]), 2),
    ]);
    let mut transcript = FiatShamirTranscript::default();
    let proof = ZeroCheck::prove(&poly, &mut transcript).unwrap();
    assert_eq!(proof.sum, fr(0));

    let mut replay = FiatShamirTranscript::default();
    let r = replay.sample_n_as_field_elements(2);
    let weighted = poly.mul_by_mle(&generate_eq_poly(&r));
    assert!(ComposedVerifier::verify(&proof, &weighted, &mut replay));
}

#[test]
fn bit_decompose_of_project_gives_the_bits_back() {
    let bits = vec![true, false, true, true, false, false, true];
    assert_eq!(bit_decompose(project(&bits), bits.len()), bits);
    let all: Vec<bool> = (0..64).map(|i| i % 3 == 0).collect();
    assert_eq!(bit_decompose(project(&all), 64), all);
}

#[test]
fn merge_sumcheck_proofs_of_field_elements() {
    let merged = merge_sumcheck_proofs(vec![frs(&[1, 2]), frs(&[3, 4])]).unwrap();
    assert_eq!(merged, frs(&[4, 6]));
    let proofs = vec![frs(&[1, 2]), frs(&[3, 4]), frs(&[-4, 10])];
    assert_eq!(merge_sumcheck_proofs(proofs).unwrap(), frs(&[0, 16]));
}
