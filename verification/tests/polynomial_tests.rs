use zk_toolkit::composed::ComposedMultilinear;
use zk_toolkit::evaluation::{bitreverse, split_odd_even, Domain, UnivariateEval};
use zk_toolkit::fft::serial_fft;
use zk_toolkit::field::Fr;
use zk_toolkit::multilinear::{
    multilinear_evalutation_equation, round_pairing_index, round_pairing_index_ext, Multilinear,
};
use zk_toolkit::multivariate::Multivariate;
use zk_toolkit::univariate::{generate_vanishing_polynomial, UnivariantPolynomial};

fn fr(x: i64) -> Fr {
    Fr::from_i64(x)
}

fn frs(xs: &[i64]) -> Vec<Fr> {
    xs.iter().map(|&x| fr(x)).collect()
}

#[test]
fn test_partial_evaluation() {
    let evaluations = frs(&[3, 1, 2, 5]);
    let num_vars = 2;
    let polynomial = Multilinear::new(evaluations, num_vars);

    let evaluation_point = fr(5);
    let new_polynomial = polynomial.partial_evaluation(evaluation_point, 0);

    let expected_evaluations = frs(&[-2, 21]);
    assert_eq!(new_polynomial.evaluations, expected_evaluations);
    assert_eq!(new_polynomial.num_vars, 1);
}

#[test]
fn test_evaluate() {
    let evaluations = frs(&[3, 1, 2, 5]);
    let num_vars = 2;
    let polynomial = Multilinear::new(evaluations, num_vars);

    let point = frs(&[5, 6]);
    let eval_result = polynomial.evaluate(&point);

    assert_eq!(eval_result, Some(fr(136)));
}

#[test]
fn test_partial_evaluation_2() {
    let evaluations = frs(&[3, 9, 7, 13, 6, 12, 10, 18]);
    let num_vars = 3;
    // 2xyz + 3x + 4y + 6z + 3
    let polynomial = Multilinear::new(evaluations, num_vars);

    let point = frs(&[2, 3, 1]);
    let eval_result = polynomial.evaluate(&point);
    assert_eq!(eval_result, Some(fr(39)));

    let new_polynomial_eval = polynomial.partial_evaluations(frs(&[2, 3, 1]), vec![0, 0, 0]);
    let x_eval_result = new_polynomial_eval.evaluations[0];
    assert_eq!(x_eval_result, fr(39));

    // f(2,y,z) = 4yz + 4y + 6z + 9 at y = 3, z = 2 is 57
    let new_polynomial_x_1 = polynomial.partial_evaluation(fr(2), 0);
    let x_1_eval_result = new_polynomial_x_1.evaluate(&frs(&[3, 2]));
    assert_eq!(x_1_eval_result, Some(fr(57)));

    // f(x,3,z) = 6xz + 3x + 6z + 15 at x = 3, z = 2 is 72
    let new_polynomial_y_1 = polynomial.partial_evaluation(fr(3), 1);
    let y_1_eval_result = new_polynomial_y_1.evaluate(&frs(&[3, 2]));
    assert_eq!(y_1_eval_result, Some(fr(72)));

    // f(x,y,1) = 2xy + 3x + 4y + 9 at x = 3, y = 2 is 38
    let new_polynomial_z_1 = polynomial.partial_evaluation(fr(1), 2);
    let z_1_eval_result = new_polynomial_z_1.evaluate(&frs(&[3, 2]));
    assert_eq!(z_1_eval_result, Some(fr(38)));

    // f(2,3,z) = 18z + 21 at z = 3 is 75
    let new_polynomial_x_y = polynomial.partial_evaluations(frs(&[2, 3]), vec![0, 0]);
    let x_y_eval_result = new_polynomial_x_y.evaluate(&frs(&[3]));
    assert_eq!(x_y_eval_result, Some(fr(75)));

    // f(2,y,1) = 8y + 15 at y = 3 is 39
    let new_polynomial_x_z = polynomial.partial_evaluations(frs(&[2, 1]), vec![0, 1]);
    let x_z_eval_result = new_polynomial_x_z.evaluate(&frs(&[3]));
    assert_eq!(x_z_eval_result, Some(fr(39)));

    // f(x,3,1) = 9x + 21 at x = 3 is 48
    let new_polynomial_y_z = polynomial.partial_evaluations(frs(&[3, 1]), vec![1, 1]);
    let y_z_eval_result = new_polynomial_y_z.evaluate(&frs(&[3]));
    assert_eq!(y_z_eval_result, Some(fr(48)));
}

#[test]
fn test_extend_with_new_variables() {
    // 2xy + 4x + 2y + 5
    let poly = Multilinear::new(frs(&[5, 7, 9, 13]), 2);
    let new_poly = poly.extend_with_new_variables(1);
    let resulting_evaluations = frs(&[5, 5, 7, 7, 9, 9, 13, 13]);

    assert_eq!(new_poly.num_vars, 3);
    assert_eq!(new_poly.evaluations, resulting_evaluations);
}

#[test]
fn test_extend_with_new_variables_0() {
    // 2xy + 4x + 2y + 5
    let poly = Multilinear::new(frs(&[5, 7, 9, 13]), 2);
    let new_poly = poly.extend_with_new_variables(2);
    let resulting_evaluations =
        frs(&[5, 5, 5, 5, 7, 7, 7, 7, 9, 9, 9, 9, 13, 13, 13, 13]);

    assert_eq!(new_poly.num_vars, 4);
    assert_eq!(new_poly.evaluations, resulting_evaluations);
}

#[test]
fn test_add_distinct() {
    // f(a, b, c) = 2a + 3ab + c + 4
    let poly_1 = Multilinear::new(frs(&[4, 5, 4, 5, 6, 7, 9, 10]), 3);
    // f(x) = 2x + 9
    let poly_2 = Multilinear::new(frs(&[9, 11]), 1);

    let result = poly_1.add_distinct(&poly_2);
    let resulting_evaluations =
        frs(&[13, 15, 14, 16, 13, 15, 14, 16, 15, 17, 16, 18, 18, 20, 19, 21]);

    assert_eq!(result.num_vars, 4);
    assert_eq!(result.evaluations, resulting_evaluations);
}

#[test]
fn test_add_distinct_0() {
    // f(a, b, c) = 2a + 3ab + c + 4

    // f(x,y) = 4xy + 3x + 4y + 3
}

#[test]
fn test_mul_distinct() {
    // f(a, b, c) = 2a + 3ab + c + 4
    let poly_1 = Multilinear::new(frs(&[4, 5, 4, 5, 6, 7, 9, 10]), 3);
    // f(x) = 2x + 9
    let poly_2 = Multilinear::new(frs(&[9, 11]), 1);

    let result = poly_1.mul_distinct(&poly_2);
    let resulting_evaluations =
        frs(&[36, 44, 45, 55, 36, 44, 45, 55, 54, 66, 63, 77, 81, 99, 90, 110]);

    assert_eq!(result.num_vars, 4);
    assert_eq!(result.evaluations, resulting_evaluations);
}

#[test]
fn test_interpolate() {
    let y_s = frs(&[1, 2, 3]);
    let result = Multilinear::interpolate(&y_s);
    let expected = Multilinear::new(frs(&[1, 2, 3, 0]), 2);

    assert_eq!(expected, result);

    assert_eq!(result.evaluate(&frs(&[0, 0])).unwrap(), fr(1));
    assert_eq!(result.evaluate(&frs(&[0, 1])).unwrap(), fr(2));
    assert_eq!(result.evaluate(&frs(&[1, 0])).unwrap(), fr(3));
    assert_eq!(result.evaluate(&frs(&[1, 1])).unwrap(), fr(0));
}

#[test]
fn test_interpolate_1() {
    let y_s = frs(&[2, 4, 6, 8, 10]);
    let result = Multilinear::interpolate(&y_s);
    let expected = Multilinear::new(frs(&[2, 4, 6, 8, 10, 0, 0, 0]), 3);

    assert_eq!(expected, result);

    assert_eq!(result.evaluate(&frs(&[0, 0, 0])).unwrap(), fr(2));
    assert_eq!(result.evaluate(&frs(&[0, 0, 1])).unwrap(), fr(4));
    assert_eq!(result.evaluate(&frs(&[0, 1, 0])).unwrap(), fr(6));
    assert_eq!(result.evaluate(&frs(&[0, 1, 1])).unwrap(), fr(8));
    assert_eq!(result.evaluate(&frs(&[1, 0, 0])).unwrap(), fr(10));
    assert_eq!(result.evaluate(&frs(&[1, 0, 1])).unwrap(), fr(0));
    assert_eq!(result.evaluate(&frs(&[1, 1, 0])).unwrap(), fr(0));
    assert_eq!(result.evaluate(&frs(&[1, 1, 1])).unwrap(), fr(0));
}

#[test]
fn test_multilinear_evalutation_equation() {
    let x = fr(5);
    let y_1 = fr(3);
    let y_2 = fr(2);

    assert_eq!(multilinear_evalutation_equation(&x, &y_1, &y_2), fr(-2));
}

#[test]
fn test_round_pairing_index() {
    let len = 4;
    let result = round_pairing_index(len, 0);
    assert_eq!(result, vec![(0, 2), (1, 3)]);
}

#[test]
fn test_round_pairing_index_ext_0() {
    let result = round_pairing_index_ext(8, 0);
    assert_eq!(result, vec![(0, 4), (1, 5), (2, 6), (3, 7)]);
}

#[test]
fn test_round_pairing_index_ext_1() {
    let result = round_pairing_index_ext(8, 1);
    assert_eq!(result, vec![(0, 2), (1, 3), (4, 6), (5, 7)]);
}

#[test]
fn test_round_pairing_index_ext_2() {
    let result = round_pairing_index_ext(8, 2);
    assert_eq!(result, vec![(0, 1), (2, 3), (4, 5), (6, 7)]);
}

#[test]
fn test_round_pairing_index_ext_16_0() {
    let result = round_pairing_index_ext(16, 0);
    assert_eq!(
        result,
        vec![(0, 8), (1, 9), (2, 10), (3, 11), (4, 12), (5, 13), (6, 14), (7, 15)]
    );
}

#[test]
fn test_round_pairing_index_ext_16_1() {
    let result = round_pairing_index_ext(16, 1);
    assert_eq!(
        result,
        vec![(0, 4), (1, 5), (2, 6), (3, 7), (8, 12), (9, 13), (10, 14), (11, 15)]
    );
}

#[test]
fn test_round_pairing_index_ext_16_2() {
    let result = round_pairing_index_ext(16, 2);
    assert_eq!(
        result,
        vec![(0, 2), (1, 3), (4, 6), (5, 7), (8, 10), (9, 11), (12, 14), (13, 15)]
    );
}

#[test]
fn test_round_pairing_index_ext_16_3() {
    let result = round_pairing_index_ext(16, 3);
    assert_eq!(
        result,
        vec![(0, 1), (2, 3), (4, 5), (6, 7), (8, 9), (10, 11), (12, 13), (14, 15)]
    );
}

#[test]
fn test_evaluation() {
    let poly1 = Multilinear::new(frs(&[0, 1, 2, 3]), 2);
    let poly2 = Multilinear::new(frs(&[0, 0, 0, 1]), 2);

    let composed = ComposedMultilinear::new(vec![poly1, poly2]);

    let eval = composed.evaluate(&frs(&[2, 3]));
    assert_eq!(eval, Some(fr(42)));
}

#[test]
fn test_generate_vanishing_polynomial() {
    let data = frs(&[2, 4]);
    let v_poly = generate_vanishing_polynomial(&data);

    assert_eq!(v_poly.coefficients, frs(&[8, -6, 1]));
}

// Evaluation at a boolean point reads the table: the law behind
// `lemma_eval_on_hypercube`.
#[test]
fn multilinear_evaluates_table_on_hypercube() {
    let poly = Multilinear::new(frs(&[3, 9, 7, 13, 6, 12, 10, 18]), 3);
    for b in 0..8i64 {
        let point = frs(&[(b >> 2) & 1, (b >> 1) & 1, b & 1]);
        assert_eq!(poly.evaluate(&point), Some(poly.evaluations[b as usize]));
    }
}

// Evaluation of a sum is the sum of evaluations (`lemma_evaluate_add`).
#[test]
fn multilinear_evaluation_is_additive() {
    let a = Multilinear::new(frs(&[3, 1, 2, 5]), 2);
    let b = Multilinear::new(frs(&[7, -4, 0, 11]), 2);
    let point = frs(&[9, -2]);
    let sum = a.add(&b);
    let lhs = sum.evaluate(&point).unwrap();
    let rhs = a.evaluate(&point).unwrap().add(&b.evaluate(&point).unwrap());
    assert_eq!(lhs, rhs);
}

#[test]
fn multilinear_evaluate_empty_point_is_none() {
    let poly = Multilinear::new(frs(&[3, 1, 2, 5]), 2);
    assert_eq!(poly.evaluate(&vec![]), None);
}

#[test]
fn multilinear_zero_and_bytes() {
    let z = Multilinear::zero(2);
    assert!(z.is_zero());
    assert_eq!(z.evaluations.len(), 4);
    let p = Multilinear::new(frs(&[0, 0, 1, 0]), 2);
    assert!(!p.is_zero());
    let bytes = p.to_bytes();
    assert_eq!(bytes.len(), 128);
    assert_eq!(bytes[95], 1);
    assert!(bytes.iter().enumerate().all(|(i, b)| i == 95 || *b == 0));
}

// Interpolation passes through every point (law of `UnivariantPolynomial::interpolate`).
#[test]
fn univariate_interpolation_passes_through_points() {
    let xs = frs(&[1, 5, 3]);
    let ys = frs(&[9, 113, 45]);
    let p = UnivariantPolynomial::interpolate(ys.clone(), xs.clone());
    for i in 0..3 {
        assert_eq!(p.evaluate(&xs[i]), ys[i]);
    }
    // 3 + 2x + 4x^2
    assert_eq!(p.coefficients, frs(&[3, 2, 4]));
}

#[test]
fn univariate_evaluate_horner() {
    // 1 + 3x + 2x^2 at 2 is 15
    let p = UnivariantPolynomial::new(frs(&[1, 3, 2]));
    assert_eq!(p.evaluate(&fr(2)), fr(15));
    assert_eq!(p.degree(), 2);
}

// (a + b)(x) = a(x) + b(x) and (a * b)(x) = a(x) b(x) (`lemma_eval_add`, `lemma_eval_mul`).
#[test]
fn univariate_add_and_mul_evaluate_pointwise() {
    let a = UnivariantPolynomial::new(frs(&[1, 3, 2]));
    let b = UnivariantPolynomial::new(frs(&[-5, 7]));
    let x = fr(11);
    assert_eq!(a.add(&b).evaluate(&x), a.evaluate(&x).add(&b.evaluate(&x)));
    assert_eq!(a.mul(&b).evaluate(&x), a.evaluate(&x).mul(&b.evaluate(&x)));
    assert_eq!(a.add(&b).coefficients, frs(&[-4, 10, 2]));
}

#[test]
fn split_and_bitreverse() {
    let v = frs(&[1, 2, 3, 4, 5]);
    let (e, o) = split_odd_even(&v);
    assert_eq!(e, frs(&[1, 3, 5]));
    assert_eq!(o, frs(&[2, 4]));
    assert_eq!(bitreverse(1, 3), 4);
    assert_eq!(bitreverse(6, 3), 3);
    assert_eq!(bitreverse(0b1011, 4), 0b1101);
}

#[test]
fn multivariate_basics() {
    let m = Multivariate::new(frs(&[0, 0, 0, 0, 0, 0, 0, 0, 0]), 2, 3);
    assert!(m.is_zero());
    assert_eq!(m.to_bytes().len(), 9 * 32);
    let n = Multivariate::new(frs(&[0, 1, 0, 0]), 2, 2);
    assert!(!n.is_zero());
}

#[test]
fn add_of_two_numbers() {
    assert_eq!(zk_toolkit::add(2, 2), 4);
}

// Two entries: the butterfly gives (a + b, a - b).
#[test]
fn serial_fft_two_entries() {
    let mut list = frs(&[3, 5]);
    serial_fft(&mut list, fr(-1), 1);
    assert_eq!(list, frs(&[8, -2]));
}

// At a root of unity of order 8 the transform gives the values of the
// polynomial at the powers of the root.
#[test]
fn serial_fft_evaluates_at_powers_of_a_root() {
    let coeffs = frs(&[1, 2, 3, 4, 5, 6, 7, 8]);
    let w = Fr::get_root_of_unity(8).unwrap();
    let mut list = coeffs.clone();
    serial_fft(&mut list, w, 3);
    let poly = UnivariantPolynomial::new(coeffs);
    for j in 0..8u64 {
        assert_eq!(list[j as usize], poly.evaluate(&w.pow(j)));
    }
}

// With an arbitrary root the stages still follow the recursion: for four
// entries and root 2, (c0 + c2) + 2 (c1 + c3) leads.
#[test]
fn serial_fft_four_entries_any_root() {
    let mut list = frs(&[1, 2, 3, 4]);
    serial_fft(&mut list, fr(2), 2);
    // evens (1, 3) with root 4: (4, -2); odds (2, 4) with root 4: (6, -2)
    // y0 = 4 + 6, y1 = -2 + 2 * -2, y2 = 4 - 6, y3 = -2 - 2 * -2
    assert_eq!(list, frs(&[10, -6, -2, 2]));
}

// A polynomial of degree two is given back by interpolating three of its values.
#[test]
fn interpolation_gives_back_a_low_degree_polynomial() {
    let q = UnivariantPolynomial::new(frs(&[7, -3, 2]));
    let xs = frs(&[1, 4, 9]);
    let ys: Vec<Fr> = xs.iter().map(|x| q.evaluate(x)).collect();
    let p = UnivariantPolynomial::interpolate(ys, xs);
    assert_eq!(p.coefficients, q.coefficients);
    for x in [0i64, 5, 100, -42] {
        assert_eq!(p.evaluate(&fr(x)), q.evaluate(&fr(x)));
    }
}

// `add_distinct` seen through `evaluate`: (f + g)(p, q) = f(p) + g(q).
#[test]
fn add_distinct_evaluates_to_the_sum() {
    let f = Multilinear::new(frs(&[1, 2]), 1);
    let g = Multilinear::new(frs(&[3, 5, 7, 11]), 2);
    let h = f.add_distinct(&g);
    let p = frs(&[4]);
    let q = frs(&[2, 9]);
    let mut pq = p.clone();
    pq.extend(q.iter().cloned());
    let expected = f.evaluate(&p).unwrap().add(&g.evaluate(&q).unwrap());
    assert_eq!(h.evaluate(&pq), Some(expected));
}

// Fixing any variable and evaluating is evaluating with the value put in place.
#[test]
fn partial_evaluation_of_a_middle_variable_through_evaluate() {
    let e = Multilinear::new(frs(&[3, 1, 4, 1, 5, 9, 2, 6]), 3);
    let fixed = e.partial_evaluation(fr(3), 1);
    assert_eq!(fixed.evaluate(&frs(&[2, 5])), e.evaluate(&frs(&[2, 3, 5])));
    let fixed_last = e.partial_evaluation(fr(7), 2);
    assert_eq!(fixed_last.evaluate(&frs(&[4, 6])), e.evaluate(&frs(&[4, 6, 7])));
}

#[test]
fn roots_of_unity_exist_for_the_supported_sizes() {
    assert!(Fr::get_root_of_unity(1).is_some());
    assert!(Fr::get_root_of_unity(8).is_some());
    assert!(Fr::get_root_of_unity(3 * 8).is_some());
    assert!(Fr::get_root_of_unity(1u64 << 32).is_some());
    assert!(Fr::get_root_of_unity(0).is_none());
    assert!(Fr::get_root_of_unity(5).is_none());
    assert!(Fr::get_root_of_unity(9).is_none());
    assert!(Fr::get_root_of_unity(1u64 << 33).is_none());
    assert!(Fr::get_root_of_unity(u64::MAX).is_none());
}

#[test]
fn evaluation_form_over_four_points() {
    let coeffs = vec![Fr::from_u64(5), Fr::from_u64(3), Fr::from_u64(2), Fr::from_u64(1)];
    let poly = UnivariantPolynomial::new(coeffs.clone());
    let eval = UnivariateEval::from_coefficients(coeffs.clone());
    assert_eq!(eval.domain.size, 4);
    let w = eval.domain.generator;
    for i in 0..4u64 {
        assert_eq!(eval.values[i as usize], poly.evaluate(&w.pow(i)));
    }
    assert_eq!(eval.to_coefficients(), coeffs);
    assert_eq!(eval.to_coefficient_poly().coefficients, coeffs);
}

#[test]
fn test_univariate_eval_0() {
    let coeffs: Vec<Fr> = (0..8u64).map(|i| Fr::from_u64(i * i + 3)).collect();
    let eval = UnivariateEval::from_coefficients(coeffs.clone());
    assert_eq!(eval.to_coefficients(), coeffs);
}

#[test]
fn test_univariate_eval_1() {
    let poly = UnivariantPolynomial::new(vec![Fr::from_u64(5), Fr::from_u64(3), Fr::from_u64(2), Fr::from_u64(1)]);
    let eval = UnivariateEval::from_coefficients(poly.coefficients.clone());
    let roots: Vec<Fr> = (0..4u64).map(|i| eval.domain.generator.pow(i)).collect();
    for i in 0..4 {
        assert!(poly.evaluate(&roots[i]) == eval.values[i]);
    }
    let coeffs = eval.to_coefficients();
    let back = UnivariantPolynomial::new(coeffs.clone());
    for i in 0..4 {
        assert!(back.evaluate(&roots[i]) == eval.values[i]);
    }
    assert_eq!(coeffs, poly.coefficients);
}

#[test]
fn test_univariate_eval_2() {
    let poly = UnivariantPolynomial::new((1..=8u64).map(Fr::from_u64).collect());
    let eval = UnivariateEval::from_coefficients(poly.coefficients.clone());
    let roots: Vec<Fr> = (0..8u64).map(|i| eval.domain.generator.pow(i)).collect();
    for i in 0..poly.coefficients.len() {
        assert!(poly.evaluate(&roots[i]) == eval.values[i]);
    }
}

#[test]
fn product_through_the_evaluation_form() {
    let a = UnivariantPolynomial::new(vec![Fr::from_u64(1), Fr::from_u64(2)]);
    let b = UnivariantPolynomial::new(vec![Fr::from_u64(3), Fr::from_u64(1)]);
    let p = UnivariateEval::multiply(&a, &b);
    // (1 + 2x)(3 + x) = 3 + 7x + 2x^2 = q. Over the four roots of unity only
    // the first three products are kept before the inverse transform, so
    // coefficient k is q_k - q(w^3) w^k / 4.
    let w = Domain::new(3).generator;
    let q = UnivariantPolynomial::new(vec![Fr::from_u64(3), Fr::from_u64(7), Fr::from_u64(2)]);
    let q3 = q.evaluate(&w.pow(3));
    let quarter = Fr::from_u64(4).inverse().unwrap();
    let expected: Vec<Fr> = (0..3u64)
        .map(|k| q.coefficients[k as usize].sub(&q3.mul(&w.pow(k)).mul(&quarter)))
        .collect();
    assert_eq!(p.coefficients, expected);
}

#[test]
fn fft_in_place_writes_the_transform_back() {
    let d = Domain::new(4);
    let mut v = vec![Fr::from_u64(1), Fr::from_u64(1)];
    d.fft_in_place(&mut v);
    // The polynomial 1 + x over the four roots of unity.
    let w = d.generator;
    assert_eq!(v.len(), 4);
    for i in 0..4u64 {
        assert_eq!(v[i as usize], Fr::from_u64(1).add(&w.pow(i)));
    }
    d.ifft_in_place(&mut v);
    assert_eq!(v, vec![Fr::from_u64(1), Fr::from_u64(1), Fr::from_u64(0), Fr::from_u64(0)]);
}

#[test]
fn root_of_unity_of_order_two_is_minus_one() {
    let w = Fr::get_root_of_unity(2).unwrap();
    assert_eq!(w, Fr::one().neg());
    assert!(Fr::get_root_of_unity(5).is_none());
    assert!(Fr::get_root_of_unity(9).is_none());
    let w3 = Fr::get_root_of_unity(3).unwrap();
    assert_eq!(w3.mul(&w3).mul(&w3), Fr::one());
    assert_ne!(w3, Fr::one());
}
