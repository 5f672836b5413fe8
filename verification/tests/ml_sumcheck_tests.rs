use zk_toolkit::field::Fr;
use zk_toolkit::ml_sumcheck::{
    IPForMLSumcheck, LinearLagrange, LinearLagrangeList, ProverState, SumcheckProof,
};
use zk_toolkit::multilinear::Multilinear;
use zk_toolkit::transcript::FiatShamirTranscript;

fn fr(x: i64) -> Fr {
    Fr::from_i64(x)
}

fn frs(xs: &[i64]) -> Vec<Fr> {
    xs.iter().map(|&x| fr(x)).collect()
}

// A deterministic stand-in for random evaluations.
fn pseudo_random(seed: i64, n: usize) -> Vec<Fr> {
    (0..n as i64).map(|i| fr((seed * 7919 + i * 104729) % 1000003)).collect()
}

fn first_round_total(proof: &SumcheckProof) -> Fr {
    proof.round_polynomials[0][0].add(&proof.round_polynomials[0][1])
}

#[test]
fn test_sumcheck() {
    fn combine_fn(data: &Vec<Fr>) -> Fr {
        assert!(data.len() > 0);
        data[0]
    }
    let num_variables = 3;
    let evaluations: Vec<Fr> = (0..8).map(|i| fr(2 * i)).collect();
    let claimed_sum = evaluations.iter().fold(Fr::zero(), |acc, e| acc.add(e));
    let poly = Multilinear::new(evaluations, num_variables);

    let polynomials: Vec<LinearLagrangeList> = vec![LinearLagrangeList::from(&poly)];
    let mut prover_state: ProverState = IPForMLSumcheck::prover_init(&polynomials, 1);
    assert_eq!(prover_state.num_vars, 3);

    let mut prover_transcript = FiatShamirTranscript::default();
    let proof: SumcheckProof =
        IPForMLSumcheck::prove(&mut prover_state, &combine_fn, &mut prover_transcript);
    assert_eq!(proof.num_vars, 3);
    assert_eq!(proof.degree, 1);
    assert_eq!(proof.round_polynomials.len(), 3);
    assert_eq!(proof.round_polynomials[0], frs(&[12, 44]));
    assert_eq!(first_round_total(&proof), claimed_sum);
    assert_eq!(prover_state.state_polynomials[0].size, 0);
}

#[test]
fn test_product_sumcheck() {
    fn combine_fn(data: &Vec<Fr>) -> Fr {
        assert!(data.len() == 2);
        data[0].mul(&data[1])
    }
    let num_variables = 3;
    let evaluations_a: Vec<Fr> = (0..8).map(|i| fr(2 * i)).collect();
    let evaluations_b: Vec<Fr> = (0..8).map(|i| fr(i + 1)).collect();
    let claimed_sum = evaluations_a
        .iter()
        .zip(evaluations_b.iter())
        .fold(Fr::zero(), |acc, (a, b)| acc.add(&a.mul(b)));
    assert_eq!(claimed_sum, fr(336));
    let poly_a = Multilinear::new(evaluations_a, num_variables);
    let poly_b = Multilinear::new(evaluations_b, num_variables);

    let polynomials: Vec<LinearLagrangeList> =
        vec![LinearLagrangeList::from(&poly_a), LinearLagrangeList::from(&poly_b)];
    let mut prover_state: ProverState = IPForMLSumcheck::prover_init(&polynomials, 2);
    let mut prover_transcript = FiatShamirTranscript::default();
    let proof: SumcheckProof =
        IPForMLSumcheck::prove(&mut prover_state, &combine_fn, &mut prover_transcript);
    assert_eq!(proof.round_polynomials[0], frs(&[40, 296, 808]));
    assert_eq!(first_round_total(&proof), claimed_sum);
}

#[test]
fn test_r1cs_sumcheck() {
    // (a * b * e) - (c * e) vanishes everywhere when c = a * b
    fn combine_fn(data: &Vec<Fr>) -> Fr {
        assert!(data.len() == 4);
        data[0].mul(&data[1]).mul(&data[3]).sub(&data[2].mul(&data[3]))
    }
    const NV: usize = 10;
    let a = pseudo_random(1, 1 << NV);
    let b = pseudo_random(2, 1 << NV);
    let c: Vec<Fr> = a.iter().zip(b.iter()).map(|(x, y)| x.mul(y)).collect();
    let e = pseudo_random(3, 1 << NV);
    let polynomials: Vec<LinearLagrangeList> = vec![
        LinearLagrangeList::from(&Multilinear::new(a, NV)),
        LinearLagrangeList::from(&Multilinear::new(b, NV)),
        LinearLagrangeList::from(&Multilinear::new(c, NV)),
        LinearLagrangeList::from(&Multilinear::new(e, NV)),
    ];
    let mut prover_state = IPForMLSumcheck::prover_init(&polynomials, 3);
    let mut prover_transcript = FiatShamirTranscript::default();
    let proof = IPForMLSumcheck::prove(&mut prover_state, &combine_fn, &mut prover_transcript);
    assert_eq!(proof.round_polynomials.len(), NV);
    assert_eq!(first_round_total(&proof), fr(0));
    for round in proof.round_polynomials.iter() {
        assert_eq!(round.len(), 4);
    }
}

#[test]
fn test_grk_sumcheck() {
    fn combine_fn(data: &Vec<Fr>) -> Fr {
        assert!(data.len() == 4);
        data[0].mul(&data[1]).add(&data[2].mul(&data[3]))
    }
    const NV: usize = 10;
    let a = pseudo_random(4, 1 << NV);
    let b = pseudo_random(5, 1 << NV);
    let c = pseudo_random(6, 1 << NV);
    let d = pseudo_random(7, 1 << NV);
    let mut claimed_sum = Fr::zero();
    for i in 0..(1 << NV) {
        claimed_sum = claimed_sum.add(&a[i].mul(&b[i]).add(&c[i].mul(&d[i])));
    }
    let polynomials: Vec<LinearLagrangeList> = vec![
        LinearLagrangeList::from(&Multilinear::new(a, NV)),
        LinearLagrangeList::from(&Multilinear::new(b, NV)),
        LinearLagrangeList::from(&Multilinear::new(c, NV)),
        LinearLagrangeList::from(&Multilinear::new(d, NV)),
    ];
    let mut prover_state = IPForMLSumcheck::prover_init(&polynomials, 2);
    let mut prover_transcript = FiatShamirTranscript::default();
    let proof = IPForMLSumcheck::prove(&mut prover_state, &combine_fn, &mut prover_transcript);
    assert_eq!(proof.round_polynomials.len(), NV);
    assert_eq!(first_round_total(&proof), claimed_sum);
}

#[test]
fn linear_lagrange_operations() {
    let p = LinearLagrange::new(&fr(3), &fr(7));
    let q = LinearLagrange::new(&fr(1), &fr(2));
    assert_eq!(p.evaluate_at(fr(0)), fr(3));
    assert_eq!(p.evaluate_at(fr(1)), fr(7));
    assert_eq!(p.evaluate_at(fr(2)), fr(11));
    assert_eq!(p.add(&q), LinearLagrange::new(&fr(4), &fr(9)));
    assert_eq!(p.sub(&q), LinearLagrange::new(&fr(2), &fr(5)));
}

#[test]
fn linear_lagrange_list_folding() {
    let poly = Multilinear::new(frs(&[1, 2, 3, 4, 5, 6, 7, 8]), 3);
    let list = LinearLagrangeList::from(&poly);
    assert_eq!(list.size, 4);
    assert_eq!(list.list[1], LinearLagrange::new(&fr(2), &fr(6)));
    let acc = list.list_accumulator();
    assert_eq!(acc, LinearLagrange::new(&fr(10), &fr(26)));

    // folding at 2: each pair (e, o) becomes 2 o - e
    let mut halved = list.clone();
    halved.fold_in_half(fr(2));
    assert_eq!(halved.size, 2);
    assert_eq!(
        halved.list,
        vec![LinearLagrange::new(&fr(9), &fr(11)), LinearLagrange::new(&fr(10), &fr(12))]
    );

    let neighbours = LinearLagrangeList::fold_list(&list, fr(2));
    assert_eq!(neighbours.size, 2);
    assert_eq!(
        neighbours.list,
        vec![LinearLagrange::new(&fr(9), &fr(10)), LinearLagrange::new(&fr(11), &fr(12))]
    );

    let zeros = LinearLagrangeList::new_uninitialized(&3);
    assert_eq!(zeros.list, vec![LinearLagrange::new(&fr(0), &fr(0)); 3]);
    let copy = LinearLagrangeList::new(&list.size, &list.list);
    assert_eq!(copy, list);
}

#[test]
fn linear_lagrange_texts() {
    let p = LinearLagrange::new(&fr(3), &fr(17));
    assert_eq!(p.to_text_bytes(), b"LinearLagrange(even = 3, odd = 17)".to_vec());
    let list = LinearLagrangeList::new(&2, &vec![p, LinearLagrange::new(&fr(0), &fr(5))]);
    assert_eq!(
        list.to_text_bytes(),
        b"LinearLagrangeList(size = 2, list = [(3, 17) (, 5) ])".to_vec()
    );
}

// Folding the pair list in half is building it from the partial evaluation.
#[test]
fn fold_in_half_matches_partial_evaluation() {
    let p = Multilinear::new(frs(&[1, 4, 2, 8, 5, 7, 3, 6]), 3);
    let mut folded = LinearLagrangeList::from(&p);
    folded.fold_in_half(fr(10));
    let direct = LinearLagrangeList::from(&p.partial_evaluation(fr(10), 0));
    assert_eq!(folded.size, direct.size);
    assert_eq!(folded.list, direct.list);
}
