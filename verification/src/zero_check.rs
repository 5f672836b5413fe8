//! The zero-check protocol over products of multilinear polynomials: to show
//! that `p` vanishes on the hypercube, the prover runs the sum-check on
//! `p(x) * eq(x, r)` for a random point `r`, claiming the sum zero.
use crate::algebra::{lemma_fmul_one, lemma_ops_range};
use crate::composed::{composed_accepts, composed_rounds, opening_log, prod_at, table_product, ComposedMultilinear, ComposedProver, ComposedSumCheckProof, ComposedVerifier};
use crate::sumcheck::seq_sum;
use crate::field::{fmul, fr_modulus, fsub, Fr};
use crate::multilinear::{bits_index, distinct_product, is_boolean, lemma_eval_on_hypercube, ml_evaluate, ml_lerp, pairing_index_ext, partial_eval_seq, Multilinear};
use crate::pow2::{lemma_two_pow_pos, lemma_two_pow_small, two_pow};
use crate::transcript::{sample_n, FiatShamirTranscript};
use vstd::prelude::*;

verus! {

/// The weight `eq(b, rs) = prod_i (b_i ? r_i : 1 - r_i)` of hypercube index `b`,
/// whose bits are read with the first coordinate most significant.
pub open spec fn eq_weight(rs: Seq<int>, b: int) -> int
    decreases rs.len(),
{
    if rs.len() == 0 {
        1
    } else {
        fmul(
            eq_weight(rs.drop_last(), b / 2),
            if b % 2 == 1 {
                rs.last()
            } else {
                fsub(1, rs.last())
            },
        )
    }
}

/// The table of `x -> eq(x, rs)` over the hypercube.
pub open spec fn eq_table(rs: Seq<int>) -> Seq<int> {
    Seq::new(two_pow(rs.len()), |b: int| eq_weight(rs, b))
}

/// `x y + (1 - x)(1 - y)` with `y` fixed at `r` is the table `[1 - r, r]`.
proof fn lemma_eq_term(r: int)
    requires
        0 <= r < fr_modulus(),
    ensures
        partial_eval_seq(seq![1int, 0, 0, 1], 1, r) == seq![fsub(1, r), r],
{
    lemma_two_pow_small();
    let e = seq![1int, 0, 0, 1];
    let p = pairing_index_ext(4, 1);
    assert(p.len() == 2);
    assert(p[0] == (0usize, 1usize));
    assert(p[1] == (2usize, 3usize));
    crate::algebra::lemma_fmul_zero(r);
    crate::algebra::lemma_fmul_zero(fsub(1, r));
    lemma_ops_range(1, r);
    lemma_fmul_one(fsub(1, r));
    lemma_fmul_one(r);
    crate::algebra::lemma_fadd_zero(fsub(1, r));
    crate::algebra::lemma_fadd_zero(r);
    assert(ml_lerp(r, 1, 0) == fsub(1, r));
    assert(ml_lerp(r, 0, 1) == r);
    assert(partial_eval_seq(e, 1, r) =~= seq![fsub(1, r), r]);
}

/// One more coordinate doubles the table.
proof fn lemma_eq_table_push(rs: Seq<int>, r: int)
    ensures
        eq_table(rs.push(r)) == distinct_product(eq_table(rs), seq![fsub(1, r), r]),
{
    let a = eq_table(rs.push(r));
    let b = distinct_product(eq_table(rs), seq![fsub(1, r), r]);
    lemma_two_pow_pos(rs.len());
    assert(two_pow(rs.len() + 1) == two_pow(rs.len()) * 2);
    assert forall|t: int| 0 <= t < a.len() implies #[trigger] a[t] == b[t] by {
        assert(rs.push(r).drop_last() =~= rs);
        assert(t / 2 < two_pow(rs.len()));
    }
    assert(a =~= b);
}

/// The hypercube index read from the last coordinate.
proof fn lemma_bits_index_last(bits: Seq<int>)
    requires
        bits.len() >= 1,
        is_boolean(bits),
    ensures
        bits_index(bits) == 2 * bits_index(bits.drop_last()) + bits.last(),
    decreases bits.len(),
{
    let n = bits.len();
    if n == 1 {
        assert(bits.drop_first() =~= Seq::<int>::empty());
        assert(bits.drop_last() =~= Seq::<int>::empty());
        assert(two_pow(0) == 1);
    } else {
        let df = bits.drop_first();
        assert(is_boolean(df));
        lemma_bits_index_last(df);
        assert(df.drop_last() =~= bits.drop_last().drop_first());
        assert(two_pow((n - 1) as nat) == 2 * two_pow((n - 2) as nat));
        assert(bits.drop_last()[0] == bits[0]);
        assert(df.last() == bits.last());
        crate::pow2::lemma_two_pow_pos((n - 2) as nat);
        assert(bits_index(bits.drop_last()) == bits[0] * two_pow((n - 2) as nat) + bits_index(
            bits.drop_last().drop_first(),
        ));
        assert(2 * (bits[0] * two_pow((n - 2) as nat)) == bits[0] * two_pow((n - 1) as nat))
            by (nonlinear_arith)
            requires
                two_pow((n - 1) as nat) == 2 * two_pow((n - 2) as nat),
        ;
    }
}

/// At a boolean point `w`, the table of `eq(., w)` is one at `w`'s index and zero
/// elsewhere on the hypercube.
pub proof fn lemma_eq_table_boolean(w: Seq<int>, b: int)
    requires
        is_boolean(w),
        0 <= b < two_pow(w.len()),
    ensures
        eq_table(w)[b] == (if b == bits_index(w) {
            1int
        } else {
            0int
        }),
    decreases w.len(),
{
    if w.len() == 0 {
        assert(two_pow(0) == 1);
    } else {
        let n = w.len();
        let wl = w.drop_last();
        assert(is_boolean(wl));
        assert(two_pow(n) == 2 * two_pow((n - 1) as nat));
        assert(b / 2 < two_pow((n - 1) as nat));
        lemma_eq_table_boolean(wl, b / 2);
        lemma_bits_index_last(w);
        let last = w.last();
        assert(last == w[n - 1]);
        vstd::arithmetic::div_mod::lemma_small_mod(1, fr_modulus() as nat);
        vstd::arithmetic::div_mod::lemma_small_mod(0, fr_modulus() as nat);
        let f = if b % 2 == 1 {
            last
        } else {
            fsub(1, last)
        };
        assert(f == (if b % 2 == last {
            1int
        } else {
            0int
        }));
        let e = eq_weight(wl, b / 2);
        assert(eq_weight(w, b) == fmul(e, f));
        assert(e == 0 || e == 1);
        assert(f == 0 || f == 1);
        if e == 0 {
            assert(e * f == 0) by (nonlinear_arith)
                requires
                    e == 0,
            ;
        } else if f == 0 {
            assert(e * f == 0) by (nonlinear_arith)
                requires
                    f == 0,
            ;
        } else {
            assert(e == 1 && f == 1);
            assert(e * f == 1) by (nonlinear_arith)
                requires
                    e == 1,
                    f == 1,
            ;
        }
        assert(fmul(e, f) == (if e == 1 && f == 1 {
            1int
        } else {
            0int
        }));
        assert((b == 2 * bits_index(wl) + last) <==> (b / 2 == bits_index(wl) && b % 2 == last));
    }
}

/// At a boolean point `w`, the polynomial `eq(., w)` takes the value one at `w`.
pub proof fn lemma_eq_at_own_point(w: Seq<int>)
    requires
        is_boolean(w),
        w.len() >= 1,
    ensures
        ml_evaluate(eq_table(w), w) == Some(1int),
{
    let t = eq_table(w);
    assert forall|b: int| 0 <= b < t.len() implies 0 <= #[trigger] t[b] < fr_modulus() by {
        lemma_eq_table_boolean(w, b);
    }
    lemma_eval_on_hypercube(t, w.len(), w);
    lemma_eq_table_boolean(w, bits_index(w) as int);
}

/// The table of `eq(x, r_s)` for a point with at least one coordinate.
pub fn generate_eq_poly(r_s: &[Fr]) -> (r: Multilinear)
    requires
        r_s.len() >= 1,
        two_pow(r_s.len() as nat) <= usize::MAX,
    ensures
        r.wf(),
        r.num_vars == r_s.len(),
        r.evals() == eq_table(r_s@.map_values(|x: Fr| x@)),
{
    let mut t: Vec<Fr> = Vec::new();
    t.push(Fr::one());
    t.push(Fr::zero());
    t.push(Fr::zero());
    t.push(Fr::one());
    proof {
        lemma_two_pow_small();
        assert(t.deep_view() =~= seq![1int, 0, 0, 1]);
    }
    let eq_term = Multilinear::new(t, 2);
    let ghost pts = r_s@.map_values(|x: Fr| x@);
    let mut eq_poly = eq_term.partial_evaluation(r_s[0], 1);
    proof {
        r_s[0].lemma_view_range();
        lemma_eq_term(r_s[0]@);
        let one = seq![r_s[0]@];
        assert(pts.subrange(0, 1) =~= one);
        assert(one.drop_last() =~= Seq::<int>::empty());
        assert(eq_table(Seq::<int>::empty()) =~= seq![1int]);
        assert(two_pow(0) == 1);
        assert(two_pow(1) == 2);
        lemma_ops_range(1, r_s[0]@);
        lemma_fmul_one(fsub(1, r_s[0]@));
        lemma_fmul_one(r_s[0]@);
        assert(one.drop_last() =~= Seq::<int>::empty());
        assert(one.last() == r_s[0]@);
        assert(eq_weight(Seq::<int>::empty(), 0) == 1);
        assert(eq_weight(one, 0) == fsub(1, r_s[0]@));
        assert(eq_weight(one, 1) == r_s[0]@);
        assert(eq_table(one) =~= seq![fsub(1, r_s[0]@), r_s[0]@]);
    }
    let mut i: usize = 1;
    while i < r_s.len()
        invariant
            1 <= i <= r_s.len(),
            two_pow(r_s.len() as nat) <= usize::MAX,
            pts == r_s@.map_values(|x: Fr| x@),
            eq_term.wf(),
            eq_term.num_vars == 2,
            eq_term.evals() == seq![1int, 0, 0, 1],
            eq_poly.wf(),
            eq_poly.num_vars == i,
            eq_poly.evals() == eq_table(pts.subrange(0, i as int)),
        decreases r_s.len() - i,
    {
        let factor = eq_term.partial_evaluation(r_s[i], 1);
        proof {
            r_s[i as int].lemma_view_range();
            lemma_eq_term(r_s[i as int]@);
            crate::pow2::lemma_two_pow_monotone((i + 1) as nat, r_s.len() as nat);
        }
        eq_poly = eq_poly.mul_distinct(&factor);
        proof {
            assert(pts.subrange(0, i + 1) =~= pts.subrange(0, i as int).push(r_s[i as int]@));
            lemma_eq_table_push(pts.subrange(0, i as int), r_s[i as int]@);
        }
        i = i + 1;
    }
    proof {
        assert(pts.subrange(0, r_s.len() as int) =~= pts);
    }
    eq_poly
}

/// The round polynomials of the zero-check proof for factor tables `ts` (`d`
/// factors, `n` variables) from transcript log `log`: those of the sum-check of
/// `ts` times `eq(., r)`, `r` being the first `n` challenges, with sum zero.
pub open spec fn zero_check_rounds(ts: Seq<Seq<int>>, log: Seq<u8>, d: nat, n: nat) -> Seq<
    Seq<int>,
> {
    let pts = sample_n(log, n).1;
    let fs = ts.push(eq_table(pts));
    composed_rounds(fs, opening_log(sample_n(log, n).0, fs, 0), d + 1, n)
}

/// The product vanishes at every point of the hypercube.
pub open spec fn vanishes_on_hypercube(ts: Seq<Seq<int>>) -> bool {
    forall|j: int| 0 <= j < table_product(ts).len() ==> #[trigger] table_product(ts)[j] == 0
}

/// A sum of zeros is zero.
proof fn lemma_seq_sum_zeros(s: Seq<int>)
    requires
        forall|i: int| 0 <= i < s.len() ==> #[trigger] s[i] == 0,
    ensures
        seq_sum(s) == 0,
    decreases s.len(),
{
    if s.len() > 0 {
        lemma_seq_sum_zeros(s.drop_last());
        assert(s.last() == s[s.len() - 1]);
    }
}

/// A product that vanishes on the hypercube, times any further factor, sums to
/// zero over the hypercube.
proof fn lemma_vanishing_product_sums_zero(ts: Seq<Seq<int>>, e: Seq<int>)
    requires
        ts.len() >= 1,
        e.len() == ts[0].len(),
        vanishes_on_hypercube(ts),
    ensures
        seq_sum(table_product(ts.push(e))) == 0,
{
    let fs = ts.push(e);
    let tp = table_product(fs);
    assert forall|j: int| 0 <= j < tp.len() implies #[trigger] tp[j] == 0 by {
        assert(fs.drop_last() =~= ts);
        assert(table_product(ts)[j] == 0);
        assert(prod_at(fs, j) == fmul(prod_at(ts, j), e[j]));
    }
    lemma_seq_sum_zeros(tp);
}

/// What the zero-check reduces to: the point, the value expected there, and
/// the challenge that the weight `eq(x, r)` was built from.
#[derive(Clone, Debug)]
pub struct ZeroCheckSubClaim {
    /// The evaluation point.
    pub points: Vec<Fr>,
    /// The expected evaluation.
    pub expected_points: Fr,
    /// The challenge `r` behind `eq(x, r)`.
    pub initial_challenge: Vec<Fr>,
}

/// Why a zero-check is refused.
#[derive(Clone, Copy, Debug, PartialEq, Eq)]
pub enum ZeroCheckError {
    /// The sum-check on the polynomial did not verify.
    VerificationFailed,
}

/// The zero-check protocol.
pub struct ZeroCheck;

/// The zero-check protocol's prover and verifier.
pub trait ZeroCheckInterface {
    /// Proves that `poly` vanishes on the hypercube: draws `r`, then runs the
    /// sum-check on `poly * eq(., r)` with the claimed sum zero.
    fn prove(poly: &ComposedMultilinear, transcript: &mut FiatShamirTranscript) -> (r: Result<ComposedSumCheckProof, ZeroCheckError>)
        requires
            poly.wf(),
            poly.polys.len() > 0,
            poly.nv() >= 1,
        ensures
            r is Ok,
            r->Ok_0.sum@ == 0,
            r->Ok_0.rounds() == zero_check_rounds(
                poly.tables(),
                old(transcript).log(),
                poly.polys.len() as nat,
                poly.nv(),
            ),
            vanishes_on_hypercube(poly.tables()) ==> ({
                let (log, pts) = sample_n(old(transcript).log(), poly.nv());
                let fs = poly.tables().push(eq_table(pts));
                composed_accepts(fs, r->Ok_0.rounds(), opening_log(log, fs, 0), 0)
            }),
    ;

    /// Checks a zero-check proof against `poly`, replaying the sum-check.
    fn verify(proof: &ComposedSumCheckProof, poly: &ComposedMultilinear, transcript: &mut FiatShamirTranscript) -> (r: Result<bool, ZeroCheckError>)
        requires
            poly.wf(),
            proof.round_poly.len() <= poly.nv(),
            poly.polys.len() > 0 ==> proof.round_poly.len() > 0,
            forall|i: int|
                0 <= i < proof.round_poly.len() ==> #[trigger] proof.round_poly[i].coefficients.len()
                    > 0,
        ensures
            r == (if composed_accepts(
                poly.tables(),
                proof.rounds(),
                opening_log(old(transcript).log(), poly.tables(), proof.sum@),
                proof.sum@,
            ) {
                Ok::<bool, ZeroCheckError>(true)
            } else {
                Err(ZeroCheckError::VerificationFailed)
            }),
    ;
}

impl ZeroCheckInterface for ZeroCheck {
    fn prove(poly: &ComposedMultilinear, transcript: &mut FiatShamirTranscript) -> (r: Result<ComposedSumCheckProof, ZeroCheckError>)
    {
        let n = poly.num_vars();
        let r_s = transcript.sample_n_as_field_elements(n);
        proof {
            assert(poly.polys[0].wf());
            assert(poly.polys[0].evaluations.len() == two_pow(n as nat));
            assert(r_s@.map_values(|x: Fr| x@) =~= r_s.deep_view());
        }
        let eq_poly = generate_eq_poly(r_s.as_slice());
        let f = poly.mul_by_mle(&eq_poly);
        proof {
            assert forall|k: int| 0 <= k < f.polys.len() implies #[trigger] f.polys[k].wf()
                && f.polys[k].num_vars == f.polys[0].num_vars by {
                assert(f.polys[k].evaluations.len() == f.polys[k].evals().len());
                if k < poly.polys.len() {
                    assert(poly.polys[k].wf());
                    assert(poly.polys[k].evaluations.len() == poly.polys[k].evals().len());
                    assert(f.tables()[k] == poly.tables()[k]);
                    assert(f.polys[k].evals() == poly.polys[k].evals());
                } else {
                    assert(f.tables()[k] == eq_poly.evals());
                    assert(eq_poly.evaluations.len() == eq_poly.evals().len());
                }
                assert(f.tables()[0] == poly.tables()[0]);
                assert(f.polys[0].evals() == poly.polys[0].evals());
            }
        }
        let zero = Fr::zero();
        proof {
            if vanishes_on_hypercube(poly.tables()) {
                assert(f.tables() == poly.tables().push(eq_poly.evals()));
                assert(poly.tables()[0] == poly.polys[0].evals());
                lemma_vanishing_product_sums_zero(poly.tables(), eq_poly.evals());
            }
        }
        let (proof, _) = ComposedProver::sum_check_proof(&f, transcript, &zero);
        Ok(proof)
    }

    fn verify(proof: &ComposedSumCheckProof, poly: &ComposedMultilinear, transcript: &mut FiatShamirTranscript) -> (r: Result<bool, ZeroCheckError>)
    {
        if !ComposedVerifier::verify(proof, poly, transcript) {
            return Err(ZeroCheckError::VerificationFailed);
        }
        Ok(true)
    }
}

} // verus!
