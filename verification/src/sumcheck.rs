//! The sum-check protocol for a multilinear polynomial, made non-interactive
//! with a Fiat-Shamir transcript.
//!
//! The prover sends `g_0(X) = sum_b f(X, b)` and then, for each challenge
//! `r_1, ..., r_{n-1}`, `g_i(X) = sum_b f(r_1, ..., r_i, X, b)`; each `g_i` is a
//! one-variable multilinear polynomial given by its values at 0 and 1.
use crate::algebra::{lemma_fadd_zero, lemma_fmul_zero, lemma_ops_range};
use crate::field::{fadd, fmul, fr_modulus, fsub, Fr};
use crate::multilinear::{fold_all, fold_first, lemma_fold_all_len, lemma_fold_all_push, lemma_lerp_add, ml_lerp, Multilinear};
use crate::pow2::{lemma_two_pow_half, lemma_two_pow_small, two_pow};
use crate::transcript::{after_sample, challenge, FiatShamirTranscript};
use crate::univariate::{canonical, elems_bytes};
use vstd::prelude::*;

verus! {

/// Sum of the entries in the field.
pub open spec fn seq_sum(s: Seq<int>) -> int
    decreases s.len(),
{
    if s.len() == 0 {
        0
    } else {
        fadd(seq_sum(s.drop_last()), s.last())
    }
}

/// The sums of the first and of the second half of a table: the values at 0 and
/// at 1 of `X -> sum_b f(X, b)`.
pub open spec fn half_sums(e: Seq<int>) -> Seq<int> {
    seq![seq_sum(e.subrange(0, (e.len() / 2) as int)), seq_sum(e.subrange((e.len() / 2) as int, e.len() as int))]
}

/// The prover's state after `i` challenges: the table with the first `i`
/// variables fixed, the transcript log, and the challenges.
pub open spec fn prover_state(e: Seq<int>, log0: Seq<u8>, i: nat) -> (Seq<int>, Seq<u8>, Seq<int>)
    decreases i,
{
    if i == 0 {
        (e, log0, Seq::empty())
    } else {
        let (cur, log, rs) = prover_state(e, log0, (i - 1) as nat);
        let r = challenge(log);
        let next = fold_first(cur, r);
        (next, after_sample(log) + elems_bytes(half_sums(next)), rs.push(r))
    }
}

/// The verifier's state before round `i`: the previous round polynomial, the
/// transcript log, and the challenges drawn so far.
pub open spec fn verifier_state(g0: Seq<int>, rounds: Seq<Seq<int>>, log0: Seq<u8>, i: nat) -> (
    Seq<int>,
    Seq<u8>,
    Seq<int>,
)
    decreases i,
{
    if i == 0 {
        (g0, log0, Seq::empty())
    } else {
        let (prev, log, rs) = verifier_state(g0, rounds, log0, (i - 1) as nat);
        let g = rounds[i - 1];
        (g, after_sample(log) + elems_bytes(g), rs.push(challenge(log)))
    }
}

/// Round `i` is consistent with the previous one: `g_i(0) + g_i(1) = g_{i-1}(r_i)`.
pub open spec fn round_ok(g0: Seq<int>, rounds: Seq<Seq<int>>, log0: Seq<u8>, i: int) -> bool {
    let (prev, log, rs) = verifier_state(g0, rounds, log0, i as nat);
    let r = challenge(log);
    &&& rounds[i].len() == 2
    &&& fadd(rounds[i][0], rounds[i][1]) == ml_lerp(r, prev[0], prev[1])
}

/// When the verifier accepts a proof for a polynomial with table `f` in `n`
/// variables and claimed sum `sum`.
pub open spec fn sumcheck_accepts(
    f: Seq<int>,
    n: nat,
    sum: int,
    g0: Seq<int>,
    rounds: Seq<Seq<int>>,
) -> bool {
    let log0 = elems_bytes(g0);
    let (last, logf, rs) = verifier_state(g0, rounds, log0, rounds.len());
    let r = challenge(logf);
    &&& n >= 1
    &&& g0.len() == 2
    &&& fadd(g0[0], g0[1]) == sum
    &&& rounds.len() == n - 1
    &&& forall|i: int| 0 <= i < rounds.len() ==> #[trigger] round_ok(g0, rounds, log0, i)
    &&& fold_all(f, rs.push(r))[0] == ml_lerp(r, last[0], last[1])
}

/// The round polynomials that the prover sends after `g_0`.
pub open spec fn prover_rounds(e: Seq<int>, log0: Seq<u8>, k: nat) -> Seq<Seq<int>> {
    Seq::new(k, |i: int| half_sums(prover_state(e, log0, (i + 1) as nat).0))
}

// ---------------------------------------------------------------------------
// Lemmas
// ---------------------------------------------------------------------------
pub proof fn lemma_seq_sum_range(s: Seq<int>)
    ensures
        0 <= seq_sum(s) < fr_modulus(),
    decreases s.len(),
{
    if s.len() > 0 {
        lemma_ops_range(seq_sum(s.drop_last()), s.last());
    }
}

/// Sums of the prefixes of the fixed table against those of the halves.
proof fn lemma_sum_fold_prefix(e: Seq<int>, r: int, k: nat)
    requires
        k <= e.len() / 2,
    ensures
        seq_sum(fold_first(e, r).subrange(0, k as int)) == ml_lerp(
            r,
            seq_sum(e.subrange(0, k as int)),
            seq_sum(e.subrange((e.len() / 2) as int, (e.len() / 2 + k) as int)),
        ),
    decreases k,
{
    let h = e.len() / 2;
    let f = fold_first(e, r);
    if k == 0 {
        assert(f.subrange(0, 0) =~= Seq::<int>::empty());
        assert(e.subrange(0, 0) =~= Seq::<int>::empty());
        assert(e.subrange(h as int, h as int) =~= Seq::<int>::empty());
        lemma_fmul_zero(r);
        lemma_fmul_zero(fsub(1, r));
    } else {
        lemma_sum_fold_prefix(e, r, (k - 1) as nat);
        assert(f.subrange(0, k as int).drop_last() =~= f.subrange(0, k - 1));
        assert(e.subrange(0, k as int).drop_last() =~= e.subrange(0, k - 1));
        assert(e.subrange(h as int, (h + k) as int).drop_last() =~= e.subrange(h as int, h + k - 1));
        lemma_lerp_add(
            r,
            seq_sum(e.subrange(0, k - 1)),
            seq_sum(e.subrange(h as int, h + k - 1)),
            e[k - 1],
            e[h + k - 1],
        );
    }
}

/// Summing the table with the first variable fixed at `r` is the line through
/// the sums of the two halves, at `r`.
pub proof fn lemma_sum_fold_first(e: Seq<int>, r: int)
    requires
        e.len() % 2 == 0,
    ensures
        seq_sum(fold_first(e, r)) == ml_lerp(r, half_sums(e)[0], half_sums(e)[1]),
{
    let h = e.len() / 2;
    lemma_sum_fold_prefix(e, r, h);
    assert(fold_first(e, r).subrange(0, h as int) =~= fold_first(e, r));
}

/// The sum of a concatenation.
pub proof fn lemma_seq_sum_concat(a: Seq<int>, b: Seq<int>)
    ensures
        seq_sum(a + b) == fadd(seq_sum(a), seq_sum(b)),
    decreases b.len(),
{
    if b.len() == 0 {
        assert(a + b =~= a);
        lemma_seq_sum_range(a);
        lemma_fadd_zero(seq_sum(a));
    } else {
        lemma_seq_sum_concat(a, b.drop_last());
        assert((a + b).drop_last() =~= a + b.drop_last());
        crate::algebra::lemma_fadd_assoc(seq_sum(a), seq_sum(b.drop_last()), b.last());
    }
}

/// The two half sums add up to the whole sum.
pub proof fn lemma_half_sums_total(e: Seq<int>)
    ensures
        fadd(half_sums(e)[0], half_sums(e)[1]) == seq_sum(e),
{
    let h = e.len() / 2;
    assert(e.subrange(0, h as int) + e.subrange(h as int, e.len() as int) =~= e);
    lemma_seq_sum_concat(e.subrange(0, h as int), e.subrange(h as int, e.len() as int));
}

/// The prover's table after `i` challenges is the initial one with the first `i`
/// variables fixed at those challenges.
proof fn lemma_prover_state(e: Seq<int>, log0: Seq<u8>, i: nat)
    ensures
        prover_state(e, log0, i).0 == fold_all(e, prover_state(e, log0, i).2),
        prover_state(e, log0, i).2.len() == i,
    decreases i,
{
    if i > 0 {
        lemma_prover_state(e, log0, (i - 1) as nat);
        let (cur, log, rs) = prover_state(e, log0, (i - 1) as nat);
        lemma_fold_all_push(e, rs, challenge(log));
    }
}

/// On the honest proof, the verifier's state follows the prover's.
proof fn lemma_states_agree(e: Seq<int>, log0: Seq<u8>, k: nat, i: nat)
    requires
        i <= k,
    ensures
        verifier_state(half_sums(e), prover_rounds(e, log0, k), log0, i).1 == prover_state(
            e,
            log0,
            i,
        ).1,
        verifier_state(half_sums(e), prover_rounds(e, log0, k), log0, i).2 == prover_state(
            e,
            log0,
            i,
        ).2,
        i >= 1 ==> verifier_state(half_sums(e), prover_rounds(e, log0, k), log0, i).0
            == half_sums(prover_state(e, log0, i).0),
        i == 0 ==> verifier_state(half_sums(e), prover_rounds(e, log0, k), log0, i).0 == half_sums(
            e,
        ),
    decreases i,
{
    let rounds = prover_rounds(e, log0, k);
    let g0 = half_sums(e);
    if i > 0 {
        lemma_states_agree(e, log0, k, (i - 1) as nat);
        let (vp, vl, vr) = verifier_state(g0, rounds, log0, (i - 1) as nat);
        let (pc, pl, pr) = prover_state(e, log0, (i - 1) as nat);
        assert(vl == pl);
        assert(vr == pr);
        assert(rounds[i - 1] == half_sums(prover_state(e, log0, i).0));
        assert(verifier_state(g0, rounds, log0, i) == (
            rounds[i - 1],
            after_sample(vl) + elems_bytes(rounds[i - 1]),
            vr.push(challenge(vl)),
        ));
    }
}

/// The table the prover holds when round `i` starts is canonical, or is the
/// initial table.
proof fn lemma_prover_table_canonical(e: Seq<int>, log0: Seq<u8>, i: nat)
    requires
        canonical(e),
    ensures
        canonical(prover_state(e, log0, i).0),
{
    if i > 0 {
        let (pc, pl, pr) = prover_state(e, log0, (i - 1) as nat);
        let cur = prover_state(e, log0, i).0;
        assert forall|j: int| 0 <= j < cur.len() implies 0 <= #[trigger] cur[j] < fr_modulus() by {
            lemma_ops_range(
                fmul(challenge(pl), pc[j + pc.len() / 2]),
                fmul(fsub(1, challenge(pl)), pc[j]),
            );
        }
    }
}

/// Each round of the honest proof is consistent with the previous one.
proof fn lemma_honest_round_ok(f: Seq<int>, n: nat, i: int)
    requires
        f.len() == two_pow(n),
        n >= 1,
        0 <= i < n - 1,
    ensures
        round_ok(
            half_sums(f),
            prover_rounds(f, elems_bytes(half_sums(f)), (n - 1) as nat),
            elems_bytes(half_sums(f)),
            i,
        ),
{
    let g0 = half_sums(f);
    let log0 = elems_bytes(g0);
    let k = (n - 1) as nat;
    let rounds = prover_rounds(f, log0, k);
    let (cur, log, rs) = prover_state(f, log0, i as nat);
    let r = challenge(log);
    lemma_prover_state(f, log0, i as nat);
    lemma_fold_all_len(f, n, rs);
    lemma_two_pow_half((n - i) as nat);
    lemma_states_agree(f, log0, k, i as nat);
    let next = fold_first(cur, r);
    assert(prover_state(f, log0, (i + 1) as nat).0 == next);
    assert(rounds[i] == half_sums(next));
    lemma_half_sums_total(next);
    lemma_sum_fold_first(cur, r);
    if i == 0 {
        assert(cur == f);
    }
}

/// The final check of the honest proof passes.
proof fn lemma_honest_final(f: Seq<int>, n: nat)
    requires
        f.len() == two_pow(n),
        n >= 1,
        canonical(f),
    ensures
        ({
            let g0 = half_sums(f);
            let log0 = elems_bytes(g0);
            let rounds = prover_rounds(f, log0, (n - 1) as nat);
            let (last, logf, rs) = verifier_state(g0, rounds, log0, rounds.len());
            let r = challenge(logf);
            fold_all(f, rs.push(r))[0] == ml_lerp(r, last[0], last[1])
        }),
{
    let g0 = half_sums(f);
    let log0 = elems_bytes(g0);
    let k = (n - 1) as nat;
    let rounds = prover_rounds(f, log0, k);
    assert(rounds.len() == k);
    let (last, logf, rs) = verifier_state(g0, rounds, log0, k);
    let r = challenge(logf);
    let (cur, plog, prs) = prover_state(f, log0, k);
    lemma_states_agree(f, log0, k, k);
    lemma_prover_state(f, log0, k);
    lemma_fold_all_len(f, n, prs);
    lemma_two_pow_small();
    assert((n - prs.len()) as nat == 1);
    assert(cur.len() == 2);
    lemma_fold_all_push(f, prs, r);
    assert(fold_all(f, prs.push(r)) == fold_first(cur, r));
    lemma_prover_table_canonical(f, log0, k);
    let s0 = cur.subrange(0, 1);
    let s1 = cur.subrange(1, 2);
    assert(s0.drop_last() =~= Seq::<int>::empty());
    assert(s1.drop_last() =~= Seq::<int>::empty());
    assert(seq_sum(Seq::<int>::empty()) == 0);
    assert(s0.last() == cur[0]);
    assert(s1.last() == cur[1]);
    assert(0 <= cur[0] < fr_modulus());
    assert(0 <= cur[1] < fr_modulus());
    lemma_fadd_zero(cur[0]);
    lemma_fadd_zero(cur[1]);
    assert(seq_sum(s0) == cur[0]);
    assert(seq_sum(s1) == cur[1]);
    assert(half_sums(cur) == seq![cur[0], cur[1]]);
    assert(last == half_sums(cur)) by {
        if k == 0 {
            assert(cur == f);
        }
    }
    assert(last[0] == cur[0]);
    assert(last[1] == cur[1]);
}

/// The honest prover's proof is accepted: completeness of sum-check.
pub proof fn lemma_sumcheck_complete(f: Seq<int>, n: nat)
    requires
        f.len() == two_pow(n),
        n >= 1,
        canonical(f),
    ensures
        sumcheck_accepts(
            f,
            n,
            seq_sum(f),
            half_sums(f),
            prover_rounds(f, elems_bytes(half_sums(f)), (n - 1) as nat),
        ),
{
    let g0 = half_sums(f);
    let log0 = elems_bytes(g0);
    let rounds = prover_rounds(f, log0, (n - 1) as nat);
    lemma_half_sums_total(f);
    assert forall|i: int| 0 <= i < rounds.len() implies #[trigger] round_ok(g0, rounds, log0, i) by {
        lemma_honest_round_ok(f, n, i);
    }
    lemma_honest_final(f, n);
}

/// The verifier has drawn one challenge per round polynomial so far.
proof fn lemma_verifier_challenges_len(g0: Seq<int>, rounds: Seq<Seq<int>>, log0: Seq<u8>, i: nat)
    ensures
        verifier_state(g0, rounds, log0, i).2.len() == i,
    decreases i,
{
    if i > 0 {
        lemma_verifier_challenges_len(g0, rounds, log0, (i - 1) as nat);
    }
}

/// The verifier's state after `j` rounds extends its state after `i <= j`
/// rounds: challenge `i` is the one drawn from the log after `i` rounds, and
/// the polynomial in hand after `i >= 1` rounds is round polynomial `i - 1`.
proof fn lemma_verifier_state_prefix(g0: Seq<int>, rounds: Seq<Seq<int>>, log0: Seq<u8>, i: nat, j: nat)
    requires
        i < j,
    ensures
        verifier_state(g0, rounds, log0, j).2[i as int] == challenge(verifier_state(g0, rounds, log0, i).1),
    decreases j,
{
    lemma_verifier_challenges_len(g0, rounds, log0, (j - 1) as nat);
    if i < j - 1 {
        lemma_verifier_state_prefix(g0, rounds, log0, i, (j - 1) as nat);
    }
}

/// Soundness of the verifier's checks: whenever it accepts a proof about the
/// table `f` of `n` variables, with challenges `r_1, ..., r_n` drawn from the
/// transcript, the claimed sum is `g_0(0) + g_0(1)`, each round polynomial
/// `g_i` (`i >= 1`) has `g_i(0) + g_i(1) = g_(i-1)(r_i)`, and the polynomial's
/// value at `(r_1, ..., r_n)` is the last round polynomial's value at `r_n`
/// (each round polynomial being the line through its values at 0 and 1).
pub proof fn lemma_accepted_proof_meets_polynomial(
    f: Seq<int>,
    n: nat,
    sum: int,
    g0: Seq<int>,
    rounds: Seq<Seq<int>>,
)
    requires
        f.len() == two_pow(n),
        sumcheck_accepts(f, n, sum, g0, rounds),
    ensures
        ({
            let (last, logf, rs) = verifier_state(g0, rounds, elems_bytes(g0), rounds.len());
            let point = rs.push(challenge(logf));
            &&& point.len() == n
            &&& g0.len() == 2
            &&& fadd(g0[0], g0[1]) == sum
            &&& forall|i: int|
                0 <= i < rounds.len() ==> {
                    let prev = if i == 0 {
                        g0
                    } else {
                        rounds[i - 1]
                    };
                    &&& (#[trigger] rounds[i]).len() == 2
                    &&& fadd(rounds[i][0], rounds[i][1]) == ml_lerp(point[i], prev[0], prev[1])
                }
            &&& crate::multilinear::ml_evaluate(f, point) == Some(ml_lerp(point[n - 1], last[0], last[1]))
            &&& last == if rounds.len() == 0 {
                g0
            } else {
                rounds.last()
            }
        }),
{
    let log0 = elems_bytes(g0);
    let k = rounds.len();
    lemma_verifier_challenges_len(g0, rounds, log0, k);
    let (last, logf, rs) = verifier_state(g0, rounds, log0, k);
    let point = rs.push(challenge(logf));
    assert forall|i: int| 0 <= i < rounds.len() implies {
        let prev = if i == 0 {
            g0
        } else {
            rounds[i - 1]
        };
        &&& (#[trigger] rounds[i]).len() == 2
        &&& fadd(rounds[i][0], rounds[i][1]) == ml_lerp(point[i], prev[0], prev[1])
    } by {
        assert(round_ok(g0, rounds, log0, i));
        lemma_verifier_state_prefix(g0, rounds, log0, i as nat, k);
        assert(point[i] == rs[i]);
        if i > 0 {
            assert(verifier_state(g0, rounds, log0, i as nat).0 == rounds[i - 1]);
        }
    }
    if k > 0 {
        assert(last == rounds[k - 1]);
    }
}

// ---------------------------------------------------------------------------
// Prover and verifier
// ---------------------------------------------------------------------------
/// A sum-check proof.
#[derive(Debug)]
pub struct SumCheckProof {
    /// The polynomial whose sum is claimed.
    pub polynomial: Multilinear,
    /// The round polynomials after the first one.
    pub round_poly: Vec<Multilinear>,
    /// The first round polynomial.
    pub round_0_poly: Multilinear,
    /// The claimed sum.
    pub sum: Fr,
}

impl SumCheckProof {
    /// The round polynomials after the first one, as tables.
    pub open spec fn rounds(&self) -> Seq<Seq<int>> {
        Seq::new(self.round_poly.len() as nat, |i: int| self.round_poly[i].evals())
    }
}

/// The sum-check prover for multilinear polynomials.
pub struct Prover;

/// The sum-check verifier for multilinear polynomials.
pub struct Verifier;

impl Prover {
    /// The sum of the evaluations over the boolean hypercube.
    pub fn calculate_sum(poly: &Multilinear) -> (r: Fr)
        ensures
            r@ == seq_sum(poly.evals()),
    {
        let mut acc = Fr::zero();
        let mut i: usize = 0;
        proof {
            assert(poly.evals().subrange(0, 0) =~= Seq::<int>::empty());
        }
        while i < poly.evaluations.len()
            invariant
                i <= poly.evaluations.len(),
                acc@ == seq_sum(poly.evals().subrange(0, i as int)),
            decreases poly.evaluations.len() - i,
        {
            acc = acc.add(&poly.evaluations[i]);
            proof {
                assert(poly.evals().subrange(0, i + 1).drop_last() =~= poly.evals().subrange(
                    0,
                    i as int,
                ));
            }
            i = i + 1;
        }
        proof {
            assert(poly.evals().subrange(0, poly.evaluations.len() as int) =~= poly.evals());
        }
        acc
    }

    fn sum_range(v: &Vec<Fr>, lo: usize, hi: usize) -> (r: Fr)
        requires
            lo <= hi <= v.len(),
        ensures
            r@ == seq_sum(v.deep_view().subrange(lo as int, hi as int)),
    {
        let mut acc = Fr::zero();
        let mut i: usize = lo;
        proof {
            assert(v.deep_view().subrange(lo as int, lo as int) =~= Seq::<int>::empty());
        }
        while i < hi
            invariant
                lo <= i <= hi,
                hi <= v.len(),
                acc@ == seq_sum(v.deep_view().subrange(lo as int, i as int)),
            decreases hi - i,
        {
            acc = acc.add(&v[i]);
            proof {
                assert(v.deep_view().subrange(lo as int, i + 1).drop_last() =~= v.deep_view().subrange(
                    lo as int,
                    i as int,
                ));
            }
            i = i + 1;
        }
        acc
    }

    /// The one-variable polynomial `X -> sum_b f(X, b)`.
    fn round_poly_of(poly: &Multilinear) -> (r: Multilinear)
        requires
            poly.wf(),
            poly.num_vars >= 1,
        ensures
            r.wf(),
            r.num_vars == 1,
            r.evals() == half_sums(poly.evals()),
    {
        let n = poly.evaluations.len();
        let h = n / 2;
        let s0 = Prover::sum_range(&poly.evaluations, 0, h);
        let s1 = Prover::sum_range(&poly.evaluations, h, n);
        let mut evals: Vec<Fr> = Vec::new();
        evals.push(s0);
        evals.push(s1);
        proof {
            lemma_two_pow_small();
            assert(evals.deep_view() =~= half_sums(poly.evals()));
        }
        Multilinear::new(evals, 1)
    }

    /// The first round polynomial `X -> sum_b f(X, b)`, appended to the transcript.
    pub fn compute_round_zero_poly(poly: &Multilinear, transcript: &mut FiatShamirTranscript) -> (r: Multilinear)
        requires
            poly.wf(),
            poly.num_vars >= 1,
        ensures
            r.wf(),
            r.num_vars == 1,
            r.evals() == half_sums(poly.evals()),
            final(transcript).log() == old(transcript).log() + elems_bytes(r.evals()),
    {
        let g = Prover::round_poly_of(poly);
        transcript.append_elems(&g.evaluations);
        g
    }

    /// The sum-check proof that `sum` is the sum of `poly` over the hypercube.
    pub fn sum_check_proof(poly: &Multilinear, transcript: &mut FiatShamirTranscript, sum: &Fr) -> (r: SumCheckProof)
        requires
            poly.wf(),
            poly.num_vars >= 1,
        ensures
            r.polynomial.num_vars == poly.num_vars,
            r.polynomial.evaluations@ == poly.evaluations@,
            r.sum == *sum,
            r.round_0_poly.evals() == half_sums(poly.evals()),
            r.rounds() == prover_rounds(
                poly.evals(),
                old(transcript).log() + elems_bytes(half_sums(poly.evals())),
                (poly.num_vars - 1) as nat,
            ),
            final(transcript).log() == prover_state(
                poly.evals(),
                old(transcript).log() + elems_bytes(half_sums(poly.evals())),
                (poly.num_vars - 1) as nat,
            ).1,
    {
        let round_0_poly = Prover::compute_round_zero_poly(poly, transcript);
        let ghost log0 = transcript.log();
        let mut cur = poly.clone();
        let mut round_poly: Vec<Multilinear> = Vec::new();
        let n = poly.num_vars;
        let mut i: usize = 1;
        proof {
            assert(cur.evals() =~= poly.evals());
        }
        while i < n
            invariant
                poly.wf(),
                n == poly.num_vars,
                1 <= i <= n,
                cur.wf(),
                cur.num_vars == n - (i - 1),
                prover_state(poly.evals(), log0, (i - 1) as nat).0 == cur.evals(),
                prover_state(poly.evals(), log0, (i - 1) as nat).1 == transcript.log(),
                round_poly.len() == i - 1,
                forall|k: int|
                    0 <= k < round_poly.len() ==> #[trigger] round_poly[k].evals()
                        == prover_rounds(poly.evals(), log0, (n - 1) as nat)[k],
            decreases n - i,
        {
            let r = transcript.sample_as_field_element();
            cur = cur.partial_evaluation(r, 0);
            proof {
                crate::multilinear::lemma_partial_eval_first(
                    prover_state(poly.evals(), log0, (i - 1) as nat).0,
                    (n - (i - 1)) as nat,
                    r@,
                );
            }
            let g = Prover::round_poly_of(&cur);
            transcript.append_elems(&g.evaluations);
            round_poly.push(g);
            i = i + 1;
        }
        let r = SumCheckProof { polynomial: poly.clone(), round_poly, round_0_poly, sum: *sum };
        proof {
            assert(r.rounds() =~= prover_rounds(poly.evals(), log0, (n - 1) as nat));
        }
        r
    }
}

impl Verifier {
    /// Checks a sum-check proof, replaying the transcript from an empty log.
    pub fn verify(proof: &SumCheckProof) -> (r: bool)
        requires
            proof.polynomial.wf(),
        ensures
            r == sumcheck_accepts(
                proof.polynomial.evals(),
                proof.polynomial.num_vars as nat,
                proof.sum@,
                proof.round_0_poly.evals(),
                proof.rounds(),
            ),
    {
        let f = &proof.polynomial;
        let g0 = &proof.round_0_poly.evaluations;
        if f.num_vars < 1 || g0.len() != 2 {
            return false;
        }
        if !g0[0].add(&g0[1]).eq(&proof.sum) {
            return false;
        }
        if proof.round_poly.len() != f.num_vars - 1 {
            return false;
        }
        let mut transcript = FiatShamirTranscript::default();
        transcript.append_elems(g0);
        let ghost log0 = transcript.log();
        let mut prev = multilinear_copy(g0);
        let mut rs: Vec<Fr> = Vec::new();
        let mut i: usize = 0;
        while i < proof.round_poly.len()
            invariant
                f == &proof.polynomial,
                g0 == &proof.round_0_poly.evaluations,
                proof.round_poly.len() == f.num_vars - 1,
                i <= proof.round_poly.len(),
                log0 == elems_bytes(proof.round_0_poly.evals()),
                verifier_state(proof.round_0_poly.evals(), proof.rounds(), log0, i as nat) == (
                    prev.deep_view(),
                    transcript.log(),
                    rs.deep_view(),
                ),
                prev.len() == 2,
                rs.len() == i,
                forall|k: int| 0 <= k < i ==> #[trigger] round_ok(proof.round_0_poly.evals(), proof.rounds(), log0, k),
            decreases proof.round_poly.len() - i,
        {
            let ghost log_before = transcript.log();
            let r = transcript.sample_as_field_element();
            let g = &proof.round_poly[i].evaluations;
            proof {
                assert(proof.rounds()[i as int] == g.deep_view());
                assert(r@ == challenge(log_before));
            }
            if g.len() != 2 {
                proof {
                    assert(!round_ok(proof.round_0_poly.evals(), proof.rounds(), log0, i as int));
                }
                return false;
            }
            let expected = crate::multilinear::multilinear_evalutation_equation(&r, &prev[0], &prev[1]);
            if !g[0].add(&g[1]).eq(&expected) {
                proof {
                    assert(!round_ok(proof.round_0_poly.evals(), proof.rounds(), log0, i as int));
                }
                return false;
            }
            transcript.append_elems(g);
            prev = multilinear_copy(g);
            rs.push(r);
            proof {
                assert(rs.deep_view() =~= verifier_state(proof.round_0_poly.evals(), proof.rounds(), log0, i as nat).2.push(r@));
            }
            i = i + 1;
        }
        let r = transcript.sample_as_field_element();
        rs.push(r);
        let ghost last_state = verifier_state(proof.round_0_poly.evals(), proof.rounds(), log0, proof.round_poly.len() as nat);
        proof {
            assert(rs.deep_view() =~= last_state.2.push(r@));
        }
        let expected = crate::multilinear::multilinear_evalutation_equation(&r, &prev[0], &prev[1]);
        match f.evaluate(&rs) {
            Some(v) => v.eq(&expected),
            None => false,
        }
    }
}

fn multilinear_copy(v: &Vec<Fr>) -> (r: Vec<Fr>)
    ensures
        r@ == v@,
        r.deep_view() == v.deep_view(),
{
    let r = crate::multilinear::copy_elems(v);
    proof {
        assert(r.deep_view() =~= v.deep_view());
    }
    r
}

} // verus!
