//! The multilinear sum-check in the style of "Algorithm 1": every polynomial is
//! kept as a list of pairs `(p(0, x'), p(1, x'))` over the first variable, and
//! each round folds the pairs at the verifier's challenge.
use crate::field::{
    decimal_digits, digits, extend_bytes, fadd, fmul, fr_display_text, fr_modulus, fsub, Fr,
};
use crate::algebra::{lemma_fadd_comm, lemma_fmul_comm};
use crate::multilinear::{fold_first, Multilinear};
use crate::pow2::{lemma_two_pow_monotone, lemma_two_pow_pos, two_pow};
use crate::sumcheck::seq_sum;
use crate::field::be_bytes;
use crate::transcript::{after_sample, challenge, scalars_log, FiatShamirTranscript, TranscriptProtocol};
use crate::virtual_verifier::elems;
use vstd::string::StringSliceAdditionalSpecFns;
use vstd::prelude::*;

verus! {

/// `p(0) (1 - a) + p(1) a`: the line through `(0, even)` and `(1, odd)` at `a`.
pub open spec fn lerp_at(even: int, odd: int, a: int) -> int {
    fadd(fmul(even, fsub(1, a)), fmul(odd, a))
}

/// A linear polynomial by its values at `0` (`even`) and `1` (`odd`).
#[derive(Clone, Copy, Debug, PartialEq, Eq)]
pub struct LinearLagrange {
    pub even: Fr,
    pub odd: Fr,
}

impl LinearLagrange {
    /// The pair of values.
    pub open spec fn pair(&self) -> (int, int) {
        (self.even@, self.odd@)
    }

    /// The linear polynomial with the values `even` at `0` and `odd` at `1`.
    pub fn new(even: &Fr, odd: &Fr) -> (r: LinearLagrange)
        ensures
            r.even == *even,
            r.odd == *odd,
    {
        LinearLagrange { even: *even, odd: *odd }
    }

    /// The sum of two linear polynomials.
    pub fn add(&self, other: &LinearLagrange) -> (r: LinearLagrange)
        ensures
            r.pair() == (fadd(self.even@, other.even@), fadd(self.odd@, other.odd@)),
    {
        LinearLagrange { even: self.even.add(&other.even), odd: self.odd.add(&other.odd) }
    }

    /// The difference of two linear polynomials.
    pub fn sub(&self, other: &LinearLagrange) -> (r: LinearLagrange)
        ensures
            r.pair() == (fsub(self.even@, other.even@), fsub(self.odd@, other.odd@)),
    {
        let even_result = self.even.sub(&other.even);
        let odd_result = self.odd.sub(&other.odd);
        LinearLagrange { even: even_result, odd: odd_result }
    }

    /// The pair as text, `LinearLagrange(even = e, odd = o)`, with the values
    /// written as `Display` writes field elements.
    pub fn to_text_bytes(&self) -> (r: Vec<u8>)
        ensures
            r@ == "LinearLagrange(even = ".spec_bytes() + fr_display_text(self.even@)
                + ", odd = ".spec_bytes() + fr_display_text(self.odd@) + ")".spec_bytes(),
    {
        let mut out: Vec<u8> = Vec::new();
        extend_bytes(&mut out, "LinearLagrange(even = ".as_bytes());
        let e = self.even.display_bytes();
        extend_bytes(&mut out, e.as_slice());
        extend_bytes(&mut out, ", odd = ".as_bytes());
        let o = self.odd.display_bytes();
        extend_bytes(&mut out, o.as_slice());
        extend_bytes(&mut out, ")".as_bytes());
        proof {
            assert(out@ =~= "LinearLagrange(even = ".spec_bytes() + fr_display_text(self.even@)
                + ", odd = ".spec_bytes() + fr_display_text(self.odd@) + ")".spec_bytes());
        }
        out
    }

    /// The value at `alpha`: `even (1 - alpha) + odd alpha`.
    pub fn evaluate_at(&self, alpha: Fr) -> (r: Fr)
        ensures
            r@ == lerp_at(self.even@, self.odd@, alpha@),
    {
        let one_minus = Fr::one().sub(&alpha);
        self.even.mul(&one_minus).add(&self.odd.mul(&alpha))
    }
}

/// The pairs of a list of linear polynomials.
pub open spec fn pairs(list: Seq<LinearLagrange>) -> Seq<(int, int)> {
    Seq::new(list.len(), |i: int| list[i].pair())
}

/// The list with every pair folded at `a`, the second half's folds becoming the
/// odd values of the first half: what one round does to the list of a
/// polynomial with `size` pairs.
pub open spec fn folded_in_half(ps: Seq<(int, int)>, size: nat, a: int) -> Seq<(int, int)> {
    Seq::new(
        size / 2,
        |i: int|
            (
                lerp_at(ps[i].0, ps[i].1, a),
                lerp_at(ps[i + size / 2].0, ps[i + size / 2].1, a),
            ),
    )
}

/// Folding the pair list of a table in half at `a` gives the pair list of the
/// table with its first variable fixed at `a`: `fold_in_half` on
/// `LinearLagrangeList::from(p)` is `LinearLagrangeList::from` of `p`'s partial
/// evaluation at variable 0.
pub proof fn lemma_fold_in_half_is_partial_evaluation(e: Seq<int>, a: int)
    requires
        e.len() % 4 == 0,
    ensures
        ({
            let s = e.len() / 2;
            let q = fold_first(e, a);
            folded_in_half(Seq::new(s, |i: int| (e[i], e[i + s])), s, a) == Seq::new(
                q.len() / 2,
                |i: int| (q[i], q[i + q.len() / 2]),
            )
        }),
{
    let s = e.len() / 2;
    let ps = Seq::new(s, |i: int| (e[i], e[i + s]));
    let q = fold_first(e, a);
    let lhs = folded_in_half(ps, s, a);
    let rhs = Seq::new(q.len() / 2, |i: int| (q[i], q[i + q.len() / 2]));
    assert forall|i: int| 0 <= i < lhs.len() implies #[trigger] lhs[i] == rhs[i] by {
        let j = i + s / 2;
        lemma_fmul_comm(e[i], fsub(1, a));
        lemma_fmul_comm(e[i + s], a);
        lemma_fadd_comm(fmul(fsub(1, a), e[i]), fmul(a, e[i + s]));
        lemma_fmul_comm(e[j], fsub(1, a));
        lemma_fmul_comm(e[j + s], a);
        lemma_fadd_comm(fmul(fsub(1, a), e[j]), fmul(a, e[j + s]));
    }
    assert(lhs =~= rhs);
}

/// The pairs of neighbouring pairs, each folded at `a`.
pub open spec fn folded_neighbours(ps: Seq<(int, int)>, size: nat, a: int) -> Seq<(int, int)> {
    Seq::new(
        (size + 1) / 2,
        |k: int|
            (
                lerp_at(ps[2 * k].0, ps[2 * k].1, a),
                lerp_at(ps[2 * k + 1].0, ps[2 * k + 1].1, a),
            ),
    )
}

/// The text of the pairs: `(e, o) ` for each.
pub open spec fn pairs_text(list: Seq<LinearLagrange>) -> Seq<u8>
    decreases list.len(),
{
    if list.len() == 0 {
        Seq::empty()
    } else {
        pairs_text(list.drop_last()) + "(".spec_bytes() + fr_display_text(list.last().even@)
            + ", ".spec_bytes() + fr_display_text(list.last().odd@) + ") ".spec_bytes()
    }
}

/// A multilinear polynomial as `size` pairs `(p(0, x'), p(1, x'))`.
#[derive(Clone, Debug, PartialEq, Eq)]
pub struct LinearLagrangeList {
    pub size: usize,
    pub list: Vec<LinearLagrange>,
}

impl LinearLagrangeList {
    /// The pairs held.
    pub open spec fn pairs_view(&self) -> Seq<(int, int)> {
        pairs(self.list@)
    }

    /// The list as text: `LinearLagrangeList(size = n, list = [(e, o) ...])`.
    pub fn to_text_bytes(&self) -> (r: Vec<u8>)
        ensures
            r@ == "LinearLagrangeList(size = ".spec_bytes() + digits(self.size as nat)
                + ", list = [".spec_bytes() + pairs_text(self.list@) + "])".spec_bytes(),
    {
        let mut out: Vec<u8> = Vec::new();
        extend_bytes(&mut out, "LinearLagrangeList(size = ".as_bytes());
        let d = decimal_digits(self.size as u64);
        extend_bytes(&mut out, d.as_slice());
        extend_bytes(&mut out, ", list = [".as_bytes());
        let ghost head = out@;
        let mut i: usize = 0;
        proof {
            assert(self.list@.subrange(0, 0) =~= Seq::<LinearLagrange>::empty());
            assert(out@ =~= head + pairs_text(self.list@.subrange(0, 0)));
        }
        while i < self.list.len()
            invariant
                i <= self.list.len(),
                out@ == head + pairs_text(self.list@.subrange(0, i as int)),
            decreases self.list.len() - i,
        {
            let ghost before = out@;
            extend_bytes(&mut out, "(".as_bytes());
            let e = self.list[i].even.display_bytes();
            extend_bytes(&mut out, e.as_slice());
            extend_bytes(&mut out, ", ".as_bytes());
            let o = self.list[i].odd.display_bytes();
            extend_bytes(&mut out, o.as_slice());
            extend_bytes(&mut out, ") ".as_bytes());
            proof {
                let after = self.list@.subrange(0, i + 1);
                assert(after.drop_last() =~= self.list@.subrange(0, i as int));
                assert(after.last() == self.list[i as int]);
                assert(out@ =~= head + pairs_text(after));
            }
            i = i + 1;
        }
        proof {
            assert(self.list@.subrange(0, self.list.len() as int) =~= self.list@);
        }
        extend_bytes(&mut out, "])".as_bytes());
        proof {
            assert(out@ =~= "LinearLagrangeList(size = ".spec_bytes() + digits(self.size as nat)
                + ", list = [".spec_bytes() + pairs_text(self.list@) + "])".spec_bytes());
        }
        out
    }

    /// The pairs of a table: entry `i` with entry `i + n/2`.
    pub fn from(polynomial: &Multilinear) -> (r: LinearLagrangeList)
        ensures
            r.size == polynomial.evaluations.len() / 2,
            r.pairs_view() == Seq::new(
                (polynomial.evaluations.len() / 2) as nat,
                |i: int| (polynomial.evals()[i], polynomial.evals()[i + polynomial.evaluations.len() / 2]),
            ),
    {
        let list_size = polynomial.evaluations.len() / 2;
        let mut poly_list: Vec<LinearLagrange> = Vec::new();
        let mut i: usize = 0;
        while i < list_size
            invariant
                list_size == polynomial.evaluations.len() / 2,
                i <= list_size,
                poly_list.len() == i,
                forall|k: int|
                    0 <= k < i ==> (#[trigger] poly_list[k]).pair() == (
                        polynomial.evals()[k],
                        polynomial.evals()[k + list_size],
                    ),
            decreases list_size - i,
        {
            poly_list.push(
                LinearLagrange::new(&polynomial.evaluations[i], &polynomial.evaluations[i + list_size]),
            );
            i = i + 1;
        }
        let r = LinearLagrangeList { size: list_size, list: poly_list };
        proof {
            assert(r.pairs_view() =~= Seq::new(
                list_size as nat,
                |i: int| (polynomial.evals()[i], polynomial.evals()[i + list_size]),
            ));
        }
        r
    }

    /// A list with the given size and pairs.
    pub fn new(list_size: &usize, poly_list: &Vec<LinearLagrange>) -> (r: LinearLagrangeList)
        ensures
            r.size == *list_size,
            r.list@ == poly_list@,
    {
        LinearLagrangeList { size: *list_size, list: poly_list.clone() }
    }

    /// `size` zero pairs.
    pub fn new_uninitialized(size: &usize) -> (r: LinearLagrangeList)
        ensures
            r.size == *size,
            r.pairs_view() == Seq::new(*size as nat, |i: int| (0int, 0int)),
    {
        let zero = Fr::zero();
        let v = LinearLagrange::new(&zero, &zero);
        let mut list: Vec<LinearLagrange> = Vec::new();
        let mut i: usize = 0;
        while i < *size
            invariant
                v.even@ == 0,
                v.odd@ == 0,
                i <= *size,
                list.len() == i,
                forall|k: int| 0 <= k < i ==> (#[trigger] list[k]).pair() == (0int, 0int),
            decreases *size - i,
        {
            list.push(v);
            i = i + 1;
        }
        let r = LinearLagrangeList { size: *size, list };
        proof {
            assert(r.pairs_view() =~= Seq::new(*size as nat, |i: int| (0int, 0int)));
        }
        r
    }

    /// The sums of the even and of the odd values of the first `size` pairs.
    pub fn list_accumulator(&self) -> (r: LinearLagrange)
        requires
            1 <= self.size <= self.list.len(),
        ensures
            r.even@ == seq_sum(Seq::new(self.size as nat, |i: int| self.list[i].even@)),
            r.odd@ == seq_sum(Seq::new(self.size as nat, |i: int| self.list[i].odd@)),
    {
        let zero = Fr::zero();
        let mut acc = LinearLagrange::new(&zero, &zero);
        let mut i: usize = 0;
        while i < self.size
            invariant
                self.size <= self.list.len(),
                i <= self.size,
                acc.even@ == seq_sum(Seq::new(i as nat, |k: int| self.list[k].even@)),
                acc.odd@ == seq_sum(Seq::new(i as nat, |k: int| self.list[k].odd@)),
            decreases self.size - i,
        {
            proof {
                assert(Seq::new((i + 1) as nat, |k: int| self.list[k].even@).drop_last() =~= Seq::new(
                    i as nat,
                    |k: int| self.list[k].even@,
                ));
                assert(Seq::new((i + 1) as nat, |k: int| self.list[k].odd@).drop_last() =~= Seq::new(
                    i as nat,
                    |k: int| self.list[k].odd@,
                ));
            }
            acc = acc.add(&self.list[i]);
            i = i + 1;
        }
        acc
    }

    /// One round of the sum-check on this polynomial: every pair is folded at
    /// `challenge`, the folds of the second half become the odd values of the
    /// first half, and the list keeps its first half.
    pub fn fold_in_half(&mut self, challenge: Fr)
        requires
            1 <= old(self).size <= old(self).list.len(),
        ensures
            final(self).size == old(self).size / 2,
            final(self).pairs_view() == folded_in_half(old(self).pairs_view(), old(self).size as nat, challenge@),
    {
        let ghost ps = self.pairs_view();
        let ghost size0 = self.size as nat;
        let one_minus = Fr::one().sub(&challenge);
        let mut j: usize = 0;
        while j < self.list.len()
            invariant
                ps == pairs(old(self).list@),
                self.size == size0,
                self.list.len() == ps.len(),
                size0 <= ps.len(),
                one_minus@ == fsub(1, challenge@),
                j <= self.list.len(),
                forall|k: int|
                    0 <= k < j ==> (#[trigger] self.list[k]).even@ == lerp_at(ps[k].0, ps[k].1, challenge@),
                forall|k: int| j <= k < self.list.len() ==> (#[trigger] self.list[k]).pair() == ps[k],
            decreases self.list.len() - j,
        {
            let item = self.list[j];
            let odd = item.odd.mul(&challenge);
            let even = item.even.mul(&one_minus).add(&odd);
            self.list.set(j, LinearLagrange { even, odd });
            j = j + 1;
        }
        let half = self.size / 2;
        let mut i: usize = 0;
        while i < half
            invariant
                half == size0 / 2,
                self.size == size0,
                self.list.len() == ps.len(),
                size0 <= ps.len(),
                i <= half,
                forall|k: int|
                    0 <= k < self.list.len() ==> (#[trigger] self.list[k]).even@ == lerp_at(ps[k].0, ps[k].1, challenge@),
                forall|k: int|
                    0 <= k < i ==> (#[trigger] self.list[k]).odd@ == lerp_at(
                        ps[k + half].0,
                        ps[k + half].1,
                        challenge@,
                    ),
            decreases half - i,
        {
            let moved = self.list[i + half].even;
            let item = self.list[i];
            self.list.set(i, LinearLagrange { even: item.even, odd: moved });
            i = i + 1;
        }
        self.size = half;
        self.list.truncate(half);
        proof {
            assert(self.pairs_view() =~= folded_in_half(ps, size0, challenge@));
        }
    }

    /// A list half the size: the folds at `challenge` of neighbouring pairs.
    pub fn fold_list(input: &LinearLagrangeList, challenge: Fr) -> (r: LinearLagrangeList)
        requires
            1 <= input.size,
            input.size + input.size % 2 <= input.list.len(),
        ensures
            r.size == (input.size + 1) / 2,
            r.pairs_view() == folded_neighbours(input.pairs_view(), input.size as nat, challenge@),
    {
        let mut poly_list: Vec<LinearLagrange> = Vec::new();
        let mut i: usize = 0;
        while i < input.size
            invariant
                input.size + input.size % 2 <= input.list.len(),
                i % 2 == 0,
                i <= input.size + input.size % 2,
                poly_list.len() == i / 2,
                forall|k: int|
                    0 <= k < i / 2 ==> (#[trigger] poly_list[k]).pair() == folded_neighbours(
                        input.pairs_view(),
                        input.size as nat,
                        challenge@,
                    )[k],
            decreases input.size + 1 - i,
        {
            let even = input.list[i].evaluate_at(challenge);
            let odd = input.list[i + 1].evaluate_at(challenge);
            poly_list.push(LinearLagrange { even, odd });
            i = i + 2;
        }
        let r = LinearLagrangeList { size: poly_list.len(), list: poly_list };
        proof {
            assert(r.pairs_view() =~= folded_neighbours(input.pairs_view(), input.size as nat, challenge@));
        }
        r
    }
}

/// Computes `ark_std::log2`: the ceiling of the base-2 logarithm, and zero for
/// zero. The contract states exactly that: the least `r` with `x <= 2^r`.
#[verifier::external_body]
fn ark_log2(x: usize) -> (r: u32)
    ensures
        x == 0 ==> r == 0,
        x >= 1 ==> x <= two_pow(r as nat) && (r >= 1 ==> two_pow((r - 1) as nat) < x),
{
    ark_std::log2(x)
}

/// The state of the prover: the polynomials as lists of pairs, and the shape of
/// the sum-check.
pub struct ProverState {
    pub randomness: Vec<Fr>,
    pub state_polynomials: Vec<LinearLagrangeList>,
    pub num_vars: usize,
    pub max_multiplicands: usize,
    pub round: usize,
}

/// A sum-check proof: each round polynomial by its values at `0, ..., degree`.
pub struct SumcheckProof {
    pub num_vars: usize,
    pub degree: usize,
    pub round_polynomials: Vec<Vec<Fr>>,
}

/// `s` halved `j` times (rounding down each time).
pub open spec fn halved(s: nat, j: nat) -> nat
    decreases j,
{
    if j == 0 {
        s
    } else {
        halved(s, (j - 1) as nat) / 2
    }
}

/// The pairs after one fold per challenge, starting with `s` pairs.
pub open spec fn fold_rounds(ps: Seq<(int, int)>, s: nat, alphas: Seq<int>) -> Seq<(int, int)>
    decreases alphas.len(),
{
    if alphas.len() == 0 {
        ps
    } else {
        folded_in_half(
            fold_rounds(ps, s, alphas.drop_last()),
            halved(s, (alphas.len() - 1) as nat),
            alphas.last(),
        )
    }
}

/// Every polynomial's pairs after the folds at `alphas`.
pub open spec fn ml_states(lists: Seq<Seq<(int, int)>>, s: nat, alphas: Seq<int>) -> Seq<Seq<(int, int)>> {
    Seq::new(lists.len(), |p: int| fold_rounds(lists[p], s, alphas))
}

/// The value at `k` of the line of a pair, as `(1 - k) even + k odd`.
pub open spec fn pair_at(p: (int, int), k: int) -> int {
    fadd(fmul(fsub(1, k), p.0), fmul(k, p.1))
}

/// The values at `k` of pair `i` of every polynomial: what the combining
/// function is given.
pub open spec fn point_values(states: Seq<Seq<(int, int)>>, i: int, k: int) -> Seq<int> {
    Seq::new(states.len(), |p: int| pair_at(states[p][i], k))
}

/// The arguments of the combining function for the value at `k` of a round
/// polynomial: one per pair.
pub open spec fn round_arguments(states: Seq<Seq<(int, int)>>, len: nat, k: int) -> Seq<Seq<int>> {
    Seq::new(len, |i: int| point_values(states, i, k))
}

/// `out` is a result of `combine` on a vector holding the values `arg`.
pub open spec fn returned<C: Fn(&Vec<Fr>) -> Fr>(combine: C, arg: Seq<int>, out: Fr) -> bool {
    exists|v: Vec<Fr>| elems(v@) == arg && #[trigger] call_ensures(combine, (&v,), out)
}

/// `total` is the sum of results of `combine` on each of `args`.
pub open spec fn combined_sum<C: Fn(&Vec<Fr>) -> Fr>(combine: C, args: Seq<Seq<int>>, total: int) -> bool {
    exists|outs: Seq<Fr>|
        outs.len() == args.len() && (forall|i: int|
            0 <= i < args.len() ==> #[trigger] returned(combine, args[i], outs[i])) && total == seq_sum(
            elems(outs),
        )
}

/// The transcript bytes of one round polynomial.
pub open spec fn round_log(r: Seq<int>) -> Seq<u8> {
    "r_poly".spec_bytes() + "begin_append_vector".spec_bytes() + scalars_log("r_poly".spec_bytes(), r)
        + "r_poly".spec_bytes() + "end_append_vector".spec_bytes()
}

/// The transcript bytes of the domain separator.
pub open spec fn domain_log(num_vars: nat, m: nat) -> Seq<u8> {
    "domain-separator".spec_bytes() + "sumcheck v1".spec_bytes() + "n".spec_bytes() + be_bytes(
        num_vars as int,
        8,
    ) + "m".spec_bytes() + be_bytes(m as int, 8)
}

/// The log after `j` rounds, and the challenges drawn in them.
pub open spec fn ml_transcript(log0: Seq<u8>, rounds: Seq<Seq<int>>, j: nat) -> (Seq<u8>, Seq<int>)
    decreases j,
{
    if j == 0 {
        (log0, Seq::empty())
    } else {
        let (l, a) = ml_transcript(log0, rounds, (j - 1) as nat);
        let l2 = l + round_log(rounds[j - 1]);
        (after_sample(l2), a.push(challenge(l2)))
    }
}

/// The field values of each vector.
pub open spec fn vec_elems(v: Seq<Vec<Fr>>) -> Seq<Seq<int>> {
    Seq::new(v.len(), |i: int| elems(v[i]@))
}

/// The pairs of each list.
pub open spec fn lists_pairs(v: Seq<LinearLagrangeList>) -> Seq<Seq<(int, int)>> {
    Seq::new(v.len(), |i: int| v[i].pairs_view())
}

/// Enough pairs are left for `j` more folds.
proof fn lemma_halved_bound(s: nat, m: nat, j: nat)
    requires
        two_pow(m) <= s,
        j <= m,
    ensures
        two_pow((m - j) as nat) <= halved(s, j),
    decreases j,
{
    if j > 0 {
        lemma_halved_bound(s, m, (j - 1) as nat);
        crate::pow2::lemma_two_pow_half((m - j + 1) as nat);
        vstd::arithmetic::div_mod::lemma_div_is_ordered(
            two_pow((m - j + 1) as nat) as int,
            halved(s, (j - 1) as nat) as int,
            2,
        );
    }
}

/// The interactive proof for the multilinear sum-check.
pub struct IPForMLSumcheck;

impl IPForMLSumcheck {
    /// The prover's state for the given polynomials (at least one, all of the
    /// same power-of-two number of pairs) and round-polynomial degree: as many
    /// variables as twice the number of pairs has binary digits after the first.
    pub fn prover_init(polynomials: &Vec<LinearLagrangeList>, sumcheck_poly_degree: usize) -> (r: ProverState)
        requires
            polynomials.len() > 0,
            forall|j: int|
                0 <= j < polynomials.len() ==> (#[trigger] polynomials[j]).size == polynomials[0].size,
            exists|k: nat| #[trigger] two_pow(k) == polynomials[0].size,
            2 * polynomials[0].size <= usize::MAX,
        ensures
            r.randomness@ == Seq::<Fr>::empty(),
            r.state_polynomials.len() == polynomials.len(),
            forall|j: int|
                0 <= j < polynomials.len() ==> (#[trigger] r.state_polynomials[j]).size == polynomials[j].size
                    && r.state_polynomials[j].list@ == polynomials[j].list@,
            two_pow(r.num_vars as nat) == 2 * polynomials[0].size,
            r.max_multiplicands == sumcheck_poly_degree,
            r.round == 0,
    {
        let problem_size = polynomials[0].size;
        let l = ark_log2(2 * problem_size);
        proof {
            let k = choose|k: nat| #[trigger] two_pow(k) == problem_size;
            assert(two_pow(k + 1) == 2 * problem_size);
            if l as nat > k + 1 {
                lemma_two_pow_monotone(k + 1, (l - 1) as nat);
            }
            if (l as nat) < k + 1 {
                lemma_two_pow_monotone(l as nat, k);
                lemma_two_pow_pos(k);
            }
        }
        let num_variables = l as usize;
        let mut state_polynomials: Vec<LinearLagrangeList> = Vec::new();
        let mut j: usize = 0;
        while j < polynomials.len()
            invariant
                j <= polynomials.len(),
                state_polynomials.len() == j,
                forall|q: int|
                    0 <= q < j ==> (#[trigger] state_polynomials[q]).size == polynomials[q].size
                        && state_polynomials[q].list@ == polynomials[q].list@,
            decreases polynomials.len() - j,
        {
            state_polynomials.push(LinearLagrangeList::new(&polynomials[j].size, &polynomials[j].list));
            j = j + 1;
        }
        ProverState {
            randomness: Vec::new(),
            state_polynomials,
            num_vars: num_variables,
            max_multiplicands: sumcheck_poly_degree,
            round: 0,
        }
    }
}

/// The point `k` as the prover takes it: `k` as a 32-bit integer.
pub open spec fn round_point(k: nat) -> int {
    (k % 0x1_0000_0000) as int
}

/// The value at `k` of the round polynomial: the sum, over the first `len`
/// pairs, of `combine` on the values of every polynomial's pair there.
fn round_value<C: Fn(&Vec<Fr>) -> Fr>(
    states: &Vec<LinearLagrangeList>,
    len: usize,
    k: usize,
    combine_function: &C,
) -> (r: Fr)
    requires
        forall|p: int| 0 <= p < states.len() ==> len <= (#[trigger] states[p]).list.len(),
        forall|v: Vec<Fr>| #[trigger] call_requires(*combine_function, (&v,)),
    ensures
        combined_sum(
            *combine_function,
            round_arguments(lists_pairs(states@), len as nat, round_point(k as nat)),
            r@,
        ),
{
    let ghost st = lists_pairs(states@);
    let ghost kk = round_point(k as nat);
    let ghost args = round_arguments(st, len as nat, kk);
    let k64 = k as u64;
    let small = k64 as u32;
    proof {
        assert(small as int == k64 % 0x1_0000_0000) by (bit_vector)
            requires
                small == k64 as u32,
        ;
    }
    let kf = Fr::from_u64(small as u64);
    let one_minus = Fr::one().sub(&kf);
    let mut acc = Fr::zero();
    let ghost mut outs: Seq<Fr> = Seq::empty();
    let mut i: usize = 0;
    while i < len
        invariant
            st == lists_pairs(states@),
            args == round_arguments(st, len as nat, kk),
            kf@ == kk,
            one_minus@ == fsub(1, kk),
            forall|p: int| 0 <= p < states.len() ==> len <= (#[trigger] states[p]).list.len(),
            forall|v: Vec<Fr>| #[trigger] call_requires(*combine_function, (&v,)),
            i <= len,
            outs.len() == i,
            forall|q: int| 0 <= q < i ==> #[trigger] returned(*combine_function, args[q], outs[q]),
            acc@ == seq_sum(elems(outs)),
        decreases len - i,
    {
        let mut evals: Vec<Fr> = Vec::new();
        let mut p: usize = 0;
        while p < states.len()
            invariant
                st == lists_pairs(states@),
                kf@ == kk,
                one_minus@ == fsub(1, kk),
                forall|q: int| 0 <= q < states.len() ==> len <= (#[trigger] states[q]).list.len(),
                i < len,
                p <= states.len(),
                evals.len() == p,
                forall|q: int| 0 <= q < p ==> (#[trigger] evals[q])@ == pair_at(st[q][i as int], kk),
            decreases states.len() - p,
        {
            let e = states[p].list[i];
            let v = one_minus.mul(&e.even).add(&kf.mul(&e.odd));
            evals.push(v);
            p = p + 1;
        }
        let out = combine_function(&evals);
        proof {
            assert(elems(evals@) =~= point_values(st, i as int, kk));
            assert(args[i as int] == point_values(st, i as int, kk));
            assert(returned(*combine_function, args[i as int], out));
            assert(elems(outs.push(out)).drop_last() =~= elems(outs));
            outs = outs.push(out);
        }
        acc = acc.add(&out);
        i = i + 1;
    }
    proof {
        assert(combined_sum(*combine_function, args, acc@));
    }
    acc
}

/// The log and the challenges of the first `j` rounds depend on those rounds
/// only.
proof fn lemma_transcript_prefix(log0: Seq<u8>, r1: Seq<Seq<int>>, r2: Seq<Seq<int>>, j: nat)
    requires
        j <= r1.len(),
        j <= r2.len(),
        forall|i: int| 0 <= i < j ==> r1[i] == r2[i],
    ensures
        ml_transcript(log0, r1, j) == ml_transcript(log0, r2, j),
    decreases j,
{
    if j > 0 {
        lemma_transcript_prefix(log0, r1, r2, (j - 1) as nat);
    }
}

/// The values at `0, ..., d` of the round polynomial.
fn round_polynomial<C: Fn(&Vec<Fr>) -> Fr>(
    states: &Vec<LinearLagrangeList>,
    len: usize,
    d: usize,
    combine_function: &C,
) -> (r: Vec<Fr>)
    requires
        d < usize::MAX,
        forall|p: int| 0 <= p < states.len() ==> len <= (#[trigger] states[p]).list.len(),
        forall|v: Vec<Fr>| #[trigger] call_requires(*combine_function, (&v,)),
    ensures
        r.len() == d + 1,
        forall|k: int|
            0 <= k <= d ==> combined_sum(
                *combine_function,
                round_arguments(lists_pairs(states@), len as nat, round_point(k as nat)),
                (#[trigger] r[k])@,
            ),
{
    let mut r: Vec<Fr> = Vec::new();
    let mut k: usize = 0;
    while k <= d
        invariant
            d < usize::MAX,
            forall|p: int| 0 <= p < states.len() ==> len <= (#[trigger] states[p]).list.len(),
            forall|v: Vec<Fr>| #[trigger] call_requires(*combine_function, (&v,)),
            k <= d + 1,
            r.len() == k,
            forall|q: int|
                0 <= q < k ==> combined_sum(
                    *combine_function,
                    round_arguments(lists_pairs(states@), len as nat, round_point(q as nat)),
                    (#[trigger] r[q])@,
                ),
        decreases d + 1 - k,
    {
        let v = round_value(states, len, k, combine_function);
        r.push(v);
        k = k + 1;
    }
    r
}


/// `j` rounds draw `j` challenges.
proof fn lemma_transcript_len(log0: Seq<u8>, rounds: Seq<Seq<int>>, j: nat)
    ensures
        ml_transcript(log0, rounds, j).1.len() == j,
    decreases j,
{
    if j > 0 {
        lemma_transcript_len(log0, rounds, (j - 1) as nat);
    }
}

/// One more challenge folds every polynomial once more.
proof fn lemma_states_step(lists: Seq<Seq<(int, int)>>, s0: nat, alphas: Seq<int>, a: int)
    ensures
        forall|p: int|
            0 <= p < lists.len() ==> #[trigger] ml_states(lists, s0, alphas.push(a))[p] == folded_in_half(
                ml_states(lists, s0, alphas)[p],
                halved(s0, alphas.len()),
                a,
            ),
{
    assert(alphas.push(a).drop_last() =~= alphas);
}

/// Folds every polynomial at `alpha`.
fn fold_states(states: &mut Vec<LinearLagrangeList>, alpha: Fr)
    requires
        forall|p: int|
            0 <= p < old(states).len() ==> 1 <= (#[trigger] old(states)[p]).size && old(states)[p].size
                == old(states)[p].list.len(),
    ensures
        final(states).len() == old(states).len(),
        forall|p: int|
            0 <= p < old(states).len() ==> (#[trigger] final(states)[p]).size == old(states)[p].size / 2
                && final(states)[p].list.len() == final(states)[p].size && final(states)[p].pairs_view()
                == folded_in_half(old(states)[p].pairs_view(), old(states)[p].size as nat, alpha@),
{
    let ghost before = states@;
    let mut p: usize = 0;
    while p < states.len()
        invariant
            states.len() == before.len(),
            p <= states.len(),
            forall|q: int|
                0 <= q < before.len() ==> 1 <= (#[trigger] before[q]).size && before[q].size
                    == before[q].list.len(),
            forall|q: int|
                0 <= q < p ==> (#[trigger] states[q]).size == before[q].size / 2 && states[q].list.len()
                    == states[q].size && states[q].pairs_view() == folded_in_half(
                    before[q].pairs_view(),
                    before[q].size as nat,
                    alpha@,
                ),
            forall|q: int| p <= q < states.len() ==> #[trigger] states[q] == before[q],
        decreases states.len() - p,
    {
        let mut poly = LinearLagrangeList::new(&states[p].size, &states[p].list);
        poly.fold_in_half(alpha);
        proof {
            assert(poly.list.len() == poly.pairs_view().len());
        }
        states.set(p, poly);
        p = p + 1;
    }
}

impl IPForMLSumcheck {
    /// The sum-check proof, one round polynomial per variable, each by its
    /// values at `0, ..., max_multiplicands`: the value at `k` is the sum over
    /// the pairs of `combine_function` on every polynomial's value at `k`.
    /// After each round polynomial is appended to the transcript, the challenge
    /// drawn folds every polynomial.
    pub fn prove<C: Fn(&Vec<Fr>) -> Fr>(
        prover_state: &mut ProverState,
        combine_function: &C,
        transcript: &mut FiatShamirTranscript,
    ) -> (r: SumcheckProof)
        requires
            old(prover_state).state_polynomials.len() > 0,
            forall|p: int|
                0 <= p < old(prover_state).state_polynomials.len() ==> (
                #[trigger] old(prover_state).state_polynomials[p]).size
                    == old(prover_state).state_polynomials[0].size
                    && old(prover_state).state_polynomials[p].list.len()
                    == old(prover_state).state_polynomials[0].size,
            old(prover_state).num_vars >= 1 ==> two_pow((old(prover_state).num_vars - 1) as nat)
                <= old(prover_state).state_polynomials[0].size,
            old(prover_state).max_multiplicands < usize::MAX,
            forall|v: Vec<Fr>| #[trigger] call_requires(*combine_function, (&v,)),
        ensures
            ({
                let n = old(prover_state).num_vars as nat;
                let d = old(prover_state).max_multiplicands as nat;
                let s0 = old(prover_state).state_polynomials[0].size as nat;
                let lists = lists_pairs(old(prover_state).state_polynomials@);
                let rounds = vec_elems(r.round_polynomials@);
                let log0 = old(transcript).log() + domain_log(n, d);
                &&& r.num_vars == n
                &&& r.degree == d
                &&& rounds.len() == n
                &&& forall|j: int| 0 <= j < n ==> (#[trigger] rounds[j]).len() == d + 1
                &&& forall|j: int, k: int|
                    0 <= j < n && 0 <= k <= d ==> combined_sum(
                        *combine_function,
                        round_arguments(
                            ml_states(lists, s0, ml_transcript(log0, rounds, j as nat).1),
                            halved(s0, j as nat),
                            round_point(k as nat),
                        ),
                        #[trigger] rounds[j][k],
                    )
                &&& final(transcript).log() == ml_transcript(log0, rounds, n).0
                &&& lists_pairs(final(prover_state).state_polynomials@) == ml_states(
                    lists,
                    s0,
                    ml_transcript(log0, rounds, n).1,
                )
                &&& final(prover_state).state_polynomials.len() == lists.len()
                &&& forall|p: int|
                    0 <= p < lists.len() ==> (#[trigger] final(prover_state).state_polynomials[p]).size
                        == halved(s0, n)
                &&& final(prover_state).randomness@ == old(prover_state).randomness@
                &&& final(prover_state).num_vars == old(prover_state).num_vars
                &&& final(prover_state).max_multiplicands == old(prover_state).max_multiplicands
                &&& final(prover_state).round == old(prover_state).round
            }),
    {
        let n = prover_state.num_vars;
        let d = prover_state.max_multiplicands;
        let ghost s0 = prover_state.state_polynomials[0].size as nat;
        let ghost lists = lists_pairs(prover_state.state_polynomials@);
        let m = prover_state.state_polynomials.len();
        transcript.sumcheck_proof_domain_sep(n as u64, d as u64);
        let ghost log0 = transcript.log();
        proof {
            assert(log0 == old(transcript).log() + domain_log(n as nat, d as nat));
            assert(lists_pairs(prover_state.state_polynomials@) =~= ml_states(lists, s0, Seq::empty()));
        }
        let mut r_polys: Vec<Vec<Fr>> = Vec::new();
        let mut round_index: usize = 0;
        while round_index < n
            invariant
                n == prover_state.num_vars,
                d == prover_state.max_multiplicands,
                d < usize::MAX,
                n >= 1 ==> two_pow((n - 1) as nat) <= s0,
                prover_state.randomness@ == old(prover_state).randomness@,
                prover_state.round == old(prover_state).round,
                forall|v: Vec<Fr>| #[trigger] call_requires(*combine_function, (&v,)),
                m == prover_state.state_polynomials.len(),
                m == lists.len(),
                m > 0,
                round_index <= n,
                r_polys.len() == round_index,
                forall|j: int| 0 <= j < round_index ==> (#[trigger] r_polys[j]).len() == d + 1,
                transcript.log() == ml_transcript(log0, vec_elems(r_polys@), round_index as nat).0,
                lists_pairs(prover_state.state_polynomials@) == ml_states(
                    lists,
                    s0,
                    ml_transcript(log0, vec_elems(r_polys@), round_index as nat).1,
                ),
                forall|p: int|
                    0 <= p < m ==> (#[trigger] prover_state.state_polynomials[p]).size == halved(
                        s0,
                        round_index as nat,
                    ) && prover_state.state_polynomials[p].list.len() == halved(s0, round_index as nat),
                forall|j: int, k: int|
                    0 <= j < round_index && 0 <= k <= d ==> combined_sum(
                        *combine_function,
                        round_arguments(
                            ml_states(lists, s0, ml_transcript(log0, vec_elems(r_polys@), j as nat).1),
                            halved(s0, j as nat),
                            round_point(k as nat),
                        ),
                        #[trigger] vec_elems(r_polys@)[j][k],
                    ),
            decreases n - round_index,
        {
            let ghost rounds_before = vec_elems(r_polys@);
            let ghost alphas = ml_transcript(log0, rounds_before, round_index as nat).1;
            proof {
                lemma_halved_bound(s0, (n - 1) as nat, round_index as nat);
                lemma_two_pow_pos((n - 1 - round_index) as nat);
            }
            let state_polynomial_len = prover_state.state_polynomials[0].list.len();
            let rp = round_polynomial(&prover_state.state_polynomials, state_polynomial_len, d, combine_function);
            let ghost l = transcript.log();
            transcript.append_scalars("r_poly", rp.as_slice());
            proof {
                assert(rp@.map_values(|x: Fr| x@) == elems(rp@));
                assert(transcript.log() == l + round_log(elems(rp@)));
            }
            let ghost l2 = transcript.log();
            // the label "challenge_nextround"
            let alpha = transcript.challenge_scalar(
                &[99u8, 104, 97, 108, 108, 101, 110, 103, 101, 95, 110, 101, 120, 116, 114, 111, 117, 110, 100],
            );
            let ghost states_before = prover_state.state_polynomials@;
            fold_states(&mut prover_state.state_polynomials, alpha);
            proof {
                lemma_transcript_len(log0, rounds_before, round_index as nat);
                lemma_states_step(lists, s0, alphas, alpha@);
                assert(lists_pairs(prover_state.state_polynomials@) =~= ml_states(
                    lists,
                    s0,
                    alphas.push(alpha@),
                )) by {
                    assert forall|q: int| 0 <= q < m implies #[trigger] lists_pairs(
                        prover_state.state_polynomials@,
                    )[q] == ml_states(lists, s0, alphas.push(alpha@))[q] by {
                        assert(states_before[q].pairs_view() == ml_states(lists, s0, alphas)[q]);
                    }
                }
            }
            let ghost before = r_polys@;
            r_polys.push(rp);
            proof {
                let rounds_after = vec_elems(r_polys@);
                assert(rounds_after =~= rounds_before.push(elems(rp@)));
                assert forall|j: nat| j <= round_index implies ml_transcript(log0, rounds_after, j)
                    == ml_transcript(log0, rounds_before, j) by {
                    lemma_transcript_prefix(log0, rounds_after, rounds_before, j);
                }
                assert(ml_transcript(log0, rounds_after, round_index as nat) == ml_transcript(
                    log0,
                    rounds_before,
                    round_index as nat,
                ));
                assert(lists_pairs(prover_state.state_polynomials@) =~= ml_states(
                    lists,
                    s0,
                    alphas.push(alpha@),
                ));
                assert forall|j: int, k: int|
                    0 <= j < round_index + 1 && 0 <= k <= d implies combined_sum(
                    *combine_function,
                    round_arguments(
                        ml_states(lists, s0, ml_transcript(log0, rounds_after, j as nat).1),
                        halved(s0, j as nat),
                        round_point(k as nat),
                    ),
                    #[trigger] rounds_after[j][k],
                ) by {
                    assert(ml_transcript(log0, rounds_after, j as nat) == ml_transcript(
                        log0,
                        rounds_before,
                        j as nat,
                    ));
                    if j < round_index {
                        assert(rounds_after[j] == rounds_before[j]);
                    } else {
                        assert(rounds_after[j][k] == rp[k]@);
                    }
                }
            }
            round_index = round_index + 1;
        }
        SumcheckProof { num_vars: n, degree: d, round_polynomials: r_polys }
    }
}

/// The values of every polynomial at position `x` of its table, for lists of
/// `s0` pairs `(p(x'), p(x' + s0))`.
pub open spec fn table_values(lists: Seq<Seq<(int, int)>>, s0: nat, x: int) -> Seq<int> {
    Seq::new(
        lists.len(),
        |p: int|
            if x < s0 {
                lists[p][x].0
            } else {
                lists[p][x - s0].1
            },
    )
}

/// A combining function that computes `g` gives, on each argument, `g` of it.
proof fn lemma_combined_sum_is_sum<C: Fn(&Vec<Fr>) -> Fr>(
    combine: C,
    g: spec_fn(Seq<int>) -> int,
    args: Seq<Seq<int>>,
    total: int,
)
    requires
        forall|v: Vec<Fr>, o: Fr| #[trigger] call_ensures(combine, (&v,), o) ==> o@ == g(elems(v@)),
        combined_sum(combine, args, total),
    ensures
        total == seq_sum(Seq::new(args.len(), |i: int| g(args[i]))),
{
    let outs = choose|outs: Seq<Fr>|
        outs.len() == args.len() && (forall|i: int|
            0 <= i < args.len() ==> #[trigger] returned(combine, args[i], outs[i])) && total
            == seq_sum(elems(outs));
    assert forall|i: int| 0 <= i < args.len() implies #[trigger] elems(outs)[i] == g(args[i]) by {
        assert(returned(combine, args[i], outs[i]));
        let v = choose|v: Vec<Fr>| elems(v@) == args[i] && #[trigger] call_ensures(combine, (&v,), outs[i]);
    }
    assert(elems(outs) =~= Seq::new(args.len(), |i: int| g(args[i])));
}

/// The first round polynomial adds up, over `0` and `1`, to the sum over the
/// whole table of the combined values: whatever the combining function `g`
/// (given as the function that the combining closure computes), the values at
/// `0` and `1` of the first round polynomial of the multilinear sum-check add up
/// to `sum_x g(f_1(x), ..., f_m(x))` over all `2 s0` positions.
pub proof fn lemma_first_round_sum<C: Fn(&Vec<Fr>) -> Fr>(
    combine: C,
    g: spec_fn(Seq<int>) -> int,
    lists: Seq<Seq<(int, int)>>,
    s0: nat,
    t0: int,
    t1: int,
)
    requires
        forall|v: Vec<Fr>, o: Fr| #[trigger] call_ensures(combine, (&v,), o) ==> o@ == g(elems(v@)),
        forall|p: int, i: int|
            0 <= p < lists.len() && 0 <= i < s0 ==> 0 <= (#[trigger] lists[p][i]).0 < fr_modulus() && 0
                <= lists[p][i].1 < fr_modulus(),
        combined_sum(combine, round_arguments(lists, s0, round_point(0)), t0),
        combined_sum(combine, round_arguments(lists, s0, round_point(1)), t1),
    ensures
        fadd(t0, t1) == seq_sum(Seq::new(2 * s0, |x: int| g(table_values(lists, s0, x)))),
{
    assert(round_point(0) == 0);
    assert(round_point(1) == 1);
    let a0 = round_arguments(lists, s0, 0);
    let a1 = round_arguments(lists, s0, 1);
    lemma_combined_sum_is_sum(combine, g, a0, t0);
    lemma_combined_sum_is_sum(combine, g, a1, t1);
    let lo = Seq::new(s0, |i: int| g(a0[i]));
    let hi = Seq::new(s0, |i: int| g(a1[i]));
    assert forall|i: int| 0 <= i < s0 implies #[trigger] a0[i] == table_values(lists, s0, i) by {
        assert forall|p: int| 0 <= p < lists.len() implies #[trigger] point_values(lists, i, 0)[p]
            == table_values(lists, s0, i)[p] by {
            let e = lists[p][i].0;
            vstd::arithmetic::div_mod::lemma_small_mod(e as nat, fr_modulus() as nat);
            assert(fsub(1, 0) == 1);
            crate::algebra::lemma_fmul_one(e);
            crate::algebra::lemma_fmul_comm(1, e);
            assert(fmul(0, lists[p][i].1) == 0);
            crate::algebra::lemma_fadd_zero(e);
        }
        assert(point_values(lists, i, 0) =~= table_values(lists, s0, i));
    }
    assert forall|i: int| 0 <= i < s0 implies #[trigger] a1[i] == table_values(lists, s0, i + s0) by {
        assert forall|p: int| 0 <= p < lists.len() implies #[trigger] point_values(lists, i, 1)[p]
            == table_values(lists, s0, i + s0)[p] by {
            let o = lists[p][i].1;
            vstd::arithmetic::div_mod::lemma_small_mod(o as nat, fr_modulus() as nat);
            assert(fsub(1, 1) == 0);
            assert(fmul(0, lists[p][i].0) == 0);
            crate::algebra::lemma_fmul_one(o);
            crate::algebra::lemma_fmul_comm(1, o);
            crate::algebra::lemma_fadd_zero(o);
        }
        assert(point_values(lists, i, 1) =~= table_values(lists, s0, i + s0));
    }
    crate::sumcheck::lemma_seq_sum_concat(lo, hi);
    assert(lo + hi =~= Seq::new(2 * s0, |x: int| g(table_values(lists, s0, x))));
}

} // verus!
