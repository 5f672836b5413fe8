//! The verifier of the sum-check for virtual polynomials, as a state machine:
//! each round message is recorded together with the challenge drawn for it, and
//! at the end the recorded messages are checked against the claimed sum.
use crate::field::{fadd, Fr};
use crate::transcript::{after_sample, challenge, FiatShamirTranscript};
use crate::virtual_poly::{
    interpolate_uni_poly, interpolation_denominator, lagrange_at_nodes, VirtualSumCheckError,
};
use vstd::prelude::*;
use vstd::string::StringSliceAdditionalSpecFns;

verus! {

/// A round message: the round polynomial's values at `0, 1, ..., d`.
pub struct SumCheckProverMessage {
    pub evaluations: Vec<Fr>,
}

/// What the sum-check reduces the claim to: the polynomial's value at `point`
/// must be `expected_evaluation`.
pub struct SumCheckSubClaim {
    pub point: Vec<Fr>,
    pub expected_evaluation: Fr,
}

/// The field values of a list of field elements.
pub open spec fn elems(v: Seq<Fr>) -> Seq<int> {
    v.map_values(|x: Fr| x@)
}

/// The field values of a list of messages.
pub open spec fn messages(v: Seq<Vec<Fr>>) -> Seq<Seq<int>> {
    v.map_values(|p: Vec<Fr>| p@.map_values(|x: Fr| x@))
}

/// The label appended to the transcript before each challenge.
pub open spec fn round_label() -> Seq<u8> {
    "Internal round".spec_bytes()
}

/// Whether round `k` can be checked: it has `max_degree + 1` values, its
/// challenge lies past the nodes `0, ..., max_degree`, and no denominator of the
/// interpolation at the challenge vanishes.
pub open spec fn round_ok(received: Seq<Seq<int>>, challenges: Seq<int>, max_degree: nat, k: int) -> bool {
    &&& received[k].len() == max_degree + 1
    &&& received[k].len() <= challenges[k]
    &&& forall|i: int|
        0 <= i < received[k].len() ==> #[trigger] interpolation_denominator(
            received[k].len(),
            challenges[k],
            i,
        ) != 0
}

/// The error for a round that cannot be checked.
pub open spec fn round_error(
    received: Seq<Seq<int>>,
    challenges: Seq<int>,
    max_degree: nat,
    k: int,
) -> VirtualSumCheckError {
    if received[k].len() != max_degree + 1 {
        VirtualSumCheckError::WrongEvaluationCount
    } else if challenges[k] < received[k].len() {
        VirtualSumCheckError::ChallengeOnNode
    } else {
        VirtualSumCheckError::VanishingDenominator
    }
}

/// The number of rounds that have both a message and a challenge.
pub open spec fn paired(received: Seq<Seq<int>>, challenges: Seq<int>) -> nat {
    if received.len() <= challenges.len() {
        received.len()
    } else {
        challenges.len()
    }
}

/// The claimed sum, then the value of each round polynomial at its challenge.
pub open spec fn expected_values(sum: int, received: Seq<Seq<int>>, challenges: Seq<int>) -> Seq<int> {
    seq![sum] + Seq::new(
        paired(received, challenges),
        |k: int| lagrange_at_nodes(received[k], challenges[k]),
    )
}

/// Whether round `k` sums, over `0` and `1`, to what was expected of it.
pub open spec fn round_consistent(received: Seq<Seq<int>>, expected: Seq<int>, k: int) -> bool {
    fadd(received[k][0], received[k][1]) == expected[k]
}

/// What checking the recorded rounds against the claimed `sum` gives: refusal
/// before the last round or when the number of messages is not the number of
/// variables; then the first round that cannot be interpolated; then a round
/// whose values at `0` and `1` do not add up to what the previous round (or the
/// claimed sum) promised; and otherwise the challenges and the last expected
/// value.
pub open spec fn subclaim_outcome(
    finished: bool,
    num_vars: nat,
    max_degree: nat,
    received: Seq<Seq<int>>,
    challenges: Seq<int>,
    sum: int,
    r: Result<SumCheckSubClaim, VirtualSumCheckError>,
) -> bool {
    let n = paired(received, challenges);
    let expected = expected_values(sum, received, challenges);
    if !finished {
        r == Err::<SumCheckSubClaim, VirtualSumCheckError>(VirtualSumCheckError::VerifierNotFinished)
    } else if received.len() != num_vars {
        r == Err::<SumCheckSubClaim, VirtualSumCheckError>(VirtualSumCheckError::InsufficientRounds)
    } else if exists|k: int| 0 <= k < n && !#[trigger] round_ok(received, challenges, max_degree, k) {
        exists|k: int|
            0 <= k < n && !#[trigger] round_ok(received, challenges, max_degree, k) && (forall|j: int|
                0 <= j < k ==> round_ok(received, challenges, max_degree, j)) && r == Err::<
                SumCheckSubClaim,
                VirtualSumCheckError,
            >(round_error(received, challenges, max_degree, k))
    } else if exists|k: int| 0 <= k < num_vars && !#[trigger] round_consistent(received, expected, k) {
        r == Err::<SumCheckSubClaim, VirtualSumCheckError>(VirtualSumCheckError::InconsistentClaim)
    } else {
        r matches Ok(c) && elems(c.point@) == challenges && c.expected_evaluation@ == expected[num_vars as int]
    }
}

/// The verifier of the virtual sum-check.
pub struct VirtualVerifier {
    pub(crate) round: usize,
    pub(crate) num_vars: usize,
    pub(crate) max_degree: usize,
    pub(crate) finished: bool,
    /// The round polynomials received, each by its values at `0, 1, ..., d`.
    pub(crate) polynomials_received: Vec<Vec<Fr>>,
    /// The challenge drawn in each round.
    pub(crate) challenges: Vec<Fr>,
}

impl VirtualVerifier {
    /// The round counter never passes the number of variables.
    pub closed spec fn wf(&self) -> bool {
        &&& self.round <= self.num_vars
        &&& self.polynomials_received.len() == self.challenges.len()
    }

    /// The number of rounds completed so far.
    pub closed spec fn round_count(&self) -> nat {
        self.round as nat
    }

    /// The number of variables of the polynomial.
    pub closed spec fn vars(&self) -> nat {
        self.num_vars as nat
    }

    /// The degree of each round polynomial.
    pub closed spec fn degree(&self) -> nat {
        self.max_degree as nat
    }

    /// Whether the last round is behind.
    pub closed spec fn is_finished(&self) -> bool {
        self.finished
    }

    /// The round messages received, as field values.
    pub closed spec fn received(&self) -> Seq<Seq<int>> {
        messages(self.polynomials_received@)
    }

    /// The challenges drawn, as field values.
    pub closed spec fn drawn(&self) -> Seq<int> {
        elems(self.challenges@)
    }

    /// A verifier for a polynomial in `index_info.0` variables whose round
    /// polynomials have degree `index_info.1`.
    pub fn verifier_init(index_info: &(usize, usize)) -> (r: Self)
        ensures
            r.wf(),
            r.round_count() == 0,
            r.vars() == index_info.0,
            r.degree() == index_info.1,
            !r.is_finished(),
            r.received() == Seq::<Seq<int>>::empty(),
            r.drawn() == Seq::<int>::empty(),
    {
        let r = VirtualVerifier {
            round: 0,
            num_vars: index_info.0,
            max_degree: index_info.1,
            finished: false,
            polynomials_received: Vec::new(),
            challenges: Vec::new(),
        };
        proof {
            assert(messages(r.polynomials_received@) =~= Seq::<Seq<int>>::empty());
            assert(elems(r.challenges@) =~= Seq::<int>::empty());
        }
        r
    }

    /// Takes a round message: appends the round label to the transcript, draws
    /// the round's challenge, records both, and moves to the next round (the
    /// verifier finishes with the message of the last round, the `num_vars`-th).
    /// A finished verifier refuses, and nothing changes.
    pub fn verify_round_and_update_state(
        &mut self,
        prover_msg: &SumCheckProverMessage,
        transcript: &mut FiatShamirTranscript,
    ) -> (r: Result<Fr, VirtualSumCheckError>)
        requires
            old(self).wf(),
        ensures
            final(self).wf(),
            r is Err <==> old(self).is_finished(),
            r is Err ==> r == Err::<Fr, VirtualSumCheckError>(VirtualSumCheckError::VerifierFinished),
            r is Err ==> final(self).round_count() == old(self).round_count() && final(self).is_finished()
                && final(self).received() == old(self).received() && final(self).drawn() == old(
                self,
            ).drawn() && final(transcript).log() == old(transcript).log(),
            final(self).vars() == old(self).vars(),
            final(self).degree() == old(self).degree(),
            r matches Ok(c) ==> {
                let l = old(transcript).log() + round_label();
                &&& c@ == challenge(l)
                &&& final(transcript).log() == after_sample(l)
                &&& final(self).received() == old(self).received().push(
                    elems(prover_msg.evaluations@),
                )
                &&& final(self).drawn() == old(self).drawn().push(c@)
                &&& final(self).is_finished() == (old(self).round_count() + 1 >= old(self).vars())
                &&& final(self).round_count() == if old(self).round_count() + 1 >= old(self).vars() {
                    old(self).round_count()
                } else {
                    old(self).round_count() + 1
                }
            },
    {
        if self.finished {
            return Err(VirtualSumCheckError::VerifierFinished);
        }
        transcript.append("Internal round".as_bytes());
        let c = transcript.sample_as_field_element();
        let ghost old_received = self.polynomials_received@;
        let ghost old_drawn = self.challenges@;
        self.polynomials_received.push(prover_msg.evaluations.clone());
        self.challenges.push(c);
        if self.round >= self.num_vars || self.num_vars - self.round <= 1 {
            self.finished = true;
        } else {
            self.round = self.round + 1;
        }
        proof {
            assert(messages(self.polynomials_received@) =~= messages(old_received).push(
                elems(prover_msg.evaluations@),
            ));
            assert(elems(self.challenges@) =~= elems(old_drawn).push(c@));
        }
        Ok(c)
    }
    /// Checks the recorded rounds against the claimed sum and, when they agree,
    /// gives the point and the value that the polynomial must have there.
    pub fn check_and_generate_subclaim(&self, asserted_sum: &Fr) -> (r: Result<
        SumCheckSubClaim,
        VirtualSumCheckError,
    >)
        requires
            self.wf(),
            1 <= self.vars() ==> 1 <= self.degree(),
        ensures
            subclaim_outcome(
                self.is_finished(),
                self.vars(),
                self.degree(),
                self.received(),
                self.drawn(),
                asserted_sum@,
                r,
            ),
    {
        let ghost received = self.received();
        let ghost drawn = self.drawn();
        let ghost md = self.max_degree as nat;
        let ghost expected = expected_values(asserted_sum@, received, drawn);
        if !self.finished {
            return Err(VirtualSumCheckError::VerifierNotFinished);
        }
        if self.polynomials_received.len() != self.num_vars {
            return Err(VirtualSumCheckError::InsufficientRounds);
        }
        let n = if self.polynomials_received.len() <= self.challenges.len() {
            self.polynomials_received.len()
        } else {
            self.challenges.len()
        };
        let mut expected_vec: Vec<Fr> = Vec::new();
        expected_vec.push(*asserted_sum);
        let mut k: usize = 0;
        while k < n
            invariant
                self.finished,
                n == paired(received, drawn),
                n <= self.num_vars,
                received == self.received(),
                drawn == self.drawn(),
                md == self.max_degree,
                expected == expected_values(asserted_sum@, received, drawn),
                self.polynomials_received.len() == self.num_vars,
                self.num_vars <= self.challenges.len(),
                k <= n,
                expected_vec.len() == k + 1,
                forall|j: int| 0 <= j <= k ==> #[trigger] expected_vec[j]@ == expected[j],
                forall|j: int| 0 <= j < k ==> #[trigger] round_ok(received, drawn, md, j),
            decreases n - k,
        {
            let evals = &self.polynomials_received[k];
            proof {
                assert(received[k as int] == evals@.map_values(|x: Fr| x@));
            }
            if evals.len() == 0 || evals.len() - 1 != self.max_degree {
                proof {
                    assert(!round_ok(received, drawn, md, k as int));
                }
                return Err(VirtualSumCheckError::WrongEvaluationCount);
            }
            proof {
                assert(drawn[k as int] == self.challenges@[k as int]@);
            }
            if self.challenges[k].lt_u64(evals.len() as u64) {
                proof {
                    assert(!round_ok(received, drawn, md, k as int));
                }
                return Err(VirtualSumCheckError::ChallengeOnNode);
            }
            match interpolate_uni_poly(evals.as_slice(), self.challenges[k]) {
                Ok(v) => {
                    expected_vec.push(v);
                },
                Err(e) => {
                    proof {
                        let i = choose|i: int|
                            0 <= i < received[k as int].len() && #[trigger] interpolation_denominator(
                                received[k as int].len(),
                                drawn[k as int],
                                i,
                            ) == 0;
                        assert(!round_ok(received, drawn, md, k as int));
                    }
                    return Err(e);
                },
            }
            k = k + 1;
        }
        proof {
            assert(forall|j: int| 0 <= j < n ==> round_ok(received, drawn, md, j));
        }
        let mut k: usize = 0;
        while k < self.num_vars
            invariant
                self.finished,
                n == paired(received, drawn),
                n == self.num_vars,
                drawn == self.drawn(),
                received == self.received(),
                md == self.max_degree,
                expected == expected_values(asserted_sum@, received, drawn),
                self.polynomials_received.len() == self.num_vars,
                1 <= self.num_vars ==> 1 <= self.max_degree,
                expected_vec.len() == n + 1,
                forall|j: int| 0 <= j <= n ==> #[trigger] expected_vec[j]@ == expected[j],
                forall|j: int| 0 <= j < n ==> #[trigger] round_ok(received, drawn, md, j),
                k <= self.num_vars,
                forall|j: int| 0 <= j < k ==> #[trigger] round_consistent(received, expected, j),
            decreases self.num_vars - k,
        {
            let evals = &self.polynomials_received[k];
            proof {
                assert(round_ok(received, drawn, md, k as int));
                assert(received[k as int] == evals@.map_values(|x: Fr| x@));
            }
            let total = evals[0].add(&evals[1]);
            if !total.eq(&expected_vec[k]) {
                proof {
                    assert(!round_consistent(received, expected, k as int));
                }
                return Err(VirtualSumCheckError::InconsistentClaim);
            }
            k = k + 1;
        }
        let point = self.challenges.clone();
        proof {
            assert(elems(point@) =~= drawn);
        }
        Ok(SumCheckSubClaim { point, expected_evaluation: expected_vec[self.num_vars] })
    }
}

} // verus!
