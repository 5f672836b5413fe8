//! A Fiat-Shamir transcript: the prover's messages are appended to a log, and
//! each challenge is the Keccak-256 digest of the log so far (the digest is
//! then appended too, so that consecutive challenges differ).
use crate::field::{be_bytes, be_value, fr_modulus, le_bytes, Fr};
use crate::univariate::elems_bytes;
use sha3::Digest;
use vstd::string::StringSliceAdditionalSpecFns;
use vstd::prelude::*;

verus! {

/// A name for the Keccak-256 digest of `data`.
pub uninterp spec fn keccak256(data: Seq<u8>) -> Seq<u8>;

/// Hashes with `sha3::Keccak256`. The contract claims that the 32 bytes that
/// come back are named by `keccak256`, a function of the input alone.
#[verifier::external_body]
fn keccak256_digest(data: &[u8]) -> (r: Vec<u8>)
    ensures
        r@ == keccak256(data@),
        r@.len() == 32,
{
    sha3::Keccak256::digest(data).to_vec()
}

/// The log after drawing a challenge from `log`.
pub open spec fn after_sample(log: Seq<u8>) -> Seq<u8> {
    log + keccak256(log)
}

/// The field element drawn from `log`.
pub open spec fn challenge(log: Seq<u8>) -> int {
    be_value(keccak256(log)) % fr_modulus()
}

/// The log after drawing `n` field elements, and the elements drawn.
pub open spec fn sample_n(log: Seq<u8>, n: nat) -> (Seq<u8>, Seq<int>)
    decreases n,
{
    if n == 0 {
        (log, Seq::empty())
    } else {
        let (l, xs) = sample_n(log, (n - 1) as nat);
        (after_sample(l), xs.push(challenge(l)))
    }
}

/// A transcript of a non-interactive proof.
pub struct FiatShamirTranscript {
    state: Vec<u8>,
}

impl FiatShamirTranscript {
    /// Everything appended (and sampled) so far.
    pub closed spec fn log(&self) -> Seq<u8> {
        self.state@
    }

    /// A transcript whose log starts with `init`.
    pub fn new(init: Vec<u8>) -> (r: Self)
        ensures
            r.log() == init@,
    {
        FiatShamirTranscript { state: init }
    }

    /// An empty transcript.
    pub fn default() -> (r: Self)
        ensures
            r.log() == Seq::<u8>::empty(),
    {
        FiatShamirTranscript { state: Vec::new() }
    }

    /// Appends a message.
    pub fn append(&mut self, data: &[u8])
        ensures
            final(self).log() == old(self).log() + data@,
    {
        let mut i: usize = 0;
        let ghost start = self.state@;
        while i < data.len()
            invariant
                i <= data.len(),
                self.state@ == start + data@.subrange(0, i as int),
            decreases data.len() - i,
        {
            self.state.push(data[i]);
            proof {
                assert(start + data@.subrange(0, i + 1) =~= (start + data@.subrange(0, i as int)).push(
                    data@[i as int],
                ));
            }
            i = i + 1;
        }
        proof {
            assert(data@.subrange(0, data@.len() as int) =~= data@);
        }
    }

    /// Appends a label and then a message.
    pub fn append_with_label(&mut self, label: &str, data: &[u8])
        ensures
            final(self).log() == old(self).log() + label.spec_bytes() + data@,
    {
        self.append(label.as_bytes());
        self.append(data);
    }

    /// Draws a 32-byte challenge: the digest of the log, which is then appended.
    pub fn sample(&mut self) -> (r: Vec<u8>)
        ensures
            r@ == keccak256(old(self).log()),
            final(self).log() == after_sample(old(self).log()),
    {
        let h = keccak256_digest(self.state.as_slice());
        self.append(h.as_slice());
        h
    }

    /// Draws a field element: the digest of the log read as a big-endian integer
    /// modulo the field order.
    pub fn sample_as_field_element(&mut self) -> (r: Fr)
        ensures
            r@ == challenge(old(self).log()),
            final(self).log() == after_sample(old(self).log()),
    {
        let h = self.sample();
        Fr::from_be_bytes_mod_order(h.as_slice())
    }

    /// Draws `n` field elements one after the other.
    pub fn sample_n_as_field_elements(&mut self, n: usize) -> (r: Vec<Fr>)
        ensures
            r.len() == n,
            r.deep_view() == sample_n(old(self).log(), n as nat).1,
            final(self).log() == sample_n(old(self).log(), n as nat).0,
    {
        let mut r: Vec<Fr> = Vec::new();
        let mut i: usize = 0;
        let ghost start = self.log();
        while i < n
            invariant
                i <= n,
                r.len() == i,
                self.log() == sample_n(start, i as nat).0,
                r.deep_view() =~= sample_n(start, i as nat).1,
            decreases n - i,
        {
            let x = self.sample_as_field_element();
            r.push(x);
            i = i + 1;
        }
        r
    }

    /// Appends field elements, 32 big-endian bytes each.
    pub fn append_elems(&mut self, elems: &Vec<Fr>)
        ensures
            final(self).log() == old(self).log() + elems_bytes(elems.deep_view()),
    {
        let bytes = crate::univariate::elems_to_bytes(elems);
        self.append(bytes.as_slice());
    }
}

/// The last `n` big-endian bytes of `v`.
fn be_bytes_exec(v: u64, n: usize) -> (r: Vec<u8>)
    ensures
        r@ == be_bytes(v as int, n as nat),
    decreases n,
{
    if n == 0 {
        Vec::new()
    } else {
        let mut r = be_bytes_exec(v / 256, n - 1);
        r.push((v % 256) as u8);
        r
    }
}

/// The log of appending each scalar under `label`, 32 little-endian bytes each.
pub open spec fn scalars_log(label: Seq<u8>, xs: Seq<int>) -> Seq<u8>
    decreases xs.len(),
{
    if xs.len() == 0 {
        Seq::empty()
    } else {
        scalars_log(label, xs.drop_last()) + label + le_bytes(xs.last(), 32)
    }
}

/// The operations of a sum-check transcript.
pub trait TranscriptProtocol {
    /// Appends a domain separator for a sum-check over `num_vars` variables whose
    /// combining function has degree `m`.
    fn sumcheck_proof_domain_sep(&mut self, num_vars: u64, m: u64);

    /// Appends a scalar under a label.
    fn append_scalar(&mut self, label: &str, scalar: &Fr);

    /// Appends several scalars under a label, between two markers.
    fn append_scalars(&mut self, label: &str, scalars: &[Fr]);

    /// Draws a challenge.
    fn challenge_scalar(&mut self, label: &'static [u8]) -> Fr;

    /// Draws `len` challenges.
    fn challenge_vector(&mut self, label: &'static [u8], len: usize) -> Vec<Fr>;
}

impl TranscriptProtocol for FiatShamirTranscript {
    fn sumcheck_proof_domain_sep(&mut self, num_vars: u64, m: u64)
        ensures
            final(self).log() == old(self).log() + "domain-separator".spec_bytes()
                + "sumcheck v1".spec_bytes() + "n".spec_bytes() + be_bytes(num_vars as int, 8)
                + "m".spec_bytes() + be_bytes(m as int, 8),
    {
        let n_bytes = be_bytes_exec(num_vars, 8);
        let m_bytes = be_bytes_exec(m, 8);
        self.append_with_label("domain-separator", "sumcheck v1".as_bytes());
        self.append_with_label("n", n_bytes.as_slice());
        self.append_with_label("m", m_bytes.as_slice());
    }

    fn append_scalar(&mut self, label: &str, scalar: &Fr)
        ensures
            final(self).log() == old(self).log() + label.spec_bytes() + le_bytes(scalar@, 32),
    {
        let buf = scalar.serialize_compressed();
        self.append_with_label(label, buf.as_slice());
    }

    fn append_scalars(&mut self, label: &str, scalars: &[Fr])
        ensures
            final(self).log() == old(self).log() + label.spec_bytes() + "begin_append_vector".spec_bytes()
                + scalars_log(label.spec_bytes(), scalars@.map_values(|x: Fr| x@))
                + label.spec_bytes() + "end_append_vector".spec_bytes(),
    {
        self.append_with_label(label, "begin_append_vector".as_bytes());
        let ghost start = self.log();
        let ghost xs = scalars@.map_values(|x: Fr| x@);
        let mut i: usize = 0;
        proof {
            assert(xs.subrange(0, 0) =~= Seq::<int>::empty());
        }
        while i < scalars.len()
            invariant
                i <= scalars.len(),
                xs == scalars@.map_values(|x: Fr| x@),
                self.log() == start + scalars_log(label.spec_bytes(), xs.subrange(0, i as int)),
            decreases scalars.len() - i,
        {
            self.append_scalar(label, &scalars[i]);
            proof {
                assert(xs.subrange(0, i + 1).drop_last() =~= xs.subrange(0, i as int));
            }
            i = i + 1;
        }
        proof {
            assert(xs.subrange(0, scalars.len() as int) =~= xs);
        }
        self.append_with_label(label, "end_append_vector".as_bytes());
    }

    fn challenge_scalar(&mut self, label: &'static [u8]) -> (r: Fr)
        ensures
            r@ == challenge(old(self).log()),
            final(self).log() == after_sample(old(self).log()),
    {
        self.sample_as_field_element()
    }

    fn challenge_vector(&mut self, label: &'static [u8], len: usize) -> (r: Vec<Fr>)
        ensures
            r.deep_view() == sample_n(old(self).log(), len as nat).1,
            final(self).log() == sample_n(old(self).log(), len as nat).0,
    {
        self.sample_n_as_field_elements(len)
    }
}

} // verus!
