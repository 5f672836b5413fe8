//! Elements of the BLS12-381 scalar field.
//!
//! An element is kept as four little-endian 64-bit limbs holding its canonical
//! representative. The arithmetic itself is done by `ark_ff` (through
//! `ark_bls12_381::Fr`); each call is wrapped below with a contract that states
//! the modular result.
use ark_bls12_381::Fr as ArkFr;
use ark_ff::{BigInt, BigInteger, Field, PrimeField};
use ark_serialize::CanonicalSerialize;
use crate::pow2::two_pow;
use vstd::prelude::*;
use vstd::string::StringSliceAdditionalSpecFns;

verus! {

/// The order of the BLS12-381 scalar field.
pub open spec fn fr_modulus() -> int {
    52435875175126190479447740508185965837690552500527637822603658699938581184513int
}

/// 2^64
pub open spec fn two64() -> int {
    18446744073709551616int
}

/// Addition in the field, on canonical integer representatives.
pub open spec fn fadd(a: int, b: int) -> int {
    (a + b) % fr_modulus()
}

/// Subtraction in the field.
pub open spec fn fsub(a: int, b: int) -> int {
    (a - b) % fr_modulus()
}

/// Multiplication in the field.
pub open spec fn fmul(a: int, b: int) -> int {
    (a * b) % fr_modulus()
}

/// Negation in the field.
pub open spec fn fneg(a: int) -> int {
    (0 - a) % fr_modulus()
}

/// `a` raised to the `e`-th power in the field.
pub open spec fn fpow(a: int, e: nat) -> int
    decreases e,
{
    if e == 0 {
        1
    } else {
        fmul(fpow(a, (e - 1) as nat), a)
    }
}

/// `inv` is the multiplicative inverse of `a`.
pub open spec fn is_inverse(a: int, inv: int) -> bool {
    0 <= inv < fr_modulus() && fmul(a, inv) == 1
}

/// The multiplicative inverse of a nonzero element.
pub open spec fn finv(a: int) -> int {
    choose|i: int| is_inverse(a, i)
}

/// The integer held by four little-endian limbs.
pub open spec fn limbs_value(l: [u64; 4]) -> int {
    l[0] as int + two64() * (l[1] as int + two64() * (l[2] as int + two64() * (l[3] as int)))
}

/// The integer held by big-endian bytes.
pub open spec fn be_value(bytes: Seq<u8>) -> int
    decreases bytes.len(),
{
    if bytes.len() == 0 {
        0
    } else {
        be_value(bytes.drop_last()) * 256 + bytes.last() as int
    }
}

/// The last `n` big-endian bytes of the integer `v`.
pub open spec fn be_bytes(v: int, n: nat) -> Seq<u8>
    decreases n,
{
    if n == 0 {
        Seq::empty()
    } else {
        be_bytes(v / 256, (n - 1) as nat).push((v % 256) as u8)
    }
}

/// The first `n` little-endian bytes of the integer `v`.
pub open spec fn le_bytes(v: int, n: nat) -> Seq<u8>
    decreases n,
{
    if n == 0 {
        Seq::empty()
    } else {
        seq![(v % 256) as u8] + le_bytes(v / 256, (n - 1) as nat)
    }
}

/// The multiplicative order of `w` is exactly `n`.
pub open spec fn has_order(w: int, n: nat) -> bool {
    &&& fpow(w, n) == 1
    &&& forall|k: nat| 0 < k < n ==> #[trigger] fpow(w, k) != 1
}

/// The subgroup sizes that the scalar field has roots of unity for:
/// `2^b` and `3 * 2^b` with `b <= 32`.
pub open spec fn supported_order(n: nat) -> bool {
    exists|b: nat| b <= 32 && (n == two_pow(b) || n == 3 * two_pow(b))
}

/// The root of unity that generates the subgroup of size `n`, where there is
/// one: the field's multiplicative generator 7 raised to `(p - 1) / n`.
pub closed spec fn subgroup_root_of_unity(n: nat) -> Option<int> {
    if supported_order(n) {
        Some(fpow(7, ((fr_modulus() - 1) / (n as int)) as nat))
    } else {
        None
    }
}

/// Adds two canonical elements with `ark_ff`'s `Add` for the BLS12-381 scalar field.
/// The contract claims that the limbs that come back are the canonical
/// representative of the sum modulo the field order.
#[verifier::external_body]
fn ark_add(a: [u64; 4], b: [u64; 4]) -> (r: [u64; 4])
    requires
        limbs_value(a) < fr_modulus(),
        limbs_value(b) < fr_modulus(),
    ensures
        limbs_value(r) == fadd(limbs_value(a), limbs_value(b)),
{
    let x = ArkFr::from_bigint(BigInt::new(a)).unwrap();
    let y = ArkFr::from_bigint(BigInt::new(b)).unwrap();
    (x + y).into_bigint().0
}

/// Subtracts with `ark_ff`'s `Sub`: the canonical representative of `a - b`.
#[verifier::external_body]
fn ark_sub(a: [u64; 4], b: [u64; 4]) -> (r: [u64; 4])
    requires
        limbs_value(a) < fr_modulus(),
        limbs_value(b) < fr_modulus(),
    ensures
        limbs_value(r) == fsub(limbs_value(a), limbs_value(b)),
{
    let x = ArkFr::from_bigint(BigInt::new(a)).unwrap();
    let y = ArkFr::from_bigint(BigInt::new(b)).unwrap();
    (x - y).into_bigint().0
}

/// Multiplies with `ark_ff`'s `Mul`: the canonical representative of `a * b`.
#[verifier::external_body]
fn ark_mul(a: [u64; 4], b: [u64; 4]) -> (r: [u64; 4])
    requires
        limbs_value(a) < fr_modulus(),
        limbs_value(b) < fr_modulus(),
    ensures
        limbs_value(r) == fmul(limbs_value(a), limbs_value(b)),
{
    let x = ArkFr::from_bigint(BigInt::new(a)).unwrap();
    let y = ArkFr::from_bigint(BigInt::new(b)).unwrap();
    (x * y).into_bigint().0
}

/// Inverts with `ark_ff`'s `Field::inverse`: `None` for zero, otherwise the
/// canonical representative of the unique inverse.
#[verifier::external_body]
fn ark_inverse(a: [u64; 4]) -> (r: Option<[u64; 4]>)
    requires
        limbs_value(a) < fr_modulus(),
    ensures
        r is None <==> limbs_value(a) == 0,
        r matches Some(l) ==> is_inverse(limbs_value(a), limbs_value(l)),
{
    let x = ArkFr::from_bigint(BigInt::new(a)).unwrap();
    match x.inverse() {
        Some(y) => Some(y.into_bigint().0),
        None => None,
    }
}

/// Serialises with `ark_ff`'s `BigInteger::to_bytes_be` applied to the canonical
/// representative: its 32 big-endian bytes.
#[verifier::external_body]
fn ark_to_bytes_be(a: [u64; 4]) -> (r: Vec<u8>)
    requires
        limbs_value(a) < fr_modulus(),
    ensures
        r@ == be_bytes(limbs_value(a), 32),
{
    BigInt::new(a).to_bytes_be()
}

/// Serialises with `ark_serialize`'s `CanonicalSerialize::serialize_compressed`
/// for the scalar field. Its source copies the canonical representative's limbs
/// into a buffer little-endian and writes the 32 bytes that the field's 255 bits
/// need (no flag bits), so the contract claims the 32 little-endian bytes of the
/// value.
#[verifier::external_body]
fn ark_serialize_compressed(a: [u64; 4]) -> (r: Vec<u8>)
    requires
        limbs_value(a) < fr_modulus(),
    ensures
        r@ == le_bytes(limbs_value(a), 32),
{
    let mut buf: Vec<u8> = Vec::new();
    ArkFr::from_bigint(BigInt::new(a)).unwrap().serialize_compressed(&mut buf).unwrap();
    buf
}

/// Reads bytes with `ark_ff`'s `PrimeField::from_be_bytes_mod_order`: the
/// big-endian integer they hold, reduced modulo the field order.
#[verifier::external_body]
fn ark_from_be_bytes_mod_order(bytes: &[u8]) -> (r: [u64; 4])
    ensures
        limbs_value(r) == be_value(bytes@) % fr_modulus(),
{
    ArkFr::from_be_bytes_mod_order(bytes).into_bigint().0
}

/// Calls `ark_ff::FftField::get_root_of_unity` for the BLS12-381 scalar field.
/// The contract claims that an element comes back exactly for `n = 2^b` or
/// `n = 3 * 2^b` with `b <= 32` (the field has `small_subgroup_base = 3`,
/// `small_subgroup_power = 1` and two-adicity 32, so the call takes its
/// large-subgroup branch), that it is `7^((p - 1) / n)` (the derive sets the
/// large-subgroup root to the generator 7 raised to `(p - 1) / (2^32 * 3)`, and
/// the call raises it to `3^(1 - j) * 2^(32 - i)` for `n = 2^i * 3^j`), and that
/// it has order exactly `n` (the function's documented purpose).
#[verifier::external_body]
fn ark_get_root_of_unity(n: u64) -> (r: Option<[u64; 4]>)
    ensures
        r is Some <==> supported_order(n as nat),
        r matches Some(l) ==> limbs_value(l) < fr_modulus(),
        r matches Some(l) ==> subgroup_root_of_unity(n as nat) == Some(limbs_value(l)),
        r is None ==> subgroup_root_of_unity(n as nat) is None,
        r matches Some(l) ==> has_order(limbs_value(l), n as nat),
{
    match <ArkFr as ark_ff::FftField>::get_root_of_unity(n) {
        Some(w) => Some(w.into_bigint().0),
        None => None,
    }
}

/// Inverts a vector of canonical elements with `ark_ff::batch_inversion`
/// (Montgomery's trick). Its source skips zero entries in both passes, so they
/// stay zero, and replaces every other entry by its inverse; the contract states
/// that, and that the length is kept.
#[verifier::external_body]
fn ark_batch_inversion(v: &mut Vec<[u64; 4]>)
    requires
        forall|i: int| 0 <= i < old(v).len() ==> limbs_value(#[trigger] old(v)[i]) < fr_modulus(),
    ensures
        final(v).len() == old(v).len(),
        forall|i: int|
            0 <= i < final(v).len() ==> limbs_value(#[trigger] final(v)[i]) < fr_modulus(),
        forall|i: int|
            0 <= i < final(v).len() ==> (limbs_value(old(v)[i]) == 0 ==> limbs_value(
                #[trigger] final(v)[i],
            ) == 0),
        forall|i: int|
            0 <= i < final(v).len() ==> (limbs_value(old(v)[i]) != 0 ==> is_inverse(
                limbs_value(old(v)[i]),
                limbs_value(#[trigger] final(v)[i]),
            )),
{
    let mut xs: Vec<ArkFr> = v.iter().map(|l| ArkFr::from_bigint(BigInt::new(*l)).unwrap()).collect();
    ark_ff::batch_inversion(&mut xs);
    *v = xs.iter().map(|x| x.into_bigint().0).collect();
}

/// The decimal digits of `v`, as ASCII bytes (a single `0` for zero).
pub open spec fn digits(v: nat) -> Seq<u8>
    decreases v,
{
    if v < 10 {
        seq![(48 + v) as u8]
    } else {
        digits(v / 10) + seq![(48 + v % 10) as u8]
    }
}

/// `v` with its `k` lowest 64-bit limbs dropped.
pub open spec fn shifted(v: int, k: nat) -> int
    decreases k,
{
    if k == 0 {
        v
    } else {
        shifted(v, (k - 1) as nat) / two64()
    }
}

/// The `k`-th 64-bit limb of `v`.
pub open spec fn limb(v: int, k: nat) -> nat {
    (shifted(v, k) % two64()) as nat
}

/// The text that `Display` writes for an element of value `v`: its decimal
/// digits with leading zeros trimmed, so nothing at all for zero.
pub open spec fn fr_display_text(v: int) -> Seq<u8> {
    if v == 0 {
        Seq::empty()
    } else {
        digits(v as nat)
    }
}

/// The text that `Debug` writes for an element of value `v`: its four limbs,
/// as `BigInt([l0, l1, l2, l3])`.
pub open spec fn fr_debug_text(v: int) -> Seq<u8> {
    "BigInt([".spec_bytes() + digits(limb(v, 0)) + ", ".spec_bytes() + digits(limb(v, 1))
        + ", ".spec_bytes() + digits(limb(v, 2)) + ", ".spec_bytes() + digits(limb(v, 3))
        + "])".spec_bytes()
}

/// The `Debug` text of four limbs.
pub open spec fn limbs_debug_text(l: [u64; 4]) -> Seq<u8> {
    "BigInt([".spec_bytes() + digits(l[0] as nat) + ", ".spec_bytes() + digits(l[1] as nat)
        + ", ".spec_bytes() + digits(l[2] as nat) + ", ".spec_bytes() + digits(l[3] as nat)
        + "])".spec_bytes()
}

/// Writes an element with `ark_ff`'s `Display` for prime-field elements, which
/// prints the canonical representative in decimal and trims the leading zeros
/// (so zero prints as nothing); the contract states that text.
#[verifier::external_body]
fn ark_display(a: [u64; 4]) -> (r: Vec<u8>)
    requires
        limbs_value(a) < fr_modulus(),
    ensures
        r@ == fr_display_text(limbs_value(a)),
{
    ArkFr::from_bigint(BigInt::new(a)).unwrap().to_string().into_bytes()
}

/// Writes an element with `ark_ff`'s `Debug` for prime-field elements, which
/// defers to the derived `Debug` of the canonical `BigInt`: the four limbs in
/// decimal inside `BigInt([..])`, separated by `, `; the contract states that
/// text.
#[verifier::external_body]
fn ark_debug(a: [u64; 4]) -> (r: Vec<u8>)
    requires
        limbs_value(a) < fr_modulus(),
    ensures
        r@ == limbs_debug_text(a),
{
    format!("{:?}", ArkFr::from_bigint(BigInt::new(a)).unwrap()).into_bytes()
}

/// The decimal digits of `v`, as ASCII bytes.
pub fn decimal_digits(v: u64) -> (r: Vec<u8>)
    ensures
        r@ == digits(v as nat),
    decreases v,
{
    if v < 10 {
        let mut r: Vec<u8> = Vec::new();
        r.push((48 + v) as u8);
        r
    } else {
        let mut r = decimal_digits(v / 10);
        r.push((48 + v % 10) as u8);
        r
    }
}

/// Appends the bytes of `s`.
pub fn extend_bytes(out: &mut Vec<u8>, s: &[u8])
    ensures
        final(out)@ == old(out)@ + s@,
{
    let ghost start = out@;
    let mut i: usize = 0;
    while i < s.len()
        invariant
            i <= s.len(),
            out@ == start + s@.subrange(0, i as int),
        decreases s.len() - i,
    {
        out.push(s[i]);
        proof {
            assert(start + s@.subrange(0, i + 1) =~= (start + s@.subrange(0, i as int)).push(s@[i as int]));
        }
        i = i + 1;
    }
    proof {
        assert(s@.subrange(0, s.len() as int) =~= s@);
    }
}

/// An element of the BLS12-381 scalar field.
#[derive(Clone, Copy, Debug)]
pub struct Fr {
    limbs: [u64; 4],
}

impl View for Fr {
    type V = int;

    closed spec fn view(&self) -> int {
        limbs_value(self.limbs) % fr_modulus()
    }
}

impl DeepView for Fr {
    type V = int;

    open spec fn deep_view(&self) -> int {
        self@
    }
}

proof fn lemma_div_mod_digit(x: int, q: int, r: int)
    requires
        0 <= r < two64(),
        x == r + two64() * q,
    ensures
        x % two64() == r,
        x / two64() == q,
{
    vstd::arithmetic::div_mod::lemma_fundamental_div_mod_converse(x, two64(), q, r);
}

/// The limbs of a value are determined by the value.
proof fn lemma_limbs_injective(a: [u64; 4], b: [u64; 4])
    requires
        limbs_value(a) == limbs_value(b),
    ensures
        a == b,
{
    let va = limbs_value(a);
    let ra1 = a[1] as int + two64() * (a[2] as int + two64() * (a[3] as int));
    let rb1 = b[1] as int + two64() * (b[2] as int + two64() * (b[3] as int));
    lemma_div_mod_digit(va, ra1, a[0] as int);
    lemma_div_mod_digit(va, rb1, b[0] as int);
    let ra2 = a[2] as int + two64() * (a[3] as int);
    let rb2 = b[2] as int + two64() * (b[3] as int);
    lemma_div_mod_digit(ra1, ra2, a[1] as int);
    lemma_div_mod_digit(rb1, rb2, b[1] as int);
    lemma_div_mod_digit(ra2, a[3] as int, a[2] as int);
    lemma_div_mod_digit(rb2, b[3] as int, b[2] as int);
    assert(a@ =~= b@);
}

proof fn lemma_limbs_nonneg(a: [u64; 4])
    ensures
        limbs_value(a) >= 0,
{
}

proof fn lemma_canonical_view(a: [u64; 4])
    requires
        limbs_value(a) < fr_modulus(),
    ensures
        limbs_value(a) % fr_modulus() == limbs_value(a),
{
    vstd::arithmetic::div_mod::lemma_small_mod(limbs_value(a) as nat, fr_modulus() as nat);
}

impl Fr {
    #[verifier::type_invariant]
    spec fn is_canonical(self) -> bool {
        limbs_value(self.limbs) < fr_modulus()
    }

    fn from_limbs(l: [u64; 4]) -> (r: Fr)
        requires
            limbs_value(l) < fr_modulus(),
        ensures
            r@ == limbs_value(l),
    {
        proof {
            lemma_canonical_view(l);
        }
        Fr { limbs: l }
    }

    pub(crate) fn limbs_of(&self) -> (l: [u64; 4])
        ensures
            limbs_value(l) < fr_modulus(),
            limbs_value(l) == self@,
    {
        proof {
            use_type_invariant(self);
            lemma_canonical_view(self.limbs);
        }
        self.limbs
    }

    /// Whether the element's canonical value is below `n`.
    pub fn lt_u64(&self, n: u64) -> (r: bool)
        ensures
            r == (self@ < n as int),
    {
        let l = self.limbs_of();
        proof {
            let rest = l[1] as int + two64() * (l[2] as int + two64() * (l[3] as int));
            assert(rest >= 0) by (nonlinear_arith)
                requires
                    l[1] as int >= 0,
                    l[2] as int >= 0,
                    l[3] as int >= 0,
                    two64() > 0,
                    rest == l[1] as int + two64() * (l[2] as int + two64() * (l[3] as int)),
            ;
            if l[1] != 0 || l[2] != 0 || l[3] != 0 {
                assert(rest >= 1) by (nonlinear_arith)
                    requires
                        l[1] as int >= 0,
                        l[2] as int >= 0,
                        l[3] as int >= 0,
                        two64() > 0,
                        l[1] != 0 || l[2] != 0 || l[3] != 0,
                        rest == l[1] as int + two64() * (l[2] as int + two64() * (l[3] as int)),
                ;
                assert(two64() * rest >= two64()) by (nonlinear_arith)
                    requires
                        rest >= 1,
                        two64() > 0,
                ;
            } else {
                assert(rest == 0);
            }
        }
        l[1] == 0 && l[2] == 0 && l[3] == 0 && l[0] < n
    }

    /// The additive identity.
    pub fn zero() -> (r: Fr)
        ensures
            r@ == 0,
    {
        Fr::from_limbs([0, 0, 0, 0])
    }

    /// The multiplicative identity.
    pub fn one() -> (r: Fr)
        ensures
            r@ == 1,
    {
        Fr::from_limbs([1, 0, 0, 0])
    }

    /// The element that an unsigned 64-bit integer stands for.
    pub fn from_u64(x: u64) -> (r: Fr)
        ensures
            r@ == x as int,
    {
        Fr::from_limbs([x, 0, 0, 0])
    }

    /// The element that an unsigned 128-bit integer stands for.
    pub fn from_u128(x: u128) -> (r: Fr)
        ensures
            r@ == x as int,
    {
        let lo = (x % 18446744073709551616u128) as u64;
        let hi = (x / 18446744073709551616u128) as u64;
        proof {
            assert(x as int == lo as int + two64() * (hi as int));
        }
        Fr::from_limbs([lo, hi, 0, 0])
    }

    /// The element that a signed 64-bit integer stands for (negative values are
    /// taken modulo the field order).
    pub fn from_i64(x: i64) -> (r: Fr)
        ensures
            r@ == (x as int) % fr_modulus(),
    {
        if x >= 0 {
            let r = Fr::from_u64(x as u64);
            proof {
                vstd::arithmetic::div_mod::lemma_small_mod(x as nat, fr_modulus() as nat);
            }
            r
        } else {
            let m: u64 = if x == i64::MIN {
                9223372036854775808u64
            } else {
                (-x) as u64
            };
            let p = Fr::from_u64(m);
            p.neg()
        }
    }

    /// The element that a signed 128-bit integer stands for.
    pub fn from_i128(x: i128) -> (r: Fr)
        ensures
            r@ == (x as int) % fr_modulus(),
    {
        if x >= 0 {
            let r = Fr::from_u128(x as u128);
            proof {
                vstd::arithmetic::div_mod::lemma_small_mod(x as nat, fr_modulus() as nat);
            }
            r
        } else {
            let m: u128 = if x == i128::MIN {
                170141183460469231731687303715884105728u128
            } else {
                (-x) as u128
            };
            let p = Fr::from_u128(m);
            p.neg()
        }
    }

    /// Field addition.
    pub fn add(&self, other: &Fr) -> (r: Fr)
        ensures
            r@ == fadd(self@, other@),
    {
        Fr::from_limbs(ark_add(self.limbs_of(), other.limbs_of()))
    }

    /// Field subtraction.
    pub fn sub(&self, other: &Fr) -> (r: Fr)
        ensures
            r@ == fsub(self@, other@),
    {
        Fr::from_limbs(ark_sub(self.limbs_of(), other.limbs_of()))
    }

    /// Field multiplication.
    pub fn mul(&self, other: &Fr) -> (r: Fr)
        ensures
            r@ == fmul(self@, other@),
    {
        Fr::from_limbs(ark_mul(self.limbs_of(), other.limbs_of()))
    }

    /// Additive inverse.
    pub fn neg(&self) -> (r: Fr)
        ensures
            r@ == fneg(self@),
    {
        let z = Fr::zero();
        z.sub(self)
    }

    /// Multiplicative inverse; `None` for zero.
    pub fn inverse(&self) -> (r: Option<Fr>)
        ensures
            r is None <==> self@ == 0,
            r matches Some(v) ==> is_inverse(self@, v@),
    {
        match ark_inverse(self.limbs_of()) {
            Some(l) => {
                proof {
                    lemma_limbs_nonneg(l);
                }
                Some(Fr::from_limbs(l))
            },
            None => None,
        }
    }

    /// Division by a nonzero element.
    pub fn div(&self, other: &Fr) -> (r: Fr)
        requires
            other@ != 0,
        ensures
            fmul(r@, other@) == self@,
    {
        let inv = other.inverse();
        match inv {
            Some(i) => {
                let r = self.mul(&i);
                proof {
                    self.lemma_view_range();
                    crate::algebra::lemma_fmul_assoc(self@, i@, other@);
                    crate::algebra::lemma_fmul_comm(i@, other@);
                    crate::algebra::lemma_fmul_one(self@);
                }
                r
            },
            None => {
                proof {
                    assert(false);
                }
                Fr::zero()
            },
        }
    }

    /// Whether this is the additive identity.
    pub fn is_zero(&self) -> (r: bool)
        ensures
            r == (self@ == 0),
    {
        let l = self.limbs_of();
        proof {
            if limbs_value(l) == 0 {
                lemma_limbs_injective(l, [0, 0, 0, 0]);
            }
        }
        l[0] == 0 && l[1] == 0 && l[2] == 0 && l[3] == 0
    }

    /// `self` raised to the power `e`.
    pub fn pow(&self, e: u64) -> (r: Fr)
        ensures
            r@ == fpow(self@, e as nat),
    {
        let mut acc = Fr::one();
        let mut i: u64 = 0;
        while i < e
            invariant
                i <= e,
                acc@ == fpow(self@, i as nat),
            decreases e - i,
        {
            acc = acc.mul(self);
            i = i + 1;
        }
        acc
    }

    /// The 32 big-endian bytes of the canonical representative.
    pub fn to_bytes_be(&self) -> (r: Vec<u8>)
        ensures
            r@ == be_bytes(self@, 32),
    {
        ark_to_bytes_be(self.limbs_of())
    }

    /// The element as `Display` writes it, as bytes.
    pub fn display_bytes(&self) -> (r: Vec<u8>)
        ensures
            r@ == fr_display_text(self@),
    {
        let l = self.limbs_of();
        ark_display(l)
    }

    /// The element as `Debug` writes it, as bytes.
    pub fn debug_bytes(&self) -> (r: Vec<u8>)
        ensures
            r@ == fr_debug_text(self@),
    {
        let l = self.limbs_of();
        proof {
            let v = limbs_value(l);
            let r1 = l[1] as int + two64() * (l[2] as int + two64() * (l[3] as int));
            let r2 = l[2] as int + two64() * (l[3] as int);
            lemma_div_mod_digit(v, r1, l[0] as int);
            lemma_div_mod_digit(r1, r2, l[1] as int);
            lemma_div_mod_digit(r2, l[3] as int, l[2] as int);
            lemma_div_mod_digit(l[3] as int, 0, l[3] as int);
            assert(shifted(v, 0) == v);
            assert(shifted(v, 1) == r1);
            assert(shifted(v, 2) == r2);
            assert(shifted(v, 3) == l[3] as int);
        }
        ark_debug(l)
    }

    /// The compressed serialisation: the 32 little-endian bytes of the canonical
    /// representative.
    pub fn serialize_compressed(&self) -> (r: Vec<u8>)
        ensures
            r@ == le_bytes(self@, 32),
    {
        let l = self.limbs_of();
        ark_serialize_compressed(l)
    }

    /// The element that big-endian bytes stand for, reduced modulo the field order.
    pub fn from_be_bytes_mod_order(bytes: &[u8]) -> (r: Fr)
        ensures
            r@ == be_value(bytes@) % fr_modulus(),
    {
        let l = ark_from_be_bytes_mod_order(bytes);
        proof {
            lemma_limbs_nonneg(l);
            vstd::arithmetic::div_mod::lemma_mod_bound(be_value(bytes@), fr_modulus());
        }
        Fr::from_limbs(l)
    }

    /// An element of order `n`, where the field has a multiplicative subgroup of
    /// that size.
    pub fn get_root_of_unity(n: u64) -> (r: Option<Fr>)
        ensures
            r is Some <==> supported_order(n as nat),
            r matches Some(w) ==> has_order(w@, n as nat) && subgroup_root_of_unity(n as nat) == Some(w@),
            r is None ==> subgroup_root_of_unity(n as nat) is None,
    {
        match ark_get_root_of_unity(n) {
            Some(l) => {
                proof {
                    lemma_limbs_nonneg(l);
                }
                Some(Fr::from_limbs(l))
            },
            None => None,
        }
    }

    /// Every element's value is a canonical representative.
    pub proof fn lemma_view_range(&self)
        ensures
            0 <= self@ < fr_modulus(),
    {
        vstd::arithmetic::div_mod::lemma_mod_bound(limbs_value(self.limbs), fr_modulus());
    }
}

/// Replaces every non-zero element by its inverse, all at once; zero elements
/// stay zero.
pub fn batch_inversion(v: &mut Vec<Fr>)
    ensures
        final(v).len() == old(v).len(),
        forall|i: int| 0 <= i < old(v).len() ==> (old(v)[i]@ == 0 ==> (#[trigger] final(v)[i])@ == 0),
        forall|i: int|
            0 <= i < old(v).len() ==> (old(v)[i]@ != 0 ==> is_inverse(
                old(v)[i]@,
                (#[trigger] final(v)[i])@,
            )),
{
    let mut limbs: Vec<[u64; 4]> = Vec::new();
    let mut i: usize = 0;
    while i < v.len()
        invariant
            i <= v.len(),
            limbs.len() == i,
            forall|j: int|
                0 <= j < i ==> limbs_value(#[trigger] limbs[j]) < fr_modulus() && limbs_value(limbs[j])
                    == v[j]@,
        decreases v.len() - i,
    {
        limbs.push(v[i].limbs_of());
        i = i + 1;
    }
    let ghost before = limbs@;
    ark_batch_inversion(&mut limbs);
    let mut out: Vec<Fr> = Vec::new();
    let mut k: usize = 0;
    while k < limbs.len()
        invariant
            k <= limbs.len(),
            limbs.len() == v.len(),
            before.len() == v.len(),
            out.len() == k,
            forall|j: int| 0 <= j < v.len() ==> limbs_value(#[trigger] before[j]) == v[j]@,
            forall|j: int| 0 <= j < limbs.len() ==> limbs_value(#[trigger] limbs[j]) < fr_modulus(),
            forall|j: int|
                0 <= j < limbs.len() ==> (limbs_value(before[j]) == 0 ==> limbs_value(
                    #[trigger] limbs[j],
                ) == 0),
            forall|j: int|
                0 <= j < limbs.len() ==> (limbs_value(before[j]) != 0 ==> is_inverse(
                    limbs_value(before[j]),
                    limbs_value(#[trigger] limbs[j]),
                )),
            forall|j: int| 0 <= j < k ==> (#[trigger] out[j])@ == limbs_value(limbs[j]),
        decreases limbs.len() - k,
    {
        out.push(Fr::from_limbs(limbs[k]));
        k = k + 1;
    }
    *v = out;
}

impl PartialEq for Fr {
    fn eq(&self, other: &Self) -> (r: bool) {
        let a = self.limbs_of();
        let b = other.limbs_of();
        proof {
            if limbs_value(a) == limbs_value(b) {
                lemma_limbs_injective(a, b);
            }
        }
        a[0] == b[0] && a[1] == b[1] && a[2] == b[2] && a[3] == b[3]
    }
}

impl vstd::std_specs::cmp::PartialEqSpecImpl for Fr {
    open spec fn obeys_eq_spec() -> bool {
        true
    }

    open spec fn eq_spec(&self, other: &Fr) -> bool {
        self@ == other@
    }
}

impl Eq for Fr {
}

/// The field element with value `v`: the one whose limbs hold `v` itself.
pub closed spec fn fr_of(v: int) -> Fr {
    choose|r: Fr| limbs_value(r.limbs) < fr_modulus() && limbs_value(r.limbs) == v
}

/// A canonical element is the one that `fr_of` names for its value.
proof fn lemma_fr_of(r: Fr)
    requires
        limbs_value(r.limbs) < fr_modulus(),
    ensures
        fr_of(r@) == r,
{
    lemma_limbs_nonneg(r.limbs);
    vstd::arithmetic::div_mod::lemma_small_mod(limbs_value(r.limbs) as nat, fr_modulus() as nat);
    let c = fr_of(r@);
    assert(limbs_value(c.limbs) == limbs_value(r.limbs));
    lemma_limbs_injective(c.limbs, r.limbs);
}

impl core::ops::Add for Fr {
    type Output = Fr;

    fn add(self, rhs: Fr) -> (r: Fr) {
        let r = Fr::add(&self, &rhs);
        proof {
            use_type_invariant(&r);
            lemma_fr_of(r);
        }
        r
    }
}

impl vstd::std_specs::ops::AddSpecImpl for Fr {
    open spec fn obeys_add_spec() -> bool {
        true
    }

    open spec fn add_req(self, rhs: Fr) -> bool {
        true
    }

    open spec fn add_spec(self, rhs: Fr) -> Fr {
        fr_of(fadd(self@, rhs@))
    }
}

} // verus!
