//! The PLONK prover's first rounds: the blinded wire polynomials with their
//! commitments, then the challenges `beta`, `gamma` and the permutation
//! accumulator with its commitment. The random blinders are arguments.
use crate::evaluation::{domain_size, inverse_transform, Domain, UnivariateEval};
use crate::algebra::lemma_fmul_assoc;
use crate::field::{fadd, finv, fmul, fneg, fpow, fr_modulus, fsub, is_inverse, subgroup_root_of_unity, supported_order, Fr};
use crate::kzg::{divide_by_linear, g1_views, lincomb_g1, quotient_by_linear, KZGUnivariateInterface, UnivariateKZG, SRS};
use crate::plonk_core::{
    PlonkProof, PlonkishIntermediateRepresentation, RoundFiveOutput, RoundFourOutput, RoundOneOutput, RoundThreeOutput,
    RoundTwoOutput, Witness,
};
use crate::transcript::{after_sample, challenge, sample_n, FiatShamirTranscript};
use crate::univariate::{monomial, poly_add, poly_eval, poly_mul, poly_scale, UnivariantPolynomial};
use vstd::prelude::*;

verus! {

/// Why a round of the prover cannot be completed.
#[derive(Debug, Clone, Copy, PartialEq, Eq)]
pub enum PlonkProverError {
    /// A denominator of the permutation accumulator is zero.
    VanishingDenominator,
    /// A polynomial to commit to has more coefficients than the reference
    /// string has powers.
    ReferenceStringTooShort,
}

/// The PLONK prover: its transcript, the circuit and the reference string.
pub struct PlonkProver {
    pub transcript: FiatShamirTranscript,
    pub circuit_ir: PlonkishIntermediateRepresentation,
    pub srs: SRS,
}

/// The coefficients of a column given by its values: their inverse transform
/// over the column's domain.
pub open spec fn column_coeffs(w: UnivariateEval) -> Seq<int> {
    inverse_transform(w.values.deep_view(), w.domain.size as nat, w.domain.group_gen_inverse@)
}

/// A blinded wire polynomial: `(r1 X + r2)(X^n - 1)` plus the column's
/// coefficients.
pub open spec fn blinded_wire(col: UnivariateEval, r1: int, r2: int, n: nat) -> Seq<int> {
    poly_add(poly_mul(monomial(1, r1, r2), monomial(n, 1, fneg(1))), column_coeffs(col))
}

/// The commitment to a polynomial under a reference string.
pub open spec fn commitment(srs: SRS, coeffs: Seq<int>) -> Seq<u8> {
    lincomb_g1(g1_views(srs.g1_power_of_taus@), coeffs, coeffs.len())
}

/// Row `j`'s numerator of the permutation accumulator:
/// `(a_j + beta w^j + gamma)(b_j + 2 beta w^j + gamma)(c_j + 3 beta w^j + gamma)`.
pub open spec fn perm_num(a: Seq<int>, b: Seq<int>, c: Seq<int>, beta: int, gamma: int, w: int, j: int) -> int {
    let x = fmul(beta, fpow(w, j as nat));
    fmul(
        fmul(fadd(fadd(a[j], x), gamma), fadd(fadd(b[j], fmul(2, x)), gamma)),
        fadd(fadd(c[j], fmul(3, x)), gamma),
    )
}

/// Row `j`'s denominator of the permutation accumulator:
/// `(a_j + beta S1_j + gamma)(b_j + beta S2_j + gamma)(c_j + beta S3_j + gamma)`.
pub open spec fn perm_den(
    a: Seq<int>,
    b: Seq<int>,
    c: Seq<int>,
    s1: Seq<int>,
    s2: Seq<int>,
    s3: Seq<int>,
    beta: int,
    gamma: int,
    j: int,
) -> int {
    fmul(
        fmul(fadd(fadd(a[j], fmul(beta, s1[j])), gamma), fadd(fadd(b[j], fmul(beta, s2[j])), gamma)),
        fadd(fadd(c[j], fmul(beta, s3[j])), gamma),
    )
}

/// The field values of a vector of elements.
pub open spec fn vals(v: Seq<Fr>) -> Seq<int> {
    v.map_values(|x: Fr| x@)
}

/// `z` is the permutation accumulator over `n` rows: it starts at one and
/// `num_i * z_i == den_i * z_(i+1)` on every row but the last.
pub open spec fn accumulator_law(
    z: Seq<int>,
    w: Witness,
    ir: PlonkishIntermediateRepresentation,
    beta: int,
    gamma: int,
    root: int,
    n: nat,
) -> bool {
    let a = vals(w.a.values@);
    let b = vals(w.b.values@);
    let c = vals(w.c.values@);
    &&& z.len() == n
    &&& n >= 1 ==> z[0] == 1
    &&& forall|i: int|
        0 <= i < n - 1 ==> fmul(perm_num(a, b, c, beta, gamma, root, i), #[trigger] z[i]) == fmul(
            perm_den(a, b, c, vals(ir.S1.values@), vals(ir.S2.values@), vals(ir.S3.values@), beta, gamma, i),
            z[i + 1],
        )
}

/// The product of the first `k` entries of `s`.
pub open spec fn prefix_product(s: Seq<int>, k: nat) -> int
    decreases k,
{
    if k == 0 {
        1
    } else {
        fmul(prefix_product(s, (k - 1) as nat), s[k - 1])
    }
}

/// Row `i`'s numerators of the accumulator, for `i < n`.
pub open spec fn perm_nums(w: Witness, beta: int, gamma: int, root: int, n: nat) -> Seq<int> {
    Seq::new(
        n,
        |i: int| perm_num(vals(w.a.values@), vals(w.b.values@), vals(w.c.values@), beta, gamma, root, i),
    )
}

/// Row `i`'s denominators of the accumulator, for `i < n`.
pub open spec fn perm_dens(
    w: Witness,
    ir: PlonkishIntermediateRepresentation,
    beta: int,
    gamma: int,
    n: nat,
) -> Seq<int> {
    Seq::new(
        n,
        |i: int|
            perm_den(
                vals(w.a.values@),
                vals(w.b.values@),
                vals(w.c.values@),
                vals(ir.S1.values@),
                vals(ir.S2.values@),
                vals(ir.S3.values@),
                beta,
                gamma,
                i,
            ),
    )
}

/// Along the recurrence, `z_k` times the product of the first `k`
/// denominators is the product of the first `k` numerators.
proof fn lemma_running_product(z: Seq<int>, nums: Seq<int>, dens: Seq<int>, k: nat)
    requires
        z.len() >= 1,
        z[0] == 1,
        k < z.len(),
        k <= nums.len(),
        k <= dens.len(),
        forall|i: int| 0 <= i < k ==> fmul(nums[i], #[trigger] z[i]) == fmul(dens[i], z[i + 1]),
    ensures
        fmul(z[k as int], prefix_product(dens, k)) == prefix_product(nums, k),
    decreases k,
{
    if k == 0 {
        crate::algebra::lemma_fmul_one(1);
    } else {
        let j = (k - 1) as int;
        lemma_running_product(z, nums, dens, (k - 1) as nat);
        let pd = prefix_product(dens, (k - 1) as nat);
        let pn = prefix_product(nums, (k - 1) as nat);
        assert(fmul(nums[j], z[j]) == fmul(dens[j], z[j + 1]));
        lemma_fmul_assoc(z[k as int], pd, dens[j]);
        crate::algebra::lemma_fmul_comm(z[k as int], pd);
        lemma_fmul_assoc(pd, z[k as int], dens[j]);
        crate::algebra::lemma_fmul_comm(z[k as int], dens[j]);
        crate::algebra::lemma_fmul_comm(pd, fmul(dens[j], z[k as int]));
        lemma_fmul_assoc(nums[j], z[j], pd);
        crate::algebra::lemma_fmul_comm(nums[j], pn);
    }
}

/// A product of invertible entries is invertible.
proof fn lemma_prefix_product_invertible(s: Seq<int>, k: nat)
    requires
        k <= s.len(),
        forall|i: int| 0 <= i < k ==> is_inverse(#[trigger] s[i], finv(s[i])),
    ensures
        is_inverse(prefix_product(s, k), finv(prefix_product(s, k))),
    decreases k,
{
    let p = prefix_product(s, k);
    if k == 0 {
        crate::algebra::lemma_fmul_one(1);
        crate::algebra::lemma_inverse_is_finv(1, 1);
    } else {
        let j = (k - 1) as int;
        lemma_prefix_product_invertible(s, (k - 1) as nat);
        let a = prefix_product(s, (k - 1) as nat);
        let ai = finv(a);
        let bi = finv(s[j]);
        assert(is_inverse(s[j], bi));
        // (a b)(ai bi) = (a ai)(b bi) = 1
        lemma_fmul_assoc(fmul(a, s[j]), ai, bi);
        lemma_fmul_assoc(a, s[j], ai);
        crate::algebra::lemma_fmul_comm(s[j], ai);
        lemma_fmul_assoc(a, ai, s[j]);
        crate::algebra::lemma_fmul_one(s[j] % fr_modulus());
        assert(fmul(1, s[j]) == s[j] % fr_modulus()) by {
            vstd::arithmetic::div_mod::lemma_mod_bound(s[j], fr_modulus());
        }
        vstd::arithmetic::div_mod::lemma_mul_mod_noop_right(1, s[j], fr_modulus());
        vstd::arithmetic::div_mod::lemma_mul_mod_noop_left(s[j], bi, fr_modulus());
        assert(fmul(fmul(1, s[j]), bi) == fmul(s[j], bi));
        let q = fmul(ai, bi);
        assert(0 <= q < fr_modulus()) by {
            vstd::arithmetic::div_mod::lemma_mod_bound(ai * bi, fr_modulus());
        }
        assert(fmul(p, q) == 1) by {
            lemma_fmul_assoc(p, ai, bi);
        }
        crate::algebra::lemma_inverse_is_finv(p, q);
    }
}

/// A running product that starts at one and satisfies
/// `nums_i z_i == dens_i z_(i+1)` on every row but the last closes on the last
/// row too when all numerators and all denominators have the same product and
/// the denominators but the last are invertible.
proof fn lemma_recurrence_wraps(z: Seq<int>, nums: Seq<int>, dens: Seq<int>, n: nat)
    requires
        n >= 1,
        z.len() == n,
        nums.len() == n,
        dens.len() == n,
        z[0] == 1,
        forall|i: int| 0 <= i < n - 1 ==> fmul(nums[i], #[trigger] z[i]) == fmul(dens[i], z[i + 1]),
        forall|i: int| 0 <= i < n - 1 ==> is_inverse(#[trigger] dens[i], finv(dens[i])),
        prefix_product(nums, n) == prefix_product(dens, n),
    ensures
        fmul(nums[n - 1], z[n - 1]) == fmul(dens[n - 1], z[0]),
{
    let k = (n - 1) as nat;
    let l = k as int;
    lemma_running_product(z, nums, dens, k);
    lemma_prefix_product_invertible(dens, k);
    let pd = prefix_product(dens, k);
    let pn = prefix_product(nums, k);
    let q = finv(pd);
    let x = fmul(nums[l], z[l]);
    let y = fmul(dens[l], z[0]);
    assert(fmul(x, pd) == fmul(nums[l], pn)) by {
        lemma_fmul_assoc(nums[l], z[l], pd);
    }
    assert(fmul(nums[l], pn) == fmul(dens[l], pd)) by {
        crate::algebra::lemma_fmul_comm(nums[l], pn);
        crate::algebra::lemma_fmul_comm(pd, dens[l]);
    }
    assert(y == dens[l] % fr_modulus()) by {
        vstd::arithmetic::div_mod::lemma_mul_mod_noop_left(dens[l], 1, fr_modulus());
    }
    assert(fmul(y, pd) == fmul(dens[l], pd)) by {
        vstd::arithmetic::div_mod::lemma_mul_mod_noop_left(dens[l], pd, fr_modulus());
    }
    assert(0 <= x < fr_modulus() && 0 <= y < fr_modulus()) by {
        vstd::arithmetic::div_mod::lemma_mod_bound(nums[l] * z[l], fr_modulus());
        vstd::arithmetic::div_mod::lemma_mod_bound(dens[l] * z[0], fr_modulus());
    }
    assert(fmul(fmul(x, pd), q) == x) by {
        lemma_fmul_assoc(x, pd, q);
        crate::algebra::lemma_fmul_one(x);
    }
    assert(fmul(fmul(y, pd), q) == y) by {
        lemma_fmul_assoc(y, pd, q);
        crate::algebra::lemma_fmul_one(y);
    }
}

/// When the numerators and the denominators of all `n` rows have the same
/// product (the copy constraints hold) and the denominators are invertible,
/// the accumulator's recurrence also closes on the last row:
/// `num_(n-1) z_(n-1) == den_(n-1) z_0`.
pub proof fn lemma_accumulator_wraps(
    z: Seq<int>,
    w: Witness,
    ir: PlonkishIntermediateRepresentation,
    beta: int,
    gamma: int,
    root: int,
    n: nat,
)
    requires
        n >= 1,
        accumulator_law(z, w, ir, beta, gamma, root, n),
        forall|i: int|
            0 <= i < n - 1 ==> is_inverse(
                #[trigger] perm_dens(w, ir, beta, gamma, n)[i],
                finv(perm_dens(w, ir, beta, gamma, n)[i]),
            ),
        prefix_product(perm_nums(w, beta, gamma, root, n), n) == prefix_product(
            perm_dens(w, ir, beta, gamma, n),
            n,
        ),
    ensures
        fmul(perm_nums(w, beta, gamma, root, n)[n - 1], z[n - 1]) == fmul(
            perm_dens(w, ir, beta, gamma, n)[n - 1],
            z[0],
        ),
{
    let nums = perm_nums(w, beta, gamma, root, n);
    let dens = perm_dens(w, ir, beta, gamma, n);
    assert forall|i: int| 0 <= i < n - 1 implies fmul(nums[i], #[trigger] z[i]) == fmul(dens[i], z[i + 1]) by {
        assert(nums[i] == perm_num(vals(w.a.values@), vals(w.b.values@), vals(w.c.values@), beta, gamma, root, i));
    }
    lemma_recurrence_wraps(z, nums, dens, n);
}

/// Some denominator of the accumulator vanishes on the rows but the last.
pub open spec fn some_den_vanishes(
    w: Witness,
    ir: PlonkishIntermediateRepresentation,
    beta: int,
    gamma: int,
    n: nat,
) -> bool {
    exists|i: int|
        0 <= i < n - 1 && #[trigger] perm_den(
            vals(w.a.values@),
            vals(w.b.values@),
            vals(w.c.values@),
            vals(ir.S1.values@),
            vals(ir.S2.values@),
            vals(ir.S3.values@),
            beta,
            gamma,
            i,
        ) == 0
}

/// The permutation accumulator over `n` rows for the challenges `beta`,
/// `gamma` and the root of unity `root`; `None` where a denominator vanishes.
pub fn permutation_accumulator(
    witness: &Witness,
    ir: &PlonkishIntermediateRepresentation,
    beta: Fr,
    gamma: Fr,
    root: Fr,
    n: usize,
) -> (r: Option<Vec<Fr>>)
    requires
        n <= witness.a.values.len(),
        n <= witness.b.values.len(),
        n <= witness.c.values.len(),
        n <= ir.S1.values.len(),
        n <= ir.S2.values.len(),
        n <= ir.S3.values.len(),
    ensures
        r is None <==> some_den_vanishes(*witness, *ir, beta@, gamma@, n as nat),
        r matches Some(z) ==> accumulator_law(vals(z@), *witness, *ir, beta@, gamma@, root@, n as nat),
{
    let ghost a = vals(witness.a.values@);
    let ghost b = vals(witness.b.values@);
    let ghost c = vals(witness.c.values@);
    let ghost s1 = vals(ir.S1.values@);
    let ghost s2 = vals(ir.S2.values@);
    let ghost s3 = vals(ir.S3.values@);
    let mut z: Vec<Fr> = Vec::new();
    if n == 0 {
        proof {
            assert(vals(z@) =~= Seq::<int>::empty());
        }
        return Some(z);
    }
    z.push(Fr::one());
    let two = Fr::from_u64(2);
    let three = Fr::from_u64(3);
    let mut pw = Fr::one();
    let mut i: usize = 0;
    proof {
        vstd::arithmetic::div_mod::lemma_small_mod(2, fr_modulus() as nat);
        vstd::arithmetic::div_mod::lemma_small_mod(3, fr_modulus() as nat);
    }
    while i + 1 < n
        invariant
            1 <= n,
            i + 1 <= n,
            z.len() == i + 1,
            z[0]@ == 1,
            two@ == 2,
            three@ == 3,
            pw@ == fpow(root@, i as nat),
            a == vals(witness.a.values@),
            b == vals(witness.b.values@),
            c == vals(witness.c.values@),
            s1 == vals(ir.S1.values@),
            s2 == vals(ir.S2.values@),
            s3 == vals(ir.S3.values@),
            n <= witness.a.values.len(),
            n <= witness.b.values.len(),
            n <= witness.c.values.len(),
            n <= ir.S1.values.len(),
            n <= ir.S2.values.len(),
            n <= ir.S3.values.len(),
            forall|k: int| 0 <= k < i ==> perm_den(a, b, c, s1, s2, s3, beta@, gamma@, k) != 0,
            forall|k: int|
                0 <= k < i ==> fmul(perm_num(a, b, c, beta@, gamma@, root@, k), #[trigger] z[k]@)
                    == fmul(perm_den(a, b, c, s1, s2, s3, beta@, gamma@, k), z[k + 1]@),
        decreases n - i,
    {
        let x = beta.mul(&pw);
        let num = witness.a.values[i].add(&x).add(&gamma).mul(
            &witness.b.values[i].add(&two.mul(&x)).add(&gamma),
        ).mul(&witness.c.values[i].add(&three.mul(&x)).add(&gamma));
        let den = witness.a.values[i].add(&beta.mul(&ir.S1.values[i])).add(&gamma).mul(
            &witness.b.values[i].add(&beta.mul(&ir.S2.values[i])).add(&gamma),
        ).mul(&witness.c.values[i].add(&beta.mul(&ir.S3.values[i])).add(&gamma));
        proof {
            assert(num@ == perm_num(a, b, c, beta@, gamma@, root@, i as int));
            assert(den@ == perm_den(a, b, c, s1, s2, s3, beta@, gamma@, i as int));
        }
        if den.is_zero() {
            proof {
                assert(perm_den(a, b, c, s1, s2, s3, beta@, gamma@, i as int) == 0);
            }
            return None;
        }
        let q = num.div(&den);
        let zi = z[i];
        let next = zi.mul(&q);
        proof {
            zi.lemma_view_range();
            q.lemma_view_range();
            den.lemma_view_range();
            crate::algebra::lemma_fmul_assoc(den@, zi@, q@);
            crate::algebra::lemma_fmul_comm(den@, zi@);
            crate::algebra::lemma_fmul_assoc(zi@, den@, q@);
            crate::algebra::lemma_fmul_comm(den@, q@);
            crate::algebra::lemma_fmul_comm(num@, zi@);
            assert(fmul(den@, next@) == fmul(num@, zi@));
        }
        z.push(next);
        pw = pw.mul(&root);
        i = i + 1;
    }
    proof {
        assert forall|k: int| 0 <= k < n - 1 implies fmul(
            perm_num(a, b, c, beta@, gamma@, root@, k),
            #[trigger] vals(z@)[k],
        ) == fmul(perm_den(a, b, c, s1, s2, s3, beta@, gamma@, k), vals(z@)[k + 1]) by {
            assert(vals(z@)[k] == z[k]@);
            assert(vals(z@)[k + 1] == z[k + 1]@);
        }
        assert(vals(z@)[0] == z[0]@);
    }
    Some(z)
}

/// The coefficients of `p(w X)`: coefficient `i` times `w^i`.
pub open spec fn apply_w(c: Seq<int>, w: int) -> Seq<int> {
    Seq::new(c.len(), |i: int| fmul(c[i], fpow(w, i as nat)))
}

/// `p(w X)`.
pub fn apply_w_to_polynomial(p: &UnivariantPolynomial, w: &Fr) -> (r: UnivariantPolynomial)
    ensures
        r.coeffs() == apply_w(p.coeffs(), w@),
{
    let mut c: Vec<Fr> = Vec::new();
    let mut pw = Fr::one();
    let mut i: usize = 0;
    while i < p.coefficients.len()
        invariant
            i <= p.coefficients.len(),
            c.len() == i,
            pw@ == fpow(w@, i as nat),
            forall|k: int| 0 <= k < i ==> #[trigger] c[k]@ == fmul(p.coefficients[k]@, fpow(w@, k as nat)),
        decreases p.coefficients.len() - i,
    {
        c.push(p.coefficients[i].mul(&pw));
        pw = pw.mul(w);
        i = i + 1;
    }
    proof {
        assert forall|k: int| 0 <= k < c.len() implies #[trigger] c.deep_view()[k] == apply_w(
            p.coeffs(),
            w@,
        )[k] by {
            assert(p.coeffs()[k] == p.coefficients[k]@);
        }
        assert(c.deep_view() =~= apply_w(p.coeffs(), w@));
    }
    UnivariantPolynomial::new(c)
}

/// `p[i] + p[i + n] + p[i + 2n] + ...`
pub open spec fn stride_sum(p: Seq<int>, n: nat, i: int) -> int
    decreases if i < p.len() {
        p.len() - i
    } else {
        0
    },
{
    if n == 0 || i < 0 || i >= p.len() {
        0
    } else {
        fadd(p[i], stride_sum(p, n, i + n))
    }
}

/// The quotient of `p` by `X^n - 1` (the remainder dropped): its coefficient
/// `k` is `p[k + n] + p[k + 2n] + ...`.
pub open spec fn vanishing_quotient(p: Seq<int>, n: nat) -> Seq<int> {
    if p.len() <= n {
        Seq::empty()
    } else {
        Seq::new((p.len() - n) as nat, |k: int| stride_sum(p, n, k + n))
    }
}

/// The remainder of `p` by `X^n - 1`: its coefficient `k < n` is
/// `p[k] + p[k + n] + p[k + 2n] + ...`.
pub open spec fn vanishing_remainder(p: Seq<int>, n: nat) -> Seq<int> {
    Seq::new(
        if p.len() < n {
            p.len()
        } else {
            n
        },
        |k: int| stride_sum(p, n, k),
    )
}

/// Stride sums of the coefficients past the first `n` are those of the whole
/// polynomial, `n` further on.
proof fn lemma_stride_skip(p: Seq<int>, n: nat, j: int)
    requires
        n >= 1,
        n <= p.len(),
        j >= 0,
    ensures
        stride_sum(p.skip(n as int), n, j) == stride_sum(p, n, j + n),
    decreases p.len() - j,
{
    if j < p.len() - n {
        lemma_stride_skip(p, n, j + n);
    }
}

/// Evaluation reads the coefficients modulo the field order.
proof fn lemma_eval_reduced(p: Seq<int>, q: Seq<int>, x: int)
    requires
        p.len() == q.len(),
        forall|k: int| 0 <= k < p.len() ==> #[trigger] q[k] == p[k] % fr_modulus(),
    ensures
        poly_eval(p, x) == poly_eval(q, x),
    decreases p.len(),
{
    if p.len() > 0 {
        lemma_eval_reduced(p.drop_first(), q.drop_first(), x);
        let m = fr_modulus();
        let rest = fmul(x, poly_eval(p.drop_first(), x));
        vstd::arithmetic::div_mod::lemma_add_mod_noop(p[0], rest, m);
        vstd::arithmetic::div_mod::lemma_add_mod_noop(p[0] % m, rest, m);
        vstd::arithmetic::div_mod::lemma_mod_twice(p[0], m);
    }
}

/// `L + X H = (H + Q)(X - 1) + (L + R)` in the field, where `H = Q (X - 1) + R`.
proof fn lemma_division_step(l: int, h: int, q: int, r: int, xn: int)
    requires
        0 <= l < fr_modulus(),
        0 <= h < fr_modulus(),
        0 <= q < fr_modulus(),
        0 <= r < fr_modulus(),
        0 <= xn < fr_modulus(),
        h == fadd(fmul(q, fsub(xn, 1)), r),
    ensures
        fadd(l, fmul(xn, h)) == fadd(fmul(fadd(h, q), fsub(xn, 1)), fadd(l, r)),
{
    let m = fr_modulus();
    let z = fsub(xn, 1);
    // both sides are (l + xn h) modulo the field order
    assert(fmul(fadd(h, q), z) == ((h + q) * (xn - 1)) % m) by {
        vstd::arithmetic::div_mod::lemma_mul_mod_noop_left(h + q, z, m);
        vstd::arithmetic::div_mod::lemma_mul_mod_noop_right(h + q, xn - 1, m);
    }
    assert(h == (q * (xn - 1) + r) % m) by {
        vstd::arithmetic::div_mod::lemma_mul_mod_noop_right(q, xn - 1, m);
        vstd::arithmetic::div_mod::lemma_add_mod_noop(q * (xn - 1), r, m);
        vstd::arithmetic::div_mod::lemma_mod_twice(q * (xn - 1), m);
        vstd::arithmetic::div_mod::lemma_small_mod(r as nat, m as nat);
    }
    let rhs = (h + q) * (xn - 1) + (l + r);
    assert(fadd(fmul(fadd(h, q), z), fadd(l, r)) == rhs % m) by {
        vstd::arithmetic::div_mod::lemma_add_mod_noop((h + q) * (xn - 1), l + r, m);
        vstd::arithmetic::div_mod::lemma_mod_twice((h + q) * (xn - 1), m);
        vstd::arithmetic::div_mod::lemma_mod_twice(l + r, m);
    }
    let lhs = l + xn * h;
    assert(fadd(l, fmul(xn, h)) == lhs % m) by {
        vstd::arithmetic::div_mod::lemma_add_mod_noop(l, xn * h, m);
        vstd::arithmetic::div_mod::lemma_mod_twice(xn * h, m);
        vstd::arithmetic::div_mod::lemma_small_mod(l as nat, m as nat);
    }
    // with `h = q (xn - 1) + r - k m`, the two sides differ by `k m`
    let k = (q * (xn - 1) + r) / m;
    vstd::arithmetic::div_mod::lemma_fundamental_div_mod(q * (xn - 1) + r, m);
    assert(h == q * (xn - 1) + r - m * k);
    assert(rhs == lhs + m * k) by (nonlinear_arith)
        requires
            h == q * (xn - 1) + r - m * k,
            rhs == (h + q) * (xn - 1) + (l + r),
            lhs == l + xn * h,
    ;
    vstd::arithmetic::div_mod::lemma_mod_multiples_vanish(k, lhs, m);
}

/// Division by `X^n - 1`: for every `x`, `p(x) = q(x) (x^n - 1) + r(x)` with
/// `q` the quotient that `divide_by_vanishing` computes and `r` the remainder,
/// which has at most `n` coefficients.
pub proof fn lemma_vanishing_division(p: Seq<int>, n: nat, x: int)
    requires
        n >= 1,
    ensures
        poly_eval(p, x) == fadd(
            fmul(poly_eval(vanishing_quotient(p, n), x), fsub(fpow(x, n), 1)),
            poly_eval(vanishing_remainder(p, n), x),
        ),
        vanishing_remainder(p, n).len() <= n,
    decreases p.len(),
{
    let q = vanishing_quotient(p, n);
    let r = vanishing_remainder(p, n);
    let z = fsub(fpow(x, n), 1);
    crate::univariate::lemma_eval_range(r, x);
    if p.len() <= n {
        assert(q.len() == 0);
        assert forall|k: int| 0 <= k < p.len() implies #[trigger] r[k] == p[k] % fr_modulus() by {
            assert(stride_sum(p, n, k + n) == 0);
        }
        lemma_eval_reduced(p, r, x);
        crate::algebra::lemma_fmul_zero(z);
        crate::algebra::lemma_fadd_zero(poly_eval(r, x));
        return;
    }
    let lo = p.subrange(0, n as int);
    let hi = p.skip(n as int);
    assert(lo + hi =~= p);
    crate::prover::lemma_eval_concat(lo, hi, x);
    lemma_vanishing_division(hi, n, x);
    let qh = vanishing_quotient(hi, n);
    let rh = vanishing_remainder(hi, n);
    assert(q =~= poly_add(hi, qh)) by {
        assert forall|k: int| 0 <= k < q.len() implies #[trigger] q[k] == poly_add(hi, qh)[k] by {
            lemma_stride_skip(p, n, k + n);
            lemma_stride_skip(p, n, k);
            if k + n >= hi.len() {
                assert(stride_sum(hi, n, k + n) == 0);
            }
        }
    }
    assert(r =~= poly_add(lo, rh)) by {
        assert forall|k: int| 0 <= k < r.len() implies #[trigger] r[k] == poly_add(lo, rh)[k] by {
            lemma_stride_skip(p, n, k);
            if k >= hi.len() {
                assert(stride_sum(hi, n, k) == 0);
            }
        }
    }
    crate::univariate::lemma_eval_add(hi, qh, x);
    crate::univariate::lemma_eval_add(lo, rh, x);
    crate::univariate::lemma_eval_range(lo, x);
    crate::univariate::lemma_eval_range(hi, x);
    crate::univariate::lemma_eval_range(qh, x);
    crate::univariate::lemma_eval_range(rh, x);
    crate::fft::lemma_fpow_range(x, n);
    lemma_division_step(poly_eval(lo, x), poly_eval(hi, x), poly_eval(qh, x), poly_eval(rh, x), fpow(x, n));
}

/// The quotient of `p` by `X^n - 1`.
pub fn divide_by_vanishing(p: &UnivariantPolynomial, n: usize) -> (r: UnivariantPolynomial)
    requires
        n >= 1,
    ensures
        r.coeffs() == vanishing_quotient(p.coeffs(), n as nat),
{
    let m = p.coefficients.len();
    if m <= n {
        return UnivariantPolynomial::zero();
    }
    let len = m - n;
    let mut q: Vec<Fr> = Vec::new();
    let mut i: usize = 0;
    while i < len
        invariant
            i <= len,
            q.len() == i,
        decreases len - i,
    {
        q.push(Fr::zero());
        i = i + 1;
    }
    let mut k: usize = len;
    while k > 0
        invariant
            k <= len,
            len == m - n,
            m == p.coefficients.len(),
            n >= 1,
            q.len() == len,
            forall|j: int| k <= j < len ==> #[trigger] q[j]@ == stride_sum(p.coeffs(), n as nat, j + n),
        decreases k,
    {
        let j = k - 1;
        let tail = if j + n < len {
            q[j + n]
        } else {
            Fr::zero()
        };
        proof {
            assert(p.coeffs()[j + n] == p.coefficients[j + n as int]@);
            if j + n >= len {
                assert(stride_sum(p.coeffs(), n as nat, j + n + n) == 0);
            }
        }
        q.set(j, p.coefficients[j + n].add(&tail));
        k = j;
    }
    proof {
        assert forall|j: int| 0 <= j < q.len() implies #[trigger] q.deep_view()[j] == vanishing_quotient(
            p.coeffs(),
            n as nat,
        )[j] by {
            assert(q.deep_view()[j] == q[j]@);
        }
        assert(q.deep_view() =~= vanishing_quotient(p.coeffs(), n as nat));
    }
    UnivariantPolynomial::new(q)
}

/// The coefficients of `p` from `from` to `to` (cut at its length).
pub open spec fn chunk(c: Seq<int>, from: int, to: int) -> Seq<int> {
    let a = if from < c.len() {
        from
    } else {
        c.len() as int
    };
    let b = if to < c.len() {
        to
    } else {
        c.len() as int
    };
    c.subrange(a, b)
}

/// The coefficients `from..to` of a polynomial as a polynomial.
fn chunk_exec(p: &UnivariantPolynomial, from: usize, to: usize) -> (r: UnivariantPolynomial)
    requires
        from <= to,
    ensures
        r.coeffs() == chunk(p.coeffs(), from as int, to as int),
{
    let m = p.coefficients.len();
    let a = if from < m {
        from
    } else {
        m
    };
    let b = if to < m {
        to
    } else {
        m
    };
    let mut c: Vec<Fr> = Vec::new();
    let mut i: usize = a;
    while i < b
        invariant
            a <= i <= b,
            b <= m,
            m == p.coefficients.len(),
            c.len() == i - a,
            forall|k: int| 0 <= k < i - a ==> #[trigger] c[k]@ == p.coefficients[a + k]@,
        decreases b - i,
    {
        c.push(p.coefficients[i]);
        i = i + 1;
    }
    proof {
        assert forall|k: int| 0 <= k < c.len() implies #[trigger] c.deep_view()[k] == chunk(
            p.coeffs(),
            from as int,
            to as int,
        )[k] by {
            assert(c.deep_view()[k] == c[k]@);
            assert(p.coeffs()[a + k] == p.coefficients[a + k]@);
        }
        assert(c.deep_view() =~= chunk(p.coeffs(), from as int, to as int));
    }
    UnivariantPolynomial::new(c)
}

/// `t` cut into its coefficients below `n`, from `n` to `2n`, and from `2n` on,
/// so that `t = t_lo + X^n t_mid + X^(2n) t_hi`.
pub fn split_poly_in_3(t: &UnivariantPolynomial, n: usize) -> (r: (
    UnivariantPolynomial,
    UnivariantPolynomial,
    UnivariantPolynomial,
))
    requires
        2 * n <= usize::MAX,
    ensures
        r.0.coeffs() == chunk(t.coeffs(), 0, n as int),
        r.1.coeffs() == chunk(t.coeffs(), n as int, 2 * n as int),
        r.2.coeffs() == chunk(t.coeffs(), 2 * n as int, t.coeffs().len() as int),
{
    let lo = chunk_exec(t, 0, n);
    let mid = chunk_exec(t, n, 2 * n);
    let hi = if 2 * n <= t.coefficients.len() {
        chunk_exec(t, 2 * n, t.coefficients.len())
    } else {
        proof {
            assert(chunk(t.coeffs(), 2 * n as int, t.coeffs().len() as int) =~= Seq::<int>::empty());
        }
        UnivariantPolynomial::zero()
    };
    (lo, mid, hi)
}

/// The value of a concatenation: `(a ++ b)(x) = a(x) + x^|a| b(x)`.
pub proof fn lemma_eval_concat(a: Seq<int>, b: Seq<int>, x: int)
    ensures
        poly_eval(a + b, x) == fadd(poly_eval(a, x), fmul(fpow(x, a.len()), poly_eval(b, x))),
    decreases a.len(),
{
    crate::univariate::lemma_eval_range(b, x);
    if a.len() == 0 {
        assert(a + b =~= b);
        crate::algebra::lemma_fmul_one(poly_eval(b, x));
        crate::algebra::lemma_fadd_zero(poly_eval(b, x));
    } else {
        let t = a.drop_first();
        assert((a + b).drop_first() =~= t + b);
        lemma_eval_concat(t, b, x);
        let et = poly_eval(t, x);
        let eb = poly_eval(b, x);
        let p = fpow(x, t.len());
        // (a ++ b)(x) = a0 + x (t(x) + x^|t| b(x))
        crate::algebra::lemma_fmul_distrib(x, et, fmul(p, eb));
        crate::algebra::lemma_fmul_assoc(x, p, eb);
        crate::algebra::lemma_fmul_comm(x, p);
        assert(fpow(x, a.len()) == fmul(p, x));
        crate::algebra::lemma_fadd_assoc(a[0], fmul(x, et), fmul(fmul(x, p), eb));
    }
}

/// Cutting `t` into its coefficients below `n`, from `n` to `2n` and from `2n`
/// on keeps its value: `t(x) = t_lo(x) + x^n t_mid(x) + x^(2n) t_hi(x)`.
pub proof fn lemma_split_in_3(t: Seq<int>, n: nat, x: int)
    ensures
        poly_eval(t, x) == fadd(
            fadd(poly_eval(chunk(t, 0, n as int), x), fmul(fpow(x, n), poly_eval(chunk(t, n as int, 2 * n as int), x))),
            fmul(fpow(x, 2 * n), poly_eval(chunk(t, 2 * n as int, t.len() as int), x)),
        ),
{
    let lo = chunk(t, 0, n as int);
    let mid = chunk(t, n as int, 2 * n as int);
    let hi = chunk(t, 2 * n as int, t.len() as int);
    assert(t =~= lo + (mid + hi));
    lemma_eval_concat(lo, mid + hi, x);
    lemma_eval_concat(mid, hi, x);
    let el = poly_eval(lo, x);
    let em = poly_eval(mid, x);
    let eh = poly_eval(hi, x);
    crate::univariate::lemma_eval_range(lo, x);
    crate::univariate::lemma_eval_range(mid, x);
    crate::univariate::lemma_eval_range(hi, x);
    crate::fft::lemma_fpow_range(x, n);
    crate::fft::lemma_fpow_range(x, 2 * n);
    crate::fft::lemma_fpow_add(x, n, n);
    assert(n + n == 2 * n);
    if t.len() >= 2 * n {
        // both cuts are full: the exponents are n and 2n
        assert(lo.len() == n && mid.len() == n);
        crate::algebra::lemma_fmul_distrib(fpow(x, n), em, fmul(fpow(x, n), eh));
        crate::algebra::lemma_fmul_assoc(fpow(x, n), fpow(x, n), eh);
        crate::algebra::lemma_fadd_assoc(el, fmul(fpow(x, n), em), fmul(fpow(x, 2 * n), eh));
    } else {
        // the last part is empty
        assert(hi.len() == 0);
        assert(eh == 0);
        crate::algebra::lemma_fmul_zero(fpow(x, mid.len()));
        crate::algebra::lemma_fmul_zero(fpow(x, 2 * n));
        crate::algebra::lemma_fadd_zero(em);
        crate::algebra::lemma_ops_range(fpow(x, n), em);
        crate::algebra::lemma_fadd_zero(fadd(el, fmul(fpow(x, n), em)));
        if t.len() >= n {
            assert(lo.len() == n);
        } else {
            assert(mid.len() == 0);
            assert(em == 0);
            crate::algebra::lemma_fmul_zero(fpow(x, lo.len()));
            crate::algebra::lemma_fmul_zero(fpow(x, n));
        }
    }
}

/// The values `1, 0, ..., 0` of the first Lagrange polynomial over `n` rows.
pub open spec fn unit_values(n: nat) -> Seq<int> {
    Seq::new(n, |i: int| if i == 0 { 1 } else { 0 })
}

/// The quotient polynomial `t(X)` of round three: selector constraint, the two
/// sides of the permutation argument (weighted by `alpha`) and the
/// accumulator's start (weighted by `alpha^2`), each divided by `X^n - 1`.
#[verifier::opaque]
pub open spec fn quotient_t(
    a: Seq<int>,
    b: Seq<int>,
    c: Seq<int>,
    ir: PlonkishIntermediateRepresentation,
    pi: Seq<int>,
    acc: Seq<int>,
    zw: Seq<int>,
    l1: Seq<int>,
    beta: int,
    gamma: int,
    alpha: int,
    n: nat,
) -> Seq<int> {
    let gate = poly_add(
        poly_add(
            poly_add(
                poly_add(
                    poly_add(poly_mul(poly_mul(a, b), column_coeffs(ir.QM)), poly_mul(a, column_coeffs(ir.QL))),
                    poly_mul(b, column_coeffs(ir.QR)),
                ),
                poly_mul(c, column_coeffs(ir.QO)),
            ),
            pi,
        ),
        column_coeffs(ir.QC),
    );
    let p1 = poly_scale(
        poly_mul(
            poly_mul(
                poly_mul(
                    poly_add(a, monomial(1, beta, gamma)),
                    poly_add(b, monomial(1, fmul(beta, 2), gamma)),
                ),
                poly_add(c, monomial(1, fmul(beta, 3), gamma)),
            ),
            acc,
        ),
        alpha,
    );
    let p2 = poly_scale(
        poly_mul(
            poly_mul(
                poly_mul(
                    poly_add(poly_add(a, poly_scale(column_coeffs(ir.S1), beta)), seq![gamma]),
                    poly_add(poly_add(b, poly_scale(column_coeffs(ir.S2), beta)), seq![gamma]),
                ),
                poly_add(poly_add(c, poly_scale(column_coeffs(ir.S3), beta)), seq![gamma]),
            ),
            zw,
        ),
        alpha,
    );
    let p3 = poly_scale(poly_mul(poly_add(acc, seq![fneg(1)]), l1), fpow(alpha, 2));
    poly_add(
        poly_add(
            poly_add(vanishing_quotient(gate, n), vanishing_quotient(p1, n)),
            poly_scale(vanishing_quotient(p2, n), fneg(1)),
        ),
        vanishing_quotient(p3, n),
    )
}

/// `a` and `b` agree modulo the field order.
pub open spec fn congruent(a: int, b: int) -> bool {
    a % fr_modulus() == b % fr_modulus()
}

proof fn lemma_cong_mod(a: int)
    ensures
        congruent(a % fr_modulus(), a),
{
    vstd::arithmetic::div_mod::lemma_mod_twice(a, fr_modulus());
}

proof fn lemma_cong_add(a: int, b: int, c: int, d: int)
    requires
        congruent(a, c),
        congruent(b, d),
    ensures
        congruent(a + b, c + d),
{
    vstd::arithmetic::div_mod::lemma_add_mod_noop(a, b, fr_modulus());
    vstd::arithmetic::div_mod::lemma_add_mod_noop(c, d, fr_modulus());
}

proof fn lemma_cong_sub(a: int, b: int, c: int, d: int)
    requires
        congruent(a, c),
        congruent(b, d),
    ensures
        congruent(a - b, c - d),
{
    vstd::arithmetic::div_mod::lemma_sub_mod_noop(a, b, fr_modulus());
    vstd::arithmetic::div_mod::lemma_sub_mod_noop(c, d, fr_modulus());
}

proof fn lemma_cong_mul(a: int, b: int, c: int, d: int)
    requires
        congruent(a, c),
        congruent(b, d),
    ensures
        congruent(a * b, c * d),
{
    vstd::arithmetic::div_mod::lemma_mul_mod_noop(a, b, fr_modulus());
    vstd::arithmetic::div_mod::lemma_mul_mod_noop(c, d, fr_modulus());
}

/// `fadd(fadd(fadd(a, b), -c), d)` is `a + b - c + d` modulo the field order.
proof fn lemma_cong_combo(a: int, b: int, c: int, d: int)
    ensures
        congruent(fadd(fadd(fadd(a, b), fmul(fneg(1), c)), d), a + b - c + d),
{
    lemma_cong_mod(a + b);
    lemma_cong_mod(0 - 1);
    lemma_cong_mul(fneg(1), c, -1, c);
    lemma_cong_mod(fneg(1) * c);
    assert(-1 * c == 0 - c);
    lemma_cong_add(fadd(a, b), fmul(fneg(1), c), a + b, 0 - c);
    lemma_cong_mod(fadd(a, b) + fmul(fneg(1), c));
    lemma_cong_add(fadd(fadd(a, b), fmul(fneg(1), c)), d, a + b - c, d);
    lemma_cong_mod(fadd(fadd(a, b), fmul(fneg(1), c)) + d);
}

/// Combining four divisions: if each `p_i = q_i z + r_i`, then
/// `(q_1 + q_2 - q_3 + q_4) z = (p_1 + p_2 - p_3 + p_4) - (r_1 + r_2 - r_3 + r_4)`.
proof fn lemma_division_combination(
    p: (int, int, int, int),
    q: (int, int, int, int),
    r: (int, int, int, int),
    z: int,
)
    requires
        p.0 == fadd(fmul(q.0, z), r.0),
        p.1 == fadd(fmul(q.1, z), r.1),
        p.2 == fadd(fmul(q.2, z), r.2),
        p.3 == fadd(fmul(q.3, z), r.3),
    ensures
        fmul(fadd(fadd(fadd(q.0, q.1), fmul(fneg(1), q.2)), q.3), z) == fsub(
            fadd(fadd(fadd(p.0, p.1), fmul(fneg(1), p.2)), p.3),
            fadd(fadd(fadd(r.0, r.1), fmul(fneg(1), r.2)), r.3),
        ),
{
    let m = fr_modulus();
    let tq = fadd(fadd(fadd(q.0, q.1), fmul(fneg(1), q.2)), q.3);
    let sq = q.0 + q.1 - q.2 + q.3;
    lemma_cong_combo(q.0, q.1, q.2, q.3);
    lemma_cong_mul(tq, z, sq, z);
    lemma_cong_mod(tq * z);
    let tp = fadd(fadd(fadd(p.0, p.1), fmul(fneg(1), p.2)), p.3);
    let tr = fadd(fadd(fadd(r.0, r.1), fmul(fneg(1), r.2)), r.3);
    lemma_cong_combo(p.0, p.1, p.2, p.3);
    lemma_cong_combo(r.0, r.1, r.2, r.3);
    // each p_i is q_i z + r_i modulo the field order
    assert forall|a: int, b: int| #![trigger fadd(fmul(a, z), b)] congruent(fadd(fmul(a, z), b), a * z + b) by {
        lemma_cong_mod(a * z);
        lemma_cong_add(fmul(a, z), b, a * z, b);
        lemma_cong_mod(fmul(a, z) + b);
    }
    let e0 = q.0 * z + r.0;
    let e1 = q.1 * z + r.1;
    let e2 = q.2 * z + r.2;
    let e3 = q.3 * z + r.3;
    assert(congruent(p.0, e0));
    assert(congruent(p.1, e1));
    assert(congruent(p.2, e2));
    assert(congruent(p.3, e3));
    lemma_cong_add(p.0, p.1, e0, e1);
    lemma_cong_sub(p.0 + p.1, p.2, e0 + e1, e2);
    lemma_cong_add(p.0 + p.1 - p.2, p.3, e0 + e1 - e2, e3);
    let sp = e0 + e1 - e2 + e3;
    assert(congruent(tp, sp));
    let sr = r.0 + r.1 - r.2 + r.3;
    lemma_cong_sub(tp, tr, sp, sr);
    lemma_cong_mod(tp - tr);
    assert(sp - sr == sq * z) by (nonlinear_arith)
        requires
            sp == e0 + e1 - e2 + e3,
            sr == r.0 + r.1 - r.2 + r.3,
            sq == q.0 + q.1 - q.2 + q.3,
            e0 == q.0 * z + r.0,
            e1 == q.1 * z + r.1,
            e2 == q.2 * z + r.2,
            e3 == q.3 * z + r.3,
    ;
    // both sides are reduced and congruent to (q_1 + q_2 - q_3 + q_4) z
    vstd::arithmetic::div_mod::lemma_mod_bound(tq * z, m);
    vstd::arithmetic::div_mod::lemma_mod_bound(tp - tr, m);
    vstd::arithmetic::div_mod::lemma_mod_twice(tq * z, m);
    vstd::arithmetic::div_mod::lemma_mod_twice(tp - tr, m);
}

/// The selector constraint of round three:
/// `a b QM + a QL + b QR + c QO + PI + QC`.
pub open spec fn gate_constraint(
    a: Seq<int>,
    b: Seq<int>,
    c: Seq<int>,
    ir: PlonkishIntermediateRepresentation,
    pi: Seq<int>,
) -> Seq<int> {
    poly_add(
        poly_add(
            poly_add(
                poly_add(
                    poly_add(poly_mul(poly_mul(a, b), column_coeffs(ir.QM)), poly_mul(a, column_coeffs(ir.QL))),
                    poly_mul(b, column_coeffs(ir.QR)),
                ),
                poly_mul(c, column_coeffs(ir.QO)),
            ),
            pi,
        ),
        column_coeffs(ir.QC),
    )
}

/// The permutation argument's numerator side, weighted by `alpha`:
/// `alpha (a + beta X + gamma)(b + 2 beta X + gamma)(c + 3 beta X + gamma) z(X)`.
pub open spec fn permutation_numerator_side(
    a: Seq<int>,
    b: Seq<int>,
    c: Seq<int>,
    acc: Seq<int>,
    beta: int,
    gamma: int,
    alpha: int,
) -> Seq<int> {
    poly_scale(
        poly_mul(
            poly_mul(
                poly_mul(
                    poly_add(a, monomial(1, beta, gamma)),
                    poly_add(b, monomial(1, fmul(beta, 2), gamma)),
                ),
                poly_add(c, monomial(1, fmul(beta, 3), gamma)),
            ),
            acc,
        ),
        alpha,
    )
}

/// The permutation argument's denominator side, weighted by `alpha`:
/// `alpha (a + beta S1 + gamma)(b + beta S2 + gamma)(c + beta S3 + gamma) z(w X)`.
pub open spec fn permutation_denominator_side(
    a: Seq<int>,
    b: Seq<int>,
    c: Seq<int>,
    ir: PlonkishIntermediateRepresentation,
    zw: Seq<int>,
    beta: int,
    gamma: int,
    alpha: int,
) -> Seq<int> {
    poly_scale(
        poly_mul(
            poly_mul(
                poly_mul(
                    poly_add(poly_add(a, poly_scale(column_coeffs(ir.S1), beta)), seq![gamma]),
                    poly_add(poly_add(b, poly_scale(column_coeffs(ir.S2), beta)), seq![gamma]),
                ),
                poly_add(poly_add(c, poly_scale(column_coeffs(ir.S3), beta)), seq![gamma]),
            ),
            zw,
        ),
        alpha,
    )
}

/// The accumulator's start, weighted by `alpha^2`: `alpha^2 (z(X) - 1) L1(X)`.
pub open spec fn accumulator_start_term(acc: Seq<int>, l1: Seq<int>, alpha: int) -> Seq<int> {
    poly_scale(poly_mul(poly_add(acc, seq![fneg(1)]), l1), fpow(alpha, 2))
}

/// `p1 + p2 - p3 + p4`.
pub open spec fn signed_sum(p1: Seq<int>, p2: Seq<int>, p3: Seq<int>, p4: Seq<int>) -> Seq<int> {
    poly_add(poly_add(poly_add(p1, p2), poly_scale(p3, fneg(1))), p4)
}

/// The constraint numerator that round three divides by `X^n - 1`: the selector
/// constraint, plus the permutation numerator side, minus the permutation
/// denominator side, plus the accumulator's start.
pub open spec fn constraint_numerator(
    a: Seq<int>,
    b: Seq<int>,
    c: Seq<int>,
    ir: PlonkishIntermediateRepresentation,
    pi: Seq<int>,
    acc: Seq<int>,
    zw: Seq<int>,
    l1: Seq<int>,
    beta: int,
    gamma: int,
    alpha: int,
) -> Seq<int> {
    signed_sum(
        gate_constraint(a, b, c, ir, pi),
        permutation_numerator_side(a, b, c, acc, beta, gamma, alpha),
        permutation_denominator_side(a, b, c, ir, zw, beta, gamma, alpha),
        accumulator_start_term(acc, l1, alpha),
    )
}

/// The numerator's remainder by `X^n - 1`, taken part by part.
pub open spec fn constraint_remainder(
    a: Seq<int>,
    b: Seq<int>,
    c: Seq<int>,
    ir: PlonkishIntermediateRepresentation,
    pi: Seq<int>,
    acc: Seq<int>,
    zw: Seq<int>,
    l1: Seq<int>,
    beta: int,
    gamma: int,
    alpha: int,
    n: nat,
) -> Seq<int> {
    signed_sum(
        vanishing_remainder(gate_constraint(a, b, c, ir, pi), n),
        vanishing_remainder(permutation_numerator_side(a, b, c, acc, beta, gamma, alpha), n),
        vanishing_remainder(permutation_denominator_side(a, b, c, ir, zw, beta, gamma, alpha), n),
        vanishing_remainder(accumulator_start_term(acc, l1, alpha), n),
    )
}

/// Evaluating `p1 + p2 - p3 + p4`.
proof fn lemma_eval_signed_sum(p1: Seq<int>, p2: Seq<int>, p3: Seq<int>, p4: Seq<int>, x: int)
    ensures
        poly_eval(signed_sum(p1, p2, p3, p4), x) == fadd(
            fadd(fadd(poly_eval(p1, x), poly_eval(p2, x)), fmul(fneg(1), poly_eval(p3, x))),
            poly_eval(p4, x),
        ),
{
    crate::univariate::lemma_eval_add(p1, p2, x);
    crate::univariate::lemma_eval_scale(p3, fneg(1), x);
    crate::univariate::lemma_eval_add(poly_add(p1, p2), poly_scale(p3, fneg(1)), x);
    crate::univariate::lemma_eval_add(poly_add(poly_add(p1, p2), poly_scale(p3, fneg(1))), p4, x);
}

/// The quotient of round three divides the constraint numerator by the
/// vanishing polynomial: for every `x`, `t(x) (x^n - 1) = N(x) - R(x)`, where
/// `N` is the selector constraint plus `alpha` times the permutation numerator side
/// minus `alpha` times the permutation denominator side plus `alpha^2` times
/// the accumulator's start, and `R` is `N`'s remainder by `X^n - 1`: it has at
/// most `n` coefficients and agrees with `N` wherever `x^n = 1`. So where the
/// numerator vanishes on the rows' domain and its remainder is zero,
/// `t (X^n - 1)` is the numerator.
pub proof fn lemma_quotient_divides_numerator(
    a: Seq<int>,
    b: Seq<int>,
    c: Seq<int>,
    ir: PlonkishIntermediateRepresentation,
    pi: Seq<int>,
    acc: Seq<int>,
    zw: Seq<int>,
    l1: Seq<int>,
    beta: int,
    gamma: int,
    alpha: int,
    n: nat,
    x: int,
)
    requires
        n >= 1,
    ensures
        ({
            let t = quotient_t(a, b, c, ir, pi, acc, zw, l1, beta, gamma, alpha, n);
            let num = constraint_numerator(a, b, c, ir, pi, acc, zw, l1, beta, gamma, alpha);
            let rem = constraint_remainder(a, b, c, ir, pi, acc, zw, l1, beta, gamma, alpha, n);
            &&& fmul(poly_eval(t, x), fsub(fpow(x, n), 1)) == fsub(poly_eval(num, x), poly_eval(rem, x))
            &&& rem.len() <= n
            &&& fpow(x, n) == 1 ==> poly_eval(rem, x) == poly_eval(num, x)
        }),
{
    reveal(quotient_t);
    let g = gate_constraint(a, b, c, ir, pi);
    let p1 = permutation_numerator_side(a, b, c, acc, beta, gamma, alpha);
    let p2 = permutation_denominator_side(a, b, c, ir, zw, beta, gamma, alpha);
    let p3 = accumulator_start_term(acc, l1, alpha);
    let t = quotient_t(a, b, c, ir, pi, acc, zw, l1, beta, gamma, alpha, n);
    assert(t == signed_sum(
        vanishing_quotient(g, n),
        vanishing_quotient(p1, n),
        vanishing_quotient(p2, n),
        vanishing_quotient(p3, n),
    ));
    let z = fsub(fpow(x, n), 1);
    lemma_vanishing_division(g, n, x);
    lemma_vanishing_division(p1, n, x);
    lemma_vanishing_division(p2, n, x);
    lemma_vanishing_division(p3, n, x);
    lemma_eval_signed_sum(vanishing_quotient(g, n), vanishing_quotient(p1, n), vanishing_quotient(p2, n), vanishing_quotient(p3, n), x);
    lemma_eval_signed_sum(g, p1, p2, p3, x);
    lemma_eval_signed_sum(
        vanishing_remainder(g, n),
        vanishing_remainder(p1, n),
        vanishing_remainder(p2, n),
        vanishing_remainder(p3, n),
        x,
    );
    lemma_division_combination(
        (poly_eval(g, x), poly_eval(p1, x), poly_eval(p2, x), poly_eval(p3, x)),
        (
            poly_eval(vanishing_quotient(g, n), x),
            poly_eval(vanishing_quotient(p1, n), x),
            poly_eval(vanishing_quotient(p2, n), x),
            poly_eval(vanishing_quotient(p3, n), x),
        ),
        (
            poly_eval(vanishing_remainder(g, n), x),
            poly_eval(vanishing_remainder(p1, n), x),
            poly_eval(vanishing_remainder(p2, n), x),
            poly_eval(vanishing_remainder(p3, n), x),
        ),
        z,
    );
    let num = constraint_numerator(a, b, c, ir, pi, acc, zw, l1, beta, gamma, alpha);
    let rem = constraint_remainder(a, b, c, ir, pi, acc, zw, l1, beta, gamma, alpha, n);
    if fpow(x, n) == 1 {
        assert(z == 0);
        crate::algebra::lemma_fmul_zero(poly_eval(t, x));
        crate::univariate::lemma_eval_range(num, x);
        crate::univariate::lemma_eval_range(rem, x);
        if poly_eval(num, x) != poly_eval(rem, x) {
            crate::algebra::lemma_fsub_nonzero(poly_eval(num, x), poly_eval(rem, x));
        }
    }
}

/// `t(X)` for the outputs of rounds one and two, the challenge `alpha`, the
/// root of unity and the inverse `ginv` of the rows' domain generator (the
/// first Lagrange polynomial's coefficients are the inverse transform of
/// `1, 0, ..., 0`).
pub open spec fn round_three_t(
    w: Witness,
    ir: PlonkishIntermediateRepresentation,
    r1: RoundOneOutput,
    r2: RoundTwoOutput,
    alpha: int,
    root: int,
    ginv: int,
) -> Seq<int> {
    let n = ir.group_order as nat;
    let acc = r2.accumulator_poly.coeffs();
    quotient_t(
        r1.a_x.coeffs(),
        r1.b_x.coeffs(),
        r1.c_x.coeffs(),
        ir,
        column_coeffs(w.pi),
        acc,
        apply_w(acc, root),
        inverse_transform(unit_values(n), domain_size(n), ginv),
        r2.beta@,
        r2.gamma@,
        alpha,
        n,
    )
}

/// The three parts of `t` blinded with `b10` and `b11`:
/// `t_lo + b10 X^n`, `t_mid + b11 X^n - b10` and `t_hi - b11`.
pub open spec fn blinded_parts(t: Seq<int>, n: nat, b10: int, b11: int) -> (Seq<int>, Seq<int>, Seq<int>) {
    let xn = monomial(n, 1, 0);
    (
        poly_add(chunk(t, 0, n as int), poly_scale(xn, b10)),
        poly_add(chunk(t, n as int, 2 * n as int), poly_add(poly_scale(xn, b11), seq![fneg(b10)])),
        poly_add(chunk(t, 2 * n as int, t.len() as int), seq![fneg(b11)]),
    )
}

/// A polynomial with only zero coefficients evaluates to zero.
proof fn lemma_eval_zeros(k: nat, x: int)
    ensures
        poly_eval(Seq::new(k, |i: int| 0int), x) == 0,
    decreases k,
{
    if k > 0 {
        let z = Seq::new(k, |i: int| 0int);
        assert(z.drop_first() =~= Seq::new((k - 1) as nat, |i: int| 0int));
        lemma_eval_zeros((k - 1) as nat, x);
        crate::algebra::lemma_fmul_zero(x);
    }
}

/// `X^n` evaluates to `x^n`.
proof fn lemma_eval_power(n: nat, x: int)
    ensures
        poly_eval(monomial(n, 1, 0), x) == fpow(x, n),
{
    crate::fft::lemma_fpow_range(x, n);
    vstd::arithmetic::div_mod::lemma_small_mod(1, fr_modulus() as nat);
    vstd::arithmetic::div_mod::lemma_small_mod(0, fr_modulus() as nat);
    crate::univariate::lemma_eval_const(1, x);
    if n == 0 {
        assert(fadd(1, 0) == 1);
        assert(monomial(0, 1, 0) =~= seq![1int]);
        assert(fpow(x, 0) == 1);
    } else {
        let z = Seq::new(n, |i: int| 0int);
        assert(monomial(n, 1, 0) =~= z + seq![1int]);
        lemma_eval_concat(z, seq![1int], x);
        lemma_eval_zeros(n, x);
        assert(seq![1int].drop_first() =~= Seq::<int>::empty());
        crate::algebra::lemma_fmul_zero(x);
        vstd::arithmetic::div_mod::lemma_small_mod(1, fr_modulus() as nat);
        crate::algebra::lemma_fmul_one(fpow(x, n));
        crate::algebra::lemma_fadd_zero(fpow(x, n));
    }
}

/// The blinding of round three cancels: for every `x`, the blinded parts
/// recombine as `t_lo(x) + x^n t_mid(x) + x^(2n) t_hi(x) = t(x)`, whatever the
/// blinders.
pub proof fn lemma_blinded_parts_recombine(t: Seq<int>, n: nat, b10: int, b11: int, x: int)
    ensures
        ({
            let p = blinded_parts(t, n, b10, b11);
            fadd(
                fadd(poly_eval(p.0, x), fmul(fpow(x, n), poly_eval(p.1, x))),
                fmul(fpow(x, 2 * n), poly_eval(p.2, x)),
            ) == poly_eval(t, x)
        }),
{
    let m = fr_modulus();
    let p = blinded_parts(t, n, b10, b11);
    let lo = chunk(t, 0, n as int);
    let mid = chunk(t, n as int, 2 * n as int);
    let hi = chunk(t, 2 * n as int, t.len() as int);
    let xn = monomial(n, 1, 0);
    let l = poly_eval(lo, x);
    let md = poly_eval(mid, x);
    let h = poly_eval(hi, x);
    let xx = fpow(x, n);
    let x2 = fpow(x, 2 * n);
    lemma_split_in_3(t, n, x);
    lemma_eval_power(n, x);
    crate::fft::lemma_fpow_add(x, n, n);
    assert(x2 == fmul(xx, xx)) by {
        assert(n + n == 2 * n);
    }
    // the parts' values
    crate::univariate::lemma_eval_scale(xn, b10, x);
    crate::univariate::lemma_eval_add(lo, poly_scale(xn, b10), x);
    let e0 = poly_eval(p.0, x);
    assert(e0 == fadd(l, fmul(b10, xx)));
    crate::univariate::lemma_eval_scale(xn, b11, x);
    crate::univariate::lemma_eval_const(fneg(b10), x);
    crate::univariate::lemma_eval_add(poly_scale(xn, b11), seq![fneg(b10)], x);
    crate::univariate::lemma_eval_add(mid, poly_add(poly_scale(xn, b11), seq![fneg(b10)]), x);
    let e1 = poly_eval(p.1, x);
    assert(e1 == fadd(md, fadd(fmul(b11, xx), fneg(b10) % m)));
    crate::univariate::lemma_eval_const(fneg(b11), x);
    crate::univariate::lemma_eval_add(hi, seq![fneg(b11)], x);
    let e2 = poly_eval(p.2, x);
    assert(e2 == fadd(h, fneg(b11) % m));
    // modulo the field order everything is an integer polynomial expression
    let il = l + b10 * xx;
    let i1 = md + (b11 * xx + (0 - b10));
    let i2 = h + (0 - b11);
    assert(congruent(e0, il)) by {
        lemma_cong_mod(b10 * xx);
        lemma_cong_add(l, fmul(b10, xx), l, b10 * xx);
        lemma_cong_mod(l + fmul(b10, xx));
    }
    assert(congruent(e1, i1)) by {
        lemma_cong_mod(b11 * xx);
        lemma_cong_mod(0 - b10);
        vstd::arithmetic::div_mod::lemma_mod_twice(0 - b10, m);
        lemma_cong_add(fmul(b11, xx), fneg(b10) % m, b11 * xx, 0 - b10);
        lemma_cong_mod(fmul(b11, xx) + fneg(b10) % m);
        lemma_cong_add(md, fadd(fmul(b11, xx), fneg(b10) % m), md, b11 * xx + (0 - b10));
        lemma_cong_mod(md + fadd(fmul(b11, xx), fneg(b10) % m));
    }
    assert(congruent(e2, i2)) by {
        lemma_cong_mod(0 - b11);
        vstd::arithmetic::div_mod::lemma_mod_twice(0 - b11, m);
        lemma_cong_add(h, fneg(b11) % m, h, 0 - b11);
        lemma_cong_mod(h + fneg(b11) % m);
    }
    let lhs = fadd(fadd(e0, fmul(xx, e1)), fmul(x2, e2));
    let ilhs = il + xx * i1 + (xx * xx) * i2;
    assert(congruent(lhs, ilhs)) by {
        lemma_cong_mul(xx, e1, xx, i1);
        lemma_cong_mod(xx * e1);
        lemma_cong_add(e0, fmul(xx, e1), il, xx * i1);
        lemma_cong_mod(e0 + fmul(xx, e1));
        lemma_cong_mod(xx * xx);
        lemma_cong_mul(x2, e2, xx * xx, i2);
        lemma_cong_mod(x2 * e2);
        lemma_cong_add(fadd(e0, fmul(xx, e1)), fmul(x2, e2), il + xx * i1, (xx * xx) * i2);
        lemma_cong_mod(fadd(e0, fmul(xx, e1)) + fmul(x2, e2));
    }
    let rhs = fadd(fadd(l, fmul(xx, md)), fmul(x2, h));
    let irhs = l + xx * md + (xx * xx) * h;
    assert(congruent(rhs, irhs)) by {
        lemma_cong_mod(xx * md);
        lemma_cong_add(l, fmul(xx, md), l, xx * md);
        lemma_cong_mod(l + fmul(xx, md));
        lemma_cong_mod(xx * xx);
        lemma_cong_mul(x2, h, xx * xx, h);
        lemma_cong_mod(x2 * h);
        lemma_cong_add(fadd(l, fmul(xx, md)), fmul(x2, h), l + xx * md, (xx * xx) * h);
        lemma_cong_mod(fadd(l, fmul(xx, md)) + fmul(x2, h));
    }
    assert(ilhs == irhs) by (nonlinear_arith)
        requires
            ilhs == il + xx * i1 + (xx * xx) * i2,
            irhs == l + xx * md + (xx * xx) * h,
            il == l + b10 * xx,
            i1 == md + (b11 * xx + (0 - b10)),
            i2 == h + (0 - b11),
    ;
    vstd::arithmetic::div_mod::lemma_mod_bound(fadd(e0, fmul(xx, e1)) + fmul(x2, e2), m);
    vstd::arithmetic::div_mod::lemma_mod_bound(fadd(l, fmul(xx, md)) + fmul(x2, h), m);
    vstd::arithmetic::div_mod::lemma_mod_twice(fadd(e0, fmul(xx, e1)) + fmul(x2, e2), m);
    vstd::arithmetic::div_mod::lemma_mod_twice(fadd(l, fmul(xx, md)) + fmul(x2, h), m);
}

/// The blinded parts of round three fit the reference string.
pub open spec fn parts_fit(parts: (Seq<int>, Seq<int>, Seq<int>), srs: SRS) -> bool {
    &&& parts.0.len() <= srs.g1_power_of_taus.len()
    &&& parts.1.len() <= srs.g1_power_of_taus.len()
    &&& parts.2.len() <= srs.g1_power_of_taus.len()
}

/// The selector part of the linearisation: the selectors weighted by the wires'
/// values at `zeta`, the public inputs' value there and the constant selector.
#[verifier::opaque]
pub open spec fn linearised_gate(ir: PlonkishIntermediateRepresentation, pi: Seq<int>, r4: RoundFourOutput) -> Seq<
    int,
> {
    let az = r4.a_x_ploy_zeta@;
    let bz = r4.b_x_ploy_zeta@;
    let cz = r4.c_x_ploy_zeta@;
    poly_add(
        poly_add(
            poly_add(
                poly_add(
                    poly_add(
                        poly_scale(poly_scale(column_coeffs(ir.QM), az), bz),
                        poly_scale(column_coeffs(ir.QL), az),
                    ),
                    poly_scale(column_coeffs(ir.QR), bz),
                ),
                poly_scale(column_coeffs(ir.QO), cz),
            ),
            seq![poly_eval(pi, r4.zeta@)],
        ),
        column_coeffs(ir.QC),
    )
}

/// The linearisation polynomial `r(X)` of round five, for the circuit, the
/// public inputs' coefficients, the accumulator and the quotient's parts, at
/// the values of round four (`zeta` and the evaluations there), the challenges
/// and the first Lagrange polynomial's value `l1z` at `zeta`.
#[verifier::opaque]
pub open spec fn linearisation(
    ir: PlonkishIntermediateRepresentation,
    pi: Seq<int>,
    acc: Seq<int>,
    t: (Seq<int>, Seq<int>, Seq<int>),
    l1z: int,
    r4: RoundFourOutput,
    beta: int,
    gamma: int,
    alpha: int,
    n: nat,
) -> Seq<int> {
    let az = r4.a_x_ploy_zeta@;
    let bz = r4.b_x_ploy_zeta@;
    let cz = r4.c_x_ploy_zeta@;
    let zeta = r4.zeta@;
    let gate = linearised_gate(ir, pi, r4);
    let left = poly_scale(
        poly_scale(
            poly_scale(acc, fadd(fadd(az, fmul(beta, zeta)), gamma)),
            fadd(fadd(bz, fmul(fmul(beta, 2), zeta)), gamma),
        ),
        fadd(fadd(cz, fmul(fmul(beta, 3), zeta)), gamma),
    );
    let right = poly_scale(
        poly_scale(
            poly_scale(
                poly_add(poly_add(poly_scale(column_coeffs(ir.S3), beta), seq![cz]), seq![gamma]),
                fadd(fadd(az, fmul(beta, r4.s1_poly_zeta@)), gamma),
            ),
            fadd(fadd(bz, fmul(beta, r4.s2_poly_zeta@)), gamma),
        ),
        r4.w_accumulator_poly_zeta@,
    );
    let perm = poly_scale(poly_add(left, poly_scale(right, fneg(1))), alpha);
    let start = poly_scale(poly_scale(poly_add(acc, seq![fneg(1)]), l1z), fpow(alpha, 2));
    let split = poly_scale(
        poly_add(
            poly_add(t.0, poly_scale(t.1, fpow(zeta, n))),
            poly_scale(t.2, fpow(zeta, 2 * n)),
        ),
        poly_eval(monomial(n, 1, fneg(1)), zeta),
    );
    poly_add(poly_add(poly_add(gate, perm), start), poly_scale(split, fneg(1)))
}

/// `(p(X) - v) * k`.
pub open spec fn opening_term(p: Seq<int>, v: int, k: int) -> Seq<int> {
    poly_scale(poly_add(p, seq![fneg(v)]), k)
}

/// The numerator of the opening at `zeta`: `r(X)` plus
/// `v^i (p_i(X) - p_i(zeta))` for the wires and the first two permutation
/// polynomials.
#[verifier::opaque]
pub open spec fn opening_numerator(
    rp: Seq<int>,
    r1: RoundOneOutput,
    s1: Seq<int>,
    s2: Seq<int>,
    r4: RoundFourOutput,
    v: int,
) -> Seq<int> {
    poly_add(
        poly_add(
            poly_add(
                poly_add(
                    poly_add(rp, opening_term(r1.a_x.coeffs(), r4.a_x_ploy_zeta@, v)),
                    opening_term(r1.b_x.coeffs(), r4.b_x_ploy_zeta@, fpow(v, 2)),
                ),
                opening_term(r1.c_x.coeffs(), r4.c_x_ploy_zeta@, fpow(v, 3)),
            ),
            opening_term(s1, r4.s1_poly_zeta@, fpow(v, 4)),
        ),
        opening_term(s2, r4.s2_poly_zeta@, fpow(v, 5)),
    )
}

/// The numerator that `W_zeta` divides by `X - zeta`: the linearisation `r(X)`
/// plus `v^i (p_i(X) - p_i(zeta))`, for the inverse `ginv` of the rows' domain
/// generator.
pub open spec fn round_five_numerator(
    w: Witness,
    ir: PlonkishIntermediateRepresentation,
    r1: RoundOneOutput,
    r2: RoundTwoOutput,
    r3: RoundThreeOutput,
    r4: RoundFourOutput,
    v: int,
    ginv: int,
) -> Seq<int> {
    let n = ir.group_order as nat;
    let rp = linearisation(
        ir,
        column_coeffs(w.pi),
        r2.accumulator_poly.coeffs(),
        (r3.t_lo_poly.coeffs(), r3.t_mid_poly.coeffs(), r3.t_hi_poly.coeffs()),
        poly_eval(inverse_transform(unit_values(n), domain_size(n), ginv), r4.zeta@),
        r4,
        r2.beta@,
        r2.gamma@,
        r3.alpha@,
        n,
    );
    opening_numerator(rp, r1, column_coeffs(ir.S1), column_coeffs(ir.S2), r4, v)
}

/// What `W_zeta_w` divides by `X - omega zeta`: `Z(X) - Z(omega zeta)`.
pub open spec fn shifted_numerator(r2: RoundTwoOutput, r4: RoundFourOutput) -> Seq<int> {
    poly_add(r2.accumulator_poly.coeffs(), seq![fneg(r4.w_accumulator_poly_zeta@)])
}

/// The two opening polynomials of round five for the inverse `ginv` of the
/// rows' domain generator: `W_zeta` and `W_zeta_w`.
#[verifier::opaque]
pub open spec fn opening_polys(
    w: Witness,
    ir: PlonkishIntermediateRepresentation,
    r1: RoundOneOutput,
    r2: RoundTwoOutput,
    r3: RoundThreeOutput,
    r4: RoundFourOutput,
    v: int,
    root: int,
    ginv: int,
) -> (Seq<int>, Seq<int>) {
    (
        quotient_by_linear(round_five_numerator(w, ir, r1, r2, r3, r4, v, ginv), r4.zeta@),
        quotient_by_linear(shifted_numerator(r2, r4), fmul(root, r4.zeta@)),
    )
}

/// The opening polynomials are quotients: for every `x`,
/// `W_zeta(x) (x - zeta) = N(x) - N(zeta)` for the numerator `N` of
/// [`round_five_numerator`], and `W_zeta_w(x) (x - omega zeta) = Z'(x) - Z'(omega zeta)`
/// for `Z' = Z - Z(omega zeta)`.
pub proof fn lemma_opening_quotients(
    w: Witness,
    ir: PlonkishIntermediateRepresentation,
    r1: RoundOneOutput,
    r2: RoundTwoOutput,
    r3: RoundThreeOutput,
    r4: RoundFourOutput,
    v: int,
    root: int,
    ginv: int,
    x: int,
)
    ensures
        ({
            let o = opening_polys(w, ir, r1, r2, r3, r4, v, root, ginv);
            let num = round_five_numerator(w, ir, r1, r2, r3, r4, v, ginv);
            let sh = shifted_numerator(r2, r4);
            let wz = fmul(root, r4.zeta@);
            &&& fmul(fsub(x, r4.zeta@), poly_eval(o.0, x)) == fsub(poly_eval(num, x), poly_eval(num, r4.zeta@))
            &&& fmul(fsub(x, wz), poly_eval(o.1, x)) == fsub(poly_eval(sh, x), poly_eval(sh, wz))
        }),
{
    reveal(opening_polys);
    let num = round_five_numerator(w, ir, r1, r2, r3, r4, v, ginv);
    let sh = shifted_numerator(r2, r4);
    crate::kzg::lemma_quotient_by_linear(num, r4.zeta@, x);
    crate::kzg::lemma_quotient_by_linear(sh, fmul(root, r4.zeta@), x);
}

/// The opening numerator of round five as a polynomial.
fn opening_numerator_poly(
    rp: &UnivariantPolynomial,
    r1: &RoundOneOutput,
    s1: &UnivariantPolynomial,
    s2: &UnivariantPolynomial,
    r4: &RoundFourOutput,
    v: Fr,
) -> (r: UnivariantPolynomial)
    ensures
        r.coeffs() == opening_numerator(rp.coeffs(), *r1, s1.coeffs(), s2.coeffs(), *r4, v@),
{
    proof {
        reveal(opening_numerator);
    }
    let v2 = v.pow(2);
    let v3 = v.pow(3);
    let v4 = v.pow(4);
    let v5 = v.pow(5);
    rp.add(&r1.a_x.add_constant(&r4.a_x_ploy_zeta.neg()).scale(&v)).add(
        &r1.b_x.add_constant(&r4.b_x_ploy_zeta.neg()).scale(&v2),
    ).add(&r1.c_x.add_constant(&r4.c_x_ploy_zeta.neg()).scale(&v3)).add(
        &s1.add_constant(&r4.s1_poly_zeta.neg()).scale(&v4),
    ).add(&s2.add_constant(&r4.s2_poly_zeta.neg()).scale(&v5))
}

impl PlonkProver {
    /// A prover with its transcript, circuit and reference string.
    pub fn new(
        transcript: FiatShamirTranscript,
        circuit_ir: PlonkishIntermediateRepresentation,
        srs: SRS,
    ) -> (r: Self)
        ensures
            r.transcript == transcript,
            r.circuit_ir == circuit_ir,
            r.srs == srs,
    {
        PlonkProver { transcript, circuit_ir, srs }
    }

    /// Round one: each wire column in coefficient form, blinded by
    /// `(r1 X + r2)(X^n - 1)` with two of the six blinders, and its commitment.
    /// The transcript is not touched.
    pub fn round_one(&mut self, witness: &Witness, blinders: &[Fr; 6]) -> (r: RoundOneOutput)
        requires
            old(self).circuit_ir.group_order < usize::MAX,
            witness.a.domain.size <= usize::MAX,
            witness.b.domain.size <= usize::MAX,
            witness.c.domain.size <= usize::MAX,
            blinded_wire(witness.a, blinders[0]@, blinders[1]@, old(self).circuit_ir.group_order as nat).len()
                <= old(self).srs.g1_power_of_taus.len(),
            blinded_wire(witness.b, blinders[2]@, blinders[3]@, old(self).circuit_ir.group_order as nat).len()
                <= old(self).srs.g1_power_of_taus.len(),
            blinded_wire(witness.c, blinders[4]@, blinders[5]@, old(self).circuit_ir.group_order as nat).len()
                <= old(self).srs.g1_power_of_taus.len(),
        ensures
            *final(self) == *old(self),
            r.a_x.coeffs() == blinded_wire(
                witness.a,
                blinders[0]@,
                blinders[1]@,
                old(self).circuit_ir.group_order as nat,
            ),
            r.b_x.coeffs() == blinded_wire(
                witness.b,
                blinders[2]@,
                blinders[3]@,
                old(self).circuit_ir.group_order as nat,
            ),
            r.c_x.coeffs() == blinded_wire(
                witness.c,
                blinders[4]@,
                blinders[5]@,
                old(self).circuit_ir.group_order as nat,
            ),
            r.a_commitment@ == commitment(old(self).srs, r.a_x.coeffs()),
            r.b_commitment@ == commitment(old(self).srs, r.b_x.coeffs()),
            r.c_commitment@ == commitment(old(self).srs, r.c_x.coeffs()),
    {
        let n = self.circuit_ir.group_order as usize;
        let one = Fr::one();
        let vanishing = UnivariantPolynomial::create_monomial(n, one, one.neg());
        let wa = witness.a.to_coefficient_poly();
        let wb = witness.b.to_coefficient_poly();
        let wc = witness.c.to_coefficient_poly();
        let a_x = UnivariantPolynomial::create_monomial(1, blinders[0], blinders[1]).mul(&vanishing).add(&wa);
        let b_x = UnivariantPolynomial::create_monomial(1, blinders[2], blinders[3]).mul(&vanishing).add(&wb);
        let c_x = UnivariantPolynomial::create_monomial(1, blinders[4], blinders[5]).mul(&vanishing).add(&wc);
        proof {
            vstd::arithmetic::div_mod::lemma_small_mod(1, fr_modulus() as nat);
            assert(a_x.coeffs().len() == a_x.coefficients.len());
            assert(b_x.coeffs().len() == b_x.coefficients.len());
            assert(c_x.coeffs().len() == c_x.coefficients.len());
        }
        let a_commitment = UnivariateKZG::commit(&self.srs, &a_x);
        let b_commitment = UnivariateKZG::commit(&self.srs, &b_x);
        let c_commitment = UnivariateKZG::commit(&self.srs, &c_x);
        RoundOneOutput::new(a_commitment, b_commitment, c_commitment, a_x, b_x, c_x)
    }

    /// Round two: draws `beta` and `gamma`, computes the permutation
    /// accumulator over the rows, takes it to coefficient form over the rows'
    /// domain, blinds it by `(b2 X^2 + b1 X + b0)(X^n - 1)` with the three
    /// blinders and commits to it. Refused where a denominator of the
    /// accumulator vanishes (the challenges are then drawn all the same).
    pub fn round_two(&mut self, witness: &Witness, blinders: &[Fr; 3]) -> (r: Result<
        RoundTwoOutput,
        PlonkProverError,
    >)
        requires
            supported_order(old(self).circuit_ir.group_order as nat),
            old(self).circuit_ir.group_order <= usize::MAX / 2 + 1,
            old(self).circuit_ir.group_order < usize::MAX,
            crate::evaluation::domain_size(old(self).circuit_ir.group_order as nat) <= crate::pow2::two_pow(
                32,
            ),
            crate::evaluation::domain_size(old(self).circuit_ir.group_order as nat) <= usize::MAX,
            old(self).circuit_ir.group_order <= witness.a.values.len(),
            old(self).circuit_ir.group_order <= witness.b.values.len(),
            old(self).circuit_ir.group_order <= witness.c.values.len(),
            old(self).circuit_ir.group_order <= old(self).circuit_ir.S1.values.len(),
            old(self).circuit_ir.group_order <= old(self).circuit_ir.S2.values.len(),
            old(self).circuit_ir.group_order <= old(self).circuit_ir.S3.values.len(),
            crate::evaluation::domain_size(old(self).circuit_ir.group_order as nat) + 3
                + old(self).circuit_ir.group_order <= old(self).srs.g1_power_of_taus.len(),
        ensures
            ({
                let n = old(self).circuit_ir.group_order as nat;
                let ch = sample_n(old(self).transcript.log(), 2);
                let root = subgroup_root_of_unity(n)->0;
                &&& subgroup_root_of_unity(n) is Some
                &&& final(self).transcript.log() == ch.0
                &&& final(self).circuit_ir == old(self).circuit_ir
                &&& final(self).srs == old(self).srs
                &&& r is Err <==> some_den_vanishes(*witness, old(self).circuit_ir, ch.1[0], ch.1[1], n)
                &&& r matches Ok(o) ==> {
                    &&& o.beta@ == ch.1[0]
                    &&& o.gamma@ == ch.1[1]
                    &&& exists|z: Seq<int>, d: Domain|
                        accumulator_law(z, *witness, old(self).circuit_ir, ch.1[0], ch.1[1], root, n)
                            && d.size == crate::evaluation::domain_size(n) && o.accumulator_poly.coeffs()
                            == poly_add(
                            inverse_transform(z, d.size as nat, d.group_gen_inverse@),
                            poly_mul(
                                seq![blinders[2]@, blinders[1]@, blinders[0]@],
                                monomial(n, 1, fneg(1)),
                            ),
                        )
                    &&& o.accumulator_commitment@ == commitment(old(self).srs, o.accumulator_poly.coeffs())
                }
            }),
    {
        let n = self.circuit_ir.group_order as usize;
        let challenges = self.transcript.sample_n_as_field_elements(2);
        let beta = challenges[0];
        let gamma = challenges[1];
        proof {
            assert(challenges.deep_view()[0] == beta@);
            assert(challenges.deep_view()[1] == gamma@);
        }
        let root = match Fr::get_root_of_unity(self.circuit_ir.group_order) {
            Some(w) => w,
            None => {
                proof {
                    assert(false);
                }
                Fr::one()
            },
        };
        let z = match permutation_accumulator(witness, &self.circuit_ir, beta, gamma, root, n) {
            Some(z) => z,
            None => {
                return Err(PlonkProverError::VanishingDenominator);
            },
        };
        let ghost zv = vals(z@);
        let domain = Domain::new(n);
        proof {
            assert(z.deep_view() =~= zv);
        }
        let acc_eval = UnivariateEval::new(z, domain);
        let acc_poly = acc_eval.to_coefficient_poly();
        let one = Fr::one();
        let vanishing = UnivariantPolynomial::create_monomial(n, one, one.neg());
        let mut bc: Vec<Fr> = Vec::new();
        bc.push(blinders[2]);
        bc.push(blinders[1]);
        bc.push(blinders[0]);
        let blinding = UnivariantPolynomial::from_coefficients_vec(bc);
        proof {
            vstd::arithmetic::div_mod::lemma_small_mod(1, fr_modulus() as nat);
            assert(blinding.coeffs() =~= seq![blinders[2]@, blinders[1]@, blinders[0]@]);
            assert(acc_eval.values.deep_view() =~= zv);
        }
        let blinded = acc_poly.add(&blinding.mul(&vanishing));
        proof {
            assert(blinded.coeffs().len() == blinded.coefficients.len());
            crate::evaluation::lemma_domain_size_covers(n as nat);
            assert(poly_mul(seq![blinders[2]@, blinders[1]@, blinders[0]@], monomial(n as nat, 1, fneg(1))).len()
                == n + 3) by {
                crate::univariate::lemma_poly_mul_len(
                    seq![blinders[2]@, blinders[1]@, blinders[0]@],
                    monomial(n as nat, 1, fneg(1)),
                );
            }
        }
        let commitment = UnivariateKZG::commit(&self.srs, &blinded);
        Ok(RoundTwoOutput::new(commitment, beta, gamma, blinded))
    }

    /// Round four: draws `zeta` and evaluates there the wire polynomials, the
    /// shifted accumulator and the first two permutation polynomials.
    pub fn round_four(&mut self, round_one_output: &RoundOneOutput, round_three_output: &RoundThreeOutput) -> (r:
        RoundFourOutput)
        requires
            round_one_output.a_x.coefficients.len() > 0,
            round_one_output.b_x.coefficients.len() > 0,
            round_one_output.c_x.coefficients.len() > 0,
            round_three_output.w_accumulator_poly.coefficients.len() > 0,
            old(self).circuit_ir.S1.domain.size <= usize::MAX,
            old(self).circuit_ir.S2.domain.size <= usize::MAX,
            column_coeffs(old(self).circuit_ir.S1).len() > 0,
            column_coeffs(old(self).circuit_ir.S2).len() > 0,
        ensures
            r.zeta@ == challenge(old(self).transcript.log()),
            final(self).transcript.log() == after_sample(old(self).transcript.log()),
            final(self).circuit_ir == old(self).circuit_ir,
            final(self).srs == old(self).srs,
            r.a_x_ploy_zeta@ == poly_eval(round_one_output.a_x.coeffs(), r.zeta@),
            r.b_x_ploy_zeta@ == poly_eval(round_one_output.b_x.coeffs(), r.zeta@),
            r.c_x_ploy_zeta@ == poly_eval(round_one_output.c_x.coeffs(), r.zeta@),
            r.w_accumulator_poly_zeta@ == poly_eval(round_three_output.w_accumulator_poly.coeffs(), r.zeta@),
            r.s1_poly_zeta@ == poly_eval(column_coeffs(old(self).circuit_ir.S1), r.zeta@),
            r.s2_poly_zeta@ == poly_eval(column_coeffs(old(self).circuit_ir.S2), r.zeta@),
    {
        let zeta = self.transcript.sample_as_field_element();
        let s1_poly = self.circuit_ir.S1.to_coefficient_poly();
        let s2_poly = self.circuit_ir.S2.to_coefficient_poly();
        proof {
            assert(s1_poly.coefficients.len() == s1_poly.coeffs().len());
            assert(s2_poly.coefficients.len() == s2_poly.coeffs().len());
        }
        RoundFourOutput {
            a_x_ploy_zeta: round_one_output.a_x.evaluate(&zeta),
            b_x_ploy_zeta: round_one_output.b_x.evaluate(&zeta),
            c_x_ploy_zeta: round_one_output.c_x.evaluate(&zeta),
            w_accumulator_poly_zeta: round_three_output.w_accumulator_poly.evaluate(&zeta),
            s1_poly_zeta: s1_poly.evaluate(&zeta),
            s2_poly_zeta: s2_poly.evaluate(&zeta),
            zeta,
        }
    }

    /// Round three: draws `alpha`, builds the quotient polynomial `t(X)` (see
    /// `quotient_t`), splits it into three parts of `n` coefficients (the last
    /// takes the rest), blinds them with the two blinders and commits to them.
    pub fn round_three(
        &mut self,
        witness: &Witness,
        round_one_output: &RoundOneOutput,
        round_two_output: &RoundTwoOutput,
        blinders: &[Fr; 2],
    ) -> (r: Result<RoundThreeOutput, PlonkProverError>)
        requires
            old(self).circuit_ir.group_order >= 1,
            supported_order(old(self).circuit_ir.group_order as nat),
            2 * old(self).circuit_ir.group_order <= usize::MAX,
            old(self).circuit_ir.group_order <= usize::MAX / 2 + 1,
            domain_size(old(self).circuit_ir.group_order as nat) <= crate::pow2::two_pow(32),
            domain_size(old(self).circuit_ir.group_order as nat) <= usize::MAX,
            old(self).circuit_ir.QM.domain.size <= usize::MAX,
            old(self).circuit_ir.QL.domain.size <= usize::MAX,
            old(self).circuit_ir.QR.domain.size <= usize::MAX,
            old(self).circuit_ir.QO.domain.size <= usize::MAX,
            old(self).circuit_ir.QC.domain.size <= usize::MAX,
            old(self).circuit_ir.S1.domain.size <= usize::MAX,
            old(self).circuit_ir.S2.domain.size <= usize::MAX,
            old(self).circuit_ir.S3.domain.size <= usize::MAX,
            witness.pi.domain.size <= usize::MAX,
        ensures
            final(self).transcript.log() == after_sample(old(self).transcript.log()),
            final(self).circuit_ir == old(self).circuit_ir,
            final(self).srs == old(self).srs,
            subgroup_root_of_unity(old(self).circuit_ir.group_order as nat) is Some,
            exists|ginv: int|
                #![trigger round_three_t(
                    *witness,
                    old(self).circuit_ir,
                    *round_one_output,
                    *round_two_output,
                    challenge(old(self).transcript.log()),
                    subgroup_root_of_unity(old(self).circuit_ir.group_order as nat)->0,
                    ginv,
                )]
                {
                    let parts = blinded_parts(
                        round_three_t(
                            *witness,
                            old(self).circuit_ir,
                            *round_one_output,
                            *round_two_output,
                            challenge(old(self).transcript.log()),
                            subgroup_root_of_unity(old(self).circuit_ir.group_order as nat)->0,
                            ginv,
                        ),
                        old(self).circuit_ir.group_order as nat,
                        blinders[0]@,
                        blinders[1]@,
                    );
                    &&& is_inverse(
                        subgroup_root_of_unity(domain_size(old(self).circuit_ir.group_order as nat))->0,
                        ginv,
                    )
                    &&& (r is Err <==> !parts_fit(parts, old(self).srs))
                    &&& r is Err ==> r == Err::<RoundThreeOutput, PlonkProverError>(
                        PlonkProverError::ReferenceStringTooShort,
                    )
                    &&& r matches Ok(o) ==> {
                        &&& o.alpha@ == challenge(old(self).transcript.log())
                        &&& o.w_accumulator_poly.coeffs() == apply_w(
                            round_two_output.accumulator_poly.coeffs(),
                            subgroup_root_of_unity(old(self).circuit_ir.group_order as nat)->0,
                        )
                        &&& (o.t_lo_poly.coeffs(), o.t_mid_poly.coeffs(), o.t_hi_poly.coeffs()) == parts
                        &&& o.t_lo_commitment@ == commitment(old(self).srs, o.t_lo_poly.coeffs())
                        &&& o.t_mid_commitment@ == commitment(old(self).srs, o.t_mid_poly.coeffs())
                        &&& o.t_hi_commitment@ == commitment(old(self).srs, o.t_hi_poly.coeffs())
                    }
                },
    {
        proof {
            reveal(quotient_t);
        }
        let n = self.circuit_ir.group_order as usize;
        let alpha = self.transcript.sample_as_field_element();
        let one = Fr::one();
        let minus_one = one.neg();
        let root = match Fr::get_root_of_unity(self.circuit_ir.group_order) {
            Some(w) => w,
            None => {
                proof {
                    assert(false);
                }
                Fr::one()
            },
        };
        let mut l1_values: Vec<Fr> = Vec::new();
        l1_values.push(Fr::one());
        let mut i: usize = 1;
        while i < n
            invariant
                1 <= i <= n,
                l1_values.len() == i,
                l1_values[0]@ == 1,
                forall|k: int| 1 <= k < i ==> (#[trigger] l1_values[k])@ == 0,
            decreases n - i,
        {
            l1_values.push(Fr::zero());
            i = i + 1;
        }
        proof {
            assert forall|k: int| 0 <= k < n implies #[trigger] l1_values.deep_view()[k] == unit_values(
                n as nat,
            )[k] by {
                assert(l1_values.deep_view()[k] == l1_values[k]@);
            }
            assert(l1_values.deep_view() =~= unit_values(n as nat));
        }
        let domain = Domain::new(n);
        let l1_poly = UnivariateEval::new(l1_values, domain).to_coefficient_poly();
        let acc = &round_two_output.accumulator_poly;
        let w_acc = apply_w_to_polynomial(acc, &root);
        let a = &round_one_output.a_x;
        let b = &round_one_output.b_x;
        let c = &round_one_output.c_x;
        let beta = round_two_output.beta;
        let gamma = round_two_output.gamma;
        let qm = self.circuit_ir.QM.to_coefficient_poly();
        let ql = self.circuit_ir.QL.to_coefficient_poly();
        let qr = self.circuit_ir.QR.to_coefficient_poly();
        let qo = self.circuit_ir.QO.to_coefficient_poly();
        let qc = self.circuit_ir.QC.to_coefficient_poly();
        let s1 = self.circuit_ir.S1.to_coefficient_poly();
        let s2 = self.circuit_ir.S2.to_coefficient_poly();
        let s3 = self.circuit_ir.S3.to_coefficient_poly();
        let pi = witness.pi.to_coefficient_poly();
        let gate = a.mul(b).mul(&qm).add(&a.mul(&ql)).add(&b.mul(&qr)).add(&c.mul(&qo)).add(&pi).add(&qc);
        let two = Fr::from_u64(2);
        let three = Fr::from_u64(3);
        let m1 = UnivariantPolynomial::create_monomial(1, beta, gamma);
        let m2 = UnivariantPolynomial::create_monomial(1, beta.mul(&two), gamma);
        let m3 = UnivariantPolynomial::create_monomial(1, beta.mul(&three), gamma);
        let p1 = a.add(&m1).mul(&b.add(&m2)).mul(&c.add(&m3)).mul(acc).scale(&alpha);
        let f1 = a.add(&s1.scale(&beta)).add_constant(&gamma);
        let f2 = b.add(&s2.scale(&beta)).add_constant(&gamma);
        let f3 = c.add(&s3.scale(&beta)).add_constant(&gamma);
        let p2 = f1.mul(&f2).mul(&f3).mul(&w_acc).scale(&alpha);
        let alpha2 = alpha.pow(2);
        let p3 = acc.add_constant(&minus_one).mul(&l1_poly).scale(&alpha2);
        let t = divide_by_vanishing(&gate, n).add(&divide_by_vanishing(&p1, n)).sub(
            &divide_by_vanishing(&p2, n),
        ).add(&divide_by_vanishing(&p3, n));
        proof {
            vstd::arithmetic::div_mod::lemma_small_mod(1, fr_modulus() as nat);
            vstd::arithmetic::div_mod::lemma_small_mod(2, fr_modulus() as nat);
            vstd::arithmetic::div_mod::lemma_small_mod(3, fr_modulus() as nat);
            crate::algebra::lemma_fmul_comm(beta@, 2);
            crate::algebra::lemma_fmul_comm(beta@, 3);
            assert(fpow(alpha@, 2) == alpha2@);
        }
        let (lo, mid, hi) = split_poly_in_3(&t, n);
        let xn = UnivariantPolynomial::create_monomial(n, one, Fr::zero());
        let t_lo = lo.add(&xn.scale(&blinders[0]));
        let t_mid = mid.add(&xn.scale(&blinders[1]).add_constant(&blinders[0].neg()));
        let t_hi = hi.add_constant(&blinders[1].neg());
        proof {
            let ginv = domain.group_gen_inverse@;
            assert(is_inverse(subgroup_root_of_unity(domain_size(n as nat))->0, ginv));
            assert(t.coeffs() == round_three_t(
                *witness,
                self.circuit_ir,
                *round_one_output,
                *round_two_output,
                alpha@,
                root@,
                ginv,
            ));
            assert((t_lo.coeffs(), t_mid.coeffs(), t_hi.coeffs()) == blinded_parts(
                t.coeffs(),
                n as nat,
                blinders[0]@,
                blinders[1]@,
            ));
            assert(t_lo.coeffs().len() == t_lo.coefficients.len());
            assert(t_mid.coeffs().len() == t_mid.coefficients.len());
            assert(t_hi.coeffs().len() == t_hi.coefficients.len());
        }
        let ghost ginv = domain.group_gen_inverse@;
        let ghost parts = blinded_parts(
            round_three_t(
                *witness,
                old(self).circuit_ir,
                *round_one_output,
                *round_two_output,
                challenge(old(self).transcript.log()),
                subgroup_root_of_unity(old(self).circuit_ir.group_order as nat)->0,
                ginv,
            ),
            old(self).circuit_ir.group_order as nat,
            blinders[0]@,
            blinders[1]@,
        );
        proof {
            assert(is_inverse(subgroup_root_of_unity(domain_size(n as nat))->0, ginv));
            assert(parts == (t_lo.coeffs(), t_mid.coeffs(), t_hi.coeffs()));
        }
        let powers = self.srs.g1_power_of_taus.len();
        if t_lo.coefficients.len() > powers || t_mid.coefficients.len() > powers || t_hi.coefficients.len()
            > powers {
            proof {
                assert(!parts_fit(parts, old(self).srs));
            }
            return Err(PlonkProverError::ReferenceStringTooShort);
        }
        proof {
            assert(parts_fit(parts, old(self).srs));
        }
        let t_lo_commitment = UnivariateKZG::commit(&self.srs, &t_lo);
        let t_mid_commitment = UnivariateKZG::commit(&self.srs, &t_mid);
        let t_hi_commitment = UnivariateKZG::commit(&self.srs, &t_hi);
        Ok(RoundThreeOutput {
            t_lo_commitment,
            t_mid_commitment,
            t_hi_commitment,
            w_accumulator_poly: w_acc,
            t_lo_poly: t_lo,
            t_mid_poly: t_mid,
            t_hi_poly: t_hi,
            alpha,
        })
    }

    /// The selector part of the linearisation polynomial.
    fn linearised_gate_poly(&self, witness: &Witness, r4: &RoundFourOutput) -> (r: UnivariantPolynomial)
        requires
            self.circuit_ir.QM.domain.size <= usize::MAX,
            self.circuit_ir.QL.domain.size <= usize::MAX,
            self.circuit_ir.QR.domain.size <= usize::MAX,
            self.circuit_ir.QO.domain.size <= usize::MAX,
            self.circuit_ir.QC.domain.size <= usize::MAX,
            witness.pi.domain.size <= usize::MAX,
            column_coeffs(witness.pi).len() > 0,
        ensures
            r.coeffs() == linearised_gate(self.circuit_ir, column_coeffs(witness.pi), *r4),
    {
        proof {
            reveal(linearised_gate);
        }
        let qm = self.circuit_ir.QM.to_coefficient_poly();
        let ql = self.circuit_ir.QL.to_coefficient_poly();
        let qr = self.circuit_ir.QR.to_coefficient_poly();
        let qo = self.circuit_ir.QO.to_coefficient_poly();
        let qc = self.circuit_ir.QC.to_coefficient_poly();
        let pi = witness.pi.to_coefficient_poly();
        proof {
            assert(pi.coefficients.len() == pi.coeffs().len());
        }
        let pi_z = pi.evaluate(&r4.zeta);
        let az = r4.a_x_ploy_zeta;
        let bz = r4.b_x_ploy_zeta;
        let cz = r4.c_x_ploy_zeta;
        qm.scale(&az).scale(&bz).add(&ql.scale(&az)).add(&qr.scale(&bz)).add(&qo.scale(&cz)).add_constant(
            &pi_z,
        ).add(&qc)
    }

    /// The linearisation polynomial `r(X)` of round five, with the first
    /// Lagrange polynomial's value `l1_z` at `zeta`.
    #[verifier::rlimit(40)]
    fn linearisation_poly(
        &self,
        witness: &Witness,
        r2: &RoundTwoOutput,
        r3: &RoundThreeOutput,
        r4: &RoundFourOutput,
        l1_z: Fr,
    ) -> (r: UnivariantPolynomial)
        requires
            self.circuit_ir.group_order >= 1,
            self.circuit_ir.group_order < usize::MAX,
            2 * self.circuit_ir.group_order <= u64::MAX,
            self.circuit_ir.QM.domain.size <= usize::MAX,
            self.circuit_ir.QL.domain.size <= usize::MAX,
            self.circuit_ir.QR.domain.size <= usize::MAX,
            self.circuit_ir.QO.domain.size <= usize::MAX,
            self.circuit_ir.QC.domain.size <= usize::MAX,
            self.circuit_ir.S3.domain.size <= usize::MAX,
            witness.pi.domain.size <= usize::MAX,
            column_coeffs(witness.pi).len() > 0,
        ensures
            r.coeffs() == linearisation(
                self.circuit_ir,
                column_coeffs(witness.pi),
                r2.accumulator_poly.coeffs(),
                (r3.t_lo_poly.coeffs(), r3.t_mid_poly.coeffs(), r3.t_hi_poly.coeffs()),
                l1_z@,
                *r4,
                r2.beta@,
                r2.gamma@,
                r3.alpha@,
                self.circuit_ir.group_order as nat,
            ),
    {
        proof {
            reveal(linearisation);
        }
        let n = self.circuit_ir.group_order as usize;
        let gate = self.linearised_gate_poly(witness, r4);
        let az = r4.a_x_ploy_zeta;
        let bz = r4.b_x_ploy_zeta;
        let cz = r4.c_x_ploy_zeta;
        let zeta = r4.zeta;
        let beta = r2.beta;
        let gamma = r2.gamma;
        let alpha = r3.alpha;
        let acc = &r2.accumulator_poly;
        let one = Fr::one();
        let minus_one = one.neg();
        let two = Fr::from_u64(2);
        let three = Fr::from_u64(3);
        proof {
            vstd::arithmetic::div_mod::lemma_small_mod(1, fr_modulus() as nat);
            vstd::arithmetic::div_mod::lemma_small_mod(2, fr_modulus() as nat);
            vstd::arithmetic::div_mod::lemma_small_mod(3, fr_modulus() as nat);
        }
        let k1 = az.add(&beta.mul(&zeta)).add(&gamma);
        let k2 = bz.add(&beta.mul(&two).mul(&zeta)).add(&gamma);
        let k3 = cz.add(&beta.mul(&three).mul(&zeta)).add(&gamma);
        let left = acc.scale(&k1).scale(&k2).scale(&k3);
        let s3 = self.circuit_ir.S3.to_coefficient_poly();
        let k4 = az.add(&beta.mul(&r4.s1_poly_zeta)).add(&gamma);
        let k5 = bz.add(&beta.mul(&r4.s2_poly_zeta)).add(&gamma);
        let right = s3.scale(&beta).add_constant(&cz).add_constant(&gamma).scale(&k4).scale(&k5).scale(
            &r4.w_accumulator_poly_zeta,
        );
        let perm = left.sub(&right).scale(&alpha);
        let start = acc.add_constant(&minus_one).scale(&l1_z).scale(&alpha.pow(2));
        let zn = zeta.pow(self.circuit_ir.group_order);
        let z2n = zeta.pow(2 * self.circuit_ir.group_order);
        let vanishing = UnivariantPolynomial::create_monomial(n, one, minus_one);
        proof {
            assert(vanishing.coefficients.len() == vanishing.coeffs().len());
        }
        let vz = vanishing.evaluate(&zeta);
        let split = r3.t_lo_poly.add(&r3.t_mid_poly.scale(&zn)).add(&r3.t_hi_poly.scale(&z2n)).scale(&vz);
        proof {
            assert(fpow(zeta@, n as nat) == zn@);
            assert(fpow(zeta@, 2 * n as nat) == z2n@);
        }
        gate.add(&perm).add(&start).sub(&split)
    }

    /// Round five: draws `v`, builds the linearisation polynomial, divides the
    /// opening numerator by `X - zeta` and the shifted accumulator's opening
    /// by `X - w zeta`, commits to both quotients and draws `mu`.
    #[verifier::rlimit(40)]
    pub fn round_five(
        &mut self,
        witness: &Witness,
        round_one_output: &RoundOneOutput,
        round_two_output: &RoundTwoOutput,
        round_three_output: &RoundThreeOutput,
        round_four_output: &RoundFourOutput,
    ) -> (r: Result<RoundFiveOutput, PlonkProverError>)
        requires
            old(self).circuit_ir.group_order >= 1,
            supported_order(old(self).circuit_ir.group_order as nat),
            old(self).circuit_ir.group_order <= usize::MAX / 2 + 1,
            old(self).circuit_ir.group_order < usize::MAX,
            2 * old(self).circuit_ir.group_order <= u64::MAX,
            domain_size(old(self).circuit_ir.group_order as nat) <= crate::pow2::two_pow(32),
            domain_size(old(self).circuit_ir.group_order as nat) <= usize::MAX,
            old(self).circuit_ir.QM.domain.size <= usize::MAX,
            old(self).circuit_ir.QL.domain.size <= usize::MAX,
            old(self).circuit_ir.QR.domain.size <= usize::MAX,
            old(self).circuit_ir.QO.domain.size <= usize::MAX,
            old(self).circuit_ir.QC.domain.size <= usize::MAX,
            old(self).circuit_ir.S1.domain.size <= usize::MAX,
            old(self).circuit_ir.S2.domain.size <= usize::MAX,
            old(self).circuit_ir.S3.domain.size <= usize::MAX,
            witness.pi.domain.size <= usize::MAX,
            column_coeffs(witness.pi).len() > 0,
        ensures
            ({
                let log0 = old(self).transcript.log();
                let v = challenge(log0);
                &&& final(self).circuit_ir == old(self).circuit_ir
                &&& final(self).srs == old(self).srs
                &&& subgroup_root_of_unity(old(self).circuit_ir.group_order as nat) is Some
                &&& exists|ginv: int|
                    #![trigger opening_polys(
                        *witness,
                        old(self).circuit_ir,
                        *round_one_output,
                        *round_two_output,
                        *round_three_output,
                        *round_four_output,
                        v,
                        subgroup_root_of_unity(old(self).circuit_ir.group_order as nat)->0,
                        ginv,
                    )]
                    {
                        let o = opening_polys(
                            *witness,
                            old(self).circuit_ir,
                            *round_one_output,
                            *round_two_output,
                            *round_three_output,
                            *round_four_output,
                            v,
                            subgroup_root_of_unity(old(self).circuit_ir.group_order as nat)->0,
                            ginv,
                        );
                        &&& is_inverse(
                            subgroup_root_of_unity(domain_size(old(self).circuit_ir.group_order as nat))->0,
                            ginv,
                        )
                        &&& (r is Err <==> !(o.0.len() <= old(self).srs.g1_power_of_taus.len()
                            && o.1.len() <= old(self).srs.g1_power_of_taus.len()))
                        &&& r is Err ==> r == Err::<RoundFiveOutput, PlonkProverError>(
                            PlonkProverError::ReferenceStringTooShort,
                        ) && final(self).transcript.log() == after_sample(log0)
                        &&& r matches Ok(out) ==> {
                            &&& out.mu@ == challenge(after_sample(log0))
                            &&& final(self).transcript.log() == after_sample(after_sample(log0))
                            &&& out.W_zeta_poly_commitment@ == commitment(old(self).srs, o.0)
                            &&& out.W_zeta_w_poly_commitment@ == commitment(old(self).srs, o.1)
                        }
                    }
            }),
    {
        proof {
            reveal(opening_polys);
        }
        let n = self.circuit_ir.group_order as usize;
        let vinculum = self.transcript.sample_as_field_element();
        let wz = round_four_output.w_accumulator_poly_zeta;
        let zeta = round_four_output.zeta;
        let acc = &round_two_output.accumulator_poly;
        let one = Fr::one();
        let minus_one = one.neg();
        let mut l1_values: Vec<Fr> = Vec::new();
        l1_values.push(Fr::one());
        let mut i: usize = 1;
        while i < n
            invariant
                1 <= i <= n,
                l1_values.len() == i,
                l1_values[0]@ == 1,
                forall|k: int| 1 <= k < i ==> (#[trigger] l1_values[k])@ == 0,
            decreases n - i,
        {
            l1_values.push(Fr::zero());
            i = i + 1;
        }
        proof {
            assert forall|k: int| 0 <= k < n implies #[trigger] l1_values.deep_view()[k] == unit_values(
                n as nat,
            )[k] by {
                assert(l1_values.deep_view()[k] == l1_values[k]@);
            }
            assert(l1_values.deep_view() =~= unit_values(n as nat));
        }
        let domain = Domain::new(n);
        let l1_poly = UnivariateEval::new(l1_values, domain).to_coefficient_poly();
        let root = match Fr::get_root_of_unity(self.circuit_ir.group_order) {
            Some(w) => w,
            None => {
                proof {
                    assert(false);
                }
                Fr::one()
            },
        };
        proof {
            assert(l1_poly.coefficients.len() == l1_poly.coeffs().len());
            crate::evaluation::lemma_domain_size_covers(n as nat);
            assert(is_inverse(subgroup_root_of_unity(domain_size(n as nat))->0, domain.group_gen_inverse@));
            vstd::arithmetic::div_mod::lemma_small_mod(1, fr_modulus() as nat);
        }
        let l1_z = l1_poly.evaluate(&zeta);
        let r_poly = self.linearisation_poly(witness, round_two_output, round_three_output, round_four_output, l1_z);
        let s1 = self.circuit_ir.S1.to_coefficient_poly();
        let s2 = self.circuit_ir.S2.to_coefficient_poly();
        let numerator = opening_numerator_poly(&r_poly, round_one_output, &s1, &s2, round_four_output, vinculum);
        let w_zeta = UnivariantPolynomial::new(divide_by_linear(&numerator.coefficients, &zeta));
        let shifted = acc.add_constant(&wz.neg());
        let wzeta_point = root.mul(&zeta);
        let w_zeta_w = UnivariantPolynomial::new(divide_by_linear(&shifted.coefficients, &wzeta_point));
        proof {
            let ginv = domain.group_gen_inverse@;
            assert(is_inverse(subgroup_root_of_unity(domain_size(n as nat))->0, ginv));
            assert((w_zeta.coeffs(), w_zeta_w.coeffs()) == opening_polys(
                *witness,
                self.circuit_ir,
                *round_one_output,
                *round_two_output,
                *round_three_output,
                *round_four_output,
                vinculum@,
                root@,
                ginv,
            ));
            assert(w_zeta.coeffs().len() == w_zeta.coefficients.len());
            assert(w_zeta_w.coeffs().len() == w_zeta_w.coefficients.len());
        }
        let ghost ginv = domain.group_gen_inverse@;
        let ghost o = opening_polys(
            *witness,
            old(self).circuit_ir,
            *round_one_output,
            *round_two_output,
            *round_three_output,
            *round_four_output,
            challenge(old(self).transcript.log()),
            subgroup_root_of_unity(old(self).circuit_ir.group_order as nat)->0,
            ginv,
        );
        proof {
            assert(o == (w_zeta.coeffs(), w_zeta_w.coeffs()));
        }
        let powers = self.srs.g1_power_of_taus.len();
        if w_zeta.coefficients.len() > powers || w_zeta_w.coefficients.len() > powers {
            proof {
                assert(!(o.0.len() <= old(self).srs.g1_power_of_taus.len() && o.1.len()
                    <= old(self).srs.g1_power_of_taus.len()));
            }
            return Err(PlonkProverError::ReferenceStringTooShort);
        }
        let w_zeta_commitment = UnivariateKZG::commit(&self.srs, &w_zeta);
        let w_zeta_w_commitment = UnivariateKZG::commit(&self.srs, &w_zeta_w);
        proof {
            let ginv = domain.group_gen_inverse@;
            assert(w_zeta_commitment@ == commitment(self.srs, w_zeta.coeffs()));
            assert(w_zeta_w_commitment@ == commitment(self.srs, w_zeta_w.coeffs()));
            assert(is_inverse(subgroup_root_of_unity(domain_size(n as nat))->0, ginv) && (
            w_zeta.coeffs(), w_zeta_w.coeffs()) == opening_polys(
                *witness,
                self.circuit_ir,
                *round_one_output,
                *round_two_output,
                *round_three_output,
                *round_four_output,
                vinculum@,
                root@,
                ginv,
            ) && w_zeta_commitment@ == commitment(self.srs, w_zeta.coeffs()) && w_zeta_w_commitment@
                == commitment(self.srs, w_zeta_w.coeffs()));
        }
        let mu = self.transcript.sample_as_field_element();
        Ok(
            RoundFiveOutput {
                W_zeta_poly_commitment: w_zeta_commitment,
                W_zeta_w_poly_commitment: w_zeta_w_commitment,
                mu,
            },
        )
    }

    /// Runs the five rounds, appending each round's output to the transcript
    /// under its label, and collects the proof. The first round's commitments
    /// are those of the blinded wire polynomials, and the proof's three wire
    /// values are those polynomials' values at one point (the round-four
    /// challenge); the other fields are the later rounds' outputs.
    #[verifier::rlimit(60)]
    pub fn prove(
        &mut self,
        witness: &Witness,
        blinders_one: &[Fr; 6],
        blinders_two: &[Fr; 3],
        blinders_three: &[Fr; 2],
    ) -> (r: Result<PlonkProof, PlonkProverError>)
        requires
            old(self).circuit_ir.group_order >= 1,
            supported_order(old(self).circuit_ir.group_order as nat),
            2 * old(self).circuit_ir.group_order <= usize::MAX,
            2 * old(self).circuit_ir.group_order <= u64::MAX,
            old(self).circuit_ir.group_order <= usize::MAX / 2 + 1,
            domain_size(old(self).circuit_ir.group_order as nat) <= crate::pow2::two_pow(32),
            domain_size(old(self).circuit_ir.group_order as nat) <= usize::MAX,
            old(self).circuit_ir.QM.domain.size <= usize::MAX,
            old(self).circuit_ir.QL.domain.size <= usize::MAX,
            old(self).circuit_ir.QR.domain.size <= usize::MAX,
            old(self).circuit_ir.QO.domain.size <= usize::MAX,
            old(self).circuit_ir.QC.domain.size <= usize::MAX,
            old(self).circuit_ir.S1.domain.size <= usize::MAX,
            old(self).circuit_ir.S2.domain.size <= usize::MAX,
            old(self).circuit_ir.S3.domain.size <= usize::MAX,
            column_coeffs(old(self).circuit_ir.S1).len() > 0,
            column_coeffs(old(self).circuit_ir.S2).len() > 0,
            witness.a.domain.size <= usize::MAX,
            witness.b.domain.size <= usize::MAX,
            witness.c.domain.size <= usize::MAX,
            witness.pi.domain.size <= usize::MAX,
            column_coeffs(witness.pi).len() > 0,
            old(self).circuit_ir.group_order <= witness.a.values.len(),
            old(self).circuit_ir.group_order <= witness.b.values.len(),
            old(self).circuit_ir.group_order <= witness.c.values.len(),
            old(self).circuit_ir.group_order <= old(self).circuit_ir.S1.values.len(),
            old(self).circuit_ir.group_order <= old(self).circuit_ir.S2.values.len(),
            old(self).circuit_ir.group_order <= old(self).circuit_ir.S3.values.len(),
            domain_size(old(self).circuit_ir.group_order as nat) + 3 + old(self).circuit_ir.group_order
                <= old(self).srs.g1_power_of_taus.len(),
            blinded_wire(witness.a, blinders_one[0]@, blinders_one[1]@, old(self).circuit_ir.group_order as nat).len()
                <= old(self).srs.g1_power_of_taus.len(),
            blinded_wire(witness.b, blinders_one[2]@, blinders_one[3]@, old(self).circuit_ir.group_order as nat).len()
                <= old(self).srs.g1_power_of_taus.len(),
            blinded_wire(witness.c, blinders_one[4]@, blinders_one[5]@, old(self).circuit_ir.group_order as nat).len()
                <= old(self).srs.g1_power_of_taus.len(),
        ensures
            r is Err ==> r == Err::<PlonkProof, PlonkProverError>(PlonkProverError::VanishingDenominator)
                || r == Err::<PlonkProof, PlonkProverError>(PlonkProverError::ReferenceStringTooShort),
            r matches Ok(p) ==> {
                let n = old(self).circuit_ir.group_order as nat;
                let a = blinded_wire(witness.a, blinders_one[0]@, blinders_one[1]@, n);
                let b = blinded_wire(witness.b, blinders_one[2]@, blinders_one[3]@, n);
                let c = blinded_wire(witness.c, blinders_one[4]@, blinders_one[5]@, n);
                &&& p.a_poly_commitment@ == commitment(old(self).srs, a)
                &&& p.b_poly_commitment@ == commitment(old(self).srs, b)
                &&& p.c_poly_commitment@ == commitment(old(self).srs, c)
                &&& exists|zeta: int|
                    p.a_x_zeta@ == poly_eval(a, zeta) && p.b_x_zeta@ == poly_eval(b, zeta) && p.c_x_zeta@
                        == poly_eval(c, zeta)
            },
    {
        let ghost n = self.circuit_ir.group_order as nat;
        let o1 = self.round_one(witness, blinders_one);
        let b1 = o1.to_bytes();
        self.transcript.append_with_label("round_one_output", b1.as_slice());
        let o2 = match self.round_two(witness, blinders_two) {
            Ok(o) => o,
            Err(e) => {
                return Err(e);
            },
        };
        let b2 = o2.to_bytes();
        self.transcript.append_with_label("round_two_output", b2.as_slice());
        let o3 = match self.round_three(witness, &o1, &o2, blinders_three) {
            Ok(o) => o,
            Err(e) => {
                return Err(e);
            },
        };
        let b3 = o3.to_bytes();
        self.transcript.append_with_label("round_three_output", b3.as_slice());
        proof {
            crate::univariate::lemma_poly_mul_len(monomial(1, blinders_one[0]@, blinders_one[1]@), monomial(n, 1, fneg(1)));
            crate::univariate::lemma_poly_mul_len(monomial(1, blinders_one[2]@, blinders_one[3]@), monomial(n, 1, fneg(1)));
            crate::univariate::lemma_poly_mul_len(monomial(1, blinders_one[4]@, blinders_one[5]@), monomial(n, 1, fneg(1)));
            crate::univariate::lemma_poly_mul_len(
                seq![blinders_two[2]@, blinders_two[1]@, blinders_two[0]@],
                monomial(n, 1, fneg(1)),
            );
            assert(o1.a_x.coefficients.len() == o1.a_x.coeffs().len());
            assert(o1.b_x.coefficients.len() == o1.b_x.coeffs().len());
            assert(o1.c_x.coefficients.len() == o1.c_x.coeffs().len());
            assert(o3.w_accumulator_poly.coefficients.len() == o3.w_accumulator_poly.coeffs().len());
            assert(o2.accumulator_poly.coefficients.len() == o2.accumulator_poly.coeffs().len());
        }
        let o4 = self.round_four(&o1, &o3);
        let b4 = o4.to_bytes();
        self.transcript.append_with_label("round_four_output", b4.as_slice());
        let o5 = match self.round_five(witness, &o1, &o2, &o3, &o4) {
            Ok(o) => o,
            Err(e) => {
                return Err(e);
            },
        };
        Ok(
            PlonkProof {
                a_poly_commitment: o1.a_commitment,
                b_poly_commitment: o1.b_commitment,
                c_poly_commitment: o1.c_commitment,
                accumulator_poly_commitment: o2.accumulator_commitment,
                t_lo_poly_commitment: o3.t_lo_commitment,
                t_mid_poly_commitment: o3.t_mid_commitment,
                t_hi_poly_commitment: o3.t_hi_commitment,
                W_zeta_poly_commitment: o5.W_zeta_poly_commitment,
                W_zeta_w_poly_commitment: o5.W_zeta_w_poly_commitment,
                a_x_zeta: o4.a_x_ploy_zeta,
                b_x_zeta: o4.b_x_ploy_zeta,
                c_x_zeta: o4.c_x_ploy_zeta,
                w_accumulator_poly_zeta: o4.w_accumulator_poly_zeta,
                s1_poly_zeta: o4.s1_poly_zeta,
                s2_poly_zeta: o4.s2_poly_zeta,
            },
        )
    }
}

} // verus!
