//! Helpers of the product-check protocol: the fractional polynomial `f / g` of
//! two products and the product tree over its evaluations.
//!
//! Indices of the boolean hypercube are split into bits with the least
//! significant bit first.
use crate::algebra::{lemma_fmul_assoc, lemma_fmul_comm, lemma_fmul_one, lemma_ops_range};
use crate::composed::{
    composed_accepts, lemma_wf_from_tables, opening_log, table_product, ComposedMultilinear,
    ComposedMultilinearInterface, ComposedSumCheckProof,
};
use crate::kzg::{g1_text, g1_views, lincomb_g1, MultiLinearSRS, MultilinearKZG, G1};
use crate::field::{batch_inversion, fmul, fneg, fr_modulus, is_inverse, Fr};
use crate::transcript::{after_sample, challenge, FiatShamirTranscript};
use vstd::string::StringSliceAdditionalSpecFns;
use crate::zero_check::{zero_check_rounds, ZeroCheck, ZeroCheckError, ZeroCheckInterface};
use crate::multilinear::Multilinear;
use crate::pow2::{lemma_two_pow_half, lemma_two_pow_monotone, lemma_two_pow_pos, two_pow};
use vstd::arithmetic::div_mod::{
    lemma_breakdown, lemma_div_denominator, lemma_fundamental_div_mod_converse, lemma_small_mod,
};
use vstd::prelude::*;

verus! {

/// Bit `k` of `x`, counting from the least significant.
pub open spec fn bit_of(x: nat, k: nat) -> bool {
    (x / two_pow(k)) % 2 == 1
}

/// The number whose bits, least significant first, are `bits`.
pub open spec fn bits_value_le(bits: Seq<bool>) -> nat
    decreases bits.len(),
{
    if bits.len() == 0 {
        0
    } else {
        (if bits[0] {
            1nat
        } else {
            0nat
        }) + 2 * bits_value_le(bits.drop_first())
    }
}

/// The first `m` bits of `x`.
pub open spec fn low_bits(x: nat, m: nat) -> Seq<bool> {
    Seq::new(m, |k: int| bit_of(x, k as nat))
}

/// The first `m` bits of `x` make `x mod 2^m`.
pub proof fn lemma_low_bits_value(x: nat, m: nat)
    ensures
        bits_value_le(low_bits(x, m)) == x % two_pow(m),
    decreases m,
{
    if m == 0 {
        assert(x % 1 == 0);
    } else {
        let s = low_bits(x, m);
        lemma_low_bits_value(x / 2, (m - 1) as nat);
        assert forall|k: int| 0 <= k < m - 1 implies #[trigger] s.drop_first()[k] == low_bits(
            x / 2,
            (m - 1) as nat,
        )[k] by {
            lemma_two_pow_pos(k as nat);
            lemma_div_denominator(x as int, 2, two_pow(k as nat) as int);
            assert(two_pow((k + 1) as nat) == 2 * two_pow(k as nat));
        }
        assert(s.drop_first() =~= low_bits(x / 2, (m - 1) as nat));
        assert(s[0] == ((x / 1) % 2 == 1));
        lemma_two_pow_pos((m - 1) as nat);
        lemma_breakdown(x as int, 2, two_pow((m - 1) as nat) as int);
        assert(two_pow(m) == 2 * two_pow((m - 1) as nat));
    }
}

/// The value of `n` bits is below `2^n`.
proof fn lemma_bits_value_bound(bits: Seq<bool>)
    ensures
        bits_value_le(bits) < two_pow(bits.len()),
    decreases bits.len(),
{
    if bits.len() > 0 {
        lemma_bits_value_bound(bits.drop_first());
    }
}

/// Reading back the bits of a bit vector's value gives the vector.
proof fn lemma_low_bits_of_value(bits: Seq<bool>)
    ensures
        low_bits(bits_value_le(bits), bits.len()) == bits,
    decreases bits.len(),
{
    if bits.len() > 0 {
        let rest = bits.drop_first();
        let v = bits_value_le(bits);
        let w = bits_value_le(rest);
        lemma_low_bits_of_value(rest);
        assert(v / 2 == w);
        assert forall|k: int| 0 <= k < bits.len() implies #[trigger] low_bits(v, bits.len())[k]
            == bits[k] by {
            if k == 0 {
                assert(two_pow(0) == 1);
                assert(v / 1 == v);
            } else {
                lemma_two_pow_pos((k - 1) as nat);
                lemma_div_denominator(v as int, 2, two_pow((k - 1) as nat) as int);
                assert(two_pow(k as nat) == 2 * two_pow((k - 1) as nat));
                assert(low_bits(w, rest.len())[k - 1] == rest[k - 1]);
            }
        }
        assert(low_bits(v, bits.len()) =~= bits);
    }
}

/// Decomposing the projection of at most 64 bits gives the bits back:
/// `bit_decompose(project(bits), bits.len()) == bits`.
pub proof fn lemma_decompose_project(bits: Seq<bool>)
    requires
        bits.len() <= 64,
    ensures
        low_bits(bits_value_le(bits) % 0x1_0000_0000_0000_0000, bits.len()) == bits,
{
    lemma_bits_value_bound(bits);
    assert(two_pow(32) == 0x1_0000_0000) by {
        reveal_with_fuel(two_pow, 33);
    }
    crate::pow2::lemma_two_pow_adds(32, 32);
    lemma_two_pow_monotone(bits.len(), 64);
    vstd::arithmetic::div_mod::lemma_small_mod(
        bits_value_le(bits),
        0x1_0000_0000_0000_0000,
    );
    lemma_low_bits_of_value(bits);
}

/// The bits of `input`, least significant first; `num_var` of them.
pub fn bit_decompose(input: u64, num_var: usize) -> (r: Vec<bool>)
    ensures
        r@ == low_bits(input as nat, num_var as nat),
{
    let mut res: Vec<bool> = Vec::new();
    let mut i: u64 = input;
    let mut k: usize = 0;
    proof {
        assert(two_pow(0) == 1);
        assert(input as nat / 1 == input as nat);
        assert(res@ =~= low_bits(input as nat, 0));
    }
    while k < num_var
        invariant
            k <= num_var,
            i as nat == input as nat / two_pow(k as nat),
            res@ == low_bits(input as nat, k as nat),
        decreases num_var - k,
    {
        assert((i & 1 == 1) == (i % 2 == 1)) by (bit_vector);
        assert(i >> 1 == i / 2) by (bit_vector);
        res.push(i & 1 == 1);
        proof {
            lemma_two_pow_pos(k as nat);
            lemma_div_denominator(input as int, two_pow(k as nat) as int, 2);
            assert(two_pow((k + 1) as nat) == two_pow(k as nat) * 2);
            assert(res@ =~= low_bits(input as nat, (k + 1) as nat));
        }
        i = i >> 1;
        k = k + 1;
    }
    res
}

/// One step of reading bits from the most significant end, modulo `2^64`.
proof fn lemma_project_step(v: nat, e: nat, res: u64)
    requires
        e <= 1,
        res == v % 0x1_0000_0000_0000_0000,
    ensures
        2 * (res % 0x8000_0000_0000_0000) + e == (e + 2 * v) % 0x1_0000_0000_0000_0000,
{
    let m: int = 0x1_0000_0000_0000_0000;
    let h: int = 0x8000_0000_0000_0000;
    let x: int = res as int;
    let vi: int = v as int;
    let ei: int = e as int;
    lemma_breakdown(2 * x, 2, h);
    assert((2 * x) / 2 == x);
    assert((2 * x) % 2 == 0);
    assert(2 * h == m);
    assert((2 * x) % m == 2 * (x % h));
    vstd::arithmetic::div_mod::lemma_mul_mod_noop_right(2, vi, m);
    assert((2 * x) % m == (2 * vi) % m);
    vstd::arithmetic::div_mod::lemma_add_mod_noop(2 * vi, ei, m);
    lemma_small_mod(e, m as nat);
    vstd::arithmetic::div_mod::lemma_mod_bound(x, h);
    lemma_small_mod((2 * (x % h) + ei) as nat, m as nat);
}

/// The number whose bits, least significant first, are `input`, modulo `2^64`.
pub fn project(input: &[bool]) -> (r: u64)
    ensures
        r == bits_value_le(input@) % 0x1_0000_0000_0000_0000,
{
    let mut res: u64 = 0;
    let mut j: usize = input.len();
    proof {
        assert(input@.subrange(j as int, input.len() as int) =~= Seq::<bool>::empty());
    }
    while j > 0
        invariant
            j <= input.len(),
            res == bits_value_le(input@.subrange(j as int, input.len() as int))
                % 0x1_0000_0000_0000_0000,
        decreases j,
    {
        j = j - 1;
        let e: u64 = if input[j] {
            1
        } else {
            0
        };
        proof {
            let s = input@.subrange(j as int, input.len() as int);
            assert(s.drop_first() =~= input@.subrange(j + 1, input.len() as int));
            lemma_project_step(bits_value_le(s.drop_first()), e as nat, res);
        }
        res = (res % 0x8000_0000_0000_0000) * 2 + e;
    }
    proof {
        assert(input@.subrange(0, input.len() as int) =~= input@);
    }
    res
}

/// `2 * (x mod 2^(n-1))` as the value of `[b] ++ (first n - 1 bits of x)`.
proof fn lemma_prefixed_value(x: nat, n: nat, b: bool, v: Seq<bool>)
    requires
        n >= 1,
        v == seq![b] + low_bits(x, (n - 1) as nat),
    ensures
        bits_value_le(v) == (if b {
            1nat
        } else {
            0nat
        }) + 2 * (x % two_pow((n - 1) as nat)),
{
    assert(v.drop_first() =~= low_bits(x, (n - 1) as nat));
    lemma_low_bits_value(x, (n - 1) as nat);
}

/// The indices paired by index `i` in the product tree of a `num_vars`-variable
/// table: `2 (i mod 2^(n-1))` and the next one, and whether the top bit of `i`
/// is set.
pub fn get_index(i: usize, num_vars: usize) -> (r: (usize, usize, bool))
    requires
        num_vars >= 1,
        two_pow(num_vars as nat) - 1 <= usize::MAX,
    ensures
        r.0 == 2 * (i as nat % two_pow((num_vars - 1) as nat)),
        r.1 == r.0 + 1,
        r.2 == bit_of(i as nat, (num_vars - 1) as nat),
{
    let bit_sequence = bit_decompose(i as u64, num_vars);
    let mut low: Vec<bool> = Vec::new();
    let mut high: Vec<bool> = Vec::new();
    low.push(false);
    high.push(true);
    let mut k: usize = 0;
    while k < num_vars - 1
        invariant
            num_vars >= 1,
            k <= num_vars - 1,
            bit_sequence@ == low_bits(i as nat, num_vars as nat),
            low@ == seq![false] + low_bits(i as nat, k as nat),
            high@ == seq![true] + low_bits(i as nat, k as nat),
        decreases num_vars - 1 - k,
    {
        low.push(bit_sequence[k]);
        high.push(bit_sequence[k]);
        proof {
            assert(low@ =~= seq![false] + low_bits(i as nat, (k + 1) as nat));
            assert(high@ =~= seq![true] + low_bits(i as nat, (k + 1) as nat));
        }
        k = k + 1;
    }
    let p0 = project(low.as_slice());
    let p1 = project(high.as_slice());
    proof {
        let n = num_vars as nat;
        let h = two_pow((n - 1) as nat);
        lemma_prefixed_value(i as nat, n, false, low@);
        lemma_prefixed_value(i as nat, n, true, high@);
        lemma_two_pow_pos((n - 1) as nat);
        vstd::arithmetic::div_mod::lemma_mod_bound(i as int, h as int);
        lemma_two_pow_half(n);
        assert(2 * (i as nat % h) + 1 <= two_pow(n) - 1);
        lemma_small_mod((2 * (i as nat % h)) as nat, 0x1_0000_0000_0000_0000);
        lemma_small_mod((2 * (i as nat % h) + 1) as nat, 0x1_0000_0000_0000_0000);
    }
    let x0 = p0 as usize;
    let x1 = p1 as usize;
    (x0, x1, bit_sequence[num_vars - 1])
}

/// For an index below `2^n`, the top bit says whether it lies in the upper half.
proof fn lemma_top_bit(i: nat, n: nat)
    requires
        n >= 1,
        i < two_pow(n),
    ensures
        bit_of(i, (n - 1) as nat) <==> i >= two_pow((n - 1) as nat),
        bit_of(i, (n - 1) as nat) ==> i % two_pow((n - 1) as nat) == i - two_pow((n - 1) as nat),
        !bit_of(i, (n - 1) as nat) ==> i % two_pow((n - 1) as nat) == i,
{
    let h = two_pow((n - 1) as nat);
    lemma_two_pow_half(n);
    lemma_two_pow_pos((n - 1) as nat);
    if i >= h {
        lemma_fundamental_div_mod_converse(i as int, h as int, 1, i - h);
    } else {
        lemma_fundamental_div_mod_converse(i as int, h as int, 0, i as int);
    }
}

/// The product tree of a table: entry `i < 2^n - 1` is the product of the two
/// entries `2 (i mod 2^(n-1))` and the next one, taken from the table for the
/// lower half of the indices and from the tree itself for the upper half; the
/// last entry is zero.
pub open spec fn product_tree_entry(f: Seq<int>, t: Seq<int>, n: nat, i: int) -> int {
    let lo = 2 * (i % two_pow((n - 1) as nat) as int);
    if bit_of(i as nat, (n - 1) as nat) {
        fmul(t[lo], t[lo + 1])
    } else {
        fmul(f[lo], f[lo + 1])
    }
}

/// The product polynomial of a fractional polynomial.
pub fn generate_product_poly(fractional_poly: &Multilinear) -> (r: Multilinear)
    requires
        fractional_poly.wf(),
    ensures
        r.wf(),
        r.num_vars == fractional_poly.num_vars,
        r.evals()[two_pow(r.num_vars as nat) - 1] == 0,
        forall|i: int|
            0 <= i < two_pow(r.num_vars as nat) - 1 ==> #[trigger] r.evals()[i]
                == product_tree_entry(fractional_poly.evals(), r.evals(), r.num_vars as nat, i),
{
    let num_vars = fractional_poly.num_vars;
    let f = &fractional_poly.evaluations;
    let len = f.len();
    let ghost n = num_vars as nat;
    proof {
        lemma_two_pow_pos(n);
    }
    let mut product_poly_evals: Vec<Fr> = Vec::new();
    let mut i: usize = 0;
    while i < len - 1
        invariant
            len == f.len(),
            len == two_pow(n),
            n == num_vars,
            len >= 1,
            i <= len - 1,
            product_poly_evals.len() == i,
            forall|k: int|
                0 <= k < i ==> #[trigger] product_poly_evals.deep_view()[k] == product_tree_entry(
                    f.deep_view(),
                    product_poly_evals.deep_view(),
                    n,
                    k,
                ),
        decreases len - 1 - i,
    {
        proof {
            if n == 0 {
                assert(two_pow(0) == 1);
            }
            lemma_top_bit(i as nat, n);
            lemma_two_pow_half(n);
        }
        let (x_zero_index, x_one_index, sign) = get_index(i, num_vars);
        let v = if !sign {
            f[x_zero_index].mul(&f[x_one_index])
        } else {
            product_poly_evals[x_zero_index].mul(&product_poly_evals[x_one_index])
        };
        let ghost before = product_poly_evals.deep_view();
        product_poly_evals.push(v);
        proof {
            assert(product_poly_evals.deep_view() =~= before.push(v@));
            assert forall|k: int| 0 <= k <= i implies #[trigger] product_poly_evals.deep_view()[k]
                == product_tree_entry(f.deep_view(), product_poly_evals.deep_view(), n, k) by {
                if k < i {
                    lemma_top_bit(k as nat, n);
                    assert(before[k] == product_tree_entry(f.deep_view(), before, n, k));
                }
            }
        }
        i = i + 1;
    }
    let ghost before = product_poly_evals.deep_view();
    product_poly_evals.push(Fr::zero());
    proof {
        assert(product_poly_evals.deep_view() =~= before.push(0));
        assert forall|k: int| 0 <= k < len - 1 implies #[trigger] product_poly_evals.deep_view()[k]
            == product_tree_entry(f.deep_view(), product_poly_evals.deep_view(), n, k) by {
            lemma_top_bit(k as nat, n);
            lemma_two_pow_half(n);
            assert(before[k] == product_tree_entry(f.deep_view(), before, n, k));
        }
    }
    Multilinear::new(product_poly_evals, num_vars)
}

/// The fractional polynomial `(prod poly_1) / (prod poly_2)`, entry by entry; an
/// entry where the denominator vanishes is zero.
pub fn generate_fractional_polynomial(poly_1: &ComposedMultilinear, poly_2: &ComposedMultilinear) -> (r: Multilinear)
    requires
        poly_1.wf(),
        poly_2.wf(),
        poly_1.polys.len() > 0,
        poly_2.polys.len() > 0,
        poly_1.nv() == poly_2.nv(),
    ensures
        r.wf(),
        r.num_vars == poly_1.nv(),
        forall|j: int|
            0 <= j < r.evals().len() ==> (table_product(poly_2.tables())[j] == 0 ==> #[trigger] r.evals()[j]
                == 0),
        forall|j: int|
            0 <= j < r.evals().len() ==> (table_product(poly_2.tables())[j] != 0 ==> fmul(
                #[trigger] r.evals()[j],
                table_product(poly_2.tables())[j],
            ) == table_product(poly_1.tables())[j]),
{
    let num_vars = poly_1.polys[0].num_vars;
    let p1 = poly_1.elementwise_product();
    let mut p2 = poly_2.elementwise_product();
    let ghost den = p2.deep_view();
    proof {
        assert(poly_1.polys[0].wf());
        assert(poly_2.polys[0].wf());
        assert(poly_1.tables()[0] == poly_1.polys[0].evals());
        assert(poly_2.tables()[0] == poly_2.polys[0].evals());
        assert(p1.deep_view().len() == p1.len());
        assert(p2.deep_view().len() == p2.len());
        assert(p1.len() == two_pow(num_vars as nat));
    }
    batch_inversion(&mut p2);
    let mut out: Vec<Fr> = Vec::new();
    let mut j: usize = 0;
    while j < p1.len()
        invariant
            p1.len() == two_pow(num_vars as nat),
            p2.len() == p1.len(),
            den.len() == p1.len(),
            j <= p1.len(),
            out.len() == j,
            forall|k: int| 0 <= k < den.len() ==> (den[k] == 0 ==> (#[trigger] p2[k])@ == 0),
            forall|k: int| 0 <= k < den.len() ==> (den[k] != 0 ==> is_inverse(den[k], (#[trigger] p2[k])@)),
            forall|k: int|
                0 <= k < j ==> (#[trigger] out.deep_view()[k]) == fmul(p1.deep_view()[k], p2[k]@),
        decreases p1.len() - j,
    {
        let v = p1[j].mul(&p2[j]);
        let ghost before = out.deep_view();
        out.push(v);
        proof {
            assert(out.deep_view() =~= before.push(v@));
        }
        j = j + 1;
    }
    proof {
        assert forall|k: int| 0 <= k < out.len() implies (den[k] == 0 ==> #[trigger] out.deep_view()[k]
            == 0) && (den[k] != 0 ==> fmul(out.deep_view()[k], den[k]) == p1.deep_view()[k]) by {
            assert(den[k] == p2.deep_view()[k] || true);
            if den[k] == 0 {
                crate::algebra::lemma_fmul_zero(p1.deep_view()[k]);
            } else {
                let a = p1.deep_view()[k];
                let inv = p2[k]@;
                p1[k].lemma_view_range();
                lemma_fmul_assoc(a, inv, den[k]);
                lemma_fmul_comm(inv, den[k]);
                lemma_fmul_one(a);
            }
        }
    }
    let ghost out_dv = out.deep_view();
    let r = Multilinear::new(out, num_vars);
    proof {
        assert(r.evals() =~= out_dv);
        assert(den == table_product(poly_2.tables()));
        assert(p1.deep_view() == table_product(poly_1.tables()));
    }
    r
}

/// Operand `second` (the left one when false) of product-tree entry `x`: taken
/// from the table `f` for the lower half of the indices and from the tree `t`
/// for the upper half.
pub open spec fn tree_operand(f: Seq<int>, t: Seq<int>, n: nat, x: int, second: bool) -> int {
    let lo = 2 * (x % two_pow((n - 1) as nat) as int);
    let idx = if second {
        lo + 1
    } else {
        lo
    };
    if bit_of(x as nat, (n - 1) as nat) {
        t[idx]
    } else {
        f[idx]
    }
}

/// The table of left (or right) operands of the product tree.
pub open spec fn operand_table(f: Seq<int>, t: Seq<int>, n: nat, second: bool) -> Seq<int> {
    Seq::new(two_pow(n), |x: int| tree_operand(f, t, n, x, second))
}

/// Every entry multiplied by `s`.
pub open spec fn scaled(e: Seq<int>, s: int) -> Seq<int> {
    Seq::new(e.len(), |i: int| fmul(e[i], s))
}

/// The factors of the polynomial that the product check sends to the
/// zero-check: the tree, its two operand tables (the second negated), the
/// factors of `poly_2`, `alpha` times the fractional table, `-alpha` times the
/// first factor of `poly_1`, and the other factors of `poly_1`.
pub open spec fn product_check_factors(
    t1: Seq<Seq<int>>,
    t2: Seq<Seq<int>>,
    f: Seq<int>,
    t: Seq<int>,
    n: nat,
    alpha: int,
) -> Seq<Seq<int>> {
    seq![t, operand_table(f, t, n, false), scaled(operand_table(f, t, n, true), fneg(1))] + t2
        + seq![scaled(f, alpha)] + seq![scaled(t1[0], fneg(alpha))] + t1.drop_first()
}

/// The operand tables of the product tree.
fn operand_tables(fractional_poly: &Multilinear, product_poly: &Multilinear) -> (r: (Vec<Fr>, Vec<Fr>))
    requires
        fractional_poly.wf(),
        product_poly.wf(),
        product_poly.num_vars == fractional_poly.num_vars,
        fractional_poly.num_vars >= 1,
    ensures
        r.0.deep_view() == operand_table(
            fractional_poly.evals(),
            product_poly.evals(),
            fractional_poly.num_vars as nat,
            false,
        ),
        r.1.deep_view() == operand_table(
            fractional_poly.evals(),
            product_poly.evals(),
            fractional_poly.num_vars as nat,
            true,
        ),
{
    let num_vars = fractional_poly.num_vars;
    let len = fractional_poly.evaluations.len();
    let ghost n = num_vars as nat;
    let ghost f = fractional_poly.evals();
    let ghost t = product_poly.evals();
    let mut p1_evals: Vec<Fr> = Vec::new();
    let mut p2_evals: Vec<Fr> = Vec::new();
    let mut x: usize = 0;
    while x < len
        invariant
            len == two_pow(n),
            n == num_vars,
            n >= 1,
            f == fractional_poly.evals(),
            t == product_poly.evals(),
            fractional_poly.evaluations.len() == len,
            product_poly.evaluations.len() == len,
            x <= len,
            p1_evals.len() == x,
            p2_evals.len() == x,
            forall|k: int| 0 <= k < x ==> #[trigger] p1_evals.deep_view()[k] == tree_operand(f, t, n, k, false),
            forall|k: int| 0 <= k < x ==> #[trigger] p2_evals.deep_view()[k] == tree_operand(f, t, n, k, true),
        decreases len - x,
    {
        proof {
            lemma_top_bit(x as nat, n);
            lemma_two_pow_half(n);
            vstd::arithmetic::div_mod::lemma_mod_bound(x as int, two_pow((n - 1) as nat) as int);
        }
        let (x0, x1, sign) = get_index(x, num_vars);
        let (a, b) = if !sign {
            (fractional_poly.evaluations[x0], fractional_poly.evaluations[x1])
        } else {
            (product_poly.evaluations[x0], product_poly.evaluations[x1])
        };
        let ghost b1 = p1_evals.deep_view();
        let ghost b2 = p2_evals.deep_view();
        p1_evals.push(a);
        p2_evals.push(b);
        proof {
            assert(p1_evals.deep_view() =~= b1.push(a@));
            assert(p2_evals.deep_view() =~= b2.push(b@));
        }
        x = x + 1;
    }
    proof {
        assert(p1_evals.deep_view() =~= operand_table(f, t, n, false));
        assert(p2_evals.deep_view() =~= operand_table(f, t, n, true));
    }
    (p1_evals, p2_evals)
}

/// Builds the polynomial `q` of the product check and runs the zero-check on it.
pub fn perform_zero_check_protocol(
    poly_1: &ComposedMultilinear,
    poly_2: &ComposedMultilinear,
    fractional_poly: &Multilinear,
    product_poly: &Multilinear,
    alpha: &Fr,
    transcript: &mut FiatShamirTranscript,
) -> (r: Result<(ComposedSumCheckProof, ComposedMultilinear), ZeroCheckError>)
    requires
        fractional_poly.wf(),
        product_poly.wf(),
        fractional_poly.num_vars >= 1,
        product_poly.num_vars == fractional_poly.num_vars,
        poly_1.wf(),
        poly_2.wf(),
        poly_1.polys.len() > 0,
        poly_2.polys.len() > 0,
        poly_1.nv() == fractional_poly.num_vars,
        poly_2.nv() == fractional_poly.num_vars,
    ensures
        r is Ok,
        r->Ok_0.1.wf(),
        r->Ok_0.1.nv() == fractional_poly.num_vars,
        r->Ok_0.1.tables() == product_check_factors(
            poly_1.tables(),
            poly_2.tables(),
            fractional_poly.evals(),
            product_poly.evals(),
            fractional_poly.num_vars as nat,
            alpha@,
        ),
        r->Ok_0.0.sum@ == 0,
        r->Ok_0.0.rounds() == zero_check_rounds(
            r->Ok_0.1.tables(),
            old(transcript).log(),
            r->Ok_0.1.polys.len() as nat,
            fractional_poly.num_vars as nat,
        ),
{
    let num_vars = fractional_poly.num_vars;
    let ghost n = num_vars as nat;
    let (p1_evals, p2_evals) = operand_tables(fractional_poly, product_poly);
    proof {
        assert(p1_evals.len() == p1_evals.deep_view().len());
        assert(p2_evals.len() == p2_evals.deep_view().len());
    }
    let p1 = Multilinear::new(p1_evals, num_vars);
    let p2 = Multilinear::new(p2_evals, num_vars);
    let minus_one = Fr::one().neg();
    let p2_neg = p2.scale(&minus_one);
    let mut first: Vec<Multilinear> = Vec::new();
    first.push(product_poly.clone());
    first.push(p1);
    first.push(p2_neg);
    let mut q_x = ComposedMultilinear::new(first);
    proof {
        assert(product_poly.evaluations.len() == product_poly.evals().len());
        assert(forall|k: int| 0 <= k < q_x.polys.len() ==> (#[trigger] q_x.polys[k]).num_vars == n
            && q_x.polys[k].evals().len() == two_pow(n));
    }
    let mut mle_list = poly_2.clone().polys;
    mle_list.push(fractional_poly.scale(alpha));
    proof {
        assert forall|k: int| 0 <= k < mle_list.len() implies (#[trigger] mle_list[k]).num_vars == n
            && mle_list[k].evals().len() == two_pow(n) by {
            if k < poly_2.polys.len() {
                assert(poly_2.polys[k].wf());
                assert(poly_2.polys[k].evaluations.len() == poly_2.polys[k].evals().len());
                assert(mle_list[k].evals().len() == mle_list[k].evaluations.len());
            }
        }
    }
    let ghost q0 = q_x;
    q_x.extend_mle(mle_list.as_slice());
    proof {
        assert forall|k: int| 0 <= k < q_x.polys.len() implies (#[trigger] q_x.polys[k]).num_vars
            == n && q_x.polys[k].evals().len() == two_pow(n) by {
            assert(q_x.tables()[k] == q_x.polys[k].evals());
            if k < q0.polys.len() {
                assert(q0.tables()[k] == q0.polys[k].evals());
            } else {
                assert(q_x.polys[q0.polys.len() + (k - q0.polys.len())] == q_x.polys[k]);
                assert(mle_list@[k - q0.polys.len()] == mle_list[k - q0.polys.len()]);
            }
        }
    }
    let mut poly_1_alpha = poly_1.clone();
    proof {
        assert(poly_1.polys[0].wf());
        assert(poly_1_alpha.polys[0].evaluations.len() == poly_1.polys[0].evaluations.len());
    }
    let neg_alpha = alpha.neg();
    let scaled_first = poly_1_alpha.polys[0].scale(&neg_alpha);
    poly_1_alpha.polys.set(0, scaled_first);
    proof {
        assert forall|k: int| 0 <= k < poly_1_alpha.polys.len() implies (
        #[trigger] poly_1_alpha.polys[k]).num_vars == n && poly_1_alpha.polys[k].evals().len()
            == two_pow(n) by {
            if k > 0 {
                assert(poly_1.polys[k].wf());
                assert(poly_1.polys[k].evaluations.len() == poly_1.polys[k].evals().len());
                assert(poly_1_alpha.polys[k].evals().len()
                    == poly_1_alpha.polys[k].evaluations.len());
            }
        }
    }
    let ghost q1 = q_x;
    q_x.extend_mle(poly_1_alpha.polys.as_slice());
    proof {
        assert forall|k: int| 0 <= k < q_x.polys.len() implies (#[trigger] q_x.polys[k]).num_vars
            == n && q_x.polys[k].evals().len() == two_pow(n) by {
            assert(q_x.tables()[k] == q_x.polys[k].evals());
            if k < q1.polys.len() {
                assert(q1.tables()[k] == q1.polys[k].evals());
            } else {
                assert(q_x.polys[q1.polys.len() + (k - q1.polys.len())] == q_x.polys[k]);
                assert(poly_1_alpha.polys@[k - q1.polys.len()] == poly_1_alpha.polys[k
                    - q1.polys.len()]);
            }
        }
    }
    proof {
        let expected = product_check_factors(
            poly_1.tables(),
            poly_2.tables(),
            fractional_poly.evals(),
            product_poly.evals(),
            n,
            alpha@,
        );
        assert(q_x.tables() =~= expected);
        lemma_wf_from_tables(&q_x, n);
    }
    let zero_check = ZeroCheck::prove(&q_x, transcript);
    match zero_check {
        Ok(p) => Ok((p, q_x)),
        Err(e) => Err(e),
    }
}

/// The fractional table: zero where the denominator vanishes, the quotient
/// elsewhere.
pub open spec fn fractional_of(r: Seq<int>, num: Seq<int>, den: Seq<int>) -> bool {
    forall|j: int|
        0 <= j < r.len() ==> (den[j] == 0 ==> #[trigger] r[j] == 0) && (den[j] != 0 ==> fmul(
            r[j],
            den[j],
        ) == num[j])
}

/// `t` is the product tree of `f` (see `product_tree_entry`).
pub open spec fn product_tree_of(f: Seq<int>, t: Seq<int>, n: nat) -> bool {
    &&& t[two_pow(n) - 1] == 0
    &&& forall|i: int| 0 <= i < two_pow(n) - 1 ==> #[trigger] t[i] == product_tree_entry(f, t, n, i)
}

/// The multilinear commitment to the table `e` under `srs`.
pub open spec fn ml_commitment(srs: &MultiLinearSRS, e: Seq<int>) -> Seq<u8> {
    lincomb_g1(
        g1_views(srs.g1_power_of_taus@),
        e,
        if e.len() <= srs.g1_power_of_taus.len() {
            e.len()
        } else {
            srs.g1_power_of_taus.len() as nat
        },
    )
}

/// The log once both commitments are appended, each under its label.
pub open spec fn commitments_log(log: Seq<u8>, fractional: Seq<u8>, product: Seq<u8>) -> Seq<u8> {
    log + "fractional_poly_commitment".spec_bytes() + g1_text(fractional)
        + "product_poly_commitment".spec_bytes() + g1_text(product)
}

/// The query `(1, ..., 1, 0)` with `n` coordinates.
pub open spec fn final_query(n: nat) -> Seq<int> {
    Seq::new(n, |i: int| if i == n - 1 { 0 } else { 1 })
}

/// Why a product check is refused.
#[derive(Clone, Copy, Debug, PartialEq, Eq)]
pub enum ProductCheckError {
    /// The two products have different numbers of factors.
    LengthMismatch,
    /// The zero-check was refused.
    ZeroCheck(ZeroCheckError),
    /// The zero-check did not accept.
    ZeroCheckFailed,
}

/// A product-check proof: the zero-check of `q` and the two commitments.
pub struct ProductCheckProof {
    pub zero_check_proof: ComposedSumCheckProof,
    pub product_poly_commitment: G1,
    pub fractional_poly_commitment: G1,
}

/// The product check: that `prod poly_1 / prod poly_2` multiplies to one over
/// the hypercube.
pub struct ProductCheck;

/// The product-check protocol's prover and verifier.
pub trait ProductCheckInterface {
    /// Builds the fractional and product polynomials, commits to both, appends
    /// the commitments to the transcript, draws `alpha`, and runs the
    /// zero-check on `q`. Two products with different numbers of factors are
    /// refused.
    fn prove(
        poly_1: &ComposedMultilinear,
        poly_2: &ComposedMultilinear,
        kzg_srs: &MultiLinearSRS,
        transcript: &mut FiatShamirTranscript,
    ) -> (r: Result<(ProductCheckProof, Multilinear, Multilinear, ComposedMultilinear), ProductCheckError>)
        requires
            poly_1.polys.len() == poly_2.polys.len() ==> {
                &&& poly_1.wf()
                &&& poly_2.wf()
                &&& poly_1.polys.len() > 0
                &&& poly_1.nv() == poly_2.nv()
                &&& poly_1.nv() >= 1
            },
        ensures
            r is Err <==> poly_1.polys.len() != poly_2.polys.len(),
            r is Err ==> r == Err::<
                (ProductCheckProof, Multilinear, Multilinear, ComposedMultilinear),
                ProductCheckError,
            >(ProductCheckError::LengthMismatch) && final(transcript).log() == old(transcript).log(),
            r matches Ok((proof, product_poly, fractional_poly, q_x)) ==> {
                let n = poly_1.nv();
                let l1 = commitments_log(
                    old(transcript).log(),
                    proof.fractional_poly_commitment@,
                    proof.product_poly_commitment@,
                );
                &&& fractional_poly.wf()
                &&& fractional_poly.num_vars == n
                &&& fractional_of(
                    fractional_poly.evals(),
                    table_product(poly_1.tables()),
                    table_product(poly_2.tables()),
                )
                &&& product_poly.wf()
                &&& product_poly.num_vars == n
                &&& product_tree_of(fractional_poly.evals(), product_poly.evals(), n)
                &&& proof.fractional_poly_commitment@ == ml_commitment(kzg_srs, fractional_poly.evals())
                &&& proof.product_poly_commitment@ == ml_commitment(kzg_srs, product_poly.evals())
                &&& q_x.wf()
                &&& q_x.nv() == n
                &&& q_x.tables() == product_check_factors(
                    poly_1.tables(),
                    poly_2.tables(),
                    fractional_poly.evals(),
                    product_poly.evals(),
                    n,
                    challenge(l1),
                )
                &&& proof.zero_check_proof.sum@ == 0
                &&& proof.zero_check_proof.rounds() == zero_check_rounds(
                    q_x.tables(),
                    after_sample(l1),
                    q_x.polys.len() as nat,
                    n,
                )
            },
    ;

    /// Appends the commitments as the prover did, draws `alpha`, and checks the
    /// zero-check of `q`; when it accepts, gives the query `(1, ..., 1, 0)`, the
    /// value `1` that the product polynomial must take there, and `alpha`.
    fn verify(
        proof: &ProductCheckProof,
        q_x: &ComposedMultilinear,
        transcript: &mut FiatShamirTranscript,
    ) -> (r: Result<(Vec<Fr>, Fr, Fr), ProductCheckError>)
        requires
            q_x.wf(),
            q_x.nv() >= 1,
            proof.zero_check_proof.round_poly.len() <= q_x.nv(),
            q_x.polys.len() > 0 ==> proof.zero_check_proof.round_poly.len() > 0,
            forall|i: int|
                0 <= i < proof.zero_check_proof.round_poly.len()
                    ==> #[trigger] proof.zero_check_proof.round_poly[i].coefficients.len() > 0,
        ensures
            ({
                let l1 = commitments_log(
                    old(transcript).log(),
                    proof.fractional_poly_commitment@,
                    proof.product_poly_commitment@,
                );
                let sum = proof.zero_check_proof.sum@;
                &&& r is Ok <==> composed_accepts(
                    q_x.tables(),
                    proof.zero_check_proof.rounds(),
                    opening_log(after_sample(l1), q_x.tables(), sum),
                    sum,
                )
                &&& r is Err ==> r == Err::<(Vec<Fr>, Fr, Fr), ProductCheckError>(
                    ProductCheckError::ZeroCheck(ZeroCheckError::VerificationFailed),
                )
                &&& r matches Ok((query, eval, alpha)) ==> {
                    &&& query@.map_values(|x: Fr| x@) == final_query(q_x.nv())
                    &&& eval@ == 1
                    &&& alpha@ == challenge(l1)
                }
            }),
    ;
}

impl ProductCheckInterface for ProductCheck {
    fn prove(
        poly_1: &ComposedMultilinear,
        poly_2: &ComposedMultilinear,
        kzg_srs: &MultiLinearSRS,
        transcript: &mut FiatShamirTranscript,
    ) -> (r: Result<(ProductCheckProof, Multilinear, Multilinear, ComposedMultilinear), ProductCheckError>)
    {
        if poly_1.polys.len() != poly_2.polys.len() {
            return Err(ProductCheckError::LengthMismatch);
        }
        let fractional_poly = generate_fractional_polynomial(poly_1, poly_2);
        let product_poly = generate_product_poly(&fractional_poly);
        let fractional_poly_commitment = MultilinearKZG::commit(kzg_srs, &fractional_poly);
        let product_poly_commitment = MultilinearKZG::commit(kzg_srs, &product_poly);
        proof {
            assert(fractional_poly.evaluations.len() == fractional_poly.evals().len());
            assert(product_poly.evaluations.len() == product_poly.evals().len());
        }
        let frac_text = fractional_poly_commitment.display_bytes();
        transcript.append_with_label("fractional_poly_commitment", frac_text.as_slice());
        let prod_text = product_poly_commitment.display_bytes();
        transcript.append_with_label("product_poly_commitment", prod_text.as_slice());
        let alpha = transcript.sample_as_field_element();
        let zero_check = perform_zero_check_protocol(
            poly_1,
            poly_2,
            &fractional_poly,
            &product_poly,
            &alpha,
            transcript,
        );
        match zero_check {
            Ok((zero_check_proof, q_x)) => Ok(
                (
                    ProductCheckProof {
                        zero_check_proof,
                        product_poly_commitment,
                        fractional_poly_commitment,
                    },
                    product_poly,
                    fractional_poly,
                    q_x,
                ),
            ),
            Err(e) => Err(ProductCheckError::ZeroCheck(e)),
        }
    }

    fn verify(
        proof: &ProductCheckProof,
        q_x: &ComposedMultilinear,
        transcript: &mut FiatShamirTranscript,
    ) -> (r: Result<(Vec<Fr>, Fr, Fr), ProductCheckError>)
    {
        let frac_text = proof.fractional_poly_commitment.display_bytes();
        transcript.append_with_label("fractional_poly_commitment", frac_text.as_slice());
        let prod_text = proof.product_poly_commitment.display_bytes();
        transcript.append_with_label("product_poly_commitment", prod_text.as_slice());
        let alpha = transcript.sample_as_field_element();
        match ZeroCheck::verify(&proof.zero_check_proof, q_x, transcript) {
            Err(e) => {
                return Err(ProductCheckError::ZeroCheck(e));
            },
            Ok(accepted) => {
                if !accepted {
                    return Err(ProductCheckError::ZeroCheckFailed);
                }
            },
        }
        let n = q_x.num_vars();
        let mut query: Vec<Fr> = Vec::new();
        let mut i: usize = 0;
        while i < n
            invariant
                i <= n,
                query.len() == i,
                forall|k: int| 0 <= k < i ==> (#[trigger] query[k])@ == 1,
            decreases n - i,
        {
            query.push(Fr::one());
            i = i + 1;
        }
        query.set(n - 1, Fr::zero());
        proof {
            assert(query@.map_values(|x: Fr| x@) =~= final_query(n as nat));
        }
        Ok((query, Fr::one(), alpha))
    }
}

/// The product of `f[start], ..., f[start + len - 1]`, multiplied in order
/// starting from one.
pub open spec fn range_prod(f: Seq<int>, start: int, len: nat) -> int
    decreases len,
{
    if len == 0 {
        1
    } else {
        fmul(range_prod(f, start, (len - 1) as nat), f[start + len - 1])
    }
}

/// Products of neighbouring ranges multiply.
proof fn lemma_range_prod_concat(f: Seq<int>, start: int, a: nat, b: nat)
    ensures
        range_prod(f, start, a + b) == fmul(range_prod(f, start, a), range_prod(f, start + a, b)),
    decreases b,
{
    if b == 0 {
        assert(a + 0 == a);
        lemma_range_prod_range(f, start, a);
        lemma_fmul_one(range_prod(f, start, a));
    } else {
        lemma_range_prod_concat(f, start, a, (b - 1) as nat);
        assert((a + b - 1) as nat == a + (b - 1) as nat);
        assert(start + (a + b) - 1 == (start + a) + b - 1);
        lemma_fmul_assoc(
            range_prod(f, start, a),
            range_prod(f, start + a, (b - 1) as nat),
            f[start + a + b - 1],
        );
    }
}

/// Products stay in the field.
proof fn lemma_range_prod_range(f: Seq<int>, start: int, len: nat)
    ensures
        0 <= range_prod(f, start, len) < fr_modulus(),
    decreases len,
{
    if len > 0 {
        lemma_ops_range(range_prod(f, start, (len - 1) as nat), f[start + len - 1]);
    }
}

/// Level `l` of the product tree: entry `2^n - 2^(n - l + 1) + j` is the
/// product of the `j`-th block of `2^l` entries of `f`.
proof fn lemma_product_tree_level(f: Seq<int>, t: Seq<int>, n: nat, l: nat, j: int)
    requires
        1 <= l <= n,
        f.len() == two_pow(n),
        crate::univariate::canonical(f),
        product_tree_of(f, t, n),
        0 <= j < two_pow((n - l) as nat),
    ensures
        t[two_pow(n) - two_pow((n - l + 1) as nat) + j] == range_prod(f, j * two_pow(l), two_pow(l)),
    decreases l,
{
    let big = two_pow(n);
    let half = two_pow((n - 1) as nat);
    lemma_two_pow_half(n);
    lemma_two_pow_pos((n - 1) as nat);
    if l == 1 {
        // the lower half pairs entries of f
        assert(two_pow((n - 1 + 1) as nat) == big);
        assert(j < half);
        let i = j;
        lemma_top_bit(i as nat, n);
        assert(product_tree_entry(f, t, n, i) == fmul(f[2 * i], f[2 * i + 1]));
        assert(two_pow(1) == 2) by {
            assert(two_pow(0) == 1);
        }
        assert(range_prod(f, j * 2, 0) == 1);
        assert(range_prod(f, j * 2, 1) == fmul(1, f[j * 2]));
        lemma_fmul_one(f[2 * j]);
        assert(big - big + j == j);
    } else {
        let lm = (l - 1) as nat;
        let below = two_pow((n - lm) as nat);
        // two blocks of level l - 1 make one of level l
        lemma_two_pow_half((n - lm) as nat);
        assert(((n - lm) - 1) as nat == (n - l) as nat);
        let cur = two_pow((n - l) as nat);
        assert(below == 2 * cur);
        lemma_product_tree_level(f, t, n, lm, 2 * j);
        lemma_product_tree_level(f, t, n, lm, 2 * j + 1);
        let i = big - below + j;
        crate::pow2::lemma_two_pow_monotone((n - lm) as nat, (n - 1) as nat);
        assert(below <= half);
        assert(i >= half);
        assert(i < big);
        lemma_top_bit(i as nat, n);
        let lo = 2 * (i % half as int);
        assert(i % half as int == i - half);
        assert(lo == big - 2 * below + 2 * j);
        assert(((n - lm + 1) as nat) == (n - l + 2) as nat);
        assert(two_pow((n - lm + 1) as nat) == 2 * below) by {
            assert(two_pow((n - lm + 1) as nat) == 2 * two_pow((n - lm) as nat));
        }
        assert(t[i] == fmul(t[lo], t[lo + 1]));
        let size = two_pow(lm);
        assert(two_pow(l) == 2 * size) by {
            assert(two_pow(l) == 2 * two_pow((l - 1) as nat));
        }
        assert((2 * j) * size + size == (2 * j + 1) * size) by (nonlinear_arith);
        assert((2 * j) * size == j * two_pow(l)) by (nonlinear_arith)
            requires
                two_pow(l) == 2 * size,
        ;
        lemma_range_prod_concat(f, j * two_pow(l), size, size);
        assert(size + size == two_pow(l));
        assert(big - two_pow((n - l + 1) as nat) + j == i) by {
            assert(((n - l + 1) as nat) == (n - lm) as nat);
        }
    }
}

/// The entry of the product tree that the final query `(1, ..., 1, 0)` reads,
/// `2^n - 2`, is the product of all entries of the fractional table.
pub proof fn lemma_product_tree_root(f: Seq<int>, t: Seq<int>, n: nat)
    requires
        n >= 1,
        f.len() == two_pow(n),
        crate::univariate::canonical(f),
        product_tree_of(f, t, n),
    ensures
        t[two_pow(n) - 2] == range_prod(f, 0, two_pow(n)),
{
    assert(((n - n) as nat) == 0);
    assert(two_pow(0) == 1);
    assert(two_pow(1) == 2) by {
        assert(two_pow(1) == 2 * two_pow(0));
    }
    assert(((n - n + 1) as nat) == 1);
    lemma_product_tree_level(f, t, n, n, 0);
    assert(0 * two_pow(n) == 0);
}

/// The final query `(1, ..., 1, 0)` is the hypercube point of index `2^n - 2`.
proof fn lemma_final_query_index(n: nat)
    requires
        n >= 1,
    ensures
        crate::multilinear::bits_index(final_query(n)) == two_pow(n) - 2,
        crate::multilinear::is_boolean(final_query(n)),
    decreases n,
{
    let q = final_query(n);
    if n == 1 {
        assert(q.drop_first() =~= Seq::<int>::empty());
        assert(crate::multilinear::bits_index(q.drop_first()) == 0);
        assert(two_pow(1) == 2 * two_pow(0));
        assert(two_pow(0) == 1);
        assert(q[0] == 0);
        assert(crate::multilinear::bits_index(q) == (q[0] * two_pow(0) + crate::multilinear::bits_index(
            q.drop_first(),
        )) as nat);
    } else {
        lemma_final_query_index((n - 1) as nat);
        assert(q.drop_first() =~= final_query((n - 1) as nat));
        let h = two_pow((n - 1) as nat);
        assert(two_pow(n) == 2 * h);
        lemma_two_pow_pos((n - 1) as nat);
        assert(q[0] == 1);
        let rest = crate::multilinear::bits_index(q.drop_first());
        assert(rest == h - 2);
        assert(q[0] * h == h);
        assert(crate::multilinear::bits_index(q) == (q[0] * h + rest) as nat);
        assert(crate::multilinear::bits_index(q) == two_pow(n) - 2);
    }
}

/// What the product check's verifier asks about the product polynomial: its
/// value at the final query `(1, ..., 1, 0)` is the product of all entries of
/// the fractional table.
pub proof fn lemma_final_query_value(f: Seq<int>, t: Seq<int>, n: nat)
    requires
        n >= 1,
        f.len() == two_pow(n),
        t.len() == two_pow(n),
        crate::univariate::canonical(f),
        crate::univariate::canonical(t),
        product_tree_of(f, t, n),
    ensures
        crate::multilinear::ml_evaluate(t, final_query(n)) == Some(range_prod(f, 0, two_pow(n))),
{
    lemma_final_query_index(n);
    crate::multilinear::lemma_eval_on_hypercube(t, n, final_query(n));
    lemma_product_tree_root(f, t, n);
}

} // verus!
