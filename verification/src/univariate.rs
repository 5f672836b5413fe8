//! Univariate polynomials in coefficient form: `c[0] + c[1] x + c[2] x^2 + ...`.
use crate::algebra::{
    lemma_fadd_assoc, lemma_fadd_comm, lemma_fadd_mod, lemma_fadd_zero, lemma_fmul_assoc,
    lemma_fmul_comm, lemma_fmul_distrib, lemma_fmul_mod, lemma_fmul_one, lemma_fmul_zero,
    lemma_ops_range,
};
use crate::field::{
    decimal_digits, digits, extend_bytes, fadd, finv, fmul, fneg, fr_debug_text, fr_modulus, fsub,
    is_inverse, Fr,
};
use vstd::string::StringSliceAdditionalSpecFns;
use vstd::prelude::*;

verus! {

/// The coefficient of `x^i` (zero beyond the stored coefficients).
pub open spec fn coeff(c: Seq<int>, i: int) -> int {
    if 0 <= i < c.len() {
        c[i]
    } else {
        0
    }
}

/// The coefficients after the constant one.
pub open spec fn tail(c: Seq<int>) -> Seq<int> {
    if c.len() == 0 {
        c
    } else {
        c.drop_first()
    }
}

/// The value of the polynomial with coefficients `c` at `x`.
pub open spec fn poly_eval(c: Seq<int>, x: int) -> int
    decreases c.len(),
{
    if c.len() == 0 {
        0
    } else {
        fadd(c[0], fmul(x, poly_eval(c.drop_first(), x)))
    }
}

/// Sum of two polynomials: as many coefficients as the longer one.
pub open spec fn poly_add(a: Seq<int>, b: Seq<int>) -> Seq<int> {
    Seq::new(
        if a.len() >= b.len() {
            a.len()
        } else {
            b.len()
        },
        |i: int| fadd(coeff(a, i), coeff(b, i)),
    )
}

/// Each coefficient multiplied by the constant `s`.
pub open spec fn poly_scale(a: Seq<int>, s: int) -> Seq<int> {
    Seq::new(a.len(), |i: int| fmul(s, a[i]))
}

/// The polynomial multiplied by `x` (the zero polynomial stays empty).
pub open spec fn poly_shift(a: Seq<int>) -> Seq<int> {
    if a.len() == 0 {
        a
    } else {
        seq![0int] + a
    }
}

/// A product has `len a + len b - 1` coefficients, none where a factor has none.
pub proof fn lemma_poly_mul_len(a: Seq<int>, b: Seq<int>)
    ensures
        poly_mul(a, b).len() == if a.len() == 0 || b.len() == 0 {
            0
        } else {
            a.len() + b.len() - 1
        },
    decreases a.len(),
{
    if a.len() > 0 && b.len() > 0 {
        lemma_poly_mul_len(a.drop_first(), b);
    }
}

/// The coefficients of `a * X^d + b`.
pub open spec fn monomial(d: nat, a: int, b: int) -> Seq<int> {
    if d == 0 {
        seq![fadd(a, b)]
    } else {
        Seq::new(d + 1, |i: int| if i == 0 { b } else if i == d { a } else { 0 })
    }
}

/// Product of two polynomials: `(a0 + x a') b = a0 b + x (a' b)`; empty when
/// either factor has no coefficients, else `len a + len b - 1` coefficients.
pub open spec fn poly_mul(a: Seq<int>, b: Seq<int>) -> Seq<int>
    decreases a.len(),
{
    if a.len() == 0 || b.len() == 0 {
        Seq::empty()
    } else {
        poly_add(poly_scale(b, a[0]), poly_shift(poly_mul(a.drop_first(), b)))
    }
}

/// `prod_{j < upto, j != i} (x - xs[j]) * (xs[i] - xs[j])^{-1}`, built in the
/// order in which the Lagrange basis is built.
pub open spec fn lagrange_prod(xs: Seq<int>, i: int, upto: nat) -> Seq<int>
    decreases upto,
{
    if upto == 0 {
        seq![1int]
    } else if upto - 1 == i {
        lagrange_prod(xs, i, (upto - 1) as nat)
    } else {
        let j = upto - 1;
        poly_mul(
            lagrange_prod(xs, i, (upto - 1) as nat),
            poly_mul(seq![fneg(xs[j]), 1int], seq![finv(fsub(xs[i], xs[j]))]),
        )
    }
}

/// The `i`-th Lagrange basis polynomial scaled by `ys[i]`.
pub open spec fn lagrange_basis(xs: Seq<int>, ys: Seq<int>, i: int) -> Seq<int> {
    poly_mul(lagrange_prod(xs, i, xs.len()), seq![ys[i]])
}

/// Sum of the first `n` polynomials of `ps`, starting from the empty polynomial.
pub open spec fn poly_sum(ps: Seq<Seq<int>>, n: nat) -> Seq<int>
    decreases n,
{
    if n == 0 {
        Seq::empty()
    } else {
        poly_add(poly_sum(ps, (n - 1) as nat), ps[n - 1])
    }
}

/// The Lagrange interpolant of the points `(xs[i], ys[i])`.
pub open spec fn lagrange_interpolant(xs: Seq<int>, ys: Seq<int>) -> Seq<int> {
    poly_sum(Seq::new(xs.len(), |i: int| lagrange_basis(xs, ys, i)), xs.len())
}

/// `prod (x - d)` over the elements of `data`, multiplied in order.
pub open spec fn vanishing(data: Seq<int>) -> Seq<int>
    decreases data.len(),
{
    if data.len() == 0 {
        seq![1int]
    } else {
        poly_mul(vanishing(data.drop_last()), seq![fneg(data.last()), 1int])
    }
}

/// All elements of `xs` are different.
pub open spec fn distinct(xs: Seq<int>) -> bool {
    forall|i: int, j: int| 0 <= i < xs.len() && 0 <= j < xs.len() && i != j ==> xs[i] != xs[j]
}

/// All values are canonical field representatives.
pub open spec fn canonical(s: Seq<int>) -> bool {
    forall|i: int| 0 <= i < s.len() ==> 0 <= #[trigger] s[i] < fr_modulus()
}

/// Views of field elements are canonical.
pub proof fn lemma_vec_canonical(v: Vec<Fr>)
    ensures
        canonical(v.deep_view()),
{
    assert forall|i: int| 0 <= i < v.deep_view().len() implies 0 <= #[trigger] v.deep_view()[i]
        < fr_modulus() by {
        v[i].lemma_view_range();
    }
}

// ---------------------------------------------------------------------------
// Laws of evaluation
// ---------------------------------------------------------------------------
proof fn lemma_eval_unfold(c: Seq<int>, x: int)
    ensures
        poly_eval(c, x) == fadd(coeff(c, 0), fmul(x, poly_eval(tail(c), x))),
{
    if c.len() == 0 {
        lemma_fmul_zero(x);
    }
}

pub proof fn lemma_eval_range(c: Seq<int>, x: int)
    ensures
        0 <= poly_eval(c, x) < fr_modulus(),
    decreases c.len(),
{
    if c.len() > 0 {
        lemma_ops_range(c[0], fmul(x, poly_eval(c.drop_first(), x)));
    }
}

/// `(p + q)(x) = p(x) + q(x)`.
pub proof fn lemma_eval_add(a: Seq<int>, b: Seq<int>, x: int)
    ensures
        poly_eval(poly_add(a, b), x) == fadd(poly_eval(a, x), poly_eval(b, x)),
    decreases a.len() + b.len(),
{
    let s = poly_add(a, b);
    lemma_eval_unfold(s, x);
    lemma_eval_unfold(a, x);
    lemma_eval_unfold(b, x);
    if s.len() == 0 {
        return;
    }
    assert(tail(s) =~= poly_add(tail(a), tail(b)));
    lemma_eval_add(tail(a), tail(b), x);
    let ea = poly_eval(tail(a), x);
    let eb = poly_eval(tail(b), x);
    let a0 = coeff(a, 0);
    let b0 = coeff(b, 0);
    lemma_fmul_distrib(x, ea, eb);
    // fadd(fadd(a0, b0), fadd(x*ea, x*eb)) == fadd(fadd(a0, x*ea), fadd(b0, x*eb))
    let p = fmul(x, ea);
    let q = fmul(x, eb);
    lemma_fadd_assoc(fadd(a0, b0), p, q);
    lemma_fadd_assoc(a0, b0, p);
    lemma_fadd_comm(b0, p);
    lemma_fadd_assoc(a0, p, b0);
    lemma_fadd_assoc(fadd(a0, p), b0, q);
    lemma_fadd_mod(fadd(a0, b0), fadd(p, q));
}

/// `(s p)(x) = s p(x)`.
pub proof fn lemma_eval_scale(a: Seq<int>, s: int, x: int)
    ensures
        poly_eval(poly_scale(a, s), x) == fmul(s, poly_eval(a, x)),
    decreases a.len(),
{
    if a.len() == 0 {
        lemma_fmul_zero(s);
        return;
    }
    assert(poly_scale(a, s).drop_first() =~= poly_scale(a.drop_first(), s));
    lemma_eval_scale(a.drop_first(), s, x);
    let e = poly_eval(a.drop_first(), x);
    lemma_fmul_distrib(s, a[0], fmul(x, e));
    lemma_fmul_assoc(s, x, e);
    lemma_fmul_comm(s, x);
    lemma_fmul_assoc(x, s, e);
    lemma_fmul_mod(s, fadd(a[0], fmul(x, e)));
}

/// `(x p)(x) = x p(x)`.
pub proof fn lemma_eval_shift(a: Seq<int>, x: int)
    ensures
        poly_eval(poly_shift(a), x) == fmul(x, poly_eval(a, x)),
{
    if a.len() == 0 {
        lemma_fmul_zero(x);
    } else {
        let s = poly_shift(a);
        assert(s.drop_first() =~= a);
        lemma_ops_range(x, poly_eval(a, x));
        lemma_fadd_zero(fmul(x, poly_eval(a, x)));
    }
}

/// `(p q)(x) = p(x) q(x)`.
pub proof fn lemma_eval_mul(a: Seq<int>, b: Seq<int>, x: int)
    ensures
        poly_eval(poly_mul(a, b), x) == fmul(poly_eval(a, x), poly_eval(b, x)),
    decreases a.len(),
{
    if a.len() == 0 {
        lemma_fmul_zero(poly_eval(b, x));
        return;
    }
    if b.len() == 0 {
        lemma_fmul_zero(poly_eval(a, x));
        return;
    }
    let rest = poly_mul(a.drop_first(), b);
    lemma_eval_mul(a.drop_first(), b, x);
    lemma_eval_add(poly_scale(b, a[0]), poly_shift(rest), x);
    lemma_eval_scale(b, a[0], x);
    lemma_eval_shift(rest, x);
    let ea = poly_eval(a.drop_first(), x);
    let eb = poly_eval(b, x);
    // a0*eb + x*(ea*eb) == (a0 + x*ea) * eb
    lemma_fmul_assoc(x, ea, eb);
    lemma_fmul_comm(fadd(a[0], fmul(x, ea)), eb);
    lemma_fmul_distrib(eb, a[0], fmul(x, ea));
    lemma_fmul_comm(eb, a[0]);
    lemma_fmul_comm(eb, fmul(x, ea));
    lemma_fmul_mod(fmul(x, ea), eb);
    lemma_fmul_assoc(x, ea, eb);
}

/// A constant polynomial evaluates to its (reduced) constant.
pub proof fn lemma_eval_const(c: int, x: int)
    ensures
        poly_eval(seq![c], x) == c % fr_modulus(),
{
    assert(seq![c].drop_first() =~= Seq::<int>::empty());
    assert(poly_eval(Seq::<int>::empty(), x) == 0);
    lemma_fmul_zero(x);
    assert(poly_eval(seq![c], x) == fadd(c, fmul(x, 0)));
}

/// `(x - d)` evaluates to `x - d`.
proof fn lemma_eval_linear(d: int, x: int)
    requires
        0 <= x < fr_modulus(),
    ensures
        poly_eval(seq![fneg(d), 1int], x) == fsub(x, d),
{
    let s = seq![fneg(d), 1int];
    assert(s.drop_first() =~= seq![1int]);
    lemma_eval_const(1, x);
    vstd::arithmetic::div_mod::lemma_small_mod(1, fr_modulus() as nat);
    lemma_fmul_one(x);
    // fadd(fneg(d), x) == fsub(x, d)
    lemma_fadd_mod(0 - d, x);
    lemma_fadd_comm(fneg(d), x);
}

/// The value of `lagrange_prod(xs, i, upto)` at `x`.
pub open spec fn lagrange_prod_value(xs: Seq<int>, i: int, upto: nat, x: int) -> int
    decreases upto,
{
    if upto == 0 {
        1
    } else if upto - 1 == i {
        lagrange_prod_value(xs, i, (upto - 1) as nat, x)
    } else {
        let j = upto - 1;
        fmul(
            lagrange_prod_value(xs, i, (upto - 1) as nat, x),
            fmul(fsub(x, xs[j]), finv(fsub(xs[i], xs[j]))),
        )
    }
}

/// The differences `xs[i] - xs[j]` for `j < upto` have inverses.
pub open spec fn differences_invertible(xs: Seq<int>, i: int, upto: nat) -> bool {
    forall|j: int|
        0 <= j < upto && j != i ==> is_inverse(
            #[trigger] fsub(xs[i], xs[j]),
            finv(fsub(xs[i], xs[j])),
        )
}

proof fn lemma_eval_lagrange_prod(xs: Seq<int>, i: int, upto: nat, x: int)
    requires
        0 <= x < fr_modulus(),
    ensures
        poly_eval(lagrange_prod(xs, i, upto), x) == lagrange_prod_value(xs, i, upto, x),
    decreases upto,
{
    if upto == 0 {
        lemma_eval_const(1, x);
        vstd::arithmetic::div_mod::lemma_small_mod(1, fr_modulus() as nat);
    } else if upto - 1 == i {
        lemma_eval_lagrange_prod(xs, i, (upto - 1) as nat, x);
    } else {
        let j = upto - 1;
        let d = finv(fsub(xs[i], xs[j]));
        lemma_eval_lagrange_prod(xs, i, (upto - 1) as nat, x);
        lemma_eval_mul(
            lagrange_prod(xs, i, (upto - 1) as nat),
            poly_mul(seq![fneg(xs[j]), 1int], seq![d]),
            x,
        );
        lemma_eval_mul(seq![fneg(xs[j]), 1int], seq![d], x);
        lemma_eval_linear(xs[j], x);
        lemma_eval_const(d, x);
        lemma_fmul_mod(fsub(x, xs[j]), d);
    }
}

proof fn lemma_lagrange_value_at_node(xs: Seq<int>, i: int, upto: nat)
    requires
        differences_invertible(xs, i, upto),
    ensures
        lagrange_prod_value(xs, i, upto, xs[i]) == 1,
    decreases upto,
{
    if upto > 0 {
        lemma_lagrange_value_at_node(xs, i, (upto - 1) as nat);
        if upto - 1 != i {
            let j = upto - 1;
            assert(is_inverse(fsub(xs[i], xs[j]), finv(fsub(xs[i], xs[j]))));
            lemma_fmul_one(1);
        }
    }
}

proof fn lemma_lagrange_value_off_node(xs: Seq<int>, i: int, upto: nat, k: int)
    requires
        0 <= k < upto,
        k != i,
        0 <= xs[k] < fr_modulus(),
    ensures
        lagrange_prod_value(xs, i, upto, xs[k]) == 0,
    decreases upto,
{
    let j = upto - 1;
    if j == k {
        vstd::arithmetic::div_mod::lemma_small_mod(0, fr_modulus() as nat);
        lemma_fmul_zero(finv(fsub(xs[i], xs[j])));
        lemma_fmul_zero(lagrange_prod_value(xs, i, (upto - 1) as nat, xs[k]));
    } else {
        lemma_lagrange_value_off_node(xs, i, (upto - 1) as nat, k);
        if j != i {
            lemma_fmul_zero(fmul(fsub(xs[k], xs[j]), finv(fsub(xs[i], xs[j]))));
        }
    }
}

/// The `i`-th scaled basis polynomial is `ys[i]` at `xs[i]` and zero at the
/// other nodes.
proof fn lemma_eval_lagrange_basis(xs: Seq<int>, ys: Seq<int>, i: int, k: int)
    requires
        0 <= i < xs.len(),
        0 <= k < xs.len(),
        i < ys.len(),
        canonical(xs),
        canonical(ys),
        differences_invertible(xs, i, xs.len()),
    ensures
        poly_eval(lagrange_basis(xs, ys, i), xs[k]) == (if k == i {
            ys[i]
        } else {
            0
        }),
{
    assert(0 <= xs[k] < fr_modulus());
    assert(0 <= ys[i] < fr_modulus());
    lemma_eval_mul(lagrange_prod(xs, i, xs.len()), seq![ys[i]], xs[k]);
    lemma_eval_lagrange_prod(xs, i, xs.len(), xs[k]);
    lemma_eval_const(ys[i], xs[k]);
    vstd::arithmetic::div_mod::lemma_small_mod(ys[i] as nat, fr_modulus() as nat);
    if k == i {
        lemma_lagrange_value_at_node(xs, i, xs.len());
        lemma_fmul_one(ys[i]);
    } else {
        lemma_lagrange_value_off_node(xs, i, xs.len(), k);
        lemma_fmul_zero(ys[i]);
    }
}

/// Evaluating a sum of polynomials that vanish at `x` except the `k`-th one.
proof fn lemma_eval_poly_sum_single(ps: Seq<Seq<int>>, m: nat, x: int, k: int, v: int)
    requires
        m <= ps.len(),
        0 <= v < fr_modulus(),
        forall|i: int| 0 <= i < ps.len() ==> #[trigger] poly_eval(ps[i], x) == (if i == k {
            v
        } else {
            0
        }),
    ensures
        poly_eval(poly_sum(ps, m), x) == (if 0 <= k < m {
            v
        } else {
            0
        }),
    decreases m,
{
    if m > 0 {
        lemma_eval_poly_sum_single(ps, (m - 1) as nat, x, k, v);
        lemma_eval_add(poly_sum(ps, (m - 1) as nat), ps[m - 1], x);
        lemma_fadd_zero(v);
        lemma_fadd_zero(0);
    }
}

/// The Lagrange interpolant takes the value `ys[k]` at the node `xs[k]`.
pub proof fn lemma_interpolant_at_node(xs: Seq<int>, ys: Seq<int>, k: int)
    requires
        0 <= k < xs.len(),
        xs.len() <= ys.len(),
        canonical(xs),
        canonical(ys),
        forall|i: int| 0 <= i < xs.len() ==> #[trigger] differences_invertible(xs, i, xs.len()),
    ensures
        poly_eval(lagrange_interpolant(xs, ys), xs[k]) == ys[k],
{
    let ps = Seq::new(xs.len(), |i: int| lagrange_basis(xs, ys, i));
    assert forall|a: int| 0 <= a < ps.len() implies #[trigger] poly_eval(ps[a], xs[k]) == (if a
        == k {
        ys[k]
    } else {
        0
    }) by {
        assert(differences_invertible(xs, a, xs.len()));
        lemma_eval_lagrange_basis(xs, ys, a, k);
    }
    lemma_eval_poly_sum_single(ps, ps.len(), xs[k], k, ys[k]);
}

// ---------------------------------------------------------------------------
// Executable polynomials
// ---------------------------------------------------------------------------
/// A univariate polynomial; `coefficients[i]` is the coefficient of `x^i`.
#[derive(Clone, Debug, PartialEq, Eq)]
pub struct UnivariantPolynomial {
    pub coefficients: Vec<Fr>,
}

/// Adds two coefficient vectors.
fn add_coeffs(a: &Vec<Fr>, b: &Vec<Fr>) -> (r: Vec<Fr>)
    ensures
        r.deep_view() =~= poly_add(a.deep_view(), b.deep_view()),
{
    let n = if a.len() >= b.len() {
        a.len()
    } else {
        b.len()
    };
    let mut r: Vec<Fr> = Vec::new();
    let mut i: usize = 0;
    while i < n
        invariant
            n == (if a.len() >= b.len() {
                a.len()
            } else {
                b.len()
            }),
            i <= n,
            r.len() == i,
            forall|k: int|
                0 <= k < i ==> #[trigger] r[k]@ == fadd(
                    coeff(a.deep_view(), k),
                    coeff(b.deep_view(), k),
                ),
        decreases n - i,
    {
        let x = if i < a.len() {
            a[i]
        } else {
            Fr::zero()
        };
        let y = if i < b.len() {
            b[i]
        } else {
            Fr::zero()
        };
        r.push(x.add(&y));
        i = i + 1;
    }
    r
}

/// Multiplies each coefficient by `s`.
fn scale_coeffs(a: &Vec<Fr>, s: &Fr) -> (r: Vec<Fr>)
    ensures
        r.deep_view() =~= poly_scale(a.deep_view(), s@),
{
    let mut r: Vec<Fr> = Vec::new();
    let mut i: usize = 0;
    while i < a.len()
        invariant
            i <= a.len(),
            r.len() == i,
            forall|k: int| 0 <= k < i ==> #[trigger] r[k]@ == fmul(s@, a[k]@),
        decreases a.len() - i,
    {
        r.push(s.mul(&a[i]));
        i = i + 1;
    }
    r
}

/// Multiplies by `x`.
fn shift_coeffs(a: Vec<Fr>) -> (r: Vec<Fr>)
    ensures
        r.deep_view() =~= poly_shift(a.deep_view()),
{
    if a.len() == 0 {
        return a;
    }
    let mut r: Vec<Fr> = Vec::new();
    r.push(Fr::zero());
    let mut i: usize = 0;
    while i < a.len()
        invariant
            i <= a.len(),
            r.len() == i + 1,
            r[0]@ == 0,
            forall|k: int| 0 <= k < i ==> #[trigger] r[k + 1]@ == a[k]@,
        decreases a.len() - i,
    {
        r.push(a[i]);
        i = i + 1;
    }
    proof {
        assert forall|k: int| 0 <= k < r.len() implies #[trigger] r.deep_view()[k] == poly_shift(
            a.deep_view(),
        )[k] by {
            if k > 0 {
                assert(r[(k - 1) + 1]@ == a[k - 1]@);
            }
        }
    }
    r
}

/// Multiplies two coefficient vectors.
fn mul_coeffs(a: &Vec<Fr>, b: &Vec<Fr>) -> (r: Vec<Fr>)
    ensures
        r.deep_view() =~= poly_mul(a.deep_view(), b.deep_view()),
{
    if a.len() == 0 || b.len() == 0 {
        return Vec::new();
    }
    let mut acc: Vec<Fr> = Vec::new();
    let mut i: usize = a.len();
    proof {
        assert(a.deep_view().subrange(i as int, a.len() as int) =~= Seq::<int>::empty());
    }
    while i > 0
        invariant
            i <= a.len(),
            b.len() > 0,
            acc.deep_view() =~= poly_mul(
                a.deep_view().subrange(i as int, a.len() as int),
                b.deep_view(),
            ),
        decreases i,
    {
        i = i - 1;
        let scaled = scale_coeffs(b, &a[i]);
        let shifted = shift_coeffs(acc);
        acc = add_coeffs(&scaled, &shifted);
        proof {
            let sub = a.deep_view().subrange(i as int, a.len() as int);
            assert(sub.drop_first() =~= a.deep_view().subrange(i + 1, a.len() as int));
            assert(sub[0] == a[i as int]@);
        }
    }
    proof {
        assert(a.deep_view().subrange(0, a.len() as int) =~= a.deep_view());
    }
    acc
}

/// Concatenated 32-byte big-endian encodings of the elements.
pub open spec fn elems_bytes(v: Seq<int>) -> Seq<u8>
    decreases v.len(),
{
    if v.len() == 0 {
        Seq::empty()
    } else {
        elems_bytes(v.drop_last()) + crate::field::be_bytes(v.last(), 32)
    }
}

/// The text that the polynomial's `Display` writes: the coefficients as
/// `Debug` writes them, the constant first, then ` + c x^i` for each further
/// one.
pub open spec fn poly_text(c: Seq<int>) -> Seq<u8>
    decreases c.len(),
{
    if c.len() == 0 {
        Seq::empty()
    } else if c.len() == 1 {
        fr_debug_text(c[0])
    } else {
        poly_text(c.drop_last()) + " + ".spec_bytes() + fr_debug_text(c.last()) + "x^".spec_bytes()
            + digits((c.len() - 1) as nat)
    }
}

/// Serialises field elements one after the other.
pub fn elems_to_bytes(v: &Vec<Fr>) -> (r: Vec<u8>)
    ensures
        r@ == elems_bytes(v.deep_view()),
{
    let mut r: Vec<u8> = Vec::new();
    let mut i: usize = 0;
    while i < v.len()
        invariant
            i <= v.len(),
            r@ == elems_bytes(v.deep_view().subrange(0, i as int)),
        decreases v.len() - i,
    {
        let mut b = v[i].to_bytes_be();
        r.append(&mut b);
        proof {
            let s = v.deep_view().subrange(0, i + 1);
            assert(s.drop_last() =~= v.deep_view().subrange(0, i as int));
        }
        i = i + 1;
    }
    proof {
        assert(v.deep_view().subrange(0, v.len() as int) =~= v.deep_view());
    }
    r
}

impl UnivariantPolynomial {
    /// The coefficient values.
    pub open spec fn coeffs(&self) -> Seq<int> {
        self.coefficients.deep_view()
    }

    /// Creates a polynomial from its coefficients (lowest degree first).
    pub fn new(coefficients: Vec<Fr>) -> (r: Self)
        ensures
            r.coefficients@ == coefficients@,
    {
        UnivariantPolynomial { coefficients }
    }

    /// Creates a polynomial from a vector of coefficients.
    pub fn from_coefficients_vec(coeffs: Vec<Fr>) -> (r: Self)
        ensures
            r.coefficients@ == coeffs@,
    {
        UnivariantPolynomial { coefficients: coeffs }
    }

    /// Creates a polynomial from a slice of coefficients.
    pub fn from_coefficients_slice(coeffs: &[Fr]) -> (r: Self)
        ensures
            r.coefficients@ == coeffs@,
    {
        UnivariantPolynomial { coefficients: vstd::slice::slice_to_vec(coeffs) }
    }

    /// The coefficients.
    pub fn coefficients(&self) -> (r: &[Fr])
        ensures
            r@ == self.coefficients@,
    {
        self.coefficients.as_slice()
    }

    /// The zero polynomial (no coefficients).
    pub fn zero() -> (r: Self)
        ensures
            r.coeffs() == Seq::<int>::empty(),
    {
        UnivariantPolynomial { coefficients: Vec::new() }
    }

    /// The polynomial as text (what its `Display` writes), as bytes.
    pub fn display_bytes(&self) -> (r: Vec<u8>)
        ensures
            r@ == poly_text(self.coeffs()),
    {
        let mut result: Vec<u8> = Vec::new();
        let mut i: usize = 0;
        proof {
            assert(self.coeffs().subrange(0, 0) =~= Seq::<int>::empty());
        }
        while i < self.coefficients.len()
            invariant
                i <= self.coefficients.len(),
                result@ == poly_text(self.coeffs().subrange(0, i as int)),
            decreases self.coefficients.len() - i,
        {
            let text = self.coefficients[i].debug_bytes();
            let ghost before = self.coeffs().subrange(0, i as int);
            let ghost after = self.coeffs().subrange(0, i + 1);
            proof {
                assert(after.drop_last() =~= before);
                assert(after.last() == self.coefficients[i as int]@);
            }
            if i == 0 {
                extend_bytes(&mut result, text.as_slice());
            } else {
                extend_bytes(&mut result, " + ".as_bytes());
                extend_bytes(&mut result, text.as_slice());
                extend_bytes(&mut result, "x^".as_bytes());
                let d = decimal_digits(i as u64);
                extend_bytes(&mut result, d.as_slice());
            }
            proof {
                assert(result@ =~= poly_text(after));
            }
            i = i + 1;
        }
        proof {
            assert(self.coeffs().subrange(0, self.coefficients.len() as int) =~= self.coeffs());
        }
        result
    }

    /// The constant polynomial one.
    pub fn one() -> (r: Self)
        ensures
            r.coeffs() == seq![1int],
    {
        let mut c: Vec<Fr> = Vec::new();
        c.push(Fr::one());
        let r = UnivariantPolynomial { coefficients: c };
        proof {
            assert(r.coeffs() =~= seq![1int]);
        }
        r
    }

    /// The number of coefficients minus one.
    pub fn degree(&self) -> (r: usize)
        requires
            self.coefficients.len() > 0,
        ensures
            r == self.coefficients.len() - 1,
    {
        self.coefficients.len() - 1
    }

    /// Whether the polynomial has no coefficients.
    pub fn is_zero(&self) -> (r: bool)
        ensures
            r == (self.coefficients.len() == 0),
    {
        self.coefficients.len() == 0
    }

    /// The value at `x`: `sum_i c_i x^i`.
    pub fn evaluate(&self, x: &Fr) -> (r: Fr)
        requires
            self.coefficients.len() > 0,
        ensures
            r@ == poly_eval(self.coeffs(), x@),
    {
        let c = &self.coefficients;
        let n = c.len();
        let mut acc = Fr::zero();
        let mut i: usize = n;
        proof {
            assert(c.deep_view().subrange(n as int, n as int) =~= Seq::<int>::empty());
        }
        while i > 0
            invariant
                i <= n,
                n == c.len(),
                acc@ == poly_eval(c.deep_view().subrange(i as int, n as int), x@),
            decreases i,
        {
            i = i - 1;
            let t = x.mul(&acc);
            acc = c[i].add(&t);
            proof {
                let sub = c.deep_view().subrange(i as int, n as int);
                assert(sub.drop_first() =~= c.deep_view().subrange(i + 1, n as int));
            }
        }
        proof {
            assert(c.deep_view().subrange(0, n as int) =~= c.deep_view());
        }
        acc
    }

    /// The polynomial `coeff * X^degree + constant`.
    pub fn create_monomial(degree: usize, coeff: Fr, constant: Fr) -> (r: Self)
        requires
            degree < usize::MAX,
        ensures
            r.coeffs() == monomial(degree as nat, coeff@, constant@),
    {
        let mut c: Vec<Fr> = Vec::new();
        if degree == 0 {
            c.push(coeff.add(&constant));
            proof {
                assert(c.deep_view() =~= monomial(0, coeff@, constant@));
            }
            return UnivariantPolynomial { coefficients: c };
        }
        c.push(constant);
        let mut i: usize = 1;
        while i < degree
            invariant
                1 <= i <= degree,
                c.len() == i,
                c[0]@ == constant@,
                forall|k: int| 1 <= k < i ==> (#[trigger] c[k])@ == 0,
            decreases degree - i,
        {
            c.push(Fr::zero());
            i = i + 1;
        }
        c.push(coeff);
        proof {
            assert forall|k: int| 0 <= k < c.len() implies #[trigger] c.deep_view()[k] == monomial(
                degree as nat,
                coeff@,
                constant@,
            )[k] by {
                assert(c.deep_view()[k] == c[k]@);
            }
            assert(c.deep_view() =~= monomial(degree as nat, coeff@, constant@));
        }
        UnivariantPolynomial { coefficients: c }
    }

    /// The polynomial multiplied by the constant `s`.
    pub fn scale(&self, s: &Fr) -> (r: Self)
        ensures
            r.coeffs() == poly_scale(self.coeffs(), s@),
    {
        UnivariantPolynomial { coefficients: scale_coeffs(&self.coefficients, s) }
    }

    /// The difference of two polynomials.
    pub fn sub(&self, other: &Self) -> (r: Self)
        ensures
            r.coeffs() == poly_add(self.coeffs(), poly_scale(other.coeffs(), fneg(1))),
    {
        let minus_one = Fr::one().neg();
        proof {
            vstd::arithmetic::div_mod::lemma_small_mod(1, fr_modulus() as nat);
        }
        self.add(&other.scale(&minus_one))
    }

    /// The polynomial plus the constant `c`.
    pub fn add_constant(&self, c: &Fr) -> (r: Self)
        ensures
            r.coeffs() == poly_add(self.coeffs(), seq![c@]),
    {
        let mut v: Vec<Fr> = Vec::new();
        v.push(*c);
        proof {
            assert(v.deep_view() =~= seq![c@]);
        }
        self.add(&UnivariantPolynomial { coefficients: v })
    }

    /// Sum of two polynomials.
    pub fn add(&self, other: &Self) -> (r: Self)
        ensures
            r.coeffs() == poly_add(self.coeffs(), other.coeffs()),
    {
        UnivariantPolynomial { coefficients: add_coeffs(&self.coefficients, &other.coefficients) }
    }

    /// Adds `rhs` into `self`.
    pub fn add_assign(&mut self, rhs: &Self)
        ensures
            final(self).coeffs() == poly_add(old(self).coeffs(), rhs.coeffs()),
    {
        self.coefficients = add_coeffs(&self.coefficients, &rhs.coefficients);
    }

    /// Product of two polynomials.
    pub fn mul(&self, other: &Self) -> (r: Self)
        ensures
            r.coeffs() == poly_mul(self.coeffs(), other.coeffs()),
    {
        UnivariantPolynomial { coefficients: mul_coeffs(&self.coefficients, &other.coefficients) }
    }

    /// The coefficients serialised as 32-byte big-endian elements.
    pub fn to_bytes(&self) -> (r: Vec<u8>)
        ensures
            r@ == elems_bytes(self.coeffs()),
    {
        elems_to_bytes(&self.coefficients)
    }

    /// Lagrange interpolation through the points `(domain[i], point_ys[i])`.
    pub fn interpolate(point_ys: Vec<Fr>, domain: Vec<Fr>) -> (r: Self)
        requires
            point_ys.len() == domain.len(),
            distinct(domain.deep_view()),
        ensures
            r.coeffs() == lagrange_interpolant(domain.deep_view(), point_ys.deep_view()),
            forall|k: int|
                0 <= k < domain.len() ==> #[trigger] poly_eval(
                    r.coeffs(),
                    domain.deep_view()[k],
                ) == point_ys.deep_view()[k],
            forall|i: int|
                0 <= i < domain.len() ==> #[trigger] differences_invertible(
                    domain.deep_view(),
                    i,
                    domain.len() as nat,
                ),
    {
        let basis = get_langrange_basis(&domain, &point_ys);
        proof {
            lemma_vec_canonical(point_ys);
        }
        let mut acc = UnivariantPolynomial::zero();
        let mut i: usize = 0;
        let ghost ps = Seq::new(
            domain.len() as nat,
            |k: int| lagrange_basis(domain.deep_view(), point_ys.deep_view(), k),
        );
        while i < basis.len()
            invariant
                i <= basis.len(),
                basis.len() == domain.len(),
                ps.len() == domain.len(),
                forall|k: int|
                    0 <= k < basis.len() ==> #[trigger] basis[k].coeffs() == ps[k],
                acc.coeffs() == poly_sum(ps, i as nat),
            decreases basis.len() - i,
        {
            acc = acc.add(&basis[i]);
            i = i + 1;
        }
        proof {
            assert(ps =~= Seq::new(
                domain.len() as nat,
                |k: int| lagrange_basis(domain.deep_view(), point_ys.deep_view(), k),
            ));
            assert forall|k: int| 0 <= k < domain.len() implies #[trigger] poly_eval(
                acc.coeffs(),
                domain.deep_view()[k],
            ) == point_ys.deep_view()[k] by {
                let x = domain.deep_view()[k];
                assert forall|a: int| 0 <= a < ps.len() implies #[trigger] poly_eval(ps[a], x) == (
                if a == k {
                    point_ys.deep_view()[k]
                } else {
                    0
                }) by {
                    assert(basis[a].coeffs() == ps[a]);
                }
                lemma_eval_poly_sum_single(ps, ps.len(), x, k, point_ys.deep_view()[k]);
            }
        }
        acc
    }
}

/// The Lagrange basis for the points `(domain[i], y_s[i])`: the `i`-th
/// polynomial is `y_s[i] * prod_{j != i} (x - domain[j]) / (domain[i] - domain[j])`.
pub fn get_langrange_basis(domain: &Vec<Fr>, y_s: &Vec<Fr>) -> (r: Vec<UnivariantPolynomial>)
    requires
        domain.len() == y_s.len(),
        distinct(domain.deep_view()),
    ensures
        r.len() == domain.len(),
        forall|i: int|
            0 <= i < r.len() ==> #[trigger] r[i].coeffs() == lagrange_basis(
                domain.deep_view(),
                y_s.deep_view(),
                i,
            ),
        forall|i: int, k: int|
            0 <= i < r.len() && 0 <= k < r.len() ==> #[trigger] poly_eval(
                r[i].coeffs(),
                domain.deep_view()[k],
            ) == (if k == i {
                y_s.deep_view()[i]
            } else {
                0
            }),
        forall|i: int|
            0 <= i < domain.len() ==> #[trigger] differences_invertible(
                domain.deep_view(),
                i,
                domain.len() as nat,
            ),
{
    proof {
        lemma_vec_canonical(*domain);
        lemma_vec_canonical(*y_s);
    }
    let mut basis: Vec<UnivariantPolynomial> = Vec::new();
    let n = domain.len();
    let mut i: usize = 0;
    while i < n
        invariant
            n == domain.len(),
            n == y_s.len(),
            distinct(domain.deep_view()),
            i <= n,
            basis.len() == i,
            forall|k: int|
                0 <= k < i ==> #[trigger] basis[k].coeffs() == lagrange_basis(
                    domain.deep_view(),
                    y_s.deep_view(),
                    k,
                ),
            canonical(domain.deep_view()),
            canonical(y_s.deep_view()),
            forall|a: int, k: int|
                0 <= a < i && 0 <= k < n ==> #[trigger] poly_eval(
                    basis[a].coeffs(),
                    domain.deep_view()[k],
                ) == (if k == a {
                    y_s.deep_view()[a]
                } else {
                    0
                }),
            forall|a: int|
                0 <= a < i ==> #[trigger] differences_invertible(domain.deep_view(), a, n as nat),
        decreases n - i,
    {
        let mut element = UnivariantPolynomial::one();
        let mut j: usize = 0;
        while j < n
            invariant
                n == domain.len(),
                distinct(domain.deep_view()),
                i < n,
                j <= n,
                element.coeffs() == lagrange_prod(domain.deep_view(), i as int, j as nat),
                differences_invertible(domain.deep_view(), i as int, j as nat),
            decreases n - j,
        {
            if i != j {
                let mut lin: Vec<Fr> = Vec::new();
                lin.push(domain[j].neg());
                lin.push(Fr::one());
                let numerator = UnivariantPolynomial::from_coefficients_vec(lin);
                let denominator = domain[i].sub(&domain[j]);
                proof {
                    domain[i as int].lemma_view_range();
                    domain[j as int].lemma_view_range();
                    assert(domain.deep_view()[i as int] != domain.deep_view()[j as int]);
                    crate::algebra::lemma_fsub_nonzero(domain[i as int]@, domain[j as int]@);
                }
                let inv = match denominator.inverse() {
                    Some(v) => v,
                    None => {
                        proof {
                            assert(false);
                        }
                        Fr::zero()
                    },
                };
                let mut ic: Vec<Fr> = Vec::new();
                ic.push(inv);
                let inv_poly = UnivariantPolynomial::from_coefficients_vec(ic);
                let factor = numerator.mul(&inv_poly);
                element = element.mul(&factor);
                proof {
                    crate::algebra::lemma_inverse_is_finv(denominator@, inv@);
                    assert(numerator.coeffs() =~= seq![fneg(domain.deep_view()[j as int]), 1int]);
                    assert(inv_poly.coeffs() =~= seq![
                        finv(fsub(domain.deep_view()[i as int], domain.deep_view()[j as int]))
                    ]);
                }
            }
            j = j + 1;
        }
        let mut yc: Vec<Fr> = Vec::new();
        yc.push(y_s[i]);
        let y_poly = UnivariantPolynomial::from_coefficients_vec(yc);
        proof {
            assert(y_poly.coeffs() =~= seq![y_s.deep_view()[i as int]]);
        }
        let b = element.mul(&y_poly);
        proof {
            assert forall|k: int| 0 <= k < n implies #[trigger] poly_eval(
                b.coeffs(),
                domain.deep_view()[k],
            ) == (if k == i {
                y_s.deep_view()[i as int]
            } else {
                0
            }) by {
                lemma_eval_lagrange_basis(domain.deep_view(), y_s.deep_view(), i as int, k);
            }
        }
        basis.push(b);
        i = i + 1;
    }
    basis
}

/// The polynomial `prod_{c in data} (x - c)`.
pub fn generate_vanishing_polynomial(data: &Vec<Fr>) -> (r: UnivariantPolynomial)
    ensures
        r.coeffs() == vanishing(data.deep_view()),
{
    let mut v_poly = UnivariantPolynomial::one();
    let mut i: usize = 0;
    while i < data.len()
        invariant
            i <= data.len(),
            v_poly.coeffs() == vanishing(data.deep_view().subrange(0, i as int)),
        decreases data.len() - i,
    {
        let mut lin: Vec<Fr> = Vec::new();
        lin.push(data[i].neg());
        lin.push(Fr::one());
        let factor = UnivariantPolynomial::from_coefficients_vec(lin);
        v_poly = v_poly.mul(&factor);
        proof {
            let s = data.deep_view().subrange(0, i + 1);
            assert(s.drop_last() =~= data.deep_view().subrange(0, i as int));
            assert(factor.coeffs() =~= seq![fneg(s.last()), 1int]);
        }
        i = i + 1;
    }
    proof {
        assert(data.deep_view().subrange(0, data.len() as int) =~= data.deep_view());
    }
    v_poly
}

} // verus!
