//! Pieces of the sum-check for virtual polynomials (sums of products of
//! multilinear polynomials): fixing variables, barycentric extrapolation, the
//! interpolation of a round polynomial from its values at `0, 1, ..., d`, and the
//! verifier's state machine.
use crate::algebra::{lemma_fadd_comm, lemma_inverse_is_finv, lemma_ops_range};
use crate::field::{batch_inversion, fadd, finv, fmul, fr_modulus, fsub, is_inverse, Fr};
use crate::multilinear::Multilinear;
use crate::pow2::{lemma_two_pow_half, lemma_two_pow_pos, two_pow};
use crate::sumcheck::seq_sum;
use crate::transcript::challenge;
use vstd::prelude::*;

verus! {

/// `n!`.
pub open spec fn factorial(n: nat) -> nat
    decreases n,
{
    if n <= 1 {
        1
    } else {
        n * factorial((n - 1) as nat)
    }
}

proof fn lemma_factorial_pos(n: nat)
    ensures
        factorial(n) >= 1,
    decreases n,
{
    if n > 1 {
        lemma_factorial_pos((n - 1) as nat);
        assert(n * factorial((n - 1) as nat) >= 1) by (nonlinear_arith)
            requires
                n > 1,
                factorial((n - 1) as nat) >= 1,
        ;
    }
}

proof fn lemma_factorial_monotone(a: nat, b: nat)
    requires
        a <= b,
    ensures
        factorial(a) <= factorial(b),
    decreases b,
{
    if a < b {
        lemma_factorial_monotone(a, (b - 1) as nat);
        lemma_factorial_pos((b - 1) as nat);
        if b > 1 {
            assert(factorial((b - 1) as nat) <= b * factorial((b - 1) as nat)) by (nonlinear_arith)
                requires
                    b >= 1,
                    factorial((b - 1) as nat) >= 1,
            ;
        }
    }
}

/// `a!` as a `u64`; `a` must be at most 20.
pub fn u64_factorial(a: usize) -> (r: u64)
    requires
        a <= 20,
    ensures
        r == factorial(a as nat),
{
    proof {
        reveal_with_fuel(factorial, 21);
        assert(factorial(20) == 2432902008176640000);
    }
    let mut res: u64 = 1;
    let mut i: usize = 1;
    while i < a
        invariant
            a <= 20,
            1 <= i,
            a >= 1 ==> i <= a,
            a == 0 ==> i == 1,
            res == factorial(i as nat),
            factorial(20) == 2432902008176640000,
        decreases a - i,
    {
        i = i + 1;
        proof {
            lemma_factorial_monotone(i as nat, 20);
            assert(factorial(i as nat) == i * factorial((i - 1) as nat));
            vstd::arithmetic::mul::lemma_mul_is_commutative(res as int, i as int);
            assert(res as int * i as int == factorial(i as nat));
        }
        res = res * (i as u64);
    }
    proof {
        assert(factorial(0) == 1);
        assert(factorial(1) == 1);
    }
    res
}

/// `34!`.
proof fn lemma_factorial_34()
    ensures
        factorial(34) == 295232799039604140847618609643520000000,
{
    reveal_with_fuel(factorial, 21);
    assert(factorial(20) == 2432902008176640000);
    assert(factorial(21) == 21 * factorial(20));
    assert(factorial(22) == 22 * factorial(21));
    assert(factorial(23) == 23 * factorial(22));
    assert(factorial(24) == 24 * factorial(23));
    assert(factorial(25) == 25 * factorial(24));
    assert(factorial(26) == 26 * factorial(25));
    assert(factorial(27) == 27 * factorial(26));
    assert(factorial(28) == 28 * factorial(27));
    assert(factorial(29) == 29 * factorial(28));
    assert(factorial(30) == 30 * factorial(29));
    assert(factorial(31) == 31 * factorial(30));
    assert(factorial(32) == 32 * factorial(31));
    assert(factorial(33) == 33 * factorial(32));
    assert(factorial(34) == 34 * factorial(33));
}

/// `a!` as a `u128`; `a` must be at most 34.
pub fn u128_factorial(a: usize) -> (r: u128)
    requires
        a <= 34,
    ensures
        r == factorial(a as nat),
{
    proof {
        lemma_factorial_34();
    }
    let mut res: u128 = 1;
    let mut i: usize = 1;
    while i < a
        invariant
            a <= 34,
            1 <= i,
            a >= 1 ==> i <= a,
            a == 0 ==> i == 1,
            res == factorial(i as nat),
            factorial(34) == 295232799039604140847618609643520000000,
        decreases a - i,
    {
        i = i + 1;
        proof {
            lemma_factorial_monotone(i as nat, 34);
            assert(factorial(i as nat) == i * factorial((i - 1) as nat));
            vstd::arithmetic::mul::lemma_mul_is_commutative(res as int, i as int);
            assert(res as int * i as int == factorial(i as nat));
        }
        res = res * (i as u128);
    }
    proof {
        assert(factorial(0) == 1);
        assert(factorial(1) == 1);
    }
    res
}

/// `a!` in the field.
pub fn field_factorial(a: usize) -> (r: Fr)
    ensures
        r@ == (factorial(a as nat) as int) % fr_modulus(),
{
    let mut res = Fr::one();
    let mut i: usize = 1;
    proof {
        assert(factorial(1) == 1);
        assert(factorial(0) == 1);
        vstd::arithmetic::div_mod::lemma_small_mod(1, fr_modulus() as nat);
    }
    while i < a
        invariant
            1 <= i,
            a >= 1 ==> i <= a,
            a == 0 ==> i == 1,
            res@ == (factorial(i as nat) as int) % fr_modulus(),
        decreases a - i,
    {
        i = i + 1;
        let x = Fr::from_u64(i as u64);
        let ghost prev = factorial((i - 1) as nat) as int;
        res = res.mul(&x);
        proof {
            assert(factorial(i as nat) == i * factorial((i - 1) as nat));
            vstd::arithmetic::div_mod::lemma_mul_mod_noop_left(prev, i as int, fr_modulus());
            vstd::arithmetic::mul::lemma_mul_is_commutative(prev, i as int);
        }
    }
    proof {
        assert(factorial(0) == 1);
        assert(factorial(1) == 1);
    }
    res
}

/// Partial evaluation at the lowest index bit: entry `i` is the line through
/// `data[2i]` (bit 0) and `data[2i + 1]` (bit 1), read at `point`, for
/// `i < 2^(nv - 1)`.
pub open spec fn fix_one_spec(data: Seq<int>, nv: nat, point: int) -> Seq<int> {
    Seq::new(
        two_pow((nv - 1) as nat),
        |i: int| fadd(data[2 * i], fmul(fsub(data[2 * i + 1], data[2 * i]), point)),
    )
}

/// The steps of `fix_one_spec` for each coordinate of `pts` in turn.
pub open spec fn fix_all_spec(data: Seq<int>, nv: nat, pts: Seq<int>) -> Seq<int>
    decreases pts.len(),
{
    if pts.len() == 0 {
        data
    } else {
        fix_all_spec(fix_one_spec(data, nv, pts[0]), (nv - 1) as nat, pts.drop_first())
    }
}

/// One step of `fix_variables` on a table of at least `2^nv` entries.
fn fix_one_variable_helper(data: &[Fr], nv: usize, point: &Fr) -> (r: Vec<Fr>)
    requires
        nv >= 1,
        two_pow(nv as nat) <= data.len(),
    ensures
        r.deep_view() == fix_one_spec(data@.map_values(|x: Fr| x@), nv as nat, point@),
{
    proof {
        lemma_two_pow_half(nv as nat);
        lemma_two_pow_pos((nv - 1) as nat);
    }
    let half = crate::multilinear::two_pow_exec(nv - 1);
    let ghost d = data@.map_values(|x: Fr| x@);
    let mut res: Vec<Fr> = Vec::new();
    let mut i: usize = 0;
    while i < half
        invariant
            half == two_pow((nv - 1) as nat),
            2 * half <= data.len(),
            d == data@.map_values(|x: Fr| x@),
            i <= half,
            res.len() == i,
            forall|k: int|
                0 <= k < i ==> #[trigger] res.deep_view()[k] == fadd(
                    d[2 * k],
                    fmul(fsub(d[2 * k + 1], d[2 * k]), point@),
                ),
        decreases half - i,
    {
        let diff = data[2 * i + 1].sub(&data[2 * i]);
        let v = data[2 * i].add(&diff.mul(point));
        let ghost before = res.deep_view();
        res.push(v);
        proof {
            assert(res.deep_view() =~= before.push(v@));
        }
        i = i + 1;
    }
    proof {
        assert(res.deep_view() =~= fix_one_spec(d, nv as nat, point@));
    }
    res
}

/// Applies `fix_one_spec` once per coordinate of `partial_point` and keeps the
/// first `2^(nv - dim)` entries as a polynomial in `nv - dim` variables.
pub fn fix_variables(poly: &Multilinear, partial_point: &[Fr]) -> (r: Multilinear)
    requires
        poly.wf(),
        partial_point.len() <= poly.num_vars,
    ensures
        r.wf(),
        r.num_vars == poly.num_vars - partial_point.len(),
        r.evals() == fix_all_spec(
            poly.evals(),
            poly.num_vars as nat,
            partial_point@.map_values(|x: Fr| x@),
        ).subrange(0, two_pow((poly.num_vars - partial_point.len()) as nat) as int),
{
    let nv = poly.num_vars;
    let dim = partial_point.len();
    let ghost pts = partial_point@.map_values(|x: Fr| x@);
    let mut cur = crate::multilinear::copy_elems(&poly.evaluations);
    let mut i: usize = 0;
    proof {
        assert(cur.deep_view() =~= poly.evals());
        assert(pts.subrange(0, dim as int) =~= pts);
        assert(nv - 0 == nv);
    }
    while i < dim
        invariant
            poly.wf(),
            nv == poly.num_vars,
            dim == partial_point.len(),
            dim <= nv,
            pts == partial_point@.map_values(|x: Fr| x@),
            i <= dim,
            cur.len() == two_pow((nv - i) as nat),
            fix_all_spec(poly.evals(), nv as nat, pts) == fix_all_spec(
                cur.deep_view(),
                (nv - i) as nat,
                pts.subrange(i as int, dim as int),
            ),
        decreases dim - i,
    {
        proof {
            assert(pts.subrange(i as int, dim as int).drop_first() =~= pts.subrange(
                i + 1,
                dim as int,
            ));
            assert(cur@.map_values(|x: Fr| x@) =~= cur.deep_view());
            lemma_two_pow_half((nv - i) as nat);
        }
        cur = fix_one_variable_helper(cur.as_slice(), nv - i, &partial_point[i]);
        proof {
            assert(cur.len() == cur.deep_view().len());
        }
        i = i + 1;
    }
    proof {
        assert(pts.subrange(dim as int, dim as int) =~= Seq::<int>::empty());
    }
    let size = crate::multilinear::two_pow_exec(nv - dim);
    let mut kept: Vec<Fr> = Vec::new();
    let mut k: usize = 0;
    while k < size
        invariant
            size == two_pow((nv - dim) as nat),
            cur.len() == size,
            k <= size,
            kept.len() == k,
            forall|j: int| 0 <= j < k ==> #[trigger] kept[j] == cur[j],
        decreases size - k,
    {
        kept.push(cur[k]);
        k = k + 1;
    }
    proof {
        assert(kept.deep_view() =~= cur.deep_view().subrange(0, size as int));
    }
    let ghost kept_view = kept.deep_view();
    let r = Multilinear::new(kept, nv - dim);
    proof {
        assert(r.evals() =~= kept_view);
    }
    r
}

/// The inverse of a nonzero element, and zero for zero.
pub open spec fn inv_or_zero(a: int) -> int {
    if a == 0 {
        0
    } else {
        finv(a)
    }
}

/// `prod_{i < upto, i != j} (points[j] - points[i])`.
pub open spec fn bary_prod(points: Seq<int>, j: int, upto: nat) -> int
    decreases upto,
{
    if upto == 0 {
        1
    } else if upto - 1 == j {
        bary_prod(points, j, (upto - 1) as nat)
    } else {
        fmul(bary_prod(points, j, (upto - 1) as nat), fsub(points[j], points[upto - 1]))
    }
}

/// The barycentric weights `1 / prod_{i != j} (points[j] - points[i])` (zero
/// where the product vanishes).
pub fn barycentric_weights(points: &[Fr]) -> (r: Vec<Fr>)
    ensures
        r.len() == points.len(),
        r.deep_view() == bary_weights(points@.map_values(|x: Fr| x@)),
        forall|j: int|
            0 <= j < points.len() ==> (#[trigger] r[j])@ == inv_or_zero(
                bary_prod(points@.map_values(|x: Fr| x@), j, points.len() as nat),
            ),
{
    let ghost ps = points@.map_values(|x: Fr| x@);
    let mut weights: Vec<Fr> = Vec::new();
    let mut j: usize = 0;
    while j < points.len()
        invariant
            ps == points@.map_values(|x: Fr| x@),
            j <= points.len(),
            weights.len() == j,
            forall|k: int|
                0 <= k < j ==> (#[trigger] weights[k])@ == bary_prod(ps, k, points.len() as nat),
        decreases points.len() - j,
    {
        let mut acc = Fr::one();
        let mut i: usize = 0;
        while i < points.len()
            invariant
                ps == points@.map_values(|x: Fr| x@),
                j < points.len(),
                i <= points.len(),
                acc@ == bary_prod(ps, j as int, i as nat),
            decreases points.len() - i,
        {
            if i != j {
                acc = acc.mul(&points[j].sub(&points[i]));
            }
            i = i + 1;
        }
        weights.push(acc);
        j = j + 1;
    }
    let ghost before = weights@;
    batch_inversion(&mut weights);
    proof {
        assert forall|j: int| 0 <= j < points.len() implies (#[trigger] weights[j])@ == inv_or_zero(
            bary_prod(ps, j, points.len() as nat),
        ) by {
            if before[j]@ != 0 {
                lemma_inverse_is_finv(before[j]@, weights[j]@);
            }
        }
        assert(weights.deep_view() =~= bary_weights(ps));
    }
    weights
}

/// The coefficient of point `i` in barycentric extrapolation to `at`.
pub open spec fn extrapolation_coeff(points: Seq<int>, weights: Seq<int>, at: int, i: int) -> int {
    if i < weights.len() {
        fmul(inv_or_zero(fsub(at, points[i])), weights[i])
    } else {
        inv_or_zero(fsub(at, points[i]))
    }
}

/// The barycentric value at `at` of the values `es` at the points `ps` with the
/// weights `ws`: `sum_i c_i es[i] / sum_i c_i`, `c_i = ws[i] / (at - ps[i])`.
pub open spec fn extrapolated(ps: Seq<int>, ws: Seq<int>, es: Seq<int>, at: int) -> int {
    let cs = Seq::new(ps.len(), |i: int| extrapolation_coeff(ps, ws, at, i));
    let m = if cs.len() <= es.len() {
        cs.len()
    } else {
        es.len()
    };
    fmul(seq_sum(Seq::new(m, |i: int| fmul(cs[i], es[i]))), inv_or_zero(seq_sum(cs)))
}

/// The barycentric weights of the points `ps`.
pub open spec fn bary_weights(ps: Seq<int>) -> Seq<int> {
    Seq::new(ps.len(), |j: int| inv_or_zero(bary_prod(ps, j, ps.len())))
}

/// The value at `at` of the polynomial through `(points[i], evals[i])`, by the
/// barycentric formula `sum_i c_i evals[i] / sum_i c_i`,
/// `c_i = weights[i] / (at - points[i])`.
pub fn extrapolate(points: &[Fr], weights: &[Fr], evals: &[Fr], at: &Fr) -> (r: Fr)
    ensures
        r@ == extrapolated(
            points@.map_values(|x: Fr| x@),
            weights@.map_values(|x: Fr| x@),
            evals@.map_values(|x: Fr| x@),
            at@,
        ),
{
    let ghost ps = points@.map_values(|x: Fr| x@);
    let ghost ws = weights@.map_values(|x: Fr| x@);
    let ghost es = evals@.map_values(|x: Fr| x@);
    let mut coeffs: Vec<Fr> = Vec::new();
    let mut i: usize = 0;
    while i < points.len()
        invariant
            i <= points.len(),
            coeffs.len() == i,
            forall|k: int| 0 <= k < i ==> (#[trigger] coeffs[k])@ == fsub(at@, points[k]@),
        decreases points.len() - i,
    {
        coeffs.push(at.sub(&points[i]));
        i = i + 1;
    }
    let ghost diffs = coeffs@;
    batch_inversion(&mut coeffs);
    let mut k: usize = 0;
    while k < coeffs.len()
        invariant
            coeffs.len() == points.len(),
            diffs.len() == points.len(),
            ps == points@.map_values(|x: Fr| x@),
            ws == weights@.map_values(|x: Fr| x@),
            forall|j: int| 0 <= j < diffs.len() ==> (#[trigger] diffs[j])@ == fsub(at@, points[j]@),
            forall|j: int|
                0 <= j < diffs.len() ==> (diffs[j]@ == 0 ==> (#[trigger] coeffs[j])@ == 0 || j < k),
            forall|j: int|
                0 <= j < diffs.len() ==> (diffs[j]@ != 0 ==> is_inverse(diffs[j]@, (#[trigger] coeffs[j])@)
                    || j < k),
            k <= coeffs.len(),
            forall|j: int| 0 <= j < k ==> (#[trigger] coeffs[j])@ == extrapolation_coeff(ps, ws, at@, j),
        decreases coeffs.len() - k,
    {
        proof {
            if diffs[k as int]@ != 0 {
                lemma_inverse_is_finv(diffs[k as int]@, coeffs[k as int]@);
            }
        }
        if k < weights.len() {
            let c = coeffs[k].mul(&weights[k]);
            coeffs.set(k, c);
        }
        k = k + 1;
    }
    let ghost cs = Seq::new(ps.len(), |i: int| extrapolation_coeff(ps, ws, at@, i));
    proof {
        assert(coeffs.deep_view() =~= cs);
    }
    let sum = sum_of(&coeffs);
    let sum_inv = match sum.inverse() {
        Some(v) => v,
        None => Fr::zero(),
    };
    proof {
        if sum@ != 0 {
            assert(is_inverse(sum@, sum_inv@));
            lemma_inverse_is_finv(sum@, sum_inv@);
        }
    }
    let m = if coeffs.len() <= evals.len() {
        coeffs.len()
    } else {
        evals.len()
    };
    let mut products: Vec<Fr> = Vec::new();
    let mut j: usize = 0;
    while j < m
        invariant
            m <= coeffs.len(),
            m <= evals.len(),
            j <= m,
            products.len() == j,
            forall|t: int| 0 <= t < j ==> (#[trigger] products[t])@ == fmul(coeffs[t]@, evals[t]@),
        decreases m - j,
    {
        products.push(coeffs[j].mul(&evals[j]));
        j = j + 1;
    }
    proof {
        assert(products.deep_view() =~= Seq::new(m as nat, |i: int| fmul(cs[i], es[i])));
    }
    let total = sum_of(&products);
    total.mul(&sum_inv)
}

/// The sum of a vector of elements.
fn sum_of(v: &Vec<Fr>) -> (r: Fr)
    ensures
        r@ == seq_sum(v.deep_view()),
{
    let mut acc = Fr::zero();
    let mut i: usize = 0;
    proof {
        assert(v.deep_view().subrange(0, 0) =~= Seq::<int>::empty());
    }
    while i < v.len()
        invariant
            i <= v.len(),
            acc@ == seq_sum(v.deep_view().subrange(0, i as int)),
        decreases v.len() - i,
    {
        acc = acc.add(&v[i]);
        proof {
            assert(v.deep_view().subrange(0, i + 1).drop_last() =~= v.deep_view().subrange(
                0,
                i as int,
            ));
        }
        i = i + 1;
    }
    proof {
        assert(v.deep_view().subrange(0, v.len() as int) =~= v.deep_view());
    }
    acc
}

/// `prod_{k=1}^{m} (-k)`, that is `(-1)^m m!`.
pub open spec fn neg_factorial(m: nat) -> int
    decreases m,
{
    if m == 0 {
        1
    } else {
        neg_factorial((m - 1) as nat) * (0 - m)
    }
}

/// `prod_{j < upto} (x - j)` in the field.
pub open spec fn node_prod(x: int, upto: nat) -> int
    decreases upto,
{
    if upto == 0 {
        1
    } else {
        fmul(node_prod(x, (upto - 1) as nat), fsub(x, upto - 1))
    }
}

/// `prod_{j < upto, j != i} (x - j)` in the field.
pub open spec fn node_prod_except(x: int, i: int, upto: nat) -> int
    decreases upto,
{
    if upto == 0 {
        1
    } else if upto - 1 == i {
        node_prod_except(x, i, (upto - 1) as nat)
    } else {
        fmul(node_prod_except(x, i, (upto - 1) as nat), fsub(x, upto - 1))
    }
}

/// `prod_{j < upto, j != i} (i - j)` over the integers.
pub open spec fn node_gap_prod(i: int, upto: nat) -> int
    decreases upto,
{
    if upto == 0 {
        1
    } else if upto - 1 == i {
        node_gap_prod(i, (upto - 1) as nat)
    } else {
        node_gap_prod(i, (upto - 1) as nat) * (i - (upto - 1))
    }
}

/// The `i`-th term of Lagrange interpolation through `(j, ys[j])`, `j < n`, at
/// `x`: `ys[i] prod_{j != i} (x - j) / prod_{j != i} (i - j)`.
pub open spec fn lagrange_term(ys: Seq<int>, x: int, i: int) -> int {
    fmul(
        ys[i],
        fmul(
            node_prod_except(x, i, ys.len()),
            finv(node_gap_prod(i, ys.len()) % fr_modulus()),
        ),
    )
}

/// The value at `x` of the interpolant of `(j, ys[j])` for `j < ys.len()`.
pub open spec fn lagrange_at_nodes(ys: Seq<int>, x: int) -> int {
    seq_sum(Seq::new(ys.len(), |i: int| lagrange_term(ys, x, i)))
}

/// The denominator that the interpolation divides by for term `i`:
/// `(n - 1)! (-1)^(n-1-i) (n - 1 - i)! (x - i)` in the field.
pub open spec fn interpolation_denominator(n: nat, x: int, i: int) -> int {
    fmul(
        ((factorial((n - 1) as nat) as int) * neg_factorial((n - 1 - i) as nat)) % fr_modulus(),
        fsub(x, i),
    )
}

/// `|(-1)^m m!| = m!`.
proof fn lemma_neg_factorial_abs(m: nat)
    ensures
        neg_factorial(m) == factorial(m) || neg_factorial(m) == 0 - factorial(m),
        m % 2 == 0 ==> neg_factorial(m) == factorial(m),
        m % 2 == 1 ==> neg_factorial(m) == 0 - factorial(m),
    decreases m,
{
    if m > 0 {
        lemma_neg_factorial_abs((m - 1) as nat);
        let f = factorial((m - 1) as nat);
        if m == 1 {
            assert(factorial(1) == 1);
            assert(neg_factorial(0) == 1);
        } else {
            assert(factorial(m) == m * f);
        }
        if (m - 1) % 2 == 0 {
            assert(neg_factorial((m - 1) as nat) * (0 - m) == 0 - m * f) by (nonlinear_arith)
                requires
                    neg_factorial((m - 1) as nat) == f,
            ;
        } else {
            assert(neg_factorial((m - 1) as nat) * (0 - m) == m * f) by (nonlinear_arith)
                requires
                    neg_factorial((m - 1) as nat) == 0 - f,
            ;
        }
    }
}

/// Below `i`, nothing is skipped.
proof fn lemma_except_below(x: int, i: int, upto: nat)
    requires
        upto <= i,
    ensures
        node_prod_except(x, i, upto) == node_prod(x, upto),
    decreases upto,
{
    if upto > 0 {
        lemma_except_below(x, i, (upto - 1) as nat);
    }
}

/// The product over all nodes is the product without node `i`, times `x - i`.
proof fn lemma_node_prod_split(x: int, i: int, upto: nat)
    requires
        0 <= i < upto,
    ensures
        node_prod(x, upto) == fmul(node_prod_except(x, i, upto), fsub(x, i)),
    decreases upto,
{
    if upto == i + 1 {
        lemma_except_below(x, i, i as nat);
    } else {
        lemma_node_prod_split(x, i, (upto - 1) as nat);
        let a = node_prod_except(x, i, (upto - 1) as nat);
        crate::algebra::lemma_fmul_assoc(a, fsub(x, i), fsub(x, upto - 1));
        crate::algebra::lemma_fmul_comm(fsub(x, i), fsub(x, upto - 1));
        crate::algebra::lemma_fmul_assoc(a, fsub(x, upto - 1), fsub(x, i));
    }
}

/// `n! = n (n - 1)!`.
proof fn lemma_factorial_step(n: nat)
    requires
        n >= 1,
    ensures
        factorial(n) == n * factorial((n - 1) as nat),
{
    if n == 1 {
        assert(factorial(1) == 1);
        assert(factorial(0) == 1);
    }
}

/// `prod_{j < upto} (i - j)` for `upto <= i`: the falling product.
proof fn lemma_gap_below(i: int, upto: nat)
    requires
        upto <= i,
    ensures
        node_gap_prod(i, upto) * factorial((i - upto) as nat) == factorial(i as nat),
    decreases upto,
{
    if upto == 0 {
    } else {
        lemma_gap_below(i, (upto - 1) as nat);
        let m = (i - upto) as nat;
        let g = node_gap_prod(i, (upto - 1) as nat);
        let n1 = (m + 1) as nat;
        lemma_factorial_step(n1);
        assert((n1 - 1) as nat == m);
        assert(node_gap_prod(i, upto) == g * (m + 1));
        assert(g * (m + 1) * factorial(m) == g * ((m + 1) * factorial(m))) by (nonlinear_arith);
        assert((i - (upto - 1)) as nat == n1);
    }
}

/// `prod_{j < n, j != i} (i - j) = i! (-1)^(n-1-i) (n-1-i)!`.
proof fn lemma_gap_closed(i: int, upto: nat)
    requires
        0 <= i < upto,
    ensures
        node_gap_prod(i, upto) == (factorial(i as nat) as int) * neg_factorial((upto - 1 - i) as nat),
    decreases upto,
{
    if upto == i + 1 {
        lemma_gap_below(i, i as nat);
        assert(factorial(0) == 1);
        assert(neg_factorial(0) == 1);
        assert(node_gap_prod(i, i as nat) * factorial(0) == node_gap_prod(i, i as nat));
        assert(node_gap_prod(i, i as nat) == factorial(i as nat));
        assert((factorial(i as nat) as int) * 1 == factorial(i as nat));
        assert(node_gap_prod(i, upto) == node_gap_prod(i, i as nat));
        assert((upto - 1 - i) as nat == 0);
        assert((i - i) as nat == 0);
    } else {
        lemma_gap_closed(i, (upto - 1) as nat);
        let m = (upto - 1 - i) as nat;
        assert(neg_factorial(m) == neg_factorial((m - 1) as nat) * (0 - m));
        assert(node_gap_prod(i, upto) == node_gap_prod(i, (upto - 1) as nat) * (i - (upto - 1)));
        assert((factorial(i as nat) as int) * neg_factorial((m - 1) as nat) * (i - (upto - 1)) == (
        factorial(i as nat) as int) * (neg_factorial((m - 1) as nat) * (0 - m))) by (nonlinear_arith)
            requires
                m == upto - 1 - i,
        ;
    }
}

/// The integer identity behind the ratios: `(n-1)! r_i = D_i d_i` where
/// `r_i = (-1)^(n-1-i) (n-1-i)!`, `d_i (i!) = (n-1)!` and `D_i` is the gap product.
proof fn lemma_ratio_identity(n: nat, i: int, d: int)
    requires
        0 <= i < n,
        d * (factorial(i as nat) as int) == factorial((n - 1) as nat) as int,
    ensures
        (factorial((n - 1) as nat) as int) * neg_factorial((n - 1 - i) as nat) == node_gap_prod(i, n)
            * d,
{
    lemma_gap_closed(i, n);
    let f = factorial(i as nat) as int;
    let g = neg_factorial((n - 1 - i) as nat);
    assert(d * f * g == f * g * d) by (nonlinear_arith);
}

/// The value of each term of the interpolation: when `B = ld rn (x - i)` has an
/// inverse `inv`, `ys[i] (prod_j (x - j)) rd / B` is the Lagrange term, given
/// `ld rn = D rd` with `D` the gap product.
proof fn lemma_term_value(ys: Seq<int>, x: int, i: int, ldrn: int, rd: int, inv: int)
    requires
        0 <= i < ys.len(),
        0 <= ys[i] < fr_modulus(),
        0 <= x < fr_modulus(),
        ldrn == node_gap_prod(i, ys.len()) * rd,
        is_inverse(fmul(ldrn % fr_modulus(), fsub(x, i)), inv),
    ensures
        fmul(fmul(fmul(ys[i], node_prod(x, ys.len())), rd % fr_modulus()), inv) == lagrange_term(ys, x, i),
{
    let m = fr_modulus();
    let n = ys.len();
    let e = fsub(x, i);
    let nx = node_prod_except(x, i, n);
    let dm = node_gap_prod(i, n) % m;
    let rdm = rd % m;
    lemma_node_prod_split(x, i, n);
    // B = D rd e, so D has the inverse rd e inv.
    let b = fmul(ldrn % m, e);
    vstd::arithmetic::div_mod::lemma_mul_mod_noop(node_gap_prod(i, n), rd, m);
    assert(ldrn % m == fmul(dm, rdm));
    let dinv = fmul(fmul(rdm, e), inv);
    crate::algebra::lemma_ops_range(fmul(rdm, e), inv);
    crate::algebra::lemma_fmul_assoc(dm, rdm, e);
    crate::algebra::lemma_fmul_assoc(dm, fmul(rdm, e), inv);
    assert(fmul(dm, dinv) == fmul(b, inv));
    assert(is_inverse(dm, dinv));
    crate::algebra::lemma_inverse_is_finv(dm, dinv);
    // ys[i] (nx e) rd inv == ys[i] (nx (rd e inv))
    let y = ys[i];
    crate::algebra::lemma_fmul_assoc(y, fmul(nx, e), rdm);
    crate::algebra::lemma_fmul_assoc(nx, e, rdm);
    crate::algebra::lemma_fmul_comm(e, rdm);
    crate::algebra::lemma_fmul_assoc(nx, rdm, e);
    crate::algebra::lemma_fmul_assoc(y, fmul(fmul(nx, rdm), e), inv);
    crate::algebra::lemma_fmul_assoc(fmul(nx, rdm), e, inv);
    crate::algebra::lemma_fmul_assoc(nx, rdm, fmul(e, inv));
    crate::algebra::lemma_fmul_assoc(rdm, e, inv);
    assert(fmul(fmul(fmul(y, fmul(nx, e)), rdm), inv) == fmul(y, fmul(nx, dinv)));
}

/// `32!`.
proof fn lemma_factorial_32()
    ensures
        factorial(32) == 263130836933693530167218012160000000,
        factorial(19) == 121645100408832000,
{
    reveal_with_fuel(factorial, 21);
    assert(factorial(19) == 121645100408832000);
    assert(factorial(20) == 2432902008176640000);
    assert(factorial(21) == 21 * factorial(20));
    assert(factorial(22) == 22 * factorial(21));
    assert(factorial(23) == 23 * factorial(22));
    assert(factorial(24) == 24 * factorial(23));
    assert(factorial(25) == 25 * factorial(24));
    assert(factorial(26) == 26 * factorial(25));
    assert(factorial(27) == 27 * factorial(26));
    assert(factorial(28) == 28 * factorial(27));
    assert(factorial(29) == 29 * factorial(28));
    assert(factorial(30) == 30 * factorial(29));
    assert(factorial(31) == 31 * factorial(30));
    assert(factorial(32) == 32 * factorial(31));
}

/// Why the virtual sum-check refuses.
#[derive(Clone, Copy, Debug, PartialEq, Eq)]
pub enum VirtualSumCheckError {
    /// A message arrived after the last round.
    VerifierFinished,
    /// The claim was checked before the last round.
    VerifierNotFinished,
    /// Not as many round messages as variables.
    InsufficientRounds,
    /// A round message has the wrong number of evaluations.
    WrongEvaluationCount,
    /// A round message does not sum to what the previous round promised.
    InconsistentClaim,
    /// A denominator of the interpolation vanished in the field.
    VanishingDenominator,
    /// A challenge lies on one of the interpolation nodes `0, 1, ..., d`.
    ChallengeOnNode,
    /// The polynomial has no variables.
    NoVariables,
    /// Every round has been answered.
    ProverNotActive,
    /// A challenge arrived before the first round message.
    ProverFirst,
    /// No challenge arrived after the first round.
    MissingChallenge,
}

/// What `interpolate_uni_poly` returns for the values `ys` at `x`.
pub open spec fn interpolation_outcome(ys: Seq<int>, x: int, r: Result<Fr, VirtualSumCheckError>) -> bool {
    &&& r is Err <==> exists|i: int|
        0 <= i < ys.len() && #[trigger] interpolation_denominator(ys.len(), x, i) == 0
    &&& r is Err ==> r == Err::<Fr, VirtualSumCheckError>(VirtualSumCheckError::VanishingDenominator)
    &&& r matches Ok(v) ==> v@ == lagrange_at_nodes(ys, x)
}

/// The terms of the interpolation.
pub open spec fn lagrange_terms(ys: Seq<int>, x: int) -> Seq<int> {
    Seq::new(ys.len(), |i: int| lagrange_term(ys, x, i))
}

/// Adding term `i` in front of the sum of the later terms.
proof fn lemma_sum_front(ts: Seq<int>, i: int, later: int, t: int)
    requires
        0 <= i < ts.len(),
        ts[i] == t,
        later == seq_sum(ts.subrange(i + 1, ts.len() as int)),
        0 <= t < fr_modulus(),
    ensures
        fadd(later, t) == seq_sum(ts.subrange(i, ts.len() as int)),
{
    let rest = ts.subrange(i + 1, ts.len() as int);
    let single = seq![t];
    assert(ts.subrange(i, ts.len() as int) =~= single + rest);
    crate::sumcheck::lemma_seq_sum_concat(single, rest);
    assert(single.drop_last() =~= Seq::<int>::empty());
    assert(single.last() == t);
    assert(seq_sum(Seq::<int>::empty()) == 0);
    assert(seq_sum(single) == fadd(seq_sum(single.drop_last()), single.last()));
    crate::algebra::lemma_fadd_zero(t);
    assert(seq_sum(single) == t);
    lemma_fadd_comm(later, t);
}

/// The field value of a signed integer.
proof fn lemma_signed_value(v: int)
    ensures
        v < 0 ==> crate::field::fneg(0 - v) == v % fr_modulus(),
{
}

/// One term of the interpolation, shared by the three ways of computing it.
proof fn lemma_interp_step(
    ys: Seq<int>,
    x: int,
    i: int,
    ld: int,
    rn: int,
    rd: int,
    den: int,
    num: int,
    inv: int,
)
    requires
        0 <= i < ys.len(),
        0 <= ys[i] < fr_modulus(),
        0 <= x < fr_modulus(),
        ld == factorial((ys.len() - 1) as nat),
        rn == neg_factorial((ys.len() - 1 - i) as nat),
        rd * (factorial(i as nat) as int) == ld,
        den == fmul((ld * rn) % fr_modulus(), fsub(x, i)),
        num == fmul(fmul(ys[i], node_prod(x, ys.len())), rd % fr_modulus()),
        is_inverse(den, inv),
    ensures
        fmul(num, inv) == lagrange_term(ys, x, i),
        den == interpolation_denominator(ys.len(), x, i),
{
    lemma_ratio_identity(ys.len(), i, rd);
    lemma_term_value(ys, x, i, ld * rn, rd, inv);
}

/// Interpolation with `u64`/`i64` ratios (at most 20 values).
fn interp_small(p_i: &[Fr], eval_at: Fr, prod: Fr, evals: &Vec<Fr>) -> (r: Result<Fr, VirtualSumCheckError>)
    requires
        1 <= p_i.len() <= 20,
        prod@ == node_prod(eval_at@, p_i.len() as nat),
        evals.len() == p_i.len(),
        forall|j: int| 0 <= j < p_i.len() ==> #[trigger] evals[j]@ == fsub(eval_at@, j),
    ensures
        interpolation_outcome(p_i@.map_values(|x: Fr| x@), eval_at@, r),
{
    let len = p_i.len();
    let ghost ys = p_i@.map_values(|x: Fr| x@);
    let ghost ts = lagrange_terms(ys, eval_at@);
    proof {
        lemma_factorial_32();
        lemma_factorial_monotone((len - 1) as nat, 19);
        lemma_factorial_pos((len - 1) as nat);
        eval_at.lemma_view_range();
    }
    let ld = u64_factorial(len - 1);
    let last_denominator = Fr::from_u64(ld);
    let mut ratio_numerator: i64 = 1;
    let mut ratio_denominator: u64 = 1;
    let mut res = Fr::zero();
    let mut k: usize = len;
    proof {
        assert(ts.subrange(len as int, len as int) =~= Seq::<int>::empty());
        assert(neg_factorial(0) == 1);
    }
    while k > 0
        invariant
            1 <= len <= 20,
            len == p_i.len(),
            ys == p_i@.map_values(|x: Fr| x@),
            ts == lagrange_terms(ys, eval_at@),
            0 <= eval_at@ < fr_modulus(),
            prod@ == node_prod(eval_at@, len as nat),
            evals.len() == len,
            forall|j: int| 0 <= j < len ==> #[trigger] evals[j]@ == fsub(eval_at@, j),
            ld == factorial((len - 1) as nat),
            ld <= 121645100408832000,
            last_denominator@ == ld,
            k <= len,
            k >= 1 ==> ratio_numerator == neg_factorial((len - k) as nat),
            k >= 1 ==> ratio_denominator * factorial((k - 1) as nat) == ld,
            res@ == seq_sum(ts.subrange(k as int, len as int)),
            forall|j: int| k <= j < len ==> #[trigger] interpolation_denominator(len as nat, eval_at@, j) != 0,
        decreases k,
    {
        let i = k - 1;
        proof {
            lemma_factorial_32();
            lemma_neg_factorial_abs((len - k) as nat);
            lemma_factorial_monotone((len - k) as nat, 19);
            lemma_factorial_pos(i as nat);
            assert(ratio_denominator <= ld) by (nonlinear_arith)
                requires
                    ratio_denominator * factorial(i as nat) == ld,
                    factorial(i as nat) >= 1,
            ;
        }
        proof {
            assert(-121645100408832000 <= ratio_numerator <= 121645100408832000);
        }
        let ratio_numerator_f = if ratio_numerator < 0 {
            Fr::from_u64((-ratio_numerator) as u64).neg()
        } else {
            Fr::from_u64(ratio_numerator as u64)
        };
        proof {
            lemma_signed_value(ratio_numerator as int);
            if ratio_numerator < 0 {
                vstd::arithmetic::div_mod::lemma_small_mod((0 - ratio_numerator) as nat, fr_modulus() as nat);
            } else {
                vstd::arithmetic::div_mod::lemma_small_mod(ratio_numerator as nat, fr_modulus() as nat);
            }
            assert(ratio_numerator_f@ == (ratio_numerator as int) % fr_modulus());
            vstd::arithmetic::div_mod::lemma_mul_mod_noop_right(ld as int, ratio_numerator as int, fr_modulus());
        }
        let rd_f = Fr::from_u64(ratio_denominator);
        let num = p_i[i].mul(&prod).mul(&rd_f);
        let den = last_denominator.mul(&ratio_numerator_f).mul(&evals[i]);
        proof {
            vstd::arithmetic::div_mod::lemma_small_mod(ratio_denominator as nat, fr_modulus() as nat);
            assert(fmul(ld as int, (ratio_numerator as int) % fr_modulus()) == ((ld as int) * (ratio_numerator as int)) % fr_modulus());
        }
        match den.inverse() {
            Some(inv) => {
                proof {
                    p_i[i as int].lemma_view_range();
                    lemma_interp_step(
                        ys,
                        eval_at@,
                        i as int,
                        ld as int,
                        ratio_numerator as int,
                        ratio_denominator as int,
                        den@,
                        num@,
                        inv@,
                    );
                    crate::algebra::lemma_ops_range(num@, inv@);
                    lemma_sum_front(ts, i as int, res@, fmul(num@, inv@));
                }
                res = res.add(&num.mul(&inv));
            },
            None => {
                proof {
                    lemma_ratio_identity(len as nat, i as int, ratio_denominator as int);
                    assert(interpolation_denominator(len as nat, eval_at@, i as int) == den@);
                }
                return Err(VirtualSumCheckError::VanishingDenominator);
            },
        }
        proof {
            lemma_ratio_identity(len as nat, i as int, ratio_denominator as int);
        }
        if i != 0 {
            proof {
                let m = (len - i) as nat;
                lemma_neg_factorial_abs(m);
                lemma_factorial_monotone(m, 19);
                assert(neg_factorial(m) == neg_factorial((m - 1) as nat) * (0 - m));
                lemma_factorial_step(i as nat);
                assert(ratio_denominator * i * factorial((i - 1) as nat) == ld) by (nonlinear_arith)
                    requires
                        ratio_denominator * factorial(i as nat) == ld,
                        factorial(i as nat) == i * factorial((i - 1) as nat),
                ;
                lemma_factorial_pos((i - 1) as nat);
                assert(ratio_denominator * i <= ld) by (nonlinear_arith)
                    requires
                        ratio_denominator * i * factorial((i - 1) as nat) == ld,
                        factorial((i - 1) as nat) >= 1,
                        ratio_denominator >= 0,
                        i >= 1,
                ;
            }
            ratio_numerator = ratio_numerator * (-((len as i64) - (i as i64)));
            ratio_denominator = ratio_denominator * (i as u64);
        }
        k = i;
    }
    proof {
        assert(ts.subrange(0, len as int) =~= ts);
    }
    Ok(res)
}


/// Interpolation with `u128`/`i128` ratios (21 to 33 values).
fn interp_medium(p_i: &[Fr], eval_at: Fr, prod: Fr, evals: &Vec<Fr>) -> (r: Result<Fr, VirtualSumCheckError>)
    requires
        21 <= p_i.len() <= 33,
        prod@ == node_prod(eval_at@, p_i.len() as nat),
        evals.len() == p_i.len(),
        forall|j: int| 0 <= j < p_i.len() ==> #[trigger] evals[j]@ == fsub(eval_at@, j),
    ensures
        interpolation_outcome(p_i@.map_values(|x: Fr| x@), eval_at@, r),
{
    let len = p_i.len();
    let ghost ys = p_i@.map_values(|x: Fr| x@);
    let ghost ts = lagrange_terms(ys, eval_at@);
    proof {
        lemma_factorial_32();
        lemma_factorial_monotone((len - 1) as nat, 32);
        lemma_factorial_pos((len - 1) as nat);
        eval_at.lemma_view_range();
    }
    let ld = u128_factorial(len - 1);
    let last_denominator = Fr::from_u128(ld);
    let mut ratio_numerator: i128 = 1;
    let mut ratio_denominator: u128 = 1;
    let mut res = Fr::zero();
    let mut k: usize = len;
    proof {
        assert(ts.subrange(len as int, len as int) =~= Seq::<int>::empty());
        assert(neg_factorial(0) == 1);
    }
    while k > 0
        invariant
            21 <= len <= 33,
            len == p_i.len(),
            ys == p_i@.map_values(|x: Fr| x@),
            ts == lagrange_terms(ys, eval_at@),
            0 <= eval_at@ < fr_modulus(),
            prod@ == node_prod(eval_at@, len as nat),
            evals.len() == len,
            forall|j: int| 0 <= j < len ==> #[trigger] evals[j]@ == fsub(eval_at@, j),
            ld == factorial((len - 1) as nat),
            ld <= 263130836933693530167218012160000000,
            last_denominator@ == ld,
            k <= len,
            k >= 1 ==> ratio_numerator == neg_factorial((len - k) as nat),
            k >= 1 ==> ratio_denominator * factorial((k - 1) as nat) == ld,
            res@ == seq_sum(ts.subrange(k as int, len as int)),
            forall|j: int| k <= j < len ==> #[trigger] interpolation_denominator(len as nat, eval_at@, j) != 0,
        decreases k,
    {
        let i = k - 1;
        proof {
            lemma_factorial_32();
            lemma_neg_factorial_abs((len - k) as nat);
            lemma_factorial_monotone((len - k) as nat, 32);
            lemma_factorial_pos(i as nat);
            assert(ratio_denominator <= ld) by (nonlinear_arith)
                requires
                    ratio_denominator * factorial(i as nat) == ld,
                    factorial(i as nat) >= 1,
            ;
        }
        proof {
            assert(-263130836933693530167218012160000000 <= ratio_numerator <= 263130836933693530167218012160000000);
        }
        let ratio_numerator_f = if ratio_numerator < 0 {
            Fr::from_u128((-ratio_numerator) as u128).neg()
        } else {
            Fr::from_u128(ratio_numerator as u128)
        };
        proof {
            lemma_signed_value(ratio_numerator as int);
            if ratio_numerator < 0 {
                vstd::arithmetic::div_mod::lemma_small_mod((0 - ratio_numerator) as nat, fr_modulus() as nat);
            } else {
                vstd::arithmetic::div_mod::lemma_small_mod(ratio_numerator as nat, fr_modulus() as nat);
            }
            assert(ratio_numerator_f@ == (ratio_numerator as int) % fr_modulus());
            vstd::arithmetic::div_mod::lemma_mul_mod_noop_right(ld as int, ratio_numerator as int, fr_modulus());
        }
        let rd_f = Fr::from_u128(ratio_denominator);
        let num = p_i[i].mul(&prod).mul(&rd_f);
        let den = last_denominator.mul(&ratio_numerator_f).mul(&evals[i]);
        proof {
            vstd::arithmetic::div_mod::lemma_small_mod(ratio_denominator as nat, fr_modulus() as nat);
            assert(fmul(ld as int, (ratio_numerator as int) % fr_modulus()) == ((ld as int) * (ratio_numerator as int)) % fr_modulus());
        }
        match den.inverse() {
            Some(inv) => {
                proof {
                    p_i[i as int].lemma_view_range();
                    lemma_interp_step(
                        ys,
                        eval_at@,
                        i as int,
                        ld as int,
                        ratio_numerator as int,
                        ratio_denominator as int,
                        den@,
                        num@,
                        inv@,
                    );
                    crate::algebra::lemma_ops_range(num@, inv@);
                    lemma_sum_front(ts, i as int, res@, fmul(num@, inv@));
                }
                res = res.add(&num.mul(&inv));
            },
            None => {
                proof {
                    lemma_ratio_identity(len as nat, i as int, ratio_denominator as int);
                    assert(interpolation_denominator(len as nat, eval_at@, i as int) == den@);
                }
                return Err(VirtualSumCheckError::VanishingDenominator);
            },
        }
        proof {
            lemma_ratio_identity(len as nat, i as int, ratio_denominator as int);
        }
        if i != 0 {
            proof {
                let m = (len - i) as nat;
                lemma_neg_factorial_abs(m);
                lemma_factorial_monotone(m, 32);
                assert(neg_factorial(m) == neg_factorial((m - 1) as nat) * (0 - m));
                lemma_factorial_step(i as nat);
                assert(ratio_denominator * i * factorial((i - 1) as nat) == ld) by (nonlinear_arith)
                    requires
                        ratio_denominator * factorial(i as nat) == ld,
                        factorial(i as nat) == i * factorial((i - 1) as nat),
                ;
                lemma_factorial_pos((i - 1) as nat);
                assert(ratio_denominator * i <= ld) by (nonlinear_arith)
                    requires
                        ratio_denominator * i * factorial((i - 1) as nat) == ld,
                        factorial((i - 1) as nat) >= 1,
                        ratio_denominator >= 0,
                        i >= 1,
                ;
            }
            ratio_numerator = ratio_numerator * (-((len as i128) - (i as i128)));
            ratio_denominator = ratio_denominator * (i as u128);
        }
        k = i;
    }
    proof {
        assert(ts.subrange(0, len as int) =~= ts);
    }
    Ok(res)
}


/// Interpolation with the ratios kept in the field (34 values or more).
fn interp_large(p_i: &[Fr], eval_at: Fr, prod: Fr, evals: &Vec<Fr>) -> (r: Result<Fr, VirtualSumCheckError>)
    requires
        1 <= p_i.len(),
        prod@ == node_prod(eval_at@, p_i.len() as nat),
        evals.len() == p_i.len(),
        forall|j: int| 0 <= j < p_i.len() ==> #[trigger] evals[j]@ == fsub(eval_at@, j),
    ensures
        interpolation_outcome(p_i@.map_values(|x: Fr| x@), eval_at@, r),
{
    let len = p_i.len();
    let ghost ys = p_i@.map_values(|x: Fr| x@);
    let ghost ts = lagrange_terms(ys, eval_at@);
    let ghost ld: int = factorial((len - 1) as nat) as int;
    let ghost m = fr_modulus();
    proof {
        eval_at.lemma_view_range();
    }
    let mut denom_up = field_factorial(len - 1);
    let mut denom_down = Fr::one();
    let ghost mut rn: int = 1;
    let ghost mut rd: int = 1;
    let mut res = Fr::zero();
    let mut k: usize = len;
    proof {
        assert(ts.subrange(len as int, len as int) =~= Seq::<int>::empty());
        assert(neg_factorial(0) == 1);
        assert(ld * 1 == ld);
        vstd::arithmetic::div_mod::lemma_small_mod(1, fr_modulus() as nat);
    }
    while k > 0
        invariant
            1 <= len,
            len == p_i.len(),
            ys == p_i@.map_values(|x: Fr| x@),
            ts == lagrange_terms(ys, eval_at@),
            m == fr_modulus(),
            0 <= eval_at@ < m,
            prod@ == node_prod(eval_at@, len as nat),
            evals.len() == len,
            forall|j: int| 0 <= j < len ==> #[trigger] evals[j]@ == fsub(eval_at@, j),
            ld == factorial((len - 1) as nat),
            k <= len,
            k >= 1 ==> rn == neg_factorial((len - k) as nat),
            k >= 1 ==> rd * factorial((k - 1) as nat) == ld,
            k >= 1 ==> denom_up@ == (ld * rn) % m,
            k >= 1 ==> denom_down@ == rd % m,
            res@ == seq_sum(ts.subrange(k as int, len as int)),
            forall|j: int| k <= j < len ==> #[trigger] interpolation_denominator(len as nat, eval_at@, j) != 0,
        decreases k,
    {
        let i = k - 1;
        let num = p_i[i].mul(&prod).mul(&denom_down);
        let den = denom_up.mul(&evals[i]);
        match den.inverse() {
            Some(inv) => {
                proof {
                    p_i[i as int].lemma_view_range();
                    lemma_interp_step(ys, eval_at@, i as int, ld, rn, rd, den@, num@, inv@);
                    crate::algebra::lemma_ops_range(num@, inv@);
                    lemma_sum_front(ts, i as int, res@, fmul(num@, inv@));
                }
                res = res.add(&num.mul(&inv));
            },
            None => {
                proof {
                    lemma_ratio_identity(len as nat, i as int, rd);
                    assert(interpolation_denominator(len as nat, eval_at@, i as int) == den@);
                }
                return Err(VirtualSumCheckError::VanishingDenominator);
            },
        }
        proof {
            lemma_ratio_identity(len as nat, i as int, rd);
        }
        if i != 0 {
            let step = Fr::from_u64((len - i) as u64);
            let ghost mm = (len - i) as int;
            denom_up = denom_up.mul(&step.neg());
            denom_down = denom_down.mul(&Fr::from_u64(i as u64));
            proof {
                let old_rn = rn;
                let old_rd = rd;
                vstd::arithmetic::div_mod::lemma_small_mod(mm as nat, m as nat);
                vstd::arithmetic::div_mod::lemma_small_mod(i as nat, m as nat);
                vstd::arithmetic::div_mod::lemma_mul_mod_noop(ld * old_rn, 0 - mm, m);
                vstd::arithmetic::div_mod::lemma_mul_mod_noop(old_rd, i as int, m);
                assert(ld * old_rn * (0 - mm) == ld * (old_rn * (0 - mm))) by (nonlinear_arith);
                rn = old_rn * (0 - mm);
                rd = old_rd * i;
                assert(neg_factorial(mm as nat) == neg_factorial((mm - 1) as nat) * (0 - mm));
                lemma_factorial_step(i as nat);
                assert(rd * factorial((i - 1) as nat) == ld) by (nonlinear_arith)
                    requires
                        rd == old_rd * i,
                        old_rd * factorial(i as nat) == ld,
                        factorial(i as nat) == i * factorial((i - 1) as nat),
                ;
            }
        }
        k = i;
    }
    proof {
        assert(ts.subrange(0, len as int) =~= ts);
    }
    Ok(res)
}

/// The value at `eval_at` of the polynomial of degree below `p_i.len()` that
/// takes the value `p_i[j]` at `j`, by Lagrange interpolation over the nodes
/// `0, 1, ..., p_i.len() - 1`. The nodes themselves are not accepted as
/// `eval_at` (the field element must lie past them).
pub fn interpolate_uni_poly(p_i: &[Fr], eval_at: Fr) -> (r: Result<Fr, VirtualSumCheckError>)
    requires
        1 <= p_i.len(),
        p_i.len() <= eval_at@,
    ensures
        interpolation_outcome(p_i@.map_values(|x: Fr| x@), eval_at@, r),
{
    let len = p_i.len();
    let mut evals: Vec<Fr> = Vec::new();
    let mut prod = eval_at;
    evals.push(eval_at);
    proof {
        eval_at.lemma_view_range();
        vstd::arithmetic::div_mod::lemma_small_mod(eval_at@ as nat, fr_modulus() as nat);
        assert(node_prod(eval_at@, 0) == 1);
        crate::algebra::lemma_fmul_one(eval_at@);
        assert(fsub(eval_at@, 0) == eval_at@);
        assert(node_prod(eval_at@, 1) == fmul(1, eval_at@));
        crate::algebra::lemma_fmul_comm(1, eval_at@);
    }
    let mut e: usize = 1;
    while e < len
        invariant
            1 <= e <= len,
            len == p_i.len(),
            0 <= eval_at@ < fr_modulus(),
            evals.len() == e,
            forall|j: int| 0 <= j < e ==> #[trigger] evals[j]@ == fsub(eval_at@, j),
            prod@ == node_prod(eval_at@, e as nat),
        decreases len - e,
    {
        let tmp = eval_at.sub(&Fr::from_u64(e as u64));
        proof {
            vstd::arithmetic::div_mod::lemma_small_mod(e as nat, fr_modulus() as nat);
        }
        evals.push(tmp);
        prod = prod.mul(&tmp);
        e = e + 1;
    }
    if len <= 20 {
        interp_small(p_i, eval_at, prod, &evals)
    } else if len <= 33 {
        interp_medium(p_i, eval_at, prod, &evals)
    } else {
        interp_large(p_i, eval_at, prod, &evals)
    }
}

} // verus!
