//! Multilinear polynomials given by their evaluations over the boolean
//! hypercube. Variable 0 is the most significant bit of an evaluation's index.
use crate::algebra::{lemma_fadd_assoc, lemma_fadd_comm, lemma_fadd_zero, lemma_fmul_distrib, lemma_fmul_one, lemma_fmul_zero};
use crate::field::{fadd, fmul, fr_modulus, fsub, Fr};
use crate::pow2::{lemma_div_decomp, lemma_index_bound, lemma_two_pow_adds, lemma_two_pow_div, lemma_two_pow_gt, lemma_two_pow_half, lemma_two_pow_monotone, lemma_two_pow_pos, two_pow};
use crate::univariate::{canonical, elems_bytes, elems_to_bytes};
use vstd::prelude::*;

verus! {

// ---------------------------------------------------------------------------
// Index pairing
// ---------------------------------------------------------------------------
/// The pairs `(j + delta, len/2 + j + delta)` for `j < len/2`.
pub open spec fn pairing_index(len: nat, delta: nat) -> Seq<(usize, usize)> {
    Seq::new(len / 2, |j: int| ((j + delta) as usize, (len / 2 + j + delta) as usize))
}

/// The pairs that fix variable `log` of a table of `len` entries: the table is
/// cut into `2^log` blocks, and in each block the first half is paired with the
/// second half.
pub open spec fn pairing_index_ext(len: nat, log: nat) -> Seq<(usize, usize)> {
    let h = (len / two_pow(log)) / 2;
    Seq::new(
        two_pow(log) * h,
        |t: int| (((t % h as int) + 2 * (t / h as int) * h) as usize, (h + (t % h as int) + 2 * (t
            / h as int) * h) as usize),
    )
}

/// `2^k` as a machine integer.
pub(crate) fn two_pow_exec(k: usize) -> (r: usize)
    requires
        two_pow(k as nat) <= usize::MAX,
    ensures
        r == two_pow(k as nat),
{
    let mut r: usize = 1;
    let mut i: usize = 0;
    while i < k
        invariant
            i <= k,
            r == two_pow(i as nat),
            two_pow(k as nat) <= usize::MAX,
        decreases k - i,
    {
        proof {
            lemma_two_pow_monotone((i + 1) as nat, k as nat);
        }
        r = r * 2;
        i = i + 1;
    }
    r
}

/// Returns the pairs `(j + delta, len/2 + j + delta)` for `j < len/2`.
pub fn round_pairing_index(len: usize, delta: usize) -> (r: Vec<(usize, usize)>)
    requires
        len + delta <= usize::MAX,
    ensures
        r@ == pairing_index(len as nat, delta as nat),
{
    let mut result: Vec<(usize, usize)> = Vec::new();
    let half = len / 2;
    let mut y: usize = 0;
    while y < half
        invariant
            half == len / 2,
            len + delta <= usize::MAX,
            y <= half,
            result@ =~= pairing_index(len as nat, delta as nat).subrange(0, y as int),
        decreases half - y,
    {
        result.push((y + delta, half + y + delta));
        y = y + 1;
    }
    proof {
        assert(pairing_index(len as nat, delta as nat).subrange(0, half as int) =~= pairing_index(
            len as nat,
            delta as nat,
        ));
    }
    result
}

/// Returns the pairs of [`pairing_index_ext`]: for each of the `2^log_iterations`
/// blocks of `len / 2^log_iterations` entries, the first half paired with the
/// second half.
pub fn round_pairing_index_ext(len: usize, log_iterations: usize) -> (r: Vec<(usize, usize)>)
    requires
        two_pow(log_iterations as nat) <= usize::MAX,
    ensures
        r@ == pairing_index_ext(len as nat, log_iterations as nat),
{
    let iterations = two_pow_exec(log_iterations);
    proof {
        lemma_two_pow_pos(log_iterations as nat);
    }
    let block = len / iterations;
    let h = block / 2;
    let ghost spec_pairs = pairing_index_ext(len as nat, log_iterations as nat);
    proof {
        assert(iterations * block <= len) by (nonlinear_arith)
            requires
                block == len / iterations,
                iterations > 0,
        {
            vstd::arithmetic::div_mod::lemma_fundamental_div_mod(len as int, iterations as int);
        }
        assert(2 * h <= block);
    }
    let mut result: Vec<(usize, usize)> = Vec::new();
    let mut i: usize = 0;
    while i < iterations
        invariant
            iterations == two_pow(log_iterations as nat),
            iterations > 0,
            block == len / iterations,
            h == block / 2,
            iterations * block <= len,
            2 * h <= block,
            spec_pairs == pairing_index_ext(len as nat, log_iterations as nat),
            spec_pairs.len() == iterations * h,
            i <= iterations,
            result.len() == i * h,
            forall|t: int| 0 <= t < result.len() ==> #[trigger] result[t] == spec_pairs[t],
        decreases iterations - i,
    {
        proof {
            assert(i * h + h <= iterations * h) by (nonlinear_arith)
                requires
                    i < iterations,
            ;
            assert(2 * i * h + block <= len) by (nonlinear_arith)
                requires
                    i < iterations,
                    iterations * block <= len,
                    2 * h <= block,
            ;
            assert(i * h * 2 == 2 * i * h) by (nonlinear_arith);
        }
        let round = round_pairing_index(block, result.len() * 2);
        let mut j: usize = 0;
        let ghost base = result.len();
        while j < round.len()
            invariant
                round@ == pairing_index(block as nat, (i * h * 2) as nat),
                base == i * h,
                round.len() == h,
                j <= round.len(),
                result.len() == base + j,
                h == block / 2,
                i < iterations,
                spec_pairs == pairing_index_ext(len as nat, log_iterations as nat),
                spec_pairs.len() == iterations * h,
                base + h <= iterations * h,
                i * h * 2 == 2 * i * h,
                iterations == two_pow(log_iterations as nat),
                block == len / iterations,
                forall|t: int| 0 <= t < result.len() ==> #[trigger] result[t] == spec_pairs[t],
            decreases round.len() - j,
        {
            result.push(round[j]);
            proof {
                let t = base + j;
                lemma_div_decomp(i as int, j as int, h as int);
                lemma_index_bound(i as int, j as int, h as int, iterations as int);
                assert(t == i * h + j);
                assert(t / (h as int) == i);
                assert(t % (h as int) == j);
                assert(result[t as int] == spec_pairs[t as int]);
            }
            j = j + 1;
        }
        proof {
            assert((i + 1) * h == i * h + h) by (nonlinear_arith);
        }
        i = i + 1;
    }
    proof {
        assert(result@ =~= spec_pairs);
    }
    result
}

// ---------------------------------------------------------------------------
// Specifications
// ---------------------------------------------------------------------------
/// `x * y_2 + (1 - x) * y_1`: the line through `(0, y_1)` and `(1, y_2)` at `x`.
pub open spec fn ml_lerp(x: int, y1: int, y2: int) -> int {
    fadd(fmul(x, y2), fmul(fsub(1, x), y1))
}

/// Fixing the first variable at `r`.
pub open spec fn fold_first(e: Seq<int>, r: int) -> Seq<int> {
    Seq::new(e.len() / 2, |j: int| ml_lerp(r, e[j], e[j + e.len() / 2]))
}

/// Fixing the first variables at the coordinates of `point`, one after the other.
pub open spec fn fold_all(e: Seq<int>, point: Seq<int>) -> Seq<int>
    decreases point.len(),
{
    if point.len() == 0 {
        e
    } else {
        fold_all(fold_first(e, point[0]), point.drop_first())
    }
}

/// Fixing variable `k` at `r`.
pub open spec fn partial_eval_seq(e: Seq<int>, k: nat, r: int) -> Seq<int> {
    let p = pairing_index_ext(e.len(), k);
    Seq::new(p.len(), |t: int| ml_lerp(r, e[p[t].0 as int], e[p[t].1 as int]))
}

/// Fixing variable `idx[0]` at `points[0]`, then `idx[1]` of the result at
/// `points[1]`, and so on.
pub open spec fn partial_evals_seq(e: Seq<int>, points: Seq<int>, idx: Seq<usize>) -> Seq<int>
    decreases points.len(),
{
    if points.len() == 0 {
        e
    } else {
        partial_evals_seq(
            partial_eval_seq(e, idx[0] as nat, points[0]),
            points.drop_first(),
            idx.drop_first(),
        )
    }
}

/// The indices can be fixed one after the other in a polynomial of `n` variables.
pub open spec fn valid_indices(n: nat, idx: Seq<usize>) -> bool {
    &&& idx.len() <= n
    &&& forall|i: int| 0 <= i < idx.len() ==> #[trigger] idx[i] < n - i
}

/// The value at `point`; `None` when the point has no coordinates.
pub open spec fn ml_evaluate(e: Seq<int>, point: Seq<int>) -> Option<int> {
    if point.len() == 0 {
        None
    } else {
        Some(fold_all(e, point)[0])
    }
}

/// The hypercube index of a vector of bits (the first bit is the most significant).
pub open spec fn bits_index(bits: Seq<int>) -> nat
    decreases bits.len(),
{
    if bits.len() == 0 {
        0
    } else {
        (bits[0] * two_pow((bits.len() - 1) as nat) + bits_index(bits.drop_first())) as nat
    }
}

/// Every coordinate is 0 or 1.
pub open spec fn is_boolean(bits: Seq<int>) -> bool {
    forall|i: int| 0 <= i < bits.len() ==> #[trigger] bits[i] == 0 || bits[i] == 1
}

/// Entry-wise sum.
pub open spec fn pointwise_add(a: Seq<int>, b: Seq<int>) -> Seq<int> {
    Seq::new(a.len(), |i: int| fadd(a[i], b[i]))
}

/// Each entry of `e` repeated `rep` times.
pub open spec fn repeat_each(e: Seq<int>, rep: nat) -> Seq<int> {
    Seq::new(e.len() * rep, |t: int| e[t / rep as int])
}

/// `f(x) + g(y)` over the hypercube of `(x, y)`.
pub open spec fn distinct_sum(a: Seq<int>, b: Seq<int>) -> Seq<int> {
    Seq::new(a.len() * b.len(), |t: int| fadd(a[t / b.len() as int], b[t % b.len() as int]))
}

/// `f(x) * g(y)` over the hypercube of `(x, y)`.
pub open spec fn distinct_product(a: Seq<int>, b: Seq<int>) -> Seq<int> {
    Seq::new(a.len() * b.len(), |t: int| fmul(a[t / b.len() as int], b[t % b.len() as int]))
}

/// `k` is the least number of variables with `2^k >= n`.
pub open spec fn least_vars(n: nat, k: nat) -> bool {
    &&& n <= two_pow(k)
    &&& (k == 0 || two_pow((k - 1) as nat) < n)
}

/// All entries are zero.
pub open spec fn all_zero(e: Seq<int>) -> bool {
    forall|i: int| 0 <= i < e.len() ==> #[trigger] e[i] == 0
}

// ---------------------------------------------------------------------------
// Lemmas
// ---------------------------------------------------------------------------
/// Fixing variable 0 pairs each entry of the first half with the entry half a
/// table further.
pub proof fn lemma_partial_eval_first(e: Seq<int>, n: nat, r: int)
    requires
        e.len() == two_pow(n),
        e.len() <= usize::MAX,
        n > 0,
    ensures
        partial_eval_seq(e, 0, r) == fold_first(e, r),
        fold_first(e, r).len() == two_pow((n - 1) as nat),
{
    lemma_two_pow_half(n);
    let h = (e.len() / two_pow(0)) / 2;
    assert(two_pow(0) == 1);
    assert(h == e.len() / 2);
    let p = pairing_index_ext(e.len(), 0);
    assert(p.len() == h);
    assert forall|t: int| 0 <= t < h implies (#[trigger] p[t]).0 as int == t && p[t].1 as int == h
        + t by {
        lemma_div_decomp(0, t, h as int);
        assert(0 * h + t == t);
        assert(t / (h as int) == 0);
        assert(t % (h as int) == t);
    }
    let a = partial_eval_seq(e, 0, r);
    let b = fold_first(e, r);
    assert forall|t: int| 0 <= t < h implies #[trigger] a[t] == b[t] by {
        assert(p[t].0 as int == t);
    }
    assert(a =~= b);
}

/// Shape of the pairs for a table of `2^n` entries and a variable `k < n`.
pub proof fn lemma_pairing_shape(n: nat, k: nat)
    requires
        k < n,
    ensures
        pairing_index_ext(two_pow(n), k).len() == two_pow((n - 1) as nat),
        forall|t: int|
            0 <= t < two_pow((n - 1) as nat) ==> (#[trigger] pairing_index_ext(two_pow(n), k)[t]).0
                < two_pow(n) && pairing_index_ext(two_pow(n), k)[t].1 < two_pow(n),
{
    let it = two_pow(k);
    let block = two_pow((n - k) as nat);
    let h = two_pow((n - k - 1) as nat);
    lemma_two_pow_div(k, n);
    lemma_two_pow_half((n - k) as nat);
    lemma_two_pow_adds(k, (n - k - 1) as nat);
    lemma_two_pow_adds(k, (n - k) as nat);
    lemma_two_pow_pos((n - k - 1) as nat);
    assert(two_pow(n) / it == block);
    assert(block / 2 == h);
    assert(block == 2 * h);
    assert(two_pow(n) == it * block);
    assert(it * h == two_pow((n - 1) as nat)) by {
        assert((k + (n - k - 1)) as nat == (n - 1) as nat);
    }
    let p = pairing_index_ext(two_pow(n), k);
    assert forall|t: int| 0 <= t < two_pow((n - 1) as nat) implies (#[trigger] p[t]).0 < two_pow(n)
        && p[t].1 < two_pow(n) by {
        vstd::arithmetic::div_mod::lemma_fundamental_div_mod(t, h as int);
        let i = t / (h as int);
        let j = t % (h as int);
        assert(0 <= j < h);
        assert(0 <= i < it) by (nonlinear_arith)
            requires
                t == h * i + j,
                0 <= j < h,
                0 <= t < it * h,
                h > 0,
        ;
        assert(h + j + 2 * i * h < it * block) by (nonlinear_arith)
            requires
                0 <= i < it,
                0 <= j < h,
                block == 2 * h,
        ;
        assert(j + 2 * i * h >= 0) by (nonlinear_arith)
            requires
                0 <= i,
                0 <= j,
                h > 0,
        ;
    }
}

/// Fixing one more coordinate at the end.
pub proof fn lemma_fold_all_push(e: Seq<int>, q: Seq<int>, r: int)
    ensures
        fold_all(e, q.push(r)) == fold_first(fold_all(e, q), r),
    decreases q.len(),
{
    if q.len() == 0 {
        assert(q.push(r).drop_first() =~= Seq::<int>::empty());
        assert(q.push(r)[0] == r);
        assert(fold_all(fold_first(e, r), Seq::<int>::empty()) == fold_first(e, r));
        assert(fold_all(e, q) == e);
    } else {
        assert(q.push(r).drop_first() =~= q.drop_first().push(r));
        assert(q.push(r)[0] == q[0]);
        lemma_fold_all_push(fold_first(e, q[0]), q.drop_first(), r);
    }
}

/// Fixing a variable of a table of `2^n` entries leaves `2^(n-1)` entries.
pub proof fn lemma_fold_all_len(e: Seq<int>, n: nat, point: Seq<int>)
    requires
        e.len() == two_pow(n),
        point.len() <= n,
    ensures
        fold_all(e, point).len() == two_pow((n - point.len()) as nat),
    decreases point.len(),
{
    if point.len() > 0 {
        lemma_two_pow_half(n);
        lemma_fold_all_len(fold_first(e, point[0]), (n - 1) as nat, point.drop_first());
    }
}

pub proof fn lemma_lerp_bool(r: int, y1: int, y2: int)
    requires
        0 <= y1 < fr_modulus(),
        0 <= y2 < fr_modulus(),
        r == 0 || r == 1,
    ensures
        ml_lerp(r, y1, y2) == (if r == 0 {
            y1
        } else {
            y2
        }),
{
    lemma_fmul_one(y1);
    lemma_fmul_one(y2);
    lemma_fmul_zero(y1);
    lemma_fmul_zero(y2);
    lemma_fadd_zero(y1);
    lemma_fadd_zero(y2);
    vstd::arithmetic::div_mod::lemma_small_mod(1, fr_modulus() as nat);
    vstd::arithmetic::div_mod::lemma_small_mod(0, fr_modulus() as nat);
}

/// On the boolean hypercube the polynomial takes the tabulated values.
pub proof fn lemma_eval_on_hypercube(e: Seq<int>, n: nat, bits: Seq<int>)
    requires
        e.len() == two_pow(n),
        canonical(e),
        bits.len() == n,
        is_boolean(bits),
    ensures
        bits_index(bits) < e.len(),
        fold_all(e, bits)[0] == e[bits_index(bits) as int],
    decreases n,
{
    if n == 0 {
        return;
    }
    lemma_two_pow_half(n);
    let h = two_pow((n - 1) as nat);
    let b0 = bits[0];
    let f = fold_first(e, b0);
    let half = if b0 == 0 {
        e.subrange(0, h as int)
    } else {
        e.subrange(h as int, e.len() as int)
    };
    assert forall|j: int| 0 <= j < h implies #[trigger] f[j] == half[j] by {
        lemma_lerp_bool(b0, e[j], e[j + h]);
    }
    assert(f =~= half);
    assert(is_boolean(bits.drop_first()));
    lemma_eval_on_hypercube(half, (n - 1) as nat, bits.drop_first());
    let ri = bits_index(bits.drop_first());
    assert(bits_index(bits) == b0 * h + ri);
}

proof fn lemma_fadd_swap4(a: int, b: int, c: int, d: int)
    ensures
        fadd(fadd(a, b), fadd(c, d)) == fadd(fadd(a, c), fadd(b, d)),
{
    lemma_fadd_assoc(fadd(a, b), c, d);
    lemma_fadd_assoc(a, b, c);
    lemma_fadd_comm(b, c);
    lemma_fadd_assoc(a, c, b);
    lemma_fadd_assoc(fadd(a, c), b, d);
}

/// The line through a sum of points is the sum of the lines.
pub proof fn lemma_lerp_add(r: int, a1: int, a2: int, b1: int, b2: int)
    ensures
        ml_lerp(r, fadd(a1, b1), fadd(a2, b2)) == fadd(ml_lerp(r, a1, a2), ml_lerp(r, b1, b2)),
{
    let s = fsub(1, r);
    lemma_fmul_distrib(r, a2, b2);
    lemma_fmul_distrib(s, a1, b1);
    lemma_fadd_swap4(fmul(r, a2), fmul(r, b2), fmul(s, a1), fmul(s, b1));
}

/// Evaluation is additive.
pub proof fn lemma_fold_all_add(a: Seq<int>, b: Seq<int>, point: Seq<int>)
    requires
        a.len() == b.len(),
    ensures
        fold_all(pointwise_add(a, b), point) == pointwise_add(fold_all(a, point), fold_all(b, point)),
        fold_all(a, point).len() == fold_all(b, point).len(),
    decreases point.len(),
{
    if point.len() == 0 {
        return;
    }
    let r = point[0];
    let fa = fold_first(a, r);
    let fb = fold_first(b, r);
    assert forall|j: int| 0 <= j < fa.len() implies #[trigger] fold_first(pointwise_add(a, b), r)[j]
        == pointwise_add(fa, fb)[j] by {
        lemma_lerp_add(r, a[j], a[j + a.len() / 2], b[j], b[j + b.len() / 2]);
    }
    assert(fold_first(pointwise_add(a, b), r) =~= pointwise_add(fa, fb));
    lemma_fold_all_add(fa, fb, point.drop_first());
}

/// The value of a sum of polynomials is the sum of their values.
pub proof fn lemma_evaluate_add(a: Seq<int>, b: Seq<int>, n: nat, point: Seq<int>)
    requires
        a.len() == two_pow(n),
        b.len() == two_pow(n),
        0 < point.len() <= n,
    ensures
        ml_evaluate(pointwise_add(a, b), point) == Some(
            fadd(ml_evaluate(a, point).unwrap(), ml_evaluate(b, point).unwrap()),
        ),
{
    lemma_fold_all_add(a, b, point);
    lemma_fold_all_len(a, n, point);
    lemma_two_pow_pos((n - point.len()) as nat);
}

// ---------------------------------------------------------------------------
// Executable multilinear polynomials
// ---------------------------------------------------------------------------
/// The line through two equal canonical values is constant.
proof fn lemma_lerp_const(r: int, c: int)
    requires
        0 <= c < fr_modulus(),
    ensures
        ml_lerp(r, c, c) == c,
{
    crate::algebra::lemma_lerp(r, c, c);
    lemma_fmul_zero(r);
    lemma_fadd_zero(c);
}

/// `c + b`, entry by entry.
pub open spec fn add_const(c: int, b: Seq<int>) -> Seq<int> {
    Seq::new(b.len(), |t: int| fadd(c, b[t]))
}

/// Fixing the first variables of `x` in `f(x) + g(y)` fixes them in `f`.
proof fn lemma_fold_first_distinct_sum(a: Seq<int>, b: Seq<int>, r: int)
    requires
        a.len() >= 2,
        a.len() % 2 == 0,
        b.len() >= 1,
        canonical(b),
    ensures
        fold_first(distinct_sum(a, b), r) == distinct_sum(fold_first(a, r), b),
{
    let bl = b.len() as int;
    let ha = (a.len() / 2) as int;
    let d = distinct_sum(a, b);
    assert(d.len() / 2 == ha * bl) by (nonlinear_arith)
        requires
            d.len() == a.len() * bl,
            a.len() == 2 * ha,
    ;
    let lhs = fold_first(d, r);
    let rhs = distinct_sum(fold_first(a, r), b);
    assert(rhs.len() == ha * bl);
    assert forall|t: int| 0 <= t < ha * bl implies #[trigger] lhs[t] == rhs[t] by {
        let i = t / bl;
        let j = t % bl;
        vstd::arithmetic::div_mod::lemma_fundamental_div_mod(t, bl);
        vstd::arithmetic::div_mod::lemma_mod_pos_bound(t, bl);
        assert((i + ha) * bl + j == t + ha * bl) by (nonlinear_arith)
            requires
                t == bl * i + j,
        ;
        vstd::arithmetic::div_mod::lemma_fundamental_div_mod_converse(t + ha * bl, bl, i + ha, j);
        assert(0 <= i < ha) by (nonlinear_arith)
            requires
                t == bl * i + j,
                0 <= j < bl,
                0 <= t < ha * bl,
                bl >= 1,
        ;
        crate::multilinear::lemma_lerp_add(r, a[i], a[i + ha], b[j], b[j]);
        lemma_lerp_const(r, b[j]);
    }
    assert(lhs =~= rhs);
}

/// Fixing all the variables of `x` in `f(x) + g(y)` leaves `f`'s value plus `g`.
proof fn lemma_fold_all_distinct_sum(a: Seq<int>, b: Seq<int>, n: nat, p: Seq<int>)
    requires
        a.len() == two_pow(n),
        p.len() <= n,
        b.len() >= 1,
        canonical(b),
    ensures
        fold_all(distinct_sum(a, b), p) == distinct_sum(fold_all(a, p), b),
    decreases p.len(),
{
    if p.len() > 0 {
        lemma_two_pow_half(n);
        lemma_two_pow_pos((n - 1) as nat);
        lemma_fold_first_distinct_sum(a, b, p[0]);
        lemma_fold_all_distinct_sum(fold_first(a, p[0]), b, (n - 1) as nat, p.drop_first());
    }
}

/// Fixing variables of `c + g` fixes them in `g`.
proof fn lemma_fold_all_add_const(c: int, b: Seq<int>, q: Seq<int>)
    requires
        0 <= c < fr_modulus(),
    ensures
        fold_all(add_const(c, b), q) == add_const(c, fold_all(b, q)),
    decreases q.len(),
{
    if q.len() > 0 {
        let r = q[0];
        let fb = fold_first(b, r);
        assert forall|j: int| 0 <= j < fb.len() implies #[trigger] fold_first(add_const(c, b), r)[j]
            == add_const(c, fb)[j] by {
            lemma_lerp_add(r, c, c, b[j], b[j + b.len() / 2]);
            lemma_lerp_const(r, c);
        }
        assert(fold_first(add_const(c, b), r) =~= add_const(c, fb));
        lemma_fold_all_add_const(c, fb, q.drop_first());
    }
}

/// Once a variable is fixed, every entry is canonical.
proof fn lemma_fold_all_canonical(e: Seq<int>, p: Seq<int>)
    requires
        p.len() >= 1,
    ensures
        canonical(fold_all(e, p)),
    decreases p.len(),
{
    let f = fold_first(e, p[0]);
    assert forall|j: int| 0 <= j < f.len() implies 0 <= #[trigger] f[j] < fr_modulus() by {
        crate::algebra::lemma_ops_range(
            fmul(p[0], e[j + e.len() / 2]),
            fmul(fsub(1, p[0]), e[j]),
        );
    }
    assert(canonical(f));
    if p.len() > 1 {
        lemma_fold_all_canonical(f, p.drop_first());
    } else {
        assert(p.drop_first() =~= Seq::<int>::empty());
        assert(fold_all(f, p.drop_first()) == f);
    }
}

/// Fixing the coordinates of `p` and then those of `q`.
proof fn lemma_fold_all_concat(e: Seq<int>, p: Seq<int>, q: Seq<int>)
    ensures
        fold_all(e, p + q) == fold_all(fold_all(e, p), q),
    decreases p.len(),
{
    if p.len() == 0 {
        assert(p + q =~= q);
    } else {
        assert((p + q).drop_first() =~= p.drop_first() + q);
        assert((p + q)[0] == p[0]);
        lemma_fold_all_concat(fold_first(e, p[0]), p.drop_first(), q);
    }
}

/// The value of `f(x) + g(y)` at `(p, q)` is `f(p) + g(q)`: what `add_distinct`
/// builds, seen through evaluation.
pub proof fn lemma_evaluate_distinct_sum(a: Seq<int>, b: Seq<int>, n: nat, m: nat, p: Seq<int>, q: Seq<int>)
    requires
        n >= 1,
        m >= 1,
        a.len() == two_pow(n),
        b.len() == two_pow(m),
        canonical(b),
        p.len() == n,
        q.len() == m,
    ensures
        ml_evaluate(distinct_sum(a, b), p + q) == Some(
            fadd(ml_evaluate(a, p).unwrap(), ml_evaluate(b, q).unwrap()),
        ),
{
    lemma_two_pow_pos(m);
    lemma_fold_all_concat(distinct_sum(a, b), p, q);
    lemma_fold_all_distinct_sum(a, b, n, p);
    let ap = fold_all(a, p);
    lemma_fold_all_len(a, n, p);
    assert(two_pow(0) == 1);
    assert(ap.len() == 1);
    let c = ap[0];
    assert(p[0] == p[0]);
    lemma_fold_all_canonical(a, p);
    assert(ap.len() * b.len() == b.len()) by (nonlinear_arith)
        requires
            ap.len() == 1,
    ;
    assert(distinct_sum(ap, b).len() == b.len());
    assert forall|t: int| 0 <= t < b.len() implies #[trigger] distinct_sum(ap, b)[t] == add_const(
        c,
        b,
    )[t] by {
        vstd::arithmetic::div_mod::lemma_fundamental_div_mod_converse(t, b.len() as int, 0, t);
    }
    assert(distinct_sum(ap, b) =~= add_const(c, b));
    lemma_fold_all_add_const(c, b, q);
    lemma_fold_all_len(b, m, q);
}

/// The line at `x` through two reduced values is the reduced line through
/// the unreduced ones.
proof fn lemma_lerp_of_mods(x: int, u: int, v: int)
    ensures
        ml_lerp(x, u % fr_modulus(), v % fr_modulus()) == (x * v + (1 - x) * u) % fr_modulus(),
{
    let m = fr_modulus();
    vstd::arithmetic::div_mod::lemma_mul_mod_noop_right(x, v, m);
    vstd::arithmetic::div_mod::lemma_mul_mod_noop_left(1 - x, u % m, m);
    vstd::arithmetic::div_mod::lemma_mul_mod_noop_right(1 - x, u, m);
    vstd::arithmetic::div_mod::lemma_add_mod_noop(x * v, (1 - x) * u, m);
    vstd::arithmetic::div_mod::lemma_mul_mod_noop_left(1 - x, u % m, m);
    assert(fsub(1, x) == (1 - x) % m);
    assert(fmul(fsub(1, x), u % m) == ((1 - x) * (u % m)) % m);
}

/// Fixing two variables at `x` and `y` in either order gives the same value.
proof fn lemma_lerp_commute(x: int, y: int, a: int, b: int, c: int, d: int)
    requires
        0 <= a < fr_modulus(),
        0 <= b < fr_modulus(),
        0 <= c < fr_modulus(),
        0 <= d < fr_modulus(),
    ensures
        ml_lerp(x, ml_lerp(y, a, b), ml_lerp(y, c, d)) == ml_lerp(
            y,
            ml_lerp(x, a, c),
            ml_lerp(x, b, d),
        ),
{
    let m = fr_modulus();
    vstd::arithmetic::div_mod::lemma_small_mod(a as nat, m as nat);
    vstd::arithmetic::div_mod::lemma_small_mod(b as nat, m as nat);
    vstd::arithmetic::div_mod::lemma_small_mod(c as nat, m as nat);
    vstd::arithmetic::div_mod::lemma_small_mod(d as nat, m as nat);
    lemma_lerp_of_mods(y, a, b);
    lemma_lerp_of_mods(y, c, d);
    lemma_lerp_of_mods(x, a, c);
    lemma_lerp_of_mods(x, b, d);
    let u1 = y * b + (1 - y) * a;
    let v1 = y * d + (1 - y) * c;
    let u2 = x * c + (1 - x) * a;
    let v2 = x * d + (1 - x) * b;
    lemma_lerp_of_mods(x, u1, v1);
    lemma_lerp_of_mods(y, u2, v2);
    assert(x * v1 + (1 - x) * u1 == y * v2 + (1 - y) * u2) by (nonlinear_arith)
        requires
            u1 == y * b + (1 - y) * a,
            v1 == y * d + (1 - y) * c,
            u2 == x * c + (1 - x) * a,
            v2 == x * d + (1 - x) * b,
    ;
}

/// Fixing the first variable commutes with fixing variable `k >= 1` (which
/// becomes variable `k - 1`).
proof fn lemma_fold_first_partial_eval(e: Seq<int>, n: nat, k: nat, x: int, r: int)
    requires
        e.len() == two_pow(n),
        e.len() <= usize::MAX,
        canonical(e),
        1 <= k < n,
    ensures
        fold_first(partial_eval_seq(e, k, r), x) == partial_eval_seq(fold_first(e, x), (k - 1) as nat, r),
{
    let len = e.len();
    let hh = two_pow((n - 1) as nat);
    let h = two_pow((n - k - 1) as nat);
    let ik = two_pow(k);
    let ik1 = two_pow((k - 1) as nat);
    lemma_two_pow_half(n);
    lemma_two_pow_half(k);
    lemma_two_pow_pos((n - k - 1) as nat);
    lemma_two_pow_adds(k, (n - k - 1) as nat);
    lemma_two_pow_adds((k - 1) as nat, (n - k - 1) as nat);
    lemma_two_pow_adds(k, (n - k) as nat);
    lemma_two_pow_div(k, n);
    lemma_two_pow_div((k - 1) as nat, (n - 1) as nat);
    lemma_two_pow_half((n - k) as nat);
    assert(((k - 1) + (n - k - 1)) as nat == (n - 2) as nat);
    assert((k + (n - k - 1)) as nat == (n - 1) as nat);
    assert(ik == 2 * ik1);
    assert(hh == ik * h);
    assert(len == 2 * hh);
    assert(len / ik == 2 * h);
    assert(hh / ik1 == 2 * h);
    let p = partial_eval_seq(e, k, r);
    let f = fold_first(e, x);
    let pe = pairing_index_ext(len, k);
    let pf = pairing_index_ext(hh, (k - 1) as nat);
    assert((len / ik) / 2 == h);
    assert((hh / ik1) / 2 == h);
    assert(p.len() == ik * h);
    assert(f.len() == hh);
    let lhs = fold_first(p, x);
    let rhs = partial_eval_seq(f, (k - 1) as nat, r);
    assert(rhs.len() == ik1 * h);
    assert(ik * h / 2 == ik1 * h) by (nonlinear_arith)
        requires
            ik == 2 * ik1,
    ;
    assert forall|t: int| 0 <= t < ik1 * h implies #[trigger] lhs[t] == rhs[t] by {
        let i = t / (h as int);
        let j = t % (h as int);
        vstd::arithmetic::div_mod::lemma_fundamental_div_mod(t, h as int);
        vstd::arithmetic::div_mod::lemma_mod_pos_bound(t, h as int);
        assert(0 <= i < ik1) by (nonlinear_arith)
            requires
                t == h * i + j,
                0 <= j < h,
                0 <= t < ik1 * h,
                h > 0,
        ;
        let t2 = t + ik1 * h;
        assert(t2 == (i + ik1) * h + j) by (nonlinear_arith)
            requires
                t == h * i + j,
                t2 == t + ik1 * h,
        ;
        vstd::arithmetic::div_mod::lemma_fundamental_div_mod_converse(t2, h as int, i + ik1, j);
        let a = j + 2 * i * h;
        assert(2 * (i + ik1) * h == 2 * i * h + hh) by (nonlinear_arith)
            requires
                hh == ik * h,
                ik == 2 * ik1,
        ;
        assert(a + h + hh < len) by (nonlinear_arith)
            requires
                a == j + 2 * i * h,
                0 <= i < ik1,
                0 <= j < h,
                hh == ik * h,
                ik == 2 * ik1,
                len == 2 * hh,
        ;
        assert(0 <= a) by (nonlinear_arith)
            requires
                a == j + 2 * i * h,
                0 <= i,
                0 <= j,
                h > 0,
        ;
        assert(pe[t].0 as int == a);
        assert(pe[t].1 as int == a + h);
        assert(pe[t2].0 as int == a + hh);
        assert(pe[t2].1 as int == a + hh + h);
        assert(pf[t].0 as int == a);
        assert(pf[t].1 as int == a + h);
        assert(lhs[t] == ml_lerp(x, p[t], p[t + p.len() / 2]));
        assert(p.len() / 2 == ik1 * h);
        assert(f[a] == ml_lerp(x, e[a], e[a + hh]));
        assert(f[a + h] == ml_lerp(x, e[a + h], e[a + h + hh]));
        lemma_lerp_commute(x, r, e[a], e[a + h], e[a + hh], e[a + hh + h]);
    }
    assert(lhs =~= rhs);
}

/// `q` with `r` put in at position `k`.
pub open spec fn insert_at(q: Seq<int>, k: nat, r: int) -> Seq<int> {
    q.take(k as int) + seq![r] + q.skip(k as int)
}

/// Fixing any variable `k` at `r` and then evaluating at `q` is evaluating at
/// `q` with `r` put in at position `k` (variable 0 being the most significant
/// index bit): what `partial_evaluation` does, seen through `evaluate`.
pub proof fn lemma_partial_eval_then_fold(e: Seq<int>, n: nat, k: nat, r: int, q: Seq<int>)
    requires
        e.len() == two_pow(n),
        e.len() <= usize::MAX,
        canonical(e),
        k < n,
        q.len() == n - 1,
    ensures
        fold_all(partial_eval_seq(e, k, r), q) == fold_all(e, insert_at(q, k, r)),
    decreases k,
{
    if k == 0 {
        lemma_partial_eval_first(e, n, r);
        let ins = insert_at(q, 0, r);
        assert(ins =~= seq![r] + q);
        assert(ins[0] == r);
        assert(ins.drop_first() =~= q);
    } else {
        let x = q[0];
        let f = fold_first(e, x);
        lemma_two_pow_half(n);
        lemma_fold_first_partial_eval(e, n, k, x, r);
        assert(canonical(f)) by {
            assert forall|j: int| 0 <= j < f.len() implies 0 <= #[trigger] f[j] < fr_modulus() by {
                crate::algebra::lemma_ops_range(fmul(x, e[j + e.len() / 2]), fmul(fsub(1, x), e[j]));
            }
        }
        lemma_partial_eval_then_fold(f, (n - 1) as nat, (k - 1) as nat, r, q.drop_first());
        let ins = insert_at(q, k, r);
        assert(ins[0] == x);
        assert(ins.drop_first() =~= insert_at(q.drop_first(), (k - 1) as nat, r));
        lemma_two_pow_pos((n - 1) as nat);
        assert(partial_eval_seq(e, k, r).len() > 0) by {
            lemma_pairing_shape(n, k);
        }
    }
}

/// `evaluate` after `partial_evaluation` at any variable.
pub proof fn lemma_partial_eval_then_evaluate(e: Seq<int>, n: nat, k: nat, r: int, q: Seq<int>)
    requires
        e.len() == two_pow(n),
        e.len() <= usize::MAX,
        canonical(e),
        k < n,
        q.len() == n - 1,
        q.len() >= 1,
    ensures
        ml_evaluate(partial_eval_seq(e, k, r), q) == ml_evaluate(e, insert_at(q, k, r)),
{
    lemma_partial_eval_then_fold(e, n, k, r, q);
}

/// `x * y_2 + (1 - x) * y_1`.
pub fn multilinear_evalutation_equation(x: &Fr, y_1: &Fr, y_2: &Fr) -> (r: Fr)
    ensures
        r@ == ml_lerp(x@, y_1@, y_2@),
{
    let one = Fr::one();
    let a = x.mul(y_2);
    let b = one.sub(x).mul(y_1);
    a.add(&b)
}

/// A copy of a vector of field elements.
pub fn copy_elems(v: &Vec<Fr>) -> (r: Vec<Fr>)
    ensures
        r@ == v@,
{
    let mut r: Vec<Fr> = Vec::new();
    let mut i: usize = 0;
    while i < v.len()
        invariant
            i <= v.len(),
            r@ =~= v@.subrange(0, i as int),
        decreases v.len() - i,
    {
        r.push(v[i]);
        i = i + 1;
    }
    proof {
        assert(v@.subrange(0, v.len() as int) =~= v@);
    }
    r
}

/// A multilinear polynomial over the field.
#[derive(Debug, PartialEq, Eq)]
pub struct Multilinear {
    /// The number of variables in the polynomial.
    pub num_vars: usize,
    /// The evaluations of the polynomial at the different points.
    pub evaluations: Vec<Fr>,
}

impl Multilinear {
    /// The evaluation table has `2^num_vars` entries.
    pub open spec fn wf(&self) -> bool {
        self.evaluations.len() == two_pow(self.num_vars as nat)
    }

    /// The evaluation values.
    pub open spec fn evals(&self) -> Seq<int> {
        self.evaluations.deep_view()
    }

    /// Creates a polynomial from its evaluations; there must be `2^num_vars` of them.
    pub fn new(evaluations: Vec<Fr>, num_vars: usize) -> (r: Self)
        requires
            evaluations.len() == two_pow(num_vars as nat),
        ensures
            r.wf(),
            r.num_vars == num_vars,
            r.evaluations@ == evaluations@,
    {
        Multilinear { num_vars, evaluations }
    }

    /// A copy of this polynomial.
    pub fn clone(&self) -> (r: Self)
        ensures
            r.num_vars == self.num_vars,
            r.evaluations@ == self.evaluations@,
    {
        Multilinear { num_vars: self.num_vars, evaluations: copy_elems(&self.evaluations) }
    }

    /// The additive identity with `num_vars` variables.
    pub fn zero(num_vars: usize) -> (r: Self)
        requires
            two_pow(num_vars as nat) <= usize::MAX,
        ensures
            r.wf(),
            r.num_vars == num_vars,
            all_zero(r.evals()),
    {
        let n = two_pow_exec(num_vars);
        let evaluations = vec![Fr::zero(); n];
        Multilinear { num_vars, evaluations }
    }

    /// The additive identity with as many variables as `self`.
    pub fn self_zero(&self) -> (r: Self)
        requires
            self.wf(),
        ensures
            r.wf(),
            r.num_vars == self.num_vars,
            all_zero(r.evals()),
    {
        Multilinear::zero(self.num_vars)
    }

    /// Whether every evaluation is zero.
    pub fn is_zero(&self) -> (r: bool)
        ensures
            r == all_zero(self.evals()),
    {
        let mut i: usize = 0;
        while i < self.evaluations.len()
            invariant
                i <= self.evaluations.len(),
                forall|k: int| 0 <= k < i ==> #[trigger] self.evals()[k] == 0,
            decreases self.evaluations.len() - i,
        {
            if !self.evaluations[i].is_zero() {
                proof {
                    assert(self.evals()[i as int] != 0);
                }
                return false;
            }
            i = i + 1;
        }
        true
    }

    /// The evaluations serialised one after the other, 32 big-endian bytes each.
    pub fn to_bytes(&self) -> (r: Vec<u8>)
        ensures
            r@ == elems_bytes(self.evals()),
    {
        elems_to_bytes(&self.evaluations)
    }

    /// The number of variables.
    pub fn num_vars(&self) -> (r: usize)
        ensures
            r == self.num_vars,
    {
        self.num_vars
    }

    /// Fixes variable `variable_index` at `evaluation_point`.
    pub fn partial_evaluation(&self, evaluation_point: Fr, variable_index: usize) -> (r: Self)
        requires
            self.wf(),
            variable_index < self.num_vars,
        ensures
            r.wf(),
            r.num_vars == self.num_vars - 1,
            r.evals() == partial_eval_seq(self.evals(), variable_index as nat, evaluation_point@),
    {
        let n = self.num_vars;
        proof {
            lemma_two_pow_monotone(variable_index as nat, n as nat);
            lemma_pairing_shape(n as nat, variable_index as nat);
        }
        let pairs = round_pairing_index_ext(self.evaluations.len(), variable_index);
        let ghost target = partial_eval_seq(self.evals(), variable_index as nat, evaluation_point@);
        let mut new_evaluations: Vec<Fr> = Vec::new();
        let mut t: usize = 0;
        while t < pairs.len()
            invariant
                self.wf(),
                n == self.num_vars,
                variable_index < n,
                pairs@ == pairing_index_ext(two_pow(n as nat), variable_index as nat),
                pairs.len() == two_pow((n - 1) as nat),
                forall|s: int|
                    0 <= s < two_pow((n - 1) as nat) ==> (#[trigger] pairs@[s]).0 < two_pow(
                        n as nat,
                    ) && pairs@[s].1 < two_pow(n as nat),
                target == partial_eval_seq(self.evals(), variable_index as nat, evaluation_point@),
                t <= pairs.len(),
                new_evaluations.len() == t,
                forall|s: int| 0 <= s < t ==> #[trigger] new_evaluations[s]@ == target[s],
            decreases pairs.len() - t,
        {
            let (a, b) = pairs[t];
            let y = multilinear_evalutation_equation(
                &evaluation_point,
                &self.evaluations[a],
                &self.evaluations[b],
            );
            new_evaluations.push(y);
            t = t + 1;
        }
        proof {
            assert(new_evaluations.deep_view() =~= target);
        }
        Multilinear::new(new_evaluations, n - 1)
    }

    /// Fixes variable `variable_indices[0]` at `evaluation_points[0]`, then
    /// variable `variable_indices[1]` of the result, and so on.
    pub fn partial_evaluations(&self, evaluation_points: Vec<Fr>, variable_indices: Vec<usize>) -> (r: Self)
        requires
            self.wf(),
            evaluation_points.len() == variable_indices.len(),
            valid_indices(self.num_vars as nat, variable_indices@),
        ensures
            r.wf(),
            r.num_vars == self.num_vars - evaluation_points.len(),
            r.evals() == partial_evals_seq(
                self.evals(),
                evaluation_points.deep_view(),
                variable_indices@,
            ),
    {
        let mut poly = self.clone();
        let mut i: usize = 0;
        let n = evaluation_points.len();
        proof {
            assert(evaluation_points.deep_view().subrange(0, n as int) =~= evaluation_points.deep_view());
            assert(variable_indices@.subrange(0, n as int) =~= variable_indices@);
            assert(poly.evals() =~= self.evals());
        }
        while i < n
            invariant
                self.wf(),
                n == evaluation_points.len(),
                n == variable_indices.len(),
                valid_indices(self.num_vars as nat, variable_indices@),
                i <= n,
                poly.wf(),
                poly.num_vars == self.num_vars - i,
                partial_evals_seq(
                    self.evals(),
                    evaluation_points.deep_view(),
                    variable_indices@,
                ) == partial_evals_seq(
                    poly.evals(),
                    evaluation_points.deep_view().subrange(i as int, n as int),
                    variable_indices@.subrange(i as int, n as int),
                ),
            decreases n - i,
        {
            assert(variable_indices@[i as int] < self.num_vars - i);
            poly = poly.partial_evaluation(evaluation_points[i], variable_indices[i]);
            proof {
                let ps = evaluation_points.deep_view().subrange(i as int, n as int);
                let is = variable_indices@.subrange(i as int, n as int);
                assert(ps.drop_first() =~= evaluation_points.deep_view().subrange(i + 1, n as int));
                assert(is.drop_first() =~= variable_indices@.subrange(i + 1, n as int));
            }
            i = i + 1;
        }
        proof {
            assert(evaluation_points.deep_view().subrange(n as int, n as int) =~= Seq::<
                int,
            >::empty());
        }
        poly
    }

    /// The value at `point`, fixing the variables in order; `None` for an empty point.
    pub fn evaluate(&self, point: &Vec<Fr>) -> (r: Option<Fr>)
        requires
            self.wf(),
            point.len() <= self.num_vars,
        ensures
            match r {
                None => ml_evaluate(self.evals(), point.deep_view()) is None,
                Some(v) => ml_evaluate(self.evals(), point.deep_view()) == Some(v@),
            },
    {
        let mut eval_result: Option<Fr> = None;
        let mut poly = self.clone();
        let mut i: usize = 0;
        proof {
            assert(point.deep_view().subrange(0, 0) =~= Seq::<int>::empty());
            assert(poly.evals() =~= self.evals());
        }
        while i < point.len()
            invariant
                self.wf(),
                point.len() <= self.num_vars,
                i <= point.len(),
                poly.wf(),
                poly.num_vars == self.num_vars - i,
                poly.evals() == fold_all(self.evals(), point.deep_view().subrange(0, i as int)),
                match eval_result {
                    None => i == 0,
                    Some(v) => i > 0 && v@ == poly.evals()[0],
                },
            decreases point.len() - i,
        {
            proof {
                lemma_partial_eval_first(poly.evals(), poly.num_vars as nat, point[i as int]@);
                lemma_fold_all_push(
                    self.evals(),
                    point.deep_view().subrange(0, i as int),
                    point[i as int]@,
                );
                assert(point.deep_view().subrange(0, i + 1) =~= point.deep_view().subrange(
                    0,
                    i as int,
                ).push(point[i as int]@));
            }
            poly = poly.partial_evaluation(point[i], 0);
            proof {
                lemma_two_pow_pos(poly.num_vars as nat);
            }
            eval_result = Some(poly.evaluations[0]);
            i = i + 1;
        }
        proof {
            assert(point.deep_view().subrange(0, point.len() as int) =~= point.deep_view());
        }
        eval_result
    }

    /// Adds `num_of_new_variables` trailing variables on which the polynomial does
    /// not depend: each evaluation is repeated `2^num_of_new_variables` times.
    pub fn extend_with_new_variables(&self, num_of_new_variables: usize) -> (r: Self)
        requires
            self.wf(),
            two_pow((self.num_vars + num_of_new_variables) as nat) <= usize::MAX,
        ensures
            r.wf(),
            r.num_vars == self.num_vars + num_of_new_variables,
            r.evals() == repeat_each(self.evals(), two_pow(num_of_new_variables as nat)),
    {
        proof {
            lemma_two_pow_adds(self.num_vars as nat, num_of_new_variables as nat);
            lemma_two_pow_monotone(
                num_of_new_variables as nat,
                (self.num_vars + num_of_new_variables) as nat,
            );
            lemma_two_pow_pos(num_of_new_variables as nat);
            lemma_two_pow_gt((self.num_vars + num_of_new_variables) as nat);
        }
        let repeat_length = two_pow_exec(num_of_new_variables);
        let ghost target = repeat_each(self.evals(), repeat_length as nat);
        let mut new_evaluations: Vec<Fr> = Vec::new();
        let mut i: usize = 0;
        while i < self.evaluations.len()
            invariant
                self.wf(),
                repeat_length == two_pow(num_of_new_variables as nat),
                repeat_length > 0,
                self.evaluations.len() * repeat_length <= usize::MAX,
                target == repeat_each(self.evals(), repeat_length as nat),
                target.len() == self.evaluations.len() * repeat_length,
                i <= self.evaluations.len(),
                new_evaluations.len() == i * repeat_length,
                forall|t: int| 0 <= t < new_evaluations.len() ==> #[trigger] new_evaluations[t]@ == target[t],
            decreases self.evaluations.len() - i,
        {
            let mut c: usize = 0;
            while c < repeat_length
                invariant
                    self.wf(),
                    repeat_length > 0,
                    self.evaluations.len() * repeat_length <= usize::MAX,
                    target == repeat_each(self.evals(), repeat_length as nat),
                    target.len() == self.evaluations.len() * repeat_length,
                    i < self.evaluations.len(),
                    c <= repeat_length,
                    new_evaluations.len() == i * repeat_length + c,
                    forall|t: int| 0 <= t < new_evaluations.len() ==> #[trigger] new_evaluations[t]@ == target[t],
                decreases repeat_length - c,
            {
                new_evaluations.push(self.evaluations[i]);
                proof {
                    lemma_div_decomp(i as int, c as int, repeat_length as int);
                    lemma_index_bound(i as int, c as int, repeat_length as int, self.evaluations.len() as int);
                }
                c = c + 1;
            }
            proof {
                assert((i + 1) * repeat_length == i * repeat_length + repeat_length) by (nonlinear_arith);
            }
            i = i + 1;
        }
        proof {
            assert(new_evaluations.deep_view() =~= target);
        }
        Multilinear::new(new_evaluations, self.num_vars + num_of_new_variables)
    }

    /// `f(x) + g(y)` for `f = self` and `g = rhs` on distinct variables (those of
    /// `self` first).
    pub fn add_distinct(&self, rhs: &Self) -> (r: Self)
        requires
            self.wf(),
            rhs.wf(),
            two_pow((self.num_vars + rhs.num_vars) as nat) <= usize::MAX,
        ensures
            r.wf(),
            r.num_vars == self.num_vars + rhs.num_vars,
            r.evals() == distinct_sum(self.evals(), rhs.evals()),
    {
        self.combine_distinct(rhs, true)
    }

    /// `f(x) * g(y)` for `f = self` and `g = rhs` on distinct variables (those of
    /// `self` first).
    pub fn mul_distinct(&self, rhs: &Self) -> (r: Self)
        requires
            self.wf(),
            rhs.wf(),
            two_pow((self.num_vars + rhs.num_vars) as nat) <= usize::MAX,
        ensures
            r.wf(),
            r.num_vars == self.num_vars + rhs.num_vars,
            r.evals() == distinct_product(self.evals(), rhs.evals()),
    {
        self.combine_distinct(rhs, false)
    }

    fn combine_distinct(&self, rhs: &Self, is_sum: bool) -> (r: Self)
        requires
            self.wf(),
            rhs.wf(),
            two_pow((self.num_vars + rhs.num_vars) as nat) <= usize::MAX,
        ensures
            r.wf(),
            r.num_vars == self.num_vars + rhs.num_vars,
            is_sum ==> r.evals() == distinct_sum(self.evals(), rhs.evals()),
            !is_sum ==> r.evals() == distinct_product(self.evals(), rhs.evals()),
    {
        proof {
            lemma_two_pow_adds(self.num_vars as nat, rhs.num_vars as nat);
            lemma_two_pow_pos(rhs.num_vars as nat);
            lemma_two_pow_gt((self.num_vars + rhs.num_vars) as nat);
        }
        let m = rhs.evaluations.len();
        let ghost target = if is_sum {
            distinct_sum(self.evals(), rhs.evals())
        } else {
            distinct_product(self.evals(), rhs.evals())
        };
        let mut new_evaluations: Vec<Fr> = Vec::new();
        let mut i: usize = 0;
        while i < self.evaluations.len()
            invariant
                self.wf(),
                rhs.wf(),
                m == rhs.evaluations.len(),
                m > 0,
                self.evaluations.len() * m <= usize::MAX,
                target == (if is_sum {
                    distinct_sum(self.evals(), rhs.evals())
                } else {
                    distinct_product(self.evals(), rhs.evals())
                }),
                target.len() == self.evaluations.len() * m,
                i <= self.evaluations.len(),
                new_evaluations.len() == i * m,
                forall|t: int| 0 <= t < new_evaluations.len() ==> #[trigger] new_evaluations[t]@ == target[t],
            decreases self.evaluations.len() - i,
        {
            let mut j: usize = 0;
            while j < m
                invariant
                    self.wf(),
                    rhs.wf(),
                    m == rhs.evaluations.len(),
                    m > 0,
                    self.evaluations.len() * m <= usize::MAX,
                    target == (if is_sum {
                        distinct_sum(self.evals(), rhs.evals())
                    } else {
                        distinct_product(self.evals(), rhs.evals())
                    }),
                    target.len() == self.evaluations.len() * m,
                    i < self.evaluations.len(),
                    j <= m,
                    new_evaluations.len() == i * m + j,
                    forall|t: int| 0 <= t < new_evaluations.len() ==> #[trigger] new_evaluations[t]@ == target[t],
                decreases m - j,
            {
                let v = if is_sum {
                    self.evaluations[i].add(&rhs.evaluations[j])
                } else {
                    self.evaluations[i].mul(&rhs.evaluations[j])
                };
                new_evaluations.push(v);
                proof {
                    lemma_div_decomp(i as int, j as int, m as int);
                    lemma_index_bound(i as int, j as int, m as int, self.evaluations.len() as int);
                }
                j = j + 1;
            }
            proof {
                assert((i + 1) * m == i * m + m) by (nonlinear_arith);
            }
            i = i + 1;
        }
        proof {
            assert(new_evaluations.deep_view() =~= target);
        }
        Multilinear::new(new_evaluations, self.num_vars + rhs.num_vars)
    }

    /// The polynomial with the fewest variables whose table starts with `y_s`
    /// and is padded with zeros.
    pub fn interpolate(y_s: &[Fr]) -> (r: Self)
        requires
            y_s.len() <= usize::MAX / 2 + 1,
        ensures
            r.wf(),
            least_vars(y_s.len() as nat, r.num_vars as nat),
            r.evals().subrange(0, y_s.len() as int) == y_s@.map_values(|x: Fr| x@),
            all_zero(r.evals().subrange(y_s.len() as int, r.evals().len() as int)),
    {
        let (number_of_vars, size) = compute_number_of_variables(y_s.len());
        let mut evals: Vec<Fr> = Vec::new();
        let mut i: usize = 0;
        while i < size
            invariant
                size == two_pow(number_of_vars as nat),
                y_s.len() <= size,
                i <= size,
                evals.len() == i,
                forall|k: int| 0 <= k < i && k < y_s.len() ==> #[trigger] evals[k]@ == y_s@[k]@,
                forall|k: int| y_s.len() <= k < i ==> #[trigger] evals[k]@ == 0,
            decreases size - i,
        {
            if i < y_s.len() {
                evals.push(y_s[i]);
            } else {
                evals.push(Fr::zero());
            }
            i = i + 1;
        }
        let r = Multilinear::new(evals, number_of_vars);
        proof {
            assert(r.evals().subrange(0, y_s.len() as int) =~= y_s@.map_values(|x: Fr| x@));
            assert(all_zero(r.evals().subrange(y_s.len() as int, r.evals().len() as int)));
        }
        r
    }

    /// Sum of two polynomials with the same number of variables.
    pub fn add(&self, other: &Self) -> (r: Self)
        requires
            self.wf(),
            other.wf(),
            self.num_vars == other.num_vars,
        ensures
            r.wf(),
            r.num_vars == self.num_vars,
            r.evals() == pointwise_add(self.evals(), other.evals()),
    {
        let mut new_evaluations: Vec<Fr> = Vec::new();
        let mut i: usize = 0;
        while i < self.evaluations.len()
            invariant
                self.evaluations.len() == other.evaluations.len(),
                i <= self.evaluations.len(),
                new_evaluations.len() == i,
                forall|k: int| 0 <= k < i ==> #[trigger] new_evaluations[k]@ == fadd(self.evals()[k], other.evals()[k]),
            decreases self.evaluations.len() - i,
        {
            new_evaluations.push(self.evaluations[i].add(&other.evaluations[i]));
            i = i + 1;
        }
        proof {
            assert(new_evaluations.deep_view() =~= pointwise_add(self.evals(), other.evals()));
        }
        Multilinear::new(new_evaluations, self.num_vars)
    }

    /// Adds `other` into `self`.
    pub fn add_assign(&mut self, other: &Self)
        requires
            old(self).wf(),
            other.wf(),
            old(self).num_vars == other.num_vars,
        ensures
            final(self).wf(),
            final(self).num_vars == old(self).num_vars,
            final(self).evals() == pointwise_add(old(self).evals(), other.evals()),
    {
        let sum = self.add(other);
        *self = sum;
    }

    /// Each evaluation multiplied by `s`.
    pub fn scale(&self, s: &Fr) -> (r: Self)
        requires
            self.wf(),
        ensures
            r.wf(),
            r.num_vars == self.num_vars,
            r.evals() == Seq::new(self.evals().len(), |i: int| fmul(self.evals()[i], s@)),
    {
        let mut new_evaluations: Vec<Fr> = Vec::new();
        let mut i: usize = 0;
        while i < self.evaluations.len()
            invariant
                i <= self.evaluations.len(),
                new_evaluations.len() == i,
                forall|k: int| 0 <= k < i ==> #[trigger] new_evaluations[k]@ == fmul(self.evals()[k], s@),
            decreases self.evaluations.len() - i,
        {
            new_evaluations.push(self.evaluations[i].mul(s));
            i = i + 1;
        }
        proof {
            assert(new_evaluations.deep_view() =~= Seq::new(self.evals().len(), |i: int| fmul(self.evals()[i], s@)));
        }
        Multilinear::new(new_evaluations, self.num_vars)
    }
}

/// The least `k` with `2^k >= n`, and `2^k`.
pub fn compute_number_of_variables(n: usize) -> (r: (usize, usize))
    requires
        n <= usize::MAX / 2 + 1,
    ensures
        least_vars(n as nat, r.0 as nat),
        r.1 == two_pow(r.0 as nat),
{
    let mut k: usize = 0;
    let mut size: usize = 1;
    while size < n
        invariant
            size == two_pow(k as nat),
            n <= usize::MAX / 2 + 1,
            k == 0 || two_pow((k - 1) as nat) < n,
            k <= size,
            size >= 1,
        decreases n - k,
    {
        size = size * 2;
        k = k + 1;
    }
    (k, size)
}

} // verus!
