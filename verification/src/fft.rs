//! The iterative radix-2 transform: a bit-reversal permutation followed by
//! `log n` stages of butterflies.
use crate::evaluation::{bitreverse, evens, odds, reverse_bits};
use crate::field::{fadd, fmul, fpow, fsub, Fr};
use crate::pow2::{lemma_two_pow_pos, two_pow};
use vstd::arithmetic::div_mod::{lemma_div_denominator, lemma_fundamental_div_mod, lemma_fundamental_div_mod_converse, lemma_mod_mod, lemma_small_mod};
use vstd::prelude::*;

verus! {

/// Reversing `l` bits moves the lowest bit to the top.
proof fn lemma_rev_low(n: nat, l: nat)
    requires
        l >= 1,
    ensures
        reverse_bits(n, l) == reverse_bits(n / 2, (l - 1) as nat) + (n % 2) * two_pow((l - 1) as nat),
    decreases l,
{
    if l == 1 {
        assert(two_pow(0) == 1);
        assert(reverse_bits(n, 0) == 0);
        assert(reverse_bits(n / 2, 0) == 0);
        assert(n / 1 == n);
        assert(reverse_bits(n, 1) == 2 * reverse_bits(n, 0) + (n / two_pow(0)) % 2);
        assert((n % 2) * 1 == n % 2);
    } else {
        lemma_rev_low(n, (l - 1) as nat);
        let q = two_pow((l - 2) as nat);
        lemma_two_pow_pos((l - 2) as nat);
        lemma_div_denominator(n as int, 2, q as int);
        assert(two_pow((l - 1) as nat) == 2 * q);
        assert((n / 2) / q == n / two_pow((l - 1) as nat));
        assert(reverse_bits(n, l) == 2 * reverse_bits(n, (l - 1) as nat) + (n / two_pow((l - 1) as nat)) % 2);
        assert(reverse_bits(n / 2, (l - 1) as nat) == 2 * reverse_bits(n / 2, (l - 2) as nat) + ((n / 2) / q) % 2);
        assert((n % 2) * two_pow((l - 1) as nat) == 2 * ((n % 2) * q)) by (nonlinear_arith)
            requires
                two_pow((l - 1) as nat) == 2 * q,
        ;
    }
}

/// Reversed bits stay below `2^l`.
proof fn lemma_rev_bound(n: nat, l: nat)
    ensures
        reverse_bits(n, l) < two_pow(l),
    decreases l,
{
    if l > 0 {
        lemma_rev_bound(n, (l - 1) as nat);
    }
}

/// Only the low `l` bits matter.
proof fn lemma_rev_low_bits(n: nat, l: nat)
    ensures
        reverse_bits(n, l) == reverse_bits(n % two_pow(l), l),
    decreases l,
{
    if l > 0 {
        let p = two_pow((l - 1) as nat);
        lemma_two_pow_pos((l - 1) as nat);
        lemma_rev_low_bits(n, (l - 1) as nat);
        lemma_rev_low_bits(n % two_pow(l), (l - 1) as nat);
        assert(two_pow(l) == p * 2);
        lemma_mod_mod(n as int, p as int, 2);
        lemma_div_by_mod(n as int, p as int);
        assert(((n / p) % 2) % 2 == (n / p) % 2);
    }
}

/// `(n mod 2p) / p == (n / p) mod 2`.
proof fn lemma_div_by_mod(n: int, p: int)
    requires
        n >= 0,
        p > 0,
    ensures
        (n % (p * 2)) / p == (n / p) % 2,
{
    vstd::arithmetic::div_mod::lemma_mod_breakdown(n, p, 2);
    vstd::arithmetic::div_mod::lemma_mod_bound(n, p);
    vstd::arithmetic::div_mod::lemma_mod_bound(n / p, 2);
    vstd::arithmetic::mul::lemma_mul_is_commutative(p, (n / p) % 2);
    lemma_fundamental_div_mod_converse(n % (p * 2), p, (n / p) % 2, n % p);
}

/// Reversing twice gives back the low `l` bits.
proof fn lemma_rev_involution(x: nat, l: nat)
    requires
        x < two_pow(l),
    ensures
        reverse_bits(reverse_bits(x, l), l) == x,
    decreases l,
{
    if l > 0 {
        let p = two_pow((l - 1) as nat);
        lemma_two_pow_pos((l - 1) as nat);
        assert(two_pow(l) == p * 2);
        let h = x / 2;
        let b = x % 2;
        lemma_fundamental_div_mod(x as int, 2);
        assert(h < p);
        lemma_rev_involution(h, (l - 1) as nat);
        lemma_rev_low(x, l);
        let r = reverse_bits(h, (l - 1) as nat);
        lemma_rev_bound(h, (l - 1) as nat);
        let y = r + b * p;
        assert(reverse_bits(x, l) == y);
        // y's top bit is b and its low bits are r
        lemma_fundamental_div_mod_converse(y as int, p as int, b as int, r as int);
        assert(reverse_bits(y, l) == 2 * reverse_bits(y, (l - 1) as nat) + (y / p) % 2);
        lemma_rev_low_bits(y, (l - 1) as nat);
        assert(y % p == r);
        assert(reverse_bits(y, (l - 1) as nat) == reverse_bits(r, (l - 1) as nat));
        lemma_small_mod(r, p);
        assert(r % two_pow((l - 1) as nat) == r);
    }
}

/// The field values of a vector.
pub open spec fn fr_values(v: Seq<Fr>) -> Seq<int> {
    Seq::new(v.len(), |i: int| v[i]@)
}

/// `2^31`.
proof fn lemma_two_pow_31()
    ensures
        two_pow(31) == 0x8000_0000,
{
    reveal_with_fuel(two_pow, 32);
}

/// Moves entry `x` to position `reverse(x)`, on `2^size_log` entries.
fn bit_reverse_permute(list: &mut Vec<Fr>, size_log: u32)
    requires
        size_log < 32,
        old(list).len() == two_pow(size_log as nat),
    ensures
        final(list).len() == old(list).len(),
        forall|x: int|
            0 <= x < old(list).len() ==> (#[trigger] final(list)[x])@ == old(list)[reverse_bits(
                x as nat,
                size_log as nat,
            ) as int]@,
{
    let ghost c = list@;
    let ghost l = size_log as nat;
    proof {
        crate::pow2::lemma_two_pow_monotone(l, 31);
        lemma_two_pow_31();
    }
    let n = list.len() as u32;
    let mut k: u32 = 0;
    while k < n
        invariant
            n == list.len(),
            list.len() == c.len(),
            c.len() == two_pow(l),
            l == size_log,
            size_log < 32,
            k <= n,
            forall|x: int|
                0 <= x < n ==> (#[trigger] list[x]) == if x < k || reverse_bits(x as nat, l) < k {
                    c[reverse_bits(x as nat, l) as int]
                } else {
                    c[x]
                },
        decreases n - k,
    {
        let rk = bitreverse(k, size_log);
        proof {
            lemma_rev_bound(k as nat, l);
            lemma_rev_involution(k as nat, l);
            assert forall|x: int| 0 <= x < n && #[trigger] reverse_bits(x as nat, l) == k implies x == rk by {
                lemma_rev_involution(x as nat, l);
            }
        }
        if k < rk {
            let a = list[k as usize];
            let b = list[rk as usize];
            list.set(k as usize, b);
            list.set(rk as usize, a);
        }
        k = k + 1;
    }
    proof {
        assert forall|x: int| 0 <= x < c.len() implies (#[trigger] list[x])@ == c[reverse_bits(
            x as nat,
            l,
        ) as int]@ by {
            assert(x < n);
        }
    }
}

/// The entries `c[off], c[off + st], c[off + 2 st], ...`, `len` of them.
pub open spec fn strided(c: Seq<int>, off: int, st: int, len: nat) -> Seq<int> {
    Seq::new(len, |i: int| c[off + i * st])
}

/// The radix-2 transform with the root `w^s`: the halves at even and at odd
/// positions are transformed with the root squared, and entry `i` of the
/// result is `e[i] + o[i] r^i` in the first half and `e[i] - o[i] r^i` in the
/// second.
pub open spec fn radix2(c: Seq<int>, w: int, s: nat) -> Seq<int>
    decreases c.len(),
{
    if c.len() <= 1 {
        c
    } else {
        let h = c.len() / 2;
        let e = radix2(evens(c), w, 2 * s);
        let o = radix2(odds(c), w, 2 * s);
        let root = fpow(w, s);
        Seq::new(
            c.len(),
            |i: int|
                if i < h {
                    fadd(e[i], fmul(o[i], fpow(root, i as nat)))
                } else if i < 2 * h {
                    fsub(e[i - h], fmul(o[i - h], fpow(root, (i - h) as nat)))
                } else {
                    0
                },
        )
    }
}

/// Entry `x` after `t` stages on `2^l` entries: the block of `2^t` entries
/// holding `x` is the transform of the entries of `c` that it gathers, those at
/// the bit-reversed block number plus multiples of `2^(l - t)`.
pub open spec fn stage_value(c: Seq<int>, w: int, l: nat, t: nat, x: int) -> int {
    let m = two_pow(t);
    let st = two_pow((l - t) as nat);
    radix2(
        strided(c, reverse_bits((x / (m as int)) as nat, (l - t) as nat) as int, st as int, m),
        w,
        st,
    )[x % (m as int)]
}

/// Before any stage, entry `x` is `c` at the reversed position.
proof fn lemma_stage_zero(c: Seq<int>, w: int, l: nat, x: int)
    requires
        0 <= x,
    ensures
        stage_value(c, w, l, 0, x) == c[reverse_bits(x as nat, l) as int],
{
    assert(two_pow(0) == 1);
    assert(x / 1 == x);
    assert(x % 1 == 0);
    let s = strided(c, reverse_bits(x as nat, l) as int, two_pow(l) as int, 1);
    assert(s[0] == c[reverse_bits(x as nat, l) as int + 0 * two_pow(l)]);
}

/// After the last stage, the entries are the transform of `c`.
proof fn lemma_stage_last(c: Seq<int>, w: int, l: nat, x: int)
    requires
        c.len() == two_pow(l),
        0 <= x < c.len(),
    ensures
        stage_value(c, w, l, l, x) == radix2(c, w, 1)[x],
{
    lemma_two_pow_pos(l);
    lemma_small_mod(x as nat, two_pow(l));
    vstd::arithmetic::div_mod::lemma_basic_div(x, two_pow(l) as int);
    assert(two_pow(0) == 1);
    assert(reverse_bits(0, 0) == 0);
    assert(strided(c, 0, 1, two_pow(l)) =~= c);
}

/// One stage of butterflies: entries `k + j` and `k + j + 2^t` of a block of
/// `2^(t+1)` starting at `k` are combined with the root `w^(2^(l-t-1))`.
proof fn lemma_stage_step(c: Seq<int>, w: int, l: nat, t: nat, k: int, j: int)
    requires
        t < l,
        0 <= k,
        k % (2 * two_pow(t) as int) == 0,
        0 <= j < two_pow(t),
    ensures
        ({
            let m = two_pow(t) as int;
            let tw = fpow(fpow(w, two_pow((l - t - 1) as nat)), j as nat);
            &&& stage_value(c, w, l, t + 1, k + j) == fadd(
                stage_value(c, w, l, t, k + j),
                fmul(stage_value(c, w, l, t, k + j + m), tw),
            )
            &&& stage_value(c, w, l, t + 1, k + j + m) == fsub(
                stage_value(c, w, l, t, k + j),
                fmul(stage_value(c, w, l, t, k + j + m), tw),
            )
        }),
{
    let m = two_pow(t) as int;
    let m2 = two_pow(t + 1) as int;
    lemma_two_pow_pos(t);
    assert(m2 == 2 * m);
    let b = k / m2;
    lemma_fundamental_div_mod(k, m2);
    assert(k == m2 * b);
    let sp = two_pow((l - t - 1) as nat);
    let s2 = two_pow((l - t) as nat);
    assert(s2 == 2 * sp) by {
        assert(((l - t) as nat - 1) as nat == (l - t - 1) as nat);
    }
    // positions in the block of size 2m
    lemma_fundamental_div_mod_converse(k + j, m2, b, j);
    lemma_fundamental_div_mod_converse(k + j + m, m2, b, j + m);
    // positions in the blocks of size m
    assert(k + j == (2 * b) * m + j) by (nonlinear_arith)
        requires
            k == m2 * b,
            m2 == 2 * m,
    ;
    assert(k + j + m == (2 * b + 1) * m + j) by (nonlinear_arith)
        requires
            k == m2 * b,
            m2 == 2 * m,
    ;
    assert(k + j == b * m2 + j) by (nonlinear_arith)
        requires
            k == m2 * b,
    ;
    assert(k + j + m == b * m2 + (j + m)) by (nonlinear_arith)
        requires
            k == m2 * b,
    ;
    lemma_fundamental_div_mod_converse(k + j, m, 2 * b, j);
    lemma_fundamental_div_mod_converse(k + j + m, m, 2 * b + 1, j);
    assert(b >= 0) by {
        vstd::arithmetic::div_mod::lemma_div_pos_is_pos(k, m2);
    }
    // the reversed offsets
    lemma_rev_low((2 * b) as nat, (l - t) as nat);
    lemma_rev_low((2 * b + 1) as nat, (l - t) as nat);
    assert((2 * b) / 2 == b && (2 * b) % 2 == 0);
    assert((2 * b + 1) / 2 == b && (2 * b + 1) % 2 == 1);
    let off = reverse_bits(b as nat, (l - t - 1) as nat) as int;
    let n0 = (2 * b) as nat;
    let n1 = (2 * b + 1) as nat;
    assert(n0 / 2 == b as nat && n0 % 2 == 0);
    assert(n1 / 2 == b as nat && n1 % 2 == 1);
    assert((((l - t) as nat) - 1) as nat == (l - t - 1) as nat);
    assert(reverse_bits(n0, (l - t) as nat) == reverse_bits(b as nat, (l - t - 1) as nat) + 0 * sp);
    assert(reverse_bits((2 * b) as nat, (l - t) as nat) == off);
    assert(reverse_bits(n1, (l - t) as nat) == reverse_bits(b as nat, (l - t - 1) as nat) + 1 * sp);
    assert(reverse_bits((2 * b + 1) as nat, (l - t) as nat) == off + sp);
    // the halves of the gathered entries
    let big = strided(c, off, sp as int, m2 as nat);
    assert(evens(big) =~= strided(c, off, s2 as int, m as nat)) by {
        assert forall|i: int| 0 <= i < m implies #[trigger] evens(big)[i] == strided(
            c,
            off,
            s2 as int,
            m as nat,
        )[i] by {
            assert(2 * i * sp == i * s2) by (nonlinear_arith)
                requires
                    s2 == 2 * sp,
            ;
        }
    }
    assert(odds(big) =~= strided(c, off + sp, s2 as int, m as nat)) by {
        assert forall|i: int| 0 <= i < m implies #[trigger] odds(big)[i] == strided(
            c,
            off + sp,
            s2 as int,
            m as nat,
        )[i] by {
            assert((2 * i + 1) * sp == sp + i * s2) by (nonlinear_arith)
                requires
                    s2 == 2 * sp,
            ;
        }
    }
    assert(((l - t) as nat) == (l - t));
    assert(((l - (t + 1)) as nat) == (l - t - 1) as nat);
}

/// The iterative radix-2 transform of `2^size_log` entries in place, with the
/// root `w`: the entries are put in bit-reversed order, then each stage
/// combines neighbouring blocks with the butterflies `e + o r^j`, `e - o r^j`,
/// where the root of the stage with blocks of `2m` entries is `w^(n / 2m)`.
/// The result is the radix-2 transform of the input with the root `w`.
#[verifier::rlimit(60)]
pub fn serial_fft(list: &mut Vec<Fr>, w: Fr, size_log: u32)
    requires
        size_log < 32,
        old(list).len() == two_pow(size_log as nat),
    ensures
        final(list).len() == old(list).len(),
        fr_values(final(list)@) == radix2(fr_values(old(list)@), w@, 1),
{
    let ghost c = fr_values(list@);
    let ghost l = size_log as nat;
    proof {
        crate::pow2::lemma_two_pow_monotone(l, 31);
        lemma_two_pow_31();
    }
    let n = list.len() as u32;
    bit_reverse_permute(list, size_log);
    proof {
        assert forall|x: int| 0 <= x < n implies (#[trigger] list[x])@ == stage_value(c, w@, l, 0, x) by {
            lemma_stage_zero(c, w@, l, x);
            lemma_rev_bound(x as nat, l);
        }
    }
    let mut m: u32 = 1;
    let mut t: u32 = 0;
    proof {
        assert(two_pow(0) == 1);
    }
    while t < size_log
        invariant
            n == list.len(),
            n == two_pow(l),
            c.len() == n,
            l == size_log,
            size_log < 32,
            two_pow(31) == 0x8000_0000,
            t <= size_log,
            m == two_pow(t as nat),
            forall|x: int| 0 <= x < n ==> (#[trigger] list[x])@ == stage_value(c, w@, l, t as nat, x),
        decreases size_log - t,
    {
        let ghost tn = t as nat;
        proof {
            crate::pow2::lemma_two_pow_monotone(tn + 1, l);
            crate::pow2::lemma_two_pow_div(tn + 1, l);
            assert(two_pow(tn + 1) == 2 * m);
            crate::pow2::lemma_two_pow_monotone(l, 31);
            lemma_two_pow_pos(tn);
            crate::pow2::lemma_two_pow_adds(tn + 1, (l - tn - 1) as nat);
            assert((tn + 1 + (l - tn - 1) as nat) as nat == l);
            vstd::arithmetic::div_mod::lemma_mod_multiples_basic(
                two_pow((l - tn - 1) as nat) as int,
                (2 * m) as int,
            );
            vstd::arithmetic::mul::lemma_mul_is_commutative(
                two_pow((l - tn - 1) as nat) as int,
                (2 * m) as int,
            );
        }
        let half = m;
        let block = 2 * m;
        let e = (n / block) as u64;
        let w_m = w.pow(e);
        proof {
            assert(e == two_pow((l - tn - 1) as nat));
        }
        let mut k: u32 = 0;
        proof {
            assert(0int % (block as int) == 0);
        }
        while k < n
            invariant
                n == list.len(),
                n == two_pow(l),
                c.len() == n,
                tn < l,
                half == two_pow(tn),
                half >= 1,
                block == 2 * half,
                block <= n,
                w_m@ == fpow(w@, two_pow((l - tn - 1) as nat)),
                k <= n,
                k % block == 0,
                n % block == 0,
                forall|x: int|
                    0 <= x < n ==> (#[trigger] list[x])@ == if x < k {
                        stage_value(c, w@, l, tn + 1, x)
                    } else {
                        stage_value(c, w@, l, tn, x)
                    },
            decreases n - k,
        {
            proof {
                // a whole block fits
                vstd::arithmetic::div_mod::lemma_fundamental_div_mod(k as int, block as int);
                vstd::arithmetic::div_mod::lemma_fundamental_div_mod(n as int, block as int);
                assert(k + block <= n) by (nonlinear_arith)
                    requires
                        k == block * (k / block),
                        n == block * (n / block),
                        k < n,
                        block > 0,
                ;
            }
            let mut wp = Fr::one();
            let mut j: u32 = 0;
            proof {
                assert(fpow(w_m@, 0) == 1);
            }
            while j < half
                invariant
                    n == list.len(),
                    c.len() == n,
                    tn < l,
                    half == two_pow(tn),
                    half >= 1,
                    block == 2 * half,
                    k + block <= n,
                    k % block == 0,
                    j <= half,
                    w_m@ == fpow(w@, two_pow((l - tn - 1) as nat)),
                    wp@ == fpow(w_m@, j as nat),
                    forall|x: int|
                        0 <= x < n ==> (#[trigger] list[x])@ == if x < k + j || (k + half <= x && x
                            < k + half + j) {
                            stage_value(c, w@, l, tn + 1, x)
                        } else {
                            stage_value(c, w@, l, tn, x)
                        },
                decreases half - j,
            {
                let lo = k + j;
                let hi = k + j + half;
                let a = list[lo as usize];
                let b = list[hi as usize];
                let tt = b.mul(&wp);
                let tmp = a.sub(&tt);
                list.set(hi as usize, tmp);
                list.set(lo as usize, a.add(&tt));
                proof {
                    lemma_stage_step(c, w@, l, tn, k as int, j as int);
                }
                wp = wp.mul(&w_m);
                j = j + 1;
            }
            proof {
                vstd::arithmetic::div_mod::lemma_mod_add_multiples_vanish(k as int, block as int);
            }
            k = k + block;
        }
        m = block;
        t = t + 1;
    }
    proof {
        assert(fr_values(list@) =~= radix2(c, w@, 1)) by {
            assert forall|x: int| 0 <= x < n implies #[trigger] fr_values(list@)[x] == radix2(
                c,
                w@,
                1,
            )[x] by {
                lemma_stage_last(c, w@, l, x);
            }
            lemma_radix2_len(c, w@, 1);
        }
    }
}

/// The transform keeps the length.
proof fn lemma_radix2_len(c: Seq<int>, w: int, s: nat)
    ensures
        radix2(c, w, s).len() == c.len(),
    decreases c.len(),
{
}

/// Powers stay in the field.
pub proof fn lemma_fpow_range(a: int, n: nat)
    ensures
        0 <= fpow(a, n) < crate::field::fr_modulus(),
    decreases n,
{
    if n > 0 {
        crate::algebra::lemma_ops_range(fpow(a, (n - 1) as nat), a);
    }
}

/// `a^(m + n) = a^m a^n`.
pub proof fn lemma_fpow_add(a: int, m: nat, n: nat)
    ensures
        fpow(a, m + n) == fmul(fpow(a, m), fpow(a, n)),
    decreases n,
{
    lemma_fpow_range(a, m);
    if n == 0 {
        crate::algebra::lemma_fmul_one(fpow(a, m));
        assert(m + 0 == m);
    } else {
        lemma_fpow_add(a, m, (n - 1) as nat);
        assert((m + n - 1) as nat == m + (n - 1) as nat);
        crate::algebra::lemma_fmul_assoc(fpow(a, m), fpow(a, (n - 1) as nat), a);
    }
}

/// `a^(m n) = (a^m)^n`.
proof fn lemma_fpow_mul(a: int, m: nat, n: nat)
    ensures
        fpow(a, m * n) == fpow(fpow(a, m), n),
    decreases n,
{
    if n == 0 {
        assert(m * 0 == 0);
    } else {
        lemma_fpow_mul(a, m, (n - 1) as nat);
        assert(m * n == m * (n - 1) as nat + m) by (nonlinear_arith)
            requires
                n >= 1,
        ;
        lemma_fpow_add(a, m * (n - 1) as nat, m);
    }
}

/// A polynomial is its even part at `x^2` plus `x` times its odd part at `x^2`.
proof fn lemma_poly_split(c: Seq<int>, x: int)
    requires
        crate::univariate::canonical(c),
    ensures
        crate::univariate::poly_eval(c, x) == fadd(
            crate::univariate::poly_eval(evens(c), fmul(x, x)),
            fmul(x, crate::univariate::poly_eval(odds(c), fmul(x, x))),
        ),
    decreases c.len(),
{
    let y = fmul(x, x);
    if c.len() == 0 {
        assert(evens(c) =~= Seq::<int>::empty());
        assert(odds(c) =~= Seq::<int>::empty());
        assert(fmul(x, 0) == 0);
        crate::algebra::lemma_fadd_zero(0);
    } else {
        let d = c.drop_first();
        assert(crate::univariate::canonical(d));
        lemma_poly_split(d, x);
        assert(evens(c).drop_first() =~= odds(d));
        assert(odds(c) =~= evens(d));
        let ed = crate::univariate::poly_eval(evens(d), y);
        let od = crate::univariate::poly_eval(odds(d), y);
        // x * (ed + x od) = x ed + (x x) od
        crate::algebra::lemma_fmul_distrib(x, ed, fmul(x, od));
        crate::algebra::lemma_fmul_assoc(x, x, od);
        // c0 + (x ed + y od) = (c0 + y od) + x ed
        crate::algebra::lemma_fadd_assoc(c[0], fmul(x, ed), fmul(y, od));
        crate::algebra::lemma_fadd_comm(fmul(x, ed), fmul(y, od));
        crate::algebra::lemma_fadd_assoc(c[0], fmul(y, od), fmul(x, ed));
    }
}

/// `a + (-b) c = a - b c` in the field.
proof fn lemma_add_neg(a: int, b: int, c: int)
    ensures
        fadd(a, fmul(crate::field::fneg(b), c)) == fsub(a, fmul(b, c)),
{
    let m = crate::field::fr_modulus();
    let bc = b * c;
    assert((0 - b) * c == 0 - bc) by (nonlinear_arith)
        requires
            bc == b * c,
    ;
    vstd::arithmetic::div_mod::lemma_mul_mod_noop_left(0 - b, c, m);
    assert(fmul(crate::field::fneg(b), c) == (0 - bc) % m);
    vstd::arithmetic::div_mod::lemma_add_mod_noop_right(a, 0 - bc, m);
    vstd::arithmetic::div_mod::lemma_sub_mod_noop_right(a, bc, m);
    assert(a + (0 - bc) == a - bc);
}

/// Multiplying by `-1` negates, and squares do not see the sign.
proof fn lemma_times_minus_one(x: int)
    ensures
        fmul(x, crate::field::fr_modulus() - 1) == crate::field::fneg(x),
        fmul(crate::field::fneg(x), crate::field::fneg(x)) == fmul(x, x),
{
    let m = crate::field::fr_modulus();
    vstd::arithmetic::div_mod::lemma_mul_mod_noop_right(x, m - 1, m);
    vstd::arithmetic::div_mod::lemma_mod_multiples_vanish(x, 0 - x, m);
    assert(x * (m - 1) == m * x + (0 - x)) by (nonlinear_arith);
    vstd::arithmetic::div_mod::lemma_mul_mod_noop(0 - x, 0 - x, m);
    assert((0 - x) * (0 - x) == x * x) by (nonlinear_arith);
}

/// The radix-2 transform with root `w^s` of `2^k` coefficients gives the
/// values at the powers of `w^s`, when `(w^s)^(2^(k-1)) = -1`.
proof fn lemma_radix2_eval(c: Seq<int>, w: int, s: nat, k: nat, j: int)
    requires
        c.len() == two_pow(k),
        crate::univariate::canonical(c),
        k >= 1 ==> fpow(w, s * two_pow((k - 1) as nat)) == crate::field::fr_modulus() - 1,
        0 <= j < c.len(),
    ensures
        radix2(c, w, s)[j] == crate::univariate::poly_eval(c, fpow(fpow(w, s), j as nat)),
    decreases k,
{
    let r = fpow(w, s);
    let x = fpow(r, j as nat);
    if k == 0 {
        assert(two_pow(0) == 1);
        assert(c.drop_first() =~= Seq::<int>::empty());
        assert(crate::univariate::poly_eval(c.drop_first(), x) == 0);
        assert(fmul(x, 0) == 0);
        assert(0 <= c[0] < crate::field::fr_modulus());
        crate::algebra::lemma_fadd_zero(c[0]);
        assert(j == 0);
        assert(radix2(c, w, s) == c);
    } else {
        let h = two_pow((k - 1) as nat);
        lemma_two_pow_pos((k - 1) as nat);
        assert(c.len() == 2 * h);
        let ev = evens(c);
        let od = odds(c);
        assert(ev.len() == h && od.len() == h);
        assert(crate::univariate::canonical(ev));
        assert(crate::univariate::canonical(od));
        // the halves satisfy the condition with the root squared
        if k >= 2 {
            let h2 = two_pow((k - 2) as nat);
            assert(h == 2 * h2);
            assert(2 * s * h2 == s * h) by (nonlinear_arith)
                requires
                    h == 2 * h2,
            ;
        }
        // w^(2s) = r^2
        lemma_fpow_mul(w, s, 2);
        assert(s * 2 == 2 * s);
        let jj = if j < h { j } else { j - h };
        lemma_radix2_eval(ev, w, 2 * s, (k - 1) as nat, jj);
        lemma_radix2_eval(od, w, 2 * s, (k - 1) as nat, jj);
        let xp = fpow(r, jj as nat);
        // (r^2)^jj = xp^2
        lemma_fpow_mul(r, 2, jj as nat);
        lemma_fpow_add(r, jj as nat, jj as nat);
        assert(2 * (jj as nat) == jj as nat + jj as nat);
        assert(fpow(fpow(w, 2 * s), jj as nat) == fmul(xp, xp));
        let e = crate::univariate::poly_eval(ev, fmul(xp, xp));
        let o = crate::univariate::poly_eval(od, fmul(xp, xp));
        assert(radix2(ev, w, 2 * s)[jj] == e);
        assert(radix2(od, w, 2 * s)[jj] == o);
        if j < h {
            lemma_poly_split(c, x);
            crate::algebra::lemma_fmul_comm(o, x);
            assert(radix2(c, w, s)[j] == fadd(e, fmul(o, x)));
        } else {
            // r^j = r^jj r^h = -r^jj
            lemma_fpow_add(r, jj as nat, h);
            lemma_fpow_mul(w, s, h);
            assert((jj + h) as nat == j as nat);
            lemma_times_minus_one(xp);
            assert(x == crate::field::fneg(xp));
            lemma_poly_split(c, x);
            lemma_add_neg(e, xp, o);
            crate::algebra::lemma_fmul_comm(o, xp);
            assert(radix2(c, w, s)[j] == fsub(e, fmul(o, xp)));
        }
    }
}

/// At a root `w` whose `n/2`-th power is `-1`, the radix-2 transform of
/// `n = 2^k` coefficients gives the values of their polynomial at
/// `w^0, w^1, ..., w^(n-1)`.
pub proof fn lemma_fft_evaluates(c: Seq<int>, w: int, k: nat)
    requires
        c.len() == two_pow(k),
        crate::univariate::canonical(c),
        0 <= w < crate::field::fr_modulus(),
        k >= 1 ==> fpow(w, two_pow((k - 1) as nat)) == crate::field::fr_modulus() - 1,
    ensures
        forall|j: int|
            0 <= j < c.len() ==> #[trigger] radix2(c, w, 1)[j] == crate::univariate::poly_eval(
                c,
                fpow(w, j as nat),
            ),
{
    assert(fpow(w, 0) == 1);
    assert(fpow(w, 1) == fmul(fpow(w, 0), w));
    crate::algebra::lemma_fmul_one(w);
    assert forall|j: int| 0 <= j < c.len() implies #[trigger] radix2(c, w, 1)[j]
        == crate::univariate::poly_eval(c, fpow(w, j as nat)) by {
        if k >= 1 {
            assert(1 * two_pow((k - 1) as nat) == two_pow((k - 1) as nat));
        }
        lemma_radix2_eval(c, w, 1, k, j);
    }
}

} // verus!
