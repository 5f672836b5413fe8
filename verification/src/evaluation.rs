//! Univariate polynomials in evaluation form over a multiplicative subgroup
//! (a domain of roots of unity), and the FFT helpers around it.
use crate::field::{subgroup_root_of_unity, fadd, finv, fmul, fpow, fr_modulus, fsub, has_order, is_inverse, supported_order, Fr};
use crate::multilinear::{compute_number_of_variables, least_vars};
use crate::pow2::two_pow;
use crate::univariate::UnivariantPolynomial;
use vstd::prelude::*;

verus! {

/// The smallest power of two that is at least `n` (one for zero).
pub open spec fn domain_size(n: nat) -> nat {
    two_pow(choose|k: nat| least_vars(n, k))
}

/// `least_vars` has one solution.
proof fn lemma_least_vars_unique(n: nat, a: nat, b: nat)
    requires
        least_vars(n, a),
        least_vars(n, b),
    ensures
        a == b,
{
    if a < b {
        crate::pow2::lemma_two_pow_monotone(a, (b - 1) as nat);
    } else if b < a {
        crate::pow2::lemma_two_pow_monotone(b, (a - 1) as nat);
    }
}

/// A power of two is a supported subgroup size exactly up to `2^32`.
proof fn lemma_supported_power(k: nat)
    ensures
        supported_order(two_pow(k)) <==> k <= 32,
{
    if k <= 32 {
        assert(two_pow(k) == two_pow(k));
    } else if supported_order(two_pow(k)) {
        let b = choose|b: nat| b <= 32 && (two_pow(k) == two_pow(b) || two_pow(k) == 3 * two_pow(b));
        crate::pow2::lemma_two_pow_adds(b, (k - b) as nat);
        let m = two_pow((k - b) as nat);
        crate::pow2::lemma_two_pow_pos(b);
        crate::pow2::lemma_two_pow_gt((k - b) as nat);
        assert(m >= 2);
        if two_pow(k) == two_pow(b) {
            assert(two_pow(b) * m == two_pow(b) * 1) by (nonlinear_arith)
                requires
                    two_pow(k) == two_pow(b) * m,
                    two_pow(k) == two_pow(b),
            ;
            assert(m == 1) by (nonlinear_arith)
                requires
                    two_pow(b) * m == two_pow(b) * 1,
                    two_pow(b) >= 1,
            ;
        } else {
            assert(m == 3) by (nonlinear_arith)
                requires
                    two_pow(k) == two_pow(b) * m,
                    two_pow(k) == 3 * two_pow(b),
                    two_pow(b) >= 1,
            ;
            crate::pow2::lemma_two_pow_half((k - b) as nat);
        }
    }
}

/// A multiplicative subgroup of roots of unity.
#[derive(Clone, Copy, Debug)]
pub struct Domain {
    /// The number of elements.
    pub size: u64,
    /// The generator `omega`.
    pub generator: Fr,
    /// The inverse of the generator.
    pub group_gen_inverse: Fr,
}

impl Domain {
    /// The domain large enough for `num_of_coeffs` coefficients: its size is the
    /// smallest power of two at least that, and its generator the root of unity
    /// that `ark_ff` gives for that size.
    pub fn new(num_of_coeffs: usize) -> (r: Self)
        requires
            num_of_coeffs <= usize::MAX / 2 + 1,
            domain_size(num_of_coeffs as nat) <= two_pow(32),
        ensures
            r.size == domain_size(num_of_coeffs as nat),
            subgroup_root_of_unity(r.size as nat) == Some(r.generator@),
            has_order(r.generator@, r.size as nat),
            is_inverse(r.generator@, r.group_gen_inverse@),
    {
        let (k, size) = compute_number_of_variables(num_of_coeffs);
        proof {
            let c = choose|j: nat| least_vars(num_of_coeffs as nat, j);
            assert(least_vars(num_of_coeffs as nat, k as nat));
            lemma_least_vars_unique(num_of_coeffs as nat, c, k as nat);
            lemma_supported_power(k as nat);
            if k > 32 {
                crate::pow2::lemma_two_pow_monotone(33, k as nat);
                assert(two_pow(33) == 2 * two_pow(32));
                crate::pow2::lemma_two_pow_pos(32);
            }
        }
        let size = size as u64;
        match Fr::get_root_of_unity(size) {
            Some(generator) => {
                proof {
                    if generator@ == 0 {
                        assert(crate::field::fpow(0, size as nat) == 0) by {
                            lemma_fpow_zero(size as nat);
                        }
                    }
                }
                match generator.inverse() {
                    Some(group_gen_inverse) => Domain { size, generator, group_gen_inverse },
                    None => {
                        proof {
                            assert(false);
                        }
                        Domain { size, generator, group_gen_inverse: generator }
                    },
                }
            },
            None => {
                proof {
                    assert(false);
                }
                Domain { size, generator: Fr::one(), group_gen_inverse: Fr::one() }
            },
        }
    }

    /// `Domain::new` where `ark_ff` has a root of unity of the needed size;
    /// `None` where it has none.
    pub fn try_new(num_of_coeffs: usize) -> (r: Option<Self>)
        requires
            num_of_coeffs <= usize::MAX / 2 + 1,
        ensures
            r is None <==> domain_size(num_of_coeffs as nat) > two_pow(32),
            r is None <==> subgroup_root_of_unity(domain_size(num_of_coeffs as nat)) is None,
            r matches Some(d) ==> d.size == domain_size(num_of_coeffs as nat) && subgroup_root_of_unity(
                d.size as nat,
            ) == Some(d.generator@) && has_order(d.generator@, d.size as nat) && is_inverse(
                d.generator@,
                d.group_gen_inverse@,
            ),
    {
        let (k, size) = compute_number_of_variables(num_of_coeffs);
        proof {
            let c = choose|j: nat| least_vars(num_of_coeffs as nat, j);
            assert(least_vars(num_of_coeffs as nat, k as nat));
            lemma_least_vars_unique(num_of_coeffs as nat, c, k as nat);
            lemma_supported_power(k as nat);
        }
        match Fr::get_root_of_unity(size as u64) {
            Some(_) => {
                proof {
                    crate::pow2::lemma_two_pow_monotone(k as nat, 32);
                }
                Some(Domain::new(num_of_coeffs))
            },
            None => {
                proof {
                    if k <= 32 {
                        assert(false);
                    }
                    crate::pow2::lemma_two_pow_monotone(33, k as nat);
                    assert(two_pow(33) == 2 * two_pow(32));
                    crate::pow2::lemma_two_pow_pos(32);
                }
                None
            },
        }
    }

    /// The generator.
    pub fn get_root_of_unity(&self) -> (r: Fr)
        ensures
            r == self.generator,
    {
        self.generator
    }

    /// Pads (or cuts) `coeffs` to the domain's size and replaces them by their
    /// transform with the generator; a single coefficient is left as it is.
    pub fn fft_in_place(&self, coeffs: &mut Vec<Fr>)
        requires
            self.size <= usize::MAX,
        ensures
            old(coeffs).len() == 1 ==> final(coeffs)@ == old(coeffs)@,
            old(coeffs).len() != 1 && self.size == 0 ==> final(coeffs)@.len() == 0,
            old(coeffs).len() != 1 && self.size > 0 ==> final(coeffs).deep_view() == fft_spec(
                resized(old(coeffs).deep_view(), self.size as nat),
                self.generator@,
            ),
    {
        if coeffs.len() == 1 {
            return;
        }
        resize_with_zeros(coeffs, self.size as usize);
        if coeffs.len() > 0 {
            let r = self.fft_in_place_internal(coeffs, false);
            *coeffs = r;
        }
    }

    /// Like `fft_in_place`, for the inverse transform: the twiddle base is the
    /// inverse of the generator, and the result is divided by the domain's
    /// size.
    pub fn ifft_in_place(&self, evals: &mut Vec<Fr>)
        requires
            self.size <= usize::MAX,
        ensures
            final(evals).deep_view() == inverse_transform(
                old(evals).deep_view(),
                self.size as nat,
                self.group_gen_inverse@,
            ),
    {
        if evals.len() == 1 {
            proof {
                assert(evals.deep_view() == inverse_transform(
                    evals.deep_view(),
                    self.size as nat,
                    self.group_gen_inverse@,
                ));
            }
            return;
        }
        let ghost start = evals.deep_view();
        resize_with_zeros(evals, self.size as usize);
        if evals.len() > 0 {
            let r = self.fft_in_place_internal(evals, true);
            let inv = match Fr::from_u64(self.size).inverse() {
                Some(i) => i,
                None => {
                    proof {
                        assert(false);
                    }
                    Fr::one()
                },
            };
            proof {
                crate::algebra::lemma_inverse_is_finv(self.size as int, inv@);
            }
            let ghost t = r.deep_view();
            let mut out: Vec<Fr> = Vec::new();
            let mut i: usize = 0;
            while i < r.len()
                invariant
                    i <= r.len(),
                    t == r.deep_view(),
                    out.len() == i,
                    forall|k: int| 0 <= k < i ==> #[trigger] out[k]@ == fmul(t[k], inv@),
                decreases r.len() - i,
            {
                proof {
                    assert(t[i as int] == r[i as int]@);
                }
                out.push(r[i].mul(&inv));
                i = i + 1;
            }
            proof {
                assert forall|k: int| 0 <= k < out.len() implies #[trigger] out.deep_view()[k] == scale_all(
                    t,
                    finv(self.size as int),
                )[k] by {
                    assert(out.deep_view()[k] == out[k]@);
                }
                assert(out.deep_view() =~= scale_all(t, finv(self.size as int)));
            }
            *evals = out;
        } else {
            proof {
                assert(evals.deep_view() =~= Seq::<int>::empty());
            }
        }
    }

    /// The recursive radix-2 transform with the generator (or its inverse) as
    /// the twiddle base, squared from one level to the next.
    pub fn fft_in_place_internal(&self, coeffs: &mut Vec<Fr>, is_inverse: bool) -> (r: Vec<Fr>)
        requires
            old(coeffs).len() >= 1,
        ensures
            final(coeffs)@ == old(coeffs)@,
            r.deep_view() == fft_spec(
                old(coeffs).deep_view(),
                if is_inverse {
                    self.group_gen_inverse@
                } else {
                    self.generator@
                },
            ),
    {
        let w = if is_inverse {
            self.group_gen_inverse
        } else {
            self.generator
        };
        fft_rec(coeffs, w)
    }
}

/// `0` raised to a positive power.
proof fn lemma_fpow_zero(n: nat)
    requires
        n >= 1,
    ensures
        fpow(0, n) == 0,
    decreases n,
{
    if n > 1 {
        lemma_fpow_zero((n - 1) as nat);
    }
}

/// `s` cut or padded with zeros to length `n`.
pub open spec fn resized(s: Seq<int>, n: nat) -> Seq<int> {
    Seq::new(
        n,
        |i: int|
            if i < s.len() {
                s[i]
            } else {
                0
            },
    )
}

/// Resizes a vector to `n` entries, padding with zeros.
fn resize_with_zeros(v: &mut Vec<Fr>, n: usize)
    ensures
        final(v).deep_view() == resized(old(v).deep_view(), n as nat),
{
    let ghost start = v.deep_view();
    while v.len() > n
        invariant
            start.len() >= v.len(),
            v.len() < start.len() ==> v.len() >= n,
            forall|i: int| 0 <= i < v.len() ==> #[trigger] v[i]@ == start[i],
        decreases v.len(),
    {
        v.pop();
    }
    while v.len() < n
        invariant
            start.len() <= v.len() || v.len() >= n,
            v.len() <= n || v.len() <= start.len(),
            start.len() > n ==> v.len() == n,
            forall|i: int|
                0 <= i < v.len() ==> #[trigger] v[i]@ == (if i < start.len() {
                    start[i]
                } else {
                    0
                }),
        decreases n - v.len(),
    {
        v.push(Fr::zero());
    }
    proof {
        assert(v.deep_view() =~= resized(start, n as nat));
    }
}

/// The entries at even positions.
pub open spec fn evens(s: Seq<int>) -> Seq<int> {
    Seq::new(((s.len() + 1) / 2) as nat, |i: int| s[2 * i])
}

/// The entries at odd positions.
pub open spec fn odds(s: Seq<int>) -> Seq<int> {
    Seq::new(s.len() / 2, |i: int| s[2 * i + 1])
}

/// The recursive transform: split into even and odd positions, transform both,
/// and combine with the powers of `w`; positions past twice the half stay zero.
pub open spec fn fft_spec(c: Seq<int>, w: int) -> Seq<int>
    decreases c.len(),
{
    if c.len() <= 1 {
        c
    } else {
        let e = fft_spec(evens(c), fmul(w, w));
        let o = fft_spec(odds(c), fmul(w, w));
        let h = c.len() / 2;
        Seq::new(
            c.len(),
            |i: int|
                if i < h {
                    fadd(e[i], fmul(o[i], fpow(w, i as nat)))
                } else if i < 2 * h {
                    fsub(e[i - h], fmul(o[i - h], fpow(w, (i - h) as nat)))
                } else {
                    0
                },
        )
    }
}

/// Splits into the entries at even and at odd positions.
pub fn split_odd_even(arr: &Vec<Fr>) -> (r: (Vec<Fr>, Vec<Fr>))
    ensures
        r.0.deep_view() == evens(arr.deep_view()),
        r.1.deep_view() == odds(arr.deep_view()),
{
    let mut even: Vec<Fr> = Vec::new();
    let mut odd: Vec<Fr> = Vec::new();
    let mut i: usize = 0;
    while i < arr.len()
        invariant
            i <= arr.len(),
            even.len() == (i + 1) / 2,
            odd.len() == i / 2,
            forall|k: int| 0 <= k < even.len() ==> #[trigger] even[k]@ == arr[2 * k]@,
            forall|k: int| 0 <= k < odd.len() ==> #[trigger] odd[k]@ == arr[2 * k + 1]@,
        decreases arr.len() - i,
    {
        if i % 2 == 0 {
            even.push(arr[i]);
        } else {
            odd.push(arr[i]);
        }
        i = i + 1;
    }
    proof {
        assert(even.deep_view() =~= evens(arr.deep_view()));
        assert(odd.deep_view() =~= odds(arr.deep_view()));
    }
    (even, odd)
}

/// The low `l` bits of `n` in reverse order.
pub open spec fn reverse_bits(n: nat, l: nat) -> nat
    decreases l,
{
    if l == 0 {
        0
    } else {
        2 * reverse_bits(n, (l - 1) as nat) + (n / two_pow((l - 1) as nat)) % 2
    }
}

/// Shifting a bit in at the bottom, and dropping one.
proof fn lemma_shift_step(r: u32, m: u32)
    by (bit_vector)
    requires
        r < 0x8000_0000u32,
    ensures
        ((r << 1u32) | (m & 1u32)) == 2 * r + m % 2,
        m >> 1u32 == m / 2,
{
}

/// The next bit of `n` from the bottom.
proof fn lemma_next_bit(n: nat, k: nat)
    ensures
        n / two_pow(k + 1) == (n / two_pow(k)) / 2,
{
    crate::pow2::lemma_two_pow_pos(k);
    vstd::arithmetic::div_mod::lemma_div_denominator(n as int, two_pow(k) as int, 2);
    assert(two_pow(k + 1) == two_pow(k) * 2);
}

/// The low `l` bits of `n` in reverse order.
pub fn bitreverse(n: u32, l: u32) -> (r: u32)
    requires
        l <= 32,
    ensures
        r == reverse_bits(n as nat, l as nat),
{
    let mut r: u32 = 0;
    let mut m: u32 = n;
    let mut k: u32 = 0;
    proof {
        assert(two_pow(0) == 1);
        assert(n as nat / 1 == n as nat);
        reveal_with_fuel(two_pow, 32);
        assert(two_pow(31) == 0x8000_0000);
    }
    while k < l
        invariant
            k <= l,
            l <= 32,
            two_pow(31) == 0x8000_0000,
            m as nat == n as nat / two_pow(k as nat),
            r == reverse_bits(n as nat, k as nat),
            r < two_pow(k as nat),
        decreases l - k,
    {
        proof {
            crate::pow2::lemma_two_pow_monotone(k as nat, 31);
            lemma_shift_step(r, m);
            lemma_next_bit(n as nat, k as nat);
        }
        r = (r << 1u32) | (m & 1u32);
        m = m >> 1u32;
        k = k + 1;
    }
    r
}

/// Values of a polynomial over a domain.
#[derive(Clone, Debug)]
pub struct UnivariateEval {
    /// The values.
    pub values: Vec<Fr>,
    /// The domain they are taken over.
    pub domain: Domain,
}

/// What `fft_in_place` makes of `v` over a domain of `size` elements with
/// twiddle base `w`.
pub open spec fn transform(v: Seq<int>, size: nat, w: int) -> Seq<int> {
    if v.len() == 1 {
        v
    } else if size == 0 {
        Seq::empty()
    } else {
        fft_spec(resized(v, size), w)
    }
}

/// Some number of variables is the least for `n` values.
proof fn lemma_least_vars_from(n: nat, k: nat)
    requires
        k == 0 || two_pow((k - 1) as nat) < n,
    ensures
        exists|j: nat| least_vars(n, j),
    decreases n - k,
{
    if n <= two_pow(k) {
        assert(least_vars(n, k));
    } else {
        assert(two_pow(k + 1) == 2 * two_pow(k));
        crate::pow2::lemma_two_pow_pos(k);
        crate::pow2::lemma_two_pow_gt(k);
        lemma_least_vars_from(n, k + 1);
    }
}

/// The domain for `n` values holds at least `n` (and at least one) elements.
pub proof fn lemma_domain_size_covers(n: nat)
    ensures
        domain_size(n) >= n,
        domain_size(n) >= 1,
{
    lemma_least_vars_from(n, 0);
    let k = choose|k: nat| least_vars(n, k);
    crate::pow2::lemma_two_pow_pos(k);
}

/// The radix-2 transform of `coeffs` with twiddle base `w`.
fn fft_rec(coeffs: &Vec<Fr>, w: Fr) -> (r: Vec<Fr>)
    requires
        coeffs.len() >= 1,
    ensures
        r.deep_view() == fft_spec(coeffs.deep_view(), w@),
    decreases coeffs.len(),
{
    let len_of_coeffs = coeffs.len();
    let ghost w0 = w@;
    if len_of_coeffs == 1 {
        let r = crate::multilinear::copy_elems(coeffs);
        proof {
            assert(r.deep_view() =~= coeffs.deep_view());
        }
        return r;
    }
    let (even, odd) = split_odd_even(coeffs);
    proof {
        assert(even.len() == even.deep_view().len());
        assert(odd.len() == odd.deep_view().len());
        assert(coeffs.len() == coeffs.deep_view().len());
    }
    let ww = w.mul(&w);
    let y_even = fft_rec(&even, ww);
    let y_odd = fft_rec(&odd, ww);
    let h = len_of_coeffs / 2;
    let mut y: Vec<Fr> = Vec::new();
    let mut k: usize = 0;
    while k < len_of_coeffs
        invariant
            k <= len_of_coeffs,
            y.len() == k,
            forall|i: int| 0 <= i < k ==> #[trigger] y[i]@ == 0,
        decreases len_of_coeffs - k,
    {
        y.push(Fr::zero());
        k = k + 1;
    }
    let ghost e = fft_spec(evens(coeffs.deep_view()), fmul(w0, w0));
    let ghost o = fft_spec(odds(coeffs.deep_view()), fmul(w0, w0));
    let mut j: usize = 0;
    while j < h
        invariant
            h == len_of_coeffs / 2,
            y.len() == len_of_coeffs,
            w@ == w0,
            y_even.deep_view() == e,
            y_odd.deep_view() == o,
            e.len() == (len_of_coeffs + 1) / 2,
            o.len() == len_of_coeffs / 2,
            j <= h,
            forall|i: int|
                0 <= i < len_of_coeffs ==> #[trigger] y[i]@ == (if i < j {
                    fadd(e[i], fmul(o[i], fpow(w0, i as nat)))
                } else if h <= i < h + j {
                    fsub(e[i - h], fmul(o[i - h], fpow(w0, (i - h) as nat)))
                } else {
                    0
                }),
        decreases h - j,
    {
        let t = y_odd[j].mul(&w.pow(j as u64));
        proof {
            assert(y_even.deep_view()[j as int] == y_even[j as int]@);
            assert(y_odd.deep_view()[j as int] == y_odd[j as int]@);
        }
        y.set(j, y_even[j].add(&t));
        y.set(j + h, y_even[j].sub(&t));
        j = j + 1;
    }
    proof {
        assert(y.deep_view() =~= fft_spec(coeffs.deep_view(), w0));
    }
    y
}

/// Each entry multiplied by `k`.
pub open spec fn scale_all(s: Seq<int>, k: int) -> Seq<int> {
    Seq::new(s.len(), |i: int| fmul(s[i], k))
}

/// What `ifft_in_place` makes of `v` over a domain of `size` elements with
/// twiddle base `w`: the transform divided by `size`.
pub open spec fn inverse_transform(v: Seq<int>, size: nat, w: int) -> Seq<int> {
    if v.len() == 1 {
        v
    } else if size == 0 {
        Seq::empty()
    } else {
        scale_all(fft_spec(resized(v, size), w), finv(size as int))
    }
}

/// A copy of a vector of field elements.
fn copy_elems(v: &Vec<Fr>) -> (r: Vec<Fr>)
    ensures
        r@ == v@,
{
    let mut r: Vec<Fr> = Vec::new();
    let mut i: usize = 0;
    while i < v.len()
        invariant
            i <= v.len(),
            r@ == v@.take(i as int),
        decreases v.len() - i,
    {
        r.push(v[i]);
        proof {
            assert(v@.take(i + 1) =~= v@.take(i as int).push(v@[i as int]));
        }
        i = i + 1;
    }
    proof {
        assert(v@.take(v.len() as int) =~= v@);
    }
    r
}

impl UnivariateEval {
    /// Wraps values and their domain.
    pub fn new(values: Vec<Fr>, domain: Domain) -> (r: Self)
        ensures
            r.values@ == values@,
            r.domain == domain,
    {
        UnivariateEval { values, domain }
    }

    /// The values of the polynomial with the given coefficients over the
    /// smallest domain that holds them: the coefficients' transform with the
    /// domain's generator.
    pub fn from_coefficients(coefficients: Vec<Fr>) -> (r: Self)
        requires
            coefficients.len() <= usize::MAX / 2 + 1,
            domain_size(coefficients.len() as nat) <= two_pow(32),
            domain_size(coefficients.len() as nat) <= usize::MAX,
        ensures
            r.domain.size == domain_size(coefficients.len() as nat),
            subgroup_root_of_unity(r.domain.size as nat) == Some(r.domain.generator@),
            is_inverse(r.domain.generator@, r.domain.group_gen_inverse@),
            r.values.deep_view() == transform(
                coefficients.deep_view(),
                r.domain.size as nat,
                r.domain.generator@,
            ),
    {
        let mut coeffs = coefficients;
        let domain = Domain::new(coeffs.len());
        domain.fft_in_place(&mut coeffs);
        UnivariateEval { values: coeffs, domain }
    }

    /// The coefficients of the polynomial: the values' inverse transform (with
    /// the inverse of the domain's generator, divided by the domain's size).
    pub fn to_coefficients(&self) -> (r: Vec<Fr>)
        requires
            self.domain.size <= usize::MAX,
        ensures
            r.deep_view() == inverse_transform(
                self.values.deep_view(),
                self.domain.size as nat,
                self.domain.group_gen_inverse@,
            ),
    {
        let mut evals = copy_elems(&self.values);
        proof {
            assert(evals.deep_view() =~= self.values.deep_view());
        }
        self.domain.ifft_in_place(&mut evals);
        evals
    }

    /// `to_coefficients` as a polynomial.
    pub fn to_coefficient_poly(&self) -> (r: UnivariantPolynomial)
        requires
            self.domain.size <= usize::MAX,
        ensures
            r.coefficients.deep_view() == inverse_transform(
                self.values.deep_view(),
                self.domain.size as nat,
                self.domain.group_gen_inverse@,
            ),
    {
        UnivariantPolynomial::new(self.to_coefficients())
    }

    /// The product of two polynomials through the evaluation form: both are
    /// transformed over the domain for `len = |poly1| + |poly2| - 1`
    /// coefficients, multiplied value by value on the first `len` points, and
    /// transformed back; the first `len` coefficients are kept.
    pub fn multiply(poly1: &UnivariantPolynomial, poly2: &UnivariantPolynomial) -> (r: UnivariantPolynomial)
        requires
            poly1.coefficients.len() + poly2.coefficients.len() >= 1,
            poly1.coefficients.len() == 1 || poly2.coefficients.len() == 1 ==> poly1.coefficients.len()
                + poly2.coefficients.len() <= 2,
            poly1.coefficients.len() + poly2.coefficients.len() - 1 <= usize::MAX / 2 + 1,
            domain_size((poly1.coefficients.len() + poly2.coefficients.len() - 1) as nat) <= two_pow(32),
            domain_size((poly1.coefficients.len() + poly2.coefficients.len() - 1) as nat) <= usize::MAX,
        ensures
            ({
                let len = (poly1.coefficients.len() + poly2.coefficients.len() - 1) as nat;
                let n = domain_size(len);
                let w = subgroup_root_of_unity(n)->0;
                let e1 = transform(poly1.coefficients.deep_view(), n, w);
                let e2 = transform(poly2.coefficients.deep_view(), n, w);
                &&& subgroup_root_of_unity(n) is Some
                &&& exists|winv: int|
                    is_inverse(w, winv) && r.coefficients.deep_view() == inverse_transform(
                        Seq::new(len, |i: int| fmul(e1[i], e2[i])),
                        n,
                        winv,
                    ).take(len as int)
            }),
    {
        let len = poly1.coefficients.len() + poly2.coefficients.len() - 1;
        let domain = Domain::new(len);
        let ghost n = domain.size as nat;
        let mut e1 = copy_elems(&poly1.coefficients);
        let mut e2 = copy_elems(&poly2.coefficients);
        proof {
            assert(e1.deep_view() =~= poly1.coefficients.deep_view());
            assert(e2.deep_view() =~= poly2.coefficients.deep_view());
        }
        domain.fft_in_place(&mut e1);
        domain.fft_in_place(&mut e2);
        proof {
            lemma_domain_size_covers(len as nat);
        }
        let ghost t1 = transform(poly1.coefficients.deep_view(), n, domain.generator@);
        let ghost t2 = transform(poly2.coefficients.deep_view(), n, domain.generator@);
        proof {
            assert(fft_spec(resized(poly1.coefficients.deep_view(), n), domain.generator@).len() == n);
            assert(fft_spec(resized(poly2.coefficients.deep_view(), n), domain.generator@).len() == n);
        }
        let mut prod: Vec<Fr> = Vec::new();
        let mut i: usize = 0;
        while i < len
            invariant
                i <= len,
                len <= e1.len(),
                len <= e2.len(),
                e1.deep_view() == t1,
                e2.deep_view() == t2,
                prod.len() == i,
                forall|j: int| 0 <= j < i ==> (#[trigger] prod@[j])@ == fmul(t1[j], t2[j]),
            decreases len - i,
        {
            proof {
                assert(e1.deep_view()[i as int] == e1@[i as int]@);
                assert(e2.deep_view()[i as int] == e2@[i as int]@);
            }
            prod.push(e1[i].mul(&e2[i]));
            i = i + 1;
        }
        let ghost pv = prod.deep_view();
        proof {
            assert(pv =~= Seq::new(len as nat, |i: int| fmul(t1[i], t2[i])));
        }
        domain.ifft_in_place(&mut prod);
        let ghost back = inverse_transform(pv, n, domain.group_gen_inverse@);
        proof {
            assert(fft_spec(resized(pv, n), domain.group_gen_inverse@).len() == n);
            assert(back.len() >= len);
            assert(prod.len() == prod.deep_view().len());
        }
        let mut out: Vec<Fr> = Vec::new();
        let mut k: usize = 0;
        while k < len
            invariant
                k <= len,
                len <= prod.len(),
                prod.deep_view() == back,
                out.len() == k,
                forall|j: int| 0 <= j < k ==> #[trigger] out[j]@ == back[j],
            decreases len - k,
        {
            proof {
                assert(prod.deep_view()[k as int] == prod[k as int]@);
            }
            out.push(prod[k]);
            k = k + 1;
        }
        proof {
            assert forall|j: int| 0 <= j < out.len() implies #[trigger] out.deep_view()[j] == back.take(
                len as int,
            )[j] by {
                assert(out[j]@ == back[j]);
            }
        }
        proof {
            assert(back.take(len as int).len() == len);
            assert(out.deep_view() =~= back.take(len as int));
            assert(is_inverse(domain.generator@, domain.group_gen_inverse@));
            let w = subgroup_root_of_unity(domain_size(len as nat))->0;
            assert(w == domain.generator@);
            let e1 = transform(poly1.coefficients.deep_view(), domain_size(len as nat), w);
            let e2 = transform(poly2.coefficients.deep_view(), domain_size(len as nat), w);
            assert(e1 == t1 && e2 == t2);
            assert(Seq::new(len as nat, |i: int| fmul(e1[i], e2[i])) =~= Seq::new(
                len as nat,
                |i: int| fmul(t1[i], t2[i]),
            ));
            assert(is_inverse(domain.generator@, domain.group_gen_inverse@) && out.deep_view()
                == inverse_transform(Seq::new(len as nat, |i: int| fmul(t1[i], t2[i])), n, domain.group_gen_inverse@).take(
                len as int,
            ));
        }
        UnivariantPolynomial::new(out)
    }
}

} // verus!
