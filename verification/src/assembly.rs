//! The assembly language of the PLONK compiler: an equation such as
//! `d <== a * c - 45 * a + 987` becomes a gate's wires and a map from terms
//! (products of variables, the constant `""`, `$output_coeff`, `$public`) to
//! coefficients.
#![allow(non_snake_case)]
use crate::field::{fadd, fmul, fneg, fr_modulus, Fr};
use crate::plonk::{Gate, GateWire};
use vstd::prelude::*;
use vstd::slice::slice_subrange;
use vstd::string::StrSliceExecFns;
use vstd::string::StringExecFns;

verus! {

// ---------------------------------------------------------------------------
// Characters, names and literals
// ---------------------------------------------------------------------------

/// An ASCII decimal digit.
pub open spec fn is_digit(c: char) -> bool {
    48 <= (c as u32) <= 57
}

/// An ASCII letter.
pub open spec fn is_letter(c: char) -> bool {
    (65 <= (c as u32) <= 90) || (97 <= (c as u32) <= 122)
}

/// A variable name: one or more ASCII letters and digits, not starting with a
/// digit.
pub open spec fn is_valid_name(s: Seq<char>) -> bool {
    &&& s.len() > 0
    &&& !is_digit(s[0])
    &&& forall|i: int| 0 <= i < s.len() ==> is_digit(#[trigger] s[i]) || is_letter(s[i])
}

/// The value of a string of decimal digits.
pub open spec fn digits_value(s: Seq<char>) -> int
    decreases s.len(),
{
    if s.len() == 0 {
        0
    } else {
        digits_value(s.drop_last()) * 10 + ((s.last() as u32) - 48)
    }
}

/// One or more decimal digits.
pub open spec fn all_digits(s: Seq<char>) -> bool {
    s.len() > 0 && forall|i: int| 0 <= i < s.len() ==> is_digit(#[trigger] s[i])
}

/// The largest value of an `i128`.
pub open spec fn i128_max() -> int {
    0x7fff_ffff_ffff_ffff_ffff_ffff_ffff_ffffint
}

/// The value of an integer literal without a minus sign, as `i128` parsing
/// takes it: an optional `+`, then decimal digits, at most `i128::MAX`.
pub open spec fn unsigned_literal(s: Seq<char>) -> Option<int> {
    let d = if s.len() > 0 && s[0] == '+' {
        s.drop_first()
    } else {
        s
    };
    if all_digits(d) && digits_value(d) <= i128_max() {
        Some(digits_value(d))
    } else {
        None
    }
}

/// The field element `v`, negated when `neg` holds.
pub open spec fn signed(v: int, neg: bool) -> int {
    if neg {
        fneg(v % fr_modulus())
    } else {
        v % fr_modulus()
    }
}

/// Lexicographic order on character strings (the order in which `str` compares
/// ASCII names).
pub open spec fn name_le(a: Seq<char>, b: Seq<char>) -> bool
    decreases a.len(),
{
    if a.len() == 0 {
        true
    } else if b.len() == 0 {
        false
    } else if a[0] != b[0] {
        (a[0] as u32) < (b[0] as u32)
    } else {
        name_le(a.drop_first(), b.drop_first())
    }
}

// ---------------------------------------------------------------------------
// Terms: a term is the sorted list of the variables it multiplies (the empty
// list is the constant term), with a coefficient.
// ---------------------------------------------------------------------------

/// `x` put into the sorted list `k` before the first entry that is not below it.
pub open spec fn insert_sorted(k: Seq<Seq<char>>, x: Seq<char>) -> Seq<Seq<char>>
    decreases k.len(),
{
    if k.len() == 0 {
        seq![x]
    } else if name_le(x, k[0]) {
        seq![x] + k
    } else {
        seq![k[0]] + insert_sorted(k.drop_first(), x)
    }
}

/// The variables of the product of two terms.
pub open spec fn product_factors(k1: Seq<Seq<char>>, k2: Seq<Seq<char>>) -> Seq<Seq<char>>
    decreases k2.len(),
{
    if k2.len() == 0 {
        k1
    } else {
        insert_sorted(product_factors(k1, k2.drop_last()), k2.last())
    }
}

/// No term occurs twice.
pub open spec fn distinct_terms(m: Seq<(Seq<Seq<char>>, int)>) -> bool {
    forall|i: int, j: int| 0 <= i < j < m.len() ==> (#[trigger] m[i]).0 != (#[trigger] m[j]).0
}

/// Adds `v` to the coefficient of the term `k`, appending the term if it is new.
pub open spec fn add_term(m: Seq<(Seq<Seq<char>>, int)>, k: Seq<Seq<char>>, v: int) -> Seq<
    (Seq<Seq<char>>, int),
> {
    if exists|i: int| 0 <= i < m.len() && (#[trigger] m[i]).0 == k {
        let i = choose|i: int| 0 <= i < m.len() && (#[trigger] m[i]).0 == k;
        m.update(i, (k, fadd(m[i].1, v)))
    } else {
        m.push((k, v))
    }
}

/// The sum of two term lists: the terms of `r` added one by one into `acc`.
pub open spec fn merge_terms(acc: Seq<(Seq<Seq<char>>, int)>, r: Seq<(Seq<Seq<char>>, int)>) -> Seq<
    (Seq<Seq<char>>, int),
>
    decreases r.len(),
{
    if r.len() == 0 {
        acc
    } else {
        add_term(merge_terms(acc, r.drop_last()), r.last().0, r.last().1)
    }
}

/// `acc` with the products of the term `(k1, v1)` and each term of `r` added.
pub open spec fn multiply_row(
    acc: Seq<(Seq<Seq<char>>, int)>,
    k1: Seq<Seq<char>>,
    v1: int,
    r: Seq<(Seq<Seq<char>>, int)>,
) -> Seq<(Seq<Seq<char>>, int)>
    decreases r.len(),
{
    if r.len() == 0 {
        acc
    } else {
        add_term(
            multiply_row(acc, k1, v1, r.drop_last()),
            product_factors(k1, r.last().0),
            fmul(v1, r.last().1),
        )
    }
}

/// The product of two term lists, term by term in order.
pub open spec fn multiply_terms(l: Seq<(Seq<Seq<char>>, int)>, r: Seq<(Seq<Seq<char>>, int)>) -> Seq<
    (Seq<Seq<char>>, int),
>
    decreases l.len(),
{
    if l.len() == 0 {
        Seq::empty()
    } else {
        multiply_row(multiply_terms(l.drop_last(), r), l.last().0, l.last().1, r)
    }
}

// ---------------------------------------------------------------------------
// Executable helpers on names and term lists
// ---------------------------------------------------------------------------

/// The characters of each token.
pub open spec fn token_texts(s: Seq<&str>) -> Seq<Seq<char>> {
    s.map_values(|t: &str| t@)
}

/// The term lists that a vector of (variables, coefficient) pairs stands for.
pub open spec fn term_views<'a>(m: Seq<(Vec<&'a str>, Fr)>) -> Seq<(Seq<Seq<char>>, int)> {
    m.map_values(|e: (Vec<&'a str>, Fr)| (token_texts(e.0@), e.1@))
}

/// Whether two strings hold the same characters.
fn str_eq(a: &str, b: &str) -> (r: bool)
    ensures
        r == (a@ == b@),
{
    let n = a.unicode_len();
    if n != b.unicode_len() {
        return false;
    }
    let mut i: usize = 0;
    while i < n
        invariant
            n == a@.len(),
            n == b@.len(),
            i <= n,
            forall|j: int| 0 <= j < i ==> a@[j] == b@[j],
        decreases n - i,
    {
        if (a.get_char(i) as u32) != (b.get_char(i) as u32) {
            return false;
        }
        i = i + 1;
    }
    proof {
        assert(a@ =~= b@);
    }
    true
}

/// Whether a token is the one-character operator `op`.
fn is_op(t: &str, op: char) -> (r: bool)
    ensures
        r == (t@ == seq![op]),
{
    if t.unicode_len() != 1 {
        return false;
    }
    let c = t.get_char(0);
    proof {
        if c as u32 == op as u32 {
            assert(t@ =~= seq![op]);
        }
    }
    (c as u32) == (op as u32)
}

/// `name_le` on strings.
fn name_le_exec(a: &str, b: &str) -> (r: bool)
    ensures
        r == name_le(a@, b@),
{
    let na = a.unicode_len();
    let nb = b.unicode_len();
    let mut i: usize = 0;
    proof {
        assert(a@.skip(0) =~= a@);
        assert(b@.skip(0) =~= b@);
    }
    while i < na && i < nb
        invariant
            i <= na,
            i <= nb,
            na == a@.len(),
            nb == b@.len(),
            name_le(a@, b@) == name_le(a@.skip(i as int), b@.skip(i as int)),
        decreases na - i,
    {
        let ca = a.get_char(i);
        let cb = b.get_char(i);
        proof {
            assert(a@.skip(i as int)[0] == ca);
            assert(b@.skip(i as int)[0] == cb);
        }
        if (ca as u32) != (cb as u32) {
            return (ca as u32) < (cb as u32);
        }
        proof {
            assert(a@.skip(i as int).drop_first() =~= a@.skip(i + 1));
            assert(b@.skip(i as int).drop_first() =~= b@.skip(i + 1));
        }
        i = i + 1;
    }
    proof {
        if i == na {
            assert(a@.skip(i as int).len() == 0);
        } else {
            assert(b@.skip(i as int).len() == 0);
        }
    }
    i == na
}

/// Whether a string is a valid variable name.
fn is_valid_name_exec(t: &str) -> (r: bool)
    ensures
        r == is_valid_name(t@),
{
    let n = t.unicode_len();
    if n == 0 {
        return false;
    }
    let c0 = t.get_char(0) as u32;
    if 48 <= c0 && c0 <= 57 {
        return false;
    }
    let mut i: usize = 0;
    while i < n
        invariant
            n == t@.len(),
            i <= n,
            forall|j: int| 0 <= j < i ==> is_digit(#[trigger] t@[j]) || is_letter(t@[j]),
        decreases n - i,
    {
        let c = t.get_char(i) as u32;
        if !((48 <= c && c <= 57) || (65 <= c && c <= 90) || (97 <= c && c <= 122)) {
            proof {
                assert(!(is_digit(t@[i as int]) || is_letter(t@[i as int])));
            }
            return false;
        }
        i = i + 1;
    }
    true
}

/// A string of digits is worth at least each of its prefixes.
proof fn lemma_digits_prefix(s: Seq<char>, i: int)
    requires
        0 <= i <= s.len(),
        forall|j: int| 0 <= j < s.len() ==> is_digit(#[trigger] s[j]),
    ensures
        digits_value(s) >= digits_value(s.take(i)),
        digits_value(s) >= 0,
    decreases s.len(),
{
    if s.len() > 0 {
        let d = s.drop_last();
        assert forall|j: int| 0 <= j < d.len() implies is_digit(#[trigger] d[j]) by {
            assert(d[j] == s[j]);
        }
        assert(is_digit(s[s.len() - 1]));
        if i == s.len() {
            assert(s.take(i) =~= s);
            lemma_digits_prefix(d, 0);
        } else {
            lemma_digits_prefix(d, i);
            assert(d.take(i) =~= s.take(i));
        }
    } else {
        assert(s.take(i) =~= s);
    }
}

/// The digits of `s` from `start` on, parsed, or `None` past `i128::MAX`.
fn parse_unsigned(t: &str) -> (r: Option<u128>)
    ensures
        match r {
            Some(v) => unsigned_literal(t@) == Some(v as int),
            None => unsigned_literal(t@) is None,
        },
{
    let n = t.unicode_len();
    let ghost s = t@;
    let start: usize = if n > 0 && t.get_char(0) == '+' {
        1
    } else {
        0
    };
    let ghost d = if s.len() > 0 && s[0] == '+' {
        s.drop_first()
    } else {
        s
    };
    proof {
        assert(d =~= s.subrange(start as int, n as int));
    }
    if start == n {
        return None;
    }
    let mut v: u128 = 0;
    let mut i: usize = start;
    proof {
        assert(d.take(0) =~= Seq::<char>::empty());
    }
    while i < n
        invariant
            s == t@,
            n == s.len(),
            start <= i <= n,
            d =~= s.subrange(start as int, n as int),
            d == (if s.len() > 0 && s[0] == '+' {
                s.drop_first()
            } else {
                s
            }),
            forall|j: int| 0 <= j < i - start ==> is_digit(#[trigger] d[j]),
            v as int == digits_value(d.take(i - start)),
            v as int <= i128_max(),
        decreases n - i,
    {
        let c = t.get_char(i) as u32;
        proof {
            assert(d[i - start] == s[i as int]);
        }
        if !(48 <= c && c <= 57) {
            proof {
                assert(!all_digits(d));
            }
            return None;
        }
        let digit = (c - 48) as u128;
        proof {
            let k = i - start;
            assert(d.take(k + 1).drop_last() =~= d.take(k));
            assert(d.take(k + 1).last() == d[k]);
            assert(digits_value(d.take(k + 1)) == v * 10 + digit);
        }
        if v > 17014118346046923173168730371588410572u128 {
            proof {
                let k = i - start;
                assert(digits_value(d.take(k + 1)) > i128_max());
                if all_digits(d) {
                    lemma_digits_prefix(d, k + 1);
                    assert(digits_value(d) > i128_max());
                }
                assert(unsigned_literal(s) is None);
            }
            return None;
        }
        let w = v * 10 + digit;
        if w > 170141183460469231731687303715884105727u128 {
            proof {
                let k = i - start;
                if all_digits(d) {
                    lemma_digits_prefix(d, k + 1);
                    assert(digits_value(d) > i128_max());
                }
                assert(unsigned_literal(s) is None);
            }
            return None;
        }
        v = w;
        i = i + 1;
    }
    proof {
        assert(d.take(n - start) =~= d);
    }
    Some(v)
}

/// A copy of a list of names.
fn copy_names<'a>(k: &Vec<&'a str>) -> (r: Vec<&'a str>)
    ensures
        r@ == k@,
{
    let mut r: Vec<&'a str> = Vec::new();
    let mut i: usize = 0;
    while i < k.len()
        invariant
            i <= k.len(),
            r@ == k@.take(i as int),
        decreases k.len() - i,
    {
        r.push(k[i]);
        proof {
            assert(k@.take(i + 1) =~= k@.take(i as int).push(k@[i as int]));
        }
        i = i + 1;
    }
    proof {
        assert(k@.take(k.len() as int) =~= k@);
    }
    r
}

/// Whether two name lists hold the same names in the same order.
fn names_eq(a: &Vec<&str>, b: &Vec<&str>) -> (r: bool)
    ensures
        r == (token_texts(a@) == token_texts(b@)),
{
    if a.len() != b.len() {
        proof {
            assert(token_texts(a@).len() != token_texts(b@).len());
        }
        return false;
    }
    let mut i: usize = 0;
    while i < a.len()
        invariant
            a.len() == b.len(),
            i <= a.len(),
            forall|j: int| 0 <= j < i ==> a@[j]@ == b@[j]@,
        decreases a.len() - i,
    {
        if !str_eq(a[i], b[i]) {
            proof {
                assert(token_texts(a@)[i as int] != token_texts(b@)[i as int]);
            }
            return false;
        }
        i = i + 1;
    }
    proof {
        assert(token_texts(a@) =~= token_texts(b@));
    }
    true
}

/// Where a name goes into a sorted list: after the entries below it.
proof fn lemma_insert_sorted_at(k: Seq<Seq<char>>, x: Seq<char>, i: int)
    requires
        0 <= i <= k.len(),
        forall|j: int| 0 <= j < i ==> !name_le(x, #[trigger] k[j]),
        i == k.len() || name_le(x, k[i]),
    ensures
        insert_sorted(k, x) == k.insert(i, x),
    decreases k.len(),
{
    if k.len() == 0 {
        assert(k.insert(i, x) =~= seq![x]);
    } else if i == 0 {
        assert(k.insert(i, x) =~= seq![x] + k);
    } else {
        assert(!name_le(x, k[0]));
        let t = k.drop_first();
        assert forall|j: int| 0 <= j < i - 1 implies !name_le(x, #[trigger] t[j]) by {
            assert(t[j] == k[j + 1]);
        }
        lemma_insert_sorted_at(t, x, i - 1);
        assert(k.insert(i, x) =~= seq![k[0]] + t.insert(i - 1, x));
    }
}

/// Puts a name into a sorted list of names.
fn insert_name<'a>(k: &mut Vec<&'a str>, x: &'a str)
    ensures
        token_texts(final(k)@) == insert_sorted(token_texts(old(k)@), x@),
{
    let ghost ks = token_texts(k@);
    let mut i: usize = 0;
    let mut found = false;
    while !found && i < k.len()
        invariant
            i <= k.len(),
            ks == token_texts(k@),
            forall|j: int| 0 <= j < i ==> !name_le(x@, #[trigger] ks[j]),
            found ==> i < k.len() && name_le(x@, ks[i as int]),
        decreases k.len() - i + if found {
            0int
        } else {
            1int
        },
    {
        if name_le_exec(x, k[i]) {
            found = true;
        } else {
            i = i + 1;
        }
    }
    proof {
        lemma_insert_sorted_at(ks, x@, i as int);
    }
    k.insert(i, x);
    proof {
        assert(token_texts(k@) =~= ks.insert(i as int, x@));
    }
}

/// The variables of the product of two terms.
fn product_names<'a>(k1: &Vec<&'a str>, k2: &Vec<&'a str>) -> (r: Vec<&'a str>)
    ensures
        token_texts(r@) == product_factors(token_texts(k1@), token_texts(k2@)),
{
    let mut r = copy_names(k1);
    let mut j: usize = 0;
    while j < k2.len()
        invariant
            j <= k2.len(),
            token_texts(r@) == product_factors(token_texts(k1@), token_texts(k2@).take(j as int)),
        decreases k2.len() - j,
    {
        proof {
            let t = token_texts(k2@).take(j + 1);
            assert(t.drop_last() =~= token_texts(k2@).take(j as int));
            assert(t.last() == k2@[j as int]@);
        }
        insert_name(&mut r, k2[j]);
        j = j + 1;
    }
    proof {
        assert(token_texts(k2@).take(k2.len() as int) =~= token_texts(k2@));
    }
    r
}

/// Adds `v` to the coefficient of the term `k`.
fn add_term_exec<'a>(m: &mut Vec<(Vec<&'a str>, Fr)>, k: Vec<&'a str>, v: Fr)
    requires
        distinct_terms(term_views(old(m)@)),
    ensures
        term_views(final(m)@) == add_term(term_views(old(m)@), token_texts(k@), v@),
        distinct_terms(term_views(final(m)@)),
{
    let ghost tm = term_views(m@);
    let ghost kk = token_texts(k@);
    let mut i: usize = 0;
    let mut found = false;
    while !found && i < m.len()
        invariant
            i <= m.len(),
            tm == term_views(m@),
            kk == token_texts(k@),
            forall|j: int| 0 <= j < i ==> (#[trigger] tm[j]).0 != kk,
            found ==> i < m.len() && tm[i as int].0 == kk,
        decreases m.len() - i + if found {
            0int
        } else {
            1int
        },
    {
        proof {
            assert(tm[i as int] == (token_texts(m@[i as int].0@), m@[i as int].1@));
        }
        if names_eq(&m[i].0, &k) {
            found = true;
        } else {
            i = i + 1;
        }
    }
    if found {
        let c = m[i].1.add(&v);
        proof {
            assert(tm[i as int].0 == kk);
            let j = choose|j: int| 0 <= j < tm.len() && (#[trigger] tm[j]).0 == kk;
            if j != i {
                if j < i {
                    assert(tm[j].0 != tm[i as int].0);
                } else {
                    assert(tm[i as int].0 != tm[j].0);
                }
            }
        }
        m.set(i, (k, c));
        proof {
            assert(term_views(m@) =~= tm.update(i as int, (kk, fadd(tm[i as int].1, v@))));
            assert forall|a: int, b: int| 0 <= a < b < term_views(m@).len() implies (#[trigger] term_views(
                m@,
            )[a]).0 != (#[trigger] term_views(m@)[b]).0 by {
                assert(tm[a].0 != tm[b].0);
            }
        }
    } else {
        m.push((k, v));
        proof {
            assert(term_views(m@) =~= tm.push((kk, v@)));
            assert forall|a: int, b: int| 0 <= a < b < term_views(m@).len() implies (#[trigger] term_views(
                m@,
            )[a]).0 != (#[trigger] term_views(m@)[b]).0 by {
                if b < tm.len() {
                    assert(tm[a].0 != tm[b].0);
                } else {
                    assert(tm[a].0 != kk);
                }
            }
        }
    }
}

/// The sum of two term lists.
fn merge_exec<'a>(a: Vec<(Vec<&'a str>, Fr)>, b: &Vec<(Vec<&'a str>, Fr)>) -> (r: Vec<(Vec<&'a str>, Fr)>)
    requires
        distinct_terms(term_views(a@)),
    ensures
        term_views(r@) == merge_terms(term_views(a@), term_views(b@)),
        distinct_terms(term_views(r@)),
{
    let ghost ta = term_views(a@);
    let ghost tb = term_views(b@);
    let mut acc = a;
    let mut j: usize = 0;
    proof {
        assert(tb.take(0) =~= Seq::<(Seq<Seq<char>>, int)>::empty());
    }
    while j < b.len()
        invariant
            j <= b.len(),
            tb == term_views(b@),
            term_views(acc@) == merge_terms(ta, tb.take(j as int)),
            distinct_terms(term_views(acc@)),
        decreases b.len() - j,
    {
        let k = copy_names(&b[j].0);
        proof {
            assert(tb.take(j + 1).drop_last() =~= tb.take(j as int));
            assert(tb.take(j + 1).last() == tb[j as int]);
        }
        add_term_exec(&mut acc, k, b[j].1);
        j = j + 1;
    }
    proof {
        assert(tb.take(b.len() as int) =~= tb);
    }
    acc
}

/// The product of two term lists.
fn multiply_exec<'a>(a: &Vec<(Vec<&'a str>, Fr)>, b: &Vec<(Vec<&'a str>, Fr)>) -> (r: Vec<(Vec<&'a str>, Fr)>)
    ensures
        term_views(r@) == multiply_terms(term_views(a@), term_views(b@)),
        distinct_terms(term_views(r@)),
{
    let ghost ta = term_views(a@);
    let ghost tb = term_views(b@);
    let mut acc: Vec<(Vec<&'a str>, Fr)> = Vec::new();
    let mut i: usize = 0;
    proof {
        assert(ta.take(0) =~= Seq::<(Seq<Seq<char>>, int)>::empty());
        assert(term_views(acc@) =~= Seq::<(Seq<Seq<char>>, int)>::empty());
    }
    while i < a.len()
        invariant
            i <= a.len(),
            ta == term_views(a@),
            tb == term_views(b@),
            term_views(acc@) == multiply_terms(ta.take(i as int), tb),
            distinct_terms(term_views(acc@)),
        decreases a.len() - i,
    {
        let ghost before = term_views(acc@);
        let mut j: usize = 0;
        proof {
            assert(tb.take(0) =~= Seq::<(Seq<Seq<char>>, int)>::empty());
        }
        while j < b.len()
            invariant
                i < a.len(),
                j <= b.len(),
                ta == term_views(a@),
                tb == term_views(b@),
                term_views(acc@) == multiply_row(before, ta[i as int].0, ta[i as int].1, tb.take(j as int)),
                distinct_terms(term_views(acc@)),
            decreases b.len() - j,
        {
            let k = product_names(&a[i].0, &b[j].0);
            let c = a[i].1.mul(&b[j].1);
            proof {
                assert(tb.take(j + 1).drop_last() =~= tb.take(j as int));
                assert(tb.take(j + 1).last() == tb[j as int]);
            }
            add_term_exec(&mut acc, k, c);
            j = j + 1;
        }
        proof {
            assert(tb.take(b.len() as int) =~= tb);
            assert(ta.take(i + 1).drop_last() =~= ta.take(i as int));
            assert(ta.take(i + 1).last() == ta[i as int]);
        }
        i = i + 1;
    }
    proof {
        assert(ta.take(a.len() as int) =~= ta);
    }
    acc
}

// ---------------------------------------------------------------------------
// Expressions
// ---------------------------------------------------------------------------

/// Why an equation cannot be assembled.
#[derive(Debug, Clone, Copy, PartialEq, Eq)]
pub enum AssemblyError {
    /// The expression is not a sum of products of numbers and variable names.
    InvalidExpression,
    /// The equation has fewer than two tokens.
    MissingOperator,
    /// The second token is none of `<==`, `===` and `public`.
    UnsupportedOp,
    /// The assigned variable is not a valid name.
    InvalidOutput,
    /// More than two distinct variables occur on the right-hand side.
    TooManyVariables,
    /// A term other than the variables, their product and the constant occurs.
    DisallowedMultiplication,
    /// A public declaration came after a constraint.
    PublicAfterConstraint,
    /// A public declaration does not name its variable.
    MissingPublicName,
    /// A wire of a constraint has no value yet.
    UnassignedVariable,
    /// A variable would get two different values.
    InconsistentAssignment,
    /// The circuit has more constraints than rows.
    TooManyConstraints,
}

/// The first position of the token `op` in `toks`, or `-1`.
pub open spec fn first_op(toks: Seq<Seq<char>>, op: char) -> int {
    if exists|i: int|
        0 <= i < toks.len() && #[trigger] toks[i] == seq![op] && forall|j: int|
            0 <= j < i ==> #[trigger] toks[j] != seq![op] {
        choose|i: int|
            0 <= i < toks.len() && #[trigger] toks[i] == seq![op] && forall|j: int|
                0 <= j < i ==> #[trigger] toks[j] != seq![op]
    } else {
        -1
    }
}

/// `first_op` is `-1` or a position of the sequence.
pub proof fn lemma_first_op_range(toks: Seq<Seq<char>>, op: char)
    ensures
        -1 <= first_op(toks, op) < toks.len(),
{
}

/// The terms of a single token: a number, a variable name, either preceded by
/// minus signs that each flip the sign.
pub open spec fn unit_terms(t: Seq<char>, neg: bool) -> Option<Seq<(Seq<Seq<char>>, int)>>
    decreases t.len(),
{
    if t.len() > 0 && t[0] == '-' {
        unit_terms(t.drop_first(), !neg)
    } else if unsigned_literal(t) is Some {
        Some(seq![(Seq::<Seq<char>>::empty(), signed(unsigned_literal(t)->0, neg))])
    } else if is_valid_name(t) {
        Some(seq![(seq![t], signed(1, neg))])
    } else {
        None
    }
}

/// The terms of an expression given as tokens: it is split at its first `+`,
/// else at its first `-` (the right part negated), else at its first `*` (the
/// two parts multiplied); the sign `neg` applies to the leftmost part.
pub open spec fn expr_terms(toks: Seq<Seq<char>>, neg: bool) -> Option<Seq<(Seq<Seq<char>>, int)>>
    decreases toks.len(),
{
    let p = first_op(toks, '+');
    let m = first_op(toks, '-');
    let t = first_op(toks, '*');
    if p >= 0 {
        proof {
            lemma_first_op_range(toks, '+');
        }
        match (expr_terms(toks.take(p), neg), expr_terms(toks.skip(p + 1), false)) {
            (Some(a), Some(b)) => Some(merge_terms(a, b)),
            _ => None,
        }
    } else if m >= 0 {
        proof {
            lemma_first_op_range(toks, '-');
        }
        match (expr_terms(toks.take(m), neg), expr_terms(toks.skip(m + 1), true)) {
            (Some(a), Some(b)) => Some(merge_terms(a, b)),
            _ => None,
        }
    } else if t >= 0 {
        proof {
            lemma_first_op_range(toks, '*');
        }
        match (expr_terms(toks.take(t), neg), expr_terms(toks.skip(t + 1), false)) {
            (Some(a), Some(b)) => Some(multiply_terms(a, b)),
            _ => None,
        }
    } else if toks.len() == 1 {
        unit_terms(toks[0], neg)
    } else {
        None
    }
}

/// The text of a term's key: its variables joined by `*` (empty for the
/// constant term).
pub open spec fn key_text(k: Seq<Seq<char>>) -> Seq<char>
    decreases k.len(),
{
    if k.len() == 0 {
        Seq::empty()
    } else if k.len() == 1 {
        k[0]
    } else {
        key_text(k.drop_last()) + seq!['*'] + k.last()
    }
}

/// The text of an optional key.
pub open spec fn opt_text(o: Option<String>) -> Option<Seq<char>> {
    match o {
        Some(s) => Some(s@),
        None => None,
    }
}

/// A coefficient vector as (key text, field value) pairs.
pub open spec fn coeff_entries(v: Seq<(Option<String>, Fr)>) -> Seq<(Option<Seq<char>>, int)> {
    v.map_values(|e: (Option<String>, Fr)| (opt_text(e.0), e.1@))
}

/// Term lists as (key text, value) pairs.
pub open spec fn keyed(m: Seq<(Seq<Seq<char>>, int)>) -> Seq<(Option<Seq<char>>, int)> {
    m.map_values(|e: (Seq<Seq<char>>, int)| (Some(key_text(e.0)), e.1))
}

/// The map of (key, value) pairs; where a key occurs twice the first pair
/// counts.
pub open spec fn entries_map(s: Seq<(Option<Seq<char>>, int)>) -> Map<Option<Seq<char>>, int>
    decreases s.len(),
{
    if s.len() == 0 {
        Map::empty()
    } else {
        entries_map(s.drop_first()).insert(s[0].0, s[0].1)
    }
}

/// The coefficient map of a coefficient vector.
pub open spec fn coeff_map(v: Seq<(Option<String>, Fr)>) -> Map<Option<Seq<char>>, int> {
    entries_map(coeff_entries(v))
}

/// The coefficient map of an expression, where it has one.
pub open spec fn expr_coeffs(toks: Seq<Seq<char>>, neg: bool) -> Option<Map<Option<Seq<char>>, int>> {
    match expr_terms(toks, neg) {
        Some(m) => Some(entries_map(keyed(m))),
        None => None,
    }
}

/// The first position of the operator `op` among the tokens.
fn first_op_exec(toks: &[&str], op: char) -> (r: Option<usize>)
    ensures
        match r {
            Some(i) => first_op(token_texts(toks@), op) == i as int && i < toks@.len(),
            None => first_op(token_texts(toks@), op) == -1,
        },
{
    let ghost tt = token_texts(toks@);
    let mut i: usize = 0;
    while i < toks.len()
        invariant
            i <= toks.len(),
            tt == token_texts(toks@),
            forall|j: int| 0 <= j < i ==> #[trigger] tt[j] != seq![op],
        decreases toks.len() - i,
    {
        if is_op(toks[i], op) {
            proof {
                assert(tt[i as int] == seq![op]);
                let c = choose|c: int|
                    0 <= c < tt.len() && #[trigger] tt[c] == seq![op] && forall|j: int|
                        0 <= j < c ==> #[trigger] tt[j] != seq![op];
                if c < i {
                    assert(tt[c] != seq![op]);
                }
                if c > i {
                    assert(tt[i as int] != seq![op]);
                }
            }
            return Some(i);
        }
        proof {
            assert(tt[i as int] == toks@[i as int]@);
        }
        i = i + 1;
    }
    None
}

/// The terms of a single token.
fn unit_exec<'a>(t: &'a str, neg: bool) -> (r: Option<Vec<(Vec<&'a str>, Fr)>>)
    ensures
        match r {
            Some(v) => unit_terms(t@, neg) == Some(term_views(v@)) && distinct_terms(term_views(v@)),
            None => unit_terms(t@, neg) is None,
        },
    decreases t@.len(),
{
    let n = t.unicode_len();
    if n > 0 && t.get_char(0) == '-' {
        let rest = t.substring_char(1, n);
        proof {
            assert(rest@ =~= t@.drop_first());
        }
        return unit_exec(rest, !neg);
    }
    let value = match parse_unsigned(t) {
        Some(v) => {
            let f = Fr::from_u128(v);
            proof {
                vstd::arithmetic::div_mod::lemma_small_mod(v as nat, fr_modulus() as nat);
            }
            Some(
                if neg {
                    f.neg()
                } else {
                    f
                },
            )
        },
        None => None,
    };
    let mut r: Vec<(Vec<&'a str>, Fr)> = Vec::new();
    match value {
        Some(f) => {
            let k0: Vec<&'a str> = Vec::new();
            proof {
                assert(token_texts(k0@) =~= Seq::<Seq<char>>::empty());
            }
            r.push((k0, f));
            proof {
                assert(term_views(r@) =~= seq![(Seq::<Seq<char>>::empty(), f@)]);
            }
            return Some(r);
        },
        None => {},
    }
    if is_valid_name_exec(t) {
        let one = Fr::one();
        let c = if neg {
            one.neg()
        } else {
            one
        };
        proof {
            vstd::arithmetic::div_mod::lemma_small_mod(1, fr_modulus() as nat);
        }
        let mut k: Vec<&'a str> = Vec::new();
        k.push(t);
        r.push((k, c));
        proof {
            assert(token_texts(k@) =~= seq![t@]);
            assert(term_views(r@) =~= seq![(seq![t@], c@)]);
        }
        return Some(r);
    }
    None
}

/// The terms of an expression.
fn eval_exec<'a>(toks: &[&'a str], neg: bool) -> (r: Option<Vec<(Vec<&'a str>, Fr)>>)
    ensures
        match r {
            Some(v) => expr_terms(token_texts(toks@), neg) == Some(term_views(v@)) && distinct_terms(
                term_views(v@),
            ),
            None => expr_terms(token_texts(toks@), neg) is None,
        },
    decreases toks@.len(),
{
    let ghost tt = token_texts(toks@);
    let n = toks.len();
    let (idx, op) = match first_op_exec(toks, '+') {
        Some(i) => (Some(i), '+'),
        None => match first_op_exec(toks, '-') {
            Some(i) => (Some(i), '-'),
            None => match first_op_exec(toks, '*') {
                Some(i) => (Some(i), '*'),
                None => (None, ' '),
            },
        },
    };
    match idx {
        Some(i) => {
            let left = slice_subrange(toks, 0, i);
            let right = slice_subrange(toks, i + 1, n);
            proof {
                assert(token_texts(left@) =~= tt.take(i as int));
                assert(token_texts(right@) =~= tt.skip(i + 1));
            }
            let l = eval_exec(left, neg);
            let r = eval_exec(right, op == '-');
            match (l, r) {
                (Some(a), Some(b)) => {
                    if op == '*' {
                        Some(multiply_exec(&a, &b))
                    } else {
                        Some(merge_exec(a, &b))
                    }
                },
                _ => None,
            }
        },
        None => {
            if n != 1 {
                return None;
            }
            unit_exec(toks[0], neg)
        },
    }
}

/// The joined text of a term's variables.
fn key_string(k: &Vec<&str>) -> (r: String)
    ensures
        r@ == key_text(token_texts(k@)),
{
    let ghost kt = token_texts(k@);
    if k.len() == 0 {
        return String::new();
    }
    let mut s = String::from_str(k[0]);
    let mut j: usize = 1;
    proof {
        assert(kt.take(1).len() == 1);
        assert(kt.take(1)[0] == k@[0]@);
        reveal_strlit("*");
    }
    while j < k.len()
        invariant
            1 <= j <= k.len(),
            kt == token_texts(k@),
            s@ == key_text(kt.take(j as int)),
            "*"@ == seq!['*'],
        decreases k.len() - j,
    {
        s.append("*");
        s.append(k[j]);
        proof {
            assert(kt.take(j + 1).drop_last() =~= kt.take(j as int));
            assert(kt.take(j + 1).last() == k@[j as int]@);
        }
        j = j + 1;
    }
    proof {
        assert(kt.take(k.len() as int) =~= kt);
    }
    s
}

/// Term lists with their keys written out.
fn keyed_exec(m: &Vec<(Vec<&str>, Fr)>) -> (r: Vec<(Option<String>, Fr)>)
    ensures
        coeff_entries(r@) == keyed(term_views(m@)),
{
    let mut r: Vec<(Option<String>, Fr)> = Vec::new();
    let mut i: usize = 0;
    while i < m.len()
        invariant
            i <= m.len(),
            r.len() == i,
            coeff_entries(r@) == keyed(term_views(m@)).take(i as int),
        decreases m.len() - i,
    {
        let key = key_string(&m[i].0);
        let ghost kv = key@;
        let c = m[i].1;
        let ghost before = r@;
        r.push((Some(key), c));
        proof {
            assert(c == m@[i as int].1);
            assert(term_views(m@)[i as int] == (token_texts(m@[i as int].0@), m@[i as int].1@));
            assert(opt_text(r@[i as int].0) == Some(kv));
            assert(coeff_entries(r@)[i as int] == (Some(kv), c@));
            assert(r@.take(i as int) =~= before);
            assert(coeff_entries(r@) =~= keyed(term_views(m@)).take(i + 1));
        }
        i = i + 1;
    }
    proof {
        assert(keyed(term_views(m@)).take(m.len() as int) =~= keyed(term_views(m@)));
    }
    r
}

/// Converts an arithmetic expression of numbers, variables and `+`, `-`, `*`,
/// given as tokens, into the coefficient of each term. For example
/// `a + b * c * 5` gives `a: 1, b*c: 5`. Terms are keyed by their variables in
/// sorted order joined by `*`; the constant term by the empty string. An
/// expression that is not of that form is refused.
pub fn evaluate_expression(exprs: &[&str], first_is_negative: bool) -> (r: Result<
    Vec<(Option<String>, Fr)>,
    AssemblyError,
>)
    ensures
        r is Ok <==> expr_terms(token_texts(exprs@), first_is_negative) is Some,
        r is Err ==> r == Err::<Vec<(Option<String>, Fr)>, AssemblyError>(
            AssemblyError::InvalidExpression,
        ),
        r matches Ok(m) ==> coeff_entries(m@) == keyed(
            expr_terms(token_texts(exprs@), first_is_negative)->0,
        ) && Some(coeff_map(m@)) == expr_coeffs(token_texts(exprs@), first_is_negative),
        r matches Ok(m) ==> distinct_keys(coeff_entries(m@)),
{
    match eval_exec(exprs, first_is_negative) {
        Some(terms) => {
            proof {
                lemma_expr_terms_valid(token_texts(exprs@), first_is_negative);
                lemma_keyed_distinct(term_views(terms@));
            }
            Ok(keyed_exec(&terms))
        },
        None => Err(AssemblyError::InvalidExpression),
    }
}

// ---------------------------------------------------------------------------
// Equations
// ---------------------------------------------------------------------------

/// A white-space character in Unicode's sense (what `str::trim` removes).
pub open spec fn is_ws(c: char) -> bool {
    let u = c as u32;
    (9 <= u <= 13) || u == 32 || u == 0x85 || u == 0xA0 || u == 0x1680 || (0x2000 <= u <= 0x200A)
        || u == 0x2028 || u == 0x2029 || u == 0x202F || u == 0x205F || u == 0x3000
}

/// `s` without its leading white space.
pub open spec fn trim_start(s: Seq<char>) -> Seq<char>
    decreases s.len(),
{
    if s.len() > 0 && is_ws(s[0]) {
        trim_start(s.drop_first())
    } else {
        s
    }
}

/// `s` without its trailing white space.
pub open spec fn trim_end(s: Seq<char>) -> Seq<char>
    decreases s.len(),
{
    if s.len() > 0 && is_ws(s.last()) {
        trim_end(s.drop_last())
    } else {
        s
    }
}

/// The pieces of `s` between the separators `sep` (two separators in a row
/// give an empty piece); there is always at least one piece.
pub open spec fn split_on(s: Seq<char>, sep: char) -> Seq<Seq<char>>
    decreases s.len(),
{
    if s.len() == 0 {
        seq![Seq::empty()]
    } else {
        let p = split_on(s.drop_last(), sep);
        if s.last() == sep {
            p.push(Seq::empty())
        } else {
            p.update(p.len() - 1, p.last().push(s.last()))
        }
    }
}

/// The pieces of `s` between single spaces.
pub open spec fn split_spaces(s: Seq<char>) -> Seq<Seq<char>> {
    split_on(s, ' ')
}

/// The tokens of an equation.
pub open spec fn eq_tokens(eq: Seq<char>) -> Seq<Seq<char>> {
    split_spaces(trim_end(trim_start(eq)))
}

/// A token without its leading minus signs.
pub open spec fn strip_minus(t: Seq<char>) -> Seq<char>
    decreases t.len(),
{
    if t.len() > 0 && t[0] == '-' {
        strip_minus(t.drop_first())
    } else {
        t
    }
}

/// The distinct variable names among the tokens (minus signs stripped), in the
/// order in which they first occur.
pub open spec fn collect_vars(ts: Seq<Seq<char>>) -> Seq<Seq<char>>
    decreases ts.len(),
{
    if ts.len() == 0 {
        Seq::empty()
    } else {
        let v = collect_vars(ts.drop_last());
        let x = strip_minus(ts.last());
        if is_valid_name(x) && !v.contains(x) {
            v.push(x)
        } else {
            v
        }
    }
}

/// `split_on` has at least one piece.
proof fn lemma_split_nonempty(s: Seq<char>, sep: char)
    ensures
        split_on(s, sep).len() >= 1,
    decreases s.len(),
{
    if s.len() > 0 {
        lemma_split_nonempty(s.drop_last(), sep);
    }
}

/// Leading white space ends at the first other character.
proof fn lemma_trim_start_at(s: Seq<char>, i: int)
    requires
        0 <= i <= s.len(),
        forall|j: int| 0 <= j < i ==> is_ws(#[trigger] s[j]),
        i == s.len() || !is_ws(s[i]),
    ensures
        trim_start(s) == s.skip(i),
    decreases i,
{
    if i == 0 {
        assert(s.skip(0) =~= s);
    } else {
        let t = s.drop_first();
        assert forall|j: int| 0 <= j < i - 1 implies is_ws(#[trigger] t[j]) by {
            assert(t[j] == s[j + 1]);
        }
        lemma_trim_start_at(t, i - 1);
        assert(t.skip(i - 1) =~= s.skip(i));
    }
}

/// Trailing white space starts after the last other character.
proof fn lemma_trim_end_at(s: Seq<char>, e: int)
    requires
        0 <= e <= s.len(),
        forall|j: int| e <= j < s.len() ==> is_ws(#[trigger] s[j]),
        e == 0 || !is_ws(s[e - 1]),
    ensures
        trim_end(s) == s.take(e),
    decreases s.len() - e,
{
    if e == s.len() {
        assert(s.take(e) =~= s);
    } else {
        let t = s.drop_last();
        assert(is_ws(s[s.len() - 1]));
        lemma_trim_end_at(t, e);
        assert(t.take(e) =~= s.take(e));
    }
}

/// Whether a character is white space.
fn is_ws_exec(c: char) -> (r: bool)
    ensures
        r == is_ws(c),
{
    let u = c as u32;
    (9 <= u && u <= 13) || u == 32 || u == 0x85 || u == 0xA0 || u == 0x1680 || (0x2000 <= u && u
        <= 0x200A) || u == 0x2028 || u == 0x2029 || u == 0x202F || u == 0x205F || u == 0x3000
}

/// A string without leading and trailing white space.
fn trim_exec<'a>(s: &'a str) -> (r: &'a str)
    ensures
        r@ == trim_end(trim_start(s@)),
{
    let n = s.unicode_len();
    let mut start: usize = 0;
    while start < n && is_ws_exec(s.get_char(start))
        invariant
            start <= n,
            n == s@.len(),
            forall|j: int| 0 <= j < start ==> is_ws(#[trigger] s@[j]),
        decreases n - start,
    {
        start = start + 1;
    }
    proof {
        lemma_trim_start_at(s@, start as int);
    }
    let ghost t = s@.skip(start as int);
    let mut end: usize = n;
    while end > start && is_ws_exec(s.get_char(end - 1))
        invariant
            start <= end <= n,
            n == s@.len(),
            t == s@.skip(start as int),
            forall|j: int| end - start <= j < t.len() ==> is_ws(#[trigger] t[j]),
        decreases end,
    {
        proof {
            assert(t[end - 1 - start] == s@[end - 1]);
        }
        end = end - 1;
    }
    proof {
        if end > start {
            assert(t[end - 1 - start] == s@[end - 1]);
        }
        lemma_trim_end_at(t, end - start);
        assert(t.take(end - start) =~= s@.subrange(start as int, end as int));
    }
    s.substring_char(start, end)
}

/// The pieces of a string between the separators `sep`.
pub(crate) fn split_exec<'a>(s: &'a str, sep: char) -> (r: Vec<&'a str>)
    ensures
        token_texts(r@) == split_on(s@, sep),
{
    let n = s.unicode_len();
    let mut pieces: Vec<&'a str> = Vec::new();
    let mut start: usize = 0;
    let mut i: usize = 0;
    proof {
        assert(s@.take(0) =~= Seq::<char>::empty());
        assert(token_texts(pieces@).push(s@.subrange(0, 0)) =~= split_on(s@.take(0), sep));
    }
    while i < n
        invariant
            start <= i <= n,
            n == s@.len(),
            token_texts(pieces@).push(s@.subrange(start as int, i as int)) == split_on(
                s@.take(i as int),
                sep,
            ),
        decreases n - i,
    {
        let c = s.get_char(i);
        let ghost p = split_on(s@.take(i as int), sep);
        proof {
            assert(s@.take(i + 1).drop_last() =~= s@.take(i as int));
            assert(s@.take(i + 1).last() == c);
            lemma_split_nonempty(s@.take(i as int), sep);
        }
        if c == sep {
            let piece = s.substring_char(start, i);
            let ghost old_t = token_texts(pieces@);
            pieces.push(piece);
            proof {
                assert(token_texts(pieces@) =~= old_t.push(piece@));
                assert(s@.subrange(i + 1, i + 1) =~= Seq::<char>::empty());
                assert(token_texts(pieces@).push(s@.subrange(i + 1, i + 1)) =~= p.push(
                    Seq::empty(),
                ));
            }
            start = i + 1;
        } else {
            proof {
                assert(s@.subrange(start as int, i + 1) =~= s@.subrange(start as int, i as int).push(
                    c,
                ));
                assert(token_texts(pieces@).push(s@.subrange(start as int, i + 1)) =~= p.update(
                    p.len() - 1,
                    p.last().push(c),
                ));
            }
        }
        i = i + 1;
    }
    let last = s.substring_char(start, n);
    pieces.push(last);
    proof {
        assert(s@.take(n as int) =~= s@);
        assert(token_texts(pieces@) =~= split_on(s@, sep));
    }
    pieces
}

/// A token without its leading minus signs.
fn strip_minus_exec<'a>(t: &'a str) -> (r: &'a str)
    ensures
        r@ == strip_minus(t@),
{
    let n = t.unicode_len();
    let mut i: usize = 0;
    proof {
        assert(t@.skip(0) =~= t@);
    }
    while i < n && t.get_char(i) == '-'
        invariant
            i <= n,
            n == t@.len(),
            strip_minus(t@) == strip_minus(t@.skip(i as int)),
        decreases n - i,
    {
        proof {
            assert(t@.skip(i as int).drop_first() =~= t@.skip(i + 1));
        }
        i = i + 1;
    }
    proof {
        assert(t@.skip(i as int) =~= t@.subrange(i as int, n as int));
    }
    t.substring_char(i, n)
}

/// Whether a name occurs in a list of names.
fn contains_name(v: &Vec<&str>, x: &str) -> (r: bool)
    ensures
        r == token_texts(v@).contains(x@),
{
    let mut i: usize = 0;
    while i < v.len()
        invariant
            i <= v.len(),
            forall|j: int| 0 <= j < i ==> #[trigger] v@[j]@ != x@,
        decreases v.len() - i,
    {
        if str_eq(v[i], x) {
            proof {
                assert(token_texts(v@)[i as int] == x@);
            }
            return true;
        }
        i = i + 1;
    }
    proof {
        if token_texts(v@).contains(x@) {
            let j = choose|j: int| 0 <= j < token_texts(v@).len() && token_texts(v@)[j] == x@;
            assert(v@[j]@ == x@);
        }
    }
    false
}

/// The distinct variable names among the tokens.
fn collect_vars_exec<'a>(toks: &[&'a str]) -> (r: Vec<&'a str>)
    ensures
        token_texts(r@) == collect_vars(token_texts(toks@)),
{
    let ghost tt = token_texts(toks@);
    let mut vars: Vec<&'a str> = Vec::new();
    let mut j: usize = 0;
    proof {
        assert(tt.take(0) =~= Seq::<Seq<char>>::empty());
        assert(token_texts(vars@) =~= Seq::<Seq<char>>::empty());
    }
    while j < toks.len()
        invariant
            j <= toks.len(),
            tt == token_texts(toks@),
            token_texts(vars@) == collect_vars(tt.take(j as int)),
        decreases toks.len() - j,
    {
        let x = strip_minus_exec(toks[j]);
        proof {
            assert(tt.take(j + 1).drop_last() =~= tt.take(j as int));
            assert(tt.take(j + 1).last() == toks@[j as int]@);
        }
        if is_valid_name_exec(x) && !contains_name(&vars, x) {
            vars.push(x);
            proof {
                assert(token_texts(vars@) =~= collect_vars(tt.take(j as int)).push(x@));
            }
        }
        j = j + 1;
    }
    proof {
        assert(tt.take(toks.len() as int) =~= tt);
    }
    vars
}

// ---------------------------------------------------------------------------
// Keys of valid names are distinct
// ---------------------------------------------------------------------------

/// Every entry is a valid variable name.
pub open spec fn all_valid(k: Seq<Seq<char>>) -> bool {
    forall|j: int| 0 <= j < k.len() ==> is_valid_name(#[trigger] k[j])
}

/// Every term's variables are valid names.
pub open spec fn terms_valid(m: Seq<(Seq<Seq<char>>, int)>) -> bool {
    forall|i: int| 0 <= i < m.len() ==> all_valid((#[trigger] m[i]).0)
}

/// No key occurs twice.
pub open spec fn distinct_keys(s: Seq<(Option<Seq<char>>, int)>) -> bool {
    forall|i: int, j: int| 0 <= i < j < s.len() ==> (#[trigger] s[i]).0 != (#[trigger] s[j]).0
}

proof fn lemma_insert_sorted_valid(k: Seq<Seq<char>>, x: Seq<char>)
    requires
        all_valid(k),
        is_valid_name(x),
    ensures
        all_valid(insert_sorted(k, x)),
    decreases k.len(),
{
    if k.len() > 0 && !name_le(x, k[0]) {
        let t = k.drop_first();
        assert(all_valid(t)) by {
            assert forall|j: int| 0 <= j < t.len() implies is_valid_name(#[trigger] t[j]) by {
                assert(t[j] == k[j + 1]);
            }
        }
        lemma_insert_sorted_valid(t, x);
        let r = seq![k[0]] + insert_sorted(t, x);
        assert forall|j: int| 0 <= j < r.len() implies is_valid_name(#[trigger] r[j]) by {
            if j > 0 {
                assert(r[j] == insert_sorted(t, x)[j - 1]);
            }
        }
    } else if k.len() > 0 {
        let r = seq![x] + k;
        assert forall|j: int| 0 <= j < r.len() implies is_valid_name(#[trigger] r[j]) by {
            if j > 0 {
                assert(r[j] == k[j - 1]);
            }
        }
    }
}

proof fn lemma_product_valid(k1: Seq<Seq<char>>, k2: Seq<Seq<char>>)
    requires
        all_valid(k1),
        all_valid(k2),
    ensures
        all_valid(product_factors(k1, k2)),
    decreases k2.len(),
{
    if k2.len() > 0 {
        let d = k2.drop_last();
        assert(all_valid(d)) by {
            assert forall|j: int| 0 <= j < d.len() implies is_valid_name(#[trigger] d[j]) by {
                assert(d[j] == k2[j]);
            }
        }
        lemma_product_valid(k1, d);
        assert(is_valid_name(k2[k2.len() - 1]));
        lemma_insert_sorted_valid(product_factors(k1, d), k2.last());
    }
}

proof fn lemma_add_term_valid(m: Seq<(Seq<Seq<char>>, int)>, k: Seq<Seq<char>>, v: int)
    requires
        terms_valid(m),
        all_valid(k),
    ensures
        terms_valid(add_term(m, k, v)),
{
    let r = add_term(m, k, v);
    assert forall|i: int| 0 <= i < r.len() implies all_valid((#[trigger] r[i]).0) by {
        if i < m.len() && r[i].0 != k {
            assert(r[i] == m[i]);
        }
    }
}

proof fn lemma_merge_valid(acc: Seq<(Seq<Seq<char>>, int)>, r: Seq<(Seq<Seq<char>>, int)>)
    requires
        terms_valid(acc),
        terms_valid(r),
    ensures
        terms_valid(merge_terms(acc, r)),
    decreases r.len(),
{
    if r.len() > 0 {
        let d = r.drop_last();
        assert(terms_valid(d)) by {
            assert forall|i: int| 0 <= i < d.len() implies all_valid((#[trigger] d[i]).0) by {
                assert(d[i] == r[i]);
            }
        }
        lemma_merge_valid(acc, d);
        assert(all_valid(r[r.len() - 1].0));
        lemma_add_term_valid(merge_terms(acc, d), r.last().0, r.last().1);
    }
}

proof fn lemma_multiply_row_valid(
    acc: Seq<(Seq<Seq<char>>, int)>,
    k1: Seq<Seq<char>>,
    v1: int,
    r: Seq<(Seq<Seq<char>>, int)>,
)
    requires
        terms_valid(acc),
        all_valid(k1),
        terms_valid(r),
    ensures
        terms_valid(multiply_row(acc, k1, v1, r)),
    decreases r.len(),
{
    if r.len() > 0 {
        let d = r.drop_last();
        assert(terms_valid(d)) by {
            assert forall|i: int| 0 <= i < d.len() implies all_valid((#[trigger] d[i]).0) by {
                assert(d[i] == r[i]);
            }
        }
        lemma_multiply_row_valid(acc, k1, v1, d);
        assert(all_valid(r[r.len() - 1].0));
        lemma_product_valid(k1, r.last().0);
        lemma_add_term_valid(
            multiply_row(acc, k1, v1, d),
            product_factors(k1, r.last().0),
            fmul(v1, r.last().1),
        );
    }
}

proof fn lemma_multiply_valid(l: Seq<(Seq<Seq<char>>, int)>, r: Seq<(Seq<Seq<char>>, int)>)
    requires
        terms_valid(l),
        terms_valid(r),
    ensures
        terms_valid(multiply_terms(l, r)),
    decreases l.len(),
{
    if l.len() > 0 {
        let d = l.drop_last();
        assert(terms_valid(d)) by {
            assert forall|i: int| 0 <= i < d.len() implies all_valid((#[trigger] d[i]).0) by {
                assert(d[i] == l[i]);
            }
        }
        lemma_multiply_valid(d, r);
        assert(all_valid(l[l.len() - 1].0));
        lemma_multiply_row_valid(multiply_terms(d, r), l.last().0, l.last().1, r);
    }
}

proof fn lemma_unit_valid(t: Seq<char>, neg: bool)
    requires
        unit_terms(t, neg) is Some,
    ensures
        terms_valid(unit_terms(t, neg)->0),
    decreases t.len(),
{
    if t.len() > 0 && t[0] == '-' {
        lemma_unit_valid(t.drop_first(), !neg);
    } else if unsigned_literal(t) is Some {
        let m = unit_terms(t, neg)->0;
        assert(m[0].0.len() == 0);
    } else {
        let m = unit_terms(t, neg)->0;
        assert(m[0].0 == seq![t]);
    }
}

/// The terms of an expression are products of valid names.
pub proof fn lemma_expr_terms_valid(toks: Seq<Seq<char>>, neg: bool)
    requires
        expr_terms(toks, neg) is Some,
    ensures
        terms_valid(expr_terms(toks, neg)->0),
    decreases toks.len(),
{
    let p = first_op(toks, '+');
    let m = first_op(toks, '-');
    let t = first_op(toks, '*');
    lemma_first_op_range(toks, '+');
    lemma_first_op_range(toks, '-');
    lemma_first_op_range(toks, '*');
    if p >= 0 {
        lemma_expr_terms_valid(toks.take(p), neg);
        lemma_expr_terms_valid(toks.skip(p + 1), false);
        lemma_merge_valid(expr_terms(toks.take(p), neg)->0, expr_terms(toks.skip(p + 1), false)->0);
    } else if m >= 0 {
        lemma_expr_terms_valid(toks.take(m), neg);
        lemma_expr_terms_valid(toks.skip(m + 1), true);
        lemma_merge_valid(expr_terms(toks.take(m), neg)->0, expr_terms(toks.skip(m + 1), true)->0);
    } else if t >= 0 {
        lemma_expr_terms_valid(toks.take(t), neg);
        lemma_expr_terms_valid(toks.skip(t + 1), false);
        lemma_multiply_valid(
            expr_terms(toks.take(t), neg)->0,
            expr_terms(toks.skip(t + 1), false)->0,
        );
    } else {
        lemma_unit_valid(toks[0], neg);
    }
}

/// A key of valid names is made of letters, digits and `*`, is empty only
/// for no names, and holds a `*` exactly when there are two names or more.
proof fn lemma_key_text_shape(k: Seq<Seq<char>>)
    requires
        all_valid(k),
    ensures
        forall|i: int|
            0 <= i < key_text(k).len() ==> is_digit(#[trigger] key_text(k)[i]) || is_letter(
                key_text(k)[i],
            ) || key_text(k)[i] == '*',
        key_text(k).len() == 0 <==> k.len() == 0,
        k.len() <= 1 ==> forall|i: int| 0 <= i < key_text(k).len() ==> #[trigger] key_text(k)[i] != '*',
        k.len() >= 2 ==> key_text(k) == key_text(k.drop_last()) + seq!['*'] + k.last(),
        k.len() >= 2 ==> key_text(k.drop_last()).len() < key_text(k).len(),
    decreases k.len(),
{
    if k.len() == 1 {
        assert(is_valid_name(k[0]));
        assert forall|i: int| 0 <= i < key_text(k).len() implies #[trigger] key_text(k)[i] != '*' by {
            assert(is_digit(k[0][i]) || is_letter(k[0][i]));
        }
    } else if k.len() >= 2 {
        let d = k.drop_last();
        assert(all_valid(d)) by {
            assert forall|j: int| 0 <= j < d.len() implies is_valid_name(#[trigger] d[j]) by {
                assert(d[j] == k[j]);
            }
        }
        lemma_key_text_shape(d);
        let y = k.last();
        assert(is_valid_name(k[k.len() - 1]));
        let kt = key_text(k);
        let x = key_text(d);
        assert forall|i: int| 0 <= i < kt.len() implies is_digit(#[trigger] kt[i]) || is_letter(kt[i])
            || kt[i] == '*' by {
            if i < x.len() {
                assert(kt[i] == x[i]);
            } else if i > x.len() {
                assert(kt[i] == y[i - x.len() - 1]);
            }
        }
    }
}

/// A key of valid names determines the names.
pub proof fn lemma_key_text_injective(a: Seq<Seq<char>>, b: Seq<Seq<char>>)
    requires
        all_valid(a),
        all_valid(b),
        key_text(a) == key_text(b),
    ensures
        a == b,
    decreases a.len(),
{
    lemma_key_text_shape(a);
    lemma_key_text_shape(b);
    let ka = key_text(a);
    if a.len() == 0 || b.len() == 0 {
        assert(a =~= b);
    } else if a.len() == 1 && b.len() == 1 {
        assert(a =~= b);
    } else if a.len() == 1 || b.len() == 1 {
        if a.len() == 1 {
            let x = key_text(b.drop_last());
            assert(ka[x.len() as int] == '*');
        } else {
            let x = key_text(a.drop_last());
            assert(ka[x.len() as int] == '*');
        }
    } else {
        let xa = key_text(a.drop_last());
        let xb = key_text(b.drop_last());
        let ya = a.last();
        let yb = b.last();
        assert(is_valid_name(a[a.len() - 1]));
        assert(is_valid_name(b[b.len() - 1]));
        let l = ka.len();
        if ya.len() < yb.len() {
            let p = l - ya.len() - 1;
            assert(ka[p] == '*');
            assert(ka[p] == yb[p - xb.len() - 1]);
            assert(is_digit(yb[p - xb.len() - 1]) || is_letter(yb[p - xb.len() - 1]));
        } else if yb.len() < ya.len() {
            let p = l - yb.len() - 1;
            assert(ka[p] == '*');
            assert(ka[p] == ya[p - xa.len() - 1]);
            assert(is_digit(ya[p - xa.len() - 1]) || is_letter(ya[p - xa.len() - 1]));
        } else {
            assert(xa.len() == xb.len());
            assert(xa =~= ka.take(xa.len() as int));
            assert(xb =~= ka.take(xb.len() as int));
            assert(ya =~= ka.skip(xa.len() as int + 1));
            assert(yb =~= ka.skip(xb.len() as int + 1));
            let da = a.drop_last();
            let db = b.drop_last();
            assert(all_valid(da)) by {
                assert forall|j: int| 0 <= j < da.len() implies is_valid_name(#[trigger] da[j]) by {
                    assert(da[j] == a[j]);
                }
            }
            assert(all_valid(db)) by {
                assert forall|j: int| 0 <= j < db.len() implies is_valid_name(#[trigger] db[j]) by {
                    assert(db[j] == b[j]);
                }
            }
            lemma_key_text_injective(da, db);
            assert(a =~= da.push(ya));
            assert(b =~= db.push(yb));
        }
    }
}

/// Distinct terms of valid names have distinct keys.
pub proof fn lemma_keyed_distinct(m: Seq<(Seq<Seq<char>>, int)>)
    requires
        distinct_terms(m),
        terms_valid(m),
    ensures
        distinct_keys(keyed(m)),
{
    let e = keyed(m);
    assert forall|i: int, j: int| 0 <= i < j < e.len() implies (#[trigger] e[i]).0 != (#[trigger] e[j]).0 by {
        assert(m[i].0 != m[j].0);
        assert(all_valid(m[i].0));
        assert(all_valid(m[j].0));
        if key_text(m[i].0) == key_text(m[j].0) {
            lemma_key_text_injective(m[i].0, m[j].0);
        }
    }
}

/// An equation in assembly form: the variables on its wires and the
/// coefficient of each term (keyed by the term's variables joined by `*`, the
/// constant by `""`, plus `$output_coeff` and `$public` where they apply).
#[derive(Debug, Clone)]
pub struct AssembleEquation {
    /// The left, right and output variables.
    pub wires: GateWire,
    /// The coefficient of each term.
    pub coeffs: Vec<(Option<String>, Fr)>,
}

impl AssembleEquation {
    /// No key occurs twice among the coefficients.
    pub open spec fn wf(&self) -> bool {
        distinct_keys(coeff_entries(self.coeffs@))
    }
}

/// The keys of an assignment's coefficients are distinct: those of the terms,
/// and the output coefficient's.
proof fn lemma_assignment_distinct(terms: Seq<(Seq<Seq<char>>, int)>, negated: bool)
    requires
        distinct_terms(terms),
        terms_valid(terms),
    ensures
        distinct_keys(keyed(terms)),
        distinct_keys(keyed(terms).push((output_coeff_key(), fneg(1)))),
{
    lemma_keyed_distinct(terms);
    let e = keyed(terms);
    let f = e.push((output_coeff_key(), fneg(1)));
    reveal_strlit("$output_coeff");
    assert forall|i: int, j: int| 0 <= i < j < f.len() implies (#[trigger] f[i]).0 != (#[trigger] f[j]).0 by {
        if j == e.len() {
            let k = terms[i].0;
            assert(all_valid(k));
            lemma_key_text_shape(k);
            let t = key_text(k);
            if t.len() > 0 {
                assert(t[0] != '$');
                assert("$output_coeff"@[0] == '$');
            }
        } else {
            assert(f[i] == e[i] && f[j] == e[j]);
        }
    }
}

/// The texts of a gate's wires.
pub open spec fn wire_texts(w: GateWire) -> (Option<Seq<char>>, Option<Seq<char>>, Option<Seq<char>>) {
    (opt_text(w.L), opt_text(w.R), opt_text(w.O))
}

/// The key of the output coefficient.
pub open spec fn output_coeff_key() -> Option<Seq<char>> {
    Some("$output_coeff"@)
}

/// The key of the product of two variables.
pub open spec fn product_key_text(a: Seq<char>, b: Seq<char>) -> Seq<char> {
    key_text(insert_sorted(seq![a], b))
}

/// The keys that an equation over `vars` may use.
pub open spec fn allowed_keys(vars: Seq<Seq<char>>) -> Seq<Seq<char>> {
    let base = vars + seq![Seq::<char>::empty(), "$output_coeff"@];
    if vars.len() == 0 {
        base
    } else if vars.len() == 1 {
        base.push(product_key_text(vars[0], vars[0]))
    } else {
        base.push(product_key_text(vars[0], vars[1]))
    }
}

/// Every key is present and allowed.
pub open spec fn keys_allowed(entries: Seq<(Option<Seq<char>>, int)>, allowed: Seq<Seq<char>>) -> bool {
    forall|i: int|
        0 <= i < entries.len() ==> (#[trigger] entries[i]).0 is Some && allowed.contains(
            entries[i].0->0,
        )
}

/// What an equation assembles to: its wires and coefficient entries, or why it
/// is refused. `out <== expr` and `out === expr` (with `-out` negating the
/// output coefficient) take at most two variables and no term but the
/// variables, their product and the constant; `x public` declares a public
/// input.
pub open spec fn eq_assembly(eq: Seq<char>) -> Result<
    ((Option<Seq<char>>, Option<Seq<char>>, Option<Seq<char>>), Seq<(Option<Seq<char>>, int)>),
    AssemblyError,
> {
    let toks = eq_tokens(eq);
    if toks.len() < 2 {
        Err(AssemblyError::MissingOperator)
    } else if toks[1] == "<=="@ || toks[1] == "==="@ {
        match expr_terms(toks.skip(2), false) {
            None => Err(AssemblyError::InvalidExpression),
            Some(terms) => assignment_assembly(toks, terms),
        }
    } else if toks[1] == "public"@ {
        Ok(((Some(toks[0]), None, None), public_entries(toks[0])))
    } else {
        Err(AssemblyError::UnsupportedOp)
    }
}

/// The coefficients of the public declaration of `name`: `-1` for the name,
/// `0` for the output and `1` for `$public`; the later entries win where the
/// name is one of theirs.
pub open spec fn public_entries(name: Seq<char>) -> Seq<(Option<Seq<char>>, int)> {
    if name == "$public"@ || name == "$output_coeff"@ {
        seq![(output_coeff_key(), 0), (Some("$public"@), 1)]
    } else {
        seq![(Some(name), fneg(1)), (output_coeff_key(), 0), (Some("$public"@), 1)]
    }
}

/// The assembly of `out <== expr` (or `===`) whose right-hand side has the
/// terms `terms`.
pub open spec fn assignment_assembly(toks: Seq<Seq<char>>, terms: Seq<(Seq<Seq<char>>, int)>) -> Result<
    ((Option<Seq<char>>, Option<Seq<char>>, Option<Seq<char>>), Seq<(Option<Seq<char>>, int)>),
    AssemblyError,
> {
    let negated = toks[0].len() > 0 && toks[0][0] == '-';
    let out = if negated {
        toks[0].drop_first()
    } else {
        toks[0]
    };
    let entries = if negated {
        keyed(terms).push((output_coeff_key(), fneg(1)))
    } else {
        keyed(terms)
    };
    let vars = collect_vars(toks.skip(2));
    if !is_valid_name(out) {
        Err(AssemblyError::InvalidOutput)
    } else if vars.len() > 2 {
        Err(AssemblyError::TooManyVariables)
    } else if !keys_allowed(entries, allowed_keys(vars)) {
        Err(AssemblyError::DisallowedMultiplication)
    } else {
        Ok(((first_wire(vars), second_wire(vars), Some(out)), entries))
    }
}

/// The left wire: the first variable, if any.
pub open spec fn first_wire(vars: Seq<Seq<char>>) -> Option<Seq<char>> {
    if vars.len() >= 1 {
        Some(vars[0])
    } else {
        None
    }
}

/// The right wire: the second variable, else the first, if any.
pub open spec fn second_wire(vars: Seq<Seq<char>>) -> Option<Seq<char>> {
    if vars.len() == 2 {
        Some(vars[1])
    } else {
        first_wire(vars)
    }
}

/// Whether two optional strings hold the same text.
pub(crate) fn opt_eq(a: &Option<String>, b: &Option<String>) -> (r: bool)
    ensures
        r == (opt_text(*a) == opt_text(*b)),
{
    match (a, b) {
        (Some(x), Some(y)) => str_eq(x.as_str(), y.as_str()),
        (None, None) => true,
        _ => false,
    }
}

/// The texts of a list of strings.
pub open spec fn string_texts(v: Seq<String>) -> Seq<Seq<char>> {
    v.map_values(|s: String| s@)
}

/// Whether every coefficient's key is present and among the allowed texts.
fn keys_within(coeffs: &Vec<(Option<String>, Fr)>, allowed: &Vec<String>) -> (r: bool)
    ensures
        r == keys_allowed(coeff_entries(coeffs@), string_texts(allowed@)),
{
    let ghost entries = coeff_entries(coeffs@);
    let ghost at = string_texts(allowed@);
    let mut i: usize = 0;
    while i < coeffs.len()
        invariant
            i <= coeffs.len(),
            entries == coeff_entries(coeffs@),
            at == string_texts(allowed@),
            forall|j: int|
                0 <= j < i ==> (#[trigger] entries[j]).0 is Some && at.contains(entries[j].0->0),
        decreases coeffs.len() - i,
    {
        proof {
            assert(entries[i as int] == (opt_text(coeffs@[i as int].0), coeffs@[i as int].1@));
        }
        match &coeffs[i].0 {
            Some(k) => {
                if !contains_string(allowed, k) {
                    return false;
                }
            },
            None => {
                return false;
            },
        }
        i = i + 1;
    }
    true
}

/// Whether a text occurs among strings.
fn contains_string(v: &Vec<String>, x: &String) -> (r: bool)
    ensures
        r == string_texts(v@).contains(x@),
{
    let ghost vt = string_texts(v@);
    let mut i: usize = 0;
    while i < v.len()
        invariant
            i <= v.len(),
            vt == string_texts(v@),
            forall|j: int| 0 <= j < i ==> #[trigger] vt[j] != x@,
        decreases v.len() - i,
    {
        if str_eq(v[i].as_str(), x.as_str()) {
            proof {
                assert(vt[i as int] == x@);
            }
            return true;
        }
        proof {
            assert(vt[i as int] == v@[i as int]@);
        }
        i = i + 1;
    }
    false
}

/// The key of the product of two variables.
pub(crate) fn product_key_string(a: &str, b: &str) -> (r: String)
    ensures
        r@ == product_key_text(a@, b@),
{
    let mut ka: Vec<&str> = Vec::new();
    ka.push(a);
    let mut kb: Vec<&str> = Vec::new();
    kb.push(b);
    let k = product_names(&ka, &kb);
    proof {
        assert(token_texts(ka@) =~= seq![a@]);
        assert(token_texts(kb@) =~= seq![b@]);
        assert(seq![b@].drop_last() =~= Seq::<Seq<char>>::empty());
        assert(product_factors(seq![a@], Seq::<Seq<char>>::empty()) == seq![a@]);
        assert(seq![b@].last() == b@);
        assert(product_factors(seq![a@], seq![b@]) == insert_sorted(seq![a@], b@));
    }
    key_string(&k)
}

/// The keys that an equation over `vars` may use.
fn allowed_keys_exec(vars: &Vec<&str>) -> (r: Vec<String>)
    requires
        vars.len() <= 2,
    ensures
        string_texts(r@) == allowed_keys(token_texts(vars@)),
{
    let ghost vt = token_texts(vars@);
    let mut r: Vec<String> = Vec::new();
    let mut i: usize = 0;
    while i < vars.len()
        invariant
            i <= vars.len(),
            vt == token_texts(vars@),
            string_texts(r@) == vt.take(i as int),
        decreases vars.len() - i,
    {
        let ghost before = r@;
        let si = String::from_str(vars[i]);
        r.push(si);
        proof {
            assert(r@ == before.push(si));
            assert(string_texts(r@) =~= string_texts(before).push(si@));
            assert(vt[i as int] == vars@[i as int]@);
            assert(vt.take(i + 1) =~= vt.take(i as int).push(vt[i as int]));
            assert(string_texts(r@) =~= vt.take(i + 1));
        }
        i = i + 1;
    }
    proof {
        assert(vt.take(vars.len() as int) =~= vt);
        reveal_strlit("$output_coeff");
    }
    r.push(String::new());
    r.push(String::from_str("$output_coeff"));
    if vars.len() == 1 {
        r.push(product_key_string(vars[0], vars[0]));
    } else if vars.len() == 2 {
        r.push(product_key_string(vars[0], vars[1]));
    }
    proof {
        assert(string_texts(r@) =~= allowed_keys(vt));
    }
    r
}

/// Assembles an equation (see `eq_assembly`). Examples:
/// `a === 9` gives wires `(None, None, a)` and `{"": 9}`;
/// `b <== a * c` gives wires `(a, c, b)` and `{"a*c": 1}`;
/// `d <== a * c - 45 * a + 987` gives wires `(a, c, d)` and
/// `{"a*c": 1, "a": -45, "": 987}`. Refused: `7 === 7` (the output is no
/// variable), `a <== b * * c`, `e <== a + b * c * d` (degree above two).
pub fn eq_to_assembly(eq: &str) -> (r: Result<AssembleEquation, AssemblyError>)
    ensures
        r is Ok <==> eq_assembly(eq@) is Ok,
        r matches Ok(a) ==> a.wf(),
        match r {
            Ok(a) => eq_assembly(eq@) == Ok::<
                (
                    (Option<Seq<char>>, Option<Seq<char>>, Option<Seq<char>>),
                    Seq<(Option<Seq<char>>, int)>,
                ),
                AssemblyError,
            >((wire_texts(a.wires), coeff_entries(a.coeffs@))),
            Err(e) => eq_assembly(eq@) == Err::<
                (
                    (Option<Seq<char>>, Option<Seq<char>>, Option<Seq<char>>),
                    Seq<(Option<Seq<char>>, int)>,
                ),
                AssemblyError,
            >(e),
        },
{
    let trimmed = trim_exec(eq);
    let toks = split_exec(trimmed, ' ');
    let ghost tt = token_texts(toks@);
    if toks.len() < 2 {
        return Err(AssemblyError::MissingOperator);
    }
    proof {
        reveal_strlit("<==");
        reveal_strlit("===");
        reveal_strlit("public");
        reveal_strlit("$output_coeff");
        reveal_strlit("$public");
        assert(tt[1] == toks@[1]@);
        assert(tt[0] == toks@[0]@);
    }
    let op = toks[1];
    if str_eq(op, "<==") || str_eq(op, "===") {
        let n = toks.len();
        let rhs = slice_subrange(toks.as_slice(), 2, n);
        proof {
            assert(token_texts(rhs@) =~= tt.skip(2));
        }
        let terms = match eval_exec(rhs, false) {
            Some(t) => t,
            None => {
                return Err(AssemblyError::InvalidExpression);
            },
        };
        let mut coeffs = keyed_exec(&terms);
        let out0 = toks[0];
        let k0 = out0.unicode_len();
        let negated = k0 > 0 && out0.get_char(0) == '-';
        let out = if negated {
            out0.substring_char(1, k0)
        } else {
            out0
        };
        proof {
            if negated {
                assert(out@ =~= tt[0].drop_first());
            }
        }
        if negated {
            let ghost before = coeff_entries(coeffs@);
            let c = Fr::one().neg();
            coeffs.push((Some(String::from_str("$output_coeff")), c));
            proof {
                vstd::arithmetic::div_mod::lemma_small_mod(1, fr_modulus() as nat);
                assert(coeff_entries(coeffs@) =~= before.push((output_coeff_key(), fneg(1))));
            }
        }
        if !is_valid_name_exec(out) {
            return Err(AssemblyError::InvalidOutput);
        }
        let vars = collect_vars_exec(rhs);
        if vars.len() > 2 {
            return Err(AssemblyError::TooManyVariables);
        }
        let allowed = allowed_keys_exec(&vars);
        proof {
            assert(string_texts(allowed@) == allowed_keys(collect_vars(tt.skip(2))));
        }
        if !keys_within(&coeffs, &allowed) {
            return Err(AssemblyError::DisallowedMultiplication);
        }
        let l = if vars.len() >= 1 {
            Some(String::from_str(vars[0]))
        } else {
            None
        };
        let r = if vars.len() == 2 {
            Some(String::from_str(vars[1]))
        } else if vars.len() == 1 {
            Some(String::from_str(vars[0]))
        } else {
            None
        };
        let o = Some(String::from_str(out));
        proof {
            lemma_expr_terms_valid(tt.skip(2), false);
            lemma_assignment_distinct(term_views(terms@), negated);
            if vars.len() >= 1 {
                assert(token_texts(vars@)[0] == vars@[0]@);
            }
            if vars.len() == 2 {
                assert(token_texts(vars@)[1] == vars@[1]@);
            }
        }
        Ok(AssembleEquation { wires: GateWire { L: l, R: r, O: o }, coeffs })
    } else if str_eq(op, "public") {
        let name = toks[0];
        let mut coeffs: Vec<(Option<String>, Fr)> = Vec::new();
        let reserved = str_eq(name, "$public") || str_eq(name, "$output_coeff");
        if !reserved {
            coeffs.push((Some(String::from_str(name)), Fr::one().neg()));
        }
        let ghost first = coeff_entries(coeffs@);
        coeffs.push((Some(String::from_str("$output_coeff")), Fr::zero()));
        coeffs.push((Some(String::from_str("$public")), Fr::one()));
        proof {
            vstd::arithmetic::div_mod::lemma_small_mod(1, fr_modulus() as nat);
            if reserved {
                assert(coeff_entries(coeffs@) =~= seq![(output_coeff_key(), 0), (Some("$public"@), 1)]);
            } else {
                assert(coeff_entries(coeffs@) =~= seq![
                    (Some(tt[0]), fneg(1)),
                    (output_coeff_key(), 0),
                    (Some("$public"@), 1),
                ]);
            }
            assert(coeff_entries(coeffs@) == public_entries(tt[0]));
            assert("$public"@ != "$output_coeff"@) by {
                assert("$public"@[1] != "$output_coeff"@[1]);
            }
            let e = coeff_entries(coeffs@);
            assert(distinct_keys(e)) by {
                assert forall|i: int, j: int| 0 <= i < j < e.len() implies (#[trigger] e[i]).0 != (
                #[trigger] e[j]).0 by {
                    if !reserved && i == 0 {
                        assert(e[0].0 == Some(tt[0]));
                    }
                }
            }
        }
        Ok(
            AssembleEquation {
                wires: GateWire { L: Some(String::from_str(name)), R: None, O: None },
                coeffs,
            },
        )
    } else {
        Err(AssemblyError::UnsupportedOp)
    }
}

/// The value of the first entry with key `k`, if any.
pub open spec fn lookup(s: Seq<(Option<Seq<char>>, int)>, k: Option<Seq<char>>) -> Option<int>
    decreases s.len(),
{
    if s.len() == 0 {
        None
    } else if s[0].0 == k {
        Some(s[0].1)
    } else {
        lookup(s.drop_first(), k)
    }
}

/// The coefficient of `k`, or `d` where it has none.
pub open spec fn coeff_or(s: Seq<(Option<Seq<char>>, int)>, k: Option<Seq<char>>, d: int) -> int {
    match lookup(s, k) {
        Some(v) => v,
        None => d,
    }
}

/// `lookup` reads the coefficient map.
pub proof fn lemma_lookup_map(s: Seq<(Option<Seq<char>>, int)>, k: Option<Seq<char>>)
    ensures
        lookup(s, k) == if entries_map(s).contains_key(k) {
            Some(entries_map(s)[k])
        } else {
            None
        },
    decreases s.len(),
{
    if s.len() > 0 {
        lemma_lookup_map(s.drop_first(), k);
    }
}

/// The selectors of an equation with wires `w` and coefficient entries `s`,
/// as `(L, R, M, O, C)`: the negated coefficients of the left variable, the
/// right variable (zero when it is the left one), the product of the two (zero
/// unless all three wires are set) and the constant, and the output
/// coefficient (one where it is not given).
pub open spec fn gate_values(
    w: (Option<Seq<char>>, Option<Seq<char>>, Option<Seq<char>>),
    s: Seq<(Option<Seq<char>>, int)>,
) -> (int, int, int, int, int) {
    let l = fneg(coeff_or(s, w.0, 0));
    let r = if w.1 != w.0 {
        fneg(coeff_or(s, w.1, 0))
    } else {
        0
    };
    let m = if w.0 is Some && w.1 is Some && w.2 is Some {
        fneg(coeff_or(s, Some(product_key_text(w.0->0, w.1->0)), 0))
    } else {
        0
    };
    let o = coeff_or(s, output_coeff_key(), 1);
    let c = fneg(coeff_or(s, Some(Seq::<char>::empty()), 0));
    (l, r, m, o, c)
}

/// The coefficient of a key, if the vector has one.
pub(crate) fn lookup_exec(v: &Vec<(Option<String>, Fr)>, k: &Option<String>) -> (r: Option<Fr>)
    ensures
        match r {
            Some(c) => lookup(coeff_entries(v@), opt_text(*k)) == Some(c@),
            None => lookup(coeff_entries(v@), opt_text(*k)) is None,
        },
{
    let ghost e = coeff_entries(v@);
    let ghost kt = opt_text(*k);
    let mut i: usize = 0;
    proof {
        assert(e.skip(0) =~= e);
    }
    while i < v.len()
        invariant
            i <= v.len(),
            e == coeff_entries(v@),
            kt == opt_text(*k),
            lookup(e, kt) == lookup(e.skip(i as int), kt),
        decreases v.len() - i,
    {
        proof {
            assert(e.skip(i as int)[0] == e[i as int]);
            assert(e[i as int] == (opt_text(v@[i as int].0), v@[i as int].1@));
            assert(e.skip(i as int).drop_first() =~= e.skip(i + 1));
        }
        if opt_eq(&v[i].0, k) {
            return Some(v[i].1);
        }
        i = i + 1;
    }
    proof {
        assert(e.skip(i as int).len() == 0);
    }
    None
}

impl AssembleEquation {
    /// The left selector: minus the left variable's coefficient.
    pub fn L(&self) -> (r: Fr)
        ensures
            r@ == gate_values(wire_texts(self.wires), coeff_entries(self.coeffs@)).0,
    {
        match lookup_exec(&self.coeffs, &self.wires.L) {
            Some(c) => c.neg(),
            None => Fr::zero().neg(),
        }
    }

    /// The right selector: minus the right variable's coefficient, zero where
    /// the right variable is the left one.
    pub fn R(&self) -> (r: Fr)
        ensures
            r@ == gate_values(wire_texts(self.wires), coeff_entries(self.coeffs@)).1,
    {
        if !opt_eq(&self.wires.R, &self.wires.L) {
            match lookup_exec(&self.coeffs, &self.wires.R) {
                Some(c) => c.neg(),
                None => Fr::zero().neg(),
            }
        } else {
            Fr::zero()
        }
    }

    /// The constant selector: minus the constant term.
    pub fn C(&self) -> (r: Fr)
        ensures
            r@ == gate_values(wire_texts(self.wires), coeff_entries(self.coeffs@)).4,
    {
        let key = Some(String::new());
        proof {
            assert(opt_text(key) == Some(Seq::<char>::empty()));
        }
        match lookup_exec(&self.coeffs, &key) {
            Some(c) => c.neg(),
            None => Fr::zero().neg(),
        }
    }

    /// The output selector: the output coefficient, one by default.
    pub fn O(&self) -> (r: Fr)
        ensures
            r@ == gate_values(wire_texts(self.wires), coeff_entries(self.coeffs@)).3,
    {
        let key = Some(String::from_str("$output_coeff"));
        match lookup_exec(&self.coeffs, &key) {
            Some(c) => c,
            None => Fr::one(),
        }
    }

    /// The multiplication selector: minus the coefficient of the product of
    /// the left and right variables, zero unless all three wires are set.
    pub fn M(&self) -> (r: Fr)
        ensures
            r@ == gate_values(wire_texts(self.wires), coeff_entries(self.coeffs@)).2,
    {
        match (&self.wires.L, &self.wires.R, &self.wires.O) {
            (Some(l), Some(r), Some(_)) => {
                let key = Some(product_key_string(l.as_str(), r.as_str()));
                match lookup_exec(&self.coeffs, &key) {
                    Some(c) => c.neg(),
                    None => Fr::zero().neg(),
                }
            },
            _ => Fr::zero(),
        }
    }

    /// All five selectors of the equation, as one gate.
    pub fn gate(&self) -> (r: Gate)
        ensures
            (r.L@, r.R@, r.M@, r.O@, r.C@) == gate_values(wire_texts(self.wires), coeff_entries(self.coeffs@)),
    {
        Gate { L: self.L(), R: self.R(), M: self.M(), O: self.O(), C: self.C() }
    }
}


// ---------------------------------------------------------------------------
// What a gate means
// ---------------------------------------------------------------------------
/// The PLONK gate equation `L a + R b + M a b + O c + C` for the selectors
/// `g = (L, R, M, O, C)` and the wire values `a`, `b`, `c`.
pub open spec fn gate_sum(g: (int, int, int, int, int), xl: int, xr: int, xo: int) -> int {
    fadd(fadd(fadd(fadd(fmul(g.0, xl), fmul(g.1, xr)), fmul(fmul(g.2, xl), xr)), fmul(g.3, xo)), g.4)
}

/// The value of the term with key `k` when the left variable is `xl` and the
/// right one `xr`: one for the constant, the variable's value for a variable,
/// the product for the product of the two; other keys (the output coefficient,
/// markers) are no term.
pub open spec fn term_value(
    k: Option<Seq<char>>,
    w: (Option<Seq<char>>, Option<Seq<char>>, Option<Seq<char>>),
    xl: int,
    xr: int,
) -> int {
    if k == Some(Seq::<char>::empty()) {
        1
    } else if k == w.0 {
        xl
    } else if k == w.1 {
        xr
    } else if w.0 is Some && w.1 is Some && k == Some(product_key_text(w.0->0, w.1->0)) {
        xl * xr
    } else {
        0
    }
}

/// The right-hand side of an equation: the sum of its terms, each weighted by
/// its coefficient.
pub open spec fn rhs_value(
    s: Seq<(Option<Seq<char>>, int)>,
    w: (Option<Seq<char>>, Option<Seq<char>>, Option<Seq<char>>),
    xl: int,
    xr: int,
) -> int
    decreases s.len(),
{
    if s.len() == 0 {
        0
    } else {
        s[0].1 * term_value(s[0].0, w, xl, xr) + rhs_value(s.drop_first(), w, xl, xr)
    }
}

/// The wires' keys do not clash with the constant's, the output coefficient's
/// or the product's keys, and a product has an output.
pub open spec fn wires_separated(w: (Option<Seq<char>>, Option<Seq<char>>, Option<Seq<char>>)) -> bool {
    &&& w.0 != Some(Seq::<char>::empty())
    &&& w.1 != Some(Seq::<char>::empty())
    &&& w.0 != output_coeff_key()
    &&& w.1 != output_coeff_key()
    &&& (w.0 is Some && w.1 is Some) ==> {
        let pk = Some(product_key_text(w.0->0, w.1->0));
        &&& pk != w.0
        &&& pk != w.1
        &&& pk != Some(Seq::<char>::empty())
        &&& pk != output_coeff_key()
        &&& w.2 is Some
    }
}

/// A key that no entry has is not found.
proof fn lemma_lookup_absent(s: Seq<(Option<Seq<char>>, int)>, k: Option<Seq<char>>)
    requires
        forall|j: int| 0 <= j < s.len() ==> (#[trigger] s[j]).0 != k,
    ensures
        lookup(s, k) is None,
    decreases s.len(),
{
    if s.len() > 0 {
        assert forall|j: int| 0 <= j < s.drop_first().len() implies (#[trigger] s.drop_first()[j]).0 != k by {
            assert(s.drop_first()[j] == s[j + 1]);
        }
        lemma_lookup_absent(s.drop_first(), k);
    }
}

/// The right-hand side read through the coefficients of the constant, the two
/// variables and their product.
pub proof fn lemma_rhs_by_coeffs(
    s: Seq<(Option<Seq<char>>, int)>,
    w: (Option<Seq<char>>, Option<Seq<char>>, Option<Seq<char>>),
    xl: int,
    xr: int,
)
    requires
        distinct_keys(s),
        wires_separated(w),
    ensures
        rhs_value(s, w, xl, xr) == coeff_or(s, Some(Seq::<char>::empty()), 0) + coeff_or(s, w.0, 0) * xl + (if w.1
            != w.0 {
            coeff_or(s, w.1, 0) * xr
        } else {
            0
        }) + (if w.0 is Some && w.1 is Some {
            coeff_or(s, Some(product_key_text(w.0->0, w.1->0)), 0) * (xl * xr)
        } else {
            0
        }),
    decreases s.len(),
{
    if s.len() == 0 {
        assert(0 * xl == 0 && 0 * xr == 0 && 0 * (xl * xr) == 0) by (nonlinear_arith);
        return;
    }
    let t = s.drop_first();
    assert(distinct_keys(t)) by {
        assert forall|i: int, j: int| 0 <= i < j < t.len() implies (#[trigger] t[i]).0 != (#[trigger] t[j]).0 by {
            assert(t[i] == s[i + 1] && t[j] == s[j + 1]);
        }
    }
    lemma_rhs_by_coeffs(t, w, xl, xr);
    let k = s[0].0;
    let c = s[0].1;
    assert(lookup(t, k) is None) by {
        assert forall|j: int| 0 <= j < t.len() implies (#[trigger] t[j]).0 != k by {
            assert(t[j] == s[j + 1]);
        }
        lemma_lookup_absent(t, k);
    }
    let ce = Some(Seq::<char>::empty());
    assert(0 * xl == 0 && 0 * xr == 0 && 0 * (xl * xr) == 0 && c * 0 == 0 && c * 1 == c) by (nonlinear_arith);
    if k == ce {
        assert(coeff_or(s, ce, 0) == c);
        assert(coeff_or(t, ce, 0) == 0);
    } else if k == w.0 {
        assert(coeff_or(s, w.0, 0) == c);
        assert(coeff_or(t, w.0, 0) == 0);
    } else if k == w.1 {
        assert(coeff_or(s, w.1, 0) == c);
        assert(coeff_or(t, w.1, 0) == 0);
    } else if w.0 is Some && w.1 is Some && k == Some(product_key_text(w.0->0, w.1->0)) {
        let pk = Some(product_key_text(w.0->0, w.1->0));
        assert(coeff_or(s, pk, 0) == c);
        assert(coeff_or(t, pk, 0) == 0);
    } else {
        assert(term_value(k, w, xl, xr) == 0);
    }
}

/// Linear combinations survive reduction modulo the field order.
proof fn lemma_sum5_mod(a: int, b: int, c: int, d: int, e: int)
    ensures
        fadd(fadd(fadd(fadd(a % fr_modulus(), b % fr_modulus()), c % fr_modulus()), d % fr_modulus()), e
            % fr_modulus()) == (a + b + c + d + e) % fr_modulus(),
{
    let m = fr_modulus();
    vstd::arithmetic::div_mod::lemma_add_mod_noop(a, b, m);
    vstd::arithmetic::div_mod::lemma_add_mod_noop(a + b, c, m);
    vstd::arithmetic::div_mod::lemma_mod_twice(a + b, m);
    vstd::arithmetic::div_mod::lemma_add_mod_noop(a + b + c, d, m);
    vstd::arithmetic::div_mod::lemma_mod_twice(a + b + c, m);
    vstd::arithmetic::div_mod::lemma_add_mod_noop(a + b + c + d, e, m);
    vstd::arithmetic::div_mod::lemma_mod_twice(a + b + c + d, m);
    vstd::arithmetic::div_mod::lemma_mod_twice(c, m);
    vstd::arithmetic::div_mod::lemma_mod_twice(d, m);
    vstd::arithmetic::div_mod::lemma_mod_twice(e, m);
}

/// `((-c) mod p) x` and `-(c x)` agree modulo the field order.
proof fn lemma_neg_times(c: int, x: int)
    ensures
        fmul(fneg(c), x) == (0 - c * x) % fr_modulus(),
{
    let m = fr_modulus();
    vstd::arithmetic::div_mod::lemma_mul_mod_noop_left(0 - c, x, m);
    assert((0 - c) * x == 0 - c * x) by (nonlinear_arith);
}

/// A gate encodes its equation: for every values `xl`, `xr`, `xo` of the left,
/// right and output wires (the right equal to the left where they are the same
/// variable), its gate equation `L xl + R xr + M xl xr + O xo + C` is
/// `oc xo - rhs`, where `oc` is the output coefficient (one unless given) and
/// `rhs` the equation's right-hand side at `xl`, `xr`. So its gate equation vanishes
/// exactly on the assignments where `oc xo` equals the right-hand side.
pub proof fn lemma_gate_encodes_equation(
    w: (Option<Seq<char>>, Option<Seq<char>>, Option<Seq<char>>),
    s: Seq<(Option<Seq<char>>, int)>,
    xl: int,
    xr: int,
    xo: int,
)
    requires
        distinct_keys(s),
        wires_separated(w),
        w.1 == w.0 ==> xr == xl,
    ensures
        gate_sum(gate_values(w, s), xl, xr, xo) == (coeff_or(s, output_coeff_key(), 1) * xo - rhs_value(
            s,
            w,
            xl,
            xr,
        )) % fr_modulus(),
        (coeff_or(s, output_coeff_key(), 1) * xo - rhs_value(s, w, xl, xr)) % fr_modulus() == 0 ==> gate_sum(
            gate_values(w, s),
            xl,
            xr,
            xo,
        ) == 0,
{
    let m = fr_modulus();
    let g = gate_values(w, s);
    let cc = coeff_or(s, Some(Seq::<char>::empty()), 0);
    let cl = coeff_or(s, w.0, 0);
    let cr = coeff_or(s, w.1, 0);
    let both = w.0 is Some && w.1 is Some;
    let cm = if both {
        coeff_or(s, Some(product_key_text(w.0->0, w.1->0)), 0)
    } else {
        0
    };
    let oc = coeff_or(s, output_coeff_key(), 1);
    lemma_rhs_by_coeffs(s, w, xl, xr);
    let rr = if w.1 != w.0 {
        cr * xr
    } else {
        0
    };
    let rm = if both {
        cm * (xl * xr)
    } else {
        0
    };
    assert(rhs_value(s, w, xl, xr) == cc + cl * xl + rr + rm);
    // each term of the selector equation
    lemma_neg_times(cl, xl);
    let t1 = 0 - rr;
    assert(fmul(g.1, xr) == t1 % m) by {
        if w.1 != w.0 {
            lemma_neg_times(cr, xr);
        } else {
            assert(g.1 == 0);
        }
    }
    let t2 = 0 - rm;
    assert(fmul(fmul(g.2, xl), xr) == t2 % m) by {
        if both {
            assert(g.2 == fneg(cm));
            lemma_neg_times(cm, xl);
            vstd::arithmetic::div_mod::lemma_mul_mod_noop_left(0 - cm * xl, xr, m);
            assert((0 - cm * xl) * xr == 0 - cm * (xl * xr)) by (nonlinear_arith);
        } else {
            assert(g.2 == 0);
        }
    }
    assert(g.3 == oc);
    assert(g.4 == (0 - cc) % m);
    lemma_sum5_mod(0 - cl * xl, t1, t2, oc * xo, 0 - cc);
}

} // verus!
