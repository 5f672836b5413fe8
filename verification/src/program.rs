//! A PLONK program: a list of assembled equations over a group of a given
//! order, and what the prover and verifier take from it (selector and
//! permutation polynomials, public inputs, the witness).
#![allow(non_snake_case)]
use crate::assembly::{
    lookup_exec, opt_eq, product_key_string, string_texts, token_texts, coeff_entries, coeff_or, eq_assembly, eq_to_assembly, gate_values, lookup, opt_text,
    output_coeff_key, product_key_text, split_exec, split_on, wire_texts, AssembleEquation,
    AssemblyError, distinct_keys, gate_sum, lemma_gate_encodes_equation, rhs_value, wires_separated,
};
use crate::evaluation::{domain_size, Domain, UnivariateEval};
use crate::field::{subgroup_root_of_unity, fadd, fmul, fneg, fpow, fr_modulus, has_order, supported_order, Fr};
use crate::plonk::GateWire;
use crate::plonk_core::PlonkishIntermediateRepresentation;
use crate::pow2::two_pow;
use vstd::prelude::*;
use vstd::string::StrSliceExecFns;
use vstd::string::StringExecFns;

verus! {

/// A program: its constraints, one per row, and the order of the group whose
/// elements index the rows.
pub struct Program {
    /// The constraints, in row order.
    pub constraints: Vec<AssembleEquation>,
    /// The number of rows.
    pub group_order: u64,
}

/// The wires and coefficient entries of an assembled equation.
pub open spec fn eq_view(a: AssembleEquation) -> (
    (Option<Seq<char>>, Option<Seq<char>>, Option<Seq<char>>),
    Seq<(Option<Seq<char>>, int)>,
) {
    (wire_texts(a.wires), coeff_entries(a.coeffs@))
}

/// A line without its trailing carriage return.
pub open spec fn strip_cr(l: Seq<char>) -> Seq<char> {
    if l.len() > 0 && l.last() == '\r' {
        l.drop_last()
    } else {
        l
    }
}

/// The lines of a text: the pieces between newlines, each without a trailing
/// carriage return, and no empty last piece.
pub open spec fn text_lines(s: Seq<char>) -> Seq<Seq<char>> {
    let p = split_on(s, '\n');
    let q = if p.len() > 0 && p.last().len() == 0 {
        p.drop_last()
    } else {
        p
    };
    q.map_values(|l: Seq<char>| strip_cr(l))
}

/// What assembling each of `eqs` in turn gives: every equation's assembly, or
/// the error of the first equation that is refused.
pub open spec fn assemble_all(eqs: Seq<Seq<char>>) -> Result<
    Seq<((Option<Seq<char>>, Option<Seq<char>>, Option<Seq<char>>), Seq<(Option<Seq<char>>, int)>)>,
    AssemblyError,
>
    decreases eqs.len(),
{
    if eqs.len() == 0 {
        Ok(Seq::empty())
    } else {
        match assemble_all(eqs.drop_last()) {
            Err(e) => Err(e),
            Ok(done) => match eq_assembly(eqs.last()) {
                Err(e) => Err(e),
                Ok(a) => Ok(done.push(a)),
            },
        }
    }
}

/// A copy of an optional string.
fn copy_opt(o: &Option<String>) -> (r: Option<String>)
    ensures
        opt_text(r) == opt_text(*o),
{
    match o {
        Some(s) => Some(s.clone()),
        None => None,
    }
}

/// A copy of a gate's wires.
fn copy_wires(w: &GateWire) -> (r: GateWire)
    ensures
        wire_texts(r) == wire_texts(*w),
{
    GateWire { L: copy_opt(&w.L), R: copy_opt(&w.R), O: copy_opt(&w.O) }
}

/// A copy of a coefficient vector.
fn copy_coeffs(v: &Vec<(Option<String>, Fr)>) -> (r: Vec<(Option<String>, Fr)>)
    ensures
        coeff_entries(r@) == coeff_entries(v@),
{
    let mut r: Vec<(Option<String>, Fr)> = Vec::new();
    let mut i: usize = 0;
    while i < v.len()
        invariant
            i <= v.len(),
            r.len() == i,
            coeff_entries(r@) == coeff_entries(v@).take(i as int),
        decreases v.len() - i,
    {
        let k = copy_opt(&v[i].0);
        let c = v[i].1;
        let ghost before = r@;
        r.push((k, c));
        proof {
            assert(r@.take(i as int) =~= before);
            assert(coeff_entries(r@)[i as int] == (opt_text(k), c@));
            assert(coeff_entries(v@)[i as int] == (opt_text(v@[i as int].0), v@[i as int].1@));
            assert(coeff_entries(r@) =~= coeff_entries(v@).take(i + 1));
        }
        i = i + 1;
    }
    proof {
        assert(coeff_entries(v@).take(v.len() as int) =~= coeff_entries(v@));
    }
    r
}

/// Assembles each equation, stopping at the first that is refused.
fn assemble_strs(eqs: &Vec<&str>) -> (r: Result<Vec<AssembleEquation>, AssemblyError>)
    ensures
        match r {
            Ok(v) => assemble_all(token_texts(eqs@)) == Ok::<
                Seq<
                    (
                        (Option<Seq<char>>, Option<Seq<char>>, Option<Seq<char>>),
                        Seq<(Option<Seq<char>>, int)>,
                    ),
                >,
                AssemblyError,
            >(v@.map_values(|a: AssembleEquation| eq_view(a))),
            Err(e) => assemble_all(token_texts(eqs@)) == Err::<
                Seq<
                    (
                        (Option<Seq<char>>, Option<Seq<char>>, Option<Seq<char>>),
                        Seq<(Option<Seq<char>>, int)>,
                    ),
                >,
                AssemblyError,
            >(e),
        },
{
    let ghost texts = token_texts(eqs@);
    let mut out: Vec<AssembleEquation> = Vec::new();
    let mut i: usize = 0;
    proof {
        assert(texts.take(0) =~= Seq::<Seq<char>>::empty());
        assert(out@.map_values(|a: AssembleEquation| eq_view(a)) =~= Seq::empty());
    }
    while i < eqs.len()
        invariant
            i <= eqs.len(),
            texts == token_texts(eqs@),
            assemble_all(texts.take(i as int)) == Ok::<
                Seq<
                    (
                        (Option<Seq<char>>, Option<Seq<char>>, Option<Seq<char>>),
                        Seq<(Option<Seq<char>>, int)>,
                    ),
                >,
                AssemblyError,
            >(out@.map_values(|a: AssembleEquation| eq_view(a))),
        decreases eqs.len() - i,
    {
        proof {
            assert(texts.take(i + 1).drop_last() =~= texts.take(i as int));
            assert(texts.take(i + 1).last() == eqs@[i as int]@);
        }
        match eq_to_assembly(eqs[i]) {
            Ok(a) => {
                let ghost before = out@;
                out.push(a);
                proof {
                    assert(out@.map_values(|a: AssembleEquation| eq_view(a)) =~= before.map_values(
                        |a: AssembleEquation| eq_view(a),
                    ).push(eq_view(a)));
                }
            },
            Err(e) => {
                proof {
                    let t = texts.take(i + 1);
                    assert(assemble_all(t) == Err::<
                        Seq<
                            (
                                (Option<Seq<char>>, Option<Seq<char>>, Option<Seq<char>>),
                                Seq<(Option<Seq<char>>, int)>,
                            ),
                        >,
                        AssemblyError,
                    >(e));
                    lemma_assemble_err_stays(texts, i as int + 1);
                }
                return Err(e);
            },
        }
        i = i + 1;
    }
    proof {
        assert(texts.take(eqs.len() as int) =~= texts);
    }
    Ok(out)
}

/// Once a prefix is refused, the whole list is refused with the same error.
proof fn lemma_assemble_err_stays(eqs: Seq<Seq<char>>, k: int)
    requires
        0 <= k <= eqs.len(),
        assemble_all(eqs.take(k)) is Err,
    ensures
        assemble_all(eqs) == assemble_all(eqs.take(k)),
    decreases eqs.len() - k,
{
    if k == eqs.len() {
        assert(eqs.take(k) =~= eqs);
    } else {
        assert(eqs.take(k + 1).drop_last() =~= eqs.take(k));
        lemma_assemble_err_stays(eqs, k + 1);
    }
}

impl Program {
    /// A program from assembled constraints.
    pub fn new(constraints: Vec<AssembleEquation>, group_order: u64) -> (r: Self)
        ensures
            r.constraints@ == constraints@,
            r.group_order == group_order,
    {
        Program { constraints, group_order }
    }

    /// A program from the text of its equations; the first equation that is
    /// refused gives the error.
    pub fn new_with_string(constraints: Vec<String>, group_order: u64) -> (r: Result<Self, AssemblyError>)
        ensures
            match r {
                Ok(p) => p.group_order == group_order && assemble_all(
                    string_texts(constraints@),
                ) == Ok::<
                    Seq<
                        (
                            (Option<Seq<char>>, Option<Seq<char>>, Option<Seq<char>>),
                            Seq<(Option<Seq<char>>, int)>,
                        ),
                    >,
                    AssemblyError,
                >(p.constraints@.map_values(|a: AssembleEquation| eq_view(a))),
                Err(e) => assemble_all(string_texts(constraints@)) == Err::<
                    Seq<
                        (
                            (Option<Seq<char>>, Option<Seq<char>>, Option<Seq<char>>),
                            Seq<(Option<Seq<char>>, int)>,
                        ),
                    >,
                    AssemblyError,
                >(e),
            },
    {
        let mut strs: Vec<&str> = Vec::new();
        let mut i: usize = 0;
        while i < constraints.len()
            invariant
                i <= constraints.len(),
                token_texts(strs@) == string_texts(constraints@).take(
                    i as int,
                ),
            decreases constraints.len() - i,
        {
            let ghost before = strs@;
            let cs = constraints[i].as_str();
            strs.push(cs);
            proof {
                assert(token_texts(strs@) =~= token_texts(before).push(cs@));
                assert(string_texts(constraints@)[i as int] == cs@);
                assert(string_texts(constraints@).take(i + 1) =~= string_texts(constraints@).take(
                    i as int,
                ).push(cs@));
                assert(token_texts(strs@) =~= string_texts(constraints@).take(
                    i + 1,
                ));
            }
            i = i + 1;
        }
        proof {
            assert(string_texts(constraints@).take(constraints.len() as int)
                =~= string_texts(constraints@));
        }
        match assemble_strs(&strs) {
            Ok(v) => Ok(Program { constraints: v, group_order }),
            Err(e) => Err(e),
        }
    }

    /// A program from a text with one equation per line.
    pub fn from_str(constraints: &str, group_order: u64) -> (r: Result<Self, AssemblyError>)
        ensures
            match r {
                Ok(p) => p.group_order == group_order && assemble_all(text_lines(constraints@))
                    == Ok::<
                    Seq<
                        (
                            (Option<Seq<char>>, Option<Seq<char>>, Option<Seq<char>>),
                            Seq<(Option<Seq<char>>, int)>,
                        ),
                    >,
                    AssemblyError,
                >(p.constraints@.map_values(|a: AssembleEquation| eq_view(a))),
                Err(e) => assemble_all(text_lines(constraints@)) == Err::<
                    Seq<
                        (
                            (Option<Seq<char>>, Option<Seq<char>>, Option<Seq<char>>),
                            Seq<(Option<Seq<char>>, int)>,
                        ),
                    >,
                    AssemblyError,
                >(e),
            },
    {
        let pieces = split_exec(constraints, '\n');
        let ghost p = token_texts(pieces@);
        proof {
            assert(p == split_on(constraints@, '\n'));
        }
        let mut count = pieces.len();
        if count > 0 && pieces[count - 1].unicode_len() == 0 {
            count = count - 1;
        }
        let ghost q = p.take(count as int);
        proof {
            assert(q == (if p.len() > 0 && p.last().len() == 0 {
                p.drop_last()
            } else {
                p
            })) by {
                if p.len() > 0 && p.last().len() == 0 {
                    assert(p.take(count as int) =~= p.drop_last());
                } else {
                    assert(p.take(count as int) =~= p);
                }
            }
        }
        let mut lines: Vec<&str> = Vec::new();
        let mut i: usize = 0;
        while i < count
            invariant
                count <= pieces.len(),
                i <= count,
                p == token_texts(pieces@),
                q == p.take(count as int),
                token_texts(lines@) == q.take(i as int).map_values(|l: Seq<char>| strip_cr(l)),
            decreases count - i,
        {
            let piece = pieces[i];
            let n = piece.unicode_len();
            let line = if n > 0 && piece.get_char(n - 1) == '\r' {
                piece.substring_char(0, n - 1)
            } else {
                piece
            };
            proof {
                assert(q[i as int] == piece@);
                if n > 0 && piece@.last() == '\r' {
                    assert(line@ =~= piece@.drop_last());
                }
            }
            let ghost before = lines@;
            lines.push(line);
            proof {
                assert(token_texts(lines@) =~= token_texts(before).push(line@));
                assert(strip_cr(q[i as int]) == line@);
                assert(q.take(i + 1) =~= q.take(i as int).push(q[i as int]));
                assert(token_texts(lines@) =~= q.take(i + 1).map_values(|l: Seq<char>| strip_cr(l)));
            }
            i = i + 1;
        }
        proof {
            assert(q.take(count as int) =~= q);
        }
        match assemble_strs(&lines) {
            Ok(v) => Ok(Program { constraints: v, group_order }),
            Err(e) => Err(e),
        }
    }

    /// The coefficients of each constraint.
    pub fn coeffs(&self) -> (r: Vec<Vec<(Option<String>, Fr)>>)
        ensures
            r.len() == self.constraints.len(),
            forall|i: int|
                0 <= i < r.len() ==> coeff_entries(#[trigger] r@[i]@) == coeff_entries(
                    self.constraints@[i].coeffs@,
                ),
    {
        let mut r: Vec<Vec<(Option<String>, Fr)>> = Vec::new();
        let mut i: usize = 0;
        while i < self.constraints.len()
            invariant
                i <= self.constraints.len(),
                r.len() == i,
                forall|j: int|
                    0 <= j < i ==> coeff_entries(#[trigger] r@[j]@) == coeff_entries(
                        self.constraints@[j].coeffs@,
                    ),
            decreases self.constraints.len() - i,
        {
            r.push(copy_coeffs(&self.constraints[i].coeffs));
            i = i + 1;
        }
        r
    }

    /// The wires of each constraint.
    pub fn wires(&self) -> (r: Vec<GateWire>)
        ensures
            r.len() == self.constraints.len(),
            forall|i: int|
                0 <= i < r.len() ==> wire_texts(#[trigger] r@[i]) == wire_texts(self.constraints@[i].wires),
    {
        let mut r: Vec<GateWire> = Vec::new();
        let mut i: usize = 0;
        while i < self.constraints.len()
            invariant
                i <= self.constraints.len(),
                r.len() == i,
                forall|j: int|
                    0 <= j < i ==> wire_texts(#[trigger] r@[j]) == wire_texts(
                        self.constraints@[j].wires,
                    ),
            decreases self.constraints.len() - i,
        {
            r.push(copy_wires(&self.constraints[i].wires));
            i = i + 1;
        }
        r
    }
}

/// The selectors `(L, R, M, O, C)` of a constraint.
pub open spec fn constraint_gate(c: AssembleEquation) -> (int, int, int, int, int) {
    gate_values(wire_texts(c.wires), coeff_entries(c.coeffs@))
}

/// Component `k` of a selector tuple.
pub open spec fn gate_part(g: (int, int, int, int, int), k: int) -> int {
    if k == 0 {
        g.0
    } else if k == 1 {
        g.1
    } else if k == 2 {
        g.2
    } else if k == 3 {
        g.3
    } else {
        g.4
    }
}

/// Selector `k` over `n` rows: the constraints' selectors, then zeros.
pub open spec fn selector_column(cs: Seq<AssembleEquation>, n: nat, k: int) -> Seq<int> {
    Seq::new(n, |i: int| if i < cs.len() { gate_part(constraint_gate(cs[i]), k) } else { 0 })
}

/// The field values of a vector of elements.
pub open spec fn values_of(v: Seq<Fr>) -> Seq<int> {
    v.map_values(|x: Fr| x@)
}

/// The domain of `n` rows that `Domain::new` gives.
pub open spec fn row_domain(d: Domain, n: nat) -> bool {
    &&& d.size == domain_size(n)
    &&& subgroup_root_of_unity(d.size as nat) == Some(d.generator@)
}

/// `n` zeros.
fn zeros(n: usize) -> (r: Vec<Fr>)
    ensures
        r.len() == n,
        forall|i: int| 0 <= i < n ==> (#[trigger] r@[i])@ == 0,
{
    let mut r: Vec<Fr> = Vec::new();
    let mut i: usize = 0;
    while i < n
        invariant
            i <= n,
            r.len() == i,
            forall|j: int| 0 <= j < i ==> (#[trigger] r@[j])@ == 0,
        decreases n - i,
    {
        r.push(Fr::zero());
        i = i + 1;
    }
    r
}

/// The key of the product of two optional wires, where both are set.
pub open spec fn product_key_opt(a: Option<Seq<char>>, b: Option<Seq<char>>) -> Option<Seq<char>> {
    match (a, b) {
        (Some(x), Some(y)) => Some(product_key_text(x, y)),
        _ => None,
    }
}

/// One step of filling in assignments: where the constraint has an output
/// and its output coefficient is one or minus one, the output's value is
/// `(C + a L + b R + a b M) * o` for the values `a`, `b` of the inputs (the
/// right input counted once where it is the left one); it is recorded, or
/// checked against the value already there.
pub open spec fn fill_step(
    out: Seq<(Option<Seq<char>>, int)>,
    w: (Option<Seq<char>>, Option<Seq<char>>, Option<Seq<char>>),
    s: Seq<(Option<Seq<char>>, int)>,
) -> Result<Seq<(Option<Seq<char>>, int)>, AssemblyError> {
    let oc = coeff_or(s, output_coeff_key(), 1);
    if w.2 is Some && (oc == fneg(1) || oc == 1) {
        match (lookup(out, w.0), lookup(out, w.1)) {
            (Some(vl), Some(vr)) => {
                let same = if w.1 != w.0 {
                    1int
                } else {
                    0int
                };
                let total = fadd(
                    fadd(
                        fadd(coeff_or(s, Some(Seq::empty()), 0), fmul(vl, coeff_or(s, w.0, 0))),
                        fmul(fmul(vr, coeff_or(s, w.1, 0)), same),
                    ),
                    fmul(fmul(vl, vr), coeff_or(s, product_key_opt(w.0, w.1), 0)),
                );
                let nv = fmul(total, oc);
                match lookup(out, w.2) {
                    Some(x) => if x != nv {
                        Err(AssemblyError::InconsistentAssignment)
                    } else {
                        Ok(out)
                    },
                    None => Ok(out.push((w.2, nv))),
                }
            },
            _ => Err(AssemblyError::UnassignedVariable),
        }
    } else {
        Ok(out)
    }
}

/// Filling in assignments constraint by constraint.
pub open spec fn fill_all(
    start: Seq<(Option<Seq<char>>, int)>,
    eqs: Seq<((Option<Seq<char>>, Option<Seq<char>>, Option<Seq<char>>), Seq<(Option<Seq<char>>, int)>)>,
) -> Result<Seq<(Option<Seq<char>>, int)>, AssemblyError>
    decreases eqs.len(),
{
    if eqs.len() == 0 {
        Ok(start)
    } else {
        match fill_all(start, eqs.drop_last()) {
            Err(e) => Err(e),
            Ok(o) => fill_step(o, eqs.last().0, eqs.last().1),
        }
    }
}

/// Whether a constraint gives its output a value when assignments are filled
/// in: it has an output, and its output coefficient is one or minus one.
pub open spec fn fills_output(
    w: (Option<Seq<char>>, Option<Seq<char>>, Option<Seq<char>>),
    s: Seq<(Option<Seq<char>>, int)>,
) -> bool {
    let oc = coeff_or(s, output_coeff_key(), 1);
    w.2 is Some && (oc == 1 || oc == fneg(1))
}

/// `a` is the beginning of `b`.
pub open spec fn is_prefix_entries(a: Seq<(Option<Seq<char>>, int)>, b: Seq<(Option<Seq<char>>, int)>) -> bool {
    a.len() <= b.len() && b.subrange(0, a.len() as int) == a
}

/// What is found in a table is still found, unchanged, once entries are
/// appended.
proof fn lemma_lookup_prefix(a: Seq<(Option<Seq<char>>, int)>, b: Seq<(Option<Seq<char>>, int)>, k: Option<Seq<char>>)
    requires
        is_prefix_entries(a, b),
        lookup(a, k) is Some,
    ensures
        lookup(b, k) == lookup(a, k),
    decreases a.len(),
{
    assert(b[0] == a[0]);
    if a[0].0 != k {
        assert(is_prefix_entries(a.drop_first(), b.drop_first())) by {
            assert(b.drop_first().subrange(0, a.drop_first().len() as int) =~= a.drop_first());
        }
        lemma_lookup_prefix(a.drop_first(), b.drop_first(), k);
    }
}

/// An appended entry is found under its key when no earlier entry has it.
proof fn lemma_lookup_push(a: Seq<(Option<Seq<char>>, int)>, k: Option<Seq<char>>, v: int)
    requires
        lookup(a, k) is None,
    ensures
        lookup(a.push((k, v)), k) == Some(v),
    decreases a.len(),
{
    if a.len() == 0 {
        assert(a.push((k, v))[0] == (k, v));
    } else {
        assert(a.push((k, v)).drop_first() =~= a.drop_first().push((k, v)));
        lemma_lookup_push(a.drop_first(), k, v);
    }
}

/// `fadd(fadd(fadd(a, b mod p), c mod p), d mod p)` is `a + b + c + d` modulo p.
proof fn lemma_sum4_mod(a: int, b: int, c: int, d: int)
    ensures
        fadd(fadd(fadd(a, b % fr_modulus()), c % fr_modulus()), d % fr_modulus()) == (a + b + c + d)
            % fr_modulus(),
{
    let m = fr_modulus();
    assert(fadd(a, b % m) == (a + b) % m) by {
        vstd::arithmetic::div_mod::lemma_add_mod_noop(a, b, m);
        vstd::arithmetic::div_mod::lemma_add_mod_noop(a, b % m, m);
        vstd::arithmetic::div_mod::lemma_mod_twice(b, m);
    }
    assert(fadd((a + b) % m, c % m) == (a + b + c) % m) by {
        vstd::arithmetic::div_mod::lemma_add_mod_noop(a + b, c, m);
    }
    assert(fadd((a + b + c) % m, d % m) == (a + b + c + d) % m) by {
        vstd::arithmetic::div_mod::lemma_add_mod_noop(a + b + c, d, m);
    }
}

/// With `oc` one or minus one, `oc (t oc mod p) - t` vanishes modulo p.
proof fn lemma_sign_squared(oc: int, t: int)
    requires
        oc == 1 || oc == fneg(1),
    ensures
        (oc * fmul(t % fr_modulus(), oc) - t) % fr_modulus() == 0,
{
    let m = fr_modulus();
    let nv = fmul(t % m, oc);
    vstd::arithmetic::div_mod::lemma_mul_mod_noop_left(t, oc, m);
    assert(nv == (t * oc) % m);
    vstd::arithmetic::div_mod::lemma_mul_mod_noop_right(oc, t * oc, m);
    vstd::arithmetic::div_mod::lemma_sub_mod_noop(oc * nv, t, m);
    vstd::arithmetic::div_mod::lemma_sub_mod_noop(oc * (t * oc), t, m);
    let k: int = if oc == 1 {
        0
    } else {
        m - 2
    };
    assert(oc == 1 || oc == m - 1) by {
        vstd::arithmetic::div_mod::lemma_mod_multiples_vanish(-1, m - 1, m);
        assert(0 - 1 == -1 * m + (m - 1));
    }
    assert(oc * (t * oc) - t == (k * t) * m) by (nonlinear_arith)
        requires
            oc == 1 || oc == m - 1,
            k == (if oc == 1 { 0 } else { m - 2 }),
    ;
    vstd::arithmetic::div_mod::lemma_mod_multiples_basic(k * t, m);
}

/// One step of filling in assignments: a constraint that fills its output
/// leaves its three wires assigned, with values that satisfy its gate; the
/// table only grows, and `None` keeps the value zero.
proof fn lemma_fill_step_satisfies_gate(
    out: Seq<(Option<Seq<char>>, int)>,
    w: (Option<Seq<char>>, Option<Seq<char>>, Option<Seq<char>>),
    s: Seq<(Option<Seq<char>>, int)>,
    out2: Seq<(Option<Seq<char>>, int)>,
)
    requires
        fill_step(out, w, s) == Ok::<Seq<(Option<Seq<char>>, int)>, AssemblyError>(out2),
        lookup(out, None) == Some(0int),
        distinct_keys(s),
        wires_separated(w),
    ensures
        is_prefix_entries(out, out2),
        lookup(out2, None) == Some(0int),
        fills_output(w, s) ==> {
            &&& lookup(out2, w.0) is Some
            &&& lookup(out2, w.1) is Some
            &&& lookup(out2, w.2) is Some
            &&& gate_sum(gate_values(w, s), lookup(out2, w.0)->0, lookup(out2, w.1)->0, lookup(out2, w.2)->0) == 0
        },
{
    let m = fr_modulus();
    if !fills_output(w, s) {
        assert(out2 == out);
        assert(out.subrange(0, out.len() as int) =~= out);
        return;
    }
    let oc = coeff_or(s, output_coeff_key(), 1);
    let vl = lookup(out, w.0)->0;
    let vr = lookup(out, w.1)->0;
    let same: int = if w.1 != w.0 {
        1
    } else {
        0
    };
    let cc = coeff_or(s, Some(Seq::<char>::empty()), 0);
    let cl = coeff_or(s, w.0, 0);
    let cr = coeff_or(s, w.1, 0);
    let cpk = coeff_or(s, crate::program::product_key_opt(w.0, w.1), 0);
    let total = fadd(fadd(fadd(cc, fmul(vl, cl)), fmul(fmul(vr, cr), same)), fmul(fmul(vl, vr), cpk));
    let nv = fmul(total, oc);
    // the value the step gives the output is the right-hand side times `oc`
    let both = w.0 is Some && w.1 is Some;
    let rhs = rhs_value(s, w, vl, vr);
    crate::assembly::lemma_rhs_by_coeffs(s, w, vl, vr);
    assert(fmul(fmul(vr, cr), same) == (vr * cr * same) % m) by {
        vstd::arithmetic::div_mod::lemma_mul_mod_noop_left(vr * cr, same, m);
    }
    assert(fmul(fmul(vl, vr), cpk) == (vl * vr * cpk) % m) by {
        vstd::arithmetic::div_mod::lemma_mul_mod_noop_left(vl * vr, cpk, m);
    }
    lemma_sum4_mod(cc, vl * cl, vr * cr * same, vl * vr * cpk);
    assert(vl * vr * cpk == (if both {
        coeff_or(s, Some(product_key_text(w.0->0, w.1->0)), 0) * (vl * vr)
    } else {
        0
    })) by {
        if both {
            assert(vl * vr * cpk == cpk * (vl * vr)) by (nonlinear_arith);
        } else if w.0 is None {
            assert(vl == 0);
            assert(0 * vr * cpk == 0) by (nonlinear_arith);
        } else {
            assert(vr == 0);
            assert(vl * 0 * cpk == 0) by (nonlinear_arith);
        }
    }
    assert(vr * cr * same == (if w.1 != w.0 {
        cr * vr
    } else {
        0
    })) by {
        if w.1 != w.0 {
            assert(vr * cr * 1 == cr * vr) by (nonlinear_arith);
        } else {
            assert(vr * cr * 0 == 0) by (nonlinear_arith);
        }
    }
    assert(vl * cl == cl * vl) by (nonlinear_arith);
    assert(total == rhs % m);
    lemma_sign_squared(oc, rhs);
    assert((oc * nv - rhs) % m == 0);
    match lookup(out, w.2) {
        Some(x) => {
            assert(out2 == out);
            assert(out.subrange(0, out.len() as int) =~= out);
        },
        None => {
            assert(out2 == out.push((w.2, nv)));
            assert(out2.subrange(0, out.len() as int) =~= out);
            lemma_lookup_push(out, w.2, nv);
            lemma_lookup_prefix(out, out2, w.0);
            lemma_lookup_prefix(out, out2, w.1);
            lemma_lookup_prefix(out, out2, None);
        },
    }
    lemma_gate_encodes_equation(w, s, vl, vr, nv);
}

/// The filled assignment satisfies every constraint it fills: where filling in
/// succeeds from a table whose first entry gives `None` the value zero, every
/// constraint with an output and an output coefficient of one or minus one has
/// its wires assigned in the result, and its gate equation
/// `L a + R b + M a b + O c + C` vanishes at their values.
pub proof fn lemma_filled_assignment_satisfies_gates(
    start: Seq<(Option<Seq<char>>, int)>,
    eqs: Seq<((Option<Seq<char>>, Option<Seq<char>>, Option<Seq<char>>), Seq<(Option<Seq<char>>, int)>)>,
    out: Seq<(Option<Seq<char>>, int)>,
)
    requires
        lookup(start, None) == Some(0int),
        fill_all(start, eqs) == Ok::<Seq<(Option<Seq<char>>, int)>, AssemblyError>(out),
        forall|i: int| 0 <= i < eqs.len() ==> distinct_keys(#[trigger] eqs[i].1) && wires_separated(eqs[i].0),
    ensures
        is_prefix_entries(start, out),
        lookup(out, None) == Some(0int),
        forall|i: int|
            0 <= i < eqs.len() && fills_output(#[trigger] eqs[i].0, eqs[i].1) ==> {
                let w = eqs[i].0;
                &&& lookup(out, w.0) is Some
                &&& lookup(out, w.1) is Some
                &&& lookup(out, w.2) is Some
                &&& gate_sum(gate_values(w, eqs[i].1), lookup(out, w.0)->0, lookup(out, w.1)->0, lookup(out, w.2)->0)
                    == 0
            },
    decreases eqs.len(),
{
    if eqs.len() == 0 {
        assert(start.subrange(0, start.len() as int) =~= start);
        return;
    }
    let init = eqs.drop_last();
    let prev = fill_all(start, init)->Ok_0;
    assert(fill_all(start, init) is Ok);
    lemma_filled_assignment_satisfies_gates(start, init, prev);
    let last = eqs.last();
    lemma_fill_step_satisfies_gate(prev, last.0, last.1, out);
    assert(is_prefix_entries(start, out)) by {
        assert(out.subrange(0, start.len() as int) =~= prev.subrange(0, start.len() as int));
    }
    assert forall|i: int|
        0 <= i < eqs.len() && fills_output(#[trigger] eqs[i].0, eqs[i].1) implies {
        let w = eqs[i].0;
        &&& lookup(out, w.0) is Some
        &&& lookup(out, w.1) is Some
        &&& lookup(out, w.2) is Some
        &&& gate_sum(gate_values(w, eqs[i].1), lookup(out, w.0)->0, lookup(out, w.1)->0, lookup(out, w.2)->0) == 0
    } by {
        if i < init.len() {
            assert(init[i] == eqs[i]);
            let w = eqs[i].0;
            lemma_lookup_prefix(prev, out, w.0);
            lemma_lookup_prefix(prev, out, w.1);
            lemma_lookup_prefix(prev, out, w.2);
        }
    }
}

/// The views of a list of assembled equations.
pub open spec fn eq_views(cs: Seq<AssembleEquation>) -> Seq<
    ((Option<Seq<char>>, Option<Seq<char>>, Option<Seq<char>>), Seq<(Option<Seq<char>>, int)>),
> {
    cs.map_values(|a: AssembleEquation| eq_view(a))
}

/// One step of filling in assignments.
fn fill_step_exec(out: &mut Vec<(Option<String>, Fr)>, c: &AssembleEquation) -> (r: Result<(), AssemblyError>)
    ensures
        match r {
            Ok(_) => fill_step(coeff_entries(old(out)@), wire_texts(c.wires), coeff_entries(c.coeffs@))
                == Ok::<Seq<(Option<Seq<char>>, int)>, AssemblyError>(coeff_entries(final(out)@)),
            Err(e) => fill_step(coeff_entries(old(out)@), wire_texts(c.wires), coeff_entries(c.coeffs@))
                == Err::<Seq<(Option<Seq<char>>, int)>, AssemblyError>(e),
        },
{
    let ghost s = coeff_entries(c.coeffs@);
    let ghost w = wire_texts(c.wires);
    let okey = Some(String::from_str("$output_coeff"));
    let oc = match lookup_exec(&c.coeffs, &okey) {
        Some(x) => x,
        None => Fr::one(),
    };
    let minus_one = Fr::one().neg();
    let one = Fr::one();
    proof {
        vstd::arithmetic::div_mod::lemma_small_mod(1, fr_modulus() as nat);
    }
    if !(c.wires.O.is_some() && (oc.eq(&minus_one) || oc.eq(&one))) {
        return Ok(());
    }
    let vl = match lookup_exec(out, &c.wires.L) {
        Some(x) => x,
        None => {
            return Err(AssemblyError::UnassignedVariable);
        },
    };
    let vr = match lookup_exec(out, &c.wires.R) {
        Some(x) => x,
        None => {
            return Err(AssemblyError::UnassignedVariable);
        },
    };
    let ckey = Some(String::new());
    proof {
        assert(opt_text(ckey) == Some(Seq::<char>::empty()));
    }
    let cc = match lookup_exec(&c.coeffs, &ckey) {
        Some(x) => x,
        None => Fr::zero(),
    };
    let cl = match lookup_exec(&c.coeffs, &c.wires.L) {
        Some(x) => x,
        None => Fr::zero(),
    };
    let cr = match lookup_exec(&c.coeffs, &c.wires.R) {
        Some(x) => x,
        None => Fr::zero(),
    };
    let pkey = match (&c.wires.L, &c.wires.R) {
        (Some(l), Some(r)) => Some(product_key_string(l.as_str(), r.as_str())),
        _ => None,
    };
    let cm = match lookup_exec(&c.coeffs, &pkey) {
        Some(x) => x,
        None => Fr::zero(),
    };
    let same = if !opt_eq(&c.wires.R, &c.wires.L) {
        Fr::one()
    } else {
        Fr::zero()
    };
    let total = cc.add(&vl.mul(&cl)).add(&vr.mul(&cr).mul(&same)).add(&vl.mul(&vr).mul(&cm));
    let nv = total.mul(&oc);
    match lookup_exec(out, &c.wires.O) {
        Some(x) => {
            if !x.eq(&nv) {
                return Err(AssemblyError::InconsistentAssignment);
            }
            Ok(())
        },
        None => {
            let key = copy_opt(&c.wires.O);
            let ghost before = coeff_entries(out@);
            out.push((key, nv));
            proof {
                assert(coeff_entries(out@) =~= before.push((w.2, nv@)));
            }
            Ok(())
        },
    }
}

/// The selectors' names of a program's public declarations.
pub open spec fn public_name(s: Seq<(Option<Seq<char>>, int)>) -> Seq<char>
    decreases s.len(),
{
    if s.len() == 0 {
        Seq::empty()
    } else {
        let k = s.last().0->0;
        public_name(s.drop_last()) + if k.len() > 0 && k[0] != '$' {
            k
        } else {
            Seq::empty()
        }
    }
}

/// Whether every key is present and non-empty.
pub open spec fn keys_named(s: Seq<(Option<Seq<char>>, int)>) -> bool {
    forall|i: int| 0 <= i < s.len() ==> (#[trigger] s[i]).0 is Some && s[i].0->0.len() > 0
}

/// Scanning the constraints for public declarations: each one's name (its
/// keys that do not start with `$`, joined), and whether a constraint was
/// seen; a declaration after a constraint is refused.
pub open spec fn public_scan(eqs: Seq<Seq<(Option<Seq<char>>, int)>>) -> Result<
    (bool, Seq<Option<Seq<char>>>),
    AssemblyError,
>
    decreases eqs.len(),
{
    if eqs.len() == 0 {
        Ok((false, Seq::empty()))
    } else {
        match public_scan(eqs.drop_last()) {
            Err(e) => Err(e),
            Ok(st) => {
                let s = eqs.last();
                if lookup(s, Some("$public"@)) is Some {
                    if st.0 {
                        Err(AssemblyError::PublicAfterConstraint)
                    } else if !keys_named(s) {
                        Err(AssemblyError::MissingPublicName)
                    } else {
                        Ok((st.0, st.1.push(Some(public_name(s)))))
                    }
                } else {
                    Ok((true, st.1))
                }
            },
        }
    }
}

/// Whether a constraint's coefficients declare a public input.
pub open spec fn declares_public(s: Seq<(Option<Seq<char>>, int)>) -> bool {
    lookup(s, Some("$public"@)) is Some
}

/// The public inputs come out in declaration order: where the scan succeeds,
/// its names are those of the constraints that declare a public input, taken
/// in program order, one per declaration.
pub proof fn lemma_public_names_in_order(eqs: Seq<Seq<(Option<Seq<char>>, int)>>)
    requires
        public_scan(eqs) is Ok,
    ensures
        public_scan(eqs)->Ok_0.1 == eqs.filter(|s: Seq<(Option<Seq<char>>, int)>| declares_public(s)).map_values(
            |s: Seq<(Option<Seq<char>>, int)>| Some(public_name(s)),
        ),
    decreases eqs.len(),
{
    reveal(Seq::filter);
    if eqs.len() == 0 {
        assert(eqs.filter(|s: Seq<(Option<Seq<char>>, int)>| declares_public(s)) =~= Seq::empty());
    } else {
        lemma_public_names_in_order(eqs.drop_last());
        let f0 = eqs.drop_last().filter(|s: Seq<(Option<Seq<char>>, int)>| declares_public(s));
        if declares_public(eqs.last()) {
            assert(eqs.filter(|s: Seq<(Option<Seq<char>>, int)>| declares_public(s)) == f0.push(eqs.last()));
            assert(f0.push(eqs.last()).map_values(|s: Seq<(Option<Seq<char>>, int)>| Some(public_name(s)))
                =~= f0.map_values(|s: Seq<(Option<Seq<char>>, int)>| Some(public_name(s))).push(
                Some(public_name(eqs.last())),
            ));
        } else {
            assert(eqs.filter(|s: Seq<(Option<Seq<char>>, int)>| declares_public(s)) == f0);
        }
    }
}

/// Every public declaration comes before every other constraint.
pub open spec fn declarations_first(eqs: Seq<Seq<(Option<Seq<char>>, int)>>) -> bool {
    forall|i: int, j: int|
        0 <= i < j < eqs.len() && declares_public(#[trigger] eqs[j]) ==> declares_public(#[trigger] eqs[i])
}

/// Every public declaration names its input.
pub open spec fn declarations_named(eqs: Seq<Seq<(Option<Seq<char>>, int)>>) -> bool {
    forall|i: int| 0 <= i < eqs.len() && declares_public(#[trigger] eqs[i]) ==> keys_named(eqs[i])
}

/// Scanning for public inputs succeeds exactly when the declarations come
/// first and each names its input; it then reports whether some constraint is
/// not a declaration.
pub proof fn lemma_public_scan_succeeds(eqs: Seq<Seq<(Option<Seq<char>>, int)>>)
    ensures
        public_scan(eqs) is Ok <==> declarations_first(eqs) && declarations_named(eqs),
        public_scan(eqs) is Ok ==> (public_scan(eqs)->Ok_0.0 <==> exists|i: int|
            0 <= i < eqs.len() && !declares_public(#[trigger] eqs[i])),
    decreases eqs.len(),
{
    if eqs.len() == 0 {
        return;
    }
    let init = eqs.drop_last();
    let l = eqs.len() - 1;
    lemma_public_scan_succeeds(init);
    assert forall|i: int| 0 <= i < init.len() implies #[trigger] init[i] == eqs[i] by {}
    if !(declarations_first(init) && declarations_named(init)) {
        if !declarations_first(init) {
            let (i, j) = choose|i: int, j: int|
                0 <= i < j < init.len() && declares_public(#[trigger] init[j]) && !declares_public(#[trigger] init[i]);
            assert(declares_public(eqs[j]) && !declares_public(eqs[i]));
        } else {
            let i = choose|i: int| 0 <= i < init.len() && declares_public(#[trigger] init[i]) && !keys_named(init[i]);
            assert(declares_public(eqs[i]) && !keys_named(eqs[i]));
        }
        return;
    }
    let st = public_scan(init)->Ok_0;
    let last = eqs.last();
    if declares_public(last) {
        if st.0 {
            let i = choose|i: int| 0 <= i < init.len() && !declares_public(#[trigger] init[i]);
            assert(!declares_public(eqs[i]) && declares_public(eqs[l]));
        } else if !keys_named(last) {
            assert(declares_public(eqs[l]) && !keys_named(eqs[l]));
        } else {
            assert forall|i: int| 0 <= i < eqs.len() implies declares_public(#[trigger] eqs[i]) by {
                if i < l {
                    assert(declares_public(init[i]));
                }
            }
            assert(declarations_named(eqs)) by {
                assert forall|i: int| 0 <= i < eqs.len() && declares_public(#[trigger] eqs[i]) implies keys_named(
                    eqs[i],
                ) by {
                    if i < l {
                        assert(declares_public(init[i]));
                    }
                }
            }
        }
    } else {
        assert(!declares_public(eqs[l]));
        assert(declarations_first(eqs)) by {
            assert forall|i: int, j: int|
                0 <= i < j < eqs.len() && declares_public(#[trigger] eqs[j]) implies declares_public(
                #[trigger] eqs[i],
            ) by {
                assert(j < l);
                assert(declares_public(init[j]));
                assert(declares_public(init[i]));
            }
        }
        assert(declarations_named(eqs)) by {
            assert forall|i: int| 0 <= i < eqs.len() && declares_public(#[trigger] eqs[i]) implies keys_named(
                eqs[i],
            ) by {
                assert(declares_public(init[i]));
            }
        }
    }
}

/// `x public` declares the public input `x`: for a name that does not start
/// with `$`, the declaration's coefficients declare a public input, are all
/// named, and the name read back from them is `x`.
pub proof fn lemma_public_declaration_names(name: Seq<char>)
    requires
        name.len() > 0,
        name[0] != '$',
    ensures
        declares_public(crate::assembly::public_entries(name)),
        keys_named(crate::assembly::public_entries(name)),
        public_name(crate::assembly::public_entries(name)) == name,
{
    reveal_strlit("$public");
    reveal_strlit("$output_coeff");
    let e = crate::assembly::public_entries(name);
    assert(name != "$public"@ && name != "$output_coeff"@) by {
        assert("$public"@[0] == '$');
        assert("$output_coeff"@[0] == '$');
    }
    assert(e == seq![(Some(name), fneg(1)), (output_coeff_key(), 0int), (Some("$public"@), 1int)]);
    assert("$output_coeff"@ != "$public"@) by {
        assert("$output_coeff"@.len() != "$public"@.len());
    }
    let e1 = e.drop_first();
    let e2 = e1.drop_first();
    assert(e1 =~= seq![(output_coeff_key(), 0int), (Some("$public"@), 1int)]);
    assert(e2 =~= seq![(Some("$public"@), 1int)]);
    assert(lookup(e2, Some("$public"@)) == Some(1int));
    assert(lookup(e1, Some("$public"@)) == Some(1int));
    assert(lookup(e, Some("$public"@)) == Some(1int));
    let d1 = e.drop_last();
    let d2 = d1.drop_last();
    assert(d1 =~= seq![(Some(name), fneg(1)), (output_coeff_key(), 0int)]);
    assert(d2 =~= seq![(Some(name), fneg(1))]);
    assert(d2.drop_last() =~= Seq::<(Option<Seq<char>>, int)>::empty());
    assert(public_name(d2.drop_last()) == Seq::<char>::empty());
    assert(public_name(d2) =~= name);
    assert(public_name(d1) =~= name);
    assert(public_name(e) =~= name);
}

/// The name declared by a public declaration's coefficients.
fn public_name_exec(v: &Vec<(Option<String>, Fr)>) -> (r: Result<String, AssemblyError>)
    ensures
        r is Ok <==> keys_named(coeff_entries(v@)),
        r matches Ok(n) ==> n@ == public_name(coeff_entries(v@)),
        r is Err ==> r == Err::<String, AssemblyError>(AssemblyError::MissingPublicName),
{
    let ghost e = coeff_entries(v@);
    let mut name = String::new();
    let mut i: usize = 0;
    proof {
        assert(e.take(0) =~= Seq::<(Option<Seq<char>>, int)>::empty());
    }
    while i < v.len()
        invariant
            i <= v.len(),
            e == coeff_entries(v@),
            keys_named(e.take(i as int)),
            name@ == public_name(e.take(i as int)),
        decreases v.len() - i,
    {
        proof {
            assert(e[i as int] == (opt_text(v@[i as int].0), v@[i as int].1@));
            assert(e.take(i + 1).drop_last() =~= e.take(i as int));
            assert(e.take(i + 1).last() == e[i as int]);
        }
        match &v[i].0 {
            Some(k) => {
                let n = k.as_str().unicode_len();
                if n == 0 {
                    proof {
                        assert(!keys_named(e));
                    }
                    return Err(AssemblyError::MissingPublicName);
                }
                if k.as_str().get_char(0) != '$' {
                    name.append(k.as_str());
                }
            },
            None => {
                proof {
                    assert(!keys_named(e));
                }
                return Err(AssemblyError::MissingPublicName);
            },
        }
        i = i + 1;
    }
    proof {
        assert(e.take(v.len() as int) =~= e);
    }
    Ok(name)
}

impl Program {
    /// The selector polynomials `(L, R, M, O, C)` in evaluation form over the
    /// rows: row `i` holds constraint `i`'s selectors, the rows past the
    /// constraints hold zeros.
    pub fn make_gate_polynomials(&self) -> (r: (
        UnivariateEval,
        UnivariateEval,
        UnivariateEval,
        UnivariateEval,
        UnivariateEval,
    ))
        requires
            self.constraints.len() <= self.group_order,
            self.group_order <= usize::MAX / 2 + 1,
            domain_size(self.group_order as nat) <= two_pow(32),
        ensures
            values_of(r.0.values@) == selector_column(self.constraints@, self.group_order as nat, 0),
            values_of(r.1.values@) == selector_column(self.constraints@, self.group_order as nat, 1),
            values_of(r.2.values@) == selector_column(self.constraints@, self.group_order as nat, 2),
            values_of(r.3.values@) == selector_column(self.constraints@, self.group_order as nat, 3),
            values_of(r.4.values@) == selector_column(self.constraints@, self.group_order as nat, 4),
            row_domain(r.0.domain, self.group_order as nat),
            r.1.domain == r.0.domain && r.2.domain == r.0.domain && r.3.domain == r.0.domain
                && r.4.domain == r.0.domain,
    {
        let n = self.group_order as usize;
        let ghost cs = self.constraints@;
        let mut l = zeros(n);
        let mut rr = zeros(n);
        let mut m = zeros(n);
        let mut o = zeros(n);
        let mut c = zeros(n);
        let mut i: usize = 0;
        while i < self.constraints.len()
            invariant
                i <= self.constraints.len(),
                self.constraints.len() <= n,
                n == self.group_order,
                cs == self.constraints@,
                l.len() == n && rr.len() == n && m.len() == n && o.len() == n && c.len() == n,
                forall|j: int|
                    0 <= j < n ==> (#[trigger] l@[j])@ == if j < i {
                        gate_part(constraint_gate(cs[j]), 0)
                    } else {
                        0
                    },
                forall|j: int|
                    0 <= j < n ==> (#[trigger] rr@[j])@ == if j < i {
                        gate_part(constraint_gate(cs[j]), 1)
                    } else {
                        0
                    },
                forall|j: int|
                    0 <= j < n ==> (#[trigger] m@[j])@ == if j < i {
                        gate_part(constraint_gate(cs[j]), 2)
                    } else {
                        0
                    },
                forall|j: int|
                    0 <= j < n ==> (#[trigger] o@[j])@ == if j < i {
                        gate_part(constraint_gate(cs[j]), 3)
                    } else {
                        0
                    },
                forall|j: int|
                    0 <= j < n ==> (#[trigger] c@[j])@ == if j < i {
                        gate_part(constraint_gate(cs[j]), 4)
                    } else {
                        0
                    },
            decreases self.constraints.len() - i,
        {
            let g = self.constraints[i].gate();
            l.set(i, g.L);
            rr.set(i, g.R);
            m.set(i, g.M);
            o.set(i, g.O);
            c.set(i, g.C);
            i = i + 1;
        }
        let domain = Domain::new(n);
        proof {
            assert(values_of(l@) =~= selector_column(cs, n as nat, 0));
            assert(values_of(rr@) =~= selector_column(cs, n as nat, 1));
            assert(values_of(m@) =~= selector_column(cs, n as nat, 2));
            assert(values_of(o@) =~= selector_column(cs, n as nat, 3));
            assert(values_of(c@) =~= selector_column(cs, n as nat, 4));
        }
        (
            UnivariateEval::new(l, domain),
            UnivariateEval::new(rr, domain),
            UnivariateEval::new(m, domain),
            UnivariateEval::new(o, domain),
            UnivariateEval::new(c, domain),
        )
    }

    /// Runs the program from the given assignments, filling in each
    /// constraint's output (see `fill_step`); `None` stands for zero. An input
    /// without a value, or an output given two different values, is refused.
    pub fn fill_variable_assignments(&self, starting_assignments: Vec<(Option<String>, Fr)>) -> (r: Result<
        Vec<(Option<String>, Fr)>,
        AssemblyError,
    >)
        ensures
            match r {
                Ok(v) => fill_all(
                    seq![(None::<Seq<char>>, 0int)] + coeff_entries(starting_assignments@),
                    eq_views(self.constraints@),
                ) == Ok::<Seq<(Option<Seq<char>>, int)>, AssemblyError>(coeff_entries(v@)),
                Err(e) => fill_all(
                    seq![(None::<Seq<char>>, 0int)] + coeff_entries(starting_assignments@),
                    eq_views(self.constraints@),
                ) == Err::<Seq<(Option<Seq<char>>, int)>, AssemblyError>(e),
            },
    {
        let ghost start = seq![(None::<Seq<char>>, 0int)] + coeff_entries(starting_assignments@);
        let ghost ev = eq_views(self.constraints@);
        let mut out: Vec<(Option<String>, Fr)> = Vec::new();
        out.push((None, Fr::zero()));
        let mut k: usize = 0;
        while k < starting_assignments.len()
            invariant
                k <= starting_assignments.len(),
                coeff_entries(out@) == seq![(None::<Seq<char>>, 0int)] + coeff_entries(
                    starting_assignments@,
                ).take(k as int),
            decreases starting_assignments.len() - k,
        {
            let key = copy_opt(&starting_assignments[k].0);
            let v = starting_assignments[k].1;
            let ghost before = coeff_entries(out@);
            out.push((key, v));
            proof {
                assert(coeff_entries(starting_assignments@)[k as int] == (
                    opt_text(starting_assignments@[k as int].0),
                    starting_assignments@[k as int].1@,
                ));
                assert(coeff_entries(out@) =~= before.push((opt_text(key), v@)));
                assert(coeff_entries(out@) =~= seq![(None::<Seq<char>>, 0int)] + coeff_entries(
                    starting_assignments@,
                ).take(k + 1));
            }
            k = k + 1;
        }
        proof {
            assert(coeff_entries(starting_assignments@).take(starting_assignments.len() as int)
                =~= coeff_entries(starting_assignments@));
            assert(ev.take(0) =~= Seq::empty());
        }
        let mut i: usize = 0;
        while i < self.constraints.len()
            invariant
                i <= self.constraints.len(),
                ev == eq_views(self.constraints@),
                start == seq![(None::<Seq<char>>, 0int)] + coeff_entries(starting_assignments@),
                fill_all(start, ev.take(i as int)) == Ok::<Seq<(Option<Seq<char>>, int)>, AssemblyError>(
                    coeff_entries(out@),
                ),
            decreases self.constraints.len() - i,
        {
            proof {
                assert(ev.take(i + 1).drop_last() =~= ev.take(i as int));
                assert(ev.take(i + 1).last() == eq_view(self.constraints@[i as int]));
            }
            let ghost before = coeff_entries(out@);
            match fill_step_exec(&mut out, &self.constraints[i]) {
                Ok(_) => {},
                Err(e) => {
                    proof {
                        let t = ev.take(i + 1);
                        assert(fill_all(start, t.drop_last()) == Ok::<
                            Seq<(Option<Seq<char>>, int)>,
                            AssemblyError,
                        >(before));
                        assert(fill_all(start, t) == Err::<Seq<(Option<Seq<char>>, int)>, AssemblyError>(
                            e,
                        ));
                        lemma_fill_err_stays(start, ev, i + 1);
                    }
                    return Err(e);
                },
            }
            i = i + 1;
        }
        proof {
            assert(ev.take(self.constraints.len() as int) =~= ev);
        }
        Ok(out)
    }

    /// The public inputs' names, in the order declared; declarations must
    /// come before every other constraint.
    pub fn get_public_assignment(&self) -> (r: Result<Vec<Option<String>>, AssemblyError>)
        ensures
            match r {
                Ok(v) => public_scan(self.constraints@.map_values(
                    |a: AssembleEquation| coeff_entries(a.coeffs@),
                )) is Ok && public_scan(
                    self.constraints@.map_values(|a: AssembleEquation| coeff_entries(a.coeffs@)),
                )->Ok_0.1 == v@.map_values(|o: Option<String>| opt_text(o)),
                Err(e) => public_scan(
                    self.constraints@.map_values(|a: AssembleEquation| coeff_entries(a.coeffs@)),
                ) == Err::<(bool, Seq<Option<Seq<char>>>), AssemblyError>(e),
            },
    {
        let ghost all = self.constraints@.map_values(|a: AssembleEquation| coeff_entries(a.coeffs@));
        let mut no_more_allowed = false;
        let mut o: Vec<Option<String>> = Vec::new();
        let pkey = Some(String::from_str("$public"));
        let mut i: usize = 0;
        proof {
            assert(all.take(0) =~= Seq::<Seq<(Option<Seq<char>>, int)>>::empty());
            assert(o@.map_values(|o: Option<String>| opt_text(o)) =~= Seq::empty());
        }
        while i < self.constraints.len()
            invariant
                i <= self.constraints.len(),
                all == self.constraints@.map_values(|a: AssembleEquation| coeff_entries(a.coeffs@)),
                opt_text(pkey) == Some("$public"@),
                public_scan(all.take(i as int)) == Ok::<(bool, Seq<Option<Seq<char>>>), AssemblyError>(
                    (no_more_allowed, o@.map_values(|o: Option<String>| opt_text(o))),
                ),
            decreases self.constraints.len() - i,
        {
            proof {
                assert(all.take(i + 1).drop_last() =~= all.take(i as int));
                assert(all.take(i + 1).last() == coeff_entries(self.constraints@[i as int].coeffs@));
            }
            let coeffs = &self.constraints[i].coeffs;
            if lookup_exec(coeffs, &pkey).is_some() {
                if no_more_allowed {
                    proof {
                        lemma_public_err_stays(all, i + 1);
                    }
                    return Err(AssemblyError::PublicAfterConstraint);
                }
                match public_name_exec(coeffs) {
                    Ok(name) => {
                        let ghost before = o@;
                        o.push(Some(name));
                        proof {
                            assert(o@.map_values(|o: Option<String>| opt_text(o)) =~= before.map_values(
                                |o: Option<String>| opt_text(o),
                            ).push(Some(name@)));
                        }
                    },
                    Err(e) => {
                        proof {
                            lemma_public_err_stays(all, i + 1);
                        }
                        return Err(e);
                    },
                }
            } else {
                no_more_allowed = true;
            }
            i = i + 1;
        }
        proof {
            assert(all.take(self.constraints.len() as int) =~= all);
        }
        Ok(o)
    }
}

/// Once filling in a prefix fails, filling in the whole list fails alike.
proof fn lemma_fill_err_stays(
    start: Seq<(Option<Seq<char>>, int)>,
    eqs: Seq<((Option<Seq<char>>, Option<Seq<char>>, Option<Seq<char>>), Seq<(Option<Seq<char>>, int)>)>,
    k: int,
)
    requires
        0 <= k <= eqs.len(),
        fill_all(start, eqs.take(k)) is Err,
    ensures
        fill_all(start, eqs) == fill_all(start, eqs.take(k)),
    decreases eqs.len() - k,
{
    if k == eqs.len() {
        assert(eqs.take(k) =~= eqs);
    } else {
        assert(eqs.take(k + 1).drop_last() =~= eqs.take(k));
        lemma_fill_err_stays(start, eqs, k + 1);
    }
}

/// Once scanning a prefix for public declarations fails, the whole scan fails
/// alike.
proof fn lemma_public_err_stays(eqs: Seq<Seq<(Option<Seq<char>>, int)>>, k: int)
    requires
        0 <= k <= eqs.len(),
        public_scan(eqs.take(k)) is Err,
    ensures
        public_scan(eqs) == public_scan(eqs.take(k)),
    decreases eqs.len() - k,
{
    if k == eqs.len() {
        assert(eqs.take(k) =~= eqs);
    } else {
        assert(eqs.take(k + 1).drop_last() =~= eqs.take(k));
        lemma_public_err_stays(eqs, k + 1);
    }
}

/// The wires of each constraint, as texts.
pub open spec fn wire_table(cs: Seq<AssembleEquation>) -> Seq<
    (Option<Seq<char>>, Option<Seq<char>>, Option<Seq<char>>),
> {
    cs.map_values(|a: AssembleEquation| wire_texts(a.wires))
}

/// The variable in cell `idx` (row `idx / 3`, column `idx % 3`: left, right,
/// output); the rows past the constraints are empty.
pub open spec fn cell_var(
    ws: Seq<(Option<Seq<char>>, Option<Seq<char>>, Option<Seq<char>>)>,
    idx: int,
) -> Option<Seq<char>> {
    let row = idx / 3;
    let col = idx % 3;
    if row < ws.len() {
        if col == 0 {
            ws[row].0
        } else if col == 1 {
            ws[row].1
        } else {
            ws[row].2
        }
    } else {
        None
    }
}

/// The cell before `idx` that holds the same variable, the nearest one; for
/// the first use of a variable, its last use among the `total` cells (the
/// uses of each variable form a cycle).
pub open spec fn prev_use(
    ws: Seq<(Option<Seq<char>>, Option<Seq<char>>, Option<Seq<char>>)>,
    total: int,
    idx: int,
) -> int {
    if exists|j: int|
        0 <= j < idx && #[trigger] cell_var(ws, j) == cell_var(ws, idx) && forall|k: int|
            j < k < idx ==> #[trigger] cell_var(ws, k) != cell_var(ws, idx) {
        choose|j: int|
            0 <= j < idx && #[trigger] cell_var(ws, j) == cell_var(ws, idx) && forall|k: int|
                j < k < idx ==> #[trigger] cell_var(ws, k) != cell_var(ws, idx)
    } else {
        choose|j: int|
            idx <= j < total && #[trigger] cell_var(ws, j) == cell_var(ws, idx) && forall|k: int|
                j < k < total ==> #[trigger] cell_var(ws, k) != cell_var(ws, idx)
    }
}

/// The label of cell `idx`: `column * w^row` with columns counted from one.
pub open spec fn cell_label(w: int, idx: int) -> int {
    fmul((idx % 3) + 1, fpow(w, (idx / 3) as nat))
}

/// Permutation polynomial `col` (0, 1, 2) over `n` rows: each cell holds the
/// label of the previous cell with the same variable.
pub open spec fn s_column(
    ws: Seq<(Option<Seq<char>>, Option<Seq<char>>, Option<Seq<char>>)>,
    n: nat,
    w: int,
    col: int,
) -> Seq<int> {
    Seq::new(n, |row: int| cell_label(w, prev_use(ws, (3 * n) as int, 3 * row + col)))
}

/// The variable in a cell.
fn cell_var_exec(cs: &Vec<AssembleEquation>, idx: usize) -> (r: Option<String>)
    ensures
        opt_text(r) == cell_var(wire_table(cs@), idx as int),
{
    let row = idx / 3;
    let col = idx % 3;
    if row < cs.len() {
        let w = &cs[row].wires;
        if col == 0 {
            copy_opt(&w.L)
        } else if col == 1 {
            copy_opt(&w.R)
        } else {
            copy_opt(&w.O)
        }
    } else {
        None
    }
}

/// The powers `w^0, ..., w^(n-1)`.
fn powers(w: Fr, n: usize) -> (r: Vec<Fr>)
    ensures
        r.len() == n,
        forall|i: int| 0 <= i < n ==> (#[trigger] r@[i])@ == fpow(w@, i as nat),
{
    let mut r: Vec<Fr> = Vec::new();
    let mut cur = Fr::one();
    let mut i: usize = 0;
    while i < n
        invariant
            i <= n,
            r.len() == i,
            cur@ == fpow(w@, i as nat),
            forall|j: int| 0 <= j < i ==> (#[trigger] r@[j])@ == fpow(w@, j as nat),
        decreases n - i,
    {
        r.push(cur);
        cur = cur.mul(&w);
        i = i + 1;
    }
    r
}

/// The cell whose label goes into cell `idx`.
fn prev_use_exec(cs: &Vec<AssembleEquation>, total: usize, idx: usize) -> (r: usize)
    requires
        idx < total,
    ensures
        r as int == prev_use(wire_table(cs@), total as int, idx as int),
        r < total,
{
    let ghost ws = wire_table(cs@);
    let v = cell_var_exec(cs, idx);
    let ghost vt = cell_var(ws, idx as int);
    let mut j: usize = idx;
    while j > 0
        invariant
            j <= idx < total,
            ws == wire_table(cs@),
            vt == cell_var(ws, idx as int),
            opt_text(v) == vt,
            forall|k: int| j <= k < idx ==> #[trigger] cell_var(ws, k) != vt,
        decreases j,
    {
        let c = cell_var_exec(cs, j - 1);
        if opt_eq(&c, &v) {
            proof {
                let jj = j - 1;
                assert(cell_var(ws, jj) == vt);
                let ch = choose|c: int|
                    0 <= c < idx && #[trigger] cell_var(ws, c) == vt && forall|k: int|
                        c < k < idx ==> #[trigger] cell_var(ws, k) != vt;
                if ch < jj {
                    assert(cell_var(ws, jj) != vt);
                }
                if ch > jj {
                    assert(cell_var(ws, ch) != vt);
                }
            }
            return j - 1;
        }
        j = j - 1;
    }
    let mut e: usize = total;
    while e > idx
        invariant
            idx < total,
            idx <= e <= total,
            ws == wire_table(cs@),
            vt == cell_var(ws, idx as int),
            opt_text(v) == vt,
            forall|k: int| 0 <= k < idx ==> #[trigger] cell_var(ws, k) != vt,
            forall|k: int| e <= k < total ==> #[trigger] cell_var(ws, k) != vt,
        decreases e,
    {
        let c = cell_var_exec(cs, e - 1);
        if opt_eq(&c, &v) {
            proof {
                let jj = e - 1;
                assert(cell_var(ws, jj) == vt);
                if exists|j: int|
                    0 <= j < idx && #[trigger] cell_var(ws, j) == vt && forall|k: int|
                        j < k < idx ==> #[trigger] cell_var(ws, k) != vt {
                    let w = choose|j: int|
                        0 <= j < idx && #[trigger] cell_var(ws, j) == vt && forall|k: int|
                            j < k < idx ==> #[trigger] cell_var(ws, k) != vt;
                    assert(cell_var(ws, w) != vt);
                }
                let ch = choose|c: int|
                    idx <= c < total && #[trigger] cell_var(ws, c) == vt && forall|k: int|
                        c < k < total ==> #[trigger] cell_var(ws, k) != vt;
                if ch < jj {
                    assert(cell_var(ws, jj) != vt);
                }
                if ch > jj {
                    assert(cell_var(ws, ch) != vt);
                }
            }
            return e - 1;
        }
        e = e - 1;
    }
    proof {
        assert(cell_var(ws, idx as int) != vt);
    }
    idx
}

impl Program {
    /// The permutation polynomials `(S1, S2, S3)` in evaluation form: the
    /// cells of each variable (the empty cells counting as one more variable)
    /// form a cycle, and each cell holds the label `column * w^row` of the
    /// previous cell of its cycle, `w` being the group's root of unity.
    #[verifier::spinoff_prover]
    #[verifier::rlimit(40)]
    pub fn make_s_polynomials(&self) -> (r: (UnivariateEval, UnivariateEval, UnivariateEval))
        requires
            self.constraints.len() <= self.group_order,
            3 * self.group_order <= usize::MAX,
            supported_order(self.group_order as nat),
            domain_size(self.group_order as nat) <= two_pow(32),
        ensures
            subgroup_root_of_unity(self.group_order as nat) is Some,
            values_of(r.0.values@) == s_column(
                wire_table(self.constraints@),
                self.group_order as nat,
                subgroup_root_of_unity(self.group_order as nat)->0,
                0,
            ),
            values_of(r.1.values@) == s_column(
                wire_table(self.constraints@),
                self.group_order as nat,
                subgroup_root_of_unity(self.group_order as nat)->0,
                1,
            ),
            values_of(r.2.values@) == s_column(
                wire_table(self.constraints@),
                self.group_order as nat,
                subgroup_root_of_unity(self.group_order as nat)->0,
                2,
            ),
            row_domain(r.0.domain, self.group_order as nat),
            r.1.domain == r.0.domain && r.2.domain == r.0.domain,
    {
        let n = self.group_order as usize;
        let w = match Fr::get_root_of_unity(self.group_order) {
            Some(w) => w,
            None => {
                proof {
                    assert(false);
                }
                Fr::one()
            },
        };
        let ghost ws = wire_table(self.constraints@);
        let ghost wv = w@;
        let pw = powers(w, n);
        let total = 3 * n;
        let mut cols: Vec<Vec<Fr>> = Vec::new();
        let mut col: usize = 0;
        while col < 3
            invariant
                col <= 3,
                n == self.group_order,
                total == 3 * n,
                ws == wire_table(self.constraints@),
                wv == w@,
                pw.len() == n,
                forall|i: int| 0 <= i < n ==> (#[trigger] pw@[i])@ == fpow(wv, i as nat),
                cols.len() == col,
                forall|c: int| 0 <= c < col ==> values_of(#[trigger] cols@[c]@) == s_column(ws, n as nat, wv, c),
            decreases 3 - col,
        {
            let mut v: Vec<Fr> = Vec::new();
            let mut row: usize = 0;
            while row < n
                invariant
                    col < 3,
                    row <= n,
                    n == self.group_order,
                    total == 3 * n,
                    ws == wire_table(self.constraints@),
                    wv == w@,
                    pw.len() == n,
                    forall|i: int| 0 <= i < n ==> (#[trigger] pw@[i])@ == fpow(wv, i as nat),
                    v.len() == row,
                    forall|i: int|
                        0 <= i < row ==> (#[trigger] v@[i])@ == cell_label(
                            wv,
                            prev_use(ws, total as int, 3 * i + col),
                        ),
                decreases n - row,
            {
                let idx = 3 * row + col;
                let p = prev_use_exec(&self.constraints, total, idx);
                let prow = p / 3;
                let pcol = p % 3;
                let label = Fr::from_u64((pcol + 1) as u64).mul(&pw[prow]);
                proof {
                    vstd::arithmetic::div_mod::lemma_small_mod((pcol + 1) as nat, fr_modulus() as nat);
                }
                v.push(label);
                row = row + 1;
            }
            proof {
                assert(values_of(v@) =~= s_column(ws, n as nat, wv, col as int));
            }
            cols.push(v);
            col = col + 1;
        }
        let domain = Domain::new(n);
        let s3 = cols.pop().unwrap();
        let s2 = cols.pop().unwrap();
        let s1 = cols.pop().unwrap();
        (UnivariateEval::new(s1, domain), UnivariateEval::new(s2, domain), UnivariateEval::new(s3, domain))
    }

    /// The circuit in PLONK form: the selector and permutation polynomials and
    /// the group order.
    pub fn common_preproccessed_input(&self) -> (r: PlonkishIntermediateRepresentation)
        requires
            self.constraints.len() <= self.group_order,
            3 * self.group_order <= usize::MAX,
            supported_order(self.group_order as nat),
            domain_size(self.group_order as nat) <= two_pow(32),
        ensures
            r.group_order == self.group_order,
            values_of(r.QL.values@) == selector_column(self.constraints@, self.group_order as nat, 0),
            values_of(r.QR.values@) == selector_column(self.constraints@, self.group_order as nat, 1),
            values_of(r.QM.values@) == selector_column(self.constraints@, self.group_order as nat, 2),
            values_of(r.QO.values@) == selector_column(self.constraints@, self.group_order as nat, 3),
            values_of(r.QC.values@) == selector_column(self.constraints@, self.group_order as nat, 4),
            subgroup_root_of_unity(self.group_order as nat) is Some,
            values_of(r.S1.values@) == s_column(
                wire_table(self.constraints@),
                self.group_order as nat,
                subgroup_root_of_unity(self.group_order as nat)->0,
                0,
            ),
            values_of(r.S2.values@) == s_column(
                wire_table(self.constraints@),
                self.group_order as nat,
                subgroup_root_of_unity(self.group_order as nat)->0,
                1,
            ),
            values_of(r.S3.values@) == s_column(
                wire_table(self.constraints@),
                self.group_order as nat,
                subgroup_root_of_unity(self.group_order as nat)->0,
                2,
            ),
            row_domain(r.QL.domain, self.group_order as nat),
    {
        let (l, rr, m, o, c) = self.make_gate_polynomials();
        let (s1, s2, s3) = self.make_s_polynomials();
        PlonkishIntermediateRepresentation {
            QM: m,
            QL: l,
            QR: rr,
            QO: o,
            QC: c,
            S1: s1,
            S2: s2,
            S3: s3,
            group_order: self.group_order,
        }
    }
}

} // verus!
