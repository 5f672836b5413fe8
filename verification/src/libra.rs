//! Helpers of the Libra protocol: the identity table `I(g, z)`, the
//! book-keeping tables of its two sum-check phases, and the merging of partial
//! sum-check proofs.
use crate::field::{fmul, Fr};
use crate::pow2::two_pow;
use crate::sumcheck::seq_sum;
use crate::zero_check::{eq_table, eq_weight};
use vstd::prelude::*;
use vstd::std_specs::ops::AddSpec;

verus! {

/// The table `z -> I(g, z) = prod_i (z_i ? g_i : 1 - g_i)` for the point `points`;
/// it is the table of `eq(., g)`.
pub fn generate_igz(points: &[Fr]) -> (r: Vec<Fr>)
    requires
        two_pow(points.len() as nat) <= usize::MAX,
    ensures
        r.deep_view() == eq_table(points@.map_values(|x: Fr| x@)),
{
    let ghost pts = points@.map_values(|x: Fr| x@);
    let mut res: Vec<Fr> = Vec::new();
    res.push(Fr::one());
    proof {
        assert(two_pow(0) == 1);
        assert(res.deep_view() =~= eq_table(pts.subrange(0, 0)));
    }
    let one = Fr::one();
    let mut k: usize = 0;
    while k < points.len()
        invariant
            k <= points.len(),
            two_pow(points.len() as nat) <= usize::MAX,
            pts == points@.map_values(|x: Fr| x@),
            one@ == 1,
            res.deep_view() == eq_table(pts.subrange(0, k as int)),
            res.len() == two_pow(k as nat),
        decreases points.len() - k,
    {
        let point = points[k];
        let not_point = one.sub(&point);
        let mut v: Vec<Fr> = Vec::new();
        let mut j: usize = 0;
        let ghost prev = pts.subrange(0, k as int);
        let ghost next = pts.subrange(0, k + 1);
        proof {
            assert(next.drop_last() =~= prev);
            assert(next.last() == point@);
            crate::pow2::lemma_two_pow_monotone((k + 1) as nat, points.len() as nat);
        }
        while j < res.len()
            invariant
                j <= res.len(),
                res.len() == two_pow(k as nat),
                two_pow((k + 1) as nat) <= usize::MAX,
                res.deep_view() == eq_table(prev),
                prev.len() == k,
                next.len() == k + 1,
                next.drop_last() == prev,
                next.last() == point@,
                not_point@ == crate::field::fsub(1, point@),
                v.len() == 2 * j,
                forall|t: int| 0 <= t < 2 * j ==> #[trigger] v.deep_view()[t] == eq_weight(next, t),
            decreases res.len() - j,
        {
            let a = res[j].mul(&not_point);
            let b = res[j].mul(&point);
            let ghost before = v.deep_view();
            v.push(a);
            v.push(b);
            proof {
                assert(v.deep_view() =~= before.push(a@).push(b@));
                assert((2 * j) / 2 == j && (2 * j) % 2 == 0);
                assert((2 * j + 1) / 2 == j && (2 * j + 1) % 2 == 1);
                assert(res.deep_view()[j as int] == eq_weight(prev, j as int));
                assert(eq_weight(next, 2 * j) == fmul(eq_weight(prev, j as int), crate::field::fsub(1, point@)));
                assert(eq_weight(next, 2 * j + 1) == fmul(eq_weight(prev, j as int), point@));
            }
            j = j + 1;
        }
        proof {
            assert(v.deep_view() =~= eq_table(next));
        }
        res = v;
        k = k + 1;
    }
    proof {
        assert(pts.subrange(0, points.len() as int) =~= pts);
    }
    res
}

/// The term of gate `i` in entry `x` of the first-phase table: `I(g, z) f_3(y)`
/// where gate `i` is `(z, x, y)`.
pub open spec fn phase_1_term(
    f_1: Seq<(usize, usize, usize)>,
    f_3: Seq<int>,
    i_gz: Seq<int>,
    x: int,
    i: int,
) -> int {
    if f_1[i].1 as int == x {
        fmul(i_gz[f_1[i].0 as int], f_3[f_1[i].2 as int])
    } else {
        0
    }
}

/// The first-phase table `A_{h_g}(x) = sum over gates (z, x, y) of I(g, z) f_3(y)`.
pub open spec fn phase_1_table(
    f_1: Seq<(usize, usize, usize)>,
    f_3: Seq<int>,
    i_gz: Seq<int>,
) -> Seq<int> {
    Seq::new(
        f_3.len(),
        |x: int| seq_sum(Seq::new(f_1.len(), |i: int| phase_1_term(f_1, f_3, i_gz, x, i))),
    )
}

/// The term of gate `i` in entry `y` of the second-phase table: `I(g, z) I(u, x)`
/// where gate `i` is `(z, x, y)`.
pub open spec fn phase_2_term(
    f_1: Seq<(usize, usize, usize)>,
    i_gz: Seq<int>,
    i_uz: Seq<int>,
    y: int,
    i: int,
) -> int {
    if f_1[i].2 as int == y {
        fmul(i_gz[f_1[i].0 as int], i_uz[f_1[i].1 as int])
    } else {
        0
    }
}

/// The second-phase table `A_{f_1}(y) = sum over gates (z, x, y) of I(g, z) I(u, x)`.
pub open spec fn phase_2_table(
    f_1: Seq<(usize, usize, usize)>,
    i_gz: Seq<int>,
    i_uz: Seq<int>,
) -> Seq<int> {
    Seq::new(
        i_uz.len(),
        |y: int| seq_sum(Seq::new(f_1.len(), |i: int| phase_2_term(f_1, i_gz, i_uz, y, i))),
    )
}

/// The first-phase book-keeping table of Libra (its Algorithm 4).
pub fn initialize_phase_1(f_1: &[(usize, usize, usize)], f_3: &[Fr], i_gz: &[Fr]) -> (r: Vec<Fr>)
    requires
        forall|i: int|
            0 <= i < f_1.len() ==> (#[trigger] f_1[i]).0 < i_gz.len() && f_1[i].1 < f_3.len()
                && f_1[i].2 < f_3.len(),
    ensures
        r.deep_view() == phase_1_table(
            f_1@,
            f_3@.map_values(|v: Fr| v@),
            i_gz@.map_values(|v: Fr| v@),
        ),
{
    let ghost f3 = f_3@.map_values(|v: Fr| v@);
    let ghost gz = i_gz@.map_values(|v: Fr| v@);
    let mut res: Vec<Fr> = Vec::new();
    let mut k: usize = 0;
    while k < f_3.len()
        invariant
            k <= f_3.len(),
            res.len() == k,
            forall|x: int| 0 <= x < k ==> (#[trigger] res[x])@ == 0,
        decreases f_3.len() - k,
    {
        res.push(Fr::zero());
        k = k + 1;
    }
    let mut i: usize = 0;
    while i < f_1.len()
        invariant
            forall|g: int|
                0 <= g < f_1.len() ==> (#[trigger] f_1[g]).0 < i_gz.len() && f_1[g].1 < f_3.len()
                    && f_1[g].2 < f_3.len(),
            f3 == f_3@.map_values(|v: Fr| v@),
            gz == i_gz@.map_values(|v: Fr| v@),
            i <= f_1.len(),
            res.len() == f_3.len(),
            forall|x: int|
                0 <= x < f_3.len() ==> (#[trigger] res[x])@ == seq_sum(
                    Seq::new(i as nat, |j: int| phase_1_term(f_1@, f3, gz, x, j)),
                ),
        decreases f_1.len() - i,
    {
        let (z, x, y) = f_1[i];
        let t = i_gz[z].mul(&f_3[y]);
        let v = res[x].add(&t);
        let ghost before = res@;
        res.set(x, v);
        proof {
            assert forall|w: int| 0 <= w < f_3.len() implies (#[trigger] res[w])@ == seq_sum(
                Seq::new((i + 1) as nat, |j: int| phase_1_term(f_1@, f3, gz, w, j)),
            ) by {
                let terms = Seq::new((i + 1) as nat, |j: int| phase_1_term(f_1@, f3, gz, w, j));
                assert(terms.drop_last() =~= Seq::new(
                    i as nat,
                    |j: int| phase_1_term(f_1@, f3, gz, w, j),
                ));
                crate::sumcheck::lemma_seq_sum_range(terms.drop_last());
                if w != x as int {
                    assert(res[w] == before[w]);
                    crate::algebra::lemma_fadd_zero(seq_sum(terms.drop_last()));
                }
            }
        }
        i = i + 1;
    }
    proof {
        assert(res.deep_view() =~= phase_1_table(f_1@, f3, gz));
    }
    res
}

/// The second-phase book-keeping table of Libra (its Algorithm 5).
pub fn initialize_phase_2(f_1: &[(usize, usize, usize)], i_gz: &[Fr], i_uz: &[Fr]) -> (r: Vec<Fr>)
    requires
        forall|i: int|
            0 <= i < f_1.len() ==> (#[trigger] f_1[i]).0 < i_gz.len() && f_1[i].1 < i_uz.len()
                && f_1[i].2 < i_uz.len(),
    ensures
        r.deep_view() == phase_2_table(
            f_1@,
            i_gz@.map_values(|v: Fr| v@),
            i_uz@.map_values(|v: Fr| v@),
        ),
{
    let ghost gz = i_gz@.map_values(|v: Fr| v@);
    let ghost uz = i_uz@.map_values(|v: Fr| v@);
    let mut res: Vec<Fr> = Vec::new();
    let mut k: usize = 0;
    while k < i_uz.len()
        invariant
            k <= i_uz.len(),
            res.len() == k,
            forall|x: int| 0 <= x < k ==> (#[trigger] res[x])@ == 0,
        decreases i_uz.len() - k,
    {
        res.push(Fr::zero());
        k = k + 1;
    }
    let mut i: usize = 0;
    while i < f_1.len()
        invariant
            forall|g: int|
                0 <= g < f_1.len() ==> (#[trigger] f_1[g]).0 < i_gz.len() && f_1[g].1 < i_uz.len()
                    && f_1[g].2 < i_uz.len(),
            gz == i_gz@.map_values(|v: Fr| v@),
            uz == i_uz@.map_values(|v: Fr| v@),
            i <= f_1.len(),
            res.len() == i_uz.len(),
            forall|y: int|
                0 <= y < i_uz.len() ==> (#[trigger] res[y])@ == seq_sum(
                    Seq::new(i as nat, |j: int| phase_2_term(f_1@, gz, uz, y, j)),
                ),
        decreases f_1.len() - i,
    {
        let (z, x, y) = f_1[i];
        let t = i_gz[z].mul(&i_uz[x]);
        let v = res[y].add(&t);
        let ghost before = res@;
        res.set(y, v);
        proof {
            assert forall|w: int| 0 <= w < i_uz.len() implies (#[trigger] res[w])@ == seq_sum(
                Seq::new((i + 1) as nat, |j: int| phase_2_term(f_1@, gz, uz, w, j)),
            ) by {
                let terms = Seq::new((i + 1) as nat, |j: int| phase_2_term(f_1@, gz, uz, w, j));
                assert(terms.drop_last() =~= Seq::new(
                    i as nat,
                    |j: int| phase_2_term(f_1@, gz, uz, w, j),
                ));
                crate::sumcheck::lemma_seq_sum_range(terms.drop_last());
                if w != y as int {
                    assert(res[w] == before[w]);
                    crate::algebra::lemma_fadd_zero(seq_sum(terms.drop_last()));
                }
            }
        }
        i = i + 1;
    }
    proof {
        assert(res.deep_view() =~= phase_2_table(f_1@, gz, uz));
    }
    res
}

/// The entry-wise sum of two vectors, as long as the shorter one.
pub open spec fn zip_add<T: core::ops::Add<Output = T>>(a: Seq<T>, b: Seq<T>) -> Seq<T> {
    Seq::new(
        if a.len() <= b.len() {
            a.len()
        } else {
            b.len()
        },
        |i: int| a[i].add_spec(b[i]),
    )
}

/// The entry-wise sum of all the vectors, folded from the first.
pub open spec fn merged<T: core::ops::Add<Output = T>>(vecs: Seq<Seq<T>>) -> Seq<T>
    decreases vecs.len(),
{
    if vecs.len() <= 1 {
        if vecs.len() == 0 {
            Seq::empty()
        } else {
            vecs[0]
        }
    } else {
        zip_add(merged(vecs.drop_last()), vecs.last())
    }
}

/// The vectors as sequences.
pub open spec fn vec_views<T>(vecs: Seq<Vec<T>>) -> Seq<Seq<T>> {
    Seq::new(vecs.len(), |k: int| vecs[k]@)
}

/// Every addition that the merge performs is allowed.
pub open spec fn merge_allowed<T: core::ops::Add<Output = T>>(vecs: Seq<Seq<T>>) -> bool {
    forall|k: int, i: int|
        1 <= k < vecs.len() && 0 <= i < merged(vecs.take(k)).len() && i < vecs[k].len()
            ==> #[trigger] merged(vecs.take(k))[i].add_req(#[trigger] vecs[k][i])
}

/// Adds the vectors entry by entry (the result is as long as the shortest);
/// `None` when there is none.
pub fn merge_sumcheck_proofs<T: Copy + core::ops::Add<Output = T>>(vecs: Vec<Vec<T>>) -> (r: Option<Vec<T>>)
    requires
        T::obeys_add_spec(),
        merge_allowed(vec_views(vecs@)),
    ensures
        r is None <==> vecs.len() == 0,
        r matches Some(v) ==> v@ == merged(vec_views(vecs@)),
{
    let ghost vs = vec_views(vecs@);
    if vecs.len() == 0 {
        return None;
    }
    let mut acc: Vec<T> = Vec::new();
    let mut i: usize = 0;
    while i < vecs[0].len()
        invariant
            vecs.len() > 0,
            i <= vecs[0].len(),
            acc@ == vecs[0]@.take(i as int),
        decreases vecs[0].len() - i,
    {
        acc.push(vecs[0][i]);
        proof {
            assert(acc@ =~= vecs[0]@.take(i + 1));
        }
        i = i + 1;
    }
    proof {
        assert(vecs[0]@.take(vecs[0].len() as int) =~= vecs[0]@);
        assert(vs.take(1) =~= seq![vs[0]]);
    }
    let mut k: usize = 1;
    while k < vecs.len()
        invariant
            vs == vec_views(vecs@),
            merge_allowed(vs),
            T::obeys_add_spec(),
            1 <= k <= vecs.len(),
            acc@ == merged(vs.take(k as int)),
        decreases vecs.len() - k,
    {
        let cur = &vecs[k];
        let m = if acc.len() <= cur.len() {
            acc.len()
        } else {
            cur.len()
        };
        let ghost prev = merged(vs.take(k as int));
        let ghost target = merged(vs.take(k + 1));
        proof {
            assert(vs.take(k + 1).drop_last() =~= vs.take(k as int));
            assert(vs.take(k + 1).last() == cur@);
            assert(target == zip_add(prev, cur@));
        }
        let mut next: Vec<T> = Vec::new();
        let mut i: usize = 0;
        while i < m
            invariant
                vs == vec_views(vecs@),
                merge_allowed(vs),
                1 <= k < vecs.len(),
                cur == &vecs[k as int],
                T::obeys_add_spec(),
                prev == merged(vs.take(k as int)),
                acc@ == prev,
                m <= acc.len(),
                m <= cur.len(),
                i <= m,
                next@.len() == i,
                forall|j: int| 0 <= j < i ==> #[trigger] next@[j] == prev[j].add_spec(cur@[j]),
            decreases m - i,
        {
            proof {
                assert(vs[k as int] == cur@);
                assert(prev[i as int].add_req(vs[k as int][i as int]));
            }
            let s = acc[i] + cur[i];
            next.push(s);
            i = i + 1;
        }
        proof {
            assert(next@ =~= zip_add(prev, cur@));
        }
        acc = next;
        k = k + 1;
    }
    proof {
        assert(vs.take(vecs.len() as int) =~= vs);
    }
    Some(acc)
}

} // verus!
