//! Small constructors for test inputs and examples.
use crate::geom::{all_q_wf, RawConstraint};
use crate::num::{Q, Z};
use crate::sweep::{equiv, padd, pmul, qv, qvs};
use vstd::prelude::*;

verus! {

/// `q` is the integer `x`.
pub open spec fn q_is_int(q: Q, x: int) -> bool {
    q.num@ == x && q.den@ == 1
}

/// `a` and `b` are the same normalised rational.
pub open spec fn q_same(a: Q, b: Q) -> bool {
    a.num@ == b.num@ && a.den@ == b.den@
}

/// `c` is `s·x_i ≤ b` in `d` coordinates (`s = ±1`), with `b` given by
/// `rhs_num/rhs_den`.
pub open spec fn axis_con(c: RawConstraint, d: nat, i: int, s: int, rhs: Q) -> bool {
    &&& c.wf()
    &&& c.a@.len() == d
    &&& forall|j: int| 0 <= j < d ==> q_is_int(#[trigger] c.a@[j], if j == i { s } else { 0 })
    &&& q_same(c.b, rhs)
}

/// Axis `i` of a box: the upper bound `x_i ≤ hi_i` at `2i`, the lower
/// bound `−x_i ≤ −lo_i` at `2i + 1`.
pub open spec fn box_axis(r: Seq<RawConstraint>, lo: Seq<Q>, hi: Seq<Q>, i: int) -> bool {
    let d = lo.len();
    &&& axis_con(r[2 * i], d, i, 1, hi[i])
    &&& r[2 * i + 1].wf()
    &&& r[2 * i + 1].a@.len() == d
    &&& forall|j: int| 0 <= j < d ==> q_is_int(#[trigger] r[2 * i + 1].a@[j], if j == i { -1int } else { 0 })
    &&& r[2 * i + 1].b.num@ == -lo[i].num@
    &&& r[2 * i + 1].b.den@ == lo[i].den@
}

/// The constraints of the box `Π [lo_i, hi_i]`, axis by axis.
pub open spec fn is_box(r: Seq<RawConstraint>, lo: Seq<Q>, hi: Seq<Q>) -> bool {
    &&& r.len() == 2 * lo.len()
    &&& forall|i: int| 0 <= i < lo.len() ==> #[trigger] box_axis(r, lo, hi, i)
}

/// The integer `x` as a rational.
pub fn q(x: i64) -> (r: Q)
    ensures
        r.wf(),
        q_is_int(r, x as int),
{
    Q::from_z(Z::from_i64(x))
}

/// The unit vector `s·e_i` of length `d` (`s = ±1`).
fn unit(d: usize, i: usize, s: i64) -> (r: Vec<Q>)
    requires
        s == 1 || s == -1,
    ensures
        r@.len() == d,
        all_q_wf(r@),
        forall|j: int| 0 <= j < d ==> q_is_int(#[trigger] r@[j], if j == i { s as int } else { 0 }),
{
    let mut a: Vec<Q> = Vec::new();
    let mut j: usize = 0;
    while j < d
        invariant
            j <= d,
            s == 1 || s == -1,
            a@.len() == j,
            all_q_wf(a@),
            forall|t: int| 0 <= t < j ==> q_is_int(#[trigger] a@[t], if t == i { s as int } else { 0 }),
        decreases d - j,
    {
        if j == i {
            a.push(q(s));
        } else {
            a.push(Q::zero());
        }
        j = j + 1;
    }
    a
}

/// Axis-aligned box `Π [lo_i, hi_i]`.
pub fn boxp(lo: &[Q], hi: &[Q]) -> (r: Vec<RawConstraint>)
    requires
        lo@.len() <= hi@.len(),
        all_q_wf(lo@),
        all_q_wf(hi@),
    ensures
        is_box(r@, lo@, hi@),
{
    let d = lo.len();
    let mut c: Vec<RawConstraint> = Vec::new();
    let mut i: usize = 0;
    while i < d
        invariant
            i <= d,
            d == lo@.len(),
            lo@.len() <= hi@.len(),
            all_q_wf(lo@),
            all_q_wf(hi@),
            c@.len() == 2 * i,
            forall|t: int| 0 <= t < i ==> #[trigger] box_axis(c@, lo@, hi@, t),
        decreases d - i,
    {
        let ghost c0 = c@;
        let up = RawConstraint { a: unit(d, i, 1), b: hi[i].clone() };
        let down = RawConstraint { a: unit(d, i, -1), b: lo[i].neg() };
        let ghost (gu, gd) = (up, down);
        proof {
            assert(hi@[i as int].wf() && lo@[i as int].wf());
        }
        c.push(up);
        c.push(down);
        proof {
            assert(c@[2 * i as int] == gu);
            assert(c@[2 * i + 1] == gd);
            assert forall|t: int| 0 <= t < i + 1 implies #[trigger] box_axis(c@, lo@, hi@, t) by {
                if t < i {
                    assert(box_axis(c0, lo@, hi@, t));
                    assert(c@[2 * t] == c0[2 * t]);
                    assert(c@[2 * t + 1] == c0[2 * t + 1]);
                } else {
                    assert(c@[2 * t] == gu);
                    assert(c@[2 * t + 1] == gd);
                }
            }
        }
        i = i + 1;
    }
    c
}

/// `d` copies of one rational.
fn fill(d: usize, x: &Q) -> (r: Vec<Q>)
    requires
        x.wf(),
    ensures
        r@.len() == d,
        all_q_wf(r@),
        forall|j: int| 0 <= j < d ==> q_same(#[trigger] r@[j], *x),
{
    let mut a: Vec<Q> = Vec::new();
    let mut j: usize = 0;
    while j < d
        invariant
            j <= d,
            x.wf(),
            a@.len() == j,
            all_q_wf(a@),
            forall|t: int| 0 <= t < j ==> q_same(#[trigger] a@[t], *x),
        decreases d - j,
    {
        a.push(x.clone());
        j = j + 1;
    }
    a
}

/// The unit cube `[0, 1]^d`.
pub fn unit_box(d: usize) -> (r: Vec<RawConstraint>)
    ensures
        exists|lo: Seq<Q>, hi: Seq<Q>|
            lo.len() == d && hi.len() == d && (forall|j: int| 0 <= j < d ==> q_is_int(#[trigger] lo[j], 0) && q_is_int(
                hi[j],
                1,
            )) && is_box(r@, lo, hi),
{
    let lo = fill(d, &Q::zero());
    let hi = fill(d, &Q::one());
    boxp(lo.as_slice(), hi.as_slice())
}

/// The integer box `Π [lo_i, hi_i]`.
pub fn int_box(lo: &[i64], hi: &[i64]) -> (r: Vec<RawConstraint>)
    requires
        lo@.len() <= hi@.len(),
    ensures
        exists|l: Seq<Q>, h: Seq<Q>|
            l.len() == lo@.len() && h.len() == hi@.len() && (forall|j: int|
                0 <= j < lo@.len() ==> q_is_int(#[trigger] l[j], lo@[j] as int)) && (forall|j: int|
                0 <= j < hi@.len() ==> q_is_int(#[trigger] h[j], hi@[j] as int)) && is_box(r@, l, h),
{
    let l = ints(lo);
    let h = ints(hi);
    boxp(l.as_slice(), h.as_slice())
}

/// Integers as rationals.
fn ints(v: &[i64]) -> (r: Vec<Q>)
    ensures
        r@.len() == v@.len(),
        all_q_wf(r@),
        forall|j: int| 0 <= j < v@.len() ==> q_is_int(#[trigger] r@[j], v@[j] as int),
{
    let mut out: Vec<Q> = Vec::new();
    let mut j: usize = 0;
    while j < v.len()
        invariant
            j <= v@.len(),
            out@.len() == j,
            all_q_wf(out@),
            forall|t: int| 0 <= t < j ==> q_is_int(#[trigger] out@[t], v@[t] as int),
        decreases v@.len() - j,
    {
        out.push(q(v[j]));
        j = j + 1;
    }
    out
}

/// Standard simplex `x ≥ 0, Σ x ≤ s`: the constraints `−x_i ≤ 0` in axis
/// order, then `(1, …, 1)·x ≤ s`.
pub fn simplex(d: usize, s: Q) -> (r: Vec<RawConstraint>)
    requires
        s.wf(),
    ensures
        r@.len() == d + 1,
        forall|i: int| 0 <= i < d ==> axis_con(#[trigger] r@[i], d as nat, i, -1, r@[i].b) && q_is_int(r@[i].b, 0),
        r@[d as int].wf(),
        r@[d as int].a@.len() == d,
        forall|j: int| 0 <= j < d ==> q_is_int(#[trigger] r@[d as int].a@[j], 1),
        q_same(r@[d as int].b, s),
{
    let mut c: Vec<RawConstraint> = Vec::new();
    let mut i: usize = 0;
    while i < d
        invariant
            i <= d,
            c@.len() == i,
            forall|t: int| 0 <= t < i ==> axis_con(#[trigger] c@[t], d as nat, t, -1, c@[t].b) && q_is_int(c@[t].b, 0),
        decreases d - i,
    {
        c.push(RawConstraint { a: unit(d, i, -1), b: Q::zero() });
        i = i + 1;
    }
    let ones = fill(d, &Q::one());
    c.push(RawConstraint { a: ones, b: s });
    c
}

/// The constraint `a·x ≤ b` from integers.
pub fn con(a: &[i64], b: i64) -> (r: RawConstraint)
    ensures
        r.wf(),
        r.a@.len() == a@.len(),
        forall|j: int| 0 <= j < a@.len() ==> q_is_int(#[trigger] r.a@[j], a@[j] as int),
        q_is_int(r.b, b as int),
{
    RawConstraint { a: ints(a), b: q(b) }
}

/// `Σ_{i<n} a_i · m_{i,j}` over the rows of `m` that reach column `j`.
pub open spec fn col_sum(a: Seq<(int, int)>, m: Seq<Seq<(int, int)>>, j: int, n: int) -> (int, int)
    decreases n,
{
    if n <= 0 {
        (0, 1)
    } else if j < m[n - 1].len() {
        padd(col_sum(a, m, j, n - 1), pmul(a[n - 1], m[n - 1][j]))
    } else {
        col_sum(a, m, j, n - 1)
    }
}

/// `b + Σ_{j<n} a_j t_j`.
pub open spec fn shifted(b: (int, int), a: Seq<(int, int)>, t: Seq<(int, int)>, n: int) -> (int, int)
    decreases n,
{
    if n <= 0 {
        b
    } else {
        padd(shifted(b, a, t, n - 1), pmul(a[n - 1], t[n - 1]))
    }
}

/// Values of the rows of a rational matrix.
pub open spec fn rows_of(m: Seq<Vec<Q>>) -> Seq<Seq<(int, int)>> {
    m.map_values(|r: Vec<Q>| qvs(r@))
}

/// `c2` is `c` moved by `y = M x + t`, given `M⁻¹` and `t`.
pub open spec fn moved(c: RawConstraint, c2: RawConstraint, minv: Seq<Vec<Q>>, t: Seq<Q>) -> bool {
    &&& c2.wf()
    &&& c2.a@.len() == t.len()
    &&& forall|j: int|
        0 <= j < t.len() ==> equiv(qv(#[trigger] c2.a@[j]), col_sum(qvs(c.a@), rows_of(minv), j, minv.len() as int))
    &&& equiv(qv(c2.b), shifted(qv(c.b), qvs(c2.a@), qvs(t), t.len() as int))
}

/// Positive denominators of column sums.
proof fn lemma_col_sum_den(a: Seq<(int, int)>, m: Seq<Seq<(int, int)>>, j: int, n: int)
    requires
        0 <= j,
        n <= a.len(),
        n <= m.len(),
        forall|i: int| 0 <= i < a.len() ==> (#[trigger] a[i]).1 > 0,
        forall|i: int, k: int| 0 <= i < m.len() && 0 <= k < m[i].len() ==> (#[trigger] m[i][k]).1 > 0,
    ensures
        col_sum(a, m, j, n).1 > 0,
    decreases n,
{
    if n > 0 {
        lemma_col_sum_den(a, m, j, n - 1);
        if j < m[n - 1].len() {
            let (x, y, z) = (col_sum(a, m, j, n - 1).1, a[n - 1].1, m[n - 1][j].1);
            assert(x * (y * z) > 0) by (nonlinear_arith)
                requires
                    x > 0,
                    y > 0,
                    z > 0,
            ;
        }
    }
}

/// Apply an integer-like linear map `x ↦ M x + t` to a polytope given the
/// inverse `M⁻¹` (row-major, rational): `a·x ≤ b` becomes
/// `(a M⁻¹)·y ≤ b + (a M⁻¹)·t`.
pub fn transform(cons: &[RawConstraint], minv: &[Vec<Q>], t: &[Q]) -> (r: Vec<RawConstraint>)
    requires
        forall|k: int| 0 <= k < cons@.len() ==> (#[trigger] cons@[k]).wf() && minv@.len() <= cons@[k].a@.len(),
        forall|i: int| 0 <= i < minv@.len() ==> all_q_wf((#[trigger] minv@[i])@) && minv@[i]@.len() <= t@.len(),
        all_q_wf(t@),
    ensures
        r@.len() == cons@.len(),
        forall|k: int| 0 <= k < cons@.len() ==> moved(#[trigger] cons@[k], r@[k], minv@, t@),
{
    let d = t.len();
    let ghost mv = rows_of(minv@);
    proof {
        assert forall|i: int, k: int| 0 <= i < mv.len() && 0 <= k < mv[i].len() implies (#[trigger] mv[i][k]).1 > 0 by {
            assert(minv@[i]@[k].wf());
        }
    }
    let mut out: Vec<RawConstraint> = Vec::new();
    let mut ci: usize = 0;
    while ci < cons.len()
        invariant
            ci <= cons@.len(),
            d == t@.len(),
            mv == rows_of(minv@),
            forall|i: int, k: int| 0 <= i < mv.len() && 0 <= k < mv[i].len() ==> (#[trigger] mv[i][k]).1 > 0,
            forall|k: int| 0 <= k < cons@.len() ==> (#[trigger] cons@[k]).wf() && minv@.len() <= cons@[k].a@.len(),
            forall|i: int| 0 <= i < minv@.len() ==> all_q_wf((#[trigger] minv@[i])@) && minv@[i]@.len() <= t@.len(),
            all_q_wf(t@),
            out@.len() == ci,
            forall|k: int| 0 <= k < ci ==> moved(#[trigger] cons@[k], out@[k], minv@, t@),
        decreases cons@.len() - ci,
    {
        let c = &cons[ci];
        let ghost av = qvs(c.a@);
        proof {
            assert(c.wf());
            assert forall|i: int| 0 <= i < av.len() implies (#[trigger] av[i]).1 > 0 by {
                assert(c.a@[i].wf());
            }
        }
        let mut a2 = fill(d, &Q::zero());
        let mut i: usize = 0;
        while i < minv.len()
            invariant
                i <= minv@.len(),
                d == t@.len(),
                c.wf(),
                av == qvs(c.a@),
                forall|k: int| 0 <= k < av.len() ==> (#[trigger] av[k]).1 > 0,
                mv == rows_of(minv@),
                forall|r: int, k: int| 0 <= r < mv.len() && 0 <= k < mv[r].len() ==> (#[trigger] mv[r][k]).1 > 0,
                minv@.len() <= c.a@.len(),
                forall|r: int| 0 <= r < minv@.len() ==> all_q_wf((#[trigger] minv@[r])@) && minv@[r]@.len() <= t@.len(),
                a2@.len() == d,
                all_q_wf(a2@),
                forall|j: int| 0 <= j < d ==> equiv(qv(#[trigger] a2@[j]), col_sum(av, mv, j, i as int)),
            decreases minv@.len() - i,
        {
            let row = &minv[i];
            proof {
                assert(mv[i as int] == qvs(row@));
            }
            let mut j: usize = 0;
            while j < row.len()
                invariant
                    i < minv@.len(),
                    j <= row@.len(),
                    row == minv@[i as int],
                    row@.len() <= d,
                    all_q_wf(row@),
                    d == t@.len(),
                    c.wf(),
                    av == qvs(c.a@),
                    forall|k: int| 0 <= k < av.len() ==> (#[trigger] av[k]).1 > 0,
                    mv == rows_of(minv@),
                    mv[i as int] == qvs(row@),
                    forall|r: int, k: int| 0 <= r < mv.len() && 0 <= k < mv[r].len() ==> (#[trigger] mv[r][k]).1 > 0,
                    minv@.len() <= c.a@.len(),
                    a2@.len() == d,
                    all_q_wf(a2@),
                    forall|k: int| 0 <= k < j ==> equiv(qv(#[trigger] a2@[k]), col_sum(av, mv, k, i + 1)),
                    forall|k: int| j <= k < d ==> equiv(qv(#[trigger] a2@[k]), col_sum(av, mv, k, i as int)),
                decreases row@.len() - j,
            {
                proof {
                    assert(c.a@[i as int].wf());
                    assert(row@[j as int].wf());
                }
                let prod = c.a[i].mul(&row[j]);
                let nv = a2[j].add(&prod);
                proof {
                    let old_k = col_sum(av, mv, j as int, i as int);
                    lemma_col_sum_den(av, mv, j as int, i as int);
                    assert(av[i as int] == qv(c.a@[i as int]));
                    assert(mv[i as int][j as int] == qv(row@[j as int]));
                    assert(equiv(qv(prod), pmul(av[i as int], mv[i as int][j as int])));
                    assert(a2@[j as int].wf());
                    let (p1, p2) = (av[i as int].1, mv[i as int][j as int].1);
                    assert(p1 > 0 && p2 > 0);
                    assert(p1 * p2 > 0) by (nonlinear_arith)
                        requires
                            p1 > 0,
                            p2 > 0,
                    ;
                    crate::sweep::lemma_cong(qv(a2@[j as int]), old_k, qv(prod), pmul(av[i as int], mv[i as int][j as int]));
                    assert(equiv(qv(nv), padd(qv(a2@[j as int]), qv(prod))));
                    assert(qv(a2@[j as int]).1 * qv(prod).1 > 0) by (nonlinear_arith)
                        requires
                            qv(a2@[j as int]).1 > 0,
                            qv(prod).1 > 0,
                    ;
                    crate::sweep::lemma_equiv_trans(qv(nv), padd(qv(a2@[j as int]), qv(prod)), col_sum(av, mv, j as int, i + 1));
                }
                a2.set(j, nv);
                j = j + 1;
            }
            proof {
                assert forall|k: int| 0 <= k < d implies equiv(qv(#[trigger] a2@[k]), col_sum(av, mv, k, i + 1)) by {
                    if k >= row@.len() {
                        assert(col_sum(av, mv, k, i + 1) == col_sum(av, mv, k, i as int));
                    }
                }
            }
            i = i + 1;
        }
        let mut b2 = c.b.clone();
        let mut j: usize = 0;
        while j < d
            invariant
                j <= d,
                d == t@.len(),
                all_q_wf(t@),
                a2@.len() == d,
                all_q_wf(a2@),
                c.wf(),
                b2.wf(),
                equiv(qv(b2), shifted(qv(c.b), qvs(a2@), qvs(t@), j as int)),
                shifted(qv(c.b), qvs(a2@), qvs(t@), j as int).1 > 0,
            decreases d - j,
        {
            let prod = a2[j].mul(&t[j]);
            let nb = b2.add(&prod);
            proof {
                let s0 = shifted(qv(c.b), qvs(a2@), qvs(t@), j as int);
                assert(qvs(a2@)[j as int] == qv(a2@[j as int]));
                assert(qvs(t@)[j as int] == qv(t@[j as int]));
                assert(a2@[j as int].wf() && t@[j as int].wf());
                let (p1, p2) = (qv(a2@[j as int]).1, qv(t@[j as int]).1);
                assert(p1 * p2 > 0) by (nonlinear_arith)
                    requires
                        p1 > 0,
                        p2 > 0,
                ;
                crate::sweep::lemma_cong(qv(b2), s0, qv(prod), pmul(qv(a2@[j as int]), qv(t@[j as int])));
                assert(qv(b2).1 * qv(prod).1 > 0) by (nonlinear_arith)
                    requires
                        qv(b2).1 > 0,
                        qv(prod).1 > 0,
                ;
                crate::sweep::lemma_equiv_trans(qv(nb), padd(qv(b2), qv(prod)), shifted(qv(c.b), qvs(a2@), qvs(t@), j + 1));
                let (u, v, w) = (s0.1, qv(a2@[j as int]).1, qv(t@[j as int]).1);
                assert(u * (v * w) > 0) by (nonlinear_arith)
                    requires
                        u > 0,
                        v > 0,
                        w > 0,
                ;
            }
            b2 = nb;
            j = j + 1;
        }
        let ghost o0 = out@;
        out.push(RawConstraint { a: a2, b: b2 });
        proof {
            assert forall|k: int| 0 <= k < ci + 1 implies moved(#[trigger] cons@[k], out@[k], minv@, t@) by {
                if k < ci {
                    assert(out@[k] == o0[k]);
                }
            }
        }
        ci = ci + 1;
    }
    out
}

} // verus!
