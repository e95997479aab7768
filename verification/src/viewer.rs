//! Exact planar geometry for display: the vertices of each 2D polytope,
//! in hull order.  It does not run the volume algorithm again.
use crate::geom::{all_q_wf, RawConstraint};
use crate::num::Q;
use crate::num::lemma_q_unique;
use crate::sweep::{padd, plt, pmul, psub, qv, equiv};
use vstd::prelude::*;

verus! {

/// `a_0 x + a_1 y ≤ b` holds at the point `p` (as value pairs).
pub open spec fn satisfies(c: RawConstraint, p: Seq<Q>) -> bool {
    let lhs = padd(pmul(qv(c.a@[0]), qv(p[0])), pmul(qv(c.a@[1]), qv(p[1])));
    !plt(qv(c.b), lhs)
}

/// `p` is a point of the plane inside every constraint.
pub open spec fn feasible(cons: Seq<RawConstraint>, p: Seq<Q>) -> bool {
    &&& p.len() == 2
    &&& all_q_wf(p)
    &&& forall|k: int| 0 <= k < cons.len() ==> #[trigger] satisfies(cons[k], p)
}

/// Planar constraints: well formed with at least two coefficients.
pub open spec fn planar(cons: Seq<RawConstraint>) -> bool {
    forall|k: int| 0 <= k < cons.len() ==> (#[trigger] cons[k]).wf() && cons[k].a@.len() >= 2
}

/// Two rational points with the same values.
pub open spec fn same_values(p: Seq<Q>, q: Seq<Q>) -> bool {
    p.len() == q.len() && forall|i: int| 0 <= i < p.len() ==> (#[trigger] p[i]).num@ == q[i].num@ && p[i].den@ == q[i].den@
}

/// A value copy of a point.
fn clone_pt(p: &Vec<Q>) -> (r: Vec<Q>)
    ensures
        same_values(r@, p@),
        all_q_wf(p@) ==> all_q_wf(r@),
{
    crate::geom::clone_qs(p.as_slice())
}

/// Feasibility depends on values only.
proof fn lemma_feasible_values(cons: Seq<RawConstraint>, p: Seq<Q>, q: Seq<Q>)
    requires
        feasible(cons, p),
        same_values(q, p),
        all_q_wf(q),
    ensures
        feasible(cons, q),
{
    assert forall|k: int| 0 <= k < cons.len() implies #[trigger] satisfies(cons[k], q) by {
        assert(satisfies(cons[k], p));
        assert(qv(q[0]) == qv(p[0]));
        assert(qv(q[1]) == qv(p[1]));
    }
}

/// Checks one constraint at a point.
fn check(c: &RawConstraint, p: &Vec<Q>) -> (r: bool)
    requires
        c.wf(),
        c.a@.len() >= 2,
        p@.len() == 2,
        all_q_wf(p@),
    ensures
        r == satisfies(*c, p@),
{
    proof {
        assert(c.a@[0].wf() && c.a@[1].wf() && p@[0].wf() && p@[1].wf());
    }
    let x = c.a[0].mul(&p[0]);
    let y = c.a[1].mul(&p[1]);
    let s = x.add(&y);
    let r = s.le(&c.b);
    proof {
        let lhs = padd(pmul(qv(c.a@[0]), qv(p@[0])), pmul(qv(c.a@[1]), qv(p@[1])));
        assert(equiv(qv(x), pmul(qv(c.a@[0]), qv(p@[0]))));
        assert(equiv(qv(y), pmul(qv(c.a@[1]), qv(p@[1]))));
        let (u1, u2) = (qv(c.a@[0]).1 * qv(p@[0]).1, qv(c.a@[1]).1 * qv(p@[1]).1);
        assert(u1 > 0 && u2 > 0) by (nonlinear_arith)
            requires
                qv(c.a@[0]).1 > 0,
                qv(p@[0]).1 > 0,
                qv(c.a@[1]).1 > 0,
                qv(p@[1]).1 > 0,
                u1 == qv(c.a@[0]).1 * qv(p@[0]).1,
                u2 == qv(c.a@[1]).1 * qv(p@[1]).1,
        ;
        crate::sweep::lemma_cong(qv(x), pmul(qv(c.a@[0]), qv(p@[0])), qv(y), pmul(qv(c.a@[1]), qv(p@[1])));
        assert(equiv(qv(s), padd(qv(x), qv(y))));
        assert(qv(x).1 * qv(y).1 > 0) by (nonlinear_arith)
            requires
                qv(x).1 > 0,
                qv(y).1 > 0,
        ;
        crate::sweep::lemma_equiv_trans(qv(s), padd(qv(x), qv(y)), lhs);
        assert(u1 * u2 > 0) by (nonlinear_arith)
            requires
                u1 > 0,
                u2 > 0,
        ;
        crate::sweep::lemma_cong(qv(c.b), qv(c.b), lhs, qv(s));
    }
    r
}

/// The point satisfies all constraints.
fn check_all(cons: &[RawConstraint], p: &Vec<Q>) -> (r: bool)
    requires
        planar(cons@),
        p@.len() == 2,
        all_q_wf(p@),
    ensures
        r == feasible(cons@, p@),
{
    let mut k: usize = 0;
    while k < cons.len()
        invariant
            planar(cons@),
            p@.len() == 2,
            all_q_wf(p@),
            k <= cons@.len(),
            forall|t: int| 0 <= t < k ==> #[trigger] satisfies(cons@[t], p@),
        decreases cons@.len() - k,
    {
        proof {
            assert(cons@[k as int].wf() && cons@[k as int].a@.len() >= 2);
        }
        if !check(&cons[k], p) {
            return false;
        }
        k = k + 1;
    }
    true
}

/// The points are the same pair of values.
fn pt_eq(p: &Vec<Q>, q: &Vec<Q>) -> (r: bool)
    requires
        p@.len() == 2,
        q@.len() == 2,
        all_q_wf(p@),
        all_q_wf(q@),
    ensures
        r == same_values(p@, q@),
{
    proof {
        assert(p@[0].wf() && p@[1].wf() && q@[0].wf() && q@[1].wf());
    }
    p[0].num.eq_z(&q[0].num) && p[0].den.eq_z(&q[0].den) && p[1].num.eq_z(&q[1].num) && p[1].den.eq_z(&q[1].den)
}

/// `p` comes before `q` lexicographically, coordinates read as rationals.
pub open spec fn pt_less(p: Seq<Q>, q: Seq<Q>) -> bool {
    ||| plt(qv(p[0]), qv(q[0]))
    ||| equiv(qv(p[0]), qv(q[0])) && plt(qv(p[1]), qv(q[1]))
}

/// The lexicographic order of points is transitive.
proof fn lemma_pt_less_trans(a: Seq<Q>, b: Seq<Q>, c: Seq<Q>)
    requires
        a.len() == 2 && b.len() == 2 && c.len() == 2,
        all_q_wf(a) && all_q_wf(b) && all_q_wf(c),
        pt_less(a, b),
        pt_less(b, c),
    ensures
        pt_less(a, c),
{
    assert(a[0].wf() && a[1].wf() && b[0].wf() && b[1].wf() && c[0].wf() && c[1].wf());
    let (a0, a1, b0, b1, c0, c1) = (qv(a[0]), qv(a[1]), qv(b[0]), qv(b[1]), qv(c[0]), qv(c[1]));
    if plt(a0, b0) {
        if plt(b0, c0) {
            crate::sweep::lemma_plt_trans(a0, b0, c0);
        } else {
            crate::sweep::lemma_cong(a0, a0, b0, c0);
        }
    } else {
        if plt(b0, c0) {
            crate::sweep::lemma_cong(a0, b0, c0, c0);
        } else {
            crate::sweep::lemma_equiv_trans(a0, b0, c0);
            crate::sweep::lemma_plt_trans(a1, b1, c1);
        }
    }
}

/// `p` comes before `q` lexicographically (as rationals).
fn pt_lt(p: &Vec<Q>, q: &Vec<Q>) -> (r: bool)
    requires
        p@.len() == 2,
        q@.len() == 2,
        all_q_wf(p@),
        all_q_wf(q@),
    ensures
        r == pt_less(p@, q@),
{
    proof {
        assert(p@[0].wf() && p@[1].wf() && q@[0].wf() && q@[1].wf());
    }
    let c = p[0].compare(&q[0]);
    if c != 0 {
        return c < 0;
    }
    p[1].lt(&q[1])
}

/// `(b − a) × (c − a)`.
fn cross(a: &Vec<Q>, b: &Vec<Q>, c: &Vec<Q>) -> (r: Q)
    requires
        a@.len() == 2,
        b@.len() == 2,
        c@.len() == 2,
        all_q_wf(a@),
        all_q_wf(b@),
        all_q_wf(c@),
    ensures
        r.wf(),
{
    proof {
        assert(a@[0].wf() && a@[1].wf() && b@[0].wf() && b@[1].wf() && c@[0].wf() && c@[1].wf());
    }
    b[0].sub(&a[0]).mul(&c[1].sub(&a[1])).sub(&b[1].sub(&a[1]).mul(&c[0].sub(&a[0])))
}

/// The quotient of two value pairs.
pub open spec fn pdiv(u: (int, int), v: (int, int)) -> (int, int) {
    (u.0 * v.1, u.1 * v.0)
}

/// The determinant of the normals of two planar constraints.
pub open spec fn det2(c: RawConstraint, e: RawConstraint) -> (int, int) {
    psub(pmul(qv(c.a@[0]), qv(e.a@[1])), pmul(qv(c.a@[1]), qv(e.a@[0])))
}

/// First coordinate of the crossing of the lines of `c` and `e` (Cramer's
/// rule).
pub open spec fn cramer_x(c: RawConstraint, e: RawConstraint) -> (int, int) {
    pdiv(psub(pmul(qv(c.b), qv(e.a@[1])), pmul(qv(c.a@[1]), qv(e.b))), det2(c, e))
}

/// Second coordinate of the crossing of the lines of `c` and `e`.
pub open spec fn cramer_y(c: RawConstraint, e: RawConstraint) -> (int, int) {
    pdiv(psub(pmul(qv(c.a@[0]), qv(e.b)), pmul(qv(c.b), qv(e.a@[0]))), det2(c, e))
}

/// The lines of `c` and `e` have independent normals and cross at `q`.
pub open spec fn crossing(c: RawConstraint, e: RawConstraint, q: Seq<Q>) -> bool {
    &&& det2(c, e).0 != 0
    &&& equiv(qv(q[0]), cramer_x(c, e))
    &&& equiv(qv(q[1]), cramer_y(c, e))
}

/// `q` is a feasible point where the lines of constraints `a` and `b`
/// cross.
pub open spec fn corner(cons: Seq<RawConstraint>, a: int, b: int, q: Seq<Q>) -> bool {
    &&& feasible(cons, q)
    &&& crossing(cons[a], cons[b], q)
}

/// Some entry of `ps` has the values of `q`.
pub open spec fn found(ps: Seq<Vec<Q>>, q: Seq<Q>) -> bool {
    exists|k: int| 0 <= k < ps.len() && same_values(#[trigger] ps[k]@, q)
}

/// The same rational value, through a middle term with a non-zero
/// denominator.
proof fn lemma_equiv_trans_nz(a: (int, int), b: (int, int), c: (int, int))
    requires
        b.1 != 0,
        equiv(a, b),
        equiv(b, c),
    ensures
        equiv(a, c),
{
    let (a0, a1, b0, b1, c0, c1) = (a.0, a.1, b.0, b.1, c.0, c.1);
    assert(a0 * c1 * b1 == c0 * a1 * b1) by (nonlinear_arith)
        requires
            a0 * b1 == b0 * a1,
            b0 * c1 == c0 * b1,
    ;
    assert(a0 * c1 == c0 * a1) by (nonlinear_arith)
        requires
            a0 * c1 * b1 == c0 * a1 * b1,
            b1 != 0,
    ;
}

/// Quotients of equal values are equal.
proof fn lemma_pdiv_cong(u: (int, int), u2: (int, int), v: (int, int), v2: (int, int))
    requires
        equiv(u, u2),
        equiv(v, v2),
    ensures
        equiv(pdiv(u, v), pdiv(u2, v2)),
{
    let (p0, p1, q0, q1, r0, r1, s0, s1) = (u.0, u.1, u2.0, u2.1, v.0, v.1, v2.0, v2.1);
    assert((p0 * r1) * (q1 * s0) == (q0 * s1) * (p1 * r0)) by (nonlinear_arith)
        requires
            p0 * q1 == q0 * p1,
            r0 * s1 == s0 * r1,
    ;
}

/// A difference of two computed products has the value of the difference
/// of the exact products.
proof fn lemma_sub_products(
    s: (int, int),
    m1: (int, int),
    m2: (int, int),
    a: (int, int),
    b: (int, int),
    c: (int, int),
    d: (int, int),
)
    requires
        a.1 > 0,
        b.1 > 0,
        c.1 > 0,
        d.1 > 0,
        m1.1 > 0,
        m2.1 > 0,
        equiv(m1, pmul(a, b)),
        equiv(m2, pmul(c, d)),
        equiv(s, psub(m1, m2)),
    ensures
        equiv(s, psub(pmul(a, b), pmul(c, d))),
        psub(pmul(a, b), pmul(c, d)).1 > 0,
{
    let (a1, b1, c1, d1, n1, n2) = (a.1, b.1, c.1, d.1, m1.1, m2.1);
    assert(a1 * b1 > 0 && c1 * d1 > 0 && n1 * n2 > 0 && (a1 * b1) * (c1 * d1) > 0) by (nonlinear_arith)
        requires
            a1 > 0,
            b1 > 0,
            c1 > 0,
            d1 > 0,
            n1 > 0,
            n2 > 0,
    ;
    crate::sweep::lemma_cong(m1, pmul(a, b), m2, pmul(c, d));
    crate::sweep::lemma_equiv_trans(s, psub(m1, m2), psub(pmul(a, b), pmul(c, d)));
}

/// Two points where the same two lines cross have the same values.
proof fn lemma_crossing_unique(c: RawConstraint, e: RawConstraint, p: Seq<Q>, q: Seq<Q>)
    requires
        crossing(c, e, p),
        crossing(c, e, q),
        p.len() == 2,
        q.len() == 2,
        all_q_wf(p),
        all_q_wf(q),
        psub(pmul(qv(c.b), qv(e.a@[1])), pmul(qv(c.a@[1]), qv(e.b))).1 != 0,
        psub(pmul(qv(c.a@[0]), qv(e.b)), pmul(qv(c.b), qv(e.a@[0]))).1 != 0,
    ensures
        same_values(p, q),
{
    assert(p[0].wf() && p[1].wf() && q[0].wf() && q[1].wf());
    let dx = psub(pmul(qv(c.b), qv(e.a@[1])), pmul(qv(c.a@[1]), qv(e.b))).1;
    let dy = psub(pmul(qv(c.a@[0]), qv(e.b)), pmul(qv(c.b), qv(e.a@[0]))).1;
    let dd = det2(c, e).0;
    assert(dx * dd != 0 && dy * dd != 0) by (nonlinear_arith)
        requires
            dx != 0,
            dy != 0,
            dd != 0,
    ;
    lemma_equiv_trans_nz(qv(p[0]), cramer_x(c, e), qv(q[0]));
    lemma_equiv_trans_nz(qv(p[1]), cramer_y(c, e), qv(q[1]));
    lemma_q_unique(p[0], q[0]);
    lemma_q_unique(p[1], q[1]);
}

/// Every entry is a feasible point.
pub open spec fn all_feasible(cons: Seq<RawConstraint>, ps: Seq<Vec<Q>>) -> bool {
    forall|i: int| 0 <= i < ps.len() ==> feasible(cons, (#[trigger] ps[i])@)
}

/// Intersect pairs of supporting lines, keep the feasible intersection
/// points, and order them along the convex hull (exact monotone chain, no
/// floating-point angles).  Every point returned is feasible, and a region
/// with two distinct corners gets at least two.
pub fn polygon(cons: &[RawConstraint]) -> (r: Vec<Vec<Q>>)
    requires
        planar(cons@),
    ensures
        all_feasible(cons@, r@),
        (exists|a1: int, b1: int, a2: int, b2: int, q1: Seq<Q>, q2: Seq<Q>|
            0 <= b1 < a1 < cons@.len() && 0 <= b2 < a2 < cons@.len() && #[trigger] corner(cons@, a1, b1, q1)
                && #[trigger] corner(cons@, a2, b2, q2) && !same_values(q1, q2)) ==> r@.len() >= 2,
{
    let mut points: Vec<Vec<Q>> = Vec::new();
    let mut i: usize = 0;
    while i < cons.len()
        invariant
            planar(cons@),
            i <= cons@.len(),
            all_feasible(cons@, points@),
            forall|a: int, b: int, q: Seq<Q>| 0 <= b < a < i && #[trigger] corner(cons@, a, b, q) ==> found(points@, q),
        decreases cons@.len() - i,
    {
        let c = &cons[i];
        proof {
            assert(c.wf() && c.a@.len() >= 2);
            assert(c.a@[0].wf() && c.a@[1].wf() && c.b.wf());
        }
        let mut j: usize = 0;
        while j < i
            invariant
                planar(cons@),
                i < cons@.len(),
                j <= i,
                c == cons@[i as int],
                c.wf(),
                c.a@.len() >= 2,
                all_feasible(cons@, points@),
                forall|a: int, b: int, q: Seq<Q>|
                    (0 <= b < a < i || (a == i && 0 <= b < j)) && #[trigger] corner(cons@, a, b, q) ==> found(points@, q),
            decreases i - j,
        {
            let e = &cons[j];
            proof {
                assert(e.wf() && e.a@.len() >= 2);
                assert(e.a@[0].wf() && e.a@[1].wf() && e.b.wf());
                assert(c.a@[0].wf() && c.a@[1].wf() && c.b.wf());
            }
            let m1 = c.a[0].mul(&e.a[1]);
            let m2 = c.a[1].mul(&e.a[0]);
            let det = m1.sub(&m2);
            proof {
                lemma_sub_products(qv(det), qv(m1), qv(m2), qv(c.a@[0]), qv(e.a@[1]), qv(c.a@[1]), qv(e.a@[0]));
                let (dn, dd, sn, sd) = (det.num@, det.den@, det2(*c, *e).0, det2(*c, *e).1);
                assert((dn == 0) == (sn == 0)) by (nonlinear_arith)
                    requires
                        dn * sd == sn * dd,
                        dd > 0,
                        sd > 0,
                ;
            }
            if !det.is_zero() {
                let n1 = c.b.mul(&e.a[1]);
                let n2 = c.a[1].mul(&e.b);
                let xn = n1.sub(&n2);
                let x = xn.div(&det);
                let o1 = c.a[0].mul(&e.b);
                let o2 = c.b.mul(&e.a[0]);
                let yn = o1.sub(&o2);
                let y = yn.div(&det);
                let mut p: Vec<Q> = Vec::new();
                p.push(x);
                p.push(y);
                proof {
                    lemma_sub_products(qv(xn), qv(n1), qv(n2), qv(c.b), qv(e.a@[1]), qv(c.a@[1]), qv(e.b));
                    lemma_sub_products(qv(yn), qv(o1), qv(o2), qv(c.a@[0]), qv(e.b), qv(c.b), qv(e.a@[0]));
                    lemma_pdiv_cong(qv(xn), psub(pmul(qv(c.b), qv(e.a@[1])), pmul(qv(c.a@[1]), qv(e.b))), qv(det), det2(*c, *e));
                    lemma_pdiv_cong(qv(yn), psub(pmul(qv(c.a@[0]), qv(e.b)), pmul(qv(c.b), qv(e.a@[0]))), qv(det), det2(*c, *e));
                    let (xd, yd, dn) = (xn.den@, yn.den@, det.num@);
                    assert(xd * dn != 0 && yd * dn != 0) by (nonlinear_arith)
                        requires
                            xd > 0,
                            yd > 0,
                            dn != 0,
                    ;
                    lemma_equiv_trans_nz(qv(x), pdiv(qv(xn), qv(det)), cramer_x(*c, *e));
                    lemma_equiv_trans_nz(qv(y), pdiv(qv(yn), qv(det)), cramer_y(*c, *e));
                    assert(p@[0] == x && p@[1] == y);
                    assert(crossing(*c, *e, p@));
                    assert forall|q: Seq<Q>| #[trigger] corner(cons@, i as int, j as int, q) implies same_values(p@, q) by {
                        lemma_crossing_unique(*c, *e, p@, q);
                    }
                }
                if check_all(cons, &p) {
                    let mut seen = false;
                    let mut k: usize = 0;
                    while k < points.len()
                        invariant
                            k <= points@.len(),
                            p@.len() == 2,
                            all_q_wf(p@),
                            all_feasible(cons@, points@),
                            seen ==> found(points@, p@),
                        decreases points@.len() - k,
                    {
                        proof {
                            assert(feasible(cons@, points@[k as int]@));
                        }
                        if pt_eq(&points[k], &p) {
                            seen = true;
                        }
                        k = k + 1;
                    }
                    if !seen {
                        let ghost before = points@;
                        points.push(p);
                        proof {
                            assert forall|t: int| 0 <= t < points@.len() implies feasible(cons@, (#[trigger] points@[t])@) by {
                                if t < before.len() {
                                    assert(points@[t] == before[t]);
                                }
                            }
                            assert forall|q: Seq<Q>| found(before, q) implies found(points@, q) by {
                                let k = choose|k: int| 0 <= k < before.len() && same_values(#[trigger] before[k]@, q);
                                assert(points@[k] == before[k]);
                            }
                            assert(same_values(points@[before.len() as int]@, p@));
                        }
                    }
                    proof {
                        assert forall|q: Seq<Q>| #[trigger] corner(cons@, i as int, j as int, q) implies found(points@, q) by {
                            let k = choose|k: int| 0 <= k < points@.len() && same_values(#[trigger] points@[k]@, p@);
                            assert(same_values(points@[k]@, q));
                        }
                    }
                } else {
                    proof {
                        assert forall|q: Seq<Q>| #[trigger] corner(cons@, i as int, j as int, q) implies false by {
                            lemma_feasible_values(cons@, q, p@);
                        }
                    }
                }
            }
            j = j + 1;
        }
        i = i + 1;
    }
    proof {
        if exists|a1: int, b1: int, a2: int, b2: int, q1: Seq<Q>, q2: Seq<Q>|
            0 <= b1 < a1 < cons@.len() && 0 <= b2 < a2 < cons@.len() && #[trigger] corner(cons@, a1, b1, q1)
                && #[trigger] corner(cons@, a2, b2, q2) && !same_values(q1, q2) {
            let (a1, b1, a2, b2, q1, q2) = choose|a1: int, b1: int, a2: int, b2: int, q1: Seq<Q>, q2: Seq<Q>|
                0 <= b1 < a1 < cons@.len() && 0 <= b2 < a2 < cons@.len() && #[trigger] corner(cons@, a1, b1, q1)
                    && #[trigger] corner(cons@, a2, b2, q2) && !same_values(q1, q2);
            assert(found(points@, q1));
            assert(found(points@, q2));
            let k1 = choose|k: int| 0 <= k < points@.len() && same_values(#[trigger] points@[k]@, q1);
            let k2 = choose|k: int| 0 <= k < points@.len() && same_values(#[trigger] points@[k]@, q2);
            if k1 == k2 {
                let w = points@[k1]@;
                assert forall|x: int| 0 <= x < q1.len() implies (#[trigger] q1[x]).num@ == q2[x].num@ && q1[x].den@
                    == q2[x].den@ by {
                    assert(w[x].num@ == q1[x].num@ && w[x].den@ == q1[x].den@);
                    assert(w[x].num@ == q2[x].num@ && w[x].den@ == q2[x].den@);
                }
            }
            assert(points@.len() >= 2);
        }
    }
    let points = sort_points(points, Ghost(cons@));
    let mut hull: Vec<Vec<Q>> = Vec::new();
    let mut t: usize = 0;
    while t < points.len()
        invariant
            t <= points@.len(),
            all_feasible(cons@, points@),
            all_feasible(cons@, hull@),
            t >= 1 ==> hull@.len() >= 1,
            t >= 2 ==> hull@.len() >= 2,
        decreases points@.len() - t,
    {
        proof {
            assert(feasible(cons@, points@[t as int]@));
        }
        while hull.len() >= 2 && cross(&hull[hull.len() - 2], &hull[hull.len() - 1], &points[t]).signum() <= 0
            invariant
                t < points@.len(),
                all_feasible(cons@, points@),
                all_feasible(cons@, hull@),
                t >= 1 ==> hull@.len() >= 1,
            decreases hull@.len(),
        {
            proof {
                assert(feasible(cons@, hull@[hull@.len() - 2]@));
                assert(feasible(cons@, hull@[hull@.len() - 1]@));
            }
            hull.pop();
        }
        push_copy(&mut hull, &points[t], Ghost(cons@));
        t = t + 1;
    }
    let lower = hull.len();
    if points.len() >= 2 {
        let mut t: usize = points.len() - 1;
        while t > 0
            invariant
                t < points@.len(),
                all_feasible(cons@, points@),
                all_feasible(cons@, hull@),
                lower <= hull@.len(),
                t < points@.len() - 1 ==> lower + 1 <= hull@.len(),
            decreases t,
        {
            t = t - 1;
            proof {
                assert(feasible(cons@, points@[t as int]@));
            }
            while hull.len() > lower && hull.len() >= 2 && cross(&hull[hull.len() - 2], &hull[hull.len() - 1], &points[t]).signum() <= 0
                invariant
                    t < points@.len(),
                    all_feasible(cons@, points@),
                    all_feasible(cons@, hull@),
                    lower <= hull@.len(),
                decreases hull@.len(),
            {
                proof {
                    assert(feasible(cons@, hull@[hull@.len() - 2]@));
                    assert(feasible(cons@, hull@[hull@.len() - 1]@));
                }
                hull.pop();
            }
            push_copy(&mut hull, &points[t], Ghost(cons@));
        }
    }
    if hull.len() > 0 {
        hull.pop();
    }
    hull
}

/// Appends a value copy of a feasible point.
fn push_copy(hull: &mut Vec<Vec<Q>>, p: &Vec<Q>, Ghost(cons): Ghost<Seq<RawConstraint>>)
    requires
        all_feasible(cons, old(hull)@),
        feasible(cons, p@),
    ensures
        all_feasible(cons, final(hull)@),
        final(hull)@.len() == old(hull)@.len() + 1,
        final(hull)@.drop_last() == old(hull)@,
{
    let c = clone_pt(p);
    proof {
        lemma_feasible_values(cons, p@, c@);
    }
    let ghost before = hull@;
    hull.push(c);
    proof {
        assert(hull@.drop_last() =~= before);
        assert forall|t: int| 0 <= t < hull@.len() implies feasible(cons, (#[trigger] hull@[t])@) by {
            if t < before.len() {
                assert(hull@[t] == before[t]);
            }
        }
    }
}

/// Insertion sort of the points in lexicographic order.
fn sort_points(v: Vec<Vec<Q>>, Ghost(cons): Ghost<Seq<RawConstraint>>) -> (r: Vec<Vec<Q>>)
    requires
        all_feasible(cons, v@),
    ensures
        all_feasible(cons, r@),
        r@.len() == v@.len(),
        r@.to_multiset() == v@.to_multiset(),
        forall|i: int, j: int| 0 <= i < j < r@.len() ==> !pt_less(#[trigger] r@[j]@, #[trigger] r@[i]@),
{
    broadcast use vstd::seq_lib::group_to_multiset_ensures;
    broadcast use vstd::multiset::group_multiset_properties;

    let ghost n = v@.len();
    let mut src = v;
    let mut out: Vec<Vec<Q>> = Vec::new();
    while src.len() > 0
        invariant
            all_feasible(cons, src@),
            all_feasible(cons, out@),
            src@.len() + out@.len() == n,
            src@.to_multiset().add(out@.to_multiset()) == v@.to_multiset(),
            forall|i: int, j: int| 0 <= i < j < out@.len() ==> !pt_less(#[trigger] out@[j]@, #[trigger] out@[i]@),
        decreases src@.len(),
    {
        let ghost s0 = src@;
        let p = src.pop().unwrap();
        proof {
            assert(p == s0[s0.len() - 1]);
            assert(src@ =~= s0.remove(s0.len() - 1));
            assert(s0.contains(p));
            vstd::seq_lib::to_multiset_contains(s0, p);
            vstd::seq_lib::to_multiset_remove(s0, s0.len() - 1);
            assert(src@.to_multiset() == s0.to_multiset().remove(p));
            assert(feasible(cons, p@));
            assert forall|t: int| 0 <= t < src@.len() implies feasible(cons, (#[trigger] src@[t])@) by {
                assert(src@[t] == s0[t]);
            }
        }
        let mut k: usize = 0;
        while k < out.len()
            invariant
                k <= out@.len(),
                feasible(cons, p@),
                all_feasible(cons, out@),
                src@.len() + out@.len() + 1 == n,
                forall|t: int| 0 <= t < k ==> !pt_less(p@, #[trigger] out@[t]@),
            ensures
                k <= out@.len(),
                forall|t: int| 0 <= t < k ==> !pt_less(p@, #[trigger] out@[t]@),
                k < out@.len() ==> pt_less(p@, out@[k as int]@),
            decreases out@.len() - k,
        {
            proof {
                assert(feasible(cons, out@[k as int]@));
            }
            if pt_lt(&p, &out[k]) {
                break;
            }
            k = k + 1;
        }
        let ghost o0 = out@;
        let ghost pv = p;
        out.insert(k, p);
        proof {
            assert(out@ =~= o0.insert(k as int, pv));
            vstd::seq_lib::to_multiset_insert(o0, k as int, pv);
            assert(out@.to_multiset() == o0.to_multiset().insert(pv));
            assert(src@.to_multiset().add(out@.to_multiset()) =~= s0.to_multiset().add(o0.to_multiset()));
            assert(pv@.len() == 2 && all_q_wf(pv@));
            assert forall|i: int, j: int| 0 <= i < j < out@.len() implies !pt_less(#[trigger] out@[j]@, #[trigger] out@[i]@) by {
                if j < k {
                    assert(out@[i] == o0[i] && out@[j] == o0[j]);
                } else if j == k {
                    assert(out@[i] == o0[i]);
                } else if i > k {
                    assert(out@[i] == o0[i - 1] && out@[j] == o0[j - 1]);
                } else if i == k {
                    // p < out[k] ≤ out[j]
                    assert(out@[j] == o0[j - 1]);
                    assert(pt_less(pv@, o0[k as int]@));
                    if j - 1 > k {
                        assert(!pt_less(o0[j - 1]@, o0[k as int]@));
                    }
                    assert(feasible(cons, o0[j - 1]@) && feasible(cons, o0[k as int]@));
                    if pt_less(o0[j - 1]@, pv@) {
                        lemma_pt_less_trans(o0[j - 1]@, pv@, o0[k as int]@);
                    }
                } else {
                    assert(out@[i] == o0[i] && out@[j] == o0[j - 1]);
                }
            }
            assert forall|t: int| 0 <= t < out@.len() implies feasible(cons, (#[trigger] out@[t])@) by {
                if t < k {
                    assert(out@[t] == o0[t]);
                } else if t > k {
                    assert(out@[t] == o0[t - 1]);
                }
            }
        }
    }
    out
}


/// The value `a_0 x + a_1 y` of the direction `a` at a planar point.
pub open spec fn proj(dir: Seq<Q>, p: Seq<Q>) -> (int, int) {
    padd(pmul(qv(dir[0]), qv(p[0])), pmul(qv(dir[1]), qv(p[1])))
}

/// Every vertex of every polygon is a planar point in normal form.
pub open spec fn planar_points(ps: Seq<Vec<Vec<Q>>>) -> bool {
    forall|i: int, j: int| 0 <= i < ps.len() && 0 <= j < ps[i]@.len() ==> (#[trigger] ps[i]@[j])@.len() == 2 && all_q_wf(ps[i]@[j]@)
}

/// The value of the direction at a point has a positive denominator.
proof fn lemma_proj_den(dir: Seq<Q>, p: Seq<Q>)
    requires
        dir.len() == 2,
        p.len() == 2,
        all_q_wf(dir),
        all_q_wf(p),
    ensures
        proj(dir, p).1 > 0,
{
    assert(dir[0].wf() && dir[1].wf() && p[0].wf() && p[1].wf());
    let (a, b, c, e) = (qv(dir[0]).1, qv(p[0]).1, qv(dir[1]).1, qv(p[1]).1);
    assert((a * b) * (c * e) > 0) by (nonlinear_arith)
        requires
            a > 0,
            b > 0,
            c > 0,
            e > 0,
    ;
}

/// The value of the direction at one point.
fn proj_at(dir: &Vec<Q>, p: &Vec<Q>) -> (r: Q)
    requires
        dir@.len() == 2,
        p@.len() == 2,
        all_q_wf(dir@),
        all_q_wf(p@),
    ensures
        r.wf(),
        equiv(qv(r), proj(dir@, p@)),
        proj(dir@, p@).1 > 0,
{
    proof {
        assert(dir@[0].wf() && dir@[1].wf() && p@[0].wf() && p@[1].wf());
    }
    let x = dir[0].mul(&p[0]);
    let y = dir[1].mul(&p[1]);
    let s = x.add(&y);
    proof {
        let (a, b, c, e) = (qv(dir@[0]), qv(p@[0]), qv(dir@[1]), qv(p@[1]));
        let (u1, u2) = (a.1 * b.1, c.1 * e.1);
        assert(u1 > 0 && u2 > 0) by (nonlinear_arith)
            requires
                a.1 > 0,
                b.1 > 0,
                c.1 > 0,
                e.1 > 0,
                u1 == a.1 * b.1,
                u2 == c.1 * e.1,
        ;
        crate::sweep::lemma_cong(qv(x), pmul(a, b), qv(y), pmul(c, e));
        assert(qv(x).1 * qv(y).1 > 0) by (nonlinear_arith)
            requires
                qv(x).1 > 0,
                qv(y).1 > 0,
        ;
        crate::sweep::lemma_equiv_trans(qv(s), padd(qv(x), qv(y)), proj(dir@, p@));
        lemma_proj_den(dir@, p@);
    }
    s
}

/// The least and greatest value of the direction over all polygon
/// vertices: the range of `λ` the polygons span; `None` without vertices.
pub fn lambda_range(polygons: &Vec<Vec<Vec<Q>>>, direction: &Vec<Q>) -> (r: Option<(Q, Q)>)
    requires
        direction@.len() == 2,
        all_q_wf(direction@),
        planar_points(polygons@),
    ensures
        r is None <==> forall|i: int| 0 <= i < polygons@.len() ==> (#[trigger] polygons@[i])@.len() == 0,
        r matches Some((lo, hi)) ==> lo.wf() && hi.wf() && (exists|i: int, j: int|
            0 <= i < polygons@.len() && 0 <= j < polygons@[i]@.len() && #[trigger] equiv(
                qv(lo),
                proj(direction@, polygons@[i]@[j]@),
            )) && (exists|i: int, j: int|
            0 <= i < polygons@.len() && 0 <= j < polygons@[i]@.len() && #[trigger] equiv(
                qv(hi),
                proj(direction@, polygons@[i]@[j]@),
            )) && forall|i: int, j: int|
            0 <= i < polygons@.len() && 0 <= j < polygons@[i]@.len() ==> !plt(
                #[trigger] proj(direction@, polygons@[i]@[j]@),
                qv(lo),
            ) && !plt(qv(hi), proj(direction@, polygons@[i]@[j]@)),
{
    let mut best: Option<(Q, Q)> = None;
    let mut i: usize = 0;
    while i < polygons.len()
        invariant
            direction@.len() == 2,
            all_q_wf(direction@),
            planar_points(polygons@),
            i <= polygons@.len(),
            best is None <==> forall|a: int| 0 <= a < i ==> (#[trigger] polygons@[a])@.len() == 0,
            best matches Some((lo, hi)) ==> lo.wf() && hi.wf() && (exists|a: int, b: int|
                0 <= a < i && 0 <= b < polygons@[a]@.len() && #[trigger] equiv(qv(lo), proj(direction@, polygons@[a]@[b]@)))
                && (exists|a: int, b: int|
                0 <= a < i && 0 <= b < polygons@[a]@.len() && #[trigger] equiv(qv(hi), proj(direction@, polygons@[a]@[b]@)))
                && forall|a: int, b: int|
                0 <= a < i && 0 <= b < polygons@[a]@.len() ==> !plt(#[trigger] proj(direction@, polygons@[a]@[b]@), qv(lo))
                    && !plt(qv(hi), proj(direction@, polygons@[a]@[b]@)),
        decreases polygons@.len() - i,
    {
        let mut j: usize = 0;
        while j < polygons[i].len()
            invariant
                direction@.len() == 2,
                all_q_wf(direction@),
                planar_points(polygons@),
                i < polygons@.len(),
                j <= polygons@[i as int]@.len(),
                best is None <==> (forall|a: int| 0 <= a < i ==> (#[trigger] polygons@[a])@.len() == 0) && j == 0,
                best matches Some((lo, hi)) ==> lo.wf() && hi.wf() && (exists|a: int, b: int|
                    ((0 <= a < i && 0 <= b < polygons@[a]@.len()) || (a == i && 0 <= b < j)) && #[trigger] equiv(
                        qv(lo),
                        proj(direction@, polygons@[a]@[b]@),
                    )) && (exists|a: int, b: int|
                    ((0 <= a < i && 0 <= b < polygons@[a]@.len()) || (a == i && 0 <= b < j)) && #[trigger] equiv(
                        qv(hi),
                        proj(direction@, polygons@[a]@[b]@),
                    )) && forall|a: int, b: int|
                    ((0 <= a < i && 0 <= b < polygons@[a]@.len()) || (a == i && 0 <= b < j)) ==> !plt(
                        #[trigger] proj(direction@, polygons@[a]@[b]@),
                        qv(lo),
                    ) && !plt(qv(hi), proj(direction@, polygons@[a]@[b]@)),
            decreases polygons@[i as int]@.len() - j,
        {
            let p = &polygons[i][j];
            proof {
                assert(polygons@[i as int]@[j as int]@.len() == 2 && all_q_wf(polygons@[i as int]@[j as int]@));
            }
            let x = proj_at(direction, p);
            let ghost px = proj(direction@, p@);
            let ghost vx = qv(x);
            proof {
                assert(p@ == polygons@[i as int]@[j as int]@);
                crate::sweep::lemma_cong(vx, px, vx, vx);
            }
            best = match best {
                None => {
                    let lo = x.clone();
                    proof {
                        assert(qv(lo) == vx);
                        assert forall|a: int, b: int|
                            ((0 <= a < i && 0 <= b < polygons@[a]@.len()) || (a == i && 0 <= b < j + 1)) implies !plt(
                            #[trigger] proj(direction@, polygons@[a]@[b]@),
                            vx,
                        ) && !plt(vx, proj(direction@, polygons@[a]@[b]@)) by {
                            if a < i {
                                assert(polygons@[a]@.len() == 0);
                            }
                            assert(b == j);
                            crate::sweep::lemma_cong(vx, vx, vx, px);
                        }
                        assert(equiv(vx, proj(direction@, polygons@[i as int]@[j as int]@)));
                    }
                    Some((lo, x))
                },
                Some((lo, hi)) => {
                    let ghost (l0, h0) = (qv(lo), qv(hi));
                    let lt1 = x.lt(&lo);
                    let lt2 = hi.lt(&x);
                    let nlo = if lt1 {
                        x.clone()
                    } else {
                        lo
                    };
                    let nhi = if lt2 {
                        x
                    } else {
                        hi
                    };
                    proof {
                        assert(lt1 == plt(vx, l0));
                        assert(lt2 == plt(h0, vx));
                        assert(qv(nlo) == (if lt1 { vx } else { l0 }));
                        assert(qv(nhi) == (if lt2 { vx } else { h0 }));
                        assert forall|a: int, b: int|
                            ((0 <= a < i && 0 <= b < polygons@[a]@.len()) || (a == i && 0 <= b < j + 1)) implies !plt(
                            #[trigger] proj(direction@, polygons@[a]@[b]@),
                            qv(nlo),
                        ) && !plt(qv(nhi), proj(direction@, polygons@[a]@[b]@)) by {
                            let pp = proj(direction@, polygons@[a]@[b]@);
                            assert(polygons@[a]@[b]@.len() == 2 && all_q_wf(polygons@[a]@[b]@));
                            lemma_proj_den(direction@, polygons@[a]@[b]@);
                            if a == i && b == j {
                                crate::sweep::lemma_cong(vx, px, l0, l0);
                                crate::sweep::lemma_cong(h0, h0, vx, px);
                                crate::sweep::lemma_cong(vx, px, vx, vx);
                                crate::sweep::lemma_cong(vx, vx, vx, px);
                            } else {
                                assert(!plt(pp, l0) && !plt(h0, pp));
                                if lt1 && plt(pp, vx) {
                                    crate::sweep::lemma_plt_trans(pp, vx, l0);
                                }
                                if lt2 && plt(vx, pp) {
                                    crate::sweep::lemma_plt_trans(h0, vx, pp);
                                }
                            }
                        }
                        if lt1 {
                            assert(equiv(qv(nlo), proj(direction@, polygons@[i as int]@[j as int]@)));
                        }
                        if lt2 {
                            assert(equiv(qv(nhi), proj(direction@, polygons@[i as int]@[j as int]@)));
                        }
                    }
                    Some((nlo, nhi))
                },
            };
            j = j + 1;
        }
        i = i + 1;
    }
    best
}

} // verus!
