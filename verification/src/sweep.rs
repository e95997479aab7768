//! The knot map — the only thing the traversal stores.
//!
//! `s(a, λ) = Σ_κ Σ_j c_{κ,j} (λ − κ)_+^j`.  For generic `a` only `j = d`
//! occurs; for non-generic `a` lower degrees appear and negative Laurent
//! orders are kept until [`Accumulator::finish`] verifies they cancel.
use crate::geom::{all_q_wf, clone_qs};
use crate::local::{zero_qs, VertexContribution};
use crate::num::{binomial, Q, Z};
use vstd::prelude::*;

verus! {

/// A rational as a `(numerator, denominator)` pair.
pub open spec fn qv(q: Q) -> (int, int) {
    (q.num@, q.den@)
}

/// Pair arithmetic.
pub open spec fn padd(a: (int, int), b: (int, int)) -> (int, int) {
    (a.0 * b.1 + b.0 * a.1, a.1 * b.1)
}

pub open spec fn psub(a: (int, int), b: (int, int)) -> (int, int) {
    (a.0 * b.1 - b.0 * a.1, a.1 * b.1)
}

pub open spec fn pmul(a: (int, int), b: (int, int)) -> (int, int) {
    (a.0 * b.0, a.1 * b.1)
}

/// Same rational value.
pub open spec fn equiv(a: (int, int), b: (int, int)) -> bool {
    a.0 * b.1 == b.0 * a.1
}

/// `a < b` for positive denominators.
pub open spec fn plt(a: (int, int), b: (int, int)) -> bool {
    a.0 * b.1 < b.0 * a.1
}

/// `t^j`.
pub open spec fn ppow(t: (int, int), j: nat) -> (int, int)
    decreases j,
{
    if j == 0 {
        (1, 1)
    } else {
        pmul(ppow(t, (j - 1) as nat), t)
    }
}

/// `Σ_{i<j} c_i t^i`.
pub open spec fn poly_sum(c: Seq<(int, int)>, t: (int, int), j: nat) -> (int, int)
    decreases j,
{
    if j == 0 {
        (0, 1)
    } else {
        padd(poly_sum(c, t, (j - 1) as nat), pmul(c[j - 1], ppow(t, (j - 1) as nat)))
    }
}

/// Values of a rational vector.
pub open spec fn qvs(s: Seq<Q>) -> Seq<(int, int)> {
    s.map_values(|q: Q| qv(q))
}

/// `Σ_{κ_i < λ, i < n} Σ_j c_{i,j} (λ − κ_i)^j`.
pub open spec fn sweep_sum(knots: Seq<(Q, Vec<Q>)>, lam: (int, int), n: int) -> (int, int)
    decreases n,
{
    if n <= 0 {
        (0, 1)
    } else {
        let prev = sweep_sum(knots, lam, n - 1);
        let k = knots[n - 1];
        if plt(qv(k.0), lam) {
            padd(prev, poly_sum(qvs(k.1@), psub(lam, qv(k.0)), k.1@.len()))
        } else {
            prev
        }
    }
}

/// Congruence of pair arithmetic for positive denominators.
pub proof fn lemma_cong(a: (int, int), a2: (int, int), b: (int, int), b2: (int, int))
    requires
        a.1 > 0,
        a2.1 > 0,
        b.1 > 0,
        b2.1 > 0,
        equiv(a, a2),
        equiv(b, b2),
    ensures
        equiv(padd(a, b), padd(a2, b2)),
        equiv(psub(a, b), psub(a2, b2)),
        equiv(pmul(a, b), pmul(a2, b2)),
        padd(a, b).1 > 0,
        pmul(a, b).1 > 0,
        (plt(a, b) <==> plt(a2, b2)),
{
    let (a0, a1, c0, c1) = (a.0, a.1, a2.0, a2.1);
    let (b0, b1, e0, e1) = (b.0, b.1, b2.0, b2.1);
    assert(a0 * c1 == c0 * a1);
    assert(b0 * e1 == e0 * b1);
    // monomial rearrangements
    lemma_swap4(a0, b1, c1, e1);
    lemma_swap4(b0, a1, e1, c1);
    lemma_swap4(c0, e1, a1, b1);
    lemma_swap4(e0, c1, b1, a1);
    lemma_swap4(a0, b0, c1, e1);
    lemma_swap4(c0, e0, a1, b1);
    assert(c1 * e1 == e1 * c1 && a1 * b1 == b1 * a1 && b1 * e1 == e1 * b1 && a1 * c1 == c1 * a1) by (nonlinear_arith);
    // (a0 b1)(c1 e1) = (a0 c1)(b1 e1) = (c0 a1)(b1 e1) = (c0 e1)(a1 b1), and likewise for the other terms
    let p1 = (a0 * b1) * (c1 * e1);
    let p2 = (b0 * a1) * (c1 * e1);
    let q1 = (c0 * e1) * (a1 * b1);
    let q2 = (e0 * c1) * (a1 * b1);
    assert(p1 == (a0 * c1) * (b1 * e1));
    assert(q1 == (c0 * a1) * (e1 * b1));
    assert(p1 == q1);
    assert(p2 == (b0 * e1) * (a1 * c1));
    assert(q2 == (e0 * b1) * (c1 * a1));
    assert(p2 == q2);
    vstd::arithmetic::mul::lemma_mul_is_distributive_add_other_way(c1 * e1, a0 * b1, b0 * a1);
    vstd::arithmetic::mul::lemma_mul_is_distributive_add_other_way(a1 * b1, c0 * e1, e0 * c1);
    vstd::arithmetic::mul::lemma_mul_is_distributive_sub_other_way(c1 * e1, a0 * b1, b0 * a1);
    vstd::arithmetic::mul::lemma_mul_is_distributive_sub_other_way(a1 * b1, c0 * e1, e0 * c1);
    assert(equiv(padd(a, b), padd(a2, b2)));
    assert(equiv(psub(a, b), psub(a2, b2)));
    assert((a0 * b0) * (c1 * e1) == (a0 * c1) * (b0 * e1));
    assert((c0 * e0) * (a1 * b1) == (c0 * a1) * (e0 * b1));
    assert(equiv(pmul(a, b), pmul(a2, b2)));
    assert(a1 * b1 > 0) by (nonlinear_arith)
        requires
            a1 > 0,
            b1 > 0,
    ;
    assert(c1 * e1 > 0) by (nonlinear_arith)
        requires
            c1 > 0,
            e1 > 0,
    ;
    lemma_scale_lt(a0 * b1, b0 * a1, c1 * e1);
    lemma_scale_lt(c0 * e1, e0 * c1, a1 * b1);
}

/// `(x·y)·(z·w) = (x·z)·(y·w)`.
proof fn lemma_swap4(x: int, y: int, z: int, w: int)
    ensures
        (x * y) * (z * w) == (x * z) * (y * w),
{
    assert((x * y) * (z * w) == (x * z) * (y * w)) by (nonlinear_arith);
}

/// Multiplying by a positive number keeps a strict order.
proof fn lemma_scale_lt(x: int, y: int, k: int)
    requires
        k > 0,
    ensures
        (x < y) <==> (x * k < y * k),
{
    assert((x < y) <==> (x * k < y * k)) by (nonlinear_arith)
        requires
            k > 0,
    ;
}

/// `equiv` is transitive through a positive denominator.
pub proof fn lemma_equiv_trans(a: (int, int), b: (int, int), c: (int, int))
    requires
        b.1 > 0,
        equiv(a, b),
        equiv(b, c),
    ensures
        equiv(a, c),
{
    assert(equiv(a, c)) by (nonlinear_arith)
        requires
            a.0 * b.1 == b.0 * a.1,
            b.0 * c.1 == c.0 * b.1,
            b.1 > 0,
    ;
}

/// Adding a zero term changes nothing.
pub proof fn lemma_add_zero(x: (int, int), c: (int, int), p: (int, int))
    requires
        c.0 == 0,
        c.1 > 0,
        p.1 > 0,
    ensures
        equiv(padd(x, pmul(c, p)), x),
{
    assert(equiv(padd(x, pmul(c, p)), x)) by (nonlinear_arith)
        requires
            c.0 == 0,
    ;
}

/// Denominators of powers and sums stay positive.
proof fn lemma_pos_dens(c: Seq<(int, int)>, t: (int, int), j: nat)
    requires
        t.1 > 0,
        forall|i: int| 0 <= i < c.len() ==> (#[trigger] c[i]).1 > 0,
        j <= c.len(),
    ensures
        ppow(t, j).1 > 0,
        poly_sum(c, t, j).1 > 0,
    decreases j,
{
    if j > 0 {
        lemma_pos_dens(c, t, (j - 1) as nat);
        let (p, q) = (ppow(t, (j - 1) as nat).1, poly_sum(c, t, (j - 1) as nat).1);
        assert(p * t.1 > 0) by (nonlinear_arith)
            requires
                p > 0,
                t.1 > 0,
        ;
        assert(c[j - 1].1 * p > 0) by (nonlinear_arith)
            requires
                p > 0,
                c[j - 1].1 > 0,
        ;
        assert(q * (c[j - 1].1 * p) > 0) by (nonlinear_arith)
            requires
                q > 0,
                c[j - 1].1 * p > 0,
        ;
    }
}

/// `Σ_j c_j t^j` for one knot, as the sweep function computes it.
fn knot_value(coef: &Vec<Q>, t: &Q) -> (r: Q)
    requires
        all_q_wf(coef@),
        t.wf(),
    ensures
        r.wf(),
        equiv(qv(r), poly_sum(qvs(coef@), qv(*t), coef@.len())),
{
    let mut s = Q::zero();
    let mut pw = Q::one();
    let ghost c = qvs(coef@);
    proof {
        lemma_pos_dens(c, qv(*t), 0);
    }
    let mut j: usize = 0;
    while j < coef.len()
        invariant
            all_q_wf(coef@),
            t.wf(),
            c == qvs(coef@),
            j <= coef@.len(),
            s.wf(),
            pw.wf(),
            equiv(qv(s), poly_sum(c, qv(*t), j as nat)),
            j > 0 ==> equiv(qv(pw), ppow(qv(*t), (j - 1) as nat)),
            j == 0 ==> qv(pw) == (1int, 1int),
        decreases coef@.len() - j,
    {
        proof {
            assert forall|i: int| 0 <= i < c.len() implies (#[trigger] c[i]).1 > 0 by {
                assert(coef@[i].wf());
            }
            lemma_pos_dens(c, qv(*t), j as nat);
            if j > 0 {
                lemma_pos_dens(c, qv(*t), (j - 1) as nat);
            }
        }
        let ghost pw0 = qv(pw);
        if j > 0 {
            pw = pw.mul(t);
            proof {
                // pw ≡ t^{j-1} · t = t^j
                lemma_cong(pw0, ppow(qv(*t), (j - 1) as nat), qv(*t), qv(*t));
                lemma_equiv_trans(qv(pw), pmul(pw0, qv(*t)), ppow(qv(*t), j as nat));
            }
        } else {
            proof {
                assert(equiv(qv(pw), ppow(qv(*t), 0)));
            }
        }
        let ghost s0 = qv(s);
        let cj = &coef[j];
        proof {
            assert(c[j as int] == qv(*cj));
        }
        if !cj.is_zero() {
            let term = cj.mul(&pw);
            s = s.add(&term);
            proof {
                lemma_cong(qv(*cj), qv(*cj), qv(pw), ppow(qv(*t), j as nat));
                lemma_equiv_trans(qv(term), pmul(qv(*cj), qv(pw)), pmul(qv(*cj), ppow(qv(*t), j as nat)));
                assert(c[j as int].1 > 0);
                let pp = ppow(qv(*t), j as nat).1;
                assert(cj.den@ * pp > 0) by (nonlinear_arith)
                    requires
                        cj.den@ > 0,
                        pp > 0,
                ;
                lemma_cong(s0, poly_sum(c, qv(*t), j as nat), qv(term), pmul(qv(*cj), ppow(qv(*t), j as nat)));
                lemma_equiv_trans(
                    qv(s),
                    padd(s0, qv(term)),
                    padd(poly_sum(c, qv(*t), j as nat), pmul(qv(*cj), ppow(qv(*t), j as nat))),
                );
            }
        } else {
            proof {
                lemma_add_zero(poly_sum(c, qv(*t), j as nat), qv(*cj), ppow(qv(*t), j as nat));
                lemma_equiv_trans(s0, poly_sum(c, qv(*t), j as nat), poly_sum(c, qv(*t), (j + 1) as nat));
                assert(equiv(poly_sum(c, qv(*t), j as nat), poly_sum(c, qv(*t), (j + 1) as nat))) by (nonlinear_arith)
                    requires
                        equiv(padd(poly_sum(c, qv(*t), j as nat), pmul(c[j as int], ppow(qv(*t), j as nat))), poly_sum(c, qv(*t), j as nat)),
                        poly_sum(c, qv(*t), (j + 1) as nat) == padd(poly_sum(c, qv(*t), j as nat), pmul(c[j as int], ppow(qv(*t), j as nat))),
                ;
                lemma_equiv_trans(s0, poly_sum(c, qv(*t), j as nat), poly_sum(c, qv(*t), (j + 1) as nat));
            }
        }
        j = j + 1;
    }
    s
}

/// Congruence of powers and polynomial values in the variable.
proof fn lemma_poly_cong(c: Seq<(int, int)>, t: (int, int), t2: (int, int), j: nat)
    requires
        t.1 > 0,
        t2.1 > 0,
        equiv(t, t2),
        forall|i: int| 0 <= i < c.len() ==> (#[trigger] c[i]).1 > 0,
        j <= c.len(),
    ensures
        equiv(ppow(t, j), ppow(t2, j)),
        equiv(poly_sum(c, t, j), poly_sum(c, t2, j)),
    decreases j,
{
    lemma_pos_dens(c, t, j);
    lemma_pos_dens(c, t2, j);
    if j > 0 {
        let jm = (j - 1) as nat;
        lemma_poly_cong(c, t, t2, jm);
        lemma_pos_dens(c, t, jm);
        lemma_pos_dens(c, t2, jm);
        lemma_cong(ppow(t, jm), ppow(t2, jm), t, t2);
        assert(c[j - 1].1 > 0);
        lemma_cong(c[j - 1], c[j - 1], ppow(t, jm), ppow(t2, jm));
        lemma_cong(c[j - 1], c[j - 1], ppow(t2, jm), ppow(t2, jm));
        lemma_cong(poly_sum(c, t, jm), poly_sum(c, t2, jm), pmul(c[j - 1], ppow(t, jm)), pmul(c[j - 1], ppow(t2, jm)));
    }
}

/// `a < b ≤ c` gives `a < c` (positive denominators).
proof fn lemma_plt_le_trans(a: (int, int), b: (int, int), c: (int, int))
    requires
        a.1 > 0,
        b.1 > 0,
        c.1 > 0,
        plt(a, b),
        !plt(c, b),
    ensures
        plt(a, c),
{
    assert(plt(a, c)) by (nonlinear_arith)
        requires
            a.0 * b.1 < b.0 * a.1,
            b.0 * c.1 <= c.0 * b.1,
            a.1 > 0,
            b.1 > 0,
            c.1 > 0,
    ;
}

/// Some coefficient of the knot is non-zero.
pub open spec fn nonzero_knot(k: (Q, Vec<Q>)) -> bool {
    exists|j: int| 0 <= j < k.1@.len() && (#[trigger] k.1@[j]).num@ != 0
}

/// `s(λ) = Σ_κ Σ_j c_{κ,j} (λ − κ)_+^j`, knots ascending.
#[derive(Debug, Clone)]
pub struct SweepFunction {
    pub d: usize,
    pub knots: Vec<(Q, Vec<Q>)>,
}

/// One polynomial piece in powers of `λ`.
#[derive(Debug, Clone)]
pub struct Piece {
    pub lo: Option<Q>,
    pub hi: Option<Q>,
    /// coefficients of λ^0 … λ^d
    pub poly: Vec<Q>,
}

/// Knots strictly ascending.
pub open spec fn knots_sorted(k: Seq<(Q, Vec<Q>)>) -> bool {
    forall|i: int, j: int| 0 <= i < j < k.len() ==> plt(qv(#[trigger] k[i].0), qv(#[trigger] k[j].0))
}

impl SweepFunction {
    pub open spec fn wf(&self) -> bool {
        &&& forall|i: int|
            0 <= i < self.knots@.len() ==> (#[trigger] self.knots@[i]).0.wf() && all_q_wf(self.knots@[i].1@)
                && self.knots@[i].1@.len() == self.d + 1
        &&& knots_sorted(self.knots@)
    }

    /// The value at `λ`.
    pub fn eval(&self, lambda: &Q) -> (r: Q)
        requires
            self.wf(),
            lambda.wf(),
        ensures
            r.wf(),
            equiv(qv(r), sweep_sum(self.knots@, qv(*lambda), self.knots@.len() as int)),
    {
        let ghost ks = self.knots@;
        let ghost lam = qv(*lambda);
        let mut s = Q::zero();
        let mut i: usize = 0;
        while i < self.knots.len()
            invariant
                self.wf(),
                lambda.wf(),
                ks == self.knots@,
                lam == qv(*lambda),
                i <= ks.len(),
                s.wf(),
                equiv(qv(s), sweep_sum(ks, lam, i as int)),
                forall|j: int| 0 <= j < i ==> plt(qv(#[trigger] ks[j].0), lam),
            ensures
                s.wf(),
                equiv(qv(s), sweep_sum(ks, lam, ks.len() as int)),
            decreases ks.len() - i,
        {
            let (k, coef) = (&self.knots[i].0, &self.knots[i].1);
            proof {
                assert(ks[i as int].0.wf() && all_q_wf(ks[i as int].1@));
                lemma_sweep_sum_dens(ks, lam, i as int);
            }
            if lambda.le(k) {
                proof {
                    lemma_sweep_sum_tail(ks, lam, i as int, ks.len() as int);
                }
                break;
            }
            let t = lambda.sub(k);
            let v = knot_value(coef, &t);
            let ghost s0 = qv(s);
            s = s.add(&v);
            proof {
                let c = qvs(coef@);
                assert forall|j: int| 0 <= j < c.len() implies (#[trigger] c[j]).1 > 0 by {
                    assert(coef@[j].wf());
                }
                assert(psub(lam, qv(*k)).1 > 0) by (nonlinear_arith)
                    requires
                        lam.1 > 0,
                        k.den@ > 0,
                ;
                lemma_pos_dens(c, qv(t), coef@.len());
                lemma_poly_cong(c, qv(t), psub(lam, qv(*k)), coef@.len());
                lemma_equiv_trans(qv(v), poly_sum(c, qv(t), coef@.len()), poly_sum(c, psub(lam, qv(*k)), coef@.len()));
                lemma_pos_dens(c, psub(lam, qv(*k)), coef@.len());
                assert(psub(lam, qv(*k)).1 > 0) by (nonlinear_arith)
                    requires
                        lam.1 > 0,
                        k.den@ > 0,
                ;
                lemma_pos_dens(c, psub(lam, qv(*k)), coef@.len());
                lemma_cong(s0, sweep_sum(ks, lam, i as int), qv(v), poly_sum(c, psub(lam, qv(*k)), coef@.len()));
                lemma_equiv_trans(qv(s), padd(s0, qv(v)), sweep_sum(ks, lam, i + 1));
            }
            i = i + 1;
        }
        s
    }

    pub fn min_knot(&self) -> (r: Option<&Q>)
        ensures
            self.knots@.len() == 0 ==> r is None,
            self.knots@.len() > 0 ==> r == Some(&self.knots@[0].0),
    {
        if self.knots.len() == 0 {
            None
        } else {
            Some(&self.knots[0].0)
        }
    }

    pub fn max_knot(&self) -> (r: Option<&Q>)
        ensures
            self.knots@.len() == 0 ==> r is None,
            self.knots@.len() > 0 ==> r == Some(&self.knots@[self.knots@.len() - 1].0),
    {
        if self.knots.len() == 0 {
            None
        } else {
            Some(&self.knots[self.knots.len() - 1].0)
        }
    }
}

/// Denominators of the partial sweep sums stay positive.
proof fn lemma_sweep_sum_dens(ks: Seq<(Q, Vec<Q>)>, lam: (int, int), n: int)
    requires
        lam.1 > 0,
        0 <= n <= ks.len(),
        forall|i: int| 0 <= i < ks.len() ==> (#[trigger] ks[i]).0.wf() && all_q_wf(ks[i].1@),
    ensures
        sweep_sum(ks, lam, n).1 > 0,
    decreases n,
{
    if n > 0 {
        lemma_sweep_sum_dens(ks, lam, n - 1);
        let k = ks[n - 1];
        assert(k.0.wf());
        let c = qvs(k.1@);
        assert forall|j: int| 0 <= j < c.len() implies (#[trigger] c[j]).1 > 0 by {
            assert(k.1@[j].wf());
        }
        assert(psub(lam, qv(k.0)).1 > 0) by (nonlinear_arith)
            requires
                lam.1 > 0,
                k.0.den@ > 0,
        ;
        lemma_pos_dens(c, psub(lam, qv(k.0)), k.1@.len());
        let (x, y) = (sweep_sum(ks, lam, n - 1).1, poly_sum(c, psub(lam, qv(k.0)), k.1@.len()).1);
        assert(x * y > 0) by (nonlinear_arith)
            requires
                x > 0,
                y > 0,
        ;
    }
}

/// Knots at or beyond `λ` add nothing.
proof fn lemma_sweep_sum_tail(ks: Seq<(Q, Vec<Q>)>, lam: (int, int), i: int, n: int)
    requires
        0 <= i < ks.len(),
        i <= n <= ks.len(),
        lam.1 > 0,
        forall|j: int| 0 <= j < ks.len() ==> (#[trigger] ks[j]).0.wf(),
        knots_sorted(ks),
        !plt(qv(ks[i].0), lam),
    ensures
        sweep_sum(ks, lam, n) == sweep_sum(ks, lam, i),
    decreases n,
{
    if n > i {
        lemma_sweep_sum_tail(ks, lam, i, n - 1);
        if n - 1 > i {
            assert(plt(qv(ks[i].0), qv(ks[n - 1].0)));
            assert(ks[i].0.wf() && ks[n - 1].0.wf());
            if plt(qv(ks[n - 1].0), lam) {
                lemma_plt_le_trans(qv(ks[i].0), qv(ks[n - 1].0), lam);
                assert(false);
            }
        }
    }
}

/// `Σ_{i ≥ m} c_i x^{i−m}` in Horner form.
pub open spec fn horner(c: Seq<(int, int)>, x: (int, int), m: int) -> (int, int)
    decreases c.len() - m,
{
    if m >= c.len() {
        (0, 1)
    } else {
        padd(pmul(horner(c, x, m + 1), x), c[m])
    }
}

/// The value of `Σ_i poly_i x^i` by Horner's rule.
pub fn eval_poly(poly: &[Q], x: &Q) -> (r: Q)
    requires
        all_q_wf(poly@),
        x.wf(),
    ensures
        r.wf(),
        equiv(qv(r), horner(qvs(poly@), qv(*x), 0)),
{
    let ghost c = qvs(poly@);
    let mut s = Q::zero();
    let mut i: usize = poly.len();
    while i > 0
        invariant
            all_q_wf(poly@),
            x.wf(),
            c == qvs(poly@),
            i <= poly@.len(),
            s.wf(),
            equiv(qv(s), horner(c, qv(*x), i as int)),
            horner(c, qv(*x), i as int).1 > 0,
        decreases i,
    {
        i = i - 1;
        let ghost s0 = qv(s);
        let t = s.mul(x);
        s = t.add(&poly[i]);
        proof {
            let hn = horner(c, qv(*x), i + 1);
            assert(poly@[i as int].wf());
            assert(c[i as int] == qv(poly@[i as int]));
            lemma_cong(hn, hn, qv(*x), qv(*x));
            lemma_cong(s0, hn, qv(*x), qv(*x));
            lemma_equiv_trans(qv(t), pmul(s0, qv(*x)), pmul(hn, qv(*x)));
            lemma_cong(qv(t), pmul(hn, qv(*x)), c[i as int], c[i as int]);
            lemma_equiv_trans(qv(s), padd(qv(t), c[i as int]), horner(c, qv(*x), i as int));
            lemma_cong(hn, hn, qv(*x), qv(*x));
            lemma_cong(pmul(hn, qv(*x)), pmul(hn, qv(*x)), c[i as int], c[i as int]);
        }
    }
    s
}

/// Knot `k` and coefficients `c` after the reparametrisation by `s`:
/// `k/s` and `c_j·s^j`.
pub open spec fn rescaled(old: (Q, Vec<Q>), new: (Q, Vec<Q>), s: (int, int)) -> bool {
    &&& equiv(qv(new.0), (old.0.num@ * s.1, old.0.den@ * s.0))
    &&& new.1@.len() == old.1@.len()
    &&& forall|j: int| 0 <= j < new.1@.len() ==> equiv(qv(#[trigger] new.1@[j]), pmul(qv(old.1@[j]), ppow(s, j as nat)))
}

/// Dividing ordered rationals by a positive one keeps the order.
proof fn lemma_div_order(a: (int, int), b: (int, int), a2: (int, int), b2: (int, int), s: (int, int))
    requires
        a.1 > 0,
        b.1 > 0,
        a2.1 > 0,
        b2.1 > 0,
        s.0 > 0,
        s.1 > 0,
        plt(a, b),
        equiv(a2, (a.0 * s.1, a.1 * s.0)),
        equiv(b2, (b.0 * s.1, b.1 * s.0)),
    ensures
        plt(a2, b2),
{
    let a3 = (a.0 * s.1, a.1 * s.0);
    let b3 = (b.0 * s.1, b.1 * s.0);
    assert(a.1 * s.0 > 0 && b.1 * s.0 > 0) by (nonlinear_arith)
        requires
            a.1 > 0,
            b.1 > 0,
            s.0 > 0,
    ;
    assert(plt(a3, b3)) by (nonlinear_arith)
        requires
            a.0 * b.1 < b.0 * a.1,
            s.0 > 0,
            s.1 > 0,
            a3 == (a.0 * s.1, a.1 * s.0),
            b3 == (b.0 * s.1, b.1 * s.0),
    ;
    assert(equiv(a3, a2) && equiv(b3, b2)) by (nonlinear_arith)
        requires
            equiv(a2, a3),
            equiv(b2, b3),
    ;
    lemma_cong(a3, a2, b3, b2);
}

impl SweepFunction {
    /// Reparametrise: if this is `s(a', λ')` with `a' = scale · a`, then
    /// `s(a, λ) = s(a', scale·λ)`: knots divide by `scale`, the coefficient
    /// of `(λ−κ)^j` multiplies by `scale^j`.
    pub fn rescale(&mut self, scale: &Q)
        requires
            old(self).wf(),
            scale.wf(),
            scale.num@ > 0,
        ensures
            final(self).wf(),
            final(self).d == old(self).d,
            final(self).knots@.len() == old(self).knots@.len(),
            forall|i: int| 0 <= i < final(self).knots@.len() ==> rescaled(old(self).knots@[i], #[trigger] final(self).knots@[i], qv(*scale)),
    {
        let ghost sv = qv(*scale);
        let ghost old_knots = self.knots@;
        let one = Q::one();
        if scale.eq_q(&one) {
            proof {
                assert forall|i: int| 0 <= i < self.knots@.len() implies rescaled(old_knots[i], #[trigger] self.knots@[i], sv) by {
                    let k = old_knots[i];
                    assert(k.0.wf() && all_q_wf(k.1@));
                    assert(sv == (1int, 1int));
                    assert forall|j: int| 0 <= j < k.1@.len() implies equiv(qv(#[trigger] k.1@[j]), pmul(qv(k.1@[j]), ppow(sv, j as nat))) by {
                        lemma_ppow_one(j as nat);
                        let (x, y) = qv(k.1@[j]);
                        assert(x * (y * 1) == (x * 1) * y) by (nonlinear_arith);
                    }
                    let (x, y) = qv(k.0);
                    assert(x * (y * 1) == (x * 1) * y) by (nonlinear_arith);
                }
            }
            return;
        }
        let n = self.knots.len();
        let mut out: Vec<(Q, Vec<Q>)> = Vec::new();
        let mut i: usize = 0;
        while i < n
            invariant
                n == old_knots.len(),
                old_knots == self.knots@,
                forall|t: int| 0 <= t < n ==> (#[trigger] old_knots[t]).0.wf() && all_q_wf(old_knots[t].1@) && old_knots[t].1@.len()
                    == self.d + 1,
                knots_sorted(old_knots),
                scale.wf(),
                scale.num@ > 0,
                sv == qv(*scale),
                i <= n,
                out@.len() == i,
                forall|t: int| 0 <= t < i ==> (#[trigger] out@[t]).0.wf() && all_q_wf(out@[t].1@) && out@[t].1@.len() == self.d + 1,
                forall|t: int| 0 <= t < i ==> rescaled(old_knots[t], #[trigger] out@[t], sv),
                knots_sorted(out@),
            decreases n - i,
        {
            let (k, coef) = (&self.knots[i].0, &self.knots[i].1);
            let nk = k.div(scale);
            let mut nc: Vec<Q> = Vec::new();
            let mut pw = Q::one();
            let mut j: usize = 0;
            while j < coef.len()
                invariant
                    all_q_wf(coef@),
                    scale.wf(),
                    sv == qv(*scale),
                    sv.1 > 0,
                    j <= coef@.len(),
                    nc@.len() == j,
                    all_q_wf(nc@),
                    pw.wf(),
                    j > 0 ==> equiv(qv(pw), ppow(sv, (j - 1) as nat)),
                    j == 0 ==> qv(pw) == (1int, 1int),
                    forall|t: int| 0 <= t < j ==> equiv(qv(#[trigger] nc@[t]), pmul(qv(coef@[t]), ppow(sv, t as nat))),
                decreases coef@.len() - j,
            {
                let ghost pw0 = qv(pw);
                proof {
                    lemma_pos_dens(Seq::<(int, int)>::empty(), sv, 0);
                    lemma_ppow_pos(sv, j as nat);
                    if j > 0 {
                        lemma_ppow_pos(sv, (j - 1) as nat);
                    }
                }
                if j > 0 {
                    pw = pw.mul(scale);
                    proof {
                        lemma_cong(pw0, ppow(sv, (j - 1) as nat), sv, sv);
                        lemma_equiv_trans(qv(pw), pmul(pw0, sv), ppow(sv, j as nat));
                    }
                }
                let c = &coef[j];
                proof {
                    assert(c.wf());
                }
                if !c.is_zero() {
                    let v = c.mul(&pw);
                    proof {
                        lemma_cong(qv(*c), qv(*c), qv(pw), ppow(sv, j as nat));
                        lemma_equiv_trans(qv(v), pmul(qv(*c), qv(pw)), pmul(qv(*c), ppow(sv, j as nat)));
                    }
                    nc.push(v);
                } else {
                    let v = c.clone();
                    proof {
                        assert(equiv(qv(v), pmul(qv(*c), ppow(sv, j as nat)))) by (nonlinear_arith)
                            requires
                                v.num@ == 0,
                                c.num@ == 0,
                        ;
                    }
                    nc.push(v);
                }
                j = j + 1;
            }
            let ghost prev = out@;
            out.push((nk, nc));
            proof {
                assert(rescaled(old_knots[i as int], out@[i as int], sv));
                assert forall|a: int, b: int| 0 <= a < b < out@.len() implies plt(qv(#[trigger] out@[a].0), qv(#[trigger] out@[b].0)) by {
                    if b == i {
                        assert(plt(qv(old_knots[a].0), qv(old_knots[b].0)));
                        assert(out@[a] == prev[a]);
                        lemma_div_order(qv(old_knots[a].0), qv(old_knots[b].0), qv(out@[a].0), qv(out@[b].0), sv);
                    } else {
                        assert(out@[a] == prev[a] && out@[b] == prev[b]);
                    }
                }
            }
            i = i + 1;
        }
        self.knots = out;
    }
}

/// `1^j = 1`.
proof fn lemma_ppow_one(j: nat)
    ensures
        ppow((1, 1), j) == (1int, 1int),
    decreases j,
{
    if j > 0 {
        lemma_ppow_one((j - 1) as nat);
    }
}

/// Powers keep a positive denominator.
pub proof fn lemma_ppow_pos(t: (int, int), j: nat)
    requires
        t.1 > 0,
    ensures
        ppow(t, j).1 > 0,
    decreases j,
{
    if j > 0 {
        lemma_ppow_pos(t, (j - 1) as nat);
        let p = ppow(t, (j - 1) as nat).1;
        assert(p * t.1 > 0) by (nonlinear_arith)
            requires
                p > 0,
                t.1 > 0,
        ;
    }
}

/// An optional bound that holds the value of `k`.
pub open spec fn opt_is(o: Option<Q>, k: Q) -> bool {
    o matches Some(q) && qv(q) == qv(k)
}

/// The coefficient of `λ^l` in `c_j (λ − κ)^j`: `c_j·C(j, l)·(−κ)^{j−l}`
/// for `l ≤ j`, else zero.
pub open spec fn term_coef(c: Seq<(int, int)>, k: (int, int), j: int, l: int) -> (int, int) {
    if 0 <= l <= j {
        pmul(pmul(c[j], (crate::arith::binom(j as nat, l as nat) as int, 1)), ppow((-k.0, k.1), (j - l) as nat))
    } else {
        (0, 1)
    }
}

/// The coefficient of `λ^l` in `Σ_{j<n} c_j (λ − κ)^j`.
pub open spec fn knot_coef(c: Seq<(int, int)>, k: (int, int), l: int, n: int) -> (int, int)
    decreases n,
{
    if n <= 0 {
        (0, 1)
    } else {
        padd(knot_coef(c, k, l, n - 1), term_coef(c, k, n - 1, l))
    }
}

/// The coefficient of `λ^l` in the polynomial of the first `i` knots,
/// expanded in powers of `λ`.
pub open spec fn piece_coef(knots: Seq<(Q, Vec<Q>)>, i: int, l: int) -> (int, int)
    decreases i,
{
    if i <= 0 {
        (0, 1)
    } else {
        padd(piece_coef(knots, i - 1, l), knot_coef(qvs(knots[i - 1].1@), qv(knots[i - 1].0), l, knots[i - 1].1@.len() as int))
    }
}

/// Positive denominators of the expansion coefficients.
pub proof fn lemma_coef_dens(knots: Seq<(Q, Vec<Q>)>, i: int, l: int)
    requires
        0 <= i <= knots.len(),
        forall|t: int| 0 <= t < knots.len() ==> (#[trigger] knots[t]).0.wf() && all_q_wf(knots[t].1@),
    ensures
        piece_coef(knots, i, l).1 > 0,
    decreases i,
{
    if i > 0 {
        lemma_coef_dens(knots, i - 1, l);
        let k = knots[i - 1];
        assert(k.0.wf());
        let c = qvs(k.1@);
        assert forall|j: int| 0 <= j < c.len() implies (#[trigger] c[j]).1 > 0 by {
            assert(k.1@[j].wf());
        }
        lemma_knot_coef_den(c, qv(k.0), l, c.len() as int);
        let (a, b) = (piece_coef(knots, i - 1, l).1, knot_coef(c, qv(k.0), l, c.len() as int).1);
        assert(a * b > 0) by (nonlinear_arith)
            requires
                a > 0,
                b > 0,
        ;
    }
}

/// Positive denominators of one knot's expansion coefficients.
pub proof fn lemma_knot_coef_den(c: Seq<(int, int)>, k: (int, int), l: int, n: int)
    requires
        k.1 > 0,
        0 <= n <= c.len(),
        forall|j: int| 0 <= j < c.len() ==> (#[trigger] c[j]).1 > 0,
    ensures
        knot_coef(c, k, l, n).1 > 0,
        forall|j: int| 0 <= j < n ==> (#[trigger] term_coef(c, k, j, l)).1 > 0,
    decreases n,
{
    if n > 0 {
        lemma_knot_coef_den(c, k, l, n - 1);
        lemma_term_den(c, k, n - 1, l);
        let (a, b) = (knot_coef(c, k, l, n - 1).1, term_coef(c, k, n - 1, l).1);
        assert(a * b > 0) by (nonlinear_arith)
            requires
                a > 0,
                b > 0,
        ;
    }
}

/// Positive denominator of one expansion term.
pub proof fn lemma_term_den(c: Seq<(int, int)>, k: (int, int), j: int, l: int)
    requires
        k.1 > 0,
        0 <= j < c.len(),
        forall|t: int| 0 <= t < c.len() ==> (#[trigger] c[t]).1 > 0,
    ensures
        term_coef(c, k, j, l).1 > 0,
{
    if 0 <= l <= j {
        lemma_ppow_pos((-k.0, k.1), (j - l) as nat);
        let (a, b) = (c[j].1, ppow((-k.0, k.1), (j - l) as nat).1);
        assert(a * 1 * b > 0) by (nonlinear_arith)
            requires
                a > 0,
                b > 0,
        ;
    }
}

/// `ppow` is the pair of powers.
proof fn lemma_ppow_pow(t: (int, int), j: nat)
    ensures
        ppow(t, j) == (vstd::arithmetic::power::pow(t.0, j), vstd::arithmetic::power::pow(t.1, j)),
    decreases j,
{
    if j > 0 {
        lemma_ppow_pow(t, (j - 1) as nat);
        vstd::arithmetic::power::lemma_pow_adds(t.0, (j - 1) as nat, 1);
        vstd::arithmetic::power::lemma_pow_adds(t.1, (j - 1) as nat, 1);
        vstd::arithmetic::power::lemma_pow1(t.0);
        vstd::arithmetic::power::lemma_pow1(t.1);
    } else {
        vstd::arithmetic::power::lemma_pow0(t.0);
        vstd::arithmetic::power::lemma_pow0(t.1);
    }
}

/// One expansion term computed from rationals: `c·C(j,l)` then times
/// `(−κ)^{j−l}`.
proof fn lemma_expansion_term(
    c: Seq<(int, int)>,
    kk: (int, int),
    j: int,
    l: int,
    cj: (int, int),
    b: (int, int),
    cb: (int, int),
    pw: (int, int),
    term: (int, int),
    e: nat,
)
    requires
        0 <= l <= j < c.len(),
        e == j - l,
        c[j] == cj,
        cj.1 > 0,
        kk.1 > 0,
        b == (crate::arith::binom(j as nat, l as nat) as int, 1int),
        cb.1 > 0,
        equiv(cb, pmul(cj, b)),
        pw == (vstd::arithmetic::power::pow(-kk.0, e), vstd::arithmetic::power::pow(kk.1, e)),
        pw.1 > 0,
        term.1 > 0,
        equiv(term, pmul(cb, pw)),
    ensures
        equiv(term, term_coef(c, kk, j, l)),
{
    lemma_ppow_pow((-kk.0, kk.1), e);
    assert(pmul(cj, b).1 > 0) by (nonlinear_arith)
        requires
            cj.1 > 0,
            b.1 == 1,
    ;
    lemma_cong(cb, pmul(cj, b), pw, pw);
    assert(pmul(cb, pw).1 > 0) by (nonlinear_arith)
        requires
            cb.1 > 0,
            pw.1 > 0,
    ;
    lemma_equiv_trans(term, pmul(cb, pw), pmul(pmul(cj, b), pw));
}

/// Adding a term to a coefficient that holds `x + y` gives `x + (y + t)`.
proof fn lemma_step_equiv(v: (int, int), p: (int, int), t: (int, int), x: (int, int), y: (int, int), tc: (int, int))
    requires
        p.1 > 0,
        t.1 > 0,
        x.1 > 0,
        y.1 > 0,
        tc.1 > 0,
        equiv(v, padd(p, t)),
        equiv(p, padd(x, y)),
        equiv(t, tc),
    ensures
        equiv(v, padd(x, padd(y, tc))),
{
    assert(padd(x, y).1 > 0 && padd(p, t).1 > 0) by (nonlinear_arith)
        requires
            x.1 > 0,
            y.1 > 0,
            p.1 > 0,
            t.1 > 0,
    ;
    lemma_cong(p, padd(x, y), t, tc);
    lemma_equiv_trans(v, padd(p, t), padd(padd(x, y), tc));
    crate::laws::lemma_padd_assoc(x, y, tc);
}

/// The expansion term of a zero coefficient is zero.
proof fn lemma_zero_term(c: Seq<(int, int)>, kk: (int, int), j: int, l: int)
    requires
        0 <= j < c.len(),
        c[j].0 == 0,
    ensures
        term_coef(c, kk, j, l).0 == 0,
{
    if 0 <= l <= j {
        let b = (crate::arith::binom(j as nat, l as nat) as int, 1int);
        let pw = ppow((-kk.0, kk.1), (j - l) as nat);
        assert(pmul(pmul(c[j], b), pw).0 == 0) by (nonlinear_arith)
            requires
                c[j].0 == 0,
        ;
    }
}

/// Skipping a zero term keeps the coefficient's value.
proof fn lemma_skip_zero_term(p: (int, int), x: (int, int), y: (int, int), tc: (int, int))
    requires
        p.1 > 0,
        x.1 > 0,
        y.1 > 0,
        tc.1 > 0,
        tc.0 == 0,
        equiv(p, padd(x, y)),
    ensures
        equiv(p, padd(x, padd(y, tc))),
{
    assert(equiv(padd(y, tc), y)) by (nonlinear_arith)
        requires
            tc.0 == 0,
    ;
    assert(padd(y, tc).1 > 0) by (nonlinear_arith)
        requires
            y.1 > 0,
            tc.1 > 0,
    ;
    lemma_cong(x, x, y, padd(y, tc));
    assert(padd(x, y).1 > 0) by (nonlinear_arith)
        requires
            x.1 > 0,
            y.1 > 0,
    ;
    lemma_equiv_trans(p, padd(x, y), padd(x, padd(y, tc)));
}

impl SweepFunction {
    /// Polynomial pieces in powers of `λ` over each interval between knots:
    /// piece `i` holds the expanded polynomial of the first `i` knots.
    pub fn pieces(&self) -> (r: Vec<Piece>)
        requires
            self.wf(),
            self.d < usize::MAX,
            self.d <= u32::MAX,
        ensures
            r@.len() == self.knots@.len() + 1,
            forall|i: int| 0 <= i < r@.len() ==> (#[trigger] r@[i]).poly@.len() == self.d + 1 && all_q_wf(r@[i].poly@),
            r@[0].lo is None,
            forall|i: int| 1 <= i < r@.len() ==> opt_is((#[trigger] r@[i]).lo, self.knots@[i - 1].0),
            forall|i: int| 0 <= i < r@.len() - 1 ==> opt_is((#[trigger] r@[i]).hi, self.knots@[i].0),
            r@[r@.len() - 1].hi is None,
            forall|l: int| 0 <= l <= self.d ==> (#[trigger] r@[0].poly@[l]).num@ == 0,
            forall|i: int, l: int|
                0 <= i < r@.len() && 0 <= l <= self.d ==> equiv(qv(#[trigger] r@[i].poly@[l]), piece_coef(self.knots@, i, l)),
    {
        let d = self.d;
        let ghost ks = self.knots@;
        let mut out: Vec<Piece> = Vec::new();
        let mut poly: Vec<Q> = Vec::new();
        let mut l: usize = 0;
        while l <= d
            invariant
                d < usize::MAX,
                l <= d + 1,
                poly@.len() == l,
                all_q_wf(poly@),
                forall|t: int| 0 <= t < l ==> (#[trigger] poly@[t]).num@ == 0 && poly@[t].den@ == 1,
            decreases d + 1 - l,
        {
            poly.push(Q::zero());
            l = l + 1;
        }
        let first = if self.knots.len() > 0 {
            Some(self.knots[0].0.clone())
        } else {
            None
        };
        out.push(Piece { lo: None, hi: first, poly: clone_qs(poly.as_slice()) });
        let n = self.knots.len();
        let mut i: usize = 0;
        while i < n
            invariant
                self.wf(),
                ks == self.knots@,
                d == self.d,
                d < usize::MAX,
                d <= u32::MAX,
                n == self.knots@.len(),
                i <= n,
                poly@.len() == d + 1,
                all_q_wf(poly@),
                out@.len() == i + 1,
                forall|t: int| 0 <= t < out@.len() ==> (#[trigger] out@[t]).poly@.len() == d + 1 && all_q_wf(out@[t].poly@),
                out@[0].lo is None,
                forall|l: int| 0 <= l <= d ==> (#[trigger] out@[0].poly@[l]).num@ == 0,
                forall|t: int| 1 <= t < out@.len() ==> opt_is((#[trigger] out@[t]).lo, self.knots@[t - 1].0),
                forall|t: int| 0 <= t < out@.len() - 1 ==> opt_is((#[trigger] out@[t]).hi, self.knots@[t].0),
                out@[out@.len() - 1].hi is None <==> i == n,
                i < n ==> opt_is(out@[out@.len() - 1].hi, self.knots@[i as int].0),
                forall|l: int| 0 <= l <= d ==> equiv(qv(#[trigger] poly@[l]), piece_coef(ks, i as int, l)),
                forall|t: int, l: int|
                    0 <= t < out@.len() && 0 <= l <= d ==> equiv(qv(#[trigger] out@[t].poly@[l]), piece_coef(ks, t, l)),
            decreases n - i,
        {
            let (k, coef) = (&self.knots[i].0, &self.knots[i].1);
            proof {
                assert(k.wf() && all_q_wf(coef@) && coef@.len() == d + 1);
            }
            let ghost c = qvs(coef@);
            let ghost kk = qv(*k);
            proof {
                assert forall|j: int| 0 <= j < c.len() implies (#[trigger] c[j]).1 > 0 by {
                    assert(coef@[j].wf());
                }
                assert forall|l: int| 0 <= l <= d implies equiv(qv(#[trigger] poly@[l]), padd(piece_coef(ks, i as int, l), knot_coef(c, kk, l, 0))) by {
                    let x = piece_coef(ks, i as int, l);
                    assert(padd(x, (0int, 1int)) == x) by (nonlinear_arith);
                }
            }
            // add Σ_j c_j (λ − k)^j = Σ_j c_j Σ_l C(j,l) λ^l (−k)^{j−l}
            let negk = k.neg();
            let mut j: usize = 0;
            while j < coef.len()
                invariant
                    self.wf(),
                    ks == self.knots@,
                    i < n,
                    n == ks.len(),
                    k.wf(),
                    d <= u32::MAX,
                    all_q_wf(coef@),
                    coef@.len() == d + 1,
                    c == qvs(coef@),
                    kk == qv(*k),
                    forall|t: int| 0 <= t < c.len() ==> (#[trigger] c[t]).1 > 0,
                    d < usize::MAX,
                    negk.wf(),
                    qv(negk) == (-kk.0, kk.1),
                    j <= coef@.len(),
                    poly@.len() == d + 1,
                    all_q_wf(poly@),
                    forall|l: int|
                        0 <= l <= d ==> equiv(qv(#[trigger] poly@[l]), padd(piece_coef(ks, i as int, l), knot_coef(c, kk, l, j as int))),
                decreases coef@.len() - j,
            {
                let cj = &coef[j];
                proof {
                    assert(cj.wf());
                    assert(c[j as int] == qv(*cj));
                }
                if !cj.is_zero() {
                    let mut l: usize = 0;
                    while l <= j
                        invariant
                            self.wf(),
                            ks == self.knots@,
                            i < n,
                            n == ks.len(),
                            k.wf(),
                            d <= u32::MAX,
                            j < coef@.len(),
                            coef@.len() == d + 1,
                            c == qvs(coef@),
                            kk == qv(*k),
                            forall|t: int| 0 <= t < c.len() ==> (#[trigger] c[t]).1 > 0,
                            c[j as int] == qv(*cj),
                            d < usize::MAX,
                            cj.wf(),
                            negk.wf(),
                            qv(negk) == (-kk.0, kk.1),
                            l <= j + 1,
                            poly@.len() == d + 1,
                            all_q_wf(poly@),
                            forall|l2: int|
                                0 <= l2 < l ==> equiv(
                                    qv(#[trigger] poly@[l2]),
                                    padd(piece_coef(ks, i as int, l2), knot_coef(c, kk, l2, j + 1)),
                                ),
                            forall|l2: int|
                                l <= l2 <= d ==> equiv(
                                    qv(#[trigger] poly@[l2]),
                                    padd(piece_coef(ks, i as int, l2), knot_coef(c, kk, l2, j as int)),
                                ),
                        decreases j + 1 - l,
                    {
                        let b = Q::from_z(binomial(j, l));
                        let cb = cj.mul(&b);
                        let pw = negk.pow((j - l) as u32);
                        let term = cb.mul(&pw);
                        proof {
                            assert(l <= d);
                            assert(poly@[l as int].wf());
                            lemma_expansion_term(c, kk, j as int, l as int, qv(*cj), qv(b), qv(cb), qv(pw), qv(term), (j - l) as nat);
                            let x = piece_coef(ks, i as int, l as int);
                            let y = knot_coef(c, kk, l as int, j as int);
                            lemma_coef_dens(ks, i as int, l as int);
                            lemma_knot_coef_den(c, kk, l as int, j as int);
                            lemma_term_den(c, kk, j as int, l as int);
                        }
                        let v = poly[l].add(&term);
                        proof {
                            let x = piece_coef(ks, i as int, l as int);
                            let y = knot_coef(c, kk, l as int, j as int);
                            let tc = term_coef(c, kk, j as int, l as int);
                            lemma_step_equiv(qv(v), qv(poly@[l as int]), qv(term), x, y, tc);
                        }
                        poly.set(l, v);
                        l = l + 1;
                    }
                    proof {
                        assert forall|l2: int| 0 <= l2 <= d implies equiv(
                            qv(#[trigger] poly@[l2]),
                            padd(piece_coef(ks, i as int, l2), knot_coef(c, kk, l2, j + 1)),
                        ) by {
                            if l2 > j {
                                let y = knot_coef(c, kk, l2, j as int);
                                assert(term_coef(c, kk, j as int, l2) == (0int, 1int));
                                assert(padd(y, (0int, 1int)) == y) by (nonlinear_arith);
                            }
                        }
                    }
                } else {
                    proof {
                        assert forall|l2: int| 0 <= l2 <= d implies equiv(
                            qv(#[trigger] poly@[l2]),
                            padd(piece_coef(ks, i as int, l2), knot_coef(c, kk, l2, j + 1)),
                        ) by {
                            let x = piece_coef(ks, i as int, l2);
                            let y = knot_coef(c, kk, l2, j as int);
                            let tc = term_coef(c, kk, j as int, l2);
                            lemma_coef_dens(ks, i as int, l2);
                            lemma_knot_coef_den(c, kk, l2, j as int);
                            lemma_zero_term(c, kk, j as int, l2);
                            lemma_term_den(c, kk, j as int, l2);
                            assert(poly@[l2].wf());
                            lemma_skip_zero_term(qv(poly@[l2]), x, y, tc);
                        }
                    }
                }
                j = j + 1;
            }
            let hi = if i + 1 < n {
                Some(self.knots[i + 1].0.clone())
            } else {
                None
            };
            let ghost prev = out@;
            let pc = clone_qs(poly.as_slice());
            proof {
                assert forall|l: int| 0 <= l <= d implies equiv(qv(#[trigger] pc@[l]), piece_coef(ks, i + 1, l)) by {
                    assert(qv(pc@[l]) == qv(poly@[l]));
                    assert(piece_coef(ks, i + 1, l) == padd(piece_coef(ks, i as int, l), knot_coef(c, kk, l, coef@.len() as int)));
                }
            }
            out.push(Piece { lo: Some(k.clone()), hi, poly: pc });
            proof {
                assert forall|t: int| 0 <= t < out@.len() implies (#[trigger] out@[t]).poly@.len() == d + 1 && all_q_wf(out@[t].poly@) by {
                    if t < prev.len() {
                        assert(out@[t] == prev[t]);
                    }
                }
                assert forall|t: int| 1 <= t < out@.len() implies opt_is((#[trigger] out@[t]).lo, self.knots@[t - 1].0) by {
                    if t < prev.len() {
                        assert(out@[t] == prev[t]);
                    }
                }
                assert forall|t: int| 0 <= t < out@.len() - 1 implies opt_is((#[trigger] out@[t]).hi, self.knots@[t].0) by {
                    assert(out@[t] == prev[t]);
                }
                assert(out@[0] == prev[0]);
                assert forall|t: int, l: int|
                    0 <= t < out@.len() && 0 <= l <= d implies equiv(qv(#[trigger] out@[t].poly@[l]), piece_coef(ks, t, l)) by {
                    if t < prev.len() {
                        assert(out@[t] == prev[t]);
                    }
                }
                assert forall|l: int| 0 <= l <= d implies equiv(qv(#[trigger] poly@[l]), piece_coef(ks, i + 1, l)) by {
                    assert(qv(pc@[l]) == qv(poly@[l]));
                }
            }
            i = i + 1;
        }
        out
    }

    /// Total volume `s(+∞)`; also verifies the tail is constant.
    pub fn total(&self) -> (r: Result<Q, String>)
        requires
            self.wf(),
            self.d < usize::MAX,
            self.d <= u32::MAX,
        ensures
            r matches Ok(q) ==> q.wf() && equiv(qv(q), piece_coef(self.knots@, self.knots@.len() as int, 0)),
            r is Err <==> exists|l: int|
                1 <= l <= self.d && (#[trigger] piece_coef(self.knots@, self.knots@.len() as int, l)).0 != 0,
            r matches Err(s) ==> exists|l: int, c: Q|
                1 <= l <= self.d && c.wf() && #[trigger] equiv(qv(c), piece_coef(self.knots@, self.knots@.len() as int, l))
                    && (forall|l2: int| 1 <= l2 < l ==> (#[trigger] piece_coef(self.knots@, self.knots@.len() as int, l2)).0 == 0)
                    && s@ == tail_message(l, crate::num::q_repr(c.num@, c.den@)),
    {
        let pieces = self.pieces();
        let last = &pieces[pieces.len() - 1];
        let ghost n = self.knots@.len() as int;
        proof {
            assert(pieces@.len() == n + 1 && *last == pieces@[n]);
            assert forall|l: int| 0 <= l <= self.d implies ((#[trigger] last.poly@[l]).num@ == 0 <==> piece_coef(
                self.knots@,
                n,
                l,
            ).0 == 0) by {
                lemma_coef_dens(self.knots@, n, l);
                assert(equiv(qv(pieces@[n].poly@[l]), piece_coef(self.knots@, n, l)));
                lemma_zero_equiv(qv(last.poly@[l]), piece_coef(self.knots@, n, l));
            }
            assert forall|l: int| 0 <= l <= self.d implies equiv(qv(#[trigger] last.poly@[l]), piece_coef(self.knots@, n, l)) by {
                assert(equiv(qv(pieces@[n].poly@[l]), piece_coef(self.knots@, n, l)));
            }
        }
        let mut i: usize = 1;
        while i < last.poly.len()
            invariant
                1 <= i <= last.poly@.len(),
                n == self.knots@.len(),
                last.poly@.len() == self.d + 1,
                all_q_wf(last.poly@),
                forall|l: int| 0 <= l <= self.d ==> ((#[trigger] last.poly@[l]).num@ == 0 <==> piece_coef(
                    self.knots@,
                    n,
                    l,
                ).0 == 0),
                forall|l: int| 1 <= l < i ==> (#[trigger] piece_coef(self.knots@, n, l)).0 == 0,
                forall|l: int| 0 <= l <= self.d ==> equiv(qv(#[trigger] last.poly@[l]), piece_coef(self.knots@, n, l)),
            decreases last.poly@.len() - i,
        {
            if !last.poly[i].is_zero() {
                proof {
                    assert(piece_coef(self.knots@, n, i as int).0 != 0);
                    assert(equiv(qv(last.poly@[i as int]), piece_coef(self.knots@, n, i as int)));
                }
                let c = last.poly[i].to_string();
                let m = msg_tail(i, c);
                proof {
                    assert(last.poly@[i as int].wf());
                    assert(m@ == tail_message(i as int, crate::num::q_repr(last.poly@[i as int].num@, last.poly@[i as int].den@)));
                }
                return Err(m);
            }
            i = i + 1;
        }
        proof {
            assert(equiv(qv(pieces@[n].poly@[0]), piece_coef(self.knots@, n, 0)));
        }
        Ok(last.poly[0].clone())
    }
}

/// A positive-denominator pair equal to another is zero exactly when the
/// other is.
proof fn lemma_zero_equiv(x: (int, int), y: (int, int))
    requires
        x.1 > 0,
        y.1 > 0,
        equiv(x, y),
    ensures
        x.0 == 0 <==> y.0 == 0,
{
    assert(x.0 == 0 <==> y.0 == 0) by (nonlinear_arith)
        requires
            x.0 * y.1 == y.0 * x.1,
            x.1 > 0,
            y.1 > 0,
    ;
}

/// Message for a non-constant tail.
/// Trusted: std `format!`, which writes the literal pieces, the index in
/// decimal (`usize`'s `Display`) and the coefficient text between them.
#[verifier::external_body]
fn msg_tail(i: usize, c: String) -> (r: String)
    ensures
        r@ == tail_message(i as int, c@),
{
    format!("internal error: sweep function is not constant above the last knot (λ^{i} coefficient {c})")
}

/// The text reporting a non-zero `λ^i` coefficient `c` above the last knot.
pub open spec fn tail_message(i: int, c: Seq<char>) -> Seq<char> {
    "internal error: sweep function is not constant above the last knot (λ^"@ + crate::text::int_repr(i)
        + " coefficient "@ + c + ")"@
}

#[derive(Debug, Clone)]
struct Entry {
    top: Q,
    laurent: Option<Vec<Q>>,
}

/// Accumulated coefficients per knot, knots ascending.
#[derive(Debug, Clone)]
pub struct Accumulator {
    pub d: usize,
    entries: Vec<(Q, Entry)>,
}

/// `o` → `n` adds `t` to the top coefficient at knot `k` (creating the
/// knot in order if it was absent) and leaves every other knot alone.
pub open spec fn adds_top(o: Seq<((int, int), (int, int))>, n: Seq<((int, int), (int, int))>, k: (int, int), t: (int, int)) -> bool {
    &&& (exists|i: int| 0 <= i < o.len() && (#[trigger] o[i]).0 == k) ==> {
        &&& n.len() == o.len()
        &&& forall|j: int|
            0 <= j < n.len() ==> (#[trigger] n[j]).0 == o[j].0 && (o[j].0 != k ==> n[j].1 == o[j].1) && (o[j].0 == k
                ==> equiv(n[j].1, padd(o[j].1, t)))
    }
    &&& (forall|i: int| 0 <= i < o.len() ==> (#[trigger] o[i]).0 != k) ==> exists|p: int|
        0 <= p <= o.len() && n.len() == o.len() + 1 && (#[trigger] n[p]).0 == k && equiv(n[p].1, t) && n.remove(p) == o
}

impl Accumulator {
    /// `(knot, top coefficient)` per knot, ascending.
    pub closed spec fn tops(&self) -> Seq<((int, int), (int, int))> {
        self.entries@.map_values(|e: (Q, Entry)| (qv(e.0), qv(e.1.top)))
    }

    /// A well-formed accumulator holds each knot once, each coefficient
    /// with a positive denominator.
    pub proof fn lemma_tops_valid(&self)
        requires
            self.wf(),
        ensures
            crate::laws::distinct_keys(self.tops()),
            crate::laws::pos_dens(self.tops()),
    {
        let t = self.tops();
        assert forall|i: int, j: int| 0 <= i < j < t.len() implies (#[trigger] t[i]).0 != (#[trigger] t[j]).0 by {
            assert(plt(qv(self.entries@[i].0), qv(self.entries@[j].0)));
            assert(self.entries@[i].0.wf() && self.entries@[j].0.wf());
        }
        assert forall|i: int| 0 <= i < t.len() implies (#[trigger] t[i]).1.1 > 0 by {
            assert(self.entries@[i].1.top.wf());
        }
    }

    /// The dimension the coefficients are for.
    pub closed spec fn dim(&self) -> nat {
        self.d as nat
    }

    pub closed spec fn wf(&self) -> bool {
        &&& forall|i: int|
            0 <= i < self.entries@.len() ==> {
                let e = #[trigger] self.entries@[i];
                &&& e.0.wf()
                &&& e.1.top.wf()
                &&& e.1.laurent matches Some(l) ==> l@.len() == (self.d + 1) * (self.d + 1) && all_q_wf(l@)
            }
        &&& forall|i: int, j: int|
            0 <= i < j < self.entries@.len() ==> plt(qv(#[trigger] self.entries@[i].0), qv(#[trigger] self.entries@[j].0))
    }

    pub fn new(d: usize) -> (r: Accumulator)
        ensures
            r.wf(),
            r.dim() == d,
            r.tops().len() == 0,
    {
        Accumulator { d, entries: Vec::new() }
    }

    /// Number of knots.
    pub fn len(&self) -> (r: usize)
        ensures
            r == self.tops().len(),
    {
        self.entries.len()
    }

    pub fn is_empty(&self) -> (r: bool)
        ensures
            r == (self.tops().len() == 0),
    {
        self.entries.len() == 0
    }

    /// Adds the vertex contribution at `knot`.
    pub fn add(&mut self, knot: Q, c: &VertexContribution)
        requires
            old(self).wf(),
            knot.wf(),
            c.wf(),
            c.d == old(self).dim(),
        ensures
            final(self).wf(),
            final(self).dim() == old(self).dim(),
            c.vanishes() ==> final(self).tops() == old(self).tops(),
            !c.vanishes() ==> adds_top(old(self).tops(), final(self).tops(), qv(knot), qv(c.top)),
    {
        if c.is_zero() {
            return;
        }
        let ghost o = self.tops();
        let ghost es = self.entries@;
        let n = self.entries.len();
        // first entry whose knot is not below `knot`
        let mut p: usize = 0;
        loop
            invariant
                self.wf(),
                knot.wf(),
                es == self.entries@,
                n == es.len(),
                p <= n,
                forall|t: int| 0 <= t < p ==> plt(qv((#[trigger] es[t]).0), qv(knot)),
            ensures
                p <= n,
                forall|t: int| 0 <= t < p ==> plt(qv((#[trigger] es[t]).0), qv(knot)),
                p < n ==> !plt(qv(es[p as int].0), qv(knot)),
            decreases n - p,
        {
            if p >= n {
                break;
            }
            proof {
                assert(es[p as int].0.wf());
            }
            if !self.entries[p].0.lt(&knot) {
                break;
            }
            p = p + 1;
        }
        let mut found = false;
        if p < n {
            proof {
                assert(es[p as int].0.wf());
            }
            found = self.entries[p].0.eq_q(&knot);
        }
        proof {
            assert forall|t: int| 0 <= t < o.len() implies (#[trigger] o[t]) == (qv(es[t].0), qv(es[t].1.top)) by {}
        }
        if found {
            let (k0, e0) = self.entries.remove(p);
            let mut e = e0;
            let ghost top0 = qv(e.top);
            proof {
                assert(es[p as int].1.top.wf());
            }
            if !c.top.is_zero() {
                e.top = e.top.add(&c.top);
            } else {
                proof {
                    assert(equiv(qv(e.top), padd(top0, qv(c.top)))) by (nonlinear_arith)
                        requires
                            c.top.num@ == 0,
                            qv(e.top) == top0,
                    ;
                }
            }
            if let Some(l) = &c.laurent {
                let mut el = match e.laurent.take() {
                    Some(v) => v,
                    None => zero_qs(l.len()),
                };
                add_into(&mut el, l.as_slice());
                e.laurent = Some(el);
            }
            self.entries.insert(p, (k0, e));
            proof {
                assert(self.entries@ =~= es.update(p as int, self.entries@[p as int]));
                assert(o[p as int].0 == qv(knot));
                assert forall|j: int| 0 <= j < self.tops().len() implies (#[trigger] self.tops()[j]).0 == o[j].0 && (o[j].0
                    != qv(knot) ==> self.tops()[j].1 == o[j].1) && (o[j].0 == qv(knot) ==> equiv(
                    self.tops()[j].1,
                    padd(o[j].1, qv(c.top)),
                )) by {
                    if j != p {
                        lemma_distinct_knots(es, j, p as int);
                    }
                }
                assert forall|i: int, j: int|
                    0 <= i < j < self.entries@.len() implies plt(qv(#[trigger] self.entries@[i].0), qv(#[trigger] self.entries@[j].0)) by {
                    assert(plt(qv(es[i].0), qv(es[j].0)));
                }
                assert(adds_top(o, self.tops(), qv(knot), qv(c.top)));
            }
        } else {
            let mut top = Q::zero();
            if !c.top.is_zero() {
                top = top.add(&c.top);
                proof {
                    assert(equiv(qv(top), qv(c.top))) by (nonlinear_arith)
                        requires
                            top.num@ * (1 * c.top.den@) == (0 * c.top.den@ + c.top.num@ * 1) * top.den@,
                    ;
                }
            } else {
                proof {
                    assert(equiv(qv(top), qv(c.top))) by (nonlinear_arith)
                        requires
                            top.num@ == 0,
                            c.top.num@ == 0,
                    ;
                }
            }
            let laurent = match &c.laurent {
                Some(l) => Some(clone_qs(l.as_slice())),
                None => None,
            };
            self.entries.insert(p, (knot, Entry { top, laurent }));
            proof {
                // the new knot lies strictly between its neighbours
                if p < n {
                    assert(es[p as int].0.wf());
                    assert(!equiv(qv(es[p as int].0), qv(knot)));
                    lemma_plt_total(qv(es[p as int].0), qv(knot));
                }
                assert forall|t: int| 0 <= t < o.len() implies (#[trigger] o[t]).0 != qv(knot) by {
                    assert(es[t].0.wf());
                    if t < p {
                        lemma_plt_irreflexive(qv(knot));
                    } else {
                        if t > p {
                            assert(plt(qv(es[p as int].0), qv(es[t].0)));
                            lemma_plt_trans(qv(knot), qv(es[p as int].0), qv(es[t].0));
                        }
                        lemma_plt_irreflexive(qv(knot));
                    }
                }
                assert(self.tops().remove(p as int) =~= o);
                assert(self.tops()[p as int].0 == qv(knot));
                assert(equiv(self.tops()[p as int].1, qv(c.top)));
                assert(adds_top(o, self.tops(), qv(knot), qv(c.top)));
                assert forall|i: int, j: int|
                    0 <= i < j < self.entries@.len() implies plt(qv(#[trigger] self.entries@[i].0), qv(#[trigger] self.entries@[j].0)) by {
                    assert(self.entries@[i].0.wf() && self.entries@[j].0.wf());
                    if j < p {
                        assert(plt(qv(es[i].0), qv(es[j].0)));
                    } else if j == p {
                    } else if i < p {
                        assert(plt(qv(es[i].0), qv(knot)));
                        assert(es[p as int].0.wf());
                        if j - 1 > p {
                            assert(plt(qv(es[p as int].0), qv(es[j - 1].0)));
                            lemma_plt_trans(qv(knot), qv(es[p as int].0), qv(es[j - 1].0));
                        }
                        lemma_plt_trans(qv(es[i].0), qv(knot), qv(es[j - 1].0));
                    } else if i == p {
                        if j - 1 > p {
                            assert(plt(qv(es[p as int].0), qv(es[j - 1].0)));
                            lemma_plt_trans(qv(knot), qv(es[p as int].0), qv(es[j - 1].0));
                        }
                    } else {
                        assert(plt(qv(es[i - 1].0), qv(es[j - 1].0)));
                    }
                }
            }
        }
    }
}

/// Sorted knots are distinct.
proof fn lemma_distinct_knots(es: Seq<(Q, Entry)>, i: int, j: int)
    requires
        0 <= i < es.len(),
        0 <= j < es.len(),
        i != j,
        forall|a: int, b: int| 0 <= a < b < es.len() ==> plt(qv(#[trigger] es[a].0), qv(#[trigger] es[b].0)),
    ensures
        qv(es[i].0) != qv(es[j].0),
{
    if i < j {
        assert(plt(qv(es[i].0), qv(es[j].0)));
        lemma_plt_irreflexive(qv(es[i].0));
    } else {
        assert(plt(qv(es[j].0), qv(es[i].0)));
        lemma_plt_irreflexive(qv(es[j].0));
    }
}

proof fn lemma_plt_irreflexive(a: (int, int))
    ensures
        !plt(a, a),
{
}

/// Two rationals are ordered one way, the other, or equal.
proof fn lemma_plt_total(a: (int, int), b: (int, int))
    requires
        !plt(a, b),
        !equiv(a, b),
    ensures
        plt(b, a),
{
}

pub proof fn lemma_plt_trans(a: (int, int), b: (int, int), c: (int, int))
    requires
        a.1 > 0,
        b.1 > 0,
        c.1 > 0,
        plt(a, b),
        plt(b, c),
    ensures
        plt(a, c),
{
    assert(plt(a, c)) by (nonlinear_arith)
        requires
            a.0 * b.1 < b.0 * a.1,
            b.0 * c.1 < c.0 * b.1,
            a.1 > 0,
            b.1 > 0,
            c.1 > 0,
    ;
}

/// `x_i += y_i` entrywise (zero terms skipped).
fn add_into(x: &mut Vec<Q>, y: &[Q])
    requires
        old(x)@.len() == y@.len(),
        all_q_wf(old(x)@),
        all_q_wf(y@),
    ensures
        final(x)@.len() == y@.len(),
        all_q_wf(final(x)@),
        forall|i: int| 0 <= i < y@.len() ==> equiv(qv(#[trigger] final(x)@[i]), padd(qv(old(x)@[i]), qv(y@[i]))),
{
    let ghost x0 = x@;
    let mut i: usize = 0;
    while i < y.len()
        invariant
            x@.len() == y@.len(),
            x0.len() == y@.len(),
            all_q_wf(x@),
            all_q_wf(x0),
            all_q_wf(y@),
            i <= y@.len(),
            forall|t: int| 0 <= t < i ==> equiv(qv(#[trigger] x@[t]), padd(qv(x0[t]), qv(y@[t]))),
            forall|t: int| i <= t < y@.len() ==> #[trigger] x@[t] == x0[t],
        decreases y@.len() - i,
    {
        if !y[i].is_zero() {
            let v = x[i].add(&y[i]);
            x.set(i, v);
        } else {
            proof {
                let (a, b) = qv(x0[i as int]);
                let (c0, c1) = qv(y@[i as int]);
                assert(equiv((a, b), padd((a, b), (c0, c1)))) by (nonlinear_arith)
                    requires
                        c0 == 0,
                ;
            }
        }
        i = i + 1;
    }
}

/// The coefficient of `ε^{-m} (λ − κ)^j` of the entry is non-zero.
spec fn pole_at(e: Entry, d: nat, m: int, j: int) -> bool {
    e.laurent matches Some(l) && l@[m * (d + 1) + j].num@ != 0
}

impl Accumulator {
    /// Some negative Laurent order survives at some knot.
    pub closed spec fn has_pole(&self) -> bool {
        exists|t: int, m: int, j: int|
            0 <= t < self.entries@.len() && 1 <= m <= self.d && 0 <= j <= self.d && #[trigger] pole_at(self.entries@[t].1, self.d as nat, m, j)
    }

    /// The sweep-function knot `k` comes from knot `t`: same knot, and its
    /// coefficients are the regular part of the accumulated terms there.
    pub closed spec fn knot_from(&self, k: (Q, Vec<Q>), t: int) -> bool {
        &&& 0 <= t < self.tops().len()
        &&& qv(k.0) == self.tops()[t].0
        &&& forall|j: int| 0 <= j <= self.dim() ==> equiv(qv(#[trigger] k.1@[j]), self.coef_at(t, j))
    }

    /// `k` comes from one of the accumulated knots.
    pub closed spec fn comes_from(&self, k: (Q, Vec<Q>)) -> bool {
        exists|t: int| #[trigger] self.knot_from(k, t)
    }

    /// Every knot with a non-zero coefficient is among `knots`.
    pub closed spec fn keeps_survivors(&self, knots: Seq<(Q, Vec<Q>)>) -> bool {
        forall|t: int|
            0 <= t < self.tops().len() && #[trigger] self.survives(t) ==> exists|i: int|
                0 <= i < knots.len() && #[trigger] self.knot_from(knots[i], t)
    }

    /// Some coefficient at knot `t` is non-zero once the poles cancel.
    pub closed spec fn survives(&self, t: int) -> bool {
        exists|j: int| 0 <= j <= self.dim() && #[trigger] self.coef_at(t, j).0 != 0
    }

    /// Coefficient of `(λ − κ_t)^j` at knot `t` once the poles cancel.
    pub closed spec fn coef_at(&self, t: int, j: int) -> (int, int) {
        let e = self.entries@[t].1;
        let base: (int, int) = if j == self.d {
            qv(e.top)
        } else {
            (0, 1)
        };
        match e.laurent {
            Some(l) => padd(base, qv(l@[j])),
            None => base,
        }
    }

    /// Adds every knot of `other`.
    #[verifier::spinoff_prover]
    pub fn merge(&mut self, other: Accumulator)
        requires
            old(self).wf(),
            other.wf(),
            other.dim() == old(self).dim(),
        ensures
            final(self).wf(),
            final(self).dim() == old(self).dim(),
            forall|q: (int, int)|
                equiv(
                    #[trigger] crate::laws::top_at(final(self).tops(), q),
                    padd(crate::laws::top_at(old(self).tops(), q), crate::laws::top_at(other.tops(), q)),
                ),
    {
        let ghost ot = other.tops();
        let ghost st = self.tops();
        proof {
            other.lemma_tops_valid();
            self.lemma_tops_valid();
            assert forall|q: (int, int)|
                equiv(
                    #[trigger] crate::laws::top_at(self.tops(), q),
                    padd(crate::laws::top_at(st, q), crate::laws::top_at(ot.take(0), q)),
                ) by {
                assert(ot.take(0).len() == 0);
                assert(crate::laws::top_at(ot.take(0), q) == (0int, 1int));
                crate::laws::lemma_top_at_den(st, q);
                let x = crate::laws::top_at(st, q);
                assert(padd(x, (0int, 1int)) == x) by (nonlinear_arith);
            }
        }
        let mut i: usize = 0;
        while i < other.entries.len()
            invariant
                self.wf(),
                other.wf(),
                other.dim() == self.dim(),
                i <= other.entries@.len(),
                self.dim() == old(self).dim(),
                ot == other.tops(),
                st == old(self).tops(),
                crate::laws::distinct_keys(ot),
                crate::laws::pos_dens(ot),
                crate::laws::pos_dens(st),
                forall|q: (int, int)|
                    equiv(
                        #[trigger] crate::laws::top_at(self.tops(), q),
                        padd(crate::laws::top_at(st, q), crate::laws::top_at(ot.take(i as int), q)),
                    ),
            decreases other.entries@.len() - i,
        {
            let (k, e) = (&other.entries[i].0, &other.entries[i].1);
            proof {
                assert(k.wf() && e.top.wf());
            }
            let laurent = match &e.laurent {
                Some(l) => Some(clone_qs(l.as_slice())),
                None => None,
            };
            let c = VertexContribution { d: self.d, top: e.top.clone(), laurent };
            let kc = k.clone();
            let ghost before = self.tops();
            proof {
                self.lemma_tops_valid();
            }
            self.add(kc, &c);
            proof {
                self.lemma_tops_valid();
                assert(ot[i as int] == (qv(*k), qv(e.top)));
                let ki = qv(*k);
                let ti = qv(e.top);
                assert forall|q: (int, int)|
                    equiv(
                        #[trigger] crate::laws::top_at(self.tops(), q),
                        padd(crate::laws::top_at(st, q), crate::laws::top_at(ot.take(i + 1), q)),
                    ) by {
                    crate::laws::lemma_top_at_prefix(ot, i as int, q);
                    crate::laws::lemma_top_at_den(st, q);
                    crate::laws::lemma_top_at_den(before, q);
                    crate::laws::lemma_top_at_den(self.tops(), q);
                    let x = crate::laws::top_at(st, q);
                    let pre = crate::laws::top_at(ot.take(i as int), q);
                    crate::laws::lemma_pos_dens_take(ot, i as int);
                    crate::laws::lemma_top_at_den(ot.take(i as int), q);
                    let cur = crate::laws::top_at(before, q);
                    let now = crate::laws::top_at(self.tops(), q);
                    assert(equiv(cur, padd(x, pre)));
                    if c.vanishes() {
                        assert(now == cur);
                        if q == ki {
                            // adding a zero top changes nothing
                            assert(ti.0 == 0);
                            assert(equiv(padd(pre, ti), pre)) by (nonlinear_arith)
                                requires
                                    ti.0 == 0,
                            ;
                            assert(padd(pre, ti).1 > 0 && padd(x, pre).1 > 0) by (nonlinear_arith)
                                requires
                                    pre.1 > 0,
                                    ti.1 > 0,
                                    x.1 > 0,
                            ;
                            lemma_cong(x, x, padd(pre, ti), pre);
                            crate::laws::lemma_padd_assoc(x, pre, ti);
                            crate::laws::lemma_equiv_sym(padd(x, padd(pre, ti)), padd(x, pre));
                            lemma_equiv_trans(now, padd(x, pre), padd(x, padd(pre, ti)));
                        }
                    } else {
                        crate::laws::lemma_adds_top_at(before, self.tops(), ki, ti, q);
                        if q == ki {
                            assert(equiv(now, padd(cur, ti)));
                            assert(padd(x, pre).1 > 0) by (nonlinear_arith)
                                requires
                                    pre.1 > 0,
                                    x.1 > 0,
                            ;
                            lemma_cong(cur, padd(x, pre), ti, ti);
                            crate::laws::lemma_padd_assoc(x, pre, ti);
                            assert(padd(cur, ti).1 > 0) by (nonlinear_arith)
                                requires
                                    cur.1 > 0,
                                    ti.1 > 0,
                            ;
                            lemma_equiv_trans(now, padd(cur, ti), padd(x, padd(pre, ti)));
                        }
                    }
                }
            }
            i = i + 1;
        }
        proof {
            assert(ot.take(other.entries@.len() as int) =~= ot);
        }
    }

    /// Collapse into a sweep function; errors if the Laurent poles did not
    /// cancel (which would indicate a bug, not bad input).
    pub fn finish(self) -> (r: Result<SweepFunction, String>)
        requires
            self.wf(),
            (self.dim() + 1) * (self.dim() + 1) <= usize::MAX,
        ensures
            r is Err <==> self.has_pole(),
            r matches Ok(f) ==> {
                &&& f.wf()
                &&& f.d == self.dim()
                &&& forall|i: int| 0 <= i < f.knots@.len() ==> #[trigger] self.comes_from(f.knots@[i])
            },
            r matches Ok(f) ==> self.keeps_survivors(f.knots@),
            r matches Ok(f) ==> forall|i: int| 0 <= i < f.knots@.len() ==> #[trigger] nonzero_knot(f.knots@[i]),
    {
        let d = self.d;
        proof {
            assert(d + 1 <= usize::MAX) by (nonlinear_arith)
                requires
                    (d + 1) * (d + 1) <= usize::MAX,
            ;
        }
        let w = d + 1;
        let ghost es = self.entries@;
        let mut knots: Vec<(Q, Vec<Q>)> = Vec::new();
        let ghost mut src: Seq<int> = Seq::empty();
        let mut t: usize = 0;
        while t < self.entries.len()
            invariant
                self.wf(),
                es == self.entries@,
                d == self.d,
                w == d + 1,
                w * w <= usize::MAX,
                t <= es.len(),
                forall|a: int, m: int, j: int|
                    0 <= a < t && 1 <= m <= d && 0 <= j <= d ==> !#[trigger] pole_at(es[a].1, d as nat, m, j),
                src.len() == knots@.len(),
                forall|i: int| 0 <= i < knots@.len() ==> 0 <= #[trigger] src[i] < t,
                forall|a: int, b: int| 0 <= a < b < knots@.len() ==> #[trigger] src[a] < #[trigger] src[b],
                forall|a: int| 0 <= a < t && #[trigger] self.survives(a) ==> exists|i: int| 0 <= i < knots@.len() && src[i] == a,
                forall|i: int| 0 <= i < knots@.len() ==> #[trigger] nonzero_knot(knots@[i]),
                forall|i: int| 0 <= i < knots@.len() ==> {
                    &&& (#[trigger] knots@[i]).0.wf()
                    &&& all_q_wf(knots@[i].1@)
                    &&& knots@[i].1@.len() == d + 1
                    &&& qv(knots@[i].0) == qv(es[src[i]].0)
                    &&& forall|j: int| 0 <= j <= d ==> equiv(qv(#[trigger] knots@[i].1@[j]), self.coef_at(src[i], j))
                },
            decreases es.len() - t,
        {
            let (k, e) = (&self.entries[t].0, &self.entries[t].1);
            proof {
                assert(k.wf() && e.top.wf());
            }
            let mut coef = zero_qs(w);
            coef.set(d, e.top.clone());
            proof {
                assert forall|j: int| 0 <= j <= d implies equiv(qv(#[trigger] coef@[j]), (if j == d { qv(e.top) } else { (0int, 1int) })) by {
                    if j != d {
                        let (x, y) = qv(coef@[j]);
                        assert(x == 0);
                    }
                }
            }
            if let Some(l) = &e.laurent {
                let mut m: usize = 1;
                while m <= d
                    invariant
                        all_q_wf(l@),
                        l@.len() == w * w,
                        w == d + 1,
                        w * w <= usize::MAX,
                        es == self.entries@,
                        d == self.d,
                        t < es.len(),
                        es[t as int].1.laurent == Some(*l),
                        k.wf(),
                        1 <= m <= d + 1,
                        forall|m2: int, j: int| 1 <= m2 < m && 0 <= j <= d ==> (#[trigger] l@[m2 * w + j]).num@ == 0,
                    decreases d + 1 - m,
                {
                    let mut j: usize = 0;
                    while j <= d
                        invariant
                            all_q_wf(l@),
                            l@.len() == w * w,
                            w == d + 1,
                            w * w <= usize::MAX,
                            es == self.entries@,
                            d == self.d,
                            t < es.len(),
                            es[t as int].1.laurent == Some(*l),
                            k.wf(),
                            1 <= m <= d,
                            j <= d + 1,
                            forall|m2: int, j2: int| 1 <= m2 < m && 0 <= j2 <= d ==> (#[trigger] l@[m2 * w + j2]).num@ == 0,
                            forall|j2: int| 0 <= j2 < j ==> (#[trigger] l@[m * w + j2]).num@ == 0,
                        decreases d + 1 - j,
                    {
                        proof {
                            crate::linalg::lemma_cell(m as int, j as int, w as int, w as int);
                        }
                        if !l[m * w + j].is_zero() {
                            proof {
                                assert(pole_at(es[t as int].1, d as nat, m as int, j as int));
                                assert(self.has_pole());
                            }
                            return Err(msg_pole(m, k.to_string(), j, l[m * w + j].to_string()));
                        }
                        j = j + 1;
                    }
                    m = m + 1;
                }
                proof {
                    assert forall|m2: int, j2: int| 1 <= m2 <= d && 0 <= j2 <= d implies !#[trigger] pole_at(es[t as int].1, d as nat, m2, j2) by {
                        assert(l@[m2 * w + j2].num@ == 0);
                    }
                }
                let mut j: usize = 0;
                while j <= d
                    invariant
                        all_q_wf(l@),
                        l@.len() == w * w,
                        w == d + 1,
                        w * w <= usize::MAX,
                        j <= d + 1,
                        coef@.len() == w,
                        all_q_wf(coef@),
                        e.top.wf(),
                        forall|j2: int| 0 <= j2 < j ==> equiv(qv(#[trigger] coef@[j2]), padd((if j2 == d { qv(e.top) } else { (0int, 1int) }), qv(l@[j2]))),
                        forall|j2: int| j <= j2 <= d ==> equiv(qv(#[trigger] coef@[j2]), (if j2 == d { qv(e.top) } else { (0int, 1int) })),
                    decreases d + 1 - j,
                {
                    proof {
                        crate::linalg::lemma_cell(0, j as int, w as int, w as int);
                    }
                    let ghost c0 = qv(coef@[j as int]);
                    let v = coef[j].add(&l[j]);
                    coef.set(j, v);
                    proof {
                        let base: (int, int) = if j == d { qv(e.top) } else { (0int, 1int) };
                        assert(l@[j as int].wf());
                        lemma_cong(c0, base, qv(l@[j as int]), qv(l@[j as int]));
                        lemma_equiv_trans(qv(v), padd(c0, qv(l@[j as int])), padd(base, qv(l@[j as int])));
                    }
                    j = j + 1;
                }
            }
            proof {
                assert forall|j: int| 0 <= j <= d implies equiv(qv(#[trigger] coef@[j]), self.coef_at(t as int, j)) by {}
            }
            // keep the knot only if some coefficient survives
            let mut any = false;
            let mut j: usize = 0;
            while j < coef.len()
                invariant
                    j <= coef@.len(),
                    all_q_wf(coef@),
                    !any ==> forall|j2: int| 0 <= j2 < j ==> (#[trigger] coef@[j2]).num@ == 0,
                    any ==> exists|j2: int| 0 <= j2 < j && (#[trigger] coef@[j2]).num@ != 0,
                decreases coef@.len() - j,
            {
                if !coef[j].is_zero() {
                    any = true;
                }
                j = j + 1;
            }
            if any {
                let ghost kn = knots@;
                let ghost cf = coef@;
                knots.push((k.clone(), coef));
                proof {
                    assert(nonzero_knot(knots@[kn.len() as int])) by {
                        let j2 = choose|j2: int| 0 <= j2 < cf.len() && (#[trigger] cf[j2]).num@ != 0;
                        assert(knots@[kn.len() as int].1@[j2].num@ != 0);
                    }
                    assert forall|i: int| 0 <= i < knots@.len() implies #[trigger] nonzero_knot(knots@[i]) by {
                        if i < kn.len() {
                            assert(knots@[i] == kn[i]);
                        }
                    }
                    let src0 = src;
                    src = src.push(t as int);
                    assert forall|a: int| 0 <= a < t + 1 && #[trigger] self.survives(a) implies exists|i: int|
                        0 <= i < knots@.len() && src[i] == a by {
                        if a == t {
                            assert(src[knots@.len() - 1] == a);
                        } else {
                            let i = choose|i: int| 0 <= i < kn.len() && src0[i] == a;
                            assert(src[i] == a);
                        }
                    }
                    assert forall|i: int| 0 <= i < knots@.len() implies {
                        &&& (#[trigger] knots@[i]).0.wf()
                        &&& all_q_wf(knots@[i].1@)
                        &&& knots@[i].1@.len() == d + 1
                        &&& qv(knots@[i].0) == qv(es[src[i]].0)
                        &&& forall|j: int| 0 <= j <= d ==> equiv(qv(#[trigger] knots@[i].1@[j]), self.coef_at(src[i], j))
                    } by {
                        if i < kn.len() {
                            assert(knots@[i] == kn[i]);
                        }
                    }
                }
            } else {
                proof {
                    assert forall|j2: int| 0 <= j2 <= self.dim() implies #[trigger] self.coef_at(t as int, j2).0 == 0 by {
                        let x = self.coef_at(t as int, j2);
                        assert(coef@[j2].num@ == 0);
                        assert(equiv(qv(coef@[j2]), x));
                        let (cn, cd) = (coef@[j2].num@, coef@[j2].den@);
                        assert(x.0 == 0) by (nonlinear_arith)
                            requires
                                cn == 0,
                                cd > 0,
                                cn * x.1 == x.0 * cd,
                        ;
                    }
                    assert(!self.survives(t as int));
                }
            }
            t = t + 1;
        }
        proof {
            assert(self.tops().len() == es.len());
            assert forall|t2: int| 0 <= t2 < self.tops().len() && #[trigger] self.survives(t2) implies exists|i: int|
                0 <= i < knots@.len() && self.knot_from(knots@[i], t2) by {
                let i = choose|i: int| 0 <= i < knots@.len() && src[i] == t2;
                assert(self.tops()[t2].0 == qv(es[t2].0));
                assert(self.knot_from(knots@[i], t2));
            }
            if self.has_pole() {
                let (a, m, j) = choose|a: int, m: int, j: int|
                    0 <= a < es.len() && 1 <= m <= d && 0 <= j <= d && #[trigger] pole_at(es[a].1, d as nat, m, j);
                assert(!pole_at(es[a].1, d as nat, m, j));
            }
            assert forall|a: int, b: int| 0 <= a < b < knots@.len() implies plt(qv(#[trigger] knots@[a].0), qv(#[trigger] knots@[b].0)) by {
                assert(src[a] < src[b]);
                assert(plt(qv(es[src[a]].0), qv(es[src[b]].0)));
            }
            assert forall|i: int| 0 <= i < knots@.len() implies #[trigger] self.comes_from(knots@[i]) by {
                let t2 = src[i];
                assert(self.tops()[t2].0 == qv(es[t2].0));
                assert(self.knot_from(knots@[i], t2));
            }
        }
        proof {
            assert(self.keeps_survivors(knots@));
        }
        Ok(SweepFunction { d, knots })
    }
}

/// Message for a pole that did not cancel.
/// Trusted: std `format!`, which writes the literal pieces, the numbers in
/// decimal (`usize`'s `Display`) and the two texts between them.
#[verifier::external_body]
fn msg_pole(m: usize, k: String, j: usize, c: String) -> (r: String)
    ensures
        r@ == "internal error: pole ε^-"@ + crate::text::int_repr(m as int) + " at knot "@ + k@ + " did not cancel (coefficient of (λ-κ)^"@
            + crate::text::int_repr(j as int) + " is "@ + c@ + ")"@,
{
    format!("internal error: pole ε^-{m} at knot {k} did not cancel (coefficient of (λ-κ)^{j} is {c})")
}

} // verus!
