//! Properties of the sweep function that relate several operations:
//! reparametrisation by a positive scale, and the zero head below the
//! first knot.
use crate::geom::all_q_wf;
use crate::geom::Hyperplane;
use crate::num::{gcd_seq, lex_sign_of, zvals, Q};
use crate::sweep::Accumulator;
use crate::sweep::{adds_top, equiv, lemma_cong, lemma_equiv_trans, padd, plt, pmul, poly_sum, ppow, psub, qv, qvs, rescaled, sweep_sum};
use vstd::prelude::*;

verus! {

/// Knots whose values and coefficients are all normalised rationals.
pub open spec fn knots_wf(k: Seq<(Q, Vec<Q>)>) -> bool {
    forall|i: int| 0 <= i < k.len() ==> (#[trigger] k[i]).0.wf() && all_q_wf(k[i].1@)
}

/// Below every knot the sweep function vanishes: if `λ ≤ κ_i` for every
/// knot, the sum of the knot polynomials at `λ` is zero.
pub proof fn lemma_zero_below_knots(knots: Seq<(Q, Vec<Q>)>, lam: (int, int))
    requires
        forall|i: int| 0 <= i < knots.len() ==> !plt(qv(#[trigger] knots[i].0), lam),
    ensures
        sweep_sum(knots, lam, knots.len() as int) == (0int, 1int),
{
    lemma_zero_below_prefix(knots, lam, knots.len() as int);
}

proof fn lemma_zero_below_prefix(knots: Seq<(Q, Vec<Q>)>, lam: (int, int), n: int)
    requires
        0 <= n <= knots.len(),
        forall|i: int| 0 <= i < knots.len() ==> !plt(qv(#[trigger] knots[i].0), lam),
    ensures
        sweep_sum(knots, lam, n) == (0int, 1int),
    decreases n,
{
    if n > 0 {
        lemma_zero_below_prefix(knots, lam, n - 1);
        assert(!plt(qv(knots[n - 1].0), lam));
    }
}

/// Reparametrisation law: if every knot of `new` is the knot of `old`
/// reparametrised by the positive scale `s` (knot `κ/s`, coefficient of
/// `(λ−κ)^j` times `s^j`), then the new function at `λ` equals the old
/// function at `s·λ`.
pub proof fn lemma_rescale_law(old: Seq<(Q, Vec<Q>)>, new: Seq<(Q, Vec<Q>)>, s: (int, int), lam: (int, int))
    requires
        knots_wf(old),
        knots_wf(new),
        old.len() == new.len(),
        forall|i: int| 0 <= i < old.len() ==> rescaled(#[trigger] old[i], new[i], s),
        s.0 > 0,
        s.1 > 0,
        lam.1 > 0,
    ensures
        equiv(sweep_sum(new, lam, new.len() as int), sweep_sum(old, pmul(s, lam), old.len() as int)),
{
    lemma_rescale_prefix(old, new, s, lam, old.len() as int);
}

proof fn lemma_rescale_prefix(old: Seq<(Q, Vec<Q>)>, new: Seq<(Q, Vec<Q>)>, s: (int, int), lam: (int, int), n: int)
    requires
        knots_wf(old),
        knots_wf(new),
        old.len() == new.len(),
        forall|i: int| 0 <= i < old.len() ==> rescaled(#[trigger] old[i], new[i], s),
        s.0 > 0,
        s.1 > 0,
        lam.1 > 0,
        0 <= n <= old.len(),
    ensures
        equiv(sweep_sum(new, lam, n), sweep_sum(old, pmul(s, lam), n)),
        sweep_sum(new, lam, n).1 > 0,
        sweep_sum(old, pmul(s, lam), n).1 > 0,
    decreases n,
{
    let sl = pmul(s, lam);
    assert(sl.1 > 0) by (nonlinear_arith)
        requires
            s.1 > 0,
            lam.1 > 0,
            sl == pmul(s, lam),
    ;
    if n > 0 {
        lemma_rescale_prefix(old, new, s, lam, n - 1);
        let po = sweep_sum(old, sl, n - 1);
        let pn = sweep_sum(new, lam, n - 1);
        let ko = old[n - 1];
        let kn = new[n - 1];
        assert(rescaled(ko, kn, s));
        assert(ko.0.wf() && kn.0.wf());
        let k = qv(ko.0);
        let k2 = qv(kn.0);
        let ks = (k.0 * s.1, k.1 * s.0);
        assert(ks.1 > 0) by (nonlinear_arith)
            requires
                k.1 > 0,
                s.0 > 0,
                ks == (k.0 * s.1, k.1 * s.0),
        ;
        // the knot comparisons agree
        assert(plt(ks, lam) <==> plt(k, sl)) by (nonlinear_arith)
            requires
                ks == (k.0 * s.1, k.1 * s.0),
                sl == (s.0 * lam.0, s.1 * lam.1),
        ;
        lemma_cong(k2, ks, lam, lam);
        if plt(k, sl) {
            let co = qvs(ko.1@);
            let cn = qvs(kn.1@);
            let t = psub(sl, k);
            let t2 = psub(lam, k2);
            lemma_poly_rescaled(ko, kn, s, lam);
            assert(t.1 > 0 && t2.1 > 0) by (nonlinear_arith)
                requires
                    sl.1 > 0,
                    k.1 > 0,
                    lam.1 > 0,
                    k2.1 > 0,
                    t == (sl.0 * k.1 - k.0 * sl.1, sl.1 * k.1),
                    t2 == (lam.0 * k2.1 - k2.0 * lam.1, lam.1 * k2.1),
            ;
            assert forall|j: int| 0 <= j < co.len() implies (#[trigger] co[j]).1 > 0 by {
                assert(ko.1@[j].wf());
            }
            assert forall|j: int| 0 <= j < cn.len() implies (#[trigger] cn[j]).1 > 0 by {
                assert(kn.1@[j].wf());
            }
            lemma_poly_sum_den(co, t, co.len());
            lemma_poly_sum_den(cn, t2, cn.len());
            lemma_cong(pn, po, poly_sum(cn, t2, cn.len()), poly_sum(co, t, co.len()));
            let (u, v) = (po.1, poly_sum(co, t, co.len()).1);
            assert(u * v > 0) by (nonlinear_arith)
                requires
                    u > 0,
                    v > 0,
            ;
        }
    }
}

/// The knot polynomial after reparametrisation, at `λ`, equals the old
/// knot polynomial at `s·λ`.
proof fn lemma_poly_rescaled(ko: (Q, Vec<Q>), kn: (Q, Vec<Q>), s: (int, int), lam: (int, int))
    requires
        ko.0.wf(),
        kn.0.wf(),
        all_q_wf(ko.1@),
        all_q_wf(kn.1@),
        rescaled(ko, kn, s),
        s.0 > 0,
        s.1 > 0,
        lam.1 > 0,
    ensures
        equiv(
            poly_sum(qvs(kn.1@), psub(lam, qv(kn.0)), kn.1@.len()),
            poly_sum(qvs(ko.1@), psub(pmul(s, lam), qv(ko.0)), ko.1@.len()),
        ),
{
    let k = qv(ko.0);
    let k2 = qv(kn.0);
    let ks = (k.0 * s.1, k.1 * s.0);
    let sl = pmul(s, lam);
    let t = psub(sl, k);
    let t2 = psub(lam, k2);
    let t3 = psub(lam, ks);
    assert(ks.1 > 0 && sl.1 > 0 && t.1 > 0 && t3.1 > 0) by (nonlinear_arith)
        requires
            k.1 > 0,
            s.0 > 0,
            s.1 > 0,
            lam.1 > 0,
            ks == (k.0 * s.1, k.1 * s.0),
            sl == (s.0 * lam.0, s.1 * lam.1),
            t == (sl.0 * k.1 - k.0 * sl.1, sl.1 * k.1),
            t3 == (lam.0 * ks.1 - ks.0 * lam.1, lam.1 * ks.1),
    ;
    lemma_cong(lam, lam, k2, ks);
    assert(t2.1 > 0) by (nonlinear_arith)
        requires
            lam.1 > 0,
            k2.1 > 0,
            t2 == (lam.0 * k2.1 - k2.0 * lam.1, lam.1 * k2.1),
    ;
    // s·(λ − κ/s) = sλ − κ
    let x = s.0 * lam.0 * k.1 - k.0 * s.1 * lam.1;
    assert(t.0 == x && t.1 == s.1 * lam.1 * k.1) by (nonlinear_arith)
        requires
            sl == (s.0 * lam.0, s.1 * lam.1),
            t == (sl.0 * k.1 - k.0 * sl.1, sl.1 * k.1),
            x == s.0 * lam.0 * k.1 - k.0 * s.1 * lam.1,
    ;
    assert(pmul(s, t3).0 == s.0 * x) by (nonlinear_arith)
        requires
            ks == (k.0 * s.1, k.1 * s.0),
            t3 == (lam.0 * ks.1 - ks.0 * lam.1, lam.1 * ks.1),
            x == s.0 * lam.0 * k.1 - k.0 * s.1 * lam.1,
    ;
    assert(pmul(s, t3).1 == s.0 * t.1) by (nonlinear_arith)
        requires
            ks == (k.0 * s.1, k.1 * s.0),
            t3 == (lam.0 * ks.1 - ks.0 * lam.1, lam.1 * ks.1),
            t.1 == s.1 * lam.1 * k.1,
    ;
    assert(equiv(pmul(s, t3), t)) by (nonlinear_arith)
        requires
            pmul(s, t3).0 == s.0 * x,
            pmul(s, t3).1 == s.0 * t.1,
            t.0 == x,
    ;
    lemma_cong(s, s, t2, t3);
    assert(pmul(s, t3).1 > 0) by (nonlinear_arith)
        requires
            s.1 > 0,
            t3.1 > 0,
    ;
    assert(pmul(s, t2).1 > 0) by (nonlinear_arith)
        requires
            s.1 > 0,
            t2.1 > 0,
    ;
    lemma_equiv_trans(pmul(s, t2), pmul(s, t3), t);
    let co = qvs(ko.1@);
    let cn = qvs(kn.1@);
    assert forall|j: int| 0 <= j < co.len() implies (#[trigger] co[j]).1 > 0 by {
        assert(ko.1@[j].wf());
    }
    assert forall|j: int| 0 <= j < cn.len() implies (#[trigger] cn[j]).1 > 0 by {
        assert(kn.1@[j].wf());
    }
    assert forall|j: int| 0 <= j < cn.len() implies equiv(
        pmul(#[trigger] cn[j], ppow(t2, j as nat)),
        pmul(co[j], ppow(t, j as nat)),
    ) by {
        assert(equiv(qv(kn.1@[j]), pmul(qv(ko.1@[j]), ppow(s, j as nat))));
        lemma_term_rescaled(co[j], cn[j], s, t2, t, j as nat);
    }
    lemma_poly_termwise(cn, t2, co, t, cn.len());
}

/// One term: `c'·t'^j ≡ c·t^j` when `c' ≡ c·s^j` and `s·t' ≡ t`.
proof fn lemma_term_rescaled(c: (int, int), c2: (int, int), s: (int, int), t2: (int, int), t: (int, int), j: nat)
    requires
        c.1 > 0,
        c2.1 > 0,
        s.1 > 0,
        t.1 > 0,
        t2.1 > 0,
        equiv(c2, pmul(c, ppow(s, j))),
        equiv(pmul(s, t2), t),
    ensures
        equiv(pmul(c2, ppow(t2, j)), pmul(c, ppow(t, j))),
{
    lemma_pow_den(s, j);
    lemma_pow_den(t, j);
    lemma_pow_den(t2, j);
    lemma_pow_mul(s, t2, j);
    assert(pmul(s, t2).1 > 0) by (nonlinear_arith)
        requires
            s.1 > 0,
            t2.1 > 0,
    ;
    lemma_pow_den(pmul(s, t2), j);
    lemma_pow_cong(pmul(s, t2), t, j);
    // c2·t2^j ≡ (c·s^j)·t2^j = c·(s^j·t2^j) = c·(s·t2)^j ≡ c·t^j
    let sj = ppow(s, j);
    let tj = ppow(t2, j);
    assert(pmul(c, sj).1 > 0) by (nonlinear_arith)
        requires
            c.1 > 0,
            sj.1 > 0,
    ;
    lemma_cong(c2, pmul(c, sj), tj, tj);
    assert(pmul(pmul(c, sj), tj) == pmul(c, pmul(sj, tj))) by (nonlinear_arith);
    assert(pmul(sj, tj) == ppow(pmul(s, t2), j));
    lemma_cong(c, c, ppow(pmul(s, t2), j), ppow(t, j));
    assert(pmul(c, pmul(sj, tj)).1 > 0) by (nonlinear_arith)
        requires
            c.1 > 0,
            sj.1 > 0,
            tj.1 > 0,
    ;
    lemma_equiv_trans(pmul(c2, tj), pmul(c, pmul(sj, tj)), pmul(c, ppow(t, j)));
}

/// Powers keep a positive denominator.
proof fn lemma_pow_den(t: (int, int), j: nat)
    requires
        t.1 > 0,
    ensures
        ppow(t, j).1 > 0,
    decreases j,
{
    if j > 0 {
        lemma_pow_den(t, (j - 1) as nat);
        let p = ppow(t, (j - 1) as nat).1;
        assert(p * t.1 > 0) by (nonlinear_arith)
            requires
                p > 0,
                t.1 > 0,
        ;
    }
}

/// `(a·b)^j = a^j·b^j` on pairs.
proof fn lemma_pow_mul(a: (int, int), b: (int, int), j: nat)
    ensures
        ppow(pmul(a, b), j) == pmul(ppow(a, j), ppow(b, j)),
    decreases j,
{
    if j > 0 {
        let jm = (j - 1) as nat;
        lemma_pow_mul(a, b, jm);
        let (pa, pb) = (ppow(a, jm), ppow(b, jm));
        assert((pa.0 * pb.0) * (a.0 * b.0) == (pa.0 * a.0) * (pb.0 * b.0)) by (nonlinear_arith);
        assert((pa.1 * pb.1) * (a.1 * b.1) == (pa.1 * a.1) * (pb.1 * b.1)) by (nonlinear_arith);
    }
}

/// Powers of equivalent pairs are equivalent.
proof fn lemma_pow_cong(a: (int, int), b: (int, int), j: nat)
    requires
        a.1 > 0,
        b.1 > 0,
        equiv(a, b),
    ensures
        equiv(ppow(a, j), ppow(b, j)),
    decreases j,
{
    lemma_pow_den(a, j);
    lemma_pow_den(b, j);
    if j > 0 {
        let jm = (j - 1) as nat;
        lemma_pow_cong(a, b, jm);
        lemma_pow_den(a, jm);
        lemma_pow_den(b, jm);
        lemma_cong(ppow(a, jm), ppow(b, jm), a, b);
    }
}

/// Positive denominators of partial polynomial sums.
proof fn lemma_poly_sum_den(c: Seq<(int, int)>, t: (int, int), j: nat)
    requires
        t.1 > 0,
        forall|i: int| 0 <= i < c.len() ==> (#[trigger] c[i]).1 > 0,
        j <= c.len(),
    ensures
        poly_sum(c, t, j).1 > 0,
    decreases j,
{
    if j > 0 {
        let jm = (j - 1) as nat;
        lemma_poly_sum_den(c, t, jm);
        lemma_pow_den(t, jm);
        let (p, a, b) = (poly_sum(c, t, jm).1, c[j - 1].1, ppow(t, jm).1);
        assert(p * (a * b) > 0) by (nonlinear_arith)
            requires
                p > 0,
                a > 0,
                b > 0,
        ;
    }
}

/// Polynomial sums with equivalent terms are equivalent.
proof fn lemma_poly_termwise(c: Seq<(int, int)>, t: (int, int), c2: Seq<(int, int)>, t2: (int, int), j: nat)
    requires
        t.1 > 0,
        t2.1 > 0,
        c.len() == c2.len(),
        j <= c.len(),
        forall|i: int| 0 <= i < c.len() ==> (#[trigger] c[i]).1 > 0,
        forall|i: int| 0 <= i < c2.len() ==> (#[trigger] c2[i]).1 > 0,
        forall|i: int| 0 <= i < c.len() ==> equiv(pmul(#[trigger] c[i], ppow(t, i as nat)), pmul(c2[i], ppow(t2, i as nat))),
    ensures
        equiv(poly_sum(c, t, j), poly_sum(c2, t2, j)),
    decreases j,
{
    lemma_poly_sum_den(c, t, j);
    lemma_poly_sum_den(c2, t2, j);
    if j > 0 {
        let jm = (j - 1) as nat;
        lemma_poly_termwise(c, t, c2, t2, jm);
        lemma_poly_sum_den(c, t, jm);
        lemma_poly_sum_den(c2, t2, jm);
        lemma_pow_den(t, jm);
        lemma_pow_den(t2, jm);
        let x = pmul(c[j - 1], ppow(t, jm));
        let y = pmul(c2[j - 1], ppow(t2, jm));
        assert(equiv(x, y));
        assert(x.1 > 0 && y.1 > 0) by (nonlinear_arith)
            requires
                c[j - 1].1 > 0,
                ppow(t, jm).1 > 0,
                c2[j - 1].1 > 0,
                ppow(t2, jm).1 > 0,
                x == pmul(c[j - 1], ppow(t, jm)),
                y == pmul(c2[j - 1], ppow(t2, jm)),
        ;
        lemma_cong(poly_sum(c, t, jm), poly_sum(c2, t2, jm), x, y);
    }
}

/// Canonical hyperplanes are unique: two canonical forms (primitive,
/// lexicographically positive) of the same hyperplane, one a non-zero
/// multiple of the other (`e·(n₁, b₁) = c·(n₂, b₂)`), are identical.
pub proof fn lemma_canonical_unique(h1: Hyperplane, h2: Hyperplane, c: int, e: int)
    requires
        h1.canonical(),
        h2.canonical(),
        h1.n@.len() == h2.n@.len(),
        c != 0,
        e != 0,
        e * h1.b@ == c * h2.b@,
        forall|i: int| 0 <= i < h1.n@.len() ==> #[trigger] (e * h1.n@[i]@) == c * h2.n@[i]@,
    ensures
        zvals(h1.n@) == zvals(h2.n@),
        h1.b@ == h2.b@,
{
    let u = zvals(h1.n@).push(h1.b@);
    let v = zvals(h2.n@).push(h2.b@);
    assert forall|i: int| 0 <= i < u.len() implies #[trigger] (e * u[i]) == c * v[i] by {
        if i < h1.n@.len() {
            assert(u[i] == h1.n@[i]@ && v[i] == h2.n@[i]@);
        }
    }
    // the common multiple w = e·n₁ = c·n₂ has lexicographic sign sign(e) = sign(c)
    let n1 = zvals(h1.n@);
    let n2 = zvals(h2.n@);
    let w = Seq::new(n1.len(), |i: int| e * n1[i]);
    assert forall|i: int| 0 <= i < n1.len() implies #[trigger] n1[i] * e == w[i] by {
        assert(n1[i] * e == e * n1[i]) by (nonlinear_arith);
    }
    assert forall|i: int| 0 <= i < n2.len() implies #[trigger] n2[i] * c == w[i] by {
        assert(e * h1.n@[i]@ == c * h2.n@[i]@);
        assert(n2[i] * c == c * n2[i]) by (nonlinear_arith);
    }
    crate::num::lemma_lex_sign_scaled(n1, w, e);
    crate::num::lemma_lex_sign_scaled(n2, w, c);
    assert((c > 0) == (e > 0));
    lemma_primitive_proportional(u, v, c, e);
    assert forall|i: int| 0 <= i < n1.len() implies n1[i] == n2[i] by {
        assert(u[i] == n1[i] && v[i] == n2[i]);
    }
    assert(n1 =~= n2);
    assert(u[n1.len() as int] == h1.b@);
}

/// Primitive integer vectors that are multiples of each other by factors
/// of one sign are equal.
proof fn lemma_primitive_proportional(u: Seq<int>, v: Seq<int>, c: int, e: int)
    requires
        u.len() == v.len(),
        gcd_seq(u) == 1,
        gcd_seq(v) == 1,
        c != 0,
        e != 0,
        (c > 0) == (e > 0),
        forall|i: int| 0 <= i < u.len() ==> #[trigger] (e * u[i]) == c * v[i],
    ensures
        forall|i: int| 0 <= i < u.len() ==> #[trigger] u[i] == v[i],
{
    let ca = crate::arith::abs(c);
    let ea = crate::arith::abs(e);
    crate::arith::lemma_coprime_after_div(ca, ea);
    let g = crate::arith::gcd(ca, ea) as int;
    crate::arith::lemma_gcd_divides(ca, ea);
    crate::arith::lemma_div_of_multiple(ca as int, g);
    crate::arith::lemma_div_of_multiple(ea as int, g);
    let c2 = (ca / (g as nat)) as int;
    let e2 = (ea / (g as nat)) as int;
    assert(c2 > 0 && e2 > 0) by (nonlinear_arith)
        requires
            ca as int == g * c2,
            ea as int == g * e2,
            ca > 0,
            ea > 0,
            g > 0,
            c2 >= 0,
            e2 >= 0,
    ;
    assert forall|i: int| 0 <= i < u.len() implies #[trigger] (e2 * u[i]) == c2 * v[i] by {
        assert(e * u[i] == c * v[i]);
        assert(ea * u[i] == ca * v[i]) by (nonlinear_arith)
            requires
                e * u[i] == c * v[i],
                (c > 0) == (e > 0),
                c != 0,
                e != 0,
                ca == (if c < 0 { -c } else { c }),
                ea == (if e < 0 { -e } else { e }),
        ;
        assert(e2 * u[i] == c2 * v[i]) by (nonlinear_arith)
            requires
                ea * u[i] == ca * v[i],
                ca as int == g * c2,
                ea as int == g * e2,
                g > 0,
        ;
    }
    lemma_coprime_factor_one(u, v, c2, e2);
    assert forall|i: int| 0 <= i < v.len() implies #[trigger] (c2 * v[i]) == e2 * u[i] by {
        assert(e2 * u[i] == c2 * v[i]);
    }
    crate::arith::lemma_coprime_sym(c2 as nat, e2 as nat);
    lemma_coprime_factor_one(v, u, e2, c2);
    assert forall|i: int| 0 <= i < u.len() implies #[trigger] u[i] == v[i] by {
        assert(e2 * u[i] == c2 * v[i]);
    }
}

/// With `e·u = c·v` for coprime positive `c, e` and `v` primitive, `e = 1`.
proof fn lemma_coprime_factor_one(u: Seq<int>, v: Seq<int>, c: int, e: int)
    requires
        u.len() == v.len(),
        gcd_seq(v) == 1,
        c > 0,
        e > 0,
        crate::arith::gcd(c as nat, e as nat) == 1,
        forall|i: int| 0 <= i < u.len() ==> #[trigger] (e * u[i]) == c * v[i],
    ensures
        e == 1,
{
    crate::arith::lemma_bezout(c as nat, e as nat);
    let (x, y) = crate::arith::bezout(c as nat, e as nat);
    assert(c * x + e * y == 1);
    assert forall|i: int| 0 <= i < v.len() implies crate::arith::divides(e, #[trigger] v[i]) by {
        assert(e * u[i] == c * v[i]);
        assert(v[i] == e * (u[i] * x + v[i] * y)) by (nonlinear_arith)
            requires
                e * u[i] == c * v[i],
                c * x + e * y == 1,
        ;
        assert(v[i] == crate::arith::times(e, u[i] * x + v[i] * y));
    }
    assert(crate::arith::divides(e, 0)) by {
        assert(0 == crate::arith::times(e, 0));
    }
    crate::arith::lemma_gcd_fold_greatest(0, v, e);
    crate::arith::lemma_divisor_le(e, 1);
}

/// Knot keys occur at most once.
pub open spec fn distinct_keys(s: Seq<((int, int), (int, int))>) -> bool {
    forall|i: int, j: int| 0 <= i < j < s.len() ==> (#[trigger] s[i]).0 != (#[trigger] s[j]).0
}

/// Coefficients have positive denominators.
pub open spec fn pos_dens(s: Seq<((int, int), (int, int))>) -> bool {
    forall|i: int| 0 <= i < s.len() ==> (#[trigger] s[i]).1.1 > 0
}

/// The coefficient held at knot `q`, or zero if `q` is not a knot.
pub open spec fn top_at(s: Seq<((int, int), (int, int))>, q: (int, int)) -> (int, int) {
    if exists|i: int| 0 <= i < s.len() && (#[trigger] s[i]).0 == q {
        s[choose|i: int| 0 <= i < s.len() && (#[trigger] s[i]).0 == q].1
    } else {
        (0, 1)
    }
}

/// The coefficient at `q` read through a known position of `q`.
pub proof fn lemma_top_at_index(s: Seq<((int, int), (int, int))>, q: (int, int), i: int)
    requires
        distinct_keys(s),
        0 <= i < s.len(),
        s[i].0 == q,
    ensures
        top_at(s, q) == s[i].1,
{
    let j = choose|j: int| 0 <= j < s.len() && (#[trigger] s[j]).0 == q;
    if j != i {
        if j < i {
            assert(s[j].0 != s[i].0);
        } else {
            assert(s[i].0 != s[j].0);
        }
    }
}

/// One accumulation step, knot by knot: the coefficient at `k` grows by
/// `t`, every other knot keeps its coefficient.
pub proof fn lemma_adds_top_at(o: Seq<((int, int), (int, int))>, n: Seq<((int, int), (int, int))>, k: (int, int), t: (int, int), q: (int, int))
    requires
        distinct_keys(o),
        distinct_keys(n),
        pos_dens(o),
        pos_dens(n),
        t.1 > 0,
        adds_top(o, n, k, t),
    ensures
        q == k ==> equiv(top_at(n, q), padd(top_at(o, q), t)),
        q != k ==> top_at(n, q) == top_at(o, q),
{
    if exists|i: int| 0 <= i < o.len() && (#[trigger] o[i]).0 == k {
        // same knots, same positions
        if exists|i: int| 0 <= i < o.len() && (#[trigger] o[i]).0 == q {
            let i = choose|i: int| 0 <= i < o.len() && (#[trigger] o[i]).0 == q;
            lemma_top_at_index(o, q, i);
            assert(n[i].0 == o[i].0);
            lemma_top_at_index(n, q, i);
        } else {
            assert forall|j: int| 0 <= j < n.len() implies (#[trigger] n[j]).0 != q by {
                assert(n[j].0 == o[j].0);
            }
        }
    } else {
        let p = choose|p: int|
            0 <= p <= o.len() && n.len() == o.len() + 1 && (#[trigger] n[p]).0 == k && equiv(n[p].1, t) && n.remove(p) == o;
        assert(n.remove(p) == o);
        if q == k {
            lemma_top_at_index(n, q, p);
            assert(!(exists|i: int| 0 <= i < o.len() && (#[trigger] o[i]).0 == q));
            assert(top_at(o, q) == (0int, 1int));
            assert(padd((0int, 1int), t) == (t.0, t.1)) by (nonlinear_arith);
        } else if exists|i: int| 0 <= i < o.len() && (#[trigger] o[i]).0 == q {
            let i = choose|i: int| 0 <= i < o.len() && (#[trigger] o[i]).0 == q;
            lemma_top_at_index(o, q, i);
            let j = if i < p {
                i
            } else {
                i + 1
            };
            assert(n.remove(p)[i] == n[j]);
            lemma_top_at_index(n, q, j);
        } else {
            assert forall|j: int| 0 <= j < n.len() implies (#[trigger] n[j]).0 != q by {
                if j < p {
                    assert(n.remove(p)[j] == n[j]);
                } else if j > p {
                    assert(n.remove(p)[j - 1] == n[j]);
                }
            }
        }
    }
}

/// The order of accumulation does not matter: adding `t₁` at `k₁` then
/// `t₂` at `k₂`, or the other way round, leaves equal coefficients at
/// every knot.
pub proof fn lemma_add_order_irrelevant(
    a: Seq<((int, int), (int, int))>,
    a1: Seq<((int, int), (int, int))>,
    a12: Seq<((int, int), (int, int))>,
    a2: Seq<((int, int), (int, int))>,
    a21: Seq<((int, int), (int, int))>,
    k1: (int, int),
    t1: (int, int),
    k2: (int, int),
    t2: (int, int),
    q: (int, int),
)
    requires
        distinct_keys(a) && distinct_keys(a1) && distinct_keys(a12) && distinct_keys(a2) && distinct_keys(a21),
        pos_dens(a) && pos_dens(a1) && pos_dens(a12) && pos_dens(a2) && pos_dens(a21),
        t1.1 > 0,
        t2.1 > 0,
        adds_top(a, a1, k1, t1),
        adds_top(a1, a12, k2, t2),
        adds_top(a, a2, k2, t2),
        adds_top(a2, a21, k1, t1),
    ensures
        equiv(top_at(a12, q), top_at(a21, q)),
{
    lemma_adds_top_at(a, a1, k1, t1, q);
    lemma_adds_top_at(a1, a12, k2, t2, q);
    lemma_adds_top_at(a, a2, k2, t2, q);
    lemma_adds_top_at(a2, a21, k1, t1, q);
    lemma_top_at_den(a, q);
    lemma_top_at_den(a1, q);
    lemma_top_at_den(a2, q);
    lemma_top_at_den(a12, q);
    lemma_top_at_den(a21, q);
    let x = top_at(a, q);
    if q == k1 && q == k2 {
        // both orders add t₁ and t₂
        let y1 = top_at(a1, q);
        let y2 = top_at(a2, q);
        assert(padd(x, t1).1 > 0 && padd(x, t2).1 > 0) by (nonlinear_arith)
            requires
                x.1 > 0,
                t1.1 > 0,
                t2.1 > 0,
        ;
        lemma_cong(y1, padd(x, t1), t2, t2);
        lemma_cong(y2, padd(x, t2), t1, t1);
        lemma_equiv_trans(top_at(a12, q), padd(y1, t2), padd(padd(x, t1), t2));
        lemma_equiv_trans(top_at(a21, q), padd(y2, t1), padd(padd(x, t2), t1));
        lemma_padd_swap(x, t1, t2);
        assert(padd(padd(x, t2), t1).1 > 0) by (nonlinear_arith)
            requires
                x.1 > 0,
                t1.1 > 0,
                t2.1 > 0,
        ;
        lemma_equiv_sym(top_at(a21, q), padd(padd(x, t2), t1));
        lemma_equiv_trans(top_at(a12, q), padd(padd(x, t1), t2), top_at(a21, q));
    } else if q == k1 {
        lemma_equiv_trans(top_at(a12, q), top_at(a1, q), padd(x, t1));
        lemma_equiv_sym(top_at(a21, q), padd(x, t1));
        assert(padd(x, t1).1 > 0) by (nonlinear_arith)
            requires
                x.1 > 0,
                t1.1 > 0,
        ;
        lemma_equiv_trans(top_at(a12, q), padd(x, t1), top_at(a21, q));
    } else if q == k2 {
        lemma_equiv_sym(top_at(a21, q), top_at(a2, q));
        assert(padd(x, t2).1 > 0) by (nonlinear_arith)
            requires
                x.1 > 0,
                t2.1 > 0,
        ;
        lemma_equiv_sym(top_at(a2, q), padd(x, t2));
        lemma_equiv_trans(top_at(a12, q), padd(x, t2), top_at(a2, q));
    } else {
        assert(equiv(x, x));
    }
}

/// Accumulating two vertex contributions in either order gives the same
/// coefficient at every knot.
pub proof fn lemma_accumulation_order(
    a: Accumulator,
    a1: Accumulator,
    a12: Accumulator,
    a2: Accumulator,
    a21: Accumulator,
    k1: (int, int),
    t1: (int, int),
    k2: (int, int),
    t2: (int, int),
    q: (int, int),
)
    requires
        a.wf() && a1.wf() && a12.wf() && a2.wf() && a21.wf(),
        t1.1 > 0,
        t2.1 > 0,
        adds_top(a.tops(), a1.tops(), k1, t1),
        adds_top(a1.tops(), a12.tops(), k2, t2),
        adds_top(a.tops(), a2.tops(), k2, t2),
        adds_top(a2.tops(), a21.tops(), k1, t1),
    ensures
        equiv(top_at(a12.tops(), q), top_at(a21.tops(), q)),
{
    a.lemma_tops_valid();
    a1.lemma_tops_valid();
    a12.lemma_tops_valid();
    a2.lemma_tops_valid();
    a21.lemma_tops_valid();
    lemma_add_order_irrelevant(a.tops(), a1.tops(), a12.tops(), a2.tops(), a21.tops(), k1, t1, k2, t2, q);
}

/// `(x + a) + b = (x + b) + a` on pairs, exactly.
proof fn lemma_padd_swap(x: (int, int), a: (int, int), b: (int, int))
    ensures
        padd(padd(x, a), b) == padd(padd(x, b), a),
{
    let (x0, x1, a0, a1, b0, b1) = (x.0, x.1, a.0, a.1, b.0, b.1);
    assert((x0 * a1 + a0 * x1) * b1 == x0 * a1 * b1 + a0 * x1 * b1) by (nonlinear_arith);
    assert((x0 * b1 + b0 * x1) * a1 == x0 * b1 * a1 + b0 * x1 * a1) by (nonlinear_arith);
    assert(x0 * a1 * b1 == x0 * b1 * a1) by (nonlinear_arith);
    assert(a0 * x1 * b1 == a0 * (x1 * b1)) by (nonlinear_arith);
    assert(b0 * (x1 * a1) == b0 * x1 * a1) by (nonlinear_arith);
    assert((x1 * a1) * b1 == (x1 * b1) * a1) by (nonlinear_arith);
}

/// `(a + b) + c = a + (b + c)` on pairs, exactly.
pub proof fn lemma_padd_assoc(a: (int, int), b: (int, int), c: (int, int))
    ensures
        padd(padd(a, b), c) == padd(a, padd(b, c)),
{
    let (a0, a1, b0, b1, c0, c1) = (a.0, a.1, b.0, b.1, c.0, c.1);
    assert((a0 * b1 + b0 * a1) * c1 == a0 * b1 * c1 + b0 * a1 * c1) by (nonlinear_arith);
    assert(a0 * (b1 * c1) + (b0 * c1 + c0 * b1) * a1 == a0 * b1 * c1 + b0 * c1 * a1 + c0 * b1 * a1) by (nonlinear_arith);
    assert(b0 * a1 * c1 == b0 * c1 * a1) by (nonlinear_arith);
    assert(c0 * (a1 * b1) == c0 * b1 * a1) by (nonlinear_arith);
    assert((a1 * b1) * c1 == a1 * (b1 * c1)) by (nonlinear_arith);
}

/// Prefixes keep positive denominators.
pub proof fn lemma_pos_dens_take(s: Seq<((int, int), (int, int))>, i: int)
    requires
        pos_dens(s),
        0 <= i <= s.len(),
    ensures
        pos_dens(s.take(i)),
{
    assert forall|j: int| 0 <= j < s.take(i).len() implies (#[trigger] s.take(i)[j]).1.1 > 0 by {
        assert(s.take(i)[j] == s[j]);
    }
}

/// Reading a knot's coefficient in a prefix one entry longer.
pub proof fn lemma_top_at_prefix(s: Seq<((int, int), (int, int))>, i: int, q: (int, int))
    requires
        distinct_keys(s),
        0 <= i < s.len(),
    ensures
        top_at(s.take(i + 1), q) == if s[i].0 == q {
            s[i].1
        } else {
            top_at(s.take(i), q)
        },
{
    let t1 = s.take(i + 1);
    let t0 = s.take(i);
    assert(distinct_keys(t1)) by {
        assert forall|a: int, b: int| 0 <= a < b < t1.len() implies (#[trigger] t1[a]).0 != (#[trigger] t1[b]).0 by {
            assert(t1[a] == s[a] && t1[b] == s[b]);
        }
    }
    assert(distinct_keys(t0)) by {
        assert forall|a: int, b: int| 0 <= a < b < t0.len() implies (#[trigger] t0[a]).0 != (#[trigger] t0[b]).0 by {
            assert(t0[a] == s[a] && t0[b] == s[b]);
        }
    }
    if s[i].0 == q {
        assert(t1[i] == s[i]);
        lemma_top_at_index(t1, q, i);
    } else if exists|j: int| 0 <= j < t0.len() && (#[trigger] t0[j]).0 == q {
        let j = choose|j: int| 0 <= j < t0.len() && (#[trigger] t0[j]).0 == q;
        lemma_top_at_index(t0, q, j);
        assert(t1[j] == t0[j]);
        lemma_top_at_index(t1, q, j);
    } else {
        assert forall|j: int| 0 <= j < t1.len() implies (#[trigger] t1[j]).0 != q by {
            if j < i {
                assert(t1[j] == t0[j]);
            } else {
                assert(t1[j] == s[i]);
            }
        }
    }
}

/// `equiv` is symmetric.
pub proof fn lemma_equiv_sym(a: (int, int), b: (int, int))
    requires
        equiv(a, b),
    ensures
        equiv(b, a),
{
}

/// Coefficients read from a sequence with positive denominators have a
/// positive denominator.
pub proof fn lemma_top_at_den(s: Seq<((int, int), (int, int))>, q: (int, int))
    requires
        pos_dens(s),
    ensures
        top_at(s, q).1 > 0,
{
    if exists|i: int| 0 <= i < s.len() && (#[trigger] s[i]).0 == q {
        let i = choose|i: int| 0 <= i < s.len() && (#[trigger] s[i]).0 == q;
        assert(s[i].1.1 > 0);
    }
}

} // verus!
