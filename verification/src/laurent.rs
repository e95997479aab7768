//! Truncated power series for the Laurent expansion of a basis term with
//! vanishing `Y_k`: the product `Π_k 1/(1 + ε·Y'_k/Y_k)` over the non-zero
//! `Y_k`, coefficient by coefficient, in exact pair arithmetic.
use crate::geom::all_q_wf;
use crate::local::{zero_qs, VertexContribution};
use crate::num::{all_wf, zvals, Q, Z};
use crate::sweep::{equiv, lemma_add_zero, lemma_cong, lemma_equiv_trans, lemma_ppow_pos, padd, pmul, ppow, qv};
use crate::arith::{abs, binom};
use vstd::arithmetic::power::pow;
use vstd::prelude::*;

verus! {

/// `−Y'_k / Y_k` with a positive denominator.
pub open spec fn lau_ratio(y: Seq<int>, yr: Seq<int>, k: int) -> (int, int) {
    if y[k] > 0 {
        (-yr[k], y[k])
    } else {
        (yr[k], -y[k])
    }
}

/// `Σ_{i<n} s[q−i]·u^i`: coefficient `q` of the product of the series `s`
/// with `Σ_i u^i ε^i`, over the first `n` terms.
pub open spec fn conv_at(s: Seq<(int, int)>, u: (int, int), q: int, n: int) -> (int, int)
    decreases n,
{
    if n <= 0 {
        (0, 1)
    } else {
        padd(conv_at(s, u, q, n - 1), pmul(s[q - (n - 1)], ppow(u, (n - 1) as nat)))
    }
}

/// Coefficients `0..=p` of `Π_{k<n, Y_k ≠ 0 ≠ Y'_k} Σ_i (−Y'_k/Y_k)^i ε^i`.
pub open spec fn lau_series(y: Seq<int>, yr: Seq<int>, p: nat, n: int) -> Seq<(int, int)>
    decreases n,
{
    if n <= 0 {
        Seq::new(p + 1, |q: int| if q == 0 { (1int, 1int) } else { (0int, 1int) })
    } else {
        let s = lau_series(y, yr, p, n - 1);
        if y[n - 1] == 0 || yr[n - 1] == 0 {
            s
        } else {
            Seq::new(p + 1, |q: int| conv_at(s, lau_ratio(y, yr, n - 1), q, q + 1))
        }
    }
}

/// Every pair of the sequence has a positive denominator.
pub open spec fn pos_dens(s: Seq<(int, int)>) -> bool {
    forall|i: int| 0 <= i < s.len() ==> (#[trigger] s[i]).1 > 0
}

/// The partial products keep positive denominators.
pub proof fn lemma_conv_dens(s: Seq<(int, int)>, u: (int, int), q: int, n: int)
    requires
        pos_dens(s),
        u.1 > 0,
        0 <= n <= q + 1,
        q < s.len(),
    ensures
        conv_at(s, u, q, n).1 > 0,
    decreases n,
{
    if n > 0 {
        lemma_conv_dens(s, u, q, n - 1);
        lemma_ppow_pos(u, (n - 1) as nat);
        assert(s[q - (n - 1)].1 > 0);
        let (a, b, c) = (conv_at(s, u, q, n - 1).1, s[q - (n - 1)].1, ppow(u, (n - 1) as nat).1);
        assert(a * (b * c) > 0) by (nonlinear_arith)
            requires
                a > 0,
                b > 0,
                c > 0,
        ;
    }
}

/// The series has `p + 1` coefficients, all with positive denominators.
pub proof fn lemma_series_dens(y: Seq<int>, yr: Seq<int>, p: nat, n: int)
    requires
        n <= y.len(),
        n <= yr.len(),
    ensures
        lau_series(y, yr, p, n).len() == p + 1,
        pos_dens(lau_series(y, yr, p, n)),
    decreases n,
{
    if n > 0 {
        lemma_series_dens(y, yr, p, n - 1);
        let s = lau_series(y, yr, p, n - 1);
        if !(y[n - 1] == 0 || yr[n - 1] == 0) {
            let u = lau_ratio(y, yr, n - 1);
            assert forall|q: int| 0 <= q < p + 1 implies (#[trigger] lau_series(y, yr, p, n)[q]).1 > 0 by {
                lemma_conv_dens(s, u, q, q + 1);
            }
        }
    }
}

/// A zero value is the pair `0/1`.
proof fn lemma_zero_pair(x: Q)
    requires
        x.num@ == 0,
    ensures
        equiv(qv(x), (0int, 1int)),
{
    assert(x.num@ * 1 == 0 * x.den@) by (nonlinear_arith)
        requires
            x.num@ == 0,
    ;
}

/// A positive-denominator zero pair added to `x` leaves `x`.
pub proof fn lemma_pad_zero(x: (int, int), z: (int, int))
    requires
        z.0 == 0,
        z.1 > 0,
    ensures
        equiv(padd(x, z), x),
{
    assert(equiv(padd(x, z), x)) by (nonlinear_arith)
        requires
            z.0 == 0,
    ;
}

/// One accumulation `ns[m+n] += series[m]·pw` of the series product.
proof fn lemma_conv_step(acc: Q, sm: Q, pw: Q, prod: Q, val: Q, s: Seq<(int, int)>, u: (int, int), q: int, n: int)
    requires
        pos_dens(s),
        u.1 > 0,
        0 <= n <= q,
        q < s.len(),
        acc.wf(),
        sm.wf(),
        pw.wf(),
        prod.wf(),
        val.wf(),
        equiv(qv(acc), conv_at(s, u, q, n)),
        equiv(qv(sm), s[q - n]),
        equiv(qv(pw), ppow(u, n as nat)),
        prod.is(sm.num@ * pw.num@, sm.den@ * pw.den@),
        val.is(acc.num@ * prod.den@ + prod.num@ * acc.den@, acc.den@ * prod.den@),
    ensures
        equiv(qv(val), conv_at(s, u, q, n + 1)),
{
    lemma_conv_dens(s, u, q, n);
    lemma_ppow_pos(u, n as nat);
    assert(s[q - n].1 > 0);
    lemma_cong(qv(sm), s[q - n], qv(pw), ppow(u, n as nat));
    assert(equiv(qv(prod), pmul(qv(sm), qv(pw))));
    lemma_equiv_trans(qv(prod), pmul(qv(sm), qv(pw)), pmul(s[q - n], ppow(u, n as nat)));
    lemma_cong(s[q - n], s[q - n], ppow(u, n as nat), ppow(u, n as nat));
    lemma_cong(qv(acc), conv_at(s, u, q, n), qv(prod), pmul(s[q - n], ppow(u, n as nat)));
    assert(equiv(qv(val), padd(qv(acc), qv(prod))));
    lemma_cong(qv(acc), qv(acc), qv(prod), qv(prod));
    lemma_equiv_trans(qv(val), padd(qv(acc), qv(prod)), padd(conv_at(s, u, q, n), pmul(s[q - n], ppow(u, n as nat))));
}

/// A skipped zero coefficient of the series changes no partial product.
proof fn lemma_conv_skip(acc: Q, sm: Q, s: Seq<(int, int)>, u: (int, int), q: int, n: int)
    requires
        pos_dens(s),
        u.1 > 0,
        0 <= n <= q,
        q < s.len(),
        acc.wf(),
        sm.wf(),
        sm.num@ == 0,
        equiv(qv(acc), conv_at(s, u, q, n)),
        equiv(qv(sm), s[q - n]),
    ensures
        equiv(qv(acc), conv_at(s, u, q, n + 1)),
{
    lemma_conv_dens(s, u, q, n);
    lemma_ppow_pos(u, n as nat);
    let c = s[q - n];
    assert(c.1 > 0);
    assert(c.0 == 0) by (nonlinear_arith)
        requires
            0 * c.1 == c.0 * sm.den@,
            sm.den@ > 0,
    ;
    lemma_add_zero(conv_at(s, u, q, n), c, ppow(u, n as nat));
    lemma_equiv_trans(qv(acc), conv_at(s, u, q, n), conv_at(s, u, q, n + 1));
}

/// `−Y'_k` where `Y_k` vanishes, else `−Y_k`.
pub open spec fn lau_factor(y: Seq<int>, yr: Seq<int>, k: int) -> int {
    if y[k] == 0 {
        -yr[k]
    } else {
        -y[k]
    }
}

/// `base` times the first `n` factors.
pub open spec fn lau_den(y: Seq<int>, yr: Seq<int>, base: int, n: int) -> int
    decreases n,
{
    if n <= 0 {
        base
    } else {
        lau_den(y, yr, base, n - 1) * lau_factor(y, yr, n - 1)
    }
}

/// `num/den` with a positive denominator.
pub open spec fn signed_pair(num: int, den: int) -> (int, int) {
    if den > 0 {
        (num, den)
    } else {
        (-num, -den)
    }
}

/// The constant of the term, `χ·det^d / (d!·|det|·Π_k factor_k)`.
pub open spec fn lau_const(y: Seq<int>, yr: Seq<int>, chi: int, det: int, dfact: int, d: nat) -> (int, int) {
    signed_pair(pow(det, d) * chi, lau_den(y, yr, dfact * abs(det), d as int))
}

/// What the term adds at row `m` (the power `ε^{-m}`) and at the power
/// `(λ−κ)^{d−j}`: `C · series[p−m−j] · C(d, j) · (−ρ)^j` when `m + j ≤ p`.
pub open spec fn lau_coef(c: (int, int), s: Seq<(int, int)>, nrho: (int, int), d: nat, p: int, m: int, j: int) -> (int, int) {
    if m + j <= p {
        pmul(pmul(pmul(c, s[p - (m + j)]), (binom(d, j as nat) as int, 1int)), ppow(nrho, j as nat))
    } else {
        (0, 1)
    }
}

/// Entry `[m][c]` of a row-major table of width `w`.
pub open spec fn cell(l: Seq<Q>, w: int, m: int, c: int) -> Q {
    l[m * w + c]
}

/// Entry `[m][c]` of the Laurent table held before, zero when there was none.
pub open spec fn prior_cell(vc: VertexContribution, m: int, c: int) -> (int, int) {
    match vc.laurent {
        Some(l) => qv(cell(l@, vc.d + 1, m, c)),
        None => (0, 1),
    }
}

/// The entries held before have positive denominators.
pub proof fn lemma_prior_den(vc: VertexContribution, m: int, c: int)
    requires
        vc.wf(),
        0 <= m <= vc.d,
        0 <= c <= vc.d,
    ensures
        prior_cell(vc, m, c).1 > 0,
{
    if let Some(l) = vc.laurent {
        crate::linalg::lemma_cell(m, c, vc.d + 1, vc.d + 1);
        assert(l@[m * (vc.d + 1) + c].wf());
    }
}

/// A zero entry stands for the pair `0/1`.
pub proof fn lemma_zero_stands_pair(q: Q)
    requires
        q.num@ == 0,
    ensures
        equiv(qv(q), (0int, 1int)),
{
    lemma_zero_pair(q);
}

/// `lau_coef` keeps a positive denominator.
pub proof fn lemma_coef_den(c: (int, int), s: Seq<(int, int)>, nrho: (int, int), d: nat, p: int, m: int, j: int)
    requires
        c.1 > 0,
        nrho.1 > 0,
        pos_dens(s),
        0 <= m,
        0 <= j,
        p < s.len(),
    ensures
        lau_coef(c, s, nrho, d, p, m, j).1 > 0,
{
    if m + j <= p {
        lemma_ppow_pos(nrho, j as nat);
        assert(s[p - (m + j)].1 > 0);
        let (a, b, e) = (c.1, s[p - (m + j)].1, ppow(nrho, j as nat).1);
        assert(a * b * 1 * e > 0) by (nonlinear_arith)
            requires
                a > 0,
                b > 0,
                e > 0,
        ;
    }
}

/// The exact value of the constant: `num/den` as built, with `den ≠ 0`.
pub proof fn lemma_signed_pair(q: Q, num: int, den: int)
    requires
        q.wf(),
        den != 0,
        q.is(num, den),
    ensures
        equiv(qv(q), signed_pair(num, den)),
        signed_pair(num, den).1 > 0,
{
    let (a, b) = (q.num@, q.den@);
    assert(equiv((a, b), signed_pair(num, den))) by (nonlinear_arith)
        requires
            a * den == num * b,
            signed_pair(num, den) == (if den > 0 { (num, den) } else { (-num, -den) }),
    ;
}

/// The chain `((c·s)·b)·r` of exact products.
pub proof fn lemma_product_chain(
    c: Q,
    sq: Q,
    bin: Q,
    rp: Q,
    t1: Q,
    t2: Q,
    coef: Q,
    cc: (int, int),
    ss: (int, int),
    bb: (int, int),
    rr: (int, int),
)
    requires
        c.wf(),
        sq.wf(),
        bin.wf(),
        rp.wf(),
        t1.wf(),
        t2.wf(),
        coef.wf(),
        cc.1 > 0,
        ss.1 > 0,
        bb.1 > 0,
        rr.1 > 0,
        equiv(qv(c), cc),
        equiv(qv(sq), ss),
        equiv(qv(bin), bb),
        equiv(qv(rp), rr),
        t1.is(c.num@ * sq.num@, c.den@ * sq.den@),
        t2.is(t1.num@ * bin.num@, t1.den@ * bin.den@),
        coef.is(t2.num@ * rp.num@, t2.den@ * rp.den@),
    ensures
        equiv(qv(coef), pmul(pmul(pmul(cc, ss), bb), rr)),
        pmul(pmul(pmul(cc, ss), bb), rr).1 > 0,
{
    lemma_cong(qv(c), cc, qv(sq), ss);
    lemma_cong(cc, cc, ss, ss);
    lemma_equiv_trans(qv(t1), pmul(qv(c), qv(sq)), pmul(cc, ss));
    lemma_cong(qv(t1), pmul(cc, ss), qv(bin), bb);
    lemma_cong(pmul(cc, ss), pmul(cc, ss), bb, bb);
    lemma_equiv_trans(qv(t2), pmul(qv(t1), qv(bin)), pmul(pmul(cc, ss), bb));
    lemma_cong(qv(t2), pmul(pmul(cc, ss), bb), qv(rp), rr);
    lemma_cong(pmul(pmul(cc, ss), bb), pmul(pmul(cc, ss), bb), rr, rr);
    lemma_equiv_trans(qv(coef), pmul(qv(t2), qv(rp)), pmul(pmul(pmul(cc, ss), bb), rr));
}

/// Adding the exact coefficient to an entry that stands for `x`.
pub proof fn lemma_entry_add(e: Q, cq: Q, val: Q, x: (int, int), cs: (int, int))
    requires
        e.wf(),
        cq.wf(),
        val.wf(),
        x.1 > 0,
        cs.1 > 0,
        equiv(qv(e), x),
        equiv(qv(cq), cs),
        val.is(e.num@ * cq.den@ + cq.num@ * e.den@, e.den@ * cq.den@),
    ensures
        equiv(qv(val), padd(x, cs)),
{
    lemma_cong(qv(e), x, qv(cq), cs);
    lemma_equiv_trans(qv(val), padd(qv(e), qv(cq)), padd(x, cs));
}

/// A zero coefficient leaves an entry that stands for `x` standing for `x + cs`.
pub proof fn lemma_entry_skip(e: Q, x: (int, int), cs: (int, int))
    requires
        e.wf(),
        x.1 > 0,
        cs.1 > 0,
        cs.0 == 0,
        equiv(qv(e), x),
    ensures
        equiv(qv(e), padd(x, cs)),
{
    lemma_pad_zero(x, cs);
    lemma_equiv_trans(qv(e), x, padd(x, cs));
}

/// A zero value standing for `cs` makes `cs` zero.
pub proof fn lemma_zero_stands(q: Q, cs: (int, int))
    requires
        q.wf(),
        q.num@ == 0,
        cs.1 > 0,
        equiv(qv(q), cs),
    ensures
        cs.0 == 0,
{
    assert(cs.0 == 0) by (nonlinear_arith)
        requires
            0 * cs.1 == cs.0 * q.den@,
            q.den@ > 0,
    ;
}

/// Distinct cells of a table of width `w` have distinct indices.
pub proof fn lemma_cell_distinct(m: int, c: int, m2: int, c2: int, w: int)
    requires
        0 <= m,
        0 <= m2,
        0 <= c < w,
        0 <= c2 < w,
        m != m2 || c != c2,
    ensures
        m * w + c != m2 * w + c2,
{
    if m == m2 {
    } else if m < m2 {
        assert(m * w + c < m2 * w + c2) by (nonlinear_arith)
            requires
                m < m2,
                0 <= c < w,
                0 <= c2,
        ;
    } else {
        assert(m2 * w + c2 < m * w + c) by (nonlinear_arith)
            requires
                m2 < m,
                0 <= c2 < w,
                0 <= c,
        ;
    }
}

/// The coefficients `0..=p` of `Π_{k<d, Y_k ≠ 0 ≠ Y'_k} 1/(1 + ε Y'_k/Y_k)`.
pub fn series_of(d: usize, y: &[Z], yr: &[Z], p: usize) -> (series: Vec<Q>)
    requires
        d <= 64,
        p <= d,
        y@.len() == d,
        yr@.len() == d,
        all_wf(y@),
        all_wf(yr@),
    ensures
        series@.len() == p + 1,
        all_q_wf(series@),
        forall|q: int|
            0 <= q <= p ==> equiv(qv(#[trigger] series@[q]), lau_series(zvals(y@), zvals(yr@), p as nat, d as int)[q]),
{
    let ghost yv = zvals(y@);
    let ghost yrv = zvals(yr@);
    let mut series = zero_qs(p + 1);
    let ghost z0 = series@;
    series.set(0, Q::one());
    proof {
        assert forall|q: int| 0 <= q <= p implies equiv(qv(#[trigger] series@[q]), lau_series(yv, yrv, p as nat, 0)[q]) by {
            if q > 0 {
                assert(series@[q] == z0[q]);
                assert(z0[q].num@ == 0);
                assert(lau_series(yv, yrv, p as nat, 0)[q] == (0int, 1int));
                lemma_zero_pair(series@[q]);
            } else {
                assert(lau_series(yv, yrv, p as nat, 0)[q] == (1int, 1int));
            }
        }
    }
    let mut k: usize = 0;
    while k < d
        invariant
            k <= d,
            d <= 64,
            p <= d,
            y@.len() == d,
            yr@.len() == d,
            all_wf(y@),
            all_wf(yr@),
            yv == zvals(y@),
            yrv == zvals(yr@),
            series@.len() == p + 1,
            all_q_wf(series@),
            forall|q: int| 0 <= q <= p ==> equiv(qv(#[trigger] series@[q]), lau_series(yv, yrv, p as nat, k as int)[q]),
        decreases d - k,
    {
        let ghost s0 = lau_series(yv, yrv, p as nat, k as int);
        proof {
            lemma_series_dens(yv, yrv, p as nat, k as int);
            lemma_series_dens(yv, yrv, p as nat, k + 1);
        }
        if !y[k].is_zero() {
            let t = Q::new(yr[k].clone(), y[k].clone());
            proof {
                let (tn, td, a, b) = (t.num@, t.den@, yv[k as int], yrv[k as int]);
                assert(tn * a == b * td);
                assert((tn == 0) <==> (b == 0)) by (nonlinear_arith)
                    requires
                        tn * a == b * td,
                        a != 0,
                        td > 0,
                ;
            }
            if !t.is_zero() {
                let ghost u = lau_ratio(yv, yrv, k as int);
                proof {
                    let (tn, td, a, b) = (t.num@, t.den@, yv[k as int], yrv[k as int]);
                    assert(equiv((-tn, td), u)) by (nonlinear_arith)
                        requires
                            tn * a == b * td,
                            u == (if a > 0 { (-b, a) } else { (b, -a) }),
                    ;
                    assert(u.1 > 0);
                }
                let mut ns = zero_qs(p + 1);
                let mut pw = Q::one();
                let mut n: usize = 0;
                proof {
                    assert forall|q: int| 0 <= q <= p implies equiv(qv(#[trigger] ns@[q]), conv_at(s0, u, q, if q + 1 < n {
                        q + 1
                    } else {
                        n as int
                    })) by {
                        assert(ns@[q].num@ == 0);
                        assert(conv_at(s0, u, q, 0) == (0int, 1int));
                        lemma_zero_pair(ns@[q]);
                    }
                }
                while n <= p
                    invariant
                        n <= p + 1,
                        p <= 64,
                        series@.len() == p + 1,
                        all_q_wf(series@),
                        ns@.len() == p + 1,
                        all_q_wf(ns@),
                        pw.wf(),
                        t.wf(),
                        s0.len() == p + 1,
                        pos_dens(s0),
                        u.1 > 0,
                        equiv((-t.num@, t.den@), u),
                        forall|q: int| 0 <= q <= p ==> equiv(qv(#[trigger] series@[q]), s0[q]),
                        n == 0 ==> qv(pw) == (1int, 1int),
                        n > 0 ==> equiv(qv(pw), ppow(u, (n - 1) as nat)),
                        forall|q: int|
                            0 <= q <= p ==> equiv(qv(#[trigger] ns@[q]), conv_at(s0, u, q, if q + 1 < n { q + 1 } else { n as int })),
                    decreases p + 1 - n,
                {
                    let ghost pw0 = pw;
                    if n > 0 {
                        pw = pw.mul(&t.neg());
                        proof {
                            lemma_ppow_pos(u, (n - 1) as nat);
                            lemma_cong(qv(pw0), ppow(u, (n - 1) as nat), (-t.num@, t.den@), u);
                            lemma_equiv_trans(qv(pw), pmul(qv(pw0), (-t.num@, t.den@)), ppow(u, n as nat));
                        }
                    }
                    proof {
                        lemma_ppow_pos(u, n as nat);
                        assert(equiv(qv(pw), ppow(u, n as nat)));
                    }
                    let mut m: usize = 0;
                    while m <= p - n
                        invariant
                            n <= p,
                            p <= 64,
                            m <= p - n + 1,
                            series@.len() == p + 1,
                            all_q_wf(series@),
                            ns@.len() == p + 1,
                            all_q_wf(ns@),
                            pw.wf(),
                            s0.len() == p + 1,
                            pos_dens(s0),
                            u.1 > 0,
                            equiv(qv(pw), ppow(u, n as nat)),
                            forall|q: int| 0 <= q <= p ==> equiv(qv(#[trigger] series@[q]), s0[q]),
                            forall|q: int|
                                0 <= q <= p ==> equiv(qv(#[trigger] ns@[q]), conv_at(s0, u, q, if n <= q < n + m {
                                    n + 1
                                } else if q + 1 < n {
                                    q + 1
                                } else {
                                    n as int
                                })),
                        decreases p - n + 1 - m,
                    {
                        let ghost ns0 = ns@;
                        let q = m + n;
                        if !series[m].is_zero() {
                            let prod = series[m].mul(&pw);
                            let val = ns[q].add(&prod);
                            proof {
                                assert(equiv(qv(ns0[q as int]), conv_at(s0, u, q as int, n as int)));
                                assert(equiv(qv(series@[m as int]), s0[m as int]));
                                lemma_conv_step(ns0[q as int], series@[m as int], pw, prod, val, s0, u, q as int, n as int);
                            }
                            ns.set(q, val);
                        } else {
                            proof {
                                assert(equiv(qv(ns0[q as int]), conv_at(s0, u, q as int, n as int)));
                                lemma_conv_skip(ns0[q as int], series@[m as int], s0, u, q as int, n as int);
                            }
                        }
                        proof {
                            assert forall|q2: int| 0 <= q2 <= p implies equiv(qv(#[trigger] ns@[q2]), conv_at(s0, u, q2, if n <= q2 < n + m + 1 {
                                n + 1
                            } else if q2 + 1 < n {
                                q2 + 1
                            } else {
                                n as int
                            })) by {
                                if q2 != q {
                                    assert(ns@[q2] == ns0[q2]);
                                }
                            }
                        }
                        m = m + 1;
                    }
                    n = n + 1;
                }
                series = ns;
                proof {
                    assert forall|q: int| 0 <= q <= p implies equiv(qv(#[trigger] series@[q]), lau_series(yv, yrv, p as nat, k + 1)[q]) by {
                        assert(lau_series(yv, yrv, p as nat, k + 1)[q] == conv_at(s0, u, q, q + 1));
                    }
                }
            } else {
                proof {
                    assert(lau_series(yv, yrv, p as nat, k + 1) == s0);
                }
            }
        } else {
            proof {
                assert(lau_series(yv, yrv, p as nat, k + 1) == s0);
            }
        }
        k = k + 1;
    }
    series
}

} // verus!
