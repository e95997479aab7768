//! The polynomial pieces of a sweep function agree with the sum of its knot
//! polynomials: the binomial expansion of `(λ − κ)^j`, read in the real
//! numbers that the pairs of the pair arithmetic stand for.
use crate::arith::{binom, lemma_binom_zero};
use crate::geom::all_q_wf;
use crate::num::Q;
use crate::sweep::{
    equiv, knot_coef, lemma_coef_dens, lemma_knot_coef_den, lemma_term_den, padd, piece_coef, plt, pmul, poly_sum, ppow,
    psub, qv, qvs, sweep_sum, term_coef,
};
use vstd::prelude::*;

verus! {

/// The real number a pair stands for.
pub open spec fn rv(p: (int, int)) -> real {
    (p.0 as real) / (p.1 as real)
}

/// `x^j` over the reals.
pub open spec fn rpow(x: real, j: nat) -> real
    decreases j,
{
    if j == 0 {
        1 as real
    } else {
        rpow(x, (j - 1) as nat) * x
    }
}

/// `Σ_{i<n} f(i)`.
pub open spec fn rsum(f: spec_fn(int) -> real, n: int) -> real
    decreases n,
{
    if n <= 0 {
        0 as real
    } else {
        rsum(f, n - 1) + f(n - 1)
    }
}

/// The real of a product of integers.
proof fn lemma_real_mul(x: int, y: int)
    ensures
        (x * y) as real == (x as real) * (y as real),
{
    assert((x * y) as real == (x as real) * (y as real)) by (nonlinear_arith);
}

/// Pair arithmetic is real arithmetic on what the pairs stand for.
pub proof fn lemma_rv_ops(p: (int, int), q: (int, int))
    requires
        p.1 > 0,
        q.1 > 0,
    ensures
        rv(padd(p, q)) == rv(p) + rv(q),
        rv(psub(p, q)) == rv(p) - rv(q),
        rv(pmul(p, q)) == rv(p) * rv(q),
        padd(p, q).1 > 0,
        psub(p, q).1 > 0,
        pmul(p, q).1 > 0,
        equiv(p, q) <==> rv(p) == rv(q),
{
    let (a, b, c, e) = (p.0 as real, p.1 as real, q.0 as real, q.1 as real);
    assert(b > 0 as real && e > 0 as real);
    lemma_real_mul(p.0, q.1);
    lemma_real_mul(q.0, p.1);
    lemma_real_mul(p.1, q.1);
    lemma_real_mul(p.0, q.0);
    assert((p.0 * q.1 + q.0 * p.1) as real == a * e + c * b);
    assert((p.0 * q.1 - q.0 * p.1) as real == a * e - c * b);
    assert((a * e + c * b) / (b * e) == a / b + c / e) by (nonlinear_arith)
        requires
            b > 0 as real,
            e > 0 as real,
    ;
    assert((a * e - c * b) / (b * e) == a / b - c / e) by (nonlinear_arith)
        requires
            b > 0 as real,
            e > 0 as real,
    ;
    assert((a * c) / (b * e) == (a / b) * (c / e)) by (nonlinear_arith)
        requires
            b > 0 as real,
            e > 0 as real,
    ;
    assert((a / b == c / e) <==> (a * e == c * b)) by (nonlinear_arith)
        requires
            b > 0 as real,
            e > 0 as real,
    ;
    assert(p.1 * q.1 > 0) by (nonlinear_arith)
        requires
            p.1 > 0,
            q.1 > 0,
    ;
}

/// Powers of a pair stand for powers of its real.
pub proof fn lemma_rv_pow(t: (int, int), j: nat)
    requires
        t.1 > 0,
    ensures
        rv(ppow(t, j)) == rpow(rv(t), j),
        ppow(t, j).1 > 0,
    decreases j,
{
    if j > 0 {
        lemma_rv_pow(t, (j - 1) as nat);
        lemma_rv_ops(ppow(t, (j - 1) as nat), t);
    } else {
        assert((1int as real) / (1int as real) == 1 as real) by (nonlinear_arith);
    }
}

/// Sums of pointwise equal terms are equal.
pub proof fn lemma_rsum_ext(f: spec_fn(int) -> real, g: spec_fn(int) -> real, n: int)
    requires
        forall|i: int| 0 <= i < n ==> #[trigger] f(i) == g(i),
    ensures
        rsum(f, n) == rsum(g, n),
    decreases n,
{
    if n > 0 {
        lemma_rsum_ext(f, g, n - 1);
        assert(f(n - 1) == g(n - 1));
    }
}

/// The sum of a pointwise sum.
pub proof fn lemma_rsum_add(f: spec_fn(int) -> real, g: spec_fn(int) -> real, h: spec_fn(int) -> real, n: int)
    requires
        forall|i: int| 0 <= i < n ==> #[trigger] h(i) == f(i) + g(i),
    ensures
        rsum(h, n) == rsum(f, n) + rsum(g, n),
    decreases n,
{
    if n > 0 {
        lemma_rsum_add(f, g, h, n - 1);
        assert(h(n - 1) == f(n - 1) + g(n - 1));
    }
}

/// A constant factor comes out of a sum.
pub proof fn lemma_rsum_scale(f: spec_fn(int) -> real, g: spec_fn(int) -> real, c: real, n: int)
    requires
        forall|i: int| 0 <= i < n ==> #[trigger] g(i) == c * f(i),
    ensures
        rsum(g, n) == c * rsum(f, n),
    decreases n,
{
    if n > 0 {
        lemma_rsum_scale(f, g, c, n - 1);
        assert(g(n - 1) == c * f(n - 1));
        let (s, t) = (rsum(f, n - 1), f(n - 1));
        assert(c * s + c * t == c * (s + t)) by (nonlinear_arith);
    }
}

/// A sum of zeros.
pub proof fn lemma_rsum_zero(f: spec_fn(int) -> real, n: int)
    requires
        forall|i: int| 0 <= i < n ==> #[trigger] f(i) == 0 as real,
    ensures
        rsum(f, n) == 0 as real,
    decreases n,
{
    if n > 0 {
        lemma_rsum_zero(f, n - 1);
        assert(f(n - 1) == 0 as real);
    }
}

/// Zero terms past `m` do not change the sum.
pub proof fn lemma_rsum_tail_zero(f: spec_fn(int) -> real, m: int, n: int)
    requires
        0 <= m <= n,
        forall|i: int| m <= i < n ==> #[trigger] f(i) == 0 as real,
    ensures
        rsum(f, n) == rsum(f, m),
    decreases n - m,
{
    if n > m {
        lemma_rsum_tail_zero(f, m, n - 1);
        assert(f(n - 1) == 0 as real);
    }
}

/// Peeling the first term: `Σ_{i<n+1} f(i) = f(0) + Σ_{i<n} f(i+1)`.
pub proof fn lemma_rsum_front(f: spec_fn(int) -> real, g: spec_fn(int) -> real, n: int)
    requires
        0 <= n,
        forall|i: int| 0 <= i < n ==> #[trigger] g(i) == f(i + 1),
    ensures
        rsum(f, n + 1) == f(0) + rsum(g, n),
    decreases n,
{
    if n > 0 {
        lemma_rsum_front(f, g, n - 1);
        assert(g(n - 1) == f(n));
        assert(rsum(f, n + 1) == rsum(f, n) + f(n));
        assert(rsum(g, n) == rsum(g, n - 1) + g(n - 1));
    } else {
        assert(rsum(f, 1) == rsum(f, 0) + f(0));
    }
}

/// `Σ_{i<n} Σ_{j<m} F(i, j) = Σ_{j<m} Σ_{i<n} F(i, j)`.
pub proof fn lemma_rsum_swap(ff: spec_fn(int, int) -> real, n: int, m: int)
    ensures
        rsum(|i: int| rsum(|j: int| ff(i, j), m), n) == rsum(|j: int| rsum(|i: int| ff(i, j), n), m),
    decreases n,
{
    if n > 0 {
        lemma_rsum_swap(ff, n - 1, m);
        let f = |j: int| rsum(|i: int| ff(i, j), n - 1);
        let g = |j: int| ff(n - 1, j);
        let h = |j: int| rsum(|i: int| ff(i, j), n);
        assert forall|j: int| 0 <= j < m implies #[trigger] h(j) == f(j) + g(j) by {}
        lemma_rsum_add(f, g, h, m);
    } else {
        lemma_rsum_zero(|j: int| rsum(|i: int| ff(i, j), n), m);
    }
}

/// `a·(b·c) = (a·b)·c`.
pub proof fn lemma_rmul_assoc(a: real, b: real, c: real)
    ensures
        a * (b * c) == (a * b) * c,
{
    assert(a * (b * c) == (a * b) * c) by (nonlinear_arith);
}

/// `a·b = b·a`.
pub proof fn lemma_rmul_comm(a: real, b: real)
    ensures
        a * b == b * a,
{
    assert(a * b == b * a) by (nonlinear_arith);
}

/// `(a + b)·c = a·c + b·c` and `c·(a + b) = c·a + c·b`.
pub proof fn lemma_rdist(a: real, b: real, c: real)
    ensures
        (a + b) * c == a * c + b * c,
        c * (a + b) == c * a + c * b,
{
    assert((a + b) * c == a * c + b * c) by (nonlinear_arith);
    assert(c * (a + b) == c * a + c * b) by (nonlinear_arith);
}

/// `1·a = a·1 = a` and `0·a = a·0 = 0`.
pub proof fn lemma_rmul_unit(a: real)
    ensures
        (1 as real) * a == a,
        a * (1 as real) == a,
        (0 as real) * a == 0 as real,
        a * (0 as real) == 0 as real,
{
    assert((1 as real) * a == a && a * (1 as real) == a) by (nonlinear_arith);
    assert((0 as real) * a == 0 as real && a * (0 as real) == 0 as real) by (nonlinear_arith);
}

/// Exchanging the order of a double sum, with the row sums `f` and the
/// column sums `g` given by name.
pub proof fn lemma_rsum_exchange(
    ff: spec_fn(int, int) -> real,
    f: spec_fn(int) -> real,
    g: spec_fn(int) -> real,
    n: int,
    m: int,
)
    requires
        forall|i: int| 0 <= i < n ==> #[trigger] f(i) == rsum(|j: int| ff(i, j), m),
        forall|j: int| 0 <= j < m ==> #[trigger] g(j) == rsum(|i: int| ff(i, j), n),
    ensures
        rsum(f, n) == rsum(g, m),
{
    lemma_rsum_swap(ff, n, m);
    lemma_rsum_ext(f, |i: int| rsum(|j: int| ff(i, j), m), n);
    lemma_rsum_ext(g, |j: int| rsum(|i: int| ff(i, j), n), m);
}

/// The binomial term `C(j, l)·x^l·y^{j−l}`.
pub open spec fn bterm(x: real, y: real, j: nat, l: int) -> real {
    if 0 <= l <= j {
        (binom(j, l as nat) as real) * rpow(x, l as nat) * rpow(y, (j - l) as nat)
    } else {
        0 as real
    }
}

/// Pascal's rule on binomial terms: `C(k+1, l)·x^l·y^{k+1−l}` is
/// `C(k, l−1)·x^{l−1}y^{k−l+1}·x + C(k, l)·x^l·y^{k−l}·y`.
proof fn lemma_pascal_term(x: real, y: real, k: nat, l: int)
    requires
        0 <= l <= k + 1,
    ensures
        bterm(x, y, k + 1, l) == (if 1 <= l { bterm(x, y, k, l - 1) * x } else { 0 as real }) + (if l <= k {
            bterm(x, y, k, l) * y
        } else {
            0 as real
        }),
{
    let j = (k + 1) as nat;
    if l == 0 {
        // C(j,0)·1·y^j = (C(k,0)·1·y^k)·y
        assert(binom(j, 0) == 1 && binom(k, 0) == 1);
        let q = rpow(y, k);
        assert(rpow(y, j) == q * y);
        assert(rpow(x, 0) == 1 as real);
        let one = 1 as real;
        lemma_rmul_unit(one);
        lemma_rmul_assoc(one, q, y);
        assert(bterm(x, y, j, 0) == (one * one) * (q * y));
        assert(bterm(x, y, k, 0) == (one * one) * q);
        assert(bterm(x, y, j, 0) == bterm(x, y, k, 0) * y);
        lemma_rmul_unit(bterm(x, y, k, 0) * y);
    } else if l == j {
        // C(j,j)·x^j·1 = (C(k,k)·x^k·1)·x, since C(k, j) = 0
        assert(binom(j, j) == binom(k, k) + binom(k, j));
        lemma_binom_zero(k, j);
        let c = binom(k, k) as real;
        assert(binom(j, j) as real == c);
        let p = rpow(x, k);
        assert(rpow(x, j) == p * x);
        assert(rpow(y, 0) == 1 as real);
        assert(j - l == 0 && k - (l - 1) == 0);
        let one = 1 as real;
        lemma_rmul_unit(c * (p * x));
        lemma_rmul_unit(c * p);
        lemma_rmul_assoc(c, p, x);
        assert(bterm(x, y, j, l) == c * (p * x));
        assert(bterm(x, y, k, l - 1) == c * p);
        lemma_rmul_unit(bterm(x, y, k, l - 1) * x);
    } else {
        let ln = l as nat;
        let c1 = binom(k, (ln - 1) as nat) as real;
        let c2 = binom(k, ln) as real;
        assert(binom(j, ln) == binom(k, (ln - 1) as nat) + binom(k, ln));
        assert(binom(j, ln) as real == c1 + c2);
        let p = rpow(x, (ln - 1) as nat);
        let q = rpow(y, (k - l) as nat);
        assert(rpow(x, ln) == p * x);
        assert(rpow(y, (j - l) as nat) == q * y);
        assert((k - (l - 1)) as nat == (j - l) as nat);
        let pp = p * x;
        let qq = q * y;
        // ((c1 + c2)·pp)·qq = (c1·pp)·qq + (c2·pp)·qq
        lemma_rdist(c1, c2, pp);
        lemma_rdist(c1 * pp, c2 * pp, qq);
        // (c1·(p·x))·qq = ((c1·p)·qq)·x
        lemma_rmul_assoc(c1, p, x);
        lemma_rmul_assoc(c1 * p, x, qq);
        lemma_rmul_comm(x, qq);
        lemma_rmul_assoc(c1 * p, qq, x);
        // (c2·pp)·(q·y) = ((c2·pp)·q)·y
        lemma_rmul_assoc(c2 * pp, q, y);
        assert(bterm(x, y, j, l) == ((c1 + c2) * pp) * qq);
        assert(bterm(x, y, k, l - 1) == (c1 * p) * qq);
        assert(bterm(x, y, k, l) == (c2 * pp) * q);
    }
}

/// The binomial theorem: `(x + y)^j = Σ_{l≤j} C(j, l)·x^l·y^{j−l}`.
pub proof fn lemma_binomial(x: real, y: real, j: nat)
    ensures
        rpow(x + y, j) == rsum(|l: int| bterm(x, y, j, l), j + 1int),
    decreases j,
{
    if j == 0 {
        assert(binom(0, 0) == 1);
        assert(rpow(x, 0) == 1 as real && rpow(y, 0) == 1 as real);
        lemma_rmul_unit(1 as real);
        assert(bterm(x, y, 0, 0) == 1 as real);
        assert(rsum(|l: int| bterm(x, y, 0, l), 1) == rsum(|l: int| bterm(x, y, 0, l), 0) + bterm(x, y, 0, 0));
    } else {
        let k = (j - 1) as nat;
        lemma_binomial(x, y, k);
        let s = rsum(|l: int| bterm(x, y, k, l), k + 1int);
        assert(rpow(x + y, j) == s * (x + y));
        lemma_rdist(x, y, s);
        let fx = |l: int| bterm(x, y, k, l) * x;
        let fy = |l: int| bterm(x, y, k, l) * y;
        // s·x = Σ fx, s·y = Σ fy
        lemma_rsum_scale(|l: int| bterm(x, y, k, l), |l: int| x * bterm(x, y, k, l), x, k + 1int);
        assert forall|l: int| 0 <= l < k + 1 implies x * bterm(x, y, k, l) == #[trigger] fx(l) by {
            lemma_rmul_comm(x, bterm(x, y, k, l));
        }
        lemma_rsum_ext(|l: int| x * bterm(x, y, k, l), fx, k + 1int);
        lemma_rsum_scale(|l: int| bterm(x, y, k, l), |l: int| y * bterm(x, y, k, l), y, k + 1int);
        assert forall|l: int| 0 <= l < k + 1 implies y * bterm(x, y, k, l) == #[trigger] fy(l) by {
            lemma_rmul_comm(y, bterm(x, y, k, l));
        }
        lemma_rsum_ext(|l: int| y * bterm(x, y, k, l), fy, k + 1int);
        lemma_rmul_comm(s, x);
        lemma_rmul_comm(s, y);
        // split the target by Pascal's rule
        let a = |l: int| if 1 <= l <= j { fx(l - 1) } else { 0 as real };
        let b = |l: int| if 0 <= l <= k { fy(l) } else { 0 as real };
        let t = |l: int| bterm(x, y, j, l);
        assert forall|l: int| 0 <= l < j + 1 implies #[trigger] t(l) == a(l) + b(l) by {
            lemma_pascal_term(x, y, k, l);
        }
        lemma_rsum_add(a, b, t, j + 1int);
        assert forall|i: int| 0 <= i < j implies #[trigger] fx(i) == a(i + 1) by {}
        lemma_rsum_front(a, fx, j as int);
        assert forall|i: int| j <= i < j + 1 implies #[trigger] b(i) == 0 as real by {}
        lemma_rsum_tail_zero(b, j as int, j + 1int);
        assert forall|i: int| 0 <= i < j implies #[trigger] b(i) == fy(i) by {}
        lemma_rsum_ext(b, fy, j as int);
    }
}

/// Every pair of the sequence has a positive denominator.
pub open spec fn dens_pos(c: Seq<(int, int)>) -> bool {
    forall|i: int| 0 <= i < c.len() ==> (#[trigger] c[i]).1 > 0
}

/// `Σ_{i<j} c_i t^i` read in the reals.
pub proof fn lemma_rv_poly_sum(c: Seq<(int, int)>, t: (int, int), j: nat)
    requires
        dens_pos(c),
        j <= c.len(),
        t.1 > 0,
    ensures
        rv(poly_sum(c, t, j)) == rsum(|i: int| rv(c[i]) * rpow(rv(t), i as nat), j as int),
        poly_sum(c, t, j).1 > 0,
    decreases j,
{
    if j > 0 {
        let k = (j - 1) as nat;
        lemma_rv_poly_sum(c, t, k);
        assert(c[k as int].1 > 0);
        lemma_rv_pow(t, k);
        lemma_rv_ops(c[k as int], ppow(t, k));
        lemma_rv_ops(poly_sum(c, t, k), pmul(c[k as int], ppow(t, k)));
    } else {
        assert(rv((0int, 1int)) == 0 as real) by {
            assert((0int as real) / (1int as real) == 0 as real) by (nonlinear_arith);
        }
    }
}

/// The pair `(C, 1)` and a negated pair, read in the reals.
proof fn lemma_rv_simple(c: int, k: (int, int))
    requires
        k.1 > 0,
    ensures
        rv((c, 1int)) == c as real,
        rv((-k.0, k.1)) == -rv(k),
{
    assert((c as real) / (1int as real) == c as real) by (nonlinear_arith);
    let (a, b) = (k.0 as real, k.1 as real);
    assert(((-k.0) as real) == -a);
    assert((-a) / b == -(a / b)) by (nonlinear_arith)
        requires
            b > 0 as real,
    ;
}

/// An expansion term read in the reals.
pub proof fn lemma_rv_term(c: Seq<(int, int)>, kk: (int, int), j: int, l: int)
    requires
        dens_pos(c),
        0 <= j < c.len(),
        kk.1 > 0,
    ensures
        rv(term_coef(c, kk, j, l)) == (if 0 <= l <= j {
            rv(c[j]) * (binom(j as nat, l as nat) as real) * rpow(-rv(kk), (j - l) as nat)
        } else {
            0 as real
        }),
{
    if 0 <= l <= j {
        let b = (binom(j as nat, l as nat) as int, 1int);
        let nk = (-kk.0, kk.1);
        lemma_rv_simple(binom(j as nat, l as nat) as int, kk);
        assert(c[j].1 > 0);
        lemma_rv_ops(c[j], b);
        lemma_rv_pow(nk, (j - l) as nat);
        lemma_rv_ops(pmul(c[j], b), ppow(nk, (j - l) as nat));
    } else {
        assert((0int as real) / (1int as real) == 0 as real) by (nonlinear_arith);
    }
}

/// The coefficient of `λ^l` of one knot, read in the reals.
pub proof fn lemma_rv_knot_coef(c: Seq<(int, int)>, kk: (int, int), l: int, n: int)
    requires
        dens_pos(c),
        0 <= n <= c.len(),
        kk.1 > 0,
    ensures
        rv(knot_coef(c, kk, l, n)) == rsum(|j: int| rv(term_coef(c, kk, j, l)), n),
        knot_coef(c, kk, l, n).1 > 0,
    decreases n,
{
    lemma_knot_coef_den(c, kk, l, n);
    if n > 0 {
        lemma_rv_knot_coef(c, kk, l, n - 1);
        lemma_term_den(c, kk, n - 1, l);
        lemma_rv_ops(knot_coef(c, kk, l, n - 1), term_coef(c, kk, n - 1, l));
    } else {
        assert((0int as real) / (1int as real) == 0 as real) by (nonlinear_arith);
    }
}

/// One term `[λ^l]_j·λ^l` of the expansion of one knot.
pub open spec fn kterm(c: Seq<(int, int)>, kk: (int, int), lv: real, j: int, l: int) -> real {
    rv(term_coef(c, kk, j, l)) * rpow(lv, l as nat)
}

/// The expansion of one knot: `Σ_{l<m} [λ^l]·λ^l = Σ_{j<m} c_j (λ − κ)^j`.
pub proof fn lemma_knot_expansion(c: Seq<(int, int)>, kk: (int, int), lv: real, m: int)
    requires
        dens_pos(c),
        c.len() == m,
        kk.1 > 0,
    ensures
        rsum(|l: int| rv(knot_coef(c, kk, l, m)) * rpow(lv, l as nat), m) == rsum(
            |j: int| rv(c[j]) * rpow(lv - rv(kk), j as nat),
            m,
        ),
{
    let y = -rv(kk);
    let fa = |l: int| rv(knot_coef(c, kk, l, m)) * rpow(lv, l as nat);
    let fb = |l: int| rsum(|j: int| kterm(c, kk, lv, j, l), m);
    let fc = |j: int| rsum(|l: int| kterm(c, kk, lv, j, l), m);
    let fd = |j: int| rv(c[j]) * rpow(lv - rv(kk), j as nat);
    // Σ_l (Σ_j t(j,l))·λ^l = Σ_l Σ_j t(j,l)·λ^l
    assert forall|l: int| 0 <= l < m implies #[trigger] fa(l) == fb(l) by {
        lemma_rv_knot_coef(c, kk, l, m);
        let p = rpow(lv, l as nat);
        lemma_rsum_scale(|j: int| rv(term_coef(c, kk, j, l)), |j: int| p * rv(term_coef(c, kk, j, l)), p, m);
        assert forall|j: int| 0 <= j < m implies p * rv(term_coef(c, kk, j, l)) == #[trigger] kterm(c, kk, lv, j, l) by {
            lemma_rmul_comm(p, rv(term_coef(c, kk, j, l)));
        }
        lemma_rsum_ext(|j: int| p * rv(term_coef(c, kk, j, l)), |j: int| kterm(c, kk, lv, j, l), m);
        lemma_rmul_comm(p, rv(knot_coef(c, kk, l, m)));
    }
    lemma_rsum_ext(fa, fb, m);
    let ff = |l: int, j: int| kterm(c, kk, lv, j, l);
    assert forall|l: int| 0 <= l < m implies #[trigger] fb(l) == rsum(|j: int| ff(l, j), m) by {
        lemma_rsum_ext(|j: int| kterm(c, kk, lv, j, l), |j: int| ff(l, j), m);
    }
    assert forall|j: int| 0 <= j < m implies #[trigger] fc(j) == rsum(|l: int| ff(l, j), m) by {
        lemma_rsum_ext(|l: int| kterm(c, kk, lv, j, l), |l: int| ff(l, j), m);
    }
    lemma_rsum_exchange(ff, fb, fc, m, m);
    assert forall|j: int| 0 <= j < m implies #[trigger] fc(j) == fd(j) by {
        let jn = j as nat;
        // t(j, l)·λ^l = c_j · bterm(λ, −κ, j, l)
        assert forall|l: int| 0 <= l < m implies #[trigger] kterm(c, kk, lv, j, l) == rv(c[j]) * bterm(lv, y, jn, l) by {
            lemma_rv_term(c, kk, j, l);
            if 0 <= l <= j {
                let (cj, b, q, p) = (rv(c[j]), binom(jn, l as nat) as real, rpow(y, (j - l) as nat), rpow(lv, l as nat));
                // ((cj·b)·q)·p = cj·((b·p)·q)
                lemma_rmul_assoc(cj, b, q);
                lemma_rmul_assoc(cj, b * q, p);
                lemma_rmul_assoc(b, q, p);
                lemma_rmul_comm(q, p);
                lemma_rmul_assoc(b, p, q);
                assert(bterm(lv, y, jn, l) == (b * p) * q);
            } else {
                lemma_rmul_unit(rpow(lv, l as nat));
                lemma_rmul_unit(rv(c[j]));
            }
        }
        lemma_rsum_scale(|l: int| bterm(lv, y, jn, l), |l: int| kterm(c, kk, lv, j, l), rv(c[j]), m);
        lemma_binomial(lv, y, jn);
        assert forall|l: int| j + 1 <= l < m implies #[trigger] bterm(lv, y, jn, l) == 0 as real by {}
        lemma_rsum_tail_zero(|l: int| bterm(lv, y, jn, l), j + 1, m);
        assert(lv + y == lv - rv(kk));
    }
    lemma_rsum_ext(fc, fd, m);
}

/// The expanded coefficient of `λ^l` over the first `i` knots, read in the
/// reals: the sum of the knots' own coefficients.
pub proof fn lemma_rv_piece_coef(knots: Seq<(Q, Vec<Q>)>, i: int, l: int)
    requires
        0 <= i <= knots.len(),
        forall|t: int| 0 <= t < knots.len() ==> (#[trigger] knots[t]).0.wf() && all_q_wf(knots[t].1@),
    ensures
        rv(piece_coef(knots, i, l)) == rsum(
            |k: int| rv(knot_coef(qvs(knots[k].1@), qv(knots[k].0), l, knots[k].1@.len() as int)),
            i,
        ),
        piece_coef(knots, i, l).1 > 0,
    decreases i,
{
    lemma_coef_dens(knots, i, l);
    if i > 0 {
        lemma_rv_piece_coef(knots, i - 1, l);
        lemma_coef_dens(knots, i - 1, l);
        let k = knots[i - 1];
        assert(k.0.wf() && all_q_wf(k.1@));
        let c = qvs(k.1@);
        assert(dens_pos(c)) by {
            assert forall|t: int| 0 <= t < c.len() implies (#[trigger] c[t]).1 > 0 by {
                assert(k.1@[t].wf());
            }
        }
        lemma_knot_coef_den(c, qv(k.0), l, k.1@.len() as int);
        lemma_rv_ops(piece_coef(knots, i - 1, l), knot_coef(c, qv(k.0), l, k.1@.len() as int));
    } else {
        assert((0int as real) / (1int as real) == 0 as real) by (nonlinear_arith);
    }
}

/// The sum of the knot polynomials below `λ` over the first `n` knots,
/// when exactly the first `i` knots lie below `λ`.
proof fn lemma_rv_sweep_sum(knots: Seq<(Q, Vec<Q>)>, lam: (int, int), i: int, n: int)
    requires
        0 <= i <= knots.len(),
        0 <= n <= knots.len(),
        lam.1 > 0,
        forall|t: int| 0 <= t < knots.len() ==> (#[trigger] knots[t]).0.wf() && all_q_wf(knots[t].1@),
        forall|t: int| 0 <= t < i ==> plt(qv(#[trigger] knots[t].0), lam),
        forall|t: int| i <= t < knots.len() ==> !plt(qv(#[trigger] knots[t].0), lam),
    ensures
        rv(sweep_sum(knots, lam, n)) == rsum(
            |k: int| rv(poly_sum(qvs(knots[k].1@), psub(lam, qv(knots[k].0)), knots[k].1@.len())),
            if n < i { n } else { i },
        ),
        sweep_sum(knots, lam, n).1 > 0,
    decreases n,
{
    if n > 0 {
        lemma_rv_sweep_sum(knots, lam, i, n - 1);
        let k = knots[n - 1];
        assert(k.0.wf() && all_q_wf(k.1@));
        if n - 1 < i {
            assert(plt(qv(k.0), lam));
            let c = qvs(k.1@);
            assert(dens_pos(c)) by {
                assert forall|t: int| 0 <= t < c.len() implies (#[trigger] c[t]).1 > 0 by {
                    assert(k.1@[t].wf());
                }
            }
            lemma_rv_ops(lam, qv(k.0));
            lemma_rv_poly_sum(c, psub(lam, qv(k.0)), k.1@.len());
            lemma_rv_ops(sweep_sum(knots, lam, n - 1), poly_sum(c, psub(lam, qv(k.0)), k.1@.len()));
        } else {
            assert(!plt(qv(k.0), lam));
        }
    } else {
        assert((0int as real) / (1int as real) == 0 as real) by (nonlinear_arith);
    }
}

/// One knot's term `[λ^l]·λ^l`.
pub open spec fn pterm(knots: Seq<(Q, Vec<Q>)>, m: int, lv: real, k: int, l: int) -> real {
    rv(knot_coef(qvs(knots[k].1@), qv(knots[k].0), l, m)) * rpow(lv, l as nat)
}

/// On the interval of piece `i` (exactly the first `i` knots lie below
/// `λ`) the sweep function is the polynomial of that piece: the sum of the
/// knot polynomials below `λ` equals the expanded coefficients of the first
/// `i` knots evaluated at `λ`.
pub proof fn lemma_piece_is_sweep(knots: Seq<(Q, Vec<Q>)>, d: nat, lam: (int, int), i: int)
    requires
        0 <= i <= knots.len(),
        lam.1 > 0,
        forall|t: int| 0 <= t < knots.len() ==> (#[trigger] knots[t]).0.wf() && all_q_wf(knots[t].1@) && knots[t].1@.len()
            == d + 1,
        forall|t: int| 0 <= t < i ==> plt(qv(#[trigger] knots[t].0), lam),
        forall|t: int| i <= t < knots.len() ==> !plt(qv(#[trigger] knots[t].0), lam),
    ensures
        equiv(
            sweep_sum(knots, lam, knots.len() as int),
            poly_sum(Seq::new(d + 1, |l: int| piece_coef(knots, i, l)), lam, d + 1),
        ),
{
    let m = (d + 1) as int;
    let lv = rv(lam);
    let pc = Seq::new(d + 1, |l: int| piece_coef(knots, i, l));
    assert(dens_pos(pc)) by {
        assert forall|l: int| 0 <= l < pc.len() implies (#[trigger] pc[l]).1 > 0 by {
            lemma_rv_piece_coef(knots, i, l);
        }
    }
    lemma_rv_poly_sum(pc, lam, d + 1);
    let ga = |l: int| rv(pc[l]) * rpow(lv, l as nat);
    let gb = |l: int| rsum(|k: int| pterm(knots, m, lv, k, l), i);
    let gc = |k: int| rsum(|l: int| pterm(knots, m, lv, k, l), m);
    let gd = |k: int| rv(poly_sum(qvs(knots[k].1@), psub(lam, qv(knots[k].0)), knots[k].1@.len()));
    lemma_rsum_ext(|l: int| rv(pc[l]) * rpow(rv(lam), l as nat), ga, m);
    // Σ_l (Σ_k kc(k,l))·λ^l = Σ_l Σ_k kc(k,l)·λ^l
    assert forall|l: int| 0 <= l < m implies #[trigger] ga(l) == gb(l) by {
        lemma_rv_piece_coef(knots, i, l);
        let p = rpow(lv, l as nat);
        let kc = |k: int| rv(knot_coef(qvs(knots[k].1@), qv(knots[k].0), l, knots[k].1@.len() as int));
        lemma_rsum_scale(kc, |k: int| p * kc(k), p, i);
        assert forall|k: int| 0 <= k < i implies p * kc(k) == #[trigger] pterm(knots, m, lv, k, l) by {
            assert(knots[k].1@.len() == d + 1);
            lemma_rmul_comm(p, kc(k));
        }
        lemma_rsum_ext(|k: int| p * kc(k), |k: int| pterm(knots, m, lv, k, l), i);
        lemma_rmul_comm(p, rv(pc[l]));
    }
    lemma_rsum_ext(ga, gb, m);
    let ff = |l: int, k: int| pterm(knots, m, lv, k, l);
    assert forall|l: int| 0 <= l < m implies #[trigger] gb(l) == rsum(|k: int| ff(l, k), i) by {
        lemma_rsum_ext(|k: int| pterm(knots, m, lv, k, l), |k: int| ff(l, k), i);
    }
    assert forall|k: int| 0 <= k < i implies #[trigger] gc(k) == rsum(|l: int| ff(l, k), m) by {
        lemma_rsum_ext(|l: int| pterm(knots, m, lv, k, l), |l: int| ff(l, k), m);
    }
    lemma_rsum_exchange(ff, gb, gc, m, i);
    // for each knot below λ: Σ_l kc(k,l)·λ^l = its polynomial at λ
    assert forall|k: int| 0 <= k < i implies #[trigger] gc(k) == gd(k) by {
        let kn = knots[k];
        assert(kn.0.wf() && all_q_wf(kn.1@) && kn.1@.len() == d + 1);
        let c = qvs(kn.1@);
        assert(dens_pos(c)) by {
            assert forall|t: int| 0 <= t < c.len() implies (#[trigger] c[t]).1 > 0 by {
                assert(kn.1@[t].wf());
            }
        }
        lemma_knot_expansion(c, qv(kn.0), lv, m);
        lemma_rsum_ext(|l: int| pterm(knots, m, lv, k, l), |l: int| rv(knot_coef(c, qv(kn.0), l, m)) * rpow(lv, l as nat), m);
        lemma_rv_ops(lam, qv(kn.0));
        lemma_rv_poly_sum(c, psub(lam, qv(kn.0)), kn.1@.len());
        lemma_rsum_ext(
            |j: int| rv(c[j]) * rpow(lv - rv(qv(kn.0)), j as nat),
            |j: int| rv(c[j]) * rpow(rv(psub(lam, qv(kn.0))), j as nat),
            m,
        );
    }
    lemma_rsum_ext(gc, gd, i);
    lemma_rv_sweep_sum(knots, lam, i, knots.len() as int);
    lemma_rsum_ext(gd, |k: int| rv(poly_sum(qvs(knots[k].1@), psub(lam, qv(knots[k].0)), knots[k].1@.len())), i);
    lemma_rv_ops(sweep_sum(knots, lam, knots.len() as int), poly_sum(pc, lam, d + 1));
}

/// Above every knot the sweep function is constant: when the expanded
/// coefficients of `λ^1 … λ^d` over all knots vanish (what `total` checks),
/// the sum of the knot polynomials at any `λ` above every knot is the
/// constant coefficient (what `total` returns).
pub proof fn lemma_total_is_tail(knots: Seq<(Q, Vec<Q>)>, d: nat, lam: (int, int))
    requires
        lam.1 > 0,
        forall|t: int| 0 <= t < knots.len() ==> (#[trigger] knots[t]).0.wf() && all_q_wf(knots[t].1@) && knots[t].1@.len()
            == d + 1,
        forall|t: int| 0 <= t < knots.len() ==> plt(qv(#[trigger] knots[t].0), lam),
        forall|l: int| 1 <= l <= d ==> (#[trigger] piece_coef(knots, knots.len() as int, l)).0 == 0,
    ensures
        equiv(sweep_sum(knots, lam, knots.len() as int), piece_coef(knots, knots.len() as int, 0)),
{
    let n = knots.len() as int;
    let m = (d + 1) as int;
    lemma_piece_is_sweep(knots, d, lam, n);
    let pc = Seq::new(d + 1, |l: int| piece_coef(knots, n, l));
    assert(dens_pos(pc)) by {
        assert forall|l: int| 0 <= l < pc.len() implies (#[trigger] pc[l]).1 > 0 by {
            lemma_rv_piece_coef(knots, n, l);
        }
    }
    lemma_rv_poly_sum(pc, lam, d + 1);
    let f = |l: int| rv(pc[l]) * rpow(rv(lam), l as nat);
    let g = |l: int| f(l + 1);
    assert forall|l: int| 0 <= l < d implies #[trigger] g(l) == 0 as real by {
        assert(pc[l + 1].0 == 0);
        assert((0int as real) / (pc[l + 1].1 as real) == 0 as real) by (nonlinear_arith)
            requires
                pc[l + 1].1 > 0,
        ;
        lemma_rmul_unit(rpow(rv(lam), (l + 1) as nat));
    }
    lemma_rsum_zero(g, d as int);
    assert forall|l: int| 0 <= l < d implies #[trigger] g(l) == f(l + 1) by {}
    lemma_rsum_front(f, g, d as int);
    assert(rpow(rv(lam), 0) == 1 as real);
    lemma_rmul_unit(rv(pc[0]));
    lemma_rv_piece_coef(knots, n, 0);
    lemma_rv_sweep_sum(knots, lam, n, n);
    lemma_rv_ops(poly_sum(pc, lam, d + 1), pc[0]);
    lemma_rv_ops(sweep_sum(knots, lam, n), poly_sum(pc, lam, d + 1));
    lemma_rv_ops(sweep_sum(knots, lam, n), pc[0]);
}

} // verus!
