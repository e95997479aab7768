//! Square integer matrices as sequences of rows: products, scalar matrices,
//! and the row operations of fraction-free elimination with what they keep.
use crate::num::{dot_int, dot_prefix, lemma_dot_lincomb, lemma_dot_scale};
use vstd::prelude::*;

verus! {

/// Column `j` of a matrix given by its rows.
pub open spec fn column(a: Seq<Seq<int>>, j: int) -> Seq<int> {
    Seq::new(a.len(), |t: int| a[t][j])
}

/// The row vector `x` times the square matrix `a`.
pub open spec fn vec_mat(x: Seq<int>, a: Seq<Seq<int>>) -> Seq<int> {
    Seq::new(x.len(), |j: int| dot_int(x, column(a, j)))
}

/// The product of two square matrices.
pub open spec fn mat_mul(a: Seq<Seq<int>>, b: Seq<Seq<int>>) -> Seq<Seq<int>> {
    Seq::new(a.len(), |i: int| vec_mat(a[i], b))
}

/// `c` times the `n × n` identity.
pub open spec fn scalar_mat(c: int, n: nat) -> Seq<Seq<int>> {
    Seq::new(n, |i: int| Seq::new(n, |j: int| if i == j { c } else { 0 }))
}

/// An `n × n` matrix.
pub open spec fn is_square(a: Seq<Seq<int>>, n: nat) -> bool {
    a.len() == n && forall|i: int| 0 <= i < n ==> (#[trigger] a[i]).len() == n
}

/// A row-major `n × n` matrix, row by row.
pub open spec fn square_of(v: Seq<int>, n: nat) -> Seq<Seq<int>> {
    Seq::new(n, |i: int| Seq::new(n, |j: int| v[i * n + j]))
}

/// `c` times every entry.
pub open spec fn mat_scale(c: int, a: Seq<Seq<int>>) -> Seq<Seq<int>> {
    Seq::new(a.len(), |i: int| Seq::new(a[i].len(), |j: int| c * a[i][j]))
}

/// Rows `p` and `k` exchanged.
pub open spec fn swap_rows(a: Seq<Seq<int>>, p: int, k: int) -> Seq<Seq<int>> {
    a.update(p, a[k]).update(k, a[p])
}

/// Columns `p` and `k` exchanged.
pub open spec fn swap_cols(g: Seq<Seq<int>>, p: int, k: int) -> Seq<Seq<int>> {
    Seq::new(g.len(), |u: int| g[u].update(p, g[u][k]).update(k, g[u][p]))
}

/// The column operation on `g` that undoes, up to the factor `a`, the row
/// operation `row_i ← (a·row_i − f·row_k) / prev`.
pub open spec fn undo_cols(g: Seq<Seq<int>>, i: int, k: int, a: int, f: int, prev: int) -> Seq<Seq<int>> {
    Seq::new(
        g.len(),
        |u: int|
            Seq::new(
                g[u].len(),
                |t: int|
                    if t == i {
                        prev * g[u][i]
                    } else if t == k {
                        a * g[u][k] + f * g[u][i]
                    } else {
                        a * g[u][t]
                    },
            ),
    )
}

/// `p·x = p·y` with `p ≠ 0` gives `x = y`.
pub proof fn lemma_cancel(p: int, x: int, y: int)
    requires
        p != 0,
        p * x == p * y,
    ensures
        x == y,
{
    assert(p * (x - y) == 0) by (nonlinear_arith)
        requires
            p * x == p * y,
    ;
    assert(x - y == 0) by (nonlinear_arith)
        requires
            p * (x - y) == 0,
            p != 0,
    ;
}

/// A dot product against `c` times a unit vector picks one entry.
pub proof fn lemma_dot_unit(e: Seq<int>, y: Seq<int>, u: int, c: int, n: int)
    requires
        0 <= n,
        forall|t: int| 0 <= t < n ==> #[trigger] e[t] == (if t == u { c } else { 0 }),
    ensures
        dot_prefix(e, y, n) == (if 0 <= u < n { c * y[u] } else { 0 }),
        dot_prefix(y, e, n) == (if 0 <= u < n { c * y[u] } else { 0 }),
    decreases n,
{
    if n > 0 {
        lemma_dot_unit(e, y, u, c, n - 1);
        let t = n - 1;
        assert(e[t] == (if t == u { c } else { 0 }));
        if t != u {
            assert(e[t] * y[t] == 0 && y[t] * e[t] == 0) by (nonlinear_arith)
                requires
                    e[t] == 0,
            ;
        } else {
            assert(y[t] * e[t] == c * y[t]) by (nonlinear_arith)
                requires
                    e[t] == c,
            ;
        }
    }
}

/// Changing entry `p` of both factors changes the dot product by the
/// difference of the two products there.
pub proof fn lemma_dot_update_both(a: Seq<int>, x: Seq<int>, p: int, u: int, v: int, n: int)
    requires
        0 <= p < a.len(),
        p < x.len(),
        0 <= n <= a.len(),
        n <= x.len(),
    ensures
        dot_prefix(a.update(p, u), x.update(p, v), n) == dot_prefix(a, x, n) + (if p < n {
            u * v - a[p] * x[p]
        } else {
            0
        }),
    decreases n,
{
    if n > 0 {
        lemma_dot_update_both(a, x, p, u, v, n - 1);
    }
}

/// Scaling the first factor scales the dot product.
pub proof fn lemma_dot_scale_first(c: int, a: Seq<int>, t: Seq<int>, x: Seq<int>, n: int)
    requires
        0 <= n,
        forall|j: int| 0 <= j < n ==> #[trigger] t[j] == c * a[j],
    ensures
        dot_prefix(t, x, n) == c * dot_prefix(a, x, n),
{
    lemma_dot_lincomb(t, a, a, x, c, 0, n);
    assert(c * dot_prefix(a, x, n) - 0 * dot_prefix(a, x, n) == c * dot_prefix(a, x, n)) by (nonlinear_arith);
}

/// `x·(A·b) = (x·A)·b` over the first `m` entries of `x`.
proof fn lemma_assoc_prefix(x: Seq<int>, a: Seq<Seq<int>>, b: Seq<int>, m: int)
    requires
        is_square(a, b.len()),
        x.len() == b.len(),
        0 <= m <= b.len(),
    ensures
        dot_prefix(x, Seq::new(b.len(), |t: int| dot_int(a[t], b)), m) == dot_int(
            Seq::new(b.len(), |j: int| dot_prefix(x, column(a, j), m)),
            b,
        ),
    decreases m,
{
    let n = b.len() as int;
    let w = Seq::new(b.len(), |j: int| dot_prefix(x, column(a, j), m));
    if m == 0 {
        lemma_dot_lincomb(w, w, w, b, 0, 0, n);
        assert(0 * dot_prefix(w, b, n) - 0 * dot_prefix(w, b, n) == 0) by (nonlinear_arith);
    } else {
        lemma_assoc_prefix(x, a, b, m - 1);
        let w0 = Seq::new(b.len(), |j: int| dot_prefix(x, column(a, j), m - 1));
        assert forall|j: int| 0 <= j < n implies #[trigger] w[j] == 1 * w0[j] - (-x[m - 1]) * a[m - 1][j] by {
            assert(column(a, j)[m - 1] == a[m - 1][j]);
            assert(x[m - 1] * a[m - 1][j] == 0 - (-x[m - 1]) * a[m - 1][j]) by (nonlinear_arith);
        }
        lemma_dot_lincomb(w, w0, a[m - 1], b, 1, -x[m - 1], n);
        assert(a[m - 1].len() == n);
        let (p, q) = (dot_prefix(w0, b, n), dot_prefix(a[m - 1], b, n));
        assert(1 * p - (-x[m - 1]) * q == p + x[m - 1] * q) by (nonlinear_arith);
    }
}

/// `x·(A·b) = (x·A)·b`.
pub proof fn lemma_assoc(x: Seq<int>, a: Seq<Seq<int>>, b: Seq<int>)
    requires
        is_square(a, b.len()),
        x.len() == b.len(),
    ensures
        dot_int(x, Seq::new(b.len(), |t: int| dot_int(a[t], b))) == dot_int(vec_mat(x, a), b),
{
    lemma_assoc_prefix(x, a, b, b.len() as int);
    assert(Seq::new(b.len(), |j: int| dot_prefix(x, column(a, j), b.len() as int)) =~= vec_mat(x, a));
}

/// `I·A = A`.
pub proof fn lemma_identity_left(a: Seq<Seq<int>>, d: nat)
    requires
        is_square(a, d),
    ensures
        mat_mul(scalar_mat(1, d), a) == a,
{
    let n = d as int;
    assert forall|i: int| 0 <= i < n implies #[trigger] mat_mul(scalar_mat(1, d), a)[i] =~= a[i] by {
        assert forall|j: int| 0 <= j < n implies #[trigger] vec_mat(scalar_mat(1, d)[i], a)[j] == a[i][j] by {
            lemma_dot_unit(scalar_mat(1, d)[i], column(a, j), i, 1, n);
            assert(column(a, j)[i] == a[i][j]);
        }
    }
    assert(mat_mul(scalar_mat(1, d), a) =~= a);
}

/// `R·N = L` and `G·R = s·I` after one row operation
/// `row_i ← (a·row_i − f·row_k)/prev` applied to both `L` and `R`
/// (`G` receiving the matching column operation, `s` the factor `a`).
pub proof fn lemma_row_op(
    l: Seq<Seq<int>>,
    r: Seq<Seq<int>>,
    ln: Seq<Seq<int>>,
    rn: Seq<Seq<int>>,
    nm: Seq<Seq<int>>,
    g: Seq<Seq<int>>,
    s: int,
    d: nat,
    i: int,
    k: int,
    a: int,
    f: int,
    prev: int,
)
    requires
        is_square(l, d),
        is_square(r, d),
        is_square(ln, d),
        is_square(rn, d),
        is_square(nm, d),
        is_square(g, d),
        0 <= i < d,
        0 <= k < d,
        i != k,
        prev != 0,
        mat_mul(r, nm) == l,
        mat_mul(g, r) == scalar_mat(s, d),
        forall|c: int| 0 <= c < d ==> prev * #[trigger] ln[i][c] == a * l[i][c] - f * l[k][c],
        forall|c: int| 0 <= c < d ==> prev * #[trigger] rn[i][c] == a * r[i][c] - f * r[k][c],
        forall|t: int| 0 <= t < d && t != i ==> #[trigger] ln[t] == l[t],
        forall|t: int| 0 <= t < d && t != i ==> #[trigger] rn[t] == r[t],
    ensures
        mat_mul(rn, nm) == ln,
        mat_mul(undo_cols(g, i, k, a, f, prev), rn) == scalar_mat(a * s, d),
{
    let n = d as int;
    assert forall|t: int| 0 <= t < n implies #[trigger] mat_mul(rn, nm)[t] =~= ln[t] by {
        if t != i {
            assert(rn[t] == r[t] && ln[t] == l[t]);
            assert(mat_mul(r, nm)[t] == l[t]);
        } else {
            assert forall|j: int| 0 <= j < n implies #[trigger] vec_mat(rn[i], nm)[j] == ln[i][j] by {
                let x = column(nm, j);
                let tt = Seq::new(d, |c: int| prev * rn[i][c]);
                lemma_dot_scale_first(prev, rn[i], tt, x, n);
                lemma_dot_lincomb(tt, r[i], r[k], x, a, f, n);
                assert(mat_mul(r, nm)[i][j] == l[i][j]);
                assert(mat_mul(r, nm)[k][j] == l[k][j]);
                assert(prev * ln[i][j] == a * l[i][j] - f * l[k][j]);
                lemma_cancel(prev, dot_int(rn[i], x), ln[i][j]);
            }
        }
    }
    assert(mat_mul(rn, nm) =~= ln);
    let gn = undo_cols(g, i, k, a, f, prev);
    assert forall|u: int| 0 <= u < n implies #[trigger] mat_mul(gn, rn)[u] =~= scalar_mat(a * s, d)[u] by {
        assert forall|j: int| 0 <= j < n implies #[trigger] vec_mat(gn[u], rn)[j] == (if u == j {
            a * s
        } else {
            0
        }) by {
            let x = column(r, j);
            let xn = column(rn, j);
            assert(xn =~= x.update(i, rn[i][j]));
            let big_a = Seq::new(d, |t: int| a * g[u][t]);
            lemma_dot_scale_first(a, g[u], big_a, x, n);
            let a1 = big_a.update(i, prev * g[u][i]);
            lemma_dot_update_both(big_a, x, i, prev * g[u][i], rn[i][j], n);
            let a2 = a1.update(k, a * g[u][k] + f * g[u][i]);
            assert(xn.update(k, xn[k]) =~= xn);
            lemma_dot_update_both(a1, xn, k, a * g[u][k] + f * g[u][i], xn[k], n);
            assert(gn[u] =~= a2);
            assert(g[u].len() == n);
            assert(mat_mul(g, r)[u] == vec_mat(g[u], r));
            assert(vec_mat(g[u], r)[j] == dot_int(g[u], column(r, j)));
            assert(mat_mul(g, r)[u][j] == scalar_mat(s, d)[u][j]);
            let dd = dot_int(g[u], x);
            assert(dd == (if u == j { s } else { 0 }));
            assert(xn[k] == r[k][j]);
            assert(x[i] == r[i][j]);
            let (gi, gk, ri, rk, rni) = (g[u][i], g[u][k], r[i][j], r[k][j], rn[i][j]);
            assert(prev * rni == a * ri - f * rk);
            assert(gi * (prev * rni) == gi * (a * ri - f * rk));
            assert(gi * (prev * rni) == prev * gi * rni) by (nonlinear_arith);
            assert(gi * (a * ri - f * rk) == a * gi * ri - f * gi * rk) by (nonlinear_arith);
            assert((a * gk + f * gi) * rk - a * gk * rk == f * gi * rk) by (nonlinear_arith);
            assert(a * dd == (if u == j { a * s } else { 0 })) by (nonlinear_arith)
                requires
                    dd == (if u == j { s } else { 0 }),
            ;
        }
    }
    assert(mat_mul(gn, rn) =~= scalar_mat(a * s, d));
}

/// Exchanging rows `p` and `k` of both `L` and `R` keeps `R·N = L`, and
/// `G·R = s·I` once the same columns of `G` are exchanged.
pub proof fn lemma_swap(
    l: Seq<Seq<int>>,
    r: Seq<Seq<int>>,
    nm: Seq<Seq<int>>,
    g: Seq<Seq<int>>,
    s: int,
    d: nat,
    p: int,
    k: int,
)
    requires
        is_square(l, d),
        is_square(r, d),
        is_square(nm, d),
        is_square(g, d),
        0 <= p < d,
        0 <= k < d,
        p != k,
        mat_mul(r, nm) == l,
        mat_mul(g, r) == scalar_mat(s, d),
    ensures
        mat_mul(swap_rows(r, p, k), nm) == swap_rows(l, p, k),
        mat_mul(swap_cols(g, p, k), swap_rows(r, p, k)) == scalar_mat(s, d),
{
    let n = d as int;
    let rs = swap_rows(r, p, k);
    assert forall|t: int| 0 <= t < n implies #[trigger] mat_mul(rs, nm)[t] == swap_rows(l, p, k)[t] by {
        assert(mat_mul(r, nm)[p] == l[p] && mat_mul(r, nm)[k] == l[k] && mat_mul(r, nm)[t] == l[t]);
    }
    assert(mat_mul(rs, nm) =~= swap_rows(l, p, k));
    let gs = swap_cols(g, p, k);
    assert forall|u: int| 0 <= u < n implies #[trigger] mat_mul(gs, rs)[u] =~= scalar_mat(s, d)[u] by {
        assert forall|j: int| 0 <= j < n implies #[trigger] vec_mat(gs[u], rs)[j] == scalar_mat(s, d)[u][j] by {
            let x = column(r, j);
            let x1 = x.update(p, x[k]);
            let g1 = g[u].update(p, g[u][k]);
            lemma_dot_update_both(g[u], x, p, g[u][k], x[k], n);
            lemma_dot_update_both(g1, x1, k, g[u][p], x[p], n);
            assert(column(rs, j) =~= x1.update(k, x[p]));
            assert(gs[u] =~= g1.update(k, g[u][p]));
            assert(mat_mul(g, r)[u][j] == scalar_mat(s, d)[u][j]);
        }
    }
    assert(mat_mul(gs, rs) =~= scalar_mat(s, d));
}

/// From `R·N = c·I` and an inverse `G·R = s·I` (`c, s ≠ 0`): `N·R = c·I`.
pub proof fn lemma_right_inverse(r: Seq<Seq<int>>, nm: Seq<Seq<int>>, g: Seq<Seq<int>>, s: int, c: int, d: nat)
    requires
        is_square(r, d),
        is_square(nm, d),
        is_square(g, d),
        s != 0,
        mat_mul(r, nm) == scalar_mat(c, d),
        mat_mul(g, r) == scalar_mat(s, d),
    ensures
        mat_mul(nm, r) == scalar_mat(c, d),
{
    let n = d as int;
    assert forall|u: int| 0 <= u < n implies #[trigger] mat_mul(nm, r)[u] =~= scalar_mat(c, d)[u] by {
        // s·N[u] = c·G[u]
        assert forall|cc: int| 0 <= cc < n implies s * #[trigger] nm[u][cc] == c * g[u][cc] by {
            let b = column(nm, cc);
            lemma_assoc(g[u], r, b);
            let mv = Seq::new(d, |t: int| dot_int(r[t], b));
            assert forall|t: int| 0 <= t < n implies #[trigger] mv[t] == (if t == cc { c } else { 0 }) by {
                assert(r[t].len() == n);
                assert(mat_mul(r, nm)[t] == scalar_mat(c, d)[t]);
                assert(mat_mul(r, nm)[t][cc] == scalar_mat(c, d)[t][cc]);
                assert(mat_mul(r, nm)[t] == vec_mat(r[t], nm));
                assert(vec_mat(r[t], nm)[cc] == dot_int(r[t], column(nm, cc)));
                assert(scalar_mat(c, d)[t][cc] == (if t == cc { c } else { 0 }));
                assert(mv[t] == dot_int(r[t], b));
            }
            lemma_dot_unit(mv, g[u], cc, c, n);
            assert(vec_mat(g[u], r) =~= mat_mul(g, r)[u]);
            assert forall|t: int| 0 <= t < n implies #[trigger] vec_mat(g[u], r)[t] == (if t == u { s } else { 0 }) by {
                assert(mat_mul(g, r)[u][t] == scalar_mat(s, d)[u][t]);
            }
            lemma_dot_unit(vec_mat(g[u], r), b, u, s, n);
            assert(b[u] == nm[u][cc]);
        }
        assert forall|j: int| 0 <= j < n implies #[trigger] vec_mat(nm[u], r)[j] == scalar_mat(c, d)[u][j] by {
            let x = column(r, j);
            let t1 = Seq::new(d, |cc: int| s * nm[u][cc]);
            lemma_dot_scale_first(s, nm[u], t1, x, n);
            lemma_dot_scale_first(c, g[u], t1, x, n);
            assert(g[u].len() == n);
            assert(mat_mul(g, r)[u] == scalar_mat(s, d)[u]);
            assert(mat_mul(g, r)[u][j] == scalar_mat(s, d)[u][j]);
            assert(mat_mul(g, r)[u] == vec_mat(g[u], r));
            assert(vec_mat(g[u], r)[j] == dot_int(g[u], column(r, j)));
            let dd = dot_int(g[u], x);
            assert(c * dd == s * (if u == j { c } else { 0 })) by (nonlinear_arith)
                requires
                    dd == (if u == j { s } else { 0 }),
            ;
            lemma_cancel(s, dot_int(nm[u], x), if u == j { c } else { 0 });
        }
    }
    assert(mat_mul(nm, r) =~= scalar_mat(c, d));
}

/// Scaling one factor of a product scales the product.
pub proof fn lemma_scale_product(a: Seq<Seq<int>>, b: Seq<Seq<int>>, e: int, c: int, d: nat)
    requires
        is_square(a, d),
        is_square(b, d),
        mat_mul(a, b) == scalar_mat(c, d),
    ensures
        mat_mul(mat_scale(e, a), b) == scalar_mat(e * c, d),
        mat_mul(b, a) == scalar_mat(c, d) ==> mat_mul(b, mat_scale(e, a)) == scalar_mat(e * c, d),
{
    let n = d as int;
    let ea = mat_scale(e, a);
    assert forall|i: int| 0 <= i < n implies #[trigger] mat_mul(ea, b)[i] =~= scalar_mat(e * c, d)[i] by {
        assert forall|j: int| 0 <= j < n implies #[trigger] vec_mat(ea[i], b)[j] == scalar_mat(e * c, d)[i][j] by {
            lemma_dot_scale_first(e, a[i], ea[i], column(b, j), n);
            assert(a[i].len() == n);
            assert(mat_mul(a, b)[i] == scalar_mat(c, d)[i]);
            assert(mat_mul(a, b)[i][j] == scalar_mat(c, d)[i][j]);
            assert(mat_mul(a, b)[i] == vec_mat(a[i], b));
            assert(vec_mat(a[i], b)[j] == dot_int(a[i], column(b, j)));
            let dd = dot_int(a[i], column(b, j));
            assert(e * dd == (if i == j { e * c } else { 0 })) by (nonlinear_arith)
                requires
                    dd == (if i == j { c } else { 0 }),
            ;
        }
    }
    assert(mat_mul(ea, b) =~= scalar_mat(e * c, d));
    if mat_mul(b, a) == scalar_mat(c, d) {
        assert forall|i: int| 0 <= i < n implies #[trigger] mat_mul(b, ea)[i] =~= scalar_mat(e * c, d)[i] by {
            assert forall|j: int| 0 <= j < n implies #[trigger] vec_mat(b[i], ea)[j] == scalar_mat(e * c, d)[i][j] by {
                lemma_dot_scale(b[i], column(a, j), column(ea, j), e, n);
                assert(b[i].len() == n);
                assert(mat_mul(b, a)[i] == scalar_mat(c, d)[i]);
                assert(mat_mul(b, a)[i][j] == scalar_mat(c, d)[i][j]);
                assert(mat_mul(b, a)[i] == vec_mat(b[i], a));
                assert(vec_mat(b[i], a)[j] == dot_int(b[i], column(a, j)));
                let dd = dot_int(b[i], column(a, j));
                assert(e * dd == (if i == j { e * c } else { 0 })) by (nonlinear_arith)
                    requires
                        dd == (if i == j { c } else { 0 }),
                ;
            }
        }
        assert(mat_mul(b, ea) =~= scalar_mat(e * c, d));
    }
}

} // verus!
