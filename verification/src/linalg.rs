//! Exact integer linear algebra for the local kernel.
//!
//! * [`det_adj`]: one fraction-free Gauss–Jordan (Bareiss) pass over `[N | I]`
//!   returning `det N` and `adj N = det N · N^{-1}`, from which vertex,
//!   determinant, edge directions and the dual vector are all read off.
//! * [`Echelon`]: incremental fraction-free row echelon form used to prune the
//!   subset enumeration at a vertex (dependent prefixes are never extended) and
//!   to compute the direction of a line given `d−1` independent hyperplanes.
use crate::num::{
    all_wf, canonical_direction, dot_int, dot_prefix, gcd_seq, lemma_dot_lincomb, lemma_dot_scale,
    lemma_dot_termwise, lemma_dot_update, lex_sign_of, make_primitive, mul_zz, neg_z, sub_zz, zvals, Z,
    add_zz, content,
};
use crate::arith::{divides, times};
use crate::matrix::{
    is_square, lemma_cancel, lemma_identity_left, lemma_right_inverse, lemma_row_op, lemma_scale_product, lemma_swap,
    mat_mul, mat_scale, scalar_mat, square_of, swap_cols, swap_rows, undo_cols,
};
use vstd::prelude::*;

verus! {

/// `0 ≤ i·w + j < n·w` for a cell `(i, j)` of an `n × w` row-major matrix.
pub proof fn lemma_cell(i: int, j: int, w: int, n: int)
    requires
        0 <= i < n,
        0 <= j < w,
    ensures
        0 <= i * w + j < n * w,
        i * w + j + 1 <= n * w,
{
    assert(0 <= i * w + j < n * w) by (nonlinear_arith)
        requires
            0 <= i < n,
            0 <= j < w,
    ;
}

/// Every row has `d` well-formed entries.
pub open spec fn square_rows(rows: Seq<&[Z]>) -> bool {
    forall|i: int| 0 <= i < rows.len() ==> (#[trigger] rows[i])@.len() == rows.len() && all_wf(rows[i]@)
}

/// The rows as integer vectors.
pub open spec fn int_rows(rows: Seq<&[Z]>) -> Seq<Seq<int>> {
    Seq::new(rows.len(), |i: int| zvals(rows[i]@))
}

/// The left `d` columns of the working rows `[L | R]`.
pub open spec fn left_block(m: Seq<Vec<Z>>, d: nat) -> Seq<Seq<int>> {
    Seq::new(d, |i: int| Seq::new(d, |j: int| m[i]@[j]@))
}

/// The right `d` columns of the working rows `[L | R]`.
pub open spec fn right_block(m: Seq<Vec<Z>>, d: nat) -> Seq<Seq<int>> {
    Seq::new(d, |i: int| Seq::new(d, |j: int| m[i]@[d + j]@))
}

/// `d` well-formed rows of `2d` entries.
pub open spec fn work_shape(m: Seq<Vec<Z>>, d: nat) -> bool {
    m.len() == d && forall|i: int| 0 <= i < d ==> (#[trigger] m[i])@.len() == 2 * d && all_wf(m[i]@)
}

/// Columns `0..k` of `lb` are those of `c·I`.
pub open spec fn cols_scalar(lb: Seq<Seq<int>>, c: int, k: int, d: nat) -> bool {
    forall|i: int, j: int| 0 <= i < d && 0 <= j < k ==> #[trigger] lb[i][j] == (if i == j { c } else { 0 })
}

/// `x ← (a·x − f·y) / prev` entry by entry, entries of `x` and `y` both
/// zero staying zero; `false` exactly when some `a·x_c − f·y_c` is not a
/// multiple of `prev`.
fn combine_rows(x: &mut Vec<Z>, y: &Vec<Z>, a: &Z, f: &Z, prev: &Z) -> (ok: bool)
    requires
        old(x)@.len() == y@.len(),
        all_wf(old(x)@),
        all_wf(y@),
        a.wf(),
        f.wf(),
        prev.wf(),
        prev@ != 0,
    ensures
        final(x)@.len() == old(x)@.len(),
        all_wf(final(x)@),
        ok ==> forall|c: int|
            0 <= c < y@.len() ==> prev@ * (#[trigger] final(x)@[c])@ == a@ * old(x)@[c]@ - f@ * y@[c]@,
        ok <==> forall|c: int|
            0 <= c < y@.len() ==> divides(prev@, #[trigger] (a@ * old(x)@[c]@) - f@ * y@[c]@),
{
    let ghost x0 = x@;
    let n = x.len();
    let mut j: usize = 0;
    while j < n
        invariant
            n == x@.len(),
            x0 == old(x)@,
            x0.len() == n,
            y@.len() == n,
            j <= n,
            all_wf(x@),
            all_wf(y@),
            a.wf(),
            f.wf(),
            prev.wf(),
            prev@ != 0,
            forall|c: int| 0 <= c < j ==> prev@ * (#[trigger] x@[c])@ == a@ * x0[c]@ - f@ * y@[c]@,
            forall|c: int| 0 <= c < j ==> divides(prev@, #[trigger] (a@ * x0[c]@) - f@ * y@[c]@),
            forall|c: int| j <= c < n ==> #[trigger] x@[c] == x0[c],
        decreases n - j,
    {
        let xa = x[j].clone();
        let b = y[j].clone();
        if !(xa.is_zero() && b.is_zero()) {
            let val = if b.is_zero() {
                mul_zz(&xa, a)
            } else if xa.is_zero() {
                neg_z(&mul_zz(f, &b))
            } else {
                sub_zz(&mul_zz(&xa, a), &mul_zz(f, &b))
            };
            proof {
                let (u, v, aa, ff) = (xa@, b@, a@, f@);
                assert(val@ == aa * u - ff * v) by (nonlinear_arith)
                    requires
                        v == 0 ==> val@ == u * aa,
                        v != 0 && u == 0 ==> val@ == -(ff * v),
                        v != 0 && u != 0 ==> val@ == u * aa - ff * v,
                ;
            }
            match val.div_checked(prev) {
                Some(q) => {
                    proof {
                        let (qq, pp, vv) = (q@, prev@, val@);
                        assert(pp * qq == vv) by (nonlinear_arith)
                            requires
                                qq * pp == vv,
                        ;
                        assert(vv == times(pp, qq));
                        assert(divides(prev@, a@ * x0[j as int]@ - f@ * y@[j as int]@));
                    }
                    x.set(j, q);
                },
                None => {
                    proof {
                        assert(!divides(prev@, a@ * x0[j as int]@ - f@ * y@[j as int]@));
                    }
                    return false;
                },
            }
        } else {
            proof {
                let (u, v, aa, ff, pp) = (xa@, b@, a@, f@, prev@);
                assert(pp * u == aa * u - ff * v) by (nonlinear_arith)
                    requires
                        u == 0,
                        v == 0,
                ;
                assert(aa * u - ff * v == times(pp, 0)) by (nonlinear_arith)
                    requires
                        u == 0,
                        v == 0,
                ;
                assert(divides(prev@, a@ * x0[j as int]@ - f@ * y@[j as int]@));
            }
        }
        j = j + 1;
    }
    true
}

/// `x ← a·x / prev` entry by entry, zero entries staying zero; `false`
/// exactly when some `a·x_c` is not a multiple of `prev`.
fn scale_row(x: &mut Vec<Z>, a: &Z, prev: &Z) -> (ok: bool)
    requires
        all_wf(old(x)@),
        a.wf(),
        prev.wf(),
        prev@ != 0,
    ensures
        final(x)@.len() == old(x)@.len(),
        all_wf(final(x)@),
        ok ==> forall|c: int| 0 <= c < old(x)@.len() ==> prev@ * (#[trigger] final(x)@[c])@ == a@ * old(x)@[c]@,
        ok <==> forall|c: int| 0 <= c < old(x)@.len() ==> divides(prev@, #[trigger] (a@ * old(x)@[c]@)),
{
    let ghost x0 = x@;
    let n = x.len();
    let mut j: usize = 0;
    while j < n
        invariant
            n == x@.len(),
            x0 == old(x)@,
            x0.len() == n,
            j <= n,
            all_wf(x@),
            a.wf(),
            prev.wf(),
            prev@ != 0,
            forall|c: int| 0 <= c < j ==> prev@ * (#[trigger] x@[c])@ == a@ * x0[c]@,
            forall|c: int| 0 <= c < j ==> divides(prev@, #[trigger] (a@ * x0[c]@)),
            forall|c: int| j <= c < n ==> #[trigger] x@[c] == x0[c],
        decreases n - j,
    {
        let xa = x[j].clone();
        if !xa.is_zero() {
            let val = mul_zz(&xa, a);
            proof {
                let (u, aa) = (xa@, a@);
                assert(val@ == aa * u) by (nonlinear_arith)
                    requires
                        val@ == u * aa,
                ;
            }
            match val.div_checked(prev) {
                Some(q) => {
                    proof {
                        let (qq, pp, vv) = (q@, prev@, val@);
                        assert(pp * qq == vv) by (nonlinear_arith)
                            requires
                                qq * pp == vv,
                        ;
                        assert(vv == times(pp, qq));
                        assert(divides(prev@, a@ * x0[j as int]@));
                    }
                    x.set(j, q);
                },
                None => {
                    proof {
                        assert(!divides(prev@, a@ * x0[j as int]@));
                    }
                    return false;
                },
            }
        } else {
            proof {
                let (u, aa, pp) = (xa@, a@, prev@);
                assert(pp * u == aa * u) by (nonlinear_arith)
                    requires
                        u == 0,
                ;
                assert(aa * u == times(pp, 0)) by (nonlinear_arith)
                    requires
                        u == 0,
                ;
                assert(divides(prev@, a@ * x0[j as int]@));
            }
        }
        j = j + 1;
    }
    true
}

/// After `row_i ← (pivot·row_i − f·row_k)/prev`, with columns `0..k` of
/// rows `i` and `k` those of `prev·I` and `f`, `pivot` the entries in
/// column `k`: columns `0..=k` of row `i` are those of `pivot·I`.
proof fn lemma_op_cols(
    l: Seq<Seq<int>>,
    ln: Seq<Seq<int>>,
    d: nat,
    i: int,
    k: int,
    pivot: int,
    f: int,
    prev: int,
)
    requires
        is_square(l, d),
        is_square(ln, d),
        0 <= i < d,
        0 <= k < d,
        i != k,
        prev != 0,
        forall|j: int| 0 <= j < k ==> #[trigger] l[i][j] == (if i == j { prev } else { 0 }),
        forall|j: int| 0 <= j < k ==> #[trigger] l[k][j] == 0,
        l[i][k] == f,
        l[k][k] == pivot,
        forall|c: int| 0 <= c < d ==> prev * #[trigger] ln[i][c] == pivot * l[i][c] - f * l[k][c],
    ensures
        forall|j: int| 0 <= j <= k ==> #[trigger] ln[i][j] == (if i == j { pivot } else { 0 }),
{
    assert forall|j: int| 0 <= j <= k implies #[trigger] ln[i][j] == (if i == j { pivot } else { 0 }) by {
        assert(prev * ln[i][j] == pivot * l[i][j] - f * l[k][j]);
        if j < k {
            assert(l[i][j] == (if i == j { prev } else { 0 }));
            assert(l[k][j] == 0);
            let e = if i == j { pivot } else { 0 };
            assert(pivot * l[i][j] - f * l[k][j] == prev * e) by (nonlinear_arith)
                requires
                    l[i][j] == (if i == j { prev } else { 0 }),
                    l[k][j] == 0,
                    e == (if i == j { pivot } else { 0 }),
            ;
            lemma_cancel(prev, ln[i][j], e);
        } else {
            assert(pivot * f - f * pivot == prev * 0) by (nonlinear_arith);
            lemma_cancel(prev, ln[i][j], 0);
        }
    }
}

/// `(det, adj)` of a square integer matrix by fraction-free Gauss–Jordan
/// elimination of `[N | I]`; `adj` is row-major `d×d`, and
/// `adj·N = N·adj = det·I`.  A singular matrix gives `(0, [])`, and so
/// would a division leaving a remainder, which fraction-free elimination
/// rules out; the empty matrix gives `(1, [])`.
pub fn det_adj(rows: &[&[Z]]) -> (r: (Z, Vec<Z>))
    requires
        square_rows(rows@),
        2 * rows@.len() * rows@.len() <= usize::MAX,
    ensures
        r.0.wf(),
        all_wf(r.1@),
        r.0@ == 0 ==> r.1@.len() == 0,
        r.0@ != 0 ==> r.1@.len() == rows@.len() * rows@.len(),
        r.0@ != 0 ==> mat_mul(square_of(zvals(r.1@), rows@.len()), int_rows(rows@)) == scalar_mat(
            r.0@,
            rows@.len(),
        ),
        r.0@ != 0 ==> mat_mul(int_rows(rows@), square_of(zvals(r.1@), rows@.len())) == scalar_mat(
            r.0@,
            rows@.len(),
        ),
        rows@.len() == 0 ==> r.0@ == 1,
{
    let d = rows.len();
    proof {
        assert(2 * d <= usize::MAX && d * d <= usize::MAX) by (nonlinear_arith)
            requires
                2 * d * d <= usize::MAX,
                d >= 0,
        ;
    }
    let w = 2 * d;
    let ghost dn = d as nat;
    let ghost nm = int_rows(rows@);
    let mut m: Vec<Vec<Z>> = Vec::with_capacity(d);
    let mut i: usize = 0;
    while i < d
        invariant
            i <= d,
            d == rows@.len(),
            w == 2 * d,
            square_rows(rows@),
            m@.len() == i,
            forall|a: int| 0 <= a < i ==> (#[trigger] m@[a])@.len() == w && all_wf(m@[a]@),
            forall|a: int, j: int| 0 <= a < i && 0 <= j < d ==> (#[trigger] m@[a]@[j])@ == rows@[a]@[j]@,
            forall|a: int, j: int|
                0 <= a < i && 0 <= j < d ==> (#[trigger] m@[a]@[d + j])@ == (if a == j { 1int } else { 0 }),
        decreases d - i,
    {
        let r = rows[i];
        let mut row: Vec<Z> = Vec::with_capacity(w);
        let mut j: usize = 0;
        while j < d
            invariant
                i < d,
                j <= d,
                d == rows@.len(),
                square_rows(rows@),
                r@ == rows@[i as int]@,
                row@.len() == j,
                all_wf(row@),
                forall|t: int| 0 <= t < j ==> (#[trigger] row@[t])@ == r@[t]@,
            decreases d - j,
        {
            row.push(r[j].clone());
            j = j + 1;
        }
        let mut j: usize = 0;
        while j < d
            invariant
                i < d,
                j <= d,
                row@.len() == d + j,
                all_wf(row@),
                r@ == rows@[i as int]@,
                forall|t: int| 0 <= t < d ==> (#[trigger] row@[t])@ == r@[t]@,
                forall|t: int| 0 <= t < j ==> (#[trigger] row@[d + t])@ == (if i == t { 1int } else { 0 }),
            decreases d - j,
        {
            row.push(if i == j { Z::one() } else { Z::zero() });
            j = j + 1;
        }
        m.push(row);
        i = i + 1;
    }
    proof {
        assert(left_block(m@, dn) =~= nm) by {
            assert forall|a: int| 0 <= a < d implies #[trigger] left_block(m@, dn)[a] =~= nm[a] by {
                assert forall|j: int| 0 <= j < d implies #[trigger] left_block(m@, dn)[a][j] == nm[a][j] by {
                    assert(m@[a]@[j]@ == rows@[a]@[j]@);
                }
            }
        }
        assert(right_block(m@, dn) =~= scalar_mat(1, dn)) by {
            assert forall|a: int| 0 <= a < d implies #[trigger] right_block(m@, dn)[a] =~= scalar_mat(1, dn)[a] by {
                assert forall|j: int| 0 <= j < d implies #[trigger] right_block(m@, dn)[a][j] == scalar_mat(1, dn)[a][j] by {
                    assert(m@[a]@[d + j]@ == (if a == j { 1int } else { 0 }));
                }
            }
        }
        assert forall|a: int| 0 <= a < d implies (#[trigger] nm[a]).len() == dn by {
            assert(rows@[a]@.len() == d);
        }
        lemma_identity_left(nm, dn);
        lemma_identity_left(scalar_mat(1, dn), dn);
    }
    let mut sign: i8 = 1;
    let mut prev = Z::one();
    let ghost mut g: Seq<Seq<int>> = scalar_mat(1, dn);
    let ghost mut s: int = 1;
    let mut k: usize = 0;
    while k < d
        invariant
            k <= d,
            d == rows@.len(),
            dn == d,
            w == 2 * d,
            d * w <= usize::MAX,
            d * d <= usize::MAX,
            nm == int_rows(rows@),
            is_square(nm, dn),
            work_shape(m@, dn),
            is_square(g, dn),
            s != 0,
            mat_mul(right_block(m@, dn), nm) == left_block(m@, dn),
            mat_mul(g, right_block(m@, dn)) == scalar_mat(s, dn),
            cols_scalar(left_block(m@, dn), prev@, k as int, dn),
            prev.wf(),
            prev@ != 0,
            d == 0 ==> prev@ == 1 && sign == 1,
            sign == 1 || sign == -1,
        decreases d - k,
    {
        // pivot search in column k
        let mut p = k;
        loop
            invariant
                k < d,
                k <= p <= d,
                w == 2 * d,
                work_shape(m@, dn),
                dn == d,
            ensures
                k <= p <= d,
                p < d ==> m@[p as int]@[k as int]@ != 0,
            decreases d - p,
        {
            if p >= d {
                break;
            }
            if !m[p][k].is_zero() {
                break;
            }
            p = p + 1;
        }
        if p == d {
            return (Z::zero(), Vec::new());
        }
        let pivot = m[p][k].clone();
        if p != k {
            let ghost mo = m@;
            let mut tmp: Vec<Z> = Vec::new();
            m.set_and_swap(p, &mut tmp);
            m.set_and_swap(k, &mut tmp);
            m.set_and_swap(p, &mut tmp);
            proof {
                assert(m@ =~= mo.update(p as int, mo[k as int]).update(k as int, mo[p as int]));
                let (lo, ro) = (left_block(mo, dn), right_block(mo, dn));
                assert(is_square(lo, dn) && is_square(ro, dn));
                lemma_swap(lo, ro, nm, g, s, dn, p as int, k as int);
                assert(left_block(m@, dn) =~= swap_rows(lo, p as int, k as int)) by {
                    assert forall|a: int| 0 <= a < d implies #[trigger] left_block(m@, dn)[a] =~= swap_rows(lo, p as int, k as int)[a] by {}
                }
                assert(right_block(m@, dn) =~= swap_rows(ro, p as int, k as int)) by {
                    assert forall|a: int| 0 <= a < d implies #[trigger] right_block(m@, dn)[a] =~= swap_rows(ro, p as int, k as int)[a] by {}
                }
                g = swap_cols(g, p as int, k as int);
                assert forall|a: int, j: int| 0 <= a < d && 0 <= j < k implies #[trigger] left_block(m@, dn)[a][j] == (if a == j {
                    prev@
                } else {
                    0
                }) by {
                    assert(lo[p as int][j] == (if p == j { prev@ } else { 0 }));
                    assert(lo[k as int][j] == (if k == j { prev@ } else { 0 }));
                    assert(lo[a][j] == (if a == j { prev@ } else { 0 }));
                }
            }
            sign = -sign;
        }
        let ghost l0 = left_block(m@, dn);
        proof {
            assert(l0[k as int][k as int] == pivot@);
            assert forall|j: int| 0 <= j < k implies #[trigger] l0[k as int][j] == 0 by {
                assert(l0[k as int][j] == (if k == j { prev@ } else { 0 }));
            }
        }
        let mut i: usize = 0;
        while i < d
            invariant
                k < d,
                i <= d,
                d == rows@.len(),
                dn == d,
                w == 2 * d,
                nm == int_rows(rows@),
                is_square(nm, dn),
                work_shape(m@, dn),
                is_square(g, dn),
                s != 0,
                mat_mul(right_block(m@, dn), nm) == left_block(m@, dn),
                mat_mul(g, right_block(m@, dn)) == scalar_mat(s, dn),
                prev.wf(),
                prev@ != 0,
                pivot.wf(),
                pivot@ != 0,
                left_block(m@, dn)[k as int] == l0[k as int],
                l0[k as int][k as int] == pivot@,
                forall|j: int| 0 <= j < k ==> #[trigger] l0[k as int][j] == 0,
                forall|a: int, j: int|
                    0 <= a < i && a != k && 0 <= j <= k ==> #[trigger] left_block(m@, dn)[a][j] == (if a == j {
                        pivot@
                    } else {
                        0
                    }),
                forall|a: int, j: int|
                    i <= a < d && a != k && 0 <= j < k ==> #[trigger] left_block(m@, dn)[a][j] == (if a == j {
                        prev@
                    } else {
                        0
                    }),
            decreases d - i,
        {
            if i != k {
                let f = m[i][k].clone();
                let ghost mo = m@;
                let mut ok = true;
                if f.is_zero() {
                    if !prev.is_one() || !pivot.is_one() {
                        let mut row: Vec<Z> = Vec::new();
                        m.set_and_swap(i, &mut row);
                        ok = scale_row(&mut row, &pivot, &prev);
                        m.set_and_swap(i, &mut row);
                    }
                } else {
                    let mut row: Vec<Z> = Vec::new();
                    m.set_and_swap(i, &mut row);
                    ok = combine_rows(&mut row, &m[k], &pivot, &f, &prev);
                    m.set_and_swap(i, &mut row);
                }
                if !ok {
                    return (Z::zero(), Vec::new());
                }
                proof {
                    assert(m@ =~= mo.update(i as int, m@[i as int]));
                    assert forall|c: int| 0 <= c < w implies prev@ * (#[trigger] m@[i as int]@[c])@ == pivot@ * mo[i as int]@[c]@
                        - f@ * mo[k as int]@[c]@ by {
                        if f@ == 0 && prev@ == 1 && pivot@ == 1 {
                            let u = mo[i as int]@[c]@;
                            let v = mo[k as int]@[c]@;
                            assert(prev@ * u == pivot@ * u - f@ * v) by (nonlinear_arith)
                                requires
                                    prev@ == 1,
                                    pivot@ == 1,
                                    f@ == 0,
                            ;
                        } else if f@ == 0 {
                            let v = mo[k as int]@[c]@;
                            assert(f@ * v == 0) by (nonlinear_arith)
                                requires
                                    f@ == 0,
                            ;
                        }
                    }
                    let (lo, ro, ln, rn) = (left_block(mo, dn), right_block(mo, dn), left_block(m@, dn), right_block(m@, dn));
                    assert forall|t: int| 0 <= t < d && t != i implies #[trigger] ln[t] == lo[t] by {
                        assert(ln[t] =~= lo[t]);
                    }
                    assert forall|t: int| 0 <= t < d && t != i implies #[trigger] rn[t] == ro[t] by {
                        assert(rn[t] =~= ro[t]);
                    }
                    assert forall|c: int| 0 <= c < d implies prev@ * #[trigger] ln[i as int][c] == pivot@ * lo[i as int][c] - f@
                        * lo[k as int][c] by {
                        assert(prev@ * m@[i as int]@[c]@ == pivot@ * mo[i as int]@[c]@ - f@ * mo[k as int]@[c]@);
                    }
                    assert forall|c: int| 0 <= c < d implies prev@ * #[trigger] rn[i as int][c] == pivot@ * ro[i as int][c] - f@
                        * ro[k as int][c] by {
                        assert(prev@ * m@[i as int]@[d + c]@ == pivot@ * mo[i as int]@[d + c]@ - f@ * mo[k as int]@[d + c]@);
                    }
                    lemma_row_op(lo, ro, ln, rn, nm, g, s, dn, i as int, k as int, pivot@, f@, prev@);
                    assert(lo[k as int] == l0[k as int]);
                    assert(lo[i as int][k as int] == f@);
                    assert forall|j: int| 0 <= j < k implies #[trigger] lo[i as int][j] == (if i == j { prev@ } else { 0 }) by {
                        assert(lo[i as int][j] == (if i == j { prev@ } else { 0 }));
                    }
                    lemma_op_cols(lo, ln, dn, i as int, k as int, pivot@, f@, prev@);
                    g = undo_cols(g, i as int, k as int, pivot@, f@, prev@);
                    let s0 = s;
                    assert(pivot@ * s0 != 0) by (nonlinear_arith)
                        requires
                            pivot@ != 0,
                            s0 != 0,
                    ;
                    s = pivot@ * s0;
                }
            }
            i = i + 1;
        }
        proof {
            let lb = left_block(m@, dn);
            assert forall|a: int, j: int| 0 <= a < d && 0 <= j < k + 1 implies #[trigger] lb[a][j] == (if a == j {
                pivot@
            } else {
                0
            }) by {
                if a == k {
                    if j < k {
                        assert(l0[k as int][j] == 0);
                    }
                } else {
                    assert(lb[a][j] == (if a == j { pivot@ } else { 0 }));
                }
            }
        }
        prev = pivot;
        k = k + 1;
    }
    // left block is now prev·I; right block R has R·N = N·R = prev·I
    let ghost rb = right_block(m@, dn);
    proof {
        assert(left_block(m@, dn) =~= scalar_mat(prev@, dn)) by {
            assert forall|a: int| 0 <= a < d implies #[trigger] left_block(m@, dn)[a] =~= scalar_mat(prev@, dn)[a] by {
                assert forall|j: int| 0 <= j < d implies #[trigger] left_block(m@, dn)[a][j] == scalar_mat(prev@, dn)[a][j] by {
                    assert(left_block(m@, dn)[a][j] == (if a == j { prev@ } else { 0 }));
                }
            }
        }
        lemma_right_inverse(rb, nm, g, s, prev@, dn);
        lemma_scale_product(rb, nm, sign as int, prev@, dn);
    }
    let det = if sign > 0 { prev } else { neg_z(&prev) };
    let mut adj: Vec<Z> = Vec::with_capacity(d * d);
    let mut i: usize = 0;
    while i < d
        invariant
            i <= d,
            dn == d,
            w == 2 * d,
            d * d <= usize::MAX,
            work_shape(m@, dn),
            rb == right_block(m@, dn),
            adj@.len() == i * d,
            all_wf(adj@),
            sign == 1 || sign == -1,
            forall|a: int, b: int| 0 <= a < i && 0 <= b < d ==> (#[trigger] adj@[a * d + b])@ == sign * rb[a][b],
        decreases d - i,
    {
        let mut j: usize = 0;
        while j < d
            invariant
                i < d,
                j <= d,
                dn == d,
                w == 2 * d,
                d * d <= usize::MAX,
                work_shape(m@, dn),
                rb == right_block(m@, dn),
                adj@.len() == i * d + j,
                all_wf(adj@),
                sign == 1 || sign == -1,
                forall|a: int, b: int| 0 <= a < i && 0 <= b < d ==> (#[trigger] adj@[a * d + b])@ == sign * rb[a][b],
                forall|b: int| 0 <= b < j ==> (#[trigger] adj@[i * d + b])@ == sign * rb[i as int][b],
            decreases d - j,
        {
            proof {
                lemma_cell(i as int, j as int, d as int, d as int);
            }
            let x = &m[i][d + j];
            let ghost before = adj@;
            adj.push(if sign > 0 { x.clone() } else { neg_z(x) });
            proof {
                assert(rb[i as int][j as int] == x@);
                assert forall|a: int, b: int| 0 <= a < i && 0 <= b < d implies (#[trigger] adj@[a * d + b])@ == sign * rb[a][b] by {
                    lemma_cell(a, b, d as int, i as int);
                    assert(adj@[a * d + b] == before[a * d + b]);
                }
                assert forall|b: int| 0 <= b < j + 1 implies (#[trigger] adj@[i * d + b])@ == sign * rb[i as int][b] by {
                    if b < j {
                        assert(adj@[i * d + b] == before[i * d + b]);
                    }
                }
            }
            j = j + 1;
        }
        proof {
            assert(i * d + d == (i + 1) * d) by (nonlinear_arith);
            assert forall|a: int, b: int| 0 <= a < i + 1 && 0 <= b < d implies (#[trigger] adj@[a * d + b])@ == sign * rb[a][b] by {
                if a == i {
                    assert(adj@[i * d + b]@ == sign * rb[i as int][b]);
                }
            }
        }
        i = i + 1;
    }
    proof {
        assert(square_of(zvals(adj@), dn) =~= mat_scale(sign as int, rb)) by {
            assert forall|a: int| 0 <= a < d implies #[trigger] square_of(zvals(adj@), dn)[a] =~= mat_scale(sign as int, rb)[a] by {
                assert forall|b: int| 0 <= b < d implies #[trigger] square_of(zvals(adj@), dn)[a][b] == mat_scale(sign as int, rb)[a][b] by {
                    lemma_cell(a, b, d as int, d as int);
                    assert(adj@[a * d + b]@ == sign * rb[a][b]);
                }
            }
        }
        assert(det@ == sign * prev@);
    }
    (det, adj)
}

/// Every row of `rs` is orthogonal to `x`.
pub open spec fn orth_all(rs: Seq<Seq<int>>, x: Seq<int>) -> bool {
    forall|i: int| 0 <= i < rs.len() ==> dot_int(#[trigger] rs[i], x) == 0
}

/// `v` lies in the span of `rs`, stated dually: every vector orthogonal to
/// all rows of `rs` is orthogonal to `v`.
pub open spec fn in_span(rs: Seq<Seq<int>>, v: Seq<int>) -> bool {
    forall|x: Seq<int>| #[trigger] orth_all(rs, x) ==> dot_int(v, x) == 0
}

/// Orthogonality to a prefix of one more row gives orthogonality to the
/// shorter prefix and to that row.
proof fn lemma_orth_take(rs: Seq<Seq<int>>, k: int, x: Seq<int>)
    requires
        0 <= k < rs.len(),
        orth_all(rs.take(k + 1), x),
    ensures
        orth_all(rs.take(k), x),
        dot_int(rs[k], x) == 0,
{
    assert(rs.take(k + 1)[k] == rs[k]);
    assert forall|i: int| 0 <= i < rs.take(k).len() implies dot_int(#[trigger] rs.take(k)[i], x) == 0 by {
        assert(rs.take(k)[i] == rs.take(k + 1)[i]);
    }
}

/// A vector with all entries zero has dot product zero.
pub proof fn lemma_dot_zero(a: Seq<int>, x: Seq<int>, n: int)
    requires
        0 <= n,
        forall|j: int| 0 <= j < n ==> #[trigger] a[j] == 0,
    ensures
        dot_prefix(a, x, n) == 0,
    decreases n,
{
    if n > 0 {
        lemma_dot_zero(a, x, n - 1);
        assert(a[n - 1] * x[n - 1] == 0);
    }
}

/// A non-zero entry makes the lexicographic sign non-zero.
pub proof fn lemma_lex_sign_nonzero(s: Seq<int>, i: int)
    requires
        0 <= i < s.len(),
        s[i] != 0,
    ensures
        lex_sign_of(s) != 0,
    decreases i,
{
    if s[0] == 0 {
        assert(s.drop_first()[i - 1] == s[i]);
        lemma_lex_sign_nonzero(s.drop_first(), i - 1);
    }
}

/// No entry of `piv` equals `j`.
pub open spec fn not_in(piv: Seq<usize>, j: int) -> bool {
    forall|i: int| 0 <= i < piv.len() ==> #[trigger] piv[i] != j
}

/// `d − 1` column indices below `d` miss at least one column.
proof fn lemma_free_column(piv: Seq<usize>, d: int)
    requires
        piv.len() + 1 == d,
        forall|i: int| 0 <= i < piv.len() ==> (#[trigger] piv[i]) < d,
    ensures
        exists|j: int| 0 <= j < d && #[trigger] not_in(piv, j),
{
    let ps = piv.map_values(|p: usize| p as int);
    ps.lemma_cardinality_of_set();
    vstd::seq_lib::seq_to_set_is_finite(ps);
    if !(exists|j: int| 0 <= j < d && #[trigger] not_in(piv, j)) {
        assert forall|j: int| #[trigger] vstd::set_lib::set_int_range(0, d).contains(j) implies ps.to_set().contains(j) by {
            assert(!not_in(piv, j));
            let i = choose|i: int| 0 <= i < piv.len() && #[trigger] piv[i] == j;
            assert(ps[i] == j);
            assert(ps.contains(j));
        }
        vstd::set_lib::lemma_int_range(0, d);
        vstd::set_lib::lemma_len_subset(vstd::set_lib::set_int_range(0, d), ps.to_set());
    }
}

/// `a·x` when every term but the one at `p` vanishes.
proof fn lemma_dot_single(a: Seq<int>, x: Seq<int>, p: int, n: int)
    requires
        0 <= n,
        0 <= p,
        forall|q: int| 0 <= q < n && q != p ==> #[trigger] (a[q] * x[q]) == 0,
    ensures
        dot_prefix(a, x, n) == (if p < n { a[p] * x[p] } else { 0 }),
    decreases n,
{
    if n > 0 {
        lemma_dot_single(a, x, p, n - 1);
        if n - 1 != p {
            assert(a[n - 1] * x[n - 1] == 0);
        }
    }
}

/// For rows in echelon form (each row non-zero at its pivot, later rows
/// zero at earlier pivots) and a column `p` that is no pivot, some integer
/// vector orthogonal to every row is non-zero at `p` and zero at every
/// other column that is no pivot.
proof fn lemma_orth_witness(rs: Seq<Seq<int>>, piv: Seq<usize>, d: int, p: int) -> (x: Seq<int>)
    requires
        rs.len() == piv.len(),
        0 <= p < d,
        forall|i: int| 0 <= i < rs.len() ==> (#[trigger] rs[i]).len() == d && piv[i] < d && rs[i][piv[i] as int] != 0,
        forall|i: int, j: int| 0 <= i < j < rs.len() ==> (#[trigger] rs[j])[#[trigger] piv[i] as int] == 0,
        forall|t: int| 0 <= t < piv.len() ==> #[trigger] piv[t] != p,
    ensures
        x.len() == d,
        x[p] != 0,
        forall|q: int| 0 <= q < d && q != p && (forall|t: int| 0 <= t < piv.len() ==> #[trigger] piv[t] != q) ==> #[trigger] x[q] == 0,
        orth_all(rs, x),
    decreases rs.len(),
{
    if rs.len() == 0 {
        Seq::new(d as nat, |q: int| if q == p { 1int } else { 0int })
    } else {
        let r0 = rs[0];
        let p0 = piv[0] as int;
        let rs1 = rs.drop_first();
        let piv1 = piv.drop_first();
        assert forall|i: int, j: int| 0 <= i < j < rs1.len() implies (#[trigger] rs1[j])[#[trigger] piv1[i] as int] == 0 by {
            assert(rs1[j] == rs[j + 1] && piv1[i] == piv[i + 1]);
        }
        assert forall|i: int| 0 <= i < rs1.len() implies (#[trigger] rs1[i]).len() == d && piv1[i] < d && rs1[i][piv1[i] as int] != 0 by {
            assert(rs1[i] == rs[i + 1] && piv1[i] == piv[i + 1]);
        }
        let x1 = lemma_orth_witness(rs1, piv1, d, p);
        // the first pivot is no pivot of the other rows
        assert forall|t: int| 0 <= t < piv1.len() implies #[trigger] piv1[t] != p0 by {
            assert(piv1[t] == piv[t + 1]);
            assert(rs[t + 1][piv[0] as int] == 0);
        }
        assert(piv[0] != p);
        assert(x1[p0] == 0);
        let a = r0[p0];
        let y = Seq::new(d as nat, |q: int| a * x1[q]);
        let t = -dot_int(r0, x1);
        let x = y.update(p0, t);
        assert(y[p0] == 0) by (nonlinear_arith)
            requires
                y[p0] == a * x1[p0],
                x1[p0] == 0,
        ;
        assert forall|i: int| 0 <= i < rs.len() implies dot_int(#[trigger] rs[i], x) == 0 by {
            let ri = rs[i];
            lemma_dot_scale(ri, x1, y, a, d);
            lemma_dot_update(ri, y, p0, t, d);
            if i == 0 {
                let g = dot_int(r0, x1);
                assert(a * g + a * (-g - 0) == 0) by (nonlinear_arith);
            } else {
                assert(rs1[i - 1] == ri);
                assert(dot_int(ri, x1) == 0);
                assert(ri[p0] == 0);
                assert(a * 0 + 0 * (t - 0) == 0) by (nonlinear_arith);
            }
        }
        assert(x[p] == a * x1[p]);
        assert(x[p] != 0) by (nonlinear_arith)
            requires
                x[p] == a * x1[p],
                a != 0,
                x1[p] != 0,
        ;
        assert forall|q: int| 0 <= q < d && q != p && (forall|t2: int| 0 <= t2 < piv.len() ==> #[trigger] piv[t2] != q) implies #[trigger] x[q] == 0 by {
            assert(piv[0] != q);
            assert forall|t2: int| 0 <= t2 < piv1.len() implies #[trigger] piv1[t2] != q by {
                assert(piv1[t2] == piv[t2 + 1]);
            }
            assert(x1[q] == 0);
            assert(a * 0 == 0);
        }
        x
    }
}

/// Incremental fraction-free echelon form.  Rows are reduced only against
/// rows inserted earlier, so `pop` is O(1).  Every stored row is primitive,
/// non-zero at its own pivot column and zero at the pivot columns of all
/// earlier rows; each stored row spans, together with the earlier rows, the
/// row that was handed to [`Echelon::try_push`].
#[derive(Clone)]
pub struct Echelon {
    d: usize,
    rows: Vec<Vec<Z>>,
    pivots: Vec<usize>,
    inputs: Ghost<Seq<Seq<int>>>,
}

impl Echelon {
    /// Number of columns.
    pub closed spec fn dim(&self) -> nat {
        self.d as nat
    }

    /// The stored (reduced) rows.
    pub closed spec fn rows_view(&self) -> Seq<Seq<int>> {
        self.rows@.map_values(|r: Vec<Z>| zvals(r@))
    }

    /// The rows as they were handed to `try_push`, in order.
    pub closed spec fn inputs_view(&self) -> Seq<Seq<int>> {
        self.inputs@
    }

    pub closed spec fn wf(&self) -> bool {
        &&& self.rows@.len() == self.pivots@.len()
        &&& self.inputs@.len() == self.rows@.len()
        &&& forall|i: int|
            0 <= i < self.rows@.len() ==> {
                &&& (#[trigger] self.rows@[i])@.len() == self.d
                &&& all_wf(self.rows@[i]@)
                &&& self.pivots@[i] < self.d
                &&& self.rows@[i]@[self.pivots@[i] as int]@ != 0
                &&& gcd_seq(zvals(self.rows@[i]@)) == 1
                &&& self.inputs@[i].len() == self.d
                &&& in_span(self.rows_view().take(i + 1), self.inputs@[i])
            }
        &&& forall|i: int, j: int|
            0 <= i < j < self.rows@.len() ==> (#[trigger] self.rows@[j])@[#[trigger] self.pivots@[i] as int]@
                == 0
    }

    pub fn new(d: usize) -> (r: Echelon)
        ensures
            r.wf(),
            r.dim() == d,
            r.rows_view().len() == 0,
            r.inputs_view().len() == 0,
    {
        Echelon { d, rows: Vec::new(), pivots: Vec::new(), inputs: Ghost(Seq::empty()) }
    }

    pub fn len(&self) -> (r: usize)
        requires
            self.wf(),
        ensures
            r == self.rows_view().len(),
    {
        self.rows.len()
    }

    pub fn is_empty(&self) -> (r: bool)
        requires
            self.wf(),
        ensures
            r == (self.rows_view().len() == 0),
    {
        self.rows.len() == 0
    }

    pub fn clear(&mut self)
        requires
            old(self).wf(),
        ensures
            final(self).wf(),
            final(self).dim() == old(self).dim(),
            final(self).rows_view().len() == 0,
            final(self).inputs_view().len() == 0,
    {
        self.rows.clear();
        self.pivots.clear();
        self.inputs = Ghost(Seq::empty());
    }

    /// Removes the last row (no effect on an empty form).
    pub fn pop(&mut self)
        requires
            old(self).wf(),
        ensures
            final(self).wf(),
            final(self).dim() == old(self).dim(),
            old(self).rows_view().len() > 0 ==> final(self).rows_view() == old(self).rows_view().drop_last()
                && final(self).inputs_view() == old(self).inputs_view().drop_last(),
            old(self).rows_view().len() == 0 ==> final(self).rows_view().len() == 0
                && final(self).inputs_view().len() == 0,
    {
        let ghost old_rv = self.rows_view();
        let n = self.rows.len();
        self.rows.pop();
        self.pivots.pop();
        if n > 0 {
            self.inputs = Ghost(self.inputs@.drop_last());
        }
        proof {
            if n > 0 {
                assert(self.rows_view() =~= old_rv.drop_last());
                assert forall|i: int| 0 <= i < self.rows@.len() implies #[trigger] self.rows_view().take(i + 1)
                    == old_rv.take(i + 1) by {
                    assert(self.rows_view().take(i + 1) =~= old_rv.take(i + 1));
                }
            }
        }
    }

    /// Try to add `row`; returns `false` (and leaves the form unchanged) if
    /// it is linearly dependent on the current rows.
    pub fn try_push(&mut self, row: &[Z]) -> (r: bool)
        requires
            old(self).wf(),
            row@.len() == old(self).dim(),
            all_wf(row@),
        ensures
            final(self).wf(),
            final(self).dim() == old(self).dim(),
            !r ==> final(self).rows_view() == old(self).rows_view() && final(self).inputs_view()
                == old(self).inputs_view(),
            !r ==> in_span(old(self).rows_view(), zvals(row@)),
            r ==> final(self).rows_view().len() == old(self).rows_view().len() + 1,
            r ==> final(self).rows_view().drop_last() == old(self).rows_view(),
            r ==> final(self).inputs_view() == old(self).inputs_view().push(zvals(row@)),
            r ==> !in_span(old(self).rows_view(), zvals(row@)),
    {
        let d = self.d;
        let ghost input = zvals(row@);
        let ghost rv0 = self.rows_view();
        let mut r: Vec<Z> = Vec::new();
        let mut j: usize = 0;
        while j < d
            invariant
                j <= d,
                d == self.d,
                row@.len() == d,
                all_wf(row@),
                r@.len() == j,
                all_wf(r@),
                forall|t: int| 0 <= t < j ==> (#[trigger] r@[t])@ == row@[t]@,
            decreases d - j,
        {
            r.push(row[j].clone());
            j = j + 1;
        }
        let ghost mut c: int = 1;
        proof {
            assert(zvals(r@) =~= input);
            assert forall|x: Seq<int>| #[trigger] orth_all(rv0.take(0), x) implies dot_int(zvals(r@), x) == c
                * dot_int(input, x) by {}
        }
        let n = self.rows.len();
        let mut k: usize = 0;
        while k < n
            invariant
                k <= n,
                n == self.rows@.len(),
                self.wf(),
                d == self.d,
                rv0 == self.rows_view(),
                r@.len() == d,
                all_wf(r@),
                input.len() == d,
                c != 0,
                forall|t: int| 0 <= t < k ==> (#[trigger] r@[self.pivots@[t] as int])@ == 0,
                forall|x: Seq<int>| #[trigger] orth_all(rv0.take(k as int), x) ==> dot_int(zvals(r@), x) == c
                    * dot_int(input, x),
            decreases n - k,
        {
            let p = self.pivots[k];
            let er = &self.rows[k];
            proof {
                assert(rv0[k as int] == zvals(er@));
            }
            if r[p].is_zero() {
                proof {
                    assert forall|x: Seq<int>| #[trigger] orth_all(rv0.take(k + 1), x) implies dot_int(
                        zvals(r@),
                        x,
                    ) == c * dot_int(input, x) by {
                        lemma_orth_take(rv0, k as int, x);
                    }
                }
                k = k + 1;
                continue;
            }
            let cc = r[p].clone();
            let pv = er[p].clone();
            let ghost before = r@;
            let mut j: usize = 0;
            while j < d
                invariant
                    j <= d,
                    d == self.d,
                    er@.len() == d,
                    all_wf(er@),
                    r@.len() == d,
                    before.len() == d,
                    all_wf(r@),
                    cc.wf(),
                    pv.wf(),
                    forall|t: int| 0 <= t < j ==> (#[trigger] r@[t])@ == pv@ * before[t]@ - cc@ * er@[t]@,
                    forall|t: int| j <= t < d ==> #[trigger] r@[t] == before[t],
                decreases d - j,
            {
                let a = r[j].clone();
                let b = &er[j];
                if b.is_zero() {
                    if !a.is_zero() {
                        r.set(j, mul_zz(&a, &pv));
                    }
                    proof {
                        assert(a@ * pv@ == pv@ * a@ - cc@ * 0) by (nonlinear_arith);
                        assert(0 == pv@ * 0 - cc@ * 0) by (nonlinear_arith);
                    }
                } else if a.is_zero() {
                    r.set(j, neg_z(&mul_zz(&cc, b)));
                    proof {
                        assert(-(cc@ * b@) == pv@ * 0 - cc@ * b@) by (nonlinear_arith);
                    }
                } else {
                    r.set(j, sub_zz(&mul_zz(&a, &pv), &mul_zz(&cc, b)));
                    proof {
                        assert(a@ * pv@ - cc@ * b@ == pv@ * a@ - cc@ * b@) by (nonlinear_arith);
                    }
                }
                j = j + 1;
            }
            proof {
                let ghost rz = zvals(r@);
                let ghost bz = zvals(before);
                let ghost ez = zvals(er@);
                assert forall|t: int| 0 <= t < d implies #[trigger] rz[t] == pv@ * bz[t] - cc@ * ez[t] by {}
                assert(r@[p as int]@ == 0) by {
                    assert(r@[p as int]@ == pv@ * before[p as int]@ - cc@ * er@[p as int]@);
                    assert(pv@ * cc@ - cc@ * pv@ == 0) by (nonlinear_arith);
                }
                assert forall|t: int| 0 <= t < k + 1 implies (#[trigger] r@[self.pivots@[t] as int])@ == 0 by {
                    assert(self.rows@[t]@.len() == d);
                    if t < k {
                        let q = self.pivots@[t] as int;
                        assert(er@[q]@ == 0);
                        assert(r@[q]@ == pv@ * before[q]@ - cc@ * er@[q]@);
                        assert(pv@ * 0 - cc@ * 0 == 0) by (nonlinear_arith);
                    }
                }
                let ghost c2 = pv@ * c;
                assert(c2 != 0) by (nonlinear_arith)
                    requires
                        c2 == pv@ * c,
                        pv@ != 0,
                        c != 0,
                ;
                assert forall|x: Seq<int>| #[trigger] orth_all(rv0.take(k + 1), x) implies dot_int(rz, x) == c2
                    * dot_int(input, x) by {
                    lemma_orth_take(rv0, k as int, x);
                    lemma_dot_lincomb(rz, bz, ez, x, pv@, cc@, d as int);
                    let gi = dot_int(input, x);
                    assert(dot_int(bz, x) == c * gi);
                    assert(dot_int(ez, x) == 0);
                    assert(pv@ * (c * gi) - cc@ * 0 == (pv@ * c) * gi) by (nonlinear_arith);
                }
                c = c2;
            }
            k = k + 1;
        }
        // first non-zero entry
        let mut p: usize = 0;
        loop
            invariant
                p <= d,
                r@.len() == d,
                all_wf(r@),
                forall|t: int| 0 <= t < p ==> (#[trigger] r@[t])@ == 0,
            ensures
                p <= d,
                forall|t: int| 0 <= t < p ==> (#[trigger] r@[t])@ == 0,
                p < d ==> r@[p as int]@ != 0,
            decreases d - p,
        {
            if p >= d {
                break;
            }
            if !r[p].is_zero() {
                break;
            }
            p = p + 1;
        }
        proof {
            assert(rv0.take(n as int) =~= rv0);
        }
        if p == d {
            proof {
                assert forall|x: Seq<int>| #[trigger] orth_all(rv0, x) implies dot_int(input, x) == 0 by {
                    lemma_dot_zero(zvals(r@), x, d as int);
                    assert(c * dot_int(input, x) == 0);
                    assert(dot_int(input, x) == 0) by (nonlinear_arith)
                        requires
                            c * dot_int(input, x) == 0,
                            c != 0,
                    ;
                }
            }
            return false;
        }
        let ghost pre = r@;
        proof {
            // the row is independent of the stored rows
            assert(!in_span(rv0, input)) by {
                let piv = self.pivots@;
                assert forall|t: int| 0 <= t < piv.len() implies #[trigger] piv[t] != p by {
                    assert(pre[piv[t] as int]@ == 0);
                }
                assert forall|i: int| 0 <= i < rv0.len() implies (#[trigger] rv0[i]).len() == d && piv[i] < d
                    && rv0[i][piv[i] as int] != 0 by {
                    assert(self.rows@[i]@.len() == d);
                }
                assert(self.wf());
                assert forall|i: int, j: int| 0 <= i < j < rv0.len() implies (#[trigger] rv0[j])[#[trigger] piv[i] as int] == 0 by {
                    assert(rv0[j] == zvals(self.rows@[j]@));
                    assert(self.rows@[i]@.len() == d);
                    assert(self.rows@[j]@.len() == d);
                    assert(piv[i] < d);
                    assert(self.rows@[j]@[piv[i] as int]@ == 0);
                }
                let x = lemma_orth_witness(rv0, piv, d as int, p as int);
                let pz = zvals(pre);
                assert forall|q: int| 0 <= q < d && q != p implies #[trigger] (pz[q] * x[q]) == 0 by {
                    if exists|t: int| 0 <= t < piv.len() && piv[t] == q {
                        let t = choose|t: int| 0 <= t < piv.len() && piv[t] == q;
                        assert(pre[piv[t] as int]@ == 0);
                        assert(pz[q] == 0);
                        assert(pz[q] * x[q] == 0) by (nonlinear_arith)
                            requires
                                pz[q] == 0,
                        ;
                    } else {
                        assert(forall|t: int| 0 <= t < piv.len() ==> #[trigger] piv[t] != q);
                        assert(x[q] == 0);
                        assert(pz[q] * x[q] == 0) by (nonlinear_arith)
                            requires
                                x[q] == 0,
                        ;
                    }
                }
                lemma_dot_single(pz, x, p as int, d as int);
                assert(orth_all(rv0.take(n as int), x));
                assert(dot_int(pz, x) == c * dot_int(input, x));
                assert(pz[p as int] * x[p as int] != 0) by (nonlinear_arith)
                    requires
                        pz[p as int] != 0,
                        x[p as int] != 0,
                ;
                assert(dot_int(input, x) != 0);
            }
        }
        proof {
            assert(zvals(pre)[p as int] != 0);
            crate::arith::lemma_gcd_fold_pos(0, zvals(pre));
        }
        make_primitive(&mut r);
        let ghost g = gcd_seq(zvals(pre)) as int;
        proof {
            let rz = zvals(r@);
            let pz = zvals(pre);
            assert(g > 0);
            assert forall|t: int| 0 <= t < d implies #[trigger] pz[t] == g * rz[t] - 0 * rz[t] by {
                assert(r@[t]@ * g == pre[t]@);
                assert(pz[t] == g * rz[t] - 0 * rz[t]) by (nonlinear_arith)
                    requires
                        rz[t] * g == pz[t],
                ;
            }
            assert(r@[p as int]@ != 0) by {
                assert(r@[p as int]@ * g == pre[p as int]@);
            }
            assert forall|t: int| 0 <= t < n implies (#[trigger] r@[self.pivots@[t] as int])@ == 0 by {
                assert(self.rows@[t]@.len() == d);
                let q = self.pivots@[t] as int;
                assert(r@[q]@ * g == pre[q]@);
                assert(pre[q]@ == 0);
                assert(r@[q]@ == 0) by (nonlinear_arith)
                    requires
                        r@[q]@ * g == 0,
                        g > 0,
                ;
            }
            assert forall|x: Seq<int>| #[trigger] orth_all(rv0, x) && dot_int(rz, x) == 0 implies dot_int(input, x)
                == 0 by {
                lemma_dot_lincomb(pz, rz, rz, x, g, 0, d as int);
                assert(dot_int(pz, x) == c * dot_int(input, x));
                assert(g * dot_int(rz, x) - 0 * dot_int(rz, x) == 0) by (nonlinear_arith)
                    requires
                        dot_int(rz, x) == 0,
                ;
                assert(dot_int(input, x) == 0) by (nonlinear_arith)
                    requires
                        c * dot_int(input, x) == 0,
                        c != 0,
                ;
            }
        }
        let ghost old_self = *self;
        self.rows.push(r);
        self.pivots.push(p);
        self.inputs = Ghost(self.inputs@.push(input));
        proof {
            let nrv = self.rows_view();
            assert(nrv.drop_last() =~= rv0);
            assert(nrv.take(n as int) =~= rv0);
            assert forall|i: int| 0 <= i < n implies #[trigger] nrv.take(i + 1) == rv0.take(i + 1) by {
                assert(nrv.take(i + 1) =~= rv0.take(i + 1));
            }
            assert(nrv.take(n + 1) =~= nrv);
            assert forall|x: Seq<int>| #[trigger] orth_all(nrv.take(n + 1), x) implies dot_int(input, x) == 0 by {
                lemma_orth_take(nrv, n as int, x);
                assert(nrv[n as int] == zvals(r@));
            }
            assert forall|i: int, j: int|
                0 <= i < j < self.rows@.len() implies (#[trigger] self.rows@[j])@[#[trigger] self.pivots@[i] as int]@
                == 0 by {
                if j == n {
                    assert(self.rows@[j] == r);
                    assert(self.pivots@[i] == old_self.pivots@[i]);
                } else {
                    assert(self.rows@[j] == old_self.rows@[j]);
                    assert(self.pivots@[i] == old_self.pivots@[i]);
                }
            }
            assert(self.inputs@ =~= old_self.inputs@.push(input));
        }
        true
    }

    /// Direction of the line orthogonal to all rows; requires `d − 1` rows.
    /// The result is primitive and lexicographically positive, and it is
    /// orthogonal to every row handed to `try_push`.
    pub fn nullspace_direction(&self) -> (r: Vec<Z>)
        requires
            self.wf(),
            self.rows_view().len() + 1 == self.dim(),
        ensures
            r@.len() == self.dim(),
            all_wf(r@),
            lex_sign_of(zvals(r@)) == 1,
            gcd_seq(zvals(r@)) == 1,
            orth_all(self.rows_view(), zvals(r@)),
            orth_all(self.inputs_view(), zvals(r@)),
    {
        let d = self.d;
        let n = self.rows.len();
        let mut is_pivot: Vec<bool> = Vec::new();
        let mut j: usize = 0;
        while j < d
            invariant
                j <= d,
                is_pivot@.len() == j,
                forall|t: int| 0 <= t < j ==> !(#[trigger] is_pivot@[t]),
            decreases d - j,
        {
            is_pivot.push(false);
            j = j + 1;
        }
        let mut t: usize = 0;
        while t < n
            invariant
                t <= n,
                n == self.pivots@.len(),
                self.wf(),
                d == self.d,
                is_pivot@.len() == d,
                forall|u: int| 0 <= u < t ==> #[trigger] is_pivot@[self.pivots@[u] as int],
                forall|c: int|
                    0 <= c < d && #[trigger] is_pivot@[c] ==> exists|u: int| 0 <= u < t && self.pivots@[u] == c,
            decreases n - t,
        {
            proof {
                assert(self.rows@[t as int]@.len() == d);
            }
            let pp = self.pivots[t];
            let ghost before = is_pivot@;
            is_pivot.set(pp, true);
            proof {
                assert forall|u: int| 0 <= u < t + 1 implies #[trigger] is_pivot@[self.pivots@[u] as int] by {
                    assert(self.rows@[u]@.len() == d);
                }
                assert forall|c: int| 0 <= c < d && #[trigger] is_pivot@[c] implies exists|u: int|
                    0 <= u < t + 1 && self.pivots@[u] == c by {
                    if c != pp {
                        assert(before[c]);
                    } else {
                        assert(self.pivots@[t as int] == c);
                    }
                }
            }
            t = t + 1;
        }
        proof {
            assert forall|i: int| 0 <= i < self.pivots@.len() implies (#[trigger] self.pivots@[i]) < d by {
                assert(self.rows@[i]@.len() == d);
            }
            lemma_free_column(self.pivots@, d as int);
        }
        let mut free: usize = 0;
        loop
            invariant
                free <= d,
                is_pivot@.len() == d,
                n == self.pivots@.len(),
                forall|u: int| 0 <= u < free ==> #[trigger] is_pivot@[u],
                forall|c: int|
                    0 <= c < d && #[trigger] is_pivot@[c] ==> exists|u: int| 0 <= u < n && self.pivots@[u] == c,
                exists|jj: int| 0 <= jj < d && #[trigger] not_in(self.pivots@, jj),
            ensures
                free < d,
                !is_pivot@[free as int],
            decreases d - free,
        {
            if free >= d {
                proof {
                    let jj = choose|jj: int| 0 <= jj < d && #[trigger] not_in(self.pivots@, jj);
                    assert(is_pivot@[jj]);
                }
                break;
            }
            if !is_pivot[free] {
                break;
            }
            free = free + 1;
        }
        proof {
            assert forall|i: int| 0 <= i < n implies #[trigger] self.pivots@[i] != free by {
                assert(is_pivot@[self.pivots@[i] as int]);
            }
        }
        let mut x: Vec<Z> = Vec::new();
        let mut solved: Vec<bool> = Vec::new();
        let mut j: usize = 0;
        while j < d
            invariant
                j <= d,
                x@.len() == j,
                solved@.len() == j,
                all_wf(x@),
                forall|u: int| 0 <= u < j ==> (#[trigger] x@[u])@ == 0,
                forall|u: int| 0 <= u < j ==> !(#[trigger] solved@[u]),
            decreases d - j,
        {
            x.push(Z::zero());
            solved.push(false);
            j = j + 1;
        }
        x.set(free, Z::one());
        solved.set(free, true);
        let ghost rv = self.rows_view();
        let mut i: usize = n;
        while i > 0
            invariant
                i <= n,
                n + 1 == d,
                n == self.rows@.len(),
                self.wf(),
                d == self.d,
                rv == self.rows_view(),
                free < d,
                forall|u: int| 0 <= u < n ==> #[trigger] self.pivots@[u] != free,
                x@.len() == d,
                solved@.len() == d,
                all_wf(x@),
                forall|u: int| 0 <= u < d && !(#[trigger] solved@[u]) ==> x@[u]@ == 0,
                x@[free as int]@ != 0,
                forall|kk: int| i <= kk < n ==> dot_int(#[trigger] rv[kk], zvals(x@)) == 0,
            decreases i,
        {
            i = i - 1;
            let row = &self.rows[i];
            let p = self.pivots[i];
            let ghost x0 = zvals(x@);
            let ghost rz = zvals(row@);
            proof {
                assert(rv[i as int] == rz);
            }
            let mut s = Z::zero();
            let mut j: usize = 0;
            while j < d
                invariant
                    j <= d,
                    x@.len() == d,
                    solved@.len() == d,
                    row@.len() == d,
                    all_wf(x@),
                    all_wf(row@),
                    p < d,
                    x0 == zvals(x@),
                    rz == zvals(row@),
                    forall|u: int| 0 <= u < d && !(#[trigger] solved@[u]) ==> x@[u]@ == 0,
                    s.wf(),
                    s@ == dot_prefix(rz, x0, j as int) - (if p < j { rz[p as int] * x0[p as int] } else { 0 }),
                decreases d - j,
            {
                if j != p && solved[j] && !row[j].is_zero() && !x[j].is_zero() {
                    s = add_zz(&s, &mul_zz(&row[j], &x[j]));
                } else {
                    proof {
                        if j != p {
                            assert(rz[j as int] * x0[j as int] == 0) by (nonlinear_arith)
                                requires
                                    rz[j as int] == 0 || x0[j as int] == 0,
                            ;
                        }
                    }
                }
                j = j + 1;
            }
            let pv = &row[p];
            if !pv.is_one() {
                let mut j: usize = 0;
                while j < d
                    invariant
                        j <= d,
                        x@.len() == d,
                        solved@.len() == d,
                        all_wf(x@),
                        pv.wf(),
                        forall|u: int| 0 <= u < j ==> (#[trigger] x@[u])@ == pv@ * x0[u],
                        forall|u: int| j <= u < d ==> (#[trigger] x@[u])@ == x0[u],
                        forall|u: int| 0 <= u < d && !(#[trigger] solved@[u]) ==> x0[u] == 0,
                        x0.len() == d,
                    decreases d - j,
                {
                    if solved[j] && !x[j].is_zero() {
                        let v = mul_zz(&x[j], pv);
                        x.set(j, v);
                        proof {
                            assert(x0[j as int] * pv@ == pv@ * x0[j as int]) by (nonlinear_arith);
                        }
                    } else {
                        proof {
                            assert(pv@ * 0 == 0) by (nonlinear_arith);
                        }
                    }
                    j = j + 1;
                }
            } else {
                proof {
                    assert forall|u: int| 0 <= u < d implies (#[trigger] x@[u])@ == pv@ * x0[u] by {}
                }
            }
            let ghost xm = zvals(x@);
            proof {
                assert forall|u: int| 0 <= u < d implies #[trigger] xm[u] == pv@ * x0[u] by {}
            }
            x.set(p, neg_z(&s));
            solved.set(p, true);
            proof {
                let xn = zvals(x@);
                assert(xn =~= xm.update(p as int, -s@));
                // the processed rows stay orthogonal: scaling, then a change at column p
                assert forall|kk: int| i <= kk < n implies dot_int(#[trigger] rv[kk], xn) == 0 by {
                    let rk = rv[kk];
                    assert(rk.len() == d);
                    lemma_dot_scale(rk, x0, xm, pv@, d as int);
                    lemma_dot_update(rk, xm, p as int, -s@, d as int);
                    if kk > i {
                        assert(self.rows@[kk]@[self.pivots@[i as int] as int]@ == 0);
                        assert(rk[p as int] == 0);
                        assert(rk[p as int] * (-s@ - xm[p as int]) == 0) by (nonlinear_arith)
                            requires
                                rk[p as int] == 0,
                        ;
                        assert(dot_int(rk, x0) == 0);
                        assert(pv@ * 0 == 0) by (nonlinear_arith);
                    } else {
                        assert(kk == i);
                        assert(rk == rz);
                        assert(rz[p as int] == pv@);
                        let dx = dot_int(rz, x0);
                        assert(s@ == dx - pv@ * x0[p as int]);
                        assert(pv@ * dx + pv@ * (-s@ - pv@ * x0[p as int]) == 0) by (nonlinear_arith)
                            requires
                                s@ == dx - pv@ * x0[p as int],
                        ;
                    }
                }
                assert(x@[free as int]@ != 0) by {
                    assert(p != free);
                    assert(xm[free as int] == pv@ * x0[free as int]);
                    assert(pv@ * x0[free as int] != 0) by (nonlinear_arith)
                        requires
                            pv@ != 0,
                            x0[free as int] != 0,
                    ;
                }
            }
        }
        let ghost xz = zvals(x@);
        proof {
            assert(xz[free as int] != 0);
            lemma_lex_sign_nonzero(xz, free as int);
            crate::arith::lemma_gcd_fold_pos(0, xz);
        }
        let r = canonical_direction(x);
        proof {
            let rz = zvals(r@);
            let c = if lex_sign_of(xz) < 0 { -content(xz) } else { content(xz) };
            assert(c != 0);
            assert forall|u: int| 0 <= u < d implies #[trigger] xz[u] == c * rz[u] by {
                assert(r@[u]@ * c == xz[u]);
                assert(xz[u] == c * rz[u]) by (nonlinear_arith)
                    requires
                        rz[u] * c == xz[u],
                ;
            }
            assert forall|kk: int| 0 <= kk < rv.len() implies dot_int(#[trigger] rv[kk], rz) == 0 by {
                assert(rv[kk].len() == d);
                lemma_dot_scale(rv[kk], rz, xz, c, d as int);
                assert(dot_int(rv[kk], xz) == 0);
                assert(dot_int(rv[kk], rz) == 0) by (nonlinear_arith)
                    requires
                        c * dot_int(rv[kk], rz) == 0,
                        c != 0,
                ;
            }
            assert(orth_all(rv, rz));
            assert forall|kk: int| 0 <= kk < self.inputs@.len() implies dot_int(#[trigger] self.inputs@[kk], rz) == 0 by {
                assert(self.rows@[kk]@.len() == d);
                assert(in_span(rv.take(kk + 1), self.inputs@[kk]));
                assert(orth_all(rv.take(kk + 1), rz)) by {
                    assert forall|t: int| 0 <= t < rv.take(kk + 1).len() implies dot_int(#[trigger] rv.take(kk + 1)[t], rz) == 0 by {
                        assert(rv.take(kk + 1)[t] == rv[t]);
                    }
                }
            }
        }
        r
    }
}

/// Determinant only: `N` has an inverse up to this factor when it is not
/// zero.
pub fn det(rows: &[&[Z]]) -> (r: Z)
    requires
        square_rows(rows@),
        2 * rows@.len() * rows@.len() <= usize::MAX,
    ensures
        r.wf(),
        rows@.len() == 0 ==> r@ == 1,
        r@ != 0 ==> exists|a: Seq<Seq<int>>|
            is_square(a, rows@.len()) && #[trigger] mat_mul(int_rows(rows@), a) == scalar_mat(r@, rows@.len())
                && mat_mul(a, int_rows(rows@)) == scalar_mat(r@, rows@.len()),
{
    let (d, adj) = det_adj(rows);
    proof {
        if d@ != 0 {
            let a = square_of(zvals(adj@), rows@.len());
            assert(is_square(a, rows@.len()));
            assert(mat_mul(int_rows(rows@), a) == scalar_mat(d@, rows@.len()));
        }
    }
    d
}

} // verus!
