//! Brute-force `d`-subset vertex enumerator.  It is the reference the
//! reverse search is checked against; unlike the real traversal it stores
//! every vertex.
use crate::geom::Problem;
use crate::linalg::Echelon;
use crate::local::{stats_grow, KernelError, KernelStats, SweepParams};
use crate::num::{mul_zz, zvals, Point};
use crate::preprocess::{arrangement_vertex, basis_point, invertible, normals};
use crate::sweep::Accumulator;
use crate::geom::outside;
use crate::vertex::{containing_polytopes, in_interior, process_vertex, Visit};
use vstd::prelude::*;

verus! {

/// Cross-multiplied numerators of `p` against the denominator of `q`: the
/// coordinates of `p` on the common scale `p.den · q.den`.
pub open spec fn cross(p: Point, q: Point) -> Seq<int> {
    Seq::new(p.num@.len(), |i: int| p.num@[i]@ * q.den@)
}

/// `p` comes before `q` in lexicographic coordinate order.
pub open spec fn pt_before(p: Point, q: Point) -> bool {
    crate::local::lex_lt(cross(p, q), cross(q, p))
}

/// Two points are stored identically.
pub open spec fn same_point(p: Point, q: Point) -> bool {
    zvals(p.num@) == zvals(q.num@) && p.den@ == q.den@
}

/// A vertex list as the oracle returns it: well-formed points of dimension
/// `d`, no point twice, neighbours in increasing coordinate order.
pub open spec fn vertex_list(v: Seq<Point>, d: nat) -> bool {
    &&& forall|i: int| 0 <= i < v.len() ==> (#[trigger] v[i]).wf() && v[i].num@.len() == d
    &&& forall|i: int, j: int| 0 <= i < j < v.len() ==> !same_point(#[trigger] v[i], #[trigger] v[j])
    &&& forall|i: int| 0 <= i < v.len() - 1 ==> pt_before(#[trigger] v[i], v[i + 1])
}

/// Lexicographic coordinate comparison of two points of one dimension.
fn pt_compare(p: &Point, q: &Point) -> (r: i8)
    requires
        p.wf(),
        q.wf(),
        p.num@.len() == q.num@.len(),
    ensures
        r == 0 <==> cross(*p, *q) == cross(*q, *p),
        r < 0 <==> pt_before(*p, *q),
        r > 0 ==> pt_before(*q, *p),
{
    let mut a: Vec<crate::num::Z> = Vec::new();
    let mut b: Vec<crate::num::Z> = Vec::new();
    let mut i: usize = 0;
    while i < p.num.len()
        invariant
            p.wf(),
            q.wf(),
            p.num@.len() == q.num@.len(),
            i <= p.num@.len(),
            a@.len() == i,
            b@.len() == i,
            crate::num::all_wf(a@),
            crate::num::all_wf(b@),
            forall|k: int| 0 <= k < i ==> (#[trigger] a@[k])@ == p.num@[k]@ * q.den@,
            forall|k: int| 0 <= k < i ==> (#[trigger] b@[k])@ == q.num@[k]@ * p.den@,
        decreases p.num@.len() - i,
    {
        a.push(mul_zz(&p.num[i], &q.den));
        b.push(mul_zz(&q.num[i], &p.den));
        i = i + 1;
    }
    proof {
        assert(zvals(a@) =~= cross(*p, *q));
        assert(zvals(b@) =~= cross(*q, *p));
    }
    crate::local::lex_compare(a.as_slice(), b.as_slice())
}

/// Inserts `p` into an ordered vertex list unless it is already there.
#[verifier::spinoff_prover]
#[verifier::rlimit(40)]
fn insert_point(v: &mut Vec<Point>, p: Point, Ghost(d): Ghost<nat>)
    requires
        vertex_list(old(v)@, d),
        p.wf(),
        p.num@.len() == d,
    ensures
        vertex_list(final(v)@, d),
        exists|k: int| 0 <= k < final(v)@.len() && same_point(#[trigger] final(v)@[k], p),
        forall|k: int| 0 <= k < old(v)@.len() ==> final(v)@.contains(#[trigger] old(v)@[k]),
        forall|t: int| 0 <= t < final(v)@.len() ==> old(v)@.contains(#[trigger] final(v)@[t]) || final(v)@[t] == p,
{
    let mut k: usize = 0;
    let mut stop = false;
    while k < v.len() && !stop
        invariant
            vertex_list(v@, d),
            v@ == old(v)@,
            p.wf(),
            p.num@.len() == d,
            k <= v@.len(),
            forall|t: int| 0 <= t < k ==> pt_before(#[trigger] v@[t], p),
            stop ==> k < v@.len() && pt_before(p, v@[k as int]),
        decreases v@.len() - k + if stop { 0int } else { 1int },
    {
        let c = pt_compare(&v[k], &p);
        if c == 0 {
            proof {
                lemma_cross_same(v@[k as int], p);
                assert(v@.contains(v@[k as int]));
                assert forall|t: int| 0 <= t < old(v)@.len() implies v@.contains(#[trigger] old(v)@[t]) by {
                    assert(v@[t] == old(v)@[t]);
                }
                assert forall|t: int| 0 <= t < v@.len() implies old(v)@.contains(#[trigger] v@[t]) by {
                    assert(old(v)@[t] == v@[t]);
                }
            }
            return;
        }
        if c > 0 {
            stop = true;
        } else {
            k = k + 1;
        }
    }
    proof {
        lemma_insert_sorted(v@, k as int, p, d);
    }
    let ghost old_v = v@;
    v.insert(k, p);
    proof {
        let nv = v@;
        assert(nv =~= old_v.insert(k as int, p));
        assert(nv[k as int] == p);
        assert(same_point(p, p));
        assert forall|t: int| 0 <= t < old_v.len() implies nv.contains(#[trigger] old_v[t]) by {
            if t < k {
                assert(nv[t] == old_v[t]);
            } else {
                assert(nv[t + 1] == old_v[t]);
            }
        }
        assert forall|t: int| 0 <= t < nv.len() implies old_v.contains(#[trigger] nv[t]) || nv[t] == p by {
            if t < k {
                assert(old_v[t] == nv[t]);
            } else if t > k {
                assert(old_v[t - 1] == nv[t]);
            }
        }
    }
}

/// Inserting a new point at its place keeps a vertex list ordered and free
/// of repeats.
proof fn lemma_insert_sorted(v: Seq<Point>, k: int, p: Point, d: nat)
    requires
        vertex_list(v, d),
        0 <= k <= v.len(),
        p.wf(),
        p.num@.len() == d,
        forall|t: int| 0 <= t < k ==> pt_before(#[trigger] v[t], p),
        k < v.len() ==> pt_before(p, v[k]),
    ensures
        vertex_list(v.insert(k, p), d),
{
    lemma_new_point(v, k, p, d);
    lemma_insert_distinct(v, k, p);
    lemma_insert_order(v, k, p);
    let nv = v.insert(k, p);
    assert forall|i: int| 0 <= i < nv.len() implies (#[trigger] nv[i]).wf() && nv[i].num@.len() == d by {
        if i < k {
            assert(nv[i] == v[i]);
        } else if i > k {
            assert(nv[i] == v[i - 1]);
        }
    }
}

/// The new point matches no entry of the list.
proof fn lemma_new_point(v: Seq<Point>, k: int, p: Point, d: nat)
    requires
        forall|i: int| 0 <= i < v.len() ==> (#[trigger] v[i]).wf() && v[i].num@.len() == d,
        forall|i: int| 0 <= i < v.len() - 1 ==> pt_before(#[trigger] v[i], v[i + 1]),
        0 <= k <= v.len(),
        p.wf(),
        p.num@.len() == d,
        forall|t: int| 0 <= t < k ==> pt_before(#[trigger] v[t], p),
        k < v.len() ==> pt_before(p, v[k]),
    ensures
        forall|t: int| 0 <= t < v.len() ==> !same_point(#[trigger] v[t], p),
{
    assert forall|t: int| 0 <= t < v.len() implies !same_point(#[trigger] v[t], p) by {
        if t < k {
            lemma_before_not_same(v[t], p);
        } else {
            lemma_before_chain(v, k, t, p, d);
            lemma_before_not_same(p, v[t]);
        }
    }
}

/// Inserting a point that matches no entry keeps the entries distinct.
proof fn lemma_insert_distinct(v: Seq<Point>, k: int, p: Point)
    requires
        forall|i: int, j: int| 0 <= i < j < v.len() ==> !same_point(#[trigger] v[i], #[trigger] v[j]),
        forall|t: int| 0 <= t < v.len() ==> !same_point(#[trigger] v[t], p),
        0 <= k <= v.len(),
    ensures
        forall|i: int, j: int|
            0 <= i < j < v.insert(k, p).len() ==> !same_point(#[trigger] v.insert(k, p)[i], #[trigger] v.insert(k, p)[j]),
{
    let nv = v.insert(k, p);
    assert forall|i: int, j: int| 0 <= i < j < nv.len() implies !same_point(#[trigger] nv[i], #[trigger] nv[j]) by {
        if j < k {
            assert(nv[i] == v[i] && nv[j] == v[j]);
        } else if j == k {
            assert(nv[i] == v[i]);
        } else if i < k {
            assert(nv[i] == v[i] && nv[j] == v[j - 1]);
        } else if i == k {
            assert(nv[j] == v[j - 1]);
            assert(!same_point(v[j - 1], p));
        } else {
            assert(nv[i] == v[i - 1] && nv[j] == v[j - 1]);
        }
    }
}

/// Inserting a point between its neighbours keeps the neighbour order.
proof fn lemma_insert_order(v: Seq<Point>, k: int, p: Point)
    requires
        forall|i: int| 0 <= i < v.len() - 1 ==> pt_before(#[trigger] v[i], v[i + 1]),
        0 <= k <= v.len(),
        k > 0 ==> pt_before(v[k - 1], p),
        k < v.len() ==> pt_before(p, v[k]),
    ensures
        forall|i: int| 0 <= i < v.insert(k, p).len() - 1 ==> pt_before(#[trigger] v.insert(k, p)[i], v.insert(k, p)[i + 1]),
{
    let nv = v.insert(k, p);
    assert forall|i: int| 0 <= i < nv.len() - 1 implies pt_before(#[trigger] nv[i], nv[i + 1]) by {
        if i + 1 < k {
            assert(nv[i] == v[i] && nv[i + 1] == v[i + 1]);
        } else if i + 1 == k {
            assert(nv[i] == v[i]);
        } else if i == k {
            assert(nv[i + 1] == v[k]);
        } else {
            assert(nv[i] == v[i - 1] && nv[i + 1] == v[i]);
        }
    }
}

/// Identically stored points of one dimension compare equal.
proof fn lemma_cross_same(p: Point, q: Point)
    requires
        p.wf(),
        q.wf(),
        p.num@.len() == q.num@.len(),
        cross(p, q) == cross(q, p),
    ensures
        same_point(p, q),
{
    let n = p.num@.len();
    let a = zvals(p.num@);
    let b = zvals(q.num@);
    assert forall|i: int| 0 <= i < n implies #[trigger] a[i] * q.den@ == b[i] * p.den@ by {
        assert(cross(p, q)[i] == cross(q, p)[i]);
        assert(cross(p, q)[i] == p.num@[i]@ * q.den@);
        assert(cross(q, p)[i] == q.num@[i]@ * p.den@);
        assert(a[i] == p.num@[i]@);
        assert(b[i] == q.num@[i]@);
    }
    lemma_lowest_terms_unique(p.den@, a, q.den@, b);
    assert(a =~= b);
}

/// Points are kept in normal form: two well-formed points with the same
/// rational coordinates are stored identically.
pub proof fn lemma_point_unique(p: Point, q: Point)
    requires
        p.wf(),
        q.wf(),
        p.num@.len() == q.num@.len(),
        forall|i: int| 0 <= i < p.num@.len() ==> #[trigger] p.coord_is(i, q.num@[i]@, q.den@),
    ensures
        same_point(p, q),
{
    let a = zvals(p.num@);
    let b = zvals(q.num@);
    assert forall|i: int| 0 <= i < a.len() implies #[trigger] a[i] * q.den@ == b[i] * p.den@ by {
        assert(p.coord_is(i, q.num@[i]@, q.den@));
        assert(a[i] == p.num@[i]@ && b[i] == q.num@[i]@);
    }
    lemma_lowest_terms_unique(p.den@, a, q.den@, b);
    assert(zvals(p.num@) =~= zvals(q.num@));
}

/// Two integer vectors over positive denominators, each in lowest terms
/// (`gcd(den, entries) = 1`), with equal cross products are identical.
proof fn lemma_lowest_terms_unique(pd: int, a: Seq<int>, qd: int, b: Seq<int>)
    requires
        pd > 0,
        qd > 0,
        a.len() == b.len(),
        crate::arith::gcd_fold(pd as nat, a) == 1,
        crate::arith::gcd_fold(qd as nat, b) == 1,
        forall|i: int| 0 <= i < a.len() ==> #[trigger] a[i] * qd == b[i] * pd,
    ensures
        pd == qd,
        forall|i: int| 0 <= i < a.len() ==> #[trigger] a[i] == b[i],
{
    lemma_den_divides(pd, a, qd, b);
    assert forall|i: int| 0 <= i < b.len() implies #[trigger] b[i] * pd == a[i] * qd by {
        assert(a[i] * qd == b[i] * pd);
    }
    lemma_den_divides(qd, b, pd, a);
    assert forall|i: int| 0 <= i < a.len() implies #[trigger] a[i] == b[i] by {
        assert(a[i] * qd == b[i] * pd);
        assert(a[i] == b[i]) by (nonlinear_arith)
            requires
                a[i] * qd == b[i] * pd,
                pd == qd,
                pd > 0,
        ;
    }
}

/// With proportional entries, the denominator of a vector in lowest terms
/// is at most the other denominator's share: `pd ≤ qd`, and symmetric use
/// gives equality.  Proof through `h = gcd(pd, qd)`: `pd/h` divides every
/// entry of `a` and `pd`, hence divides `gcd(pd, a) = 1`.
proof fn lemma_den_divides(pd: int, a: Seq<int>, qd: int, b: Seq<int>)
    requires
        pd > 0,
        qd > 0,
        a.len() == b.len(),
        crate::arith::gcd_fold(pd as nat, a) == 1,
        forall|i: int| 0 <= i < a.len() ==> #[trigger] a[i] * qd == b[i] * pd,
    ensures
        pd <= qd,
{
    let pn = pd as nat;
    let qn = qd as nat;
    crate::arith::lemma_coprime_after_div(pn, qn);
    let h = crate::arith::gcd(pn, qn) as int;
    crate::arith::lemma_gcd_divides(pn, qn);
    crate::arith::lemma_div_of_multiple(pd, h);
    crate::arith::lemma_div_of_multiple(qd, h);
    let p2 = pd / h;
    let q2 = qd / h;
    assert(p2 > 0 && q2 > 0) by (nonlinear_arith)
        requires
            pd == h * p2,
            qd == h * q2,
            pd > 0,
            qd > 0,
            h > 0,
    ;
    crate::arith::lemma_bezout(p2 as nat, q2 as nat);
    let (x, y) = crate::arith::bezout(p2 as nat, q2 as nat);
    assert(p2 * x + q2 * y == 1);
    assert forall|i: int| 0 <= i < a.len() implies crate::arith::divides(p2, #[trigger] a[i]) by {
        assert(a[i] * qd == b[i] * pd);
        assert(a[i] * q2 == b[i] * p2) by (nonlinear_arith)
            requires
                a[i] * qd == b[i] * pd,
                pd == h * p2,
                qd == h * q2,
                h > 0,
        ;
        assert(a[i] == p2 * (a[i] * x + b[i] * y)) by (nonlinear_arith)
            requires
                a[i] * q2 == b[i] * p2,
                p2 * x + q2 * y == 1,
        ;
        assert(a[i] == crate::arith::times(p2, a[i] * x + b[i] * y));
    }
    assert(crate::arith::divides(p2, pd)) by {
        assert(pd == crate::arith::times(p2, h)) by (nonlinear_arith)
            requires
                pd == h * p2,
        ;
    }
    crate::arith::lemma_gcd_fold_greatest(pn, a, p2);
    crate::arith::lemma_divisor_le(p2, 1);
    assert(pd <= qd) by (nonlinear_arith)
        requires
            p2 <= 1,
            pd == h * p2,
            qd == h * q2,
            q2 > 0,
            h > 0,
    ;
}

/// A point strictly before another is not stored identically to it.
proof fn lemma_before_not_same(p: Point, q: Point)
    requires
        p.num@.len() == q.num@.len(),
        pt_before(p, q),
    ensures
        !same_point(p, q),
{
    if same_point(p, q) {
        assert(cross(p, q) =~= cross(q, p)) by {
            assert forall|i: int| 0 <= i < cross(p, q).len() implies cross(p, q)[i] == cross(q, p)[i] by {
                assert(p.num@[i]@ == zvals(p.num@)[i]);
                assert(q.num@[i]@ == zvals(q.num@)[i]);
                assert(cross(p, q)[i] == p.num@[i]@ * q.den@);
                assert(cross(q, p)[i] == q.num@[i]@ * p.den@);
            }
        }
        crate::walk::lemma_lex_irreflexive(cross(p, q));
    }
}

/// Along neighbours that increase, a point before entry `k` is before
/// every later entry.
proof fn lemma_before_chain(v: Seq<Point>, k: int, t: int, p: Point, d: nat)
    requires
        forall|i: int| 0 <= i < v.len() ==> (#[trigger] v[i]).wf() && v[i].num@.len() == d,
        forall|i: int| 0 <= i < v.len() - 1 ==> pt_before(#[trigger] v[i], v[i + 1]),
        0 <= k <= t < v.len(),
        pt_before(p, v[k]),
        p.wf(),
        p.num@.len() == d,
    ensures
        pt_before(p, v[t]),
    decreases t - k,
{
    if t > k {
        lemma_before_chain(v, k, t - 1, p, d);
        assert(pt_before(v[t - 1], v[t]));
        lemma_pt_before_trans(p, v[t - 1], v[t]);
    }
}

/// `pt_before` is transitive on well-formed points of one dimension.
pub proof fn lemma_pt_before_trans(a: Point, b: Point, c: Point)
    requires
        a.wf(),
        b.wf(),
        c.wf(),
        a.num@.len() == b.num@.len(),
        b.num@.len() == c.num@.len(),
        pt_before(a, b),
        pt_before(b, c),
    ensures
        pt_before(a, c),
{
    assert(cross(a, b).skip(0) =~= cross(a, b));
    assert(cross(b, a).skip(0) =~= cross(b, a));
    assert(cross(b, c).skip(0) =~= cross(b, c));
    assert(cross(c, b).skip(0) =~= cross(c, b));
    lemma_scaled_lex(a, b, c, 0);
    assert(cross(a, c).skip(0) =~= cross(a, c));
    assert(cross(c, a).skip(0) =~= cross(c, a));
}

/// Lexicographic comparison after scaling by positive denominators,
/// from position `i` on, given equality before it.
proof fn lemma_scaled_lex(a: Point, b: Point, c: Point, i: int)
    requires
        a.wf(),
        b.wf(),
        c.wf(),
        a.num@.len() == b.num@.len(),
        b.num@.len() == c.num@.len(),
        0 <= i <= a.num@.len(),
        crate::local::lex_lt(cross(a, b).skip(i), cross(b, a).skip(i)),
        crate::local::lex_lt(cross(b, c).skip(i), cross(c, b).skip(i)),
    ensures
        crate::local::lex_lt(cross(a, c).skip(i), cross(c, a).skip(i)),
    decreases a.num@.len() - i,
{
    let n = a.num@.len();
    let (ad, bd, cd) = (a.den@, b.den@, c.den@);
    if i == n {
        assert(cross(a, b).skip(i).len() == 0);
        assert(cross(b, a).skip(i).len() == 0);
        return;
    }
    let x = a.num@[i]@;
    let y = b.num@[i]@;
    let z = c.num@[i]@;
    assert(cross(a, b).skip(i)[0] == x * bd);
    assert(cross(b, a).skip(i)[0] == y * ad);
    assert(cross(b, c).skip(i)[0] == y * cd);
    assert(cross(c, b).skip(i)[0] == z * bd);
    assert(cross(a, c).skip(i)[0] == x * cd);
    assert(cross(c, a).skip(i)[0] == z * ad);
    assert(cross(a, b).skip(i).drop_first() =~= cross(a, b).skip(i + 1));
    assert(cross(b, a).skip(i).drop_first() =~= cross(b, a).skip(i + 1));
    assert(cross(b, c).skip(i).drop_first() =~= cross(b, c).skip(i + 1));
    assert(cross(c, b).skip(i).drop_first() =~= cross(c, b).skip(i + 1));
    assert(cross(a, c).skip(i).drop_first() =~= cross(a, c).skip(i + 1));
    assert(cross(c, a).skip(i).drop_first() =~= cross(c, a).skip(i + 1));
    // x/ad ≤ y/bd ≤ z/cd with at least one strict step at the first
    // difference
    assert(x * bd <= y * ad);
    assert(y * cd <= z * bd);
    assert(x * cd <= z * ad && (x * cd == z * ad ==> x * bd == y * ad && y * cd == z * bd)) by (nonlinear_arith)
        requires
            ad > 0,
            bd > 0,
            cd > 0,
            x * bd <= y * ad,
            y * cd <= z * bd,
    ;
    if x * cd == z * ad {
        lemma_scaled_lex(a, b, c, i + 1);
    }
}

/// All distinct vertices of the arrangement, by depth-first search over the
/// independent `d`-subsets of hyperplanes from `start` on.
fn all_vertices_dfs(prob: &Problem, ech: &mut Echelon, choice: &mut Vec<usize>, start: usize, out: &mut Vec<Point>)
    requires
        prob.wf(),
        2 * prob.d * prob.d <= usize::MAX,
        old(ech).wf(),
        old(ech).dim() == prob.d,
        old(ech).rows_view().len() == old(choice)@.len(),
        old(choice)@.len() <= prob.d,
        forall|k: int| 0 <= k < old(choice)@.len() ==> (#[trigger] old(choice)@[k]) < start,
        start <= prob.hyps@.len(),
        vertex_list(old(out)@, prob.d as nat),
        forall|t: int| 0 <= t < old(out)@.len() ==> arrangement_vertex(*prob, #[trigger] old(out)@[t]),
    ensures
        final(ech).wf(),
        final(ech).dim() == prob.d,
        final(ech).rows_view().len() == old(ech).rows_view().len(),
        final(choice)@ == old(choice)@,
        vertex_list(final(out)@, prob.d as nat),
        forall|t: int| 0 <= t < final(out)@.len() ==> arrangement_vertex(*prob, #[trigger] final(out)@[t]),
        forall|k: int| 0 <= k < old(out)@.len() ==> final(out)@.contains(#[trigger] old(out)@[k]),
    decreases prob.hyps@.len() - start,
{
    let d = prob.d;
    let m = prob.hyps.len();
    if choice.len() == d {
        if let Some(p) = basis_point(prob, choice) {
            proof {
                assert(forall|k: int| 0 <= k < choice@.len() ==> (#[trigger] choice@[k]) < prob.hyps@.len());
                assert(invertible(normals(*prob, choice@), prob.d as nat));
                assert(arrangement_vertex(*prob, p));
            }
            let ghost o0 = out@;
            insert_point(out, p, Ghost(d as nat));
            proof {
                assert forall|t: int| 0 <= t < out@.len() implies arrangement_vertex(*prob, #[trigger] out@[t]) by {
                    if out@[t] != p {
                        let j = choose|j: int| 0 <= j < o0.len() && o0[j] == out@[t];
                        assert(arrangement_vertex(*prob, o0[j]));
                    }
                }
            }
        }
        return;
    }
    let mut next = start;
    while next < m
        invariant
            prob.wf(),
            2 * prob.d * prob.d <= usize::MAX,
            d == prob.d,
            m == prob.hyps@.len(),
            ech.wf(),
            ech.dim() == prob.d,
            ech.rows_view().len() == choice@.len(),
            ech.rows_view().len() == old(ech).rows_view().len(),
            choice@ == old(choice)@,
            choice@.len() < d,
            forall|k: int| 0 <= k < choice@.len() ==> (#[trigger] choice@[k]) < start,
            start <= next <= m,
            vertex_list(out@, prob.d as nat),
            forall|t: int| 0 <= t < out@.len() ==> arrangement_vertex(*prob, #[trigger] out@[t]),
            forall|k: int| 0 <= k < old(out)@.len() ==> out@.contains(#[trigger] old(out)@[k]),
        decreases m - next,
    {
        let slots = d - choice.len();
        if slots > m - next {
            break;
        }
        proof {
            assert(prob.hyps@[next as int].wf(d as nat));
        }
        if ech.try_push(prob.hyps[next].n.as_slice()) {
            let ghost c0 = choice@;
            let ghost o0 = out@;
            choice.push(next);
            all_vertices_dfs(prob, ech, choice, next + 1, out);
            choice.pop();
            ech.pop();
            proof {
                assert(choice@ =~= c0);
                assert forall|k: int| 0 <= k < old(out)@.len() implies out@.contains(#[trigger] old(out)@[k]) by {
                    let j = choose|j: int| 0 <= j < o0.len() && o0[j] == old(out)@[k];
                    assert(out@.contains(o0[j]));
                }
            }
        }
        next = next + 1;
    }
}

/// All distinct vertices of the arrangement `A(H)`, in lexicographic
/// coordinate order.
pub fn all_vertices(prob: &Problem) -> (r: Vec<Point>)
    requires
        prob.wf(),
        2 * prob.d * prob.d <= usize::MAX,
    ensures
        vertex_list(r@, prob.d as nat),
        forall|t: int| 0 <= t < r@.len() ==> arrangement_vertex(*prob, #[trigger] r@[t]),
{
    let mut ech = Echelon::new(prob.d);
    let mut choice: Vec<usize> = Vec::new();
    let mut out: Vec<Point> = Vec::new();
    all_vertices_dfs(prob, &mut ech, &mut choice, 0, &mut out);
    out
}

/// `v` lies on the boundary of the union: inside no polytope's interior and
/// inside at least one polytope.
pub open spec fn on_union_boundary(prob: Problem, v: Point) -> bool {
    &&& !(exists|i: int| 0 <= i < prob.polys@.len() && in_interior(#[trigger] prob.polys@[i], prob.values(v)))
    &&& !(forall|i: int| 0 <= i < prob.polys@.len() ==> outside(#[trigger] prob.polys@[i], prob.values(v)))
}

/// The boundary test as a predicate on points.
pub open spec fn boundary_pred(prob: Problem) -> spec_fn(Point) -> bool {
    |v: Point| on_union_boundary(prob, v)
}

/// Vertices of `A(H)` lying on `∂U`.
pub fn boundary_vertices(prob: &Problem) -> (r: Vec<Point>)
    requires
        prob.wf(),
        2 * prob.d * prob.d <= usize::MAX,
    ensures
        exists|all: Seq<Point>|
            {
                &&& vertex_list(all, prob.d as nat)
                &&& forall|t: int| 0 <= t < all.len() ==> arrangement_vertex(*prob, #[trigger] all[t])
                &&& r@ == all.filter(boundary_pred(*prob))
            },
{
    let mut rest = all_vertices(prob);
    let ghost all = rest@;
    assert(all.len() == rest.len());
    let mut out: Vec<Point> = Vec::new();
    proof {
        reveal(Seq::filter);
        assert(all.take(0).len() == 0);
        assert(all.skip(0) =~= all);
    }
    let mut i: usize = 0;
    while rest.len() > 0
        invariant
            prob.wf(),
            vertex_list(all, prob.d as nat),
            forall|t: int| 0 <= t < all.len() ==> arrangement_vertex(*prob, #[trigger] all[t]),
            i <= all.len(),
            rest@ == all.skip(i as int),
            rest@.len() == all.len() - i,
            all.len() <= usize::MAX,
            out@ == all.take(i as int).filter(boundary_pred(*prob)),
        decreases rest@.len(),
    {
        let v = rest.remove(0);
        proof {
            assert(v == all[i as int]);
            assert(rest@ =~= all.skip(i + 1));
        }
        let keep = containing_polytopes(prob, &v).is_some();
        proof {
            reveal(Seq::filter);
            assert(all.take(i + 1).drop_last() =~= all.take(i as int));
            assert(all.take(i + 1).last() == all[i as int]);
            assert(keep == boundary_pred(*prob)(all[i as int]));
        }
        if keep {
            out.push(v);
        }
        i = i + 1;
    }
    proof {
        assert(all.take(i as int) =~= all);
    }
    out
}

/// Sweep function by brute force: every arrangement vertex goes through
/// the vertex kernel.  Returns the accumulator, the kernel counters and the
/// number of vertices that contributed.
pub fn oracle_sweep(prob: &Problem, params: &SweepParams) -> (r: Result<(Accumulator, KernelStats, usize), KernelError>)
    requires
        prob.wf(),
        1 <= prob.d <= 64,
        params.wf(prob.d as nat),
    ensures
        r matches Ok((acc, st, n)) ==> acc.wf() && acc.dim() == prob.d,
        r matches Err(e) ==> crate::local::kernel_error_fits(e, params.r is Some),
{
    let mut acc = Accumulator::new(prob.d);
    let mut stats = KernelStats::default();
    let mut emitted: usize = 0;
    assert(2 * prob.d * prob.d <= usize::MAX) by (nonlinear_arith)
        requires
            prob.d <= 64,
    ;
    let all = all_vertices(prob);
    let mut i: usize = 0;
    while i < all.len()
        invariant
            prob.wf(),
            1 <= prob.d <= 64,
            params.wf(prob.d as nat),
            vertex_list(all@, prob.d as nat),
            i <= all@.len(),
            emitted <= i,
            acc.wf(),
            acc.dim() == prob.d,
        decreases all@.len() - i,
    {
        let v = &all[i];
        let evals = prob.evals(v);
        proof {
            assert(zvals(evals@) =~= prob.values(*v));
        }
        let res = process_vertex(prob, v, evals.as_slice(), None, params, &mut acc, &mut stats);
        match res {
            Ok(Visit::Emitted) => {
                emitted = emitted + 1;
            },
            Ok(_) => {},
            Err(e) => {
                return Err(e);
            },
        }
        i = i + 1;
    }
    Ok((acc, stats, emitted))
}

} // verus!
