//! Per-polytope preprocessing with exact simplex walks: find a vertex, check
//! boundedness and full-dimensionality, strip redundant constraints and find
//! one vertex on every facet (the start of that facet's reverse search).
use crate::geom::{all_q_wf, rejected, Constraint, Problem, RawConstraint};
use crate::linalg::{det_adj, int_rows, Echelon};
use crate::matrix::{is_square, lemma_assoc, lemma_cancel, lemma_dot_unit, mat_mul, scalar_mat, square_of, vec_mat};
use crate::num::{add_zz, all_wf, dot_int, dot_prefix, lemma_dot_scale, mul_zz, sign_of, zvals, Point, Q, Z};
use crate::walk::{walk, Region, WalkError};
use vstd::prelude::*;

verus! {

#[derive(Debug, Clone, Copy, PartialEq, Eq, Structural)]
pub enum PrepError {
    NoVertex,
    Unbounded,
    LowerDimensional,
}

/// The text describing a preprocessing error.
pub open spec fn prep_text(e: PrepError) -> Seq<char> {
    match e {
        PrepError::NoVertex => "polytope has no vertex: it is empty, unbounded or not full-dimensional"@,
        PrepError::Unbounded => "polytope is unbounded"@,
        PrepError::LowerDimensional => "polytope is not full-dimensional"@,
    }
}

impl PrepError {
    /// Human-readable description.
    pub fn message(&self) -> (r: String)
        ensures
            r@ == prep_text(*self),
            *self == PrepError::NoVertex ==> r@ == "polytope has no vertex: it is empty, unbounded or not full-dimensional"@,
            *self == PrepError::Unbounded ==> r@ == "polytope is unbounded"@,
            *self == PrepError::LowerDimensional ==> r@ == "polytope is not full-dimensional"@,
    {
        match self {
            PrepError::NoVertex => "polytope has no vertex: it is empty, unbounded or not full-dimensional".to_owned(),
            PrepError::Unbounded => "polytope is unbounded".to_owned(),
            PrepError::LowerDimensional => "polytope is not full-dimensional".to_owned(),
        }
    }
}

#[derive(Debug)]
pub struct Prepared {
    /// irredundant facet constraints, in input order
    pub cons: Vec<RawConstraint>,
    /// one vertex on each facet, parallel to `cons`
    pub facet_starts: Vec<Point>,
    pub removed_redundant: usize,
    /// bounding box (lo, hi) from the boundedness walks
    pub bbox: (Vec<Q>, Vec<Q>),
}

/// The point `A·b / det` with `N·A = det·I` satisfies `N[k]·x = b[k]`,
/// given as `pnum / pden` with the same ratios as `A·b / det`.
proof fn lemma_on_planes(
    nm: Seq<Seq<int>>,
    a: Seq<Seq<int>>,
    bv: Seq<int>,
    det: int,
    numv: Seq<int>,
    pnum: Seq<int>,
    pden: int,
    d: nat,
    k: int,
)
    requires
        is_square(nm, d),
        is_square(a, d),
        bv.len() == d,
        numv.len() == d,
        pnum.len() == d,
        det != 0,
        mat_mul(nm, a) == scalar_mat(det, d),
        forall|i: int| 0 <= i < d ==> #[trigger] numv[i] == dot_int(a[i], bv),
        forall|i: int| 0 <= i < d ==> #[trigger] pnum[i] * det == numv[i] * pden,
        0 <= k < d,
    ensures
        dot_int(nm[k], pnum) - bv[k] * pden == 0,
{
    let n = d as int;
    let mv = Seq::new(d, |t: int| dot_int(a[t], bv));
    assert(mv =~= numv);
    lemma_assoc(nm[k], a, bv);
    assert(mat_mul(nm, a)[k] == vec_mat(nm[k], a));
    assert forall|t: int| 0 <= t < n implies #[trigger] vec_mat(nm[k], a)[t] == (if t == k { det } else { 0 }) by {
        assert(mat_mul(nm, a)[k][t] == scalar_mat(det, d)[k][t]);
    }
    lemma_dot_unit(vec_mat(nm[k], a), bv, k, det, n);
    let y = Seq::new(d, |i: int| det * pnum[i]);
    lemma_dot_scale(nm[k], pnum, y, det, n);
    assert forall|i: int| 0 <= i < n implies #[trigger] y[i] == pden * numv[i] by {
        let (p, q) = (pnum[i], numv[i]);
        assert(det * p == pden * q) by (nonlinear_arith)
            requires
                p * det == q * pden,
        ;
    }
    lemma_dot_scale(nm[k], numv, y, pden, n);
    let (dp, b) = (dot_int(nm[k], pnum), bv[k]);
    assert(det * (dp - b * pden) == 0) by (nonlinear_arith)
        requires
            det * dp == pden * (det * b),
    ;
    lemma_cancel(det, dp - b * pden, 0);
}

/// The normals of the hyperplanes `choice`, row by row.
pub open spec fn normals(prob: Problem, choice: Seq<usize>) -> Seq<Seq<int>> {
    Seq::new(choice.len(), |k: int| zvals(prob.hyps@[choice[k] as int].n@))
}

/// `nm` has an inverse up to a non-zero factor.
pub open spec fn invertible(nm: Seq<Seq<int>>, d: nat) -> bool {
    exists|a: Seq<Seq<int>>, c: int| c != 0 && is_square(a, d) && #[trigger] mat_mul(nm, a) == #[trigger] scalar_mat(c, d)
}

/// `p` is a vertex of the arrangement: it lies on `d` hyperplanes with
/// independent normals.
pub open spec fn arrangement_vertex(prob: Problem, p: Point) -> bool {
    exists|c: Seq<usize>|
        {
            &&& c.len() == prob.d
            &&& forall|k: int| 0 <= k < c.len() ==> (#[trigger] c[k]) < prob.hyps@.len()
            &&& invertible(#[trigger] normals(prob, c), prob.d as nat)
            &&& forall|k: int| 0 <= k < c.len() ==> prob.value(#[trigger] c[k] as int, p) == 0
        }
}

/// The intersection point of the hyperplanes `choice` (a basis), or `None`
/// if their normals are dependent: `x = adj(N)·b / det N`.
pub fn basis_point(prob: &Problem, choice: &Vec<usize>) -> (r: Option<Point>)
    requires
        prob.wf(),
        choice@.len() == prob.d,
        2 * prob.d * prob.d <= usize::MAX,
        forall|k: int| 0 <= k < choice@.len() ==> (#[trigger] choice@[k]) < prob.hyps@.len(),
    ensures
        r matches Some(p) ==> p.wf() && p.num@.len() == prob.d,
        r matches Some(p) ==> forall|k: int| 0 <= k < prob.d ==> prob.value(#[trigger] choice@[k] as int, p) == 0,
        r is Some ==> invertible(normals(*prob, choice@), prob.d as nat),
{
    let d = prob.d;
    let ghost dn = d as nat;
    let mut rows: Vec<&[Z]> = Vec::new();
    let mut t: usize = 0;
    while t < d
        invariant
            t <= d,
            d == prob.d,
            prob.wf(),
            choice@.len() == d,
            forall|k: int| 0 <= k < choice@.len() ==> (#[trigger] choice@[k]) < prob.hyps@.len(),
            rows@.len() == t,
            forall|k: int| 0 <= k < t ==> (#[trigger] rows@[k])@.len() == d && all_wf(rows@[k]@),
            forall|k: int| 0 <= k < t ==> (#[trigger] rows@[k])@ == prob.hyps@[choice@[k] as int].n@,
        decreases d - t,
    {
        proof {
            assert(prob.hyps@[choice@[t as int] as int].wf(d as nat));
        }
        rows.push(prob.hyps[choice[t]].n.as_slice());
        t = t + 1;
    }
    let (det, adj) = det_adj(rows.as_slice());
    if det.is_zero() {
        return None;
    }
    proof {
        assert(d * d <= usize::MAX) by (nonlinear_arith)
            requires
                2 * d * d <= usize::MAX,
        ;
    }
    let ghost am = square_of(zvals(adj@), dn);
    let ghost bv = Seq::new(dn, |k: int| prob.hyps@[choice@[k] as int].b@);
    let mut num: Vec<Z> = Vec::new();
    let mut i: usize = 0;
    while i < d
        invariant
            i <= d,
            d == prob.d,
            dn == d,
            prob.wf(),
            d * d <= usize::MAX,
            choice@.len() == d,
            forall|k: int| 0 <= k < choice@.len() ==> (#[trigger] choice@[k]) < prob.hyps@.len(),
            adj@.len() == d * d,
            all_wf(adj@),
            am == square_of(zvals(adj@), dn),
            bv == Seq::new(dn, |k: int| prob.hyps@[choice@[k] as int].b@),
            num@.len() == i,
            all_wf(num@),
            forall|a: int| 0 <= a < i ==> (#[trigger] num@[a])@ == dot_int(am[a], bv),
        decreases d - i,
    {
        let mut s = Z::zero();
        let mut k: usize = 0;
        while k < d
            invariant
                k <= d,
                i < d,
                d == prob.d,
                dn == d,
                prob.wf(),
                d * d <= usize::MAX,
                choice@.len() == d,
                forall|k2: int| 0 <= k2 < choice@.len() ==> (#[trigger] choice@[k2]) < prob.hyps@.len(),
                adj@.len() == d * d,
                all_wf(adj@),
                am == square_of(zvals(adj@), dn),
                bv == Seq::new(dn, |k: int| prob.hyps@[choice@[k] as int].b@),
                s.wf(),
                s@ == dot_prefix(am[i as int], bv, k as int),
            decreases d - k,
        {
            proof {
                crate::linalg::lemma_cell(i as int, k as int, d as int, d as int);
                assert(prob.hyps@[choice@[k as int] as int].wf(d as nat));
                assert(am[i as int][k as int] == adj@[i * d + k]@);
            }
            s = add_zz(&s, &mul_zz(&adj[i * d + k], &prob.hyps[choice[k]].b));
            k = k + 1;
        }
        proof {
            assert(am[i as int].len() == d);
        }
        num.push(s);
        i = i + 1;
    }
    let ghost numv = zvals(num@);
    let p = Point::new(num, det);
    proof {
        let nm = int_rows(rows@);
        assert(is_square(nm, dn)) by {
            assert forall|a: int| 0 <= a < d implies (#[trigger] nm[a]).len() == dn by {}
        }
        assert(is_square(am, dn));
        assert forall|k: int| 0 <= k < d implies prob.value(#[trigger] choice@[k] as int, p) == 0 by {
            assert forall|a: int| 0 <= a < d implies #[trigger] numv[a] == dot_int(am[a], bv) by {
                assert(num@[a]@ == dot_int(am[a], bv));
            }
            assert forall|a: int| 0 <= a < d implies #[trigger] zvals(p.num@)[a] * det@ == numv[a] * p.den@ by {
                assert(p.coord_is(a, num@[a]@, det@));
            }
            lemma_on_planes(nm, am, bv, det@, numv, zvals(p.num@), p.den@, dn, k);
            assert(nm[k] == zvals(prob.hyps@[choice@[k] as int].n@));
        }
        assert(normals(*prob, choice@) =~= nm);
        assert(mat_mul(nm, am) == scalar_mat(det@, dn));
    }
    Some(p)
}

/// Depth-first search over independent subsets beyond `start` for a basis
/// whose point lies in the region.
fn vertex_dfs(prob: &Problem, region: &Region, ech: &mut Echelon, choice: &mut Vec<usize>, start: usize) -> (r: Option<
    Point,
>)
    requires
        prob.wf(),
        2 * prob.d * prob.d <= usize::MAX,
        region.wf(prob.hyps@.len()),
        old(ech).wf(),
        old(ech).dim() == prob.d,
        old(ech).rows_view().len() == old(choice)@.len(),
        old(choice)@.len() <= prob.d,
        forall|k: int| 0 <= k < old(choice)@.len() ==> (#[trigger] old(choice)@[k]) < start,
        start <= prob.hyps@.len(),
    ensures
        final(ech).wf(),
        final(ech).dim() == prob.d,
        final(ech).rows_view().len() == old(ech).rows_view().len(),
        final(choice)@ == old(choice)@,
        r matches Some(p) ==> p.wf() && p.num@.len() == prob.d && region.holds(prob.values(p)),
        r matches Some(p) ==> arrangement_vertex(*prob, p),
    decreases prob.hyps@.len() - start,
{
    let d = prob.d;
    let m = prob.hyps.len();
    if choice.len() == d {
        match basis_point(prob, choice) {
            Some(p) => {
                if region.contains(prob, &p) {
                    proof {
                        assert(forall|k: int| 0 <= k < choice@.len() ==> (#[trigger] choice@[k]) < prob.hyps@.len());
                        assert(invertible(normals(*prob, choice@), prob.d as nat));
                    }
                    return Some(p);
                }
                return None;
            },
            None => {
                return None;
            },
        }
    }
    let mut next = start;
    while next < m
        invariant
            prob.wf(),
            2 * prob.d * prob.d <= usize::MAX,
            region.wf(prob.hyps@.len()),
            d == prob.d,
            m == prob.hyps@.len(),
            ech.wf(),
            ech.dim() == prob.d,
            ech.rows_view().len() == choice@.len(),
            ech.rows_view().len() == old(ech).rows_view().len(),
            choice@ == old(choice)@,
            choice@.len() < d,
            forall|k: int| 0 <= k < choice@.len() ==> (#[trigger] choice@[k]) < start,
            start <= next <= m,
        decreases m - next,
    {
        let slots = d - choice.len();
        if slots > m - next {
            break;
        }
        proof {
            assert(prob.hyps@[next as int].wf(d as nat));
        }
        if ech.try_push(prob.hyps[next].n.as_slice()) {
            let ghost c0 = choice@;
            choice.push(next);
            let r = vertex_dfs(prob, region, ech, choice, next + 1);
            choice.pop();
            ech.pop();
            proof {
                assert(choice@ =~= c0);
            }
            if r.is_some() {
                return r;
            }
        }
        next = next + 1;
    }
    None
}

/// First feasible basis of `region` in the local arrangement, by pruned
/// subset enumeration.
pub fn find_vertex(prob: &Problem, region: &Region) -> (r: Option<Point>)
    requires
        prob.wf(),
        2 * prob.d * prob.d <= usize::MAX,
        region.wf(prob.hyps@.len()),
    ensures
        r matches Some(p) ==> p.wf() && p.num@.len() == prob.d && region.holds(prob.values(p)),
        r matches Some(p) ==> arrangement_vertex(*prob, p),
{
    let mut ech = Echelon::new(prob.d);
    let mut choice: Vec<usize> = Vec::new();
    vertex_dfs(prob, region, &mut ech, &mut choice, 0)
}

/// `sign · o · n_h` for the constraint `(h, o)`.
fn objective(prob: &Problem, c: Constraint, sign: i8) -> (r: Vec<Z>)
    requires
        prob.wf(),
        c.wf(prob.hyps@.len()),
        sign == 1 || sign == -1,
    ensures
        r@.len() == prob.d,
        all_wf(r@),
        forall|i: int| 0 <= i < r@.len() ==> (#[trigger] r@[i])@ == prob.hyps@[c.h as int].n@[i]@ * (c.o * sign),
{
    proof {
        assert(prob.hyps@[c.h as int].wf(prob.d as nat));
    }
    let s = Z::from_i64((c.o * sign) as i64);
    let n = &prob.hyps[c.h].n;
    let mut out: Vec<Z> = Vec::new();
    let mut i: usize = 0;
    while i < n.len()
        invariant
            i <= n@.len(),
            all_wf(n@),
            s.wf(),
            s@ == c.o * sign,
            out@.len() == i,
            all_wf(out@),
            forall|k: int| 0 <= k < i ==> (#[trigger] out@[k])@ == n@[k]@ * (c.o * sign),
        decreases n@.len() - i,
    {
        out.push(mul_zz(&n[i], &s));
        i = i + 1;
    }
    out
}

/// What a walk inside a region of the local problem relies on.
spec fn walkable(prob: Problem, region: Region, start: Point) -> bool {
    &&& prob.wf()
    &&& prob.d >= 1
    &&& region.wf(prob.hyps@.len())
    &&& start.wf()
    &&& start.num@.len() == prob.d
    &&& region.holds(prob.values(start))
}

/// Full preprocessing of one polytope given as raw constraints.
pub fn prepare(d: usize, raw: &[RawConstraint]) -> (r: Result<Prepared, PrepError>)
    requires
        forall|i: int| 0 <= i < raw@.len() ==> (#[trigger] raw@[i]).wf(),
        2 * d * d <= usize::MAX,
    ensures
        (exists|i: int| 0 <= i < raw@.len() && rejected(#[trigger] raw@[i], d as nat)) ==> r == Err::<Prepared, PrepError>(
            PrepError::NoVertex,
        ),
        d == 0 ==> r is Err,
        raw@.len() == 0 ==> r == Err::<Prepared, PrepError>(PrepError::Unbounded),
        r matches Ok(p) ==> {
            &&& p.facet_starts@.len() == p.cons@.len()
            &&& forall|i: int| 0 <= i < p.facet_starts@.len() ==> (#[trigger] p.facet_starts@[i]).wf() && p.facet_starts@[i].num@.len() == d
            &&& forall|i: int| 0 <= i < p.cons@.len() ==> (#[trigger] p.cons@[i]).wf() && p.cons@[i].a@.len() == d
            &&& forall|i: int| 0 <= i < p.cons@.len() ==> integral(#[trigger] p.cons@[i])
            &&& forall|i: int| 0 <= i < p.cons@.len() ==> !crate::geom::zero_normal(#[trigger] p.cons@[i])
            &&& forall|i: int, j: int|
                0 <= i < p.cons@.len() && 0 <= j < p.facet_starts@.len() ==> satisfied_at(
                    #[trigger] p.cons@[i],
                    #[trigger] p.facet_starts@[j],
                )
            &&& p.bbox.0@.len() == d && p.bbox.1@.len() == d && all_q_wf(p.bbox.0@) && all_q_wf(p.bbox.1@)
        },
{
    let mut one: Vec<Vec<RawConstraint>> = Vec::new();
    let mut copy: Vec<RawConstraint> = Vec::new();
    let mut i: usize = 0;
    while i < raw.len()
        invariant
            i <= raw@.len(),
            forall|k: int| 0 <= k < raw@.len() ==> (#[trigger] raw@[k]).wf(),
            copy@.len() == i,
            forall|k: int| 0 <= k < i ==> (#[trigger] copy@[k]).wf() && copy@[k].a@.len() == raw@[k].a@.len()
                && crate::geom::qnums(copy@[k].a@) == crate::geom::qnums(raw@[k].a@) && copy@[k].b.num@ == raw@[k].b.num@,
        decreases raw@.len() - i,
    {
        let c = raw[i].clone();
        proof {
            assert(crate::geom::qnums(c.a@) =~= crate::geom::qnums(raw@[i as int].a@));
        }
        copy.push(c);
        i = i + 1;
    }
    one.push(copy);
    let local = match Problem::from_raw(d, one.as_slice()) {
        Ok(p) => p,
        Err(_) => {
            return Err(PrepError::NoVertex);
        },
    };
    proof {
        assert forall|i: int| 0 <= i < raw@.len() && rejected(#[trigger] raw@[i], d as nat) implies false by {
            assert(one@[0]@[i] == copy@[i]);
            assert(rejected(one@[0]@[i], d as nat));
        }
    }
    assert(none_rejected(raw@, d as nat));
    let mut cons: Vec<Constraint> = local.polys[0].cons.clone();
    proof {
        assert(local.polys@[0].wf(local.hyps@.len()));
        assert(cons@ == local.polys@[0].cons@);
        if raw@.len() == 0 && cons@.len() > 0 {
            assert(one@[0]@.len() == 0);
            assert(crate::geom::has_source(one@[0]@, one@[0]@.len() as int, local.hyps@, local.polys@[0].cons@[0]));
        }
    }
    if cons.len() <= d {
        // fewer than d+1 constraints cannot bound a full-dimensional polytope
        if cons.len() == 0 || d == 0 {
            return Err(PrepError::Unbounded);
        }
    }
    if d == 0 {
        return Err(PrepError::Unbounded);
    }
    let nh = local.hyps.len();
    let region = Region { cons: clone_cons(&cons), eq: None };
    let v0 = match find_vertex(&local, &region) {
        Some(v) => v,
        None => {
            return Err(PrepError::NoVertex);
        },
    };
    // boundedness: max ±x_k for all k
    let mut lo: Vec<Q> = Vec::new();
    let mut hi: Vec<Q> = Vec::new();
    let mut k: usize = 0;
    while k < d
        invariant
            k <= d,
            walkable(local, region, v0),
            local.d == d,
            none_rejected(raw@, d as nat),
            lo@.len() == k,
            hi@.len() == k,
            all_q_wf(lo@),
            all_q_wf(hi@),
        decreases d - k,
    {
        let mut w: Vec<Z> = Vec::new();
        let mut j: usize = 0;
        while j < d
            invariant
                j <= d,
                w@.len() == j,
                all_wf(w@),
            decreases d - j,
        {
            w.push(Z::zero());
            j = j + 1;
        }
        w.set(k, Z::one());
        let u = match walk(&local, &region, &v0, Some(w.as_slice())) {
            Ok(u) => u,
            Err(_) => {
                return Err(PrepError::Unbounded);
            },
        };
        hi.push(u.coord(k));
        w.set(k, Z::from_i64(-1));
        let u = match walk(&local, &region, &v0, Some(w.as_slice())) {
            Ok(u) => u,
            Err(_) => {
                return Err(PrepError::Unbounded);
            },
        };
        lo.push(u.coord(k));
        k = k + 1;
    }
    // implicit equalities (full-dimensionality) + witnesses off each hyperplane
    let mut witness: Vec<Point> = Vec::new();
    let mut j: usize = 0;
    while j < cons.len()
        invariant
            raw@.len() > 0,
            j <= cons@.len(),
            walkable(local, region, v0),
            local.d == d,
            none_rejected(raw@, d as nat),
            cons@ == region.cons@,
            witness@.len() == j,
            forall|t: int| 0 <= t < j ==> (#[trigger] witness@[t]).wf() && witness@[t].num@.len() == d,
        decreases cons@.len() - j,
    {
        let c = cons[j];
        proof {
            assert(c.wf(local.hyps@.len()));
            assert(local.hyps@[c.h as int].wf(d as nat));
        }
        let w = objective(&local, c, -1);
        let u = match walk(&local, &region, &v0, Some(w.as_slice())) {
            Ok(u) => u,
            Err(_) => {
                return Err(PrepError::Unbounded);
            },
        };
        if local.hyps[c.h].contains(&u) {
            return Err(PrepError::LowerDimensional);
        }
        witness.push(u);
        j = j + 1;
    }
    // redundancy: constraint j is redundant iff max of its functional over
    // P without j does not exceed b_j
    let mut keep: Vec<bool> = Vec::new();
    let mut j: usize = 0;
    while j < cons.len()
        invariant
            j <= cons@.len(),
            keep@.len() == j,
            forall|t: int| 0 <= t < j ==> keep@[t],
        decreases cons@.len() - j,
    {
        keep.push(true);
        j = j + 1;
    }
    let mut removed: usize = 0;
    proof {
        lemma_count_false_none(keep@, cons@.len() as int);
    }
    let mut j: usize = 0;
    while j < cons.len()
        invariant
            j <= cons@.len(),
            walkable(local, region, v0),
            local.d == d,
            none_rejected(raw@, d as nat),
            cons@ == region.cons@,
            keep@.len() == cons@.len(),
            witness@.len() == cons@.len(),
            forall|t: int| 0 <= t < witness@.len() ==> (#[trigger] witness@[t]).wf() && witness@[t].num@.len() == d,
            removed <= j,
            removed == count_false(keep@, cons@.len() as int),
            forall|t: int| j <= t < keep@.len() ==> keep@[t],
        decreases cons@.len() - j,
    {
        let mut sub: Vec<Constraint> = Vec::new();
        let mut i: usize = 0;
        while i < cons.len()
            invariant
                i <= cons@.len(),
                keep@.len() == cons@.len(),
                cons@ == region.cons@,
                region.wf(local.hyps@.len()),
                forall|t: int| 0 <= t < sub@.len() ==> (#[trigger] sub@[t]).wf(local.hyps@.len()),
            decreases cons@.len() - i,
        {
            if i != j && keep[i] {
                proof {
                    assert(cons@[i as int].wf(local.hyps@.len()));
                }
                sub.push(cons[i]);
            }
            i = i + 1;
        }
        let r = Region { cons: sub, eq: None };
        let c = cons[j];
        proof {
            assert(c.wf(local.hyps@.len()));
            assert(local.hyps@[c.h as int].wf(d as nat));
        }
        let w = objective(&local, c, 1);
        match walk(&local, &r, &witness[j], Some(w.as_slice())) {
            Err(_) => {},
            Ok(u) => {
                let e = local.hyps[c.h].eval(&u).signum() * c.o;
                if e <= 0 {
                    proof {
                        lemma_count_false_set(keep@, j as int, cons@.len() as int);
                    }
                    keep.set(j, false);
                    removed = removed + 1;
                }
            },
        }
        j = j + 1;
    }
    let mut kept: Vec<Constraint> = Vec::new();
    let mut j: usize = 0;
    while j < cons.len()
        invariant
            j <= cons@.len(),
            keep@.len() == cons@.len(),
            region.wf(local.hyps@.len()),
            cons@ == region.cons@,
            forall|t: int| 0 <= t < kept@.len() ==> (#[trigger] kept@[t]).wf(local.hyps@.len()),
            forall|t: int| 0 <= t < kept@.len() ==> cons@.contains(#[trigger] kept@[t]),
            kept@.len() + count_false(keep@, j as int) == j,
        decreases cons@.len() - j,
    {
        if keep[j] {
            proof {
                assert(cons@[j as int].wf(local.hyps@.len()));
            }
            kept.push(cons[j]);
        }
        j = j + 1;
    }
    let ghost old_region = region;
    cons = kept;
    let region = Region { cons: clone_cons(&cons), eq: None };
    proof {
        assert(region.wf(local.hyps@.len()));
        assert(old_region.holds(local.values(v0)));
        assert forall|k: int| 0 <= k < region.cons@.len() implies sign_of(local.values(v0)[(#[trigger] region.cons@[k]).h as int])
            * region.cons@[k].o <= 0 by {
            assert(old_region.cons@.contains(region.cons@[k]));
            let i = choose|i: int| 0 <= i < old_region.cons@.len() && old_region.cons@[i] == region.cons@[k];
            assert(sign_of(local.values(v0)[old_region.cons@[i].h as int]) * old_region.cons@[i].o <= 0);
        }
        assert(region.holds(local.values(v0)));
    }
    // one vertex on each facet
    let mut facet_starts: Vec<Point> = Vec::new();
    let mut j: usize = 0;
    while j < cons.len()
        invariant
            j <= cons@.len(),
            walkable(local, region, v0),
            local.d == d,
            none_rejected(raw@, d as nat),
            cons@ == region.cons@,
            facet_starts@.len() == j,
            forall|t: int| 0 <= t < j ==> (#[trigger] facet_starts@[t]).wf() && facet_starts@[t].num@.len() == d,
            forall|t: int| 0 <= t < j ==> region.holds(local.values(#[trigger] facet_starts@[t])),
        decreases cons@.len() - j,
    {
        let c = cons[j];
        proof {
            assert(c.wf(local.hyps@.len()));
        }
        let w = objective(&local, c, 1);
        let u = match walk(&local, &region, &v0, Some(w.as_slice())) {
            Ok(u) => u,
            Err(_) => {
                return Err(PrepError::Unbounded);
            },
        };
        facet_starts.push(u);
        j = j + 1;
    }
    let mut out_cons: Vec<RawConstraint> = Vec::new();
    let mut j: usize = 0;
    while j < cons.len()
        invariant
            j <= cons@.len(),
            local.wf(),
            local.d == d,
            forall|t: int| 0 <= t < cons@.len() ==> (#[trigger] cons@[t]).wf(local.hyps@.len()),
            cons@ == region.cons@,
            forall|t: int| 0 <= t < facet_starts@.len() ==> region.holds(local.values(#[trigger] facet_starts@[t])),
            forall|t: int| 0 <= t < facet_starts@.len() ==> (#[trigger] facet_starts@[t]).wf() && facet_starts@[t].num@.len() == d,
            local.canonical_hyps(),
            out_cons@.len() == j,
            forall|t: int| 0 <= t < j ==> (#[trigger] out_cons@[t]).wf() && out_cons@[t].a@.len() == d,
            forall|t: int| 0 <= t < j ==> integral(#[trigger] out_cons@[t]),
            forall|t: int| 0 <= t < j ==> !crate::geom::zero_normal(#[trigger] out_cons@[t]),
            forall|t: int, u: int|
                0 <= t < j && 0 <= u < facet_starts@.len() ==> satisfied_at(#[trigger] out_cons@[t], #[trigger] facet_starts@[u]),
        decreases cons@.len() - j,
    {
        let c = cons[j];
        proof {
            assert(c.wf(local.hyps@.len()));
            assert(local.hyps@[c.h as int].wf(d as nat));
        }
        let h = &local.hyps[c.h];
        let o = Z::from_i64(c.o as i64);
        let mut a: Vec<Q> = Vec::new();
        let mut t: usize = 0;
        while t < h.n.len()
            invariant
                t <= h.n@.len(),
                all_wf(h.n@),
                o.wf(),
                o@ == c.o,
                a@.len() == t,
                all_q_wf(a@),
                forall|k: int| 0 <= k < t ==> (#[trigger] a@[k]).num@ == h.n@[k]@ * c.o && a@[k].den@ == 1,
            decreases h.n@.len() - t,
        {
            a.push(Q::from_z(mul_zz(&h.n[t], &o)));
            t = t + 1;
        }
        let nc = RawConstraint { a, b: Q::from_z(mul_zz(&h.b, &o)) };
        proof {
            assert(h.canonical());
            crate::num::lemma_lex_sign_scaled(zvals(h.n@), crate::geom::qnums(nc.a@), c.o as int);
            assert(!crate::geom::zero_normal(nc));
            assert(region.cons@[j as int] == c);
            assert forall|u: int| 0 <= u < facet_starts@.len() implies satisfied_at(nc, #[trigger] facet_starts@[u]) by {
                let p = facet_starts@[u];
                assert(region.holds(local.values(p)));
                assert(sign_of(local.values(p)[c.h as int]) * c.o <= 0);
                assert(local.values(p)[c.h as int] == h.value_at(p));
                lemma_out_con(zvals(h.n@), crate::geom::qnums(nc.a@), h.b@, nc.b.num@, c.o as int, zvals(p.num@), p.den@);
            }
        }
        let ghost o0 = out_cons@;
        out_cons.push(nc);
        proof {
            assert forall|t2: int| 0 <= t2 < j + 1 implies !crate::geom::zero_normal(#[trigger] out_cons@[t2]) by {
                if t2 < j {
                    assert(out_cons@[t2] == o0[t2]);
                }
            }
            assert forall|t2: int, u: int|
                0 <= t2 < j + 1 && 0 <= u < facet_starts@.len() implies satisfied_at(#[trigger] out_cons@[t2], #[trigger] facet_starts@[u]) by {
                if t2 < j {
                    assert(out_cons@[t2] == o0[t2]);
                }
            }
        }
        j = j + 1;
    }
    Ok(Prepared { cons: out_cons, facet_starts, removed_redundant: removed, bbox: (lo, hi) })
}

/// All coefficients of the constraint are integers.
pub open spec fn integral(c: RawConstraint) -> bool {
    &&& c.b.den@ == 1
    &&& forall|k: int| 0 <= k < c.a@.len() ==> (#[trigger] c.a@[k]).den@ == 1
}

/// The point satisfies the integral constraint `a·x ≤ b`, with both sides
/// scaled by the point's denominator.
pub open spec fn satisfied_at(c: RawConstraint, p: Point) -> bool {
    crate::num::dot_int(crate::geom::qnums(c.a@), zvals(p.num@)) <= c.b.num@ * p.den@
}

/// Scaling the first argument scales the dot product.
proof fn lemma_dot_scale_first(a: Seq<int>, n: Seq<int>, x: Seq<int>, o: int, m: int)
    requires
        0 <= m,
        forall|k: int| 0 <= k < m ==> #[trigger] a[k] == n[k] * o,
    ensures
        crate::num::dot_prefix(a, x, m) == o * crate::num::dot_prefix(n, x, m),
    decreases m,
{
    if m > 0 {
        lemma_dot_scale_first(a, n, x, o, m - 1);
        let (s, u) = (crate::num::dot_prefix(n, x, m - 1), n[m - 1] * x[m - 1]);
        assert(a[m - 1] * x[m - 1] == o * u) by (nonlinear_arith)
            requires
                a[m - 1] == n[m - 1] * o,
                u == n[m - 1] * x[m - 1],
        ;
        assert(o * s + o * u == o * (s + u)) by (nonlinear_arith);
    }
}

/// The constraint `o·(n·x − b) ≤ 0` written with integer coefficients
/// `(o·n, o·b)` holds wherever the oriented hyperplane value is non-positive.
proof fn lemma_out_con(n: Seq<int>, a: Seq<int>, b: int, bo: int, o: int, x: Seq<int>, den: int)
    requires
        a.len() == n.len(),
        o == 1 || o == -1,
        forall|k: int| 0 <= k < a.len() ==> #[trigger] a[k] == n[k] * o,
        bo == b * o,
        sign_of(crate::num::dot_int(n, x) - b * den) * o <= 0,
    ensures
        crate::num::dot_int(a, x) <= bo * den,
{
    lemma_dot_scale_first(a, n, x, o, a.len() as int);
    let v = crate::num::dot_int(n, x) - b * den;
    assert(v * o <= 0) by (nonlinear_arith)
        requires
            sign_of(v) * o <= 0,
            o == 1 || o == -1,
    ;
    assert(o * crate::num::dot_int(n, x) - (b * o) * den == v * o) by (nonlinear_arith)
        requires
            v == crate::num::dot_int(n, x) - b * den,
    ;
}

/// No raw constraint is refused by the problem builder.
spec fn none_rejected(raw: Seq<RawConstraint>, d: nat) -> bool {
    forall|i: int| 0 <= i < raw.len() ==> !rejected(#[trigger] raw[i], d)
}

/// With every entry `true` there is nothing to count.
proof fn lemma_count_false_none(s: Seq<bool>, n: int)
    requires
        0 <= n <= s.len(),
        forall|t: int| 0 <= t < n ==> s[t],
    ensures
        count_false(s, n) == 0,
    decreases n,
{
    if n > 0 {
        lemma_count_false_none(s, n - 1);
    }
}

/// Number of `false` entries among the first `n`.
spec fn count_false(s: Seq<bool>, n: int) -> nat
    decreases n,
{
    if n <= 0 {
        0
    } else {
        count_false(s, n - 1) + if s[n - 1] {
            0nat
        } else {
            1nat
        }
    }
}

/// Clearing one `true` entry adds one to the count.
proof fn lemma_count_false_set(s: Seq<bool>, j: int, n: int)
    requires
        0 <= j < n <= s.len(),
        s[j],
    ensures
        count_false(s.update(j, false), n) == count_false(s, n) + 1,
    decreases n,
{
    if n - 1 > j {
        lemma_count_false_set(s, j, n - 1);
    } else {
        assert forall|t: int| 0 <= t < n - 1 implies s.update(j, false)[t] == s[t] by {}
        lemma_count_false_same(s.update(j, false), s, n - 1);
    }
}

/// Counts agree on sequences that agree on the prefix.
proof fn lemma_count_false_same(s: Seq<bool>, t: Seq<bool>, n: int)
    requires
        0 <= n <= s.len(),
        n <= t.len(),
        forall|i: int| 0 <= i < n ==> s[i] == t[i],
    ensures
        count_false(s, n) == count_false(t, n),
    decreases n,
{
    if n > 0 {
        lemma_count_false_same(s, t, n - 1);
    }
}

/// A constraint list copied entry by entry.
fn clone_cons(c: &Vec<Constraint>) -> (r: Vec<Constraint>)
    ensures
        r@ == c@,
{
    let mut out: Vec<Constraint> = Vec::new();
    let mut i: usize = 0;
    while i < c.len()
        invariant
            i <= c@.len(),
            out@ == c@.take(i as int),
        decreases c@.len() - i,
    {
        out.push(c[i]);
        i = i + 1;
        proof {
            assert(out@ =~= c@.take(i as int));
        }
    }
    proof {
        assert(out@ =~= c@);
    }
    out
}

} // verus!
