//! Processing of one arrangement vertex: `∂U` test, ownership and the
//! sweep-plane contribution.
use crate::geom::{outside, tights, Problem, Side, Tight};
use crate::local::{cones_at, indices_ok, kernel_inputs, Containing, KernelError, KernelStats, SweepParams};
use crate::num::{all_wf, zvals, Point, Q, Z};
use crate::sweep::{qv, Accumulator};
use vstd::prelude::*;

verus! {

/// Outcome of looking at a vertex.
#[derive(Debug, Clone, Copy, PartialEq, Eq, Structural)]
pub enum Visit {
    /// `v ∈ int U` or `v ∉ U`: no contribution.
    NotBoundary,
    /// on `∂U` but another facet owns it.
    OwnedElsewhere,
    /// contribution accumulated.
    Emitted,
}

/// Least position among the tight constraints.
pub open spec fn min_pos(t: Seq<Tight>) -> int
    decreases t.len(),
{
    if t.len() == 0 {
        0
    } else if t.len() == 1 {
        t[0].pos as int
    } else {
        let m = min_pos(t.drop_last());
        if (t.last().pos as int) < m {
            t.last().pos as int
        } else {
            m
        }
    }
}

/// `(a0, a1) ≤ (b0, b1)` lexicographically.
pub open spec fn pair_le(a: (int, int), b: (int, int)) -> bool {
    a.0 < b.0 || (a.0 == b.0 && a.1 <= b.1)
}

/// The owner key of one containing polytope.
pub open spec fn owner_key(c: (usize, Vec<Tight>)) -> (int, int) {
    (c.0 as int, min_pos(c.1@))
}

/// Least position among the tight constraints of one polytope.
fn least_pos(t: &Vec<Tight>) -> (r: usize)
    requires
        t@.len() > 0,
    ensures
        r as int == min_pos(t@),
{
    let mut m = t[0].pos;
    let mut i: usize = 1;
    proof {
        assert(t@.take(1).len() == 1);
        assert(min_pos(t@.take(1)) == t@[0].pos);
    }
    while i < t.len()
        invariant
            1 <= i <= t@.len(),
            m as int == min_pos(t@.take(i as int)),
        decreases t@.len() - i,
    {
        proof {
            assert(t@.take(i + 1).drop_last() =~= t@.take(i as int));
            assert(t@.take(i + 1).last() == t@[i as int]);
        }
        if t[i].pos < m {
            m = t[i].pos;
        }
        i = i + 1;
    }
    proof {
        assert(t@.take(i as int) =~= t@);
    }
    m
}

/// Owner facet of a boundary vertex: lex-smallest `(polytope, constraint
/// position)` over all polytopes containing `v` on their boundary.
pub fn owner(containing: &[(usize, Vec<Tight>)]) -> (r: (usize, usize))
    requires
        containing@.len() > 0,
        forall|i: int| 0 <= i < containing@.len() ==> (#[trigger] containing@[i]).1@.len() > 0,
    ensures
        exists|i: int| 0 <= i < containing@.len() && owner_key(#[trigger] containing@[i]) == (r.0 as int, r.1 as int),
        forall|i: int| 0 <= i < containing@.len() ==> pair_le((r.0 as int, r.1 as int), owner_key(#[trigger] containing@[i])),
{
    let mut best = (containing[0].0, least_pos(&containing[0].1));
    let mut i: usize = 1;
    proof {
        assert(owner_key(containing@[0]) == (best.0 as int, best.1 as int));
    }
    while i < containing.len()
        invariant
            1 <= i <= containing@.len(),
            forall|j: int| 0 <= j < containing@.len() ==> (#[trigger] containing@[j]).1@.len() > 0,
            exists|j: int| 0 <= j < i && owner_key(#[trigger] containing@[j]) == (best.0 as int, best.1 as int),
            forall|j: int| 0 <= j < i ==> pair_le((best.0 as int, best.1 as int), owner_key(#[trigger] containing@[j])),
        decreases containing@.len() - i,
    {
        let k = (containing[i].0, least_pos(&containing[i].1));
        proof {
            assert(owner_key(containing@[i as int]) == (k.0 as int, k.1 as int));
        }
        if k.0 < best.0 || (k.0 == best.0 && k.1 < best.1) {
            best = k;
        }
        i = i + 1;
    }
    best
}

/// `v` lies on the boundary of the polytope (with these hyperplane values).
pub open spec fn on_boundary(p: crate::geom::Polytope, ev: Seq<int>) -> bool {
    !outside(p, ev) && tights(p, ev, p.cons@.len() as int).len() > 0
}

/// `v` lies in the interior of the polytope.
pub open spec fn in_interior(p: crate::geom::Polytope, ev: Seq<int>) -> bool {
    !outside(p, ev) && tights(p, ev, p.cons@.len() as int).len() == 0
}

/// The point with hyperplane values `ev` is interior to some polytope or
/// outside all of them: it is on no boundary of the union.
pub open spec fn off_boundary(prob: Problem, ev: Seq<int>) -> bool {
    ||| exists|i: int| 0 <= i < prob.polys@.len() && in_interior(#[trigger] prob.polys@[i], ev)
    ||| forall|i: int| 0 <= i < prob.polys@.len() ==> outside(#[trigger] prob.polys@[i], ev)
}

/// Every one of the first `n` polytopes having the point on its boundary
/// is listed.
#[verifier::opaque]
pub open spec fn covers(out: Seq<(usize, Vec<Tight>)>, prob: Problem, ev: Seq<int>, n: int) -> bool {
    forall|j: int|
        0 <= j < n && on_boundary(#[trigger] prob.polys@[j], ev) ==> exists|k: int|
            0 <= k < out.len() && #[trigger] lists(out[k], prob.polys@[j], ev)
}

/// The owner key of a polytope at a point on its boundary: its id and the
/// least position of its tight constraints.
pub open spec fn poly_key(p: crate::geom::Polytope, ev: Seq<int>) -> (int, int) {
    (p.id as int, min_pos(tights(p, ev, p.cons@.len() as int)))
}

/// The facet `o` owns the point with hyperplane values `ev`: `o` is the
/// least owner key among the polytopes having the point on their boundary.
pub open spec fn owns(prob: Problem, ev: Seq<int>, o: (int, int)) -> bool {
    &&& exists|i: int| 0 <= i < prob.polys@.len() && on_boundary(prob.polys@[i], ev) && #[trigger] poly_key(prob.polys@[i], ev) == o
    &&& forall|i: int| 0 <= i < prob.polys@.len() && on_boundary(prob.polys@[i], ev) ==> pair_le(o, #[trigger] poly_key(prob.polys@[i], ev))
}

/// The least owner key among the first `n` polytopes having the point on
/// their boundary, if there is one.
proof fn lemma_least_key(prob: Problem, ev: Seq<int>, n: int) -> (o: Option<(int, int)>)
    requires
        0 <= n <= prob.polys@.len(),
    ensures
        o is None ==> forall|i: int| 0 <= i < n ==> !on_boundary(#[trigger] prob.polys@[i], ev),
        o matches Some(k) ==> (exists|i: int| 0 <= i < n && on_boundary(prob.polys@[i], ev) && #[trigger] poly_key(prob.polys@[i], ev) == k),
        o matches Some(k) ==> forall|i: int| 0 <= i < n && on_boundary(prob.polys@[i], ev) ==> pair_le(k, #[trigger] poly_key(prob.polys@[i], ev)),
    decreases n,
{
    if n == 0 {
        None
    } else {
        let prev = lemma_least_key(prob, ev, n - 1);
        let p = prob.polys@[n - 1];
        if !on_boundary(p, ev) {
            prev
        } else {
            let kn = poly_key(p, ev);
            match prev {
                None => Some(kn),
                Some(k) => if pair_le(k, kn) {
                    Some(k)
                } else {
                    assert forall|i: int| 0 <= i < n && on_boundary(prob.polys@[i], ev) implies pair_le(kn, #[trigger] poly_key(prob.polys@[i], ev)) by {
                        if i < n - 1 {
                            assert(pair_le(k, poly_key(prob.polys@[i], ev)));
                        }
                    }
                    Some(kn)
                },
            }
        }
    }
}

/// Every vertex on the boundary of the union has exactly one owner: a
/// vertex that no polytope holds in its interior and some polytope holds
/// is owned by one facet key, and two owners are the same key.  With
/// [`process_vertex`], this makes every facet search but the owner's report
/// such a vertex as owned elsewhere.
pub proof fn lemma_one_owner(prob: Problem, ev: Seq<int>)
    requires
        !off_boundary(prob, ev),
    ensures
        exists|o: (int, int)| #[trigger] owns(prob, ev, o),
        forall|o1: (int, int), o2: (int, int)| #[trigger] owns(prob, ev, o1) && #[trigger] owns(prob, ev, o2) ==> o1 == o2,
{
    let i0 = choose|i: int| 0 <= i < prob.polys@.len() && !outside(#[trigger] prob.polys@[i], ev);
    assert(!in_interior(prob.polys@[i0], ev));
    assert(on_boundary(prob.polys@[i0], ev));
    let o = lemma_least_key(prob, ev, prob.polys@.len() as int);
    assert(owns(prob, ev, o->0));
    assert forall|o1: (int, int), o2: (int, int)| #[trigger] owns(prob, ev, o1) && #[trigger] owns(prob, ev, o2) implies o1 == o2 by {
        let i1 = choose|i: int| 0 <= i < prob.polys@.len() && on_boundary(prob.polys@[i], ev) && #[trigger] poly_key(prob.polys@[i], ev) == o1;
        let i2 = choose|i: int| 0 <= i < prob.polys@.len() && on_boundary(prob.polys@[i], ev) && #[trigger] poly_key(prob.polys@[i], ev) == o2;
        assert(pair_le(o1, poly_key(prob.polys@[i2], ev)));
        assert(pair_le(o2, poly_key(prob.polys@[i1], ev)));
    }
}

/// Classify `v` against all polytopes.  `None` if `v` is interior to some
/// polytope or outside all of them; otherwise the containing list.
pub fn containing_polytopes(prob: &Problem, v: &Point) -> (r: Option<Vec<(usize, Vec<Tight>)>>)
    requires
        prob.wf(),
        v.wf(),
        v.num@.len() == prob.d,
    ensures
        r is None <==> (exists|i: int| 0 <= i < prob.polys@.len() && in_interior(#[trigger] prob.polys@[i], prob.values(*v)))
            || (forall|i: int| 0 <= i < prob.polys@.len() ==> outside(#[trigger] prob.polys@[i], prob.values(*v))),
        r matches Some(out) ==> forall|k: int| 0 <= k < out@.len() ==> listed(#[trigger] out@[k], *prob, prob.values(*v)),
{
    let ev = prob.evals(v);
    proof {
        assert(zvals(ev@) =~= prob.values(*v));
    }
    containing_from_evals(prob, ev.as_slice())
}

/// The containing entry lists one of the polytopes.
pub open spec fn listed(e: (usize, Vec<Tight>), prob: Problem, ev: Seq<int>) -> bool {
    exists|i: int| 0 <= i < prob.polys@.len() && #[trigger] lists(e, prob.polys@[i], ev)
}

/// The containing entry is the polytope with its tight constraints.
pub open spec fn lists(e: (usize, Vec<Tight>), p: crate::geom::Polytope, ev: Seq<int>) -> bool {
    &&& on_boundary(p, ev)
    &&& e.0 == p.id
    &&& e.1@ == tights(p, ev, p.cons@.len() as int)
}

/// Same from precomputed hyperplane evaluations.
#[verifier::spinoff_prover]
#[verifier::rlimit(40)]
pub fn containing_from_evals(prob: &Problem, evals: &[Z]) -> (r: Option<Vec<(usize, Vec<Tight>)>>)
    requires
        prob.wf(),
        evals@.len() == prob.hyps@.len(),
        all_wf(evals@),
    ensures
        r is None <==> (exists|i: int| 0 <= i < prob.polys@.len() && in_interior(#[trigger] prob.polys@[i], zvals(evals@)))
            || (forall|i: int| 0 <= i < prob.polys@.len() ==> outside(#[trigger] prob.polys@[i], zvals(evals@))),
        r matches Some(out) ==> forall|k: int| 0 <= k < out@.len() ==> listed(#[trigger] out@[k], *prob, zvals(evals@)),
        r matches Some(out) ==> out@.len() > 0 && forall|k: int| 0 <= k < out@.len() ==> (#[trigger] out@[k]).1@.len() > 0,
        r matches Some(out) ==> covers(out@, *prob, zvals(evals@), prob.polys@.len() as int),
{
    let ghost ev = zvals(evals@);
    let mut out: Vec<(usize, Vec<Tight>)> = Vec::new();
    let mut i: usize = 0;
    proof {
        reveal(covers);
    }
    while i < prob.polys.len()
        invariant
            prob.wf(),
            evals@.len() == prob.hyps@.len(),
            all_wf(evals@),
            ev == zvals(evals@),
            i <= prob.polys@.len(),
            forall|j: int| 0 <= j < i ==> !in_interior(#[trigger] prob.polys@[j], ev),
            (out@.len() == 0) == (forall|j: int| 0 <= j < i ==> outside(#[trigger] prob.polys@[j], ev)),
            forall|k: int| 0 <= k < out@.len() ==> listed(#[trigger] out@[k], *prob, ev),
            forall|k: int| 0 <= k < out@.len() ==> (#[trigger] out@[k]).1@.len() > 0,
            covers(out@, *prob, ev, i as int),
        decreases prob.polys@.len() - i,
    {
        let (side, tight) = prob.classify_evals(i, evals);
        match side {
            Side::Interior => {
                proof {
                    assert(in_interior(prob.polys@[i as int], ev));
                }
                return None;
            },
            Side::Boundary => {
                let ghost o = out@;
                out.push((prob.polys[i].id, tight));
                proof {
                    assert(lists(out@[o.len() as int], prob.polys@[i as int], ev));
                    assert forall|k: int| 0 <= k < out@.len() implies listed(#[trigger] out@[k], *prob, ev) by {
                        if k < o.len() {
                            assert(out@[k] == o[k]);
                        } else {
                            assert(lists(out@[k], prob.polys@[i as int], ev));
                        }
                    }
                    assert(!outside(prob.polys@[i as int], ev));
                    reveal(covers);
                    assert forall|j: int| 0 <= j < i + 1 && on_boundary(#[trigger] prob.polys@[j], ev) implies exists|k: int|
                        0 <= k < out@.len() && #[trigger] lists(out@[k], prob.polys@[j], ev) by {
                        if j < i {
                            let k = choose|k: int| 0 <= k < o.len() && #[trigger] lists(o[k], prob.polys@[j], ev);
                            assert(out@[k] == o[k]);
                        } else {
                            assert(lists(out@[o.len() as int], prob.polys@[j], ev));
                        }
                    }
                }
            },
            Side::Outside => {
                proof {
                    assert(outside(prob.polys@[i as int], ev));
                    reveal(covers);
                }
            },
        }
        i = i + 1;
    }
    if out.len() == 0 {
        None
    } else {
        proof {
            assert(!(forall|j: int| 0 <= j < prob.polys@.len() ==> outside(#[trigger] prob.polys@[j], ev)));

        }
        Some(out)
    }
}

/// Insert `h` into the strictly increasing `v` unless it is there.
fn insert_index(v: &mut Vec<usize>, h: usize)
    requires
        forall|a: int, b: int| 0 <= a < b < old(v)@.len() ==> old(v)@[a] < old(v)@[b],
    ensures
        forall|a: int, b: int| 0 <= a < b < final(v)@.len() ==> final(v)@[a] < final(v)@[b],
        final(v)@.contains(h),
        forall|x: usize| #[trigger] final(v)@.contains(x) ==> x == h || old(v)@.contains(x),
{
    let mut p: usize = 0;
    while p < v.len() && v[p] < h
        invariant
            p <= v@.len(),
            forall|t: int| 0 <= t < p ==> v@[t] < h,
        decreases v@.len() - p,
    {
        p = p + 1;
    }
    if p < v.len() && v[p] == h {
        proof {
            assert(v@[p as int] == h);
        }
        return;
    }
    let ghost o = v@;
    v.insert(p, h);
    proof {
        assert(v@[p as int] == h);
        assert forall|x: usize| #[trigger] v@.contains(x) implies x == h || o.contains(x) by {
            let t = choose|t: int| 0 <= t < v@.len() && v@[t] == x;
            if t < p {
                assert(v@[t] == o[t]);
            } else if t > p {
                assert(v@[t] == o[t - 1]);
            }
        }
    }
}

/// The least key of a complete containing list is the owner, and the only
/// one.
proof fn lemma_owner(prob: Problem, ev: Seq<int>, containing: Seq<(usize, Vec<Tight>)>, wk: (int, int), o: (int, int))
    requires
        forall|k: int| 0 <= k < containing.len() ==> listed(#[trigger] containing[k], prob, ev),
        covers(containing, prob, ev, prob.polys@.len() as int),
        exists|k: int| 0 <= k < containing.len() && owner_key(#[trigger] containing[k]) == wk,
        forall|k: int| 0 <= k < containing.len() ==> pair_le(wk, owner_key(#[trigger] containing[k])),
    ensures
        owns(prob, ev, wk),
        owns(prob, ev, o) ==> o == wk,
{
    reveal(covers);
    let k0 = choose|k: int| 0 <= k < containing.len() && owner_key(#[trigger] containing[k]) == wk;
    assert(listed(containing[k0], prob, ev));
    let j0 = choose|j: int| 0 <= j < prob.polys@.len() && #[trigger] lists(containing[k0], prob.polys@[j], ev);
    assert(poly_key(prob.polys@[j0], ev) == wk);
    assert forall|i: int| 0 <= i < prob.polys@.len() && on_boundary(prob.polys@[i], ev) implies pair_le(
        wk,
        #[trigger] poly_key(prob.polys@[i], ev),
    ) by {
        let k = choose|k: int| 0 <= k < containing.len() && #[trigger] lists(containing[k], prob.polys@[i], ev);
        assert(owner_key(containing[k]) == poly_key(prob.polys@[i], ev));
    }
    if owns(prob, ev, o) {
        let i1 = choose|i: int|
            0 <= i < prob.polys@.len() && on_boundary(prob.polys@[i], ev) && #[trigger] poly_key(prob.polys@[i], ev) == o;
        assert(pair_le(wk, poly_key(prob.polys@[i1], ev)));
        assert(pair_le(o, poly_key(prob.polys@[j0], ev)));
    }
}

/// Full per-vertex step.  If `expect_owner` is given, the vertex is only
/// emitted when that facet owns it.
pub fn process_vertex(
    prob: &Problem,
    v: &Point,
    evals: &[Z],
    expect_owner: Option<(usize, usize)>,
    params: &SweepParams,
    acc: &mut Accumulator,
    stats: &mut KernelStats,
) -> (r: Result<Visit, KernelError>)
    requires
        prob.wf(),
        1 <= prob.d <= 64,
        v.wf(),
        v.num@.len() == prob.d,
        evals@.len() == prob.hyps@.len(),
        all_wf(evals@),
        zvals(evals@) == prob.values(*v),
        params.wf(prob.d as nat),
        old(acc).wf(),
        old(acc).dim() == prob.d,
    ensures
        final(acc).wf(),
        final(acc).dim() == old(acc).dim(),
        crate::local::stats_grow(*old(stats), *final(stats)),
        r == Ok::<Visit, KernelError>(Visit::NotBoundary) <==> (exists|i: int|
            0 <= i < prob.polys@.len() && in_interior(#[trigger] prob.polys@[i], prob.values(*v))) || (forall|i: int|
            0 <= i < prob.polys@.len() ==> outside(#[trigger] prob.polys@[i], prob.values(*v))),
        r == Ok::<Visit, KernelError>(Visit::OwnedElsewhere) ==> expect_owner is Some,
        r == Ok::<Visit, KernelError>(Visit::NotBoundary) || r == Ok::<Visit, KernelError>(Visit::OwnedElsewhere) ==> final(acc).tops() == old(acc).tops(),
        r == Ok::<Visit, KernelError>(Visit::NotBoundary) || r == Ok::<Visit, KernelError>(Visit::OwnedElsewhere) ==> *final(acc) == *old(acc),
        r matches Err(e) ==> crate::local::kernel_error_fits(e, params.r is Some),
        r is Err ==> *final(acc) == *old(acc),
        r == Ok::<Visit, KernelError>(Visit::Emitted) ==> exists|k: Q|
            k.wf() && #[trigger] k.is(crate::num::dot_int(zvals(params.a@), zvals(v.num@)), v.den@) && (final(acc).tops()
                == old(acc).tops() || exists|t: (int, int)| #[trigger] crate::sweep::adds_top(old(acc).tops(), final(acc).tops(), qv(k), t)),
        expect_owner matches Some(o) ==> (r == Ok::<Visit, KernelError>(Visit::OwnedElsewhere) <==> (!off_boundary(
            *prob,
            prob.values(*v),
        ) && !owns(*prob, prob.values(*v), (o.0 as int, o.1 as int)))),
{
    let ghost ev = zvals(evals@);
    let containing = match containing_from_evals(prob, evals) {
        Some(c) => c,
        None => {
            return Ok(Visit::NotBoundary);
        },
    };
    if let Some(o) = expect_owner {
        let w = owner(containing.as_slice());
        proof {
            lemma_owner(*prob, ev, containing@, (w.0 as int, w.1 as int), (o.0 as int, o.1 as int));
        }
        if w.0 != o.0 || w.1 != o.1 {
            return Ok(Visit::OwnedElsewhere);
        }
    }
    let mut cont: Vec<Containing> = Vec::new();
    // A basis containing a hyperplane that is tight for no containing polytope
    // has chi = 0 (no cube fixes that coordinate), so only the hyperplanes
    // tight for some containing polytope are enumerated (ascending, as
    // required by the lexicographic cell test).
    let mut tv: Vec<usize> = Vec::new();
    let mut i: usize = 0;
    while i < containing.len()
        invariant
            prob.wf(),
            ev == zvals(evals@),
            i <= containing@.len(),
            cont@.len() == i,
            forall|k: int| 0 <= k < containing@.len() ==> listed(#[trigger] containing@[k], *prob, ev),
            forall|k: int, t: int|
                0 <= k < i && 0 <= t < cont@[k].tight@.len() ==> (#[trigger] cont@[k].tight@[t]).c.wf(prob.hyps@.len()),
            indices_ok(tv@, prob.hyps@.len()),
            forall|a: int, b: int| 0 <= a < b < tv@.len() ==> tv@[a] < tv@[b],
        decreases containing@.len() - i,
    {
        let (p, t) = (&containing[i].0, &containing[i].1);
        proof {
            let j = choose|j: int| 0 <= j < prob.polys@.len() && #[trigger] lists(containing@[i as int], prob.polys@[j], ev);
            lemma_tights_wf(prob.polys@[j], ev, prob.polys@[j].cons@.len() as int, prob.hyps@.len());
            assert(prob.polys@[j].wf(prob.hyps@.len()));
        }
        let mut k: usize = 0;
        while k < t.len()
            invariant
                forall|x: int| 0 <= x < t@.len() ==> (#[trigger] t@[x]).c.wf(prob.hyps@.len()),
                k <= t@.len(),
                indices_ok(tv@, prob.hyps@.len()),
                forall|a: int, b: int| 0 <= a < b < tv@.len() ==> tv@[a] < tv@[b],
            decreases t@.len() - k,
        {
            let ghost tv0 = tv@;
            insert_index(&mut tv, t[k].c.h);
            proof {
                assert forall|x: int| 0 <= x < tv@.len() implies (#[trigger] tv@[x]) < prob.hyps@.len() by {
                    assert(tv@.contains(tv@[x]));
                    if tv@[x] != t@[k as int].c.h {
                        let y = choose|y: int| 0 <= y < tv0.len() && tv0[y] == tv@[x];
                        assert(tv0[y] < prob.hyps@.len());
                    }
                }
            }
            k = k + 1;
        }
        cont.push(Containing { poly: *p, tight: t.as_slice() });
        i = i + 1;
    }
    proof {
        assert(params.wf(prob.d as nat));
    }
    let c = match cones_at(prob, v, tv.as_slice(), cont.as_slice(), params, stats) {
        Ok(c) => c,
        Err(e) => {
            return Err(e);
        },
    };
    let knot = v.dot_q(params.a);
    let ghost kq = knot;
    acc.add(knot, &c);
    proof {
        assert(kq.wf() && kq.is(crate::num::dot_int(zvals(params.a@), zvals(v.num@)), v.den@));
        assert(crate::sweep::adds_top(old(acc).tops(), acc.tops(), qv(kq), qv(c.top)) || acc.tops() == old(acc).tops());
        assert(acc.tops() == old(acc).tops() || exists|t: (int, int)| #[trigger] crate::sweep::adds_top(old(acc).tops(), acc.tops(), qv(kq), t));
    }
    Ok(Visit::Emitted)
}

/// The tight constraints listed for a polytope are its own constraints.
proof fn lemma_tights_wf(p: crate::geom::Polytope, ev: Seq<int>, n: int, nh: nat)
    requires
        p.wf(nh),
        0 <= n <= p.cons@.len(),
    ensures
        forall|t: int| 0 <= t < tights(p, ev, n).len() ==> (#[trigger] tights(p, ev, n)[t]).c.wf(nh),
    decreases n,
{
    if n > 0 {
        lemma_tights_wf(p, ev, n - 1, nh);
        let prev = tights(p, ev, n - 1);
        assert forall|t: int| 0 <= t < tights(p, ev, n).len() implies (#[trigger] tights(p, ev, n)[t]).c.wf(nh) by {
            if t < prev.len() {
                assert(tights(p, ev, n)[t] == prev[t]);
            } else {
                assert(p.cons@[n - 1].wf(nh));
            }
        }
    }
}

} // verus!
