//! Bounding boxes: the range of a hyperplane's functional over a box, and
//! which polytopes and constraints a restricted view around one box keeps.
use crate::geom::{Constraint, Problem};
use crate::num::{sign_of, zvals, Q};
use crate::sweep::{equiv, padd, plt, pmul, qv};
use vstd::prelude::*;

verus! {

/// Lower and upper end of `n·x − b` over the box `[lo, hi]`, summed over the
/// first `k` coordinates.
pub open spec fn box_range(n: Seq<int>, b: int, lo: Seq<Q>, hi: Seq<Q>, k: int) -> ((int, int), (int, int))
    decreases k,
{
    if k <= 0 {
        ((-b, 1), (-b, 1))
    } else {
        let r = box_range(n, b, lo, hi, k - 1);
        let x1 = pmul((n[k - 1], 1), qv(lo[k - 1]));
        let x2 = pmul((n[k - 1], 1), qv(hi[k - 1]));
        if !plt(x2, x1) {
            (padd(r.0, x1), padd(r.1, x2))
        } else {
            (padd(r.0, x2), padd(r.1, x1))
        }
    }
}

/// The boxes are separated along coordinate `c`.
pub open spec fn separated_at(lo_i: Seq<Q>, hi_i: Seq<Q>, lo_j: Seq<Q>, hi_j: Seq<Q>, c: int) -> bool {
    plt(qv(hi_i[c]), qv(lo_j[c])) || plt(qv(hi_j[c]), qv(lo_i[c]))
}

/// The boxes are separated along one of the first `k` coordinates.
pub open spec fn boxes_apart(lo_i: Seq<Q>, hi_i: Seq<Q>, lo_j: Seq<Q>, hi_j: Seq<Q>, k: int) -> bool {
    exists|c: int| 0 <= c < k && #[trigger] separated_at(lo_i, hi_i, lo_j, hi_j, c)
}

/// The range of the functional of constraint `c` over the box.
pub open spec fn con_range(prob: Problem, c: Constraint, lo: Seq<Q>, hi: Seq<Q>) -> ((int, int), (int, int)) {
    box_range(zvals(prob.hyps@[c.h as int].n@), prob.hyps@[c.h as int].b@, lo, hi, prob.d as int)
}

/// The hyperplane of `c` meets the box.
pub open spec fn meets_box(prob: Problem, c: Constraint, lo: Seq<Q>, hi: Seq<Q>) -> bool {
    con_range(prob, c, lo, hi).0.0 <= 0 && con_range(prob, c, lo, hi).1.0 >= 0
}

/// `c` has one sign over the whole box, and that sign violates it.
pub open spec fn violated_on_box(prob: Problem, c: Constraint, lo: Seq<Q>, hi: Seq<Q>) -> bool {
    !meets_box(prob, c, lo, hi) && sign_of(con_range(prob, c, lo, hi).0.0) * c.o > 0
}

/// Positions, among the first `n` constraints, of those meeting the box.
pub open spec fn meeting_positions(prob: Problem, cons: Seq<Constraint>, lo: Seq<Q>, hi: Seq<Q>, n: int) -> Seq<usize>
    decreases n,
{
    if n <= 0 {
        seq![]
    } else {
        let s = meeting_positions(prob, cons, lo, hi, n - 1);
        if meets_box(prob, cons[n - 1], lo, hi) {
            s.push((n - 1) as usize)
        } else {
            s
        }
    }
}

/// Polytope `j` takes part in the view around box `i`: the boxes meet and
/// no constraint of `j` is violated on all of box `i`.
pub open spec fn joins_view(prob: Problem, boxes: Seq<(Vec<Q>, Vec<Q>)>, i: int, j: int) -> bool {
    &&& !boxes_apart(boxes[i].0@, boxes[i].1@, boxes[j].0@, boxes[j].1@, prob.d as int)
    &&& forall|p: int|
        0 <= p < prob.polys@[j].cons@.len() ==> !violated_on_box(
            prob,
            #[trigger] prob.polys@[j].cons@[p],
            boxes[i].0@,
            boxes[i].1@,
        )
}

/// The order in which the view visits the polytopes: `i` first, then the
/// others by index.
pub open spec fn visit_order(i: int, t: int) -> int {
    if t == 0 {
        i
    } else if t <= i {
        t - 1
    } else {
        t
    }
}

/// The polytopes kept among the first `n` visits, in visiting order.
pub open spec fn view_ids(prob: Problem, boxes: Seq<(Vec<Q>, Vec<Q>)>, i: int, n: int) -> Seq<usize>
    decreases n,
{
    if n <= 0 {
        seq![]
    } else {
        let s = view_ids(prob, boxes, i, n - 1);
        if joins_view(prob, boxes, i, visit_order(i, n - 1)) {
            s.push(visit_order(i, n - 1) as usize)
        } else {
            s
        }
    }
}

/// A value standing for a pair with a positive denominator has that pair's
/// sign.
pub proof fn lemma_sign_stands(q: Q, x: (int, int))
    requires
        q.wf(),
        x.1 > 0,
        equiv(qv(q), x),
    ensures
        sign_of(q.num@) == sign_of(x.0),
{
    let (a, b) = (q.num@, q.den@);
    assert((a > 0 <==> x.0 > 0) && (a < 0 <==> x.0 < 0)) by (nonlinear_arith)
        requires
            a * x.1 == x.0 * b,
            b > 0,
            x.1 > 0,
    ;
}

/// The ends of the range keep positive denominators.
pub proof fn lemma_range_dens(n: Seq<int>, b: int, lo: Seq<Q>, hi: Seq<Q>, k: int)
    requires
        0 <= k <= lo.len(),
        k <= hi.len(),
        forall|c: int| 0 <= c < lo.len() ==> (#[trigger] lo[c]).wf(),
        forall|c: int| 0 <= c < hi.len() ==> (#[trigger] hi[c]).wf(),
    ensures
        box_range(n, b, lo, hi, k).0.1 > 0,
        box_range(n, b, lo, hi, k).1.1 > 0,
    decreases k,
{
    if k > 0 {
        lemma_range_dens(n, b, lo, hi, k - 1);
        assert(lo[k - 1].wf() && hi[k - 1].wf());
        let r = box_range(n, b, lo, hi, k - 1);
        let (p, q, u, v) = (r.0.1, r.1.1, lo[k - 1].den@, hi[k - 1].den@);
        assert(p * (1 * u) > 0 && p * (1 * v) > 0 && q * (1 * u) > 0 && q * (1 * v) > 0) by (nonlinear_arith)
            requires
                p > 0,
                q > 0,
                u > 0,
                v > 0,
        ;
    }
}

} // verus!
