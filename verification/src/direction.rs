//! The sweep direction as the user gives it and as the kernel uses it: an
//! integer vector that is a positive multiple of the user's rationals.
use crate::num::{dot_prefix, zvals, Q, Z};
use crate::sweep::{equiv, padd, pmul, qv};
use vstd::prelude::*;

verus! {

/// `a` is `scale` times the user's direction, entry by entry:
/// `a_i = scale · num_i / den_i`.
pub open spec fn scaled_direction(a: Seq<Z>, scale: Q, dir: Seq<Q>) -> bool {
    &&& a.len() == dir.len()
    &&& forall|i: int| 0 <= i < dir.len() ==> (#[trigger] a[i])@ * dir[i].den@ * scale.den@ == scale.num@ * dir[i].num@
}

/// `Σ_{i<n} dir_i · x_i` as a fraction over the product of the denominators.
pub open spec fn qdot_prefix(dir: Seq<Q>, x: Seq<int>, n: int) -> (int, int)
    decreases n,
{
    if n <= 0 {
        (0, 1)
    } else {
        padd(qdot_prefix(dir, x, n - 1), (dir[n - 1].num@ * x[n - 1], dir[n - 1].den@))
    }
}

/// The plan's integer sweep functional is its scale times the user's: for
/// every integer point `x`, `⟨a, x⟩ = scale · ⟨direction, x⟩`.  So the
/// half-space `⟨direction, x⟩ ≤ λ` is `⟨a, x⟩ ≤ scale · λ`, and a sweep
/// function computed along `a` reads on the user's scale at `scale · λ`.
pub proof fn lemma_plan_functional(a: Seq<Z>, scale: Q, direction: Seq<Q>, x: Seq<int>, n: int)
    requires
        scaled_direction(a, scale, direction),
        scale.den@ > 0,
        forall|i: int| 0 <= i < direction.len() ==> (#[trigger] direction[i]).den@ > 0,
        x.len() == direction.len(),
        0 <= n <= direction.len(),
    ensures
        qdot_prefix(direction, x, n).1 > 0,
        equiv((dot_prefix(zvals(a), x, n), 1), pmul(qv(scale), qdot_prefix(direction, x, n))),
    decreases n,
{
    if n > 0 {
        lemma_plan_functional(a, scale, direction, x, n - 1);
        let (pn, pd) = qdot_prefix(direction, x, n - 1);
        let dt = dot_prefix(zvals(a), x, n - 1);
        let k = n - 1;
        let (yn, yd) = (direction[k].num@, direction[k].den@);
        let ak = a[k]@;
        let xk = x[k];
        let (sn, sd) = (scale.num@, scale.den@);
        assert(zvals(a)[k] == ak);
        assert(ak * yd * sd == sn * yn);
        assert(pd * yd > 0) by (nonlinear_arith)
            requires
                pd > 0,
                yd > 0,
        ;
        let m = sd * (pd * yd);
        assert((dt + ak * xk) * m == dt * m + (ak * xk) * m) by (nonlinear_arith);
        assert(dt * m == (dt * (sd * pd)) * yd) by (nonlinear_arith)
            requires
                m == sd * (pd * yd),
        ;
        assert((ak * xk) * m == (ak * yd * sd) * (xk * pd)) by (nonlinear_arith)
            requires
                m == sd * (pd * yd),
        ;
        assert(dt * m == (sn * pn) * yd);
        assert((ak * xk) * m == (sn * yn) * (xk * pd));
        let u = pn * yd;
        let v = yn * xk * pd;
        assert(sn * (u + v) == sn * u + sn * v) by (nonlinear_arith);
        assert(sn * u == (sn * pn) * yd) by (nonlinear_arith)
            requires
                u == pn * yd,
        ;
        assert(sn * v == (sn * yn) * (xk * pd)) by (nonlinear_arith)
            requires
                v == yn * xk * pd,
        ;
        assert(padd((pn, pd), (yn * xk, yd)) == (pn * yd + yn * xk * pd, pd * yd));
        assert(qdot_prefix(direction, x, n) == (pn * yd + yn * xk * pd, pd * yd));
        assert(dot_prefix(zvals(a), x, n) == dt + ak * xk);
        assert((dt + ak * xk) * m == (sn * (pn * yd + yn * xk * pd)) * 1);
        assert(pmul(qv(scale), qdot_prefix(direction, x, n)) == (sn * (pn * yd + yn * xk * pd), sd * (pd * yd))) by (nonlinear_arith)
            requires
                qdot_prefix(direction, x, n) == (pn * yd + yn * xk * pd, pd * yd),
                qv(scale) == (sn, sd),
        ;
    } else {
        assert(equiv((0int, 1int), pmul(qv(scale), (0int, 1int)))) by (nonlinear_arith);
    }
}

} // verus!
