//! Vertex-to-vertex moves shared by the reverse search, the root ascent and
//! the preprocessing LPs.
//!
//! The objective is a linear functional `w` symbolically perturbed to
//! `(w·r, r_1, …, r_d)` compared lexicographically, so no edge is ever flat
//! and ties never occur; with `w = 0` this is the pure lexicographic order.
use crate::geom::{small_entry, small_vec, small_z, zero_indices, Constraint, Problem};
use crate::local::{indices_ok, is_line, lex_compare, lex_lt, lines_at};
use crate::num::{neg_z, add_zz, all_wf, dot, dot_int, dot_prefix, lex_sign, lex_sign_of, mul_zz, negate, sign_of, zvals, Point, Z};
use vstd::prelude::*;

verus! {

/// A convex region: intersection of oriented constraints, optionally within
/// one hyperplane (`eq`), all referring to `Problem::hyps`.
#[derive(Debug)]
pub struct Region {
    pub cons: Vec<Constraint>,
    pub eq: Option<usize>,
}

impl Clone for Region {
    fn clone(&self) -> (r: Region)
        ensures
            r.cons@ == self.cons@,
            r.eq == self.eq,
    {
        let mut cons: Vec<Constraint> = Vec::new();
        let mut k: usize = 0;
        while k < self.cons.len()
            invariant
                k <= self.cons@.len(),
                cons@ == self.cons@.take(k as int),
            decreases self.cons@.len() - k,
        {
            cons.push(self.cons[k]);
            k = k + 1;
            proof {
                assert(cons@ =~= self.cons@.take(k as int));
            }
        }
        proof {
            assert(cons@ =~= self.cons@);
        }
        Region { cons, eq: self.eq }
    }
}

/// The constraints among the first `n` of `cons` whose hyperplane value
/// vanishes, in order.
pub open spec fn tight_of(cons: Seq<Constraint>, ev: Seq<int>, n: int) -> Seq<Constraint>
    decreases n,
{
    if n <= 0 {
        Seq::empty()
    } else {
        let prev = tight_of(cons, ev, n - 1);
        if ev[cons[n - 1].h as int] == 0 {
            prev.push(cons[n - 1])
        } else {
            prev
        }
    }
}

impl Region {
    /// Refers to `nh` hyperplanes.
    pub open spec fn wf(&self, nh: nat) -> bool {
        &&& forall|k: int| 0 <= k < self.cons@.len() ==> (#[trigger] self.cons@[k]).wf(nh)
        &&& self.eq matches Some(e) ==> e < nh
    }

    /// The point (given by its hyperplane values) satisfies every constraint
    /// and lies on `eq`.
    pub open spec fn holds(&self, ev: Seq<int>) -> bool {
        &&& self.eq matches Some(e) ==> ev[e as int] == 0
        &&& forall|k: int| 0 <= k < self.cons@.len() ==> sign_of(ev[(#[trigger] self.cons@[k]).h as int]) * self.cons@[k].o <= 0
    }

    /// Tight constraints at `p` (which must lie in the region).
    pub fn tight(&self, prob: &Problem, p: &Point) -> (r: Vec<Constraint>)
        requires
            prob.wf(),
            self.wf(prob.hyps@.len()),
            p.wf(),
            p.num@.len() == prob.d,
        ensures
            r@ == tight_of(self.cons@, prob.values(*p), self.cons@.len() as int),
    {
        let mut out: Vec<Constraint> = Vec::new();
        let mut k: usize = 0;
        while k < self.cons.len()
            invariant
                prob.wf(),
                self.wf(prob.hyps@.len()),
                p.wf(),
                p.num@.len() == prob.d,
                k <= self.cons@.len(),
                out@ == tight_of(self.cons@, prob.values(*p), k as int),
            decreases self.cons@.len() - k,
        {
            let c = self.cons[k];
            proof {
                assert(c.wf(prob.hyps@.len()));
                assert(prob.hyps@[c.h as int].wf(prob.d as nat));
            }
            if prob.hyps[c.h].contains(p) {
                out.push(c);
            }
            k = k + 1;
        }
        out
    }

    /// Tight constraints from precomputed hyperplane evaluations.
    pub fn tight_evals(&self, evals: &[Z]) -> (r: Vec<Constraint>)
        requires
            self.wf(evals@.len()),
            all_wf(evals@),
        ensures
            r@ == tight_of(self.cons@, zvals(evals@), self.cons@.len() as int),
    {
        let mut out: Vec<Constraint> = Vec::new();
        let mut k: usize = 0;
        while k < self.cons.len()
            invariant
                self.wf(evals@.len()),
                all_wf(evals@),
                k <= self.cons@.len(),
                out@ == tight_of(self.cons@, zvals(evals@), k as int),
            decreases self.cons@.len() - k,
        {
            let c = self.cons[k];
            proof {
                assert(c.wf(evals@.len()));
            }
            if evals[c.h].is_zero() {
                out.push(c);
            }
            k = k + 1;
        }
        out
    }

    pub fn contains(&self, prob: &Problem, p: &Point) -> (r: bool)
        requires
            prob.wf(),
            self.wf(prob.hyps@.len()),
            p.wf(),
            p.num@.len() == prob.d,
        ensures
            r == self.holds(prob.values(*p)),
    {
        if let Some(e) = self.eq {
            proof {
                assert(prob.hyps@[e as int].wf(prob.d as nat));
            }
            if !prob.hyps[e].contains(p) {
                return false;
            }
        }
        let mut k: usize = 0;
        while k < self.cons.len()
            invariant
                prob.wf(),
                self.wf(prob.hyps@.len()),
                p.wf(),
                p.num@.len() == prob.d,
                k <= self.cons@.len(),
                self.eq matches Some(e) ==> prob.values(*p)[e as int] == 0,
                forall|j: int| 0 <= j < k ==> sign_of(prob.values(*p)[(#[trigger] self.cons@[j]).h as int]) * self.cons@[j].o <= 0,
            decreases self.cons@.len() - k,
        {
            let c = self.cons[k];
            proof {
                assert(c.wf(prob.hyps@.len()));
                assert(prob.hyps@[c.h as int].wf(prob.d as nat));
            }
            if prob.hyps[c.h].eval(p).signum() * c.o > 0 {
                return false;
            }
            k = k + 1;
        }
        true
    }
}

/// The lexicographic sign of the perturbed objective `(w·r, r_1, …, r_d)`.
pub open spec fn obj_sign(w: Option<Seq<int>>, r: Seq<int>) -> int {
    match w {
        Some(w) => if dot_int(w, r) != 0 {
            sign_of(dot_int(w, r))
        } else {
            lex_sign_of(r)
        },
        None => lex_sign_of(r),
    }
}

/// Values of an optional integer vector.
pub open spec fn opt_vals(w: Option<&[Z]>) -> Option<Seq<int>> {
    match w {
        Some(w) => Some(zvals(w@)),
        None => None,
    }
}

/// Lexicographic sign of the perturbed objective along `r`.
pub fn objective_sign(w: Option<&[Z]>, r: &[Z]) -> (s: i8)
    requires
        all_wf(r@),
        w matches Some(w) ==> w@.len() == r@.len() && all_wf(w@),
    ensures
        s as int == obj_sign(opt_vals(w), zvals(r@)),
{
    if let Some(w) = w {
        let s = dot(w, r).signum();
        if s != 0 {
            return s;
        }
    }
    lex_sign(r)
}

/// Moving along `r` respects every tight constraint.
pub open spec fn respects(prob: Problem, tight: Seq<Constraint>, r: Seq<int>) -> bool {
    forall|k: int| 0 <= k < tight.len() ==> sign_of(dot_int(zvals(prob.hyps@[(#[trigger] tight[k]).h as int].n@), r))
        * tight[k].o <= 0
}

/// Negation of an integer sequence.
pub open spec fn neg_seq(s: Seq<int>) -> Seq<int> {
    s.map_values(|x: int| -x)
}

/// Edge directions at `p` that stay inside the region: both signs of every
/// line of `H_p` (inside `eq` if present), filtered by the tangent cone.
pub fn feasible_dirs(prob: &Problem, region: &Region, hp: &[usize], tight: &[Constraint]) -> (r: Vec<Vec<Z>>)
    requires
        prob.wf(),
        prob.d >= 1,
        region.wf(prob.hyps@.len()),
        indices_ok(hp@, prob.hyps@.len()),
        forall|k: int| 0 <= k < tight@.len() ==> (#[trigger] tight@[k]).wf(prob.hyps@.len()),
    ensures
        forall|i: int| 0 <= i < r@.len() ==> {
            let dz = zvals((#[trigger] r@[i])@);
            &&& r@[i]@.len() == prob.d
            &&& all_wf(r@[i]@)
            &&& respects(*prob, tight@, dz)
            &&& (is_line(*prob, hp@, region.eq, (prob.d - 1 - (if region.eq is Some { 1int } else { 0 })) as nat, dz)
                || is_line(
                *prob,
                hp@,
                region.eq,
                (prob.d - 1 - (if region.eq is Some { 1int } else { 0 })) as nat,
                neg_seq(dz),
            ))
        },
        prob.d == 1 && region.eq is None ==> {
            let up = respects(*prob, tight@, seq![1int]);
            let down = respects(*prob, tight@, seq![-1int]);
            &&& r@.len() == (if up { 1int } else { 0 }) + (if down { 1int } else { 0 })
            &&& up ==> zvals(r@[0]@) == seq![1int]
            &&& down ==> zvals(r@[r@.len() - 1]@) == seq![-1int]
        },
{
    let lines = lines_at(prob, hp, region.eq);
    let ghost m = (prob.d - 1 - (if region.eq is Some { 1int } else { 0 })) as nat;
    let mut out: Vec<Vec<Z>> = Vec::new();
    let mut i: usize = 0;
    while i < lines.len()
        invariant
            prob.wf(),
            forall|k: int| 0 <= k < tight@.len() ==> (#[trigger] tight@[k]).wf(prob.hyps@.len()),
            m == (prob.d - 1 - (if region.eq is Some { 1int } else { 0 })) as nat,
            forall|k: int| 0 <= k < lines@.len() ==> (#[trigger] lines@[k])@.len() == prob.d && all_wf(lines@[k]@) && is_line(
                *prob,
                hp@,
                region.eq,
                m,
                zvals(lines@[k]@),
            ),
            i <= lines@.len(),
            forall|k: int| 0 <= k < out@.len() ==> {
                let dz = zvals((#[trigger] out@[k])@);
                &&& out@[k]@.len() == prob.d
                &&& all_wf(out@[k]@)
                &&& respects(*prob, tight@, dz)
                &&& (is_line(*prob, hp@, region.eq, m, dz) || is_line(*prob, hp@, region.eq, m, neg_seq(dz)))
            },
            prob.d == 1 && region.eq is None ==> lines@.len() == 1 && zvals(lines@[0]@) == seq![1int],
            prob.d == 1 && region.eq is None && i == 0 ==> out@.len() == 0,
            prob.d == 1 && region.eq is None && i == 1 ==> {
                let up = respects(*prob, tight@, seq![1int]);
                let down = respects(*prob, tight@, seq![-1int]);
                &&& out@.len() == (if up { 1int } else { 0 }) + (if down { 1int } else { 0 })
                &&& up ==> zvals(out@[0]@) == seq![1int]
                &&& down ==> zvals(out@[out@.len() - 1]@) == seq![-1int]
            },
        decreases lines@.len() - i,
    {
        let l = &lines[i];
        let neg = negate(l.as_slice());
        proof {
            assert(neg_seq(zvals(neg@)) =~= zvals(l@));
            if prob.d == 1 && region.eq is None {
                assert(zvals(neg@)[0] == -zvals(l@)[0]);
                assert(zvals(neg@) =~= seq![-1int]);
            }
        }
        let mut ok_l = true;
        let mut ok_n = true;
        let mut k: usize = 0;
        while k < tight.len()
            invariant
                prob.wf(),
                forall|k2: int| 0 <= k2 < tight@.len() ==> (#[trigger] tight@[k2]).wf(prob.hyps@.len()),
                l@.len() == prob.d,
                all_wf(l@),
                neg@.len() == prob.d,
                all_wf(neg@),
                k <= tight@.len(),
                ok_l == forall|j: int| 0 <= j < k ==> sign_of(dot_int(zvals(prob.hyps@[(#[trigger] tight@[j]).h as int].n@), zvals(l@)))
                    * tight@[j].o <= 0,
                ok_n == forall|j: int| 0 <= j < k ==> sign_of(dot_int(zvals(prob.hyps@[(#[trigger] tight@[j]).h as int].n@), zvals(neg@)))
                    * tight@[j].o <= 0,
            decreases tight@.len() - k,
        {
            let c = tight[k];
            proof {
                assert(c.wf(prob.hyps@.len()));
                assert(prob.hyps@[c.h as int].wf(prob.d as nat));
            }
            if ok_l && prob.dir_side(c, l.as_slice()) > 0 {
                ok_l = false;
            }
            if ok_n && prob.dir_side(c, neg.as_slice()) > 0 {
                ok_n = false;
            }
            k = k + 1;
        }
        proof {
            assert(ok_l == respects(*prob, tight@, zvals(l@)));
            assert(ok_n == respects(*prob, tight@, zvals(neg@)));
        }
        let ghost out0 = out@;
        if ok_l {
            out.push(l.clone());
            proof {
                let last = out@[out@.len() - 1];
                assert(zvals(last@) == zvals(l@));
            }
        }
        let ghost out1 = out@;
        if ok_n {
            out.push(neg);
        }
        proof {
            if prob.d == 1 && region.eq is None && ok_l {
                assert(out@[out0.len() as int] == out1[out0.len() as int]);
            }
        }
        i = i + 1;
    }
    out
}

/// Among the directions with positive perturbed objective, `b` comes first
/// in lexicographic order.
pub open spec fn is_best(dirs: Seq<Vec<Z>>, w: Option<Seq<int>>, b: Seq<int>) -> bool {
    &&& obj_sign(w, b) > 0
    &&& exists|i: int| 0 <= i < dirs.len() && zvals((#[trigger] dirs[i])@) == b
    &&& forall|i: int| 0 <= i < dirs.len() && obj_sign(w, zvals((#[trigger] dirs[i])@)) > 0 ==> !lex_lt(zvals(dirs[i]@), b)
}

/// The canonical improving direction: lexicographically smallest among the
/// feasible directions with positive perturbed objective.  This is the
/// reverse-search parent rule.
pub fn best_improving<'a>(dirs: &'a [Vec<Z>], w: Option<&[Z]>) -> (r: Option<&'a Vec<Z>>)
    requires
        forall|i: int| 0 <= i < dirs@.len() ==> all_wf((#[trigger] dirs@[i])@),
        w matches Some(w) ==> all_wf(w@) && forall|i: int| 0 <= i < dirs@.len() ==> (#[trigger] dirs@[i])@.len()
            == w@.len(),
    ensures
        r is None <==> forall|i: int| 0 <= i < dirs@.len() ==> obj_sign(opt_vals(w), zvals((#[trigger] dirs@[i])@)) <= 0,
        r matches Some(b) ==> is_best(dirs@, opt_vals(w), zvals(b@)) && exists|i: int|
            0 <= i < dirs@.len() && #[trigger] dirs@[i] == *b,
{
    let mut best: Option<&'a Vec<Z>> = None;
    let mut i: usize = 0;
    while i < dirs.len()
        invariant
            i <= dirs@.len(),
            forall|k: int| 0 <= k < dirs@.len() ==> all_wf((#[trigger] dirs@[k])@),
            w matches Some(w) ==> all_wf(w@) && forall|k: int| 0 <= k < dirs@.len() ==> (#[trigger] dirs@[k])@.len()
                == w@.len(),
            best is None <==> forall|k: int| 0 <= k < i ==> obj_sign(opt_vals(w), zvals((#[trigger] dirs@[k])@)) <= 0,
            best matches Some(b) ==> {
                &&& obj_sign(opt_vals(w), zvals(b@)) > 0
                &&& all_wf(b@)
                &&& exists|k: int| 0 <= k < i && #[trigger] dirs@[k] == *b
                &&& forall|k: int|
                    0 <= k < i && obj_sign(opt_vals(w), zvals((#[trigger] dirs@[k])@)) > 0 ==> !lex_lt(
                        zvals(dirs@[k]@),
                        zvals(b@),
                    )
            },
        decreases dirs@.len() - i,
    {
        let r = &dirs[i];
        if objective_sign(w, r.as_slice()) > 0 {
            match best {
                None => {
                    best = Some(r);
                    proof {
                        lemma_lex_irreflexive(zvals(r@));
                    }
                },
                Some(b) => {
                    if lex_compare(r.as_slice(), b.as_slice()) < 0 {
                        proof {
                            let ghost bz = zvals(b@);
                            assert forall|k: int|
                                0 <= k < i + 1 && obj_sign(opt_vals(w), zvals((#[trigger] dirs@[k])@)) > 0 implies !lex_lt(
                                zvals(dirs@[k]@),
                                zvals(r@),
                            ) by {
                                if k < i {
                                    assert(!lex_lt(zvals(dirs@[k]@), bz));
                                    lemma_lex_asym_trans(zvals(dirs@[k]@), bz, zvals(r@));
                                } else {
                                    lemma_lex_irreflexive(zvals(r@));
                                }
                            }
                        }
                        best = Some(r);
                    } else {
                        proof {
                            assert(!lex_lt(zvals(r@), zvals(b@)));
                        }
                    }
                },
            }
        }
        i = i + 1;
    }
    proof {
        if let Some(b) = best {
            let k = choose|k: int| 0 <= k < dirs@.len() && #[trigger] dirs@[k] == *b;
            assert(zvals(dirs@[k]@) == zvals(b@));
        }
    }
    best
}

/// `lex_lt` is irreflexive.
pub proof fn lemma_lex_irreflexive(a: Seq<int>)
    ensures
        !lex_lt(a, a),
    decreases a.len(),
{
    if a.len() > 0 {
        lemma_lex_irreflexive(a.drop_first());
    }
}

/// If `a` is not before `b` and `c` is before `b`, then `a` is not before `c`.
proof fn lemma_lex_asym_trans(a: Seq<int>, b: Seq<int>, c: Seq<int>)
    requires
        !lex_lt(a, b),
        lex_lt(c, b),
    ensures
        !lex_lt(a, c),
    decreases a.len(),
{
    if a.len() > 0 && c.len() > 0 && b.len() > 0 {
        if a[0] == c[0] && c[0] == b[0] {
            lemma_lex_asym_trans(a.drop_first(), b.drop_first(), c.drop_first());
        }
    }
}

/// `n_h · r`.
pub open spec fn dir_dot(prob: Problem, h: int, r: Seq<int>) -> int {
    dot_int(zvals(prob.hyps@[h].n@), r)
}

/// Hyperplane `h` is met going from the point (hyperplane values `ev`)
/// along `r` at a positive step.
pub open spec fn crossing(prob: Problem, ev: Seq<int>, r: Seq<int>, h: int) -> bool {
    &&& ev[h] != 0
    &&& dir_dot(prob, h, r) != 0
    &&& sign_of(ev[h]) != sign_of(dir_dot(prob, h, r))
}

/// The step to hyperplane `h` as a fraction `a/s` (times `1/den`) with `s > 0`.
pub open spec fn step_of(e: int, s: int) -> (int, int) {
    if s < 0 {
        (e, -s)
    } else {
        (-e, s)
    }
}

/// `u` is the first point met along `r`: `h` is a crossing with the least
/// step among all crossings, and `u = (num·s + a·r) / (den·s)`.
pub open spec fn first_hit(prob: Problem, ev: Seq<int>, p: Point, r: Seq<int>, u: Point, h: int) -> bool {
    let (a, s) = step_of(ev[h], dir_dot(prob, h, r));
    &&& 0 <= h < prob.hyps@.len()
    &&& crossing(prob, ev, r, h)
    &&& forall|g: int|
        0 <= g < prob.hyps@.len() && #[trigger] crossing(prob, ev, r, g) ==> a * step_of(ev[g], dir_dot(prob, g, r)).1
            <= step_of(ev[g], dir_dot(prob, g, r)).0 * s
    &&& u.num@.len() == p.num@.len()
    &&& forall|i: int| 0 <= i < u.num@.len() ==> u.coord_is(i, p.num@[i]@ * s + a * r[i], p.den@ * s)
}

/// What the ratio test may assume of its inputs.
pub open spec fn ratio_inputs(prob: Problem, evals: Seq<Z>, p: Point, r: Seq<Z>) -> bool {
    &&& prob.wf()
    &&& evals.len() == prob.hyps@.len()
    &&& all_wf(evals)
    &&& p.wf()
    &&& p.num@.len() == prob.d
    &&& r.len() == prob.d
    &&& all_wf(r)
}

/// The point `(num·s + a·r) / (den·s)`.
fn step_point(p: &Point, r: &[Z], a: &Z, s: &Z) -> (u: Point)
    requires
        p.wf(),
        r@.len() == p.num@.len(),
        all_wf(r@),
        a.wf(),
        s.wf(),
        s@ > 0,
    ensures
        u.wf(),
        u.num@.len() == p.num@.len(),
        forall|i: int| 0 <= i < u.num@.len() ==> u.coord_is(i, p.num@[i]@ * s@ + a@ * r@[i]@, p.den@ * s@),
{
    let mut num: Vec<Z> = Vec::new();
    let mut i: usize = 0;
    while i < p.num.len()
        invariant
            p.wf(),
            r@.len() == p.num@.len(),
            all_wf(r@),
            a.wf(),
            s.wf(),
            i <= p.num@.len(),
            num@.len() == i,
            all_wf(num@),
            forall|k: int| 0 <= k < i ==> (#[trigger] num@[k])@ == p.num@[k]@ * s@ + a@ * r@[k]@,
        decreases p.num@.len() - i,
    {
        num.push(add_zz(&mul_zz(&p.num[i], s), &mul_zz(a, &r[i])));
        i = i + 1;
    }
    let den = mul_zz(&p.den, s);
    proof {
        crate::arith::lemma_mul_nonzero(p.den@, s@);
    }
    let ghost nv = num@;
    let u = Point::new(num, den);
    proof {
        assert forall|i: int| 0 <= i < u.num@.len() implies u.coord_is(i, p.num@[i]@ * s@ + a@ * r@[i]@, p.den@ * s@) by {
            assert(u.coord_is(i, nv[i]@, den@));
        }
    }
    u
}

/// Ratio test: first hyperplane hit from `p` along `r` (over all
/// hyperplanes of the arrangement not through `p`).  `evals` are the
/// hyperplane evaluations at `p`.  `None` if unbounded.
pub fn ratio_step(prob: &Problem, evals: &[Z], p: &Point, r: &[Z]) -> (u: Option<Point>)
    requires
        ratio_inputs(*prob, evals@, *p, r@),
    ensures
        u is None <==> forall|h: int| 0 <= h < prob.hyps@.len() ==> !#[trigger] crossing(*prob, zvals(evals@), zvals(r@), h),
        u matches Some(u) ==> u.wf() && exists|h: int| first_hit(*prob, zvals(evals@), *p, zvals(r@), u, h),
{
    let d = prob.d;
    let f = match &prob.fast {
        Some(f) => f,
        None => {
            return ratio_step_slow(prob, evals, p, r);
        },
    };
    let r64 = match small_vec(r) {
        Some(v) => v,
        None => {
            return ratio_step_slow(prob, evals, p, r);
        },
    };
    if d > 0xFFFF_FFFF {
        return ratio_step_slow(prob, evals, p, r);
    }
    let ghost ev = zvals(evals@);
    let ghost rz = zvals(r@);
    // all-i128 scan; the candidate comparison falls back to Z on overflow
    let mut bi: Option<(i128, i128, usize)> = None;
    let mut h: usize = 0;
    while h < prob.hyps.len()
        invariant
            ratio_inputs(*prob, evals@, *p, r@),
            prob.fast == Some(*f),
            d == prob.d,
            d <= 0xFFFF_FFFF,
            ev == zvals(evals@),
            rz == zvals(r@),
            r64@.len() == d,
            forall|i: int| 0 <= i < d ==> (#[trigger] r64@[i]) as int == r@[i]@ && crate::geom::small_coord(r64@[i] as int),
            h <= prob.hyps@.len(),
            bi is None <==> forall|g: int| 0 <= g < h ==> !#[trigger] crossing(*prob, ev, rz, g),
            bi matches Some((ba, bs, bh)) ==> {
                &&& bh < h
                &&& crossing(*prob, ev, rz, bh as int)
                &&& (ba as int, bs as int) == step_of(ev[bh as int], dir_dot(*prob, bh as int, rz))
                &&& forall|g: int|
                    0 <= g < h && #[trigger] crossing(*prob, ev, rz, g) ==> ba * step_of(ev[g], dir_dot(*prob, g, rz)).1
                        <= step_of(ev[g], dir_dot(*prob, g, rz)).0 * bs
            },
        decreases prob.hyps@.len() - h,
    {
        let e = match &evals[h] {
            Z::S(x) => *x,
            Z::B(_) => {
                return ratio_step_slow(prob, evals, p, r);
            },
        };
        if e == 0 {
            h = h + 1;
            continue;
        }
        if e == i128::MIN {
            return ratio_step_slow(prob, evals, p, r);
        }
        proof {
            assert(prob.hyps@[h as int].wf(d as nat));
        }
        let ghost row = zvals(prob.hyps@[h as int].n@);
        let mut s: i128 = 0;
        let mut k: usize = 0;
        while k < d
            invariant
                ratio_inputs(*prob, evals@, *p, r@),
                prob.fast == Some(*f),
                d == prob.d,
                d <= 0xFFFF_FFFF,
                h < prob.hyps@.len(),
                row == zvals(prob.hyps@[h as int].n@),
                rz == zvals(r@),
                r64@.len() == d,
                forall|i: int| 0 <= i < d ==> (#[trigger] r64@[i]) as int == r@[i]@ && crate::geom::small_coord(r64@[i] as int),
                k <= d,
                s as int == dot_prefix(row, rz, k as int),
                -(k as int) * 0x2000_0000_0000_0000_0000_0000 <= s as int <= (k as int) * 0x2000_0000_0000_0000_0000_0000,
            decreases d - k,
        {
            proof {
                crate::linalg::lemma_cell(h as int, k as int, d as int, prob.hyps@.len() as int);
                crate::geom::lemma_flat_index(h as int, k as int, d as int);
                assert(small_entry(f.n@[h * d + k] as int));
            }
            let a = f.n[h * d + k] as i128;
            let x = r64[k] as i128;
            proof {
                assert(a as int == row[k as int]);
                assert(-0x2000_0000_0000_0000_0000_0000 <= a * x <= 0x2000_0000_0000_0000_0000_0000) by (nonlinear_arith)
                    requires
                        -0x8000_0000 < a < 0x8000_0000,
                        -0x4000_0000_0000_0000 < x < 0x4000_0000_0000_0000,
                ;
            }
            s = s + a * x;
            k = k + 1;
        }
        proof {
            assert(s as int == dir_dot(*prob, h as int, rz));
            assert(ev[h as int] == e as int);
        }
        if s == 0 || (e > 0) == (s > 0) {
            proof {
                assert(!crossing(*prob, ev, rz, h as int));
            }
            h = h + 1;
            continue;
        }
        let (a, s) = if s < 0 {
            (e, -s)
        } else {
            (-e, s)
        };
        proof {
            assert(crossing(*prob, ev, rz, h as int));
            assert((a as int, s as int) == step_of(ev[h as int], dir_dot(*prob, h as int, rz)));
        }
        match bi {
            None => {
                bi = Some((a, s, h));
            },
            Some((ba, bs, bh)) => {
                let better = match (a.checked_mul(bs), ba.checked_mul(s)) {
                    (Some(l), Some(rr)) => l < rr,
                    _ => mul_zz(&Z::S(a), &Z::S(bs)).compare(&mul_zz(&Z::S(ba), &Z::S(s))) < 0,
                };
                if better {
                    proof {
                        // the new step is strictly smaller; the old minimum transfers
                        assert forall|g: int|
                            0 <= g < h + 1 && #[trigger] crossing(*prob, ev, rz, g) implies a * step_of(
                            ev[g],
                            dir_dot(*prob, g, rz),
                        ).1 <= step_of(ev[g], dir_dot(*prob, g, rz)).0 * s by {
                            if g < h {
                                let (ga, gs) = step_of(ev[g], dir_dot(*prob, g, rz));
                                assert(ba * gs <= ga * bs);
                                assert(gs > 0 && bs > 0 && s > 0);
                                assert(a * gs <= ga * s) by (nonlinear_arith)
                                    requires
                                        ba * gs <= ga * bs,
                                        a * bs < ba * s,
                                        gs > 0,
                                        bs > 0,
                                        s > 0,
                                ;
                            } else {
                                assert(g == h);
                            }
                        }
                    }
                    bi = Some((a, s, h));
                } else {
                    proof {
                        assert(ba * s <= a * bs);
                    }
                }
            },
        }
        h = h + 1;
    }
    match bi {
        None => None,
        Some((a, s, bh)) => {
            let u = step_point(p, r, &Z::S(a), &Z::S(s));
            proof {
                assert(first_hit(*prob, ev, *p, rz, u, bh as int));
            }
            Some(u)
        },
    }
}

/// The ratio test through the exact operations.
fn ratio_step_slow(prob: &Problem, evals: &[Z], p: &Point, r: &[Z]) -> (u: Option<Point>)
    requires
        ratio_inputs(*prob, evals@, *p, r@),
    ensures
        u is None <==> forall|h: int| 0 <= h < prob.hyps@.len() ==> !#[trigger] crossing(*prob, zvals(evals@), zvals(r@), h),
        u matches Some(u) ==> u.wf() && exists|h: int| first_hit(*prob, zvals(evals@), *p, zvals(r@), u, h),
{
    let ghost ev = zvals(evals@);
    let ghost rz = zvals(r@);
    let mut best: Option<(Z, Z, usize)> = None;
    let mut h: usize = 0;
    while h < prob.hyps.len()
        invariant
            ratio_inputs(*prob, evals@, *p, r@),
            ev == zvals(evals@),
            rz == zvals(r@),
            h <= prob.hyps@.len(),
            best is None <==> forall|g: int| 0 <= g < h ==> !#[trigger] crossing(*prob, ev, rz, g),
            best matches Some((ba, bs, bh)) ==> {
                &&& ba.wf() && bs.wf()
                &&& bh < h
                &&& crossing(*prob, ev, rz, bh as int)
                &&& (ba@, bs@) == step_of(ev[bh as int], dir_dot(*prob, bh as int, rz))
                &&& forall|g: int|
                    0 <= g < h && #[trigger] crossing(*prob, ev, rz, g) ==> ba@ * step_of(ev[g], dir_dot(*prob, g, rz)).1
                        <= step_of(ev[g], dir_dot(*prob, g, rz)).0 * bs@
            },
        decreases prob.hyps@.len() - h,
    {
        let e = &evals[h];
        if e.is_zero() {
            h = h + 1;
            continue;
        }
        proof {
            assert(prob.hyps@[h as int].wf(prob.d as nat));
        }
        let s = dot(prob.hyps[h].n.as_slice(), r);
        if s.is_zero() {
            h = h + 1;
            continue;
        }
        if e.signum() == s.signum() {
            // t ≤ 0
            h = h + 1;
            continue;
        }
        let a = neg_z(e);
        let (a, s) = if s.is_negative() {
            (neg_z(&a), neg_z(&s))
        } else {
            (a, s)
        };
        proof {
            assert(crossing(*prob, ev, rz, h as int));
            assert((a@, s@) == step_of(ev[h as int], dir_dot(*prob, h as int, rz)));
        }
        let better = match &best {
            None => true,
            Some((ba, bs, _)) => mul_zz(&a, bs).compare(&mul_zz(ba, &s)) < 0,
        };
        if better {
            proof {
                if let Some((ba, bs, bh)) = best {
                    assert forall|g: int|
                        0 <= g < h + 1 && #[trigger] crossing(*prob, ev, rz, g) implies a@ * step_of(
                        ev[g],
                        dir_dot(*prob, g, rz),
                    ).1 <= step_of(ev[g], dir_dot(*prob, g, rz)).0 * s@ by {
                        if g < h {
                            let (ga, gs) = step_of(ev[g], dir_dot(*prob, g, rz));
                            assert(ba@ * gs <= ga * bs@);
                            assert(a@ * gs <= ga * s@) by (nonlinear_arith)
                                requires
                                    ba@ * gs <= ga * bs@,
                                    a@ * bs@ < ba@ * s@,
                                    gs > 0,
                                    bs@ > 0,
                                    s@ > 0,
                            ;
                        }
                    }
                } else {
                    assert forall|g: int|
                        0 <= g < h + 1 && #[trigger] crossing(*prob, ev, rz, g) implies a@ * step_of(
                        ev[g],
                        dir_dot(*prob, g, rz),
                    ).1 <= step_of(ev[g], dir_dot(*prob, g, rz)).0 * s@ by {
                        assert(g == h);
                    }
                }
            }
            best = Some((a, s, h));
        }
        h = h + 1;
    }
    match best {
        None => None,
        Some((a, s, bh)) => {
            let u = step_point(p, r, &a, &s);
            proof {
                assert(first_hit(*prob, ev, *p, rz, u, bh as int));
            }
            Some(u)
        },
    }
}

#[derive(Debug, Clone, PartialEq, Eq)]
pub enum WalkError {
    Unbounded,
    /// More than `u64::MAX` steps (never reached in practice).
    StepLimit,
}

/// At the point with hyperplane values `ev`, no edge direction that the
/// constraints `cons` (inside the hyperplane `eq`, if any) allow improves
/// the perturbed objective `w`.
pub open spec fn no_improving_edge(
    prob: Problem,
    cons: Seq<Constraint>,
    eq: Option<usize>,
    ev: Seq<int>,
    w: Option<Seq<int>>,
) -> bool {
    forall|hv: Seq<usize>, l: Seq<int>|
        #![trigger zero_indices(hv, ev), obj_sign(w, l)]
        zero_indices(hv, ev) && respects(prob, tight_of(cons, ev, cons.len() as int), l) && (is_line(
            prob,
            hv,
            eq,
            (prob.d - 1 - (if eq is Some { 1int } else { 0 })) as nat,
            l,
        ) || is_line(prob, hv, eq, (prob.d - 1 - (if eq is Some { 1int } else { 0 })) as nat, neg_seq(l)))
            ==> obj_sign(w, l) <= 0
}

/// What the simplex walk may assume of its inputs.
pub open spec fn walk_inputs(prob: Problem, region: Region, start: Point, w: Option<&[Z]>) -> bool {
    &&& prob.wf()
    &&& prob.d >= 1
    &&& region.wf(prob.hyps@.len())
    &&& start.wf()
    &&& start.num@.len() == prob.d
    &&& w matches Some(w) ==> w@.len() == prob.d && all_wf(w@)
}

/// Simplex-style ascent over arrangement vertices inside `region`,
/// maximising the perturbed objective.  Terminates at the unique
/// lex-maximal vertex.
pub fn walk(prob: &Problem, region: &Region, start: &Point, w: Option<&[Z]>) -> (r: Result<Point, WalkError>)
    requires
        walk_inputs(*prob, *region, *start, w),
    ensures
        r matches Ok(u) ==> u.wf() && u.num@.len() == prob.d,
        region.holds(prob.values(*start)) ==> (r matches Ok(u) ==> region.holds(prob.values(u))),
        no_improving_edge(*prob, region.cons@, region.eq, prob.values(*start), opt_vals(w)) ==> (r matches Ok(u)
            && zvals(u.num@) == zvals(start.num@) && u.den@ == start.den@),
{
    let mut v = start.clone();
    proof {
        assert(prob.values(v) =~= prob.values(*start)) by {
            assert forall|h: int| 0 <= h < prob.hyps@.len() implies prob.value(h, v) == prob.value(h, *start) by {
                assert(zvals(v.num@) == zvals(start.num@));
            }
        }
    }
    let mut steps: u64 = 0;
    loop
        invariant
            walk_inputs(*prob, *region, *start, w),
            v.wf(),
            v.num@.len() == prob.d,
            region.holds(prob.values(*start)) ==> region.holds(prob.values(v)),
            steps == 0 ==> zvals(v.num@) == zvals(start.num@) && v.den@ == start.den@,
            steps == 0 ==> prob.values(v) == prob.values(*start),
            no_improving_edge(*prob, region.cons@, region.eq, prob.values(*start), opt_vals(w)) ==> steps == 0,
        decreases u64::MAX - steps,
    {
        let evals = prob.evals(&v);
        let hv = Problem::hv_from_evals(evals.as_slice());
        let tight = region.tight_evals(evals.as_slice());
        proof {
            assert forall|t: int| 0 <= t < hv@.len() implies (#[trigger] hv@[t]) < prob.hyps@.len() by {}
            lemma_tight_of_wf(region.cons@, zvals(evals@), region.cons@.len() as int, prob.hyps@.len());
            assert(zvals(evals@) =~= prob.values(v));
        }
        let dirs = feasible_dirs(prob, region, hv.as_slice(), tight.as_slice());
        let best = best_improving(dirs.as_slice(), w);
        proof {
            if best is Some && steps == 0 && no_improving_edge(*prob, region.cons@, region.eq, prob.values(*start), opt_vals(w)) {
                let i = choose|i: int| 0 <= i < dirs@.len() && obj_sign(opt_vals(w), zvals((#[trigger] dirs@[i])@)) > 0;
                assert(zero_indices(hv@, prob.values(*start)));
                assert(respects(*prob, tight@, zvals(dirs@[i]@)));
                assert(obj_sign(opt_vals(w), zvals(dirs@[i]@)) <= 0);
            }
        }
        match best {
            None => {
                return Ok(v);
            },
            Some(r) => match ratio_step(prob, evals.as_slice(), &v, r.as_slice()) {
                None => {
                    return Err(WalkError::Unbounded);
                },
                Some(u) => {
                    proof {
                        let ev = zvals(evals@);
                        assert(ev =~= prob.values(v));
                        let rz = zvals(r@);
                        let h = choose|h: int| first_hit(*prob, ev, v, rz, u, h);
                        let i = choose|i: int| 0 <= i < dirs@.len() && #[trigger] dirs@[i] == *r;
                        let m = (prob.d - 1 - (if region.eq is Some { 1int } else { 0 })) as nat;
                        assert(respects(*prob, tight@, zvals(dirs@[i]@)));
                        if let Some(f) = region.eq {
                            if is_line(*prob, hv@, region.eq, m, rz) {
                                assert(dir_dot(*prob, f as int, rz) == 0);
                            } else {
                                assert(is_line(*prob, hv@, region.eq, m, neg_seq(rz)));
                                let nz = zvals(prob.hyps@[f as int].n@);
                                assert(dot_int(nz, neg_seq(rz)) == 0);
                                crate::num::lemma_dot_scale(nz, rz, neg_seq(rz), -1, prob.d as int);
                            }
                        }
                        if region.holds(prob.values(*start)) {
                            lemma_step_in_region(*prob, *region, ev, v, rz, u, h, tight@);
                        }
                    }
                    v = u;
                },
            },
        }
        if steps == u64::MAX {
            return Err(WalkError::StepLimit);
        }
        steps = steps + 1;
    }
}

/// The tight constraints are constraints of the region.
pub proof fn lemma_tight_of_wf(cons: Seq<Constraint>, ev: Seq<int>, n: int, nh: nat)
    requires
        0 <= n <= cons.len(),
        forall|k: int| 0 <= k < cons.len() ==> (#[trigger] cons[k]).wf(nh),
    ensures
        forall|k: int| 0 <= k < tight_of(cons, ev, n).len() ==> (#[trigger] tight_of(cons, ev, n)[k]).wf(nh),
        forall|k: int| 0 <= k < tight_of(cons, ev, n).len() ==> cons.contains(#[trigger] tight_of(cons, ev, n)[k]),
        forall|k: int| 0 <= k < tight_of(cons, ev, n).len() ==> ev[(#[trigger] tight_of(cons, ev, n)[k]).h as int] == 0,
    decreases n,
{
    if n > 0 {
        lemma_tight_of_wf(cons, ev, n - 1, nh);
        assert(cons.contains(cons[n - 1]));
        let prev = tight_of(cons, ev, n - 1);
        let cur = tight_of(cons, ev, n);
        assert forall|k: int| 0 <= k < cur.len() implies (#[trigger] cur[k]).wf(nh) && cons.contains(cur[k]) && ev[cur[k].h as int]
            == 0 by {
            if k < prev.len() {
                assert(cur[k] == prev[k]);
            } else {
                assert(cur[k] == cons[n - 1]);
            }
        }
    }
}

/// Every constraint whose hyperplane value vanishes is listed by `tight_of`.
proof fn lemma_tight_of_complete(cons: Seq<Constraint>, ev: Seq<int>, n: int, k: int)
    requires
        0 <= k < n <= cons.len(),
        ev[cons[k].h as int] == 0,
    ensures
        tight_of(cons, ev, n).contains(cons[k]),
    decreases n,
{
    let prev = tight_of(cons, ev, n - 1);
    if k < n - 1 {
        lemma_tight_of_complete(cons, ev, n - 1, k);
        let t = choose|t: int| 0 <= t < prev.len() && prev[t] == cons[k];
        if ev[cons[n - 1].h as int] == 0 {
            assert(tight_of(cons, ev, n)[t] == cons[k]);
        }
    } else {
        assert(tight_of(cons, ev, n)[prev.len() as int] == cons[k]);
    }
}

/// The algebra of a step's value: `dd·vu = ud·(s·vp + a·sig)`.
proof fn lemma_step_algebra(
    dd: int,
    vu: int,
    vp: int,
    xu: int,
    xp: int,
    xn: int,
    b: int,
    ud: int,
    pd: int,
    s: int,
    a: int,
    sig: int,
)
    requires
        vu == xu - b * ud,
        vp == xp - b * pd,
        dd * xu == ud * xn,
        xn == s * xp + a * sig,
        dd == pd * s,
    ensures
        dd * vu == ud * (s * vp + a * sig),
{
    assert(dd * vu == dd * xu - dd * b * ud) by (nonlinear_arith)
        requires
            vu == xu - b * ud,
    ;
    assert(dd * b * ud == ud * (s * b * pd)) by (nonlinear_arith)
        requires
            dd == pd * s,
    ;
    assert(ud * xn - ud * (s * b * pd) == ud * (s * vp + a * sig)) by (nonlinear_arith)
        requires
            xn == s * xp + a * sig,
            vp == xp - b * pd,
    ;
}

/// Hyperplane values after a step: with `u = (num·s + a·r)/(den·s)`,
/// `n_h·u − b_h` has the sign of `s·(n_h·p − b_h) + a·(n_h·r)`.
proof fn lemma_step_value(prob: Problem, h: int, p: Point, r: Seq<int>, a: int, s: int, u: Point)
    requires
        prob.wf(),
        0 <= h < prob.hyps@.len(),
        p.wf(),
        u.wf(),
        p.num@.len() == prob.d,
        u.num@.len() == prob.d,
        r.len() == prob.d,
        s > 0,
        forall|i: int| 0 <= i < u.num@.len() ==> u.coord_is(i, p.num@[i]@ * s + a * r[i], p.den@ * s),
    ensures
        sign_of(prob.value(h, u)) == sign_of(s * prob.value(h, p) + a * dir_dot(prob, h, r)),
{
    let hy = prob.hyps@[h];
    assert(hy.wf(prob.d as nat));
    let d = prob.d as int;
    let nz = zvals(hy.n@);
    let pn = zvals(p.num@);
    let un = zvals(u.num@);
    let dd = p.den@ * s;
    let nn = Seq::new(prob.d as nat, |i: int| pn[i] * s + a * r[i]);
    let y = Seq::new(prob.d as nat, |i: int| dd * un[i]);
    assert(dd > 0) by (nonlinear_arith)
        requires
            dd == p.den@ * s,
            p.den@ > 0,
            s > 0,
    ;
    // D·(n·u_num) = u_den·(n·N)
    assert forall|i: int| 0 <= i < d implies #[trigger] y[i] == u.den@ * nn[i] by {
        assert(u.coord_is(i, p.num@[i]@ * s + a * r[i], dd));
        assert(dd * un[i] == u.den@ * nn[i]) by (nonlinear_arith)
            requires
                un[i] * dd == nn[i] * u.den@,
        ;
    }
    crate::num::lemma_dot_scale(nz, un, y, dd, d);
    crate::num::lemma_dot_scale(nz, nn, y, u.den@, d);
    // n·N = s·(n·p_num) + a·(n·r)
    assert forall|j: int| 0 <= j < d implies #[trigger] (nz[j] * nn[j]) == nn[j] * nz[j] && (pn[j] * nz[j]) == nz[j]
        * pn[j] && (r[j] * nz[j]) == nz[j] * r[j] by {
        assert(nz[j] * nn[j] == nn[j] * nz[j]) by (nonlinear_arith);
        assert(pn[j] * nz[j] == nz[j] * pn[j]) by (nonlinear_arith);
        assert(r[j] * nz[j] == nz[j] * r[j]) by (nonlinear_arith);
    }
    assert forall|j: int| 0 <= j < d implies #[trigger] nn[j] == s * pn[j] - (-a) * r[j] by {
        assert(nn[j] == s * pn[j] - (-a) * r[j]) by (nonlinear_arith)
            requires
                nn[j] == pn[j] * s + a * r[j],
        ;
    }
    crate::num::lemma_dot_termwise(nz, nn, nn, nz, d);
    crate::num::lemma_dot_lincomb(nn, pn, r, nz, s, -a, d);
    crate::num::lemma_dot_termwise(pn, nz, nz, pn, d);
    crate::num::lemma_dot_termwise(r, nz, nz, r, d);
    let vu = prob.value(h, u);
    let vp = prob.value(h, p);
    let sig = dir_dot(prob, h, r);
    assert(nz.len() == d);
    let (x1, x2) = (dot_prefix(pn, nz, d), dot_prefix(r, nz, d));
    assert(s * x1 - (-a) * x2 == s * x1 + a * x2) by (nonlinear_arith);
    assert(dot_int(nz, nn) == s * dot_int(nz, pn) + a * sig);
    lemma_step_algebra(
        dd,
        vu,
        vp,
        dot_int(nz, un),
        dot_int(nz, pn),
        dot_int(nz, nn),
        hy.b@,
        u.den@,
        p.den@,
        s,
        a,
        sig,
    );
    assert(sign_of(vu) == sign_of(s * vp + a * sig)) by (nonlinear_arith)
        requires
            dd * vu == u.den@ * (s * vp + a * sig),
            dd > 0,
            u.den@ > 0,
    ;
}

/// One step of the walk keeps every constraint of the region.
proof fn lemma_step_in_region(
    prob: Problem,
    region: Region,
    ev: Seq<int>,
    v: Point,
    rz: Seq<int>,
    u: Point,
    h: int,
    tight: Seq<Constraint>,
)
    requires
        prob.wf(),
        region.wf(prob.hyps@.len()),
        v.wf(),
        u.wf(),
        v.num@.len() == prob.d,
        u.num@.len() == prob.d,
        rz.len() == prob.d,
        ev == prob.values(v),
        region.holds(ev),
        tight == tight_of(region.cons@, ev, region.cons@.len() as int),
        respects(prob, tight, rz),
        region.eq matches Some(f) ==> dir_dot(prob, f as int, rz) == 0,
        first_hit(prob, ev, v, rz, u, h),
    ensures
        region.holds(prob.values(u)),
{
    let (a, s) = step_of(ev[h], dir_dot(prob, h, rz));
    assert(a > 0 && s > 0);
    let eu = prob.values(u);
    if let Some(f) = region.eq {
        lemma_step_value(prob, f as int, v, rz, a, s, u);
        assert(s * ev[f as int] + a * dir_dot(prob, f as int, rz) == 0) by (nonlinear_arith)
            requires
                ev[f as int] == 0,
                dir_dot(prob, f as int, rz) == 0,
        ;
    }
    assert forall|k: int| 0 <= k < region.cons@.len() implies sign_of(eu[(#[trigger] region.cons@[k]).h as int])
        * region.cons@[k].o <= 0 by {
        let c = region.cons@[k];
        assert(c.wf(prob.hyps@.len()));
        let g = c.h as int;
        let e = ev[g];
        let sig = dir_dot(prob, g, rz);
        lemma_step_value(prob, g, v, rz, a, s, u);
        assert(sign_of(e) * c.o <= 0);
        if e == 0 {
            lemma_tight_of_complete(region.cons@, ev, region.cons@.len() as int, k);
            let t = choose|t: int| 0 <= t < tight.len() && tight[t] == c;
            assert(sign_of(dot_int(zvals(prob.hyps@[tight[t].h as int].n@), rz)) * tight[t].o <= 0);
            assert(sign_of(s * e + a * sig) == sign_of(sig)) by (nonlinear_arith)
                requires
                    e == 0,
                    a > 0,
            ;
        } else if crossing(prob, ev, rz, g) {
            let (ac, sc) = step_of(e, sig);
            assert(a * sc <= ac * s);
            if sig < 0 {
                assert(e > 0);
                assert(s * e + a * sig >= 0) by (nonlinear_arith)
                    requires
                        a * sc <= ac * s,
                        ac == e,
                        sc == -sig,
                ;
            } else {
                assert(e < 0);
                assert(s * e + a * sig <= 0) by (nonlinear_arith)
                    requires
                        a * sc <= ac * s,
                        ac == -e,
                        sc == sig,
                ;
            }
        } else {
            assert(sign_of(s * e + a * sig) == sign_of(e)) by (nonlinear_arith)
                requires
                    e != 0,
                    sig == 0 || sign_of(e) == sign_of(sig),
                    a > 0,
                    s > 0,
            ;
        }
    }
}

} // verus!
