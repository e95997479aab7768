//! Hyperplanes, polytopes and the shared arrangement.
//!
//! Every facet hyperplane of every polytope is canonicalised to primitive
//! integer form `n·x = b` with the first non-zero entry of `n` positive and
//! deduplicated into one list `H`.  A polytope is a list of oriented references
//! `(h, o)` meaning `o·(n_h·x − b_h) ≤ 0`.
use crate::arith::{divides, gcd_fold};
use crate::num::{
    add_zz, all_wf, common_den, dot, dot_int, dot_prefix, gcd_seq, lex_sign, lex_sign_of, make_primitive,
    mul_zz, neg_z, scale_to, sign_of, sub_zz, zvals, Point, Q, Z,
};
use crate::bbox::{
    boxes_apart, con_range, lemma_range_dens, lemma_sign_stands, meeting_positions, separated_at, view_ids, violated_on_box,
    visit_order, box_range, joins_view,
};
use crate::sweep::{equiv, pmul, qv};
use vstd::prelude::*;

verus! {

/// The hyperplane `n·x = b`.
#[derive(Debug, PartialEq, Eq, Hash)]
pub struct Hyperplane {
    pub n: Vec<Z>,
    pub b: Z,
}

/// Numerators of a sequence of rationals.
pub open spec fn qnums(s: Seq<Q>) -> Seq<int> {
    s.map_values(|q: Q| q.num@)
}

/// All rationals are in normal form.
pub open spec fn all_q_wf(s: Seq<Q>) -> bool {
    forall|i: int| 0 <= i < s.len() ==> (#[trigger] s[i]).wf()
}

impl Hyperplane {
    /// `d` well-formed coefficients and a well-formed right-hand side.
    pub open spec fn wf(&self, d: nat) -> bool {
        &&& self.n@.len() == d
        &&& all_wf(self.n@)
        &&& self.b.wf()
    }

    /// Primitive (the entries of `n` and `b` are coprime) with the first
    /// non-zero entry of `n` positive.
    pub open spec fn canonical(&self) -> bool {
        &&& lex_sign_of(zvals(self.n@)) == 1
        &&& gcd_seq(zvals(self.n@).push(self.b@)) == 1
    }

    /// `n·x − b` at the point, scaled by its denominator.
    pub open spec fn value_at(&self, p: Point) -> int {
        dot_int(zvals(self.n@), zvals(p.num@)) - self.b@ * p.den@
    }

    /// `n·x − b` scaled by `den(p)`: the sign is the side of `p`.
    pub fn eval(&self, p: &Point) -> (r: Z)
        requires
            all_wf(self.n@),
            self.b.wf(),
            p.wf(),
            p.num@.len() == self.n@.len(),
        ensures
            r.wf(),
            r@ == self.value_at(*p),
    {
        sub_zz(&dot(self.n.as_slice(), p.num.as_slice()), &mul_zz(&self.b, &p.den))
    }

    pub fn contains(&self, p: &Point) -> (r: bool)
        requires
            all_wf(self.n@),
            self.b.wf(),
            p.wf(),
            p.num@.len() == self.n@.len(),
        ensures
            r == (self.value_at(*p) == 0),
    {
        self.eval(p).is_zero()
    }

    pub fn dim(&self) -> (r: usize)
        ensures
            r == self.n@.len(),
    {
        self.n.len()
    }
}

impl Clone for Hyperplane {
    fn clone(&self) -> (r: Hyperplane)
        ensures
            zvals(r.n@) == zvals(self.n@),
            r.b@ == self.b@,
            all_wf(self.n@) ==> all_wf(r.n@),
            self.b.wf() ==> r.b.wf(),
    {
        Hyperplane { n: crate::num::clone_zs(&self.n), b: self.b.clone() }
    }
}

/// `o · (n_h·x − b_h) ≤ 0`
#[derive(Clone, Copy, Debug, PartialEq, Eq, Structural, Hash)]
pub struct Constraint {
    pub h: usize,
    pub o: i8,
}

impl Constraint {
    /// Refers to one of `nh` hyperplanes with orientation `±1`.
    pub open spec fn wf(self, nh: nat) -> bool {
        &&& self.h < nh
        &&& (self.o == 1 || self.o == -1)
    }
}

#[derive(Debug, Default)]
pub struct Polytope {
    pub cons: Vec<Constraint>,
    /// global polytope index (differs from the position only in a local view)
    pub id: usize,
    /// global constraint position of every entry of `cons`
    pub pos: Vec<usize>,
}

impl Polytope {
    pub open spec fn wf(&self, nh: nat) -> bool {
        &&& self.pos@.len() == self.cons@.len()
        &&& forall|k: int| 0 <= k < self.cons@.len() ==> (#[trigger] self.cons@[k]).wf(nh)
    }
}

impl Clone for Polytope {
    fn clone(&self) -> (r: Polytope)
        ensures
            r.cons@ == self.cons@,
            r.id == self.id,
            r.pos@ == self.pos@,
    {
        let mut cons: Vec<Constraint> = Vec::new();
        let mut k: usize = 0;
        while k < self.cons.len()
            invariant
                k <= self.cons@.len(),
                cons@ == self.cons@.take(k as int),
            decreases self.cons@.len() - k,
        {
            cons.push(self.cons[k]);
            k = k + 1;
            proof {
                assert(cons@ =~= self.cons@.take(k as int));
            }
        }
        let mut pos: Vec<usize> = Vec::new();
        let mut k: usize = 0;
        while k < self.pos.len()
            invariant
                k <= self.pos@.len(),
                pos@ == self.pos@.take(k as int),
            decreases self.pos@.len() - k,
        {
            pos.push(self.pos[k]);
            k = k + 1;
            proof {
                assert(pos@ =~= self.pos@.take(k as int));
            }
        }
        proof {
            assert(cons@ =~= self.cons@);
            assert(pos@ =~= self.pos@);
        }
        Polytope { cons, id: self.id, pos }
    }
}

#[derive(Clone, Copy, Debug, PartialEq, Eq, Structural)]
pub enum Side {
    Outside,
    Boundary,
    Interior,
}

/// One tight constraint of a polytope at a point.
#[derive(Clone, Copy, Debug, PartialEq, Eq, Structural)]
pub struct Tight {
    /// position of the constraint within `Polytope::cons`
    pub pos: usize,
    pub c: Constraint,
}

/// Flat `i64` mirror of the hyperplanes for the hot scans.  Only built when
/// every entry is below `2^31` in magnitude, so that with point coordinates
/// below `2^62` every intermediate fits an `i128` without checks.
#[derive(Clone, Debug)]
pub struct FastHyps {
    pub n: Vec<i64>,
    pub b: Vec<i64>,
}

pub const FAST_COORD_BOUND: i128 = 0x4000_0000_0000_0000;

pub const FAST_ENTRY_BOUND: i128 = 0x8000_0000;

/// `|x| < 2^62`.
pub open spec fn small_coord(x: int) -> bool {
    -FAST_COORD_BOUND < x < FAST_COORD_BOUND
}

/// `|x| < 2^31`.
pub open spec fn small_entry(x: int) -> bool {
    -FAST_ENTRY_BOUND < x < FAST_ENTRY_BOUND
}

/// Stored as `i128` and below `2^62` in magnitude.
pub open spec fn small_z(z: Z) -> bool {
    z matches Z::S(y) && small_coord(y as int)
}

/// The point as small integers if every numerator and the denominator is
/// below [`FAST_COORD_BOUND`] in magnitude.
pub fn small_point(p: &Point) -> (r: Option<(Vec<i64>, i64)>)
    ensures
        r is Some <==> small_z(p.den) && forall|i: int|
            0 <= i < p.num@.len() ==> small_z(#[trigger] p.num@[i]),
        r matches Some((num, den)) ==> den as int == p.den@ && num@.len() == p.num@.len() && forall|i: int|
            0 <= i < num@.len() ==> (#[trigger] num@[i]) as int == p.num@[i]@,
{
    let den = match &p.den {
        Z::S(x) => {
            if -FAST_COORD_BOUND < *x && *x < FAST_COORD_BOUND {
                *x as i64
            } else {
                return None;
            }
        },
        _ => {
            return None;
        },
    };
    match small_vec(p.num.as_slice()) {
        Some(num) => Some((num, den)),
        None => None,
    }
}

/// The vector as small integers if every entry is below
/// [`FAST_COORD_BOUND`] in magnitude.
pub fn small_vec(v: &[Z]) -> (r: Option<Vec<i64>>)
    ensures
        r is Some <==> forall|i: int| 0 <= i < v@.len() ==> small_z(#[trigger] v@[i]),
        r matches Some(out) ==> out@.len() == v@.len() && forall|i: int|
            0 <= i < out@.len() ==> (#[trigger] out@[i]) as int == v@[i]@,
{
    let mut out: Vec<i64> = Vec::new();
    let mut i: usize = 0;
    while i < v.len()
        invariant
            i <= v@.len(),
            out@.len() == i,
            forall|j: int| 0 <= j < i ==> small_z(#[trigger] v@[j]),
            forall|j: int| 0 <= j < i ==> (#[trigger] out@[j]) as int == v@[j]@,
        decreases v@.len() - i,
    {
        match &v[i] {
            Z::S(t) => {
                if -FAST_COORD_BOUND < *t && *t < FAST_COORD_BOUND {
                    out.push(*t as i64);
                } else {
                    return None;
                }
            },
            _ => {
                return None;
            },
        }
        i = i + 1;
    }
    Some(out)
}

/// Raw input constraint `a·x ≤ b` in rationals.
#[derive(Debug)]
pub struct RawConstraint {
    pub a: Vec<Q>,
    pub b: Q,
}

impl RawConstraint {
    pub open spec fn wf(&self) -> bool {
        &&& all_q_wf(self.a@)
        &&& self.b.wf()
    }
}

/// Entrywise copy of a rational vector.
pub fn clone_qs(v: &[Q]) -> (r: Vec<Q>)
    ensures
        r@.len() == v@.len(),
        forall|i: int| 0 <= i < v@.len() ==> (#[trigger] r@[i]).num@ == v@[i].num@ && r@[i].den@ == v@[i].den@ && (
        v@[i].wf() ==> r@[i].wf()),
{
    let mut out: Vec<Q> = Vec::new();
    let mut i: usize = 0;
    while i < v.len()
        invariant
            i <= v@.len(),
            out@.len() == i,
            forall|j: int| 0 <= j < i ==> (#[trigger] out@[j]).num@ == v@[j].num@ && out@[j].den@ == v@[j].den@ && (
            v@[j].wf() ==> out@[j].wf()),
        decreases v@.len() - i,
    {
        out.push(v[i].clone());
        i = i + 1;
    }
    out
}

impl Clone for RawConstraint {
    fn clone(&self) -> (r: RawConstraint)
        ensures
            r.a@.len() == self.a@.len(),
            forall|i: int| 0 <= i < self.a@.len() ==> (#[trigger] r.a@[i]).num@ == self.a@[i].num@ && r.a@[i].den@ == self.a@[i].den@,
            r.b.num@ == self.b.num@,
            r.b.den@ == self.b.den@,
            self.wf() ==> r.wf(),
    {
        RawConstraint { a: clone_qs(self.a.as_slice()), b: self.b.clone() }
    }
}

/// `(h, o)` is a canonical form of `a·x ≤ b`: some positive multiple of
/// `o·(n, b_h)` equals `(a, b)`, i.e. `a_i = (c/e)·o·n_i` and `b = (c/e)·o·b_h`.
pub open spec fn represents(a: Seq<Q>, b: Q, h: Hyperplane, o: int) -> bool {
    &&& h.n@.len() == a.len()
    &&& exists|c: int, e: int|
        c > 0 && e > 0 && #[trigger] (c * e) > 0 && b.num@ * e == c * o * h.b@ * b.den@ && forall|i: int|
            0 <= i < a.len() ==> #[trigger] (a[i].num@ * e) == c * o * h.n@[i]@ * a[i].den@
}

/// A non-zero lexicographic sign has a non-zero entry as witness.
proof fn lemma_lex_sign_witness(s: Seq<int>) -> (i: int)
    requires
        lex_sign_of(s) != 0,
    ensures
        0 <= i < s.len(),
        s[i] != 0,
    decreases s.len(),
{
    if s[0] != 0 {
        0
    } else {
        let j = lemma_lex_sign_witness(s.drop_first());
        assert(s[j + 1] == s.drop_first()[j]);
        j + 1
    }
}

/// Same signs entrywise give the same lexicographic sign.
proof fn lemma_lex_sign_same_signs(s: Seq<int>, t: Seq<int>)
    requires
        s.len() == t.len(),
        forall|i: int| 0 <= i < s.len() ==> sign_of(#[trigger] s[i]) == sign_of(t[i]),
    ensures
        lex_sign_of(s) == lex_sign_of(t),
    decreases s.len(),
{
    if s.len() > 0 {
        assert(sign_of(s[0]) == sign_of(t[0]));
        assert forall|i: int| 0 <= i < s.drop_first().len() implies sign_of(#[trigger] s.drop_first()[i]) == sign_of(
            t.drop_first()[i],
        ) by {
            assert(sign_of(s[i + 1]) == sign_of(t[i + 1]));
        }
        lemma_lex_sign_same_signs(s.drop_first(), t.drop_first());
    }
}

/// Canonicalise `a·x ≤ b` into `(n, b, o)` with `n` primitive together with
/// `b` and lexicographically positive; `None` if `a = 0`.
pub fn canonicalise(a: &[Q], b: &Q) -> (r: Option<(Hyperplane, i8)>)
    requires
        all_q_wf(a@),
        b.wf(),
    ensures
        r is None <==> lex_sign_of(qnums(a@)) == 0,
        r matches Some((h, o)) ==> {
            &&& h.wf(a@.len())
            &&& h.canonical()
            &&& o as int == lex_sign_of(qnums(a@))
            &&& represents(a@, *b, h, o as int)
        },
{
    let d = a.len();
    // clear denominators
    let mut all_q = clone_qs(a);
    all_q.push(b.clone());
    proof {
        assert forall|i: int| 0 <= i < all_q@.len() implies (#[trigger] all_q@[i]).wf() by {}
    }
    let den = common_den(all_q.as_slice());
    let mut all = scale_to(all_q.as_slice(), &den);
    let ghost scaled = zvals(all@);
    let bb = all.pop().unwrap();
    let ghost nz = zvals(all@);
    proof {
        assert(nz =~= scaled.drop_last());
        assert forall|i: int| 0 <= i < d implies sign_of(#[trigger] nz[i]) == sign_of(qnums(a@)[i]) by {
            assert(all_q@[i].num@ == a@[i].num@ && all_q@[i].den@ == a@[i].den@);
            assert(nz[i] * a@[i].den@ == a@[i].num@ * den@);
            assert(sign_of(nz[i]) == sign_of(a@[i].num@)) by (nonlinear_arith)
                requires
                    nz[i] * a@[i].den@ == a@[i].num@ * den@,
                    a@[i].den@ > 0,
                    den@ > 0,
            ;
        }
        lemma_lex_sign_same_signs(nz, qnums(a@));
    }
    let s = lex_sign(all.as_slice());
    if s == 0 {
        return None;
    }
    // gcd over n and b
    all.push(bb);
    let ghost pre = all@;
    proof {
        assert(zvals(pre) =~= scaled);
    }
    make_primitive(&mut all);
    let ghost g = if gcd_seq(scaled) == 0 { 1int } else { gcd_seq(scaled) as int };
    let ghost prim = zvals(all@);
    let bb = all.pop().unwrap();
    let mut n = all;
    let mut bb = bb;
    if s < 0 {
        let mut i: usize = 0;
        while i < n.len()
            invariant
                i <= n@.len(),
                n@.len() == d,
                all_wf(n@),
                prim.len() == d + 1,
                forall|j: int| 0 <= j < i ==> (#[trigger] n@[j])@ == -prim[j],
                forall|j: int| i <= j < d ==> (#[trigger] n@[j])@ == prim[j],
            decreases n@.len() - i,
        {
            let x = neg_z(&n[i]);
            n.set(i, x);
            i = i + 1;
        }
        bb = neg_z(&bb);
    }
    let h = Hyperplane { n, b: bb };
    proof {
        let o = s as int;
        assert(o == 1 || o == -1) by {
            crate::num::lemma_lex_sign_range(nz);
        }
        // primitive: the entries of prim are coprime, and negation keeps the gcd
        assert(g > 0 && gcd_seq(scaled) != 0) by {
            let w = lemma_lex_sign_witness(nz);
            assert(scaled[w] == nz[w]);
            crate::arith::lemma_gcd_fold_pos(0, scaled);
        }
        assert forall|j: int| 0 <= j < d + 1 implies #[trigger] prim[j] * g == scaled[j] by {}
        assert forall|j: int| 0 <= j < d implies (#[trigger] h.n@[j])@ == o * prim[j] by {}
        assert(h.b@ == o * prim[d as int]);
        // proportionality with c = g, e = den
        assert forall|i: int| 0 <= i < d implies #[trigger] (a@[i].num@ * den@) == g * o * h.n@[i]@ * a@[i].den@ by {
            assert(all_q@[i].num@ == a@[i].num@ && all_q@[i].den@ == a@[i].den@);
            assert(scaled[i] * a@[i].den@ == a@[i].num@ * den@);
            assert(prim[i] * g == scaled[i]);
            assert(h.n@[i]@ == o * prim[i]);
            assert(a@[i].num@ * den@ == g * o * h.n@[i]@ * a@[i].den@) by (nonlinear_arith)
                requires
                    scaled[i] * a@[i].den@ == a@[i].num@ * den@,
                    prim[i] * g == scaled[i],
                    h.n@[i]@ == o * prim[i],
                    o * o == 1,
            ;
        }
        assert(b.num@ * den@ == g * o * h.b@ * b.den@) by {
            assert(all_q@[d as int].num@ == b.num@ && all_q@[d as int].den@ == b.den@);
            assert(scaled[d as int] * b.den@ == b.num@ * den@);
            assert(prim[d as int] * g == scaled[d as int]);
            assert(b.num@ * den@ == g * o * h.b@ * b.den@) by (nonlinear_arith)
                requires
                    scaled[d as int] * b.den@ == b.num@ * den@,
                    prim[d as int] * g == scaled[d as int],
                    h.b@ == o * prim[d as int],
                    o * o == 1,
            ;
        }
        assert(g * den@ > 0) by (nonlinear_arith)
            requires
                g > 0,
                den@ > 0,
        ;
        assert(represents(a@, *b, h, o));
        // canonical
        let hz = zvals(h.n@);
        assert forall|j: int| 0 <= j < d implies #[trigger] hz[j] == o * prim[j] by {}
        assert(zvals(h.n@).push(h.b@) =~= prim.map_values(|x: int| o * x));
        assert(gcd_seq(prim) == 1);
        if o == -1 {
            crate::arith::lemma_gcd_fold_neg(0, prim, prim.map_values(|x: int| o * x));
        } else {
            assert(prim.map_values(|x: int| o * x) =~= prim);
        }
        assert(lex_sign_of(hz) == 1) by {
            assert forall|j: int| 0 <= j < d implies #[trigger] (hz[j] * (o * g)) == nz[j] by {
                assert(prim[j] * g == scaled[j]);
                assert(scaled[j] == nz[j]);
                assert(hz[j] * (o * g) == nz[j]) by (nonlinear_arith)
                    requires
                        hz[j] == o * prim[j],
                        prim[j] * g == nz[j],
                        o * o == 1,
                ;
            }
            crate::num::lemma_lex_sign_scaled(hz, nz, o * g);
            crate::num::lemma_lex_sign_range(hz);
        }
    }
    Some((h, s))
}

impl FastHyps {
    /// Entry-for-entry copy of the hyperplanes, every entry below `2^31`.
    pub open spec fn mirrors(&self, d: nat, hyps: Seq<Hyperplane>) -> bool {
        &&& self.n@.len() == hyps.len() * d
        &&& self.b@.len() == hyps.len()
        &&& hyps.len() * d <= usize::MAX
        &&& flat_mirrored(self.n@, hyps, d as int)
        &&& forall|h: int| 0 <= h < hyps.len() ==> small_entry(self.b@[h] as int) && self.b@[h] as int == (
        #[trigger] hyps[h]).b@
    }
}

/// Every coefficient and right-hand side is below `2^31` in magnitude.
pub open spec fn all_small(hyps: Seq<Hyperplane>, d: nat) -> bool {
    &&& forall|g: int, k: int| 0 <= g < hyps.len() && 0 <= k < d ==> small_entry((#[trigger] hyps[g].n@[k])@)
    &&& forall|g: int| 0 <= g < hyps.len() ==> small_entry((#[trigger] hyps[g]).b@)
}

/// Entry `i` of the flat row-major `d`-column array is coefficient
/// `i mod d` of hyperplane `i div d`, and below `2^31` in magnitude.
pub open spec fn flat_mirrored(n: Seq<i64>, hyps: Seq<Hyperplane>, d: int) -> bool {
    forall|i: int| 0 <= i < n.len() ==> small_entry(#[trigger] n[i] as int) && n[i] as int == hyps[i / d].n@[i % d]@
}

/// Position `h·d + k` of the flat array holds coefficient `k` of hyperplane `h`.
pub proof fn lemma_flat_index(h: int, k: int, d: int)
    requires
        0 <= h,
        0 <= k < d,
    ensures
        (h * d + k) / d == h,
        (h * d + k) % d == k,
        h * d + k >= 0,
{
    vstd::arithmetic::div_mod::lemma_fundamental_div_mod_converse(h * d + k, d, h, k);
    assert(h * d >= 0) by (nonlinear_arith)
        requires
            0 <= h,
            0 <= k < d,
    ;
}

#[derive(Debug)]
pub struct Problem {
    pub d: usize,
    pub hyps: Vec<Hyperplane>,
    pub polys: Vec<Polytope>,
    pub fast: Option<FastHyps>,
}

/// Same coefficients and right-hand side.
pub open spec fn same_hyp(a: Hyperplane, b: Hyperplane) -> bool {
    zvals(a.n@) == zvals(b.n@) && a.b@ == b.b@
}

/// `(a, b)` has no usable normal: `a = 0`.
pub open spec fn zero_normal(c: RawConstraint) -> bool {
    lex_sign_of(qnums(c.a@)) == 0
}

/// A constraint that `from_raw` rejects: wrong arity, or a zero normal
/// (`0 ≤ b` is either trivially true or infeasible; neither bounds a
/// polytope).
pub open spec fn rejected(c: RawConstraint, d: nat) -> bool {
    c.a@.len() != d || zero_normal(c)
}

/// Every one of the first `n` hyperplanes carries some constraint of some
/// polytope.
#[verifier::opaque]
pub open spec fn all_used(polys: Seq<Polytope>, n: int) -> bool {
    forall|h: int| 0 <= h < n ==> #[trigger] hyp_used(polys, h)
}

/// Two canonical constraints that both represent one raw constraint, over
/// pairwise distinct canonical hyperplanes, are the same.
proof fn lemma_rep_unique(raw: RawConstraint, hyps: Seq<Hyperplane>, c1: Constraint, c2: Constraint)
    requires
        raw.wf(),
        c1.wf(hyps.len()),
        c2.wf(hyps.len()),
        hyps[c1.h as int].canonical(),
        hyps[c2.h as int].canonical(),
        c1.h != c2.h ==> !same_hyp(hyps[c1.h as int], hyps[c2.h as int]),
        rep_con(raw, hyps, c1),
        rep_con(raw, hyps, c2),
    ensures
        c1 == c2,
{
    let h1 = hyps[c1.h as int];
    let h2 = hyps[c2.h as int];
    let a = raw.a@;
    let (o1, o2) = (c1.o as int, c2.o as int);
    let (k1, e1) = choose|c: int, e: int|
        c > 0 && e > 0 && #[trigger] (c * e) > 0 && raw.b.num@ * e == c * o1 * h1.b@ * raw.b.den@ && forall|i: int|
            0 <= i < a.len() ==> #[trigger] (a[i].num@ * e) == c * o1 * h1.n@[i]@ * a[i].den@;
    let (k2, e2) = choose|c: int, e: int|
        c > 0 && e > 0 && #[trigger] (c * e) > 0 && raw.b.num@ * e == c * o2 * h2.b@ * raw.b.den@ && forall|i: int|
            0 <= i < a.len() ==> #[trigger] (a[i].num@ * e) == c * o2 * h2.n@[i]@ * a[i].den@;
    let ee = k1 * o1 * e2;
    let cc = k2 * o2 * e1;
    assert(ee != 0 && cc != 0) by (nonlinear_arith)
        requires
            ee == k1 * o1 * e2,
            cc == k2 * o2 * e1,
            k1 > 0,
            k2 > 0,
            e1 > 0,
            e2 > 0,
            o1 == 1 || o1 == -1,
            o2 == 1 || o2 == -1,
    ;
    assert forall|i: int| 0 <= i < h1.n@.len() implies #[trigger] (ee * h1.n@[i]@) == cc * h2.n@[i]@ by {
        assert(a[i].wf());
        let (an, ad, x1, x2) = (a[i].num@, a[i].den@, h1.n@[i]@, h2.n@[i]@);
        assert(an * e1 == k1 * o1 * x1 * ad);
        assert(an * e2 == k2 * o2 * x2 * ad);
        assert(ee * x1 == cc * x2) by (nonlinear_arith)
            requires
                an * e1 == k1 * o1 * x1 * ad,
                an * e2 == k2 * o2 * x2 * ad,
                ad > 0,
                ee == k1 * o1 * e2,
                cc == k2 * o2 * e1,
        ;
    }
    let (bn, bd, y1, y2) = (raw.b.num@, raw.b.den@, h1.b@, h2.b@);
    assert(ee * y1 == cc * y2) by (nonlinear_arith)
        requires
            bn * e1 == k1 * o1 * y1 * bd,
            bn * e2 == k2 * o2 * y2 * bd,
            bd > 0,
            ee == k1 * o1 * e2,
            cc == k2 * o2 * e1,
    ;
    crate::laws::lemma_canonical_unique(h1, h2, cc, ee);
    assert(same_hyp(h1, h2));
    assert(c1.h == c2.h);
    // equal normals: e·n = c·n with a non-zero entry gives e = c
    let j = lemma_lex_sign_witness(zvals(h1.n@));
    assert(ee * h1.n@[j]@ == cc * h1.n@[j]@);
    let nj = h1.n@[j]@;
    assert(ee == cc) by (nonlinear_arith)
        requires
            ee * nj == cc * nj,
            nj != 0,
    ;
    assert(o1 == o2) by (nonlinear_arith)
        requires
            k1 * o1 * e2 == k2 * o2 * e1,
            k1 > 0,
            k2 > 0,
            e1 > 0,
            e2 > 0,
            o1 == 1 || o1 == -1,
            o2 == 1 || o2 == -1,
    ;
}

/// `srcs[k]` is where `cons[k]` first occurs among the first `n` raw
/// constraints (no earlier raw constraint has it as canonical form), and
/// these places increase.
#[verifier::opaque]
pub open spec fn order_inv(rc: Seq<RawConstraint>, hyps: Seq<Hyperplane>, cons: Seq<Constraint>, srcs: Seq<int>, n: int) -> bool {
    &&& srcs.len() == cons.len()
    &&& forall|a: int, b: int| 0 <= a < b < srcs.len() ==> #[trigger] srcs[a] < #[trigger] srcs[b]
    &&& forall|k: int|
        0 <= k < srcs.len() ==> {
            &&& 0 <= #[trigger] srcs[k] < n
            &&& srcs[k] < rc.len()
            &&& rep_con(rc[srcs[k]], hyps, cons[k])
            &&& forall|cj: int| 0 <= cj < srcs[k] ==> !rep_con(#[trigger] rc[cj], hyps, cons[k])
        }
}

/// The constraints of a polytope are listed in the order in which they
/// first occur among its raw constraints.
pub open spec fn first_occurrence_order(rc: Seq<RawConstraint>, hyps: Seq<Hyperplane>, cons: Seq<Constraint>) -> bool {
    exists|srcs: Seq<int>| #[trigger] order_inv(rc, hyps, cons, srcs, rc.len() as int)
}

/// Growing the hyperplane list keeps the order of constraints over the old
/// hyperplanes.
proof fn lemma_order_grow(
    rc: Seq<RawConstraint>,
    hyps0: Seq<Hyperplane>,
    hyps: Seq<Hyperplane>,
    cons: Seq<Constraint>,
    srcs: Seq<int>,
    n: int,
)
    requires
        order_inv(rc, hyps0, cons, srcs, n),
        hyps0.len() <= hyps.len(),
        forall|h: int| 0 <= h < hyps0.len() ==> #[trigger] hyps[h] == hyps0[h],
        forall|k: int| 0 <= k < cons.len() ==> (#[trigger] cons[k]).wf(hyps0.len()),
    ensures
        order_inv(rc, hyps, cons, srcs, n),
{
    reveal(order_inv);
    assert forall|k: int| 0 <= k < srcs.len() implies {
        &&& 0 <= #[trigger] srcs[k] < n
        &&& srcs[k] < rc.len()
        &&& rep_con(rc[srcs[k]], hyps, cons[k])
        &&& forall|cj: int| 0 <= cj < srcs[k] ==> !rep_con(#[trigger] rc[cj], hyps, cons[k])
    } by {
        assert(cons[k].wf(hyps0.len()));
        assert(hyps[cons[k].h as int] == hyps0[cons[k].h as int]);
    }
}

/// One more raw constraint read: its canonical form is appended when new.
proof fn lemma_order_step(
    rc: Seq<RawConstraint>,
    hyps: Seq<Hyperplane>,
    cons: Seq<Constraint>,
    srcs: Seq<int>,
    ci: int,
    con: Constraint,
    present: bool,
) -> (srcs2: Seq<int>)
    requires
        order_inv(rc, hyps, cons, srcs, ci),
        0 <= ci < rc.len(),
        rc[ci].wf(),
        forall|cj: int| 0 <= cj < rc.len() ==> (#[trigger] rc[cj]).wf(),
        con.wf(hyps.len()),
        forall|k: int| 0 <= k < cons.len() ==> (#[trigger] cons[k]).wf(hyps.len()),
        forall|h: int| 0 <= h < hyps.len() ==> (#[trigger] hyps[h]).canonical(),
        forall|h1: int, h2: int| 0 <= h1 < h2 < hyps.len() ==> !same_hyp(#[trigger] hyps[h1], #[trigger] hyps[h2]),
        rep_con(rc[ci], hyps, con),
        forall|cj: int| 0 <= cj < ci ==> has_image(cons, hyps, #[trigger] rc[cj]),
        present ==> exists|u: int| 0 <= u < cons.len() && cons[u] == con,
        !present ==> forall|u: int| 0 <= u < cons.len() ==> cons[u] != con,
    ensures
        order_inv(rc, hyps, if present { cons } else { cons.push(con) }, srcs2, ci + 1),
{
    reveal(order_inv);
    if present {
        srcs
    } else {
        let srcs2 = srcs.push(ci);
        let cons2 = cons.push(con);
        assert forall|cj: int| 0 <= cj < ci implies !rep_con(#[trigger] rc[cj], hyps, con) by {
            if rep_con(rc[cj], hyps, con) {
                let k = choose|k: int| 0 <= k < cons.len() && rep_con(rc[cj], hyps, #[trigger] cons[k]);
                assert(hyps[con.h as int].canonical() && hyps[cons[k].h as int].canonical());
                if con.h != cons[k].h {
                    if con.h < cons[k].h {
                        assert(!same_hyp(hyps[con.h as int], hyps[cons[k].h as int]));
                    } else {
                        assert(!same_hyp(hyps[cons[k].h as int], hyps[con.h as int]));
                    }
                }
                lemma_rep_unique(rc[cj], hyps, con, cons[k]);
                assert(cons[k] != con);
            }
        }
        assert forall|k: int| 0 <= k < srcs2.len() implies {
            &&& 0 <= #[trigger] srcs2[k] < ci + 1
            &&& srcs2[k] < rc.len()
            &&& rep_con(rc[srcs2[k]], hyps, cons2[k])
            &&& forall|cj: int| 0 <= cj < srcs2[k] ==> !rep_con(#[trigger] rc[cj], hyps, cons2[k])
        } by {
            if k < srcs.len() {
                assert(srcs2[k] == srcs[k] && cons2[k] == cons[k]);
            }
        }
        assert forall|a: int, b: int| 0 <= a < b < srcs2.len() implies #[trigger] srcs2[a] < #[trigger] srcs2[b] by {
            if b < srcs.len() {
                assert(srcs2[a] == srcs[a] && srcs2[b] == srcs[b]);
            } else {
                assert(srcs2[a] == srcs[a]);
            }
        }
        srcs2
    }
}

/// Some constraint of some polytope lies on hyperplane `h`.
pub open spec fn hyp_used(polys: Seq<Polytope>, h: int) -> bool {
    exists|i: int, k: int| 0 <= i < polys.len() && 0 <= k < polys[i].cons@.len() && #[trigger] polys[i].cons@[k].h == h
}

/// Every hyperplane from `lo` to `hi` carries a constraint of the list.
#[verifier::opaque]
pub open spec fn cons_cover(cons: Seq<Constraint>, lo: int, hi: int) -> bool {
    forall|h: int| lo <= h < hi ==> #[trigger] con_on(cons, h)
}

/// Some constraint of the list lies on hyperplane `h`.
pub open spec fn con_on(cons: Seq<Constraint>, h: int) -> bool {
    exists|k: int| 0 <= k < cons.len() && #[trigger] cons[k].h == h
}

/// `c` is a canonical form of the raw constraint over the hyperplanes.
pub open spec fn rep_con(raw: RawConstraint, hyps: Seq<Hyperplane>, c: Constraint) -> bool {
    0 <= c.h < hyps.len() && represents(raw.a@, raw.b, hyps[c.h as int], c.o as int)
}

/// Some of the first `n` raw constraints has `c` as canonical form.
pub open spec fn has_source(rc: Seq<RawConstraint>, n: int, hyps: Seq<Hyperplane>, c: Constraint) -> bool {
    exists|ci: int| 0 <= ci < n && ci < rc.len() && rep_con(#[trigger] rc[ci], hyps, c)
}

/// Some constraint of `cons` is a canonical form of `raw`.
pub open spec fn has_image(cons: Seq<Constraint>, hyps: Seq<Hyperplane>, raw: RawConstraint) -> bool {
    exists|k: int| 0 <= k < cons.len() && rep_con(raw, hyps, #[trigger] cons[k])
}

/// Message for a constraint of the wrong arity.
/// Trusted: std `format!`, which writes the literal pieces and the numbers
/// in decimal (`usize`'s `Display`) between them.
#[verifier::external_body]
fn msg_arity(pi: usize, ci: usize, d: usize, got: usize) -> (r: String)
    ensures
        r@ == crate::text::arity_text(pi as int, ci as int, d as int, got as int),
{
    format!("polytope {pi} constraint {ci}: expected {d} coefficients, got {got}")
}

/// Message for an infeasible constraint `0 ≤ b`.
/// Trusted: std `format!`, which writes the literal pieces, the indices in
/// decimal (`usize`'s `Display`) and the text of `b` between them.
#[verifier::external_body]
fn msg_infeasible(pi: usize, ci: usize, b: String) -> (r: String)
    ensures
        r@ == crate::text::infeasible_text(pi as int, ci as int, b@),
{
    format!("polytope {pi} constraint {ci}: 0 ≤ {b} is infeasible")
}

/// Message for a constraint whose normal is zero.
/// Trusted: std `format!`, which writes the literal pieces and the indices
/// in decimal (`usize`'s `Display`) between them.
#[verifier::external_body]
fn msg_zero_normal(pi: usize, ci: usize) -> (r: String)
    ensures
        r@ == crate::text::zero_normal_text(pi as int, ci as int),
{
    format!("polytope {pi} constraint {ci}: the normal is zero")
}

/// Entrywise equality of two integer vectors.
pub fn zs_eq(a: &[Z], b: &[Z]) -> (r: bool)
    requires
        all_wf(a@),
        all_wf(b@),
    ensures
        r == (zvals(a@) == zvals(b@)),
{
    if a.len() != b.len() {
        proof {
            assert(zvals(a@).len() != zvals(b@).len());
        }
        return false;
    }
    let mut i: usize = 0;
    while i < a.len()
        invariant
            i <= a@.len(),
            a@.len() == b@.len(),
            all_wf(a@),
            all_wf(b@),
            forall|j: int| 0 <= j < i ==> (#[trigger] a@[j])@ == b@[j]@,
        decreases a@.len() - i,
    {
        if !a[i].eq_z(&b[i]) {
            proof {
                assert(zvals(a@)[i as int] != zvals(b@)[i as int]);
            }
            return false;
        }
        i = i + 1;
    }
    proof {
        assert(zvals(a@) =~= zvals(b@));
    }
    true
}

/// Index of a hyperplane with the same values, if any.
fn find_hyp(hyps: &Vec<Hyperplane>, h: &Hyperplane) -> (r: Option<usize>)
    requires
        forall|t: int| 0 <= t < hyps@.len() ==> all_wf((#[trigger] hyps@[t]).n@) && hyps@[t].b.wf(),
        all_wf(h.n@),
        h.b.wf(),
    ensures
        r matches Some(t) ==> t < hyps@.len() && same_hyp(hyps@[t as int], *h),
        r is None ==> forall|t: int| 0 <= t < hyps@.len() ==> !same_hyp(#[trigger] hyps@[t], *h),
{
    let mut t: usize = 0;
    while t < hyps.len()
        invariant
            t <= hyps@.len(),
            forall|u: int| 0 <= u < hyps@.len() ==> all_wf((#[trigger] hyps@[u]).n@) && hyps@[u].b.wf(),
            all_wf(h.n@),
            h.b.wf(),
            forall|u: int| 0 <= u < t ==> !same_hyp(#[trigger] hyps@[u], *h),
        decreases hyps@.len() - t,
    {
        let g = &hyps[t];
        if g.b.eq_z(&h.b) && zs_eq(g.n.as_slice(), h.n.as_slice()) {
            return Some(t);
        }
        t = t + 1;
    }
    None
}

impl Problem {
    pub open spec fn wf(&self) -> bool {
        &&& forall|h: int| 0 <= h < self.hyps@.len() ==> (#[trigger] self.hyps@[h]).wf(self.d as nat)
        &&& forall|i: int| 0 <= i < self.polys@.len() ==> (#[trigger] self.polys@[i]).wf(self.hyps@.len())
        &&& self.fast matches Some(f) ==> f.mirrors(self.d as nat, self.hyps@)
    }

    /// What `from_raw` promises beyond well-formedness: every hyperplane is
    /// canonical and they are pairwise distinct.
    pub open spec fn canonical_hyps(&self) -> bool {
        &&& forall|h: int| 0 <= h < self.hyps@.len() ==> (#[trigger] self.hyps@[h]).canonical()
        &&& forall|h1: int, h2: int|
            0 <= h1 < h2 < self.hyps@.len() ==> !same_hyp(#[trigger] self.hyps@[h1], #[trigger] self.hyps@[h2])
    }

    /// `n_h·x − b_h` at `p`, scaled by `den(p)`.
    pub open spec fn value(&self, h: int, p: Point) -> int {
        self.hyps@[h].value_at(p)
    }

    /// Build the shared arrangement from raw polytopes.  Constraints with a
    /// zero normal are rejected (`b ≥ 0` would be trivially true, `b < 0`
    /// infeasible) with an error.
    #[verifier::spinoff_prover]
    #[verifier::rlimit(60)]
    pub fn from_raw(d: usize, raw: &[Vec<RawConstraint>]) -> (r: Result<Problem, String>)
        requires
            forall|pi: int, ci: int|
                0 <= pi < raw@.len() && 0 <= ci < raw@[pi]@.len() ==> (#[trigger] raw@[pi]@[ci]).wf(),
        ensures
            r is Err <==> exists|pi: int, ci: int|
                0 <= pi < raw@.len() && 0 <= ci < raw@[pi]@.len() && rejected(#[trigger] raw@[pi]@[ci], d as nat),
            r matches Ok(p) ==> all_used(p.polys@, p.hyps@.len() as int),
            r matches Ok(p) ==> forall|i: int|
                0 <= i < raw@.len() ==> first_occurrence_order(raw@[i]@, p.hyps@, (#[trigger] p.polys@[i]).cons@),
            r matches Ok(p) ==> {
                &&& p.wf()
                &&& p.canonical_hyps()
                &&& p.d == d
                &&& p.polys@.len() == raw@.len()
                &&& forall|i: int| 0 <= i < raw@.len() ==> {
                    &&& (#[trigger] p.polys@[i]).id == i
                    &&& forall|k: int| 0 <= k < p.polys@[i].pos@.len() ==> #[trigger] p.polys@[i].pos@[k] == k
                    &&& forall|k1: int, k2: int|
                        0 <= k1 < k2 < p.polys@[i].cons@.len() ==> #[trigger] p.polys@[i].cons@[k1]
                            != #[trigger] p.polys@[i].cons@[k2]
                    &&& forall|ci: int|
                        0 <= ci < raw@[i]@.len() && !zero_normal(#[trigger] raw@[i]@[ci]) ==> has_image(
                            p.polys@[i].cons@,
                            p.hyps@,
                            raw@[i]@[ci],
                        )
                    &&& forall|k: int|
                        0 <= k < p.polys@[i].cons@.len() ==> has_source(
                            raw@[i]@,
                            raw@[i]@.len() as int,
                            p.hyps@,
                            #[trigger] p.polys@[i].cons@[k],
                        )
                }
            },
    {
        let mut hyps: Vec<Hyperplane> = Vec::new();
        let mut polys: Vec<Polytope> = Vec::new();
        let mut pi: usize = 0;
        proof {
            reveal(all_used);
        }
        while pi < raw.len()
            invariant
                pi <= raw@.len(),
                polys@.len() == pi,
                forall|pj: int, ci: int|
                    0 <= pj < raw@.len() && 0 <= ci < raw@[pj]@.len() ==> (#[trigger] raw@[pj]@[ci]).wf(),
                forall|pj: int, ci: int|
                    0 <= pj < pi && 0 <= ci < raw@[pj]@.len() ==> !rejected(#[trigger] raw@[pj]@[ci], d as nat),
                forall|h: int| 0 <= h < hyps@.len() ==> (#[trigger] hyps@[h]).wf(d as nat) && hyps@[h].canonical(),
                forall|h1: int, h2: int|
                    0 <= h1 < h2 < hyps@.len() ==> !same_hyp(#[trigger] hyps@[h1], #[trigger] hyps@[h2]),
                all_used(polys@, hyps@.len() as int),
                forall|i: int| 0 <= i < pi ==> first_occurrence_order(raw@[i]@, hyps@, (#[trigger] polys@[i]).cons@),
                forall|i: int| 0 <= i < pi ==> {
                    &&& (#[trigger] polys@[i]).wf(hyps@.len())
                    &&& polys@[i].id == i
                    &&& forall|k: int| 0 <= k < polys@[i].pos@.len() ==> #[trigger] polys@[i].pos@[k] == k
                    &&& forall|k1: int, k2: int|
                        0 <= k1 < k2 < polys@[i].cons@.len() ==> #[trigger] polys@[i].cons@[k1]
                            != #[trigger] polys@[i].cons@[k2]
                    &&& forall|ci: int|
                        0 <= ci < raw@[i]@.len() && !zero_normal(#[trigger] raw@[i]@[ci]) ==> has_image(polys@[i].cons@, hyps@, raw@[i]@[ci])
                    &&& forall|k: int|
                        0 <= k < polys@[i].cons@.len() ==> has_source(raw@[i]@, raw@[i]@.len() as int, hyps@, #[trigger] polys@[i].cons@[k])
                },
            decreases raw@.len() - pi,
        {
            let rc = &raw[pi];
            let mut cons: Vec<Constraint> = Vec::new();
            let mut ci: usize = 0;
            let ghost hyps0 = hyps@;
            let ghost mut srcs: Seq<int> = Seq::empty();
            proof {
                reveal(cons_cover);
                reveal(order_inv);
            }
            while ci < rc.len()
                invariant
                    order_inv(rc@, hyps@, cons@, srcs, ci as int),
                    pi < raw@.len(),
                    rc == raw@[pi as int],
                    ci <= rc@.len(),
                    polys@.len() == pi,
                    forall|pj: int, cj: int|
                        0 <= pj < raw@.len() && 0 <= cj < raw@[pj]@.len() ==> (#[trigger] raw@[pj]@[cj]).wf(),
                    forall|cj: int| 0 <= cj < ci ==> !rejected(#[trigger] rc@[cj], d as nat),
                    forall|h: int| 0 <= h < hyps@.len() ==> (#[trigger] hyps@[h]).wf(d as nat) && hyps@[h].canonical(),
                    forall|h1: int, h2: int|
                        0 <= h1 < h2 < hyps@.len() ==> !same_hyp(#[trigger] hyps@[h1], #[trigger] hyps@[h2]),
                    hyps0.len() <= hyps@.len(),
                    forall|h: int| 0 <= h < hyps0.len() ==> #[trigger] hyps@[h] == hyps0[h],
                    all_used(polys@, hyps0.len() as int),
                    cons_cover(cons@, hyps0.len() as int, hyps@.len() as int),
                    forall|k: int| 0 <= k < cons@.len() ==> (#[trigger] cons@[k]).wf(hyps@.len()),
                    forall|k1: int, k2: int|
                        0 <= k1 < k2 < cons@.len() ==> #[trigger] cons@[k1] != #[trigger] cons@[k2],
                    forall|cj: int|
                        0 <= cj < ci && !zero_normal(#[trigger] rc@[cj]) ==> has_image(cons@, hyps@, rc@[cj]),
                    forall|k: int|
                        0 <= k < cons@.len() ==> has_source(rc@, ci as int, hyps@, #[trigger] cons@[k]),
                decreases rc@.len() - ci,
            {
                let c = &rc[ci];
                proof {
                    assert(c.wf());
                }
                if c.a.len() != d {
                    proof {
                        assert(rejected(raw@[pi as int]@[ci as int], d as nat));
                    }
                    return Err(msg_arity(pi, ci, d, c.a.len()));
                }
                let ghost hyps1 = hyps@;
                match canonicalise(c.a.as_slice(), &c.b) {
                    Some((h, o)) => {
                        let idx = match find_hyp(&hyps, &h) {
                            Some(t) => t,
                            None => {
                                hyps.push(h);
                                proof {
                                    assert forall|h1: int, h2: int|
                                        0 <= h1 < h2 < hyps@.len() implies !same_hyp(
                                        #[trigger] hyps@[h1],
                                        #[trigger] hyps@[h2],
                                    ) by {
                                        if h2 == hyps@.len() - 1 {
                                            assert(!same_hyp(hyps1[h1], h));
                                        } else {
                                            assert(hyps@[h1] == hyps1[h1]);
                                            assert(hyps@[h2] == hyps1[h2]);
                                        }
                                    }
                                }
                                (hyps.len() - 1) as usize
                            },
                        };
                        let con = Constraint { h: idx, o };
                        proof {
                            assert(hyps1.len() <= hyps@.len());
                            crate::num::lemma_lex_sign_range(qnums(c.a@));
                            assert(con.wf(hyps@.len()));
                            // representations survive the growth of the list
                            assert(same_hyp(hyps@[idx as int], h));
                            assert(represents(c.a@, c.b, hyps@[idx as int], o as int)) by {
                                let (cc, e) = choose|cc: int, e: int|
                                    cc > 0 && e > 0 && #[trigger] (cc * e) > 0 && c.b.num@ * e == cc * (o as int) * h.b@ * c.b.den@
                                        && forall|i: int|
                                        0 <= i < c.a@.len() ==> #[trigger] (c.a@[i].num@ * e) == cc * (o as int) * h.n@[i]@
                                            * c.a@[i].den@;
                                assert forall|i: int| 0 <= i < c.a@.len() implies #[trigger] (c.a@[i].num@ * e) == cc * (
                                o as int) * hyps@[idx as int].n@[i]@ * c.a@[i].den@ by {
                                    assert(zvals(hyps@[idx as int].n@)[i] == zvals(h.n@)[i]);
                                }
                            }
                            assert(rep_con(*c, hyps@, con));
                            assert forall|k: int| 0 <= k < cons@.len() implies has_source(rc@, ci as int, hyps@, #[trigger] cons@[k]) by {
                                let cj = choose|cj: int| 0 <= cj < ci && rep_con(#[trigger] rc@[cj], hyps1, cons@[k]);
                                assert(hyps@[cons@[k].h as int] == hyps1[cons@[k].h as int]);
                                assert(rep_con(rc@[cj], hyps@, cons@[k]));
                            }
                            assert forall|cj: int|
                                0 <= cj < ci && !zero_normal(#[trigger] rc@[cj]) implies has_image(cons@, hyps@, rc@[cj]) by {
                                let k = choose|k: int| 0 <= k < cons@.len() && rep_con(rc@[cj], hyps1, #[trigger] cons@[k]);
                                assert(hyps@[cons@[k].h as int] == hyps1[cons@[k].h as int]);
                                assert(rep_con(rc@[cj], hyps@, cons@[k]));
                            }
                        }
                        let mut present = false;
                        let mut t: usize = 0;
                        while t < cons.len()
                            invariant
                                t <= cons@.len(),
                                present ==> exists|u: int| 0 <= u < cons@.len() && cons@[u] == con,
                                !present ==> forall|u: int| 0 <= u < t ==> cons@[u] != con,
                            decreases cons@.len() - t,
                        {
                            if cons[t] == con {
                                present = true;
                            }
                            t = t + 1;
                        }
                        let ghost cons0 = cons@;
                        if !present {
                            cons.push(con);
                        }
                        proof {
                            lemma_order_grow(rc@, hyps1, hyps@, cons0, srcs, ci as int);
                            assert forall|cj: int| 0 <= cj < ci implies has_image(cons0, hyps@, #[trigger] rc@[cj]) by {
                                assert(!rejected(rc@[cj], d as nat));
                            }
                            assert(!present ==> forall|u: int| 0 <= u < cons0.len() ==> cons0[u] != con);
                            srcs = lemma_order_step(rc@, hyps@, cons0, srcs, ci as int, con, present);
                            assert(cons@ == (if present { cons0 } else { cons0.push(con) }));
                            reveal(cons_cover);
                            assert forall|h: int| hyps0.len() <= h < hyps@.len() implies #[trigger] con_on(cons@, h) by {
                                if h == idx {
                                    if present {
                                        let u = choose|u: int| 0 <= u < cons@.len() && cons@[u] == con;
                                        assert(cons@[u].h == h);
                                    } else {
                                        assert(cons@[cons0.len() as int].h == h);
                                    }
                                } else {
                                    assert(con_on(cons0, h));
                                    let k = choose|k: int| 0 <= k < cons0.len() && #[trigger] cons0[k].h == h;
                                    assert(cons@[k] == cons0[k]);
                                }
                            }
                            assert forall|k: int| 0 <= k < cons@.len() implies (#[trigger] cons@[k]).wf(hyps@.len()) by {
                                if k < cons0.len() {
                                    assert(cons@[k] == cons0[k]);
                                    assert(cons0[k].wf(hyps1.len()));
                                }
                            }
                            assert forall|k1: int, k2: int|
                                0 <= k1 < k2 < cons@.len() implies #[trigger] cons@[k1] != #[trigger] cons@[k2] by {
                                if k2 == cons0.len() {
                                    assert(cons@[k1] == cons0[k1]);
                                }
                            }
                            assert forall|k: int| 0 <= k < cons@.len() implies has_source(rc@, ci + 1, hyps@, #[trigger] cons@[k]) by {
                                if k < cons0.len() {
                                    assert(cons@[k] == cons0[k]);
                                    let cj = choose|cj: int| 0 <= cj < ci && rep_con(#[trigger] rc@[cj], hyps@, cons0[k]);
                                    assert(rep_con(rc@[cj], hyps@, cons@[k]));
                                } else {
                                    assert(rep_con(rc@[ci as int], hyps@, cons@[k]));
                                }
                            }
                            assert forall|cj: int|
                                0 <= cj < ci + 1 && !zero_normal(#[trigger] rc@[cj]) implies has_image(cons@, hyps@, rc@[cj]) by {
                                if cj < ci {
                                    let k = choose|k: int| 0 <= k < cons0.len() && rep_con(rc@[cj], hyps@, #[trigger] cons0[k]);
                                    assert(cons@[k] == cons0[k]);
                                } else if present {
                                    let u = choose|u: int| 0 <= u < cons@.len() && cons@[u] == con;
                                    assert(rep_con(rc@[cj], hyps@, cons@[u]));
                                } else {
                                    assert(cons@[cons0.len() as int] == con);
                                }
                            }
                        }
                    },
                    None => {
                        proof {
                            assert(rejected(raw@[pi as int]@[ci as int], d as nat));
                        }
                        if c.b.signum() < 0 {
                            return Err(msg_infeasible(pi, ci, c.b.to_string()));
                        }
                        return Err(msg_zero_normal(pi, ci));
                    },
                }
                ci = ci + 1;
            }
            let mut pos: Vec<usize> = Vec::new();
            let mut k: usize = 0;
            while k < cons.len()
                invariant
                    k <= cons@.len(),
                    pos@.len() == k,
                    forall|u: int| 0 <= u < k ==> #[trigger] pos@[u] == u,
                decreases cons@.len() - k,
            {
                pos.push(k);
                k = k + 1;
            }
            let ghost polys0 = polys@;
            let ghost cfin = cons@;
            polys.push(Polytope { cons, id: pi, pos });
            proof {
                assert(first_occurrence_order(raw@[pi as int]@, hyps@, polys@[pi as int].cons@));
                assert forall|i: int| 0 <= i < pi + 1 implies first_occurrence_order(raw@[i]@, hyps@, (#[trigger] polys@[i]).cons@) by {
                    if i < pi {
                        assert(polys@[i] == polys0[i]);
                        assert(first_occurrence_order(raw@[i]@, hyps0, polys0[i].cons@));
                        let sr = choose|sr: Seq<int>| #[trigger] order_inv(raw@[i]@, hyps0, polys0[i].cons@, sr, raw@[i]@.len() as int);
                        assert(polys0[i].wf(hyps0.len()));
                        assert forall|k: int| 0 <= k < polys0[i].cons@.len() implies (#[trigger] polys0[i].cons@[k]).wf(hyps0.len()) by {}
                        lemma_order_grow(raw@[i]@, hyps0, hyps@, polys0[i].cons@, sr, raw@[i]@.len() as int);
                    }
                }
                reveal(all_used);
                reveal(cons_cover);
                assert forall|h: int| 0 <= h < hyps@.len() implies #[trigger] hyp_used(polys@, h) by {
                    if h < hyps0.len() {
                        assert(hyp_used(polys0, h));
                        let (i, k) = choose|i: int, k: int|
                            0 <= i < polys0.len() && 0 <= k < polys0[i].cons@.len() && #[trigger] polys0[i].cons@[k].h == h;
                        assert(polys@[i] == polys0[i]);
                    } else {
                        assert(con_on(cfin, h));
                        let k = choose|k: int| 0 <= k < cfin.len() && #[trigger] cfin[k].h == h;
                        assert(polys@[pi as int].cons@[k].h == h);
                    }
                }
                assert(all_used(polys@, hyps@.len() as int));
                assert forall|i: int| 0 <= i < pi + 1 implies {
                    &&& (#[trigger] polys@[i]).wf(hyps@.len())
                    &&& polys@[i].id == i
                    &&& forall|k: int| 0 <= k < polys@[i].pos@.len() ==> #[trigger] polys@[i].pos@[k] == k
                    &&& forall|k1: int, k2: int|
                        0 <= k1 < k2 < polys@[i].cons@.len() ==> #[trigger] polys@[i].cons@[k1]
                            != #[trigger] polys@[i].cons@[k2]
                    &&& forall|ci: int|
                        0 <= ci < raw@[i]@.len() && !zero_normal(#[trigger] raw@[i]@[ci]) ==> has_image(polys@[i].cons@, hyps@, raw@[i]@[ci])
                    &&& forall|k: int|
                        0 <= k < polys@[i].cons@.len() ==> has_source(raw@[i]@, raw@[i]@.len() as int, hyps@, #[trigger] polys@[i].cons@[k])
                } by {
                    if i < pi {
                        assert(polys@[i] == polys0[i]);
                        let pc = polys@[i].cons@;
                        assert forall|k: int| 0 <= k < pc.len() implies (#[trigger] pc[k]).wf(hyps@.len()) by {
                            assert(pc[k].wf(hyps0.len()));
                        }
                        assert forall|ci: int|
                            0 <= ci < raw@[i]@.len() && !zero_normal(#[trigger] raw@[i]@[ci]) implies has_image(pc, hyps@, raw@[i]@[ci]) by {
                            let k = choose|k: int| 0 <= k < pc.len() && rep_con(raw@[i]@[ci], hyps0, #[trigger] pc[k]);
                            assert(hyps@[pc[k].h as int] == hyps0[pc[k].h as int]);
                            assert(rep_con(raw@[i]@[ci], hyps@, pc[k]));
                        }
                        assert forall|k: int| 0 <= k < pc.len() implies has_source(raw@[i]@, raw@[i]@.len() as int, hyps@, #[trigger] pc[k]) by {
                            let ci = choose|ci: int| 0 <= ci < raw@[i]@.len() && rep_con(#[trigger] raw@[i]@[ci], hyps0, pc[k]);
                            assert(hyps@[pc[k].h as int] == hyps0[pc[k].h as int]);
                            assert(rep_con(raw@[i]@[ci], hyps@, pc[k]));
                        }
                    }
                }
            }
            pi = pi + 1;
        }
        let mut p = Problem { d, hyps, polys, fast: None };
        p.build_fast();
        Ok(p)
    }

    /// Builds the `i64` mirror when every entry is below `2^31` in magnitude.
    pub fn build_fast(&mut self)
        requires
            old(self).wf(),
        ensures
            final(self).wf(),
            final(self).d == old(self).d,
            final(self).hyps == old(self).hyps,
            final(self).polys == old(self).polys,
            final(self).fast is None ==> old(self).fast is None,
            all_small(old(self).hyps@, old(self).d as nat) ==> final(self).fast is Some,
            !all_small(old(self).hyps@, old(self).d as nat) ==> *final(self) == *old(self),
    {
        let d = self.d;
        let hyps = &self.hyps;
        let mut n: Vec<i64> = Vec::new();
        let mut b: Vec<i64> = Vec::new();
        let mut h: usize = 0;
        while h < hyps.len()
            invariant
                h <= hyps@.len(),
                self.wf(),
                hyps == &self.hyps,
                d == self.d,
                forall|g: int| 0 <= g < hyps@.len() ==> (#[trigger] hyps@[g]).wf(d as nat),
                n@.len() == h * d,
                b@.len() == h,
                flat_mirrored(n@, hyps@, d as int),
                forall|g: int| 0 <= g < h ==> small_entry(b@[g] as int) && b@[g] as int == (#[trigger] hyps@[g]).b@,
                forall|g: int, k: int| 0 <= g < h && 0 <= k < d ==> small_entry((#[trigger] hyps@[g].n@[k])@),
            decreases hyps@.len() - h,
        {
            let hy = &hyps[h];
            proof {
                assert(hy.wf(d as nat));
            }
            let mut k: usize = 0;
            while k < d
                invariant
                    k <= d,
                    h < hyps@.len(),
                    self.wf(),
                    hyps == &self.hyps,
                    d == self.d,
                    hy == hyps@[h as int],
                    hy.wf(d as nat),
                    n@.len() == h * d + k,
                    flat_mirrored(n@, hyps@, d as int),
                    forall|k2: int| 0 <= k2 < k ==> small_entry((#[trigger] hy.n@[k2])@),
                decreases d - k,
            {
                match &hy.n[k] {
                    Z::S(v) => {
                        if -FAST_ENTRY_BOUND < *v && *v < FAST_ENTRY_BOUND {
                            let ghost before = n@;
                            n.push(*v as i64);
                            proof {
                                lemma_flat_index(h as int, k as int, d as int);
                                assert(hy.n@[k as int]@ == *v as int);
                                assert forall|i: int| 0 <= i < n@.len() implies small_entry(#[trigger] n@[i] as int)
                                    && n@[i] as int == hyps@[i / (d as int)].n@[i % (d as int)]@ by {
                                    if i < before.len() {
                                        assert(n@[i] == before[i]);
                                    }
                                }
                            }
                        } else {
                            proof {
                                assert(!small_entry(hy.n@[k as int]@));
                                assert(!all_small(self.hyps@, d as nat));
                            }
                            return;
                        }
                    },
                    _ => {
                        proof {
                            assert(!crate::num::in_i128(hy.n@[k as int]@));
                            assert(!small_entry(hy.n@[k as int]@));
                            assert(!all_small(self.hyps@, d as nat));
                        }
                        return;
                    },
                }
                k = k + 1;
            }
            match &hy.b {
                Z::S(v) => {
                    if -FAST_ENTRY_BOUND < *v && *v < FAST_ENTRY_BOUND {
                        b.push(*v as i64);
                    } else {
                        proof {
                            assert(!small_entry(hy.b@));
                            assert(!all_small(self.hyps@, d as nat));
                        }
                        return;
                    }
                },
                _ => {
                    proof {
                        assert(!crate::num::in_i128(hy.b@));
                        assert(!small_entry(hy.b@));
                        assert(!all_small(self.hyps@, d as nat));
                    }
                    return;
                },
            }
            proof {
                assert(h * d + d == (h + 1) * d) by (nonlinear_arith);
                assert(small_entry(hyps@[h as int].b@));
            }
            h = h + 1;
        }
        let total = n.len();
        proof {
            assert(total <= usize::MAX);
        }
        self.fast = Some(FastHyps { n, b });
    }
}

/// `sign(n_h·x − b_h) · o`: positive means the constraint is violated.
pub open spec fn con_sign(ev: Seq<int>, c: Constraint) -> int {
    sign_of(ev[c.h as int]) * c.o
}

/// Some constraint of the polytope is violated.
pub open spec fn outside(poly: Polytope, ev: Seq<int>) -> bool {
    exists|k: int| 0 <= k < poly.cons@.len() && con_sign(ev, #[trigger] poly.cons@[k]) > 0
}

/// The tight constraints among the first `n`, in order, with their global
/// positions.
pub open spec fn tights(poly: Polytope, ev: Seq<int>, n: int) -> Seq<Tight>
    decreases n,
{
    if n <= 0 {
        Seq::empty()
    } else {
        let prev = tights(poly, ev, n - 1);
        if con_sign(ev, poly.cons@[n - 1]) == 0 {
            prev.push(Tight { pos: poly.pos@[n - 1], c: poly.cons@[n - 1] })
        } else {
            prev
        }
    }
}

/// `r` lists, ascending, exactly the indices where `ev` vanishes.
pub open spec fn zero_indices(r: Seq<usize>, ev: Seq<int>) -> bool {
    &&& forall|t: int| 0 <= t < r.len() ==> (#[trigger] r[t]) < ev.len() && ev[r[t] as int] == 0
    &&& forall|t1: int, t2: int| 0 <= t1 < t2 < r.len() ==> #[trigger] r[t1] < #[trigger] r[t2]
    &&& forall|h: int| 0 <= h < ev.len() && ev[h] == 0 ==> exists|t: int| 0 <= t < r.len() && #[trigger] r[t] == h
}

/// Indices of the zero entries, ascending.
fn zero_positions(ev: &[Z]) -> (r: Vec<usize>)
    requires
        all_wf(ev@),
    ensures
        zero_indices(r@, zvals(ev@)),
{
    let mut out: Vec<usize> = Vec::new();
    let mut h: usize = 0;
    while h < ev.len()
        invariant
            h <= ev@.len(),
            all_wf(ev@),
            forall|t: int| 0 <= t < out@.len() ==> (#[trigger] out@[t]) < h && zvals(ev@)[out@[t] as int] == 0,
            forall|t1: int, t2: int| 0 <= t1 < t2 < out@.len() ==> #[trigger] out@[t1] < #[trigger] out@[t2],
            forall|g: int| 0 <= g < h && zvals(ev@)[g] == 0 ==> exists|t: int| 0 <= t < out@.len() && #[trigger] out@[t] == g,
        decreases ev@.len() - h,
    {
        if ev[h].is_zero() {
            let ghost before = out@;
            out.push(h);
            proof {
                assert forall|g: int| 0 <= g < h + 1 && zvals(ev@)[g] == 0 implies exists|t: int|
                    0 <= t < out@.len() && #[trigger] out@[t] == g by {
                    if g < h {
                        let t = choose|t: int| 0 <= t < before.len() && #[trigger] before[t] == g;
                        assert(out@[t] == g);
                    } else {
                        assert(out@[before.len() as int] == g);
                    }
                }
            }
        }
        h = h + 1;
    }
    out
}

impl Problem {
    /// Values `n_h·x − b_h` (scaled by `den(p)`) of all hyperplanes at `p`.
    pub open spec fn values(&self, p: Point) -> Seq<int> {
        Seq::new(self.hyps@.len(), |h: int| self.value(h, p))
    }

    /// Raw constraints of polytope `i` (for building sub-problems).
    pub fn raw_of(&self, i: usize) -> (r: Vec<RawConstraint>)
        requires
            self.wf(),
            i < self.polys@.len(),
        ensures
            r@.len() == self.polys@[i as int].cons@.len(),
            forall|k: int| 0 <= k < r@.len() ==> {
                let c = self.polys@[i as int].cons@[k];
                let h = self.hyps@[c.h as int];
                &&& (#[trigger] r@[k]).wf()
                &&& r@[k].a@.len() == self.d
                &&& r@[k].b.den@ == 1 && r@[k].b.num@ == c.o * h.b@
                &&& forall|j: int| 0 <= j < self.d ==> (#[trigger] r@[k].a@[j]).den@ == 1 && r@[k].a@[j].num@ == c.o * h.n@[j]@
            },
    {
        let poly = &self.polys[i];
        let mut out: Vec<RawConstraint> = Vec::new();
        let mut k: usize = 0;
        while k < poly.cons.len()
            invariant
                self.wf(),
                i < self.polys@.len(),
                poly == self.polys@[i as int],
                k <= poly.cons@.len(),
                out@.len() == k,
                forall|t: int| 0 <= t < k ==> {
                    let c = poly.cons@[t];
                    let h = self.hyps@[c.h as int];
                    &&& (#[trigger] out@[t]).wf()
                    &&& out@[t].a@.len() == self.d
                    &&& out@[t].b.den@ == 1 && out@[t].b.num@ == c.o * h.b@
                    &&& forall|j: int| 0 <= j < self.d ==> (#[trigger] out@[t].a@[j]).den@ == 1 && out@[t].a@[j].num@ == c.o * h.n@[j]@
                },
            decreases poly.cons@.len() - k,
        {
            let c = poly.cons[k];
            proof {
                assert(c.wf(self.hyps@.len()));
            }
            let h = &self.hyps[c.h];
            proof {
                assert(h.wf(self.d as nat));
            }
            let o = Z::from_i64(c.o as i64);
            let mut a: Vec<Q> = Vec::new();
            let mut j: usize = 0;
            while j < h.n.len()
                invariant
                    j <= h.n@.len(),
                    h.wf(self.d as nat),
                    o.wf(),
                    o@ == c.o,
                    a@.len() == j,
                    forall|t: int| 0 <= t < j ==> (#[trigger] a@[t]).wf() && a@[t].den@ == 1 && a@[t].num@ == c.o * h.n@[t]@,
                decreases h.n@.len() - j,
            {
                a.push(Q::from_z(mul_zz(&h.n[j], &o)));
                proof {
                    assert(h.n@[j as int]@ * c.o == c.o * h.n@[j as int]@) by (nonlinear_arith);
                }
                j = j + 1;
            }
            let b = Q::from_z(mul_zz(&h.b, &o));
            proof {
                assert(h.b@ * c.o == c.o * h.b@) by (nonlinear_arith);
            }
            out.push(RawConstraint { a, b });
            k = k + 1;
        }
        out
    }

    /// Indices of hyperplanes through `p`, ascending.
    pub fn hyperplanes_through(&self, p: &Point) -> (r: Vec<usize>)
        requires
            self.wf(),
            p.wf(),
            p.num@.len() == self.d,
        ensures
            zero_indices(r@, self.values(*p)),
    {
        let ev = self.evals(p);
        proof {
            assert(zvals(ev@) =~= self.values(*p));
        }
        zero_positions(ev.as_slice())
    }

    /// `eval` of every hyperplane at `p`: the one scan per vertex that feeds
    /// `H_v`, the polytope classification and the ratio tests.
    pub fn evals(&self, p: &Point) -> (r: Vec<Z>)
        requires
            self.wf(),
            p.wf(),
            p.num@.len() == self.d,
        ensures
            r@.len() == self.hyps@.len(),
            all_wf(r@),
            forall|h: int| 0 <= h < r@.len() ==> (#[trigger] r@[h])@ == self.value(h, *p),
    {
        let d = self.d;
        if let Some(f) = &self.fast {
            if d <= 0xFFFF_FFFF {
                if let Some((num, den)) = small_point(p) {
                    let mut out: Vec<Z> = Vec::new();
                    let mut h: usize = 0;
                    while h < self.hyps.len()
                        invariant
                            self.wf(),
                            self.fast == Some(*f),
                            d == self.d,
                            d <= 0xFFFF_FFFF,
                            p.wf(),
                            p.num@.len() == d,
                            num@.len() == d,
                            den as int == p.den@,
                            forall|i: int| 0 <= i < d ==> (#[trigger] num@[i]) as int == p.num@[i]@,
                            small_coord(den as int),
                            forall|i: int| 0 <= i < d ==> small_coord(#[trigger] num@[i] as int),
                            h <= self.hyps@.len(),
                            out@.len() == h,
                            all_wf(out@),
                            forall|g: int| 0 <= g < h ==> (#[trigger] out@[g])@ == self.value(g, *p),
                        decreases self.hyps@.len() - h,
                    {
                        proof {
                            assert(self.hyps@[h as int].wf(d as nat));
                        }
                        let ghost row = zvals(self.hyps@[h as int].n@);
                        let ghost pn = zvals(p.num@);
                        let mut acc: i128 = 0;
                        let mut k: usize = 0;
                        while k < d
                            invariant
                                self.wf(),
                                self.fast == Some(*f),
                                d == self.d,
                                d <= 0xFFFF_FFFF,
                                h < self.hyps@.len(),
                                row == zvals(self.hyps@[h as int].n@),
                                pn == zvals(p.num@),
                                p.num@.len() == d,
                                num@.len() == d,
                                forall|i: int| 0 <= i < d ==> (#[trigger] num@[i]) as int == p.num@[i]@,
                                forall|i: int| 0 <= i < d ==> small_coord(#[trigger] num@[i] as int),
                                k <= d,
                                acc as int == dot_prefix(row, pn, k as int),
                                -(k as int) * 0x2000_0000_0000_0000_0000_0000 <= acc as int <= (k as int)
                                    * 0x2000_0000_0000_0000_0000_0000,
                            decreases d - k,
                        {
                            proof {
                                crate::linalg::lemma_cell(h as int, k as int, d as int, self.hyps@.len() as int);
                                lemma_flat_index(h as int, k as int, d as int);
                                assert(small_entry(f.n@[h * d + k] as int));
                            }
                            let a = f.n[h * d + k] as i128;
                            let x = num[k] as i128;
                            proof {
                                assert(a as int == row[k as int]);
                                assert(x as int == pn[k as int]);
                                assert(-0x2000_0000_0000_0000_0000_0000 <= a * x <= 0x2000_0000_0000_0000_0000_0000)
                                    by (nonlinear_arith)
                                    requires
                                        -0x8000_0000 < a < 0x8000_0000,
                                        -0x4000_0000_0000_0000 < x < 0x4000_0000_0000_0000,
                                ;
                            }
                            acc = acc + a * x;
                            k = k + 1;
                        }
                        let bh = f.b[h] as i128;
                        proof {
                            assert(-0x2000_0000_0000_0000_0000_0000 <= bh * (den as i128) <= 0x2000_0000_0000_0000_0000_0000)
                                by (nonlinear_arith)
                                requires
                                    -0x8000_0000 < bh < 0x8000_0000,
                                    -0x4000_0000_0000_0000 < den < 0x4000_0000_0000_0000,
                            ;
                        }
                        out.push(Z::S(acc - bh * (den as i128)));
                        h = h + 1;
                    }
                    return out;
                }
            }
        }
        let mut out: Vec<Z> = Vec::new();
        let mut h: usize = 0;
        while h < self.hyps.len()
            invariant
                self.wf(),
                p.wf(),
                p.num@.len() == self.d,
                h <= self.hyps@.len(),
                out@.len() == h,
                all_wf(out@),
                forall|g: int| 0 <= g < h ==> (#[trigger] out@[g])@ == self.value(g, *p),
            decreases self.hyps@.len() - h,
        {
            proof {
                assert(self.hyps@[h as int].wf(self.d as nat));
            }
            out.push(self.hyps[h].eval(p));
            h = h + 1;
        }
        out
    }

    /// Indices where the evaluations vanish, ascending.
    pub fn hv_from_evals(evals: &[Z]) -> (r: Vec<usize>)
        requires
            all_wf(evals@),
        ensures
            zero_indices(r@, zvals(evals@)),
    {
        zero_positions(evals)
    }

    /// Like [`Problem::classify`] but from precomputed evaluations.
    pub fn classify_evals(&self, i: usize, evals: &[Z]) -> (r: (Side, Vec<Tight>))
        requires
            self.wf(),
            i < self.polys@.len(),
            evals@.len() == self.hyps@.len(),
            all_wf(evals@),
        ensures
            (r.0 == Side::Outside) == outside(self.polys@[i as int], zvals(evals@)),
            r.0 == Side::Outside ==> r.1@.len() == 0,
            r.0 != Side::Outside ==> r.1@ == tights(
                self.polys@[i as int],
                zvals(evals@),
                self.polys@[i as int].cons@.len() as int,
            ),
            r.0 == Side::Interior <==> (r.0 != Side::Outside && r.1@.len() == 0),
    {
        let poly = &self.polys[i];
        let ghost ev = zvals(evals@);
        let mut tight: Vec<Tight> = Vec::new();
        let mut k: usize = 0;
        while k < poly.cons.len()
            invariant
                self.wf(),
                i < self.polys@.len(),
                poly == self.polys@[i as int],
                evals@.len() == self.hyps@.len(),
                all_wf(evals@),
                ev == zvals(evals@),
                k <= poly.cons@.len(),
                forall|t: int| 0 <= t < k ==> con_sign(ev, #[trigger] poly.cons@[t]) <= 0,
                tight@ == tights(*poly, ev, k as int),
            decreases poly.cons@.len() - k,
        {
            let c = poly.cons[k];
            proof {
                assert(c.wf(self.hyps@.len()));
            }
            let sg = evals[c.h].signum();
            let s = sg * c.o;
            if s > 0 {
                proof {
                    assert(con_sign(ev, poly.cons@[k as int]) > 0);
                }
                return (Side::Outside, Vec::new());
            }
            if s == 0 {
                tight.push(Tight { pos: poly.pos[k], c });
            }
            k = k + 1;
        }
        if tight.len() == 0 {
            (Side::Interior, tight)
        } else {
            (Side::Boundary, tight)
        }
    }

    /// Classify `p` against polytope `i`; the tight list is only meaningful
    /// when the side is `Boundary` (it is also filled for `Interior`, empty).
    pub fn classify(&self, i: usize, p: &Point) -> (r: (Side, Vec<Tight>))
        requires
            self.wf(),
            i < self.polys@.len(),
            p.wf(),
            p.num@.len() == self.d,
        ensures
            (r.0 == Side::Outside) == outside(self.polys@[i as int], self.values(*p)),
            r.0 == Side::Outside ==> r.1@.len() == 0,
            r.0 != Side::Outside ==> r.1@ == tights(
                self.polys@[i as int],
                self.values(*p),
                self.polys@[i as int].cons@.len() as int,
            ),
            r.0 == Side::Interior <==> (r.0 != Side::Outside && r.1@.len() == 0),
    {
        let poly = &self.polys[i];
        let ghost ev = self.values(*p);
        let mut tight: Vec<Tight> = Vec::new();
        let mut k: usize = 0;
        while k < poly.cons.len()
            invariant
                self.wf(),
                i < self.polys@.len(),
                poly == self.polys@[i as int],
                p.wf(),
                p.num@.len() == self.d,
                ev == self.values(*p),
                k <= poly.cons@.len(),
                forall|t: int| 0 <= t < k ==> con_sign(ev, #[trigger] poly.cons@[t]) <= 0,
                tight@ == tights(*poly, ev, k as int),
            decreases poly.cons@.len() - k,
        {
            let c = poly.cons[k];
            proof {
                assert(c.wf(self.hyps@.len()));
                assert(self.hyps@[c.h as int].wf(self.d as nat));
            }
            let e = self.hyps[c.h].eval(p);
            let s = e.signum() * c.o;
            if s > 0 {
                proof {
                    assert(con_sign(ev, poly.cons@[k as int]) > 0);
                }
                return (Side::Outside, Vec::new());
            }
            if s == 0 {
                tight.push(Tight { pos: poly.pos[k], c });
            }
            k = k + 1;
        }
        if tight.len() == 0 {
            (Side::Interior, tight)
        } else {
            (Side::Boundary, tight)
        }
    }

    /// Value `o·sign(n·r)`: `≤ 0` means direction `r` respects constraint `c`.
    pub fn dir_side(&self, c: Constraint, r: &[Z]) -> (s: i8)
        requires
            self.wf(),
            c.wf(self.hyps@.len()),
            r@.len() == self.d,
            all_wf(r@),
        ensures
            s as int == sign_of(dot_int(zvals(self.hyps@[c.h as int].n@), zvals(r@))) * c.o,
    {
        proof {
            assert(self.hyps@[c.h as int].wf(self.d as nat));
        }
        dot(self.hyps[c.h].n.as_slice(), r).signum() * c.o
    }

    /// Number of constraints over all polytopes.
    pub fn total_constraints(&self) -> (r: usize)
        requires
            cons_total(self.polys@, self.polys@.len() as int) <= usize::MAX,
        ensures
            r == cons_total(self.polys@, self.polys@.len() as int),
    {
        let mut t: usize = 0;
        let mut i: usize = 0;
        while i < self.polys.len()
            invariant
                i <= self.polys@.len(),
                cons_total(self.polys@, self.polys@.len() as int) <= usize::MAX,
                t == cons_total(self.polys@, i as int),
            decreases self.polys@.len() - i,
        {
            proof {
                lemma_cons_total_mono(self.polys@, i + 1, self.polys@.len() as int);
            }
            t = t + self.polys[i].cons.len();
            i = i + 1;
        }
        t
    }
}

/// Total number of constraints of the first `n` polytopes.
pub open spec fn cons_total(polys: Seq<Polytope>, n: int) -> nat
    decreases n,
{
    if n <= 0 {
        0
    } else {
        cons_total(polys, n - 1) + polys[n - 1].cons@.len()
    }
}

proof fn lemma_cons_total_mono(polys: Seq<Polytope>, m: int, n: int)
    requires
        0 <= m <= n,
    ensures
        cons_total(polys, m) <= cons_total(polys, n),
    decreases n - m,
{
    if m < n {
        lemma_cons_total_mono(polys, m, n - 1);
    }
}

/// Every local polytope refers back to a polytope of `big`, each of its
/// constraints to a constraint of that polytope over the same hyperplane
/// with the same orientation.
pub open spec fn restricts(small: Problem, big: Problem) -> bool {
    forall|t: int| 0 <= t < small.polys@.len() ==> {
        let lp = #[trigger] small.polys@[t];
        &&& lp.id < big.polys@.len()
        &&& forall|k: int| 0 <= k < lp.cons@.len() ==> {
            let gp = big.polys@[lp.id as int];
            &&& (#[trigger] lp.pos@[k]) < gp.cons@.len()
            &&& lp.cons@[k].o == gp.cons@[lp.pos@[k] as int].o
            &&& same_hyp(small.hyps@[lp.cons@[k].h as int], big.hyps@[gp.cons@[lp.pos@[k] as int].h as int])
        }
    }
}

/// An entry of the kept list of `local_view`: a polytope of `big` and a
/// subsequence of its constraints, all over used hyperplanes.
pub open spec fn kept_ok(e: (usize, Vec<Constraint>, Vec<usize>), big: Problem, used: Seq<bool>) -> bool {
    &&& e.0 < big.polys@.len()
    &&& e.2@.len() == e.1@.len()
    &&& forall|k: int|
        0 <= k < e.1@.len() ==> {
            &&& (#[trigger] e.2@[k]) < big.polys@[e.0 as int].cons@.len()
            &&& e.1@[k] == big.polys@[e.0 as int].cons@[e.2@[k] as int]
            &&& used[e.1@[k].h as int]
        }
}

proof fn lemma_kept_mono(e: (usize, Vec<Constraint>, Vec<usize>), big: Problem, used: Seq<bool>, used2: Seq<bool>)
    requires
        kept_ok(e, big, used),
        used.len() == used2.len(),
        forall|g: int| 0 <= g < used.len() && used[g] ==> #[trigger] used2[g],
        big.wf(),
        used.len() == big.hyps@.len(),
    ensures
        kept_ok(e, big, used2),
{
    assert forall|k: int| 0 <= k < e.1@.len() implies #[trigger] used2[e.1@[k].h as int] by {
        assert(e.2@[k] < big.polys@[e.0 as int].cons@.len());
        assert(big.polys@[e.0 as int].wf(big.hyps@.len()));
        assert(big.polys@[e.0 as int].cons@[e.2@[k] as int].wf(big.hyps@.len()));
    }
}

/// `gl` sends the hyperplanes of `small` to those of `big` in increasing
/// order, and every constraint of `small` to the hyperplane of the
/// constraint of `big` it stands for.
pub open spec fn order_kept(small: Problem, big: Problem, gl: Seq<usize>) -> bool {
    &&& gl.len() == small.hyps@.len()
    &&& forall|a: int, b: int| 0 <= a < b < gl.len() ==> #[trigger] gl[a] < #[trigger] gl[b]
    &&& forall|a: int| 0 <= a < gl.len() ==> (#[trigger] gl[a]) < big.hyps@.len()
    &&& forall|a: int| 0 <= a < gl.len() ==> same_hyp(small.hyps@[a], big.hyps@[#[trigger] gl[a] as int])
    &&& forall|t: int, k: int|
        0 <= t < small.polys@.len() && 0 <= k < small.polys@[t].cons@.len() ==> gl[(#[trigger] small.polys@[t].cons@[k]).h as int]
            == big.polys@[small.polys@[t].id as int].cons@[small.polys@[t].pos@[k] as int].h
}

/// A bounding box: `d` lower and `d` upper bounds in normal form.
pub open spec fn bbox_wf(b: (Vec<Q>, Vec<Q>), d: nat) -> bool {
    &&& b.0@.len() == d
    &&& b.1@.len() == d
    &&& all_q_wf(b.0@)
    &&& all_q_wf(b.1@)
}

impl Problem {
    /// Restricted view for the facet searches of polytope `i`: only
    /// polytopes whose bounding box meets `bbox_i`, and of those only the
    /// constraints whose hyperplane meets `bbox_i`.  Polytope `i` comes first.
    /// Hyperplane order is preserved (the lexicographic perturbation only
    /// depends on relative order).
    pub fn local_view(&self, i: usize, bboxes: &[(Vec<Q>, Vec<Q>)]) -> (r: Problem)
        requires
            self.wf(),
            i < self.polys@.len(),
            bboxes@.len() == self.polys@.len(),
            forall|j: int| 0 <= j < bboxes@.len() ==> bbox_wf(#[trigger] bboxes@[j], self.d as nat),
        ensures
            r.wf(),
            r.d == self.d,
            restricts(r, *self),
            r.polys@.len() == view_ids(*self, bboxes@, i as int, self.polys@.len() as int).len(),
            forall|t: int|
                0 <= t < r.polys@.len() ==> {
                    &&& (#[trigger] r.polys@[t]).id == view_ids(*self, bboxes@, i as int, self.polys@.len() as int)[t]
                    &&& r.polys@[t].pos@ == meeting_positions(
                        *self,
                        self.polys@[r.polys@[t].id as int].cons@,
                        bboxes@[i as int].0@,
                        bboxes@[i as int].1@,
                        self.polys@[r.polys@[t].id as int].cons@.len() as int,
                    )
                },
            exists|gl: Seq<usize>| #[trigger] order_kept(r, *self, gl),
    {
        let d = self.d;
        let nh = self.hyps.len();
        let np = self.polys.len();
        let lo_i = &bboxes[i].0;
        let hi_i = &bboxes[i].1;
        let ghost loi = lo_i@;
        let ghost hii = hi_i@;
        proof {
            assert(bbox_wf(bboxes@[i as int], d as nat));
        }
        let mut used: Vec<bool> = Vec::new();
        let mut h: usize = 0;
        while h < nh
            invariant
                h <= nh,
                used@.len() == h,
            decreases nh - h,
        {
            used.push(false);
            h = h + 1;
        }
        // (global id, kept constraints, their positions)
        let mut kept: Vec<(usize, Vec<Constraint>, Vec<usize>)> = Vec::new();
        let mut t: usize = 0;
        while t < np
            invariant
                self.wf(),
                nh == self.hyps@.len(),
                np == self.polys@.len(),
                d == self.d,
                i < np,
                bboxes@.len() == np,
                forall|j: int| 0 <= j < bboxes@.len() ==> bbox_wf(#[trigger] bboxes@[j], self.d as nat),
                lo_i == &bboxes@[i as int].0,
                hi_i == &bboxes@[i as int].1,
                t <= np,
                used@.len() == nh,
                forall|u: int| 0 <= u < kept@.len() ==> kept_ok(#[trigger] kept@[u], *self, used@),
                loi == lo_i@,
                hii == hi_i@,
                kept@.len() == view_ids(*self, bboxes@, i as int, t as int).len(),
                forall|u: int|
                    0 <= u < kept@.len() ==> {
                        &&& (#[trigger] kept@[u]).0 == view_ids(*self, bboxes@, i as int, t as int)[u]
                        &&& kept@[u].2@ == meeting_positions(
                            *self,
                            self.polys@[kept@[u].0 as int].cons@,
                            loi,
                            hii,
                            self.polys@[kept@[u].0 as int].cons@.len() as int,
                        )
                    },
            decreases np - t,
        {
            let ghost kept0 = kept@;
            let j = if t == 0 {
                i
            } else if t <= i {
                t - 1
            } else {
                t
            };
            proof {
                assert(bbox_wf(bboxes@[j as int], d as nat));
            }
            let lo_j = &bboxes[j].0;
            let hi_j = &bboxes[j].1;
            let mut apart = false;
            let mut k: usize = 0;
            while k < d
                invariant
                    k <= d,
                    lo_i@.len() == d && hi_i@.len() == d && lo_j@.len() == d && hi_j@.len() == d,
                    all_q_wf(lo_i@) && all_q_wf(hi_i@) && all_q_wf(lo_j@) && all_q_wf(hi_j@),
                    apart == boxes_apart(lo_i@, hi_i@, lo_j@, hi_j@, k as int),
                decreases d - k,
            {
                let ghost a0 = apart;
                if hi_i[k].lt(&lo_j[k]) || hi_j[k].lt(&lo_i[k]) {
                    apart = true;
                }
                proof {
                    let sep = separated_at(lo_i@, hi_i@, lo_j@, hi_j@, k as int);
                    if sep {
                        assert(boxes_apart(lo_i@, hi_i@, lo_j@, hi_j@, k + 1));
                    }
                    if a0 {
                        let c = choose|c: int| 0 <= c < k && #[trigger] separated_at(lo_i@, hi_i@, lo_j@, hi_j@, c);
                        assert(separated_at(lo_i@, hi_i@, lo_j@, hi_j@, c));
                    }
                    if boxes_apart(lo_i@, hi_i@, lo_j@, hi_j@, k + 1) {
                        let c = choose|c: int| 0 <= c < k + 1 && #[trigger] separated_at(lo_i@, hi_i@, lo_j@, hi_j@, c);
                        if c < k {
                            assert(boxes_apart(lo_i@, hi_i@, lo_j@, hi_j@, k as int));
                        }
                    }
                }
                k = k + 1;
            }
            proof {
                assert(j as int == visit_order(i as int, t as int));
                assert(bboxes@[j as int].0@ == lo_j@ && bboxes@[j as int].1@ == hi_j@);
            }
            if !apart {
                let gp = &self.polys[j];
                proof {
                    assert(gp.wf(nh as nat));
                }
                let mut cons: Vec<Constraint> = Vec::new();
                let mut pos: Vec<usize> = Vec::new();
                let mut misses = false;
                let mut p: usize = 0;
                while p < gp.cons.len()
                    invariant_except_break
                        !misses,
                    invariant
                        self.wf(),
                        nh == self.hyps@.len(),
                        d == self.d,
                        j < self.polys@.len(),
                        gp == self.polys@[j as int],
                        lo_i@.len() == d && hi_i@.len() == d,
                        all_q_wf(lo_i@) && all_q_wf(hi_i@),
                        p <= gp.cons@.len(),
                        used@.len() == nh,
                        pos@.len() == cons@.len(),
                        forall|k: int| 0 <= k < cons@.len() ==> {
                            &&& (#[trigger] pos@[k]) < gp.cons@.len()
                            &&& cons@[k] == gp.cons@[pos@[k] as int]
                        },
                        loi == lo_i@,
                        hii == hi_i@,
                        pos@ == meeting_positions(*self, gp.cons@, loi, hii, p as int),
                        forall|p2: int| 0 <= p2 < p ==> !violated_on_box(*self, #[trigger] gp.cons@[p2], loi, hii),
                    ensures
                        misses ==> p < gp.cons@.len() && violated_on_box(*self, gp.cons@[p as int], loi, hii),
                        !misses ==> p == gp.cons@.len(),
                        pos@ == meeting_positions(*self, gp.cons@, loi, hii, p as int),
                        forall|p2: int| 0 <= p2 < p ==> !violated_on_box(*self, #[trigger] gp.cons@[p2], loi, hii),
                    decreases gp.cons@.len() - p,
                {
                    let c = gp.cons[p];
                    proof {
                        assert(c.wf(nh as nat));
                        assert(self.hyps@[c.h as int].wf(d as nat));
                    }
                    let hy = &self.hyps[c.h];
                    let ghost nz = zvals(hy.n@);
                    let ghost bz = hy.b@;
                    let mut mn = Q::from_z(neg_z(&hy.b));
                    let mut mx = Q::from_z(neg_z(&hy.b));
                    let mut k: usize = 0;
                    while k < d
                        invariant
                            k <= d,
                            hy.wf(d as nat),
                            nz == zvals(hy.n@),
                            bz == hy.b@,
                            lo_i@.len() == d && hi_i@.len() == d,
                            all_q_wf(lo_i@) && all_q_wf(hi_i@),
                            mn.wf(),
                            mx.wf(),
                            equiv(qv(mn), box_range(nz, bz, lo_i@, hi_i@, k as int).0),
                            equiv(qv(mx), box_range(nz, bz, lo_i@, hi_i@, k as int).1),
                        decreases d - k,
                    {
                        proof {
                            lemma_range_dens(nz, bz, lo_i@, hi_i@, k as int);
                            assert(lo_i@[k as int].wf() && hi_i@[k as int].wf());
                        }
                        let a = Q::from_z(hy.n[k].clone());
                        let x1 = a.mul(&lo_i[k]);
                        let x2 = a.mul(&hi_i[k]);
                        let ghost (mn0, mx0) = (mn, mx);
                        let ghost p1 = pmul((nz[k as int], 1int), qv(lo_i@[k as int]));
                        let ghost p2 = pmul((nz[k as int], 1int), qv(hi_i@[k as int]));
                        proof {
                            assert(qv(a) == (nz[k as int], 1int));
                            assert(p1.1 > 0 && p2.1 > 0) by (nonlinear_arith)
                                requires
                                    p1.1 == 1 * lo_i@[k as int].den@,
                                    p2.1 == 1 * hi_i@[k as int].den@,
                                    lo_i@[k as int].den@ > 0,
                                    hi_i@[k as int].den@ > 0,
                            ;
                            crate::sweep::lemma_cong(qv(x2), p2, qv(x1), p1);
                        }
                        if x1.le(&x2) {
                            mn = mn.add(&x1);
                            mx = mx.add(&x2);
                            proof {
                                crate::laurent::lemma_entry_add(mn0, x1, mn, box_range(nz, bz, lo_i@, hi_i@, k as int).0, p1);
                                crate::laurent::lemma_entry_add(mx0, x2, mx, box_range(nz, bz, lo_i@, hi_i@, k as int).1, p2);
                            }
                        } else {
                            mn = mn.add(&x2);
                            mx = mx.add(&x1);
                            proof {
                                crate::laurent::lemma_entry_add(mn0, x2, mn, box_range(nz, bz, lo_i@, hi_i@, k as int).0, p2);
                                crate::laurent::lemma_entry_add(mx0, x1, mx, box_range(nz, bz, lo_i@, hi_i@, k as int).1, p1);
                            }
                        }
                        k = k + 1;
                    }
                    proof {
                        lemma_range_dens(nz, bz, lo_i@, hi_i@, d as int);
                        lemma_sign_stands(mn, box_range(nz, bz, lo_i@, hi_i@, d as int).0);
                        lemma_sign_stands(mx, box_range(nz, bz, lo_i@, hi_i@, d as int).1);
                        assert(con_range(*self, c, loi, hii) == box_range(nz, bz, lo_i@, hi_i@, d as int));
                        assert(c == gp.cons@[p as int]);
                    }
                    if mn.signum() <= 0 && mx.signum() >= 0 {
                        cons.push(c);
                        pos.push(p);
                    } else if mn.signum() * c.o > 0 {
                        // violated on all of bbox_i: P_j misses it
                        misses = true;
                        break;
                    }
                    // else strictly satisfied on bbox_i: never tight, never violated
                    p = p + 1;
                }
                if !misses {
                    let mut k: usize = 0;
                    while k < cons.len()
                        invariant
                            k <= cons@.len(),
                            used@.len() == nh,
                            nh == self.hyps@.len(),
                            np == self.polys@.len(),
                            self.wf(),
                            j < self.polys@.len(),
                            gp == self.polys@[j as int],
                            gp.wf(nh as nat),
                            pos@.len() == cons@.len(),
                            forall|k2: int| 0 <= k2 < cons@.len() ==> {
                                &&& (#[trigger] pos@[k2]) < gp.cons@.len()
                                &&& cons@[k2] == gp.cons@[pos@[k2] as int]
                            },
                            forall|k2: int| 0 <= k2 < k ==> used@[(#[trigger] cons@[k2]).h as int],
                            forall|u: int| 0 <= u < kept@.len() ==> kept_ok(#[trigger] kept@[u], *self, used@),
                        decreases cons@.len() - k,
                    {
                        proof {
                            assert(gp.cons@[pos@[k as int] as int].wf(nh as nat));
                        }
                        let ghost used0 = used@;
                        used.set(cons[k].h, true);
                        proof {
                            assert forall|u: int| 0 <= u < kept@.len() implies kept_ok(#[trigger] kept@[u], *self, used@) by {
                                lemma_kept_mono(kept@[u], *self, used0, used@);
                            }
                            assert forall|k2: int| 0 <= k2 < k + 1 implies used@[(#[trigger] cons@[k2]).h as int] by {
                                assert(pos@[k2] < gp.cons@.len());
                                assert(gp.cons@[pos@[k2] as int].wf(nh as nat));
                                if k2 < k {
                                    assert(used0[cons@[k2].h as int]);
                                }
                            }
                        }
                        k = k + 1;
                    }
                    let ghost pos_v = pos@;
                    kept.push((j, cons, pos));
                    proof {
                        assert(kept_ok(kept@[kept@.len() - 1], *self, used@));
                        assert(joins_view(*self, bboxes@, i as int, j as int));
                        assert(view_ids(*self, bboxes@, i as int, t + 1) == view_ids(*self, bboxes@, i as int, t as int).push(
                            j,
                        ));
                        assert(kept@[kept@.len() - 1].2@ == pos_v);
                        assert forall|u: int| 0 <= u < kept@.len() implies {
                            &&& (#[trigger] kept@[u]).0 == view_ids(*self, bboxes@, i as int, t + 1)[u]
                            &&& kept@[u].2@ == meeting_positions(
                                *self,
                                self.polys@[kept@[u].0 as int].cons@,
                                loi,
                                hii,
                                self.polys@[kept@[u].0 as int].cons@.len() as int,
                            )
                        } by {
                            if u < kept@.len() - 1 {
                                assert(kept@[u] == kept0[u]);
                            }
                        }
                    }
                } else {
                    proof {
                        assert(!joins_view(*self, bboxes@, i as int, j as int));
                    }
                }
            } else {
                proof {
                    assert(!joins_view(*self, bboxes@, i as int, j as int));
                }
            }
            t = t + 1;
        }
        // renumber the used hyperplanes, keeping their order
        let mut map: Vec<usize> = Vec::new();
        let mut hyps: Vec<Hyperplane> = Vec::new();
        let ghost mut gl: Seq<usize> = seq![];
        let mut h: usize = 0;
        while h < nh
            invariant
                self.wf(),
                nh == self.hyps@.len(),
                d == self.d,
                used@.len() == nh,
                h <= nh,
                map@.len() == h,
                hyps@.len() <= h,
                gl.len() == hyps@.len(),
                forall|a: int, b: int| 0 <= a < b < gl.len() ==> #[trigger] gl[a] < #[trigger] gl[b],
                forall|a: int| 0 <= a < gl.len() ==> (#[trigger] gl[a]) < h,
                forall|a: int| 0 <= a < gl.len() ==> same_hyp(hyps@[a], self.hyps@[#[trigger] gl[a] as int]),
                forall|g: int| 0 <= g < h && used@[g] ==> gl[#[trigger] map@[g] as int] == g,
                forall|g: int| 0 <= g < hyps@.len() ==> (#[trigger] hyps@[g]).wf(d as nat),
                forall|g: int|
                    0 <= g < h && used@[g] ==> (#[trigger] map@[g]) < hyps@.len() && same_hyp(
                        hyps@[map@[g] as int],
                        self.hyps@[g],
                    ),
            decreases nh - h,
        {
            if used[h] {
                proof {
                    assert(self.hyps@[h as int].wf(d as nat));
                }
                map.push(hyps.len());
                hyps.push(self.hyps[h].clone());
                proof {
                    gl = gl.push(h);
                    let last = hyps@[hyps@.len() - 1];
                    assert(zvals(last.n@).len() == last.n@.len());
                    assert(zvals(self.hyps@[h as int].n@).len() == self.hyps@[h as int].n@.len());
                }
            } else {
                map.push(usize::MAX);
            }
            h = h + 1;
        }
        let mut polys: Vec<Polytope> = Vec::new();
        let mut u: usize = 0;
        while u < kept.len()
            invariant
                self.wf(),
                nh == self.hyps@.len(),
                np == self.polys@.len(),
                used@.len() == nh,
                map@.len() == nh,
                forall|g: int|
                    0 <= g < nh && used@[g] ==> (#[trigger] map@[g]) < hyps@.len() && same_hyp(
                        hyps@[map@[g] as int],
                        self.hyps@[g],
                    ),
                gl.len() == hyps@.len(),
                forall|a: int| 0 <= a < gl.len() ==> (#[trigger] gl[a]) < nh,
                forall|a: int| 0 <= a < gl.len() ==> same_hyp(hyps@[a], self.hyps@[#[trigger] gl[a] as int]),
                forall|g: int| 0 <= g < nh && used@[g] ==> gl[#[trigger] map@[g] as int] == g,
                forall|t: int, k: int|
                    0 <= t < u && 0 <= k < polys@[t].cons@.len() ==> gl[(#[trigger] polys@[t].cons@[k]).h as int]
                        == self.polys@[polys@[t].id as int].cons@[polys@[t].pos@[k] as int].h,
                forall|w: int| 0 <= w < kept@.len() ==> kept_ok(#[trigger] kept@[w], *self, used@),
                u <= kept@.len(),
                polys@.len() == u,
                forall|t: int| 0 <= t < u ==> (#[trigger] polys@[t]).id == kept@[t].0 && polys@[t].pos@ == kept@[t].2@,
                forall|t: int| 0 <= t < u ==> {
                    let lp = #[trigger] polys@[t];
                    &&& lp.wf(hyps@.len())
                    &&& lp.id < np
                    &&& forall|k: int| 0 <= k < lp.cons@.len() ==> {
                        let gp = self.polys@[lp.id as int];
                        &&& (#[trigger] lp.pos@[k]) < gp.cons@.len()
                        &&& lp.cons@[k].o == gp.cons@[lp.pos@[k] as int].o
                        &&& same_hyp(hyps@[lp.cons@[k].h as int], self.hyps@[gp.cons@[lp.pos@[k] as int].h as int])
                    }
                },
            decreases kept@.len() - u,
        {
            let e = &kept[u];
            let id = e.0;
            let mut cons: Vec<Constraint> = Vec::new();
            let mut k: usize = 0;
            while k < e.1.len()
                invariant
                    self.wf(),
                    nh == self.hyps@.len(),
                    used@.len() == nh,
                    map@.len() == nh,
                    forall|g: int|
                        0 <= g < nh && used@[g] ==> (#[trigger] map@[g]) < hyps@.len() && same_hyp(
                            hyps@[map@[g] as int],
                            self.hyps@[g],
                        ),
                    e == kept@[u as int],
                    e.0 < np,
                    np == self.polys@.len(),
                    e.2@.len() == e.1@.len(),
                    forall|k2: int| 0 <= k2 < e.1@.len() ==> {
                        &&& (#[trigger] e.2@[k2]) < self.polys@[e.0 as int].cons@.len()
                        &&& e.1@[k2] == self.polys@[e.0 as int].cons@[e.2@[k2] as int]
                        &&& used@[e.1@[k2].h as int]
                    },
                    k <= e.1@.len(),
                    cons@.len() == k,
                    gl.len() == hyps@.len(),
                    forall|g: int| 0 <= g < nh && used@[g] ==> gl[#[trigger] map@[g] as int] == g,
                    forall|k2: int| 0 <= k2 < k ==> gl[(#[trigger] cons@[k2]).h as int] == e.1@[k2].h,
                    forall|k2: int| 0 <= k2 < k ==> {
                        &&& (#[trigger] cons@[k2]).wf(hyps@.len())
                        &&& cons@[k2].o == e.1@[k2].o
                        &&& same_hyp(hyps@[cons@[k2].h as int], self.hyps@[e.1@[k2].h as int])
                    },
                decreases e.1@.len() - k,
            {
                let c = e.1[k];
                proof {
                    assert(self.polys@[e.0 as int].wf(nh as nat));
                    assert(self.polys@[e.0 as int].cons@[e.2@[k as int] as int].wf(nh as nat));
                }
                cons.push(Constraint { h: map[c.h], o: c.o });
                k = k + 1;
            }
            let mut pos: Vec<usize> = Vec::new();
            let mut k: usize = 0;
            while k < e.2.len()
                invariant
                    k <= e.2@.len(),
                    pos@ == e.2@.take(k as int),
                decreases e.2@.len() - k,
            {
                pos.push(e.2[k]);
                k = k + 1;
                proof {
                    assert(pos@ =~= e.2@.take(k as int));
                }
            }
            proof {
                assert(pos@ =~= e.2@);
            }
            let ghost polys0 = polys@;
            polys.push(Polytope { cons, id, pos });
            proof {
                assert forall|t: int, k: int|
                    0 <= t < u + 1 && 0 <= k < polys@[t].cons@.len() implies gl[(#[trigger] polys@[t].cons@[k]).h as int]
                        == self.polys@[polys@[t].id as int].cons@[polys@[t].pos@[k] as int].h by {
                    if t < u {
                        assert(polys@[t] == polys0[t]);
                    } else {
                        assert(e.1@[k] == self.polys@[e.0 as int].cons@[e.2@[k] as int]);
                    }
                }
            }
            u = u + 1;
        }
        let mut p = Problem { d, hyps, polys, fast: None };
        p.build_fast();
        proof {
            assert(order_kept(p, *self, gl));
        }
        p
    }
}

} // verus!
