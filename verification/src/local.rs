//! The fused per-vertex kernel: the central arrangement of the hyperplanes
//! through a vertex, enumerated as its bases, gives both the reverse
//! search's edge directions and the sweep plane's signed cone terms.
use crate::cube::{
    chi, cube_ok, full_mask, in_cube, in_union, lemma_count_bound, lemma_empty, lemma_full_cube,
    lemma_meet, lemma_not_full_cube, lemma_ones_to_64, lemma_split, lemma_start_cube,
    lemma_union_step, ones_below,
};
use crate::geom::{all_q_wf, Problem, Tight};
use crate::linalg::{det_adj, orth_all, square_rows, Echelon};
use crate::num::{
    add_zz, all_wf, binomial, dot_int, factorial, gcd_seq, lex_sign_of, mul_zz, neg_z, sign_of, zvals, Point, Q, Z,
};
use crate::laurent::{
    cell, lau_coef, lau_const, lau_den, lau_factor, lau_series, lemma_cell_distinct, lemma_coef_den,
    lemma_entry_add, lemma_entry_skip, lemma_product_chain, lemma_series_dens, lemma_signed_pair, lemma_zero_stands,
    pos_dens, prior_cell, series_of,
};
use crate::sweep::{equiv, padd, pmul, ppow, qv};
use vstd::arithmetic::power::pow;
use vstd::prelude::*;

verus! {

/// Trusted: `u64::count_ones`.  Claims the number of set bits.
pub assume_specification[ u64::count_ones ](x: u64) -> (r: u32)
    ensures
        r as nat == ones_below(x, 64),
;

/// `+1` for an odd number of intersected cubes, `−1` for an even one.
pub open spec fn ie_sign(size: nat) -> int {
    if size % 2 == 1 {
        1
    } else {
        -1
    }
}

/// Inclusion–exclusion over the cubes `i..` starting from the intersection
/// `(mask, vals)` of `size` cubes already taken.
#[verifier::spinoff_prover]
fn chi_rec(
    cubes: &[(u64, u64)],
    i: usize,
    mask: u64,
    vals: u64,
    size: usize,
    full: u64,
    acc: &mut Z,
    Ghost(dd): Ghost<nat>,
)
    requires
        i <= cubes@.len(),
        dd <= 64,
        full == full_mask(dd),
        forall|j: int| 0 <= j < cubes@.len() ==> cube_ok(#[trigger] cubes@[j], full),
        cube_ok((mask, vals), full),
        size <= i,
        size == 0 ==> mask == 0 && vals == 0,
        old(acc).wf(),
    ensures
        final(acc).wf(),
        size == 0 ==> final(acc)@ == old(acc)@ + chi(|p: u64| in_union(p, cubes@, i as int), dd),
        size > 0 ==> final(acc)@ == old(acc)@ + ie_sign(size as nat) * chi(
            |p: u64| in_cube(p, (mask, vals)) && !in_union(p, cubes@, i as int),
            dd,
        ),
    decreases cubes@.len() - i,
{
    let ghost cs = cubes@;
    let ghost c = |p: u64| in_cube(p, (mask, vals));
    let ghost u0 = |p: u64| in_union(p, cs, i as int);
    if i == cubes.len() {
        proof {
            assert forall|p: u64| !#[trigger] u0(p) by {}
            lemma_empty(u0, dd, 0, 1);
            let a = |p: u64| in_cube(p, (mask, vals)) && !in_union(p, cs, i as int);
            assert(a =~= c);
        }
        if size > 0 && mask == full {
            let point: i64 = if vals.count_ones().is_multiple_of(2) { 1 } else { -1 };
            proof {
                assert(vals & !full == 0);
                lemma_full_cube(vals, dd);
                lemma_ones_to_64(vals, dd, 64);
                assert(point as int == chi(c, dd));
            }
            let term: i64 = if size % 2 == 1 { point } else { -point };
            proof {
                assert(term as int == ie_sign(size as nat) * chi(c, dd));
            }
            *acc = add_zz(acc, &Z::from_i64(term));
        } else {
            proof {
                if size > 0 {
                    lemma_not_full_cube((mask, vals), dd);
                }
            }
        }
        return;
    }
    let ghost acc0 = acc@;
    chi_rec(cubes, i + 1, mask, vals, size, full, acc, Ghost(dd));
    let ghost acc1 = acc@;
    let (m, v) = cubes[i];
    let common = mask & m;
    let ghost u1 = |p: u64| in_union(p, cs, i + 1);
    let ghost k = |p: u64| in_cube(p, (m, v));
    proof {
        assert(cube_ok(cs[i as int], full));
        lemma_meet(mask, vals, m, v, full);
        assert forall|p: u64| #[trigger] u0(p) == (k(p) || u1(p)) by {
            lemma_union_step(p, cs, i as int);
        }
    }
    if (vals & common) == (v & common) {
        chi_rec(cubes, i + 1, mask | m, vals | (v & m), size + 1, full, acc, Ghost(dd));
        proof {
            let c2 = |p: u64| in_cube(p, (mask | m, vals | (v & m)));
            let y = |p: u64| in_cube(p, (mask | m, vals | (v & m))) && !in_union(p, cs, (i + 1) as int);
            if size == 0 {
                lemma_start_cube(m, v, full);
                // acc = acc0 + χ(U_{i+1}) + χ(K_i \ U_{i+1}) = acc0 + χ(U_i)
                lemma_split(u0, u1, dd, 0, 1);
                let x1 = |p: u64| u0(p) && !u1(p);
                let x2 = |p: u64| u0(p) && u1(p);
                let y1 = |p: u64| in_cube(p, (mask | m, vals | (v & m))) && !in_union(p, cs, i + 1);
                assert(x1 =~= y1);
                assert(x2 =~= u1);
            } else {
                let a = |p: u64| c(p) && !u1(p);
                lemma_split(a, k, dd, 0, 1);
                let a_out = |p: u64| a(p) && !k(p);
                let a_in = |p: u64| a(p) && k(p);
                let z = |p: u64| in_cube(p, (mask, vals)) && !in_union(p, cs, i as int);
                assert(a_in =~= y);
                assert(a_out =~= z);
                let a2 = |p: u64| in_cube(p, (mask, vals)) && !in_union(p, cs, (i + 1) as int);
                assert(a2 =~= a);
                assert(acc1 == acc0 + ie_sign(size as nat) * chi(a, dd));
                assert(acc@ == acc1 + ie_sign((size + 1) as nat) * chi(a_in, dd));
                assert(chi(a, dd) == chi(a_out, dd) + chi(a_in, dd));
                assert(chi(a_out, dd) == chi(z, dd));
                if size % 2 == 1 {
                    assert(ie_sign(size as nat) == 1);
                    assert(ie_sign((size + 1) as nat) == -1);
                    assert(acc@ == acc0 + chi(z, dd));
                } else {
                    assert(ie_sign(size as nat) == -1);
                    assert(ie_sign((size + 1) as nat) == 1);
                    assert(acc@ == acc0 - chi(z, dd));
                }
            }
        }
    } else {
        proof {
            if size == 0 {
                lemma_start_cube(m, v, full);
                assert(false);
            }
            let a = |p: u64| c(p) && !u1(p);
            lemma_split(a, k, dd, 0, 1);
            let a_in = |p: u64| a(p) && k(p);
            assert forall|p: u64| !#[trigger] a_in(p) by {}
            lemma_empty(a_in, dd, 0, 1);
            let a_out = |p: u64| a(p) && !k(p);
            let z = |p: u64| in_cube(p, (mask, vals)) && !in_union(p, cs, i as int);
            assert(a_out =~= z);
            let a2 = |p: u64| in_cube(p, (mask, vals)) && !in_union(p, cs, (i + 1) as int);
            assert(a2 =~= a);
            assert(chi(a, dd) == chi(a_out, dd) + chi(a_in, dd));
        }
    }
}

/// `χ` of a union of sub-cubes of `{±1}^d`: `Σ_{σ ∈ ∪ cubes} Π_k σ_k`.  A
/// cube is `(mask, vals)`: the coordinates in `mask` are fixed to `−1`
/// where the bit of `vals` is set, `+1` otherwise.  The one value outside
/// `i64`, `2^63` (every even point of `{±1}^64` covered and no odd one),
/// wraps to `i64::MIN` as a fixed-width sum does.
pub fn chi_union(cubes: &[(u64, u64)], d: usize) -> (r: i64)
    requires
        d <= 64,
        forall|j: int| 0 <= j < cubes@.len() ==> cube_ok(#[trigger] cubes@[j], full_mask(d as nat)),
    ensures
        chi(|p: u64| in_union(p, cubes@, 0), d as nat) <= i64::MAX ==> r as int == chi(
            |p: u64| in_union(p, cubes@, 0),
            d as nat,
        ),
        chi(|p: u64| in_union(p, cubes@, 0), d as nat) > i64::MAX ==> d == 64 && chi(
            |p: u64| in_union(p, cubes@, 0),
            d as nat,
        ) == 0x8000_0000_0000_0000 && r == i64::MIN,
{
    proof {
        assert((d as u64) < 64 ==> (1u64 << (d as u64)) >= 1) by (bit_vector);
    }
    let full: u64 = if d >= 64 { u64::MAX } else { (1u64 << d) - 1 };
    let ghost dd = d as nat;
    let ghost u = |p: u64| in_union(p, cubes@, 0);
    proof {
        lemma_count_bound(u, dd, 0, 1);
        if dd >= 1 {
            if dd < 64 {
                vstd::arithmetic::power2::lemma_pow2_strictly_increases((dd - 1) as nat, 63);
            }
            vstd::arithmetic::power2::lemma2_to64_rest();
        }
    }
    if cubes.len() == 1 {
        let (m, v) = cubes[0];
        proof {
            let k = |p: u64| in_cube(p, (m, v));
            assert forall|p: u64| #[trigger] u(p) == k(p) by {
                lemma_union_step(p, cubes@, 0);
                assert(!in_union(p, cubes@, 1));
            }
            assert(u =~= k);
            assert(cube_ok(cubes@[0], full));
        }
        if m == full {
            proof {
                lemma_full_cube(v, dd);
                lemma_ones_to_64(v, dd, 64);
            }
            return if v.count_ones().is_multiple_of(2) { 1 } else { -1 };
        } else {
            proof {
                lemma_not_full_cube((m, v), dd);
            }
            return 0;
        }
    }
    let mut acc = Z::zero();
    proof {
        assert(0u64 & !full == 0) by (bit_vector);
        assert(0u64 & !0u64 == 0) by (bit_vector);
    }
    chi_rec(cubes, 0, 0, 0, 0, full, &mut acc, Ghost(dd));
    match acc.to_i64() {
        Some(x) => x,
        None => {
            proof {
                if dd < 64 {
                    if 1 <= dd < 63 {
                        vstd::arithmetic::power2::lemma_pow2_strictly_increases((dd - 1) as nat, 62);
                    }
                    vstd::arithmetic::power2::lemma2_to64_rest();
                }
            }
            i64::MIN
        },
    }
}

/// Statistics of one kernel invocation.
#[derive(Clone, Debug)]
pub struct KernelStats {
    pub bases: u64,
    pub terms: u64,
    pub laurent_terms: u64,
}

impl Default for KernelStats {
    fn default() -> (r: KernelStats)
        ensures
            r.bases == 0 && r.terms == 0 && r.laurent_terms == 0,
    {
        KernelStats { bases: 0, terms: 0, laurent_terms: 0 }
    }
}

/// Contribution of one vertex: coefficients `c[m][j]` of `ε^{-m} (λ − κ)_+^j`.
/// For generic `a` only `c[0][d]` (`top`) is non-zero and `laurent` is `None`.
#[derive(Debug)]
pub struct VertexContribution {
    pub d: usize,
    pub top: Q,
    /// `(d+1)×(d+1)` row-major `[m][j]`, present only if a pole was met.
    pub laurent: Option<Vec<Q>>,
}

impl VertexContribution {
    pub open spec fn wf(&self) -> bool {
        &&& self.top.wf()
        &&& self.laurent matches Some(l) ==> l@.len() == (self.d + 1) * (self.d + 1) && all_q_wf(l@)
    }

    /// All coefficients vanish.
    pub open spec fn vanishes(&self) -> bool {
        &&& self.top.num@ == 0
        &&& self.laurent matches Some(l) ==> forall|i: int| 0 <= i < l@.len() ==> (#[trigger] l@[i]).num@ == 0
    }

    pub fn zero(d: usize) -> (r: VertexContribution)
        ensures
            r.wf(),
            r.d == d,
            r.top.num@ == 0,
            r.laurent is None,
    {
        VertexContribution { d, top: Q::zero(), laurent: None }
    }

    pub fn is_zero(&self) -> (r: bool)
        requires
            self.wf(),
        ensures
            r == self.vanishes(),
    {
        if !self.top.is_zero() {
            return false;
        }
        match &self.laurent {
            None => true,
            Some(l) => {
                let mut i: usize = 0;
                while i < l.len()
                    invariant
                        i <= l@.len(),
                        all_q_wf(l@),
                        self.laurent == Some(*l),
                        self.top.num@ == 0,
                        forall|j: int| 0 <= j < i ==> (#[trigger] l@[j]).num@ == 0,
                    decreases l@.len() - i,
                {
                    if !l[i].is_zero() {
                        return false;
                    }
                    i = i + 1;
                }
                true
            },
        }
    }
}

impl Clone for VertexContribution {
    fn clone(&self) -> (r: VertexContribution)
        ensures
            r.d == self.d,
            r.top.num@ == self.top.num@ && r.top.den@ == self.top.den@,
            self.wf() ==> r.wf(),
            (r.laurent is None) == (self.laurent is None),
    {
        let laurent = match &self.laurent {
            None => None,
            Some(l) => Some(crate::geom::clone_qs(l.as_slice())),
        };
        VertexContribution { d: self.d, top: self.top.clone(), laurent }
    }
}

/// `a` comes strictly before `b` in lexicographic order of values (a
/// proper prefix comes first).
pub open spec fn lex_lt(a: Seq<int>, b: Seq<int>) -> bool
    decreases a.len(),
{
    if a.len() == 0 {
        b.len() > 0
    } else if b.len() == 0 {
        false
    } else if a[0] != b[0] {
        a[0] < b[0]
    } else {
        lex_lt(a.drop_first(), b.drop_first())
    }
}

/// Two different sequences are ordered one way or the other.
proof fn lemma_lex_total(a: Seq<int>, b: Seq<int>)
    requires
        a != b,
        !lex_lt(a, b),
    ensures
        lex_lt(b, a),
    decreases a.len(),
{
    if a.len() > 0 && b.len() > 0 && a[0] == b[0] {
        if a.drop_first() == b.drop_first() {
            assert(a =~= seq![a[0]] + a.drop_first());
            assert(b =~= seq![b[0]] + b.drop_first());
        }
        lemma_lex_total(a.drop_first(), b.drop_first());
    } else if a.len() == 0 {
        assert(b.len() == 0);
        assert(a =~= b);
    }
}

/// `-1`, `0` or `1` as `a` comes before, equals or comes after `b`.
pub fn lex_compare(a: &[Z], b: &[Z]) -> (r: i8)
    requires
        all_wf(a@),
        all_wf(b@),
    ensures
        r == 0 <==> zvals(a@) == zvals(b@),
        r < 0 <==> lex_lt(zvals(a@), zvals(b@)),
        r > 0 ==> lex_lt(zvals(b@), zvals(a@)),
{
    let ghost za = zvals(a@);
    let ghost zb = zvals(b@);
    let mut i: usize = 0;
    proof {
        assert(za.skip(0) =~= za);
        assert(zb.skip(0) =~= zb);
        assert(za.take(0) =~= zb.take(0));
    }
    while i < a.len() && i < b.len()
        invariant
            i <= a@.len(),
            i <= b@.len(),
            all_wf(a@),
            all_wf(b@),
            za == zvals(a@),
            zb == zvals(b@),
            za.take(i as int) == zb.take(i as int),
            lex_lt(za, zb) == lex_lt(za.skip(i as int), zb.skip(i as int)),
            lex_lt(zb, za) == lex_lt(zb.skip(i as int), za.skip(i as int)),
        decreases a@.len() - i,
    {
        let c = a[i].compare(&b[i]);
        proof {
            assert(za.skip(i as int)[0] == za[i as int]);
            assert(zb.skip(i as int)[0] == zb[i as int]);
            assert(za.skip(i as int).drop_first() =~= za.skip(i + 1));
            assert(zb.skip(i as int).drop_first() =~= zb.skip(i + 1));
        }
        if c != 0 {
            proof {
                if za == zb {
                    assert(za[i as int] == zb[i as int]);
                }
            }
            return c;
        }
        proof {
            assert(za.take(i + 1) =~= za.take(i as int).push(za[i as int]));
            assert(zb.take(i + 1) =~= zb.take(i as int).push(zb[i as int]));
        }
        i = i + 1;
    }
    proof {
        assert(za.skip(i as int).len() == 0 || zb.skip(i as int).len() == 0);
    }
    if a.len() < b.len() {
        proof {
            assert(za.len() != zb.len());
        }
        -1
    } else if a.len() > b.len() {
        proof {
            assert(za.len() != zb.len());
        }
        1
    } else {
        proof {
            assert(za =~= za.take(i as int));
            assert(zb =~= zb.take(i as int));
        }
        0
    }
}

/// Strictly increasing in lexicographic order (adjacent pairs).
pub open spec fn strictly_sorted(v: Seq<Vec<Z>>) -> bool {
    forall|i: int| 0 <= i < v.len() - 1 ==> lex_lt(zvals(#[trigger] v[i]@), zvals(v[i + 1]@))
}

/// Insert `l` into the strictly sorted `out` unless an equal entry is there.
fn insert_sorted(out: &mut Vec<Vec<Z>>, l: Vec<Z>)
    requires
        strictly_sorted(old(out)@),
        forall|i: int| 0 <= i < old(out)@.len() ==> all_wf((#[trigger] old(out)@[i])@),
        all_wf(l@),
    ensures
        strictly_sorted(final(out)@),
        forall|i: int| 0 <= i < final(out)@.len() ==> all_wf((#[trigger] final(out)@[i])@),
        forall|i: int| 0 <= i < final(out)@.len() ==> (#[trigger] final(out)@[i]) == l || old(out)@.contains(final(out)@[i]),
        exists|i: int| 0 <= i < final(out)@.len() && zvals((#[trigger] final(out)@[i])@) == zvals(l@),
        forall|i: int| 0 <= i < old(out)@.len() ==> final(out)@.contains(#[trigger] old(out)@[i]),
{
    let mut p: usize = 0;
    loop
        invariant
            p <= out@.len(),
            strictly_sorted(out@),
            forall|i: int| 0 <= i < out@.len() ==> all_wf((#[trigger] out@[i])@),
            all_wf(l@),
            p > 0 ==> lex_lt(zvals(out@[p - 1]@), zvals(l@)),
        ensures
            p <= out@.len(),
            p > 0 ==> lex_lt(zvals(out@[p - 1]@), zvals(l@)),
            p < out@.len() ==> !lex_lt(zvals(out@[p as int]@), zvals(l@)),
        decreases out@.len() - p,
    {
        if p >= out.len() {
            break;
        }
        if lex_compare(out[p].as_slice(), l.as_slice()) >= 0 {
            break;
        }
        p = p + 1;
    }
    if p < out.len() && lex_compare(out[p].as_slice(), l.as_slice()) == 0 {
        proof {
            assert(out@.contains(out@[p as int]));
        }
        return;
    }
    let ghost o = out@;
    proof {
        if p < o.len() {
            lemma_lex_total(zvals(o[p as int]@), zvals(l@));
        }
    }
    out.insert(p, l);
    proof {
        assert forall|i: int| 0 <= i < out@.len() - 1 implies lex_lt(zvals(#[trigger] out@[i]@), zvals(out@[i + 1]@)) by {
            if i + 1 < p {
                assert(out@[i] == o[i] && out@[i + 1] == o[i + 1]);
            } else if i + 1 == p {
                assert(out@[i] == o[i]);
            } else if i == p {
            } else {
                assert(out@[i] == o[i - 1] && out@[i + 1] == o[i]);
                assert(lex_lt(zvals(o[i - 1]@), zvals(o[(i - 1) + 1]@)));
            }
        }
        assert forall|i: int| 0 <= i < out@.len() implies (#[trigger] out@[i]) == l || o.contains(out@[i]) by {
            if i < p {
                assert(out@[i] == o[i]);
            } else if i > p {
                assert(out@[i] == o[i - 1]);
            }
        }
        assert(zvals(out@[p as int]@) == zvals(l@));
        assert forall|i: int| 0 <= i < o.len() implies out@.contains(#[trigger] o[i]) by {
            if i < p {
                assert(out@[i] == o[i]);
            } else {
                assert(out@[i + 1] == o[i]);
            }
        }
    }
}

/// `l` is a line direction at the vertex: primitive, lexicographically
/// positive, orthogonal to the forced hyperplane (if any) and to `m`
/// hyperplanes of `hv` taken at increasing positions.
pub open spec fn is_line(prob: Problem, hv: Seq<usize>, forced: Option<usize>, m: nat, l: Seq<int>) -> bool {
    &&& l.len() == prob.d
    &&& lex_sign_of(l) == 1
    &&& gcd_seq(l) == 1
    &&& forced matches Some(f) ==> dot_int(zvals(prob.hyps@[f as int].n@), l) == 0
    &&& exists|js: Seq<int>| #[trigger] chosen_orth(prob, hv, js, m, l)
}

/// `js` are `m` increasing positions into `hv` whose hyperplanes are all
/// orthogonal to `l`.
pub open spec fn chosen_orth(prob: Problem, hv: Seq<usize>, js: Seq<int>, m: nat, l: Seq<int>) -> bool {
    &&& js.len() == m
    &&& forall|a: int, b: int| 0 <= a < b < m ==> js[a] < js[b]
    &&& forall|t: int|
        0 <= t < m ==> 0 <= #[trigger] js[t] < hv.len() && dot_int(zvals(prob.hyps@[hv[js[t]] as int].n@), l) == 0
}

/// Valid hyperplane indices.
pub open spec fn indices_ok(hv: Seq<usize>, nh: nat) -> bool {
    forall|t: int| 0 <= t < hv.len() ==> (#[trigger] hv[t]) < nh
}

/// The rows handed to the echelon form so far: the forced normal, then the
/// normals of `hv` at the chosen positions.
pub open spec fn pushed_rows(prob: Problem, hv: Seq<usize>, forced: Option<usize>, choice: Seq<usize>) -> Seq<Seq<int>> {
    let head: Seq<Seq<int>> = match forced {
        Some(f) => seq![zvals(prob.hyps@[f as int].n@)],
        None => Seq::empty(),
    };
    head + choice.map_values(|c: usize| zvals(prob.hyps@[hv[c as int] as int].n@))
}

/// Depth-first enumeration of independent `need`-subsets of `hv` beyond
/// `start`; every completed subset yields one line.
fn lines_dfs(
    prob: &Problem,
    hv: &[usize],
    forced: Option<usize>,
    need: usize,
    ech: &mut Echelon,
    choice: &mut Vec<usize>,
    start: usize,
    out: &mut Vec<Vec<Z>>,
)
    requires
        prob.wf(),
        prob.d >= 1,
        need + 1 == prob.d,
        indices_ok(hv@, prob.hyps@.len()),
        forced matches Some(f) ==> f < prob.hyps@.len(),
        old(ech).wf(),
        old(ech).dim() == prob.d,
        old(ech).inputs_view() == pushed_rows(*prob, hv@, forced, old(choice)@),
        old(ech).rows_view().len() == old(ech).inputs_view().len(),
        old(ech).rows_view().len() <= need,
        forall|a: int, b: int| 0 <= a < b < old(choice)@.len() ==> old(choice)@[a] < old(choice)@[b],
        forall|a: int| 0 <= a < old(choice)@.len() ==> old(choice)@[a] < start,
        start <= hv@.len(),
        forall|i: int| 0 <= i < old(out)@.len() ==> (#[trigger] old(out)@[i])@.len() == prob.d && all_wf(old(out)@[i]@)
            && is_line(*prob, hv@, forced, (need - (if forced is Some { 1int } else { 0 })) as nat, zvals(old(out)@[i]@)),
    ensures
        final(ech).wf(),
        final(ech).dim() == prob.d,
        final(ech).inputs_view() == old(ech).inputs_view(),
        final(ech).rows_view().len() == old(ech).rows_view().len(),
        final(choice)@ == old(choice)@,
        forall|i: int| 0 <= i < final(out)@.len() ==> (#[trigger] final(out)@[i])@.len() == prob.d && all_wf(final(out)@[i]@)
            && is_line(*prob, hv@, forced, (need - (if forced is Some { 1int } else { 0 })) as nat, zvals(final(out)@[i]@)),
        final(out)@.len() >= old(out)@.len(),
        forall|i: int| 0 <= i < old(out)@.len() ==> #[trigger] final(out)@[i] == old(out)@[i],
        old(ech).rows_view().len() == need ==> final(out)@.len() == old(out)@.len() + 1,
    decreases hv@.len() - start,
{
    let ghost m: nat = (need - (if forced is Some { 1int } else { 0 })) as nat;
    if ech.len() == need {
        let l = ech.nullspace_direction();
        proof {
            let lz = zvals(l@);
            let iv = ech.inputs_view();
            let off: int = if forced is Some { 1 } else { 0 };
            assert(choice@.len() == m);
            let js = choice@.map_values(|c: usize| c as int);
            assert forall|t: int| 0 <= t < m implies 0 <= #[trigger] js[t] < hv@.len() && dot_int(
                zvals(prob.hyps@[hv@[js[t]] as int].n@),
                lz,
            ) == 0 by {
                assert(iv[t + off] == zvals(prob.hyps@[hv@[choice@[t] as int] as int].n@));
                assert(dot_int(iv[t + off], lz) == 0);
            }
            assert(chosen_orth(*prob, hv@, js, m, lz));
            if forced is Some {
                assert(iv[0] == zvals(prob.hyps@[forced->0 as int].n@));
                assert(dot_int(iv[0], lz) == 0);
            }
        }
        out.push(l);
        return;
    }
    let mut next = start;
    while next < hv.len()
        invariant
            prob.wf(),
            prob.d >= 1,
            need + 1 == prob.d,
            indices_ok(hv@, prob.hyps@.len()),
            forced matches Some(f) ==> f < prob.hyps@.len(),
            ech.wf(),
            ech.dim() == prob.d,
            ech.inputs_view() == old(ech).inputs_view(),
            ech.inputs_view() == pushed_rows(*prob, hv@, forced, choice@),
            ech.rows_view().len() == old(ech).rows_view().len(),
            ech.rows_view().len() == ech.inputs_view().len(),
            ech.rows_view().len() < need,
            choice@ == old(choice)@,
            m == (need - (if forced is Some { 1int } else { 0 })) as nat,
            forall|a: int, b: int| 0 <= a < b < choice@.len() ==> choice@[a] < choice@[b],
            forall|a: int| 0 <= a < choice@.len() ==> choice@[a] < start,
            start <= next <= hv@.len(),
            forall|i: int| 0 <= i < out@.len() ==> (#[trigger] out@[i])@.len() == prob.d && all_wf(out@[i]@) && is_line(
                *prob,
                hv@,
                forced,
                m,
                zvals(out@[i]@),
            ),
            out@.len() >= old(out)@.len(),
            forall|i: int| 0 <= i < old(out)@.len() ==> #[trigger] out@[i] == old(out)@[i],
        decreases hv@.len() - next,
    {
        // remaining slots must be fillable
        let slots = need - ech.len();
        if slots > hv.len() - next {
            break;
        }
        let h = hv[next];
        let skip = match forced {
            Some(f) => f == h,
            None => false,
        };
        if !skip {
            proof {
                assert(prob.hyps@[h as int].wf(prob.d as nat));
            }
            let ghost iv0 = ech.inputs_view();
            if ech.try_push(prob.hyps[h].n.as_slice()) {
                let ghost c0 = choice@;
                choice.push(next);
                proof {
                    let head: Seq<Seq<int>> = match forced {
                        Some(f) => seq![zvals(prob.hyps@[f as int].n@)],
                        None => Seq::empty(),
                    };
                    let mp = |c: usize| zvals(prob.hyps@[hv@[c as int] as int].n@);
                    assert(choice@.map_values(mp) =~= c0.map_values(mp).push(zvals(prob.hyps@[h as int].n@)));
                    assert(head + choice@.map_values(mp) =~= (head + c0.map_values(mp)).push(zvals(prob.hyps@[h as int].n@)));
                }
                lines_dfs(prob, hv, forced, need, ech, choice, next + 1, out);
                choice.pop();
                ech.pop();
                proof {
                    assert(choice@ =~= c0);
                }
            }
        }
        next = next + 1;
    }
}

/// Enumerate the lines of the central arrangement of `H_v` (given as sorted
/// hyperplane indices `hv`).  If `forced` is given, only lines lying inside
/// that hyperplane are returned (the edges of a facet subproblem).
/// Directions are primitive, lexicographically positive, sorted and free of
/// duplicates.
pub fn lines_at(prob: &Problem, hv: &[usize], forced: Option<usize>) -> (r: Vec<Vec<Z>>)
    requires
        prob.wf(),
        prob.d >= 1,
        indices_ok(hv@, prob.hyps@.len()),
        forced matches Some(f) ==> f < prob.hyps@.len(),
    ensures
        strictly_sorted(r@),
        prob.d == 1 ==> (forced is None ==> r@.len() == 1 && zvals(r@[0]@) == seq![1int]) && (forced is Some
            ==> r@.len() == 0),
        forall|i: int| 0 <= i < r@.len() ==> (#[trigger] r@[i])@.len() == prob.d && all_wf(r@[i]@) && is_line(
            *prob,
            hv@,
            forced,
            (prob.d - 1 - (if forced is Some { 1int } else { 0 })) as nat,
            zvals(r@[i]@),
        ),
{
    let d = prob.d;
    let mut out: Vec<Vec<Z>> = Vec::new();
    if d == 1 {
        // the only line is R^1 itself, unless we are confined to a point
        if forced.is_none() {
            let mut one: Vec<Z> = Vec::new();
            one.push(Z::one());
            proof {
                assert(zvals(one@) =~= seq![1int]);
                assert(lex_sign_of(seq![1int]) == 1);
                assert(seq![1int].drop_last() =~= Seq::<int>::empty());
                reveal_with_fuel(crate::arith::gcd_fold, 2);
                assert(crate::arith::gcd(0, 1) == 1) by {
                    reveal_with_fuel(crate::arith::gcd, 3);
                }
                let js = Seq::<int>::empty();
                assert(chosen_orth(*prob, hv@, js, 0, zvals(one@)));
            }
            out.push(one);
        }
        return out;
    }
    let mut ech = Echelon::new(d);
    if let Some(f) = forced {
        proof {
            assert(prob.hyps@[f as int].wf(d as nat));
        }
        let ok = ech.try_push(prob.hyps[f].n.as_slice());
        if !ok {
            // a single non-zero normal is always independent; a zero normal
            // confines nothing
            return out;
        }
    }
    proof {
        let mp = |c: usize| zvals(prob.hyps@[hv@[c as int] as int].n@);
        assert(Seq::<usize>::empty().map_values(mp) =~= Seq::<Seq<int>>::empty());
        match forced {
            Some(f) => {
                assert(ech.inputs_view() =~= seq![zvals(prob.hyps@[f as int].n@)]);
                assert(pushed_rows(*prob, hv@, forced, Seq::empty()) =~= seq![zvals(prob.hyps@[f as int].n@)]);
            },
            None => {
                assert(pushed_rows(*prob, hv@, forced, Seq::empty()) =~= Seq::<Seq<int>>::empty());
                assert(ech.inputs_view() =~= Seq::<Seq<int>>::empty());
            },
        }
    }
    let mut choice: Vec<usize> = Vec::new();
    proof {
        assert(choice@ =~= Seq::<usize>::empty());
    }
    let mut found: Vec<Vec<Z>> = Vec::new();
    lines_dfs(prob, hv, forced, d - 1, &mut ech, &mut choice, 0, &mut found);
    let mut i: usize = 0;
    while i < found.len()
        invariant
            i <= found@.len(),
            strictly_sorted(out@),
            forall|k: int| 0 <= k < found@.len() ==> (#[trigger] found@[k])@.len() == d && all_wf(found@[k]@) && is_line(
                *prob,
                hv@,
                forced,
                (d - 1 - (if forced is Some { 1int } else { 0 })) as nat,
                zvals(found@[k]@),
            ),
            forall|k: int| 0 <= k < out@.len() ==> (#[trigger] out@[k])@.len() == d && all_wf(out@[k]@) && is_line(
                *prob,
                hv@,
                forced,
                (d - 1 - (if forced is Some { 1int } else { 0 })) as nat,
                zvals(out@[k]@),
            ),
        decreases found@.len() - i,
    {
        let ghost o = out@;
        let l = found[i].clone();
        proof {
            assert(zvals(l@) == zvals(found@[i as int]@));
        }
        insert_sorted(&mut out, l);
        proof {
            assert forall|k: int| 0 <= k < out@.len() implies (#[trigger] out@[k])@.len() == d && all_wf(out@[k]@) && is_line(
                *prob,
                hv@,
                forced,
                (d - 1 - (if forced is Some { 1int } else { 0 })) as nat,
                zvals(out@[k]@),
            ) by {
                if out@[k] == l {
                    assert(zvals(l@).len() == l@.len());
                } else {
                    let k2 = choose|k2: int| 0 <= k2 < o.len() && o[k2] == out@[k];
                    assert(o[k2] == out@[k]);
                }
            }
        }
        i = i + 1;
    }
    out
}

/// A polytope containing `v` on its boundary, with its tight constraints.
pub struct Containing<'a> {
    pub poly: usize,
    pub tight: &'a [Tight],
}

/// Options for the sweep-plane half of the kernel.
pub struct SweepParams<'a> {
    /// integer sweep direction `a`
    pub a: &'a [Z],
    /// perturbation direction `r` for non-generic `a` (`None` = assume generic)
    pub r: Option<&'a [Z]>,
}

impl<'a> SweepParams<'a> {
    /// `d` well-formed entries in `a` and, if present, in `r`.
    pub open spec fn wf(&self, d: nat) -> bool {
        &&& self.a@.len() == d
        &&& all_wf(self.a@)
        &&& self.r matches Some(r) ==> r@.len() == d && all_wf(r@)
    }
}

/// Errors the kernel can raise.
#[derive(Debug, Clone, PartialEq, Eq)]
pub enum KernelError {
    /// `a` is orthogonal to an edge direction and no perturbation was allowed.
    NonGeneric { vertex: String },
    /// Both `a` and `r` orthogonal to the same edge: choose another seed.
    BadPerturbation { vertex: String },
}

/// Text of [`KernelError::NonGeneric`].
/// Trusted: std `format!`, which writes the literal pieces with the
/// vertex text (a `&str` displays as itself) between them.
#[verifier::external_body]
fn msg_non_generic(vertex: &str) -> (r: String)
    ensures
        r@ == "sweep direction is orthogonal to an arrangement edge at vertex "@ + vertex@
            + "; drop --assume-generic"@,
{
    format!("sweep direction is orthogonal to an arrangement edge at vertex {vertex}; drop --assume-generic")
}

/// Text of [`KernelError::BadPerturbation`].
/// Trusted: std `format!`, which writes the literal pieces with the
/// vertex text (a `&str` displays as itself) between them.
#[verifier::external_body]
fn msg_bad_perturbation(vertex: &str) -> (r: String)
    ensures
        r@ == "perturbation direction is also orthogonal to an edge at vertex "@ + vertex@
            + "; use another --seed"@,
{
    format!("perturbation direction is also orthogonal to an edge at vertex {vertex}; use another --seed")
}

/// The kind of a kernel error matches the parameters it was raised under:
/// `NonGeneric` only without a perturbation direction, `BadPerturbation`
/// only with one.
pub open spec fn kernel_error_fits(e: KernelError, perturbed: bool) -> bool {
    match e {
        KernelError::NonGeneric { .. } => !perturbed,
        KernelError::BadPerturbation { .. } => perturbed,
    }
}

impl KernelError {
    /// The text of [`KernelError::message`].
    pub open spec fn text(&self) -> Seq<char> {
        match self {
            KernelError::NonGeneric { vertex } => "sweep direction is orthogonal to an arrangement edge at vertex "@
                + vertex@ + "; drop --assume-generic"@,
            KernelError::BadPerturbation { vertex } => "perturbation direction is also orthogonal to an edge at vertex "@
                + vertex@ + "; use another --seed"@,
        }
    }

    /// Human-readable description: the reason, the vertex and what to
    /// change.
    pub fn message(&self) -> (r: String)
        ensures
            r@ == self.text(),
    {
        match self {
            KernelError::NonGeneric { vertex } => msg_non_generic(vertex.as_str()),
            KernelError::BadPerturbation { vertex } => msg_bad_perturbation(vertex.as_str()),
        }
    }
}

/// `n! > 0`.
proof fn lemma_factorial_pos(n: nat)
    ensures
        crate::arith::factorial(n) > 0,
    decreases n,
{
    if n > 0 {
        lemma_factorial_pos((n - 1) as nat);
        crate::arith::lemma_mul_nonzero(n as int, crate::arith::factorial((n - 1) as nat) as int);
    }
}

/// Adding one coordinate to a sub-cube keeps it inside the first `d`
/// coordinates, with its values inside its mask.
proof fn bv_add_coordinate(m: u64, v: u64, f: u64, k: u64)
    by (bit_vector)
    requires
        v & !m == 0,
        m & !f == 0,
        k < 64,
        f & (1u64 << k) != 0,
    ensures
        (m | (1u64 << k)) & !f == 0,
        v & !(m | (1u64 << k)) == 0,
        (v | (1u64 << k)) & !(m | (1u64 << k)) == 0,
{
}

/// Counters never decrease.
pub open spec fn stats_grow(a: KernelStats, b: KernelStats) -> bool {
    a.bases <= b.bases && a.terms <= b.terms && a.laurent_terms <= b.laurent_terms
}

/// What the kernel's inputs must satisfy.
pub open spec fn kernel_inputs(prob: Problem, v: Point, hv: Seq<usize>, containing: Seq<Containing>, params: SweepParams) -> bool {
    &&& prob.wf()
    &&& 1 <= prob.d <= 64
    &&& v.wf()
    &&& v.num@.len() == prob.d
    &&& indices_ok(hv, prob.hyps@.len())
    &&& forall|i: int, t: int|
        0 <= i < containing.len() && 0 <= t < containing[i].tight@.len() ==> (#[trigger] containing[i].tight@[t]).c.wf(
            prob.hyps@.len(),
        )
    &&& params.wf(prob.d as nat)
}

/// The sweep-plane half at `v`: sum over all bases `B ⊆ H_v` of the signed
/// Lawrence term.  `containing` lists the polytopes with `v` on their
/// boundary; the caller guarantees `v ∉ int P_i` for all `i`.
pub fn cones_at(
    prob: &Problem,
    v: &Point,
    hv: &[usize],
    containing: &[Containing],
    params: &SweepParams,
    stats: &mut KernelStats,
) -> (r: Result<VertexContribution, KernelError>)
    requires
        kernel_inputs(*prob, *v, hv@, containing@, *params),
    ensures
        stats_grow(*old(stats), *final(stats)),
        r matches Ok(c) ==> c.wf() && c.d == prob.d,
        r matches Ok(c) ==> (params.r is None ==> c.laurent is None),
        hv@.len() < prob.d ==> (r matches Ok(c) && c.vanishes() && c.laurent is None),
        r matches Err(e) ==> (e is NonGeneric ==> params.r is None) && (e is BadPerturbation ==> params.r is Some),
{
    let d = prob.d;
    let mut vc = VertexContribution::zero(d);
    if hv.len() < d {
        return Ok(vc);
    }
    let dfact = factorial(d);
    proof {
        lemma_factorial_pos(d as nat);
    }
    let rho: Option<Q> = match params.r {
        Some(r) => Some(v.dot_q(r)),
        None => None,
    };
    let mut ech = Echelon::new(d);
    let mut choice: Vec<usize> = Vec::new();
    match cones_dfs(prob, v, hv, containing, params, stats, &mut ech, &mut choice, 0, &mut vc, &dfact, &rho) {
        Ok(()) => Ok(vc),
        Err(e) => Err(e),
    }
}

/// Depth-first enumeration of the bases of `H_v` beyond `start`.
fn cones_dfs(
    prob: &Problem,
    v: &Point,
    hv: &[usize],
    containing: &[Containing],
    params: &SweepParams,
    stats: &mut KernelStats,
    ech: &mut Echelon,
    choice: &mut Vec<usize>,
    start: usize,
    vc: &mut VertexContribution,
    dfact: &Z,
    rho: &Option<Q>,
) -> (r: Result<(), KernelError>)
    requires
        kernel_inputs(*prob, *v, hv@, containing@, *params),
        old(ech).wf(),
        old(ech).dim() == prob.d,
        old(ech).rows_view().len() == old(choice)@.len(),
        old(choice)@.len() <= prob.d,
        forall|a: int| 0 <= a < old(choice)@.len() ==> old(choice)@[a] < start,
        start <= hv@.len(),
        old(vc).wf(),
        old(vc).d == prob.d,
        params.r is None ==> old(vc).laurent is None,
        dfact.wf(),
        dfact@ > 0,
        (params.r is Some) == (rho is Some),
        rho matches Some(q) ==> q.wf(),
    ensures
        final(ech).wf(),
        final(ech).dim() == prob.d,
        final(ech).rows_view().len() == old(ech).rows_view().len(),
        final(choice)@ == old(choice)@,
        final(vc).wf(),
        final(vc).d == prob.d,
        params.r is None ==> final(vc).laurent is None,
        stats_grow(*old(stats), *final(stats)),
        old(choice)@.len() == prob.d ==> final(stats).bases == crate::reverse::sat_add(old(stats).bases, 1),
        r matches Err(e) ==> (e is NonGeneric ==> params.r is None) && (e is BadPerturbation ==> params.r is Some),
    decreases hv@.len() - start,
{
    let d = prob.d;
    if choice.len() == d {
        return basis_term(prob, v, hv, containing, params, stats, choice, vc, dfact, rho);
    }
    let mut next = start;
    while next < hv.len()
        invariant
            kernel_inputs(*prob, *v, hv@, containing@, *params),
            d == prob.d,
            ech.wf(),
            ech.dim() == prob.d,
            ech.rows_view().len() == choice@.len(),
            ech.rows_view().len() == old(ech).rows_view().len(),
            choice@ == old(choice)@,
            choice@.len() < d,
            forall|a: int| 0 <= a < choice@.len() ==> choice@[a] < start,
            start <= next <= hv@.len(),
            vc.wf(),
            vc.d == prob.d,
            params.r is None ==> vc.laurent is None,
            dfact.wf(),
            dfact@ > 0,
            (params.r is Some) == (rho is Some),
            rho matches Some(q) ==> q.wf(),
            stats_grow(*old(stats), *stats),
        decreases hv@.len() - next,
    {
        let slots = d - choice.len();
        if slots > hv.len() - next {
            break;
        }
        let h = hv[next];
        proof {
            assert(prob.hyps@[h as int].wf(d as nat));
        }
        if ech.try_push(prob.hyps[h].n.as_slice()) {
            let ghost c0 = choice@;
            choice.push(next);
            let res = cones_dfs(prob, v, hv, containing, params, stats, ech, choice, next + 1, vc, dfact, rho);
            choice.pop();
            ech.pop();
            proof {
                assert(choice@ =~= c0);
            }
            if let Err(e) = res {
                return Err(e);
            }
        }
        next = next + 1;
    }
    Ok(())
}

/// The signed Lawrence term of one basis (positions `choice` into `hv`).
fn basis_term(
    prob: &Problem,
    v: &Point,
    hv: &[usize],
    containing: &[Containing],
    params: &SweepParams,
    stats: &mut KernelStats,
    choice: &Vec<usize>,
    vc: &mut VertexContribution,
    dfact: &Z,
    rho: &Option<Q>,
) -> (r: Result<(), KernelError>)
    requires
        kernel_inputs(*prob, *v, hv@, containing@, *params),
        choice@.len() == prob.d,
        forall|a: int| 0 <= a < choice@.len() ==> choice@[a] < hv@.len(),
        old(vc).wf(),
        old(vc).d == prob.d,
        params.r is None ==> old(vc).laurent is None,
        dfact.wf(),
        dfact@ > 0,
        (params.r is Some) == (rho is Some),
        rho matches Some(q) ==> q.wf(),
    ensures
        final(vc).wf(),
        final(vc).d == prob.d,
        params.r is None ==> final(vc).laurent is None,
        stats_grow(*old(stats), *final(stats)),
        final(stats).bases == crate::reverse::sat_add(old(stats).bases, 1),
        r matches Err(e) ==> (e is NonGeneric ==> params.r is None) && (e is BadPerturbation ==> params.r is Some),
{
    let d = prob.d;
    stats.bases = stats.bases.saturating_add(1);
    let mut basis: Vec<usize> = Vec::new();
    let mut rows: Vec<&[Z]> = Vec::new();
    let mut t: usize = 0;
    while t < d
        invariant
            t <= d,
            d == prob.d,
            prob.wf(),
            choice@.len() == d,
            forall|a: int| 0 <= a < choice@.len() ==> choice@[a] < hv@.len(),
            indices_ok(hv@, prob.hyps@.len()),
            basis@.len() == t,
            rows@.len() == t,
            forall|k: int| 0 <= k < t ==> (#[trigger] basis@[k]) < prob.hyps@.len() && rows@[k]@ == prob.hyps@[basis@[k] as int].n@,
        decreases d - t,
    {
        let h = hv[choice[t]];
        basis.push(h);
        rows.push(prob.hyps[h].n.as_slice());
        t = t + 1;
    }
    proof {
        assert forall|i: int| 0 <= i < rows@.len() implies (#[trigger] rows@[i])@.len() == rows@.len() && all_wf(rows@[i]@) by {
            assert(prob.hyps@[basis@[i] as int].wf(d as nat));
        }
        assert(2 * d * d <= usize::MAX) by (nonlinear_arith)
            requires
                d <= 64,
        ;
    }
    let (det, adj) = det_adj(rows.as_slice());
    if det.is_zero() {
        // a dependent set never passes the echelon filter; nothing to add
        return Ok(());
    }
    let dsign = det.signum();
    proof {
        assert((d as u64) < 64 ==> (1u64 << (d as u64)) >= 1) by (bit_vector);
        assert(d * d <= 4096) by (nonlinear_arith)
            requires
                d <= 64,
        ;
    }
    let full: u64 = if d >= 64 { u64::MAX } else { (1u64 << d) - 1 };
    // cell test per containing polytope
    let mut cubes: Vec<(u64, u64)> = Vec::new();
    let mut ci: usize = 0;
    while ci < containing.len()
        invariant
            kernel_inputs(*prob, *v, hv@, containing@, *params),
            d == prob.d,
            ci <= containing@.len(),
            basis@.len() == d,
            forall|k: int| 0 <= k < d ==> (#[trigger] basis@[k]) < prob.hyps@.len(),
            adj@.len() == d * d,
            all_wf(adj@),
            full == crate::cube::full_mask(d as nat),
            dsign == 1 || dsign == -1,
            d * d <= 4096,
            forall|j: int| 0 <= j < cubes@.len() ==> crate::cube::cube_ok(#[trigger] cubes@[j], full),
        decreases containing@.len() - ci,
    {
        let c = &containing[ci];
        let mut mask: u64 = 0;
        let mut vals: u64 = 0;
        let mut pass = true;
        proof {
            assert(0u64 & !0u64 == 0 && 0u64 & !full == 0) by (bit_vector);
        }
        let mut ti: usize = 0;
        while ti < c.tight.len()
            invariant
                kernel_inputs(*prob, *v, hv@, containing@, *params),
                d == prob.d,
                ci < containing@.len(),
                c == containing@[ci as int],
                ti <= c.tight@.len(),
                basis@.len() == d,
                forall|k: int| 0 <= k < d ==> (#[trigger] basis@[k]) < prob.hyps@.len(),
                adj@.len() == d * d,
                all_wf(adj@),
                full == crate::cube::full_mask(d as nat),
                    dsign == 1 || dsign == -1,
                d * d <= 4096,
                crate::cube::cube_ok((mask, vals), full),
            decreases c.tight@.len() - ti,
        {
            let tc = c.tight[ti];
            proof {
                assert(tc.c.wf(prob.hyps@.len()));
            }
            let h = tc.c.h;
            let mut pos: usize = d;
            let mut k: usize = 0;
            while k < d
                invariant
                    k <= d,
                    basis@.len() == d,
                    pos <= d,
                decreases d - k,
            {
                if pos == d && basis[k] == h {
                    pos = k;
                }
                k = k + 1;
            }
            if pos < d {
                proof {
                    crate::cube::lemma_full_has_bit(d as nat, pos as u64);
                    bv_add_coordinate(mask, vals, full, pos as u64);
                }
                mask = mask | (1u64 << pos);
                if tc.c.o < 0 {
                    vals = vals | (1u64 << pos);
                }
            } else {
                // lexicographic sign of Σ_{k∈B} (R_hk/det) ε_k − ε_h  with ε_k = ε^{k+1}
                proof {
                    assert(prob.hyps@[h as int].wf(d as nat));
                }
                let nh = &prob.hyps[h].n;
                let mut sign: i8 = -1;
                let mut k: usize = 0;
                while k < d
                    invariant
                        k <= d,
                        basis@.len() == d,
                        nh@.len() == d,
                        all_wf(nh@),
                        adj@.len() == d * d,
                        all_wf(adj@),
                        d <= 64,
                        d * d <= 4096,
                        dsign == 1 || dsign == -1,
                        tc.c.o == 1 || tc.c.o == -1,
                        sign == 1 || sign == -1 || sign == 0,
                    decreases d - k,
                {
                    if basis[k] > h {
                        break;
                    }
                    let mut r = Z::zero();
                    let mut j: usize = 0;
                    while j < d
                        invariant
                            j <= d,
                            k < d,
                            d * d <= 4096,
                            nh@.len() == d,
                            all_wf(nh@),
                            adj@.len() == d * d,
                            all_wf(adj@),
                            r.wf(),
                        decreases d - j,
                    {
                        proof {
                            crate::linalg::lemma_cell(j as int, k as int, d as int, d as int);
                        }
                        if !nh[j].is_zero() && !adj[j * d + k].is_zero() {
                            r = add_zz(&r, &mul_zz(&nh[j], &adj[j * d + k]));
                        }
                        j = j + 1;
                    }
                    if !r.is_zero() {
                        sign = r.signum() * dsign;
                        break;
                    }
                    k = k + 1;
                }
                if tc.c.o * sign >= 0 {
                    pass = false;
                    break;
                }
            }
            ti = ti + 1;
        }
        if pass {
            cubes.push((mask, vals));
        }
        ci = ci + 1;
    }
    if cubes.len() == 0 {
        return Ok(());
    }
    let chi = chi_union(cubes.as_slice(), d);
    if chi == 0 {
        return Ok(());
    }
    // Y_k = a · adj[:,k]
    let mut y: Vec<Z> = Vec::new();
    let mut zeros: usize = 0;
    let mut k: usize = 0;
    while k < d
        invariant
            k <= d,
            d == prob.d,
            d * d <= 4096,
            params.wf(d as nat),
            adj@.len() == d * d,
            all_wf(adj@),
            y@.len() == k,
            all_wf(y@),
            zeros <= k,
            zeros == 0 ==> forall|i: int| 0 <= i < k ==> (#[trigger] y@[i])@ != 0,
        decreases d - k,
    {
        let mut s = Z::zero();
        let mut j: usize = 0;
        while j < d
            invariant
                j <= d,
                k < d,
                d * d <= 4096,
                params.wf(d as nat),
                adj@.len() == d * d,
                all_wf(adj@),
                s.wf(),
            decreases d - j,
        {
            proof {
                crate::linalg::lemma_cell(j as int, k as int, d as int, d as int);
            }
            if !params.a[j].is_zero() && !adj[j * d + k].is_zero() {
                s = add_zz(&s, &mul_zz(&params.a[j], &adj[j * d + k]));
            }
            j = j + 1;
        }
        if s.is_zero() {
            zeros = zeros + 1;
        }
        y.push(s);
        k = k + 1;
    }
    if zeros == 0 {
        // f = chi · det^d / (d! · |det| · Π(−Y_k))
        stats.terms = stats.terms.saturating_add(1);
        let mut den = mul_zz(dfact, &det.abs());
        proof {
            crate::arith::lemma_mul_nonzero(dfact@, crate::arith::abs(det@) as int);
        }
        let mut k: usize = 0;
        while k < d
            invariant
                k <= d,
                y@.len() == d,
                all_wf(y@),
                forall|i: int| 0 <= i < d ==> (#[trigger] y@[i])@ != 0,
                den.wf(),
                den@ != 0,
            decreases d - k,
        {
            let ny = neg_z(&y[k]);
            proof {
                crate::arith::lemma_mul_nonzero(den@, ny@);
            }
            den = mul_zz(&den, &ny);
            k = k + 1;
        }
        let num = mul_zz(&det.pow(d as u32), &Z::from_i64(chi));
        vc.top = vc.top.add(&Q::new(num, den));
        Ok(())
    } else {
        let r = match params.r {
            Some(r) => r,
            None => {
                return Err(KernelError::NonGeneric { vertex: v.to_string() });
            },
        };
        stats.laurent_terms = stats.laurent_terms.saturating_add(1);
        let mut yr: Vec<Z> = Vec::new();
        let mut k: usize = 0;
        while k < d
            invariant
                k <= d,
                d * d <= 4096,
                r@.len() == d,
                all_wf(r@),
                adj@.len() == d * d,
                all_wf(adj@),
                yr@.len() == k,
                all_wf(yr@),
            decreases d - k,
        {
            let mut s = Z::zero();
            let mut j: usize = 0;
            while j < d
                invariant
                    j <= d,
                    k < d,
                    d * d <= 4096,
                    r@.len() == d,
                    all_wf(r@),
                    adj@.len() == d * d,
                    all_wf(adj@),
                    s.wf(),
                decreases d - j,
            {
                proof {
                    crate::linalg::lemma_cell(j as int, k as int, d as int, d as int);
                }
                if !r[j].is_zero() && !adj[j * d + k].is_zero() {
                    s = add_zz(&s, &mul_zz(&r[j], &adj[j * d + k]));
                }
                j = j + 1;
            }
            yr.push(s);
            k = k + 1;
        }
        let rq = match rho {
            Some(q) => q,
            None => {
                return Ok(());
            },
        };
        laurent_term(vc, d, chi, &det, dfact, y.as_slice(), yr.as_slice(), zeros, rq, v)
    }
}

/// All entries zero, `n` of them.
pub fn zero_qs(n: usize) -> (r: Vec<Q>)
    ensures
        r@.len() == n,
        all_q_wf(r@),
        forall|i: int| 0 <= i < n ==> (#[trigger] r@[i]).num@ == 0,
{
    let mut out: Vec<Q> = Vec::new();
    let mut i: usize = 0;
    while i < n
        invariant
            i <= n,
            out@.len() == i,
            all_q_wf(out@),
            forall|j: int| 0 <= j < i ==> (#[trigger] out@[j]).num@ == 0,
        decreases n - i,
    {
        out.push(Q::zero());
        i = i + 1;
    }
    out
}

/// Laurent expansion of one basis term with `p = zeros` vanishing `Y_k`.
///
/// `T(ε) = C · ε^{-p} · Π_{Y_k≠0} 1/(1 + ε Y'_k/Y_k)` with
/// `C = χ det^d / (d! |det| Π_{Y_k=0}(−Y'_k) Π_{Y_k≠0}(−Y_k))`, multiplied by
/// `(λ − κ − ε ρ)^d = Σ_j C(d,j) (λ−κ)^{d−j} (−ρ)^j ε^j`.
fn laurent_term(
    vc: &mut VertexContribution,
    d: usize,
    chi: i64,
    det: &Z,
    dfact: &Z,
    y: &[Z],
    yr: &[Z],
    p: usize,
    rho: &Q,
    v: &Point,
) -> (r: Result<(), KernelError>)
    requires
        old(vc).wf(),
        old(vc).d == d,
        1 <= d <= 64,
        det.wf(),
        det@ != 0,
        dfact.wf(),
        dfact@ > 0,
        y@.len() == d,
        yr@.len() == d,
        all_wf(y@),
        all_wf(yr@),
        p <= d,
        rho.wf(),
        v.wf(),
    ensures
        r is Err <==> exists|k: int| 0 <= k < d && (#[trigger] y@[k])@ == 0 && yr@[k]@ == 0,
        r matches Err(e) ==> e is BadPerturbation && *final(vc) == *old(vc),
        r is Ok ==> final(vc).wf() && final(vc).d == d && final(vc).laurent is Some && final(vc).top
            == old(vc).top,
        r is Ok ==> forall|m: int, c: int|
            0 <= m <= d && 0 <= c <= d ==> equiv(
                qv(#[trigger] cell(final(vc).laurent->0@, d + 1, m, c)),
                padd(
                    prior_cell(*old(vc), m, c),
                    lau_coef(
                        lau_const(zvals(y@), zvals(yr@), chi as int, det@, dfact@, d as nat),
                        lau_series(zvals(y@), zvals(yr@), p as nat, d as int),
                        (-rho.num@, rho.den@),
                        d as nat,
                        p as int,
                        m,
                        d - c,
                    ),
                ),
            ),
{
    let ghost yv = zvals(y@);
    let ghost yrv = zvals(yr@);
    let mut den = mul_zz(dfact, &det.abs());
    proof {
        crate::arith::lemma_mul_nonzero(dfact@, crate::arith::abs(det@) as int);
    }
    let mut k: usize = 0;
    while k < d
        invariant
            k <= d,
            y@.len() == d,
            yr@.len() == d,
            yv == zvals(y@),
            yrv == zvals(yr@),
            all_wf(y@),
            all_wf(yr@),
            den.wf(),
            den@ != 0,
            den@ == lau_den(yv, yrv, dfact@ * crate::arith::abs(det@), k as int),
            v.wf(),
            forall|i: int| 0 <= i < k ==> !((#[trigger] y@[i])@ == 0 && yr@[i]@ == 0),
        decreases d - k,
    {
        let f = if y[k].is_zero() {
            if yr[k].is_zero() {
                return Err(KernelError::BadPerturbation { vertex: v.to_string() });
            }
            neg_z(&yr[k])
        } else {
            neg_z(&y[k])
        };
        proof {
            crate::arith::lemma_mul_nonzero(den@, f@);
            assert(f@ == lau_factor(yv, yrv, k as int));
        }
        den = mul_zz(&den, &f);
        k = k + 1;
    }
    let c = Q::new(mul_zz(&det.pow(d as u32), &Z::from_i64(chi)), den);
    let ghost cc = lau_const(yv, yrv, chi as int, det@, dfact@, d as nat);
    proof {
        lemma_signed_pair(c, pow(det@, d as nat) * chi, lau_den(yv, yrv, dfact@ * crate::arith::abs(det@), d as int));
    }
    // power series  Π_{Y_k≠0} 1/(1 + ε t_k),  t_k = Y'_k/Y_k, truncated at order p
    let series = series_of(d, y, yr, p);
    let ghost ss = lau_series(yv, yrv, p as nat, d as int);
    let ghost nrho = (-rho.num@, rho.den@);
    proof {
        lemma_series_dens(yv, yrv, p as nat, d as int);
    }
    // [ε^{-m}] T = C · series[p − m],  m = 0..p
    // coefficient of ε^{-m} (λ−κ)^{d−j}:  Σ_j [ε^{-m-j}]T · C(d,j) (−ρ)^j
    let w = d + 1;
    proof {
        assert(w * w <= 4225) by (nonlinear_arith)
            requires
                w <= 65,
        ;
    }
    let mut l = match vc.laurent.take() {
        Some(l) => l,
        None => zero_qs(w * w),
    };
    let ghost l0 = l@;
    proof {
        assert forall|m: int, cl: int| 0 <= m <= d && 0 <= cl <= d implies equiv(
            qv(#[trigger] cell(l0, w as int, m, cl)),
            prior_cell(*old(vc), m, cl),
        ) by {
            crate::linalg::lemma_cell(m, cl, w as int, w as int);
            if old(vc).laurent is None {
                assert(l0[m * w + cl].num@ == 0);
                crate::laurent::lemma_zero_stands_pair(l0[m * w + cl]);
            }
        }
    }
    let mut rpow = Q::one();
    let mut j: usize = 0;
    while j <= d
        invariant
            j <= d + 1,
            1 <= d <= 64,
            w == d + 1,
            w * w <= 4225,
            p <= d,
            l@.len() == w * w,
            l0.len() == w * w,
            all_q_wf(l@),
            all_q_wf(l0),
            series@.len() == p + 1,
            all_q_wf(series@),
            ss.len() == p + 1,
            pos_dens(ss),
            forall|q: int| 0 <= q <= p ==> equiv(qv(#[trigger] series@[q]), ss[q]),
            rpow.wf(),
            rho.wf(),
            nrho == (-rho.num@, rho.den@),
            j <= d ==> (j == 0 ==> qv(rpow) == (1int, 1int)) && (j > 0 ==> equiv(qv(rpow), ppow(nrho, (j - 1) as nat))),
            c.wf(),
            cc.1 > 0,
            equiv(qv(c), cc),
            forall|m: int, cl: int|
                0 <= m <= d && 0 <= cl <= d ==> equiv(
                    qv(#[trigger] cell(l@, w as int, m, cl)),
                    if d - cl < j {
                        padd(qv(cell(l0, w as int, m, cl)), lau_coef(cc, ss, nrho, d as nat, p as int, m, d - cl))
                    } else {
                        qv(cell(l0, w as int, m, cl))
                    },
                ),
        decreases d + 1 - j,
    {
        let ghost rp0 = rpow;
        if j > 0 {
            rpow = rpow.mul(&rho.neg());
            proof {
                crate::sweep::lemma_ppow_pos(nrho, (j - 1) as nat);
                crate::sweep::lemma_cong(qv(rp0), ppow(nrho, (j - 1) as nat), nrho, nrho);
                crate::sweep::lemma_equiv_trans(qv(rpow), pmul(qv(rp0), nrho), ppow(nrho, j as nat));
            }
        }
        proof {
            crate::sweep::lemma_ppow_pos(nrho, j as nat);
            assert(equiv(qv(rpow), ppow(nrho, j as nat)));
        }
        let bin = Q::from_z(binomial(d, j));
        let mut m: usize = 0;
        while m <= d
            invariant
                m <= d + 1,
                j <= d,
                1 <= d <= 64,
                w == d + 1,
                w * w <= 4225,
                p <= d,
                l@.len() == w * w,
                l0.len() == w * w,
                all_q_wf(l@),
                all_q_wf(l0),
                series@.len() == p + 1,
                all_q_wf(series@),
                ss.len() == p + 1,
                pos_dens(ss),
                forall|q: int| 0 <= q <= p ==> equiv(qv(#[trigger] series@[q]), ss[q]),
                rpow.wf(),
                nrho.1 > 0,
                equiv(qv(rpow), ppow(nrho, j as nat)),
                bin.wf(),
                qv(bin) == (crate::arith::binom(d as nat, j as nat) as int, 1int),
                c.wf(),
                cc.1 > 0,
                equiv(qv(c), cc),
                forall|m2: int, cl: int|
                    0 <= m2 <= d && 0 <= cl <= d ==> equiv(
                        qv(#[trigger] cell(l@, w as int, m2, cl)),
                        if d - cl < j || (d - cl == j && m2 < m) {
                            padd(qv(cell(l0, w as int, m2, cl)), lau_coef(cc, ss, nrho, d as nat, p as int, m2, d - cl))
                        } else {
                            qv(cell(l0, w as int, m2, cl))
                        },
                    ),
            decreases d + 1 - m,
        {
            let ghost lb = l@;
            let ghost cs = lau_coef(cc, ss, nrho, d as nat, p as int, m as int, j as int);
            let ghost x0 = qv(cell(l0, w as int, m as int, (d - j) as int));
            proof {
                crate::linalg::lemma_cell(m as int, (d - j) as int, w as int, w as int);
                lemma_coef_den(cc, ss, nrho, d as nat, p as int, m as int, j as int);
                assert(l0[m * w + (d - j)].wf());
                assert(equiv(qv(cell(lb, w as int, m as int, (d - j) as int)), x0));
            }
            let order = m + j;
            if order <= p {
                let t1 = c.mul(&series[p - order]);
                let t2 = t1.mul(&bin);
                let coef = t2.mul(&rpow);
                proof {
                    assert(ss[p - order].1 > 0);
                    crate::sweep::lemma_ppow_pos(nrho, j as nat);
                    lemma_product_chain(
                        c,
                        series@[p - order],
                        bin,
                        rpow,
                        t1,
                        t2,
                        coef,
                        cc,
                        ss[p - order],
                        qv(bin),
                        ppow(nrho, j as nat),
                    );
                }
                if !coef.is_zero() {
                    let val = l[m * w + (d - j)].add(&coef);
                    proof {
                        lemma_entry_add(lb[m * w + (d - j)], coef, val, x0, cs);
                    }
                    l.set(m * w + (d - j), val);
                } else {
                    proof {
                        lemma_zero_stands(coef, cs);
                        lemma_entry_skip(lb[m * w + (d - j)], x0, cs);
                    }
                }
            } else {
                proof {
                    lemma_entry_skip(lb[m * w + (d - j)], x0, cs);
                }
            }
            proof {
                assert forall|m2: int, cl: int| 0 <= m2 <= d && 0 <= cl <= d implies equiv(
                    qv(#[trigger] cell(l@, w as int, m2, cl)),
                    if d - cl < j || (d - cl == j && m2 < m + 1) {
                        padd(qv(cell(l0, w as int, m2, cl)), lau_coef(cc, ss, nrho, d as nat, p as int, m2, d - cl))
                    } else {
                        qv(cell(l0, w as int, m2, cl))
                    },
                ) by {
                    if m2 != m || cl != d - j {
                        lemma_cell_distinct(m2, cl, m as int, (d - j) as int, w as int);
                        crate::linalg::lemma_cell(m2, cl, w as int, w as int);
                        assert(l@[m2 * w + cl] == lb[m2 * w + cl]);
                        assert(equiv(qv(cell(lb, w as int, m2, cl)), if d - cl < j || (d - cl == j && m2 < m) {
                            padd(qv(cell(l0, w as int, m2, cl)), lau_coef(cc, ss, nrho, d as nat, p as int, m2, d - cl))
                        } else {
                            qv(cell(l0, w as int, m2, cl))
                        }));
                    }
                }
            }
            m = m + 1;
        }
        j = j + 1;
    }
    proof {
        assert forall|m: int, cl: int| 0 <= m <= d && 0 <= cl <= d implies equiv(
            qv(#[trigger] cell(l@, d + 1, m, cl)),
            padd(prior_cell(*old(vc), m, cl), lau_coef(cc, ss, nrho, d as nat, p as int, m, d - cl)),
        ) by {
            crate::linalg::lemma_cell(m, cl, w as int, w as int);
            let x0 = qv(cell(l0, w as int, m, cl));
            let pc = prior_cell(*old(vc), m, cl);
            let cs = lau_coef(cc, ss, nrho, d as nat, p as int, m, d - cl);
            assert(equiv(qv(cell(l@, w as int, m, cl)), padd(x0, cs)));
            assert(equiv(x0, pc));
            assert(l0[m * w + cl].wf());
            lemma_coef_den(cc, ss, nrho, d as nat, p as int, m, d - cl);
            crate::laurent::lemma_prior_den(*old(vc), m, cl);
            crate::sweep::lemma_cong(x0, pc, cs, cs);
            crate::sweep::lemma_equiv_trans(qv(cell(l@, w as int, m, cl)), padd(x0, cs), padd(pc, cs));
        }
    }
    vc.laurent = Some(l);
    Ok(())
}

} // verus!
