//! End-to-end pipeline: preprocessing → shared arrangement → facet tasks →
//! reverse search → sweep function.
use crate::geom::{bbox_wf, Problem, RawConstraint};
use crate::local::{kernel_error_fits, KernelError, SweepParams};
use crate::direction::scaled_direction;
use crate::num::{integerize, sign_of, Q, Z};
use crate::oracle::oracle_sweep;
use crate::preprocess::{prepare, PrepError};
use crate::reverse::{facet_root, run_facet, run_subtree, FacetTask, SearchStats, SubtreeTask, HIST_BUCKETS};
use crate::sweep::{qv, Accumulator, SweepFunction};
use vstd::prelude::*;

verus! {

/// Solver options.
#[derive(Clone, Debug)]
pub struct Options {
    pub assume_generic: bool,
    pub seed: u64,
    pub oracle: bool,
    pub verbose: bool,
    /// node budget per subtree task before the remainder goes back to the
    /// work queue (`None` = one task per facet)
    pub budget: Option<u64>,
}

impl Default for Options {
    fn default() -> (r: Options)
        ensures
            !r.assume_generic && r.seed == 0x9e3779b97f4a7c15u64 && !r.oracle && !r.verbose && r.budget == Some(2000u64),
    {
        Options { assume_generic: false, seed: 0x9e3779b97f4a7c15, oracle: false, verbose: false, budget: Some(2000) }
    }
}

/// Why a run failed.
#[derive(Debug)]
pub enum Error {
    Input(String),
    Polytope { index: usize, err: PrepError },
    Kernel(KernelError),
    Internal(String),
}

/// Message for a polytope that failed preprocessing.
/// Trusted: std `format!`, which writes the literal pieces, the index in
/// decimal (`usize`'s `Display`) and the text of the error between them.
#[verifier::external_body]
fn msg_polytope(index: usize, err: String) -> (r: String)
    ensures
        r@ == "polytope "@ + crate::text::int_repr(index as int) + ": "@ + err@,
{
    format!("polytope {index}: {err}")
}

/// Message for input errors.
/// Trusted: std `format!`, which writes the literal piece and the text.
#[verifier::external_body]
fn msg_input(s: &str) -> (r: String)
    ensures
        r@ == "input error: "@ + s@,
{
    format!("input error: {s}")
}

impl Error {
    /// Human-readable description; an internal error is its own text.
    pub fn message(&self) -> (r: String)
        ensures
            self matches Error::Input(s) ==> r@ == "input error: "@ + s@,
            self matches Error::Polytope { index, err } ==> r@ == "polytope "@ + crate::text::int_repr(index as int)
                + ": "@ + crate::preprocess::prep_text(*err),
            self matches Error::Kernel(e) ==> r@ == e.text(),
            self matches Error::Internal(s) ==> r@ == s@,
    {
        match self {
            Error::Input(s) => msg_input(s.as_str()),
            Error::Polytope { index, err } => msg_polytope(*index, err.message()),
            Error::Kernel(e) => e.message(),
            Error::Internal(s) => s.clone(),
        }
    }
}

/// Counters of a run.
#[derive(Clone, Debug)]
pub struct Report {
    pub d: usize,
    pub polytopes: usize,
    pub hyperplanes: usize,
    pub facets: usize,
    pub redundant_removed: usize,
    pub search: SearchStats,
    pub prep_ms: u128,
    pub search_ms: u128,
}

impl Default for Report {
    fn default() -> (r: Report)
        ensures
            r.d == 0 && r.polytopes == 0 && r.hyperplanes == 0 && r.facets == 0 && r.redundant_removed == 0,
            r.prep_ms == 0 && r.search_ms == 0,
            r.search.tasks == 0 && r.search.nodes == 0 && r.search.emitted == 0,
    {
        Report {
            d: 0,
            polytopes: 0,
            hyperplanes: 0,
            facets: 0,
            redundant_removed: 0,
            search: SearchStats::new(),
            prep_ms: 0,
            search_ms: 0,
        }
    }
}

/// The shared arrangement of all polytopes, the restricted arrangement of
/// each polytope and one search task per facet.
pub struct Prepared {
    pub prob: Problem,
    /// per-polytope restricted arrangement, indexed like `polys`
    pub views: Vec<Problem>,
    pub tasks: Vec<FacetTask>,
    pub redundant_removed: usize,
}

impl Prepared {
    /// Everything a search over these tasks relies on.
    pub open spec fn wf(&self, d: usize) -> bool {
        &&& self.prob.wf()
        &&& self.prob.d == d
        &&& self.views@.len() == self.prob.polys@.len()
        &&& forall|i: int| 0 <= i < self.views@.len() ==> (#[trigger] self.views@[i]).wf() && self.views@[i].d == d
        &&& forall|t: int| 0 <= t < self.tasks@.len() ==> task_ok(#[trigger] self.tasks@[t], self.prob)
    }
}

/// A facet task of the shared arrangement.
pub open spec fn task_ok(t: FacetTask, prob: Problem) -> bool {
    &&& t.poly < prob.polys@.len()
    &&& t.facet < prob.polys@[t.poly as int].cons@.len()
    &&& t.start.wf()
    &&& t.start.num@.len() == prob.d
}

/// Preprocess all polytopes and build the shared arrangement.
pub fn prepare_all(d: usize, raw: &[Vec<RawConstraint>]) -> (r: Result<Prepared, Error>)
    requires
        forall|p: int, c: int| 0 <= p < raw@.len() && 0 <= c < raw@[p]@.len() ==> (#[trigger] raw@[p]@[c]).wf(),
        2 * d * d <= usize::MAX,
    ensures
        raw@.len() == 0 ==> r matches Err(Error::Input(_)),
        r matches Err(Error::Input(_)) ==> raw@.len() == 0,
        r matches Err(e) ==> !(e is Kernel),
        r matches Err(Error::Polytope { index, err }) ==> index < raw@.len(),
        r matches Ok(p) ==> p.wf(d) && p.prob.polys@.len() == raw@.len(),
{
    if raw.len() == 0 {
        return Err(Error::Input("no polytopes".to_owned()));
    }
    let mut preps: Vec<crate::preprocess::Prepared> = Vec::new();
    let mut i: usize = 0;
    while i < raw.len()
        invariant
            i <= raw@.len(),
            2 * d * d <= usize::MAX,
            forall|p: int, c: int| 0 <= p < raw@.len() && 0 <= c < raw@[p]@.len() ==> (#[trigger] raw@[p]@[c]).wf(),
            preps@.len() == i,
            forall|k: int| 0 <= k < i ==> prep_ok(#[trigger] preps@[k], d),
        decreases raw@.len() - i,
    {
        proof {
            assert forall|c: int| 0 <= c < raw@[i as int]@.len() implies (#[trigger] raw@[i as int]@[c]).wf() by {}
        }
        match prepare(d, raw[i].as_slice()) {
            Ok(p) => {
                preps.push(p);
            },
            Err(err) => {
                return Err(Error::Polytope { index: i, err });
            },
        }
        i = i + 1;
    }
    let mut cleaned: Vec<Vec<RawConstraint>> = Vec::new();
    let mut bboxes: Vec<(Vec<Q>, Vec<Q>)> = Vec::new();
    let mut removed: usize = 0;
    let mut i: usize = 0;
    while i < preps.len()
        invariant
            i <= preps@.len(),
            forall|k: int| 0 <= k < preps@.len() ==> prep_ok(#[trigger] preps@[k], d),
            cleaned@.len() == i,
            bboxes@.len() == i,
            forall|p: int, c: int|
                0 <= p < cleaned@.len() && 0 <= c < cleaned@[p]@.len() ==> (#[trigger] cleaned@[p]@[c]).wf(),
            forall|p: int, c: int|
                0 <= p < cleaned@.len() && 0 <= c < cleaned@[p]@.len() ==> !crate::geom::rejected(
                    #[trigger] cleaned@[p]@[c],
                    d as nat,
                ),
            forall|p: int| 0 <= p < i ==> bbox_wf(#[trigger] bboxes@[p], d as nat),
        decreases preps@.len() - i,
    {
        let p = &preps[i];
        proof {
            assert(prep_ok(*p, d));
        }
        let ghost c0 = cleaned@;
        cleaned.push(clone_cons(p.cons.as_slice()));
        bboxes.push((crate::geom::clone_qs(p.bbox.0.as_slice()), crate::geom::clone_qs(p.bbox.1.as_slice())));
        removed = removed.saturating_add(p.removed_redundant);
        proof {
            assert forall|q: int, c: int| 0 <= q < cleaned@.len() && 0 <= c < cleaned@[q]@.len() implies (
            #[trigger] cleaned@[q]@[c]).wf() by {
                if q < i {
                    assert(cleaned@[q] == c0[q]);
                }
            }
            assert forall|q: int, c: int| 0 <= q < cleaned@.len() && 0 <= c < cleaned@[q]@.len() implies !crate::geom::rejected(
                #[trigger] cleaned@[q]@[c],
                d as nat,
            ) by {
                if q < i {
                    assert(cleaned@[q] == c0[q]);
                } else {
                    let cc = cleaned@[q]@[c];
                    let pc = p.cons@[c];
                    assert(p.cons@[c].a@.len() == d);
                    assert(!crate::geom::zero_normal(pc));
                    assert(crate::geom::qnums(cc.a@) == crate::geom::qnums(pc.a@));
                }
            }
        }
        i = i + 1;
    }
    let prob = match Problem::from_raw(d, cleaned.as_slice()) {
        Ok(p) => p,
        Err(e) => {
            return Err(Error::Input(e));
        },
    };
    let mut tasks: Vec<FacetTask> = Vec::new();
    let mut i: usize = 0;
    while i < preps.len()
        invariant
            i <= preps@.len(),
            raw@.len() > 0,
            preps@.len() == prob.polys@.len(),
            prob.wf(),
            prob.d == d,
            forall|k: int| 0 <= k < preps@.len() ==> prep_ok(#[trigger] preps@[k], d),
            forall|t: int| 0 <= t < tasks@.len() ==> task_ok(#[trigger] tasks@[t], prob),
        decreases preps@.len() - i,
    {
        let p = &preps[i];
        proof {
            assert(prep_ok(*p, d));
        }
        if prob.polys[i].cons.len() != p.facet_starts.len() {
            return Err(Error::Internal("facet count changed in the shared arrangement".to_owned()));
        }
        let mut j: usize = 0;
        while j < p.facet_starts.len()
            invariant
                i < preps@.len(),
                preps@.len() == prob.polys@.len(),
                j <= p.facet_starts@.len(),
                prep_ok(*p, d),
                prob.polys@[i as int].cons@.len() == p.facet_starts@.len(),
                prob.d == d,
                forall|t: int| 0 <= t < tasks@.len() ==> task_ok(#[trigger] tasks@[t], prob),
            decreases p.facet_starts@.len() - j,
        {
            let start = p.facet_starts[j].clone();
            tasks.push(FacetTask { poly: i, facet: j, start });
            j = j + 1;
        }
        i = i + 1;
    }
    let mut views: Vec<Problem> = Vec::new();
    let mut i: usize = 0;
    while i < preps.len()
        invariant
            i <= preps@.len(),
            preps@.len() == prob.polys@.len(),
            bboxes@.len() == prob.polys@.len(),
            prob.wf(),
            prob.d == d,
            forall|p: int| 0 <= p < bboxes@.len() ==> bbox_wf(#[trigger] bboxes@[p], d as nat),
            views@.len() == i,
            forall|k: int| 0 <= k < i ==> (#[trigger] views@[k]).wf() && views@[k].d == d,
        decreases preps@.len() - i,
    {
        views.push(prob.local_view(i, bboxes.as_slice()));
        i = i + 1;
    }
    Ok(Prepared { prob, views, tasks, redundant_removed: removed })
}

/// What a successful preprocessing of one polytope gives.
pub open spec fn prep_ok(p: crate::preprocess::Prepared, d: usize) -> bool {
    &&& p.facet_starts@.len() == p.cons@.len()
    &&& forall|i: int| 0 <= i < p.cons@.len() ==> !crate::geom::zero_normal(#[trigger] p.cons@[i])
    &&& forall|i: int, j: int|
        0 <= i < p.cons@.len() && 0 <= j < p.facet_starts@.len() ==> crate::preprocess::satisfied_at(
            #[trigger] p.cons@[i],
            #[trigger] p.facet_starts@[j],
        )
    &&& forall|i: int| 0 <= i < p.facet_starts@.len() ==> (#[trigger] p.facet_starts@[i]).wf() && p.facet_starts@[i].num@.len() == d
    &&& forall|i: int| 0 <= i < p.cons@.len() ==> (#[trigger] p.cons@[i]).wf() && p.cons@[i].a@.len() == d
    &&& bbox_wf(p.bbox, d as nat)
}

/// Entrywise copy of a constraint list.
fn clone_cons(c: &[RawConstraint]) -> (r: Vec<RawConstraint>)
    requires
        forall|i: int| 0 <= i < c@.len() ==> (#[trigger] c@[i]).wf(),
    ensures
        r@.len() == c@.len(),
        forall|i: int| 0 <= i < r@.len() ==> (#[trigger] r@[i]).wf() && r@[i].a@.len() == c@[i].a@.len(),
        forall|i: int| 0 <= i < r@.len() ==> crate::geom::qnums((#[trigger] r@[i]).a@) == crate::geom::qnums(c@[i].a@)
            && r@[i].b.num@ == c@[i].b.num@,
{
    let mut out: Vec<RawConstraint> = Vec::new();
    let mut i: usize = 0;
    while i < c.len()
        invariant
            i <= c@.len(),
            forall|k: int| 0 <= k < c@.len() ==> (#[trigger] c@[k]).wf(),
            out@.len() == i,
            forall|k: int| 0 <= k < i ==> (#[trigger] out@[k]).wf() && out@[k].a@.len() == c@[k].a@.len(),
            forall|k: int| 0 <= k < i ==> crate::geom::qnums((#[trigger] out@[k]).a@) == crate::geom::qnums(c@[k].a@)
                && out@[k].b.num@ == c@[k].b.num@,
        decreases c@.len() - i,
    {
        proof {
            assert(c@[i as int].wf());
        }
        let a = crate::geom::clone_qs(c[i].a.as_slice());
        let b = c[i].b.clone();
        proof {
            assert(crate::geom::all_q_wf(a@)) by {
                assert forall|k: int| 0 <= k < a@.len() implies (#[trigger] a@[k]).wf() by {
                    assert(c@[i as int].a@[k].wf());
                }
            }
        }
        proof {
            assert(crate::geom::qnums(a@) =~= crate::geom::qnums(c@[i as int].a@));
        }
        out.push(RawConstraint { a, b });
        i = i + 1;
    }
    out
}

/// One round of the xorshift generator.
pub open spec fn xorshift(s: u64) -> u64 {
    let a = s ^ (s << 13u64);
    let b = a ^ (a >> 7u64);
    b ^ (b << 17u64)
}

/// The generator state after `k` rounds from `s`.
pub open spec fn xorshift_n(s: u64, k: nat) -> u64
    decreases k,
{
    if k == 0 {
        s
    } else {
        xorshift(xorshift_n(s, (k - 1) as nat))
    }
}

/// A perturbation entry from a generator state: `s mod 2^40 − 2^39`, with
/// 0 replaced by 1.
pub open spec fn perturbation_entry(s: u64) -> int {
    let x = (s % 0x100_0000_0000u64) as int - 0x80_0000_0000int;
    if x == 0 {
        1
    } else {
        x
    }
}

/// One xorshift round.
fn xorshift_step(s: u64) -> (r: u64)
    ensures
        r == xorshift(s),
{
    let a = s ^ (s << 13u64);
    let b = a ^ (a >> 7u64);
    b ^ (b << 17u64)
}

/// Pseudo-random integer perturbation direction from a seed.
pub fn perturbation(d: usize, seed: u64) -> (r: Vec<Z>)
    ensures
        r@.len() == d,
        crate::num::all_wf(r@),
        forall|i: int| 0 <= i < d ==> (#[trigger] r@[i])@ == perturbation_entry(xorshift_n(seed | 1, (i + 1) as nat)),
{
    let mut s = seed | 1;
    let mut out: Vec<Z> = Vec::new();
    let mut i: usize = 0;
    while i < d
        invariant
            i <= d,
            s == xorshift_n(seed | 1, i as nat),
            out@.len() == i,
            crate::num::all_wf(out@),
            forall|k: int| 0 <= k < i ==> (#[trigger] out@[k])@ == perturbation_entry(xorshift_n(seed | 1, (k + 1) as nat)),
        decreases d - i,
    {
        s = xorshift_step(s);
        let x: i64 = (s % 0x100_0000_0000u64) as i64 - 0x80_0000_0000i64;
        out.push(Z::from_i64(if x == 0 {
            1
        } else {
            x
        }));
        i = i + 1;
    }
    out
}

/// A direction entry from a generator state: `s mod 9973 + 1`.
pub open spec fn direction_entry(s: u64) -> int {
    (s % 9973) as int + 1
}

/// Default sweep direction: generic-looking pseudo-random small positive
/// integers.
pub fn default_direction(d: usize, seed: u64) -> (r: Vec<Q>)
    ensures
        r@.len() == d,
        crate::geom::all_q_wf(r@),
        forall|i: int|
            0 <= i < d ==> (#[trigger] r@[i]).den@ == 1 && r@[i].num@ == direction_entry(
                xorshift_n(seed.wrapping_mul(0x2545F4914F6CDD1Du64) | 1, (i + 1) as nat),
            ),
{
    let s0 = seed.wrapping_mul(0x2545F4914F6CDD1D) | 1;
    let mut s = s0;
    let mut out: Vec<Q> = Vec::new();
    let mut i: usize = 0;
    while i < d
        invariant
            i <= d,
            s0 == seed.wrapping_mul(0x2545F4914F6CDD1Du64) | 1,
            s == xorshift_n(s0, i as nat),
            out@.len() == i,
            crate::geom::all_q_wf(out@),
            forall|k: int| 0 <= k < i ==> (#[trigger] out@[k]).den@ == 1 && out@[k].num@ == direction_entry(xorshift_n(s0, (k + 1) as nat)),
        decreases d - i,
    {
        s = xorshift_step(s);
        let x: i64 = (s % 9973) as i64 + 1;
        out.push(Q::from_z(Z::from_i64(x)));
        i = i + 1;
    }
    out
}

/// What a budgeted facet exploration may fail with: a kernel error of the
/// kind its parameters allow, or running out of subtree rounds.
pub open spec fn task_error(e: Error, perturbed: bool) -> bool {
    match e {
        Error::Kernel(k) => kernel_error_fits(k, perturbed),
        Error::Internal(s) => s@ == "too many subtree tasks"@,
        _ => false,
    }
}

/// What the search over all facets may fail with: what a facet exploration
/// may fail with, or a facet missing from its polytope's view.
pub open spec fn search_error(e: Error, perturbed: bool) -> bool {
    ||| task_error(e, perturbed)
    ||| e matches Error::Internal(s) && s@ == "facet missing from its restricted view"@
}

/// Budgeted exploration of one facet: the root subtree, then every
/// leftover subtree, until none is left.  Every piece owns its accumulator;
/// they are merged as they return.
fn run_task(prob: &Problem, task: SubtreeTask, params: &SweepParams, budget: u64) -> (r: Result<
    (Accumulator, SearchStats),
    Error,
>)
    requires
        crate::reverse::search_inputs(*prob, task.poly, task.facet, task.root, *params),
    ensures
        r matches Ok((acc, st)) ==> acc.wf() && acc.dim() == prob.d,
        r matches Err(e) ==> task_error(e, params.r is Some),
{
    let mut acc = Accumulator::new(prob.d);
    let mut stats = SearchStats::new();
    let mut work: Vec<SubtreeTask> = Vec::new();
    let (poly, facet) = (task.poly, task.facet);
    work.push(task);
    let mut rounds: u64 = 0;
    while work.len() > 0
        invariant
            prob.wf(),
            1 <= prob.d <= 64,
            params.wf(prob.d as nat),
            poly < prob.polys@.len(),
            facet < prob.polys@[poly as int].cons@.len(),
            forall|i: int| 0 <= i < work@.len() ==> #[trigger] work@[i].poly == poly && work@[i].facet == facet
                && work@[i].root.wf() && work@[i].root.num@.len() == prob.d,
            acc.wf(),
            acc.dim() == prob.d,
        decreases u64::MAX - rounds,
    {
        if rounds == u64::MAX {
            return Err(Error::Internal("too many subtree tasks".to_owned()));
        }
        rounds = rounds + 1;
        let t = work.pop().unwrap();
        match run_subtree(prob, &t, params, Some(budget), &mut ()) {
            Ok((a, st, left)) => {
                acc.merge(a);
                stats.merge(&st);
                let mut k: usize = 0;
                while k < left.len()
                    invariant
                        k <= left@.len(),
                        forall|i: int| 0 <= i < left@.len() ==> crate::reverse::leftover_ok(#[trigger] left@[i], poly, facet, prob.d),
                        forall|i: int| 0 <= i < work@.len() ==> #[trigger] work@[i].poly == poly && work@[i].facet == facet
                            && work@[i].root.wf() && work@[i].root.num@.len() == prob.d,
                    decreases left@.len() - k,
                {
                    let l = &left[k];
                    proof {
                        assert(crate::reverse::leftover_ok(left@[k as int], poly, facet, prob.d));
                    }
                    work.push(SubtreeTask {
                        poly: l.poly,
                        facet: l.facet,
                        root: l.root.clone(),
                        start_edge: l.start_edge,
                        visit_root: l.visit_root,
                    });
                    k = k + 1;
                }
            },
            Err(e) => {
                return Err(Error::Kernel(e));
            },
        }
    }
    Ok((acc, stats))
}

/// A search ready to run: the shared arrangement, the integer sweep
/// direction `a`, the perturbation `r` (used unless `generic`), the
/// per-subtree node budget, and the positive factor `scale` by which `a`
/// exceeds the user's direction.  Its facet tasks are independent: each
/// can run on its own, in any order, and the results merge.
pub struct Plan {
    pub prep: Prepared,
    pub d: usize,
    pub a: Vec<Z>,
    pub r: Vec<Z>,
    pub generic: bool,
    pub budget: Option<u64>,
    pub scale: Q,
}

impl Plan {
    /// Everything the search and its conclusion rely on.
    pub open spec fn wf(&self) -> bool {
        &&& self.prep.wf(self.d)
        &&& 1 <= self.d <= 64
        &&& self.a@.len() == self.d
        &&& crate::num::all_wf(self.a@)
        &&& self.r@.len() == self.d
        &&& crate::num::all_wf(self.r@)
        &&& self.scale.wf()
        &&& self.scale.num@ > 0
    }

    /// The sweep parameters of this plan.
    pub fn params(&self) -> (p: SweepParams<'_>)
        requires
            self.wf(),
        ensures
            p.wf(self.d as nat),
            p.a@ == self.a@,
            p.r is Some <==> !self.generic,
            p.r matches Some(r) ==> r@ == self.r@,
    {
        SweepParams {
            a: self.a.as_slice(),
            r: if self.generic {
                None
            } else {
                Some(self.r.as_slice())
            },
        }
    }

    /// Number of facet tasks.
    pub fn task_count(&self) -> (n: usize)
        ensures
            n == self.prep.tasks@.len(),
    {
        self.prep.tasks.len()
    }
}

/// Check the inputs, preprocess every polytope and fix the integer sweep
/// direction and the perturbation.
pub fn plan(d: usize, raw: &[Vec<RawConstraint>], direction: &[Q], opts: &Options) -> (r: Result<Plan, Error>)
    requires
        forall|p: int, c: int| 0 <= p < raw@.len() && 0 <= c < raw@[p]@.len() ==> (#[trigger] raw@[p]@[c]).wf(),
        direction@.len() == d,
        crate::geom::all_q_wf(direction@),
        2 * d * d <= usize::MAX,
    ensures
        raw@.len() == 0 ==> r matches Err(Error::Input(_)),
        zero_direction(direction@) ==> r is Err,
        d == 0 || d > 64 ==> r is Err,
        r matches Err(Error::Input(_)) ==> raw@.len() == 0 || zero_direction(direction@) || d == 0 || d > 64,
        r matches Err(Error::Polytope { index, err }) ==> index < raw@.len(),
        r matches Err(e) ==> !(e is Kernel),
        r matches Ok(p) ==> {
            &&& p.wf()
            &&& p.d == d
            &&& p.prep.prob.polys@.len() == raw@.len()
            &&& p.generic == opts.assume_generic
            &&& p.budget == opts.budget
            &&& scaled_direction(p.a@, p.scale, direction@)
        },
{
    let prep = match prepare_all(d, raw) {
        Ok(p) => p,
        Err(e) => {
            return Err(e);
        },
    };
    let a = integerize(direction);
    let mut nz: usize = 0;
    while nz < a.len() && a[nz].is_zero()
        invariant
            nz <= a@.len(),
            a@.len() == direction@.len(),
            crate::num::all_wf(a@),
            forall|k: int| 0 <= k < nz ==> (#[trigger] a@[k])@ == 0,
        decreases a@.len() - nz,
    {
        nz = nz + 1;
    }
    if nz == a.len() {
        proof {
            assert forall|k: int| 0 <= k < direction@.len() implies (#[trigger] direction@[k]).num@ == 0 by {
                assert(a@[k]@ == 0);
                assert(sign_of(a@[k]@) == sign_of(direction@[k].num@));
            }
        }
        return Err(Error::Input("sweep direction must be non-zero".to_owned()));
    }
    if d == 0 || d > 64 {
        return Err(Error::Input("dimension must be between 1 and 64".to_owned()));
    }
    proof {
        assert(sign_of(a@[nz as int]@) == sign_of(direction@[nz as int].num@));
        if zero_direction(direction@) {
            assert(direction@[nz as int].num@ == 0);
        }
    }
    // the kernel uses the integerised direction a_int = scale · a
    let ai = Q::from_z(a[nz].clone());
    proof {
        assert(direction@[nz as int].wf());
        assert(direction@[nz as int].num@ != 0);
    }
    let scale = ai.div(&direction[nz]);
    proof {
        let (x, y, dd, sn, sd) = (a@[nz as int]@, direction@[nz as int].num@, direction@[nz as int].den@, scale.num@, scale.den@);
        assert(sn > 0) by (nonlinear_arith)
            requires
                sn * (1 * y) == x * dd * sd,
                sd > 0,
                dd > 0,
                (x > 0 && y > 0) || (x < 0 && y < 0),
        ;
        assert forall|i: int| 0 <= i < direction@.len() implies (#[trigger] a@[i])@ * direction@[i].den@ * scale.den@
            == scale.num@ * direction@[i].num@ by {
            let (ai, yi, di) = (a@[i]@, direction@[i].num@, direction@[i].den@);
            assert(ai * y * di == x * yi * dd);
            assert((ai * di * sd) * y == sd * (ai * y * di)) by (nonlinear_arith);
            assert((sn * yi) * y == yi * (sn * (1 * y))) by (nonlinear_arith);
            assert(sd * (x * yi * dd) == yi * (x * dd * sd)) by (nonlinear_arith);
            assert((ai * di * sd - sn * yi) * y == (ai * di * sd) * y - (sn * yi) * y) by (nonlinear_arith);
            assert(y != 0);
            assert(ai * di * sd - sn * yi == 0) by (nonlinear_arith)
                requires
                    (ai * di * sd - sn * yi) * y == 0,
                    y != 0,
            ;
        }
    }
    let r = perturbation(d, opts.seed);
    Ok(Plan { prep, d, a, r, generic: opts.assume_generic, budget: opts.budget, scale })
}

/// Run facet task `i` of the plan, in the restricted view of its polytope
/// (where that polytope has local index 0): to completion without a
/// budget, else as budgeted subtrees until none is left.
pub fn run_plan_task(plan: &Plan, i: usize) -> (r: Result<(Accumulator, SearchStats), Error>)
    requires
        plan.wf(),
        i < plan.prep.tasks@.len(),
    ensures
        r matches Ok((acc, st)) ==> acc.wf() && acc.dim() == plan.d,
        r matches Err(e) ==> search_error(e, !plan.generic),
{
    let d = plan.d;
    let prep = &plan.prep;
    let params = plan.params();
    let t = &prep.tasks[i];
    proof {
        assert(task_ok(*t, prep.prob));
    }
    let pr = &prep.views[t.poly];
    proof {
        assert(pr.wf() && pr.d == d);
    }
    if pr.polys.len() == 0 || t.facet >= pr.polys[0].cons.len() {
        return Err(Error::Internal("facet missing from its restricted view".to_owned()));
    }
    let lt = FacetTask { poly: 0, facet: t.facet, start: t.start.clone() };
    match plan.budget {
        None => match run_facet(pr, &lt, &params, &mut ()) {
            Ok(x) => Ok(x),
            Err(e) => Err(Error::Kernel(e)),
        },
        Some(b) => match facet_root(pr, &lt) {
            None => Ok((Accumulator::new(d), SearchStats::new())),
            Some(root) => run_task(pr, root, &params, b),
        },
    }
}

/// The reverse search over all facet tasks of the plan, one after another,
/// merging the results as they come.
fn search_all(plan: &Plan) -> (r: Result<(Accumulator, SearchStats), Error>)
    requires
        plan.wf(),
    ensures
        r matches Ok((acc, st)) ==> acc.wf() && acc.dim() == plan.d,
        r matches Err(e) ==> search_error(e, !plan.generic),
        plan.prep.tasks@.len() == 0 ==> (r matches Ok((acc, st)) && acc.tops().len() == 0),
{
    let d = plan.d;
    let mut acc = Accumulator::new(d);
    let mut stats = SearchStats::new();
    let mut i: usize = 0;
    while i < plan.task_count()
        invariant
            plan.wf(),
            d == plan.d,
            i <= plan.prep.tasks@.len(),
            acc.wf(),
            acc.dim() == d,
            plan.prep.tasks@.len() == 0 ==> acc.tops().len() == 0,
        decreases plan.prep.tasks@.len() - i,
    {
        match run_plan_task(plan, i) {
            Ok((a, st)) => {
                acc.merge(a);
                stats.merge(&st);
            },
            Err(e) => {
                return Err(e);
            },
        }
        i = i + 1;
    }
    Ok((acc, stats))
}

/// The brute-force sweep of the plan: every vertex of the shared
/// arrangement in turn, with its counters.
pub fn run_plan_oracle(plan: &Plan) -> (r: Result<(Accumulator, SearchStats), Error>)
    requires
        plan.wf(),
    ensures
        r matches Ok((acc, st)) ==> acc.wf() && acc.dim() == plan.d,
        r matches Err(e) ==> e matches Error::Kernel(k) && kernel_error_fits(k, !plan.generic),
{
    let params = plan.params();
    match oracle_sweep(&plan.prep.prob, &params) {
        Ok((acc, k, emitted)) => {
            let mut s = SearchStats::new();
            s.kernel = k;
            s.emitted = emitted as u64;
            Ok((acc, s))
        },
        Err(e) => Err(Error::Kernel(e)),
    }
}

/// What [`Accumulator::finish`] gives from `acc`: its surviving knots, in
/// order, none of them zero.
pub open spec fn finished(acc: Accumulator, g: SweepFunction) -> bool {
    &&& g.wf()
    &&& g.d == acc.dim()
    &&& forall|i: int| 0 <= i < g.knots@.len() ==> #[trigger] acc.comes_from(g.knots@[i])
    &&& acc.keeps_survivors(g.knots@)
    &&& forall|i: int| 0 <= i < g.knots@.len() ==> #[trigger] crate::sweep::nonzero_knot(g.knots@[i])
}

/// The sweep function from the merged accumulator of a plan's search, on
/// the user's scale of `λ`, with the counters of the run.
pub fn conclude(plan: &Plan, acc: Accumulator, search: SearchStats) -> (r: Result<(SweepFunction, Report), Error>)
    requires
        plan.wf(),
        acc.wf(),
        acc.dim() == plan.d,
    ensures
        r is Err <==> acc.has_pole(),
        r matches Err(e) ==> e is Internal,
        r matches Ok((f, rep)) ==> {
            &&& f.wf()
            &&& f.d == plan.d
            &&& rep.d == plan.d
            &&& rep.polytopes == plan.prep.prob.polys@.len()
            &&& rep.facets == plan.prep.tasks@.len()
            &&& rep.search == search
            &&& rep.prep_ms == 0 && rep.search_ms == 0
        },
        r matches Ok((f, rep)) ==> exists|g: SweepFunction|
            #[trigger] finished(acc, g) && f.knots@.len() == g.knots@.len() && forall|i: int|
                0 <= i < f.knots@.len() ==> crate::sweep::rescaled(g.knots@[i], #[trigger] f.knots@[i], qv(plan.scale)),
{
    let d = plan.d;
    assert((d + 1) * (d + 1) <= usize::MAX) by (nonlinear_arith)
        requires
            d <= 64,
    ;
    let ghost acc0 = acc;
    let mut f = match acc.finish() {
        Ok(f) => f,
        Err(e) => {
            return Err(Error::Internal(e));
        },
    };
    let ghost g = f;
    proof {
        assert(finished(acc0, g));
    }
    f.rescale(&plan.scale);
    let report = Report {
        d,
        polytopes: plan.prep.prob.polys.len(),
        hyperplanes: plan.prep.prob.hyps.len(),
        facets: plan.prep.tasks.len(),
        redundant_removed: plan.prep.redundant_removed,
        search,
        prep_ms: 0,
        search_ms: 0,
    };
    Ok((f, report))
}

/// No entry of the direction is non-zero.
pub open spec fn zero_direction(dir: Seq<Q>) -> bool {
    forall|i: int| 0 <= i < dir.len() ==> (#[trigger] dir[i]).num@ == 0
}

/// Run the whole computation: the sweep function of the union in the
/// direction `direction`, on the user's scale of `λ`.  The timing fields
/// of the report are left for the caller, who owns the clock.
pub fn solve(d: usize, raw: &[Vec<RawConstraint>], direction: &[Q], opts: &Options) -> (r: Result<
    (SweepFunction, Report),
    Error,
>)
    requires
        forall|p: int, c: int| 0 <= p < raw@.len() && 0 <= c < raw@[p]@.len() ==> (#[trigger] raw@[p]@[c]).wf(),
        direction@.len() == d,
        crate::geom::all_q_wf(direction@),
        2 * d * d <= usize::MAX,
    ensures
        raw@.len() == 0 ==> r matches Err(Error::Input(_)),
        zero_direction(direction@) ==> r is Err,
        d == 0 || d > 64 ==> r is Err,
        r matches Err(Error::Input(_)) ==> raw@.len() == 0 || zero_direction(direction@) || d == 0 || d > 64,
        r matches Err(Error::Polytope { index, err }) ==> index < raw@.len(),
        r matches Err(Error::Kernel(k)) ==> kernel_error_fits(k, !opts.assume_generic),
        r matches Ok((f, rep)) ==> f.wf() && f.d == d && rep.d == d && rep.polytopes == raw@.len(),
        r matches Ok((f, rep)) ==> exists|a: Seq<Z>, s: Q, g: SweepFunction|
            #[trigger] scaled_direction(a, s, direction@) && #[trigger] g.wf() && s.wf() && s.num@ > 0 && g.d == d
                && f.knots@.len() == g.knots@.len() && forall|i: int|
                0 <= i < f.knots@.len() ==> crate::sweep::rescaled(g.knots@[i], #[trigger] f.knots@[i], qv(s)),
{
    let pl = match plan(d, raw, direction, opts) {
        Ok(p) => p,
        Err(e) => {
            return Err(e);
        },
    };
    let res = if opts.oracle {
        run_plan_oracle(&pl)
    } else {
        search_all(&pl)
    };
    let (acc, search) = match res {
        Ok(x) => x,
        Err(e) => {
            return Err(e);
        },
    };
    let res = conclude(&pl, acc, search);
    proof {
        if res is Ok {
            let f = res->Ok_0.0;
            let g = choose|g: SweepFunction|
                #[trigger] finished(acc, g) && f.knots@.len() == g.knots@.len() && forall|i: int|
                    0 <= i < f.knots@.len() ==> crate::sweep::rescaled(g.knots@[i], #[trigger] f.knots@[i], qv(pl.scale));
            assert(scaled_direction(pl.a@, pl.scale, direction@) && g.wf());
        }
    }
    res
}

/// Total volume of the union, swept in the default direction.
pub fn volume(d: usize, raw: &[Vec<RawConstraint>], opts: &Options) -> (r: Result<Q, Error>)
    requires
        forall|p: int, c: int| 0 <= p < raw@.len() && 0 <= c < raw@[p]@.len() ==> (#[trigger] raw@[p]@[c]).wf(),
        2 * d * d <= usize::MAX,
    ensures
        raw@.len() == 0 || d == 0 || d > 64 ==> r is Err,
        raw@.len() == 0 ==> r matches Err(Error::Input(_)),
        r matches Err(Error::Input(_)) ==> raw@.len() == 0 || d == 0 || d > 64,
        r matches Err(Error::Polytope { index, err }) ==> index < raw@.len(),
        r matches Err(Error::Kernel(k)) ==> kernel_error_fits(k, !opts.assume_generic),
        r matches Ok(q) ==> q.wf(),
{
    let dir = default_direction(d, opts.seed);
    proof {
        if d > 0 {
            assert(dir@[0].num@ == direction_entry(
                xorshift_n(opts.seed.wrapping_mul(0x2545F4914F6CDD1Du64) | 1, 1),
            ));
            assert(!zero_direction(dir@));
        }
    }
    let (f, _) = match solve(d, raw, dir.as_slice(), opts) {
        Ok(x) => x,
        Err(e) => {
            return Err(e);
        },
    };
    match f.total() {
        Ok(q) => Ok(q),
        Err(e) => Err(Error::Internal(e)),
    }
}

} // verus!
