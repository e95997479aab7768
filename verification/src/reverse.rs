//! The reverse-search half: one depth-first traversal per facet
//! `F = h_j ∩ P_i`, enumerating every arrangement vertex in `F` exactly once
//! with no visited set.  Memory is the explicit stack of the current root
//! path only.
use crate::geom::{zs_eq, Problem};
use crate::local::{indices_ok, kernel_error_fits, KernelError, KernelStats, SweepParams};
use crate::num::{all_wf, lex_sign, negate, sign_of, zvals, Point, Z};
use crate::sweep::Accumulator;
use crate::vertex::{off_boundary, process_vertex, Visit};
use crate::walk::{best_improving, feasible_dirs, no_improving_edge, ratio_step, walk, Region};
use vstd::prelude::*;

verus! {

#[derive(Clone, Debug)]
pub struct FacetTask {
    pub poly: usize,
    pub facet: usize,
    pub start: Point,
}

pub const HIST_BUCKETS: usize = 40;

#[derive(Clone, Debug)]
pub struct SearchStats {
    pub tasks: u64,
    pub nodes: u64,
    pub emitted: u64,
    pub owned_elsewhere: u64,
    pub not_boundary: u64,
    pub edges_tested: u64,
    pub max_depth: usize,
    pub max_stack_dirs: usize,
    pub root_ascent_steps: u64,
    pub kernel: KernelStats,
    /// bucket `b` counts subtrees with `2^b ≤ size < 2^{b+1}`
    pub subtree_hist: Vec<u64>,
}

/// `a + b`, saturating at `u64::MAX`.
pub open spec fn sat_add(a: u64, b: u64) -> u64 {
    if a + b > u64::MAX {
        u64::MAX
    } else {
        (a + b) as u64
    }
}

/// `max(a, b)`.
pub open spec fn max_int(a: int, b: int) -> int {
    if a >= b {
        a
    } else {
        b
    }
}

/// The histogram bucket of a subtree size: `⌊log2 size⌋` (0 for size 0),
/// capped at the last bucket.
pub open spec fn bucket_of(size: u64) -> int {
    let b = 64 - vstd::std_specs::bits::u64_leading_zeros(size) - 1;
    let b = if b < 0 {
        0
    } else {
        b
    };
    if b > HIST_BUCKETS - 1 {
        HIST_BUCKETS - 1
    } else {
        b
    }
}

impl Default for SearchStats {
    fn default() -> (r: SearchStats)
        ensures
            r.tasks == 0 && r.nodes == 0 && r.emitted == 0 && r.owned_elsewhere == 0 && r.not_boundary == 0,
            r.edges_tested == 0 && r.max_depth == 0 && r.max_stack_dirs == 0 && r.root_ascent_steps == 0,
            r.kernel.bases == 0 && r.kernel.terms == 0 && r.kernel.laurent_terms == 0,
            r.subtree_hist@.len() == 0,
    {
        SearchStats {
            tasks: 0,
            nodes: 0,
            emitted: 0,
            owned_elsewhere: 0,
            not_boundary: 0,
            edges_tested: 0,
            max_depth: 0,
            max_stack_dirs: 0,
            root_ascent_steps: 0,
            kernel: KernelStats { bases: 0, terms: 0, laurent_terms: 0 },
            subtree_hist: Vec::new(),
        }
    }
}

impl SearchStats {
    /// All counters zero, with an empty histogram of [`HIST_BUCKETS`] buckets.
    pub fn new() -> (r: SearchStats)
        ensures
            r.tasks == 0 && r.nodes == 0 && r.emitted == 0 && r.owned_elsewhere == 0 && r.not_boundary == 0,
            r.edges_tested == 0 && r.max_depth == 0 && r.max_stack_dirs == 0 && r.root_ascent_steps == 0,
            r.kernel.bases == 0 && r.kernel.terms == 0 && r.kernel.laurent_terms == 0,
            r.subtree_hist@.len() == HIST_BUCKETS,
            forall|b: int| 0 <= b < HIST_BUCKETS ==> r.subtree_hist@[b] == 0,
    {
        let mut h: Vec<u64> = Vec::new();
        let mut i: usize = 0;
        while i < HIST_BUCKETS
            invariant
                i <= HIST_BUCKETS,
                h@.len() == i,
                forall|b: int| 0 <= b < i ==> h@[b] == 0,
            decreases HIST_BUCKETS - i,
        {
            h.push(0);
            i = i + 1;
        }
        let mut s = SearchStats::default();
        s.subtree_hist = h;
        s
    }

    /// Adds the counters of `o` (sums saturate at `u64::MAX`), keeps the
    /// larger maxima and adds the histograms bucket by bucket.
    pub fn merge(&mut self, o: &SearchStats)
        ensures
            final(self).tasks == sat_add(old(self).tasks, o.tasks),
            final(self).nodes == sat_add(old(self).nodes, o.nodes),
            final(self).emitted == sat_add(old(self).emitted, o.emitted),
            final(self).owned_elsewhere == sat_add(old(self).owned_elsewhere, o.owned_elsewhere),
            final(self).not_boundary == sat_add(old(self).not_boundary, o.not_boundary),
            final(self).edges_tested == sat_add(old(self).edges_tested, o.edges_tested),
            final(self).max_depth == max_int(old(self).max_depth as int, o.max_depth as int),
            final(self).max_stack_dirs == max_int(old(self).max_stack_dirs as int, o.max_stack_dirs as int),
            final(self).root_ascent_steps == sat_add(old(self).root_ascent_steps, o.root_ascent_steps),
            final(self).kernel.bases == sat_add(old(self).kernel.bases, o.kernel.bases),
            final(self).kernel.terms == sat_add(old(self).kernel.terms, o.kernel.terms),
            final(self).kernel.laurent_terms == sat_add(old(self).kernel.laurent_terms, o.kernel.laurent_terms),
            final(self).subtree_hist@.len() == max_int(old(self).subtree_hist@.len() as int, o.subtree_hist@.len() as int),
            forall|b: int|
                0 <= b < final(self).subtree_hist@.len() ==> #[trigger] final(self).subtree_hist@[b] == sat_add(
                    if b < old(self).subtree_hist@.len() {
                        old(self).subtree_hist@[b]
                    } else {
                        0u64
                    },
                    if b < o.subtree_hist@.len() {
                        o.subtree_hist@[b]
                    } else {
                        0u64
                    },
                ),
    {
        self.tasks = self.tasks.saturating_add(o.tasks);
        self.nodes = self.nodes.saturating_add(o.nodes);
        self.emitted = self.emitted.saturating_add(o.emitted);
        self.owned_elsewhere = self.owned_elsewhere.saturating_add(o.owned_elsewhere);
        self.not_boundary = self.not_boundary.saturating_add(o.not_boundary);
        self.edges_tested = self.edges_tested.saturating_add(o.edges_tested);
        if o.max_depth > self.max_depth {
            self.max_depth = o.max_depth;
        }
        if o.max_stack_dirs > self.max_stack_dirs {
            self.max_stack_dirs = o.max_stack_dirs;
        }
        self.root_ascent_steps = self.root_ascent_steps.saturating_add(o.root_ascent_steps);
        self.kernel.bases = self.kernel.bases.saturating_add(o.kernel.bases);
        self.kernel.terms = self.kernel.terms.saturating_add(o.kernel.terms);
        self.kernel.laurent_terms = self.kernel.laurent_terms.saturating_add(o.kernel.laurent_terms);
        let ghost h0 = self.subtree_hist@;
        let n0 = self.subtree_hist.len();
        let n1 = o.subtree_hist.len();
        let n = if n0 >= n1 {
            n0
        } else {
            n1
        };
        let mut h: Vec<u64> = Vec::new();
        let mut b: usize = 0;
        while b < n
            invariant
                n0 == h0.len(),
                h0 == self.subtree_hist@,
                n1 == o.subtree_hist@.len(),
                n == max_int(n0 as int, n1 as int),
                b <= n,
                h@.len() == b,
                forall|c: int|
                    0 <= c < b ==> #[trigger] h@[c] == sat_add(
                        if c < h0.len() {
                            h0[c]
                        } else {
                            0u64
                        },
                        if c < o.subtree_hist@.len() {
                            o.subtree_hist@[c]
                        } else {
                            0u64
                        },
                    ),
            decreases n - b,
        {
            let x = if b < n0 {
                self.subtree_hist[b]
            } else {
                0
            };
            let y = if b < n1 {
                o.subtree_hist[b]
            } else {
                0
            };
            h.push(x.saturating_add(y));
            b = b + 1;
        }
        self.subtree_hist = h;
    }

    /// Counts one finished subtree of `size` nodes in its histogram bucket.
    pub fn record_subtree(&mut self, size: u64)
        requires
            old(self).subtree_hist@.len() >= HIST_BUCKETS,
        ensures
            final(self).subtree_hist@ == old(self).subtree_hist@.update(
                bucket_of(size),
                sat_add(old(self).subtree_hist@[bucket_of(size)], 1),
            ),
            final(self).tasks == old(self).tasks && final(self).nodes == old(self).nodes,
            final(self).emitted == old(self).emitted && final(self).max_depth == old(self).max_depth,
            final(self).owned_elsewhere == old(self).owned_elsewhere,
            final(self).not_boundary == old(self).not_boundary,
            final(self).edges_tested == old(self).edges_tested,
            final(self).max_stack_dirs == old(self).max_stack_dirs,
            final(self).root_ascent_steps == old(self).root_ascent_steps,
            final(self).kernel == old(self).kernel,
    {
        proof {
            vstd::std_specs::bits::axiom_u64_leading_zeros(size);
        }
        let lz = size.leading_zeros();
        let b = (64 - lz).saturating_sub(1) as usize;
        let b = if b < HIST_BUCKETS - 1 {
            b
        } else {
            HIST_BUCKETS - 1
        };
        let v = self.subtree_hist[b].saturating_add(1);
        self.subtree_hist.set(b, v);
    }
}

/// Every visited vertex is counted under exactly one outcome, unless the
/// node counter has saturated.
pub open spec fn outcomes_balance(s: SearchStats) -> bool {
    s.nodes == u64::MAX || s.nodes == s.emitted + s.owned_elsewhere + s.not_boundary
}

/// Optional sink for every vertex visited (differential tests).
pub trait VertexSink {
    fn visited(&mut self, v: &Point, visit: Visit);
}

impl VertexSink for () {
    fn visited(&mut self, _v: &Point, _visit: Visit) {
    }
}

impl VertexSink for Vec<(Point, Visit)> {
    /// Appends a copy of the vertex with its outcome; what was recorded
    /// before stays.
    fn visited(&mut self, v: &Point, visit: Visit)
        ensures
            final(self)@.len() == old(self)@.len() + 1,
            final(self)@.subrange(0, old(self)@.len() as int) == old(self)@,
            final(self)@.last().1 == visit,
            zvals(final(self)@.last().0.num@) == zvals(v.num@),
            final(self)@.last().0.den@ == v.den@,
    {
        self.push((v.clone(), visit));
    }
}

/// A (sub)tree of one facet search: explore the children of `root` reached
/// through edges `start_edge..`, and their subtrees.  `visit_root` is set
/// only for the tree root itself.  Restarting from `(root, start_edge)` is
/// exact because the edge list at a vertex is a deterministic function of
/// the vertex alone.
#[derive(Clone, Debug)]
pub struct SubtreeTask {
    pub poly: usize,
    pub facet: usize,
    pub root: Point,
    pub start_edge: usize,
    pub visit_root: bool,
}

/// One level of the explicit search stack.
struct Frame {
    v: Point,
    evals: Vec<Z>,
    dirs: Vec<Vec<Z>>,
    idx: usize,
    subtree: u64,
}

/// The frame describes a vertex of the problem with its evaluations and
/// edge directions.
spec fn frame_ok(f: Frame, prob: Problem) -> bool {
    &&& f.v.wf()
    &&& f.v.num@.len() == prob.d
    &&& f.evals@.len() == prob.hyps@.len()
    &&& all_wf(f.evals@)
    &&& zvals(f.evals@) == prob.values(f.v)
    &&& forall|i: int| 0 <= i < f.dirs@.len() ==> (#[trigger] f.dirs@[i])@.len() == prob.d && all_wf(f.dirs@[i]@)
}

/// What a facet search may assume of its inputs.
pub open spec fn search_inputs(prob: Problem, poly: usize, facet: usize, root: Point, params: SweepParams) -> bool {
    &&& prob.wf()
    &&& 1 <= prob.d <= 64
    &&& poly < prob.polys@.len()
    &&& facet < prob.polys@[poly as int].cons@.len()
    &&& root.wf()
    &&& root.num@.len() == prob.d
    &&& params.wf(prob.d as nat)
}

/// A leftover subtree of the same facet.
pub open spec fn leftover_ok(t: SubtreeTask, poly: usize, facet: usize, d: usize) -> bool {
    &&& t.poly == poly
    &&& t.facet == facet
    &&& t.root.wf()
    &&& t.root.num@.len() == d
    &&& !t.visit_root
}

/// The point with hyperplane values `ev` lies on facet `facet` of polytope
/// `poly`: it satisfies every constraint of the polytope, that one with
/// equality.
pub open spec fn on_facet(prob: Problem, poly: int, facet: int, ev: Seq<int>) -> bool {
    &&& ev[prob.polys@[poly].cons@[facet].h as int] == 0
    &&& forall|k: int|
        0 <= k < prob.polys@[poly].cons@.len() ==> sign_of(ev[(#[trigger] prob.polys@[poly].cons@[k]).h as int])
            * prob.polys@[poly].cons@[k].o <= 0
}

/// The region of the facet search: the polytope's constraints, inside the
/// facet's hyperplane.
fn facet_region(prob: &Problem, poly: usize, facet: usize) -> (r: Region)
    requires
        prob.wf(),
        poly < prob.polys@.len(),
        facet < prob.polys@[poly as int].cons@.len(),
    ensures
        r.wf(prob.hyps@.len()),
        r.cons@ == prob.polys@[poly as int].cons@,
        r.eq == Some(prob.polys@[poly as int].cons@[facet as int].h),
        forall|ev: Seq<int>| #[trigger] r.holds(ev) <==> on_facet(*prob, poly as int, facet as int, ev),
{
    proof {
        assert(prob.polys@[poly as int].wf(prob.hyps@.len()));
        assert(prob.polys@[poly as int].cons@[facet as int].wf(prob.hyps@.len()));
    }
    let p = prob.polys[poly].clone();
    Region { cons: p.cons, eq: Some(prob.polys[poly].cons[facet].h) }
}

/// The frame of vertex `v`: its evaluations and edge directions.
fn frame_at(prob: &Problem, region: &Region, v: Point) -> (f: Frame)
    requires
        prob.wf(),
        prob.d >= 1,
        region.wf(prob.hyps@.len()),
        v.wf(),
        v.num@.len() == prob.d,
    ensures
        frame_ok(f, *prob),
        f.v == v,
        f.idx == 0,
        f.subtree == 1,
{
    let evals = prob.evals(&v);
    let hv = Problem::hv_from_evals(evals.as_slice());
    let tight = region.tight_evals(evals.as_slice());
    proof {
        assert(zvals(evals@) =~= prob.values(v));
        assert forall|t: int| 0 <= t < hv@.len() implies (#[trigger] hv@[t]) < prob.hyps@.len() by {}
        crate::walk::lemma_tight_of_wf(region.cons@, zvals(evals@), region.cons@.len() as int, prob.hyps@.len());
    }
    let dirs = feasible_dirs(prob, region, hv.as_slice(), tight.as_slice());
    Frame { v, evals, dirs, idx: 0, subtree: 1 }
}

/// Processes one visited vertex and records the outcome.
fn visit_vertex<S: VertexSink>(
    prob: &Problem,
    f: &Frame,
    owner: Option<(usize, usize)>,
    params: &SweepParams,
    acc: &mut Accumulator,
    stats: &mut SearchStats,
    sink: &mut S,
) -> (r: Result<(), KernelError>)
    requires
        prob.wf(),
        1 <= prob.d <= 64,
        frame_ok(*f, *prob),
        params.wf(prob.d as nat),
        old(acc).wf(),
        old(acc).dim() == prob.d,
        old(stats).subtree_hist@.len() == HIST_BUCKETS,
    ensures
        final(acc).wf(),
        final(acc).dim() == prob.d,
        final(stats).subtree_hist@.len() == HIST_BUCKETS,
        final(stats).tasks == old(stats).tasks,
        final(stats).nodes == sat_add(old(stats).nodes, 1),
        r is Ok && outcomes_balance(*old(stats)) ==> outcomes_balance(*final(stats)),
        r matches Err(e) ==> kernel_error_fits(e, params.r is Some),
        off_boundary(*prob, prob.values(f.v)) ==> {
            &&& r is Ok
            &&& final(acc).tops() == old(acc).tops()
            &&& final(stats).not_boundary == sat_add(old(stats).not_boundary, 1)
            &&& final(stats).emitted == old(stats).emitted
        },
{
    stats.nodes = stats.nodes.saturating_add(1);
    let r = match process_vertex(prob, &f.v, f.evals.as_slice(), owner, params, acc, &mut stats.kernel) {
        Ok(r) => r,
        Err(e) => {
            return Err(e);
        },
    };
    match r {
        Visit::Emitted => {
            stats.emitted = stats.emitted.saturating_add(1);
        },
        Visit::OwnedElsewhere => {
            stats.owned_elsewhere = stats.owned_elsewhere.saturating_add(1);
        },
        Visit::NotBoundary => {
            stats.not_boundary = stats.not_boundary.saturating_add(1);
        },
    }
    sink.visited(&f.v, r);
    Ok(())
}

/// Run the reverse search of one facet to completion.  A facet whose region
/// admits no root (an unbounded facet, which the preprocessing rules out)
/// yields an empty result.
pub fn run_facet<S: VertexSink>(prob: &Problem, task: &FacetTask, params: &SweepParams, sink: &mut S) -> (r: Result<
    (Accumulator, SearchStats),
    KernelError,
>)
    requires
        search_inputs(*prob, task.poly, task.facet, task.start, *params),
    ensures
        r matches Ok((acc, st)) ==> acc.wf() && acc.dim() == prob.d && st.subtree_hist@.len() == HIST_BUCKETS
            && outcomes_balance(st),
        r matches Err(e) ==> kernel_error_fits(e, params.r is Some),
{
    match facet_root(prob, task) {
        None => Ok((Accumulator::new(prob.d), SearchStats::new())),
        Some(root_task) => match run_subtree(prob, &root_task, params, None, sink) {
            Ok((acc, stats, _left)) => Ok((acc, stats)),
            Err(e) => Err(e),
        },
    }
}

/// Ascend from the facet's start vertex to the tree root; `None` if the
/// facet region is unbounded in the ascent direction.
pub fn facet_root(prob: &Problem, task: &FacetTask) -> (r: Option<SubtreeTask>)
    requires
        prob.wf(),
        prob.d >= 1,
        task.poly < prob.polys@.len(),
        task.facet < prob.polys@[task.poly as int].cons@.len(),
        task.start.wf(),
        task.start.num@.len() == prob.d,
    ensures
        r matches Some(t) ==> {
            &&& t.poly == task.poly
            &&& t.facet == task.facet
            &&& t.root.wf()
            &&& t.root.num@.len() == prob.d
            &&& t.start_edge == 0
            &&& t.visit_root
        },
        on_facet(*prob, task.poly as int, task.facet as int, prob.values(task.start)) ==> (r matches Some(t) ==> on_facet(
            *prob,
            task.poly as int,
            task.facet as int,
            prob.values(t.root),
        )),
        no_improving_edge(
            *prob,
            prob.polys@[task.poly as int].cons@,
            Some(prob.polys@[task.poly as int].cons@[task.facet as int].h),
            prob.values(task.start),
            None,
        ) ==> (r matches Some(t) && zvals(t.root.num@) == zvals(task.start.num@) && t.root.den@ == task.start.den@),
{
    let region = facet_region(prob, task.poly, task.facet);
    match walk(prob, &region, &task.start, None) {
        Ok(root) => Some(SubtreeTask { poly: task.poly, facet: task.facet, root, start_edge: 0, visit_root: true }),
        Err(_) => None,
    }
}

/// Explore a subtree with an optional node budget.  When the budget is
/// exhausted the unexplored remainder is returned as new tasks: one per
/// stack frame, `(vertex, next edge index)`.
pub fn run_subtree<S: VertexSink>(
    prob: &Problem,
    task: &SubtreeTask,
    params: &SweepParams,
    budget: Option<u64>,
    sink: &mut S,
) -> (r: Result<(Accumulator, SearchStats, Vec<SubtreeTask>), KernelError>)
    requires
        search_inputs(*prob, task.poly, task.facet, task.root, *params),
    ensures
        r matches Ok((acc, st, left)) ==> {
            &&& acc.wf()
            &&& acc.dim() == prob.d
            &&& st.subtree_hist@.len() == HIST_BUCKETS
            &&& st.tasks == 1
            &&& outcomes_balance(st)
            &&& forall|i: int| 0 <= i < left@.len() ==> leftover_ok(#[trigger] left@[i], task.poly, task.facet, prob.d)
        },
        r matches Err(e) ==> kernel_error_fits(e, params.r is Some),
{
    let d = prob.d;
    let mut acc = Accumulator::new(d);
    let mut stats = SearchStats::new();
    stats.tasks = 1;
    let region = facet_region(prob, task.poly, task.facet);
    let owner = Some((prob.polys[task.poly].id, prob.polys[task.poly].pos[task.facet]));
    let root = frame_at(prob, &region, task.root.clone());
    if task.visit_root {
        match visit_vertex(prob, &root, owner, params, &mut acc, &mut stats, sink) {
            Ok(()) => {},
            Err(e) => {
                return Err(e);
            },
        }
    }
    let mut stack: Vec<Frame> = Vec::new();
    stack.push(Frame { v: root.v, evals: root.evals, dirs: root.dirs, idx: task.start_edge, subtree: 1 });
    let mut leftovers: Vec<SubtreeTask> = Vec::new();
    let mut iters: u64 = 0;
    let mut exhausted = false;
    while stack.len() > 0
        invariant
            search_inputs(*prob, task.poly, task.facet, task.root, *params),
            d == prob.d,
            region.wf(prob.hyps@.len()),
            acc.wf(),
            acc.dim() == d,
            stats.subtree_hist@.len() == HIST_BUCKETS,
            stats.tasks == 1,
            outcomes_balance(stats),
            forall|i: int| 0 <= i < stack@.len() ==> frame_ok(#[trigger] stack@[i], *prob),
            forall|i: int| 0 <= i < leftovers@.len() ==> leftover_ok(#[trigger] leftovers@[i], task.poly, task.facet, d),
        decreases u64::MAX - iters,
    {
        if iters == u64::MAX || exhausted {
            // hand the rest of every frame back to the queue
            let mut i: usize = 0;
            while i < stack.len()
                invariant
                    i <= stack@.len(),
                    d == prob.d,
                    forall|k: int| 0 <= k < stack@.len() ==> frame_ok(#[trigger] stack@[k], *prob),
                    forall|k: int| 0 <= k < leftovers@.len() ==> leftover_ok(#[trigger] leftovers@[k], task.poly, task.facet, d),
                decreases stack@.len() - i,
            {
                let f = &stack[i];
                if f.idx < f.dirs.len() {
                    leftovers.push(SubtreeTask { poly: task.poly, facet: task.facet, root: f.v.clone(), start_edge: f.idx, visit_root: false });
                }
                i = i + 1;
            }
            break;
        }
        iters = iters + 1;
        let mut fr = stack.pop().unwrap();
        if fr.idx >= fr.dirs.len() {
            stats.record_subtree(fr.subtree);
            if stack.len() > 0 {
                let mut p = stack.pop().unwrap();
                p.subtree = p.subtree.saturating_add(fr.subtree);
                stack.push(p);
            }
            continue;
        }
        if let Some(b) = budget {
            if stats.nodes >= b {
                stack.push(fr);
                exhausted = true;
                continue;
            }
        }
        let r = fr.dirs[fr.idx].clone();
        proof {
            assert(fr.dirs@[fr.idx as int]@.len() == d);
        }
        fr.idx = fr.idx + 1;
        // the parent edge of a child points lex-upward, so from v it is lex-negative
        if lex_sign(r.as_slice()) > 0 {
            stack.push(fr);
            continue;
        }
        stats.edges_tested = stats.edges_tested.saturating_add(1);
        let u = match ratio_step(prob, fr.evals.as_slice(), &fr.v, r.as_slice()) {
            Some(u) => u,
            None => {
                // an unbounded edge leads nowhere (facets are bounded)
                stack.push(fr);
                continue;
            },
        };
        let fu = frame_at(prob, &region, u);
        let back = negate(r.as_slice());
        let is_child = match best_improving(fu.dirs.as_slice(), None) {
            Some(b) => zs_eq(b.as_slice(), back.as_slice()),
            None => false,
        };
        stack.push(fr);
        if is_child {
            match visit_vertex(prob, &fu, owner, params, &mut acc, &mut stats, sink) {
                Ok(()) => {},
                Err(e) => {
                    return Err(e);
                },
            }
            stack.push(fu);
            if stack.len() > stats.max_depth {
                stats.max_depth = stack.len();
            }
            let mut total: usize = 0;
            let mut k: usize = 0;
            while k < stack.len()
                invariant
                    k <= stack@.len(),
                decreases stack@.len() - k,
            {
                total = total.saturating_add(stack[k].dirs.len());
                k = k + 1;
            }
            if total > stats.max_stack_dirs {
                stats.max_stack_dirs = total;
            }
        }
    }
    Ok((acc, stats, leftovers))
}

} // verus!
