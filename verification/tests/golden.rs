use nefvol::driver::{prepare_all, solve, Options};
use nefvol::geom::{Problem, RawConstraint};
use nefvol::local::SweepParams;
use nefvol::num::{factorial, integerize, Point, Q, Z};
use nefvol::oracle::{boundary_vertices, oracle_sweep};
use nefvol::reverse::run_facet;
use nefvol::shapes::{boxp, con, int_box, simplex, transform, unit_box};
use nefvol::sweep::{Accumulator, SweepFunction};
use nefvol::vertex::Visit;
use std::collections::HashMap;

fn zv(v: &[i64]) -> Vec<Z> {
    v.iter().map(|&x| Z::from(x)).collect()
}

fn qv(v: &[i64]) -> Vec<Q> {
    v.iter().map(|&x| Q::integer(x)).collect()
}

fn f64_of(q: &Q) -> f64 {
    let s = q.to_string();
    match s.split_once('/') {
        Some((n, d)) => n.parse::<f64>().unwrap() / d.parse::<f64>().unwrap(),
        None => s.parse::<f64>().unwrap(),
    }
}

/// Oracle sweep function on raw polytopes (after preprocessing).
fn oracle_fn(d: usize, raw: &[Vec<RawConstraint>], a: &[Z]) -> (SweepFunction, usize) {
    let prep = prepare_all(d, raw).ok().unwrap();
    let r = nefvol::driver::perturbation(d, 7);
    let (acc, _, emitted) = oracle_sweep(&prep.prob, &SweepParams { a, r: Some(&r) }).unwrap();
    (acc.finish().unwrap(), emitted)
}

/// Reverse search sweep function plus the multiset of emitted vertices.
fn reverse_fn(d: usize, raw: &[Vec<RawConstraint>], a: &[Z]) -> (SweepFunction, Vec<Point>, Problem) {
    let prep = prepare_all(d, raw).ok().unwrap();
    let r = nefvol::driver::perturbation(d, 7);
    let params = SweepParams { a, r: Some(&r) };
    let mut acc = Accumulator::new(d);
    let mut emitted = Vec::new();
    for t in &prep.tasks {
        let mut sink: Vec<(Point, Visit)> = Vec::new();
        let (a2, _) = run_facet(&prep.prob, t, &params, &mut sink).unwrap();
        acc.merge(a2);
        emitted.extend(sink.into_iter().filter(|(_, v)| *v == Visit::Emitted).map(|(p, _)| p));
    }
    (acc.finish().unwrap(), emitted, prep.prob)
}

/// Assert the reverse search emits exactly the oracle's ∂U vertices, each once,
/// and the sweep functions agree.  Returns the total volume.
fn differential(d: usize, raw: &[Vec<RawConstraint>], a: &[i64]) -> Q {
    let a = zv(a);
    let (fo, n_o) = oracle_fn(d, raw, &a);
    let (fr, emitted, prob) = reverse_fn(d, raw, &a);
    let expected = boundary_vertices(&prob);
    let mut counts: HashMap<Point, usize> = HashMap::new();
    for p in &emitted {
        *counts.entry(p.clone()).or_default() += 1;
    }
    for p in &expected {
        assert_eq!(counts.get(p).copied().unwrap_or(0), 1, "vertex {:?} emitted {} times", p, counts.get(p).copied().unwrap_or(0));
    }
    assert_eq!(emitted.len(), expected.len(), "emitted {} vertices, oracle has {}", emitted.len(), expected.len());
    assert_eq!(n_o, expected.len());
    assert_eq!(fr.knots.len(), fo.knots.len(), "knot counts differ");
    for ((k1, c1), (k2, c2)) in fr.knots.iter().zip(&fo.knots) {
        assert_eq!(k1, k2);
        assert_eq!(c1, c2, "coefficients differ at knot {}", k1.to_string());
    }
    let t = fr.total().unwrap();
    assert_eq!(t, fo.total().unwrap());
    t
}

fn volume(d: usize, raw: &[Vec<RawConstraint>]) -> Q {
    nefvol::driver::volume(d, raw, &Options::default()).ok().unwrap()
}

fn sweep_dir(d: usize, raw: &[Vec<RawConstraint>], dir: &[i64]) -> SweepFunction {
    let dq = qv(dir);
    let (f, _) = nefvol::driver::solve(d, raw, &dq, &Options::default()).ok().unwrap();
    f
}

/// Deterministic xorshift.
struct Rng(u64);
impl Rng {
    fn next(&mut self) -> u64 {
        let mut s = self.0;
        s ^= s << 13;
        s ^= s >> 7;
        s ^= s << 17;
        self.0 = s;
        s
    }
    fn range(&mut self, lo: i64, hi: i64) -> i64 {
        lo + (self.next() % ((hi - lo + 1) as u64)) as i64
    }
    fn unit(&mut self) -> f64 {
        (self.next() >> 11) as f64 / (1u64 << 53) as f64
    }
}

/// Monte Carlo estimate of vol(U ∩ {a·x ≤ λ}) inside a bounding box.
fn monte_carlo(d: usize, raw: &[Vec<RawConstraint>], lo: &[f64], hi: &[f64], a: Option<(&[f64], f64)>, n: usize, seed: u64) -> f64 {
    let mut rng = Rng(seed | 1);
    let mut hits = 0usize;
    let polys: Vec<Vec<(Vec<f64>, f64)>> =
        raw.iter().map(|p| p.iter().map(|c| (c.a.iter().map(f64_of).collect(), f64_of(&c.b))).collect()).collect();
    let mut x = vec![0.0; d];
    for _ in 0..n {
        for i in 0..d {
            x[i] = lo[i] + (hi[i] - lo[i]) * rng.unit();
        }
        if let Some((av, l)) = a {
            let s: f64 = av.iter().zip(&x).map(|(p, q)| p * q).sum();
            if s > l {
                continue;
            }
        }
        let inside = polys.iter().any(|p| p.iter().all(|(av, b)| av.iter().zip(&x).map(|(p, q)| p * q).sum::<f64>() <= *b));
        if inside {
            hits += 1;
        }
    }
    let vol_box: f64 = (0..d).map(|i| hi[i] - lo[i]).product();
    vol_box * hits as f64 / n as f64
}

#[test]
fn boxes_and_simplices_oracle_and_reverse() {
    for d in 1..=5 {
        let a: Vec<i64> = (0..d).map(|i| (2 * i + 3) as i64).collect();
        let v = differential(d, &[unit_box(d)], &a);
        assert_eq!(v, Q::integer(1), "unit box d={d}");
        let v = differential(d, &[simplex(d, Q::integer(1))], &a);
        assert_eq!(v, Q::one().div(&Q::from_z(factorial(d))), "simplex d={d}");
        // scaled box with rational bounds
        let lo: Vec<Q> = (0..d).map(|i| Q::new(Z::from(-(i as i64) - 1), Z::from(2))).collect();
        let hi: Vec<Q> = (0..d).map(|i| Q::new(Z::from(3 * i as i64 + 2), Z::from(3))).collect();
        let expect = lo.iter().zip(&hi).fold(Q::one(), |acc, (l, h)| acc.mul(&h.sub(l)));
        let v = differential(d, &[boxp(&lo, &hi)], &a);
        assert_eq!(v, expect, "rational box d={d}");
    }
}

#[test]
fn sweep_function_of_unit_cube_matches_closed_form() {
    // cube [0,1]^3, a = (1,1,1): s(λ) = λ³/6 on [0,1]
    let f = sweep_dir(3, &[unit_box(3)], &[1, 1, 1]);
    assert_eq!(f.eval(&Q::parse("1/2").unwrap()), Q::parse("1/48").unwrap());
    // at λ=3/2: 1/2 by symmetry
    assert_eq!(f.eval(&Q::parse("3/2").unwrap()), Q::parse("1/2").unwrap());
    assert_eq!(f.total().unwrap(), Q::integer(1));
    // constant tail & zero head are enforced by total(); check zero below
    assert_eq!(f.eval(&Q::integer(-1)), Q::zero());
}

#[test]
fn degenerate_vertices() {
    // square pyramid: apex (0,0,1) with 4 facets → degenerate vertex
    let pyr = vec![con(&[0, 0, -1], 0), con(&[1, 0, 1], 1), con(&[-1, 0, 1], 1), con(&[0, 1, 1], 1), con(&[0, -1, 1], 1)];
    // base [-1,1]^2 area 4, height 1 → 4/3
    assert_eq!(differential(3, std::slice::from_ref(&pyr), &[3, 5, 7]), Q::parse("4/3").unwrap());
    // octahedron |x|+|y|+|z| ≤ 1 → vol 4/3, every vertex on 4 facets
    let mut octa = Vec::new();
    for sx in [-1i64, 1] {
        for sy in [-1i64, 1] {
            for sz in [-1i64, 1] {
                octa.push(con(&[sx, sy, sz], 1));
            }
        }
    }
    assert_eq!(differential(3, &[clone_poly(&octa)], &[3, 5, 7]), Q::parse("4/3").unwrap());
    // 4d cross-polytope: 2^4/4! = 2/3
    let mut cross4 = Vec::new();
    for m in 0..16i64 {
        let s: Vec<i64> = (0..4).map(|i| if (m >> i) & 1 == 1 { -1 } else { 1 }).collect();
        cross4.push(con(&s, 1));
    }
    assert_eq!(differential(4, &[cross4], &[3, 5, 7, 11]), Q::parse("2/3").unwrap());
    // cone over a 24-gon-like base: 24 planes through the apex (0,0,2)
    let mut cone = vec![con(&[0, 0, -1], 0)];
    let n = 24i64;
    for k in 0..n {
        let ang = 2.0 * std::f64::consts::PI * k as f64 / n as f64;
        let cx = (ang.cos() * 1000.0).round() as i64;
        let cy = (ang.sin() * 1000.0).round() as i64;
        // plane through apex (0,0,2): cx x + cy y + 500 z ≤ 1000  (at z=0 radius 2)
        cone.push(con(&[cx, cy, 500], 1000));
    }
    let v = differential(3, &[clone_poly(&cone)], &[3, 5, 7]);
    // base is the 24-gon circumscribed about the unit circle: area 24·tan(π/24), height 2
    let vf = f64_of(&v);
    let expect = 24.0 * (std::f64::consts::PI / 24.0).tan() * 2.0 / 3.0;
    assert!((vf - expect).abs() < 1e-3, "cone volume {vf} vs {expect}");
    // pyramid ∪ octahedron (overlapping, degenerate) vs Monte Carlo
    let v = differential(3, &[pyr, octa], &[3, 5, 7]);
    let mc = monte_carlo(
        3,
        &[
            vec![con(&[0, 0, -1], 0), con(&[1, 0, 1], 1), con(&[-1, 0, 1], 1), con(&[0, 1, 1], 1), con(&[0, -1, 1], 1)],
            {
                let mut o = Vec::new();
                for sx in [-1i64, 1] {
                    for sy in [-1i64, 1] {
                        for sz in [-1i64, 1] {
                            o.push(con(&[sx, sy, sz], 1));
                        }
                    }
                }
                o
            },
        ],
        &[-1.0; 3],
        &[1.0; 3],
        None,
        400_000,
        3,
    );
    assert!((f64_of(&v) - mc).abs() < 0.02, "exact {} vs MC {mc}", f64_of(&v));
}

fn clone_poly(p: &[RawConstraint]) -> Vec<RawConstraint> {
    p.iter().map(|c| RawConstraint { a: c.a.clone(), b: c.b.clone() }).collect()
}

#[test]
fn unions_golden() {
    // L-shape: [0,2]×[0,1] ∪ [0,1]×[0,2] → 3
    let l = vec![int_box(&[0, 0], &[2, 1]), int_box(&[0, 0], &[1, 2])];
    assert_eq!(differential(2, &l, &[3, 5]), Q::integer(3));
    // nested: [0,3]^2 ⊇ [1,2]^2 → 9
    let nested = vec![int_box(&[0, 0], &[3, 3]), int_box(&[1, 1], &[2, 2])];
    assert_eq!(differential(2, &nested, &[3, 5]), Q::integer(9));
    // disjoint: two unit squares → 2
    let disj = vec![int_box(&[0, 0], &[1, 1]), int_box(&[5, 5], &[6, 6])];
    assert_eq!(differential(2, &disj, &[3, 5]), Q::integer(2));
    // adjacent (shared facet): [0,1]² ∪ [1,2]×[0,1] → 2
    let adj = vec![int_box(&[0, 0], &[1, 1]), int_box(&[1, 0], &[2, 1])];
    assert_eq!(differential(2, &adj, &[3, 5]), Q::integer(2));
    // three boxes overlapping in 3d
    let three = vec![int_box(&[0, 0, 0], &[2, 2, 2]), int_box(&[1, 1, 1], &[3, 3, 3]), int_box(&[0, 2, 0], &[1, 4, 1])];
    // 8 + 8 − 1 + 2 = 17  (third box: [0,1]×[2,4]×[0,1] vol 2, overlaps first on the face y=2 only)
    assert_eq!(differential(3, &three, &[3, 5, 7]), Q::integer(17));
    // union with a shared vertex only
    let touch = vec![int_box(&[0, 0], &[1, 1]), int_box(&[1, 1], &[2, 2])];
    assert_eq!(differential(2, &touch, &[3, 5]), Q::integer(2));
    // four squares around the origin (interior vertex of the union)
    let four = vec![int_box(&[0, 0], &[1, 1]), int_box(&[-1, 0], &[0, 1]), int_box(&[-1, -1], &[0, 0]), int_box(&[0, -1], &[1, 0])];
    assert_eq!(differential(2, &four, &[3, 5]), Q::integer(4));
    // three triangles meeting at the origin, six sectors each pair-covered (hole under perturbation)
    let tri = vec![
        vec![con(&[-1, 0], 0), con(&[0, -1], 0), con(&[1, 1], 1)],
        vec![con(&[1, 0], 0), con(&[0, -1], 0), con(&[-1, 1], 1)],
        vec![con(&[0, 1], 0), con(&[1, -1], 1), con(&[-1, -1], 1)],
    ];
    // areas: 1/2 + 1/2 + 1 = 2 (third: y ≤ 0, x−y ≤ 1, −x−y ≤ 1 : triangle (−1,0),(1,0),(0,−1) area 1)
    assert_eq!(differential(2, &tri, &[3, 5]), Q::integer(2));
}

#[test]
fn inclusion_exclusion_on_random_pairs() {
    let mut rng = Rng(99);
    let mut checked = 0;
    for _ in 0..30 {
        let d = 2 + (rng.next() % 2) as usize;
        let mk = |rng: &mut Rng| {
            // random simplex-ish polytope: box ∩ 2 random halfspaces, then check it's full-dim via prepare
            let mut c = int_box(&vec![0; d], &vec![4; d]);
            for _ in 0..2 {
                let a: Vec<i64> = (0..d).map(|_| rng.range(-3, 3)).collect();
                if a.iter().all(|&x| x == 0) {
                    continue;
                }
                c.push(con(&a, rng.range(1, 8)));
            }
            let t: Vec<i64> = (0..d).map(|_| rng.range(-2, 2)).collect();
            // translate: a·(x − t) ≤ b
            c.iter()
                .map(|rc| {
                    let shift: Q = rc.a.iter().zip(&t).fold(Q::zero(), |s, (ai, ti)| s.add(&ai.mul(&Q::integer(*ti))));
                    RawConstraint { a: rc.a.clone(), b: rc.b.add(&shift) }
                })
                .collect::<Vec<_>>()
        };
        let p = mk(&mut rng);
        let q = mk(&mut rng);
        let ok = |x: &Vec<RawConstraint>| nefvol::preprocess::prepare(d, x).is_ok();
        if !ok(&p) || !ok(&q) {
            continue;
        }
        let vp = volume(d, std::slice::from_ref(&p));
        let vq = volume(d, std::slice::from_ref(&q));
        let vu = volume(d, &[clone_poly(&p), clone_poly(&q)]);
        let mut inter = clone_poly(&p);
        inter.extend(clone_poly(&q));
        let vi = match nefvol::preprocess::prepare(d, &inter) {
            Ok(_) => volume(d, &[inter]),
            Err(_) => Q::zero(),
        };
        assert_eq!(vu.add(&vi), vp.add(&vq), "inclusion-exclusion failed");
        checked += 1;
    }
    assert!(checked >= 10, "only {checked} pairs checked");
}

#[test]
fn direction_independence_and_random_unions_vs_monte_carlo() {
    let mut rng = Rng(2024);
    for trial in 0..6 {
        let d = 2 + trial % 2;
        // rotated boxes: unimodular shear-like maps keep things integral
        let mut polys = Vec::new();
        for _ in 0..3 {
            let lo: Vec<Q> = (0..d).map(|_| Q::integer(rng.range(-3, 1))).collect();
            let hi: Vec<Q> = lo.iter().map(|l| l.add(&Q::integer(rng.range(1, 4)))).collect();
            let b = boxp(&lo, &hi);
            // inverse matrix of a random unit-upper-triangular-ish map: M^{-1} = I - s E_ij
            let mut minv: Vec<Vec<Q>> = (0..d).map(|i| (0..d).map(|j| if i == j { Q::one() } else { Q::zero() }).collect()).collect();
            let i = (rng.next() % d as u64) as usize;
            let j = (rng.next() % d as u64) as usize;
            if i != j {
                minv[i][j] = Q::integer(rng.range(-2, 2));
            }
            let t: Vec<Q> = (0..d).map(|_| Q::integer(rng.range(-1, 1))).collect();
            polys.push(transform(&b, &minv, &t));
        }
        let mut vols = Vec::new();
        for k in 0..4 {
            let dir: Vec<i64> = (0..d).map(|i| rng.range(1, 50) * (if (i + k) % 2 == 0 { 1 } else { -1 })).collect();
            let f = sweep_dir(d, &polys, &dir);
            vols.push(f.total().unwrap());
        }
        for v in &vols[1..] {
            assert_eq!(v, &vols[0], "direction dependence");
        }
        // also the differential test against the oracle
        let v = differential(d, &polys, &[7, 11, 13][..d]);
        assert_eq!(v, vols[0]);
        let mc = monte_carlo(d, &polys, &vec![-12.0; d], &vec![12.0; d], None, 300_000, 17 + trial as u64);
        let ex = f64_of(&v);
        let tol = 0.05 * ex.max(1.0) + (24f64.powi(d as i32) / 300_000f64).sqrt() * 2.0;
        assert!((ex - mc).abs() < tol, "trial {trial}: exact {ex} vs MC {mc}");
    }
}

#[test]
fn sweep_partial_volumes_vs_monte_carlo() {
    // L-shape in 3d, generic direction; check s(λ) at several λ
    let polys = vec![int_box(&[0, 0, 0], &[3, 1, 1]), int_box(&[0, 0, 0], &[1, 3, 1]), int_box(&[0, 0, 0], &[1, 1, 3])];
    let dir = [2i64, 3, 5];
    let f = sweep_dir(3, &polys, &dir);
    assert_eq!(f.total().unwrap(), Q::integer(7));
    let af: Vec<f64> = dir.iter().map(|&x| x as f64).collect();
    for l in [2.0f64, 4.5, 7.0, 9.5] {
        let ex = f64_of(&f.eval(&Q::parse(&l.to_string()).unwrap()));
        let mc = monte_carlo(3, &polys, &[0.0; 3], &[3.0; 3], Some((&af, l)), 400_000, 5);
        assert!((ex - mc).abs() < 0.05, "λ={l}: exact {ex} vs MC {mc}");
    }
}

#[test]
fn budget_splitting_is_exact_and_deterministic() {
    let polys = vec![int_box(&[0, 0, 0], &[3, 1, 1]), int_box(&[0, 0, 0], &[1, 3, 1]), int_box(&[0, 0, 0], &[1, 1, 3]), simplex(3, Q::integer(2))];
    let dir = qv(&[3, 5, 7]);
    let (f0, r0) = solve(3, &polys, &dir, &Options { budget: None, ..Default::default() }).ok().unwrap();
    for b in [1u64, 2, 3, 7, 50] {
        let (f, r) = solve(3, &polys, &dir, &Options { budget: Some(b), ..Default::default() }).ok().unwrap();
        assert_eq!(f.knots, f0.knots, "budget {b}");
        assert_eq!(r.search.nodes, r0.search.nodes, "budget {b}: node count");
        assert_eq!(r.search.emitted, r0.search.emitted, "budget {b}: emitted");
        if b <= 7 {
            assert!(r.search.tasks > r0.search.tasks, "budget {b} produced no split");
        }
    }
}

#[test]
fn integer_direction_helper_is_primitive() {
    let a = integerize(&[Q::parse("1/2").unwrap(), Q::parse("1/3").unwrap()]);
    assert_eq!(a, zv(&[3, 2]));
}
