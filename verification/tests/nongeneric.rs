use nefvol::driver::{solve, Options};
use nefvol::geom::RawConstraint;
use nefvol::num::Q;
use nefvol::shapes::{int_box, simplex, unit_box};
use nefvol::sweep::SweepFunction;

fn qv(v: &[i64]) -> Vec<Q> {
    v.iter().map(|&x| Q::integer(x)).collect()
}

fn f64_of(q: &Q) -> f64 {
    let s = q.to_string();
    match s.split_once('/') {
        Some((n, d)) => n.parse::<f64>().unwrap() / d.parse::<f64>().unwrap(),
        None => s.parse::<f64>().unwrap(),
    }
}

fn sweep_dir(d: usize, raw: &[Vec<RawConstraint>], dir: &[i64]) -> SweepFunction {
    let dq = qv(dir);
    let (f, _) = solve(d, raw, &dq, &Options::default()).ok().unwrap();
    f
}

struct Rng(u64);
impl Rng {
    fn next(&mut self) -> u64 {
        let mut s = self.0;
        s ^= s << 13;
        s ^= s >> 7;
        s ^= s << 17;
        self.0 = s;
        s
    }
    fn unit(&mut self) -> f64 {
        (self.next() >> 11) as f64 / (1u64 << 53) as f64
    }
}

fn monte_carlo(d: usize, raw: &[Vec<RawConstraint>], lo: &[f64], hi: &[f64], a: Option<(&[f64], f64)>, n: usize, seed: u64) -> f64 {
    let mut rng = Rng(seed | 1);
    let mut hits = 0usize;
    let polys: Vec<Vec<(Vec<f64>, f64)>> =
        raw.iter().map(|p| p.iter().map(|c| (c.a.iter().map(f64_of).collect(), f64_of(&c.b))).collect()).collect();
    let mut x = vec![0.0; d];
    for _ in 0..n {
        for i in 0..d {
            x[i] = lo[i] + (hi[i] - lo[i]) * rng.unit();
        }
        if let Some((av, l)) = a {
            let s: f64 = av.iter().zip(&x).map(|(p, q)| p * q).sum();
            if s > l {
                continue;
            }
        }
        let inside = polys.iter().any(|p| p.iter().all(|(av, b)| av.iter().zip(&x).map(|(p, q)| p * q).sum::<f64>() <= *b));
        if inside {
            hits += 1;
        }
    }
    let vol_box: f64 = (0..d).map(|i| hi[i] - lo[i]).product();
    vol_box * hits as f64 / n as f64
}

#[test]
fn axis_direction_on_box_gives_linear_pieces() {
    // a = (1,0): s(λ) = λ on [0,1] for the unit square; every edge parallel to y is orthogonal to a
    let f = sweep_dir(2, &[unit_box(2)], &[1, 0]);
    assert_eq!(f.eval(&Q::parse("1/2").unwrap()), Q::parse("1/2").unwrap());
    assert_eq!(f.total().unwrap(), Q::integer(1));
    let pieces = f.pieces();
    // piece on [0,1): λ
    assert_eq!(pieces[1].poly, vec![Q::zero(), Q::one(), Q::zero()]);
    // 3d: a = (1,1,0) on the unit cube: s(λ)= λ²/2 on [0,1]
    let f = sweep_dir(3, &[unit_box(3)], &[1, 1, 0]);
    assert_eq!(f.eval(&Q::parse("1/2").unwrap()), Q::parse("1/8").unwrap());
    assert_eq!(f.eval(&Q::integer(1)), Q::parse("1/2").unwrap());
    assert_eq!(f.total().unwrap(), Q::integer(1));
}

#[test]
fn nongeneric_union_matches_generic_total_and_monte_carlo() {
    let polys = vec![int_box(&[0, 0, 0], &[2, 2, 1]), int_box(&[1, 1, 0], &[3, 3, 2]), simplex(3, Q::integer(2))];
    let generic = sweep_dir(3, &polys, &[3, 5, 7]).total().unwrap();
    for dir in [[1i64, 0, 0], [0, 1, 0], [1, 1, 0], [1, -1, 0], [0, 0, 1], [1, 1, 1]] {
        let f = sweep_dir(3, &polys, &dir);
        assert_eq!(f.total().unwrap(), generic, "dir {dir:?}");
        let af: Vec<f64> = dir.iter().map(|&x| x as f64).collect();
        for l in [0.5f64, 1.5, 2.5] {
            let ex = f64_of(&f.eval(&Q::parse(&l.to_string()).unwrap()));
            let mc = monte_carlo(3, &polys, &[0.0; 3], &[3.0; 3], Some((&af, l)), 300_000, 11);
            assert!((ex - mc).abs() < 0.06, "dir {dir:?} λ={l}: exact {ex} vs MC {mc}");
        }
    }
}

#[test]
fn assume_generic_fails_loudly() {
    let opts = Options { assume_generic: true, ..Default::default() };
    let r = solve(2, &[unit_box(2)], &qv(&[1, 0]), &opts);
    assert!(r.is_err());
    let msg = r.err().unwrap().message();
    assert!(msg.contains("orthogonal"), "{msg}");
}

#[test]
fn rational_direction_is_reported_on_the_users_scale() {
    // a = (1/2, 1/3) on the unit square vs a = (3, 2): s_{a}(λ) = s_{(3,2)}(6λ)
    let dir = vec![Q::parse("1/2").unwrap(), Q::parse("1/3").unwrap()];
    let (f, _) = solve(2, &[unit_box(2)], &dir, &Options::default()).ok().unwrap();
    let g = sweep_dir(2, &[unit_box(2)], &[3, 2]);
    for l in ["1/12", "1/4", "1/2", "2/3", "5/6"] {
        let l = Q::parse(l).unwrap();
        assert_eq!(f.eval(&l), g.eval(&l.mul(&Q::integer(6))), "λ = {}", l.to_string());
    }
    assert_eq!(f.max_knot().unwrap(), &Q::parse("5/6").unwrap());
}
