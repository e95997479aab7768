use nefvol::geom::{Constraint, Problem, RawConstraint};
use nefvol::linalg::{det_adj, Echelon};
use nefvol::local::chi_union;
use nefvol::num::{add_zz, dot, sub_zz, Point, Q, Z};

fn q(x: i64) -> Q {
    Q::integer(x)
}

fn z(v: &[i64]) -> Vec<Z> {
    v.iter().map(|&x| Z::from(x)).collect()
}

#[test]
fn canonical_dedup() {
    // x ≤ 1 and -2x ≤ -2 → same hyperplane, opposite orientations
    let raw = vec![vec![
        RawConstraint { a: vec![q(1), q(0)], b: q(1) },
        RawConstraint { a: vec![q(-2), q(0)], b: q(-2) },
        RawConstraint { a: vec![Q::parse("1/2").unwrap(), q(0)], b: Q::parse("1/2").unwrap() },
    ]];
    let p = Problem::from_raw(2, &raw).unwrap();
    assert_eq!(p.hyps.len(), 1);
    assert_eq!(p.hyps[0].n, vec![Z::from(1), Z::from(0)]);
    assert_eq!(p.hyps[0].b, Z::from(1));
    assert_eq!(p.polys[0].cons, vec![Constraint { h: 0, o: 1 }, Constraint { h: 0, o: -1 }]);
}

#[test]
fn det_adj_2x2() {
    let r0 = z(&[2, 1]);
    let r1 = z(&[1, 3]);
    let (d, adj) = det_adj(&[&r0, &r1]);
    assert_eq!(d, Z::from(5));
    assert_eq!(adj, z(&[3, -1, -1, 2]));
}

#[test]
fn det_adj_3x3_with_swap() {
    let rows = [z(&[0, 2, 1]), z(&[1, 0, 3]), z(&[4, 1, 0])];
    let rr: Vec<&[Z]> = rows.iter().map(|r| r.as_slice()).collect();
    let (d, adj) = det_adj(&rr);
    // det = 0*(0-3) - 2*(0-12) + 1*(1-0) = 24 + 1 = 25
    assert_eq!(d, Z::from(25));
    // N * adj = det I
    for (i, row) in rows.iter().enumerate() {
        for j in 0..3 {
            let col: Vec<Z> = (0..3).map(|k| adj[k * 3 + j].clone()).collect();
            let v = dot(row, &col);
            assert_eq!(v, if i == j { d.clone() } else { Z::zero() }, "i={i} j={j}");
        }
    }
}

#[test]
fn det_adj_random_identity() {
    // pseudo-random 5x5 with entries in [-9,9]
    let mut s: u64 = 12345;
    for _ in 0..20 {
        let mut rows = vec![];
        for _ in 0..5 {
            let mut r = vec![];
            for _ in 0..5 {
                s ^= s << 13;
                s ^= s >> 7;
                s ^= s << 17;
                r.push(Z::from((s % 19) as i64 - 9));
            }
            rows.push(r);
        }
        let rr: Vec<&[Z]> = rows.iter().map(|r| r.as_slice()).collect();
        let (d, adj) = det_adj(&rr);
        if d.is_zero() {
            continue;
        }
        for (i, row) in rows.iter().enumerate() {
            for j in 0..5 {
                let col: Vec<Z> = (0..5).map(|k| adj[k * 5 + j].clone()).collect();
                assert_eq!(dot(row, &col), if i == j { d.clone() } else { Z::zero() });
            }
        }
    }
}

#[test]
fn echelon_and_nullspace() {
    let mut e = Echelon::new(3);
    assert!(e.try_push(&z(&[1, 1, 0])));
    assert!(!e.try_push(&z(&[2, 2, 0])));
    assert!(e.try_push(&z(&[0, 1, 1])));
    let n = e.nullspace_direction();
    // orthogonal to (1,1,0) and (0,1,1): (1,-1,1)
    assert_eq!(n, z(&[1, -1, 1]));
    e.pop();
    assert!(e.try_push(&z(&[0, 0, 1])));
    assert_eq!(e.nullspace_direction(), z(&[1, -1, 0]));
}

#[test]
fn chi_basic() {
    // single full cube point (+,+): +1 ; (+,-): -1
    assert_eq!(chi_union(&[(0b11, 0b00)], 2), 1);
    assert_eq!(chi_union(&[(0b11, 0b10)], 2), -1);
    // free coordinate → 0
    assert_eq!(chi_union(&[(0b01, 0b00)], 2), 0);
    // two half-cubes covering the whole cube → 0 (R^2)
    assert_eq!(chi_union(&[(0b01, 0b00), (0b01, 0b01)], 2), 0);
    // L-shape: 3 of 4 quadrants: (+,+),(−,+),(−,−): χ = 1 − 1 + 1 = 1
    assert_eq!(chi_union(&[(0b11, 0b00), (0b11, 0b01), (0b11, 0b11)], 2), 1);
    // two overlapping cubes: {σ_0=+} ∪ {σ_1=+} = 3 points: (+,+),(+,-),(-,+): 1 −1 −1 = −1
    assert_eq!(chi_union(&[(0b01, 0b00), (0b10, 0b00)], 2), -1);
}

#[test]
fn overflow_promotes_and_demotes() {
    let big = Z::S(i128::MAX);
    let s = add_zz(&big, &Z::one());
    assert!(matches!(s, Z::B(_)));
    let back = sub_zz(&s, &Z::one());
    assert_eq!(back, big);
    assert_eq!(sub_zz(&s, &s), Z::zero());
    assert!(s.compare(&big) > 0);
}

#[test]
fn rationals() {
    let a = Q::new(Z::from(6), Z::from(-4));
    assert_eq!(a, Q::new(Z::from(-3), Z::from(2)));
    assert_eq!(a.to_string(), "-3/2");
    assert_eq!(Q::parse("0.75").unwrap(), Q::new(Z::from(3), Z::from(4)));
    assert_eq!(Q::parse("-1/3").unwrap().mul(&Q::integer(3)), Q::integer(-1));
    assert_eq!(Q::parse("2e-2").unwrap(), Q::new(Z::from(1), Z::from(50)));
}

#[test]
fn points() {
    let p = Point::new(vec![Z::from(2), Z::from(4)], Z::from(-6));
    assert_eq!(p.den, Z::from(3));
    assert_eq!(p.num, vec![Z::from(-1), Z::from(-2)]);
    assert_eq!(p.coord(1), Q::new(Z::from(-2), Z::from(3)));
}

#[test]
fn chi_in_sixty_four_dimensions() {
    // the whole mask of 64 coordinates: a single point, its sign by parity
    assert_eq!(chi_union(&[(u64::MAX, 0)], 64), 1);
    assert_eq!(chi_union(&[(u64::MAX, 1u64 << 63)], 64), -1);
    // the top coordinate free → 0
    assert_eq!(chi_union(&[(u64::MAX >> 1, 0)], 64), 0);
    // two points differing in the top coordinate: +1 − 1
    assert_eq!(chi_union(&[(u64::MAX, 0), (u64::MAX, 1u64 << 63)], 64), 0);
    // {σ_63 = +} ∪ {σ_0 = −}: both cubes and their meeting keep free coordinates
    assert_eq!(chi_union(&[(1u64 << 63, 0), (1, 1)], 64), 0);
}
