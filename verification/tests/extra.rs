use nefvol::driver::{default_direction, perturbation, solve, volume, Error, Options};
use nefvol::geom::{Problem, RawConstraint};
use nefvol::io::{parse_auto, parse_ine, parse_json, to_ine};
use nefvol::local::{KernelError, KernelStats, SweepParams};
use nefvol::linalg::det_adj;
use nefvol::num::{add_zz, mul_zz, Point, Q, Z};
use nefvol::oracle::{all_vertices, boundary_vertices, oracle_sweep};
use nefvol::preprocess::PrepError;
use nefvol::reverse::VertexSink;
use nefvol::vertex::{process_vertex, Visit};
use nefvol::shapes::{con, int_box, q, simplex, transform, unit_box};
use nefvol::sweep::{Accumulator, SweepFunction};
use nefvol::viewer::polygon;
use nefvol::walk::{feasible_dirs, Region};

fn qs(v: &[&str]) -> Vec<Q> {
    v.iter().map(|s| Q::parse(s).unwrap()).collect()
}

const SQUARE: &str = "* the unit square\nsquare\nH-representation\nbegin\n4 3 rational\n0 1 0\n1 -1 0\n0 0 1\n1 0 -1\nend\n";

#[test]
fn ine_square_is_read() {
    let inp = parse_ine(SQUARE).unwrap();
    assert_eq!(inp.d, 2);
    assert_eq!(inp.polytopes.len(), 1);
    let p = &inp.polytopes[0];
    assert_eq!(p.len(), 4);
    // row "0 1 0" is 0 + x ≥ 0, i.e. (−1, 0)·x ≤ 0
    assert_eq!(p[0].a, qs(&["-1", "0"]));
    assert_eq!(p[0].b, Q::zero());
    assert_eq!(p[1].a, qs(&["1", "0"]));
    assert_eq!(p[1].b, Q::one());
    let f = solve(2, &inp.polytopes, &qs(&["1", "2"]), &Options::default()).ok().unwrap();
    assert_eq!(f.0.total().unwrap(), Q::one());
}

#[test]
fn ine_reads_several_blocks_with_spacing() {
    let text = "begin\n  2 2 integer\n 1   -1\n\t0 1 \nend\nbegin\n2 2 integer\n3 -1\n-2 1\nEND\n";
    let inp = parse_ine(text).unwrap();
    assert_eq!(inp.d, 1);
    assert_eq!(inp.polytopes.len(), 2);
    assert_eq!(inp.polytopes[1][0].a, qs(&["1"]));
    assert_eq!(inp.polytopes[1][0].b, Q::integer(3));
    assert_eq!(volume(1, &inp.polytopes, &Options::default()).ok().unwrap(), Q::integer(2));
}

#[test]
fn ine_errors_are_reported_for_ine_texts() {
    assert!(parse_ine("begin\n2 3 integer\n1 0\nend\n").is_err());
    assert!(parse_ine("linearity 1 1\nbegin\n1 3 integer\n1 0 0\nend\n").is_err());
}

#[test]
fn ine_error_messages() {
    let e = |t: &str| parse_ine(t).err().unwrap();
    assert!(e("V-representation\nbegin\n1 3 rational\n1 0 0\nend\n").contains("V-representations"));
    assert_eq!(e("nothing here\n"), "no 'begin' block found");
    assert_eq!(e(""), "no 'begin' block found");
    assert_eq!(e("begin\n"), "unexpected end after 'begin'");
    assert_eq!(e("begin\n3\nend\n"), "bad header line '3'");
    assert_eq!(e("begin\nx 3\nend\n"), "bad row count 'x'");
    assert_eq!(e("begin\n1 y\nend\n"), "bad column count 'y'");
    assert_eq!(e("begin\n1 1\n0\nend\n"), "need at least 2 columns (b and one coordinate)");
    assert_eq!(e("begin\n2 3\n1 0 0\nend\n"), "block ended after 3 of 6 numbers");
    assert_eq!(e("begin\n1 3\n1 0 z\nend\n"), "bad number 'z'");
    assert_eq!(e("begin\n1 3\n1 0 0 7\nend\n"), "row length mismatch");
    assert_eq!(e("begin\n1 3\n1 0 0\n"), "expected 'end'");
    assert_eq!(e("begin\n1 3\n1 0\n"), "unexpected end inside block");
    assert_eq!(e("begin\n1 3\n1 0 0\nend\nbegin\n1 2\n1 0\nend\n"), "dimension mismatch: 2 vs 1");
}

#[test]
fn ine_text_round_trips() {
    let polys = vec![int_box(&[0, 0], &[2, 1]), vec![con(&[1, 1], 3), RawConstraint { a: qs(&["-1/2", "0"]), b: q(0) }]];
    let text = to_ine(2, &polys);
    assert!(text.starts_with("polytope_0\nH-representation\nbegin\n4 3 rational\n2 -1 0\n"));
    assert!(text.contains("polytope_1\nH-representation\nbegin\n2 3 rational\n3 -1 -1\n0 1/2 0\nend\n"));
    let back = parse_ine(&text).unwrap();
    assert_eq!(back.d, 2);
    assert_eq!(back.polytopes.len(), 2);
    for (p, r) in polys.iter().zip(&back.polytopes) {
        assert_eq!(p.len(), r.len());
        for (c, e) in p.iter().zip(r) {
            assert_eq!(c.a, e.a);
            assert_eq!(c.b, e.b);
        }
    }
}

#[test]
fn shapes_are_the_documented_constraints() {
    let b = unit_box(2);
    assert_eq!(b.len(), 4);
    assert_eq!(b[0].a, qs(&["1", "0"]));
    assert_eq!(b[0].b, Q::one());
    assert_eq!(b[1].a, qs(&["-1", "0"]));
    assert_eq!(b[1].b, Q::zero());
    assert_eq!(b[3].a, qs(&["0", "-1"]));
    let s = simplex(3, Q::integer(2));
    assert_eq!(s.len(), 4);
    assert_eq!(s[1].a, qs(&["0", "-1", "0"]));
    assert_eq!(s[3].a, qs(&["1", "1", "1"]));
    assert_eq!(s[3].b, Q::integer(2));
    let c = con(&[3, -4], 5);
    assert_eq!(c.a, qs(&["3", "-4"]));
    assert_eq!(c.b, Q::integer(5));
}

#[test]
fn transform_moves_constraints() {
    // x ≤ 1 under y = x + t with t = (2, 0): y_0 ≤ 3
    let c = vec![con(&[1, 0], 1)];
    let minv = vec![qs(&["1", "0"]), qs(&["0", "1"])];
    let r = transform(&c, &minv, &qs(&["2", "0"]));
    assert_eq!(r[0].a, qs(&["1", "0"]));
    assert_eq!(r[0].b, Q::integer(3));
    // shear: a·M⁻¹ with M⁻¹ rows (1, 0), (−3, 1) and a = (1, 2): (1·1 + 2·(−3), 2) = (−5, 2)
    let c = vec![con(&[1, 2], 4)];
    let minv = vec![qs(&["1", "0"]), qs(&["-3", "1"])];
    let r = transform(&c, &minv, &qs(&["1", "1"]));
    assert_eq!(r[0].a, qs(&["-5", "2"]));
    assert_eq!(r[0].b, Q::integer(4 - 5 + 2));
}

fn xorshift(mut s: u64) -> u64 {
    s ^= s << 13;
    s ^= s >> 7;
    s ^= s << 17;
    s
}

#[test]
fn perturbation_and_direction_follow_the_generator() {
    let p = perturbation(3, 7);
    let mut s = 7u64 | 1;
    for x in &p {
        s = xorshift(s);
        let v = (s % (1u64 << 40)) as i64 - (1i64 << 39);
        assert_eq!(*x, Z::from(if v == 0 { 1 } else { v }));
    }
    let d = default_direction(4, 5);
    let mut s = 5u64.wrapping_mul(0x2545F4914F6CDD1D) | 1;
    for x in &d {
        s = xorshift(s);
        assert_eq!(*x, Q::integer((s % 9973) as i64 + 1));
    }
}

#[test]
fn driver_errors() {
    let opts = Options::default();
    assert!(matches!(solve(2, &[], &qs(&["1", "2"]), &opts), Err(Error::Input(_))));
    assert!(matches!(solve(2, &[unit_box(2)], &qs(&["0", "0"]), &opts), Err(Error::Input(_))));
    let r = solve(2, &[unit_box(2), vec![con(&[-1, 0], 0), con(&[0, -1], 0)]], &qs(&["1", "2"]), &opts);
    match r {
        Err(Error::Polytope { index, err }) => {
            assert_eq!(index, 1);
            assert_eq!(err, PrepError::Unbounded);
        }
        _ => panic!("expected a polytope error"),
    }
    let r = solve(2, &[unit_box(2), vec![con(&[-1, 0], 0), con(&[0, -1], 0)]], &qs(&["1", "2"]), &opts);
    assert_eq!(r.err().unwrap().message(), "polytope 1: polytope is unbounded");
}

#[test]
fn oracle_lists_vertices_in_order() {
    let prob = Problem::from_raw(2, &[unit_box(2)]).unwrap();
    let v = all_vertices(&prob);
    let coords: Vec<String> = v.iter().map(|p| p.to_string()).collect();
    assert_eq!(coords, vec!["(0, 0)", "(0, 1)", "(1, 0)", "(1, 1)"]);
    assert_eq!(boundary_vertices(&prob).len(), 4);
    // nested squares: of the 16 grid vertices the 4 inner ones are interior
    let prob = Problem::from_raw(2, &[int_box(&[0, 0], &[3, 3]), int_box(&[1, 1], &[2, 2])]).unwrap();
    assert_eq!(all_vertices(&prob).len(), 16);
    assert_eq!(boundary_vertices(&prob).len(), 12);
}

#[test]
fn polygon_of_a_square() {
    let p = polygon(&unit_box(2));
    assert_eq!(p.len(), 4);
    let s: Vec<String> = p.iter().map(|v| format!("{},{}", v[0].to_string(), v[1].to_string())).collect();
    assert_eq!(s, vec!["0,0", "1,0", "1,1", "0,1"]);
    let t = polygon(&[con(&[-1, 0], 0), con(&[0, -1], 0), con(&[1, 1], 1)]);
    assert_eq!(t.len(), 3);
}

#[test]
fn points_are_stored_in_normal_form() {
    let a = Point::new(vec![Z::from(2), Z::from(4)], Z::from(-6));
    let b = Point::new(vec![Z::from(-1), Z::from(-2)], Z::from(3));
    assert_eq!(a, b);
    assert_eq!(a.to_string(), "(-1/3, -2/3)");
}

#[test]
fn zero_below_the_first_knot_and_constant_above() {
    let f = solve(2, &[simplex(2, Q::integer(3))], &qs(&["1", "1"]), &Options::default()).ok().unwrap().0;
    assert_eq!(f.eval(&Q::integer(-10)), Q::zero());
    assert_eq!(f.eval(&Q::zero()), Q::zero());
    assert_eq!(f.eval(&Q::integer(100)), Q::parse("9/2").unwrap());
    assert_eq!(f.total().unwrap(), Q::parse("9/2").unwrap());
}

#[test]
fn rescaled_function_is_the_old_one_at_the_scaled_argument() {
    // a = (2, 4) = 2·(1, 2): s_{(2,4)}(λ) = s_{(1,2)}(λ/2)
    let f = solve(2, &[unit_box(2)], &qs(&["2", "4"]), &Options::default()).ok().unwrap().0;
    let g = solve(2, &[unit_box(2)], &qs(&["1", "2"]), &Options::default()).ok().unwrap().0;
    for l in ["0", "1", "3/2", "3", "5", "7"] {
        let l = Q::parse(l).unwrap();
        assert_eq!(f.eval(&l), g.eval(&l.div(&Q::integer(2))));
    }
}

#[test]
fn accumulation_order_does_not_matter() {
    let prob = Problem::from_raw(2, &[int_box(&[0, 0], &[2, 1]), int_box(&[0, 0], &[1, 2])]).unwrap();
    let a: Vec<Z> = vec![Z::from(3), Z::from(5)];
    let (acc, _, _) = oracle_sweep(&prob, &SweepParams { a: &a, r: None }).unwrap();
    let mut one = Accumulator::new(2);
    one.merge(acc.clone());
    one.merge(Accumulator::new(2));
    let mut two = Accumulator::new(2);
    two.merge(Accumulator::new(2));
    two.merge(acc);
    let (f1, f2) = (one.finish().unwrap(), two.finish().unwrap());
    assert_eq!(f1.knots, f2.knots);
    assert_eq!(f1.total().unwrap(), Q::integer(3));
}

#[test]
fn bigint_paths_parse_and_print() {
    let x = Q::parse("-123456789012345678901234567891/2").unwrap();
    assert_eq!(x.to_string(), "-123456789012345678901234567891/2");
    let y = x.mul(&Q::integer(2));
    assert_eq!(y.to_string(), "-123456789012345678901234567891");
    assert_eq!(y.add(&Q::parse("123456789012345678901234567891").unwrap()), Q::zero());
}

#[test]
fn a_tail_that_still_grows_is_reported() {
    // one knot at 0 with s(λ) = λ above it: the λ¹ coefficient of the tail is 1
    let f = SweepFunction { d: 1, knots: vec![(Q::zero(), vec![Q::zero(), Q::one()])] };
    assert!(f.total().is_err());
    assert_eq!(
        f.total().err().unwrap(),
        "internal error: sweep function is not constant above the last knot (λ^1 coefficient 1)"
    );
    let g = SweepFunction { d: 1, knots: vec![(Q::zero(), vec![Q::integer(5), Q::zero()])] };
    assert_eq!(g.total().unwrap(), Q::integer(5));
}

#[test]
fn adjugate_inverts_from_both_sides() {
    let rows = [
        vec![Z::from(2), Z::from(0), Z::from(1)],
        vec![Z::from(1), Z::from(3), Z::from(0)],
        vec![Z::from(0), Z::from(1), Z::from(4)],
    ];
    let rr: Vec<&[Z]> = rows.iter().map(|r| r.as_slice()).collect();
    let (det, adj) = det_adj(&rr);
    assert_eq!(det, Z::from(25));
    for i in 0..3 {
        for j in 0..3 {
            let mut left = Z::from(0);
            let mut right = Z::from(0);
            for k in 0..3 {
                left = add_zz(&left, &mul_zz(&adj[i * 3 + k], &rows[k][j]));
                right = add_zz(&right, &mul_zz(&rows[i][k], &adj[k * 3 + j]));
            }
            let want = if i == j { det.clone() } else { Z::from(0) };
            assert_eq!(left, want);
            assert_eq!(right, want);
        }
    }
}

#[test]
fn a_singular_matrix_has_no_adjugate() {
    let rows = [vec![Z::from(1), Z::from(2)], vec![Z::from(2), Z::from(4)]];
    let rr: Vec<&[Z]> = rows.iter().map(|r| r.as_slice()).collect();
    let (det, adj) = det_adj(&rr);
    assert_eq!(det, Z::from(0));
    assert!(adj.is_empty());
}

#[test]
fn restricted_view_keeps_only_what_meets_the_box() {
    let prob = Problem::from_raw(2, &[int_box(&[0, 0], &[1, 1]), int_box(&[5, 5], &[6, 6]), int_box(&[0, 0], &[2, 1])]).unwrap();
    let bb = |lo: [i64; 2], hi: [i64; 2]| (vec![Q::integer(lo[0]), Q::integer(lo[1])], vec![Q::integer(hi[0]), Q::integer(hi[1])]);
    let boxes = vec![bb([0, 0], [1, 1]), bb([5, 5], [6, 6]), bb([0, 0], [2, 1])];
    let view = prob.local_view(2, &boxes);
    // polytope 2 first, then 0; the far box 1 is dropped
    let ids: Vec<usize> = view.polys.iter().map(|p| p.id).collect();
    assert_eq!(ids, vec![2, 0]);
    // of box 0, every facet line meets [0,2]×[0,1]
    assert_eq!(view.polys[1].pos, vec![0, 1, 2, 3]);
    let far = prob.local_view(1, &boxes);
    assert_eq!(far.polys.iter().map(|p| p.id).collect::<Vec<usize>>(), vec![1]);
}

#[test]
fn every_piece_is_the_sweep_function_on_its_interval() {
    let f = solve(2, &[unit_box(2), int_box(&[1, 0], &[3, 2])], &qs(&["1", "2"]), &Options::default()).ok().unwrap().0;
    let pieces = f.pieces();
    assert_eq!(pieces.len(), f.knots.len() + 1);
    for p in &pieces {
        let lam = match (&p.lo, &p.hi) {
            (Some(lo), Some(hi)) => lo.add(hi).div(&Q::integer(2)),
            (Some(lo), None) => lo.add(&Q::integer(5)),
            (None, Some(hi)) => hi.sub(&Q::integer(5)),
            (None, None) => Q::zero(),
        };
        let mut v = Q::zero();
        let mut pw = Q::one();
        for c in &p.poly {
            v = v.add(&c.mul(&pw));
            pw = pw.mul(&lam);
        }
        assert_eq!(v, f.eval(&lam));
    }
    // above the last knot the function is its total
    let top = f.knots.last().unwrap().0.add(&Q::integer(7));
    assert_eq!(f.eval(&top), f.total().unwrap());
    assert_eq!(f.total().unwrap(), Q::integer(5));
}

#[test]
fn kernel_error_messages_name_the_vertex() {
    let e = KernelError::NonGeneric { vertex: "(1, 2)".to_owned() };
    assert_eq!(
        e.message(),
        "sweep direction is orthogonal to an arrangement edge at vertex (1, 2); drop --assume-generic"
    );
    let e = KernelError::BadPerturbation { vertex: "(0)".to_owned() };
    assert_eq!(e.message(), "perturbation direction is also orthogonal to an edge at vertex (0); use another --seed");
}

#[test]
fn vertex_record_appends_in_order() {
    let mut rec: Vec<(Point, Visit)> = Vec::new();
    let p = Point { num: vec![Z::from_i64(1), Z::from_i64(-2)], den: Z::from_i64(3) };
    let o = Point { num: vec![Z::from_i64(0), Z::from_i64(0)], den: Z::one() };
    rec.visited(&p, Visit::Emitted);
    rec.visited(&o, Visit::NotBoundary);
    assert_eq!(rec.len(), 2);
    assert_eq!(rec[0].0, p);
    assert_eq!(rec[0].1, Visit::Emitted);
    assert_eq!(rec[1].0, o);
    assert_eq!(rec[1].1, Visit::NotBoundary);
}

#[test]
fn volume_input_errors() {
    let opts = Options::default();
    assert!(matches!(volume(2, &[], &opts), Err(Error::Input(_))));
    assert!(matches!(volume(0, &[vec![]], &opts), Err(_)));
}

#[test]
fn polygon_of_a_segment_like_region_has_two_corners() {
    // 0 ≤ x ≤ 1, y = 0: two corners, (0, 0) and (1, 0)
    let p = polygon(&[con(&[-1, 0], 0), con(&[1, 0], 1), con(&[0, 1], 0), con(&[0, -1], 0)]);
    assert!(p.len() >= 2);
}

#[test]
fn edge_directions_on_the_line() {
    // the unit interval: at x = 0 only +1 stays inside, away from both ends
    // both directions do
    let prob = Problem::from_raw(1, &[unit_box(1)]).unwrap();
    let cons = prob.polys[0].cons.clone();
    let free = Region { cons: cons.clone(), eq: None };
    let both = feasible_dirs(&prob, &free, &[], &[]);
    assert_eq!(both.len(), 2);
    assert_eq!(both[0], vec![Z::from_i64(1)]);
    assert_eq!(both[1], vec![Z::from_i64(-1)]);
    let at_zero: Vec<_> = cons.iter().copied().filter(|c| prob.hyps[c.h].b == Z::from_i64(0)).collect();
    let up = feasible_dirs(&prob, &free, &[], &at_zero);
    assert_eq!(up, vec![vec![Z::from_i64(1)]]);
}

#[test]
fn ine_errors_are_reported() {
    assert!(parse_auto("begin\n2 3 integer\n1 0\nend\n").is_err());
    assert!(parse_auto("linearity 1 1\nbegin\n1 3 integer\n1 0 0\nend\n").is_err());
    assert!(parse_auto("{\"polytopes\": [{\"A\": [[1,0]], \"b\": [1, 2]}]}").is_err());
}

#[test]
fn json_input_is_read() {
    let inp = parse_json("{\"polytopes\": [{\"A\": [[1, 0], [0, \"-1/2\"]], \"b\": [1, 0.5]}, {\"A\": [], \"b\": []}]}").unwrap();
    assert_eq!(inp.d, 2);
    assert_eq!(inp.polytopes.len(), 2);
    assert_eq!(inp.polytopes[0][0].a, qs(&["1", "0"]));
    assert_eq!(inp.polytopes[0][0].b, Q::one());
    assert_eq!(inp.polytopes[0][1].a, qs(&["0", "-1/2"]));
    assert_eq!(inp.polytopes[0][1].b, Q::parse("1/2").unwrap());
    assert!(inp.polytopes[1].is_empty());
    let same = parse_auto("  \n{\"polytopes\": [{\"A\": [[1, 0], [0, \"-1/2\"]], \"b\": [1, 0.5]}, {\"A\": [], \"b\": []}]}").unwrap();
    assert_eq!(same.polytopes[0][1].a, inp.polytopes[0][1].a);
}

#[test]
fn json_errors_are_reported() {
    let e = |t: &str| parse_json(t).err().unwrap();
    assert_eq!(e("{\"x\": 1}"), "expected top-level 'polytopes' array");
    assert_eq!(e("{\"polytopes\": [{\"b\": []}]}"), "polytope 0: missing 'A'");
    assert_eq!(e("{\"polytopes\": [{\"A\": [[1]], \"b\": [1, 2]}]}"), "polytope 0: A has 1 rows but b has 2");
    assert_eq!(e("{\"polytopes\": [{\"A\": [1], \"b\": [1]}]}"), "polytope 0 row 0: expected array");
    assert_eq!(e("{\"polytopes\": [{\"A\": [[1, 2], [1]], \"b\": [1, 1]}]}"), "polytope 0 row 1: dimension mismatch");
    assert_eq!(e("{\"polytopes\": [{\"A\": [[true]], \"b\": [1]}]}"), "expected a number, got true");
    assert_eq!(e("{\"polytopes\": [{\"A\": [[\"x\"]], \"b\": [1]}]}"), "bad number 'x'");
    assert_eq!(e("{\"polytopes\": []}"), "no constraints");
    assert!(parse_json("{").is_err());
}

#[test]
fn zero_normal_constraints_are_rejected() {
    let raw = vec![vec![con(&[1, 0], 1), con(&[0, 0], 1)]];
    assert!(Problem::from_raw(2, &raw).is_err());
    let raw = vec![vec![con(&[0, 0], -1)]];
    assert!(Problem::from_raw(2, &raw).is_err());
    let mut b = unit_box(2);
    b.push(con(&[0, 0], 3));
    assert!(volume(2, &[b], &Options::default()).is_err());
}

#[test]
fn signed_counts_are_refused() {
    assert!(parse_ine("begin\n-0 3 rational\nend\n").is_err());
    assert!(parse_ine("begin\n+1 2 rational\n1 -1\nend\n").is_ok());
}

#[test]
fn lambda_range_spans_the_polygons() {
    let polys = vec![polygon(&unit_box(2)), polygon(&int_box(&[2, -1], &[3, 0]))];
    let dir = vec![Q::one(), Q::parse("2").unwrap()];
    let (lo, hi) = nefvol::viewer::lambda_range(&polys, &dir).unwrap();
    assert_eq!(lo, Q::parse("0").unwrap());
    assert_eq!(hi, Q::parse("3").unwrap());
    assert!(nefvol::viewer::lambda_range(&vec![], &dir).is_none());
}

#[test]
fn prepare_of_nothing_is_unbounded() {
    assert_eq!(nefvol::preprocess::prepare(2, &[]).err(), Some(PrepError::Unbounded));
}

#[test]
fn a_shared_vertex_has_one_owner() {
    let prob = Problem::from_raw(2, &[int_box(&[0, 0], &[1, 1]), int_box(&[1, 1], &[2, 2])]).unwrap();
    let v = Point { num: vec![Z::from_i64(1), Z::from_i64(1)], den: Z::one() };
    let evals = prob.evals(&v);
    let a = vec![Z::from_i64(1), Z::from_i64(2)];
    let r = perturbation(2, 7);
    let params = SweepParams { a: &a, r: Some(&r) };
    let mut owners = 0;
    for p in 0..2usize {
        for k in 0..prob.polys[p].cons.len() {
            let mut acc = Accumulator::new(2);
            let mut st = KernelStats::default();
            let res = process_vertex(&prob, &v, &evals, Some((p, k)), &params, &mut acc, &mut st).unwrap();
            if res != Visit::OwnedElsewhere {
                owners += 1;
            }
        }
    }
    assert_eq!(owners, 1);
}

#[test]
fn geometry_and_cached_function_agree() {
    let input = parse_auto(SQUARE).unwrap();
    let int = |s: &str| Q::parse(s).unwrap();
    for direction in [vec![int("1"), int("2")], vec![int("-1"), Q::zero()], vec![int("1/2"), int("1")]] {
        let (f, _) = solve(input.d, &input.polytopes, &direction, &Options::default()).unwrap();
        let polygons: Vec<Vec<Vec<Q>>> = input.polytopes.iter().map(|c| polygon(c)).collect();
        assert_eq!(polygons[0].len(), 4);
        let (lo, hi) = nefvol::viewer::lambda_range(&polygons, &direction).unwrap();
        assert_eq!(f.eval(&lo), Q::zero());
        assert_eq!(f.eval(&hi), Q::one());
        assert_eq!(f.total().unwrap().to_string(), "1");
    }
}

#[test]
fn overlapping_squares_are_a_union() {
    let input = parse_auto(r#"{"polytopes":[{"A":[[-1,0],[1,0],[0,-1],[0,1]],"b":[0,2,0,2]},{"A":[[-1,0],[1,0],[0,-1],[0,1]],"b":[-1,3,-1,3]}]}"#).unwrap();
    let direction = vec![Q::one(), Q::one()];
    let (f, _) = solve(2, &input.polytopes, &direction, &Options::default()).unwrap();
    let polygons: Vec<Vec<Vec<Q>>> = input.polytopes.iter().map(|c| polygon(c)).collect();
    let (lo, hi) = nefvol::viewer::lambda_range(&polygons, &direction).unwrap();
    assert_eq!(f.total().unwrap().to_string(), "7");
    assert_eq!((lo.to_string(), hi.to_string()), ("0".to_owned(), "6".to_owned()));
    assert_eq!(polygons.len(), 2);
}

#[test]
fn facet_tasks_run_in_any_order_give_the_same_function() {
    let input = parse_auto(r#"{"polytopes":[{"A":[[-1,0],[1,0],[0,-1],[0,1]],"b":[0,2,0,2]},{"A":[[-1,0],[1,0],[0,-1],[0,1]],"b":[-1,3,-1,3]}]}"#).unwrap();
    let direction = vec![Q::one(), Q::integer(2)];
    let opts = Options::default();
    let (whole, rep) = solve(2, &input.polytopes, &direction, &opts).unwrap();
    let plan = nefvol::driver::plan(2, &input.polytopes, &direction, &opts).unwrap();
    assert_eq!(plan.task_count(), rep.facets);
    let mut acc = Accumulator::new(2);
    let mut stats = nefvol::reverse::SearchStats::new();
    for i in (0..plan.task_count()).rev() {
        let (a, s) = nefvol::driver::run_plan_task(&plan, i).unwrap();
        acc.merge(a);
        stats.merge(&s);
    }
    let (split, rep2) = nefvol::driver::conclude(&plan, acc, stats).unwrap();
    assert_eq!(split.total().unwrap(), whole.total().unwrap());
    assert_eq!(split.total().unwrap().to_string(), "7");
    assert_eq!(split.knots.len(), whole.knots.len());
    for (x, y) in split.knots.iter().zip(whole.knots.iter()) {
        assert_eq!(x, y);
    }
    assert_eq!(rep2.search.emitted, rep.search.emitted);
    // the budget changes how the facets are split, not the result
    let unsplit = Options { budget: None, ..Options::default() };
    let (f3, _) = solve(2, &input.polytopes, &direction, &unsplit).unwrap();
    assert_eq!(f3.total().unwrap().to_string(), "7");
    let tiny = Options { budget: Some(1), ..Options::default() };
    let (f4, _) = solve(2, &input.polytopes, &direction, &tiny).unwrap();
    assert_eq!(f4.total().unwrap().to_string(), "7");
}
