use segsweep::geom::{IntersectionResult, Point, Rat, RatPoint, Segment};
use segsweep::sweep::{brute_force_intersections, count_intersections, find_intersections, Reported};

fn seg(x1: i64, y1: i64, x2: i64, y2: i64) -> Segment {
    Segment::new(Point::new(x1, y1), Point::new(x2, y2))
}

fn res_eq(a: &IntersectionResult, b: &IntersectionResult) -> bool {
    match (a, b) {
        (
            IntersectionResult::SinglePoint { p: p1, proper: q1 },
            IntersectionResult::SinglePoint { p: p2, proper: q2 },
        ) => q1 == q2 && p1.eq_point(p2),
        (
            IntersectionResult::Collinear { a: a1, b: b1 },
            IntersectionResult::Collinear { a: a2, b: b2 },
        ) => a1 == a2 && b1 == b2,
        _ => false,
    }
}

fn sorted_by_pair(mut out: Vec<Reported>) -> Vec<Reported> {
    out.sort_by(|u, v| (u.i, u.j).cmp(&(v.i, v.j)));
    out
}

fn same_reports(a: Vec<Reported>, b: Vec<Reported>) -> bool {
    let a = sorted_by_pair(a);
    let b = sorted_by_pair(b);
    a.len() == b.len()
        && a.iter()
            .zip(b.iter())
            .all(|(u, v)| u.i == v.i && u.j == v.j && res_eq(&u.res, &v.res))
}

fn lcg_next(state: &mut u64) -> u64 {
    *state = state.wrapping_mul(6364136223846793005).wrapping_add(1442695040888963407);
    *state
}

fn small_coord(state: &mut u64) -> i64 {
    (lcg_next(state) % 21) as i64 - 10
}

#[test]
fn empty_input_gives_empty_output() {
    let segs: Vec<Segment> = Vec::new();
    let out = find_intersections(&segs);
    assert!(out.is_empty());
}

#[test]
fn single_segment_gives_empty_output() {
    let segs = vec![seg(0, 0, 4, 4)];
    assert!(find_intersections(&segs).is_empty());
}

#[test]
fn pencil_of_four_lines() {
    // The built-in sample, in quarter units: (1,0)-(0,1), (0,0.75)-(1,0.25),
    // (0,0.25)-(1,0.75) and (0,0)-(1,1) all pass through (0.5, 0.5), so all
    // six pairs cross there, properly, and no pair is collinear.
    let segs = vec![
        seg(4, 0, 0, 4),
        seg(0, 3, 4, 1),
        seg(0, 1, 4, 3),
        seg(0, 0, 4, 4),
    ];
    let out = sorted_by_pair(find_intersections(&segs));
    assert_eq!(out.len(), 6);
    let expected_pairs = [(0usize, 1usize), (0, 2), (0, 3), (1, 2), (1, 3), (2, 3)];
    let centre = RatPoint { x: Rat { num: 2, den: 1 }, y: Rat { num: 2, den: 1 } };
    for (entry, &(ei, ej)) in out.iter().zip(expected_pairs.iter()) {
        assert_eq!((entry.i, entry.j), (ei, ej));
        match &entry.res {
            IntersectionResult::SinglePoint { p, proper } => {
                assert!(*proper);
                assert!(p.eq_point(&centre));
            }
            _ => panic!("expected a proper single point"),
        }
    }
}

#[test]
fn collinear_pair_reported_exactly_once() {
    // Two collinear overlapping segments yield one Collinear report with
    // the shared sub-segment, not one report per shared point.
    let segs = vec![seg(0, 0, 2, 0), seg(1, 0, 3, 0)];
    let out = find_intersections(&segs);
    assert_eq!(out.len(), 1);
    assert_eq!((out[0].i, out[0].j), (0, 1));
    match &out[0].res {
        IntersectionResult::Collinear { a, b } => {
            assert_eq!(*a, Point::new(1, 0));
            assert_eq!(*b, Point::new(2, 0));
        }
        _ => panic!("expected a collinear overlap"),
    }
}

#[test]
fn degenerate_touch_is_reported_improper() {
    let segs = vec![seg(0, 0, 4, 4), seg(2, 2, 2, 2)];
    let out = find_intersections(&segs);
    assert_eq!(out.len(), 1);
    assert_eq!((out[0].i, out[0].j), (0, 1));
    assert!(matches!(
        out[0].res,
        IntersectionResult::SinglePoint { proper: false, .. }
    ));
}

#[test]
fn shared_endpoint_of_three_segments() {
    // Three segments fanning out of one point: three improper touches.
    let segs = vec![seg(0, 0, 4, 0), seg(0, 0, 0, 4), seg(0, 0, 4, 4)];
    let out = sorted_by_pair(find_intersections(&segs));
    assert_eq!(out.len(), 3);
    for entry in &out {
        match &entry.res {
            IntersectionResult::SinglePoint { p, proper } => {
                assert!(!proper);
                assert!(p.eq_point(&RatPoint {
                    x: Rat { num: 0, den: 1 },
                    y: Rat { num: 0, den: 1 },
                }));
            }
            _ => panic!("expected a single point"),
        }
    }
}

#[test]
fn vertical_segments_are_handled() {
    let segs = vec![seg(2, -3, 2, 3), seg(0, 0, 4, 0), seg(2, 1, 2, 5)];
    let out = sorted_by_pair(find_intersections(&segs));
    // Segment 0 crosses segment 1 at (2,0) properly; segments 0 and 2 are
    // vertical and overlap in [(2,1), (2,3)].
    assert_eq!(out.len(), 2);
    assert_eq!((out[0].i, out[0].j), (0, 1));
    assert!(matches!(
        out[0].res,
        IntersectionResult::SinglePoint { proper: true, .. }
    ));
    assert_eq!((out[1].i, out[1].j), (0, 2));
    match &out[1].res {
        IntersectionResult::Collinear { a, b } => {
            assert_eq!(*a, Point::new(2, 1));
            assert_eq!(*b, Point::new(2, 3));
        }
        _ => panic!("expected a collinear overlap"),
    }
}

#[test]
fn sweep_is_idempotent() {
    let segs = vec![
        seg(4, 0, 0, 4),
        seg(0, 3, 4, 1),
        seg(0, 1, 4, 3),
        seg(0, 0, 4, 4),
        seg(1, 0, 3, 0),
        seg(0, 0, 2, 0),
    ];
    let out1 = find_intersections(&segs);
    let out2 = find_intersections(&segs);
    assert_eq!(out1.len(), out2.len());
    for (u, v) in out1.iter().zip(out2.iter()) {
        assert_eq!((u.i, u.j), (v.i, v.j));
        assert!(res_eq(&u.res, &v.res));
    }
}

#[test]
fn sweep_matches_brute_force_oracle() {
    // Pseudo-random small instances, heavy with coincidences because the
    // coordinates are drawn from a small range.
    let mut state: u64 = 7;
    for round in 0..30 {
        let n = 2 + (round % 7);
        let mut segs = Vec::new();
        for _ in 0..n {
            segs.push(seg(
                small_coord(&mut state),
                small_coord(&mut state),
                small_coord(&mut state),
                small_coord(&mut state),
            ));
        }
        let swept = find_intersections(&segs);
        let oracle = brute_force_intersections(&segs);
        assert!(same_reports(swept, oracle));
    }
}

#[test]
fn summary_count_weighs_collinear_twice() {
    let pencil = vec![
        seg(4, 0, 0, 4),
        seg(0, 3, 4, 1),
        seg(0, 1, 4, 3),
        seg(0, 0, 4, 4),
    ];
    assert_eq!(count_intersections(&find_intersections(&pencil)), 6);
    let overlap = vec![seg(0, 0, 2, 0), seg(1, 0, 3, 0)];
    assert_eq!(count_intersections(&find_intersections(&overlap)), 2);
    let empty: Vec<Segment> = Vec::new();
    assert_eq!(count_intersections(&find_intersections(&empty)), 0);
}
