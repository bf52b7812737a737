use segsweep::geom::{
    segment_intersection, segments_from_coords, InputError, IntersectionResult, Point, Rat,
    RatPoint, Segment, COORD_BOUND,
};

fn seg(x1: i64, y1: i64, x2: i64, y2: i64) -> Segment {
    Segment::new(Point::new(x1, y1), Point::new(x2, y2))
}

fn rp(x_num: i64, x_den: i64, y_num: i64, y_den: i64) -> RatPoint {
    RatPoint { x: Rat { num: x_num, den: x_den }, y: Rat { num: y_num, den: y_den } }
}

#[test]
fn proper_crossing() {
    // Diagonals of the unit square scaled by four cross in the middle.
    let r = segment_intersection(&seg(0, 0, 4, 4), &seg(0, 4, 4, 0));
    match r {
        Some(IntersectionResult::SinglePoint { p, proper }) => {
            assert!(proper);
            assert!(p.eq_point(&rp(2, 1, 2, 1)));
        }
        _ => panic!("expected a single point"),
    }
}

#[test]
fn endpoint_touch_is_improper() {
    // The second segment starts exactly on the first one's endpoint.
    let r = segment_intersection(&seg(0, 0, 2, 2), &seg(2, 2, 4, 0));
    match r {
        Some(IntersectionResult::SinglePoint { p, proper }) => {
            assert!(!proper);
            assert!(p.eq_point(&rp(2, 1, 2, 1)));
        }
        _ => panic!("expected a single point"),
    }
}

#[test]
fn interior_endpoint_touch_is_improper() {
    // One endpoint of the second segment lies in the first one's interior.
    let r = segment_intersection(&seg(0, 0, 4, 0), &seg(2, 0, 2, 3));
    match r {
        Some(IntersectionResult::SinglePoint { p, proper }) => {
            assert!(!proper);
            assert!(p.eq_point(&rp(2, 1, 0, 1)));
        }
        _ => panic!("expected a single point"),
    }
}

#[test]
fn parallel_segments_do_not_intersect() {
    assert!(segment_intersection(&seg(0, 0, 4, 0), &seg(0, 1, 4, 1)).is_none());
}

#[test]
fn disjoint_segments_do_not_intersect() {
    assert!(segment_intersection(&seg(0, 0, 1, 1), &seg(3, 0, 4, 1)).is_none());
    // Supporting lines cross, but outside the segments.
    assert!(segment_intersection(&seg(0, 0, 1, 1), &seg(3, 0, 3, 10)).is_none());
}

#[test]
fn collinear_overlap_reports_sub_segment() {
    // Two collinear overlapping horizontal segments share [(1,0), (2,0)].
    let r = segment_intersection(&seg(0, 0, 2, 0), &seg(1, 0, 3, 0));
    match r {
        Some(IntersectionResult::Collinear { a, b }) => {
            assert_eq!(a, Point::new(1, 0));
            assert_eq!(b, Point::new(2, 0));
        }
        _ => panic!("expected a collinear overlap"),
    }
}

#[test]
fn collinear_touch_is_single_improper_point() {
    let r = segment_intersection(&seg(0, 0, 2, 0), &seg(2, 0, 5, 0));
    match r {
        Some(IntersectionResult::SinglePoint { p, proper }) => {
            assert!(!proper);
            assert!(p.eq_point(&rp(2, 1, 0, 1)));
        }
        _ => panic!("expected a single point"),
    }
}

#[test]
fn collinear_disjoint_segments_do_not_intersect() {
    assert!(segment_intersection(&seg(0, 0, 1, 0), &seg(2, 0, 3, 0)).is_none());
}

#[test]
fn degenerate_point_on_segment_is_improper() {
    // A segment degenerated to a point, touching another segment.
    let r = segment_intersection(&seg(1, 1, 1, 1), &seg(0, 0, 2, 2));
    match r {
        Some(IntersectionResult::SinglePoint { p, proper }) => {
            assert!(!proper);
            assert!(p.eq_point(&rp(1, 1, 1, 1)));
        }
        _ => panic!("expected a single point"),
    }
    // Both orders report it.
    let r2 = segment_intersection(&seg(0, 0, 2, 2), &seg(1, 1, 1, 1));
    match r2 {
        Some(IntersectionResult::SinglePoint { proper, .. }) => assert!(!proper),
        _ => panic!("expected a single point"),
    }
    // A point off the segment is no intersection.
    assert!(segment_intersection(&seg(1, 2, 1, 2), &seg(0, 0, 2, 2)).is_none());
}

#[test]
fn coincident_degenerate_points_intersect() {
    let r = segment_intersection(&seg(3, 4, 3, 4), &seg(3, 4, 3, 4));
    assert!(matches!(r, Some(IntersectionResult::SinglePoint { proper: false, .. })));
    assert!(segment_intersection(&seg(3, 4, 3, 4), &seg(3, 5, 3, 5)).is_none());
}

#[test]
fn rational_equality_ignores_representation() {
    let half_a = Rat { num: 1, den: 2 };
    let half_b = Rat { num: 3, den: 6 };
    let third = Rat { num: 1, den: 3 };
    assert!(half_a.eq_rat(&half_b));
    assert!(!half_a.eq_rat(&third));
}

#[test]
fn segments_from_coords_accepts_valid_input() {
    let coords = vec![(0i64, 0i64, 4i64, 4i64), (-3, 2, 1, -1)];
    let segs = segments_from_coords(&coords).unwrap();
    assert_eq!(segs.len(), 2);
    assert_eq!(segs[0], seg(0, 0, 4, 4));
    assert_eq!(segs[1], seg(-3, 2, 1, -1));
}

#[test]
fn segments_from_coords_rejects_out_of_range() {
    let coords = vec![(0i64, 0i64, COORD_BOUND + 1, 0i64)];
    assert_eq!(segments_from_coords(&coords), Err(InputError::InvalidInput));
    let coords2 = vec![(0i64, 0i64, 1i64, 1i64), (0, -COORD_BOUND - 5, 0, 0)];
    assert_eq!(segments_from_coords(&coords2), Err(InputError::InvalidInput));
}
