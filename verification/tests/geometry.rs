use td_router::graph::geometry::{
    ccw, clockwise, colinear_ordered, counter_clockwise, intersect, intersection_point, Point,
};
use td_router::types::RoutingError;

fn p(at: i64, val: i64) -> Point {
    Point { at, val }
}

#[test]
fn orientation_of_three_points() {
    assert_eq!(ccw(&p(0, 0), &p(5, 0), &p(10, 10)), -1);
    assert_eq!(ccw(&p(0, 0), &p(5, 10), &p(10, 10)), 1);
    assert_eq!(ccw(&p(0, 0), &p(5, 5), &p(10, 10)), 0);
    assert_eq!(ccw(&p(0, 0), &p(0, 0), &p(10, 10)), 0);
    assert!(counter_clockwise(&p(0, 0), &p(5, 0), &p(10, 10)));
    assert!(!counter_clockwise(&p(0, 0), &p(5, 10), &p(10, 10)));
    assert!(clockwise(&p(0, 0), &p(5, 10), &p(10, 10)));
    assert!(!clockwise(&p(0, 0), &p(5, 5), &p(10, 10)));
}

#[test]
fn colinear_points_are_told() {
    assert!(colinear_ordered(&p(0, 10), &p(5, 15), &p(10, 20)));
    assert!(!colinear_ordered(&p(0, 10), &p(5, 16), &p(10, 20)));
}

#[test]
fn crossing_segments_intersect() {
    assert!(intersect(&p(0, 0), &p(10, 10), &p(0, 10), &p(10, 0)));
    assert_eq!(intersection_point(&p(0, 0), &p(10, 10), &p(0, 10), &p(10, 0)), Ok(p(5, 5)));
    assert_eq!(intersection_point(&p(0, 0), &p(10, 20), &p(0, 30), &p(10, 10)), Ok(p(7, 15)));
}

#[test]
fn touching_and_parallel_segments_do_not_intersect() {
    // an end of one on the other
    assert!(!intersect(&p(0, 0), &p(10, 10), &p(5, 5), &p(10, 0)));
    // apart
    assert!(!intersect(&p(0, 0), &p(4, 4), &p(0, 10), &p(10, 9)));
    // parallel
    assert!(!intersect(&p(0, 0), &p(10, 10), &p(0, 1), &p(10, 11)));
    assert_eq!(
        intersection_point(&p(0, 0), &p(10, 10), &p(0, 1), &p(10, 11)),
        Err(RoutingError::NonFiniteArithmetic)
    );
}

#[test]
fn shifted_point_keeps_value() {
    assert_eq!(p(5, 7).shifted(10), p(15, 7));
    assert_eq!(p(5, 7).sub(&p(8, 2)), p(-3, 5));
}
