use td_router::graph::geometry::Point;
use td_router::graph::plf::{check_fifo, check_frame, validate, PiecewiseLinearFunction};
use td_router::graph::td_graph::Graph;
use td_router::types::RoutingError;

const DAY: u32 = 86_400_000;

fn p(at: i64, val: i64) -> Point {
    Point { at, val }
}

fn two_arcs() -> Graph {
    // 0 -> 1 varying, 1 -> 2 constant
    Graph::new(
        vec![0, 1, 2, 2],
        vec![1, 2],
        vec![0, 3, 4],
        vec![0, 10_000, DAY, 0],
        vec![60_000, 120_000, 60_000, 30_000],
    )
    .unwrap()
}

#[test]
fn function_is_evaluated_between_its_points() {
    let points = [p(0, 60_000), p(10_000, 120_000), p(DAY as i64, 60_000)];
    let f = PiecewiseLinearFunction::new(&points);
    assert_eq!(f.len(), 3);
    assert!(!f.is_constant());
    assert_eq!(f.evaluate(0), 60_000);
    assert_eq!(f.evaluate(5_000), 90_000);
    assert_eq!(f.evaluate(10_000), 120_000);
    // halfway down the long segment
    assert_eq!(f.evaluate(10_000 + (DAY - 10_000) / 2), 90_000);
    assert_eq!(f.bounds(), (60_000, 120_000));
}

#[test]
fn function_is_periodic() {
    let points = [p(0, 60_000), p(10_000, 120_000), p(DAY as i64, 60_000)];
    let f = PiecewiseLinearFunction::new(&points);
    assert_eq!(f.evaluate(DAY), f.evaluate(0));
    assert_eq!(f.evaluate(DAY + 5_000), f.evaluate(5_000));
    assert_eq!(f.evaluate(3 * DAY + 10_000), 120_000);
}

#[test]
fn departure_at_the_ends_of_the_period() {
    let points = [p(0, 1000), p(DAY as i64 - 1000, 2000), p(DAY as i64, 1000)];
    let f = PiecewiseLinearFunction::new(&points);
    assert_eq!(f.evaluate(0), 1000);
    // one millisecond before the period ends the value has fallen all but one step
    assert_eq!(f.evaluate(DAY - 1), 1001);
    assert_eq!(f.evaluate(DAY - 1000), 2000);
}

#[test]
fn constant_function_has_one_point() {
    let points = [p(0, 1234)];
    let f = PiecewiseLinearFunction::new(&points);
    assert!(f.is_constant());
    assert_eq!(f.evaluate(0), 1234);
    assert_eq!(f.evaluate(DAY - 1), 1234);
    assert_eq!(f.evaluate(77_777_777), 1234);
    assert_eq!(f.bounds(), (1234, 1234));
}

#[test]
fn later_departure_never_arrives_earlier() {
    // the steepest fall that is allowed: one millisecond per millisecond
    let points = [p(0, 5000), p(1000, 6000), p(3000, 4000), p(DAY as i64, 5000)];
    assert_eq!(validate(&points), Ok(()));
    let f = PiecewiseLinearFunction::new(&points);
    let mut last = 0u64;
    for t in (0..6000u32).step_by(7) {
        let arrival = t as u64 + f.evaluate(t) as u64;
        assert!(arrival >= last);
        last = arrival;
    }
}

#[test]
fn frames_are_checked() {
    assert!(check_frame(&[p(0, 10)]));
    assert!(check_frame(&[p(0, 10), p(DAY as i64, 10)]));
    assert!(!check_frame(&[]));
    assert!(!check_frame(&[p(5, 10)]));
    assert!(!check_frame(&[p(0, 10), p(500, 20)]));
    assert!(!check_frame(&[p(0, 10), p(DAY as i64, 20)]));
    assert!(!check_frame(&[p(0, 10), p(700, 20), p(700, 30), p(DAY as i64, 10)]));
    assert!(!check_frame(&[p(0, 0), p(DAY as i64, 0)]));
    assert!(!check_frame(&[p(0, 2147483647), p(DAY as i64, 2147483647)]));
}

#[test]
fn first_in_first_out_is_checked() {
    assert!(check_fifo(&[p(0, 5000), p(1000, 4000), p(DAY as i64, 5000)]));
    assert!(!check_fifo(&[p(0, 5000), p(1000, 3999), p(DAY as i64, 5000)]));
    assert_eq!(
        validate(&[p(0, 5000), p(1000, 50), p(DAY as i64, 5000)]),
        Err(RoutingError::NonFiFOWeight)
    );
    assert_eq!(validate(&[p(0, 100), p(DAY as i64, 200)]), Err(RoutingError::MalformedInput));
    // a broken frame is told before an arrival that moves back
    assert_eq!(validate(&[p(0, 5000), p(1000, 50), p(2000, 5000)]), Err(RoutingError::MalformedInput));
}

#[test]
fn graph_is_cleaned_up() {
    // one arc without a point at the start and at the end of the period, one constant given at a later moment
    let graph = Graph::new(
        vec![0, 2, 2],
        vec![1, 1],
        vec![0, 2, 3],
        vec![1000, 5000, 777],
        vec![300, 400, 50],
    )
    .unwrap();
    assert_eq!(graph.num_ipps(), 5);
    assert_eq!(graph.num_constant(), 1);
    let f = graph.travel_time_function(0);
    assert_eq!(f.len(), 4);
    assert_eq!(f.evaluate(0), 300);
    assert_eq!(f.evaluate(1000), 300);
    assert_eq!(f.evaluate(3000), 350);
    assert_eq!(f.evaluate(5000), 400);
    assert_eq!(f.evaluate(DAY - 1), 301);
    let g = graph.travel_time_function(1);
    assert!(g.is_constant());
    assert_eq!(g.evaluate(12345), 50);
}

#[test]
fn points_given_with_both_ends_are_kept() {
    let graph = two_arcs();
    assert_eq!(graph.num_ipps(), 4);
    assert_eq!(graph.num_constant(), 1);
    assert_eq!(graph.num_nodes(), 3);
    assert_eq!(graph.num_arcs(), 2);
    assert_eq!(graph.first_out(), &[0, 1, 2, 2]);
    assert_eq!(graph.head(), &[1, 2]);
}

#[test]
fn malformed_arrays_are_refused() {
    // offsets that do not grow
    let r = Graph::new(vec![0, 2, 1], vec![1], vec![0, 1], vec![0], vec![5]);
    assert_eq!(r.err(), Some(RoutingError::MalformedInput));
    // a head that is no node
    let r = Graph::new(vec![0, 1, 1], vec![2], vec![0, 1], vec![0], vec![5]);
    assert_eq!(r.err(), Some(RoutingError::MalformedInput));
    // an arc without a point
    let r = Graph::new(vec![0, 2, 2], vec![1, 1], vec![0, 1, 1], vec![0], vec![5]);
    assert_eq!(r.err(), Some(RoutingError::MalformedInput));
    // arrays of points of different lengths
    let r = Graph::new(vec![0, 1, 1], vec![1], vec![0, 1], vec![0], vec![5, 6]);
    assert_eq!(r.err(), Some(RoutingError::MalformedInput));
    // a travel time of zero
    let r = Graph::new(vec![0, 1, 1], vec![1], vec![0, 1], vec![0], vec![0]);
    assert_eq!(r.err(), Some(RoutingError::MalformedInput));
    // moments that do not grow
    let r = Graph::new(vec![0, 1, 1], vec![1], vec![0, 3], vec![0, 900, 900], vec![5, 6, 5]);
    assert_eq!(r.err(), Some(RoutingError::MalformedInput));
}

#[test]
fn points_without_closure_get_a_closing_point() {
    // the value falls by 50 within 1000 milliseconds: no later departure arrives earlier
    let graph = Graph::new(vec![0, 1, 1], vec![1], vec![0, 2], vec![0, 1000], vec![100, 50]).unwrap();
    let f = graph.travel_time_function(0);
    assert_eq!(f.len(), 3);
    assert_eq!(f.evaluate(1000), 50);
    assert_eq!(f.evaluate(0), 100);
}

#[test]
fn arcs_and_neighbours() {
    let graph = Graph::new(
        vec![0, 2, 3, 3],
        vec![1, 2, 2],
        vec![0, 1, 2, 3],
        vec![0, 0, 0],
        vec![10, 20, 30],
    )
    .unwrap();
    assert_eq!(graph.degree(0), 2);
    assert_eq!(graph.degree(2), 0);
    assert_eq!(graph.neighbor_edge_indices(0), 0..2);
    assert_eq!(graph.neighbor_edge_indices_usize(1), 2..3);
    assert_eq!(graph.neighbor_and_edge_id_iter(0), vec![(1, 0), (2, 1)]);
    assert_eq!(graph.link_iter(1), vec![(2, 2)]);
    assert_eq!(graph.edge_index(0, 2), Some(1));
    assert_eq!(graph.edge_index(1, 0), None);
    assert_eq!(graph.link(2).node, 2);
    assert_eq!(graph.link(2).weight, 0);
}

#[test]
fn paths_with_moments_are_checked() {
    let graph = two_arcs();
    assert!(graph.check_path(vec![(0, 5000), (1, 95_000), (2, 125_000)]));
    assert!(graph.check_path(vec![(1, 7)]));
    // a wrong moment
    assert!(!graph.check_path(vec![(0, 5000), (1, 95_001), (2, 125_001)]));
    // an arc that is not there
    assert!(!graph.check_path(vec![(2, 0), (0, 10)]));
    // a node that is not there
    assert!(!graph.check_path(vec![(9, 0), (0, 10)]));
}

#[test]
fn points_are_counted_after_the_clean_up() {
    // a function that frames the period keeps its two points
    let framed = Graph::new(vec![0, 1, 1], vec![1], vec![0, 2], vec![0, DAY], vec![1000, 1000]).unwrap();
    assert_eq!(framed.num_ipps(), 2);
    // one point is put in front and one behind
    let open = Graph::new(vec![0, 1, 1], vec![1], vec![0, 2], vec![1000, 2000], vec![5000, 6000]).unwrap();
    assert_eq!(open.num_ipps(), 4);
    assert_eq!(open.num_constant(), 0);
    // a constant keeps its one point
    let mixed = Graph::new(
        vec![0, 2, 2],
        vec![1, 1],
        vec![0, 1, 3],
        vec![5000, 0, DAY],
        vec![7000, 100, 100],
    )
    .unwrap();
    assert_eq!(mixed.num_ipps(), 3);
    assert_eq!(mixed.num_constant(), 1);
    assert_eq!(mixed.travel_time_function(0).evaluate(12345), 7000);
}
