use td_router::graph::td_graph::Graph;
use td_router::shortest_path::query::td_dijkstra::Server;
use td_router::types::RoutingError;

const DAY: u32 = 86_400_000;

#[test]
fn single_edge_constant_weight() {
    let graph = Graph::new(vec![0, 1, 1], vec![1], vec![0, 2], vec![0, DAY], vec![1000, 1000]).unwrap();
    let mut server = Server::new(graph);
    assert_eq!(server.distance(0, 1, 0), Some(1000));
}

#[test]
fn two_hops_time_varying() {
    let graph = Graph::new(
        vec![0, 1, 2, 2],
        vec![1, 2],
        vec![0, 3, 4],
        vec![0, 10_000, DAY, 0],
        vec![60_000, 120_000, 60_000, 30_000],
    )
    .unwrap();
    let mut server = Server::new(graph);
    assert_eq!(server.distance(0, 2, 5000), Some(120_000));
    assert_eq!(server.path(), vec![0, 1, 2]);
}

#[test]
fn time_of_day_picks_winner() {
    // A=0, B=1, C=2, D=3
    let graph = Graph::new(
        vec![0, 2, 3, 4, 4],
        vec![1, 2, 3, 3],
        vec![0, 1, 2, 3, 6],
        vec![0, 0, 0, 0, 43_200_000, DAY],
        vec![100, 10, 100, 500, 50, 500],
    )
    .unwrap();
    let mut server = Server::new(graph);
    assert_eq!(server.distance(0, 3, 0), Some(200));
    assert_eq!(server.path(), vec![0, 1, 3]);
    assert_eq!(server.distance(0, 3, 43_200_000), Some(60));
    assert_eq!(server.path(), vec![0, 2, 3]);
}

#[test]
fn period_closure_is_checked() {
    let r = Graph::new(vec![0, 1, 1], vec![1], vec![0, 2], vec![0, DAY], vec![100, 200]);
    assert_eq!(r.err(), Some(RoutingError::MalformedInput));
}

#[test]
fn arrival_that_moves_back_is_refused() {
    let r = Graph::new(vec![0, 1, 1], vec![1], vec![0, 3], vec![0, 1000, DAY], vec![5000, 50, 5000]);
    assert_eq!(r.err(), Some(RoutingError::NonFiFOWeight));
}
