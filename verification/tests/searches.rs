use td_router::algo::ch_potentials::{
    arcs_lead_up, CCHPotential, CHPotential, Potential, TurnExpandedPotential, ZeroPotential,
};
use td_router::algo::dijkstra::td_topo_dijkstra::TDTopoDijkstra;
use td_router::datastr::node_order::NodeOrder;
use td_router::graph::customized::CustomizedGraph;
use td_router::graph::first_out_graph::FirstOutGraph;
use td_router::graph::shortcut::{ShortcutSource, ShortcutSourceData};
use td_router::graph::shortcut_graph::Shortcut;
use td_router::graph::td_graph::Graph;
use td_router::shortest_path::floating_td_stepped_elimination_tree::{
    FloatingTDSteppedEliminationTree, Label, QueryProgress as IntervalProgress,
};
use td_router::shortest_path::query::td_dijkstra::Server;
use td_router::shortest_path::stepped_dijkstra::{QueryProgress, State, SteppedDijkstra};
use td_router::shortest_path::stepped_elimination_tree::SteppedEliminationTree;
use td_router::shortest_path::td_stepped_dijkstra::TDSteppedDijkstra;
use td_router::shortest_path::td_stepped_elimination_tree::{
    Label as BoundedLabel, QueryProgress as BoundedProgress, TDSteppedEliminationTree,
};
use td_router::types::{Query, TDQuery, INFINITY};

const DAY: u32 = 86_400_000;
const NOON: u32 = 43_200_000;

fn data(source: ShortcutSource) -> ShortcutSourceData {
    ShortcutSourceData::from_source(source)
}

/// Original arcs: 0: 0 -> 2 takes 20; 1: 1 -> 0 takes 10; 2: 1 -> 2 takes 100 at midnight and 20 at noon.
fn original() -> Graph {
    Graph::new(
        vec![0, 1, 3, 3],
        vec![2, 0, 2],
        vec![0, 1, 2, 5],
        vec![0, 0, 0, NOON, DAY],
        vec![20, 10, 100, 20, 100],
    )
    .unwrap()
}

fn customized(graph: &Graph, first_out: &'static [u32], head: &'static [u32]) -> CustomizedGraph<'static> {
    let graph: &'static Graph = Box::leak(Box::new(graph.clone()));
    let up = vec![
        Shortcut::new(vec![], INFINITY, INFINITY, true),
        Shortcut::new(vec![(0, data(ShortcutSource::OriginalEdge(0)))], 20, 20, true),
        Shortcut::new(
            vec![
                (0, data(ShortcutSource::Shortcut(0, 1))),
                (37_800_000, data(ShortcutSource::OriginalEdge(2))),
                (48_600_001, data(ShortcutSource::Shortcut(0, 1))),
            ],
            20,
            30,
            true,
        ),
    ];
    let down = vec![
        Shortcut::new(vec![(0, data(ShortcutSource::OriginalEdge(1)))], 10, 10, true),
        Shortcut::new(vec![], INFINITY, INFINITY, true),
        Shortcut::new(vec![], INFINITY, INFINITY, true),
    ];
    CustomizedGraph::new(graph, first_out, head, up, down)
}

static FIRST_OUT: [u32; 4] = [0, 2, 3, 3];
static HEAD: [u32; 3] = [1, 2, 2];
static TREE: [Option<u32>; 3] = [Some(1), Some(2), None];

#[test]
fn interval_search_walks_up_the_tree() {
    let graph = original();
    let customized = customized(&graph, &FIRST_OUT, &HEAD);
    let mut search = FloatingTDSteppedEliminationTree::new(customized.upward_bounds_graph(), &TREE);
    assert_eq!(search.peek_next(), None);
    assert!(matches!(search.next_step(), IntervalProgress::Done));
    search.initialize_query(1);
    assert_eq!(search.peek_next(), Some(1));
    assert_eq!(search.node_data(1).lower_bound, 0);
    assert_eq!(search.node_data(1).upper_bound, 0);
    assert_eq!(search.node_data(2).lower_bound, INFINITY);
    assert!(matches!(search.next_step(), IntervalProgress::Progress(1)));
    assert_eq!(search.node_data(2).lower_bound, 20);
    assert_eq!(search.node_data(2).upper_bound, 30);
    assert_eq!(search.node_data(2).labels, vec![Label { lower_bound: 20, parent: 1, shortcut_id: 2 }]);
    assert_eq!(search.peek_next(), Some(2));
    assert!(matches!(search.next_step(), IntervalProgress::Progress(2)));
    assert_eq!(search.peek_next(), None);
    assert!(matches!(search.next_step(), IntervalProgress::Done));
    // node 0 is below the start: nothing is known of it
    assert_eq!(search.node_data(0).upper_bound, INFINITY);
    assert!(search.node_data(0).labels.is_empty());
}

#[test]
fn interval_search_keeps_what_may_be_best() {
    let graph = original();
    let customized = customized(&graph, &FIRST_OUT, &HEAD);
    let mut search = FloatingTDSteppedEliminationTree::new(customized.upward_bounds_graph(), &TREE);
    search.initialize_query(0);
    assert!(matches!(search.next_step(), IntervalProgress::Progress(0)));
    // from 0: node 1 across an arc without a way, node 2 in exactly 20
    assert_eq!(search.node_data(1).upper_bound, INFINITY);
    assert_eq!(search.node_data(1).lower_bound, INFINITY);
    assert_eq!(search.node_data(1).labels, vec![Label { lower_bound: INFINITY, parent: 0, shortcut_id: 0 }]);
    assert_eq!(search.node_data(2).labels, vec![Label { lower_bound: 20, parent: 0, shortcut_id: 1 }]);
    assert_eq!((search.node_data(2).lower_bound, search.node_data(2).upper_bound), (20, 20));
    assert!(matches!(search.next_step(), IntervalProgress::Progress(1)));
    // the way over node 1 is surely no better: it is passed over
    assert_eq!(search.node_data(2).labels, vec![Label { lower_bound: 20, parent: 0, shortcut_id: 1 }]);
    assert_eq!((search.node_data(2).lower_bound, search.node_data(2).upper_bound), (20, 20));
    // a new query forgets everything
    search.initialize_query(2);
    assert!(search.node_data(1).labels.is_empty());
    assert_eq!(search.node_data(2).labels, vec![]);
    assert_eq!(search.node_data(2).upper_bound, 0);
    search.skip_next();
    assert_eq!(search.peek_next(), None);
}

#[test]
fn interval_search_drops_labels_that_are_surely_worse() {
    // three arcs into node 3: bounds (50, 90), (10, 60), (70, 80)
    let graph = Graph::new(vec![0, 0, 0, 0, 0], vec![], vec![0], vec![], vec![]).unwrap();
    let first_out: &'static [u32] = Box::leak(Box::new([0u32, 1, 2, 3, 3]));
    let head: &'static [u32] = Box::leak(Box::new([3u32, 3, 3]));
    let original: &'static Graph = Box::leak(Box::new(graph));
    let up = vec![
        Shortcut::new(vec![], 50, 90, true),
        Shortcut::new(vec![], 10, 60, true),
        Shortcut::new(vec![], 70, 80, true),
    ];
    let down = vec![
        Shortcut::new(vec![], INFINITY, INFINITY, false),
        Shortcut::new(vec![], INFINITY, INFINITY, false),
        Shortcut::new(vec![], INFINITY, INFINITY, false),
    ];
    let customized = CustomizedGraph::new(original, first_out, head, up, down);
    let tree: &'static [Option<u32>] = Box::leak(Box::new([Some(1u32), Some(2), Some(3), None]));
    let mut search = TDSteppedEliminationTree::new(customized.upward_bounds_graph(), tree);
    search.initialize_query(0);
    assert_eq!(search.origin(), 0);
    assert!(matches!(search.next_step(), BoundedProgress::Progress(0)));
    assert_eq!(
        search.node_data(3).labels,
        vec![BoundedLabel { upper_bound: 90, lower_bound: 50, parent: 0, shortcut_id: 0 }]
    );
    // node 1 is not reached from 0: its arc adds nothing that is finite
    assert_eq!(search.next(), Some(1));
    assert!(matches!(search.next_step(), BoundedProgress::Progress(1)));
    assert_eq!(search.node_data(3).labels.len(), 1);
    assert_eq!((search.node_data(3).lower_bound, search.node_data(3).upper_bound), (50, 90));
}

fn scalar_up() -> FirstOutGraph {
    // upward arcs (0,1), (0,2), (1,2) with the least travel time from the lower to the higher node
    FirstOutGraph::new(vec![0, 2, 3, 3], vec![1, 2, 2], vec![INFINITY, 20, 20])
}

fn scalar_down() -> FirstOutGraph {
    // the same arcs with the least travel time from the higher to the lower node
    FirstOutGraph::new(vec![0, 2, 3, 3], vec![1, 2, 2], vec![10, INFINITY, INFINITY])
}

#[test]
fn scalar_tree_search_finds_distances_up_the_tree() {
    let mut search = SteppedEliminationTree::new(scalar_down(), &TREE);
    search.initialize_query(0);
    assert_eq!(search.origin(), 0);
    assert_eq!(search.next(), Some(0));
    assert_eq!(search.next_step(), QueryProgress::Progress(State { distance: 0, node: 0 }));
    assert_eq!(search.tentative_distance(1), 10);
    assert_eq!(search.predecessor(1), 0);
    assert_eq!(search.tentative_distance(2), INFINITY);
    assert_eq!(search.next_step(), QueryProgress::Progress(State { distance: 10, node: 1 }));
    assert_eq!(search.next_step(), QueryProgress::Progress(State { distance: INFINITY, node: 2 }));
    assert_eq!(search.next_step(), QueryProgress::Done(None));
    assert_eq!(search.parent(0), Some(1));
    assert_eq!(search.parent(2), None);
    assert_eq!(search.graph().num_nodes(), 3);
    search.initialize_query(1);
    search.run();
    assert_eq!(search.next(), None);
    assert_eq!(search.tentative_distance(0), INFINITY);
    assert_eq!(search.tentative_distance(1), 0);
}

#[test]
fn potentials_are_lower_bounds_to_the_target() {
    let order = NodeOrder::from_node_order(vec![0, 1, 2]).unwrap();
    assert!(arcs_lead_up(&scalar_up(), &TREE));
    let mut potential = CCHPotential::new(&order, &TREE, scalar_up(), scalar_down());
    potential.init(2);
    assert_eq!(potential.potential(2), Some(0));
    assert_eq!(potential.potential(1), Some(20));
    assert_eq!(potential.potential(0), Some(20));
    assert_eq!(potential.num_pot_evals(), 3);
    potential.init(0);
    assert_eq!(potential.num_pot_evals(), 0);
    assert_eq!(potential.potential(1), Some(10));
    assert_eq!(potential.potential(0), Some(0));
    // node 0 is not reached from node 2
    assert_eq!(potential.potential(2), None);
    // bounds that were found are kept
    assert_eq!(potential.potential(1), Some(10));
    assert_eq!(potential.num_pot_evals(), 4);
}

#[test]
fn potentials_with_another_order() {
    // node 2 is contracted first, then node 0, then node 1: ranks 1, 2, 0
    let order = NodeOrder::from_node_order(vec![2, 0, 1]).unwrap();
    let mut potential = CCHPotential::new(&order, &TREE, scalar_up(), scalar_down());
    // the target with rank 2 is node 1
    potential.init(1);
    assert_eq!(potential.potential(1), Some(0));
    assert_eq!(potential.potential(0), Some(20));
    assert_eq!(potential.potential(2), Some(20));
}

#[test]
fn arcs_that_do_not_lead_up_the_tree_are_told() {
    let tree = [Some(2), Some(2), None];
    // the arc from 0 to 1 leads to a node that is not above 0
    assert!(!arcs_lead_up(&scalar_up(), &tree));
    let forest = [None, Some(2), None];
    assert!(!arcs_lead_up(&scalar_up(), &forest));
}

#[test]
fn potentials_from_a_hierarchy_without_a_tree() {
    let order = NodeOrder::from_node_order(vec![0, 1, 2]).unwrap();
    let mut potential = CHPotential::new(scalar_up(), scalar_down(), order);
    potential.init(2);
    assert_eq!(potential.potential(2), Some(0));
    assert_eq!(potential.potential(1), Some(20));
    assert_eq!(potential.potential(0), Some(20));
    assert_eq!(potential.num_pot_evals(), 3);
    potential.init(0);
    assert_eq!(potential.num_pot_evals(), 0);
    assert_eq!(potential.potential(1), Some(10));
    assert_eq!(potential.potential(0), Some(0));
    assert_eq!(potential.potential(2), None);
    // both kinds of bounds agree
    let order = NodeOrder::from_node_order(vec![0, 1, 2]).unwrap();
    let mut with_tree = CCHPotential::new(&order, &TREE, scalar_up(), scalar_down());
    for target in 0..3 {
        potential.init(target);
        with_tree.init(target);
        for node in 0..3 {
            assert_eq!(potential.potential(node), with_tree.potential(node));
        }
    }
}

#[test]
fn potential_of_an_arc_is_that_of_its_tail() {
    let graph = FirstOutGraph::new(vec![0, 2, 3, 3], vec![1, 2, 2], vec![1, 1, 1]);
    let order = NodeOrder::from_node_order(vec![0, 1, 2]).unwrap();
    let inner = CCHPotential::new(&order, &TREE, scalar_up(), scalar_down());
    let mut potential = TurnExpandedPotential::new(&graph, inner);
    // the arcs have the tails 0, 0, 1; the target is the tail of arc 2: node 1
    potential.init(2);
    assert_eq!(potential.potential(2), Some(0));
    assert_eq!(potential.potential(0), None);
    let mut zero = ZeroPotential { num_nodes: 3, num_pot_evals: 5, target: None };
    zero.init(1);
    assert_eq!(zero.num_pot_evals(), 0);
    assert_eq!(zero.potential(2), Some(0));
    assert_eq!(zero.num_pot_evals(), 1);
}

#[test]
fn scalar_search_settles_nodes_by_distance() {
    let graph = FirstOutGraph::new(
        vec![0, 2, 3, 6, 8, 8, 8],
        vec![2, 1, 3, 1, 3, 4, 0, 4],
        vec![10, 1, 2, 1, 3, 1, 7, 2],
    );
    let mut search = SteppedDijkstra::new(graph);
    search.initialize_query(Query { from: 0, to: 4 });
    assert_eq!(search.query(), Query { from: 0, to: 4 });
    assert_eq!(search.next_step(), QueryProgress::Progress(State { distance: 0, node: 0 }));
    assert_eq!(search.tentative_distance(2), 10);
    assert_eq!(search.next_step(), QueryProgress::Progress(State { distance: 1, node: 1 }));
    assert_eq!(search.next_step(), QueryProgress::Progress(State { distance: 3, node: 3 }));
    assert_eq!(search.predecessor(3), 1);
    assert_eq!(search.next_step(), QueryProgress::Done(Some(5)));
    assert_eq!(search.next_step(), QueryProgress::Done(Some(5)));
    assert_eq!(search.predecessor(4), 3);
    assert_eq!(search.graph().num_arcs(), 8);
    // node 5 is not reached
    search.initialize_query(Query { from: 0, to: 5 });
    let mut steps = 0;
    let result = loop {
        match search.next_step() {
            QueryProgress::Progress(_) => steps += 1,
            QueryProgress::Done(result) => break result,
        }
    };
    assert_eq!(result, None);
    assert_eq!(steps, 5);
    assert_eq!(search.tentative_distance(2), 10);
    assert_eq!(search.tentative_distance(4), 5);
    assert_eq!(search.tentative_distance(5), INFINITY);
    // a target that is no node: every node that is reached is settled
    search.initialize_query(Query { from: 2, to: u32::MAX });
    assert_eq!(search.run(), None);
    assert_eq!(search.tentative_distance(0), 10);
    assert_eq!(search.tentative_distance(4), 1);
}

#[test]
fn source_is_target() {
    let mut server = Server::new(original());
    for departure in [0, 1, NOON, DAY - 1, DAY + 17] {
        assert_eq!(server.distance(1, 1, departure), Some(0));
        assert_eq!(server.path(), vec![1]);
        assert!(server.is_in_searchspace(1));
    }
}

#[test]
fn unreachable_target() {
    let mut server = Server::new(original());
    assert_eq!(server.distance(2, 0, 0), None);
    assert_eq!(server.distance(0, 1, 500), None);
    assert!(server.is_in_searchspace(2));
    assert!(!server.is_in_searchspace(1));
    let mut search = TDTopoDijkstra::new(original());
    search.initialize_query(TDQuery { from: 2, to: 0, departure: 0 });
    let result = loop {
        match search.next_step() {
            QueryProgress::Progress(_) => continue,
            QueryProgress::Done(result) => break result,
        }
    };
    assert_eq!(result, None);
}

#[test]
fn departure_at_the_ends_of_the_period_is_answered() {
    let mut server = Server::new(original());
    // at midnight the way over node 0 takes 30, the direct arc 100
    assert_eq!(server.distance(1, 2, 0), Some(30));
    assert_eq!(server.path(), vec![1, 0, 2]);
    // one millisecond before midnight the direct arc takes all but 100
    assert_eq!(server.distance(1, 2, DAY - 1), Some(30));
    assert_eq!(server.distance(1, 2, NOON), Some(20));
    assert_eq!(server.path(), vec![1, 2]);
}

#[test]
fn stepwise_time_dependent_search() {
    let mut search = TDSteppedDijkstra::new(original());
    search.initialize_query(TDQuery { from: 1, to: 2, departure: 1000 });
    assert_eq!(search.query(), TDQuery { from: 1, to: 2, departure: 1000 });
    assert_eq!(search.next_step(), QueryProgress::Progress(State { distance: 1000, node: 1 }));
    assert_eq!(search.tentative_distance(0), 1010);
    assert_eq!(search.tentative_distance(2), 1100);
    assert_eq!(search.next_step(), QueryProgress::Progress(State { distance: 1010, node: 0 }));
    assert_eq!(search.tentative_distance(2), 1030);
    assert_eq!(search.predecessor(2), 0);
    assert_eq!(search.next_step(), QueryProgress::Done(Some(30)));
    assert_eq!(search.next_step(), QueryProgress::Done(Some(30)));
    assert_eq!(search.graph().num_nodes(), 3);
}

fn run(search: &mut TDTopoDijkstra, from: u32, to: u32, departure: u32) -> Option<u32> {
    search.initialize_query(TDQuery { from, to, departure });
    loop {
        match search.next_step() {
            QueryProgress::Progress(_) => continue,
            QueryProgress::Done(result) => return result,
        }
    }
}

#[test]
fn chain_walking_search_agrees_on_scenarios() {
    let mut search = TDTopoDijkstra::new(original());
    assert_eq!(run(&mut search, 1, 2, 0), Some(30));
    assert_eq!(search.tentative_distance(2), 30);
    assert_eq!(search.predecessor(2), 0);
    assert_eq!(search.predecessor(0), 1);
    assert!(search.num_relaxed_arcs() >= 3);
    assert_eq!(search.query(), TDQuery { from: 1, to: 2, departure: 0 });
    assert!(search.queue().is_empty());
    assert_eq!(run(&mut search, 1, 2, NOON), Some(20));
    assert_eq!(run(&mut search, 1, 1, 77), Some(0));
    assert_eq!(run(&mut search, 0, 2, 5), Some(20));
    assert_eq!(run(&mut search, 0, 1, 5), None);
    // a single arc: the target is the end of a chain and never enters the queue
    let single = Graph::new(vec![0, 1, 1], vec![1], vec![0, 2], vec![0, DAY], vec![1000, 1000]).unwrap();
    let mut search = TDTopoDijkstra::new(single);
    assert_eq!(run(&mut search, 0, 1, 0), Some(1000));
}

#[test]
fn goal_directed_search_with_bounds_from_the_hierarchy() {
    let order = NodeOrder::from_node_order(vec![0, 1, 2]).unwrap();
    let mut potential = CCHPotential::new(&order, &TREE, scalar_up(), scalar_down());
    let mut search = TDTopoDijkstra::new(original());
    for (from, to, departure, expected) in [
        (1u32, 2u32, 0u32, Some(30u32)),
        (1, 2, NOON, Some(20)),
        (1, 2, 40_500_000, Some(25)),
        (1, 0, 9, Some(10)),
        (0, 2, 9, Some(20)),
        (2, 1, 9, None),
        (2, 2, 9, Some(0)),
    ] {
        potential.init(to);
        search.initialize_query(TDQuery { from, to, departure });
        let result = loop {
            match search.next_step_with_potential(&mut potential) {
                QueryProgress::Progress(_) => continue,
                QueryProgress::Done(result) => break result,
            }
        };
        assert_eq!(result, expected);
    }
}

struct Lcg(u64);

impl Lcg {
    fn next(&mut self, below: u32) -> u32 {
        self.0 = self.0.wrapping_mul(6364136223846793005).wrapping_add(1442695040888963407);
        ((self.0 >> 33) % below as u64) as u32
    }
}

/// A grid of `side` times `side` nodes with arcs both ways between
/// neighbours; every third arc is constant, the others have two points
/// between the ends of the period.
fn grid(side: u32, seed: u64) -> Graph {
    let mut random = Lcg(seed);
    let mut first_out = vec![0u32];
    let mut head = Vec::new();
    let mut first_ipp = vec![0u32];
    let mut departure = Vec::new();
    let mut travel = Vec::new();
    for y in 0..side {
        for x in 0..side {
            let mut neighbours = Vec::new();
            if x > 0 {
                neighbours.push(y * side + x - 1);
            }
            if x + 1 < side {
                neighbours.push(y * side + x + 1);
            }
            if y > 0 {
                neighbours.push((y - 1) * side + x);
            }
            if y + 1 < side {
                neighbours.push((y + 1) * side + x);
            }
            for neighbour in neighbours {
                head.push(neighbour);
                if random.next(3) == 0 {
                    departure.push(0);
                    travel.push(1000 + random.next(500_000));
                } else {
                    let first = 1000 + random.next(500_000);
                    departure.extend([0, 20_000_000 + random.next(1_000_000), 60_000_000 + random.next(1_000_000), DAY]);
                    travel.extend([first, 1000 + random.next(500_000), 1000 + random.next(500_000), first]);
                }
                first_ipp.push(departure.len() as u32);
            }
            first_out.push(head.len() as u32);
        }
    }
    Graph::new(first_out, head, first_ipp, departure, travel).unwrap()
}

#[test]
fn searches_agree_on_a_grid() {
    let side = 100;
    let graph = grid(side, 7);
    let mut server = Server::new(graph.clone());
    let mut search = TDTopoDijkstra::new(graph.clone());
    let mut random = Lcg(99);
    for _ in 0..1000 {
        let from = random.next(side * side);
        let to = random.next(side * side);
        let departure = random.next(DAY);
        let expected = server.distance(from, to, departure);
        assert!(expected.is_some());
        assert_eq!(run(&mut search, from, to, departure), expected);
        // the search space holds the target, and the path adds up to the answer
        assert!(server.is_in_searchspace(to));
        let path = server.path();
        assert_eq!(path[0], from);
        assert_eq!(*path.last().unwrap(), to);
        let mut at = departure;
        for pair in path.windows(2) {
            let best = graph
                .neighbor_and_edge_id_iter(pair[0])
                .into_iter()
                .filter(|&(head, _)| head == pair[1])
                .map(|(_, arc)| at + graph.travel_time_function(arc).evaluate(at))
                .min()
                .unwrap();
            at = best;
        }
        assert_eq!(at - departure, expected.unwrap());
    }
}

#[test]
fn search_on_a_chain_walks_without_the_queue() {
    // a ring of 50 nodes, one way round: every node has one way on
    let n = 50u32;
    let first_out: Vec<u32> = (0..=n).collect();
    let head: Vec<u32> = (0..n).map(|v| (v + 1) % n).collect();
    let first_ipp: Vec<u32> = (0..=n).collect();
    let graph = Graph::new(first_out, head, first_ipp, vec![0; n as usize], vec![7; n as usize]).unwrap();
    let mut search = TDTopoDijkstra::new(graph.clone());
    let mut server = Server::new(graph);
    for to in [1u32, 10, 49] {
        assert_eq!(run(&mut search, 0, to, 3), Some(7 * to));
        assert_eq!(server.distance(0, to, 3), Some(7 * to));
    }
    assert_eq!(run(&mut search, 0, 49, 3), Some(343));
    // the whole ring was walked from the start: as many arcs as nodes
    assert_eq!(search.num_relaxed_arcs(), 50);
}

#[test]
fn chain_walking_search_starts_with_the_source_alone() {
    let mut search = TDTopoDijkstra::new(original());
    // an earlier query leaves nothing behind
    search.initialize_query(TDQuery { from: 1, to: 2, departure: 5 });
    search.run();
    search.initialize_query(TDQuery { from: 0, to: 2, departure: 77 });
    assert_eq!(search.query(), TDQuery { from: 0, to: 2, departure: 77 });
    assert_eq!(search.num_relaxed_arcs(), 0);
    assert_eq!(search.tentative_distance(0), 77);
    assert_eq!(search.tentative_distance(1), INFINITY);
    assert_eq!(search.tentative_distance(2), INFINITY);
    assert_eq!(search.queue().len(), 1);
    assert_eq!(search.queue().get(0), Some(State { distance: 77, node: 0 }));
    assert_eq!(search.queue().get(1), None);
    assert_eq!(search.queue().get(2), None);
}

#[test]
fn chain_walking_search_takes_the_least_node_at_every_step() {
    let mut search = TDTopoDijkstra::new(original());
    search.initialize_query(TDQuery { from: 1, to: 2, departure: 0 });
    loop {
        let least = search.queue().peek();
        let before: Vec<u32> = (0..3).map(|node| search.tentative_distance(node)).collect();
        match search.next_step() {
            QueryProgress::Progress(state) => {
                assert_eq!(Some(state.node), least.map(|entry| entry.node));
                assert_eq!(state.distance, before[state.node as usize]);
                assert!(!search.queue().contains_index(state.node as usize));
                for node in 0..3 {
                    assert!(search.tentative_distance(node) <= before[node as usize]);
                }
            }
            QueryProgress::Done(answer) => {
                assert_eq!(answer, Some(30));
                for node in 0..3 {
                    assert_eq!(search.tentative_distance(node), before[node as usize]);
                }
                break;
            }
        }
    }
    // a search that is over hands the same answer out again
    assert!(matches!(search.next_step(), QueryProgress::Done(Some(30))));
}

#[test]
fn chain_walking_search_runs_to_its_end() {
    let mut search = TDTopoDijkstra::new(original());
    search.initialize_query(TDQuery { from: 1, to: 2, departure: 0 });
    assert_eq!(search.run(), Some(30));
    search.initialize_query(TDQuery { from: 1, to: 2, departure: NOON });
    assert_eq!(search.run(), Some(20));
    search.initialize_query(TDQuery { from: 2, to: 0, departure: 0 });
    assert_eq!(search.run(), None);
    search.initialize_query(TDQuery { from: 2, to: 2, departure: 9 });
    assert_eq!(search.run(), Some(0));
    let mut bounds = ZeroPotential { num_nodes: 3, num_pot_evals: 0, target: None };
    bounds.init(2);
    search.initialize_query(TDQuery { from: 1, to: 2, departure: 0 });
    assert_eq!(search.run_with_potential(&mut bounds), Some(30));
    assert_eq!(bounds.target, Some(2));
}
