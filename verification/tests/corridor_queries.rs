use td_router::datastr::node_order::NodeOrder;
use td_router::datastr::rank_select_map::BitVec;
use td_router::graph::customized::CustomizedGraph;
use td_router::graph::shortcut::{ShortcutSource, ShortcutSourceData};
use td_router::graph::shortcut_graph::{PartialShortcutGraph, Shortcut};
use td_router::graph::td_graph::Graph;
use td_router::shortest_path::floating_td_stepped_elimination_tree::FloatingTDSteppedEliminationTree;
use td_router::shortest_path::label_marks::mark_labels;
use td_router::shortest_path::query::catchup::Server;
use td_router::shortest_path::query::td_dijkstra::Server as PlainServer;
use td_router::shortest_path::stepped_dijkstra::QueryProgress;
use td_router::shortest_path::td_stepped_dijkstra::TDSteppedDijkstra;
use td_router::types::{TDQuery, INFINITY};

const DAY: u32 = 86_400_000;
const NOON: u32 = 43_200_000;

static FIRST_OUT: [u32; 5] = [0, 2, 3, 4, 4];
static HEAD: [u32; 4] = [1, 2, 2, 3];
static TREE: [Option<u32>; 4] = [Some(1), Some(2), Some(3), None];

fn stored(source: ShortcutSource) -> ShortcutSourceData {
    ShortcutSourceData::from_source(source)
}

/// Original arcs: 0: 0 -> 2 takes 20; 1: 1 -> 0 takes 10; 2: 1 -> 2 takes
/// 100 at midnight and 20 at noon; 3: 2 -> 3 takes 5.
fn roads() -> Graph {
    Graph::new(
        vec![0, 1, 3, 4, 4],
        vec![2, 0, 2, 3],
        vec![0, 1, 2, 5, 6],
        vec![0, 0, 0, NOON, DAY, 0],
        vec![20, 10, 100, 20, 100, 5],
    )
    .unwrap()
}

fn shortcuts() -> (Vec<Shortcut>, Vec<Shortcut>) {
    let up = vec![
        Shortcut::new(vec![], INFINITY, INFINITY, true),
        Shortcut::new(vec![(0, stored(ShortcutSource::OriginalEdge(0)))], 20, 20, true),
        Shortcut::new(
            vec![
                (0, stored(ShortcutSource::Shortcut(0, 1))),
                (37_800_000, stored(ShortcutSource::OriginalEdge(2))),
                (48_600_001, stored(ShortcutSource::Shortcut(0, 1))),
            ],
            20,
            30,
            true,
        ),
        Shortcut::new(vec![(0, stored(ShortcutSource::OriginalEdge(3)))], 5, 5, true),
    ];
    let down = vec![
        Shortcut::new(vec![(0, stored(ShortcutSource::OriginalEdge(1)))], 10, 10, true),
        Shortcut::new(vec![], INFINITY, INFINITY, true),
        Shortcut::new(vec![], INFINITY, INFINITY, true),
        Shortcut::new(vec![], INFINITY, INFINITY, true),
    ];
    (up, down)
}

/// The hierarchy over `roads` with the nodes ranked as they are numbered:
/// the way from 1 to 2 is the direct arc around noon and leads over 0 otherwise.
fn hierarchy() -> &'static CustomizedGraph<'static> {
    let graph: &'static Graph = Box::leak(Box::new(roads()));
    let (up, down) = shortcuts();
    Box::leak(Box::new(CustomizedGraph::new(graph, &FIRST_OUT, &HEAD, up, down)))
}

fn server() -> Server<'static> {
    let order: &'static NodeOrder = Box::leak(Box::new(NodeOrder::from_node_order(vec![0, 1, 2, 3]).unwrap()));
    Server::new(hierarchy(), &TREE, order, roads())
}

fn marked(bits: &BitVec) -> Vec<usize> {
    (0..bits.len()).filter(|&i| bits.get(i)).collect()
}

#[test]
fn search_keeps_to_the_arcs_that_it_may_take() {
    let mut search = TDSteppedDijkstra::new(roads());
    let mut allowed = BitVec::new(4);
    allowed.set(0);
    allowed.set(2);
    allowed.set(3);
    // without the arc from 1 to 0 only the direct arc leads from 1 to 2
    search.initialize_query_within(TDQuery { from: 1, to: 2, departure: 0 }, allowed);
    assert!(search.may_take(2));
    assert!(!search.may_take(1));
    let answer = loop {
        if let QueryProgress::Done(answer) = search.next_step() {
            break answer;
        }
    };
    assert_eq!(answer, Some(100));
    assert_eq!(search.path(), vec![1, 2]);
    assert_eq!(search.tentative_distance(0), INFINITY);
    // on all arcs the way over 0 is taken
    search.initialize_query(TDQuery { from: 1, to: 2, departure: 0 });
    assert!(search.may_take(1));
    let answer = loop {
        if let QueryProgress::Done(answer) = search.next_step() {
            break answer;
        }
    };
    assert_eq!(answer, Some(30));
    assert_eq!(search.path(), vec![1, 0, 2]);
}

#[test]
fn search_without_any_arc_reaches_only_its_start() {
    let mut search = TDSteppedDijkstra::new(roads());
    search.initialize_query_within(TDQuery { from: 1, to: 2, departure: 0 }, BitVec::new(4));
    let answer = loop {
        if let QueryProgress::Done(answer) = search.next_step() {
            break answer;
        }
    };
    assert_eq!(answer, None);
    search.initialize_query_within(TDQuery { from: 1, to: 1, departure: 7 }, BitVec::new(4));
    let answer = loop {
        if let QueryProgress::Done(answer) = search.next_step() {
            break answer;
        }
    };
    assert_eq!(answer, Some(0));
}

#[test]
fn compact_arc_marks_what_it_rests_on() {
    let customized = hierarchy();
    let mut shortcuts = BitVec::new(8);
    let mut originals = BitVec::new(4);
    customized.unpack(true, 3, &mut shortcuts, &mut originals);
    assert_eq!(marked(&shortcuts), vec![7]);
    assert_eq!(marked(&originals), vec![3]);
    // the arc from 1 to 2 rests on the arc down to 0, the arc up from 0, and three original arcs
    customized.unpack(true, 2, &mut shortcuts, &mut originals);
    assert_eq!(marked(&shortcuts), vec![0, 3, 5, 7]);
    assert_eq!(marked(&originals), vec![0, 1, 2, 3]);
    // an arc without a source marks itself only
    let mut shortcuts = BitVec::new(8);
    let mut originals = BitVec::new(4);
    customized.unpack(false, 2, &mut shortcuts, &mut originals);
    assert_eq!(marked(&shortcuts), vec![4]);
    assert_eq!(marked(&originals), Vec::<usize>::new());
}

#[test]
fn labels_are_followed_down_to_the_origin() {
    let customized = hierarchy();
    let mut search = FloatingTDSteppedEliminationTree::new(customized.upward_bounds_graph(), &TREE);
    search.initialize_query(0);
    while search.peek_next().is_some() {
        search.next_step();
    }
    let mut visited = BitVec::new(4);
    let mut shortcuts = BitVec::new(8);
    let mut originals = BitVec::new(4);
    // node 3 is reached over 2, and 2 only from 0: the arcs 0 -> 2 and 2 -> 3
    mark_labels(customized, &search, true, 3, &mut visited, &mut shortcuts, &mut originals);
    assert_eq!(marked(&visited), vec![0, 2, 3]);
    assert_eq!(marked(&originals), vec![0, 3]);
    // node 1 is named by no label that leads to the origin with a way: its only label is the arc without a source
    let mut visited = BitVec::new(4);
    let mut shortcuts = BitVec::new(8);
    let mut originals = BitVec::new(4);
    mark_labels(customized, &search, true, 1, &mut visited, &mut shortcuts, &mut originals);
    assert_eq!(marked(&visited), vec![0, 1]);
    assert_eq!(marked(&shortcuts), vec![1]);
    assert_eq!(marked(&originals), Vec::<usize>::new());
}

#[test]
fn query_on_the_hierarchy_around_midnight() {
    let mut server = server();
    assert_eq!(server.distance(1, 2, 0), Some(30));
    assert_eq!(server.upper_bound(), 30);
    assert_eq!(server.corridor(), &vec![2]);
    assert_eq!(server.path(), vec![1, 0, 2]);
    assert!(server.is_in_corridor(0) && server.is_in_corridor(1) && server.is_in_corridor(2));
    assert!(!server.is_in_corridor(3));
    assert!(server.is_in_searchspace(0) && server.is_in_searchspace(1) && server.is_in_searchspace(2));
    assert!(!server.is_in_searchspace(3));
}

#[test]
fn query_on_the_hierarchy_at_noon() {
    let mut server = server();
    assert_eq!(server.distance(1, 2, NOON), Some(20));
    assert_eq!(server.path(), vec![1, 2]);
    assert_eq!(server.distance(1, 3, NOON), Some(25));
    assert_eq!(server.path(), vec![1, 2, 3]);
    assert_eq!(server.upper_bound(), 35);
    assert_eq!(server.corridor(), &vec![3]);
}

#[test]
fn query_on_the_hierarchy_takes_only_arcs_under_labels() {
    let mut server = server();
    assert_eq!(server.distance(0, 2, 0), Some(20));
    assert_eq!(server.upper_bound(), 20);
    assert_eq!(server.corridor(), &vec![2]);
    assert!(server.is_in_corridor(0));
    assert!(!server.is_in_corridor(1) && !server.is_in_corridor(2) && !server.is_in_corridor(3));
    // the way back is found from the target's side
    assert_eq!(server.distance(1, 0, 0), Some(10));
    assert_eq!(server.corridor(), &vec![1]);
    assert!(server.is_in_corridor(1));
    assert!(!server.is_in_corridor(0) && !server.is_in_corridor(2) && !server.is_in_corridor(3));
}

#[test]
fn query_on_the_hierarchy_without_a_way() {
    let mut server = server();
    assert_eq!(server.distance(3, 1, 0), None);
    assert_eq!(server.upper_bound(), INFINITY);
    assert_eq!(server.distance(2, 0, 5), None);
    assert_eq!(server.distance(2, 2, 5), Some(0));
    assert_eq!(server.path(), vec![2]);
}

#[test]
fn query_on_the_hierarchy_agrees_with_the_plain_search() {
    let mut server = server();
    let mut plain = PlainServer::new(roads());
    for from in 0..4 {
        for to in 0..4 {
            for departure in [0, 1, 10_800_000, 37_800_000, NOON, 48_600_001, DAY - 1, DAY, DAY + NOON] {
                assert_eq!(
                    server.distance(from, to, departure),
                    plain.distance(from, to, departure),
                    "from {from} to {to} at {departure}"
                );
            }
        }
    }
}

#[test]
fn ways_over_a_node_outside_the_corridor_take_longer() {
    // as `roads`, with one more arc: 3: 2 -> 0 takes 50 (and 4: 2 -> 3 takes 5)
    let graph: &'static Graph = Box::leak(Box::new(
        Graph::new(
            vec![0, 1, 3, 5, 5],
            vec![2, 0, 2, 0, 3],
            vec![0, 1, 2, 5, 6, 7],
            vec![0, 0, 0, NOON, DAY, 0, 0],
            vec![20, 10, 100, 20, 100, 50, 5],
        )
        .unwrap(),
    ));
    let up = vec![
        Shortcut::new(vec![], INFINITY, INFINITY, true),
        Shortcut::new(vec![(0, stored(ShortcutSource::OriginalEdge(0)))], 20, 20, true),
        Shortcut::new(
            vec![
                (0, stored(ShortcutSource::Shortcut(0, 1))),
                (37_800_000, stored(ShortcutSource::OriginalEdge(2))),
                (48_600_001, stored(ShortcutSource::Shortcut(0, 1))),
            ],
            20,
            30,
            true,
        ),
        Shortcut::new(vec![(0, stored(ShortcutSource::OriginalEdge(4)))], 5, 5, true),
    ];
    let down = vec![
        Shortcut::new(vec![(0, stored(ShortcutSource::OriginalEdge(1)))], 10, 10, true),
        Shortcut::new(vec![(0, stored(ShortcutSource::OriginalEdge(3)))], 50, 50, true),
        Shortcut::new(vec![], INFINITY, INFINITY, true),
        Shortcut::new(vec![], INFINITY, INFINITY, true),
    ];
    let customized: &'static CustomizedGraph<'static> =
        Box::leak(Box::new(CustomizedGraph::new(graph, &FIRST_OUT, &HEAD, up, down)));
    let order: &'static NodeOrder = Box::leak(Box::new(NodeOrder::from_node_order(vec![0, 1, 2, 3]).unwrap()));
    let mut server = Server::new(customized, &TREE, order, graph.clone());
    for departure in [0, 37_800_000, NOON, DAY - 1] {
        // from 1 down to 0 at once; node 2 is left out of the corridor
        assert_eq!(server.distance(1, 0, departure), Some(10));
        assert_eq!(server.upper_bound(), 10);
        assert_eq!(server.corridor(), &vec![1]);
        // up to 2 and down from there takes longer than the upper bound
        let up_to = customized.evaluate(true, 2, departure);
        let down_from = customized.evaluate(false, 1, departure + up_to);
        assert_eq!(down_from, 50);
        assert!(up_to + down_from > server.upper_bound());
        // only the arc from 1 to 0 may be taken
        assert!(server.is_in_corridor(1));
        assert!(!server.is_in_corridor(0) && !server.is_in_corridor(2) && !server.is_in_corridor(3));
    }
    // from 2 to 0 the arc down is the only way
    assert_eq!(server.distance(2, 0, 0), Some(50));
    assert_eq!(server.corridor(), &vec![2]);
    assert_eq!(server.path(), vec![2, 0]);
}

#[test]
fn upper_bound_of_the_corridor_holds() {
    let mut server = server();
    for from in 0..4 {
        for to in 0..4 {
            for departure in [0, 37_800_000, NOON, DAY - 1] {
                if let Some(time) = server.distance(from, to, departure) {
                    assert!(time <= server.upper_bound(), "from {from} to {to} at {departure}");
                }
            }
        }
    }
}

#[test]
fn shortcut_takes_no_longer_than_the_way_over_the_lower_node() {
    let customized = hierarchy();
    let graph = roads();
    let mut moment = 0;
    while moment < 2 * DAY {
        let across = customized.evaluate(true, 2, moment);
        // the triangle over node 0: down from 1 to 0, then up from 0 to 2
        let down = customized.evaluate(false, 0, moment);
        let over = down + customized.evaluate(true, 1, moment + down);
        let direct = graph.travel_time_function(2).evaluate(moment);
        assert!(across <= over, "at {moment}");
        assert!(across <= direct, "at {moment}");
        assert!(across == over || across == direct, "at {moment}");
        moment += 1_234_567;
    }
}

#[test]
fn leaving_later_across_a_shortcut_never_arrives_earlier() {
    let customized = hierarchy();
    let mut before = 0;
    let mut moment = 0;
    while moment < 2 * DAY {
        let arrival = moment + customized.evaluate(true, 2, moment);
        assert!(before <= arrival, "at {moment}");
        before = arrival;
        moment += 654_321;
    }
}

#[test]
fn nodes_are_settled_in_the_order_of_their_arrivals() {
    let mut search = TDSteppedDijkstra::new(roads());
    for departure in [0, NOON, DAY - 1] {
        search.initialize_query(TDQuery { from: 1, to: 3, departure });
        let mut arrivals = vec![];
        loop {
            match search.next_step() {
                QueryProgress::Progress(state) => arrivals.push(state.distance),
                QueryProgress::Done(answer) => {
                    // the target ends the search when it is taken from the queue
                    assert_eq!(answer.map(|time| time + departure), Some(search.tentative_distance(3)));
                    break;
                }
            }
        }
        assert!(arrivals.windows(2).all(|pair| pair[0] <= pair[1]), "{arrivals:?}");
        assert_eq!(arrivals.first(), Some(&departure));
    }
}

#[test]
fn checked_bounds_hold_after_compaction() {
    let graph = roads();
    let (up, down) = shortcuts();
    assert!(PartialShortcutGraph::new(&graph, &up, &down, 0).bounds_hold());
    let customized = hierarchy();
    for upward in [true, false] {
        let side = customized.dir(upward);
        for arc in 0..side.head().len() {
            let (lower, upper) = side.bounds()[arc];
            assert!(lower <= upper);
            let mut moment = 0;
            while moment < 2 * DAY {
                let time = customized.evaluate(upward, arc as u32, moment);
                assert!(lower <= time && time <= upper, "arc {arc} at {moment}");
                moment += 3_456_789;
            }
        }
    }
}
