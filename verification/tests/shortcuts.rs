use td_router::datastr::rank_select_map::BitVec;
use td_router::datastr::timestamped_vector::TimestampedVector;
use td_router::graph::customized::persist::{CustomizedGraphReconstrctor, StoredDirection};
use td_router::graph::customized::{always, CustomizedGraph};
use td_router::graph::shortcut::{link, merge, source_at, ShortcutSource, ShortcutSourceData};
use td_router::graph::shortcut_graph::{PartialShortcutGraph, Shortcut};
use td_router::graph::td_graph::Graph;
use td_router::graph::time_dependent::linked::Linked;
use td_router::types::{RoutingError, INFINITY};

const DAY: u32 = 86_400_000;
const NOON: u32 = 43_200_000;

fn data(source: ShortcutSource) -> ShortcutSourceData {
    ShortcutSourceData::from_source(source)
}

/// Original arcs: 0: 1 -> 0 takes 10; 1: 0 -> 2 takes 20; 2: 1 -> 2 takes 100 at midnight and 20 at noon.
fn original() -> Graph {
    Graph::new(
        vec![0, 1, 3, 3],
        vec![2, 0, 2],
        vec![0, 1, 2, 5],
        vec![0, 0, 0, NOON, DAY],
        vec![20, 10, 100, 20, 100],
    )
    .unwrap()
}

/// The arcs of the hierarchy on three nodes, in the order (0,1), (0,2), (1,2).
fn topology() -> (Vec<u32>, Vec<u32>) {
    (vec![0, 2, 3, 3], vec![1, 2, 2])
}

fn upward() -> Vec<Shortcut> {
    vec![
        Shortcut::new(vec![], INFINITY, INFINITY, false),
        Shortcut::new(vec![(0, data(ShortcutSource::OriginalEdge(0)))], 20, 20, true),
        Shortcut::new(
            vec![
                (0, data(ShortcutSource::Shortcut(0, 1))),
                (37_800_000, data(ShortcutSource::OriginalEdge(2))),
                (48_600_001, data(ShortcutSource::Shortcut(0, 1))),
            ],
            20,
            30,
            true,
        ),
    ]
}

fn downward() -> Vec<Shortcut> {
    vec![
        Shortcut::new(vec![(0, data(ShortcutSource::OriginalEdge(1)))], 10, 10, true),
        Shortcut::new(vec![], INFINITY, INFINITY, false),
        Shortcut::new(vec![], INFINITY, INFINITY, false),
    ]
}

#[test]
fn sources_are_packed_and_found_again() {
    for source in [
        ShortcutSource::Shortcut(3, 9),
        ShortcutSource::Shortcut(0, 0),
        ShortcutSource::OriginalEdge(17),
        ShortcutSource::OriginalEdge(0),
        ShortcutSource::NoSource,
    ] {
        assert_eq!(ShortcutSourceData::from_source(source).source(), source);
    }
    let packed = ShortcutSourceData::from_source(ShortcutSource::Shortcut(3, 9));
    assert_eq!(packed.raw(), (3, 9));
    assert_eq!(ShortcutSourceData::from_raw(3, 9), packed);
}

#[test]
fn source_in_force_is_found() {
    let sources = vec![
        (0, data(ShortcutSource::OriginalEdge(1))),
        (100, data(ShortcutSource::OriginalEdge(2))),
        (5000, data(ShortcutSource::OriginalEdge(3))),
    ];
    assert_eq!(source_at(&[], 5), None);
    assert_eq!(source_at(&sources[..1], 77).unwrap().source(), ShortcutSource::OriginalEdge(1));
    assert_eq!(source_at(&sources, 0).unwrap().source(), ShortcutSource::OriginalEdge(1));
    assert_eq!(source_at(&sources, 99).unwrap().source(), ShortcutSource::OriginalEdge(1));
    assert_eq!(source_at(&sources, 100).unwrap().source(), ShortcutSource::OriginalEdge(2));
    assert_eq!(source_at(&sources, 4999).unwrap().source(), ShortcutSource::OriginalEdge(2));
    assert_eq!(source_at(&sources, 5000).unwrap().source(), ShortcutSource::OriginalEdge(3));
    assert_eq!(source_at(&sources, DAY - 1).unwrap().source(), ShortcutSource::OriginalEdge(3));
    // the moment within the period counts
    assert_eq!(source_at(&sources, DAY + 150).unwrap().source(), ShortcutSource::OriginalEdge(2));
}

#[test]
fn linking_and_merging_weights() {
    assert_eq!(link(10, 20), 30);
    assert_eq!(link(INFINITY, 20), INFINITY);
    assert_eq!(link(10, INFINITY), INFINITY);
    assert_eq!(link(INFINITY - 1, 5), INFINITY);
    assert_eq!(merge(10, 20), (10, true));
    assert_eq!(merge(20, 10), (10, false));
    // a tie goes to the incumbent
    assert_eq!(merge(10, 10), (10, true));
    assert!(always(true, 0, 0));
}

#[test]
fn shortcuts_are_evaluated_by_unfolding() {
    let graph = original();
    let up = upward();
    let down = downward();
    let partial = PartialShortcutGraph::new(&graph, &up, &down, 0);
    // no source
    assert_eq!(partial.evaluate(true, 0, 0), INFINITY);
    // an original arc
    assert_eq!(partial.evaluate(true, 1, 12345), 20);
    assert_eq!(partial.evaluate(false, 0, 12345), 10);
    // the triangle at midnight, the original arc at noon
    assert_eq!(partial.evaluate(true, 2, 0), 30);
    assert_eq!(partial.evaluate(true, 2, NOON), 20);
    assert_eq!(partial.evaluate(true, 2, 37_800_000), 30);
    assert_eq!(partial.evaluate(true, 2, 40_500_000), 25);
    assert_eq!(partial.evaluate(true, 2, 48_600_000), 30);
    assert_eq!(partial.evaluate(true, 2, 48_600_001), 30);
    // an arc that is no part of it
    assert_eq!(partial.evaluate(true, 7, 0), INFINITY);
    assert_eq!(partial.get_outgoing(1).bounds(), (20, 20));
    assert!(partial.get_outgoing(1).is_constant());
    assert!(!partial.get_outgoing(2).is_constant());
    assert_eq!(partial.get_outgoing(2).num_sources(), 3);
    assert_eq!(partial.get_incoming(0).sources().len(), 1);
    assert!(!partial.get_incoming(1).is_valid_path());
}

#[test]
fn linked_shortcuts() {
    let graph = original();
    let up = upward();
    let down = downward();
    let partial = PartialShortcutGraph::new(&graph, &up, &down, 0);
    let linked = Linked::new(0, 1);
    assert_eq!(linked.evaluate(0, &partial), 30);
    assert_eq!(linked.evaluate(DAY - 1, &partial), 30);
    assert_eq!(linked.bounds(&partial), (30, 30));
    assert!(linked.is_valid_path(&partial));
    assert!(!Linked::new(1, 1).is_valid_path(&partial));
    assert_eq!(linked.as_shortcut_data().source(), ShortcutSource::Shortcut(0, 1));
    // bounds add up even where one of them is the bound of no way through
    assert_eq!(Linked::new(1, 2).bounds(&partial), (INFINITY, INFINITY));
    // the value of the second arc is taken at the moment of arrival across the first
    let late = Linked::new(0, 2);
    assert_eq!(late.evaluate(37_799_995, &partial), 10 + 30);
    assert_eq!(late.evaluate(NOON - 10, &partial), 10 + 20);
}

#[test]
fn compaction_keeps_needed_arcs() {
    let graph = original();
    let (first_out, head) = topology();
    let customized = CustomizedGraph::new(&graph, &first_out, &head, upward(), downward());
    let up = customized.dir(true);
    assert_eq!(up.first_out(), &[0, 1, 2, 2]);
    assert_eq!(up.head(), &[2, 2]);
    assert_eq!(up.tail(), &[0, 1]);
    assert_eq!(up.bounds(), &[(20, 20), (20, 30)]);
    assert!(up.is_constant(0));
    assert!(!up.is_constant(1));
    assert_eq!(up.degree(0), 1);
    assert_eq!(up.degree(2), 0);
    assert_eq!(up.edge_sources(0).len(), 1);
    let sources = up.edge_sources(1);
    assert_eq!(sources.len(), 3);
    // the arcs of the triangle are numbered anew: both are the first of their direction
    assert_eq!(sources[0].1.source(), ShortcutSource::Shortcut(0, 0));
    assert_eq!(sources[1].1.source(), ShortcutSource::OriginalEdge(2));
    assert_eq!(sources[1].0, 37_800_000);
    assert_eq!(up.edge_source_at(1, NOON).unwrap().source(), ShortcutSource::OriginalEdge(2));
    let down = customized.dir(false);
    assert_eq!(down.first_out(), &[0, 1, 1, 1]);
    assert_eq!(down.head(), &[1]);
    assert_eq!(down.tail(), &[0]);
    assert_eq!(down.bounds(), &[(10, 10)]);
    assert!(down.is_constant(0));
}

#[test]
fn compact_graph_gives_the_same_travel_times() {
    let graph = original();
    let (first_out, head) = topology();
    let up = upward();
    let down = downward();
    let partial = PartialShortcutGraph::new(&graph, &up, &down, 0);
    let customized = CustomizedGraph::new(&graph, &first_out, &head, upward(), downward());
    for t in [0, 1, 37_799_999, 37_800_000, 40_000_000, NOON, 48_600_000, 48_600_001, DAY - 1, DAY + 5] {
        assert_eq!(customized.evaluate(true, 1, t), partial.evaluate(true, 2, t));
        assert_eq!(customized.evaluate(true, 0, t), partial.evaluate(true, 1, t));
        assert_eq!(customized.evaluate(false, 0, t), partial.evaluate(false, 0, t));
        assert_eq!(
            customized.outgoing.evaluate(1, t, &customized, true),
            customized.evaluate(true, 1, t)
        );
    }
}

#[test]
fn travel_times_stay_within_bounds() {
    let graph = original();
    let (first_out, head) = topology();
    let customized = CustomizedGraph::new(&graph, &first_out, &head, upward(), downward());
    for direction in [true, false] {
        let dir = customized.dir(direction);
        for arc in 0..dir.head().len() {
            let (lower, upper) = dir.bounds()[arc];
            for step in 0..2000u32 {
                let t = step * 43_200 + 17;
                let value = customized.evaluate(direction, arc as u32, t);
                assert!(lower <= value && value <= upper);
            }
        }
    }
}

#[test]
fn constant_arc_costs_its_lower_bound() {
    // an arc that is marked as constant is not unfolded: its sources are not looked at
    let graph = original();
    let first_out = vec![0, 1, 1];
    let head = vec![1];
    let up = vec![Shortcut::new(vec![(0, data(ShortcutSource::OriginalEdge(2)))], 55, 55, true)];
    let down = vec![Shortcut::new(vec![], INFINITY, INFINITY, false)];
    let customized = CustomizedGraph::new(&graph, &first_out, &head, up, down);
    assert_eq!(customized.evaluate(true, 0, 0), 55);
    assert_eq!(customized.evaluate(true, 0, NOON), 55);
}

#[test]
fn unpacked_path_adds_up_to_the_travel_time() {
    let graph = original();
    let (first_out, head) = topology();
    let customized = CustomizedGraph::new(&graph, &first_out, &head, upward(), downward());
    let mut path = vec![(99, 99)];
    let arrival = customized.unpack_at(true, 1, 1000, &mut path);
    assert_eq!(arrival, Some(1030));
    assert_eq!(path, vec![(99, 99), (1, 1000), (0, 1010)]);
    let mut path = Vec::new();
    assert_eq!(customized.unpack_at(true, 1, NOON, &mut path), Some(NOON + 20));
    assert_eq!(path, vec![(2, NOON)]);
    for t in [0, 5, 37_799_999, 40_000_000, 48_600_001, DAY - 1] {
        let mut path = Vec::new();
        let arrival = customized.outgoing.unpack_at(1, t, &customized, true, &mut path).unwrap();
        let mut at = t;
        for (arc, moment) in path {
            assert_eq!(moment, at);
            at += graph.travel_time_function(arc).evaluate(moment);
        }
        assert_eq!(at, arrival);
        assert_eq!(arrival - t, customized.evaluate(true, 1, t));
    }
}

#[test]
fn nothing_is_unpacked_without_a_way() {
    let graph = original();
    let first_out = vec![0, 1, 1];
    let head = vec![1];
    let up = vec![Shortcut::new(vec![(0, data(ShortcutSource::NoSource))], INFINITY, INFINITY, true)];
    let down = vec![Shortcut::new(vec![], INFINITY, INFINITY, false)];
    let customized = CustomizedGraph::new(&graph, &first_out, &head, up, down);
    let mut path = vec![(4, 4)];
    assert_eq!(customized.unpack_at(true, 0, 0, &mut path), None);
    assert_eq!(path, vec![(4, 4)]);
    assert_eq!(customized.evaluate(true, 0, 0), INFINITY);
    // a departure so late that the arrival is not finite
    let (first_out, head) = topology();
    let customized = CustomizedGraph::new(&graph, &first_out, &head, upward(), downward());
    let mut path = Vec::new();
    assert_eq!(customized.unpack_at(true, 1, INFINITY - 25, &mut path), None);
    assert!(path.is_empty());
}

#[test]
fn first_piece_of_the_way() {
    let graph = original();
    let (first_out, head) = topology();
    let customized = CustomizedGraph::new(&graph, &first_out, &head, upward(), downward());
    let mut bounds = TimestampedVector::new(3, INFINITY);
    let mut marked = Vec::new();
    // at midnight the arc from 1 to 2 stands for the triangle over 0: the downward arc to 0 is constant
    let piece = customized.evaluate_next_segment_at(true, 1, 0, 100, &mut bounds, &mut marked);
    assert_eq!(piece, Some((10, 0, 0)));
    assert_eq!(marked, vec![0]);
    // from the middle node 0 the target is at least the lower bound of the upward arc farther
    assert_eq!(*bounds.get(0), 120);
    assert_eq!(*bounds.get(1), INFINITY);
    // at noon it stands for the original arc
    let mut marked = Vec::new();
    let piece = customized.outgoing.evaluate_next_segment_at(
        true,
        1,
        NOON,
        100,
        &customized,
        &mut bounds,
        &mut marked,
    );
    assert_eq!(piece, Some((20, 2, 1)));
    assert!(marked.is_empty());
    assert_eq!(*bounds.get(0), 120);
    // a constant arc is its own first piece
    let piece = customized.evaluate_next_segment_at(true, 0, 0, 0, &mut bounds, &mut marked);
    assert_eq!(piece, Some((20, 2, 0)));
}

#[test]
fn bounds_graphs_list_arcs_with_bounds() {
    let graph = original();
    let (first_out, head) = topology();
    let customized = CustomizedGraph::new(&graph, &first_out, &head, upward(), downward());
    let up = customized.upward_bounds_graph();
    assert_eq!(up.num_nodes(), 3);
    assert_eq!(up.neighbor_edge_indices_usize(1), 1..2);
    assert_eq!(up.neighbor_iter(0), vec![((2, 0), (20, 20))]);
    assert_eq!(up.neighbor_iter(1), vec![((2, 1), (20, 30))]);
    assert_eq!(up.neighbor_iter(2), vec![]);
    let down = customized.downward_bounds_graph();
    assert_eq!(down.neighbor_iter(0), vec![((1, 0), (10, 10))]);
}

fn stored(customized: &CustomizedGraph) -> (StoredDirection, StoredDirection) {
    customized.deconstruct().unwrap()
}

#[test]
fn kept_arrays_give_the_same_graph() {
    let graph = original();
    let (first_out, head) = topology();
    let customized = CustomizedGraph::new(&graph, &first_out, &head, upward(), downward());
    let (outgoing, incoming) = stored(&customized);
    assert_eq!(outgoing.first_out, vec![0, 1, 2, 2]);
    assert_eq!(outgoing.first_source, vec![0, 1, 4]);
    assert_eq!(incoming.head, vec![1]);
    let again = CustomizedGraphReconstrctor { original_graph: &graph, first_out: &first_out, head: &head }
        .reconstruct_with(outgoing, incoming)
        .unwrap();
    for direction in [true, false] {
        let a = customized.dir(direction);
        let b = again.dir(direction);
        assert_eq!(a.first_out(), b.first_out());
        assert_eq!(a.head(), b.head());
        assert_eq!(a.tail(), b.tail());
        assert_eq!(a.bounds(), b.bounds());
        assert_eq!(a.first_source(), b.first_source());
        assert_eq!(a.sources(), b.sources());
        for arc in 0..a.head().len() {
            assert_eq!(a.is_constant(arc), b.is_constant(arc));
            for t in [0, 1234, NOON, DAY - 1] {
                assert_eq!(customized.evaluate(direction, arc as u32, t), again.evaluate(direction, arc as u32, t));
            }
        }
    }
}

#[test]
fn broken_kept_arrays_are_malformed_input() {
    let graph = original();
    let (first_out, head) = topology();
    let customized = CustomizedGraph::new(&graph, &first_out, &head, upward(), downward());
    let reconstructor =
        || CustomizedGraphReconstrctor { original_graph: &graph, first_out: &first_out, head: &head };

    // a source that names an arc with the same tail
    let (mut outgoing, incoming) = stored(&customized);
    outgoing.sources[1] = (0, data(ShortcutSource::Shortcut(0, 1)));
    assert_eq!(reconstructor().reconstruct_with(outgoing, incoming).err(), Some(RoutingError::MalformedInput));

    // a source that names an original arc that is not there
    let (mut outgoing, incoming) = stored(&customized);
    outgoing.sources[0] = (0, data(ShortcutSource::OriginalEdge(3)));
    assert_eq!(reconstructor().reconstruct_with(outgoing, incoming).err(), Some(RoutingError::MalformedInput));

    // moments that do not grow
    let (mut outgoing, incoming) = stored(&customized);
    outgoing.sources[2].0 = 0;
    assert_eq!(reconstructor().reconstruct_with(outgoing, incoming).err(), Some(RoutingError::MalformedInput));

    // an arc that leads down
    let (outgoing, mut incoming) = stored(&customized);
    incoming.head[0] = 0;
    assert_eq!(reconstructor().reconstruct_with(outgoing, incoming).err(), Some(RoutingError::MalformedInput));

    // too few bounds
    let (mut outgoing, incoming) = stored(&customized);
    outgoing.bounds.pop();
    assert_eq!(reconstructor().reconstruct_with(outgoing, incoming).err(), Some(RoutingError::MalformedInput));

    // directions with different numbers of nodes
    let (outgoing, mut incoming) = stored(&customized);
    incoming.first_out.push(1);
    assert_eq!(reconstructor().reconstruct_with(outgoing, incoming).err(), Some(RoutingError::MalformedInput));

    // marks for the wrong number of arcs
    let (mut outgoing, incoming) = stored(&customized);
    outgoing.constant = BitVec::new(3);
    assert_eq!(reconstructor().reconstruct_with(outgoing, incoming).err(), Some(RoutingError::MalformedInput));
}
