use td_router::algo::ch_potentials::{arcs_lead_up, CCHPotential, Potential};
use td_router::algo::contraction::contract;
use td_router::algo::separator_tree::{separators, SeparatorTree};
use td_router::datastr::node_order::NodeOrder;
use td_router::datastr::rank_select_map::{BitVec, InvertableRankSelectMap, RankSelectMap};
use td_router::graph::customized::CustomizedGraph;
use td_router::graph::first_out_graph::FirstOutGraph;
use td_router::graph::geometry::Point;
use td_router::graph::plf::PiecewiseLinearFunction;
use td_router::graph::shortcut::{ShortcutSource, ShortcutSourceData};
use td_router::graph::shortcut_graph::{PartialShortcutGraph, Shortcut};
use td_router::graph::td_graph::Graph;
use td_router::graph::time_dependent::lazy_chain::LazyChain;
use td_router::graph::time_dependent::linked::Linked;
use td_router::import::here::link_id_mapper::{LinkDirection, LinkIdMapper};
use td_router::shortest_path::corridor::corridor;
use td_router::shortest_path::floating_td_stepped_elimination_tree::{
    FloatingTDSteppedEliminationTree, QueryProgress,
};
use td_router::types::INFINITY;

const DAY: u32 = 86_400_000;
const NOON: u32 = 43_200_000;

fn data(source: ShortcutSource) -> ShortcutSourceData {
    ShortcutSourceData::from_source(source)
}

#[test]
fn contraction_of_a_path_in_its_order() {
    // 0 - 1 - 2 - 3, contracted from one end: no arcs are added
    let first_out = [0u32, 1, 3, 5, 6];
    let head = [1u32, 0, 2, 1, 3, 2];
    let order = NodeOrder::from_node_order(vec![0, 1, 2, 3]).unwrap();
    let cch = contract(&first_out, &head, order).unwrap();
    assert_eq!(cch.num_nodes(), 4);
    assert_eq!(cch.graph().first_out(), &vec![0, 1, 2, 3, 3]);
    assert_eq!(cch.graph().head(), &vec![1, 2, 3]);
    assert_eq!(cch.elimination_tree(), &[Some(1), Some(2), Some(3), None]);
    assert_eq!(cch.node_order().rank(2), 2);
}

#[test]
fn contraction_adds_arcs_between_neighbours() {
    // a star: node 0 in the middle of 1, 2 and 3, contracted first
    let first_out = [0u32, 3, 3, 3, 3];
    let head = [1u32, 2, 3];
    let order = NodeOrder::from_node_order(vec![0, 1, 2, 3]).unwrap();
    let cch = contract(&first_out, &head, order).unwrap();
    // the neighbours of 0 become neighbours of each other
    assert_eq!(cch.graph().first_out(), &vec![0, 3, 5, 6, 6]);
    assert_eq!(cch.graph().head(), &vec![1, 2, 3, 2, 3, 3]);
    assert_eq!(cch.elimination_tree(), &[Some(1), Some(2), Some(3), None]);
    assert!(arcs_lead_up(cch.graph(), cch.elimination_tree()));
    // contracted last, the middle node has all others below it and nothing is added
    let order = NodeOrder::from_node_order(vec![1, 2, 3, 0]).unwrap();
    let cch = contract(&first_out, &head, order).unwrap();
    assert_eq!(cch.graph().first_out(), &vec![0, 1, 2, 3, 3]);
    assert_eq!(cch.graph().head(), &vec![3, 3, 3]);
    assert_eq!(cch.elimination_tree(), &[Some(3), Some(3), Some(3), None]);
}

#[test]
fn contraction_goes_by_ranks_and_drops_loops_and_doubles() {
    // arcs 0 -> 2, 2 -> 0, 2 -> 2, 1 -> 2, 1 -> 2; order: 2, then 0, then 1
    let first_out = [0u32, 1, 3, 5];
    let head = [2u32, 2, 2, 0, 2];
    let order = NodeOrder::from_node_order(vec![2, 0, 1]).unwrap();
    let cch = contract(&first_out, &head, order).unwrap();
    // in ranks: node 2 is 0, node 0 is 1, node 1 is 2; the neighbours 1 and 2 of 0 become neighbours
    assert_eq!(cch.graph().first_out(), &vec![0, 2, 3, 3]);
    assert_eq!(cch.graph().head(), &vec![1, 2, 2]);
    assert_eq!(cch.elimination_tree(), &[Some(1), Some(2), None]);
    // a forest: two parts that no arc joins
    let first_out = [0u32, 1, 1, 2, 2];
    let head = [1u32, 3];
    let order = NodeOrder::from_node_order(vec![0, 1, 2, 3]).unwrap();
    let cch = contract(&first_out, &head, order).unwrap();
    assert_eq!(cch.elimination_tree(), &[Some(1), None, Some(3), None]);
}

#[test]
fn contraction_gives_what_potentials_need() {
    // a ring of five nodes
    let first_out = [0u32, 2, 4, 6, 8, 10];
    let head = [1u32, 4, 0, 2, 1, 3, 2, 4, 3, 0];
    let order = NodeOrder::from_node_order(vec![0, 2, 4, 1, 3]).unwrap();
    let cch = contract(&first_out, &head, order).unwrap();
    let m = cch.graph().num_arcs();
    let up = FirstOutGraph::new(cch.graph().first_out().clone(), cch.graph().head().clone(), vec![5; m]);
    let down = FirstOutGraph::new(cch.graph().first_out().clone(), cch.graph().head().clone(), vec![5; m]);
    let mut potential = CCHPotential::new(cch.node_order(), cch.elimination_tree(), up, down);
    potential.init(3);
    assert_eq!(potential.potential(3), Some(0));
    // every arc of the hierarchy counts 5: no node is farther than two arcs
    for node in 0..5 {
        let bound = potential.potential(node).unwrap();
        assert!(bound == 0 || bound == 5 || bound == 10);
    }
}

#[test]
fn corridor_of_two_searches() {
    let graph = Graph::new(
        vec![0, 1, 3, 3],
        vec![2, 0, 2],
        vec![0, 1, 2, 5],
        vec![0, 0, 0, NOON, DAY],
        vec![20, 10, 100, 20, 100],
    )
    .unwrap();
    let first_out = [0u32, 2, 3, 3];
    let head = [1u32, 2, 2];
    let up = vec![
        Shortcut::new(vec![], INFINITY, INFINITY, true),
        Shortcut::new(vec![(0, data(ShortcutSource::OriginalEdge(0)))], 20, 20, true),
        Shortcut::new(
            vec![
                (0, data(ShortcutSource::Shortcut(0, 1))),
                (37_800_000, data(ShortcutSource::OriginalEdge(2))),
                (48_600_001, data(ShortcutSource::Shortcut(0, 1))),
            ],
            20,
            30,
            true,
        ),
    ];
    let down = vec![
        Shortcut::new(vec![(0, data(ShortcutSource::OriginalEdge(1)))], 10, 10, true),
        Shortcut::new(vec![], INFINITY, INFINITY, true),
        Shortcut::new(vec![], INFINITY, INFINITY, true),
    ];
    let customized = CustomizedGraph::new(&graph, &first_out, &head, up, down);
    let tree = [Some(1), Some(2), None];
    let mut forward = FloatingTDSteppedEliminationTree::new(customized.upward_bounds_graph(), &tree);
    let mut backward = FloatingTDSteppedEliminationTree::new(customized.downward_bounds_graph(), &tree);
    // from node 1 to node 2
    forward.initialize_query(1);
    while let QueryProgress::Progress(_) = forward.next_step() {}
    backward.initialize_query(2);
    while let QueryProgress::Progress(_) = backward.next_step() {}
    assert_eq!(forward.parent(1), Some(2));
    let (upper, nodes) = corridor(&forward, &backward, 1);
    // the searches meet at node 2, which is reached within 20 to 30
    assert_eq!(upper, 30);
    assert_eq!(nodes, vec![2]);
    // from node 1 to node 0: they meet at node 1, from which the target lies 10 down
    backward.initialize_query(0);
    while let QueryProgress::Progress(_) = backward.next_step() {}
    let (upper, nodes) = corridor(&forward, &backward, 1);
    assert_eq!(upper, 10);
    assert_eq!(nodes, vec![1]);
    // from node 2 to node 1 there is no way: every node on the way up stays
    forward.initialize_query(2);
    while let QueryProgress::Progress(_) = forward.next_step() {}
    backward.initialize_query(1);
    while let QueryProgress::Progress(_) = backward.next_step() {}
    let (upper, nodes) = corridor(&forward, &backward, 2);
    assert_eq!(upper, INFINITY);
    assert_eq!(nodes, vec![2]);
}

#[test]
fn bounds_of_a_function_for_a_range() {
    let points = [
        Point { at: 0, val: 100 },
        Point { at: 1000, val: 300 },
        Point { at: 3000, val: 200 },
        Point { at: DAY as i64, val: 100 },
    ];
    let f = PiecewiseLinearFunction::new(&points);
    assert_eq!(f.bounds_for(&(0..DAY)), (100, 300));
    assert_eq!(f.bounds_for(&(0..1)), (100, 100));
    assert_eq!(f.bounds_for(&(0..501)), (100, 200));
    assert_eq!(f.bounds_for(&(500..1001)), (200, 300));
    assert_eq!(f.bounds_for(&(500..2001)), (200, 300));
    assert_eq!(f.bounds_for(&(2000..3001)), (200, 250));
    assert_eq!(f.bounds_for(&(900..1000)), (280, 299));
    let constant = [Point { at: 0, val: 42 }];
    assert_eq!(PiecewiseLinearFunction::new(&constant).bounds_for(&(5..DAY)), (42, 42));
}

fn original() -> Graph {
    Graph::new(
        vec![0, 1, 3, 3],
        vec![2, 0, 2],
        vec![0, 1, 2, 5],
        vec![0, 0, 0, NOON, DAY],
        vec![20, 10, 100, 20, 100],
    )
    .unwrap()
}

fn upward() -> Vec<Shortcut> {
    vec![
        Shortcut::new(vec![], INFINITY, INFINITY, false),
        Shortcut::new(vec![(0, data(ShortcutSource::OriginalEdge(0)))], 20, 20, true),
        Shortcut::new(
            vec![
                (0, data(ShortcutSource::Shortcut(0, 1))),
                (37_800_000, data(ShortcutSource::OriginalEdge(2))),
                (48_600_001, data(ShortcutSource::Shortcut(0, 1))),
            ],
            20,
            30,
            true,
        ),
    ]
}

fn downward() -> Vec<Shortcut> {
    vec![
        Shortcut::new(vec![(0, data(ShortcutSource::OriginalEdge(1)))], 10, 10, true),
        Shortcut::new(vec![], INFINITY, INFINITY, false),
        Shortcut::new(vec![], INFINITY, INFINITY, false),
    ]
}

#[test]
fn bounds_of_shortcuts_for_a_range() {
    let graph = original();
    let up = upward();
    let down = downward();
    let partial = PartialShortcutGraph::new(&graph, &up, &down, 0);
    assert_eq!(partial.bounds_for(true, 1, &(0..DAY)), (20, 20));
    assert_eq!(partial.bounds_for(false, 0, &(100..200)), (10, 10));
    // no source: no way through
    assert_eq!(partial.bounds_for(true, 0, &(0..DAY)), (INFINITY, INFINITY));
    assert_eq!(partial.bounds_for(true, 9, &(0..DAY)), (INFINITY, INFINITY));
    // the triangle costs 30 while it is in force, the original arc 20 to 30
    assert_eq!(partial.bounds_for(true, 2, &(0..DAY)), (20, 30));
    assert_eq!(partial.bounds_for(true, 2, &(0..1000)), (30, 30));
    assert_eq!(partial.bounds_for(true, 2, &(NOON..NOON + 1)), (20, 20));
    assert_eq!(partial.bounds_for(true, 2, &(40_500_000..NOON + 1)), (20, 25));
    // what the bounds say holds for every departure
    for (from, to) in [(0u32, 1000u32), (37_000_000, 38_000_000), (48_000_000, 49_000_000), (DAY - 500, DAY)] {
        let (lower, upper) = partial.bounds_for(true, 2, &(from..to));
        for t in (from..to).step_by(997) {
            let value = partial.evaluate(true, 2, t);
            assert!(lower <= value && value <= upper);
        }
    }
    let linked = Linked::new(0, 1);
    assert_eq!(linked.bounds_for(&(0..DAY), &partial), (30, 30));
    // across the first arc in 10, then the arc from 1 to 2 between 20 and 30
    let late = Linked::new(0, 2);
    assert_eq!(late.bounds_for(&(0..DAY), &partial), (30, 40));
    assert_eq!(late.bounds_for(&(NOON - 10..NOON - 9), &partial), (30, 30));
    // arrivals that pass the end of the period are looked up at its start
    assert_eq!(late.bounds_for(&(DAY - 5..DAY), &partial), (40, 40));
}

#[test]
fn triangles_that_hold_an_arc_are_told() {
    let graph = original();
    let up = upward();
    let down = downward();
    let partial = PartialShortcutGraph::new(&graph, &up, &down, 0);
    // the upward shortcut 2 rests on the triangle of the downward arc 0 and the upward arc 1
    assert!(partial.mentions(true, 2, 0));
    assert!(partial.mentions(true, 2, 1));
    assert!(!partial.mentions(true, 2, 2));
    assert!(!partial.mentions(true, 1, 0));
    let linked = Linked::new(0, 2);
    assert!(!linked.validate_does_not_contain(0, &partial));
    assert!(!linked.validate_does_not_contain(2, &partial));
    assert!(!linked.validate_does_not_contain(1, &partial));
    assert!(linked.validate_does_not_contain(3, &partial));
    assert!(Linked::new(0, 1).validate_does_not_contain(2, &partial));
}

#[test]
fn triangle_marks_what_it_rests_on() {
    let graph = original();
    let up = upward();
    let down = downward();
    let partial = PartialShortcutGraph::new(&graph, &up, &down, 0);
    let mut shortcuts = BitVec::new(6);
    let mut originals = BitVec::new(3);
    // the downward arc 0, then the upward arc 2, which rests on a triangle and an original arc
    Linked::new(0, 2).unpack(&partial, &mut shortcuts, &mut originals);
    let marked: Vec<bool> = (0..6).map(|i| shortcuts.get(i)).collect();
    // downward 0 at place 0; upward 1 at place 3; upward 2 at place 5
    assert_eq!(marked, vec![true, false, false, true, false, true]);
    let marked: Vec<bool> = (0..3).map(|i| originals.get(i)).collect();
    assert_eq!(marked, vec![true, true, true]);
    // a triangle of arcs with one original arc each
    let mut shortcuts = BitVec::new(6);
    let mut originals = BitVec::new(3);
    Linked::new(0, 1).unpack(&partial, &mut shortcuts, &mut originals);
    let marked: Vec<bool> = (0..6).map(|i| shortcuts.get(i)).collect();
    assert_eq!(marked, vec![true, false, false, true, false, false]);
    let marked: Vec<bool> = (0..3).map(|i| originals.get(i)).collect();
    assert_eq!(marked, vec![true, true, false]);
    // what is marked stays marked
    partial.unpack(true, 2, &mut shortcuts, &mut originals);
    assert!(shortcuts.get(0) && shortcuts.get(3) && shortcuts.get(5));
    assert!(originals.get(2));
}

#[test]
fn second_sequence_is_made_when_the_first_runs_out() {
    let made = std::cell::Cell::new(false);
    let mut chain = LazyChain::new(vec![1, 2], || {
        made.set(true);
        vec![3, 4]
    });
    assert_eq!(chain.next(), Some(1));
    assert_eq!(chain.next(), Some(2));
    assert!(!made.get());
    assert_eq!(chain.next(), Some(3));
    assert!(made.get());
    assert_eq!(chain.next(), Some(4));
    assert_eq!(chain.next(), None);
    assert_eq!(chain.next(), None);
    let mut empty = LazyChain::new(Vec::<u32>::new(), Vec::new);
    assert_eq!(empty.next(), None);
}

#[test]
fn links_of_the_vendor_are_mapped_both_ways() {
    // the identifiers 3, 5 and 9 are known
    let mut bits = BitVec::new(12);
    bits.set(3);
    bits.set(5);
    bits.set(9);
    let mapping = InvertableRankSelectMap::new(RankSelectMap::new(bits));
    assert_eq!(mapping.count(), 3);
    assert_eq!(mapping.len(), 12);
    assert_eq!(mapping.get(5), Some(1));
    assert_eq!(mapping.get(4), None);
    assert_eq!(mapping.inverse(2), 9);
    // link 3 has the arcs 0 and 1, link 5 the arc 2 towards its reference node, link 9 none
    let mapper = LinkIdMapper::new(mapping, vec![(Some(0), Some(1)), (None, Some(2)), (None, None)], 3);
    assert_eq!(mapper.here_to_local_edge_id(3, LinkDirection::FromRef), Some(0));
    assert_eq!(mapper.here_to_local_edge_id(3, LinkDirection::ToRef), Some(1));
    assert_eq!(mapper.here_to_local_edge_id(5, LinkDirection::FromRef), None);
    assert_eq!(mapper.here_to_local_edge_id(5, LinkDirection::ToRef), Some(2));
    assert_eq!(mapper.here_to_local_edge_id(9, LinkDirection::ToRef), None);
    assert_eq!(mapper.here_to_local_edge_id(4, LinkDirection::ToRef), None);
    assert_eq!(mapper.here_to_local_edge_id(1000, LinkDirection::ToRef), None);
    assert_eq!(mapper.local_to_here_edge_id(0), 3);
    assert_eq!(mapper.local_to_here_edge_id(1), 3);
    assert_eq!(mapper.local_to_here_edge_id(2), 5);
}

fn shape(tree: &SeparatorTree) -> String {
    let parts: Vec<String> = tree.children.iter().map(shape).collect();
    format!("{:?}[{}]", tree.nodes, parts.join(" "))
}

#[test]
fn separators_of_a_tree_that_branches() {
    // 6 is the root; 5 below it; 5 has the children 2 and 4; 2 has 0 and 1 below it; 4 has 3
    let tree = [Some(2), Some(2), Some(5), Some(4), Some(5), Some(6), None];
    let found = separators(&tree);
    assert_eq!(shape(&found), "[][[6, 5][[2][[0][] [1][]] [4, 3][]]]");
}

#[test]
fn separators_of_a_row_and_of_a_forest() {
    let row = [Some(1), Some(2), Some(3), None];
    assert_eq!(shape(&separators(&row)), "[][[3, 2, 1, 0][]]");
    let forest = [None, Some(2), None, None];
    assert_eq!(shape(&separators(&forest)), "[][[0][] [2, 1][] [3][]]");
    assert_eq!(shape(&separators(&[])), "[][]");
}

#[test]
fn separators_of_a_hierarchy() {
    // a star with the middle node contracted last: every other node is a part of its own
    let first_out = [0u32, 3, 3, 3, 3];
    let head = [1u32, 2, 3];
    let order = NodeOrder::from_node_order(vec![1, 2, 3, 0]).unwrap();
    let cch = contract(&first_out, &head, order).unwrap();
    assert_eq!(shape(&cch.separators()), "[][[3][[0][] [1][] [2][]]]");
}

#[test]
fn stored_bounds_are_checked_against_the_sources() {
    let graph = original();
    let up = upward();
    let down = downward();
    assert!(PartialShortcutGraph::new(&graph, &up, &down, 0).bounds_hold());
    // bounds that are wider than needed hold too
    let mut wide = upward();
    wide[2] = Shortcut::new(up[2].sources.clone(), 5, 1000, true);
    assert!(PartialShortcutGraph::new(&graph, &wide, &down, 0).bounds_hold());
    // an upper bound below the travel time over the lower node does not hold
    let mut low = upward();
    low[2] = Shortcut::new(up[2].sources.clone(), 20, 29, true);
    assert!(!PartialShortcutGraph::new(&graph, &low, &down, 0).bounds_hold());
    // nor does a lower bound above the travel time at noon
    let mut high = upward();
    high[2] = Shortcut::new(up[2].sources.clone(), 21, 30, true);
    assert!(!PartialShortcutGraph::new(&graph, &high, &down, 0).bounds_hold());
    // a downward arc is checked as well
    let mut other = downward();
    other[0] = Shortcut::new(down[0].sources.clone(), 11, 11, true);
    assert!(!PartialShortcutGraph::new(&graph, &up, &other, 0).bounds_hold());
}
