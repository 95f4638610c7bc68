use td_router::as_slice::AsSlice;
use td_router::graph::first_out_graph::{
    from_adjancecy_lists, valid_arrays, valid_topology, FirstOutGraph,
};
use td_router::types::Link;

fn example() -> FirstOutGraph {
    FirstOutGraph::new(
        vec![0, 2, 3, 6, 8, 8, 8],
        vec![2, 1, 3, 1, 3, 4, 0, 4],
        vec![10, 1, 2, 1, 3, 1, 7, 2],
    )
}

#[test]
fn adjacency_lists_become_arrays() {
    let graph = from_adjancecy_lists(vec![
        vec![Link { node: 1, weight: 5 }, Link { node: 2, weight: 6 }],
        vec![],
        vec![Link { node: 0, weight: 7 }],
    ]);
    assert_eq!(graph.first_out(), &vec![0, 2, 2, 3]);
    assert_eq!(graph.head(), &vec![1, 2, 0]);
    assert_eq!(graph.weight(), &vec![5, 6, 7]);
    assert_eq!(graph.num_nodes(), 3);
    assert_eq!(graph.num_arcs(), 3);
}

#[test]
fn neighbours_and_arcs_are_found() {
    let graph = example();
    assert_eq!(
        graph.neighbor_iter(2),
        vec![Link { node: 1, weight: 1 }, Link { node: 3, weight: 3 }, Link { node: 4, weight: 1 }]
    );
    assert_eq!(graph.neighbor_iter(4), vec![]);
    assert_eq!(graph.degree(0), 2);
    assert_eq!(graph.edge_index(2, 3), Some(4));
    assert_eq!(graph.edge_index(3, 4), Some(7));
    assert_eq!(graph.edge_index(3, 1), None);
}

#[test]
fn reversing_twice_gives_the_arcs_back() {
    let graph = example();
    let twice = graph.reverse().reverse();
    // every node of the example lists its arcs by head, so the order is found again
    assert_eq!(twice.first_out(), graph.first_out());
    for node in 0..6 {
        let mut before = graph.neighbor_iter(node);
        let mut after = twice.neighbor_iter(node);
        before.sort_by_key(|link| (link.node, link.weight));
        after.sort_by_key(|link| (link.node, link.weight));
        assert_eq!(before, after);
    }
}

#[test]
fn split_by_rank() {
    let graph = example();
    // ranks: node 3 is lowest, then 0, 1, 2, 4, 5
    let ranks = vec![1, 2, 3, 0, 4, 5];
    let (up, down) = graph.ch_split(&ranks);
    // upward: 0->2, 0->1, 1->... 1->3 goes down; 2->4; 3->0, 3->4
    assert_eq!(up.first_out(), &vec![0, 2, 2, 3, 5, 5, 5]);
    assert_eq!(up.head(), &vec![2, 1, 4, 0, 4]);
    assert_eq!(up.weight(), &vec![10, 1, 1, 7, 2]);
    // downward arcs are turned round and filed under their heads: 1->3 under 3, 2->1 under 1, 2->3 under 3
    assert_eq!(down.first_out(), &vec![0, 0, 1, 1, 3, 3, 3]);
    assert_eq!(down.head(), &vec![2, 1, 2]);
    assert_eq!(down.weight(), &vec![1, 2, 3]);
}

#[test]
fn arrays_are_checked() {
    assert!(valid_arrays(&vec![0, 1, 1], &vec![1], &vec![4]));
    assert!(valid_topology(&vec![0], &vec![]));
    assert!(!valid_topology(&vec![], &vec![]));
    assert!(!valid_topology(&vec![1, 1], &vec![0]));
    assert!(!valid_topology(&vec![0, 2, 1], &vec![0]));
    assert!(!valid_topology(&vec![0, 1], &vec![1]));
    assert!(!valid_arrays(&vec![0, 1, 1], &vec![1], &vec![]));
}

#[test]
fn vectors_and_slices_are_read_as_slices() {
    let v = vec![1u32, 2, 3];
    assert_eq!(AsSlice::as_slice(&v), &[1, 2, 3]);
    let s: &[u32] = &v[1..];
    assert_eq!(AsSlice::as_slice(&s), &[2, 3]);
}
