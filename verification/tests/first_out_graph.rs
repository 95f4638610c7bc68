use td_router::graph::first_out_graph::FirstOutGraph;

#[test]
fn test_reversal() {
    let graph = FirstOutGraph::new(
        vec![0, 2, 3, 6, 8, 8, 8],
        vec![2, 1, 3, 1, 3, 4, 0, 4],
        vec![10, 1, 2, 1, 3, 1, 7, 2],
    );

    //
    //                  7
    //          +-----------------+
    //          |                 |
    //          v   1        2    |  2
    //          0 -----> 1 -----> 3 ---> 4
    //          |        ^        ^      ^
    //          |        | 1      |      |
    //          |        |        | 3    | 1
    //          +------> 2 -------+      |
    //           10      |               |
    //                   +---------------+
    //
    let expected = FirstOutGraph::new(
        vec![0, 1, 3, 4, 6, 8, 8],
        vec![3, 0, 2, 0, 1, 2, 2, 3],
        vec![7, 1, 1, 10, 2, 3, 1, 2],
    );
    let reversed = graph.reverse();

    assert_eq!(reversed.first_out(), expected.first_out());
    assert_eq!(reversed.head(), expected.head());
    assert_eq!(reversed.weight(), expected.weight());
}
