//! Where a forward and a backward interval search meet: an upper bound on
//! the travel time, and the nodes over which a shortest path may lead.
use vstd::prelude::*;
use crate::shortest_path::floating_td_stepped_elimination_tree::{
    spec_tree_ok, FloatingTDSteppedEliminationTree, NodeState,
};
use crate::types::{sat_add, spec_sat_add, NodeId, Weight, INFINITY};

verus! {

/// The nodes from `node` up to the root, `node` first.
pub open spec fn spec_path_up(tree: Seq<Option<NodeId>>, node: int) -> Seq<NodeId>
    decreases tree.len() - node,
{
    if 0 <= node < tree.len() {
        match tree[node] {
            Some(parent) => if node < parent < tree.len() {
                seq![node as NodeId] + spec_path_up(tree, parent as int)
            } else {
                seq![node as NodeId]
            },
            None => seq![node as NodeId],
        }
    } else {
        Seq::empty()
    }
}

/// The least upper bound on the travel time over one of the first `k`
/// nodes of `path`: the upper bound to the node plus that from it on.
pub open spec fn spec_upper(forward: Seq<NodeState>, backward: Seq<NodeState>, path: Seq<NodeId>, k: int) -> int
    decreases k,
{
    if k <= 0 {
        INFINITY as int
    } else {
        let rest = spec_upper(forward, backward, path, k - 1);
        let node = path[k - 1] as int;
        let over = spec_sat_add(forward[node].upper_bound as int, backward[node].upper_bound as int);
        if over < rest {
            over
        } else {
            rest
        }
    }
}

/// Whether a shortest path may lead over `node`: the lower bound on the
/// travel time over it is not above `upper`.
pub open spec fn spec_may_lie_on_path(
    forward: Seq<NodeState>,
    backward: Seq<NodeState>,
    node: int,
    upper: int,
) -> bool {
    spec_sat_add(forward[node].lower_bound as int, backward[node].lower_bound as int) <= upper
}

/// Those of the first `k` nodes of `path` over which a shortest path may lead.
pub open spec fn spec_corridor(
    forward: Seq<NodeState>,
    backward: Seq<NodeState>,
    path: Seq<NodeId>,
    upper: int,
    k: int,
) -> Seq<NodeId>
    decreases k,
{
    if k <= 0 {
        Seq::empty()
    } else {
        let rest = spec_corridor(forward, backward, path, upper, k - 1);
        if spec_may_lie_on_path(forward, backward, path[k - 1] as int, upper) {
            rest.push(path[k - 1])
        } else {
            rest
        }
    }
}

/// The upper bound is at most the sum of the upper bounds of the two
/// searches at every node on the way up.
pub proof fn lemma_upper_is_least(
    forward: Seq<NodeState>,
    backward: Seq<NodeState>,
    path: Seq<NodeId>,
    k: int,
    i: int,
)
    requires
        0 <= i < k,
    ensures
        spec_upper(forward, backward, path, k) <= spec_sat_add(
            forward[path[i] as int].upper_bound as int,
            backward[path[i] as int].upper_bound as int,
        ),
        spec_upper(forward, backward, path, k) <= INFINITY,
    decreases k,
{
    if k > i + 1 {
        lemma_upper_is_least(forward, backward, path, k - 1, i);
    } else {
        lemma_upper_range(forward, backward, path, k - 1);
    }
}

/// The upper bound is never above `INFINITY`.
proof fn lemma_upper_range(forward: Seq<NodeState>, backward: Seq<NodeState>, path: Seq<NodeId>, k: int)
    ensures
        spec_upper(forward, backward, path, k) <= INFINITY,
    decreases k,
{
    if k > 0 {
        lemma_upper_range(forward, backward, path, k - 1);
    }
}

/// The nodes from `origin` up to the root.
fn path_up(search: &FloatingTDSteppedEliminationTree, origin: NodeId) -> (path: Vec<NodeId>)
    requires
        search.wf(),
        origin < search.spec_graph().spec_num_nodes(),
    ensures
        path@ == spec_path_up(search.spec_tree(), origin as int),
        forall|i: int| 0 <= i < path@.len() ==> (#[trigger] path@[i]) < search.spec_graph().spec_num_nodes(),
{
    let ghost tree = search.spec_tree();
    proof {
        search.lemma_wf();
    }
    let mut path: Vec<NodeId> = Vec::new();
    let mut node = origin;
    loop
        invariant_except_break
            path@ + spec_path_up(tree, node as int) == spec_path_up(tree, origin as int),
        invariant
            search.wf(),
            tree == search.spec_tree(),
            tree.len() == search.spec_graph().spec_num_nodes(),
            spec_tree_ok(tree),
            node < tree.len(),
            forall|i: int| 0 <= i < path@.len() ==> (#[trigger] path@[i]) < tree.len(),
        ensures
            path@ == spec_path_up(tree, origin as int),
            forall|i: int| 0 <= i < path@.len() ==> (#[trigger] path@[i]) < tree.len(),
        decreases tree.len() - node,
    {
        let ghost before = path@;
        path.push(node);
        match search.parent(node) {
            Some(parent) => {
                proof {
                    assert(before + (seq![node] + spec_path_up(tree, parent as int)) =~= path@
                        + spec_path_up(tree, parent as int));
                }
                node = parent;
            },
            None => {
                proof {
                    assert(before + seq![node] =~= path@);
                }
                break ;
            },
        }
    }
    path
}

/// Where a search from the source and a search from the target, both run
/// to the root, meet: the least upper bound on the travel time over a
/// node on the way from `source` up to the root, and the nodes on that way
/// whose lower bound is not above it, from the lowest to the highest.
pub fn corridor(
    forward: &FloatingTDSteppedEliminationTree,
    backward: &FloatingTDSteppedEliminationTree,
    source: NodeId,
) -> (r: (Weight, Vec<NodeId>))
    requires
        forward.wf(),
        backward.wf(),
        forward.spec_graph().spec_num_nodes() == backward.spec_graph().spec_num_nodes(),
        source < forward.spec_graph().spec_num_nodes(),
    ensures
        r.0 as int == spec_upper(
            forward.spec_states(),
            backward.spec_states(),
            spec_path_up(forward.spec_tree(), source as int),
            spec_path_up(forward.spec_tree(), source as int).len() as int,
        ),
        r.1@ == spec_corridor(
            forward.spec_states(),
            backward.spec_states(),
            spec_path_up(forward.spec_tree(), source as int),
            r.0 as int,
            spec_path_up(forward.spec_tree(), source as int).len() as int,
        ),
        forall|i: int| 0 <= i < r.1@.len() ==> (#[trigger] r.1@[i]) < forward.spec_graph().spec_num_nodes(),
{
    let path = path_up(forward, source);
    let ghost fs = forward.spec_states();
    let ghost bs = backward.spec_states();
    proof {
        forward.lemma_wf();
        backward.lemma_wf();
    }
    let mut upper: Weight = INFINITY;
    let mut i: usize = 0;
    while i < path.len()
        invariant
            i <= path@.len(),
            forward.wf(),
            backward.wf(),
            fs == forward.spec_states(),
            bs == backward.spec_states(),
            forward.spec_graph().spec_num_nodes() == backward.spec_graph().spec_num_nodes(),
            forall|k: int| 0 <= k < path@.len() ==> (#[trigger] path@[k]) < forward.spec_graph().spec_num_nodes(),
            upper as int == spec_upper(fs, bs, path@, i as int),
            upper <= INFINITY,
        decreases path@.len() - i,
    {
        let node = path[i];
        let over = sat_add(forward.node_data(node).upper_bound, backward.node_data(node).upper_bound);
        if over < upper {
            upper = over;
        }
        i += 1;
    }
    let mut nodes: Vec<NodeId> = Vec::new();
    let mut i: usize = 0;
    while i < path.len()
        invariant
            i <= path@.len(),
            forward.wf(),
            backward.wf(),
            fs == forward.spec_states(),
            bs == backward.spec_states(),
            forward.spec_graph().spec_num_nodes() == backward.spec_graph().spec_num_nodes(),
            forall|k: int| 0 <= k < path@.len() ==> (#[trigger] path@[k]) < forward.spec_graph().spec_num_nodes(),
            nodes@ == spec_corridor(fs, bs, path@, upper as int, i as int),
            forall|k: int| 0 <= k < nodes@.len() ==> (#[trigger] nodes@[k]) < forward.spec_graph().spec_num_nodes(),
        decreases path@.len() - i,
    {
        let node = path[i];
        let under = sat_add(forward.node_data(node).lower_bound, backward.node_data(node).lower_bound);
        if under <= upper {
            nodes.push(node);
        }
        i += 1;
    }
    (upper, nodes)
}

} // verus!
