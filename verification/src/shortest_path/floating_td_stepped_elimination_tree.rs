//! The interval search on the elimination tree: from one node up to the
//! root, bounds on the travel time to every node on the way and the arcs
//! that may lie on a shortest path.
use vstd::prelude::*;
use crate::datastr::timestamped_vector::TimestampedVector;
use crate::graph::customized::SingleDirBoundsGraph;
use crate::types::{spec_min, sat_add, spec_sat_add, EdgeId, NodeId, Weight, INFINITY};

verus! {

/// What one step of the search did.
#[derive(Debug, Clone)]
pub enum QueryProgress {
    /// The arcs of this node were looked at.
    Progress(NodeId),
    /// The root is behind: nothing is left to do.
    Done,
}

/// An arc that may lie on a shortest path to a node: the node it comes
/// from, its identifier, and the least travel time to the node across it.
#[derive(Debug, Clone, Copy, PartialEq, Eq)]
pub struct Label {
    pub lower_bound: Weight,
    pub parent: NodeId,
    pub shortcut_id: EdgeId,
}

/// What the search knows of a node: the arcs that may lie on a shortest
/// path to it, and the best bounds on the travel time to it.
#[derive(Debug, Clone)]
pub struct NodeData {
    pub labels: Vec<Label>,
    pub upper_bound: Weight,
    pub lower_bound: Weight,
}

/// What the search knows of a node, as a value.
pub struct NodeState {
    pub labels: Seq<Label>,
    pub upper_bound: Weight,
    pub lower_bound: Weight,
}

impl NodeData {
    /// The data as a value.
    pub open spec fn view(&self) -> NodeState {
        NodeState {
            labels: self.labels@,
            upper_bound: self.upper_bound,
            lower_bound: self.lower_bound,
        }
    }
}

/// What is known of a node that no arc has led to.
pub open spec fn spec_unreached() -> NodeState {
    NodeState { labels: Seq::empty(), upper_bound: INFINITY, lower_bound: INFINITY }
}

/// What is known of the node from which the search starts.
pub open spec fn spec_origin() -> NodeState {
    NodeState { labels: Seq::empty(), upper_bound: 0, lower_bound: 0 }
}

/// The labels whose lower bound is not above `upper`, in their order.
pub open spec fn spec_retained(labels: Seq<Label>, upper: Weight) -> Seq<Label>
    decreases labels.len(),
{
    if labels.len() == 0 {
        Seq::empty()
    } else {
        let rest = spec_retained(labels.drop_last(), upper);
        if labels.last().lower_bound <= upper {
            rest.push(labels.last())
        } else {
            rest
        }
    }
}

/// What is known of a node after one more arc to it, with label `next` and
/// upper bound `next_upper`, has been looked at.  An arc that is surely
/// no worse than all before replaces them; an arc that may be better than
/// some is added, and the labels that are now surely worse are dropped;
/// an arc that is surely no better is passed over.
pub open spec fn spec_relaxed(target: NodeState, next: Label, next_upper: Weight) -> NodeState {
    if next_upper <= target.lower_bound {
        NodeState { labels: seq![next], upper_bound: next_upper, lower_bound: next.lower_bound }
    } else if next.lower_bound < target.upper_bound {
        let upper = spec_min(next_upper, target.upper_bound);
        NodeState {
            labels: spec_retained(target.labels, upper).push(next),
            upper_bound: upper,
            lower_bound: spec_min(next.lower_bound, target.lower_bound),
        }
    } else {
        target
    }
}

/// The label of arc `e` from `node`, which is reached with lower bound `lower`.
pub open spec fn spec_label(g: SingleDirBoundsGraph, node: int, lower: Weight, e: int) -> Label {
    Label {
        lower_bound: spec_sat_add(g.spec_bounds()[e].0 as int, lower as int) as Weight,
        parent: node as NodeId,
        shortcut_id: e as EdgeId,
    }
}

/// What is known of all nodes after the first `k` arcs of `node`, which is
/// reached with bounds `lower` and `upper`, have been looked at.
pub open spec fn spec_settled(
    states: Seq<NodeState>,
    g: SingleDirBoundsGraph,
    node: int,
    lower: Weight,
    upper: Weight,
    k: int,
) -> Seq<NodeState>
    decreases k,
{
    if k <= 0 {
        states
    } else {
        let before = spec_settled(states, g, node, lower, upper, k - 1);
        let e = g.spec_first_out()[node] + k - 1;
        let target = g.spec_head()[e] as int;
        before.update(
            target,
            spec_relaxed(
                before[target],
                spec_label(g, node, lower, e),
                spec_sat_add(g.spec_bounds()[e].1 as int, upper as int) as Weight,
            ),
        )
    }
}

/// The labels of `labels` whose lower bound is not above `upper`.
fn retained(labels: &Vec<Label>, upper: Weight) -> (r: Vec<Label>)
    ensures
        r@ == spec_retained(labels@, upper),
{
    let mut r: Vec<Label> = Vec::new();
    let mut i: usize = 0;
    while i < labels.len()
        invariant
            i <= labels@.len(),
            r@ == spec_retained(labels@.take(i as int), upper),
        decreases labels@.len() - i,
    {
        proof {
            assert(labels@.take(i as int + 1).drop_last() =~= labels@.take(i as int));
        }
        if labels[i].lower_bound <= upper {
            r.push(labels[i]);
        }
        i += 1;
    }
    proof {
        assert(labels@.take(labels@.len() as int) =~= labels@);
    }
    r
}

/// What is known of a node after one more arc to it has been looked at.
fn relaxed(target: &NodeData, next: Label, next_upper: Weight) -> (r: Option<NodeData>)
    ensures
        match r {
            Some(data) => data@ == spec_relaxed(target@, next, next_upper),
            None => target@ == spec_relaxed(target@, next, next_upper),
        },
{
    if next_upper <= target.lower_bound {
        let mut labels: Vec<Label> = Vec::new();
        labels.push(next);
        proof {
            assert(labels@ =~= seq![next]);
        }
        Some(NodeData { labels, upper_bound: next_upper, lower_bound: next.lower_bound })
    } else if next.lower_bound < target.upper_bound {
        let upper = if next_upper <= target.upper_bound { next_upper } else { target.upper_bound };
        let lower = if next.lower_bound <= target.lower_bound {
            next.lower_bound
        } else {
            target.lower_bound
        };
        let mut labels = retained(&target.labels, upper);
        labels.push(next);
        Some(NodeData { labels, upper_bound: upper, lower_bound: lower })
    } else {
        None
    }
}

/// Whether every node has a parent above it or none.
pub open spec fn spec_tree_ok(tree: Seq<Option<NodeId>>) -> bool {
    forall|v: int| 0 <= v < tree.len() ==> ((#[trigger] tree[v]) matches Some(p) ==> v < p < tree.len())
}

/// The interval search from one node up the elimination tree.
#[derive(Debug)]
pub struct FloatingTDSteppedEliminationTree<'a, 'b> {
    graph: SingleDirBoundsGraph<'a>,
    distances: TimestampedVector<NodeData>,
    elimination_tree: &'b [Option<NodeId>],
    next: Option<NodeId>,
    origin: Option<NodeId>,
}

impl<'a, 'b> FloatingTDSteppedEliminationTree<'a, 'b> {
    /// The graph of bounds that is searched.
    pub closed spec fn spec_graph(&self) -> SingleDirBoundsGraph<'a> {
        self.graph
    }

    /// The parent of every node.
    pub closed spec fn spec_tree(&self) -> Seq<Option<NodeId>> {
        self.elimination_tree@
    }

    /// The node whose arcs are looked at next.
    pub closed spec fn spec_next(&self) -> Option<NodeId> {
        self.next
    }

    /// The node from which the search started.
    pub closed spec fn spec_origin_node(&self) -> Option<NodeId> {
        self.origin
    }

    /// What is known of every node.
    pub closed spec fn spec_states(&self) -> Seq<NodeState> {
        Seq::new(self.distances@.len(), |v: int| self.distances@[v]@)
    }

    /// Representation invariant: a graph and a tree on the same nodes, one
    /// cell per node, and the next node is a node.
    pub closed spec fn wf(&self) -> bool {
        &&& self.graph.wf()
        &&& self.distances.wf()
        &&& self.distances.spec_default()@ == spec_unreached()
        &&& self.distances@.len() == self.graph.spec_num_nodes()
        &&& self.elimination_tree@.len() == self.graph.spec_num_nodes()
        &&& spec_tree_ok(self.elimination_tree@)
        &&& (self.next matches Some(node) ==> node < self.graph.spec_num_nodes())
    }

    /// What being well formed means for a caller.
    pub proof fn lemma_wf(&self)
        requires
            self.wf(),
        ensures
            self.spec_graph().wf(),
            self.spec_states().len() == self.spec_graph().spec_num_nodes(),
            self.spec_tree().len() == self.spec_graph().spec_num_nodes(),
            spec_tree_ok(self.spec_tree()),
            self.spec_next() matches Some(node) ==> node < self.spec_graph().spec_num_nodes(),
    {
    }

    /// A search on `graph` along `elimination_tree`.
    pub fn new(graph: SingleDirBoundsGraph<'a>, elimination_tree: &'b [Option<NodeId>]) -> (r:
        FloatingTDSteppedEliminationTree<'a, 'b>)
        requires
            graph.wf(),
            elimination_tree@.len() == graph.spec_num_nodes(),
            spec_tree_ok(elimination_tree@),
        ensures
            r.wf(),
            r.spec_graph() == graph,
            r.spec_tree() == elimination_tree@,
            r.spec_next().is_none(),
            r.spec_origin_node().is_none(),
            forall|v: int| 0 <= v < r.spec_states().len() ==> #[trigger] r.spec_states()[v] == spec_unreached(),
    {
        let n = graph.num_nodes();
        FloatingTDSteppedEliminationTree {
            graph,
            distances: TimestampedVector::new(
                n,
                NodeData { labels: Vec::new(), lower_bound: INFINITY, upper_bound: INFINITY },
            ),
            elimination_tree,
            next: None,
            origin: None,
        }
    }

    /// Starts a search at `from`: nothing is known of any node but `from`,
    /// which is reached at once.
    pub fn initialize_query(&mut self, from: NodeId)
        requires
            old(self).wf(),
            from < old(self).spec_graph().spec_num_nodes(),
        ensures
            final(self).wf(),
            final(self).spec_graph() == old(self).spec_graph(),
            final(self).spec_tree() == old(self).spec_tree(),
            final(self).spec_next() == Some(from),
            final(self).spec_origin_node() == Some(from),
            final(self).spec_states().len() == old(self).spec_states().len(),
            final(self).spec_states()[from as int] == spec_origin(),
            forall|v: int|
                0 <= v < final(self).spec_states().len() && v != from ==> #[trigger] final(self).spec_states()[v] == spec_unreached(),
    {
        self.origin = Some(from);
        self.next = Some(from);
        self.distances.reset();
        self.distances.set(
            from as usize,
            NodeData { labels: Vec::new(), lower_bound: 0, upper_bound: 0 },
        );
    }

    /// Does one step: looks at every arc of the next node, and goes on to its parent.
    pub fn next_step(&mut self) -> (r: QueryProgress)
        requires
            old(self).wf(),
        ensures
            final(self).wf(),
            final(self).spec_graph() == old(self).spec_graph(),
            final(self).spec_tree() == old(self).spec_tree(),
            final(self).spec_origin_node() == old(self).spec_origin_node(),
            match old(self).spec_next() {
                None => r matches QueryProgress::Done && final(self).spec_next().is_none() && final(self).spec_states() == old(self).spec_states(),
                Some(node) => r matches QueryProgress::Progress(settled) && settled == node && final(self).spec_next() == old(self).spec_tree()[node as int] && final(self).spec_states()
                    == spec_settled(
                    old(self).spec_states(),
                    old(self).spec_graph(),
                    node as int,
                    old(self).spec_states()[node as int].lower_bound,
                    old(self).spec_states()[node as int].upper_bound,
                    old(self).spec_graph().spec_first_out()[node as int + 1] - old(self).spec_graph().spec_first_out()[node as int],
                ),
            },
    {
        self.settle_next_node()
    }

    /// Looks at every arc of the next node, and goes on to its parent.
    fn settle_next_node(&mut self) -> (r: QueryProgress)
        requires
            old(self).wf(),
        ensures
            final(self).wf(),
            final(self).spec_graph() == old(self).spec_graph(),
            final(self).spec_tree() == old(self).spec_tree(),
            final(self).spec_origin_node() == old(self).spec_origin_node(),
            match old(self).spec_next() {
                None => r matches QueryProgress::Done && final(self).spec_next().is_none() && final(self).spec_states() == old(self).spec_states(),
                Some(node) => r matches QueryProgress::Progress(settled) && settled == node && final(self).spec_next() == old(self).spec_tree()[node as int] && final(self).spec_states()
                    == spec_settled(
                    old(self).spec_states(),
                    old(self).spec_graph(),
                    node as int,
                    old(self).spec_states()[node as int].lower_bound,
                    old(self).spec_states()[node as int].upper_bound,
                    old(self).spec_graph().spec_first_out()[node as int + 1] - old(self).spec_graph().spec_first_out()[node as int],
                ),
            },
    {
        let node = match self.next {
            None => {
                return QueryProgress::Done;
            },
            Some(node) => node,
        };
        let ghost g = self.graph;
        let ghost start = self.spec_states();
        let current = self.distances.get(node as usize);
        let lower = current.lower_bound;
        let upper = current.upper_bound;
        self.next = self.elimination_tree[node as usize];
        let arcs = self.graph.neighbor_iter(node);
        let mut i: usize = 0;
        while i < arcs.len()
            invariant
                i <= arcs@.len(),
                self.graph == g,
                g.wf(),
                node < g.spec_num_nodes(),
                arcs@.len() == g.spec_first_out()[node as int + 1] - g.spec_first_out()[node as int],
                forall|j: int|
                    0 <= j < arcs@.len() ==> #[trigger] arcs@[j] == (
                        (
                            g.spec_head()[g.spec_first_out()[node as int] + j],
                            (g.spec_first_out()[node as int] + j) as EdgeId,
                        ),
                        g.spec_bounds()[g.spec_first_out()[node as int] + j],
                    ),
                self.distances.wf(),
                self.distances.spec_default()@ == spec_unreached(),
                self.distances@.len() == g.spec_num_nodes(),
                self.elimination_tree == old(self).elimination_tree,
                self.origin == old(self).origin,
                self.next == old(self).elimination_tree@[node as int],
                self.spec_states() == spec_settled(start, g, node as int, lower, upper, i as int),
            decreases arcs@.len() - i,
        {
            let ((target, shortcut_id), (arc_lower, arc_upper)) = arcs[i];
            let ghost e = g.spec_first_out()[node as int] + i;
            proof {
                assert(arcs@[i as int] == ((g.spec_head()[e], e as EdgeId), g.spec_bounds()[e]));
                assert(g.spec_head()[e] < g.spec_num_nodes()) by {
                    crate::graph::first_out_graph::lemma_offsets_monotone(
                        g.spec_first_out(),
                        g.spec_head().len() as int,
                        node as int + 1,
                        g.spec_first_out().len() - 1,
                    );
                }
            }
            let next = Label { parent: node, lower_bound: sat_add(arc_lower, lower), shortcut_id };
            let next_upper = sat_add(arc_upper, upper);
            let ghost before = self.spec_states();
            match relaxed(self.distances.get(target as usize), next, next_upper) {
                Some(data) => {
                    self.distances.set(target as usize, data);
                },
                None => {},
            }
            proof {
                assert(self.spec_states() =~= before.update(
                    target as int,
                    spec_relaxed(before[target as int], next, next_upper),
                ));
            }
            i += 1;
        }
        QueryProgress::Progress(node)
    }

    /// What is known of `node`.
    pub fn node_data(&self, node: NodeId) -> (r: &NodeData)
        requires
            self.wf(),
            node < self.spec_graph().spec_num_nodes(),
        ensures
            r@ == self.spec_states()[node as int],
    {
        self.distances.get(node as usize)
    }

    /// The parent of `node` in the elimination tree.
    pub fn parent(&self, node: NodeId) -> (r: Option<NodeId>)
        requires
            self.wf(),
            node < self.spec_graph().spec_num_nodes(),
        ensures
            r == self.spec_tree()[node as int],
    {
        self.elimination_tree[node as usize]
    }

    /// The node whose arcs are looked at next.
    pub fn peek_next(&self) -> (r: Option<NodeId>)
        ensures
            r == self.spec_next(),
    {
        self.next
    }

    /// Goes on to the parent of the next node without looking at its arcs.
    pub fn skip_next(&mut self)
        requires
            old(self).wf(),
        ensures
            final(self).wf(),
            final(self).spec_graph() == old(self).spec_graph(),
            final(self).spec_tree() == old(self).spec_tree(),
            final(self).spec_origin_node() == old(self).spec_origin_node(),
            final(self).spec_states() == old(self).spec_states(),
            final(self).spec_next() == (match old(self).spec_next() {
                Some(node) => old(self).spec_tree()[node as int],
                None => None,
            }),
    {
        if let Some(node) = self.next {
            self.next = self.elimination_tree[node as usize];
        }
    }
}

} // verus!
