//! The search on the elimination tree of a hierarchy with scalar weights:
//! from one node up to the root, the distance to every node on the way.
use vstd::prelude::*;
use crate::datastr::index_heap::State;
use crate::datastr::timestamped_vector::TimestampedVector;
use crate::graph::first_out_graph::{lemma_offsets_monotone, FirstOutGraph};
use crate::shortest_path::floating_td_stepped_elimination_tree::spec_tree_ok;
use crate::shortest_path::stepped_dijkstra::QueryProgress;
use crate::types::{sat_add, spec_sat_add, Link, NodeId, Weight, INFINITY};

verus! {

/// Distances and the nodes before, as values.
pub struct TreeState {
    pub dist: Seq<Weight>,
    pub pred: Seq<NodeId>,
}

/// The distances when a search starts at `from`: zero there, and no other node is reached.
pub open spec fn spec_start_distances(n: int, from: int) -> Seq<Weight> {
    Seq::new(
        n as nat,
        |v: int|
            if v == from {
                0u32
            } else {
                INFINITY
            },
    )
}

/// What is known after one more arc, from `node` at distance `distance`,
/// has been looked at: where the way across it is shorter than any known,
/// it is the way known from now on.
pub open spec fn spec_relaxed(st: TreeState, node: int, distance: Weight, link: Link) -> TreeState {
    let next = spec_sat_add(distance as int, link.weight as int) as Weight;
    if next < st.dist[link.node as int] {
        TreeState {
            dist: st.dist.update(link.node as int, next),
            pred: st.pred.update(link.node as int, node as NodeId),
        }
    } else {
        st
    }
}

/// What is known after the first `k` of the arcs `links` of `node` have been looked at.
pub open spec fn spec_settled(st: TreeState, node: int, distance: Weight, links: Seq<Link>, k: int) -> TreeState
    decreases k,
{
    if k <= 0 {
        st
    } else {
        spec_relaxed(spec_settled(st, node, distance, links, k - 1), node, distance, links[k - 1])
    }
}

/// What is known when the search has gone from `next` all the way to the root.
pub open spec fn spec_run(
    g: FirstOutGraph,
    tree: Seq<Option<NodeId>>,
    st: TreeState,
    next: Option<NodeId>,
) -> TreeState
    decreases
        (match next {
            Some(node) => tree.len() - node,
            None => 0,
        }),
{
    match next {
        None => st,
        Some(node) => {
            let after = spec_settled(
                st,
                node as int,
                st.dist[node as int],
                g.spec_links(node as int),
                g.spec_links(node as int).len() as int,
            );
            if node < tree.len() && (tree[node as int] matches Some(p) ==> node < p < tree.len()) {
                spec_run(g, tree, after, tree[node as int])
            } else {
                after
            }
        },
    }
}

/// The search from one node up the elimination tree.
#[derive(Debug)]
pub struct SteppedEliminationTree<'b> {
    graph: FirstOutGraph,
    distances: TimestampedVector<Weight>,
    predecessors: Vec<NodeId>,
    elimination_tree: &'b [Option<NodeId>],
    next: Option<NodeId>,
    origin: Option<NodeId>,
}

impl<'b> SteppedEliminationTree<'b> {
    /// The graph that is searched.
    pub closed spec fn spec_graph(&self) -> FirstOutGraph {
        self.graph
    }

    /// The parent of every node.
    pub closed spec fn spec_tree(&self) -> Seq<Option<NodeId>> {
        self.elimination_tree@
    }

    /// The node whose arcs are looked at next.
    pub closed spec fn spec_next(&self) -> Option<NodeId> {
        self.next
    }

    /// The node from which the search started.
    pub closed spec fn spec_origin_node(&self) -> Option<NodeId> {
        self.origin
    }

    /// What is known.
    pub closed spec fn spec_state(&self) -> TreeState {
        TreeState { dist: self.distances@, pred: self.predecessors@ }
    }

    /// Representation invariant: a graph and a tree on the same nodes, one
    /// cell per node, and the next node is a node.
    pub closed spec fn wf(&self) -> bool {
        &&& self.graph.wf()
        &&& self.distances.wf()
        &&& self.distances.spec_default() == INFINITY
        &&& self.distances@.len() == self.graph.spec_num_nodes()
        &&& self.predecessors@.len() == self.graph.spec_num_nodes()
        &&& self.elimination_tree@.len() == self.graph.spec_num_nodes()
        &&& spec_tree_ok(self.elimination_tree@)
        &&& (self.next matches Some(node) ==> node < self.graph.spec_num_nodes())
    }

    /// What being well formed means for a caller.
    pub proof fn lemma_wf(&self)
        requires
            self.wf(),
        ensures
            self.spec_graph().wf(),
            self.spec_state().dist.len() == self.spec_graph().spec_num_nodes(),
            self.spec_state().pred.len() == self.spec_graph().spec_num_nodes(),
            self.spec_tree().len() == self.spec_graph().spec_num_nodes(),
            spec_tree_ok(self.spec_tree()),
            self.spec_next() matches Some(node) ==> node < self.spec_graph().spec_num_nodes(),
    {
    }

    /// A search on `graph` along `elimination_tree`.
    pub fn new(graph: FirstOutGraph, elimination_tree: &'b [Option<NodeId>]) -> (r:
        SteppedEliminationTree<'b>)
        requires
            graph.wf(),
            elimination_tree@.len() == graph.spec_num_nodes(),
            spec_tree_ok(elimination_tree@),
        ensures
            r.wf(),
            r.spec_graph() == graph,
            r.spec_tree() == elimination_tree@,
            r.spec_next().is_none(),
            r.spec_origin_node().is_none(),
            forall|v: int| 0 <= v < r.spec_state().dist.len() ==> #[trigger] r.spec_state().dist[v] == INFINITY,
    {
        let n = graph.num_nodes();
        proof {
            graph.lemma_wf();
        }
        let mut predecessors: Vec<NodeId> = Vec::new();
        let mut i: usize = 0;
        while i < n
            invariant
                i <= n,
                n <= u32::MAX,
                predecessors@.len() == i,
            decreases n - i,
        {
            predecessors.push(n as NodeId);
            i += 1;
        }
        SteppedEliminationTree {
            graph,
            distances: TimestampedVector::new(n, INFINITY),
            predecessors,
            elimination_tree,
            next: None,
            origin: None,
        }
    }

    /// Starts a search at `from`: no node is reached but `from`, at distance zero.
    pub fn initialize_query(&mut self, from: NodeId)
        requires
            old(self).wf(),
            from < old(self).spec_graph().spec_num_nodes(),
        ensures
            final(self).wf(),
            final(self).spec_graph() == old(self).spec_graph(),
            final(self).spec_tree() == old(self).spec_tree(),
            final(self).spec_next() == Some(from),
            final(self).spec_origin_node() == Some(from),
            final(self).spec_state().pred == old(self).spec_state().pred,
            final(self).spec_state().dist.len() == old(self).spec_state().dist.len(),
            final(self).spec_state().dist[from as int] == 0,
            forall|v: int|
                0 <= v < final(self).spec_state().dist.len() && v != from ==> #[trigger] final(self).spec_state().dist[v]
                    == INFINITY,
    {
        self.origin = Some(from);
        self.next = Some(from);
        self.distances.reset();
        self.distances.set(from as usize, 0);
    }

    /// Does one step: looks at every arc of the next node, and goes on to its parent.
    pub fn next_step(&mut self) -> (r: QueryProgress)
        requires
            old(self).wf(),
        ensures
            final(self).wf(),
            final(self).spec_graph() == old(self).spec_graph(),
            final(self).spec_tree() == old(self).spec_tree(),
            final(self).spec_origin_node() == old(self).spec_origin_node(),
            match old(self).spec_next() {
                None => r matches QueryProgress::Done(None) && final(self).spec_next().is_none()
                    && final(self).spec_state() == old(self).spec_state(),
                Some(node) => r matches QueryProgress::Progress(settled) && settled.node == node
                    && settled.distance == old(self).spec_state().dist[node as int] && final(self).spec_next()
                    == old(self).spec_tree()[node as int] && final(self).spec_state() == spec_settled(
                    old(self).spec_state(),
                    node as int,
                    old(self).spec_state().dist[node as int],
                    old(self).spec_graph().spec_links(node as int),
                    old(self).spec_graph().spec_links(node as int).len() as int,
                ),
            },
    {
        self.settle_next_node()
    }

    /// Looks at every arc of the next node, and goes on to its parent.
    fn settle_next_node(&mut self) -> (r: QueryProgress)
        requires
            old(self).wf(),
        ensures
            final(self).wf(),
            final(self).spec_graph() == old(self).spec_graph(),
            final(self).spec_tree() == old(self).spec_tree(),
            final(self).spec_origin_node() == old(self).spec_origin_node(),
            match old(self).spec_next() {
                None => r matches QueryProgress::Done(None) && final(self).spec_next().is_none()
                    && final(self).spec_state() == old(self).spec_state(),
                Some(node) => r matches QueryProgress::Progress(settled) && settled.node == node
                    && settled.distance == old(self).spec_state().dist[node as int] && final(self).spec_next()
                    == old(self).spec_tree()[node as int] && final(self).spec_state() == spec_settled(
                    old(self).spec_state(),
                    node as int,
                    old(self).spec_state().dist[node as int],
                    old(self).spec_graph().spec_links(node as int),
                    old(self).spec_graph().spec_links(node as int).len() as int,
                ),
            },
    {
        let node = match self.next {
            None => {
                return QueryProgress::Done(None);
            },
            Some(node) => node,
        };
        let ghost g = self.graph;
        let ghost start = self.spec_state();
        let distance = *self.distances.get(node as usize);
        self.next = self.elimination_tree[node as usize];
        let links = self.graph.neighbor_iter(node);
        let n = self.graph.num_nodes();
        let mut i: usize = 0;
        while i < links.len()
            invariant
                i <= links@.len(),
                self.graph == g,
                g.wf(),
                n == g.spec_num_nodes(),
                node < n,
                links@ == g.spec_links(node as int),
                self.distances.wf(),
                self.distances.spec_default() == INFINITY,
                self.distances@.len() == n,
                self.predecessors@.len() == n,
                self.elimination_tree == old(self).elimination_tree,
                self.origin == old(self).origin,
                self.next == old(self).elimination_tree@[node as int],
                self.spec_state() == spec_settled(start, node as int, distance, links@, i as int),
            decreases links@.len() - i,
        {
            let link = links[i];
            proof {
                g.lemma_wf();
                assert(g.spec_first_out()[node as int] <= g.spec_first_out()[node as int + 1]);
                lemma_offsets_monotone(
                    g.spec_first_out(),
                    g.spec_head().len() as int,
                    node as int + 1,
                    g.spec_first_out().len() - 1,
                );
                assert(link.node == g.spec_head()[g.spec_first_out()[node as int] + i]);
            }
            let next = sat_add(distance, link.weight);
            if next < *self.distances.get(link.node as usize) {
                self.distances.set(link.node as usize, next);
                self.predecessors[link.node as usize] = node;
            }
            i += 1;
        }
        QueryProgress::Progress(State { distance, node })
    }

    /// Goes all the way to the root.
    pub fn run(&mut self)
        requires
            old(self).wf(),
        ensures
            final(self).wf(),
            final(self).spec_graph() == old(self).spec_graph(),
            final(self).spec_tree() == old(self).spec_tree(),
            final(self).spec_origin_node() == old(self).spec_origin_node(),
            final(self).spec_next().is_none(),
            final(self).spec_state() == spec_run(
                old(self).spec_graph(),
                old(self).spec_tree(),
                old(self).spec_state(),
                old(self).spec_next(),
            ),
    {
        let ghost g = self.graph;
        let ghost tree = self.elimination_tree@;
        let ghost goal = spec_run(g, tree, self.spec_state(), self.next);
        while self.next.is_some()
            invariant
                self.wf(),
                self.graph == g,
                self.elimination_tree@ == tree,
                self.origin == old(self).origin,
                goal == spec_run(g, tree, self.spec_state(), self.next),
            decreases
                    (match self.next {
                        Some(node) => tree.len() - node,
                        None => 0,
                    }),
        {
            self.settle_next_node();
        }
    }

    /// The node whose arcs are looked at next.
    pub fn next(&self) -> (r: Option<NodeId>)
        ensures
            r == self.spec_next(),
    {
        self.next
    }

    /// The parent of `node` in the elimination tree.
    pub fn parent(&self, node: NodeId) -> (r: Option<NodeId>)
        requires
            self.wf(),
            node < self.spec_graph().spec_num_nodes(),
        ensures
            r == self.spec_tree()[node as int],
    {
        self.elimination_tree[node as usize]
    }

    /// The distance to `node` that is known; `INFINITY` if none is.
    pub fn tentative_distance(&self, node: NodeId) -> (d: Weight)
        requires
            self.wf(),
            node < self.spec_graph().spec_num_nodes(),
        ensures
            d == self.spec_state().dist[node as int],
    {
        *self.distances.get(node as usize)
    }

    /// The node before `node` on the shortest way to it that is known.
    pub fn predecessor(&self, node: NodeId) -> (p: NodeId)
        requires
            self.wf(),
            node < self.spec_graph().spec_num_nodes(),
        ensures
            p == self.spec_state().pred[node as int],
    {
        self.predecessors[node as usize]
    }

    /// The node from which the search started.
    pub fn origin(&self) -> (r: NodeId)
        requires
            self.spec_origin_node().is_some(),
        ensures
            Some(r) == self.spec_origin_node(),
    {
        match self.origin {
            Some(origin) => origin,
            None => 0,
        }
    }

    /// The graph that is searched.
    pub fn graph(&self) -> (g: &FirstOutGraph)
        ensures
            *g == self.spec_graph(),
    {
        &self.graph
    }
}

} // verus!
