//! Answers queries on a weighted hierarchy.  An interval search from the
//! source and one from the target, both up the elimination tree, bound the
//! travel time and name the arcs over which a shortest path may lead; a
//! search on the original graph along those arcs finds the answer.
use vstd::prelude::*;
use crate::datastr::node_order::NodeOrder;
use crate::datastr::rank_select_map::BitVec;
use crate::graph::customized::CustomizedGraph;
use crate::graph::marking::spec_marks;
use crate::graph::shortcut::{Marks, ShortcutModel};
use crate::graph::td_graph::Graph as TDGraph;
use crate::shortest_path::corridor::{corridor, spec_corridor, spec_path_up, spec_upper};
use crate::shortest_path::floating_td_stepped_elimination_tree::{
    spec_tree_ok, FloatingTDSteppedEliminationTree, NodeState, QueryProgress as TreeProgress,
};
use crate::shortest_path::interval_bounds::{spec_climbed, spec_rest, spec_start};
use crate::shortest_path::label_marks::{
    lemma_walked_marks, mark_labels, spec_label_done, spec_named_from, spec_walked,
};
use crate::shortest_path::search_state::spec_tree_path;
use crate::shortest_path::stepped_dijkstra::QueryProgress;
use crate::shortest_path::td_stepped_dijkstra::{
    lemma_same_answer, spec_answer_within, TDSteppedDijkstra,
};
use crate::types::{NodeId, TDQuery, Timestamp, Weight, INFINITY};

verus! {

/// Whether a label of the forward or of the backward search, at a node to
/// which the labels lead from `node`, names an arc that rests on the
/// original arc `edge`.
pub open spec fn spec_named_at(
    model: ShortcutModel,
    forward: Seq<NodeState>,
    backward: Seq<NodeState>,
    node: int,
    edge: int,
) -> bool {
    spec_named_from(model, forward, true, node, edge) || spec_named_from(
        model,
        backward,
        false,
        node,
        edge,
    )
}

/// Whether the original arc `edge` lies under a label that one of the
/// first `k` nodes of `nodes` leads to.
pub open spec fn spec_corridor_arc(
    model: ShortcutModel,
    forward: Seq<NodeState>,
    backward: Seq<NodeState>,
    nodes: Seq<NodeId>,
    k: int,
    edge: int,
) -> bool {
    exists|j: int| 0 <= j < k && #[trigger] spec_named_at(model, forward, backward, nodes[j] as int, edge)
}

/// Runs an interval search from `from` up to the root.
fn climb(search: &mut FloatingTDSteppedEliminationTree, from: NodeId)
    requires
        old(search).wf(),
        from < old(search).spec_graph().spec_num_nodes(),
    ensures
        final(search).wf(),
        final(search).spec_graph() == old(search).spec_graph(),
        final(search).spec_tree() == old(search).spec_tree(),
        final(search).spec_states() == spec_climbed(
            spec_start(old(search).spec_graph().spec_num_nodes(), from as int),
            old(search).spec_graph(),
            old(search).spec_tree(),
            from as int,
        ),
{
    let ghost g = search.spec_graph();
    let ghost tree = search.spec_tree();
    let ghost n = g.spec_num_nodes();
    let ghost goal = spec_climbed(spec_start(n, from as int), g, tree, from as int);
    proof {
        search.lemma_wf();
    }
    search.initialize_query(from);
    proof {
        search.lemma_wf();
        assert(search.spec_states() =~= spec_start(n, from as int));
    }
    loop
        invariant_except_break
            spec_rest(search.spec_states(), g, tree, search.spec_next()) == goal,
        invariant
            search.wf(),
            search.spec_graph() == g,
            search.spec_tree() == tree,
            n == g.spec_num_nodes(),
        ensures
            search.spec_states() == goal,
        decreases
                (match search.spec_next() {
                    Some(node) => n - node + 1,
                    None => 0,
                }),
    {
        proof {
            search.lemma_wf();
        }
        match search.next_step() {
            TreeProgress::Progress(_) => {},
            TreeProgress::Done => {
                break ;
            },
        }
    }
}

/// Runs a search that has been set up until it is over.
fn finish(dijkstra: &mut TDSteppedDijkstra) -> (r: Option<Weight>)
    requires
        old(dijkstra).ready(),
    ensures
        final(dijkstra).ready(),
        final(dijkstra).spec_graph() == old(dijkstra).spec_graph(),
        final(dijkstra).spec_query() == old(dijkstra).spec_query(),
        final(dijkstra).spec_allowed() == old(dijkstra).spec_allowed(),
        final(dijkstra).spec_result() == Some(r),
{
    let ghost g = dijkstra.spec_graph();
    loop
        invariant
            dijkstra.ready(),
            dijkstra.spec_graph() == g,
            g == old(dijkstra).spec_graph(),
            dijkstra.spec_query() == old(dijkstra).spec_query(),
            dijkstra.spec_allowed() == old(dijkstra).spec_allowed(),
        decreases
                g.spec_num_nodes() - dijkstra.spec_num_settled() + if dijkstra.spec_result().is_none() {
                    1int
                } else {
                    0int
                },
    {
        let ghost before = *dijkstra;
        proof {
            dijkstra.lemma_num_settled();
        }
        match dijkstra.next_step() {
            QueryProgress::Progress(_) => {
                proof {
                    before.lemma_num_settled();
                    dijkstra.lemma_num_settled();
                }
            },
            QueryProgress::Done(result) => {
                return result;
            },
        }
    }
}

/// Marks the original arcs under the labels to which the labels of the
/// two searches lead from the nodes of the corridor.
fn corridor_arcs(
    customized: &CustomizedGraph,
    forward: &FloatingTDSteppedEliminationTree,
    backward: &FloatingTDSteppedEliminationTree,
    nodes: &Vec<NodeId>,
    n: usize,
) -> (r: BitVec)
    requires
        customized.wf(),
        forward.wf(),
        backward.wf(),
        n == forward.spec_states().len(),
        n == backward.spec_states().len(),
        forall|i: int| 0 <= i < nodes@.len() ==> (#[trigger] nodes@[i]) < n,
        2 * customized.spec_dir(true).spec_num_arcs() <= usize::MAX,
        2 * customized.spec_dir(false).spec_num_arcs() <= usize::MAX,
    ensures
        r.wf(),
        r@.len() == customized.spec_original().spec_num_arcs(),
        forall|edge: int|
            0 <= edge < r@.len() ==> #[trigger] r@[edge] == spec_corridor_arc(
                customized.model(),
                forward.spec_states(),
                backward.spec_states(),
                nodes@,
                nodes@.len() as int,
                edge,
            ),
{
    let ghost model = customized.model();
    let ghost fs = forward.spec_states();
    let ghost bs = backward.spec_states();
    proof {
        customized.lemma_sizes(true);
        customized.lemma_sizes(false);
    }
    let up_arcs = customized.dir(true).head().len();
    let down_arcs = customized.dir(false).head().len();
    let room = 2 * (if up_arcs >= down_arcs {
        up_arcs
    } else {
        down_arcs
    });
    let mut seen_forward = BitVec::new(n);
    let mut seen_backward = BitVec::new(n);
    let mut unpacked_shortcuts = BitVec::new(room);
    let mut original_edges = BitVec::new(customized.original().num_arcs());
    proof {
        let marks = spec_marks(unpacked_shortcuts, original_edges);
        assert forall|up: bool, e: int, i: int|
            0 <= e < model.arcs(up).len() && marks.marked(up, e) && 0 <= i
                < model.arcs(up)[e].sources.len() implies #[trigger] model.source_marked(
            marks,
            up,
            e,
            i,
        ) by {
            assert(!marks.shortcuts[Marks::index(up, e)]);
        }
    }
    let count = nodes.len();
    let mut k: usize = 0;
    while k < count
        invariant
            k <= count,
            count == nodes@.len(),
            customized.wf(),
            forward.wf(),
            backward.wf(),
            model == customized.model(),
            model.wf(),
            fs == forward.spec_states(),
            bs == backward.spec_states(),
            n == fs.len(),
            n == bs.len(),
            forall|i: int| 0 <= i < nodes@.len() ==> (#[trigger] nodes@[i]) < n,
            seen_forward.wf(),
            seen_forward@.len() == n,
            seen_backward.wf(),
            seen_backward@.len() == n,
            unpacked_shortcuts.wf(),
            original_edges.wf(),
            model.has_room(spec_marks(unpacked_shortcuts, original_edges)),
            model.closed(spec_marks(unpacked_shortcuts, original_edges)),
            spec_walked(
                model,
                fs,
                true,
                seen_forward@,
                spec_marks(unpacked_shortcuts, original_edges),
                Set::empty(),
            ),
            spec_walked(
                model,
                bs,
                false,
                seen_backward@,
                spec_marks(unpacked_shortcuts, original_edges),
                Set::empty(),
            ),
            forall|j: int|
                0 <= j < k ==> seen_forward@[(#[trigger] nodes@[j]) as int] && seen_backward@[nodes@[j] as int],
            forall|edge: int|
                0 <= edge < original_edges@.len() && #[trigger] original_edges@[edge]
                    ==> spec_corridor_arc(model, fs, bs, nodes@, k as int, edge),
        decreases count - k,
    {
        let node = nodes[k];
        let ghost before = spec_marks(unpacked_shortcuts, original_edges);
        mark_labels(
            customized,
            forward,
            true,
            node,
            &mut seen_forward,
            &mut unpacked_shortcuts,
            &mut original_edges,
        );
        let ghost middle = spec_marks(unpacked_shortcuts, original_edges);
        proof {
            assert forall|v: int, i: int|
                0 <= v < bs.len() && seen_backward@[v] && 0 <= i
                    < bs[v].labels.len() implies #[trigger] spec_label_done(
                model,
                bs,
                false,
                seen_backward@,
                middle,
                v,
                i,
            ) by {
                assert(spec_label_done(model, bs, false, seen_backward@, before, v, i));
            }
        }
        let ghost seen_before = seen_forward@;
        mark_labels(
            customized,
            backward,
            false,
            node,
            &mut seen_backward,
            &mut unpacked_shortcuts,
            &mut original_edges,
        );
        proof {
            let after = spec_marks(unpacked_shortcuts, original_edges);
            assert forall|v: int, i: int|
                0 <= v < fs.len() && seen_forward@[v] && 0 <= i
                    < fs[v].labels.len() implies #[trigger] spec_label_done(
                model,
                fs,
                true,
                seen_forward@,
                after,
                v,
                i,
            ) by {
                assert(spec_label_done(model, fs, true, seen_forward@, middle, v, i));
            }
            assert forall|edge: int|
                0 <= edge < original_edges@.len() && #[trigger] original_edges@[edge] implies spec_corridor_arc(
                model,
                fs,
                bs,
                nodes@,
                k as int + 1,
                edge,
            ) by {
                if before.originals[edge] {
                    let j = choose|j: int|
                        0 <= j < k && #[trigger] spec_named_at(model, fs, bs, nodes@[j] as int, edge);
                    assert(spec_named_at(model, fs, bs, nodes@[j] as int, edge));
                } else {
                    assert(spec_named_at(model, fs, bs, nodes@[k as int] as int, edge));
                }
            }
        }
        k += 1;
    }
    proof {
        let marks = spec_marks(unpacked_shortcuts, original_edges);
        assert forall|edge: int| 0 <= edge < original_edges@.len() implies #[trigger] original_edges@[edge]
            == spec_corridor_arc(model, fs, bs, nodes@, nodes@.len() as int, edge) by {
            if spec_corridor_arc(model, fs, bs, nodes@, nodes@.len() as int, edge) {
                let j = choose|j: int|
                    0 <= j < nodes@.len() && #[trigger] spec_named_at(
                        model,
                        fs,
                        bs,
                        nodes@[j] as int,
                        edge,
                    );
                if spec_named_from(model, fs, true, nodes@[j] as int, edge) {
                    lemma_walked_marks(model, fs, true, seen_forward@, marks, nodes@[j] as int, edge);
                } else {
                    lemma_walked_marks(model, bs, false, seen_backward@, marks, nodes@[j] as int, edge);
                }
            }
        }
    }
    original_edges
}

/// A server that answers earliest arrival queries on a weighted hierarchy.
pub struct Server<'a> {
    customized: &'a CustomizedGraph<'a>,
    order: &'a NodeOrder,
    forward: FloatingTDSteppedEliminationTree<'a, 'a>,
    backward: FloatingTDSteppedEliminationTree<'a, 'a>,
    dijkstra: TDSteppedDijkstra,
    upper_bound: Weight,
    corridor: Vec<NodeId>,
}

impl<'a> Server<'a> {
    /// The weighted hierarchy.
    pub closed spec fn spec_customized(&self) -> CustomizedGraph<'a> {
        *self.customized
    }

    /// The ranks of the nodes.
    pub closed spec fn spec_order(&self) -> NodeOrder {
        *self.order
    }

    /// The interval search from the source.
    pub closed spec fn spec_forward(&self) -> FloatingTDSteppedEliminationTree<'a, 'a> {
        self.forward
    }

    /// The interval search from the target.
    pub closed spec fn spec_backward(&self) -> FloatingTDSteppedEliminationTree<'a, 'a> {
        self.backward
    }

    /// The search on the original graph.
    pub closed spec fn spec_dijkstra(&self) -> TDSteppedDijkstra {
        self.dijkstra
    }

    /// The upper bound on the travel time that the interval searches of the last query gave.
    pub closed spec fn spec_upper_bound(&self) -> Weight {
        self.upper_bound
    }

    /// The nodes over which a shortest path of the last query may lead, as ranks.
    pub closed spec fn spec_corridor_nodes(&self) -> Seq<NodeId> {
        self.corridor@
    }

    /// The original graph.
    pub open spec fn spec_graph(&self) -> TDGraph {
        self.spec_dijkstra().spec_graph()
    }

    /// Whether the server is in order: its parts are, the interval
    /// searches run on the bounds of the upward and of the downward arcs of
    /// the hierarchy, along one tree, the last search runs on a graph
    /// that is the same as the original graph of the hierarchy, all of
    /// them speak of the same nodes, and two marks for every arc can be counted.
    pub open spec fn wf(&self) -> bool {
        let customized = self.spec_customized();
        let forward = self.spec_forward().spec_graph();
        let backward = self.spec_backward().spec_graph();
        &&& customized.wf()
        &&& self.spec_order().wf()
        &&& self.spec_forward().wf()
        &&& self.spec_backward().wf()
        &&& self.spec_dijkstra().wf()
        &&& self.spec_graph().spec_same(customized.spec_original())
        &&& forward.spec_first_out() == customized.spec_dir(true).spec_first_out()
        &&& forward.spec_head() == customized.spec_dir(true).spec_head()
        &&& forward.spec_bounds() == customized.spec_dir(true).spec_bounds()
        &&& backward.spec_first_out() == customized.spec_dir(false).spec_first_out()
        &&& backward.spec_head() == customized.spec_dir(false).spec_head()
        &&& backward.spec_bounds() == customized.spec_dir(false).spec_bounds()
        &&& self.spec_forward().spec_tree() == self.spec_backward().spec_tree()
        &&& self.spec_order().spec_order().len() == self.spec_graph().spec_num_nodes()
        &&& forward.spec_num_nodes() == self.spec_graph().spec_num_nodes()
        &&& backward.spec_num_nodes() == self.spec_graph().spec_num_nodes()
        &&& 2 * customized.spec_dir(true).spec_num_arcs() <= usize::MAX
        &&& 2 * customized.spec_dir(false).spec_num_arcs() <= usize::MAX
    }

    /// A server for the hierarchy `customized` with the elimination tree
    /// `elimination_tree` and the ranks `order`; `graph` is the same as
    /// the original graph of the hierarchy.
    pub fn new(
        customized: &'a CustomizedGraph<'a>,
        elimination_tree: &'a [Option<NodeId>],
        order: &'a NodeOrder,
        graph: TDGraph,
    ) -> (r: Server<'a>)
        requires
            customized.wf(),
            order.wf(),
            graph.wf(),
            graph.spec_same(customized.spec_original()),
            spec_tree_ok(elimination_tree@),
            elimination_tree@.len() == graph.spec_num_nodes(),
            order.spec_order().len() == graph.spec_num_nodes(),
            customized.spec_dir(true).spec_num_nodes() == graph.spec_num_nodes(),
            2 * customized.spec_dir(true).spec_num_arcs() <= usize::MAX,
            2 * customized.spec_dir(false).spec_num_arcs() <= usize::MAX,
        ensures
            r.wf(),
            r.spec_customized() == *customized,
            r.spec_order() == *order,
            r.spec_graph() == graph,
            r.spec_forward().spec_tree() == elimination_tree@,
    {
        proof {
            customized.lemma_sizes(true);
            customized.lemma_nodes();
        }
        let forward = FloatingTDSteppedEliminationTree::new(
            customized.upward_bounds_graph(),
            elimination_tree,
        );
        let backward = FloatingTDSteppedEliminationTree::new(
            customized.downward_bounds_graph(),
            elimination_tree,
        );
        Server {
            customized,
            order,
            forward,
            backward,
            dijkstra: TDSteppedDijkstra::new(graph),
            upper_bound: INFINITY,
            corridor: Vec::new(),
        }
    }

    /// The travel time from `from` to `to` when leaving at
    /// `departure_time`, along an earliest path among those that take only
    /// original arcs under the labels of the corridor; nothing where no
    /// such path arrives before `INFINITY`.
    ///
    /// The interval searches start at the ranks of `from` and of `to` and
    /// run to the root.  The corridor holds the nodes on the way from the
    /// source to the root whose lower bound is not above the least upper
    /// bound.  An original arc may be taken if and only if it lies under a
    /// label to which the labels of one of the two searches lead from a
    /// node of the corridor.
    pub fn distance(&mut self, from: NodeId, to: NodeId, departure_time: Timestamp) -> (r: Option<
        Weight,
    >)
        requires
            old(self).wf(),
            from < old(self).spec_graph().spec_num_nodes(),
            to < old(self).spec_graph().spec_num_nodes(),
            departure_time < INFINITY,
        ensures
            final(self).wf(),
            final(self).spec_customized() == old(self).spec_customized(),
            final(self).spec_order() == old(self).spec_order(),
            final(self).spec_graph() == old(self).spec_graph(),
            final(self).spec_forward().spec_graph() == old(self).spec_forward().spec_graph(),
            final(self).spec_backward().spec_graph() == old(self).spec_backward().spec_graph(),
            final(self).spec_forward().spec_tree() == old(self).spec_forward().spec_tree(),
            final(self).spec_forward().spec_states() == spec_climbed(
                spec_start(
                    old(self).spec_graph().spec_num_nodes(),
                    old(self).spec_order().spec_ranks()[from as int] as int,
                ),
                old(self).spec_forward().spec_graph(),
                old(self).spec_forward().spec_tree(),
                old(self).spec_order().spec_ranks()[from as int] as int,
            ),
            final(self).spec_backward().spec_states() == spec_climbed(
                spec_start(
                    old(self).spec_graph().spec_num_nodes(),
                    old(self).spec_order().spec_ranks()[to as int] as int,
                ),
                old(self).spec_backward().spec_graph(),
                old(self).spec_forward().spec_tree(),
                old(self).spec_order().spec_ranks()[to as int] as int,
            ),
            final(self).spec_upper_bound() as int == spec_upper(
                final(self).spec_forward().spec_states(),
                final(self).spec_backward().spec_states(),
                spec_path_up(
                    old(self).spec_forward().spec_tree(),
                    old(self).spec_order().spec_ranks()[from as int] as int,
                ),
                spec_path_up(
                    old(self).spec_forward().spec_tree(),
                    old(self).spec_order().spec_ranks()[from as int] as int,
                ).len() as int,
            ),
            final(self).spec_corridor_nodes() == spec_corridor(
                final(self).spec_forward().spec_states(),
                final(self).spec_backward().spec_states(),
                spec_path_up(
                    old(self).spec_forward().spec_tree(),
                    old(self).spec_order().spec_ranks()[from as int] as int,
                ),
                final(self).spec_upper_bound() as int,
                spec_path_up(
                    old(self).spec_forward().spec_tree(),
                    old(self).spec_order().spec_ranks()[from as int] as int,
                ).len() as int,
            ),
            final(self).spec_dijkstra().spec_allowed().len() == old(self).spec_graph().spec_num_arcs(),
            forall|edge: int|
                0 <= edge < old(self).spec_graph().spec_num_arcs() ==> #[trigger] final(self).spec_dijkstra().spec_allowed()[edge]
                    == spec_corridor_arc(
                    old(self).spec_customized().model(),
                    final(self).spec_forward().spec_states(),
                    final(self).spec_backward().spec_states(),
                    final(self).spec_corridor_nodes(),
                    final(self).spec_corridor_nodes().len() as int,
                    edge,
                ),
            final(self).spec_dijkstra().ready(),
            final(self).spec_dijkstra().spec_query() == Some(
                TDQuery { from, to, departure: departure_time },
            ),
            final(self).spec_dijkstra().spec_result() == Some(r),
            spec_answer_within(
                old(self).spec_graph(),
                final(self).spec_dijkstra().spec_allowed(),
                TDQuery { from, to, departure: departure_time },
                r,
            ),
            spec_answer_within(
                old(self).spec_customized().spec_original(),
                final(self).spec_dijkstra().spec_allowed(),
                TDQuery { from, to, departure: departure_time },
                r,
            ),
            r matches Some(d) ==> old(self).spec_graph().spec_reaches(
                from as int,
                departure_time as int,
                to as int,
                departure_time + d,
            ),
            from == to ==> r == Some(0u32),
    {
        let ghost g = self.spec_graph();
        let ghost model = self.spec_customized().model();
        let ghost n = g.spec_num_nodes();
        let query = TDQuery { from, to, departure: departure_time };
        proof {
            self.customized.lemma_sizes(true);
            self.customized.lemma_sizes(false);
            self.forward.lemma_wf();
            self.backward.lemma_wf();
            self.dijkstra.lemma_wf();
        }
        let source = self.order.rank(from);
        let target = self.order.rank(to);
        climb(&mut self.forward, source);
        climb(&mut self.backward, target);
        let (upper, nodes) = corridor(&self.forward, &self.backward, source);
        self.upper_bound = upper;
        self.corridor = nodes;
        let ghost fs = self.forward.spec_states();
        let ghost bs = self.backward.spec_states();
        proof {
            self.forward.lemma_wf();
            self.backward.lemma_wf();
        }
        let n = self.dijkstra.graph().num_nodes();
        let original_edges = corridor_arcs(
            self.customized,
            &self.forward,
            &self.backward,
            &self.corridor,
            n,
        );
        self.dijkstra.initialize_query_within(query, original_edges);
        let r = finish(&mut self.dijkstra);
        proof {
            self.dijkstra.lemma_ready();
            let allowed = self.dijkstra.spec_allowed();
            g.lemma_wf();
            lemma_same_answer(g, self.customized.spec_original(), allowed, query, r);
            g.lemma_reaches_within_start(allowed, from as int, departure_time as int);
            if let Some(d) = r {
                g.lemma_within_reaches(
                    allowed,
                    from as int,
                    departure_time as int,
                    to as int,
                    departure_time + d,
                );
            }
        }
        r
    }

    /// The upper bound on the travel time that the interval searches of the last query gave.
    pub fn upper_bound(&self) -> (r: Weight)
        ensures
            r == self.spec_upper_bound(),
    {
        self.upper_bound
    }

    /// The nodes over which a shortest path of the last query may lead, as ranks.
    pub fn corridor(&self) -> (r: &Vec<NodeId>)
        ensures
            r@ == self.spec_corridor_nodes(),
    {
        &self.corridor
    }

    /// Whether the last search was allowed to take the original arc `edge`.
    pub fn is_in_corridor(&self, edge: usize) -> (b: bool)
        requires
            self.wf(),
            edge < self.spec_graph().spec_num_arcs(),
        ensures
            b == self.spec_dijkstra().spec_allowed()[edge as int],
    {
        self.dijkstra.may_take(edge)
    }

    /// Whether the last search reached `node`.
    pub fn is_in_searchspace(&self, node: NodeId) -> (b: bool)
        requires
            self.wf(),
            node < self.spec_graph().spec_num_nodes(),
        ensures
            b == (self.spec_dijkstra().spec_state().dist[node as int] < INFINITY),
    {
        self.dijkstra.tentative_distance(node) < INFINITY
    }

    /// The nodes of the path that the last search found, from the source to the target.
    pub fn path(&self) -> (r: Vec<NodeId>)
        requires
            self.spec_dijkstra().ready(),
            self.spec_dijkstra().spec_result() matches Some(Some(_)),
        ensures
            spec_tree_path(
                self.spec_graph(),
                self.spec_dijkstra().spec_state(),
                self.spec_dijkstra().spec_query().unwrap().from as int,
                self.spec_dijkstra().spec_query().unwrap().to as int,
                r@,
            ),
    {
        self.dijkstra.path()
    }
}

} // verus!
