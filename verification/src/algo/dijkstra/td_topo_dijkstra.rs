//! A goal directed search on a time-dependent graph that walks chains of
//! nodes of low degree at once, without the queue.
use vstd::prelude::*;
use crate::algo::ch_potentials::{spec_bounds_of, Potential, ZeroPotential};
use crate::algo::topo_state::{
    lemma_topo_answer, lemma_topo_done, lemma_topo_endpoint, lemma_topo_improve,
    lemma_topo_improve_sound, lemma_topo_initial, lemma_topo_narrow, lemma_topo_pop,
    lemma_measure_range, lemma_topo_skip, lemma_total_update, lemma_waiting_update,
    lemma_zero_is_consistent, spec_consistent, spec_improved, spec_measure, spec_topo_inv, Bounds,
    Exempt, Frontier,
};
use crate::datastr::index_heap::{IndexdMinHeap, State};
use crate::datastr::timestamped_vector::TimestampedVector;
use crate::graph::td_graph::Graph as TDGraph;
use crate::shortest_path::stepped_dijkstra::QueryProgress;
use crate::shortest_path::td_stepped_dijkstra::spec_answer;
use crate::types::{EdgeId, NodeId, TDQuery, Timestamp, Weight, INFINITY};

verus! {

/// The search.  Nodes are taken from the queue in the order of their
/// arrival plus their bound.  From a node that is reached earlier than
/// before and has one arc that does not lead back, the search goes on
/// along that arc at once.
pub struct TDTopoDijkstra {
    graph: TDGraph,
    distances: TimestampedVector<Weight>,
    predecessors: Vec<NodeId>,
    closest_node_priority_queue: IndexdMinHeap,
    query: Option<TDQuery>,
    result: Option<Option<Weight>>,
    num_relaxed_arcs: usize,
}

/// Whether `answer` is the travel time of a path from the start to the
/// target that arrives no earlier than the target is known to be reached;
/// or nothing, and the target is not reached.
pub open spec fn spec_known(g: TDGraph, query: TDQuery, st: Frontier, answer: Option<Weight>) -> bool {
    match answer {
        Some(d) => st.dist[query.to as int] <= query.departure + d && query.departure + d < INFINITY
            && g.spec_reaches(
            query.from as int,
            query.departure as int,
            query.to as int,
            query.departure + d,
        ),
        None => st.dist[query.to as int] == INFINITY,
    }
}

/// The answer that a search gives when it ends with the state `st`: the
/// travel time to the arrival known at the target, or nothing where the
/// target is not reached.
pub open spec fn spec_found(query: TDQuery, st: Frontier) -> Option<Weight> {
    if st.dist[query.to as int] < INFINITY {
        Some((st.dist[query.to as int] - query.departure) as Weight)
    } else {
        None
    }
}

/// Whether no node is in the queue.
pub open spec fn spec_queue_empty(st: Frontier) -> bool {
    forall|v: int| 0 <= v < st.queue.len() ==> (#[trigger] st.queue[v]).is_none()
}

/// What one step does, from the state `before` with the result `result`
/// to the state `after`.  A search that is over hands its answer out
/// and changes nothing.  With nothing in the queue the search ends with
/// the arrival known at the target, and changes nothing.  Else the step
/// takes a node with the least key from the queue and hands it out with
/// the arrival known at it; the node is not in the queue afterwards, no
/// arrival known is later than before, and less is left to do.
pub open spec fn spec_step(
    query: TDQuery,
    result: Option<Option<Weight>>,
    before: Frontier,
    after: Frontier,
    r: QueryProgress,
) -> bool {
    match r {
        QueryProgress::Done(answer) => {
            &&& after == before
            &&& result.is_some() || spec_queue_empty(before)
            &&& answer == (match result {
                Some(stored) => stored,
                None => spec_found(query, before),
            })
        },
        QueryProgress::Progress(state) => {
            &&& result.is_none()
            &&& state.node < before.queue.len()
            &&& before.queue[state.node as int].is_some()
            &&& forall|v: int|
                0 <= v < before.queue.len() && (#[trigger] before.queue[v]).is_some()
                    ==> before.queue[state.node as int].unwrap() <= before.queue[v].unwrap()
            &&& state.distance == before.dist[state.node as int]
            &&& after.queue[state.node as int].is_none()
            &&& after.dist.len() == before.dist.len()
            &&& forall|v: int| 0 <= v < after.dist.len() ==> (#[trigger] after.dist[v]) <= before.dist[v]
            &&& spec_measure(after) < spec_measure(before)
        },
    }
}

impl TDTopoDijkstra {
    /// The graph that is searched.
    pub closed spec fn spec_graph(&self) -> TDGraph {
        self.graph
    }

    /// The query that is being answered.
    pub closed spec fn spec_query(&self) -> Option<TDQuery> {
        self.query
    }

    /// The answer, once the search is over.
    pub closed spec fn spec_result(&self) -> Option<Option<Weight>> {
        self.result
    }

    /// How many arcs were looked at since the query was set up.
    pub closed spec fn spec_num_relaxed_arcs(&self) -> usize {
        self.num_relaxed_arcs
    }

    /// What the search knows.
    pub closed spec fn spec_state(&self) -> Frontier {
        Frontier {
            dist: self.distances@,
            pred: self.predecessors@,
            queue: self.closest_node_priority_queue@,
        }
    }

    /// Representation invariant: one cell per node in every container.
    pub closed spec fn wf(&self) -> bool {
        &&& self.graph.wf()
        &&& self.distances.wf()
        &&& self.distances.spec_default() == INFINITY
        &&& self.closest_node_priority_queue.wf()
        &&& self.distances@.len() == self.graph.spec_num_nodes()
        &&& self.predecessors@.len() == self.graph.spec_num_nodes()
        &&& self.closest_node_priority_queue@.len() == self.graph.spec_num_nodes()
    }

    /// Whether a query has been set up and the search is in order for the
    /// bounds `bounds`: as `spec_topo_inv` says; and when it is over, the
    /// answer is the arrival known at the target, and the answer to the
    /// query where the bounds are consistent.
    pub open spec fn ready(&self, bounds: Bounds) -> bool {
        &&& self.wf()
        &&& self.spec_query() matches Some(query) && {
            &&& query.from < self.spec_graph().spec_num_nodes()
            &&& query.to < self.spec_graph().spec_num_nodes()
            &&& query.departure < INFINITY
            &&& spec_topo_inv(
                self.spec_graph(),
                query.from as int,
                query.departure as int,
                self.spec_state(),
                bounds,
                Exempt::none(),
            )
            &&& self.spec_result() matches Some(answer) ==> spec_known(
                self.spec_graph(),
                query,
                self.spec_state(),
                answer,
            ) && (spec_consistent(self.spec_graph(), query.to as int, bounds) ==> spec_answer(
                self.spec_graph(),
                query,
                answer,
            ))
        }
    }

    /// What a search in order gives.
    pub proof fn lemma_ready(&self, bounds: Bounds)
        requires
            self.ready(bounds),
        ensures
            self.spec_graph().wf(),
            self.spec_state().dist.len() == self.spec_graph().spec_num_nodes(),
    {
    }

    /// A search that is in order for some bounds is in order for all
    /// bounds that give every node the same.
    pub proof fn lemma_same_bounds(&self, bounds: Bounds, other: Bounds)
        requires
            self.ready(bounds),
            forall|x: int| #[trigger] bounds(x) == other(x),
        ensures
            self.ready(other),
    {
        assert(bounds =~= other);
    }

    /// Agreement of the searches: whatever finds the answer to a query
    /// finds the same.
    pub proof fn lemma_answers_agree(g: TDGraph, query: TDQuery, one: Option<Weight>, other: Option<Weight>)
        requires
            spec_answer(g, query, one),
            spec_answer(g, query, other),
            query.departure < INFINITY,
            one matches Some(d) ==> query.departure + d < INFINITY,
            other matches Some(d) ==> query.departure + d < INFINITY,
        ensures
            one == other,
    {
        match (one, other) {
            (Some(a), Some(b)) => {
                assert(g.spec_reaches(
                    query.from as int,
                    query.departure as int,
                    query.to as int,
                    query.departure + a,
                ));
                assert(g.spec_reaches(
                    query.from as int,
                    query.departure as int,
                    query.to as int,
                    query.departure + b,
                ));
            },
            (Some(a), None) => {
                assert(g.spec_reaches(
                    query.from as int,
                    query.departure as int,
                    query.to as int,
                    query.departure + a,
                ));
            },
            (None, Some(b)) => {
                assert(g.spec_reaches(
                    query.from as int,
                    query.departure as int,
                    query.to as int,
                    query.departure + b,
                ));
            },
            (None, None) => {},
        }
    }

    /// A search on `graph`.
    pub fn new(graph: TDGraph) -> (r: TDTopoDijkstra)
        requires
            graph.wf(),
        ensures
            r.wf(),
            r.spec_graph() == graph,
            r.spec_query().is_none(),
    {
        let n = graph.num_nodes();
        let mut predecessors: Vec<NodeId> = Vec::new();
        let mut i: usize = 0;
        while i < n
            invariant
                i <= n,
                predecessors@.len() == i,
            decreases n - i,
        {
            predecessors.push(n as NodeId);
            i += 1;
        }
        TDTopoDijkstra {
            graph,
            distances: TimestampedVector::new(n, INFINITY),
            predecessors,
            closest_node_priority_queue: IndexdMinHeap::new(n),
            query: None,
            result: None,
            num_relaxed_arcs: 0,
        }
    }

    /// Sets a query up: nothing is reached but the start, at the moment of departure.
    pub fn initialize_query(&mut self, query: TDQuery)
        requires
            old(self).wf(),
            query.from < old(self).spec_graph().spec_num_nodes(),
            query.to < old(self).spec_graph().spec_num_nodes(),
            query.departure < INFINITY,
        ensures
            forall|bounds: Bounds| #[trigger] final(self).ready(bounds),
            final(self).spec_graph() == old(self).spec_graph(),
            final(self).spec_query() == Some(query),
            final(self).spec_result().is_none(),
            final(self).spec_num_relaxed_arcs() == 0,
            final(self).spec_state().dist.len() == old(self).spec_graph().spec_num_nodes(),
            final(self).spec_state().queue.len() == old(self).spec_graph().spec_num_nodes(),
            forall|v: int|
                0 <= v < final(self).spec_state().dist.len() ==> #[trigger] final(self).spec_state().dist[v]
                    == (if v == query.from {
                    query.departure
                } else {
                    INFINITY
                }),
            forall|v: int|
                0 <= v < final(self).spec_state().queue.len() ==> #[trigger] final(self).spec_state().queue[v]
                    == (if v == query.from {
                    Some(query.departure)
                } else {
                    None
                }),
    {
        let from = query.from;
        self.query = Some(query);
        self.result = None;
        self.closest_node_priority_queue.clear();
        self.distances.reset();
        self.num_relaxed_arcs = 0;
        self.distances.set(from as usize, query.departure);
        self.closest_node_priority_queue.push(State { distance: query.departure, node: from });
        proof {
            assert forall|bounds: Bounds| #[trigger] self.ready(bounds) by {
                lemma_topo_initial(
                    self.graph,
                    from as int,
                    query.departure as int,
                    self.spec_state(),
                    bounds,
                );
            }
        }
    }

    /// Does one step without bounds: every node has bound zero.  What
    /// the step does is what `spec_step` says; the answer that a search
    /// without bounds ends with is the answer to the query.
    pub fn next_step(&mut self) -> (r: QueryProgress)
        requires
            old(self).ready(|x: int| Some(0u32)),
        ensures
            final(self).ready(|x: int| Some(0u32)),
            final(self).spec_graph() == old(self).spec_graph(),
            final(self).spec_query() == old(self).spec_query(),
            r matches QueryProgress::Done(answer) ==> final(self).spec_result() == Some(answer)
                && spec_answer(final(self).spec_graph(), final(self).spec_query().unwrap(), answer),
            spec_step(
                old(self).spec_query().unwrap(),
                old(self).spec_result(),
                old(self).spec_state(),
                final(self).spec_state(),
                r,
            ),
    {
        proof {
            lemma_zero_is_consistent(self.graph, self.query.unwrap().to as int);
        }
        let mut potential = ZeroPotential {
            num_nodes: self.graph.num_nodes(),
            num_pot_evals: 0,
            target: None,
        };
        proof {
            self.lemma_same_bounds(|x: int| Some(0u32), spec_bounds_of(&potential));
        }
        let ghost bounds = spec_bounds_of(&potential);
        let r = self.next_step_with_potential(&mut potential);
        proof {
            self.lemma_same_bounds(bounds, |x: int| Some(0u32));
        }
        r
    }

    /// Does one step: hands the stored answer out if the search is over,
    /// else takes the node with the least key from the queue and looks
    /// at its arcs.  The search is over when the queue is empty, or when
    /// the key of the node taken is not below the arrival known at the
    /// target; the answer is then handed out by the next step.
    pub fn next_step_with_potential<P: Potential>(&mut self, potential: &mut P) -> (r: QueryProgress)
        requires
            old(self).ready(spec_bounds_of(old(potential))),
            old(potential).wf(),
            old(potential).spec_num_nodes() == old(self).spec_graph().spec_num_nodes(),
        ensures
            final(self).ready(spec_bounds_of(old(potential))),
            final(self).ready(spec_bounds_of(final(potential))),
            final(potential).wf(),
            final(potential).spec_num_nodes() == old(potential).spec_num_nodes(),
            forall|x: int| #[trigger] final(potential).spec_value(x) == old(potential).spec_value(x),
            final(self).spec_graph() == old(self).spec_graph(),
            final(self).spec_query() == old(self).spec_query(),
            r matches QueryProgress::Done(answer) ==> final(self).spec_result() == Some(answer),
            spec_step(
                old(self).spec_query().unwrap(),
                old(self).spec_result(),
                old(self).spec_state(),
                final(self).spec_state(),
                r,
            ),
    {
        let r = match self.result {
            Some(result) => QueryProgress::Done(result),
            None => self.settle_next_node(potential),
        };
        proof {
            self.lemma_same_bounds(spec_bounds_of(old(potential)), spec_bounds_of(potential));
        }
        r
    }

    /// Runs the search to its end without bounds, and gives the answer to the query.
    pub fn run(&mut self) -> (r: Option<Weight>)
        requires
            old(self).ready(|x: int| Some(0u32)),
        ensures
            final(self).ready(|x: int| Some(0u32)),
            final(self).spec_graph() == old(self).spec_graph(),
            final(self).spec_query() == old(self).spec_query(),
            final(self).spec_result() == Some(r),
            spec_answer(final(self).spec_graph(), final(self).spec_query().unwrap(), r),
    {
        loop
            invariant
                self.ready(|x: int| Some(0u32)),
                self.spec_graph() == old(self).spec_graph(),
                self.spec_query() == old(self).spec_query(),
            decreases spec_measure(self.spec_state()),
        {
            let ghost before = self.spec_state();
            match self.next_step() {
                QueryProgress::Progress(_) => {
                    proof {
                        lemma_measure_range(self.spec_state());
                        assert(spec_measure(self.spec_state()) < spec_measure(before));
                    }
                },
                QueryProgress::Done(answer) => {
                    return answer;
                },
            }
        }
    }

    /// Runs the search to its end with the bounds of `potential`.  The
    /// result is the travel time to the arrival known at the target,
    /// which is the answer to the query where the bounds are consistent.
    pub fn run_with_potential<P: Potential>(&mut self, potential: &mut P) -> (r: Option<Weight>)
        requires
            old(self).ready(spec_bounds_of(old(potential))),
            old(potential).wf(),
            old(potential).spec_num_nodes() == old(self).spec_graph().spec_num_nodes(),
        ensures
            final(self).ready(spec_bounds_of(old(potential))),
            final(self).ready(spec_bounds_of(final(potential))),
            final(potential).wf(),
            final(potential).spec_num_nodes() == old(potential).spec_num_nodes(),
            forall|x: int| #[trigger] final(potential).spec_value(x) == old(potential).spec_value(x),
            final(self).spec_graph() == old(self).spec_graph(),
            final(self).spec_query() == old(self).spec_query(),
            final(self).spec_result() == Some(r),
    {
        let ghost bounds = spec_bounds_of(potential);
        loop
            invariant
                self.ready(spec_bounds_of(potential)),
                potential.wf(),
                potential.spec_num_nodes() == old(potential).spec_num_nodes(),
                potential.spec_num_nodes() == self.spec_graph().spec_num_nodes(),
                forall|x: int| #[trigger] potential.spec_value(x) == old(potential).spec_value(x),
                bounds == spec_bounds_of(old(potential)),
                self.spec_graph() == old(self).spec_graph(),
                self.spec_query() == old(self).spec_query(),
            decreases spec_measure(self.spec_state()),
        {
            let ghost before = self.spec_state();
            match self.next_step_with_potential(potential) {
                QueryProgress::Progress(_) => {
                    proof {
                        lemma_measure_range(self.spec_state());
                        assert(spec_measure(self.spec_state()) < spec_measure(before));
                    }
                },
                QueryProgress::Done(answer) => {
                    proof {
                        self.lemma_same_bounds(spec_bounds_of(potential), bounds);
                    }
                    return answer;
                },
            }
        }
    }

    /// Takes the node with the least key from the queue and looks at its arcs.
    #[verifier::spinoff_prover]
    fn settle_next_node<P: Potential>(&mut self, potential: &mut P) -> (r: QueryProgress)
        requires
            old(self).ready(spec_bounds_of(old(potential))),
            old(self).spec_result().is_none(),
            old(potential).wf(),
            old(potential).spec_num_nodes() == old(self).spec_graph().spec_num_nodes(),
        ensures
            final(self).ready(spec_bounds_of(old(potential))),
            final(potential).wf(),
            final(potential).spec_num_nodes() == old(potential).spec_num_nodes(),
            forall|x: int| #[trigger] final(potential).spec_value(x) == old(potential).spec_value(x),
            final(self).spec_graph() == old(self).spec_graph(),
            final(self).spec_query() == old(self).spec_query(),
            r matches QueryProgress::Done(answer) ==> final(self).spec_result() == Some(answer),
            spec_step(
                old(self).spec_query().unwrap(),
                None,
                old(self).spec_state(),
                final(self).spec_state(),
                r,
            ),
    {
        let query = match self.query {
            Some(query) => query,
            None => {
                return QueryProgress::Done(None);
            },
        };
        let ghost g = self.graph;
        let ghost s = query.from as int;
        let ghost t0 = query.departure as int;
        let ghost bounds = spec_bounds_of(potential);
        let ghost before = self.spec_state();
        let to = query.to;
        proof {
            g.lemma_wf();
            if before.dist[to as int] < INFINITY {
                g.lemma_reaches(s, t0, to as int, before.dist[to as int] as int);
            }
        }
        match self.closest_node_priority_queue.pop() {
            None => {
                let known = *self.distances.get(to as usize);
                let answer = if known < INFINITY {
                    Some(known - query.departure)
                } else {
                    None
                };
                self.result = Some(answer);
                proof {
                    if spec_consistent(g, to as int, bounds) {
                        assert forall|t: int| #[trigger] g.spec_reaches(s, t0, to as int, t) implies known
                            <= t by {
                            lemma_topo_answer(g, s, t0, before, bounds, to as int, t + 1, t);
                        }
                    }
                }
                QueryProgress::Done(answer)
            },
            Some(State { distance: key, node }) => {
                let distance = *self.distances.get(node as usize);
                let known = *self.distances.get(to as usize);
                proof {
                    lemma_topo_pop(g, s, t0, before, self.spec_state(), bounds, node as int);
                    lemma_waiting_update(before.queue, node as int, None);
                    assert forall|v: int|
                        0 <= v < before.queue.len() && (#[trigger] before.queue[v]).is_some() implies before.queue[node as int].unwrap()
                        <= before.queue[v].unwrap() by {
                        assert(crate::datastr::index_heap::state_le(
                            State { distance: key, node },
                            State { distance: before.queue[v].unwrap(), node: v as NodeId },
                        ));
                    }
                }
                if known < INFINITY && (node == to || key >= known) {
                    self.result = Some(Some(known - query.departure));
                    proof {
                        if spec_consistent(g, to as int, bounds) {
                            assert forall|t: int| #[trigger] g.spec_reaches(s, t0, to as int, t) implies known
                                <= t by {
                                lemma_topo_answer(g, s, t0, before, bounds, to as int, key as int, t);
                            }
                        }
                    }
                }
                let range = self.graph.neighbor_edge_indices_usize(node);
                let mut e: usize = range.start;
                while e < range.end
                    invariant
                        self.wf(),
                        self.graph == g,
                        g.wf(),
                        self.query == Some(query),
                        node < g.spec_num_nodes(),
                        range.start == g.spec_first_out()[node as int],
                        range.end == g.spec_first_out()[node as int + 1],
                        range.start <= e <= range.end,
                        s == query.from,
                        t0 == query.departure,
                        to == query.to,
                        to < g.spec_num_nodes(),
                        potential.wf(),
                        potential.spec_num_nodes() == g.spec_num_nodes(),
                        forall|x: int| #[trigger] potential.spec_value(x) == bounds(x),
                        self.spec_state().dist[node as int] < INFINITY,
                        self.spec_state().queue[node as int].is_none(),
                        spec_topo_inv(
                            g,
                            s,
                            t0,
                            self.spec_state(),
                            bounds,
                            Exempt { cur: node as int, done: e as int, open: -1, open_edge: None },
                        ),
                        self.spec_state().dist[to as int] <= known,
                        self.spec_state().dist.len() == before.dist.len(),
                        forall|v: int|
                            0 <= v < before.dist.len() ==> #[trigger] self.spec_state().dist[v]
                                <= before.dist[v],
                        spec_measure(self.spec_state()) < spec_measure(before),
                        self.result matches Some(answer) ==> known < INFINITY && answer == Some(
                            (known - query.departure) as Weight,
                        ) && query.departure <= known && g.spec_reaches(s, t0, to as int, known as int)
                            && (spec_consistent(g, to as int, bounds) ==> forall|t: int|
                            #[trigger] g.spec_reaches(s, t0, to as int, t) ==> known <= t),
                    decreases range.end - e,
                {
                    self.relax_chain(node, e, potential, Ghost(bounds));
                    e += 1;
                }
                proof {
                    lemma_topo_done(g, s, t0, self.spec_state(), bounds, node as int);
                }
                QueryProgress::Progress(State { distance, node })
            },
        }
    }

    /// Looks at arc `edge` of `cur`, the node that was taken from the
    /// queue, and goes on along the chain that starts there for as long as
    /// nodes are reached earlier than before and have one way on.
    #[verifier::spinoff_prover]
    fn relax_chain<P: Potential>(
        &mut self,
        cur: NodeId,
        edge: usize,
        potential: &mut P,
        Ghost(bounds): Ghost<Bounds>,
    )
        requires
            old(self).wf(),
            old(self).query matches Some(query) && query.from < old(self).graph.spec_num_nodes()
                && query.to < old(self).graph.spec_num_nodes() && query.departure < INFINITY
                && spec_topo_inv(
                old(self).graph,
                query.from as int,
                query.departure as int,
                old(self).spec_state(),
                bounds,
                Exempt { cur: cur as int, done: edge as int, open: -1, open_edge: None },
            ),
            cur < old(self).graph.spec_num_nodes(),
            old(self).graph.spec_first_out()[cur as int] <= edge < old(self).graph.spec_first_out()[cur
                + 1],
            old(self).spec_state().dist[cur as int] < INFINITY,
            old(self).spec_state().queue[cur as int].is_none(),
            old(potential).wf(),
            old(potential).spec_num_nodes() == old(self).graph.spec_num_nodes(),
            forall|x: int| #[trigger] old(potential).spec_value(x) == bounds(x),
        ensures
            final(self).wf(),
            final(self).graph == old(self).graph,
            final(self).query == old(self).query,
            final(self).result == old(self).result,
            final(potential).wf(),
            final(potential).spec_num_nodes() == old(potential).spec_num_nodes(),
            forall|x: int| #[trigger] final(potential).spec_value(x) == bounds(x),
            final(self).spec_state().dist[cur as int] == old(self).spec_state().dist[cur as int],
            final(self).spec_state().queue[cur as int].is_none(),
            forall|v: int|
                0 <= v < final(self).spec_state().dist.len() ==> #[trigger] final(self).spec_state().dist[v]
                    <= old(self).spec_state().dist[v],
            spec_measure(final(self).spec_state()) <= spec_measure(old(self).spec_state()),
            spec_topo_inv(
                final(self).graph,
                old(self).query.unwrap().from as int,
                old(self).query.unwrap().departure as int,
                final(self).spec_state(),
                bounds,
                Exempt { cur: cur as int, done: edge as int + 1, open: -1, open_edge: None },
            ),
    {
        let ghost g = self.graph;
        let ghost s = self.query.unwrap().from as int;
        let ghost t0 = self.query.unwrap().departure as int;
        let n = self.graph.num_nodes();
        let mut prev: NodeId = cur;
        let mut e: usize = edge;
        let mut steps: usize = 0;
        proof {
            g.lemma_wf();
        }
        loop
            invariant_except_break
                spec_topo_inv(
                    g,
                    s,
                    t0,
                    self.spec_state(),
                    bounds,
                    Exempt {
                        cur: cur as int,
                        done: if prev == cur { edge as int } else { edge as int + 1 },
                        open: if prev == cur { -1 } else { prev as int },
                        open_edge: if prev == cur { None } else { Some(e as int) },
                    },
                ),
            invariant
                self.wf(),
                self.graph == g,
                g.wf(),
                self.query == old(self).query,
                self.result == old(self).result,
                n == g.spec_num_nodes(),
                cur < n,
                prev < n,
                steps <= n,
                g.spec_first_out()[prev as int] <= e < g.spec_first_out()[prev as int + 1],
                prev == cur ==> e == edge,
                s == old(self).query.unwrap().from,
                t0 == old(self).query.unwrap().departure,
                0 <= s < n,
                0 <= t0 < INFINITY,
                self.spec_state().dist[prev as int] < INFINITY,
                self.spec_state().dist[cur as int] <= self.spec_state().dist[prev as int],
                self.spec_state().dist[cur as int] == old(self).spec_state().dist[cur as int],
                self.spec_state().queue[cur as int].is_none(),
                forall|v: int|
                    0 <= v < n ==> #[trigger] self.spec_state().dist[v] <= old(self).spec_state().dist[v],
                spec_measure(self.spec_state()) <= spec_measure(old(self).spec_state()),
                potential.wf(),
                potential.spec_num_nodes() == n,
                forall|x: int| #[trigger] potential.spec_value(x) == bounds(x),
            ensures
                spec_topo_inv(
                    g,
                    s,
                    t0,
                    self.spec_state(),
                    bounds,
                    Exempt { cur: cur as int, done: edge as int + 1, open: -1, open_edge: None },
                ),
            decreases n - steps,
        {
            let ghost st = self.spec_state();
            let ghost exempt = Exempt {
                cur: cur as int,
                done: if prev == cur { edge as int } else { edge as int + 1 },
                open: if prev == cur { -1 } else { prev as int },
                open_edge: if prev == cur { None } else { Some(e as int) },
            };
            proof {
                g.lemma_arc(e as int, prev as int, g.spec_head()[e as int] as int);
            }
            let prev_distance = *self.distances.get(prev as usize);
            let next = self.graph.head()[e];
            let travel_time = self.graph.travel_time_function(e as EdgeId).evaluate(prev_distance);
            let arrival: Timestamp = prev_distance + travel_time;
            if self.num_relaxed_arcs < usize::MAX {
                self.num_relaxed_arcs += 1;
            }
            if arrival >= *self.distances.get(next as usize) {
                proof {
                    lemma_topo_skip(g, s, t0, st, bounds, exempt, prev as int, e as int);
                }
                break ;
            }
            self.distances.set(next as usize, arrival);
            self.predecessors[next as usize] = prev;
            proof {
                lemma_total_update(st.dist, next as int, arrival);
                assert(spec_measure(self.spec_state()) + 2 <= spec_measure(st));
            }
            proof {
                assert(spec_improved(
                    g,
                    st,
                    Frontier {
                        dist: self.spec_state().dist,
                        pred: self.spec_state().pred,
                        queue: st.queue,
                    },
                    prev as int,
                    e as int,
                ));
                lemma_topo_improve_sound(
                    g,
                    s,
                    t0,
                    st,
                    Frontier {
                        dist: self.spec_state().dist,
                        pred: self.spec_state().pred,
                        queue: st.queue,
                    },
                    prev as int,
                    e as int,
                );
                assert(next != cur);
            }
            let in_queue = self.closest_node_priority_queue.contains_index(next as usize);
            let mut walk = false;
            let mut forward: Option<usize> = None;
            if !in_queue && steps < n {
                let range = self.graph.neighbor_edge_indices_usize(next);
                if range.end - range.start <= 2 {
                    let mut count: usize = 0;
                    let mut f: usize = range.start;
                    while f < range.end
                        invariant
                            range.start <= f <= range.end,
                            range.end - range.start <= 2,
                            range.end <= g.spec_num_arcs(),
                            self.graph == g,
                            count <= f - range.start,
                            count == 0 ==> forward.is_none(),
                            count >= 1 ==> forward.is_some() && range.start <= forward.unwrap() < f,
                            count <= 1 ==> forall|h: int|
                                range.start <= h < f && Some(h) != (match forward {
                                    Some(x) => Some(x as int),
                                    None => None,
                                }) ==> #[trigger] g.spec_head()[h] == prev,
                        decreases range.end - f,
                    {
                        if self.graph.head()[f] != prev {
                            count += 1;
                            forward = Some(f);
                        }
                        f += 1;
                    }
                    if count <= 1 {
                        walk = true;
                    }
                }
            }
            if walk {
                let ghost forward_spec: Option<int> = match forward {
                    Some(x) => Some(x as int),
                    None => None,
                };
                proof {
                    lemma_topo_improve(
                        g,
                        s,
                        t0,
                        st,
                        self.spec_state(),
                        bounds,
                        exempt,
                        prev as int,
                        e as int,
                    );
                    lemma_topo_narrow(
                        g,
                        s,
                        t0,
                        self.spec_state(),
                        bounds,
                        Exempt {
                            cur: cur as int,
                            done: edge as int + 1,
                            open: next as int,
                            open_edge: None,
                        },
                        prev as int,
                        forward_spec,
                    );
                }
                match forward {
                    None => {
                        break ;
                    },
                    Some(on) => {
                        prev = next;
                        e = on;
                        steps += 1;
                    },
                }
            } else {
                let bound = potential.potential(next);
                let ghost waiting = self.spec_state().queue;
                proof {
                    lemma_waiting_update(
                        waiting,
                        next as int,
                        Some(
                            (arrival + (match bound {
                                Some(b) => b,
                                None => 0u32,
                            })) as Weight,
                        ),
                    );
                }
                match bound {
                    Some(bound) => {
                        let key = arrival + bound;
                        match self.closest_node_priority_queue.get(next as usize) {
                            Some(other) => {
                                if key < other.distance {
                                    self.closest_node_priority_queue.decrease_key(
                                        State { distance: key, node: next },
                                    );
                                }
                            },
                            None => {
                                self.closest_node_priority_queue.push(State { distance: key, node: next });
                            },
                        }
                    },
                    None => {},
                }
                proof {
                    assert(potential.spec_value(next as int) == bounds(next as int));
                    lemma_topo_improve(
                        g,
                        s,
                        t0,
                        st,
                        self.spec_state(),
                        bounds,
                        exempt,
                        prev as int,
                        e as int,
                    );
                    lemma_topo_endpoint(
                        g,
                        s,
                        t0,
                        self.spec_state(),
                        self.spec_state(),
                        bounds,
                        Exempt {
                            cur: cur as int,
                            done: edge as int + 1,
                            open: next as int,
                            open_edge: None,
                        },
                    );
                }
                break ;
            }
        }
    }

    /// The earliest arrival at `node` that is known; `INFINITY` if none is.
    pub fn tentative_distance(&self, node: NodeId) -> (d: Weight)
        requires
            self.wf(),
            node < self.spec_graph().spec_num_nodes(),
        ensures
            d == self.spec_state().dist[node as int],
    {
        *self.distances.get(node as usize)
    }

    /// The node before `node` on the earliest way to it that is known.
    pub fn predecessor(&self, node: NodeId) -> (p: NodeId)
        requires
            self.wf(),
            node < self.spec_graph().spec_num_nodes(),
        ensures
            p == self.spec_state().pred[node as int],
    {
        self.predecessors[node as usize]
    }

    /// The query that is being answered.
    pub fn query(&self) -> (q: TDQuery)
        requires
            self.spec_query().is_some(),
        ensures
            Some(q) == self.spec_query(),
    {
        match self.query {
            Some(query) => query,
            None => TDQuery { from: 0, to: 0, departure: 0 },
        }
    }

    /// How many arcs were looked at since the query was set up.
    pub fn num_relaxed_arcs(&self) -> (r: usize)
        ensures
            r == self.spec_num_relaxed_arcs(),
    {
        self.num_relaxed_arcs
    }

    /// The queue.
    pub fn queue(&self) -> (r: &IndexdMinHeap)
        ensures
            r@ == self.spec_state().queue,
    {
        &self.closest_node_priority_queue
    }
}

} // verus!
