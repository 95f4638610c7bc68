//! A search on a time-dependent graph that settles one node per step.
use vstd::prelude::*;
use crate::datastr::index_heap::{IndexdMinHeap, State};
use crate::datastr::rank_select_map::BitVec;
use crate::datastr::timestamped_vector::TimestampedVector;
use crate::graph::td_graph::Graph as TDGraph;
use crate::shortest_path::search_state::{
    lemma_exhausted, lemma_initial, lemma_node_done, lemma_relax_skip, lemma_relax_update,
    lemma_settle, spec_inv, spec_tree_edge, spec_tree_inv, spec_tree_path, SearchState,
};
use crate::shortest_path::stepped_dijkstra::QueryProgress;
use crate::types::{EdgeId, NodeId, TDQuery, Timestamp, Weight, INFINITY};

verus! {

/// Whether `answer` is the answer to the query: the travel time along an
/// earliest path, which arrives before `INFINITY`, or nothing where no
/// path does.
pub open spec fn spec_answer(g: TDGraph, query: TDQuery, answer: Option<Weight>) -> bool {
    match answer {
        Some(d) => query.departure + d < INFINITY && g.spec_earliest(
            query.from as int,
            query.departure as int,
            query.to as int,
            query.departure + d,
        ),
        None => forall|t: int|
            #[trigger] g.spec_reaches(query.from as int, query.departure as int, query.to as int, t)
                ==> t >= INFINITY,
    }
}

/// Whether `answer` is the answer to the query where only the arcs that
/// `allowed` marks may be taken: the travel time along an earliest such
/// path, which arrives before `INFINITY`, or nothing where no such path does.
pub open spec fn spec_answer_within(
    g: TDGraph,
    allowed: Seq<bool>,
    query: TDQuery,
    answer: Option<Weight>,
) -> bool {
    match answer {
        Some(d) => query.departure + d < INFINITY && g.spec_earliest_within(
            allowed,
            query.from as int,
            query.departure as int,
            query.to as int,
            query.departure + d,
        ),
        None => forall|t: int|
            #[trigger] g.spec_reaches_within(
                allowed,
                query.from as int,
                query.departure as int,
                query.to as int,
                t,
            ) ==> t >= INFINITY,
    }
}

/// Where every arc may be taken, the answer is the answer to the query.
pub proof fn lemma_answer_unrestricted(g: TDGraph, allowed: Seq<bool>, query: TDQuery, answer: Option<Weight>)
    requires
        g.wf(),
        g.spec_all_allowed(allowed),
        spec_answer_within(g, allowed, query, answer),
    ensures
        spec_answer(g, query, answer),
{
    let s = query.from as int;
    let t0 = query.departure as int;
    let v = query.to as int;
    match answer {
        Some(d) => {
            g.lemma_within_reaches(allowed, s, t0, v, t0 + d);
            assert forall|other: int| g.spec_reaches(s, t0, v, other) implies t0 + d <= other by {
                g.lemma_reaches_within_all(allowed, s, t0, v, other);
            }
        },
        None => {
            assert forall|t: int| #[trigger] g.spec_reaches(s, t0, v, t) implies t >= INFINITY by {
                g.lemma_reaches_within_all(allowed, s, t0, v, t);
            }
        },
    }
}

/// A path along some arcs is a path: where a search that may not take
/// every arc answers with a travel time, some path takes that long, and
/// the answer to the query is no longer.
pub proof fn lemma_answer_within(
    g: TDGraph,
    allowed: Seq<bool>,
    query: TDQuery,
    within: Option<Weight>,
    answer: Option<Weight>,
)
    requires
        g.wf(),
        spec_answer_within(g, allowed, query, within),
        spec_answer(g, query, answer),
    ensures
        within matches Some(d) ==> g.spec_reaches(
            query.from as int,
            query.departure as int,
            query.to as int,
            query.departure + d,
        ) && answer.is_some() && answer.unwrap() <= d,
{
    if let Some(d) = within {
        g.lemma_within_reaches(
            allowed,
            query.from as int,
            query.departure as int,
            query.to as int,
            query.departure + d,
        );
        assert(g.spec_reaches(
            query.from as int,
            query.departure as int,
            query.to as int,
            query.departure + d,
        ));
    }
}

/// The answer to a query on a graph is the answer to it on a graph that is the same.
pub proof fn lemma_same_answer(
    g: TDGraph,
    other: TDGraph,
    allowed: Seq<bool>,
    query: TDQuery,
    answer: Option<Weight>,
)
    requires
        g.wf(),
        other.wf(),
        g.spec_same(other),
        spec_answer_within(g, allowed, query, answer),
    ensures
        spec_answer_within(other, allowed, query, answer),
{
    let s = query.from as int;
    let t0 = query.departure as int;
    let v = query.to as int;
    g.lemma_wf();
    other.lemma_wf();
    assert(other.spec_same(g));
    match answer {
        Some(d) => {
            g.lemma_same_reaches(other, allowed, s, t0, v, t0 + d);
            assert forall|t: int| other.spec_reaches_within(allowed, s, t0, v, t) implies t0 + d <= t by {
                other.lemma_same_reaches(g, allowed, s, t0, v, t);
            }
        },
        None => {
            assert forall|t: int| #[trigger] other.spec_reaches_within(allowed, s, t0, v, t) implies t
                >= INFINITY by {
                other.lemma_same_reaches(g, allowed, s, t0, v, t);
            }
        },
    }
}

/// A query has one answer.
pub proof fn lemma_answer_unique(g: TDGraph, query: TDQuery, one: Option<Weight>, other: Option<Weight>)
    requires
        spec_answer(g, query, one),
        spec_answer(g, query, other),
    ensures
        one == other,
{
}

/// Where an earliest path takes only arcs that may be taken, the search
/// that may not take every arc gives the answer to the query.
pub proof fn lemma_answer_agrees(
    g: TDGraph,
    allowed: Seq<bool>,
    query: TDQuery,
    within: Option<Weight>,
    answer: Option<Weight>,
)
    requires
        g.wf(),
        spec_answer_within(g, allowed, query, within),
        spec_answer(g, query, answer),
        answer matches Some(d) ==> g.spec_reaches_within(
            allowed,
            query.from as int,
            query.departure as int,
            query.to as int,
            query.departure + d,
        ),
    ensures
        within == answer,
{
    lemma_answer_within(g, allowed, query, within, answer);
}

/// Dijkstra's search with travel times that depend on the moment of
/// entry, on all arcs or on those that a query marks.
pub struct TDSteppedDijkstra {
    graph: TDGraph,
    distances: TimestampedVector<Weight>,
    predecessors: Vec<NodeId>,
    closest_node_priority_queue: IndexdMinHeap,
    query: Option<TDQuery>,
    result: Option<Option<Weight>>,
    allowed: Option<BitVec>,
    settled: Ghost<Set<int>>,
}

impl TDSteppedDijkstra {
    /// The graph that is searched.
    pub closed spec fn spec_graph(&self) -> TDGraph {
        self.graph
    }

    /// The query that is being answered.
    pub closed spec fn spec_query(&self) -> Option<TDQuery> {
        self.query
    }

    /// The answer, once the search is over.
    pub closed spec fn spec_result(&self) -> Option<Option<Weight>> {
        self.result
    }

    /// What the search knows.
    pub closed spec fn spec_state(&self) -> SearchState {
        SearchState {
            dist: self.distances@,
            pred: self.predecessors@,
            queue: self.closest_node_priority_queue@,
            settled: self.settled@,
            allowed: self.spec_allowed(),
        }
    }

    /// The arcs that the search may take.
    pub closed spec fn spec_allowed(&self) -> Seq<bool> {
        match self.allowed {
            Some(marks) => marks@,
            None => Seq::new(self.graph.spec_num_arcs() as nat, |e: int| true),
        }
    }

    /// Representation invariant: one cell per node in every container.
    pub closed spec fn wf(&self) -> bool {
        &&& self.graph.wf()
        &&& self.distances.wf()
        &&& self.distances.spec_default() == INFINITY
        &&& self.closest_node_priority_queue.wf()
        &&& self.distances@.len() == self.graph.spec_num_nodes()
        &&& self.predecessors@.len() == self.graph.spec_num_nodes()
        &&& self.closest_node_priority_queue@.len() == self.graph.spec_num_nodes()
        &&& self.allowed matches Some(marks) ==> marks.wf() && marks@.len()
            == self.graph.spec_num_arcs()
        &&& self.settled@.finite()
        &&& self.settled@.len() <= self.graph.spec_num_nodes()
        &&& forall|v: int| self.settled@.contains(v) ==> 0 <= v < self.graph.spec_num_nodes()
    }

    /// Whether a query has been set up and the search is in order: while
    /// it runs, as `spec_inv` says, with the target not yet settled; when it
    /// is over, the answer is the answer to the query along the arcs that
    /// the search may take.
    pub open spec fn ready(&self) -> bool {
        &&& self.wf()
        &&& self.spec_query() matches Some(query) && {
            &&& query.from < self.spec_graph().spec_num_nodes()
            &&& query.to < self.spec_graph().spec_num_nodes()
            &&& query.departure < INFINITY
            &&& match self.spec_result() {
                None => spec_inv(
                    self.spec_graph(),
                    query.from as int,
                    query.departure as int,
                    self.spec_state(),
                    -1,
                    0,
                ) && !self.spec_state().settled.contains(query.to as int),
                Some(answer) => spec_tree_inv(
                    self.spec_graph(),
                    query.from as int,
                    query.departure as int,
                    self.spec_state(),
                ) && spec_answer_within(self.spec_graph(), self.spec_allowed(), query, answer) && (answer matches Some(d)
                    ==> self.spec_state().dist[query.to as int] == query.departure + d
                    && self.spec_state().dist[query.to as int] < INFINITY),
            }
        }
    }

    /// A search that is well formed runs on a graph that is.
    pub proof fn lemma_wf(&self)
        requires
            self.wf(),
        ensures
            self.spec_graph().wf(),
    {
    }

    /// What a search in order gives, whether it runs or is over.
    pub proof fn lemma_ready(&self)
        requires
            self.ready(),
        ensures
            self.spec_graph().wf(),
            spec_tree_inv(
                self.spec_graph(),
                self.spec_query().unwrap().from as int,
                self.spec_query().unwrap().departure as int,
                self.spec_state(),
            ),
            self.spec_state().allowed == self.spec_allowed(),
            self.spec_allowed().len() == self.spec_graph().spec_num_arcs(),
            self.spec_result() matches Some(answer) ==> spec_answer_within(
                self.spec_graph(),
                self.spec_allowed(),
                self.spec_query().unwrap(),
                answer,
            ),
    {
    }

    /// A search on `graph`.
    pub fn new(graph: TDGraph) -> (r: TDSteppedDijkstra)
        requires
            graph.wf(),
        ensures
            r.wf(),
            r.spec_graph() == graph,
            r.spec_query().is_none(),
    {
        let n = graph.num_nodes();
        let mut predecessors: Vec<NodeId> = Vec::new();
        let mut i: usize = 0;
        while i < n
            invariant
                i <= n,
                predecessors@.len() == i,
            decreases n - i,
        {
            predecessors.push(n as NodeId);
            i += 1;
        }
        TDSteppedDijkstra {
            graph,
            distances: TimestampedVector::new(n, INFINITY),
            predecessors,
            closest_node_priority_queue: IndexdMinHeap::new(n),
            query: None,
            result: None,
            allowed: None,
            settled: Ghost(Set::empty()),
        }
    }

    /// Sets a query up: nothing is reached but the start, at the moment
    /// of departure, and every arc may be taken.
    pub fn initialize_query(&mut self, query: TDQuery)
        requires
            old(self).wf(),
            query.from < old(self).spec_graph().spec_num_nodes(),
            query.to < old(self).spec_graph().spec_num_nodes(),
            query.departure < INFINITY,
        ensures
            final(self).ready(),
            final(self).spec_graph() == old(self).spec_graph(),
            final(self).spec_query() == Some(query),
            final(self).spec_result().is_none(),
            final(self).spec_state().settled == Set::<int>::empty(),
            final(self).spec_state().dist.len() == old(self).spec_graph().spec_num_nodes(),
            final(self).spec_state().queue.len() == old(self).spec_graph().spec_num_nodes(),
            forall|v: int|
                0 <= v < final(self).spec_state().dist.len() ==> #[trigger] final(self).spec_state().dist[v]
                    == (if v == query.from {
                    query.departure
                } else {
                    INFINITY
                }),
            forall|v: int|
                0 <= v < final(self).spec_state().queue.len() ==> #[trigger] final(self).spec_state().queue[v]
                    == (if v == query.from {
                    Some(query.departure)
                } else {
                    None
                }),
            final(self).spec_graph().spec_all_allowed(final(self).spec_allowed()),
    {
        self.set_up(query, None);
    }

    /// Sets a query up that may take only the arcs that `allowed` marks.
    pub fn initialize_query_within(&mut self, query: TDQuery, allowed: BitVec)
        requires
            old(self).wf(),
            query.from < old(self).spec_graph().spec_num_nodes(),
            query.to < old(self).spec_graph().spec_num_nodes(),
            query.departure < INFINITY,
            allowed.wf(),
            allowed@.len() == old(self).spec_graph().spec_num_arcs(),
        ensures
            final(self).ready(),
            final(self).spec_graph() == old(self).spec_graph(),
            final(self).spec_query() == Some(query),
            final(self).spec_result().is_none(),
            final(self).spec_state().settled == Set::<int>::empty(),
            final(self).spec_state().dist.len() == old(self).spec_graph().spec_num_nodes(),
            final(self).spec_state().queue.len() == old(self).spec_graph().spec_num_nodes(),
            forall|v: int|
                0 <= v < final(self).spec_state().dist.len() ==> #[trigger] final(self).spec_state().dist[v]
                    == (if v == query.from {
                    query.departure
                } else {
                    INFINITY
                }),
            forall|v: int|
                0 <= v < final(self).spec_state().queue.len() ==> #[trigger] final(self).spec_state().queue[v]
                    == (if v == query.from {
                    Some(query.departure)
                } else {
                    None
                }),
            final(self).spec_allowed() == allowed@,
    {
        self.set_up(query, Some(allowed));
    }

    /// Sets a query up on all arcs, or on those that `allowed` marks.
    fn set_up(&mut self, query: TDQuery, allowed: Option<BitVec>)
        requires
            old(self).wf(),
            query.from < old(self).spec_graph().spec_num_nodes(),
            query.to < old(self).spec_graph().spec_num_nodes(),
            query.departure < INFINITY,
            allowed matches Some(marks) ==> marks.wf() && marks@.len()
                == old(self).spec_graph().spec_num_arcs(),
        ensures
            final(self).ready(),
            final(self).spec_graph() == old(self).spec_graph(),
            final(self).spec_query() == Some(query),
            final(self).spec_result().is_none(),
            final(self).spec_state().settled == Set::<int>::empty(),
            final(self).spec_state().dist.len() == old(self).spec_graph().spec_num_nodes(),
            final(self).spec_state().queue.len() == old(self).spec_graph().spec_num_nodes(),
            forall|v: int|
                0 <= v < final(self).spec_state().dist.len() ==> #[trigger] final(self).spec_state().dist[v]
                    == (if v == query.from {
                    query.departure
                } else {
                    INFINITY
                }),
            forall|v: int|
                0 <= v < final(self).spec_state().queue.len() ==> #[trigger] final(self).spec_state().queue[v]
                    == (if v == query.from {
                    Some(query.departure)
                } else {
                    None
                }),
            match allowed {
                Some(marks) => final(self).spec_allowed() == marks@,
                None => final(self).spec_graph().spec_all_allowed(final(self).spec_allowed()),
            },
    {
        let from = query.from;
        self.query = Some(query);
        self.result = None;
        self.allowed = allowed;
        self.closest_node_priority_queue.clear();
        self.distances.reset();
        self.settled = Ghost(Set::empty());
        self.distances.set(from as usize, query.departure);
        self.closest_node_priority_queue.push(State { distance: query.departure, node: from });
        proof {
            lemma_initial(self.graph, from as int, query.departure as int, self.spec_state());
        }
    }

    /// Does one step: hands the stored answer out if the search is over,
    /// else settles the closest node of the queue.  A node that is settled
    /// is reached at the earliest moment possible along the arcs that the
    /// search may take, and no earlier than the nodes settled before it.
    pub fn next_step(&mut self) -> (r: QueryProgress)
        requires
            old(self).ready(),
        ensures
            final(self).ready(),
            final(self).spec_graph() == old(self).spec_graph(),
            final(self).spec_query() == old(self).spec_query(),
            final(self).spec_allowed() == old(self).spec_allowed(),
            match r {
                QueryProgress::Done(answer) => final(self).spec_result() == Some(answer),
                QueryProgress::Progress(state) => {
                    &&& old(self).spec_result().is_none()
                    &&& final(self).spec_result().is_none()
                    &&& final(self).spec_state().settled == old(self).spec_state().settled.insert(
                        state.node as int,
                    )
                    &&& !old(self).spec_state().settled.contains(state.node as int)
                    &&& forall|v: int| #[trigger]
                        old(self).spec_state().settled.contains(v) ==> old(self).spec_state().dist[v]
                            <= state.distance
                    &&& final(self).spec_state().dist[state.node as int] == state.distance
                    &&& final(self).spec_graph().spec_earliest_within(
                        final(self).spec_allowed(),
                        final(self).spec_query().unwrap().from as int,
                        final(self).spec_query().unwrap().departure as int,
                        state.node as int,
                        state.distance as int,
                    )
                },
            },
    {
        match self.result {
            Some(result) => QueryProgress::Done(result),
            None => self.settle_next_node(),
        }
    }

    /// Number of nodes that are settled; it grows with every step that settles a node.
    pub closed spec fn spec_num_settled(&self) -> nat {
        self.settled@.len()
    }

    /// The nodes that are settled are nodes, so there are no more of them than nodes.
    pub proof fn lemma_num_settled(&self)
        requires
            self.wf(),
        ensures
            self.spec_num_settled() <= self.spec_graph().spec_num_nodes(),
            self.spec_state().settled.finite(),
            self.spec_num_settled() == self.spec_state().settled.len(),
    {
    }

    /// Settles the closest node of the queue and looks at its arcs.
    #[verifier::spinoff_prover]
    fn settle_next_node(&mut self) -> (r: QueryProgress)
        requires
            old(self).ready(),
            old(self).spec_result().is_none(),
        ensures
            final(self).ready(),
            final(self).spec_graph() == old(self).spec_graph(),
            final(self).spec_query() == old(self).spec_query(),
            final(self).spec_allowed() == old(self).spec_allowed(),
            match r {
                QueryProgress::Done(answer) => final(self).spec_result() == Some(answer),
                QueryProgress::Progress(state) => {
                    &&& final(self).spec_result().is_none()
                    &&& final(self).spec_state().settled == old(self).spec_state().settled.insert(
                        state.node as int,
                    )
                    &&& !old(self).spec_state().settled.contains(state.node as int)
                    &&& forall|v: int| #[trigger]
                        old(self).spec_state().settled.contains(v) ==> old(self).spec_state().dist[v]
                            <= state.distance
                    &&& final(self).spec_state().dist[state.node as int] == state.distance
                    &&& final(self).spec_graph().spec_earliest_within(
                        final(self).spec_allowed(),
                        final(self).spec_query().unwrap().from as int,
                        final(self).spec_query().unwrap().departure as int,
                        state.node as int,
                        state.distance as int,
                    )
                },
            },
    {
        let query = match self.query {
            Some(query) => query,
            None => {
                return QueryProgress::Done(None);
            },
        };
        let ghost g = self.graph;
        let ghost s = query.from as int;
        let ghost t0 = query.departure as int;
        let ghost before = self.spec_state();
        let ghost allowed = self.spec_allowed();
        let n = self.graph.num_nodes();
        match self.closest_node_priority_queue.pop() {
            None => {
                self.result = Some(None);
                proof {
                    assert forall|t: int| #[trigger]
                        g.spec_reaches_within(allowed, s, t0, query.to as int, t) implies t >= INFINITY by {
                        if t < INFINITY {
                            lemma_exhausted(g, s, t0, before, query.to as int, t);
                        }
                    }
                }
                QueryProgress::Done(None)
            },
            Some(State { distance, node }) => {
                self.settled = Ghost(self.settled@.insert(node as int));
                proof {
                    lemma_settle(g, s, t0, before, self.spec_state(), node as int);
                    vstd::set_lib::lemma_int_range(0, n as int);
                    vstd::set_lib::lemma_len_subset(
                        self.settled@,
                        vstd::set_lib::set_int_range(0, n as int),
                    );
                    g.lemma_within_reaches(allowed, s, t0, node as int, distance as int);
                    g.lemma_reaches(s, t0, node as int, distance as int);
                }
                if node == query.to {
                    let answer = distance - query.departure;
                    self.result = Some(Some(answer));
                    return QueryProgress::Done(Some(answer));
                }
                let range = self.graph.neighbor_edge_indices_usize(node);
                let mut e: usize = range.start;
                while e < range.end
                    invariant
                        self.wf(),
                        self.graph == g,
                        self.query == Some(query),
                        self.result.is_none(),
                        n == g.spec_num_nodes(),
                        node < n,
                        range.start == g.spec_first_out()[node as int],
                        range.end == g.spec_first_out()[node as int + 1],
                        range.start <= e <= range.end,
                        range.end <= g.spec_num_arcs(),
                        s == query.from,
                        t0 == query.departure,
                        query.to < n,
                        query.to != node,
                        distance == self.distances@[node as int],
                        distance < INFINITY,
                        self.settled@ == before.settled.insert(node as int),
                        self.spec_allowed() == allowed,
                        !self.settled@.contains(query.to as int),
                        spec_inv(g, s, t0, self.spec_state(), node as int, e as int),
                    decreases range.end - e,
                {
                    let ghost st = self.spec_state();
                    proof {
                        g.lemma_wf();
                        g.lemma_arc(e as int, node as int, g.spec_head()[e as int] as int);
                    }
                    let head = self.graph.head()[e];
                    let travel_time = self.graph.travel_time_function(e as EdgeId).evaluate(distance);
                    let arrival: Timestamp = distance + travel_time;
                    if self.may_take(e) && arrival < *self.distances.get(head as usize) {
                        self.distances.set(head as usize, arrival);
                        self.predecessors[head as usize] = node;
                        proof {
                            assert(st.queue[head as int].is_some() ==> st.queue[head as int]
                                == Some(st.dist[head as int]));
                        }
                        if self.closest_node_priority_queue.contains_index(head as usize) {
                            self.closest_node_priority_queue.decrease_key(
                                State { distance: arrival, node: head },
                            );
                        } else {
                            self.closest_node_priority_queue.push(State { distance: arrival, node: head });
                        }
                        proof {
                            lemma_relax_update(g, s, t0, st, self.spec_state(), node as int, e as int);
                        }
                    } else {
                        proof {
                            lemma_relax_skip(g, s, t0, st, node as int, e as int);
                        }
                    }
                    e += 1;
                }
                proof {
                    lemma_node_done(g, s, t0, self.spec_state(), node as int);
                }
                QueryProgress::Progress(State { distance, node })
            },
        }
    }

    /// Whether the search may take arc `e`.
    pub fn may_take(&self, e: usize) -> (b: bool)
        requires
            self.wf(),
            e < self.spec_graph().spec_num_arcs(),
        ensures
            b == self.spec_allowed()[e as int],
    {
        match &self.allowed {
            Some(marks) => marks.get(e),
            None => true,
        }
    }

    /// The earliest arrival at `node` that is known; `INFINITY` if none is.
    pub fn tentative_distance(&self, node: NodeId) -> (d: Weight)
        requires
            self.wf(),
            node < self.spec_graph().spec_num_nodes(),
        ensures
            d == self.spec_state().dist[node as int],
    {
        *self.distances.get(node as usize)
    }

    /// The node before `node` on the earliest way to it that is known.
    pub fn predecessor(&self, node: NodeId) -> (p: NodeId)
        requires
            self.wf(),
            node < self.spec_graph().spec_num_nodes(),
        ensures
            p == self.spec_state().pred[node as int],
    {
        self.predecessors[node as usize]
    }

    /// The query that is being answered.
    pub fn query(&self) -> (q: TDQuery)
        requires
            self.spec_query().is_some(),
        ensures
            Some(q) == self.spec_query(),
    {
        match self.query {
            Some(query) => query,
            None => TDQuery { from: 0, to: 0, departure: 0 },
        }
    }

    /// The graph that is searched.
    pub fn graph(&self) -> (g: &TDGraph)
        ensures
            *g == self.spec_graph(),
    {
        &self.graph
    }

    /// The nodes of the earliest path that the last search found, from
    /// the start to the target.
    pub fn path(&self) -> (r: Vec<NodeId>)
        requires
            self.ready(),
            self.spec_result() matches Some(Some(_)),
        ensures
            spec_tree_path(
                self.spec_graph(),
                self.spec_state(),
                self.spec_query().unwrap().from as int,
                self.spec_query().unwrap().to as int,
                r@,
            ),
    {
        let query = self.query();
        let ghost g = self.spec_graph();
        let ghost st = self.spec_state();
        let ghost s = query.from as int;
        let ghost t0 = query.departure as int;
        proof {
            self.lemma_ready();
        }
        let mut reversed: Vec<NodeId> = Vec::new();
        let mut current = query.to;
        reversed.push(current);
        while current != query.from
            invariant
                self.wf(),
                g.wf(),
                g == self.spec_graph(),
                st == self.spec_state(),
                spec_tree_inv(g, s, t0, st),
                s == query.from,
                current < g.spec_num_nodes(),
                st.dist[current as int] < INFINITY,
                reversed@.len() >= 1,
                reversed@[0] == query.to,
                reversed@[reversed@.len() - 1] == current,
                forall|i: int|
                    0 <= i < reversed@.len() - 1 ==> (#[trigger] reversed@[i + 1]) == st.pred[reversed@[i] as int]
                        && spec_tree_edge(g, st, reversed@[i] as int),
            decreases st.dist[current as int],
        {
            proof {
                assert(spec_tree_edge(g, st, current as int));
                let e = choose|e: int|
                    #[trigger] g.spec_is_arc(e, st.pred[current as int] as int, current as int)
                        && st.allowed[e] && st.dist[current as int] == g.spec_arrival(
                        e,
                        st.dist[st.pred[current as int] as int] as int,
                    );
                g.lemma_arc(e, st.pred[current as int] as int, current as int);
                g.lemma_arrival(
                    e,
                    st.dist[st.pred[current as int] as int] as int,
                    st.dist[st.pred[current as int] as int] as int,
                );
            }
            let ghost before = reversed@;
            let next = self.predecessor(current);
            reversed.push(next);
            proof {
                assert forall|i: int| 0 <= i < reversed@.len() - 1 implies (#[trigger] reversed@[i + 1])
                    == st.pred[reversed@[i] as int] && spec_tree_edge(g, st, reversed@[i] as int) by {
                    if i < before.len() - 1 {
                        assert(before[i + 1] == st.pred[before[i] as int]);
                    }
                }
            }
            current = next;
        }
        let n = reversed.len();
        let mut path: Vec<NodeId> = Vec::new();
        let mut i: usize = 0;
        while i < n
            invariant
                i <= n,
                n == reversed@.len(),
                path@.len() == i,
                forall|j: int| 0 <= j < i ==> (#[trigger] path@[j]) == reversed@[n - 1 - j],
            decreases n - i,
        {
            path.push(reversed[n - 1 - i]);
            i += 1;
        }
        proof {
            assert forall|j: int| 0 <= j < path@.len() - 1 implies (#[trigger] path@[j]) == st.pred[path@[j
                + 1] as int] && spec_tree_edge(g, st, path@[j + 1] as int) by {
                let k = n - 2 - j;
                assert(reversed@[k + 1] == st.pred[reversed@[k] as int]);
                assert(path@[j + 1] == reversed@[n - 1 - (j + 1)]);
            }
            assert(spec_tree_path(g, st, query.from as int, query.to as int, path@));
        }
        path
    }
}

} // verus!
