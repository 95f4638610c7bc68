//! A search on a graph with scalar weights that settles one node per step.
use vstd::prelude::*;
pub use crate::datastr::index_heap::State;
use crate::datastr::index_heap::{state_le, IndexdMinHeap};
use crate::datastr::timestamped_vector::TimestampedVector;
use crate::graph::first_out_graph::{lemma_offsets_monotone, FirstOutGraph};
use crate::types::{EdgeId, NodeId, Query, Weight, INFINITY};

verus! {

/// What one step of a search did.
#[derive(Debug, Clone, Copy, PartialEq, Eq)]
pub enum QueryProgress {
    /// A node was settled.
    Progress(State),
    /// The search is over, with the distance to the target if there is a way.
    Done(Option<Weight>),
}

impl FirstOutGraph {
    /// Whether `e` is an arc from `u` to `v`.
    pub open spec fn spec_is_arc(&self, e: int, u: int, v: int) -> bool {
        &&& 0 <= u < self.spec_num_nodes()
        &&& self.spec_first_out()[u] <= e < self.spec_first_out()[u + 1]
        &&& self.spec_head()[e] == v
    }

    /// The node at which `path`, a sequence of arcs that starts at `start`, ends.
    pub open spec fn spec_path_end(&self, start: int, path: Seq<EdgeId>) -> int {
        if path.len() == 0 {
            start
        } else {
            self.spec_head()[path.last() as int] as int
        }
    }

    /// Whether `path` is a sequence of arcs of the graph that starts at
    /// `start` and in which every arc leaves the node that the one before it enters.
    pub open spec fn spec_is_path(&self, start: int, path: Seq<EdgeId>) -> bool
        decreases path.len(),
    {
        if path.len() == 0 {
            0 <= start < self.spec_num_nodes()
        } else {
            &&& self.spec_is_path(start, path.drop_last())
            &&& self.spec_is_arc(
                path.last() as int,
                self.spec_path_end(start, path.drop_last()),
                self.spec_head()[path.last() as int] as int,
            )
        }
    }

    /// The sum of the weights of the arcs of `path`.
    pub open spec fn spec_path_weight(&self, path: Seq<EdgeId>) -> int
        decreases path.len(),
    {
        if path.len() == 0 {
            0
        } else {
            self.spec_path_weight(path.drop_last()) + self.spec_weight()[path.last() as int]
        }
    }

    /// Whether some path from `start` to `node` has weight `d`.
    pub open spec fn spec_reaches(&self, start: int, node: int, d: int) -> bool {
        exists|path: Seq<EdgeId>|
            #[trigger] self.spec_is_path(start, path) && self.spec_path_end(start, path) == node
                && self.spec_path_weight(path) == d
    }

    /// Whether `d` is the least weight of a path from `start` to `node`.
    pub open spec fn spec_shortest(&self, start: int, node: int, d: int) -> bool {
        &&& self.spec_reaches(start, node, d)
        &&& forall|other: int| self.spec_reaches(start, node, other) ==> d <= other
    }

    /// An arc of a node is an arc of the graph, and its head is a node.
    pub proof fn lemma_arc(&self, e: int, u: int, v: int)
        requires
            self.wf(),
            self.spec_is_arc(e, u, v),
        ensures
            0 <= e < self.spec_head().len(),
            0 <= v < self.spec_num_nodes(),
            self.spec_num_nodes() < u32::MAX,
    {
        self.lemma_wf();
        lemma_offsets_monotone(
            self.spec_first_out(),
            self.spec_head().len() as int,
            u + 1,
            self.spec_first_out().len() - 1,
        );
    }

    /// A path and one more arc from its end is a path to the head of that arc.
    pub proof fn lemma_reaches_step(&self, start: int, u: int, d: int, e: int, v: int)
        requires
            self.wf(),
            self.spec_reaches(start, u, d),
            self.spec_is_arc(e, u, v),
        ensures
            self.spec_reaches(start, v, d + self.spec_weight()[e]),
    {
        self.lemma_arc(e, u, v);
        let path = choose|path: Seq<EdgeId>|
            #[trigger] self.spec_is_path(start, path) && self.spec_path_end(start, path) == u
                && self.spec_path_weight(path) == d;
        let longer = path.push(e as EdgeId);
        assert(longer.drop_last() =~= path);
        assert(self.spec_is_path(start, longer));
    }

    /// No path has a negative weight, and every path ends at a node.
    pub proof fn lemma_path_weight(&self, start: int, path: Seq<EdgeId>)
        requires
            self.wf(),
            self.spec_is_path(start, path),
        ensures
            0 <= self.spec_path_weight(path),
            0 <= self.spec_path_end(start, path) < self.spec_num_nodes(),
        decreases path.len(),
    {
        if path.len() > 0 {
            let before = path.drop_last();
            self.lemma_path_weight(start, before);
            let e = path.last() as int;
            self.lemma_arc(e, self.spec_path_end(start, before), self.spec_head()[e] as int);
        }
    }
}

/// The state of a search: the least known distance to every node, the
/// node before it on the way there, the queue, and the nodes that were
/// taken from the queue.
pub struct Labels {
    pub dist: Seq<Weight>,
    pub pred: Seq<NodeId>,
    pub queue: Seq<Option<Weight>>,
    pub settled: Set<int>,
}

/// Whether the distance known to the head of arc `e` is at most that
/// across `e` from its tail `u`.
pub open spec fn spec_relaxed(g: FirstOutGraph, dist: Seq<Weight>, u: int, e: int) -> bool {
    dist[g.spec_head()[e] as int] <= dist[u] + g.spec_weight()[e]
}

/// Whether a search is in order while the arcs of `cur` before `done` have
/// been looked at (none are being looked at where `cur` is no node): every
/// distance known is the weight of a path; the queue holds nodes that are
/// reached, with their distances; a node that was taken from the queue is
/// as close as can be and not in the queue; every arc of a node that is
/// reached and not in the queue has been looked at; and the nodes were
/// taken from the queue in the order of their distances.
pub open spec fn spec_inv(g: FirstOutGraph, s: int, st: Labels, cur: int, done: int) -> bool {
    let n = g.spec_num_nodes();
    &&& 0 <= s < n
    &&& st.dist.len() == n
    &&& st.pred.len() == n
    &&& st.queue.len() == n
    &&& st.dist[s] == 0
    &&& forall|v: int| 0 <= v < n ==> (#[trigger] st.dist[v]) <= INFINITY
    &&& forall|v: int| 0 <= v < n && (#[trigger] st.dist[v]) < INFINITY ==> g.spec_reaches(s, v, st.dist[v] as int)
    &&& forall|v: int|
        0 <= v < n ==> ((#[trigger] st.queue[v]) matches Some(k) ==> k == st.dist[v] && k < INFINITY)
    &&& forall|v: int|
        #[trigger] st.settled.contains(v) ==> 0 <= v < n && st.queue[v].is_none() && st.dist[v]
            < INFINITY && forall|d: int| #[trigger] g.spec_reaches(s, v, d) ==> st.dist[v] <= d
    &&& forall|u: int, e: int|
        0 <= u < n && st.dist[u] < INFINITY && st.queue[u].is_none() && g.spec_first_out()[u] <= e
            < g.spec_first_out()[u + 1] && (u != cur || e < done) ==> #[trigger] spec_relaxed(
            g,
            st.dist,
            u,
            e,
        )
    &&& forall|v: int|
        0 <= v < n && (#[trigger] st.dist[v]) < INFINITY && st.queue[v].is_none() ==> st.settled.contains(v)
    &&& spec_in_order(st, n)
    &&& 0 <= cur < n ==> spec_farthest(st, cur)
}

/// Whether no node that is done is known to be farther than a node that is not.
pub open spec fn spec_in_order(st: Labels, n: int) -> bool {
    forall|u: int, v: int|
        #![trigger st.settled.contains(u), st.dist[v]]
        st.settled.contains(u) && 0 <= v < n && !st.settled.contains(v) ==> st.dist[u] <= st.dist[v]
}

/// Whether no node that is done is known to be farther than `cur`.
pub open spec fn spec_farthest(st: Labels, cur: int) -> bool {
    forall|u: int| #[trigger] st.settled.contains(u) ==> st.dist[u] <= st.dist[cur]
}

/// Along any path from the start, either its end is known to be no
/// farther than the path is long, or some node in the queue is.
pub proof fn lemma_cut(g: FirstOutGraph, s: int, st: Labels, path: Seq<EdgeId>)
    requires
        g.wf(),
        spec_inv(g, s, st, -1, 0),
        g.spec_is_path(s, path),
    ensures
        st.dist[g.spec_path_end(s, path)] <= g.spec_path_weight(path) || (exists|y: int|
            0 <= y < g.spec_num_nodes() && (#[trigger] st.queue[y]).is_some() && st.dist[y]
                <= g.spec_path_weight(path)),
    decreases path.len(),
{
    if path.len() > 0 {
        let before = path.drop_last();
        let e = path.last() as int;
        let u = g.spec_path_end(s, before);
        let x = g.spec_path_end(s, path);
        lemma_cut(g, s, st, before);
        g.lemma_path_weight(s, before);
        g.lemma_arc(e, u, x);
        if st.dist[u] <= g.spec_path_weight(before) {
            if st.queue[u].is_none() {
                if st.dist[u] < INFINITY {
                    assert(spec_relaxed(g, st.dist, u, e));
                }
            }
        } else {
            let y = choose|y: int|
                0 <= y < g.spec_num_nodes() && (#[trigger] st.queue[y]).is_some() && st.dist[y]
                    <= g.spec_path_weight(before);
            assert(st.dist[y] <= g.spec_path_weight(path));
        }
    }
}

/// The node at the front of the queue is as close as can be, and with it
/// out of the queue the search is in order for looking at its arcs.
pub proof fn lemma_settle(g: FirstOutGraph, s: int, before: Labels, after: Labels, u: int)
    requires
        g.wf(),
        spec_inv(g, s, before, -1, 0),
        0 <= u < g.spec_num_nodes(),
        before.queue[u].is_some(),
        forall|x: int|
            0 <= x < before.queue.len() && before.queue[x].is_some() ==> state_le(
                State { distance: before.queue[u].unwrap(), node: u as NodeId },
                State { distance: (#[trigger] before.queue[x]).unwrap(), node: x as NodeId },
            ),
        after.dist == before.dist,
        after.pred == before.pred,
        after.queue == before.queue.update(u, None),
        after.settled == before.settled.insert(u),
    ensures
        spec_inv(g, s, after, u, g.spec_first_out()[u] as int),
        g.spec_shortest(s, u, before.dist[u] as int),
        !before.settled.contains(u),
{
    assert forall|d: int| g.spec_reaches(s, u, d) implies before.dist[u] <= d by {
        let path = choose|path: Seq<EdgeId>|
            #[trigger] g.spec_is_path(s, path) && g.spec_path_end(s, path) == u && g.spec_path_weight(
                path,
            ) == d;
        lemma_cut(g, s, before, path);
        if !(before.dist[u] <= d) {
            let y = choose|y: int|
                0 <= y < g.spec_num_nodes() && (#[trigger] before.queue[y]).is_some()
                    && before.dist[y] <= d;
            assert(before.queue[y].unwrap() == before.dist[y]);
        }
    }
    assert forall|w: int, e: int|
        0 <= w < g.spec_num_nodes() && after.dist[w] < INFINITY && after.queue[w].is_none()
            && g.spec_first_out()[w] <= e < g.spec_first_out()[w + 1] && (w != u || e
            < g.spec_first_out()[u]) implies #[trigger] spec_relaxed(g, after.dist, w, e) by {
        assert(spec_relaxed(g, before.dist, w, e));
    }
    assert forall|v: int| #[trigger] after.settled.contains(v) implies 0 <= v < g.spec_num_nodes()
        && after.queue[v].is_none() && after.dist[v] < INFINITY && forall|d: int|
        #[trigger] g.spec_reaches(s, v, d) ==> after.dist[v] <= d by {
        if v != u {
            assert(before.settled.contains(v));
        }
    }
    let n = g.spec_num_nodes();
    assert(!before.settled.contains(u));
    assert forall|w: int| #[trigger] after.settled.contains(w) implies after.dist[w] <= after.dist[u] by {
        if w != u {
            assert(before.settled.contains(w));
        }
    }
    assert forall|w: int, v: int|
        #![trigger after.settled.contains(w), after.dist[v]]
        after.settled.contains(w) && 0 <= v < n && !after.settled.contains(v) implies after.dist[w]
            <= after.dist[v] by {
        if w != u {
            assert(before.settled.contains(w));
        } else if before.queue[v].is_some() {
            assert(state_le(
                State { distance: before.queue[u].unwrap(), node: u as NodeId },
                State { distance: before.queue[v].unwrap(), node: v as NodeId },
            ));
        }
    }
}

/// Looking at an arc that does not lead to a shorter way changes nothing.
pub proof fn lemma_relax_skip(g: FirstOutGraph, s: int, st: Labels, u: int, e: int)
    requires
        spec_inv(g, s, st, u, e),
        g.spec_first_out()[u] <= e < g.spec_first_out()[u + 1],
        st.dist[g.spec_head()[e] as int] <= st.dist[u] + g.spec_weight()[e],
    ensures
        spec_inv(g, s, st, u, e + 1),
{
    assert forall|w: int, f: int|
        0 <= w < g.spec_num_nodes() && st.dist[w] < INFINITY && st.queue[w].is_none()
            && g.spec_first_out()[w] <= f < g.spec_first_out()[w + 1] && (w != u || f < e + 1) implies #[trigger] spec_relaxed(
        g,
        st.dist,
        w,
        f,
    ) by {
        if w == u && f == e {
        } else {
            assert(spec_relaxed(g, st.dist, w, f));
        }
    }
}

/// Looking at an arc that leads to a shorter way to its head makes that
/// the distance known there, and puts the head into the queue.
pub proof fn lemma_relax_update(g: FirstOutGraph, s: int, before: Labels, after: Labels, u: int, e: int)
    requires
        g.wf(),
        spec_inv(g, s, before, u, e),
        0 <= u < g.spec_num_nodes(),
        before.dist[u] < INFINITY,
        g.spec_first_out()[u] <= e < g.spec_first_out()[u + 1],
        before.dist[u] + g.spec_weight()[e] < before.dist[g.spec_head()[e] as int],
        after.dist == before.dist.update(
            g.spec_head()[e] as int,
            (before.dist[u] + g.spec_weight()[e]) as Weight,
        ),
        after.pred == before.pred.update(g.spec_head()[e] as int, u as NodeId),
        after.queue == before.queue.update(
            g.spec_head()[e] as int,
            Some((before.dist[u] + g.spec_weight()[e]) as Weight),
        ),
        after.settled == before.settled,
    ensures
        spec_inv(g, s, after, u, e + 1),
        g.spec_head()[e] != u,
{
    let n = g.spec_num_nodes();
    let v = g.spec_head()[e] as int;
    let next = before.dist[u] + g.spec_weight()[e];
    g.lemma_arc(e, u, v);
    g.lemma_reaches_step(s, u, before.dist[u] as int, e, v);
    assert(v != u);
    assert(v != s);
    assert(!before.settled.contains(v));
    assert(after.dist[v] == next);
    assert forall|w: int| #[trigger] after.settled.contains(w) implies 0 <= w < n && after.queue[w].is_none()
        && after.dist[w] < INFINITY && forall|d: int|
        #[trigger] g.spec_reaches(s, w, d) ==> after.dist[w] <= d by {
        assert(before.settled.contains(w));
    }
    assert forall|w: int, f: int|
        0 <= w < n && after.dist[w] < INFINITY && after.queue[w].is_none() && g.spec_first_out()[w]
            <= f < g.spec_first_out()[w + 1] && (w != u || f < e + 1) implies #[trigger] spec_relaxed(
        g,
        after.dist,
        w,
        f,
    ) by {
        if w == u && f == e {
        } else {
            assert(w != v);
            g.lemma_arc(f, w, g.spec_head()[f] as int);
            assert(spec_relaxed(g, before.dist, w, f));
        }
    }
}

/// With all arcs of a node looked at, the search is in order for the next node.
pub proof fn lemma_node_done(g: FirstOutGraph, s: int, st: Labels, u: int)
    requires
        0 <= u < g.spec_num_nodes(),
        spec_inv(g, s, st, u, g.spec_first_out()[u + 1] as int),
    ensures
        spec_inv(g, s, st, -1, 0),
{
    assert forall|w: int, f: int|
        0 <= w < g.spec_num_nodes() && st.dist[w] < INFINITY && st.queue[w].is_none()
            && g.spec_first_out()[w] <= f < g.spec_first_out()[w + 1] && (w != -1 || f < 0) implies #[trigger] spec_relaxed(
        g,
        st.dist,
        w,
        f,
    ) by {
        assert(spec_relaxed(g, st.dist, w, f));
    }
}

/// With nothing in the queue, every distance known is the least there is.
pub proof fn lemma_exhausted(g: FirstOutGraph, s: int, st: Labels, v: int, d: int)
    requires
        g.wf(),
        spec_inv(g, s, st, -1, 0),
        forall|x: int| 0 <= x < st.queue.len() ==> (#[trigger] st.queue[x]).is_none(),
        g.spec_reaches(s, v, d),
    ensures
        st.dist[v] <= d,
{
    let path = choose|path: Seq<EdgeId>|
        #[trigger] g.spec_is_path(s, path) && g.spec_path_end(s, path) == v && g.spec_path_weight(path)
            == d;
    lemma_cut(g, s, st, path);
}

/// Whether `answer` is the answer to the query: the least weight of a
/// path, or nothing where no path has a weight below `INFINITY`; a target
/// that is no node of the graph is never reached.
pub open spec fn spec_answer(g: FirstOutGraph, query: Query, answer: Option<Weight>) -> bool {
    match answer {
        Some(d) => g.spec_shortest(query.from as int, query.to as int, d as int),
        None => forall|d: int|
            #[trigger] g.spec_reaches(query.from as int, query.to as int, d) ==> d >= INFINITY,
    }
}

/// Whether the distance known to every node is the least weight of a
/// path to it, or `INFINITY` where no path has a weight below that.
pub open spec fn spec_all_shortest(g: FirstOutGraph, s: int, dist: Seq<Weight>) -> bool {
    &&& dist.len() == g.spec_num_nodes()
    &&& forall|v: int| 0 <= v < dist.len() ==> (#[trigger] dist[v]) <= INFINITY
    &&& forall|v: int| 0 <= v < dist.len() && (#[trigger] dist[v]) < INFINITY ==> g.spec_reaches(s, v, dist[v] as int)
    &&& forall|v: int, d: int| 0 <= v < dist.len() && #[trigger] g.spec_reaches(s, v, d) ==> dist[v] <= d
}

/// Whether the target, if it is a node and reached, is still in the queue.
pub open spec fn spec_target_waits(st: Labels, target: int) -> bool {
    0 <= target < st.dist.len() && st.dist[target] < INFINITY ==> st.queue[target].is_some()
}

/// Dijkstra's search.
pub struct SteppedDijkstra {
    graph: FirstOutGraph,
    distances: TimestampedVector<Weight>,
    predecessors: Vec<NodeId>,
    closest_node_priority_queue: IndexdMinHeap,
    query: Option<Query>,
    result: Option<Option<Weight>>,
    settled: Ghost<Set<int>>,
}

impl SteppedDijkstra {
    /// The graph that is searched.
    pub closed spec fn spec_graph(&self) -> FirstOutGraph {
        self.graph
    }

    /// The query that is being answered.
    pub closed spec fn spec_query(&self) -> Option<Query> {
        self.query
    }

    /// The answer, once the search is over.
    pub closed spec fn spec_result(&self) -> Option<Option<Weight>> {
        self.result
    }

    /// What the search knows.
    pub closed spec fn spec_state(&self) -> Labels {
        Labels {
            dist: self.distances@,
            pred: self.predecessors@,
            queue: self.closest_node_priority_queue@,
            settled: self.settled@,
        }
    }

    /// Number of nodes that were taken from the queue; it grows with every step that settles a node.
    pub closed spec fn spec_num_settled(&self) -> nat {
        self.settled@.len()
    }

    /// The nodes that were taken from the queue are nodes, so there are no more of them than nodes.
    pub proof fn lemma_num_settled(&self)
        requires
            self.wf(),
        ensures
            self.spec_num_settled() <= self.spec_graph().spec_num_nodes(),
    {
    }

    /// Representation invariant: one cell per node in every container.
    pub closed spec fn wf(&self) -> bool {
        &&& self.graph.wf()
        &&& self.distances.wf()
        &&& self.distances.spec_default() == INFINITY
        &&& self.closest_node_priority_queue.wf()
        &&& self.distances@.len() == self.graph.spec_num_nodes()
        &&& self.predecessors@.len() == self.graph.spec_num_nodes()
        &&& self.closest_node_priority_queue@.len() == self.graph.spec_num_nodes()
        &&& self.settled@.finite()
        &&& self.settled@.len() <= self.graph.spec_num_nodes()
        &&& forall|v: int| self.settled@.contains(v) ==> 0 <= v < self.graph.spec_num_nodes()
    }

    /// Whether a query has been set up and the search is in order: while
    /// it runs, as `spec_inv` says; when it is over, the answer is the
    /// answer to the query.
    pub open spec fn ready(&self) -> bool {
        &&& self.wf()
        &&& self.spec_query() matches Some(query) && {
            &&& query.from < self.spec_graph().spec_num_nodes()
            &&& match self.spec_result() {
                None => spec_inv(self.spec_graph(), query.from as int, self.spec_state(), -1, 0)
                    && spec_target_waits(self.spec_state(), query.to as int),
                Some(answer) => spec_answer(self.spec_graph(), query, answer) && (answer.is_none()
                    ==> spec_all_shortest(self.spec_graph(), query.from as int, self.spec_state().dist)),
            }
        }
    }

    /// Every container has one cell per node.
    pub proof fn lemma_sizes(&self)
        requires
            self.wf(),
        ensures
            self.spec_graph().wf(),
            self.spec_state().dist.len() == self.spec_graph().spec_num_nodes(),
            self.spec_state().pred.len() == self.spec_graph().spec_num_nodes(),
    {
    }

    /// A search for a target that is no node ends with the least distance to every node.
    pub proof fn lemma_no_target(&self)
        requires
            self.ready(),
            self.spec_result().is_some(),
            self.spec_query().unwrap().to >= self.spec_graph().spec_num_nodes(),
        ensures
            self.spec_result() == Some(None::<Weight>),
            spec_all_shortest(
                self.spec_graph(),
                self.spec_query().unwrap().from as int,
                self.spec_state().dist,
            ),
    {
        let g = self.spec_graph();
        let query = self.spec_query().unwrap();
        if let Some(Some(d)) = self.spec_result() {
            let path = choose|path: Seq<EdgeId>|
                #[trigger] g.spec_is_path(query.from as int, path) && g.spec_path_end(
                    query.from as int,
                    path,
                ) == query.to && g.spec_path_weight(path) == d;
            g.lemma_path_weight(query.from as int, path);
        }
    }

    /// What a search in order gives.
    pub proof fn lemma_ready(&self)
        requires
            self.ready(),
        ensures
            self.spec_graph().wf(),
            self.spec_state().dist.len() == self.spec_graph().spec_num_nodes(),
    {
    }

    /// A search on `graph`.
    pub fn new(graph: FirstOutGraph) -> (r: SteppedDijkstra)
        requires
            graph.wf(),
        ensures
            r.wf(),
            r.spec_graph() == graph,
            r.spec_query().is_none(),
    {
        let n = graph.num_nodes();
        proof {
            graph.lemma_wf();
        }
        let mut predecessors: Vec<NodeId> = Vec::new();
        let mut i: usize = 0;
        while i < n
            invariant
                i <= n,
                n <= u32::MAX,
                predecessors@.len() == i,
            decreases n - i,
        {
            predecessors.push(n as NodeId);
            i += 1;
        }
        SteppedDijkstra {
            graph,
            distances: TimestampedVector::new(n, INFINITY),
            predecessors,
            closest_node_priority_queue: IndexdMinHeap::new(n),
            query: None,
            result: None,
            settled: Ghost(Set::empty()),
        }
    }

    /// Sets a query up: no node is reached but the start, at distance zero.
    pub fn initialize_query(&mut self, query: Query)
        requires
            old(self).wf(),
            query.from < old(self).spec_graph().spec_num_nodes(),
        ensures
            final(self).ready(),
            final(self).spec_graph() == old(self).spec_graph(),
            final(self).spec_query() == Some(query),
            final(self).spec_result().is_none(),
            final(self).spec_state().settled == Set::<int>::empty(),
            final(self).spec_state().dist.len() == old(self).spec_graph().spec_num_nodes(),
            final(self).spec_state().queue.len() == old(self).spec_graph().spec_num_nodes(),
            forall|v: int|
                0 <= v < final(self).spec_state().dist.len() ==> #[trigger] final(self).spec_state().dist[v]
                    == (if v == query.from {
                    0u32
                } else {
                    INFINITY
                }),
            forall|v: int|
                0 <= v < final(self).spec_state().queue.len() ==> #[trigger] final(self).spec_state().queue[v]
                    == (if v == query.from {
                    Some(0u32)
                } else {
                    None
                }),
    {
        let from = query.from;
        self.query = Some(query);
        self.result = None;
        self.closest_node_priority_queue.clear();
        self.distances.reset();
        self.settled = Ghost(Set::empty());
        self.distances.set(from as usize, 0);
        self.closest_node_priority_queue.push(State { distance: 0, node: from });
        proof {
            let path = Seq::<EdgeId>::empty();
            assert(self.graph.spec_is_path(from as int, path));
        }
    }

    /// Does one step: hands the stored answer out if the search is over,
    /// else settles the closest node of the queue.  A node that is settled
    /// is as close as can be, and no closer than the nodes settled before it.
    pub fn next_step(&mut self) -> (r: QueryProgress)
        requires
            old(self).ready(),
        ensures
            final(self).ready(),
            final(self).spec_graph() == old(self).spec_graph(),
            final(self).spec_query() == old(self).spec_query(),
            match r {
                QueryProgress::Done(answer) => final(self).spec_result() == Some(answer),
                QueryProgress::Progress(state) => {
                    &&& old(self).spec_result().is_none()
                    &&& final(self).spec_result().is_none()
                    &&& final(self).spec_num_settled() == old(self).spec_num_settled() + 1
                    &&& final(self).spec_state().settled == old(self).spec_state().settled.insert(
                        state.node as int,
                    )
                    &&& forall|v: int| #[trigger]
                        old(self).spec_state().settled.contains(v) ==> old(self).spec_state().dist[v]
                            <= state.distance
                    &&& final(self).spec_state().dist[state.node as int] == state.distance
                    &&& final(self).spec_graph().spec_shortest(
                        final(self).spec_query().unwrap().from as int,
                        state.node as int,
                        state.distance as int,
                    )
                },
            },
    {
        match self.result {
            Some(result) => QueryProgress::Done(result),
            None => self.settle_next_node(),
        }
    }

    /// Settles the closest node of the queue and looks at its arcs.
    #[verifier::spinoff_prover]
    fn settle_next_node(&mut self) -> (r: QueryProgress)
        requires
            old(self).ready(),
            old(self).spec_result().is_none(),
        ensures
            final(self).ready(),
            final(self).spec_graph() == old(self).spec_graph(),
            final(self).spec_query() == old(self).spec_query(),
            match r {
                QueryProgress::Done(answer) => final(self).spec_result() == Some(answer),
                QueryProgress::Progress(state) => {
                    &&& final(self).spec_result().is_none()
                    &&& final(self).spec_num_settled() == old(self).spec_num_settled() + 1
                    &&& final(self).spec_state().settled == old(self).spec_state().settled.insert(
                        state.node as int,
                    )
                    &&& forall|v: int| #[trigger]
                        old(self).spec_state().settled.contains(v) ==> old(self).spec_state().dist[v]
                            <= state.distance
                    &&& final(self).spec_state().dist[state.node as int] == state.distance
                    &&& final(self).spec_graph().spec_shortest(
                        final(self).spec_query().unwrap().from as int,
                        state.node as int,
                        state.distance as int,
                    )
                },
            },
    {
        let query = match self.query {
            Some(query) => query,
            None => {
                return QueryProgress::Done(None);
            },
        };
        let ghost g = self.graph;
        let ghost s = query.from as int;
        let ghost before = self.spec_state();
        let n = self.graph.num_nodes();
        match self.closest_node_priority_queue.pop() {
            None => {
                self.result = Some(None);
                proof {
                    assert forall|d: int| #[trigger] g.spec_reaches(s, query.to as int, d) implies d
                        >= INFINITY by {
                        let path = choose|path: Seq<EdgeId>|
                            #[trigger] g.spec_is_path(s, path) && g.spec_path_end(s, path) == query.to
                                && g.spec_path_weight(path) == d;
                        g.lemma_path_weight(s, path);
                        lemma_exhausted(g, s, before, query.to as int, d);
                        if d < INFINITY {
                            assert(before.queue[query.to as int].is_none());
                        }
                    }
                    assert forall|v: int, d: int|
                        0 <= v < before.dist.len() && #[trigger] g.spec_reaches(s, v, d) implies before.dist[v]
                        <= d by {
                        lemma_exhausted(g, s, before, v, d);
                    }
                }
                QueryProgress::Done(None)
            },
            Some(State { distance, node }) => {
                self.settled = Ghost(self.settled@.insert(node as int));
                proof {
                    lemma_settle(g, s, before, self.spec_state(), node as int);
                    vstd::set_lib::lemma_int_range(0, n as int);
                    vstd::set_lib::lemma_len_subset(
                        self.settled@,
                        vstd::set_lib::set_int_range(0, n as int),
                    );
                }
                if node == query.to {
                    self.result = Some(Some(distance));
                    return QueryProgress::Done(Some(distance));
                }
                let links = self.graph.neighbor_iter(node);
                let ghost first = g.spec_first_out()[node as int] as int;
                proof {
                    g.lemma_wf();
                    assert(g.spec_first_out()[node as int] <= g.spec_first_out()[node as int + 1]);
                }
                let mut i: usize = 0;
                while i < links.len()
                    invariant
                        self.wf(),
                        self.graph == g,
                        g.wf(),
                        self.query == Some(query),
                        self.result.is_none(),
                        n == g.spec_num_nodes(),
                        node < n,
                        i <= links@.len(),
                        links@ == g.spec_links(node as int),
                        first == g.spec_first_out()[node as int],
                        first + links@.len() == g.spec_first_out()[node as int + 1],
                        s == query.from,
                        distance == self.distances@[node as int],
                        distance < INFINITY,
                        self.spec_state().queue[node as int].is_none(),
                        self.settled@ == before.settled.insert(node as int),
                        !before.settled.contains(node as int),
                        node != query.to,
                        spec_target_waits(self.spec_state(), query.to as int),
                        spec_inv(g, s, self.spec_state(), node as int, first + i),
                    decreases links@.len() - i,
                {
                    let ghost st = self.spec_state();
                    let ghost e = first + i;
                    let link = links[i];
                    proof {
                        g.lemma_arc(e, node as int, g.spec_head()[e] as int);
                        assert(link == g.spec_links(node as int)[i as int]);
                    }
                    let next: u64 = distance as u64 + link.weight as u64;
                    if next < *self.distances.get(link.node as usize) as u64 {
                        self.distances.set(link.node as usize, next as Weight);
                        self.predecessors[link.node as usize] = node;
                        if self.closest_node_priority_queue.contains_index(link.node as usize) {
                            self.closest_node_priority_queue.decrease_key(
                                State { distance: next as Weight, node: link.node },
                            );
                        } else {
                            self.closest_node_priority_queue.push(
                                State { distance: next as Weight, node: link.node },
                            );
                        }
                        proof {
                            lemma_relax_update(g, s, st, self.spec_state(), node as int, e);
                        }
                    } else {
                        proof {
                            lemma_relax_skip(g, s, st, node as int, e);
                        }
                    }
                    i += 1;
                }
                proof {
                    lemma_node_done(g, s, self.spec_state(), node as int);
                }
                QueryProgress::Progress(State { distance, node })
            },
        }
    }

    /// Runs the search to its end.
    pub fn run(&mut self) -> (r: Option<Weight>)
        requires
            old(self).ready(),
        ensures
            final(self).ready(),
            final(self).spec_graph() == old(self).spec_graph(),
            final(self).spec_query() == old(self).spec_query(),
            final(self).spec_result() == Some(r),
    {
        loop
            invariant
                self.ready(),
                self.spec_graph() == old(self).spec_graph(),
                self.spec_query() == old(self).spec_query(),
            decreases
                    self.spec_graph().spec_num_nodes() - self.spec_num_settled() + if self.spec_result().is_none() {
                        1int
                    } else {
                        0int
                    },
        {
            proof {
                self.lemma_num_settled();
            }
            match self.next_step() {
                QueryProgress::Progress(_) => {
                    proof {
                        self.lemma_num_settled();
                    }
                },
                QueryProgress::Done(result) => {
                    return result;
                },
            }
        }
    }

    /// The least distance to `node` that is known; `INFINITY` if none is.
    pub fn tentative_distance(&self, node: NodeId) -> (d: Weight)
        requires
            self.wf(),
            node < self.spec_graph().spec_num_nodes(),
        ensures
            d == self.spec_state().dist[node as int],
    {
        *self.distances.get(node as usize)
    }

    /// The node before `node` on the shortest way to it that is known.
    pub fn predecessor(&self, node: NodeId) -> (p: NodeId)
        requires
            self.wf(),
            node < self.spec_graph().spec_num_nodes(),
        ensures
            p == self.spec_state().pred[node as int],
    {
        self.predecessors[node as usize]
    }

    /// The query that is being answered.
    pub fn query(&self) -> (q: Query)
        requires
            self.spec_query().is_some(),
        ensures
            Some(q) == self.spec_query(),
    {
        match self.query {
            Some(query) => query,
            None => Query { from: 0, to: 0 },
        }
    }

    /// The graph that is searched.
    pub fn graph(&self) -> (g: &FirstOutGraph)
        ensures
            *g == self.spec_graph(),
    {
        &self.graph
    }
}

} // verus!
