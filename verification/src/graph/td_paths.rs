//! Paths through a time-dependent graph and when they arrive.
use vstd::prelude::*;
use crate::graph::plf::{lemma_arrival_monotone_periodic, lemma_eval_periodic_bounds};
use crate::graph::td_graph::Graph;
use crate::types::{EdgeId, INFINITY};

verus! {

impl Graph {
    /// Whether `e` is an arc from `u` to `v`.
    pub open spec fn spec_is_arc(&self, e: int, u: int, v: int) -> bool {
        &&& 0 <= u < self.spec_num_nodes()
        &&& self.spec_first_out()[u] <= e < self.spec_first_out()[u + 1]
        &&& self.spec_head()[e] == v
    }

    /// The moment of arrival at the head of arc `e` when it is entered at `t`.
    pub open spec fn spec_arrival(&self, e: int, t: int) -> int {
        t + self.spec_travel_time(e, t)
    }

    /// The node at which `path`, a sequence of arcs that starts at `start`, ends.
    pub open spec fn spec_path_end(&self, start: int, path: Seq<EdgeId>) -> int {
        if path.len() == 0 {
            start
        } else {
            self.spec_head()[path.last() as int] as int
        }
    }

    /// Whether `path` is a sequence of arcs of the graph that starts at
    /// `start` and in which every arc leaves the node that the one before it enters.
    pub open spec fn spec_is_path(&self, start: int, path: Seq<EdgeId>) -> bool
        decreases path.len(),
    {
        if path.len() == 0 {
            0 <= start < self.spec_num_nodes()
        } else {
            &&& self.spec_is_path(start, path.drop_last())
            &&& self.spec_is_arc(
                path.last() as int,
                self.spec_path_end(start, path.drop_last()),
                self.spec_head()[path.last() as int] as int,
            )
        }
    }

    /// The moment at which `path` arrives when it is entered at `departure`.
    pub open spec fn spec_path_arrival(&self, departure: int, path: Seq<EdgeId>) -> int
        decreases path.len(),
    {
        if path.len() == 0 {
            departure
        } else {
            self.spec_arrival(path.last() as int, self.spec_path_arrival(departure, path.drop_last()))
        }
    }

    /// Whether some path from `start`, entered at `departure`, arrives at `node` at `t`.
    pub open spec fn spec_reaches(&self, start: int, departure: int, node: int, t: int) -> bool {
        exists|path: Seq<EdgeId>|
            #[trigger] self.spec_is_path(start, path) && self.spec_path_end(start, path) == node
                && self.spec_path_arrival(departure, path) == t
    }

    /// Whether `t` is the earliest moment at which a path from `start`,
    /// entered at `departure`, arrives at `node`.
    pub open spec fn spec_earliest(&self, start: int, departure: int, node: int, t: int) -> bool {
        &&& self.spec_reaches(start, departure, node, t)
        &&& forall|other: int| self.spec_reaches(start, departure, node, other) ==> t <= other
    }

    /// Whether every arc of `path` is among the arcs that `allowed` marks.
    pub open spec fn spec_path_within(&self, path: Seq<EdgeId>, allowed: Seq<bool>) -> bool {
        forall|i: int| 0 <= i < path.len() ==> allowed[(#[trigger] path[i]) as int]
    }

    /// Whether some path from `start` along arcs that `allowed` marks,
    /// entered at `departure`, arrives at `node` at `t`.
    pub open spec fn spec_reaches_within(
        &self,
        allowed: Seq<bool>,
        start: int,
        departure: int,
        node: int,
        t: int,
    ) -> bool {
        exists|path: Seq<EdgeId>|
            #[trigger] self.spec_is_path(start, path) && self.spec_path_within(path, allowed)
                && self.spec_path_end(start, path) == node && self.spec_path_arrival(departure, path) == t
    }

    /// Whether `t` is the earliest moment at which a path from `start`
    /// along arcs that `allowed` marks, entered at `departure`, arrives at `node`.
    pub open spec fn spec_earliest_within(
        &self,
        allowed: Seq<bool>,
        start: int,
        departure: int,
        node: int,
        t: int,
    ) -> bool {
        &&& self.spec_reaches_within(allowed, start, departure, node, t)
        &&& forall|other: int|
            self.spec_reaches_within(allowed, start, departure, node, other) ==> t <= other
    }

    /// Whether `allowed` marks every arc.
    pub open spec fn spec_all_allowed(&self, allowed: Seq<bool>) -> bool {
        &&& allowed.len() == self.spec_num_arcs()
        &&& forall|e: int| 0 <= e < allowed.len() ==> #[trigger] allowed[e]
    }

    /// What is reached along marked arcs is reached.
    pub proof fn lemma_within_reaches(&self, allowed: Seq<bool>, start: int, departure: int, node: int, t: int)
        requires
            self.spec_reaches_within(allowed, start, departure, node, t),
        ensures
            self.spec_reaches(start, departure, node, t),
    {
        let path = choose|path: Seq<EdgeId>|
            #[trigger] self.spec_is_path(start, path) && self.spec_path_within(path, allowed)
                && self.spec_path_end(start, path) == node && self.spec_path_arrival(departure, path) == t;
        assert(self.spec_is_path(start, path));
    }

    /// Every arc of a path is an arc of the graph.
    pub proof fn lemma_path_arcs(&self, start: int, path: Seq<EdgeId>, i: int)
        requires
            self.wf(),
            self.spec_is_path(start, path),
            0 <= i < path.len(),
        ensures
            0 <= path[i] < self.spec_num_arcs(),
        decreases path.len(),
    {
        let before = path.drop_last();
        if i < path.len() - 1 {
            self.lemma_path_arcs(start, before, i);
        } else {
            let e = path.last() as int;
            self.lemma_arc(e, self.spec_path_end(start, before), self.spec_head()[e] as int);
        }
    }

    /// Where every arc is marked, what is reached is reached along marked arcs.
    pub proof fn lemma_reaches_within_all(&self, allowed: Seq<bool>, start: int, departure: int, node: int, t: int)
        requires
            self.wf(),
            self.spec_all_allowed(allowed),
            self.spec_reaches(start, departure, node, t),
        ensures
            self.spec_reaches_within(allowed, start, departure, node, t),
    {
        let path = choose|path: Seq<EdgeId>|
            #[trigger] self.spec_is_path(start, path) && self.spec_path_end(start, path) == node
                && self.spec_path_arrival(departure, path) == t;
        assert forall|i: int| 0 <= i < path.len() implies allowed[(#[trigger] path[i]) as int] by {
            self.lemma_path_arcs(start, path, i);
        }
        assert(self.spec_is_path(start, path) && self.spec_path_within(path, allowed));
    }

    /// The start alone is a path along marked arcs.
    pub proof fn lemma_reaches_within_start(&self, allowed: Seq<bool>, start: int, departure: int)
        requires
            0 <= start < self.spec_num_nodes(),
        ensures
            self.spec_reaches_within(allowed, start, departure, start, departure),
    {
        let path = Seq::<EdgeId>::empty();
        assert(self.spec_is_path(start, path) && self.spec_path_within(path, allowed));
    }

    /// A path along marked arcs and one more marked arc from its end is a path along marked arcs.
    pub proof fn lemma_reaches_within_step(
        &self,
        allowed: Seq<bool>,
        start: int,
        departure: int,
        u: int,
        t: int,
        e: int,
        v: int,
    )
        requires
            self.wf(),
            self.spec_reaches_within(allowed, start, departure, u, t),
            self.spec_is_arc(e, u, v),
            allowed[e],
        ensures
            self.spec_reaches_within(allowed, start, departure, v, self.spec_arrival(e, t)),
    {
        self.lemma_arc(e, u, v);
        let path = choose|path: Seq<EdgeId>|
            #[trigger] self.spec_is_path(start, path) && self.spec_path_within(path, allowed)
                && self.spec_path_end(start, path) == u && self.spec_path_arrival(departure, path) == t;
        let longer = path.push(e as EdgeId);
        assert(longer.drop_last() =~= path);
        assert(self.spec_is_path(start, longer));
        assert forall|i: int| 0 <= i < longer.len() implies allowed[(#[trigger] longer[i]) as int] by {
            if i < path.len() {
                assert(longer[i] == path[i]);
            }
        }
        assert(self.spec_path_within(longer, allowed));
    }

    /// Whether `other` has the same nodes, the same arcs and the same
    /// travel time functions.
    pub open spec fn spec_same(&self, other: Graph) -> bool {
        &&& self.spec_first_out() == other.spec_first_out()
        &&& self.spec_head() == other.spec_head()
        &&& forall|e: int| 0 <= e < self.spec_num_arcs() ==> #[trigger] self.spec_plf(e) == other.spec_plf(e)
    }

    /// A path of a graph is a path of a graph that is the same, with the
    /// same end and the same arrival.
    pub proof fn lemma_same_path(&self, other: Graph, start: int, departure: int, path: Seq<EdgeId>)
        requires
            self.wf(),
            self.spec_same(other),
            self.spec_is_path(start, path),
        ensures
            other.spec_is_path(start, path),
            other.spec_path_end(start, path) == self.spec_path_end(start, path),
            other.spec_path_arrival(departure, path) == self.spec_path_arrival(departure, path),
        decreases path.len(),
    {
        if path.len() > 0 {
            let before = path.drop_last();
            self.lemma_same_path(other, start, departure, before);
            self.lemma_path_arcs(start, path, path.len() - 1);
            assert(self.spec_plf(path.last() as int) == other.spec_plf(path.last() as int));
        }
    }

    /// What is reached along marked arcs in a graph is reached along them
    /// in a graph that is the same.
    pub proof fn lemma_same_reaches(
        &self,
        other: Graph,
        allowed: Seq<bool>,
        start: int,
        departure: int,
        node: int,
        t: int,
    )
        requires
            self.wf(),
            self.spec_same(other),
            self.spec_reaches_within(allowed, start, departure, node, t),
        ensures
            other.spec_reaches_within(allowed, start, departure, node, t),
    {
        let path = choose|path: Seq<EdgeId>|
            #[trigger] self.spec_is_path(start, path) && self.spec_path_within(path, allowed)
                && self.spec_path_end(start, path) == node && self.spec_path_arrival(departure, path) == t;
        self.lemma_same_path(other, start, departure, path);
        assert(other.spec_is_path(start, path) && other.spec_path_within(path, allowed));
    }

    /// An arc takes time, and entering it later never means leaving it earlier.
    pub proof fn lemma_arrival(&self, e: int, t: int, later: int)
        requires
            self.wf(),
            0 <= e < self.spec_num_arcs(),
            0 <= t <= later,
        ensures
            t < self.spec_arrival(e, t) < t + INFINITY,
            self.spec_arrival(e, t) <= self.spec_arrival(e, later),
    {
        self.lemma_wf();
        lemma_eval_periodic_bounds(self.spec_plf(e), t);
        lemma_arrival_monotone_periodic(self.spec_plf(e), t, later);
    }

    /// An arc of a node is an arc of the graph, and its head is a node.
    pub proof fn lemma_arc(&self, e: int, u: int, v: int)
        requires
            self.wf(),
            self.spec_is_arc(e, u, v),
        ensures
            0 <= e < self.spec_num_arcs(),
            0 <= v < self.spec_num_nodes(),
    {
        self.lemma_wf();
        self.lemma_edge_in_range(u, e);
    }

    /// The start alone is a path that arrives when it is entered.
    pub proof fn lemma_reaches_start(&self, start: int, departure: int)
        requires
            0 <= start < self.spec_num_nodes(),
        ensures
            self.spec_reaches(start, departure, start, departure),
    {
        let path = Seq::<EdgeId>::empty();
        assert(self.spec_is_path(start, path));
    }

    /// A path and one more arc from its end is a path to the head of that arc.
    pub proof fn lemma_reaches_step(&self, start: int, departure: int, u: int, t: int, e: int, v: int)
        requires
            self.wf(),
            self.spec_reaches(start, departure, u, t),
            self.spec_is_arc(e, u, v),
        ensures
            self.spec_reaches(start, departure, v, self.spec_arrival(e, t)),
    {
        self.lemma_arc(e, u, v);
        let path = choose|path: Seq<EdgeId>|
            #[trigger] self.spec_is_path(start, path) && self.spec_path_end(start, path) == u
                && self.spec_path_arrival(departure, path) == t;
        let longer = path.push(e as EdgeId);
        assert(longer.drop_last() =~= path);
        assert(self.spec_is_path(start, longer));
    }

    /// What is reached is a node, and it is not reached before the departure.
    pub proof fn lemma_reaches(&self, start: int, departure: int, node: int, t: int)
        requires
            self.wf(),
            self.spec_reaches(start, departure, node, t),
            0 <= departure,
        ensures
            departure <= t,
            0 <= node < self.spec_num_nodes(),
            node != start ==> departure < t,
    {
        let path = choose|path: Seq<EdgeId>|
            #[trigger] self.spec_is_path(start, path) && self.spec_path_end(start, path) == node
                && self.spec_path_arrival(departure, path) == t;
        self.lemma_path_arrival(start, departure, path);
    }

    /// No path arrives before it is entered, and every path ends at a node.
    pub proof fn lemma_path_arrival(&self, start: int, departure: int, path: Seq<EdgeId>)
        requires
            self.wf(),
            self.spec_is_path(start, path),
            0 <= departure,
        ensures
            departure <= self.spec_path_arrival(departure, path),
            0 <= self.spec_path_end(start, path) < self.spec_num_nodes(),
            path.len() > 0 ==> departure < self.spec_path_arrival(departure, path),
        decreases path.len(),
    {
        if path.len() > 0 {
            let before = path.drop_last();
            self.lemma_path_arrival(start, departure, before);
            let e = path.last() as int;
            self.lemma_arc(e, self.spec_path_end(start, before), self.spec_head()[e] as int);
            let t = self.spec_path_arrival(departure, before);
            self.lemma_arrival(e, t, t);
        }
    }
}

} // verus!
