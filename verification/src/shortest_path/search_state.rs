//! What a search from one node at one moment knows while it runs, and why
//! settling the closest node first is right.
use vstd::prelude::*;
use crate::datastr::index_heap::{state_le, State};
use crate::graph::td_graph::Graph;
use crate::types::{EdgeId, NodeId, Weight, INFINITY};

verus! {

/// The state of a search: the earliest known arrival at every node, the
/// node before it on the way there, the queue, the nodes that are done,
/// and the arcs that the search may take.
pub struct SearchState {
    pub dist: Seq<Weight>,
    pub pred: Seq<NodeId>,
    pub queue: Seq<Option<Weight>>,
    pub settled: Set<int>,
    pub allowed: Seq<bool>,
}

/// Whether the arrival known at the head of arc `e` is no later than the
/// arrival across `e` from its tail `u`.
pub open spec fn spec_relaxed(g: Graph, dist: Seq<Weight>, u: int, e: int) -> bool {
    dist[g.spec_head()[e] as int] <= g.spec_arrival(e, dist[u] as int)
}

/// Whether the arrival known at `v` is that across an arc from the node
/// before it, which is done.
pub open spec fn spec_tree_edge(g: Graph, st: SearchState, v: int) -> bool {
    &&& st.pred[v] < st.dist.len()
    &&& st.settled.contains(st.pred[v] as int)
    &&& exists|e: int|
        #[trigger] g.spec_is_arc(e, st.pred[v] as int, v) && st.allowed[e] && st.dist[v]
            == g.spec_arrival(e, st.dist[st.pred[v] as int] as int)
}

/// Whether every arrival known is the arrival of a path, and every node
/// reached but the start has a node before it.
pub open spec fn spec_tree_inv(g: Graph, s: int, t0: int, st: SearchState) -> bool {
    let n = g.spec_num_nodes();
    &&& 0 <= s < n
    &&& 0 <= t0 < INFINITY
    &&& st.dist.len() == n
    &&& st.pred.len() == n
    &&& st.queue.len() == n
    &&& st.allowed.len() == g.spec_num_arcs()
    &&& st.dist[s] == t0
    &&& forall|v: int| 0 <= v < n ==> (#[trigger] st.dist[v]) <= INFINITY
    &&& forall|v: int|
        0 <= v < n && (#[trigger] st.dist[v]) < INFINITY ==> g.spec_reaches_within(
            st.allowed,
            s,
            t0,
            v,
            st.dist[v] as int,
        )
    &&& forall|v: int|
        0 <= v < n && v != s && st.dist[v] < INFINITY ==> #[trigger] spec_tree_edge(g, st, v)
    &&& forall|v: int|
        #[trigger] st.settled.contains(v) ==> 0 <= v < n && st.dist[v] < INFINITY && forall|t: int|
            #[trigger] g.spec_reaches_within(st.allowed, s, t0, v, t) ==> st.dist[v] <= t
}

/// Whether a search is in order while the arcs of `cur` before `done` have
/// been looked at (none are being looked at where `cur` is no node): the
/// tree is in order, the queue holds the nodes that are reached and not
/// done, each with its arrival, every arc of a node that is done has
/// been looked at, if the search may take it, and the nodes were done in
/// the order of their arrivals.
pub open spec fn spec_inv(g: Graph, s: int, t0: int, st: SearchState, cur: int, done: int) -> bool {
    let n = g.spec_num_nodes();
    &&& spec_tree_inv(g, s, t0, st)
    &&& forall|v: int|
        0 <= v < n ==> ((#[trigger] st.queue[v]).is_some() <==> (st.dist[v] < INFINITY
            && !st.settled.contains(v))) && (st.queue[v] matches Some(k) ==> k == st.dist[v])
    &&& forall|u: int, e: int|
        st.settled.contains(u) && g.spec_first_out()[u] <= e < g.spec_first_out()[u + 1] && (u != cur
            || e < done) && st.allowed[e] ==> #[trigger] spec_relaxed(g, st.dist, u, e)
    &&& spec_in_order(st, n)
    &&& 0 <= cur < n ==> spec_latest(st, cur)
}

/// Whether no node that is done is known to be reached later than a node that is not.
pub open spec fn spec_in_order(st: SearchState, n: int) -> bool {
    forall|u: int, v: int|
        #![trigger st.settled.contains(u), st.dist[v]]
        st.settled.contains(u) && 0 <= v < n && !st.settled.contains(v) ==> st.dist[u] <= st.dist[v]
}

/// Whether no node that is done is known to be reached later than `cur`.
pub open spec fn spec_latest(st: SearchState, cur: int) -> bool {
    forall|u: int| #[trigger] st.settled.contains(u) ==> st.dist[u] <= st.dist[cur]
}

/// Along any path from the start, either its end is done and known to be
/// reached no later than the path arrives, or some node that is not done is
/// known to be reached no later than that.
pub proof fn lemma_cut(g: Graph, s: int, t0: int, st: SearchState, path: Seq<EdgeId>)
    requires
        g.wf(),
        spec_inv(g, s, t0, st, -1, 0),
        g.spec_is_path(s, path),
        g.spec_path_within(path, st.allowed),
    ensures
        (st.settled.contains(g.spec_path_end(s, path)) && st.dist[g.spec_path_end(s, path)]
            <= g.spec_path_arrival(t0, path)) || (exists|y: int|
            0 <= y < g.spec_num_nodes() && !st.settled.contains(y) && (#[trigger] st.dist[y])
                <= g.spec_path_arrival(t0, path)),
    decreases path.len(),
{
    let n = g.spec_num_nodes();
    let x = g.spec_path_end(s, path);
    let t = g.spec_path_arrival(t0, path);
    if path.len() == 0 {
        if !st.settled.contains(s) {
            assert(st.dist[s] <= t);
        }
    } else {
        let before = path.drop_last();
        let e = path.last() as int;
        let u = g.spec_path_end(s, before);
        let tu = g.spec_path_arrival(t0, before);
        assert forall|i: int| 0 <= i < before.len() implies st.allowed[(#[trigger] before[i]) as int] by {
            assert(path[i] == before[i]);
        }
        assert(st.allowed[path[path.len() - 1] as int]);
        lemma_cut(g, s, t0, st, before);
        g.lemma_path_arrival(s, t0, before);
        g.lemma_arc(e, u, x);
        g.lemma_arrival(e, tu, tu);
        if st.settled.contains(u) && st.dist[u] <= tu {
            assert(spec_relaxed(g, st.dist, u, e));
            g.lemma_arrival(e, st.dist[u] as int, tu);
            if !st.settled.contains(x) {
                assert(st.dist[x] <= t);
            }
        } else {
            let y = choose|y: int| 0 <= y < n && !st.settled.contains(y) && (#[trigger] st.dist[y]) <= tu;
            assert(st.dist[y] <= t);
        }
    }
}

/// The node at the front of the queue is reached at the earliest moment
/// possible, and with it done and out of the queue the search is in order
/// for looking at its arcs.
pub proof fn lemma_settle(g: Graph, s: int, t0: int, before: SearchState, after: SearchState, u: int)
    requires
        g.wf(),
        spec_inv(g, s, t0, before, -1, 0),
        0 <= u < g.spec_num_nodes(),
        before.queue[u] == Some(before.dist[u]),
        forall|x: int|
            0 <= x < before.queue.len() && before.queue[x].is_some() ==> state_le(
                State { distance: before.dist[u], node: u as NodeId },
                State { distance: (#[trigger] before.queue[x]).unwrap(), node: x as NodeId },
            ),
        after.dist == before.dist,
        after.pred == before.pred,
        after.queue == before.queue.update(u, None),
        after.settled == before.settled.insert(u),
        after.allowed == before.allowed,
    ensures
        spec_inv(g, s, t0, after, u, g.spec_first_out()[u] as int),
        g.spec_earliest_within(before.allowed, s, t0, u, before.dist[u] as int),
        !before.settled.contains(u),
{
    let n = g.spec_num_nodes();
    assert forall|t: int| #[trigger] g.spec_reaches_within(before.allowed, s, t0, u, t) implies before.dist[u]
        <= t by {
        let path = choose|path: Seq<EdgeId>|
            #[trigger] g.spec_is_path(s, path) && g.spec_path_within(path, before.allowed)
                && g.spec_path_end(s, path) == u && g.spec_path_arrival(t0, path) == t;
        lemma_cut(g, s, t0, before, path);
        let y = choose|y: int| 0 <= y < n && !before.settled.contains(y) && (#[trigger] before.dist[y]) <= t;
        if before.dist[y] < INFINITY {
            assert(before.queue[y].is_some());
        }
    }
    assert forall|v: int| 0 <= v < n && v != s && after.dist[v] < INFINITY implies #[trigger] spec_tree_edge(
        g,
        after,
        v,
    ) by {
        assert(spec_tree_edge(g, before, v));
        let e = choose|e: int|
            #[trigger] g.spec_is_arc(e, before.pred[v] as int, v) && before.allowed[e] && before.dist[v]
                == g.spec_arrival(e, before.dist[before.pred[v] as int] as int);
        assert(g.spec_is_arc(e, after.pred[v] as int, v));
    }
    assert forall|v: int| #[trigger] after.settled.contains(v) implies 0 <= v < n && after.dist[v]
        < INFINITY && forall|t: int|
        #[trigger] g.spec_reaches_within(after.allowed, s, t0, v, t) ==> after.dist[v] <= t by {
        if v != u {
            assert(before.settled.contains(v));
        }
    }
    assert forall|w: int, e: int|
        after.settled.contains(w) && g.spec_first_out()[w] <= e < g.spec_first_out()[w + 1] && (w != u
            || e < g.spec_first_out()[u]) && after.allowed[e] implies #[trigger] spec_relaxed(
        g,
        after.dist,
        w,
        e,
    ) by {
        assert(before.settled.contains(w));
        assert(spec_relaxed(g, before.dist, w, e));
    }
    assert(spec_tree_inv(g, s, t0, after));
    assert(before.queue[u].is_some());
    assert(!before.settled.contains(u));
    assert forall|w: int| #[trigger] after.settled.contains(w) implies after.dist[w] <= after.dist[u] by {
        if w != u {
            assert(before.settled.contains(w));
        }
    }
    assert forall|w: int, v: int|
        #![trigger after.settled.contains(w), after.dist[v]]
        after.settled.contains(w) && 0 <= v < n && !after.settled.contains(v) implies after.dist[w]
            <= after.dist[v] by {
        if w != u {
            assert(before.settled.contains(w));
        } else if before.queue[v].is_some() {
            assert(state_le(
                State { distance: before.dist[u], node: u as NodeId },
                State { distance: before.queue[v].unwrap(), node: v as NodeId },
            ));
        }
    }
}

/// Looking at an arc that does not lead to an earlier arrival, or that
/// the search may not take, changes nothing.
pub proof fn lemma_relax_skip(g: Graph, s: int, t0: int, st: SearchState, u: int, e: int)
    requires
        g.wf(),
        spec_inv(g, s, t0, st, u, e),
        st.settled.contains(u),
        g.spec_first_out()[u] <= e < g.spec_first_out()[u + 1],
        st.dist[g.spec_head()[e] as int] <= g.spec_arrival(e, st.dist[u] as int) || !st.allowed[e],
    ensures
        spec_inv(g, s, t0, st, u, e + 1),
{
    assert forall|w: int, f: int|
        st.settled.contains(w) && g.spec_first_out()[w] <= f < g.spec_first_out()[w + 1] && (w != u || f
            < e + 1) && st.allowed[f] implies #[trigger] spec_relaxed(g, st.dist, w, f) by {
        if w == u && f == e {
        } else {
            assert(spec_relaxed(g, st.dist, w, f));
        }
    }
}

/// Looking at an arc that leads to an earlier arrival at its head makes
/// that the arrival known there, and the tail the node before the head.
pub proof fn lemma_relax_update(
    g: Graph,
    s: int,
    t0: int,
    before: SearchState,
    after: SearchState,
    u: int,
    e: int,
)
    requires
        g.wf(),
        spec_inv(g, s, t0, before, u, e),
        before.settled.contains(u),
        g.spec_first_out()[u] <= e < g.spec_first_out()[u + 1],
        before.allowed[e],
        g.spec_arrival(e, before.dist[u] as int) < before.dist[g.spec_head()[e] as int],
        after.dist == before.dist.update(
            g.spec_head()[e] as int,
            g.spec_arrival(e, before.dist[u] as int) as Weight,
        ),
        after.pred == before.pred.update(g.spec_head()[e] as int, u as NodeId),
        after.queue == before.queue.update(
            g.spec_head()[e] as int,
            Some(g.spec_arrival(e, before.dist[u] as int) as Weight),
        ),
        after.settled == before.settled,
        after.allowed == before.allowed,
    ensures
        spec_inv(g, s, t0, after, u, e + 1),
        !before.settled.contains(g.spec_head()[e] as int),
        g.spec_head()[e] != s,
{
    let n = g.spec_num_nodes();
    let v = g.spec_head()[e] as int;
    let arr = g.spec_arrival(e, before.dist[u] as int);
    g.lemma_arc(e, u, v);
    g.lemma_arrival(e, before.dist[u] as int, before.dist[u] as int);
    g.lemma_reaches_within_step(before.allowed, s, t0, u, before.dist[u] as int, e, v);
    g.lemma_wf();
    assert(!before.settled.contains(v));
    assert(u != v);
    assert(0 <= arr < INFINITY);
    assert(after.dist[v] == arr);
    assert(after.dist[u] == before.dist[u]);
    assert(after.pred[v] == u);
    assert(v != s) by {
        g.lemma_within_reaches(before.allowed, s, t0, u, before.dist[u] as int);
        g.lemma_reaches(s, t0, u, before.dist[u] as int);
    }
    assert forall|w: int| 0 <= w < n && w != s && after.dist[w] < INFINITY implies #[trigger] spec_tree_edge(
        g,
        after,
        w,
    ) by {
        if w == v {
            assert(g.spec_is_arc(e, after.pred[w] as int, w));
        } else {
            assert(spec_tree_edge(g, before, w));
            let f = choose|f: int|
                #[trigger] g.spec_is_arc(f, before.pred[w] as int, w) && before.allowed[f]
                    && before.dist[w] == g.spec_arrival(f, before.dist[before.pred[w] as int] as int);
            assert(g.spec_is_arc(f, after.pred[w] as int, w));
        }
    }
    assert forall|w: int| #[trigger] after.settled.contains(w) implies 0 <= w < n && after.dist[w]
        < INFINITY && forall|t: int|
        #[trigger] g.spec_reaches_within(after.allowed, s, t0, w, t) ==> after.dist[w] <= t by {
        assert(before.settled.contains(w));
    }
    assert forall|w: int, f: int|
        after.settled.contains(w) && g.spec_first_out()[w] <= f < g.spec_first_out()[w + 1] && (w != u
            || f < e + 1) && after.allowed[f] implies #[trigger] spec_relaxed(g, after.dist, w, f) by {
        if w == u && f == e {
        } else {
            assert(spec_relaxed(g, before.dist, w, f));
            assert(w != v);
            g.lemma_arc(f, w, g.spec_head()[f] as int);
            assert(after.dist[w] == before.dist[w]);
            assert(after.dist[g.spec_head()[f] as int] <= before.dist[g.spec_head()[f] as int]);
        }
    }
    assert(spec_tree_inv(g, s, t0, after));
}

/// With all arcs of a node looked at, the search is in order for the next node.
pub proof fn lemma_node_done(g: Graph, s: int, t0: int, st: SearchState, u: int)
    requires
        0 <= u < g.spec_num_nodes(),
        spec_inv(g, s, t0, st, u, g.spec_first_out()[u + 1] as int),
    ensures
        spec_inv(g, s, t0, st, -1, 0),
{
    assert forall|w: int, f: int|
        st.settled.contains(w) && g.spec_first_out()[w] <= f < g.spec_first_out()[w + 1] && (w != -1
            || f < 0) && st.allowed[f] implies #[trigger] spec_relaxed(g, st.dist, w, f) by {
        assert(spec_relaxed(g, st.dist, w, f));
    }
}

/// With nothing in the queue, every node that a path along arcs that the
/// search may take reaches before `INFINITY` is done.
pub proof fn lemma_exhausted(g: Graph, s: int, t0: int, st: SearchState, v: int, t: int)
    requires
        g.wf(),
        spec_inv(g, s, t0, st, -1, 0),
        forall|x: int| 0 <= x < st.queue.len() ==> (#[trigger] st.queue[x]).is_none(),
        g.spec_reaches_within(st.allowed, s, t0, v, t),
        t < INFINITY,
    ensures
        st.settled.contains(v),
{
    let path = choose|path: Seq<EdgeId>|
        #[trigger] g.spec_is_path(s, path) && g.spec_path_within(path, st.allowed) && g.spec_path_end(
            s,
            path,
        ) == v && g.spec_path_arrival(t0, path) == t;
    lemma_cut(g, s, t0, st, path);
    if !st.settled.contains(v) {
        let y = choose|y: int|
            0 <= y < g.spec_num_nodes() && !st.settled.contains(y) && (#[trigger] st.dist[y]) <= t;
        assert(st.queue[y].is_none());
    }
}

/// A search that has just been set up is in order.
pub proof fn lemma_initial(g: Graph, s: int, t0: int, st: SearchState)
    requires
        g.wf(),
        0 <= s < g.spec_num_nodes(),
        0 <= t0 < INFINITY,
        st.dist.len() == g.spec_num_nodes(),
        st.pred.len() == g.spec_num_nodes(),
        st.queue.len() == g.spec_num_nodes(),
        st.allowed.len() == g.spec_num_arcs(),
        forall|v: int| 0 <= v < st.dist.len() && v != s ==> (#[trigger] st.dist[v]) == INFINITY,
        forall|v: int| 0 <= v < st.queue.len() && v != s ==> (#[trigger] st.queue[v]).is_none(),
        st.dist[s] == t0,
        st.queue[s] == Some(t0 as Weight),
        st.settled == Set::<int>::empty(),
    ensures
        spec_inv(g, s, t0, st, -1, 0),
{
    g.lemma_reaches_within_start(st.allowed, s, t0);
}

/// Whether `path` leads from the start of the search tree to `to` along
/// arcs of the tree: every node is the node before its successor, reached
/// across an arc that arrives exactly when the successor is known to be reached.
pub open spec fn spec_tree_path(g: Graph, st: SearchState, from: int, to: int, path: Seq<NodeId>) -> bool {
    &&& path.len() >= 1
    &&& path[0] == from
    &&& path[path.len() - 1] == to
    &&& forall|i: int|
        0 <= i < path.len() - 1 ==> (#[trigger] path[i]) == st.pred[path[i + 1] as int]
            && spec_tree_edge(g, st, path[i + 1] as int)
}

} // verus!
