//! What a goal directed search that walks chains knows while it runs, and
//! why its answer is right where the bounds it is given are consistent.
use vstd::prelude::*;
use crate::graph::td_graph::Graph;
use crate::shortest_path::search_state::spec_relaxed;
use crate::types::{EdgeId, NodeId, Weight, INFINITY};

verus! {

/// The state of a search: the earliest known arrival at every node, the
/// node before it on the way there, and the queue.
pub struct Frontier {
    pub dist: Seq<Weight>,
    pub pred: Seq<NodeId>,
    pub queue: Seq<Option<Weight>>,
}

/// A lower bound on the travel time to the target for every node; nothing
/// where the target cannot be reached.
pub type Bounds = spec_fn(int) -> Option<Weight>;

/// Whether bounds are consistent: the target has bound zero, and across
/// no arc, at no moment, the bound falls by more than the travel time.
pub open spec fn spec_consistent(g: Graph, target: int, bounds: Bounds) -> bool {
    &&& bounds(target) == Some(0u32)
    &&& forall|e: int, u: int, v: int, t: int|
        #[trigger] g.spec_is_arc(e, u, v) && 0 <= t && bounds(v).is_some() ==> bounds(u).is_some()
            && bounds(u).unwrap() <= #[trigger] g.spec_travel_time(e, t) + bounds(v).unwrap()
}

/// Bounds that are zero for every node are consistent.
pub proof fn lemma_zero_is_consistent(g: Graph, target: int)
    requires
        g.wf(),
    ensures
        spec_consistent(g, target, |x: int| Some(0u32)),
{
    let bounds = |x: int| Some(0u32);
    assert forall|e: int, u: int, v: int, t: int|
        #[trigger] g.spec_is_arc(e, u, v) && 0 <= t && bounds(v).is_some() implies bounds(u).is_some()
        && bounds(u).unwrap() <= #[trigger] g.spec_travel_time(e, t) + bounds(v).unwrap() by {
        g.lemma_arc(e, u, v);
        g.lemma_arrival(e, t, t);
    }
}

/// Whether `v` was reached across an arc from the node before it, no later
/// than that arc now arrives.
pub open spec fn spec_link(g: Graph, st: Frontier, v: int) -> bool {
    &&& st.pred[v] < st.dist.len()
    &&& st.dist[st.pred[v] as int] < st.dist[v]
    &&& exists|e: int|
        #[trigger] g.spec_is_arc(e, st.pred[v] as int, v) && g.spec_arrival(
            e,
            st.dist[st.pred[v] as int] as int,
        ) <= st.dist[v]
}

/// Whether every arrival known is the arrival of a path, and every node
/// reached but the start has a node before it.
pub open spec fn spec_sound(g: Graph, s: int, t0: int, st: Frontier) -> bool {
    let n = g.spec_num_nodes();
    &&& 0 <= s < n
    &&& 0 <= t0 < INFINITY
    &&& st.dist.len() == n
    &&& st.pred.len() == n
    &&& st.queue.len() == n
    &&& st.dist[s] == t0
    &&& forall|v: int| 0 <= v < n ==> (#[trigger] st.dist[v]) <= INFINITY
    &&& forall|v: int|
        0 <= v < n && (#[trigger] st.dist[v]) < INFINITY ==> g.spec_reaches(s, t0, v, st.dist[v] as int)
    &&& forall|v: int| 0 <= v < n && v != s && st.dist[v] < INFINITY ==> #[trigger] spec_link(g, st, v)
}

/// Whether every node in the queue is reached and has a key that is at
/// least its arrival and, where it has a bound, at most its arrival plus its bound.
pub open spec fn spec_keys(st: Frontier, bounds: Bounds) -> bool {
    forall|v: int|
        0 <= v < st.queue.len() ==> ((#[trigger] st.queue[v]) matches Some(k) ==> st.dist[v] < INFINITY
            && st.dist[v] <= k && (bounds(v) matches Some(b) ==> k <= st.dist[v] + b))
}

/// Which arcs need not have been looked at: those of the node `cur` from
/// `done` on, and of the node `open` either all or the one arc `open_edge`.
pub struct Exempt {
    pub cur: int,
    pub done: int,
    pub open: int,
    pub open_edge: Option<int>,
}

impl Exempt {
    /// Whether arc `e` of node `u` need not have been looked at.
    pub open spec fn holds(self, u: int, e: int) -> bool {
        (u == self.cur && e >= self.done) || (u == self.open && (self.open_edge.is_none()
            || self.open_edge == Some(e)))
    }

    /// No arc is exempt.
    pub open spec fn none() -> Exempt {
        Exempt { cur: -1, done: 0, open: -1, open_edge: None }
    }
}

/// Whether every arc of a node that is reached, not in the queue and has a
/// bound has been looked at since the node was last reached earlier,
/// but for the exempt arcs.
pub open spec fn spec_closed(g: Graph, st: Frontier, bounds: Bounds, exempt: Exempt) -> bool {
    forall|u: int, e: int|
        0 <= u < g.spec_num_nodes() && st.dist[u] < INFINITY && st.queue[u].is_none() && bounds(
            u,
        ).is_some() && g.spec_first_out()[u] <= e < g.spec_first_out()[u + 1] && !exempt.holds(u, e)
            ==> #[trigger] spec_relaxed(g, st.dist, u, e)
}

/// Whether the search is in order.
pub open spec fn spec_topo_inv(
    g: Graph,
    s: int,
    t0: int,
    st: Frontier,
    bounds: Bounds,
    exempt: Exempt,
) -> bool {
    &&& spec_sound(g, s, t0, st)
    &&& spec_keys(st, bounds)
    &&& spec_closed(g, st, bounds, exempt)
}

/// Along any path from the start to a node with a bound, where the bounds
/// are consistent for some target: either the end of the path is known to
/// be reached no later than the path arrives, or the queue holds a node
/// whose arrival plus bound is at most the arrival of the path plus the
/// bound of its end.
pub proof fn lemma_topo_cut(
    g: Graph,
    s: int,
    t0: int,
    st: Frontier,
    bounds: Bounds,
    target: int,
    path: Seq<EdgeId>,
)
    requires
        g.wf(),
        spec_topo_inv(g, s, t0, st, bounds, Exempt::none()),
        spec_consistent(g, target, bounds),
        g.spec_is_path(s, path),
        bounds(g.spec_path_end(s, path)).is_some(),
    ensures
        st.dist[g.spec_path_end(s, path)] <= g.spec_path_arrival(t0, path) || (exists|y: int|
            0 <= y < g.spec_num_nodes() && (#[trigger] st.queue[y]).is_some() && bounds(y).is_some()
                && st.dist[y] + bounds(y).unwrap() <= g.spec_path_arrival(t0, path) + bounds(
                g.spec_path_end(s, path),
            ).unwrap()),
    decreases path.len(),
{
    let n = g.spec_num_nodes();
    let x = g.spec_path_end(s, path);
    let t = g.spec_path_arrival(t0, path);
    if path.len() > 0 {
        let before = path.drop_last();
        let e = path.last() as int;
        let u = g.spec_path_end(s, before);
        let tu = g.spec_path_arrival(t0, before);
        g.lemma_path_arrival(s, t0, before);
        g.lemma_arc(e, u, x);
        g.lemma_arrival(e, tu, tu);
        assert(bounds(u).is_some() && bounds(u).unwrap() <= g.spec_travel_time(e, tu) + bounds(
            x,
        ).unwrap());
        lemma_topo_cut(g, s, t0, st, bounds, target, before);
        if st.dist[u] <= tu {
            if st.queue[u].is_some() {
                assert(st.dist[u] + bounds(u).unwrap() <= t + bounds(x).unwrap());
            } else if st.dist[u] >= INFINITY {
                assert(st.dist[x] <= INFINITY);
            } else {
                assert(!Exempt::none().holds(u, e));
                assert(spec_relaxed(g, st.dist, u, e));
                g.lemma_arrival(e, st.dist[u] as int, tu);
            }
        } else {
            let y = choose|y: int|
                0 <= y < n && (#[trigger] st.queue[y]).is_some() && bounds(y).is_some() && st.dist[y]
                    + bounds(y).unwrap() <= tu + bounds(u).unwrap();
            assert(st.dist[y] + bounds(y).unwrap() <= t + bounds(x).unwrap());
        }
    }
}

/// Where the bounds are consistent and the queue holds no key below
/// `least`, the target is known to be reached no later than any path
/// arrives there, or no later than `least`.
pub proof fn lemma_topo_answer(
    g: Graph,
    s: int,
    t0: int,
    st: Frontier,
    bounds: Bounds,
    target: int,
    least: int,
    t: int,
)
    requires
        g.wf(),
        spec_topo_inv(g, s, t0, st, bounds, Exempt::none()),
        spec_consistent(g, target, bounds),
        0 <= target < g.spec_num_nodes(),
        forall|y: int|
            0 <= y < st.queue.len() && (#[trigger] st.queue[y]).is_some() ==> least <= st.queue[y].unwrap(),
        g.spec_reaches(s, t0, target, t),
    ensures
        st.dist[target] <= t || least <= t,
{
    let path = choose|path: Seq<EdgeId>|
        #[trigger] g.spec_is_path(s, path) && g.spec_path_end(s, path) == target
            && g.spec_path_arrival(t0, path) == t;
    lemma_topo_cut(g, s, t0, st, bounds, target, path);
    if !(st.dist[target] <= t) {
        let y = choose|y: int|
            0 <= y < g.spec_num_nodes() && (#[trigger] st.queue[y]).is_some() && bounds(y).is_some()
                && st.dist[y] + bounds(y).unwrap() <= t + bounds(target).unwrap();
        assert(least <= st.queue[y].unwrap());
    }
}

/// A search that has just been set up is in order, whatever the bounds.
pub proof fn lemma_topo_initial(g: Graph, s: int, t0: int, st: Frontier, bounds: Bounds)
    requires
        g.wf(),
        0 <= s < g.spec_num_nodes(),
        0 <= t0 < INFINITY,
        st.dist.len() == g.spec_num_nodes(),
        st.pred.len() == g.spec_num_nodes(),
        st.queue.len() == g.spec_num_nodes(),
        forall|v: int| 0 <= v < st.dist.len() && v != s ==> (#[trigger] st.dist[v]) == INFINITY,
        forall|v: int| 0 <= v < st.queue.len() && v != s ==> (#[trigger] st.queue[v]).is_none(),
        st.dist[s] == t0,
        st.queue[s] == Some(t0 as Weight),
    ensures
        spec_topo_inv(g, s, t0, st, bounds, Exempt::none()),
{
    g.lemma_reaches_start(s, t0);
}

/// Taking a node out of the queue leaves the search in order, with all arcs of that node exempt.
pub proof fn lemma_topo_pop(
    g: Graph,
    s: int,
    t0: int,
    before: Frontier,
    after: Frontier,
    bounds: Bounds,
    u: int,
)
    requires
        g.wf(),
        spec_topo_inv(g, s, t0, before, bounds, Exempt::none()),
        0 <= u < g.spec_num_nodes(),
        before.queue[u].is_some(),
        after.dist == before.dist,
        after.pred == before.pred,
        after.queue == before.queue.update(u, None),
    ensures
        spec_topo_inv(
            g,
            s,
            t0,
            after,
            bounds,
            Exempt { cur: u, done: g.spec_first_out()[u] as int, open: -1, open_edge: None },
        ),
{
    let exempt = Exempt { cur: u, done: g.spec_first_out()[u] as int, open: -1, open_edge: None };
    assert forall|v: int| 0 <= v < g.spec_num_nodes() && v != s && after.dist[v] < INFINITY implies #[trigger] spec_link(
        g,
        after,
        v,
    ) by {
        assert(spec_link(g, before, v));
        let e = choose|e: int|
            #[trigger] g.spec_is_arc(e, before.pred[v] as int, v) && g.spec_arrival(
                e,
                before.dist[before.pred[v] as int] as int,
            ) <= before.dist[v];
        assert(g.spec_is_arc(e, after.pred[v] as int, v));
    }
    assert forall|w: int, e: int|
        0 <= w < g.spec_num_nodes() && after.dist[w] < INFINITY && after.queue[w].is_none() && bounds(
            w,
        ).is_some() && g.spec_first_out()[w] <= e < g.spec_first_out()[w + 1] && !exempt.holds(
            w,
            e,
        ) implies #[trigger] spec_relaxed(g, after.dist, w, e) by {
        assert(!Exempt::none().holds(w, e));
        assert(spec_relaxed(g, before.dist, w, e));
    }
}

/// An arc that does not lead to an earlier arrival has been looked at.
pub proof fn lemma_topo_skip(
    g: Graph,
    s: int,
    t0: int,
    st: Frontier,
    bounds: Bounds,
    exempt: Exempt,
    u: int,
    e: int,
)
    requires
        spec_topo_inv(g, s, t0, st, bounds, exempt),
        g.spec_first_out()[u] <= e < g.spec_first_out()[u + 1],
        st.dist[g.spec_head()[e] as int] <= g.spec_arrival(e, st.dist[u] as int),
        exempt.open == -1 ==> u == exempt.cur && e == exempt.done,
        exempt.open != -1 ==> u == exempt.open && exempt.open_edge == Some(e) && exempt.open
            != exempt.cur,
    ensures
        spec_topo_inv(
            g,
            s,
            t0,
            st,
            bounds,
            Exempt { cur: exempt.cur, done: exempt.done + (if exempt.open == -1 { 1int } else { 0int }), open: -1, open_edge: None },
        ),
{
    let after = Exempt {
        cur: exempt.cur,
        done: exempt.done + (if exempt.open == -1 { 1int } else { 0int }),
        open: -1,
        open_edge: None,
    };
    assert forall|w: int, f: int|
        0 <= w < g.spec_num_nodes() && st.dist[w] < INFINITY && st.queue[w].is_none() && bounds(
            w,
        ).is_some() && g.spec_first_out()[w] <= f < g.spec_first_out()[w + 1] && !after.holds(
            w,
            f,
        ) implies #[trigger] spec_relaxed(g, st.dist, w, f) by {
        if w == u && f == e {
        } else {
            assert(!exempt.holds(w, f));
            assert(spec_relaxed(g, st.dist, w, f));
        }
    }
}

/// Whether `after` is `before` with `x` reached at `arrival` across arc `e` from `u`.
pub open spec fn spec_improved(g: Graph, before: Frontier, after: Frontier, u: int, e: int) -> bool {
    let x = g.spec_head()[e] as int;
    let arrival = g.spec_arrival(e, before.dist[u] as int);
    &&& g.spec_first_out()[u] <= e < g.spec_first_out()[u + 1]
    &&& 0 <= u < g.spec_num_nodes()
    &&& before.dist[u] < INFINITY
    &&& arrival < before.dist[x]
    &&& after.dist == before.dist.update(x, arrival as Weight)
    &&& after.pred == before.pred.update(x, u as NodeId)
}

/// An earlier arrival keeps everything sound, and every arc that had been
/// looked at from a node other than the node now reached earlier stays so.
pub proof fn lemma_topo_improve_sound(
    g: Graph,
    s: int,
    t0: int,
    before: Frontier,
    after: Frontier,
    u: int,
    e: int,
)
    requires
        g.wf(),
        spec_sound(g, s, t0, before),
        spec_improved(g, before, after, u, e),
        after.queue.len() == before.queue.len(),
    ensures
        spec_sound(g, s, t0, after),
        g.spec_head()[e] != s,
        g.spec_head()[e] != u,
        0 <= g.spec_head()[e] < g.spec_num_nodes(),
        after.dist[g.spec_head()[e] as int] == g.spec_arrival(e, before.dist[u] as int),
        after.dist[u] < after.dist[g.spec_head()[e] as int] < INFINITY,
        forall|w: int, f: int|
            0 <= w < g.spec_num_nodes() && w != g.spec_head()[e] && g.spec_first_out()[w] <= f
                < g.spec_first_out()[w + 1] && spec_relaxed(g, before.dist, w, f)
                ==> #[trigger] spec_relaxed(g, after.dist, w, f),
{
    let n = g.spec_num_nodes();
    let x = g.spec_head()[e] as int;
    let arr = g.spec_arrival(e, before.dist[u] as int);
    g.lemma_wf();
    g.lemma_arc(e, u, x);
    g.lemma_arrival(e, before.dist[u] as int, before.dist[u] as int);
    g.lemma_reaches_step(s, t0, u, before.dist[u] as int, e, x);
    g.lemma_reaches(s, t0, u, before.dist[u] as int);
    assert(x != s);
    assert(x != u);
    assert(after.dist[x] == arr);
    assert(after.dist[u] == before.dist[u]);
    assert forall|w: int| 0 <= w < n && w != s && after.dist[w] < INFINITY implies #[trigger] spec_link(
        g,
        after,
        w,
    ) by {
        if w == x {
            assert(g.spec_is_arc(e, after.pred[w] as int, w));
        } else {
            assert(spec_link(g, before, w));
            let f = choose|f: int|
                #[trigger] g.spec_is_arc(f, before.pred[w] as int, w) && g.spec_arrival(
                    f,
                    before.dist[before.pred[w] as int] as int,
                ) <= before.dist[w];
            assert(g.spec_is_arc(f, after.pred[w] as int, w));
            let p = before.pred[w] as int;
            g.lemma_arc(f, p, w);
            if p == x {
                g.lemma_reaches(s, t0, x, arr);
                g.lemma_arrival(f, arr, before.dist[x] as int);
            }
        }
    }
    assert forall|w: int, f: int|
        0 <= w < n && w != x && g.spec_first_out()[w] <= f < g.spec_first_out()[w + 1]
            && spec_relaxed(g, before.dist, w, f) implies #[trigger] spec_relaxed(g, after.dist, w, f) by {
        g.lemma_arc(f, w, g.spec_head()[f] as int);
    }
}

/// An earlier arrival at a node that stays out of the queue leaves the
/// search in order with that node open; a node that is in the queue
/// afterwards with a key in range leaves it in order as it was.
pub proof fn lemma_topo_improve(
    g: Graph,
    s: int,
    t0: int,
    before: Frontier,
    after: Frontier,
    bounds: Bounds,
    exempt: Exempt,
    u: int,
    e: int,
)
    requires
        g.wf(),
        spec_topo_inv(g, s, t0, before, bounds, exempt),
        spec_improved(g, before, after, u, e),
        exempt.open == -1 ==> u == exempt.cur && e == exempt.done,
        exempt.open != -1 ==> u == exempt.open && exempt.open_edge == Some(e) && exempt.open
            != exempt.cur,
        g.spec_head()[e] != exempt.cur,
        after.queue.len() == before.queue.len(),
        forall|v: int|
            0 <= v < after.queue.len() && v != g.spec_head()[e] ==> #[trigger] after.queue[v]
                == before.queue[v],
        after.queue[g.spec_head()[e] as int] matches Some(k) ==> after.dist[g.spec_head()[e] as int]
            <= k && (bounds(g.spec_head()[e] as int) matches Some(b) ==> k <= after.dist[g.spec_head()[e] as int]
            + b),
    ensures
        spec_topo_inv(
            g,
            s,
            t0,
            after,
            bounds,
            Exempt {
                cur: exempt.cur,
                done: exempt.done + (if exempt.open == -1 { 1int } else { 0int }),
                open: g.spec_head()[e] as int,
                open_edge: None,
            },
        ),
{
    let x = g.spec_head()[e] as int;
    let next = Exempt {
        cur: exempt.cur,
        done: exempt.done + (if exempt.open == -1 { 1int } else { 0int }),
        open: x,
        open_edge: None,
    };
    lemma_topo_improve_sound(g, s, t0, before, after, u, e);
    assert forall|w: int, f: int|
        0 <= w < g.spec_num_nodes() && after.dist[w] < INFINITY && after.queue[w].is_none() && bounds(
            w,
        ).is_some() && g.spec_first_out()[w] <= f < g.spec_first_out()[w + 1] && !next.holds(
            w,
            f,
        ) implies #[trigger] spec_relaxed(g, after.dist, w, f) by {
        if w == u && f == e {
        } else {
            assert(w != x);
            assert(!exempt.holds(w, f));
            assert(spec_relaxed(g, before.dist, w, f));
        }
    }
}

/// An open node is closed but for one arc when all its other arcs lead
/// back to a node that is reached earlier; it is closed altogether when all do.
pub proof fn lemma_topo_narrow(
    g: Graph,
    s: int,
    t0: int,
    st: Frontier,
    bounds: Bounds,
    exempt: Exempt,
    back: int,
    forward: Option<int>,
)
    requires
        g.wf(),
        spec_topo_inv(g, s, t0, st, bounds, exempt),
        0 <= exempt.open < g.spec_num_nodes(),
        exempt.open != exempt.cur,
        exempt.open_edge.is_none(),
        0 <= back < g.spec_num_nodes(),
        st.dist[back] <= st.dist[exempt.open],
        st.dist[exempt.open] < INFINITY,
        forall|f: int|
            g.spec_first_out()[exempt.open] <= f < g.spec_first_out()[exempt.open + 1] && Some(f)
                != forward ==> #[trigger] g.spec_head()[f] == back,
    ensures
        spec_topo_inv(
            g,
            s,
            t0,
            st,
            bounds,
            Exempt {
                cur: exempt.cur,
                done: exempt.done,
                open: if forward.is_some() { exempt.open } else { -1 },
                open_edge: forward,
            },
        ),
{
    let next = Exempt {
        cur: exempt.cur,
        done: exempt.done,
        open: if forward.is_some() { exempt.open } else { -1 },
        open_edge: forward,
    };
    assert forall|w: int, f: int|
        0 <= w < g.spec_num_nodes() && st.dist[w] < INFINITY && st.queue[w].is_none() && bounds(
            w,
        ).is_some() && g.spec_first_out()[w] <= f < g.spec_first_out()[w + 1] && !next.holds(
            w,
            f,
        ) implies #[trigger] spec_relaxed(g, st.dist, w, f) by {
        if w == exempt.open {
            assert(g.spec_head()[f] == back);
            g.lemma_arc(f, w, back);
            g.lemma_arrival(f, st.dist[w] as int, st.dist[w] as int);
        } else {
            assert(!exempt.holds(w, f));
            assert(spec_relaxed(g, st.dist, w, f));
        }
    }
}

/// An open node that goes into the queue, or has no bound, is open no more.
pub proof fn lemma_topo_endpoint(
    g: Graph,
    s: int,
    t0: int,
    before: Frontier,
    after: Frontier,
    bounds: Bounds,
    exempt: Exempt,
)
    requires
        spec_topo_inv(g, s, t0, before, bounds, exempt),
        0 <= exempt.open < g.spec_num_nodes(),
        exempt.open != exempt.cur,
        after.dist == before.dist,
        after.pred == before.pred,
        after.queue.len() == before.queue.len(),
        forall|v: int|
            0 <= v < after.queue.len() && v != exempt.open ==> #[trigger] after.queue[v]
                == before.queue[v],
        after.queue[exempt.open].is_some() || bounds(exempt.open).is_none(),
        after.queue[exempt.open] matches Some(k) ==> before.dist[exempt.open] < INFINITY
            && after.dist[exempt.open] <= k && (bounds(exempt.open) matches Some(b) ==> k
            <= after.dist[exempt.open] + b),
    ensures
        spec_topo_inv(
            g,
            s,
            t0,
            after,
            bounds,
            Exempt { cur: exempt.cur, done: exempt.done, open: -1, open_edge: None },
        ),
{
    let next = Exempt { cur: exempt.cur, done: exempt.done, open: -1, open_edge: None };
    assert forall|v: int| 0 <= v < g.spec_num_nodes() && v != s && after.dist[v] < INFINITY implies #[trigger] spec_link(
        g,
        after,
        v,
    ) by {
        assert(spec_link(g, before, v));
        let e = choose|e: int|
            #[trigger] g.spec_is_arc(e, before.pred[v] as int, v) && g.spec_arrival(
                e,
                before.dist[before.pred[v] as int] as int,
            ) <= before.dist[v];
        assert(g.spec_is_arc(e, after.pred[v] as int, v));
    }
    assert forall|w: int, f: int|
        0 <= w < g.spec_num_nodes() && after.dist[w] < INFINITY && after.queue[w].is_none() && bounds(
            w,
        ).is_some() && g.spec_first_out()[w] <= f < g.spec_first_out()[w + 1] && !next.holds(
            w,
            f,
        ) implies #[trigger] spec_relaxed(g, after.dist, w, f) by {
        assert(w != exempt.open);
        assert(!exempt.holds(w, f));
        assert(spec_relaxed(g, before.dist, w, f));
    }
}

/// With all arcs of the node that was taken out of the queue looked at, no arc is exempt.
pub proof fn lemma_topo_done(g: Graph, s: int, t0: int, st: Frontier, bounds: Bounds, u: int)
    requires
        0 <= u < g.spec_num_nodes(),
        spec_topo_inv(
            g,
            s,
            t0,
            st,
            bounds,
            Exempt { cur: u, done: g.spec_first_out()[u + 1] as int, open: -1, open_edge: None },
        ),
    ensures
        spec_topo_inv(g, s, t0, st, bounds, Exempt::none()),
{
    let exempt = Exempt { cur: u, done: g.spec_first_out()[u + 1] as int, open: -1, open_edge: None };
    assert forall|w: int, f: int|
        0 <= w < g.spec_num_nodes() && st.dist[w] < INFINITY && st.queue[w].is_none() && bounds(
            w,
        ).is_some() && g.spec_first_out()[w] <= f < g.spec_first_out()[w + 1] && !Exempt::none().holds(
            w,
            f,
        ) implies #[trigger] spec_relaxed(g, st.dist, w, f) by {
        assert(!exempt.holds(w, f));
        assert(spec_relaxed(g, st.dist, w, f));
    }
}

/// The arrivals known at all nodes, added up.
pub open spec fn spec_total(dist: Seq<Weight>) -> int
    decreases dist.len(),
{
    if dist.len() == 0 {
        0
    } else {
        spec_total(dist.drop_last()) + dist.last()
    }
}

/// How many nodes are in the queue.
pub open spec fn spec_waiting(queue: Seq<Option<Weight>>) -> int
    decreases queue.len(),
{
    if queue.len() == 0 {
        0
    } else {
        spec_waiting(queue.drop_last()) + if queue.last().is_some() {
            1int
        } else {
            0int
        }
    }
}

/// What is left to do: twice the arrivals known at all nodes, added up,
/// and the number of nodes in the queue.  Taking a node from the queue
/// lowers it by one; an earlier arrival at a node lowers it by two at
/// least, of which putting the node into the queue takes one back.
pub open spec fn spec_measure(st: Frontier) -> int {
    2 * spec_total(st.dist) + spec_waiting(st.queue)
}

/// What is left to do is never negative.
pub proof fn lemma_measure_range(st: Frontier)
    ensures
        0 <= spec_total(st.dist),
        0 <= spec_waiting(st.queue) <= st.queue.len(),
        0 <= spec_measure(st),
{
    lemma_total_range(st.dist);
    lemma_waiting_range(st.queue);
}

/// A sum of arrivals is never negative.
proof fn lemma_total_range(dist: Seq<Weight>)
    ensures
        0 <= spec_total(dist),
    decreases dist.len(),
{
    if dist.len() > 0 {
        lemma_total_range(dist.drop_last());
    }
}

/// There are no more nodes in the queue than nodes.
proof fn lemma_waiting_range(queue: Seq<Option<Weight>>)
    ensures
        0 <= spec_waiting(queue) <= queue.len(),
    decreases queue.len(),
{
    if queue.len() > 0 {
        lemma_waiting_range(queue.drop_last());
    }
}

/// Another arrival at one node changes the sum by the difference.
pub proof fn lemma_total_update(dist: Seq<Weight>, i: int, x: Weight)
    requires
        0 <= i < dist.len(),
    ensures
        spec_total(dist.update(i, x)) == spec_total(dist) - dist[i] + x,
    decreases dist.len(),
{
    let after = dist.update(i, x);
    if i == dist.len() - 1 {
        assert(after.drop_last() =~= dist.drop_last());
    } else {
        lemma_total_update(dist.drop_last(), i, x);
        assert(after.drop_last() =~= dist.drop_last().update(i, x));
    }
}

/// Another entry for one node changes the number of nodes in the queue
/// by one where the node comes in or goes out, and not otherwise.
pub proof fn lemma_waiting_update(queue: Seq<Option<Weight>>, i: int, x: Option<Weight>)
    requires
        0 <= i < queue.len(),
    ensures
        spec_waiting(queue.update(i, x)) == spec_waiting(queue) - (if queue[i].is_some() {
            1int
        } else {
            0int
        }) + (if x.is_some() {
            1int
        } else {
            0int
        }),
    decreases queue.len(),
{
    let after = queue.update(i, x);
    if i == queue.len() - 1 {
        assert(after.drop_last() =~= queue.drop_last());
    } else {
        lemma_waiting_update(queue.drop_last(), i, x);
        assert(after.drop_last() =~= queue.drop_last().update(i, x));
    }
}

} // verus!
