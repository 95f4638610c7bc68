//! What the bounds of an interval search that has run to the root say:
//! they are at most the sums of the bounds of the arcs along every way
//! from the origin that leads over nodes on the way up to the root.
use vstd::prelude::*;
use crate::algo::ch_potentials::spec_is_ancestor;
use crate::graph::customized::SingleDirBoundsGraph;
use crate::graph::first_out_graph::lemma_offsets_monotone;
use crate::graph::shortcut::ShortcutModel;
use crate::shortest_path::corridor::spec_may_lie_on_path;
use crate::shortest_path::floating_td_stepped_elimination_tree::{
    spec_label, spec_origin, spec_relaxed, spec_settled, spec_tree_ok, spec_unreached, Label,
    NodeState,
};
use crate::types::{spec_sat_add, NodeId, Weight, INFINITY};

verus! {

/// What is known of `n` nodes when a search starts at `from`.
pub open spec fn spec_start(n: int, from: int) -> Seq<NodeState> {
    Seq::new(
        n as nat,
        |v: int|
            if v == from {
                spec_origin()
            } else {
                spec_unreached()
            },
    )
}

/// What is known of all nodes after the arcs of `node`, of its parent and
/// so on up to the root have been looked at.
pub open spec fn spec_climbed(
    states: Seq<NodeState>,
    g: SingleDirBoundsGraph,
    tree: Seq<Option<NodeId>>,
    node: int,
) -> Seq<NodeState>
    decreases tree.len() - node,
{
    if 0 <= node < tree.len() {
        let settled = spec_settled(
            states,
            g,
            node,
            states[node].lower_bound,
            states[node].upper_bound,
            g.spec_first_out()[node + 1] - g.spec_first_out()[node],
        );
        match tree[node] {
            Some(parent) => if node < parent < tree.len() {
                spec_climbed(settled, g, tree, parent as int)
            } else {
                settled
            },
            None => settled,
        }
    } else {
        states
    }
}

/// What is known of all nodes once a search that has come to `next` is over.
pub open spec fn spec_rest(
    states: Seq<NodeState>,
    g: SingleDirBoundsGraph,
    tree: Seq<Option<NodeId>>,
    next: Option<NodeId>,
) -> Seq<NodeState> {
    match next {
        Some(node) => spec_climbed(states, g, tree, node as int),
        None => states,
    }
}

/// Whether the lower bound of no arc is above its upper bound.
pub open spec fn spec_ordered(g: SingleDirBoundsGraph) -> bool {
    forall|e: int| 0 <= e < g.spec_bounds().len() ==> (#[trigger] g.spec_bounds()[e]).0 <= g.spec_bounds()[e].1
}

/// Whether the lower bound of no node is above its upper bound.
pub open spec fn spec_states_ordered(states: Seq<NodeState>) -> bool {
    forall|v: int| 0 <= v < states.len() ==> (#[trigger] states[v]).lower_bound <= states[v].upper_bound
}

/// Whether the bounds of the head of arc `e` of node `u` are at most the
/// bounds of `u` and those of the arc.
pub open spec fn spec_arc_bounded(g: SingleDirBoundsGraph, states: Seq<NodeState>, u: int, e: int) -> bool {
    let h = g.spec_head()[e] as int;
    &&& states[h].lower_bound <= spec_sat_add(g.spec_bounds()[e].0 as int, states[u].lower_bound as int)
    &&& states[h].upper_bound <= spec_sat_add(g.spec_bounds()[e].1 as int, states[u].upper_bound as int)
}

/// Whether every arc of every node of `done` has been looked at.
pub open spec fn spec_done(g: SingleDirBoundsGraph, states: Seq<NodeState>, done: Set<int>) -> bool {
    forall|u: int, e: int|
        done.contains(u) && 0 <= u < g.spec_num_nodes() && g.spec_first_out()[u] <= e
            < g.spec_first_out()[u + 1] ==> #[trigger] spec_arc_bounded(g, states, u, e)
}

/// The nodes on the way from `node` up to the root.
pub open spec fn spec_way_up(tree: Seq<Option<NodeId>>, node: int) -> Set<int> {
    Set::new(|v: int| v == node || spec_is_ancestor(tree, node, v))
}

/// The node to which the arcs of `path` lead from `s`.
pub open spec fn spec_way_end(g: SingleDirBoundsGraph, s: int, path: Seq<int>) -> int {
    if path.len() == 0 {
        s
    } else {
        g.spec_head()[path.last()] as int
    }
}

/// Whether `path` is a row of arcs from `s`, each from the head of the
/// one before, that leaves only nodes of `among`.
pub open spec fn spec_is_way(g: SingleDirBoundsGraph, s: int, path: Seq<int>, among: Set<int>) -> bool
    decreases path.len(),
{
    if path.len() == 0 {
        0 <= s < g.spec_num_nodes()
    } else {
        let before = path.drop_last();
        let u = spec_way_end(g, s, before);
        &&& spec_is_way(g, s, before, among)
        &&& among.contains(u)
        &&& 0 <= u < g.spec_num_nodes()
        &&& g.spec_first_out()[u] <= path.last() < g.spec_first_out()[u + 1]
    }
}

/// The lower bounds of the arcs of `path`, added up.
pub open spec fn spec_lower_sum(g: SingleDirBoundsGraph, path: Seq<int>) -> int
    decreases path.len(),
{
    if path.len() == 0 {
        0
    } else {
        spec_sat_add(g.spec_bounds()[path.last()].0 as int, spec_lower_sum(g, path.drop_last()))
    }
}

/// The upper bounds of the arcs of `path`, added up.
pub open spec fn spec_upper_sum(g: SingleDirBoundsGraph, path: Seq<int>) -> int
    decreases path.len(),
{
    if path.len() == 0 {
        0
    } else {
        spec_sat_add(g.spec_bounds()[path.last()].1 as int, spec_upper_sum(g, path.drop_last()))
    }
}

/// One more arc never raises a bound of its head, and leaves it at most
/// at what the arc gives.
proof fn lemma_relaxed(target: NodeState, next: Label, next_upper: Weight)
    requires
        target.lower_bound <= target.upper_bound,
        next.lower_bound <= next_upper,
    ensures
        spec_relaxed(target, next, next_upper).lower_bound <= target.lower_bound,
        spec_relaxed(target, next, next_upper).lower_bound <= next.lower_bound,
        spec_relaxed(target, next, next_upper).upper_bound <= target.upper_bound,
        spec_relaxed(target, next, next_upper).upper_bound <= next_upper,
        spec_relaxed(target, next, next_upper).lower_bound <= spec_relaxed(
            target,
            next,
            next_upper,
        ).upper_bound,
{
}

/// Looking at the first `k` arcs of `node` changes nothing at `node` or
/// below, raises no bound, and leaves the heads of those arcs bounded.
proof fn lemma_settled(
    states: Seq<NodeState>,
    g: SingleDirBoundsGraph,
    node: int,
    lower: Weight,
    upper: Weight,
    k: int,
)
    requires
        g.wf(),
        0 <= node < g.spec_num_nodes(),
        states.len() == g.spec_num_nodes(),
        0 <= k <= g.spec_first_out()[node + 1] - g.spec_first_out()[node],
        spec_ordered(g),
        spec_states_ordered(states),
        lower <= upper,
    ensures
        spec_settled(states, g, node, lower, upper, k).len() == states.len(),
        spec_states_ordered(spec_settled(states, g, node, lower, upper, k)),
        forall|v: int|
            0 <= v < states.len() ==> (#[trigger] spec_settled(states, g, node, lower, upper, k)[v]).lower_bound
                <= states[v].lower_bound && spec_settled(states, g, node, lower, upper, k)[v].upper_bound
                <= states[v].upper_bound,
        forall|v: int| 0 <= v <= node ==> #[trigger] spec_settled(states, g, node, lower, upper, k)[v] == states[v],
        forall|e: int|
            g.spec_first_out()[node] <= e < g.spec_first_out()[node] + k ==> spec_settled(
                states,
                g,
                node,
                lower,
                upper,
                k,
            )[(#[trigger] g.spec_head()[e]) as int].lower_bound <= spec_sat_add(
                g.spec_bounds()[e].0 as int,
                lower as int,
            ) && spec_settled(states, g, node, lower, upper, k)[g.spec_head()[e] as int].upper_bound
                <= spec_sat_add(g.spec_bounds()[e].1 as int, upper as int),
    decreases k,
{
    if k > 0 {
        lemma_settled(states, g, node, lower, upper, k - 1);
        lemma_offsets_monotone(g.spec_first_out(), g.spec_head().len() as int, node + 1, g.spec_first_out().len() - 1);
        let before = spec_settled(states, g, node, lower, upper, k - 1);
        let after = spec_settled(states, g, node, lower, upper, k);
        let e = g.spec_first_out()[node] + k - 1;
        let target = g.spec_head()[e] as int;
        let next = spec_label(g, node, lower, e);
        let next_upper = spec_sat_add(g.spec_bounds()[e].1 as int, upper as int) as Weight;
        assert(g.spec_bounds()[e].0 <= g.spec_bounds()[e].1);
        assert(node < target < g.spec_num_nodes());
        lemma_relaxed(before[target], next, next_upper);
        assert(after == before.update(target, spec_relaxed(before[target], next, next_upper)));
        assert forall|other: int|
            g.spec_first_out()[node] <= other < g.spec_first_out()[node] + k implies after[(#[trigger] g.spec_head()[other]) as int].lower_bound
            <= spec_sat_add(g.spec_bounds()[other].0 as int, lower as int) && after[g.spec_head()[other] as int].upper_bound
            <= spec_sat_add(g.spec_bounds()[other].1 as int, upper as int) by {
            let h = g.spec_head()[other] as int;
            if other < e {
                assert(before[h].lower_bound <= spec_sat_add(g.spec_bounds()[other].0 as int, lower as int));
                assert(after[h].lower_bound <= before[h].lower_bound);
            }
        }
    }
}

/// Running up from `node` leaves every arc of every node on the way
/// looked at, and changes nothing below `node`.
proof fn lemma_climbed(
    states: Seq<NodeState>,
    g: SingleDirBoundsGraph,
    tree: Seq<Option<NodeId>>,
    s: int,
    node: int,
    done: Set<int>,
)
    requires
        g.wf(),
        spec_tree_ok(tree),
        tree.len() == g.spec_num_nodes(),
        states.len() == g.spec_num_nodes(),
        0 <= s <= node < g.spec_num_nodes(),
        spec_ordered(g),
        spec_states_ordered(states),
        spec_done(g, states, done),
        forall|d: int| done.contains(d) ==> 0 <= d < node,
    ensures
        spec_climbed(states, g, tree, node).len() == states.len(),
        spec_climbed(states, g, tree, node)[s] == states[s],
        spec_done(g, spec_climbed(states, g, tree, node), done.union(spec_way_up(tree, node))),
    decreases tree.len() - node,
{
    let lower = states[node].lower_bound;
    let upper = states[node].upper_bound;
    let k = g.spec_first_out()[node + 1] - g.spec_first_out()[node];
    lemma_offsets_monotone(g.spec_first_out(), g.spec_head().len() as int, node, node + 1);
    lemma_settled(states, g, node, lower, upper, k);
    let settled = spec_settled(states, g, node, lower, upper, k);
    let wider = done.insert(node);
    assert forall|u: int, e: int|
        wider.contains(u) && 0 <= u < g.spec_num_nodes() && g.spec_first_out()[u] <= e
            < g.spec_first_out()[u + 1] implies #[trigger] spec_arc_bounded(g, settled, u, e) by {
        lemma_offsets_monotone(g.spec_first_out(), g.spec_head().len() as int, u + 1, g.spec_first_out().len() - 1);
        let h = g.spec_head()[e] as int;
        assert(settled[u] == states[u]);
        if u != node {
            assert(spec_arc_bounded(g, states, u, e));
            assert(settled[h].lower_bound <= states[h].lower_bound);
        }
    }
    match tree[node] {
        Some(parent) => {
            lemma_climbed(settled, g, tree, s, parent as int, wider);
            assert(wider.union(spec_way_up(tree, parent as int)) =~= done.union(spec_way_up(tree, node)));
        },
        None => {
            assert(wider =~= done.union(spec_way_up(tree, node)));
        },
    }
}

/// Where every arc of every node of `done` has been looked at, the
/// bounds at the end of a way from the origin over nodes of `done` are at
/// most the sums of the bounds along the way.
pub proof fn lemma_way_bounds(
    g: SingleDirBoundsGraph,
    states: Seq<NodeState>,
    done: Set<int>,
    s: int,
    path: Seq<int>,
)
    requires
        g.wf(),
        states.len() == g.spec_num_nodes(),
        spec_done(g, states, done),
        spec_is_way(g, s, path, done),
        states[s].lower_bound == 0,
        states[s].upper_bound == 0,
    ensures
        0 <= spec_way_end(g, s, path) < g.spec_num_nodes(),
        0 <= spec_lower_sum(g, path) <= INFINITY,
        0 <= spec_upper_sum(g, path) <= INFINITY,
        states[spec_way_end(g, s, path)].lower_bound <= spec_lower_sum(g, path),
        states[spec_way_end(g, s, path)].upper_bound <= spec_upper_sum(g, path),
    decreases path.len(),
{
    if path.len() > 0 {
        let before = path.drop_last();
        let u = spec_way_end(g, s, before);
        let e = path.last();
        lemma_way_bounds(g, states, done, s, before);
        lemma_offsets_monotone(g.spec_first_out(), g.spec_head().len() as int, u + 1, g.spec_first_out().len() - 1);
        assert(spec_arc_bounded(g, states, u, e));
    }
}

/// The bounds that an interval search from `s`, run to the root, gives a
/// node are at most the sums of the bounds of the arcs along every way
/// from `s` to that node over nodes on the way from `s` up to the root.
pub proof fn lemma_search_bounds(
    g: SingleDirBoundsGraph,
    tree: Seq<Option<NodeId>>,
    s: int,
    path: Seq<int>,
)
    requires
        g.wf(),
        spec_tree_ok(tree),
        tree.len() == g.spec_num_nodes(),
        0 <= s < g.spec_num_nodes(),
        spec_ordered(g),
        spec_is_way(g, s, path, spec_way_up(tree, s)),
    ensures
        0 <= spec_way_end(g, s, path) < g.spec_num_nodes(),
        spec_climbed(spec_start(g.spec_num_nodes(), s), g, tree, s)[spec_way_end(
            g,
            s,
            path,
        )].lower_bound <= spec_lower_sum(g, path),
        spec_climbed(spec_start(g.spec_num_nodes(), s), g, tree, s)[spec_way_end(
            g,
            s,
            path,
        )].upper_bound <= spec_upper_sum(g, path),
{
    let start = spec_start(g.spec_num_nodes(), s);
    let none = Set::<int>::empty();
    lemma_climbed(start, g, tree, s, s, none);
    let after = spec_climbed(start, g, tree, s);
    assert(none.union(spec_way_up(tree, s)) =~= spec_way_up(tree, s));
    lemma_way_bounds(g, after, spec_way_up(tree, s), s, path);
}

/// A way from the source up to a node outside the corridor and a way
/// from the target up to that node have lower bounds that add up to more
/// than the upper bound of the corridor.
pub proof fn lemma_corridor_dominance(
    forward: SingleDirBoundsGraph,
    backward: SingleDirBoundsGraph,
    tree: Seq<Option<NodeId>>,
    s: int,
    t: int,
    upper: int,
    up: Seq<int>,
    down: Seq<int>,
)
    requires
        forward.wf(),
        backward.wf(),
        spec_tree_ok(tree),
        tree.len() == forward.spec_num_nodes(),
        tree.len() == backward.spec_num_nodes(),
        0 <= s < tree.len(),
        0 <= t < tree.len(),
        spec_ordered(forward),
        spec_ordered(backward),
        spec_is_way(forward, s, up, spec_way_up(tree, s)),
        spec_is_way(backward, t, down, spec_way_up(tree, t)),
        spec_way_end(forward, s, up) == spec_way_end(backward, t, down),
        upper <= INFINITY,
        !spec_may_lie_on_path(
            spec_climbed(spec_start(tree.len() as int, s), forward, tree, s),
            spec_climbed(spec_start(tree.len() as int, t), backward, tree, t),
            spec_way_end(forward, s, up),
            upper,
        ),
    ensures
        spec_lower_sum(forward, up) + spec_lower_sum(backward, down) > upper,
{
    lemma_search_bounds(forward, tree, s, up);
    lemma_search_bounds(backward, tree, t, down);
}

/// Whether the bounds of the arcs of `g` are the stored bounds of the
/// upward (`up`) or downward arcs of `model`.
pub open spec fn spec_bounds_from(g: SingleDirBoundsGraph, model: ShortcutModel, up: bool) -> bool {
    &&& g.spec_bounds().len() == model.arcs(up).len()
    &&& forall|e: int|
        0 <= e < g.spec_bounds().len() ==> (#[trigger] g.spec_bounds()[e]).0 == model.arcs(up)[e].lower
            && g.spec_bounds()[e].1 == model.arcs(up)[e].upper
}

/// The travel time along the upward arcs of `path`, one after the other,
/// the first entered at `t`.
pub open spec fn spec_way_time(model: ShortcutModel, path: Seq<int>, t: int) -> int
    decreases path.len(),
{
    if path.len() == 0 {
        0
    } else {
        let before = spec_way_time(model, path.drop_last(), t);
        spec_sat_add(model.eval(true, path.last(), t + before), before)
    }
}

/// The travel time along the downward arcs of `path` from the last to
/// the first, down from the highest node, the last entered at `t`.
pub open spec fn spec_way_back_time(model: ShortcutModel, path: Seq<int>, t: int) -> int
    decreases path.len(),
{
    if path.len() == 0 {
        0
    } else {
        let first = model.eval(false, path.last(), t);
        spec_sat_add(first, spec_way_back_time(model, path.drop_last(), t + first))
    }
}

/// Sound bounds are ordered.
proof fn lemma_sound_is_ordered(g: SingleDirBoundsGraph, model: ShortcutModel, up: bool)
    requires
        model.bounds_sound(),
        spec_bounds_from(g, model, up),
    ensures
        spec_ordered(g),
{
    assert forall|e: int| 0 <= e < g.spec_bounds().len() implies (#[trigger] g.spec_bounds()[e]).0
        <= g.spec_bounds()[e].1 by {
        let arc = model.arcs(up)[e];
        assert(model.bounded(up, e, arc.lower, arc.upper));
        assert(arc.lower <= model.eval(up, e, 0) <= arc.upper);
    }
}

/// The lower bounds along a way up add up to at most the travel time along it.
proof fn lemma_way_time(g: SingleDirBoundsGraph, model: ShortcutModel, s: int, path: Seq<int>, among: Set<int>, t: int)
    requires
        g.wf(),
        model.wf(),
        model.bounds_sound(),
        spec_bounds_from(g, model, true),
        spec_is_way(g, s, path, among),
        0 <= t,
    ensures
        0 <= spec_lower_sum(g, path) <= spec_way_time(model, path, t) <= INFINITY,
    decreases path.len(),
{
    if path.len() > 0 {
        let before = path.drop_last();
        let u = spec_way_end(g, s, before);
        let e = path.last();
        lemma_way_time(g, model, s, before, among, t);
        lemma_offsets_monotone(g.spec_first_out(), g.spec_head().len() as int, u + 1, g.spec_first_out().len() - 1);
        let arc = model.outgoing[e];
        assert(model.bounded(true, e, arc.lower, arc.upper));
        let at = t + spec_way_time(model, before, t);
        assert(arc.lower <= model.eval(true, e, at));
        model.lemma_eval_range(true, e, at);
    }
}

/// The lower bounds along a way up from the target add up to at most
/// the travel time along it down to the target.
proof fn lemma_way_back_time(
    g: SingleDirBoundsGraph,
    model: ShortcutModel,
    s: int,
    path: Seq<int>,
    among: Set<int>,
    t: int,
)
    requires
        g.wf(),
        model.wf(),
        model.bounds_sound(),
        spec_bounds_from(g, model, false),
        spec_is_way(g, s, path, among),
        0 <= t,
    ensures
        0 <= spec_lower_sum(g, path) <= spec_way_back_time(model, path, t) <= INFINITY,
    decreases path.len(),
{
    if path.len() > 0 {
        let before = path.drop_last();
        let u = spec_way_end(g, s, before);
        let e = path.last();
        lemma_offsets_monotone(g.spec_first_out(), g.spec_head().len() as int, u + 1, g.spec_first_out().len() - 1);
        let arc = model.incoming[e];
        assert(model.bounded(false, e, arc.lower, arc.upper));
        assert(arc.lower <= model.eval(false, e, t));
        model.lemma_eval_range(false, e, t);
        lemma_way_back_time(g, model, s, before, among, t + model.eval(false, e, t));
    }
}

/// Corridor dominance on the hierarchy: where the stored bounds are
/// sound, going from the source up to a node outside the corridor and
/// from there down to the target takes longer than the upper bound of
/// the corridor, whenever one leaves.
pub proof fn lemma_outside_takes_longer(
    model: ShortcutModel,
    forward: SingleDirBoundsGraph,
    backward: SingleDirBoundsGraph,
    tree: Seq<Option<NodeId>>,
    s: int,
    t: int,
    upper: int,
    up: Seq<int>,
    down: Seq<int>,
    departure: int,
)
    requires
        model.wf(),
        model.bounds_sound(),
        forward.wf(),
        backward.wf(),
        spec_bounds_from(forward, model, true),
        spec_bounds_from(backward, model, false),
        spec_tree_ok(tree),
        tree.len() == forward.spec_num_nodes(),
        tree.len() == backward.spec_num_nodes(),
        0 <= s < tree.len(),
        0 <= t < tree.len(),
        spec_is_way(forward, s, up, spec_way_up(tree, s)),
        spec_is_way(backward, t, down, spec_way_up(tree, t)),
        spec_way_end(forward, s, up) == spec_way_end(backward, t, down),
        upper <= INFINITY,
        !spec_may_lie_on_path(
            spec_climbed(spec_start(tree.len() as int, s), forward, tree, s),
            spec_climbed(spec_start(tree.len() as int, t), backward, tree, t),
            spec_way_end(forward, s, up),
            upper,
        ),
        0 <= departure,
    ensures
        spec_way_time(model, up, departure) + spec_way_back_time(
            model,
            down,
            departure + spec_way_time(model, up, departure),
        ) > upper,
{
    lemma_sound_is_ordered(forward, model, true);
    lemma_sound_is_ordered(backward, model, false);
    lemma_corridor_dominance(forward, backward, tree, s, t, upper, up, down);
    lemma_way_time(forward, model, s, up, spec_way_up(tree, s), departure);
    lemma_way_back_time(
        backward,
        model,
        t,
        down,
        spec_way_up(tree, t),
        departure + spec_way_time(model, up, departure),
    );
}

} // verus!
