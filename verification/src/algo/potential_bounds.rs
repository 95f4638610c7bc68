//! What the bounds from a hierarchy say: the bound of a node is at most
//! the length of every way from it up the hierarchy and from there down
//! to the target.
use vstd::prelude::*;
use crate::algo::ch_potentials::{lemma_potential_step, spec_arcs_rise, spec_potential};
use crate::graph::first_out_graph::FirstOutGraph;
use crate::shortest_path::floating_td_stepped_elimination_tree::spec_tree_ok;
use crate::shortest_path::interval_bounds::spec_way_up;
use crate::shortest_path::stepped_elimination_tree::{
    spec_relaxed, spec_run, spec_settled, spec_start_distances, TreeState,
};
use crate::types::{spec_sat_add, Link, NodeId, Weight, INFINITY};

verus! {

/// The node to which the arcs `steps` lead from `s`: each is the number
/// of an arc among those of the node that the arcs before lead to.
pub open spec fn spec_walk_end(g: FirstOutGraph, s: int, steps: Seq<int>) -> int
    decreases steps.len(),
{
    if steps.len() == 0 {
        s
    } else {
        g.spec_links(spec_walk_end(g, s, steps.drop_last()))[steps.last()].node as int
    }
}

/// Whether `steps` is a row of arcs from `s`, each to a higher node, that
/// leaves only nodes of `among`.
pub open spec fn spec_is_walk(g: FirstOutGraph, s: int, steps: Seq<int>, among: Set<int>) -> bool
    decreases steps.len(),
{
    if steps.len() == 0 {
        0 <= s < g.spec_num_nodes()
    } else {
        let before = steps.drop_last();
        let u = spec_walk_end(g, s, before);
        &&& spec_is_walk(g, s, before, among)
        &&& among.contains(u)
        &&& 0 <= u < g.spec_num_nodes()
        &&& 0 <= steps.last() < g.spec_links(u).len()
        &&& u < g.spec_links(u)[steps.last()].node < g.spec_num_nodes()
    }
}

/// The weights of the arcs `steps` from `s`, added up.
pub open spec fn spec_walk_weight(g: FirstOutGraph, s: int, steps: Seq<int>) -> int
    decreases steps.len(),
{
    if steps.len() == 0 {
        0
    } else {
        let before = steps.drop_last();
        spec_sat_add(
            spec_walk_weight(g, s, before),
            g.spec_links(spec_walk_end(g, s, before))[steps.last()].weight as int,
        )
    }
}

/// Whether the distance of the head of arc `i` of node `u` is at most
/// the distance of `u` and the weight of the arc.
pub open spec fn spec_link_bounded(g: FirstOutGraph, dist: Seq<Weight>, u: int, i: int) -> bool {
    dist[g.spec_links(u)[i].node as int] <= spec_sat_add(dist[u] as int, g.spec_links(u)[i].weight as int)
}

/// Whether every arc of every node of `done` has been looked at.
pub open spec fn spec_done(g: FirstOutGraph, dist: Seq<Weight>, done: Set<int>) -> bool {
    forall|u: int, i: int|
        done.contains(u) && 0 <= u < g.spec_num_nodes() && 0 <= i < g.spec_links(u).len()
            ==> #[trigger] spec_link_bounded(g, dist, u, i)
}

/// Whether every arc of `links` leads from below to a node above `node`.
pub open spec fn spec_links_rise(links: Seq<Link>, node: int, n: int) -> bool {
    forall|i: int| 0 <= i < links.len() ==> node < (#[trigger] links[i]).node < n
}

/// Looking at the first `k` arcs of `node` changes nothing at `node` or
/// below, raises no distance, and leaves the heads of those arcs bounded.
proof fn lemma_settled(st: TreeState, node: int, distance: Weight, links: Seq<Link>, k: int)
    requires
        0 <= node < st.dist.len(),
        0 <= k <= links.len(),
        spec_links_rise(links, node, st.dist.len() as int),
    ensures
        spec_settled(st, node, distance, links, k).dist.len() == st.dist.len(),
        forall|v: int|
            0 <= v < st.dist.len() ==> (#[trigger] spec_settled(st, node, distance, links, k).dist[v])
                <= st.dist[v],
        forall|v: int| 0 <= v <= node ==> #[trigger] spec_settled(st, node, distance, links, k).dist[v] == st.dist[v],
        forall|i: int|
            0 <= i < k ==> spec_settled(st, node, distance, links, k).dist[(#[trigger] links[i]).node as int]
                <= spec_sat_add(distance as int, links[i].weight as int),
    decreases k,
{
    if k > 0 {
        lemma_settled(st, node, distance, links, k - 1);
        let before = spec_settled(st, node, distance, links, k - 1);
        let after = spec_settled(st, node, distance, links, k);
        assert(after == spec_relaxed(before, node, distance, links[k - 1]));
        assert(node < links[k - 1].node < st.dist.len());
        assert forall|i: int| 0 <= i < k implies after.dist[(#[trigger] links[i]).node as int]
            <= spec_sat_add(distance as int, links[i].weight as int) by {
            if i < k - 1 {
                assert(before.dist[links[i].node as int] <= spec_sat_add(
                    distance as int,
                    links[i].weight as int,
                ));
                assert(after.dist[links[i].node as int] <= before.dist[links[i].node as int]);
            }
        }
    }
}

/// Running up from `node` leaves every arc of every node on the way
/// looked at, and changes nothing below `node`.
proof fn lemma_run(
    g: FirstOutGraph,
    tree: Seq<Option<NodeId>>,
    st: TreeState,
    s: int,
    node: NodeId,
    done: Set<int>,
)
    requires
        g.wf(),
        spec_arcs_rise(g),
        spec_tree_ok(tree),
        tree.len() == g.spec_num_nodes(),
        st.dist.len() == g.spec_num_nodes(),
        0 <= s <= node < g.spec_num_nodes(),
        spec_done(g, st.dist, done),
        forall|d: int| done.contains(d) ==> 0 <= d < node,
    ensures
        spec_run(g, tree, st, Some(node)).dist.len() == st.dist.len(),
        spec_run(g, tree, st, Some(node)).dist[s] == st.dist[s],
        spec_done(g, spec_run(g, tree, st, Some(node)).dist, done.union(spec_way_up(tree, node as int))),
    decreases tree.len() - node,
{
    g.lemma_wf();
    let links = g.spec_links(node as int);
    assert(spec_links_rise(links, node as int, st.dist.len() as int)) by {
        assert forall|i: int| 0 <= i < links.len() implies node < (#[trigger] links[i]).node
            < st.dist.len() by {
            crate::graph::first_out_graph::lemma_offsets_monotone(
                g.spec_first_out(),
                g.spec_head().len() as int,
                node + 1,
                g.spec_first_out().len() - 1,
            );
            assert(node < g.spec_links(node as int)[i].node);
        }
    }
    lemma_settled(st, node as int, st.dist[node as int], links, links.len() as int);
    let after = spec_settled(st, node as int, st.dist[node as int], links, links.len() as int);
    let wider = done.insert(node as int);
    assert forall|u: int, i: int|
        wider.contains(u) && 0 <= u < g.spec_num_nodes() && 0 <= i < g.spec_links(u).len()
            implies #[trigger] spec_link_bounded(g, after.dist, u, i) by {
        let h = g.spec_links(u)[i].node as int;
        crate::graph::first_out_graph::lemma_offsets_monotone(
            g.spec_first_out(),
            g.spec_head().len() as int,
            u + 1,
            g.spec_first_out().len() - 1,
        );
        assert(after.dist[u] == st.dist[u]);
        if u != node {
            assert(spec_link_bounded(g, st.dist, u, i));
            assert(after.dist[h] <= st.dist[h]);
        }
    }
    assert(spec_run(g, tree, st, Some(node)) == spec_run(g, tree, after, tree[node as int]));
    match tree[node as int] {
        Some(parent) => {
            lemma_run(g, tree, after, s, parent, wider);
            assert(wider.union(spec_way_up(tree, parent as int)) =~= done.union(
                spec_way_up(tree, node as int),
            ));
        },
        None => {
            assert(wider =~= done.union(spec_way_up(tree, node as int)));
        },
    }
}

/// Where every arc of every node of `done` has been looked at, the
/// distance of the end of a way from the origin over nodes of `done` is
/// at most the weight of the way.
proof fn lemma_walk_distance(g: FirstOutGraph, dist: Seq<Weight>, done: Set<int>, s: int, steps: Seq<int>)
    requires
        dist.len() == g.spec_num_nodes(),
        spec_done(g, dist, done),
        spec_is_walk(g, s, steps, done),
        dist[s] == 0,
    ensures
        0 <= spec_walk_end(g, s, steps) < g.spec_num_nodes(),
        0 <= spec_walk_weight(g, s, steps) <= INFINITY,
        dist[spec_walk_end(g, s, steps)] <= spec_walk_weight(g, s, steps),
    decreases steps.len(),
{
    if steps.len() > 0 {
        let before = steps.drop_last();
        let u = spec_walk_end(g, s, before);
        lemma_walk_distance(g, dist, done, s, before);
        assert(spec_link_bounded(g, dist, u, steps.last()));
    }
}

/// The distance that a search from `s`, run to the root, gives a node
/// is at most the weight of every way from `s` to that node over nodes on
/// the way from `s` up to the root.
pub proof fn lemma_tree_distance(
    g: FirstOutGraph,
    tree: Seq<Option<NodeId>>,
    pred: Seq<NodeId>,
    s: int,
    steps: Seq<int>,
)
    requires
        g.wf(),
        spec_arcs_rise(g),
        spec_tree_ok(tree),
        tree.len() == g.spec_num_nodes(),
        0 <= s < g.spec_num_nodes(),
        spec_is_walk(g, s, steps, spec_way_up(tree, s)),
    ensures
        0 <= spec_walk_end(g, s, steps) < g.spec_num_nodes(),
        spec_run(
            g,
            tree,
            TreeState { dist: spec_start_distances(g.spec_num_nodes(), s), pred },
            Some(s as NodeId),
        ).dist[spec_walk_end(g, s, steps)] <= spec_walk_weight(g, s, steps),
{
    g.lemma_wf();
    let start = TreeState { dist: spec_start_distances(g.spec_num_nodes(), s), pred };
    let none = Set::<int>::empty();
    lemma_run(g, tree, start, s, s as NodeId, none);
    assert(none.union(spec_way_up(tree, s)) =~= spec_way_up(tree, s));
    lemma_walk_distance(g, spec_run(g, tree, start, Some(s as NodeId)).dist, spec_way_up(tree, s), s, steps);
}

/// Whether some way from `s` over nodes of `done` leads to `v` and weighs `d`.
pub open spec fn spec_walked_to(g: FirstOutGraph, s: int, v: int, d: int, done: Set<int>) -> bool {
    exists|steps: Seq<int>|
        #[trigger] spec_is_walk(g, s, steps, done) && spec_walk_end(g, s, steps) == v && spec_walk_weight(
            g,
            s,
            steps,
        ) == d
}

/// Whether no distance is above `INFINITY`, and every distance below it
/// is the weight of a way from `s` over nodes of `done`.
pub open spec fn spec_reached(g: FirstOutGraph, dist: Seq<Weight>, s: int, done: Set<int>) -> bool {
    forall|v: int|
        0 <= v < dist.len() ==> (#[trigger] dist[v]) <= INFINITY && (dist[v] < INFINITY ==> spec_walked_to(
            g,
            s,
            v,
            dist[v] as int,
            done,
        ))
}

/// A way over some nodes is a way over more nodes.
proof fn lemma_walk_wider(g: FirstOutGraph, s: int, steps: Seq<int>, done: Set<int>, wider: Set<int>)
    requires
        spec_is_walk(g, s, steps, done),
        done.subset_of(wider),
    ensures
        spec_is_walk(g, s, steps, wider),
    decreases steps.len(),
{
    if steps.len() > 0 {
        lemma_walk_wider(g, s, steps.drop_last(), done, wider);
    }
}

/// Looking at the first `k` arcs of `node` leaves every distance the
/// weight of a way over the nodes that were done and `node`.
proof fn lemma_settled_reached(
    g: FirstOutGraph,
    st: TreeState,
    s: int,
    node: int,
    k: int,
    done: Set<int>,
)
    requires
        0 <= node < g.spec_num_nodes(),
        st.dist.len() == g.spec_num_nodes(),
        0 <= k <= g.spec_links(node).len(),
        spec_links_rise(g.spec_links(node), node, st.dist.len() as int),
        spec_reached(g, st.dist, s, done),
    ensures
        spec_reached(
            g,
            spec_settled(st, node, st.dist[node], g.spec_links(node), k).dist,
            s,
            done.insert(node),
        ),
    decreases k,
{
    let links = g.spec_links(node);
    let distance = st.dist[node];
    let wider = done.insert(node);
    if k == 0 {
        assert forall|v: int| 0 <= v < st.dist.len() && (#[trigger] st.dist[v]) < INFINITY implies spec_walked_to(
            g,
            s,
            v,
            st.dist[v] as int,
            wider,
        ) by {
            let steps = choose|steps: Seq<int>|
                #[trigger] spec_is_walk(g, s, steps, done) && spec_walk_end(g, s, steps) == v
                    && spec_walk_weight(g, s, steps) == st.dist[v];
            lemma_walk_wider(g, s, steps, done, wider);
        }
    } else {
        lemma_settled_reached(g, st, s, node, k - 1, done);
        lemma_settled(st, node, distance, links, k - 1);
        let before = spec_settled(st, node, distance, links, k - 1);
        let after = spec_settled(st, node, distance, links, k);
        let link = links[k - 1];
        let next = spec_sat_add(distance as int, link.weight as int);
        assert(after == spec_relaxed(before, node, distance, link));
        assert(node < link.node < st.dist.len());
        assert forall|v: int| 0 <= v < after.dist.len() implies (#[trigger] after.dist[v]) <= INFINITY && (
        after.dist[v] < INFINITY ==> spec_walked_to(g, s, v, after.dist[v] as int, wider)) by {
            assert(before.dist[v] <= INFINITY);
            if v == link.node && next < before.dist[v] {
                assert(distance < INFINITY);
                let to_node = choose|steps: Seq<int>|
                    #[trigger] spec_is_walk(g, s, steps, done) && spec_walk_end(g, s, steps) == node
                        && spec_walk_weight(g, s, steps) == distance;
                lemma_walk_wider(g, s, to_node, done, wider);
                let on = to_node.push(k - 1);
                assert(on.drop_last() =~= to_node);
                assert(spec_is_walk(g, s, on, wider));
                assert(spec_walk_end(g, s, on) == v);
                assert(spec_walk_weight(g, s, on) == next);
            }
        }
    }
}

/// Running up from `node` leaves every distance the weight of a way
/// over the nodes that were done and those on the way up.
proof fn lemma_run_reached(
    g: FirstOutGraph,
    tree: Seq<Option<NodeId>>,
    st: TreeState,
    s: int,
    node: NodeId,
    done: Set<int>,
)
    requires
        g.wf(),
        spec_arcs_rise(g),
        spec_tree_ok(tree),
        tree.len() == g.spec_num_nodes(),
        st.dist.len() == g.spec_num_nodes(),
        node < g.spec_num_nodes(),
        spec_reached(g, st.dist, s, done),
    ensures
        spec_reached(
            g,
            spec_run(g, tree, st, Some(node)).dist,
            s,
            done.union(spec_way_up(tree, node as int)),
        ),
    decreases tree.len() - node,
{
    g.lemma_wf();
    let links = g.spec_links(node as int);
    assert(spec_links_rise(links, node as int, st.dist.len() as int)) by {
        assert forall|i: int| 0 <= i < links.len() implies node < (#[trigger] links[i]).node
            < st.dist.len() by {
            crate::graph::first_out_graph::lemma_offsets_monotone(
                g.spec_first_out(),
                g.spec_head().len() as int,
                node + 1,
                g.spec_first_out().len() - 1,
            );
            assert(node < g.spec_links(node as int)[i].node);
        }
    }
    lemma_settled(st, node as int, st.dist[node as int], links, links.len() as int);
    lemma_settled_reached(g, st, s, node as int, links.len() as int, done);
    let after = spec_settled(st, node as int, st.dist[node as int], links, links.len() as int);
    let wider = done.insert(node as int);
    assert(spec_run(g, tree, st, Some(node)) == spec_run(g, tree, after, tree[node as int]));
    match tree[node as int] {
        Some(parent) => {
            lemma_run_reached(g, tree, after, s, parent, wider);
            assert(wider.union(spec_way_up(tree, parent as int)) =~= done.union(
                spec_way_up(tree, node as int),
            ));
        },
        None => {
            assert(wider =~= done.union(spec_way_up(tree, node as int)));
        },
    }
}

/// The distance that a search from `s`, run to the root, gives a node
/// is the least weight of a way from `s` to that node over nodes on the
/// way from `s` up to the root: a distance below `INFINITY` is the
/// weight of such a way, and no such way weighs less.
pub proof fn lemma_tree_distance_is_least(
    g: FirstOutGraph,
    tree: Seq<Option<NodeId>>,
    pred: Seq<NodeId>,
    s: int,
    v: int,
)
    requires
        g.wf(),
        spec_arcs_rise(g),
        spec_tree_ok(tree),
        tree.len() == g.spec_num_nodes(),
        0 <= s < g.spec_num_nodes(),
        0 <= v < g.spec_num_nodes(),
    ensures
        ({
            let found = spec_run(
                g,
                tree,
                TreeState { dist: spec_start_distances(g.spec_num_nodes(), s), pred },
                Some(s as NodeId),
            ).dist[v];
            &&& found <= INFINITY
            &&& found < INFINITY ==> spec_walked_to(g, s, v, found as int, spec_way_up(tree, s))
            &&& forall|steps: Seq<int>|
                #[trigger] spec_is_walk(g, s, steps, spec_way_up(tree, s)) && spec_walk_end(g, s, steps)
                    == v ==> found <= spec_walk_weight(g, s, steps)
        }),
{
    g.lemma_wf();
    let start = TreeState { dist: spec_start_distances(g.spec_num_nodes(), s), pred };
    let none = Set::<int>::empty();
    assert(spec_reached(g, start.dist, s, none)) by {
        let empty = Seq::<int>::empty();
        assert(spec_is_walk(g, s, empty, none) && spec_walk_end(g, s, empty) == s && spec_walk_weight(
            g,
            s,
            empty,
        ) == 0);
    }
    lemma_run(g, tree, start, s, s as NodeId, none);
    lemma_run_reached(g, tree, start, s, s as NodeId, none);
    assert(none.union(spec_way_up(tree, s)) =~= spec_way_up(tree, s));
    let found = spec_run(g, tree, start, Some(s as NodeId)).dist;
    assert(found[v] <= INFINITY);
    assert forall|steps: Seq<int>|
        #[trigger] spec_is_walk(g, s, steps, spec_way_up(tree, s)) && spec_walk_end(g, s, steps)
            == v implies found[v] <= spec_walk_weight(g, s, steps) by {
        lemma_tree_distance(g, tree, pred, s, steps);
    }
}

/// The bound of a node is at most the weight of every way up from it
/// and the bound of the node where the way ends.
pub proof fn lemma_potential_walk(g: FirstOutGraph, down: Seq<Weight>, v: int, steps: Seq<int>, among: Set<int>)
    requires
        spec_is_walk(g, v, steps, among),
    ensures
        0 <= spec_walk_weight(g, v, steps) <= INFINITY,
        spec_potential(g, down, v) <= spec_sat_add(
            spec_walk_weight(g, v, steps),
            spec_potential(g, down, spec_walk_end(g, v, steps)),
        ),
    decreases steps.len(),
{
    crate::algo::ch_potentials::lemma_up_min_range(g, down, v, g.spec_links(v).len() as int);
    if steps.len() > 0 {
        let before = steps.drop_last();
        let u = spec_walk_end(g, v, before);
        lemma_potential_walk(g, down, v, before, among);
        lemma_potential_step(g, down, u, steps.last());
        let h = g.spec_links(u)[steps.last()].node as int;
        crate::algo::ch_potentials::lemma_up_min_range(g, down, u, g.spec_links(u).len() as int);
        crate::algo::ch_potentials::lemma_up_min_range(g, down, h, g.spec_links(h).len() as int);
    }
}

/// The bound of a node is at most the weight of every way from it up
/// the hierarchy to some node and from there down to the target: of a
/// way up the upward arcs from the node, and a way up the downward arcs,
/// turned round, from the target over nodes on the target's way to the root.
pub proof fn lemma_potential_admissible(
    forward: FirstOutGraph,
    backward: FirstOutGraph,
    tree: Seq<Option<NodeId>>,
    pred: Seq<NodeId>,
    target: int,
    v: int,
    up: Seq<int>,
    down: Seq<int>,
    among: Set<int>,
)
    requires
        backward.wf(),
        spec_arcs_rise(backward),
        spec_tree_ok(tree),
        tree.len() == backward.spec_num_nodes(),
        0 <= target < backward.spec_num_nodes(),
        spec_is_walk(forward, v, up, among),
        spec_is_walk(backward, target, down, spec_way_up(tree, target)),
        spec_walk_end(forward, v, up) == spec_walk_end(backward, target, down),
    ensures
        spec_potential(
            forward,
            spec_run(
                backward,
                tree,
                TreeState { dist: spec_start_distances(backward.spec_num_nodes(), target), pred },
                Some(target as NodeId),
            ).dist,
            v,
        ) <= spec_walk_weight(forward, v, up) + spec_walk_weight(backward, target, down),
{
    let distances = spec_run(
        backward,
        tree,
        TreeState { dist: spec_start_distances(backward.spec_num_nodes(), target), pred },
        Some(target as NodeId),
    ).dist;
    lemma_tree_distance(backward, tree, pred, target, down);
    lemma_potential_walk(forward, distances, v, up, among);
}

} // verus!
