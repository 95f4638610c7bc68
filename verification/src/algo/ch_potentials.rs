//! Lower bounds on the distance to a target, from a hierarchy with scalar weights.
use vstd::prelude::*;
use crate::datastr::node_order::NodeOrder;
use crate::datastr::timestamped_vector::TimestampedVector;
use crate::graph::first_out_graph::{lemma_offsets_monotone, FirstOutGraph};
use crate::shortest_path::floating_td_stepped_elimination_tree::spec_tree_ok;
use crate::shortest_path::stepped_dijkstra::{spec_all_shortest, SteppedDijkstra};
use crate::shortest_path::stepped_elimination_tree::{
    spec_run, spec_start_distances, SteppedEliminationTree, TreeState,
};
use crate::types::Query;
use crate::types::{sat_add, spec_sat_add, NodeId, Weight, INFINITY};

verus! {

/// A source of lower bounds on the distance to a target that is set beforehand.
pub trait Potential {
    /// Whether the source is in order.
    spec fn wf(&self) -> bool;

    /// Number of nodes for which bounds are given.
    spec fn spec_num_nodes(&self) -> int;

    /// The bound of `node` for the target that is set.
    spec fn spec_value(&self, node: int) -> Option<Weight>;

    /// How many bounds were asked for since the target was set.
    spec fn spec_evals(&self) -> usize;

    /// The target that is set; nothing before one is.
    spec fn spec_target(&self) -> Option<NodeId>;

    /// Sets the target.
    fn init(&mut self, target: NodeId)
        requires
            old(self).wf(),
            target < old(self).spec_num_nodes(),
        ensures
            final(self).wf(),
            final(self).spec_num_nodes() == old(self).spec_num_nodes(),
            final(self).spec_evals() == 0,
            final(self).spec_target() == Some(target),
    ;

    /// A lower bound on the distance from `node` to the target; nothing
    /// where the target cannot be reached.
    fn potential(&mut self, node: NodeId) -> (r: Option<Weight>)
        requires
            old(self).wf(),
            node < old(self).spec_num_nodes(),
        ensures
            final(self).wf(),
            final(self).spec_num_nodes() == old(self).spec_num_nodes(),
            r == old(self).spec_value(node as int),
            forall|x: int| #[trigger] final(self).spec_value(x) == old(self).spec_value(x),
            final(self).spec_target() == old(self).spec_target(),
            r matches Some(bound) ==> bound < INFINITY,
            final(self).spec_evals() == (if old(self).spec_evals() < usize::MAX {
                (old(self).spec_evals() + 1) as usize
            } else {
                usize::MAX
            }),
    ;

    /// How many bounds were asked for since the target was set; the count stops at the largest number.
    fn num_pot_evals(&self) -> (r: usize)
        ensures
            r == self.spec_evals(),
    ;
}

/// The bound that knows nothing: zero for every node.
#[derive(Debug, Clone, Copy)]
pub struct ZeroPotential {
    pub num_nodes: usize,
    pub num_pot_evals: usize,
    pub target: Option<NodeId>,
}

impl Potential for ZeroPotential {
    open spec fn wf(&self) -> bool {
        true
    }

    open spec fn spec_num_nodes(&self) -> int {
        self.num_nodes as int
    }

    open spec fn spec_value(&self, node: int) -> Option<Weight> {
        Some(0u32)
    }

    open spec fn spec_evals(&self) -> usize {
        self.num_pot_evals
    }

    open spec fn spec_target(&self) -> Option<NodeId> {
        self.target
    }

    fn init(&mut self, target: NodeId) {
        self.num_pot_evals = 0;
        self.target = Some(target);
    }

    fn potential(&mut self, node: NodeId) -> (r: Option<Weight>) {
        if self.num_pot_evals < usize::MAX {
            self.num_pot_evals += 1;
        }
        Some(0)
    }

    fn num_pot_evals(&self) -> (r: usize) {
        self.num_pot_evals
    }
}

/// Whether `a` lies above `v` in the tree.
pub open spec fn spec_is_ancestor(tree: Seq<Option<NodeId>>, v: int, a: int) -> bool
    decreases tree.len() - v,
{
    if 0 <= v < tree.len() {
        match tree[v] {
            Some(p) => if v < p < tree.len() {
                p == a || spec_is_ancestor(tree, p as int, a)
            } else {
                false
            },
            None => false,
        }
    } else {
        false
    }
}

/// Whether every arc of the graph leads to a node above its tail in the tree.
pub open spec fn spec_arcs_lead_up(g: FirstOutGraph, tree: Seq<Option<NodeId>>) -> bool {
    forall|v: int, i: int|
        0 <= v < g.spec_num_nodes() && 0 <= i < g.spec_links(v).len() ==> spec_is_ancestor(
            tree,
            v,
            (#[trigger] g.spec_links(v)[i]).node as int,
        )
}

/// What lies above a node lies higher.
pub proof fn lemma_ancestor_above(tree: Seq<Option<NodeId>>, v: int, a: int)
    requires
        spec_is_ancestor(tree, v, a),
    ensures
        v < a < tree.len(),
    decreases tree.len() - v,
{
    if tree[v].unwrap() != a {
        lemma_ancestor_above(tree, tree[v].unwrap() as int, a);
    }
}

/// The least of the first `k` ways up from `v`: across an arc, and on from
/// its head by the bound of that head, which is the lesser of the distance
/// from the target up to the head and the least way up from the head.
pub open spec fn spec_up_min(g: FirstOutGraph, down: Seq<Weight>, v: int, k: int) -> int
    decreases g.spec_num_nodes() - v, k,
{
    if k <= 0 || !(0 <= v < g.spec_num_nodes()) {
        INFINITY as int
    } else {
        let link = g.spec_links(v)[k - 1];
        let rest = spec_up_min(g, down, v, k - 1);
        let h = link.node as int;
        if v < h < g.spec_num_nodes() {
            let above = spec_up_min(g, down, h, g.spec_links(h).len() as int);
            let bound = if down[h] <= above {
                down[h] as int
            } else {
                above
            };
            let via = spec_sat_add(link.weight as int, bound);
            if via < rest {
                via
            } else {
                rest
            }
        } else {
            rest
        }
    }
}

/// The bound of `v`: the lesser of the distance from the target up to `v`
/// and the least way up from `v`.
pub open spec fn spec_potential(g: FirstOutGraph, down: Seq<Weight>, v: int) -> int {
    let above = spec_up_min(g, down, v, g.spec_links(v).len() as int);
    if down[v] <= above {
        down[v] as int
    } else {
        above
    }
}

/// The bounds of a source, as a function of the node.
pub open spec fn spec_bounds_of<P: Potential>(potential: &P) -> spec_fn(int) -> Option<Weight> {
    |node: int| potential.spec_value(node)
}

/// A way up costs at most `INFINITY`, and nothing is negative.
pub proof fn lemma_up_min_range(g: FirstOutGraph, down: Seq<Weight>, v: int, k: int)
    ensures
        0 <= spec_up_min(g, down, v, k) <= INFINITY,
    decreases g.spec_num_nodes() - v, k,
{
    if k > 0 && 0 <= v < g.spec_num_nodes() {
        lemma_up_min_range(g, down, v, k - 1);
        let h = g.spec_links(v)[k - 1].node as int;
        if v < h < g.spec_num_nodes() {
            lemma_up_min_range(g, down, h, g.spec_links(h).len() as int);
        }
    }
}

/// The least of the first `k` ways up from `v` is at most the way across
/// arc `i`, one of them, and on by the bound of its head.
proof fn lemma_up_min_le(g: FirstOutGraph, down: Seq<Weight>, v: int, i: int, k: int)
    requires
        0 <= v < g.spec_num_nodes(),
        0 <= i < k,
        v < g.spec_links(v)[i].node < g.spec_num_nodes(),
    ensures
        spec_up_min(g, down, v, k) <= spec_sat_add(
            g.spec_links(v)[i].weight as int,
            spec_potential(g, down, g.spec_links(v)[i].node as int),
        ),
    decreases k,
{
    if k > i + 1 {
        lemma_up_min_le(g, down, v, i, k - 1);
    }
}

/// The bound of a node is at most the distance from the target up to it,
/// and at most the weight of any arc up from it and the bound of the head
/// of that arc: along the arcs of the hierarchy the bounds never fall by
/// more than an arc weighs.
pub proof fn lemma_potential_step(g: FirstOutGraph, down: Seq<Weight>, v: int, i: int)
    requires
        0 <= v < g.spec_num_nodes(),
        0 <= i < g.spec_links(v).len(),
        v < g.spec_links(v)[i].node < g.spec_num_nodes(),
    ensures
        spec_potential(g, down, v) <= down[v],
        spec_potential(g, down, v) <= spec_sat_add(
            g.spec_links(v)[i].weight as int,
            spec_potential(g, down, g.spec_links(v)[i].node as int),
        ),
{
    lemma_up_min_le(g, down, v, i, g.spec_links(v).len() as int);
}

/// Checks that every arc of `graph` leads to a node above its tail in the tree.
pub fn arcs_lead_up(graph: &FirstOutGraph, elimination_tree: &[Option<NodeId>]) -> (ok: bool)
    requires
        graph.wf(),
        elimination_tree@.len() == graph.spec_num_nodes(),
        spec_tree_ok(elimination_tree@),
    ensures
        ok == spec_arcs_lead_up(*graph, elimination_tree@),
{
    let n = graph.num_nodes();
    let ghost tree = elimination_tree@;
    let mut v: usize = 0;
    while v < n
        invariant
            v <= n,
            graph.wf(),
            n == graph.spec_num_nodes(),
            tree == elimination_tree@,
            tree.len() == n,
            spec_tree_ok(tree),
            forall|w: int, i: int|
                0 <= w < v && 0 <= i < graph.spec_links(w).len() ==> spec_is_ancestor(
                    tree,
                    w,
                    (#[trigger] graph.spec_links(w)[i]).node as int,
                ),
        decreases n - v,
    {
        proof {
            graph.lemma_wf();
        }
        let links = graph.neighbor_iter(v as NodeId);
        let mut i: usize = 0;
        while i < links.len()
            invariant
                i <= links@.len(),
                v < n,
                n == graph.spec_num_nodes(),
                tree == elimination_tree@,
                tree.len() == n,
                spec_tree_ok(tree),
                links@ == graph.spec_links(v as int),
                forall|w: int, j: int|
                    0 <= w < v && 0 <= j < graph.spec_links(w).len() ==> spec_is_ancestor(
                        tree,
                        w,
                        (#[trigger] graph.spec_links(w)[j]).node as int,
                    ),
                forall|j: int|
                    0 <= j < i ==> spec_is_ancestor(tree, v as int, (#[trigger] links@[j]).node as int),
            decreases links@.len() - i,
        {
            let target = links[i].node;
            let mut cur: usize = v;
            let mut found = false;
            while !found
                invariant
                    cur < n,
                    v <= cur,
                    v < n,
                    n == graph.spec_num_nodes(),
                    i < links@.len(),
                    links@ == graph.spec_links(v as int),
                    target == links@[i as int].node,
                    tree == elimination_tree@,
                    tree.len() == n,
                    spec_tree_ok(tree),
                    found ==> spec_is_ancestor(tree, v as int, target as int),
                    !found ==> (spec_is_ancestor(tree, v as int, target as int) <==> spec_is_ancestor(
                        tree,
                        cur as int,
                        target as int,
                    )),
                decreases n - cur, if found { 0int } else { 1int },
            {
                match elimination_tree[cur] {
                    None => {
                        proof {
                            assert(!spec_is_ancestor(tree, cur as int, target as int));
                            assert(!spec_is_ancestor(
                                tree,
                                v as int,
                                graph.spec_links(v as int)[i as int].node as int,
                            ));
                        }
                        return false;
                    },
                    Some(p) => {
                        if p == target {
                            assert(tree[cur as int] == Some(p));
                            found = true;
                        } else if p > target {
                            proof {
                                if spec_is_ancestor(tree, p as int, target as int) {
                                    lemma_ancestor_above(tree, p as int, target as int);
                                }
                                assert(tree[cur as int] == Some(p));
                                assert(!spec_is_ancestor(tree, cur as int, target as int));
                                assert(!spec_is_ancestor(
                                    tree,
                                    v as int,
                                    graph.spec_links(v as int)[i as int].node as int,
                                ));
                            }
                            return false;
                        } else {
                            assert(tree[cur as int] == Some(p));
                            cur = p as usize;
                        }
                    },
                }
            }
            i += 1;
        }
        v += 1;
    }
    true
}

/// Bounds from a hierarchy: the distances from the target up the
/// elimination tree are found once, the bound of a node when it is asked for.
#[derive(Debug)]
pub struct CCHPotential<'a> {
    order: &'a NodeOrder,
    stack: Vec<NodeId>,
    potentials: TimestampedVector<Option<Weight>>,
    forward_cch_graph: FirstOutGraph,
    backward_elimination_tree: SteppedEliminationTree<'a>,
    num_pot_evals: usize,
    target: Option<NodeId>,
}

impl<'a> CCHPotential<'a> {
    /// The contraction order.
    pub closed spec fn spec_order(&self) -> NodeOrder {
        *self.order
    }

    /// The upward arcs of the hierarchy with their weights.
    pub closed spec fn spec_forward(&self) -> FirstOutGraph {
        self.forward_cch_graph
    }

    /// The search from the target up the tree on the downward arcs.
    pub closed spec fn spec_backward(&self) -> SteppedEliminationTree<'a> {
        self.backward_elimination_tree
    }

    /// The distances from the target up to every node.
    pub open spec fn spec_down(&self) -> Seq<Weight> {
        self.spec_backward().spec_state().dist
    }

    /// How many bounds were asked for since the target was set.
    pub closed spec fn spec_num_pot_evals(&self) -> usize {
        self.num_pot_evals
    }

    /// The target that is set.
    pub closed spec fn spec_set_target(&self) -> Option<NodeId> {
        self.target
    }

    /// Whether every bound that is kept is the bound of its node, and the
    /// parent of a node whose bound is kept has its bound kept.
    spec fn cache_ok(&self) -> bool {
        &&& forall|v: int|
            0 <= v < self.potentials@.len() ==> ((#[trigger] self.potentials@[v]) matches Some(p) ==> p
                == spec_potential(
                self.forward_cch_graph,
                self.backward_elimination_tree.spec_state().dist,
                v,
            ))
        &&& forall|v: int|
            0 <= v < self.potentials@.len() && (#[trigger] self.potentials@[v]).is_some() ==> (
            self.backward_elimination_tree.spec_tree()[v] matches Some(p) ==> self.potentials@[p as int].is_some())
    }

    /// Representation invariant.
    pub closed spec fn inv(&self) -> bool {
        &&& self.order.wf()
        &&& self.forward_cch_graph.wf()
        &&& self.backward_elimination_tree.wf()
        &&& self.order.spec_order().len() == self.forward_cch_graph.spec_num_nodes()
        &&& self.backward_elimination_tree.spec_graph().spec_num_nodes()
            == self.forward_cch_graph.spec_num_nodes()
        &&& spec_arcs_lead_up(self.forward_cch_graph, self.backward_elimination_tree.spec_tree())
        &&& self.potentials.wf()
        &&& self.potentials.spec_default().is_none()
        &&& self.potentials@.len() == self.forward_cch_graph.spec_num_nodes()
        &&& self.stack@.len() == 0
        &&& self.cache_ok()
    }

    /// Bounds for the hierarchy with contraction order `order`, parents
    /// `elimination_tree`, upward arcs `forward_up_graph` and downward arcs,
    /// turned round, `backward_up_graph`, both weighted with lower bounds.
    pub fn new(
        order: &'a NodeOrder,
        elimination_tree: &'a [Option<NodeId>],
        forward_up_graph: FirstOutGraph,
        backward_up_graph: FirstOutGraph,
    ) -> (r: Self)
        requires
            order.wf(),
            forward_up_graph.wf(),
            backward_up_graph.wf(),
            order.spec_order().len() == forward_up_graph.spec_num_nodes(),
            backward_up_graph.spec_num_nodes() == forward_up_graph.spec_num_nodes(),
            elimination_tree@.len() == forward_up_graph.spec_num_nodes(),
            spec_tree_ok(elimination_tree@),
            spec_arcs_lead_up(forward_up_graph, elimination_tree@),
        ensures
            r.inv(),
            r.spec_order() == *order,
            r.spec_forward() == forward_up_graph,
            r.spec_backward().spec_graph() == backward_up_graph,
            r.spec_backward().spec_tree() == elimination_tree@,
    {
        let n = forward_up_graph.num_nodes();
        let backward_elimination_tree = SteppedEliminationTree::new(backward_up_graph, elimination_tree);
        proof {
            backward_elimination_tree.lemma_wf();
        }
        CCHPotential {
            order,
            stack: Vec::new(),
            forward_cch_graph: forward_up_graph,
            backward_elimination_tree,
            potentials: TimestampedVector::new(n, None),
            num_pot_evals: 0,
            target: None,
        }
    }

    /// The least way up from `node`, whose arcs all lead to nodes with a kept bound.
    fn min_by_up(&self, node: NodeId) -> (r: Weight)
        requires
            self.order.wf(),
            self.forward_cch_graph.wf(),
            self.potentials.wf(),
            self.potentials@.len() == self.forward_cch_graph.spec_num_nodes(),
            node < self.forward_cch_graph.spec_num_nodes(),
            self.cache_ok(),
            forall|i: int|
                0 <= i < self.forward_cch_graph.spec_links(node as int).len() ==> node < (
                #[trigger] self.forward_cch_graph.spec_links(node as int)[i]).node
                    < self.forward_cch_graph.spec_num_nodes() && self.potentials@[self.forward_cch_graph.spec_links(
                    node as int,
                )[i].node as int].is_some(),
        ensures
            r as int == spec_up_min(
                self.forward_cch_graph,
                self.backward_elimination_tree.spec_state().dist,
                node as int,
                self.forward_cch_graph.spec_links(node as int).len() as int,
            ),
    {
        let ghost g = self.forward_cch_graph;
        let ghost down = self.backward_elimination_tree.spec_state().dist;
        let links = self.forward_cch_graph.neighbor_iter(node);
        let mut least: Weight = INFINITY;
        let mut i: usize = 0;
        while i < links.len()
            invariant
                i <= links@.len(),
                g == self.forward_cch_graph,
                down == self.backward_elimination_tree.spec_state().dist,
                links@ == g.spec_links(node as int),
                self.potentials.wf(),
                self.potentials@.len() == g.spec_num_nodes(),
                node < g.spec_num_nodes(),
                self.cache_ok(),
                forall|j: int|
                    0 <= j < links@.len() ==> node < (#[trigger] links@[j]).node < g.spec_num_nodes()
                        && self.potentials@[links@[j].node as int].is_some(),
                least as int == spec_up_min(g, down, node as int, i as int),
            decreases links@.len() - i,
        {
            let link = links[i];
            proof {
                assert(node < links@[i as int].node < g.spec_num_nodes());
                lemma_up_min_range(g, down, node as int, i as int);
            }
            let bound = match *self.potentials.get(link.node as usize) {
                Some(bound) => bound,
                None => INFINITY,
            };
            let via = sat_add(link.weight, bound);
            if via < least {
                least = via;
            }
            i += 1;
        }
        least
    }
}

impl<'a> Potential for CCHPotential<'a> {
    open spec fn wf(&self) -> bool {
        self.inv()
    }

    open spec fn spec_num_nodes(&self) -> int {
        self.spec_forward().spec_num_nodes()
    }

    open spec fn spec_evals(&self) -> usize {
        self.spec_num_pot_evals()
    }

    open spec fn spec_target(&self) -> Option<NodeId> {
        self.spec_set_target()
    }

    open spec fn spec_value(&self, node: int) -> Option<Weight> {
        let bound = spec_potential(
            self.spec_forward(),
            self.spec_down(),
            self.spec_order().spec_ranks()[node] as int,
        );
        if bound < INFINITY {
            Some(bound as Weight)
        } else {
            None
        }
    }

    /// Sets the target: forgets every bound, and finds the distances from
    /// the target up the elimination tree.
    fn init(&mut self, target: NodeId)
        ensures
            final(self).spec_order() == old(self).spec_order(),
            final(self).spec_forward() == old(self).spec_forward(),
            final(self).spec_backward().spec_graph() == old(self).spec_backward().spec_graph(),
            final(self).spec_backward().spec_tree() == old(self).spec_backward().spec_tree(),
            final(self).spec_backward().spec_origin_node() == Some(
                old(self).spec_order().spec_ranks()[target as int],
            ),
            final(self).spec_backward().spec_state() == spec_run(
                old(self).spec_backward().spec_graph(),
                old(self).spec_backward().spec_tree(),
                TreeState {
                    dist: spec_start_distances(
                        old(self).spec_num_nodes(),
                        old(self).spec_order().spec_ranks()[target as int] as int,
                    ),
                    pred: old(self).spec_backward().spec_state().pred,
                },
                Some(old(self).spec_order().spec_ranks()[target as int]),
            ),
    {
        self.potentials.reset();
        self.target = Some(target);
        let rank = self.order.rank(target);
        proof {
            self.backward_elimination_tree.lemma_wf();
        }
        self.backward_elimination_tree.initialize_query(rank);
        proof {
            self.backward_elimination_tree.lemma_wf();
            assert(self.backward_elimination_tree.spec_state().dist =~= spec_start_distances(
                old(self).spec_num_nodes(),
                rank as int,
            ));
        }
        self.backward_elimination_tree.run();
        self.num_pot_evals = 0;
        proof {
            self.backward_elimination_tree.lemma_wf();
        }
    }

    /// The bound of `node`: the bounds of the nodes from it up the tree
    /// are found from the top down, as far as they are not kept yet.
    fn potential(&mut self, node: NodeId) -> (r: Option<Weight>)
        ensures
            final(self).spec_order() == old(self).spec_order(),
            final(self).spec_forward() == old(self).spec_forward(),
            final(self).spec_backward() == old(self).spec_backward(),
    {
        let node = self.order.rank(node);
        if self.num_pot_evals < usize::MAX {
            self.num_pot_evals += 1;
        }
        let ghost evals = self.num_pot_evals;
        let ghost g = self.forward_cch_graph;
        let ghost tree = self.backward_elimination_tree.spec_tree();
        let ghost down = self.backward_elimination_tree.spec_state().dist;
        let n = self.forward_cch_graph.num_nodes();
        proof {
            self.backward_elimination_tree.lemma_wf();
        }
        let mut cur = node;
        loop
            invariant_except_break
                self.stack@.len() > 0 ==> tree[self.stack@[self.stack@.len() - 1] as int] == Some(cur),
                self.stack@.len() == 0 ==> cur == node,
            invariant
                self.order == old(self).order,
                self.num_pot_evals == evals,
                self.target == old(self).target,
                self.forward_cch_graph == g,
                self.backward_elimination_tree == old(self).backward_elimination_tree,
                self.backward_elimination_tree.wf(),
                tree == self.backward_elimination_tree.spec_tree(),
                tree.len() == n,
                spec_tree_ok(tree),
                n == g.spec_num_nodes(),
                self.backward_elimination_tree.spec_graph().spec_num_nodes() == n,
                self.potentials == old(self).potentials,
                self.potentials.wf(),
                self.potentials@.len() == n,
                cur < n,
                forall|i: int| 0 <= i < self.stack@.len() ==> (#[trigger] self.stack@[i]) < n
                    && self.potentials@[self.stack@[i] as int].is_none(),
                forall|i: int|
                    0 <= i < self.stack@.len() - 1 ==> tree[(#[trigger] self.stack@[i]) as int] == Some(
                        self.stack@[i + 1],
                    ),
                self.stack@.len() > 0 ==> self.stack@[0] == node,
            ensures
                self.order == old(self).order,
                self.num_pot_evals == evals,
                self.target == old(self).target,
                self.forward_cch_graph == g,
                self.backward_elimination_tree == old(self).backward_elimination_tree,
                self.potentials == old(self).potentials,
                forall|i: int| 0 <= i < self.stack@.len() ==> (#[trigger] self.stack@[i]) < n
                    && self.potentials@[self.stack@[i] as int].is_none(),
                forall|i: int|
                    0 <= i < self.stack@.len() - 1 ==> tree[(#[trigger] self.stack@[i]) as int] == Some(
                        self.stack@[i + 1],
                    ),
                self.stack@.len() > 0 ==> self.stack@[0] == node && (match tree[self.stack@[self.stack@.len()
                    - 1] as int] {
                    Some(p) => self.potentials@[p as int].is_some(),
                    None => true,
                }),
                self.stack@.len() == 0 ==> self.potentials@[node as int].is_some(),
            decreases n - cur,
        {
            if self.potentials.get(cur as usize).is_some() {
                break ;
            }
            self.stack.push(cur);
            match self.backward_elimination_tree.parent(cur) {
                Some(parent) => {
                    cur = parent;
                },
                None => {
                    break ;
                },
            }
        }
        while self.stack.len() > 0
            invariant
                self.order == old(self).order,
                self.num_pot_evals == evals,
                self.target == old(self).target,
                self.order.wf(),
                self.forward_cch_graph == g,
                g.wf(),
                self.backward_elimination_tree == old(self).backward_elimination_tree,
                self.backward_elimination_tree.wf(),
                tree == self.backward_elimination_tree.spec_tree(),
                down == self.backward_elimination_tree.spec_state().dist,
                tree.len() == n,
                spec_tree_ok(tree),
                spec_arcs_lead_up(g, tree),
                n == g.spec_num_nodes(),
                self.backward_elimination_tree.spec_graph().spec_num_nodes() == n,
                self.potentials.wf(),
                self.potentials.spec_default().is_none(),
                self.potentials@.len() == n,
                node < n,
                self.cache_ok(),
                forall|i: int| 0 <= i < self.stack@.len() ==> (#[trigger] self.stack@[i]) < n
                    && self.potentials@[self.stack@[i] as int].is_none(),
                forall|i: int|
                    0 <= i < self.stack@.len() - 1 ==> tree[(#[trigger] self.stack@[i]) as int] == Some(
                        self.stack@[i + 1],
                    ),
                self.stack@.len() > 0 ==> self.stack@[0] == node && (match tree[self.stack@[self.stack@.len()
                    - 1] as int] {
                    Some(p) => self.potentials@[p as int].is_some(),
                    None => true,
                }),
                self.stack@.len() == 0 ==> self.potentials@[node as int].is_some(),
            decreases self.stack@.len(),
        {
            let ghost stack_before = self.stack@;
            let v = match self.stack.pop() {
                Some(v) => v,
                None => 0,
            };
            proof {
                assert(v == stack_before[stack_before.len() - 1]);
                assert forall|i: int| 0 <= i < g.spec_links(v as int).len() implies v < (
                #[trigger] g.spec_links(v as int)[i]).node < n && self.potentials@[g.spec_links(
                    v as int,
                )[i].node as int].is_some() by {
                    let h = g.spec_links(v as int)[i].node as int;
                    assert(spec_is_ancestor(tree, v as int, h));
                    lemma_ancestor_above(tree, v as int, h);
                    let p = tree[v as int].unwrap() as int;
                    assert(v < p < tree.len());
                    assert(self.potentials@[p].is_some());
                    self.lemma_above_kept(tree, p, h);
                }
            }
            let least = self.min_by_up(v);
            let from_target = self.backward_elimination_tree.tentative_distance(v);
            let bound = if from_target <= least { from_target } else { least };
            let ghost before = self.potentials@;
            self.potentials.set(v as usize, Some(bound));
            proof {
                assert forall|i: int| 0 <= i < self.stack@.len() implies (#[trigger] self.stack@[i]) < n
                    && self.potentials@[self.stack@[i] as int].is_none() by {
                    assert(self.stack@[i] == stack_before[i]);
                    assert(tree[stack_before[i] as int] == Some(stack_before[i + 1]));
                }
                assert forall|i: int| 0 <= i < self.stack@.len() - 1 implies tree[(
                #[trigger] self.stack@[i]) as int] == Some(self.stack@[i + 1]) by {
                    assert(self.stack@[i] == stack_before[i]);
                    assert(tree[stack_before[i] as int] == Some(stack_before[i + 1]));
                }
                if self.stack@.len() > 0 {
                    let last = self.stack@.len() - 1;
                    assert(self.stack@[last] == stack_before[last]);
                    assert(tree[stack_before[last] as int] == Some(stack_before[last + 1]));
                    assert(self.stack@[0] == stack_before[0]);
                }
                assert(self.cache_ok()) by {
                    assert forall|w: int|
                        0 <= w < self.potentials@.len() && (#[trigger] self.potentials@[w]).is_some() implies (
                    tree[w] matches Some(p) ==> self.potentials@[p as int].is_some()) by {
                        if w != v {
                            assert(before[w].is_some());
                        }
                    }
                }
            }
        }
        let dist = match *self.potentials.get(node as usize) {
            Some(dist) => dist,
            None => INFINITY,
        };
        proof {
            lemma_up_min_range(g, down, node as int, g.spec_links(node as int).len() as int);
        }
        if dist < INFINITY {
            Some(dist)
        } else {
            None
        }
    }

    fn num_pot_evals(&self) -> (r: usize) {
        self.num_pot_evals
    }
}

impl<'a> CCHPotential<'a> {
    /// Where the bound of a node is kept, so are the bounds of all nodes above it.
    proof fn lemma_above_kept(&self, tree: Seq<Option<NodeId>>, c: int, a: int)
        requires
            tree == self.backward_elimination_tree.spec_tree(),
            tree.len() == self.potentials@.len(),
            self.cache_ok(),
            0 <= c < tree.len(),
            self.potentials@[c].is_some(),
            c == a || spec_is_ancestor(tree, c, a),
        ensures
            0 <= a < tree.len(),
            self.potentials@[a].is_some(),
        decreases tree.len() - c,
    {
        if c != a {
            let p = tree[c].unwrap() as int;
            self.lemma_above_kept(tree, p, a);
        }
    }
}

/// Whether every arc of the graph leads to a higher node.
pub open spec fn spec_arcs_rise(g: FirstOutGraph) -> bool {
    forall|v: int, i: int|
        0 <= v < g.spec_num_nodes() && 0 <= i < g.spec_links(v).len() ==> v < (#[trigger] g.spec_links(
            v,
        )[i]).node
}

/// Bounds from a hierarchy without a tree: the distances from the target
/// up the hierarchy are found by a search, the bound of a node when it
/// is asked for, from the bounds of its higher neighbours.
pub struct CHPotential {
    order: NodeOrder,
    potentials: TimestampedVector<Option<Weight>>,
    forward: FirstOutGraph,
    backward_dijkstra: SteppedDijkstra,
    num_pot_evals: usize,
    target: Option<NodeId>,
}

impl CHPotential {
    /// The contraction order.
    pub closed spec fn spec_order(&self) -> NodeOrder {
        self.order
    }

    /// The upward arcs of the hierarchy with their weights.
    pub closed spec fn spec_forward(&self) -> FirstOutGraph {
        self.forward
    }

    /// The search from the target on the downward arcs, turned round.
    pub closed spec fn spec_backward(&self) -> SteppedDijkstra {
        self.backward_dijkstra
    }

    /// The distances from the target up to every node.
    pub open spec fn spec_down(&self) -> Seq<Weight> {
        self.spec_backward().spec_state().dist
    }

    /// How many bounds were asked for since the target was set.
    pub closed spec fn spec_num_pot_evals(&self) -> usize {
        self.num_pot_evals
    }

    /// The target that is set.
    pub closed spec fn spec_set_target(&self) -> Option<NodeId> {
        self.target
    }

    /// Whether every bound that is kept is the bound of its node.
    spec fn cache_ok(&self) -> bool {
        forall|v: int|
            0 <= v < self.potentials@.len() ==> ((#[trigger] self.potentials@[v]) matches Some(p) ==> p
                == spec_potential(self.forward, self.backward_dijkstra.spec_state().dist, v))
    }

    /// Representation invariant.
    pub closed spec fn inv(&self) -> bool {
        &&& self.order.wf()
        &&& self.forward.wf()
        &&& self.backward_dijkstra.wf()
        &&& self.order.spec_order().len() == self.forward.spec_num_nodes()
        &&& self.backward_dijkstra.spec_graph().spec_num_nodes() == self.forward.spec_num_nodes()
        &&& self.backward_dijkstra.spec_state().dist.len() == self.forward.spec_num_nodes()
        &&& spec_arcs_rise(self.forward)
        &&& self.potentials.wf()
        &&& self.potentials.spec_default().is_none()
        &&& self.potentials@.len() == self.forward.spec_num_nodes()
        &&& self.cache_ok()
    }

    /// Bounds for the hierarchy with the upward arcs `forward`, the
    /// downward arcs, turned round, `backward`, and the order `order`.
    pub fn new(forward: FirstOutGraph, backward: FirstOutGraph, order: NodeOrder) -> (r: Self)
        requires
            forward.wf(),
            backward.wf(),
            order.wf(),
            order.spec_order().len() == forward.spec_num_nodes(),
            backward.spec_num_nodes() == forward.spec_num_nodes(),
            spec_arcs_rise(forward),
        ensures
            r.inv(),
            r.spec_order() == order,
            r.spec_forward() == forward,
            r.spec_backward().spec_graph() == backward,
    {
        let n = forward.num_nodes();
        let backward_dijkstra = SteppedDijkstra::new(backward);
        proof {
            backward_dijkstra.lemma_sizes();
        }
        CHPotential {
            order,
            potentials: TimestampedVector::new(n, None),
            forward,
            backward_dijkstra,
            num_pot_evals: 0,
            target: None,
        }
    }

    /// The bound of `node`, by rank; it is kept for the next time.
    fn potential_internal(&mut self, node: NodeId) -> (r: Weight)
        requires
            old(self).inv(),
            node < old(self).forward.spec_num_nodes(),
        ensures
            final(self).inv(),
            final(self).order == old(self).order,
            final(self).forward == old(self).forward,
            final(self).backward_dijkstra == old(self).backward_dijkstra,
            final(self).num_pot_evals == old(self).num_pot_evals,
            final(self).target == old(self).target,
            r as int == spec_potential(
                old(self).forward,
                old(self).backward_dijkstra.spec_state().dist,
                node as int,
            ),
            r <= INFINITY,
        decreases old(self).forward.spec_num_nodes() - node,
    {
        let ghost g = self.forward;
        let ghost down = self.backward_dijkstra.spec_state().dist;
        proof {
            lemma_up_min_range(g, down, node as int, g.spec_links(node as int).len() as int);
        }
        if let Some(bound) = *self.potentials.get(node as usize) {
            return bound;
        }
        let links = self.forward.neighbor_iter(node);
        let mut least: Weight = INFINITY;
        let mut i: usize = 0;
        while i < links.len()
            invariant
                i <= links@.len(),
                self.inv(),
                self.order == old(self).order,
                self.forward == g,
                g == old(self).forward,
                self.backward_dijkstra == old(self).backward_dijkstra,
                self.num_pot_evals == old(self).num_pot_evals,
                self.target == old(self).target,
                down == self.backward_dijkstra.spec_state().dist,
                node < g.spec_num_nodes(),
                links@ == g.spec_links(node as int),
                least as int == spec_up_min(g, down, node as int, i as int),
            decreases links@.len() - i,
        {
            let link = links[i];
            proof {
                assert(node < g.spec_links(node as int)[i as int].node);
                g.lemma_wf();
                assert(g.spec_first_out()[node as int] <= g.spec_first_out()[node as int + 1]);
                lemma_offsets_monotone(
                    g.spec_first_out(),
                    g.spec_head().len() as int,
                    node as int + 1,
                    g.spec_first_out().len() - 1,
                );
                assert(link.node == g.spec_head()[g.spec_first_out()[node as int] + i]);
                lemma_up_min_range(g, down, node as int, i as int);
            }
            let above = self.potential_internal(link.node);
            let via = sat_add(link.weight, above);
            if via < least {
                least = via;
            }
            i += 1;
        }
        let from_target = self.backward_dijkstra.tentative_distance(node);
        let bound = if from_target <= least { from_target } else { least };
        self.potentials.set(node as usize, Some(bound));
        bound
    }
}

impl Potential for CHPotential {
    open spec fn wf(&self) -> bool {
        self.inv()
    }

    open spec fn spec_num_nodes(&self) -> int {
        self.spec_forward().spec_num_nodes()
    }

    open spec fn spec_evals(&self) -> usize {
        self.spec_num_pot_evals()
    }

    open spec fn spec_target(&self) -> Option<NodeId> {
        self.spec_set_target()
    }

    open spec fn spec_value(&self, node: int) -> Option<Weight> {
        let bound = spec_potential(
            self.spec_forward(),
            self.spec_down(),
            self.spec_order().spec_ranks()[node] as int,
        );
        if bound < INFINITY {
            Some(bound as Weight)
        } else {
            None
        }
    }

    /// Sets the target: forgets every bound, and finds the distance from
    /// the target to every node that is reached from it up the hierarchy.
    fn init(&mut self, target: NodeId)
        ensures
            final(self).spec_order() == old(self).spec_order(),
            final(self).spec_forward() == old(self).spec_forward(),
            final(self).spec_backward().spec_graph() == old(self).spec_backward().spec_graph(),
            spec_all_shortest(
                final(self).spec_backward().spec_graph(),
                old(self).spec_order().spec_ranks()[target as int] as int,
                final(self).spec_down(),
            ),
    {
        self.num_pot_evals = 0;
        self.target = Some(target);
        self.potentials.reset();
        let from = self.order.rank(target);
        self.backward_dijkstra.initialize_query(Query { from, to: u32::MAX });
        let result = self.backward_dijkstra.run();
        proof {
            self.backward_dijkstra.lemma_sizes();
            self.backward_dijkstra.spec_graph().lemma_wf();
            self.backward_dijkstra.lemma_no_target();
        }
    }

    /// The bound of `node`: the lesser of the distance from the target up
    /// to it and the least way up from it.
    fn potential(&mut self, node: NodeId) -> (r: Option<Weight>)
        ensures
            final(self).spec_order() == old(self).spec_order(),
            final(self).spec_forward() == old(self).spec_forward(),
            final(self).spec_backward() == old(self).spec_backward(),
    {
        let node = self.order.rank(node);
        if self.num_pot_evals < usize::MAX {
            self.num_pot_evals += 1;
        }
        let dist = self.potential_internal(node);
        if dist < INFINITY {
            Some(dist)
        } else {
            None
        }
    }

    fn num_pot_evals(&self) -> (r: usize) {
        self.num_pot_evals
    }
}

/// Bounds for a graph in which every arc of another graph is a node: the
/// bound of an arc is the bound of its tail.
#[derive(Debug)]
pub struct TurnExpandedPotential<P> {
    potential: P,
    tail: Vec<NodeId>,
    target: Option<NodeId>,
}

impl<P: Potential> TurnExpandedPotential<P> {
    /// The bounds that are passed on.
    pub closed spec fn spec_inner(&self) -> P {
        self.potential
    }

    /// The arc that is set as the target.
    pub closed spec fn spec_set_target(&self) -> Option<NodeId> {
        self.target
    }

    /// The tail of every arc.
    pub closed spec fn spec_tails(&self) -> Seq<NodeId> {
        self.tail@
    }

    /// Bounds for the arcs of `graph` from bounds for its nodes.
    pub fn new(graph: &FirstOutGraph, potential: P) -> (r: Self)
        requires
            graph.wf(),
            potential.wf(),
            potential.spec_num_nodes() == graph.spec_num_nodes(),
        ensures
            r.wf(),
            r.spec_inner() == potential,
            r.spec_tails().len() == graph.spec_head().len(),
            forall|e: int|
                0 <= e < r.spec_tails().len() ==> graph.spec_first_out()[(#[trigger] r.spec_tails()[e]) as int]
                    <= e < graph.spec_first_out()[r.spec_tails()[e] + 1],
    {
        let n = graph.num_nodes();
        proof {
            graph.lemma_wf();
        }
        let mut tail: Vec<NodeId> = Vec::new();
        let mut node: usize = 0;
        while node < n
            invariant
                node <= n,
                graph.wf(),
                n == graph.spec_num_nodes(),
                n <= u32::MAX,
                tail@.len() == graph.spec_first_out()[node as int],
                forall|e: int|
                    0 <= e < tail@.len() ==> (#[trigger] tail@[e]) < node && graph.spec_first_out()[tail@[e] as int]
                        <= e < graph.spec_first_out()[tail@[e] + 1],
            decreases n - node,
        {
            let degree = graph.degree(node as NodeId);
            proof {
                graph.lemma_wf();
                assert(graph.spec_first_out()[node as int] <= graph.spec_first_out()[node as int + 1]);
            }
            let mut i: usize = 0;
            while i < degree
                invariant
                    i <= degree,
                    node < n,
                    n == graph.spec_num_nodes(),
                    n <= u32::MAX,
                    degree == graph.spec_first_out()[node as int + 1] - graph.spec_first_out()[node as int],
                    tail@.len() == graph.spec_first_out()[node as int] + i,
                    forall|e: int|
                        0 <= e < tail@.len() ==> (#[trigger] tail@[e]) <= node
                            && graph.spec_first_out()[tail@[e] as int] <= e
                            < graph.spec_first_out()[tail@[e] + 1],
                decreases degree - i,
            {
                tail.push(node as NodeId);
                i += 1;
            }
            node += 1;
        }
        proof {
            assert(graph.spec_first_out()[n as int] == graph.spec_head().len());
        }
        TurnExpandedPotential { potential, tail, target: None }
    }
}

impl<P: Potential> Potential for TurnExpandedPotential<P> {
    open spec fn wf(&self) -> bool {
        &&& self.spec_inner().wf()
        &&& forall|e: int|
            0 <= e < self.spec_tails().len() ==> (#[trigger] self.spec_tails()[e])
                < self.spec_inner().spec_num_nodes()
    }

    open spec fn spec_num_nodes(&self) -> int {
        self.spec_tails().len() as int
    }

    open spec fn spec_value(&self, node: int) -> Option<Weight> {
        self.spec_inner().spec_value(self.spec_tails()[node] as int)
    }

    open spec fn spec_evals(&self) -> usize {
        self.spec_inner().spec_evals()
    }

    open spec fn spec_target(&self) -> Option<NodeId> {
        self.spec_set_target()
    }

    /// Sets the arc `target` as the target: the target of the bounds that
    /// are passed on is the tail of that arc.
    fn init(&mut self, target: NodeId)
        ensures
            final(self).spec_tails() == old(self).spec_tails(),
            final(self).spec_inner().spec_target() == Some(old(self).spec_tails()[target as int]),
    {
        self.target = Some(target);
        self.potential.init(self.tail[target as usize])
    }

    /// The bound of arc `node`: that of its tail.
    fn potential(&mut self, node: NodeId) -> (r: Option<Weight>)
        ensures
            final(self).spec_tails() == old(self).spec_tails(),
            final(self).spec_inner().spec_target() == old(self).spec_inner().spec_target(),
    {
        self.potential.potential(self.tail[node as usize])
    }

    fn num_pot_evals(&self) -> (r: usize) {
        self.potential.num_pot_evals()
    }
}

} // verus!
