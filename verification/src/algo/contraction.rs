//! The topology of a hierarchy: nodes are contracted in a given order, and
//! every two higher ranked neighbours of a contracted node become neighbours.
use vstd::prelude::*;
use crate::algo::ch_potentials::{spec_arcs_lead_up, spec_is_ancestor};
use crate::datastr::node_order::NodeOrder;
use crate::graph::first_out_graph::{
    from_adjancecy_lists, lemma_offsets_monotone, spec_tail, spec_total_len, spec_valid_topology,
    FirstOutGraph,
};
use crate::shortest_path::floating_td_stepped_elimination_tree::spec_tree_ok;
use crate::types::{EdgeId, Link, NodeId};

verus! {

/// The higher ranked neighbours of every node, by rank.
pub type Lists = Seq<Seq<NodeId>>;

/// Whether the list holds `x`.
pub open spec fn spec_holds(list: Seq<NodeId>, x: int) -> bool {
    exists|i: int| 0 <= i < list.len() && #[trigger] list[i] == x
}

/// Whether the list of node `v` of `n` is in order: it grows strictly and
/// holds nodes above `v` only.
pub open spec fn spec_list_ok(list: Seq<NodeId>, v: int, n: int) -> bool {
    &&& forall|i: int| 0 <= i < list.len() ==> v < (#[trigger] list[i]) < n
    &&& forall|i: int, j: int| 0 <= i < j < list.len() ==> (#[trigger] list[i]) < (#[trigger] list[j])
}

/// Whether `a` and `b` are the ranks of the two ends of an arc of the
/// graph that is contracted, `a` the lower one.
pub open spec fn spec_original(
    first_out: Seq<EdgeId>,
    head: Seq<NodeId>,
    ranks: Seq<u32>,
    a: int,
    b: int,
) -> bool {
    exists|e: int|
        0 <= e < head.len() && ({
            let u = ranks[spec_tail(first_out, e)] as int;
            let v = ranks[(#[trigger] head[e]) as int] as int;
            (u == a && v == b) || (u == b && v == a)
        })
}

/// Whether the lists are the neighbours that contraction gives: every
/// list is in order; the ends of every arc of the graph are neighbours;
/// any two higher ranked neighbours of a node are neighbours; and every
/// two neighbours are the ends of an arc of the graph or the higher
/// ranked neighbours of one node.
pub open spec fn spec_contracted(
    lists: Lists,
    first_out: Seq<EdgeId>,
    head: Seq<NodeId>,
    ranks: Seq<u32>,
) -> bool {
    let n = lists.len() as int;
    &&& forall|v: int| 0 <= v < n ==> spec_list_ok(#[trigger] lists[v], v, n)
    &&& forall|a: int, b: int|
        0 <= a < b < n && #[trigger] spec_original(first_out, head, ranks, a, b) ==> spec_holds(
            lists[a],
            b,
        )
    &&& forall|v: int, i: int, j: int|
        0 <= v < n && 0 <= i < j < lists[v].len() ==> spec_holds(
            lists[(#[trigger] lists[v][i]) as int],
            (#[trigger] lists[v][j]) as int,
        )
    &&& forall|v: int, i: int|
        0 <= v < n && 0 <= i < lists[v].len() ==> spec_justified(
            lists,
            first_out,
            head,
            ranks,
            v,
            (#[trigger] lists[v][i]) as int,
        )
}

/// Whether `v` and `h` are the ends of an arc of the graph, or the higher
/// ranked neighbours of one node.
pub open spec fn spec_justified(
    lists: Lists,
    first_out: Seq<EdgeId>,
    head: Seq<NodeId>,
    ranks: Seq<u32>,
    v: int,
    h: int,
) -> bool {
    spec_original(first_out, head, ranks, v, h) || (exists|w: int|
        0 <= w < v && #[trigger] spec_holds(lists[w], v) && spec_holds(lists[w], h))
}

/// The parent of every node: the lowest of its higher ranked neighbours.
pub open spec fn spec_parents(lists: Lists) -> Seq<Option<NodeId>> {
    Seq::new(
        lists.len(),
        |v: int|
            if lists[v].len() > 0 {
                Some(lists[v][0])
            } else {
                None
            },
    )
}

/// Whether the higher ranked neighbours of every node below `v`, but for
/// the lowest of them, are neighbours of that lowest one.
pub open spec fn spec_merged(lists: Lists, v: int) -> bool {
    forall|w: int, i: int|
        0 <= w < v && 1 <= i < lists[w].len() ==> spec_holds(
            lists[lists[w][0] as int],
            (#[trigger] lists[w][i]) as int,
        )
}

/// A neighbour of a node is its parent or a neighbour of its parent, and
/// so lies above the node in the tree of parents.
pub proof fn lemma_neighbours_are_ancestors(lists: Lists, v: int, i: int)
    requires
        forall|w: int| 0 <= w < lists.len() ==> spec_list_ok(#[trigger] lists[w], w, lists.len() as int),
        spec_merged(lists, lists.len() as int),
        0 <= v < lists.len(),
        0 <= i < lists[v].len(),
    ensures
        spec_is_ancestor(spec_parents(lists), v, lists[v][i] as int),
    decreases lists.len() - v,
{
    let tree = spec_parents(lists);
    assert(spec_list_ok(lists[v], v, lists.len() as int));
    let p = lists[v][0] as int;
    assert(tree[v] == Some(lists[v][0]));
    if i > 0 {
        assert(spec_holds(lists[p], lists[v][i] as int));
        let k = choose|k: int| 0 <= k < lists[p].len() && #[trigger] lists[p][k] == lists[v][i];
        lemma_neighbours_are_ancestors(lists, p, k);
    }
}

/// Any two higher ranked neighbours of a node are neighbours.
pub proof fn lemma_neighbours_are_neighbours(lists: Lists, v: int, i: int, j: int)
    requires
        forall|w: int| 0 <= w < lists.len() ==> spec_list_ok(#[trigger] lists[w], w, lists.len() as int),
        spec_merged(lists, lists.len() as int),
        0 <= v < lists.len(),
        0 <= i < j < lists[v].len(),
    ensures
        spec_holds(lists[lists[v][i] as int], lists[v][j] as int),
    decreases lists.len() - v,
{
    assert(spec_list_ok(lists[v], v, lists.len() as int));
    let p = lists[v][0] as int;
    if i > 0 {
        assert(spec_holds(lists[p], lists[v][i] as int));
        assert(spec_holds(lists[p], lists[v][j] as int));
        let a = choose|a: int| 0 <= a < lists[p].len() && #[trigger] lists[p][a] == lists[v][i];
        let b = choose|b: int| 0 <= b < lists[p].len() && #[trigger] lists[p][b] == lists[v][j];
        assert(spec_list_ok(lists[p], p, lists.len() as int));
        assert(lists[v][i] < lists[v][j]);
        if b <= a {
            if b < a {
                assert(lists[p][b] < lists[p][a]);
            }
        }
        lemma_neighbours_are_neighbours(lists, p, a, b);
    }
}

/// Puts `x` into a list that grows strictly, where it is not there yet.
fn insert_sorted(list: &mut Vec<NodeId>, x: NodeId)
    requires
        forall|i: int, j: int|
            0 <= i < j < old(list)@.len() ==> (#[trigger] old(list)@[i]) < (#[trigger] old(list)@[j]),
    ensures
        forall|i: int, j: int|
            0 <= i < j < final(list)@.len() ==> (#[trigger] final(list)@[i]) < (#[trigger] final(list)@[j]),
        forall|y: int| spec_holds(final(list)@, y) <==> (spec_holds(old(list)@, y) || y == x),
        final(list)@.len() >= old(list)@.len(),
        old(list)@.len() > 0 && old(list)@[0] <= x ==> final(list)@[0] == old(list)@[0],
{
    let n = list.len();
    let mut i: usize = 0;
    while i < n && list[i] < x
        invariant
            i <= n,
            n == list@.len(),
            list@ == old(list)@,
            forall|k: int| 0 <= k < i ==> (#[trigger] list@[k]) < x,
        decreases n - i,
    {
        i += 1;
    }
    if i < n && list[i] == x {
        proof {
            assert forall|y: int| spec_holds(list@, y) <==> (spec_holds(old(list)@, y) || y == x) by {
                if y == x {
                    assert(list@[i as int] == x);
                }
            }
        }
        return ;
    }
    let ghost before = list@;
    list.insert(i, x);
    proof {
        assert forall|a: int, b: int| 0 <= a < b < list@.len() implies (#[trigger] list@[a]) < (
        #[trigger] list@[b]) by {
            if a < i && b > i {
                assert(before[a] < before[b - 1]);
            } else if a > i {
                assert(before[a - 1] < before[b - 1]);
            } else if b < i {
                assert(before[a] < before[b]);
            } else if a == i {
                assert(before[b - 1] >= before[i as int]);
            }
        }
        assert forall|y: int| spec_holds(list@, y) <==> (spec_holds(before, y) || y == x) by {
            if spec_holds(list@, y) {
                let k = choose|k: int| 0 <= k < list@.len() && #[trigger] list@[k] == y;
                if k < i {
                    assert(before[k] == y);
                } else if k > i {
                    assert(before[k - 1] == y);
                }
            }
            if spec_holds(before, y) {
                let k = choose|k: int| 0 <= k < before.len() && #[trigger] before[k] == y;
                if k < i {
                    assert(list@[k] == y);
                } else {
                    assert(list@[k + 1] == y);
                }
            }
            if y == x {
                assert(list@[i as int] == x);
            }
        }
    }
}

/// The lists of a vector of lists.
pub open spec fn spec_lists(lists: Seq<Vec<NodeId>>) -> Lists {
    Seq::new(lists.len(), |v: int| lists[v]@)
}

/// Puts `x` into list `v`.
fn add_neighbour(lists: &mut Vec<Vec<NodeId>>, v: usize, x: NodeId)
    requires
        v < old(lists)@.len(),
        forall|i: int, j: int|
            0 <= i < j < old(lists)@[v as int]@.len() ==> (#[trigger] old(lists)@[v as int]@[i]) < (
            #[trigger] old(lists)@[v as int]@[j]),
    ensures
        final(lists)@.len() == old(lists)@.len(),
        forall|w: int| 0 <= w < old(lists)@.len() && w != v ==> #[trigger] final(lists)@[w] == old(lists)@[w],
        forall|i: int, j: int|
            0 <= i < j < final(lists)@[v as int]@.len() ==> (#[trigger] final(lists)@[v as int]@[i]) < (
            #[trigger] final(lists)@[v as int]@[j]),
        forall|y: int|
            spec_holds(final(lists)@[v as int]@, y) <==> (spec_holds(old(lists)@[v as int]@, y) || y == x),
        old(lists)@[v as int]@.len() > 0 && old(lists)@[v as int]@[0] <= x ==> final(lists)@[v as int]@.len()
            > 0 && final(lists)@[v as int]@[0] == old(lists)@[v as int]@[0],
        final(lists)@[v as int]@.len() >= old(lists)@[v as int]@.len(),
{
    insert_sorted(&mut lists[v], x);
}

/// Whether every list is in order.
pub open spec fn spec_lists_ok(lists: Lists) -> bool {
    forall|v: int| 0 <= v < lists.len() ==> spec_list_ok(#[trigger] lists[v], v, lists.len() as int)
}

/// Whether the ends of every arc of the graph before arc `done` are neighbours.
spec fn spec_taken_in(
    lists: Lists,
    first_out: Seq<EdgeId>,
    head: Seq<NodeId>,
    ranks: Seq<u32>,
    done: int,
) -> bool {
    forall|e: int|
        0 <= e < done ==> ({
            let u = ranks[spec_tail(first_out, e)] as int;
            let v = ranks[(#[trigger] head[e]) as int] as int;
            (u < v ==> spec_holds(lists[u], v)) && (v < u ==> spec_holds(lists[v], u))
        })
}

/// Whether the ends of every arc of the graph have a rank below `n`.
pub open spec fn spec_ranks_ok(first_out: Seq<EdgeId>, head: Seq<NodeId>, ranks: Seq<u32>, n: int) -> bool {
    forall|e: int|
        0 <= e < head.len() ==> 0 <= ranks[spec_tail(first_out, e)] < n && 0 <= ranks[(
        #[trigger] head[e]) as int] < n
}

/// Whether every two neighbours are justified.
spec fn spec_all_justified(lists: Lists, first_out: Seq<EdgeId>, head: Seq<NodeId>, ranks: Seq<u32>) -> bool {
    forall|v: int, i: int|
        0 <= v < lists.len() && 0 <= i < lists[v].len() ==> spec_justified(
            lists,
            first_out,
            head,
            ranks,
            v,
            (#[trigger] lists[v][i]) as int,
        )
}

/// Whether the contraction is in order while the neighbours of node `v`
/// before the `k`-th are being made neighbours of the lowest of them.
#[verifier::opaque]
spec fn spec_progress(
    lists: Lists,
    first_out: Seq<EdgeId>,
    head: Seq<NodeId>,
    ranks: Seq<u32>,
    v: int,
    k: int,
) -> bool {
    &&& spec_lists_ok(lists)
    &&& spec_taken_in(lists, first_out, head, ranks, head.len() as int)
    &&& spec_all_justified(lists, first_out, head, ranks)
    &&& spec_merged(lists, v)
    &&& 0 <= v < lists.len() ==> forall|i: int|
        1 <= i < k && i < lists[v].len() ==> spec_holds(
            lists[lists[v][0] as int],
            (#[trigger] lists[v][i]) as int,
        )
}

/// Whether `after` is `before` with `x` put into list `p`.
spec fn spec_added(before: Lists, after: Lists, p: int, x: int) -> bool {
    &&& after.len() == before.len()
    &&& 0 <= p < before.len()
    &&& forall|w: int| 0 <= w < before.len() && w != p ==> #[trigger] after[w] == before[w]
    &&& forall|i: int, j: int|
        0 <= i < j < after[p].len() ==> (#[trigger] after[p][i]) < (#[trigger] after[p][j])
    &&& forall|y: int| spec_holds(after[p], y) <==> (spec_holds(before[p], y) || y == x)
}

/// What a list held it holds after something was added to some list.
proof fn lemma_still_holds(before: Lists, after: Lists, p: int, x: int, w: int, y: int)
    requires
        spec_added(before, after, p, x),
        0 <= w < before.len(),
        spec_holds(before[w], y),
    ensures
        spec_holds(after[w], y),
{
    if w != p {
        assert(after[w] == before[w]);
    }
}

/// Justified neighbours stay justified when something is added to some list.
proof fn lemma_still_justified(
    before: Lists,
    after: Lists,
    first_out: Seq<EdgeId>,
    head: Seq<NodeId>,
    ranks: Seq<u32>,
    p: int,
    x: int,
    v: int,
    h: int,
)
    requires
        spec_added(before, after, p, x),
        spec_justified(before, first_out, head, ranks, v, h),
        0 <= v < before.len(),
    ensures
        spec_justified(after, first_out, head, ranks, v, h),
{
    if !spec_original(first_out, head, ranks, v, h) {
        let w = choose|w: int| 0 <= w < v && #[trigger] spec_holds(before[w], v) && spec_holds(before[w], h);
        lemma_still_holds(before, after, p, x, w, v);
        lemma_still_holds(before, after, p, x, w, h);
    }
}

/// Making one more neighbour of `v` a neighbour of the lowest neighbour of `v` keeps the contraction in order.
proof fn lemma_merge_one(
    before: Lists,
    after: Lists,
    first_out: Seq<EdgeId>,
    head: Seq<NodeId>,
    ranks: Seq<u32>,
    v: int,
    k: int,
)
    requires
        spec_progress(before, first_out, head, ranks, v, k),
        spec_ranks_ok(first_out, head, ranks, before.len() as int),
        0 <= v < before.len(),
        1 <= k < before[v].len(),
        spec_added(before, after, before[v][0] as int, before[v][k] as int),
    ensures
        spec_progress(after, first_out, head, ranks, v, k + 1),
        after[v] == before[v],
{
    reveal(spec_progress);
    let n = before.len() as int;
    let p = before[v][0] as int;
    let x = before[v][k] as int;
    assert(spec_list_ok(before[v], v, n));
    assert(before[v][0] < before[v][k]);
    assert(after[v] == before[v]);
    assert forall|w: int| 0 <= w < after.len() implies spec_list_ok(#[trigger] after[w], w, n) by {
        assert(spec_list_ok(before[w], w, n));
        if w == p {
            assert forall|i: int| 0 <= i < after[p].len() implies p < (#[trigger] after[p][i]) < n by {
                assert(spec_holds(after[p], after[p][i] as int));
                if after[p][i] != x {
                    let j = choose|j: int|
                        0 <= j < before[p].len() && #[trigger] before[p][j] == after[p][i];
                }
            }
        }
    }
    assert forall|e: int| 0 <= e < head.len() implies ({
        let a = ranks[spec_tail(first_out, e)] as int;
        let b = ranks[(#[trigger] head[e]) as int] as int;
        (a < b ==> spec_holds(after[a], b)) && (b < a ==> spec_holds(after[b], a))
    }) by {
        let a = ranks[spec_tail(first_out, e)] as int;
        let b = ranks[head[e] as int] as int;
        assert(0 <= a < n && 0 <= b < n);
        if a < b {
            assert(spec_holds(before[a], b));
            assert(spec_list_ok(before[a], a, n));
            lemma_still_holds(before, after, p, x, a, b);
        }
        if b < a {
            assert(spec_holds(before[b], a));
            assert(spec_list_ok(before[b], b, n));
            lemma_still_holds(before, after, p, x, b, a);
        }
    }
    assert forall|w: int, i: int| 0 <= w < after.len() && 0 <= i < after[w].len() implies spec_justified(
        after,
        first_out,
        head,
        ranks,
        w,
        (#[trigger] after[w][i]) as int,
    ) by {
        let h = after[w][i] as int;
        assert(spec_holds(after[w], h));
        if w == p && !spec_holds(before[p], h) {
            assert(h == x);
            assert(spec_holds(before[v], p));
            assert(spec_holds(before[v], x));
            assert(spec_holds(after[v], p));
            assert(spec_holds(after[v], x));
        } else {
            if w == p {
                let j = choose|j: int| 0 <= j < before[p].len() && #[trigger] before[p][j] == h;
                assert(spec_justified(before, first_out, head, ranks, p, before[p][j] as int));
            } else {
                assert(spec_justified(before, first_out, head, ranks, w, before[w][i] as int));
            }
            lemma_still_justified(before, after, first_out, head, ranks, p, x, w, h);
        }
    }
    assert forall|w: int, i: int| 0 <= w < v && 1 <= i < after[w].len() implies spec_holds(
        after[after[w][0] as int],
        (#[trigger] after[w][i]) as int,
    ) by {
        assert(spec_list_ok(before[v], v, n));
        assert(w != p);
        assert(spec_list_ok(before[w], w, n));
        assert(spec_holds(before[before[w][0] as int], before[w][i] as int));
        lemma_still_holds(before, after, p, x, before[w][0] as int, before[w][i] as int);
    }
    assert forall|i: int| 1 <= i < k + 1 && i < after[v].len() implies spec_holds(
        after[after[v][0] as int],
        (#[trigger] after[v][i]) as int,
    ) by {
        if i < k {
            assert(spec_holds(before[p], before[v][i] as int));
            lemma_still_holds(before, after, p, x, p, before[v][i] as int);
        }
    }
}

/// With all neighbours of `v` made neighbours of the lowest, the next node can be contracted.
proof fn lemma_next_node(lists: Lists, first_out: Seq<EdgeId>, head: Seq<NodeId>, ranks: Seq<u32>, v: int)
    requires
        0 <= v < lists.len(),
        spec_progress(lists, first_out, head, ranks, v, lists[v].len() as int),
    ensures
        spec_progress(lists, first_out, head, ranks, v + 1, 1),
{
    reveal(spec_progress);
}

/// Whether the lists hold the ends of the arcs before `done`, and nothing else.
#[verifier::opaque]
spec fn spec_filled(lists: Lists, first_out: Seq<EdgeId>, head: Seq<NodeId>, ranks: Seq<u32>, done: int) -> bool {
    &&& spec_lists_ok(lists)
    &&& spec_taken_in(lists, first_out, head, ranks, done)
    &&& forall|v: int, i: int|
        0 <= v < lists.len() && 0 <= i < lists[v].len() ==> spec_original(
            first_out,
            head,
            ranks,
            v,
            (#[trigger] lists[v][i]) as int,
        )
}

/// Taking the ends of one more arc in keeps the lists filled.
proof fn lemma_fill_one(
    before: Lists,
    after: Lists,
    first_out: Seq<EdgeId>,
    head: Seq<NodeId>,
    ranks: Seq<u32>,
    e: int,
)
    requires
        spec_filled(before, first_out, head, ranks, e),
        spec_ranks_ok(first_out, head, ranks, before.len() as int),
        0 <= e < head.len(),
        ({
            let u = ranks[spec_tail(first_out, e)] as int;
            let v = ranks[head[e] as int] as int;
            if u < v {
                spec_added(before, after, u, v)
            } else if v < u {
                spec_added(before, after, v, u)
            } else {
                after == before
            }
        }),
    ensures
        spec_filled(after, first_out, head, ranks, e + 1),
{
    reveal(spec_filled);
    let n = before.len() as int;
    let u = ranks[spec_tail(first_out, e)] as int;
    let v = ranks[head[e] as int] as int;
    if u != v {
        let (a, b) = if u < v { (u, v) } else { (v, u) };
        assert(spec_added(before, after, a, b));
        assert(spec_original(first_out, head, ranks, a, b)) by {
            assert(head[e] == head[e]);
        }
        assert forall|w: int| 0 <= w < after.len() implies spec_list_ok(#[trigger] after[w], w, n) by {
            assert(spec_list_ok(before[w], w, n));
            if w == a {
                assert forall|i: int| 0 <= i < after[a].len() implies a < (#[trigger] after[a][i]) < n by {
                    assert(spec_holds(after[a], after[a][i] as int));
                    if after[a][i] != b {
                        let j = choose|j: int|
                            0 <= j < before[a].len() && #[trigger] before[a][j] == after[a][i];
                    }
                }
            }
        }
        assert forall|f: int| 0 <= f < e + 1 implies ({
            let x = ranks[spec_tail(first_out, f)] as int;
            let y = ranks[(#[trigger] head[f]) as int] as int;
            (x < y ==> spec_holds(after[x], y)) && (y < x ==> spec_holds(after[y], x))
        }) by {
            let x = ranks[spec_tail(first_out, f)] as int;
            let y = ranks[head[f] as int] as int;
            assert(0 <= x < n && 0 <= y < n);
            if f < e {
                if x < y {
                    assert(spec_holds(before[x], y));
                    assert(spec_list_ok(before[x], x, n));
                    let k = choose|k: int| 0 <= k < before[x].len() && #[trigger] before[x][k] == y;
                    lemma_still_holds(before, after, a, b, x, y);
                }
                if y < x {
                    assert(spec_holds(before[y], x));
                    let k = choose|k: int| 0 <= k < before[y].len() && #[trigger] before[y][k] == x;
                    assert(spec_list_ok(before[y], y, n));
                    lemma_still_holds(before, after, a, b, y, x);
                }
            }
        }
        assert forall|w: int, i: int| 0 <= w < after.len() && 0 <= i < after[w].len() implies spec_original(
            first_out,
            head,
            ranks,
            w,
            (#[trigger] after[w][i]) as int,
        ) by {
            let h = after[w][i] as int;
            assert(spec_holds(after[w], h));
            if w == a && !spec_holds(before[a], h) {
            } else if w == a {
                let j = choose|j: int| 0 <= j < before[a].len() && #[trigger] before[a][j] == h;
                assert(spec_original(first_out, head, ranks, a, before[a][j] as int));
            } else {
                assert(spec_original(first_out, head, ranks, w, before[w][i] as int));
            }
        }
    } else {
        assert forall|f: int| 0 <= f < e + 1 implies ({
            let x = ranks[spec_tail(first_out, f)] as int;
            let y = ranks[(#[trigger] head[f]) as int] as int;
            (x < y ==> spec_holds(after[x], y)) && (y < x ==> spec_holds(after[y], x))
        }) by {}
    }
}

/// Lists that hold the ends of all arcs and nothing else are in order for contraction.
proof fn lemma_filled(lists: Lists, first_out: Seq<EdgeId>, head: Seq<NodeId>, ranks: Seq<u32>)
    requires
        spec_filled(lists, first_out, head, ranks, head.len() as int),
    ensures
        spec_progress(lists, first_out, head, ranks, 0, 1),
{
    reveal(spec_filled);
    reveal(spec_progress);
}

/// When all nodes are contracted, the lists are what contraction gives.
proof fn lemma_contracted(lists: Lists, first_out: Seq<EdgeId>, head: Seq<NodeId>, ranks: Seq<u32>)
    requires
        spec_progress(lists, first_out, head, ranks, lists.len() as int, 1),
        spec_ranks_ok(first_out, head, ranks, lists.len() as int),
    ensures
        spec_contracted(lists, first_out, head, ranks),
        spec_lists_ok(lists),
        spec_merged(lists, lists.len() as int),
{
    reveal(spec_progress);
    let n = lists.len() as int;
    assert forall|a: int, b: int|
        0 <= a < b < n && #[trigger] spec_original(first_out, head, ranks, a, b) implies spec_holds(
        lists[a],
        b,
    ) by {
        let e = choose|e: int|
            0 <= e < head.len() && ({
                let u = ranks[spec_tail(first_out, e)] as int;
                let v = ranks[(#[trigger] head[e]) as int] as int;
                (u == a && v == b) || (u == b && v == a)
            });
        assert(head[e] == head[e]);
    }
    assert forall|v: int, i: int, j: int| 0 <= v < n && 0 <= i < j < lists[v].len() implies spec_holds(
        lists[(#[trigger] lists[v][i]) as int],
        (#[trigger] lists[v][j]) as int,
    ) by {
        lemma_neighbours_are_neighbours(lists, v, i, j);
    }
}

/// How many neighbours the first `k` lists hold together.
pub open spec fn spec_num_arcs(lists: Lists, k: int) -> int
    decreases k,
{
    if k <= 0 {
        0
    } else {
        spec_num_arcs(lists, k - 1) + lists[k - 1].len()
    }
}

/// The topology of a hierarchy: every node with its higher ranked
/// neighbours, the parent of every node, and the order of contraction.
/// Nodes go by their ranks.
pub struct CCH {
    graph: FirstOutGraph,
    elimination_tree: Vec<Option<NodeId>>,
    node_order: NodeOrder,
}

impl CCH {
    /// The arcs from every node to its higher ranked neighbours; all weights are zero.
    pub closed spec fn spec_graph(&self) -> FirstOutGraph {
        self.graph
    }

    /// The parent of every node.
    pub closed spec fn spec_tree(&self) -> Seq<Option<NodeId>> {
        self.elimination_tree@
    }

    /// The order of contraction.
    pub closed spec fn spec_order(&self) -> NodeOrder {
        self.node_order
    }

    /// The higher ranked neighbours of every node.
    pub open spec fn spec_lists(&self) -> Lists {
        Seq::new(
            self.spec_graph().spec_num_nodes() as nat,
            |v: int|
                Seq::new(
                    self.spec_graph().spec_links(v).len(),
                    |i: int| self.spec_graph().spec_links(v)[i].node,
                ),
        )
    }

    /// Whether the topology is in order: a graph, an order and a tree on
    /// the same nodes; the neighbours of every node are listed from the
    /// lowest to the highest; the parent of a node is the lowest of its
    /// neighbours; and every neighbour of a node lies above it in the tree.
    pub open spec fn wf(&self) -> bool {
        &&& self.spec_graph().wf()
        &&& self.spec_order().wf()
        &&& self.spec_order().spec_order().len() == self.spec_graph().spec_num_nodes()
        &&& self.spec_tree() == spec_parents(self.spec_lists())
        &&& spec_lists_ok(self.spec_lists())
        &&& spec_tree_ok(self.spec_tree())
        &&& spec_arcs_lead_up(self.spec_graph(), self.spec_tree())
    }

    /// Number of nodes.
    pub fn num_nodes(&self) -> (n: usize)
        requires
            self.wf(),
        ensures
            n == self.spec_graph().spec_num_nodes(),
    {
        self.graph.num_nodes()
    }

    /// The arcs from every node to its higher ranked neighbours; all weights are zero.
    pub fn graph(&self) -> (r: &FirstOutGraph)
        ensures
            *r == self.spec_graph(),
    {
        &self.graph
    }

    /// The parent of every node.
    pub fn elimination_tree(&self) -> (r: &[Option<NodeId>])
        ensures
            r@ == self.spec_tree(),
    {
        self.elimination_tree.as_slice()
    }

    /// The order of contraction.
    pub fn node_order(&self) -> (r: &NodeOrder)
        ensures
            *r == self.spec_order(),
    {
        &self.node_order
    }
}

/// `n` empty lists.
fn empty_lists(n: usize) -> (lists: Vec<Vec<NodeId>>)
    ensures
        lists@.len() == n,
        forall|v: int| 0 <= v < n ==> (#[trigger] lists@[v])@.len() == 0,
{
    let mut lists: Vec<Vec<NodeId>> = Vec::new();
    let mut i: usize = 0;
    while i < n
        invariant
            i <= n,
            lists@.len() == i,
            forall|v: int| 0 <= v < i ==> (#[trigger] lists@[v])@.len() == 0,
        decreases n - i,
    {
        lists.push(Vec::new());
        i += 1;
    }
    lists
}

/// Puts `x` into list `v` of lists that are in order.
fn join(lists: &mut Vec<Vec<NodeId>>, v: usize, x: NodeId)
    requires
        v < old(lists)@.len(),
        spec_lists_ok(spec_lists(old(lists)@)),
    ensures
        spec_added(spec_lists(old(lists)@), spec_lists(final(lists)@), v as int, x as int),
        final(lists)@.len() == old(lists)@.len(),
        forall|w: int| 0 <= w < old(lists)@.len() && w != v ==> #[trigger] final(lists)@[w] == old(lists)@[w],
        old(lists)@[v as int]@.len() > 0 && old(lists)@[v as int]@[0] <= x ==> final(lists)@[v as int]@.len()
            > 0 && final(lists)@[v as int]@[0] == old(lists)@[v as int]@[0],
{
    proof {
        assert(spec_list_ok(spec_lists(lists@)[v as int], v as int, lists@.len() as int));
    }
    add_neighbour(lists, v, x);
    proof {
        let before = spec_lists(old(lists)@);
        let after = spec_lists(lists@);
        assert forall|w: int| 0 <= w < before.len() && w != v implies #[trigger] after[w] == before[w] by {
            assert(lists@[w] == old(lists)@[w]);
        }
    }
}

/// The neighbours of every node once the ends of every arc are neighbours.
fn fill(first_out: &[EdgeId], head: &[NodeId], node_order: &NodeOrder) -> (lists: Vec<Vec<NodeId>>)
    requires
        spec_valid_topology(first_out@, head@),
        node_order.wf(),
        node_order.spec_order().len() == first_out@.len() - 1,
    ensures
        lists@.len() == first_out@.len() - 1,
        spec_filled(spec_lists(lists@), first_out@, head@, node_order.spec_ranks(), head@.len() as int),
        spec_ranks_ok(first_out@, head@, node_order.spec_ranks(), first_out@.len() - 1),
{
    let n = first_out.len() - 1;
    let ghost ranks = node_order.spec_ranks();
    let mut lists = empty_lists(n);
    proof {
        reveal(spec_filled);
        assert forall|v: int| 0 <= v < n implies spec_list_ok(
            #[trigger] spec_lists(lists@)[v],
            v,
            n as int,
        ) by {
            assert(lists@[v]@.len() == 0);
        }
        node_order.lemma_wf();
        assert forall|e: int| 0 <= e < head@.len() implies 0 <= ranks[spec_tail(first_out@, e)] < n
            && 0 <= ranks[(#[trigger] head@[e]) as int] < n by {
            lemma_tail_exists(first_out@, head@.len() as int, e);
            assert(head@[e] < n);
        }
        assert forall|v: int, i: int|
            0 <= v < spec_lists(lists@).len() && 0 <= i < spec_lists(lists@)[v].len() implies spec_original(
            first_out@,
            head@,
            ranks,
            v,
            (#[trigger] spec_lists(lists@)[v][i]) as int,
        ) by {
            assert(lists@[v]@.len() == 0);
        }
    }
    let mut u: usize = 0;
    let mut e: usize = 0;
    while u < n
        invariant
            u <= n,
            n == first_out@.len() - 1,
            spec_valid_topology(first_out@, head@),
            node_order.wf(),
            node_order.spec_order().len() == n,
            ranks == node_order.spec_ranks(),
            lists@.len() == n,
            e == first_out@[u as int],
            spec_ranks_ok(first_out@, head@, ranks, n as int),
            spec_filled(spec_lists(lists@), first_out@, head@, ranks, e as int),
        decreases n - u,
    {
        let end = first_out[u + 1] as usize;
        proof {
            assert(first_out@[u as int] <= first_out@[u as int + 1]);
            lemma_offsets_monotone(first_out@, head@.len() as int, u as int + 1, first_out@.len() - 1);
        }
        let rank_u = node_order.rank(u as NodeId);
        while e < end
            invariant
                u < n,
                n == first_out@.len() - 1,
                first_out@[u as int] <= e <= end,
                end == first_out@[u as int + 1],
                end <= head@.len(),
                spec_valid_topology(first_out@, head@),
                node_order.wf(),
                node_order.spec_order().len() == n,
                ranks == node_order.spec_ranks(),
                rank_u == ranks[u as int],
                rank_u < n,
                lists@.len() == n,
                spec_ranks_ok(first_out@, head@, ranks, n as int),
                spec_filled(spec_lists(lists@), first_out@, head@, ranks, e as int),
            decreases end - e,
        {
            let rank_v = node_order.rank(head[e]);
            let ghost before = spec_lists(lists@);
            proof {
                reveal(spec_filled);
                crate::graph::first_out_graph::lemma_tail_unique(
                    first_out@,
                    head@.len() as int,
                    e as int,
                    u as int,
                );
            }
            if rank_u < rank_v {
                join(&mut lists, rank_u as usize, rank_v);
            } else if rank_v < rank_u {
                join(&mut lists, rank_v as usize, rank_u);
            }
            proof {
                lemma_fill_one(before, spec_lists(lists@), first_out@, head@, ranks, e as int);
            }
            e += 1;
        }
        u += 1;
    }
    lists
}

/// Every arc has a tail.
proof fn lemma_tail_exists(first_out: Seq<EdgeId>, m: int, e: int)
    requires
        crate::graph::first_out_graph::spec_offsets(first_out, m),
        0 <= e < m,
    ensures
        0 <= spec_tail(first_out, e) < first_out.len() - 1,
        first_out[spec_tail(first_out, e)] <= e < first_out[spec_tail(first_out, e) + 1],
{
    lemma_tail_search(first_out, m, e, 0);
}

/// An arc that is not before the range of node `u` is in the range of `u` or a later node.
proof fn lemma_tail_search(first_out: Seq<EdgeId>, m: int, e: int, u: int)
    requires
        crate::graph::first_out_graph::spec_offsets(first_out, m),
        0 <= e < m,
        0 <= u < first_out.len() - 1,
        first_out[u] <= e,
    ensures
        exists|w: int| 0 <= w < first_out.len() - 1 && #[trigger] first_out[w] <= e && e < first_out[w + 1],
    decreases first_out.len() - u,
{
    if e < first_out[u + 1] {
        assert(first_out[u] <= e && e < first_out[u + 1]);
    } else {
        lemma_tail_search(first_out, m, e, u + 1);
    }
}

/// Contracts the nodes of the graph with the arcs `first_out`, `head` in
/// the order `node_order`.  Whenever a node is contracted, every two of its
/// higher ranked neighbours become neighbours.  Nothing is given where the
/// hierarchy has more arcs than 32 bits count.
#[verifier::spinoff_prover]
pub fn contract(first_out: &[EdgeId], head: &[NodeId], node_order: NodeOrder) -> (r: Option<CCH>)
    requires
        spec_valid_topology(first_out@, head@),
        node_order.wf(),
        node_order.spec_order().len() == first_out@.len() - 1,
    ensures
        r matches Some(cch) ==> cch.wf() && cch.spec_order() == node_order && cch.spec_graph().spec_num_nodes()
            == first_out@.len() - 1 && spec_contracted(
            cch.spec_lists(),
            first_out@,
            head@,
            node_order.spec_ranks(),
        ),
        r.is_none() ==> exists|lists: Lists|
            lists.len() == first_out@.len() - 1 && #[trigger] spec_contracted(
                lists,
                first_out@,
                head@,
                node_order.spec_ranks(),
            ) && spec_num_arcs(lists, lists.len() as int) > u32::MAX,
{
    let n = first_out.len() - 1;
    let ghost ranks = node_order.spec_ranks();
    let mut lists = fill(first_out, head, &node_order);
    proof {
        lemma_filled(spec_lists(lists@), first_out@, head@, ranks);
    }
    let mut tree: Vec<Option<NodeId>> = Vec::new();
    let mut v: usize = 0;
    while v < n
        invariant
            v <= n,
            n == first_out@.len() - 1,
            n < u32::MAX,
            lists@.len() == n,
            tree@.len() == v,
            spec_ranks_ok(first_out@, head@, ranks, n as int),
            spec_progress(spec_lists(lists@), first_out@, head@, ranks, v as int, 1),
            forall|w: int|
                0 <= w < v ==> #[trigger] tree@[w] == (if lists@[w]@.len() > 0 {
                    Some(lists@[w]@[0])
                } else {
                    None
                }),
        decreases n - v,
    {
        let len = lists[v].len();
        if len > 0 {
            let parent = lists[v][0];
            tree.push(Some(parent));
            let ghost own = lists@[v as int];
            proof {
                reveal(spec_progress);
                assert(spec_list_ok(spec_lists(lists@)[v as int], v as int, n as int));
                assert(spec_lists(lists@)[v as int][0] == parent);
            }
            let mut k: usize = 1;
            while k < len
                invariant
                    1 <= k <= len,
                    v < n,
                    n == first_out@.len() - 1,
                    lists@.len() == n,
                    lists@[v as int] == own,
                    len == own@.len(),
                    parent == own@[0],
                    v < parent < n,
                    tree@.len() == v + 1,
                    spec_ranks_ok(first_out@, head@, ranks, n as int),
                    spec_progress(spec_lists(lists@), first_out@, head@, ranks, v as int, k as int),
                    forall|w: int|
                        0 <= w <= v ==> #[trigger] tree@[w] == (if lists@[w]@.len() > 0 {
                            Some(lists@[w]@[0])
                        } else {
                            None
                        }),
                decreases len - k,
            {
                let neighbour = lists[v][k];
                let ghost before = spec_lists(lists@);
                proof {
                    reveal(spec_progress);
                    assert(before[v as int][k as int] == neighbour);
                    assert(before[v as int][0] == parent);
                }
                join(&mut lists, parent as usize, neighbour);
                proof {
                    lemma_merge_one(before, spec_lists(lists@), first_out@, head@, ranks, v as int, k as int);
                }
                k += 1;
            }
            proof {
                assert(spec_lists(lists@)[v as int].len() == len);
            }
        } else {
            tree.push(None);
            proof {
                reveal(spec_progress);
            }
        }
        proof {
            lemma_next_node(spec_lists(lists@), first_out@, head@, ranks, v as int);
        }
        v += 1;
    }
    let ghost contracted = spec_lists(lists@);
    proof {
        lemma_contracted(contracted, first_out@, head@, ranks);
    }
    let mut adjacency: Vec<Vec<Link>> = Vec::new();
    let mut total: usize = 0;
    let mut v: usize = 0;
    while v < n
        invariant
            v <= n,
            n == lists@.len(),
            contracted == spec_lists(lists@),
            spec_lists_ok(contracted),
            ranks == node_order.spec_ranks(),
            n == first_out@.len() - 1,
            spec_contracted(contracted, first_out@, head@, ranks),
            adjacency@.len() == v,
            total == spec_total_len(adjacency@, v as int),
            total == spec_num_arcs(contracted, v as int),
            total <= u32::MAX,
            forall|w: int, i: int|
                0 <= w < v && 0 <= i < adjacency@[w]@.len() ==> (#[trigger] adjacency@[w]@[i]).node < n,
            forall|w: int|
                0 <= w < v ==> (#[trigger] adjacency@[w])@.len() == contracted[w].len() && forall|i: int|
                    0 <= i < contracted[w].len() ==> (#[trigger] adjacency@[w]@[i]).node == contracted[w][i],
        decreases n - v,
    {
        let list = &lists[v];
        let mut links: Vec<Link> = Vec::new();
        let mut i: usize = 0;
        proof {
            assert(spec_list_ok(contracted[v as int], v as int, n as int));
        }
        while i < list.len()
            invariant
                i <= list@.len(),
                v < n,
                list@ == contracted[v as int],
                spec_list_ok(contracted[v as int], v as int, n as int),
                links@.len() == i,
                forall|j: int| 0 <= j < i ==> (#[trigger] links@[j]).node == list@[j] && links@[j].node < n,
            decreases list@.len() - i,
        {
            links.push(Link { node: list[i], weight: 0 });
            i += 1;
        }
        if links.len() > u32::MAX as usize - total {
            proof {
                lemma_num_arcs_monotone(contracted, v as int + 1, n as int);
                assert(links@.len() == contracted[v as int].len());
                assert(spec_num_arcs(contracted, contracted.len() as int) > u32::MAX);
            }
            return None;
        }
        total = total + links.len();
        let ghost before = adjacency@;
        adjacency.push(links);
        proof {
            crate::graph::first_out_graph::lemma_total_len_agree(before, adjacency@, v as int);
        }
        v += 1;
    }
    let graph = from_adjancecy_lists(adjacency);
    let cch = CCH { graph, elimination_tree: tree, node_order };
    proof {
        let lists_out = cch.spec_lists();
        assert forall|w: int| 0 <= w < n implies #[trigger] lists_out[w] == contracted[w] by {
            assert(cch.graph.spec_links(w) == adjacency@[w]@);
            assert(lists_out[w] =~= contracted[w]);
        }
        assert(lists_out =~= contracted);
        assert(cch.spec_tree() =~= spec_parents(contracted)) by {
            assert forall|w: int| 0 <= w < n implies cch.spec_tree()[w] == spec_parents(contracted)[w] by {
                assert(contracted[w] == lists@[w]@);
            }
        }
        assert(spec_tree_ok(cch.spec_tree())) by {
            assert forall|w: int| 0 <= w < n implies ((#[trigger] cch.spec_tree()[w]) matches Some(p)
                ==> w < p < n) by {
                assert(spec_list_ok(contracted[w], w, n as int));
            }
        }
        assert(spec_arcs_lead_up(cch.graph, cch.spec_tree())) by {
            assert forall|w: int, i: int|
                0 <= w < cch.graph.spec_num_nodes() && 0 <= i < cch.graph.spec_links(w).len() implies spec_is_ancestor(
                cch.spec_tree(),
                w,
                (#[trigger] cch.graph.spec_links(w)[i]).node as int,
            ) by {
                assert(lists_out[w][i] == cch.graph.spec_links(w)[i].node);
                lemma_neighbours_are_ancestors(contracted, w, i);
            }
        }
    }
    Some(cch)
}

/// The number of neighbours grows with the number of lists taken.
proof fn lemma_num_arcs_monotone(lists: Lists, i: int, j: int)
    requires
        0 <= i <= j,
    ensures
        0 <= spec_num_arcs(lists, i) <= spec_num_arcs(lists, j),
    decreases j,
{
    if i < j {
        lemma_num_arcs_monotone(lists, i, j - 1);
    } else if j > 0 {
        lemma_num_arcs_monotone(lists, i - 1, j - 1);
    }
}

} // verus!
