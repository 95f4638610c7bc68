//! The separators of a hierarchy, read off the tree of parents: a row of
//! nodes with one child each is one separator, and where the tree
//! branches, the parts that the separator divides begin.
use vstd::prelude::*;
use crate::algo::contraction::CCH;
use crate::shortest_path::floating_td_stepped_elimination_tree::spec_tree_ok;
use crate::types::NodeId;

verus! {

/// A separator and the separators of the parts that it divides.
#[derive(Debug)]
pub struct SeparatorTree {
    pub nodes: Vec<NodeId>,
    pub children: Vec<SeparatorTree>,
}

/// A separator tree as a value.
pub struct Separators {
    pub nodes: Seq<NodeId>,
    pub children: Seq<Separators>,
}

impl SeparatorTree {
    /// The tree as a value.
    pub open spec fn view(&self) -> Separators
        decreases self,
    {
        Separators {
            nodes: self.nodes@,
            children: Seq::new(
                self.children@.len(),
                |i: int|
                    if 0 <= i < self.children.len() {
                        self.children[i].view()
                    } else {
                        Separators { nodes: Seq::empty(), children: Seq::empty() }
                    },
            ),
        }
    }
}

/// The children of `v` among the nodes below `k`, from the lowest to the highest.
pub open spec fn spec_children(tree: Seq<Option<NodeId>>, v: int, k: int) -> Seq<NodeId>
    decreases k,
{
    if k <= 0 {
        Seq::empty()
    } else {
        let rest = spec_children(tree, v, k - 1);
        match tree[k - 1] {
            Some(parent) => if parent == v {
                rest.push((k - 1) as NodeId)
            } else {
                rest
            },
            None => rest,
        }
    }
}

/// The nodes without a parent among the nodes below `k`, from the lowest to the highest.
pub open spec fn spec_roots(tree: Seq<Option<NodeId>>, k: int) -> Seq<NodeId>
    decreases k,
{
    if k <= 0 {
        Seq::empty()
    } else {
        let rest = spec_roots(tree, k - 1);
        match tree[k - 1] {
            Some(parent) => rest,
            None => rest.push((k - 1) as NodeId),
        }
    }
}

/// The separator that begins at `root`: the nodes from `root` down as
/// long as each has one child, and below the last of them the separators
/// that begin at its children.
pub open spec fn spec_separator(tree: Seq<Option<NodeId>>, root: int) -> Separators
    decreases root, 1int, 0int,
{
    let kids = spec_children(tree, root, tree.len() as int);
    if root < 0 {
        Separators { nodes: Seq::empty(), children: Seq::empty() }
    } else if kids.len() == 1 && kids[0] < root {
        let below = spec_separator(tree, kids[0] as int);
        Separators { nodes: seq![root as NodeId] + below.nodes, children: below.children }
    } else {
        Separators {
            nodes: seq![root as NodeId],
            children: spec_parts(tree, kids, root, kids.len() as int),
        }
    }
}

/// The separators that begin at the first `k` of the nodes `kids`, all
/// of which lie below `above`.
pub open spec fn spec_parts(tree: Seq<Option<NodeId>>, kids: Seq<NodeId>, above: int, k: int) -> Seq<
    Separators,
>
    decreases above, 0int, k,
{
    if k <= 0 || above < 0 {
        Seq::empty()
    } else {
        spec_parts(tree, kids, above, k - 1).push(
            if kids[k - 1] < above {
                spec_separator(tree, kids[k - 1] as int)
            } else {
                Separators { nodes: Seq::empty(), children: Seq::empty() }
            },
        )
    }
}

/// The separator tree of a forest of parents: an empty separator above
/// the separators that begin at the nodes without a parent.
pub open spec fn spec_separators(tree: Seq<Option<NodeId>>) -> Separators {
    let roots = spec_roots(tree, tree.len() as int);
    Separators {
        nodes: Seq::empty(),
        children: spec_parts(tree, roots, tree.len() as int, roots.len() as int),
    }
}

/// A child lies below its parent, and a node without a parent is a node.
proof fn lemma_below(tree: Seq<Option<NodeId>>, v: int, k: int, i: int)
    requires
        spec_tree_ok(tree),
        0 <= k <= tree.len(),
        tree.len() <= u32::MAX,
    ensures
        0 <= i < spec_children(tree, v, k).len() ==> spec_children(tree, v, k)[i] < v && spec_children(
            tree,
            v,
            k,
        )[i] < k && tree[spec_children(tree, v, k)[i] as int].is_some() && tree[spec_children(
            tree,
            v,
            k,
        )[i] as int].unwrap() == v,
        0 <= i < spec_roots(tree, k).len() ==> spec_roots(tree, k)[i] < k && tree[spec_roots(
            tree,
            k,
        )[i] as int].is_none(),
    decreases k,
{
    if k > 0 {
        lemma_below(tree, v, k - 1, i);
    }
}

/// A separator begins at its root, and each of its nodes is the parent of the next.
pub proof fn lemma_separator_is_a_row(tree: Seq<Option<NodeId>>, root: int, j: int)
    requires
        spec_tree_ok(tree),
        tree.len() <= u32::MAX,
        0 <= root < tree.len(),
    ensures
        spec_separator(tree, root).nodes.len() >= 1,
        spec_separator(tree, root).nodes[0] == root,
        0 <= j < spec_separator(tree, root).nodes.len() - 1 ==> tree[spec_separator(tree, root).nodes[j
            + 1] as int] == Some(spec_separator(tree, root).nodes[j]),
    decreases root,
{
    let kids = spec_children(tree, root, tree.len() as int);
    if kids.len() == 1 {
        lemma_below(tree, root, tree.len() as int, 0);
        lemma_separator_is_a_row(tree, kids[0] as int, j - 1);
    }
}

/// The separators below a separator begin at the children of its last
/// node, from the lowest to the highest, and there is not exactly one of them.
pub proof fn lemma_separator_parts(tree: Seq<Option<NodeId>>, root: int, i: int)
    requires
        spec_tree_ok(tree),
        tree.len() <= u32::MAX,
        0 <= root < tree.len(),
    ensures
        spec_separator(tree, root).children.len() == spec_children(
            tree,
            spec_separator(tree, root).nodes.last() as int,
            tree.len() as int,
        ).len(),
        spec_separator(tree, root).children.len() != 1,
        0 <= i < spec_separator(tree, root).children.len() ==> spec_separator(tree, root).children[i]
            == spec_separator(
            tree,
            spec_children(tree, spec_separator(tree, root).nodes.last() as int, tree.len() as int)[i] as int,
        ),
    decreases root,
{
    let kids = spec_children(tree, root, tree.len() as int);
    if kids.len() == 1 {
        lemma_below(tree, root, tree.len() as int, 0);
        lemma_separator_is_a_row(tree, kids[0] as int, 0);
        lemma_separator_parts(tree, kids[0] as int, i);
    } else {
        lemma_parts(tree, kids, root, kids.len() as int, i);
        if 0 <= i < kids.len() {
            lemma_below(tree, root, tree.len() as int, i);
        }
    }
}

/// The separators that begin at the first `k` of some nodes are as many,
/// each the separator that begins at its node.
proof fn lemma_parts(tree: Seq<Option<NodeId>>, kids: Seq<NodeId>, above: int, k: int, i: int)
    requires
        0 <= k <= kids.len(),
        0 <= above,
    ensures
        spec_parts(tree, kids, above, k).len() == k,
        0 <= i < k && kids[i] < above ==> spec_parts(tree, kids, above, k)[i] == spec_separator(
            tree,
            kids[i] as int,
        ),
    decreases k,
{
    if k > 0 {
        lemma_parts(tree, kids, above, k - 1, i);
    }
}

/// Adds `x` to the end of list `v`.
fn push_to(lists: &mut Vec<Vec<NodeId>>, v: usize, x: NodeId)
    requires
        v < old(lists)@.len(),
    ensures
        final(lists)@.len() == old(lists)@.len(),
        final(lists)@[v as int]@ == old(lists)@[v as int]@.push(x),
        forall|w: int| 0 <= w < old(lists)@.len() && w != v ==> #[trigger] final(lists)@[w] == old(lists)@[w],
{
    let list = &mut lists[v];
    list.push(x);
}

/// The children of every node, and the nodes without a parent.
fn child_lists(tree: &[Option<NodeId>]) -> (r: (Vec<Vec<NodeId>>, Vec<NodeId>))
    requires
        spec_tree_ok(tree@),
        tree@.len() <= u32::MAX,
    ensures
        r.0@.len() == tree@.len(),
        forall|v: int|
            0 <= v < tree@.len() ==> (#[trigger] r.0@[v])@ == spec_children(tree@, v, tree@.len() as int),
        r.1@ == spec_roots(tree@, tree@.len() as int),
{
    let n = tree.len();
    let mut children: Vec<Vec<NodeId>> = Vec::new();
    let mut i: usize = 0;
    while i < n
        invariant
            i <= n,
            children@.len() == i,
            forall|v: int| 0 <= v < i ==> (#[trigger] children@[v])@ == spec_children(tree@, v, 0),
        decreases n - i,
    {
        children.push(Vec::new());
        i += 1;
    }
    let mut roots: Vec<NodeId> = Vec::new();
    let mut k: usize = 0;
    while k < n
        invariant
            k <= n,
            n == tree@.len(),
            n <= u32::MAX,
            spec_tree_ok(tree@),
            children@.len() == n,
            forall|v: int| 0 <= v < n ==> (#[trigger] children@[v])@ == spec_children(tree@, v, k as int),
            roots@ == spec_roots(tree@, k as int),
        decreases n - k,
    {
        let ghost before = children@;
        match tree[k] {
            Some(parent) => {
                push_to(&mut children, parent as usize, k as NodeId);
                proof {
                    assert forall|v: int| 0 <= v < n implies (#[trigger] children@[v])@ == spec_children(
                        tree@,
                        v,
                        k as int + 1,
                    ) by {
                        assert(before[v]@ == spec_children(tree@, v, k as int));
                    }
                }
            },
            None => {
                roots.push(k as NodeId);
            },
        }
        k += 1;
    }
    (children, roots)
}

/// The separator that begins at `root`.
fn aggregate_chain(root: NodeId, children: &Vec<Vec<NodeId>>, Ghost(tree): Ghost<Seq<Option<NodeId>>>) -> (r:
    SeparatorTree)
    requires
        spec_tree_ok(tree),
        tree.len() <= u32::MAX,
        children@.len() == tree.len(),
        forall|v: int|
            0 <= v < tree.len() ==> (#[trigger] children@[v])@ == spec_children(tree, v, tree.len() as int),
        root < tree.len(),
    ensures
        r@ == spec_separator(tree, root as int),
    decreases root, 1int, 0int,
{
    let ghost goal = spec_separator(tree, root as int);
    let mut node = root;
    let mut nodes: Vec<NodeId> = Vec::new();
    while children[node as usize].len() == 1
        invariant
            spec_tree_ok(tree),
            tree.len() <= u32::MAX,
            children@.len() == tree.len(),
            forall|v: int|
                0 <= v < tree.len() ==> (#[trigger] children@[v])@ == spec_children(
                    tree,
                    v,
                    tree.len() as int,
                ),
            node <= root,
            node < tree.len(),
            goal.nodes == nodes@ + spec_separator(tree, node as int).nodes,
            goal.children == spec_separator(tree, node as int).children,
        decreases node,
    {
        proof {
            lemma_below(tree, node as int, tree.len() as int, 0);
            assert(children@[node as int]@ == spec_children(tree, node as int, tree.len() as int));
            assert((nodes@.push(node)) + spec_separator(tree, children@[node as int]@[0] as int).nodes
                =~= nodes@ + (seq![node] + spec_separator(tree, children@[node as int]@[0] as int).nodes));
        }
        nodes.push(node);
        node = children[node as usize][0];
    }
    nodes.push(node);
    let kids = &children[node as usize];
    let ghost below = spec_separator(tree, node as int);
    proof {
        assert(kids@ == spec_children(tree, node as int, tree.len() as int));
        assert(below.nodes =~= seq![node]) by {
            if kids@.len() == 1 {
                lemma_below(tree, node as int, tree.len() as int, 0);
            }
        }
        assert(nodes@ =~= goal.nodes);
    }
    let mut parts: Vec<SeparatorTree> = Vec::new();
    let mut i: usize = 0;
    while i < kids.len()
        invariant
            i <= kids@.len(),
            spec_tree_ok(tree),
            tree.len() <= u32::MAX,
            children@.len() == tree.len(),
            forall|v: int|
                0 <= v < tree.len() ==> (#[trigger] children@[v])@ == spec_children(
                    tree,
                    v,
                    tree.len() as int,
                ),
            node <= root,
            node < tree.len(),
            kids@ == spec_children(tree, node as int, tree.len() as int),
            parts@.len() == i,
            forall|j: int| 0 <= j < i ==> (#[trigger] parts@[j])@ == spec_parts(tree, kids@, node as int, i as int)[j],
            spec_parts(tree, kids@, node as int, i as int).len() == i,
        decreases kids@.len() - i,
    {
        proof {
            lemma_below(tree, node as int, tree.len() as int, i as int);
        }
        let part = aggregate_chain(kids[i], children, Ghost(tree));
        let ghost before = parts@;
        parts.push(part);
        proof {
            let more = spec_parts(tree, kids@, node as int, i as int + 1);
            assert forall|j: int| 0 <= j < i + 1 implies (#[trigger] parts@[j])@ == more[j] by {
                if j < i {
                    assert(parts@[j] == before[j]);
                }
            }
        }
        i += 1;
    }
    let r = SeparatorTree { nodes, children: parts };
    proof {
        assert(kids@.len() != 1);
        assert(r@.children =~= goal.children);
    }
    r
}

/// The separator tree of the forest of parents `elimination_tree`.
pub fn separators(elimination_tree: &[Option<NodeId>]) -> (r: SeparatorTree)
    requires
        spec_tree_ok(elimination_tree@),
        elimination_tree@.len() <= u32::MAX,
    ensures
        r@ == spec_separators(elimination_tree@),
{
    let ghost tree = elimination_tree@;
    let (children, roots) = child_lists(elimination_tree);
    let mut parts: Vec<SeparatorTree> = Vec::new();
    let mut i: usize = 0;
    while i < roots.len()
        invariant
            i <= roots@.len(),
            spec_tree_ok(tree),
            tree.len() <= u32::MAX,
            children@.len() == tree.len(),
            forall|v: int|
                0 <= v < tree.len() ==> (#[trigger] children@[v])@ == spec_children(
                    tree,
                    v,
                    tree.len() as int,
                ),
            roots@ == spec_roots(tree, tree.len() as int),
            parts@.len() == i,
            forall|j: int|
                0 <= j < i ==> (#[trigger] parts@[j])@ == spec_parts(
                    tree,
                    roots@,
                    tree.len() as int,
                    i as int,
                )[j],
            spec_parts(tree, roots@, tree.len() as int, i as int).len() == i,
        decreases roots@.len() - i,
    {
        proof {
            lemma_below(tree, 0, tree.len() as int, i as int);
        }
        let part = aggregate_chain(roots[i], &children, Ghost(tree));
        let ghost before = parts@;
        parts.push(part);
        proof {
            let more = spec_parts(tree, roots@, tree.len() as int, i as int + 1);
            assert forall|j: int| 0 <= j < i + 1 implies (#[trigger] parts@[j])@ == more[j] by {
                if j < i {
                    assert(parts@[j] == before[j]);
                }
            }
        }
        i += 1;
    }
    let r = SeparatorTree { nodes: Vec::new(), children: parts };
    proof {
        assert(r@.nodes =~= spec_separators(tree).nodes);
        assert(r@.children =~= spec_separators(tree).children);
    }
    r
}

impl CCH {
    /// The separator tree of the hierarchy.
    pub fn separators(&self) -> (r: SeparatorTree)
        requires
            self.wf(),
        ensures
            r@ == spec_separators(self.spec_tree()),
    {
        proof {
            self.spec_graph().lemma_wf();
        }
        separators(self.elimination_tree())
    }
}

} // verus!
