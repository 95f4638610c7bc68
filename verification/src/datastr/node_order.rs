//! A contraction order: a permutation of the nodes and its inverse.
use vstd::prelude::*;
use crate::types::NodeId;

verus! {

/// Whether `order` and `ranks` are permutations of `0..n` and inverse to each other.
pub open spec fn spec_inverse(order: Seq<NodeId>, ranks: Seq<u32>) -> bool {
    &&& order.len() == ranks.len()
    &&& forall|r: int| 0 <= r < order.len() ==> 0 <= #[trigger] order[r] < order.len()
    &&& forall|r: int| 0 <= r < order.len() ==> ranks[#[trigger] order[r] as int] == r
    &&& forall|n: int| 0 <= n < ranks.len() ==> 0 <= #[trigger] ranks[n] < ranks.len()
    &&& forall|n: int| 0 <= n < ranks.len() ==> order[#[trigger] ranks[n] as int] == n
}

/// Whether every `i < n` occurs in `order`, which has `n` entries below `n`.
pub open spec fn spec_is_permutation(order: Seq<NodeId>) -> bool {
    &&& forall|r: int| 0 <= r < order.len() ==> 0 <= #[trigger] order[r] < order.len()
    &&& forall|r: int, s: int| 0 <= r < s < order.len() ==> order[r] != order[s]
}

/// The nodes in the order of their contraction, and the rank of each node.
#[derive(Debug, Clone)]
pub struct NodeOrder {
    node_order: Vec<NodeId>,
    ranks: Vec<u32>,
}

impl NodeOrder {
    /// Representation invariant: the two arrays are inverse permutations.
    pub closed spec fn wf(&self) -> bool {
        spec_inverse(self.node_order@, self.ranks@)
    }

    /// The node of each rank.
    pub closed spec fn spec_order(&self) -> Seq<NodeId> {
        self.node_order@
    }

    /// The rank of each node.
    pub closed spec fn spec_ranks(&self) -> Seq<u32> {
        self.ranks@
    }

    /// What being well formed means for a caller.
    pub proof fn lemma_wf(&self)
        requires
            self.wf(),
        ensures
            spec_inverse(self.spec_order(), self.spec_ranks()),
    {
    }

    /// Takes the nodes in contraction order.  `None` unless `order` is a
    /// permutation of `0..order.len()`.
    pub fn from_node_order(order: Vec<NodeId>) -> (r: Option<NodeOrder>)
        ensures
            r.is_some() <==> spec_is_permutation(order@) && order@.len() <= u32::MAX,
            r matches Some(o) ==> o.wf() && o.spec_order() == order@,
    {
        let n: usize = order.len();
        if n > u32::MAX as usize {
            return None;
        }
        let mut ranks: Vec<u32> = Vec::new();
        let mut i: usize = 0;
        while i < n
            invariant
                i <= n,
                ranks.len() == i,
                forall|j: int| 0 <= j < i ==> ranks[j] == n as u32,
            decreases n - i,
        {
            ranks.push(n as u32);
            i += 1;
        }
        let mut r: usize = 0;
        while r < n
            invariant
                r <= n,
                n == order.len(),
                n <= u32::MAX,
                ranks.len() == n,
                forall|q: int| 0 <= q < r ==> 0 <= #[trigger] order[q] < n,
                forall|q: int| 0 <= q < r ==> ranks[#[trigger] order[q] as int] == q,
                forall|q: int, s: int| 0 <= q < s < r ==> order[q] != order[s],
                forall|x: int|
                    0 <= x < n ==> (#[trigger] ranks[x] == n as u32 || (0 <= ranks[x] < r
                        && order[ranks[x] as int] == x)),
            decreases n - r,
        {
            let node: NodeId = order[r];
            if node as usize >= n {
                return None;
            }
            if ranks[node as usize] != n as u32 {
                proof {
                    let q = ranks[node as int] as int;
                    assert(order[q] == order[r as int]);
                }
                return None;
            }
            ranks[node as usize] = r as u32;
            r += 1;
        }
        proof {
            lemma_injective_is_onto(order@, ranks@);
        }
        Some(NodeOrder { node_order: order, ranks })
    }

    /// Number of nodes.
    pub fn len(&self) -> (n: usize)
        ensures
            n == self.spec_order().len(),
    {
        self.node_order.len()
    }

    /// The rank of `node`.
    pub fn rank(&self, node: NodeId) -> (r: u32)
        requires
            self.wf(),
            node < self.spec_order().len(),
        ensures
            r == self.spec_ranks()[node as int],
            r < self.spec_order().len(),
            self.spec_order()[r as int] == node,
    {
        self.ranks[node as usize]
    }

    /// The node of rank `rank`.
    pub fn node(&self, rank: u32) -> (n: NodeId)
        requires
            self.wf(),
            rank < self.spec_order().len(),
        ensures
            n == self.spec_order()[rank as int],
            n < self.spec_order().len(),
            self.spec_ranks()[n as int] == rank,
    {
        self.node_order[rank as usize]
    }
}

/// Ranks that were filled from an injective order leave no node without a rank.
proof fn lemma_injective_is_onto(order: Seq<NodeId>, ranks: Seq<u32>)
    requires
        order.len() == ranks.len(),
        order.len() <= u32::MAX,
        forall|q: int| 0 <= q < order.len() ==> 0 <= #[trigger] order[q] < order.len(),
        forall|q: int| 0 <= q < order.len() ==> ranks[#[trigger] order[q] as int] == q,
        forall|x: int|
            0 <= x < ranks.len() ==> (#[trigger] ranks[x] == order.len() as u32 || (0 <= ranks[x]
                < order.len() && order[ranks[x] as int] == x)),
    ensures
        forall|x: int| 0 <= x < ranks.len() ==> #[trigger] ranks[x] != order.len() as u32,
{
    let n = order.len() as int;
    // The nodes that carry a rank are exactly the image of `order`, which has `n` members.
    let image = Set::new(|x: int| 0 <= x < n && ranks[x] != n as u32);
    let positions = Set::new(|q: int| 0 <= q < n);
    vstd::set_lib::lemma_int_range(0, n);
    assert(positions =~= vstd::set_lib::set_int_range(0, n));
    let f = |q: int| order[q] as int;
    assert forall|q: int| positions.contains(q) implies image.contains(#[trigger] f(q)) by {
        assert(ranks[order[q] as int] == q);
    }
    assert forall|q1: int, q2: int|
        positions.contains(q1) && positions.contains(q2) && #[trigger] f(q1) == #[trigger] f(
            q2,
        ) implies q1 == q2 by {
        assert(ranks[order[q1] as int] == q1);
        assert(ranks[order[q2] as int] == q2);
    }
    assert(image.subset_of(positions));
    vstd::set_lib::lemma_len_subset(image, positions);
    let mapped = positions.map(f);
    assert(mapped.subset_of(image)) by {
        assert forall|y: int| mapped.contains(y) implies image.contains(y) by {
            let q = choose|q: int| positions.contains(q) && f(q) == y;
            assert(image.contains(f(q)));
        }
    }
    vstd::set_lib::lemma_map_size(positions, mapped, f);
    vstd::set_lib::lemma_len_subset(mapped, image);
    assert(image.len() == n);
    // A subset of full size is the whole set.
    vstd::set_lib::lemma_subset_equality(image, positions);
    assert forall|x: int| 0 <= x < ranks.len() implies #[trigger] ranks[x] != n as u32 by {
        assert(positions.contains(x));
        assert(image.contains(x));
    }
}

} // verus!
