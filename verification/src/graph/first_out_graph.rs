//! A static graph with scalar weights in adjacency array form.
use vstd::prelude::*;
use crate::types::{Link, NodeId, Weight};

verus! {

/// Whether `first_out` delimits the arc ranges of its nodes in an arc array of `m` entries.
pub open spec fn spec_offsets(first_out: Seq<u32>, m: int) -> bool {
    &&& first_out.len() >= 1
    &&& first_out[0] == 0
    &&& first_out[first_out.len() - 1] == m
    &&& forall|i: int| 0 <= i < first_out.len() - 1 ==> first_out[i] <= #[trigger] first_out[i + 1]
}

/// Offsets never decrease.
pub proof fn lemma_offsets_le(first_out: Seq<u32>, m: int, i: int, j: int)
    requires
        spec_offsets(first_out, m),
        0 <= i <= j < first_out.len(),
    ensures
        first_out[i] <= first_out[j],
    decreases j - i,
{
    if i < j {
        assert(first_out[i] <= first_out[i + 1]);
        lemma_offsets_le(first_out, m, i + 1, j);
    }
}

/// Offsets never decrease, and none exceeds the number of arcs.
pub proof fn lemma_offsets_monotone(first_out: Seq<u32>, m: int, i: int, j: int)
    requires
        spec_offsets(first_out, m),
        0 <= i <= j < first_out.len(),
    ensures
        first_out[i] <= first_out[j] <= m,
{
    lemma_offsets_le(first_out, m, i, j);
    lemma_offsets_le(first_out, m, j, first_out.len() - 1);
}

/// The tail of arc `e`: the node whose range holds it.
pub open spec fn spec_tail(first_out: Seq<u32>, e: int) -> int {
    choose|u: int| 0 <= u < first_out.len() - 1 && #[trigger] first_out[u] <= e && e < first_out[u + 1]
}

/// The node whose range holds an arc is its tail.
pub proof fn lemma_tail_unique(first_out: Seq<u32>, m: int, e: int, u: int)
    requires
        spec_offsets(first_out, m),
        0 <= u < first_out.len() - 1,
        first_out[u] <= e < first_out[u + 1],
    ensures
        spec_tail(first_out, e) == u,
{
    let t = spec_tail(first_out, e);
    if t < u {
        lemma_offsets_monotone(first_out, m, t + 1, u);
    } else if u < t {
        lemma_offsets_monotone(first_out, m, u + 1, t);
    }
}

/// Sum of the lengths of the first `k` lists.
pub open spec fn spec_total_len(lists: Seq<Vec<Link>>, k: int) -> int
    decreases k,
{
    if k <= 0 {
        0
    } else {
        spec_total_len(lists, k - 1) + lists[k - 1].len()
    }
}

/// The sum of lengths grows with the number of lists taken.
pub proof fn lemma_total_len_monotone(lists: Seq<Vec<Link>>, i: int, j: int)
    requires
        0 <= i <= j,
    ensures
        0 <= spec_total_len(lists, i) <= spec_total_len(lists, j),
    decreases j,
{
    if i < j {
        lemma_total_len_monotone(lists, i, j - 1);
    } else if j > 0 {
        lemma_total_len_monotone(lists, i - 1, j - 1);
    }
}

/// Lists that agree on the first `k` entries have the same sum there.
pub proof fn lemma_total_len_agree(a: Seq<Vec<Link>>, b: Seq<Vec<Link>>, k: int)
    requires
        0 <= k <= a.len(),
        k <= b.len(),
        forall|j: int| 0 <= j < k ==> a[j].len() == b[j].len(),
    ensures
        spec_total_len(a, k) == spec_total_len(b, k),
    decreases k,
{
    if k > 0 {
        lemma_total_len_agree(a, b, k - 1);
    }
}

/// One more link in list `x` is one more link in the sum.
proof fn lemma_total_len_grow(a: Seq<Vec<Link>>, b: Seq<Vec<Link>>, x: int, k: int)
    requires
        a.len() == b.len(),
        0 <= x < a.len(),
        0 <= k <= a.len(),
        b[x].len() == a[x].len() + 1,
        forall|j: int| 0 <= j < a.len() && j != x ==> a[j].len() == b[j].len(),
    ensures
        spec_total_len(b, k) == spec_total_len(a, k) + if x < k { 1int } else { 0int },
    decreases k,
{
    if k > 0 {
        lemma_total_len_grow(a, b, x, k - 1);
    }
}

/// Whether `lists[j][i]` exists.
pub open spec fn spec_in_list(lists: Seq<Vec<Link>>, j: int, i: int) -> bool {
    0 <= j < lists.len() && 0 <= i < lists[j].len()
}

/// Where arc `e` is filed, and as what: the list that receives it and the link put there.
pub type Filing = spec_fn(int) -> Option<(int, Link)>;

/// The links that the first `k` arcs file under `v`, in the order of the arcs.
pub open spec fn spec_filed(filing: Filing, v: int, k: int) -> Seq<Link>
    decreases k,
{
    if k <= 0 {
        Seq::empty()
    } else {
        let before = spec_filed(filing, v, k - 1);
        match filing(k - 1) {
            Some((x, link)) => if x == v { before.push(link) } else { before },
            None => before,
        }
    }
}

/// A graph in adjacency array form: the arcs of node `v` are those from
/// `first_out[v]` up to `first_out[v + 1]`.
#[derive(Debug, Clone)]
pub struct FirstOutGraph {
    first_out: Vec<u32>,
    head: Vec<NodeId>,
    weight: Vec<Weight>,
}

/// A graph that owns its arrays.
pub type OwnedGraph = FirstOutGraph;

/// Whether two arrays describe the nodes and arcs of a graph.
pub open spec fn spec_valid_topology(first_out: Seq<u32>, head: Seq<NodeId>) -> bool {
    &&& spec_offsets(first_out, head.len() as int)
    &&& first_out.len() <= u32::MAX
    &&& forall|e: int| 0 <= e < head.len() ==> #[trigger] head[e] < first_out.len() - 1
}

/// Whether three arrays describe a graph.
pub open spec fn spec_valid_arrays(first_out: Seq<u32>, head: Seq<NodeId>, weight: Seq<Weight>) -> bool {
    &&& spec_valid_topology(first_out, head)
    &&& weight.len() == head.len()
}

/// Checks whether two arrays describe the nodes and arcs of a graph.
pub fn valid_topology(first_out: &Vec<u32>, head: &Vec<NodeId>) -> (ok: bool)
    ensures
        ok == spec_valid_topology(first_out@, head@),
{
    let n1 = first_out.len();
    if n1 == 0 || n1 > u32::MAX as usize || first_out[0] != 0 || first_out[n1 - 1] as usize
        != head.len() {
        return false;
    }
    let mut i: usize = 0;
    while i < n1 - 1
        invariant
            i <= n1 - 1,
            n1 == first_out.len(),
            forall|j: int| 0 <= j < i ==> first_out[j] <= #[trigger] first_out[j + 1],
        decreases n1 - i,
    {
        if first_out[i] > first_out[i + 1] {
            return false;
        }
        i += 1;
    }
    let mut e: usize = 0;
    while e < head.len()
        invariant
            e <= head.len(),
            n1 == first_out.len(),
            n1 >= 1,
            forall|j: int| 0 <= j < e ==> #[trigger] head[j] < n1 - 1,
        decreases head.len() - e,
    {
        if head[e] as usize >= n1 - 1 {
            return false;
        }
        e += 1;
    }
    true
}

/// Checks whether three arrays describe a graph.
pub fn valid_arrays(first_out: &Vec<u32>, head: &Vec<NodeId>, weight: &Vec<Weight>) -> (ok: bool)
    ensures
        ok == spec_valid_arrays(first_out@, head@, weight@),
{
    valid_topology(first_out, head) && weight.len() == head.len()
}

/// Builds a graph from one list of links per node.
pub fn from_adjancecy_lists(adjancecy_lists: Vec<Vec<Link>>) -> (g: OwnedGraph)
    requires
        adjancecy_lists@.len() < u32::MAX,
        spec_total_len(adjancecy_lists@, adjancecy_lists@.len() as int) <= u32::MAX,
        forall|v: int, i: int|
            0 <= v < adjancecy_lists@.len() && 0 <= i < adjancecy_lists@[v].len()
                ==> (#[trigger] adjancecy_lists@[v][i]).node < adjancecy_lists@.len(),
    ensures
        g.wf(),
        g.spec_num_nodes() == adjancecy_lists@.len(),
        forall|v: int| 0 <= v < adjancecy_lists@.len() ==> #[trigger] g.spec_links(v) == adjancecy_lists@[v]@,
{
    let n = adjancecy_lists.len();
    let mut first_out: Vec<u32> = Vec::new();
    let mut head: Vec<NodeId> = Vec::new();
    let mut weight: Vec<Weight> = Vec::new();
    first_out.push(0);
    let mut v: usize = 0;
    while v < n
        invariant
            v <= n,
            n == adjancecy_lists@.len(),
            spec_total_len(adjancecy_lists@, n as int) <= u32::MAX,
            forall|v: int, i: int|
                0 <= v < adjancecy_lists@.len() && 0 <= i < adjancecy_lists@[v].len()
                    ==> (#[trigger] adjancecy_lists@[v][i]).node < adjancecy_lists@.len(),
            first_out.len() == v + 1,
            head.len() == weight.len(),
            head.len() == spec_total_len(adjancecy_lists@, v as int),
            forall|j: int| 0 <= j <= v ==> #[trigger] first_out[j] == spec_total_len(adjancecy_lists@, j),
            forall|e: int| 0 <= e < head.len() ==> #[trigger] head[e] < n,
            forall|j: int, i: int|
                j < v && #[trigger] spec_in_list(adjancecy_lists@, j, i) ==> first_out[j] + i < head.len()
                    && head[first_out[j] + i] == adjancecy_lists@[j][i].node
                    && weight[first_out[j] + i] == adjancecy_lists@[j][i].weight,
        decreases n - v,
    {
        let list = &adjancecy_lists[v];
        let len = list.len();
        proof {
            lemma_total_len_monotone(adjancecy_lists@, v as int + 1, n as int);
        }
        let ghost start = head.len();
        let mut i: usize = 0;
        while i < len
            invariant
                i <= len,
                v < n,
                n == adjancecy_lists@.len(),
                list == adjancecy_lists@[v as int],
                len == list.len(),
                head.len() == weight.len(),
                head.len() == start + i,
                start == spec_total_len(adjancecy_lists@, v as int),
                start + len <= u32::MAX,
                first_out.len() == v + 1,
                forall|j: int| 0 <= j <= v ==> #[trigger] first_out[j] == spec_total_len(adjancecy_lists@, j),
                forall|v: int, i: int|
                    0 <= v < adjancecy_lists@.len() && 0 <= i < adjancecy_lists@[v].len()
                        ==> (#[trigger] adjancecy_lists@[v][i]).node < adjancecy_lists@.len(),
                forall|e: int| 0 <= e < head.len() ==> #[trigger] head[e] < n,
                forall|j: int, i: int|
                    j < v && #[trigger] spec_in_list(adjancecy_lists@, j, i) ==> first_out[j] + i < head.len()
                        && head[first_out[j] + i] == adjancecy_lists@[j][i].node
                        && weight[first_out[j] + i] == adjancecy_lists@[j][i].weight,
                forall|k: int|
                    0 <= k < i ==> head[start + k] == (#[trigger] list[k]).node && weight[start + k]
                        == list[k].weight,
            decreases len - i,
        {
            let link = list[i];
            proof {
                assert(adjancecy_lists@[v as int][i as int].node < n);
            }
            head.push(link.node);
            weight.push(link.weight);
            i += 1;
        }
        first_out.push(head.len() as u32);
        v += 1;
    }
    let g = FirstOutGraph { first_out, head, weight };
    proof {
        assert forall|i: int| 0 <= i < g.first_out.len() - 1 implies g.first_out[i]
            <= #[trigger] g.first_out[i + 1] by {
            lemma_total_len_monotone(adjancecy_lists@, i, i + 1);
        }
        assert forall|v: int| 0 <= v < n implies #[trigger] g.spec_links(v)
            == adjancecy_lists@[v]@ by {
            assert(g.first_out[v + 1] == spec_total_len(adjancecy_lists@, v + 1));
            assert forall|i: int| 0 <= i < adjancecy_lists@[v].len() implies g.spec_links(v)[i]
                == adjancecy_lists@[v]@[i] by {
                assert(spec_in_list(adjancecy_lists@, v, i));
            }
            assert(g.spec_links(v) =~= adjancecy_lists@[v]@);
        }
    }
    g
}

/// `n` empty lists.
fn empty_lists(n: usize) -> (lists: Vec<Vec<Link>>)
    ensures
        lists@.len() == n,
        forall|v: int| 0 <= v < n ==> (#[trigger] lists@[v])@ == Seq::<Link>::empty(),
        spec_total_len(lists@, n as int) == 0,
{
    let mut lists: Vec<Vec<Link>> = Vec::new();
    let mut i: usize = 0;
    while i < n
        invariant
            i <= n,
            lists@.len() == i,
            forall|v: int| 0 <= v < i ==> (#[trigger] lists@[v])@ == Seq::<Link>::empty(),
            spec_total_len(lists@, i as int) == 0,
        decreases n - i,
    {
        let ghost before = lists@;
        lists.push(Vec::new());
        proof {
            lemma_total_len_agree(before, lists@, i as int);
        }
        i += 1;
    }
    lists
}

/// Appends `link` to list `x`.
fn file_link(lists: &mut Vec<Vec<Link>>, x: usize, link: Link)
    requires
        x < old(lists)@.len(),
    ensures
        final(lists)@.len() == old(lists)@.len(),
        final(lists)@[x as int]@ == old(lists)@[x as int]@.push(link),
        forall|v: int| 0 <= v < old(lists)@.len() && v != x ==> final(lists)@[v] == old(lists)@[v],
        spec_total_len(final(lists)@, final(lists)@.len() as int) == spec_total_len(
            old(lists)@,
            old(lists)@.len() as int,
        ) + 1,
{
    lists[x].push(link);
    proof {
        lemma_total_len_grow(old(lists)@, lists@, x as int, lists@.len() as int);
    }
}

impl FirstOutGraph {
    /// Representation invariant: the arrays describe a graph.
    pub closed spec fn wf(&self) -> bool {
        spec_valid_arrays(self.first_out@, self.head@, self.weight@)
    }

    /// Index of the first arc of each node, and one entry more.
    pub closed spec fn spec_first_out(&self) -> Seq<u32> {
        self.first_out@
    }

    /// Head of each arc.
    pub closed spec fn spec_head(&self) -> Seq<NodeId> {
        self.head@
    }

    /// Weight of each arc.
    pub closed spec fn spec_weight(&self) -> Seq<Weight> {
        self.weight@
    }

    /// Number of nodes.
    pub open spec fn spec_num_nodes(&self) -> int {
        self.spec_first_out().len() - 1
    }

    /// The arcs that leave `v`, in the order of the arrays.
    pub open spec fn spec_links(&self, v: int) -> Seq<Link> {
        Seq::new(
            (self.spec_first_out()[v + 1] - self.spec_first_out()[v]) as nat,
            |i: int|
                Link {
                    node: self.spec_head()[self.spec_first_out()[v] + i],
                    weight: self.spec_weight()[self.spec_first_out()[v] + i],
                },
        )
    }

    /// What the arrays being well formed means for a caller.
    pub proof fn lemma_wf(&self)
        requires
            self.wf(),
        ensures
            spec_valid_arrays(self.spec_first_out(), self.spec_head(), self.spec_weight()),
    {
    }

    /// A graph built from lists has as many arcs as the lists have links.
    proof fn lemma_num_arcs(&self, lists: Seq<Vec<Link>>)
        requires
            self.wf(),
            self.spec_num_nodes() == lists.len(),
            forall|v: int| 0 <= v < lists.len() ==> #[trigger] self.spec_links(v) == lists[v]@,
        ensures
            self.head.len() == spec_total_len(lists, lists.len() as int),
    {
        self.lemma_offsets_are_sums(lists, lists.len() as int);
    }

    /// In a graph built from lists the offsets are the sums of the lengths.
    proof fn lemma_offsets_are_sums(&self, lists: Seq<Vec<Link>>, k: int)
        requires
            self.wf(),
            self.spec_num_nodes() == lists.len(),
            forall|v: int| 0 <= v < lists.len() ==> #[trigger] self.spec_links(v) == lists[v]@,
            0 <= k <= lists.len(),
        ensures
            self.first_out[k] == spec_total_len(lists, k),
        decreases k,
    {
        if k > 0 {
            self.lemma_offsets_are_sums(lists, k - 1);
            assert(self.first_out[k - 1] <= self.first_out[k - 1 + 1]);
            assert(self.spec_links(k - 1).len() == lists[k - 1].len());
        }
    }

    /// Takes the three arrays of a graph.
    pub fn new(first_out: Vec<u32>, head: Vec<NodeId>, weight: Vec<Weight>) -> (g: OwnedGraph)
        requires
            spec_valid_arrays(first_out@, head@, weight@),
        ensures
            g.wf(),
            g.spec_first_out() == first_out@,
            g.spec_head() == head@,
            g.spec_weight() == weight@,
    {
        FirstOutGraph { first_out, head, weight }
    }

    /// Index of the first arc of each node, and one entry more.
    pub fn first_out(&self) -> (r: &Vec<u32>)
        ensures
            r@ == self.spec_first_out(),
    {
        &self.first_out
    }

    /// Head of each arc.
    pub fn head(&self) -> (r: &Vec<NodeId>)
        ensures
            r@ == self.spec_head(),
    {
        &self.head
    }

    /// Weight of each arc.
    pub fn weight(&self) -> (r: &Vec<Weight>)
        ensures
            r@ == self.spec_weight(),
    {
        &self.weight
    }

    /// Number of nodes.
    pub fn num_nodes(&self) -> (n: usize)
        requires
            self.wf(),
        ensures
            n == self.spec_num_nodes(),
    {
        self.first_out.len() - 1
    }

    /// Number of arcs.
    pub fn num_arcs(&self) -> (m: usize)
        ensures
            m == self.spec_head().len(),
    {
        self.head.len()
    }

    /// Number of arcs that leave `node`.
    pub fn degree(&self, node: NodeId) -> (d: usize)
        requires
            self.wf(),
            node < self.spec_num_nodes(),
        ensures
            d == self.spec_links(node as int).len(),
    {
        assert(self.first_out.len() >= 1);
        assert(node < self.first_out.len() - 1);
        proof {
            assert(self.first_out[node as int] <= self.first_out[node as int + 1]);
        }
        (self.first_out[node as usize + 1] - self.first_out[node as usize]) as usize
    }

    /// The arcs that leave `node`.
    pub fn neighbor_iter(&self, node: NodeId) -> (r: Vec<Link>)
        requires
            self.wf(),
            node < self.spec_num_nodes(),
        ensures
            r@ == self.spec_links(node as int),
    {
        assert(self.first_out.len() >= 1);
        assert(node < self.first_out.len() - 1);
        let start = self.first_out[node as usize] as usize;
        let end = self.first_out[node as usize + 1] as usize;
        proof {
            assert(self.first_out[node as int] <= self.first_out[node as int + 1]);
            lemma_offsets_monotone(self.first_out@, self.head.len() as int, node as int + 1, self.first_out.len() - 1);
        }
        let mut r: Vec<Link> = Vec::new();
        let mut e: usize = start;
        while e < end
            invariant
                start <= e <= end,
                end <= self.head.len(),
                self.head.len() == self.weight.len(),
                r.len() == e - start,
                forall|i: int|
                    0 <= i < r.len() ==> #[trigger] r[i] == (Link {
                        node: self.head[start + i],
                        weight: self.weight[start + i],
                    }),
            decreases end - e,
        {
            r.push(Link { node: self.head[e], weight: self.weight[e] });
            e += 1;
        }
        proof {
            assert(r@ =~= self.spec_links(node as int));
        }
        r
    }

    /// The first arc from `from` to `to`.
    pub fn edge_index(&self, from: NodeId, to: NodeId) -> (r: Option<usize>)
        requires
            self.wf(),
            from < self.spec_num_nodes(),
        ensures
            match r {
                Some(e) => {
                    &&& self.spec_first_out()[from as int] <= e < self.spec_first_out()[from as int + 1]
                    &&& self.spec_head()[e as int] == to
                    &&& forall|f: int|
                        self.spec_first_out()[from as int] <= f < e ==> self.spec_head()[f] != to
                },
                None => forall|f: int|
                    self.spec_first_out()[from as int] <= f < self.spec_first_out()[from as int + 1]
                        ==> self.spec_head()[f] != to,
            },
    {
        assert(self.first_out.len() >= 1);
        assert(from < self.first_out.len() - 1);
        let start = self.first_out[from as usize] as usize;
        let end = self.first_out[from as usize + 1] as usize;
        proof {
            assert(self.first_out[from as int] <= self.first_out[from as int + 1]);
            lemma_offsets_monotone(self.first_out@, self.head.len() as int, from as int + 1, self.first_out.len() - 1);
        }
        let mut e: usize = start;
        while e < end
            invariant
                start <= e <= end,
                end <= self.head.len(),
                from < self.first_out.len() - 1,
                start == self.first_out[from as int],
                end == self.first_out[from as int + 1],
                forall|f: int| start <= f < e ==> self.head[f] != to,
            decreases end - e,
        {
            if self.head[e] == to {
                return Some(e);
            }
            e += 1;
        }
        None
    }

    /// How `reverse` files arc `e`: under its head, as a link to its tail.
    pub open spec fn spec_reverse_filing(&self) -> Filing {
        |e: int|
            Some(
                (
                    self.spec_head()[e] as int,
                    Link {
                        node: spec_tail(self.spec_first_out(), e) as NodeId,
                        weight: self.spec_weight()[e],
                    },
                ),
            )
    }

    /// The graph with every arc turned round.  The arcs into a node come in
    /// the order in which they stand in this graph.
    pub fn reverse(&self) -> (r: OwnedGraph)
        requires
            self.wf(),
        ensures
            r.wf(),
            r.spec_num_nodes() == self.spec_num_nodes(),
            r.spec_head().len() == self.spec_head().len(),
            forall|v: int|
                0 <= v < self.spec_num_nodes() ==> #[trigger] r.spec_links(v) == spec_filed(
                    self.spec_reverse_filing(),
                    v,
                    self.spec_head().len() as int,
                ),
    {
        let n = self.num_nodes();
        let mut reversed = empty_lists(n);
        let ghost filing = self.spec_reverse_filing();
        let mut node: usize = 0;
        let mut done: usize = 0;
        while node < n
            invariant
                node <= n,
                self.wf(),
                n == self.spec_num_nodes(),
                filing == self.spec_reverse_filing(),
                reversed@.len() == n,
                done == self.first_out[node as int],
                spec_total_len(reversed@, n as int) == done,
                forall|v: int| 0 <= v < n ==> (#[trigger] reversed@[v])@ == spec_filed(filing, v, done as int),
                forall|v: int, i: int|
                    0 <= v < n && 0 <= i < reversed@[v].len() ==> (#[trigger] reversed@[v][i]).node < n,
            decreases n - node,
        {
            let end = self.first_out[node + 1] as usize;
            proof {
                assert(self.first_out[node as int] <= self.first_out[node as int + 1]);
                lemma_offsets_monotone(self.first_out@, self.head.len() as int, node as int + 1, self.first_out.len() - 1);
            }
            while done < end
                invariant
                    self.first_out[node as int] <= done <= end,
                    end == self.first_out[node as int + 1],
                    end <= self.head.len(),
                    node < n,
                    self.wf(),
                    n == self.spec_num_nodes(),
                    filing == self.spec_reverse_filing(),
                    reversed@.len() == n,
                    spec_total_len(reversed@, n as int) == done,
                    forall|v: int|
                        0 <= v < n ==> (#[trigger] reversed@[v])@ == spec_filed(filing, v, done as int),
                    forall|v: int, i: int|
                        0 <= v < n && 0 <= i < reversed@[v].len() ==> (#[trigger] reversed@[v][i]).node
                            < n,
                decreases end - done,
            {
                let neighbor = self.head[done];
                                let link = Link { node: node as NodeId, weight: self.weight[done] };
                proof {
                    lemma_tail_unique(self.first_out@, self.head.len() as int, done as int, node as int);
                    assert(filing(done as int) == Some((neighbor as int, link)));
                }
                let ghost before = reversed@;
                file_link(&mut reversed, neighbor as usize, link);
                proof {
                    assert forall|v: int| 0 <= v < n implies (#[trigger] reversed@[v])@ == spec_filed(
                        filing,
                        v,
                        done as int + 1,
                    ) by {
                        assert(before[v]@ == spec_filed(filing, v, done as int));
                    }
                    assert forall|v: int, i: int|
                        0 <= v < n && 0 <= i < reversed@[v].len() implies (#[trigger] reversed@[v][i]).node
                        < n by {
                        if v == neighbor && i == before[v].len() {
                        } else {
                            assert(before[v][i].node < n);
                        }
                    }
                }
                done += 1;
            }
            node += 1;
        }
        let ghost lists = reversed@;
        let r = from_adjancecy_lists(reversed);
        proof {
            r.lemma_num_arcs(lists);
        }
        r
    }

    /// How `ch_split` files arc `e` in the upward graph: under its tail, if the head ranks higher.
    pub open spec fn spec_up_filing(&self, node_ranks: Seq<u32>) -> Filing {
        |e: int|
            {
                let tail = spec_tail(self.spec_first_out(), e);
                let head = self.spec_head()[e] as int;
                if node_ranks[tail] < node_ranks[head] {
                    Some((tail, Link { node: head as NodeId, weight: self.spec_weight()[e] }))
                } else {
                    None
                }
            }
    }

    /// How `ch_split` files arc `e` in the downward graph: under its head, turned round, if
    /// the head does not rank higher.
    pub open spec fn spec_down_filing(&self, node_ranks: Seq<u32>) -> Filing {
        |e: int|
            {
                let tail = spec_tail(self.spec_first_out(), e);
                let head = self.spec_head()[e] as int;
                if node_ranks[tail] < node_ranks[head] {
                    None
                } else {
                    Some((head, Link { node: tail as NodeId, weight: self.spec_weight()[e] }))
                }
            }
    }

    /// Splits the graph by rank: the arcs that lead to a higher rank, and the
    /// others turned round.
    pub fn ch_split(self, node_ranks: &Vec<u32>) -> (r: (OwnedGraph, OwnedGraph))
        requires
            self.wf(),
            node_ranks@.len() == self.spec_num_nodes(),
        ensures
            r.0.wf(),
            r.1.wf(),
            r.0.spec_num_nodes() == self.spec_num_nodes(),
            r.1.spec_num_nodes() == self.spec_num_nodes(),
            forall|v: int|
                0 <= v < self.spec_num_nodes() ==> #[trigger] r.0.spec_links(v) == spec_filed(
                    self.spec_up_filing(node_ranks@),
                    v,
                    self.spec_head().len() as int,
                ),
            forall|v: int|
                0 <= v < self.spec_num_nodes() ==> #[trigger] r.1.spec_links(v) == spec_filed(
                    self.spec_down_filing(node_ranks@),
                    v,
                    self.spec_head().len() as int,
                ),
    {
        let n = self.num_nodes();
        let mut up = empty_lists(n);
        let mut down = empty_lists(n);
        let ghost up_filing = self.spec_up_filing(node_ranks@);
        let ghost down_filing = self.spec_down_filing(node_ranks@);
        let mut node: usize = 0;
        let mut done: usize = 0;
        while node < n
            invariant
                node <= n,
                self.wf(),
                n == self.spec_num_nodes(),
                node_ranks@.len() == n,
                up_filing == self.spec_up_filing(node_ranks@),
                down_filing == self.spec_down_filing(node_ranks@),
                up@.len() == n,
                down@.len() == n,
                done == self.first_out[node as int],
                spec_total_len(up@, n as int) + spec_total_len(down@, n as int) == done,
                spec_total_len(up@, n as int) >= 0,
                spec_total_len(down@, n as int) >= 0,
                forall|v: int| 0 <= v < n ==> (#[trigger] up@[v])@ == spec_filed(up_filing, v, done as int),
                forall|v: int| 0 <= v < n ==> (#[trigger] down@[v])@ == spec_filed(down_filing, v, done as int),
                forall|v: int, i: int|
                    0 <= v < n && 0 <= i < up@[v].len() ==> (#[trigger] up@[v][i]).node < n,
                forall|v: int, i: int|
                    0 <= v < n && 0 <= i < down@[v].len() ==> (#[trigger] down@[v][i]).node < n,
            decreases n - node,
        {
            let end = self.first_out[node + 1] as usize;
            proof {
                assert(self.first_out[node as int] <= self.first_out[node as int + 1]);
                lemma_offsets_monotone(self.first_out@, self.head.len() as int, node as int + 1, self.first_out.len() - 1);
            }
            while done < end
                invariant
                    self.first_out[node as int] <= done <= end,
                    end == self.first_out[node as int + 1],
                    end <= self.head.len(),
                    node < n,
                    self.wf(),
                    n == self.spec_num_nodes(),
                    node_ranks@.len() == n,
                    up_filing == self.spec_up_filing(node_ranks@),
                    down_filing == self.spec_down_filing(node_ranks@),
                    up@.len() == n,
                    down@.len() == n,
                    spec_total_len(up@, n as int) + spec_total_len(down@, n as int) == done,
                    spec_total_len(up@, n as int) >= 0,
                    spec_total_len(down@, n as int) >= 0,
                    forall|v: int|
                        0 <= v < n ==> (#[trigger] up@[v])@ == spec_filed(up_filing, v, done as int),
                    forall|v: int|
                        0 <= v < n ==> (#[trigger] down@[v])@ == spec_filed(down_filing, v, done as int),
                    forall|v: int, i: int|
                        0 <= v < n && 0 <= i < up@[v].len() ==> (#[trigger] up@[v][i]).node < n,
                    forall|v: int, i: int|
                        0 <= v < n && 0 <= i < down@[v].len() ==> (#[trigger] down@[v][i]).node < n,
                decreases end - done,
            {
                let neighbor = self.head[done];
                let weight = self.weight[done];
                proof {
                    lemma_tail_unique(self.first_out@, self.head.len() as int, done as int, node as int);
                }
                let ghost up_before = up@;
                let ghost down_before = down@;
                if node_ranks[node] < node_ranks[neighbor as usize] {
                    let link = Link { node: neighbor, weight };
                    proof {
                        assert(up_filing(done as int) == Some((node as int, link)));
                        assert(down_filing(done as int).is_none());
                    }
                    file_link(&mut up, node, link);
                    proof {
                        assert forall|v: int, i: int|
                            0 <= v < n && 0 <= i < up@[v].len() implies (#[trigger] up@[v][i]).node
                            < n by {
                            if v == node && i == up_before[v].len() {
                            } else {
                                assert(up_before[v][i].node < n);
                            }
                        }
                    }
                } else {
                    let link = Link { node: node as NodeId, weight };
                    proof {
                        assert(down_filing(done as int) == Some((neighbor as int, link)));
                        assert(up_filing(done as int).is_none());
                    }
                    file_link(&mut down, neighbor as usize, link);
                    proof {
                        assert forall|v: int, i: int|
                            0 <= v < n && 0 <= i < down@[v].len() implies (#[trigger] down@[v][i]).node
                            < n by {
                            if v == neighbor && i == down_before[v].len() {
                            } else {
                                assert(down_before[v][i].node < n);
                            }
                        }
                    }
                }
                proof {
                    assert forall|v: int| 0 <= v < n implies (#[trigger] up@[v])@ == spec_filed(
                        up_filing,
                        v,
                        done as int + 1,
                    ) by {
                        assert(up_before[v]@ == spec_filed(up_filing, v, done as int));
                    }
                    assert forall|v: int| 0 <= v < n implies (#[trigger] down@[v])@ == spec_filed(
                        down_filing,
                        v,
                        done as int + 1,
                    ) by {
                        assert(down_before[v]@ == spec_filed(down_filing, v, done as int));
                    }
                    lemma_total_len_monotone(up@, 0, n as int);
                    lemma_total_len_monotone(down@, 0, n as int);
                }
                done += 1;
            }
            node += 1;
        }
        (from_adjancecy_lists(up), from_adjancecy_lists(down))
    }
}

} // verus!
