//! The arrays in which a compact hierarchy is kept between runs, and how
//! it is put together from them again.
use vstd::prelude::*;
use crate::datastr::rank_select_map::BitVec;
use crate::graph::customized::{CustomizedGraph, CustomizedSingleDirGraph, DirArrays};
use crate::graph::first_out_graph::{lemma_tail_unique, spec_tail, spec_valid_topology, valid_topology};
use crate::graph::shortcut::{
    spec_times_ok, spec_unpacked_sources, ShortcutModel, ShortcutSource, ShortcutSourceData,
};
use crate::graph::td_graph::Graph as TDGraph;
use crate::types::{EdgeId, NodeId, RoutingError, Timestamp, Weight, INFINITY, PERIOD};

verus! {

/// The arrays of one direction as they are kept.
pub struct StoredDirection {
    pub first_out: Vec<EdgeId>,
    pub head: Vec<NodeId>,
    pub bounds: Vec<(Weight, Weight)>,
    pub constant: BitVec,
    pub first_source: Vec<u32>,
    pub sources: Vec<(Timestamp, ShortcutSourceData)>,
}

/// The tail of every one of `m` arcs.
pub open spec fn spec_tails(first_out: Seq<EdgeId>, m: int) -> Seq<NodeId> {
    Seq::new(m as nat, |e: int| spec_tail(first_out, e) as NodeId)
}

/// Offsets as indices.
pub open spec fn spec_widened(offsets: Seq<u32>) -> Seq<usize> {
    Seq::new(offsets.len(), |i: int| offsets[i] as usize)
}

impl StoredDirection {
    /// The arrays of the direction that is put together from these: the
    /// tails are found from the offsets of the nodes.
    pub open spec fn arrays(&self) -> DirArrays {
        DirArrays {
            first_out: self.first_out@,
            head: self.head@,
            tail: spec_tails(self.first_out@, self.head@.len() as int),
            bounds: self.bounds@,
            constant: self.constant@,
            first_source: spec_widened(self.first_source@),
            sources: self.sources@,
        }
    }
}

/// Whether a hierarchy can be put together from the arrays of its two
/// directions: both fit together and speak of the same nodes, every source
/// names an original arc or arcs with a lower tail, and no arc that is
/// marked as constant has a lower bound above `INFINITY`.
pub open spec fn spec_loadable(original: TDGraph, outgoing: DirArrays, incoming: DirArrays) -> bool {
    let model = ShortcutModel {
        original: original.spec_plfs(),
        outgoing: outgoing.arc_models(),
        incoming: incoming.arc_models(),
    };
    &&& outgoing.ok()
    &&& incoming.ok()
    &&& outgoing.num_nodes() == incoming.num_nodes()
    &&& model.wf()
    &&& model.constants_in_range()
}

/// Moments that grow from one to the next grow all along.
proof fn lemma_times_pairwise(sources: Seq<(Timestamp, ShortcutSource)>, i: int, j: int)
    requires
        forall|k: int| 0 <= k < sources.len() - 1 ==> (#[trigger] sources[k]).0 < sources[k + 1].0,
        0 <= i < j < sources.len(),
    ensures
        sources[i].0 < sources[j].0,
    decreases j - i,
{
    if i + 1 < j {
        lemma_times_pairwise(sources, i, j - 1);
    }
    assert(sources[j - 1].0 < sources[j - 1 + 1].0);
}

/// Checks that the moments of sources divide one period.
fn times_ok(sources: &[(Timestamp, ShortcutSourceData)]) -> (ok: bool)
    ensures
        ok == spec_times_ok(spec_unpacked_sources(sources@)),
{
    let n = sources.len();
    let ghost unpacked = spec_unpacked_sources(sources@);
    if n == 0 {
        return true;
    }
    if sources[0].0 != 0 {
        assert(unpacked[0].0 != 0);
        return false;
    }
    let mut i: usize = 0;
    while i < n
        invariant
            i <= n,
            n == sources@.len(),
            unpacked == spec_unpacked_sources(sources@),
            forall|k: int| 0 <= k < i ==> (#[trigger] unpacked[k]).0 < PERIOD,
            forall|k: int| 0 <= k < i && k + 1 < n ==> (#[trigger] unpacked[k]).0 < unpacked[k + 1].0,
        decreases n - i,
    {
        if sources[i].0 >= PERIOD {
            assert(unpacked[i as int].0 >= PERIOD);
            return false;
        }
        if i + 1 < n && sources[i].0 >= sources[i + 1].0 {
            assert(unpacked[i as int].0 >= unpacked[i as int + 1].0);
            return false;
        }
        i += 1;
    }
    proof {
        assert forall|a: int, b: int| 0 <= a < b < unpacked.len() implies (#[trigger] unpacked[a]).0 < (
        #[trigger] unpacked[b]).0 by {
            lemma_times_pairwise(unpacked, a, b);
        }
    }
    true
}

/// Whether `source` may stand in an arc with tail `level`, where the
/// downward arcs have the tails `tail_in`, the upward arcs the tails
/// `tail_out`, and there are `originals` original arcs.
pub open spec fn spec_source_fits(
    source: ShortcutSource,
    level: int,
    tail_in: Seq<NodeId>,
    tail_out: Seq<NodeId>,
    originals: int,
) -> bool {
    match source {
        ShortcutSource::NoSource => true,
        ShortcutSource::OriginalEdge(edge) => edge < originals,
        ShortcutSource::Shortcut(down, up) => down < tail_in.len() && up < tail_out.len()
            && tail_in[down as int] < level && tail_out[up as int] < level,
    }
}

/// Checks that every one of `sources` may stand in an arc with tail `level`.
fn sources_fit(
    sources: &[(Timestamp, ShortcutSourceData)],
    level: NodeId,
    tail_in: &Vec<NodeId>,
    tail_out: &Vec<NodeId>,
    originals: usize,
) -> (ok: bool)
    ensures
        ok == forall|i: int|
            0 <= i < sources@.len() ==> spec_source_fits(
                (#[trigger] sources@[i]).1@,
                level as int,
                tail_in@,
                tail_out@,
                originals as int,
            ),
{
    let mut i: usize = 0;
    while i < sources.len()
        invariant
            i <= sources@.len(),
            forall|k: int|
                0 <= k < i ==> spec_source_fits(
                    (#[trigger] sources@[k]).1@,
                    level as int,
                    tail_in@,
                    tail_out@,
                    originals as int,
                ),
        decreases sources@.len() - i,
    {
        let fits = match sources[i].1.source() {
            ShortcutSource::NoSource => true,
            ShortcutSource::OriginalEdge(edge) => (edge as usize) < originals,
            ShortcutSource::Shortcut(down, up) => (down as usize) < tail_in.len() && (up as usize)
                < tail_out.len() && tail_in[down as usize] < level && tail_out[up as usize] < level,
        };
        if !fits {
            return false;
        }
        i += 1;
    }
    true
}

/// The tail of every arc.
fn tails_of(first_out: &Vec<EdgeId>, head: &Vec<NodeId>) -> (tail: Vec<NodeId>)
    requires
        spec_valid_topology(first_out@, head@),
    ensures
        tail@ == spec_tails(first_out@, head@.len() as int),
        forall|e: int|
            0 <= e < tail@.len() ==> (#[trigger] tail@[e]) < first_out@.len() - 1 && first_out@[tail@[e] as int]
                <= e < first_out@[tail@[e] + 1],
{
    let n = first_out.len() - 1;
    let mut tail: Vec<NodeId> = Vec::new();
    let mut node: usize = 0;
    while node < n
        invariant
            node <= n,
            n == first_out@.len() - 1,
            spec_valid_topology(first_out@, head@),
            tail@.len() == first_out@[node as int],
            forall|e: int|
                0 <= e < tail@.len() ==> (#[trigger] tail@[e]) < node && first_out@[tail@[e] as int] <= e
                    < first_out@[tail@[e] + 1],
        decreases n - node,
    {
        let end = first_out[node + 1] as usize;
        proof {
            assert(first_out@[node as int] <= first_out@[node as int + 1]);
        }
        while tail.len() < end
            invariant
                node < n,
                n == first_out@.len() - 1,
                n < u32::MAX,
                end == first_out@[node as int + 1],
                first_out@[node as int] <= tail@.len() <= end,
                forall|e: int|
                    0 <= e < tail@.len() ==> (#[trigger] tail@[e]) <= node && first_out@[tail@[e] as int]
                        <= e < first_out@[tail@[e] + 1],
            decreases end - tail@.len(),
        {
            tail.push(node as NodeId);
        }
        node += 1;
    }
    proof {
        assert forall|e: int| 0 <= e < tail@.len() implies tail@[e] == spec_tails(
            first_out@,
            head@.len() as int,
        )[e] by {
            lemma_tail_unique(first_out@, head@.len() as int, e, tail@[e] as int);
        }
        assert(tail@ =~= spec_tails(first_out@, head@.len() as int));
    }
    tail
}

/// The arrays of one direction with the tails found, as far as they fit together.
fn load_direction(stored: StoredDirection) -> (r: Option<CustomizedSingleDirGraph>)
    requires
        stored.constant.wf(),
    ensures
        r.is_some() == stored.arrays().ok(),
        r matches Some(dir) ==> dir.arrays_ok() && dir.arrays() == stored.arrays(),
{
    let ghost arrays = stored.arrays();
    let StoredDirection { first_out, head, bounds, constant, first_source, sources } = stored;
    let m = head.len();
    if !valid_topology(&first_out, &head) || bounds.len() != m || constant.len() != m {
        return None;
    }
    if first_source.len() == 0 || first_source.len() - 1 != m || first_source[0] != 0
        || first_source[m] as usize != sources.len() {
        proof {
            if first_source@.len() > 0 && first_source@.len() - 1 == m {
                assert(arrays.first_source[0] == first_source@[0] as usize);
                assert(arrays.first_source[m as int] == first_source@[m as int] as usize);
            }
        }
        return None;
    }
    let mut widened: Vec<usize> = Vec::new();
    let mut i: usize = 0;
    while i <= m
        invariant
            i <= m + 1,
            first_source@.len() == m + 1,
            widened@.len() == i,
            arrays == stored.arrays(),
            arrays.first_source == spec_widened(first_source@),
            arrays.sources == sources@,
            arrays.head.len() == m,
            forall|k: int| 0 <= k < i ==> #[trigger] widened@[k] == first_source@[k] as usize,
            forall|k: int|
                0 <= k < i && k < m ==> (#[trigger] first_source@[k]) <= first_source@[k + 1] <= sources@.len(),
        decreases m + 1 - i,
    {
        if i < m && (first_source[i] > first_source[i + 1] || first_source[i + 1] as usize
            > sources.len()) {
            proof {
                assert(arrays.first_source[i as int] == first_source@[i as int] as usize);
                assert(arrays.first_source[i as int + 1] == first_source@[i as int + 1] as usize);
            }
            return None;
        }
        widened.push(first_source[i] as usize);
        i += 1;
    }
    assert(widened@ =~= spec_widened(first_source@));
    let tail = tails_of(&first_out, &head);
    let mut e: usize = 0;
    while e < m
        invariant
            e <= m,
            m == head@.len(),
            tail@.len() == m,
            arrays == stored.arrays(),
            arrays.tail == tail@,
            arrays.head == head@,
            forall|k: int| 0 <= k < e ==> (#[trigger] tail@[k]) < head@[k],
        decreases m - e,
    {
        if tail[e] >= head[e] {
            assert(!(arrays.tail[e as int] < arrays.head[e as int]));
            return None;
        }
        e += 1;
    }
    proof {
        assert forall|k: int| 0 <= k < m implies (#[trigger] arrays.first_source[k])
            <= arrays.first_source[k + 1] <= sources@.len() by {
            assert(first_source@[k] <= first_source@[k + 1]);
        }
    }
    let dir = CustomizedSingleDirGraph::from_parts(
        first_out,
        head,
        tail,
        bounds,
        constant,
        widened,
        sources,
    );
    assert(dir.arrays() == arrays);
    Some(dir)
}

/// Checks every arc of one direction: the moments of its sources, what
/// its sources name, and the lower bound if it is marked as constant.
fn arcs_ok(
    dir: &CustomizedSingleDirGraph,
    tail_in: &Vec<NodeId>,
    tail_out: &Vec<NodeId>,
    originals: usize,
) -> (ok: bool)
    requires
        dir.arrays_ok(),
    ensures
        ok == forall|e: int|
            0 <= e < dir.spec_num_arcs() ==> spec_arc_fits(
                dir.arrays(),
                #[trigger] dir.spec_tail()[e],
                e,
                tail_in@,
                tail_out@,
                originals as int,
            ),
{
    let m = dir.head().len();
    let mut e: usize = 0;
    while e < m
        invariant
            e <= m,
            m == dir.spec_num_arcs(),
            dir.arrays_ok(),
            forall|k: int|
                0 <= k < e ==> spec_arc_fits(
                    dir.arrays(),
                    #[trigger] dir.spec_tail()[k],
                    k,
                    tail_in@,
                    tail_out@,
                    originals as int,
                ),
        decreases m - e,
    {
        let sources = dir.edge_sources(e);
        let level = dir.tail()[e];
        if !times_ok(sources) || !sources_fit(sources, level, tail_in, tail_out, originals) {
            return false;
        }
        if dir.is_constant(e) && dir.lower_bound(e) > INFINITY {
            return false;
        }
        e += 1;
    }
    true
}

/// Whether arc `e`, with tail `level`, is in order: the moments of its
/// sources divide the period, its sources fit, and its lower bound is at
/// most `INFINITY` if it is marked as constant.
pub open spec fn spec_arc_fits(
    dir: DirArrays,
    level: NodeId,
    e: int,
    tail_in: Seq<NodeId>,
    tail_out: Seq<NodeId>,
    originals: int,
) -> bool {
    &&& spec_times_ok(spec_unpacked_sources(dir.edge_sources(e)))
    &&& forall|i: int|
        0 <= i < dir.edge_sources(e).len() ==> spec_source_fits(
            (#[trigger] dir.edge_sources(e)[i]).1@,
            level as int,
            tail_in,
            tail_out,
            originals,
        )
    &&& dir.constant[e] ==> dir.bounds[e].0 <= INFINITY
}

/// Arcs that are in order one by one make a hierarchy that is in order, and the other way round.
proof fn lemma_arcs_fit(original: TDGraph, outgoing: DirArrays, incoming: DirArrays)
    requires
        original.wf(),
        outgoing.ok(),
        incoming.ok(),
    ensures
        ({
            let model = ShortcutModel {
                original: original.spec_plfs(),
                outgoing: outgoing.arc_models(),
                incoming: incoming.arc_models(),
            };
            (model.wf() && model.constants_in_range()) <==> ((forall|e: int|
                0 <= e < outgoing.num_arcs() ==> spec_arc_fits(
                    outgoing,
                    #[trigger] outgoing.tail[e],
                    e,
                    incoming.tail,
                    outgoing.tail,
                    original.spec_num_arcs(),
                )) && (forall|e: int|
                0 <= e < incoming.num_arcs() ==> spec_arc_fits(
                    incoming,
                    #[trigger] incoming.tail[e],
                    e,
                    incoming.tail,
                    outgoing.tail,
                    original.spec_num_arcs(),
                )))
        }),
{
    let model = ShortcutModel {
        original: original.spec_plfs(),
        outgoing: outgoing.arc_models(),
        incoming: incoming.arc_models(),
    };
    original.lemma_wf();
    let fits = (forall|e: int|
        0 <= e < outgoing.num_arcs() ==> spec_arc_fits(
            outgoing,
            #[trigger] outgoing.tail[e],
            e,
            incoming.tail,
            outgoing.tail,
            original.spec_num_arcs(),
        )) && (forall|e: int|
        0 <= e < incoming.num_arcs() ==> spec_arc_fits(
            incoming,
            #[trigger] incoming.tail[e],
            e,
            incoming.tail,
            outgoing.tail,
            original.spec_num_arcs(),
        ));
    if fits {
        assert forall|e: int| 0 <= e < model.outgoing.len() implies model.arc_ok(
            #[trigger] model.outgoing[e],
        ) by {
            lemma_arc_fits(original, outgoing, incoming, true, outgoing, e);
        }
        assert forall|e: int| 0 <= e < model.incoming.len() implies model.arc_ok(
            #[trigger] model.incoming[e],
        ) by {
            lemma_arc_fits(original, outgoing, incoming, false, incoming, e);
        }
        assert forall|e: int|
            0 <= e < model.outgoing.len() && (#[trigger] model.outgoing[e]).constant implies 0
            <= model.outgoing[e].lower <= INFINITY by {
            assert(spec_arc_fits(
                outgoing,
                outgoing.tail[e],
                e,
                incoming.tail,
                outgoing.tail,
                original.spec_num_arcs(),
            ));
        }
        assert forall|e: int|
            0 <= e < model.incoming.len() && (#[trigger] model.incoming[e]).constant implies 0
            <= model.incoming[e].lower <= INFINITY by {
            assert(spec_arc_fits(
                incoming,
                incoming.tail[e],
                e,
                incoming.tail,
                outgoing.tail,
                original.spec_num_arcs(),
            ));
        }
    }
    if model.wf() && model.constants_in_range() {
        assert forall|e: int| 0 <= e < outgoing.num_arcs() implies spec_arc_fits(
            outgoing,
            #[trigger] outgoing.tail[e],
            e,
            incoming.tail,
            outgoing.tail,
            original.spec_num_arcs(),
        ) by {
            assert(model.arc_ok(model.outgoing[e]));
            assert(model.outgoing[e].constant ==> model.outgoing[e].lower <= INFINITY);
            lemma_arc_fits(original, outgoing, incoming, true, outgoing, e);
        }
        assert forall|e: int| 0 <= e < incoming.num_arcs() implies spec_arc_fits(
            incoming,
            #[trigger] incoming.tail[e],
            e,
            incoming.tail,
            outgoing.tail,
            original.spec_num_arcs(),
        ) by {
            assert(model.arc_ok(model.incoming[e]));
            assert(model.incoming[e].constant ==> model.incoming[e].lower <= INFINITY);
            lemma_arc_fits(original, outgoing, incoming, false, incoming, e);
        }
    }
}

/// For one arc: it is in order for the cost functions where its moments
/// and sources fit, and the other way round.
proof fn lemma_arc_fits(
    original: TDGraph,
    outgoing: DirArrays,
    incoming: DirArrays,
    up: bool,
    dir: DirArrays,
    e: int,
)
    requires
        outgoing.tail.len() == outgoing.num_arcs(),
        incoming.tail.len() == incoming.num_arcs(),
        dir == (if up {
            outgoing
        } else {
            incoming
        }),
        0 <= e < dir.num_arcs(),
    ensures
        ({
            let model = ShortcutModel {
                original: original.spec_plfs(),
                outgoing: outgoing.arc_models(),
                incoming: incoming.arc_models(),
            };
            model.arc_ok(model.arcs(up)[e]) <==> (spec_times_ok(
                spec_unpacked_sources(dir.edge_sources(e)),
            ) && forall|i: int|
                0 <= i < dir.edge_sources(e).len() ==> spec_source_fits(
                    (#[trigger] dir.edge_sources(e)[i]).1@,
                    dir.tail[e] as int,
                    incoming.tail,
                    outgoing.tail,
                    original.spec_num_arcs(),
                ))
        }),
{
    let model = ShortcutModel {
        original: original.spec_plfs(),
        outgoing: outgoing.arc_models(),
        incoming: incoming.arc_models(),
    };
    let arc = model.arcs(up)[e];
    let data = dir.edge_sources(e);
    assert(arc.sources == spec_unpacked_sources(data));
    assert(arc.level == dir.tail[e]);
    assert(model.original.len() == original.spec_num_arcs());
    assert(model.incoming.len() == incoming.tail.len());
    assert(model.outgoing.len() == outgoing.tail.len());
    assert forall|i: int| 0 <= i < data.len() implies (model.source_ok(
        (#[trigger] arc.sources[i]).1,
        arc.level,
    ) <==> spec_source_fits(
        data[i].1@,
        dir.tail[e] as int,
        incoming.tail,
        outgoing.tail,
        original.spec_num_arcs(),
    )) by {
        assert(arc.sources[i].1 == data[i].1@);
        match data[i].1@ {
            ShortcutSource::Shortcut(down, up_arc) => {
                if down < incoming.tail.len() && up_arc < outgoing.tail.len() {
                    assert(model.incoming[down as int].level == incoming.tail[down as int]);
                    assert(model.outgoing[up_arc as int].level == outgoing.tail[up_arc as int]);
                }
            },
            _ => {},
        }
    }
    let fits = forall|i: int|
        0 <= i < data.len() ==> spec_source_fits(
            (#[trigger] data[i]).1@,
            dir.tail[e] as int,
            incoming.tail,
            outgoing.tail,
            original.spec_num_arcs(),
        );
    if model.arc_ok(arc) {
        assert forall|i: int| 0 <= i < data.len() implies spec_source_fits(
            (#[trigger] data[i]).1@,
            dir.tail[e] as int,
            incoming.tail,
            outgoing.tail,
            original.spec_num_arcs(),
        ) by {
            assert(model.source_ok(arc.sources[i].1, arc.level));
        }
        assert(fits);
    }
    if spec_times_ok(spec_unpacked_sources(data)) && fits {
        assert forall|i: int| 0 <= i < arc.sources.len() implies model.source_ok(
            (#[trigger] arc.sources[i]).1,
            arc.level,
        ) by {
            assert(spec_source_fits(
                data[i].1@,
                dir.tail[e] as int,
                incoming.tail,
                outgoing.tail,
                original.spec_num_arcs(),
            ));
        }
        assert(model.arc_ok(arc));
    }
}

/// What is needed besides the kept arrays to put a hierarchy together
/// again: the original graph and the topology before compaction.
#[derive(Debug)]
pub struct CustomizedGraphReconstrctor<'a> {
    pub original_graph: &'a TDGraph,
    pub first_out: &'a [EdgeId],
    pub head: &'a [NodeId],
}

impl<'a> CustomizedGraphReconstrctor<'a> {
    /// Puts a hierarchy together from the kept arrays of its two
    /// directions.  Arrays from which no hierarchy in order can be put
    /// together are malformed input.
    pub fn reconstruct_with(self, outgoing: StoredDirection, incoming: StoredDirection) -> (r: Result<
        CustomizedGraph<'a>,
        RoutingError,
    >)
        requires
            self.original_graph.wf(),
            outgoing.constant.wf(),
            incoming.constant.wf(),
        ensures
            r.is_ok() == spec_loadable(*self.original_graph, outgoing.arrays(), incoming.arrays()),
            r matches Err(error) ==> error == RoutingError::MalformedInput,
            r matches Ok(graph) ==> graph.wf() && graph.spec_original() == *self.original_graph
                && graph.spec_first_out() == self.first_out@ && graph.spec_head() == self.head@
                && graph.spec_dir(true).arrays() == outgoing.arrays() && graph.spec_dir(false).arrays()
                == incoming.arrays(),
    {
        let ghost out_arrays = outgoing.arrays();
        let ghost in_arrays = incoming.arrays();
        let out = match load_direction(outgoing) {
            Some(dir) => dir,
            None => {
                return Err(RoutingError::MalformedInput);
            },
        };
        let inc = match load_direction(incoming) {
            Some(dir) => dir,
            None => {
                return Err(RoutingError::MalformedInput);
            },
        };
        if out.first_out().len() != inc.first_out().len() {
            return Err(RoutingError::MalformedInput);
        }
        let originals = self.original_graph.num_arcs();
        proof {
            lemma_arcs_fit(*self.original_graph, out_arrays, in_arrays);
        }
        let mut tail_in: Vec<NodeId> = Vec::new();
        let mut tail_out: Vec<NodeId> = Vec::new();
        copy_into(inc.tail(), &mut tail_in);
        copy_into(out.tail(), &mut tail_out);
        if !arcs_ok(&out, &tail_in, &tail_out, originals) || !arcs_ok(
            &inc,
            &tail_in,
            &tail_out,
            originals,
        ) {
            return Err(RoutingError::MalformedInput);
        }
        let graph = CustomizedGraph::from_parts(self.original_graph, self.first_out, self.head, out, inc);
        proof {
            reveal(CustomizedGraph::wf);
        }
        Ok(graph)
    }
}

/// Copies a slice into an empty vector.
fn copy_into(from: &[NodeId], to: &mut Vec<NodeId>)
    requires
        old(to)@.len() == 0,
    ensures
        final(to)@ == from@,
{
    let mut i: usize = 0;
    while i < from.len()
        invariant
            i <= from@.len(),
            to@ == from@.take(i as int),
        decreases from@.len() - i,
    {
        to.push(from[i]);
        proof {
            assert(to@ =~= from@.take(i as int + 1));
        }
        i += 1;
    }
    proof {
        assert(from@.take(from@.len() as int) =~= from@);
    }
}

/// The arrays of one direction as they are kept; nothing where there are
/// more sources than an offset of 32 bits can count.
fn store_direction(dir: &CustomizedSingleDirGraph) -> (r: Option<StoredDirection>)
    requires
        dir.arrays_ok(),
    ensures
        r.is_some() == (dir.spec_sources().len() <= u32::MAX),
        r matches Some(stored) ==> stored.arrays() == dir.arrays() && stored.constant.wf(),
{
    let sources = dir.sources();
    if sources.len() > u32::MAX as usize {
        return None;
    }
    let first_source = dir.first_source();
    let m = dir.head().len();
    let mut narrowed: Vec<u32> = Vec::new();
    let mut constant = BitVec::new(m);
    let mut i: usize = 0;
    while i < first_source.len()
        invariant
            i <= first_source@.len(),
            first_source@ == dir.spec_first_source(),
            sources@ == dir.spec_sources(),
            sources@.len() <= u32::MAX,
            m == dir.spec_num_arcs(),
            dir.arrays_ok(),
            narrowed@.len() == i,
            forall|k: int| 0 <= k < i ==> (#[trigger] narrowed@[k]) as usize == first_source@[k],
        decreases first_source@.len() - i,
    {
        proof {
            if i < m {
                assert(first_source@[i as int] <= first_source@[i as int + 1] <= sources@.len());
            }
        }
        narrowed.push(first_source[i] as u32);
        i += 1;
    }
    let mut e: usize = 0;
    while e < m
        invariant
            e <= m,
            m == dir.spec_num_arcs(),
            dir.arrays_ok(),
            constant.wf(),
            constant@.len() == m,
            forall|k: int| 0 <= k < e ==> constant@[k] == dir.spec_constant()[k],
            forall|k: int| e <= k < m ==> !constant@[k],
        decreases m - e,
    {
        if dir.is_constant(e) {
            constant.set(e);
        }
        e += 1;
    }
    let stored = StoredDirection {
        first_out: vstd::slice::slice_to_vec(dir.first_out()),
        head: vstd::slice::slice_to_vec(dir.head()),
        bounds: vstd::slice::slice_to_vec(dir.bounds()),
        constant,
        first_source: narrowed,
        sources: vstd::slice::slice_to_vec(sources),
    };
    proof {
        let arrays = dir.arrays();
        assert(stored.arrays().constant =~= arrays.constant);
        assert(stored.arrays().first_source =~= arrays.first_source);
        assert forall|k: int| 0 <= k < arrays.tail.len() implies stored.arrays().tail[k]
            == arrays.tail[k] by {
            assert(arrays.tail[k] < arrays.num_nodes());
            lemma_tail_unique(arrays.first_out, arrays.head.len() as int, k, arrays.tail[k] as int);
        }
        assert(stored.arrays().tail =~= arrays.tail);
    }
    Some(stored)
}

impl<'a> CustomizedGraph<'a> {
    /// The arrays to keep: those of the upward arcs, then those of the
    /// downward arcs.  Nothing where one direction has more sources than
    /// an offset of 32 bits can count.
    pub fn deconstruct(&self) -> (r: Option<(StoredDirection, StoredDirection)>)
        requires
            self.wf(),
        ensures
            r.is_some() == (self.spec_dir(true).spec_sources().len() <= u32::MAX && self.spec_dir(
                false,
            ).spec_sources().len() <= u32::MAX),
            r matches Some((outgoing, incoming)) ==> outgoing.arrays() == self.spec_dir(true).arrays()
                && incoming.arrays() == self.spec_dir(false).arrays() && outgoing.constant.wf()
                && incoming.constant.wf(),
    {
        proof {
            self.lemma_nodes();
        }
        let outgoing = match store_direction(self.dir(true)) {
            Some(stored) => stored,
            None => {
                return None;
            },
        };
        let incoming = match store_direction(self.dir(false)) {
            Some(stored) => stored,
            None => {
                return None;
            },
        };
        Some((outgoing, incoming))
    }

    /// Round trip of keeping: from the arrays that a hierarchy in order
    /// gives out to be kept, a hierarchy can be put together, and it has
    /// the arrays of the first, hence gives every arc the same cost at
    /// every moment.
    pub proof fn lemma_round_trip(&self, outgoing: StoredDirection, incoming: StoredDirection)
        requires
            self.wf(),
            outgoing.arrays() == self.spec_dir(true).arrays(),
            incoming.arrays() == self.spec_dir(false).arrays(),
        ensures
            spec_loadable(self.spec_original(), outgoing.arrays(), incoming.arrays()),
            (ShortcutModel {
                original: self.spec_original().spec_plfs(),
                outgoing: outgoing.arrays().arc_models(),
                incoming: incoming.arrays().arc_models(),
            }) == self.model(),
    {
        reveal(CustomizedGraph::wf);
    }
}

} // verus!
