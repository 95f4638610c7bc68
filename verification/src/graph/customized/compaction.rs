//! From the shortcuts of a weighted hierarchy to the compact graph: only the
//! arcs that some shortest path needs are kept, and renumbered.
use vstd::prelude::*;
use crate::datastr::rank_select_map::{
    lemma_rank_bounded, lemma_rank_monotone, spec_rank, BitVec, RankSelectMap,
};
use crate::graph::customized::{CustomizedGraph, CustomizedSingleDirGraph, DirArrays};
use crate::graph::first_out_graph::{
    lemma_offsets_monotone, lemma_tail_unique, spec_tail, spec_valid_topology,
};
use crate::graph::shortcut::{spec_source_index, spec_times_ok, spec_unpacked_sources, ArcModel, ShortcutModel, ShortcutSource, ShortcutSourceData, Sources};
use crate::graph::shortcut_graph::{PartialShortcutGraph, Shortcut};
use crate::graph::td_graph::Graph as TDGraph;
use crate::types::{EdgeId, NodeId, Timestamp, Weight, INFINITY};

verus! {

/// Which shortcuts are needed.
pub open spec fn spec_required(shortcuts: Seq<Shortcut>) -> Seq<bool> {
    Seq::new(shortcuts.len(), |e: int| shortcuts[e].required)
}

/// A source after renumbering: the arcs of a triangle get their ranks among the needed arcs.
pub open spec fn spec_remap_source(
    source: ShortcutSource,
    required_in: Seq<bool>,
    required_out: Seq<bool>,
) -> ShortcutSource {
    match source {
        ShortcutSource::Shortcut(down, up) => ShortcutSource::Shortcut(
            spec_rank(required_in, down as int) as EdgeId,
            spec_rank(required_out, up as int) as EdgeId,
        ),
        other => other,
    }
}

/// The sources of a shortcut after renumbering.
pub open spec fn spec_remap(sources: Sources, required_in: Seq<bool>, required_out: Seq<bool>) -> Sources {
    Seq::new(
        sources.len(),
        |i: int| (sources[i].0, spec_remap_source(sources[i].1, required_in, required_out)),
    )
}

/// The shortcuts of one direction as the cost functions see them before
/// they are renumbered: the level of an arc is its tail in the topology.
pub open spec fn spec_full_arc_models(first_out: Seq<EdgeId>, shortcuts: Seq<Shortcut>) -> Seq<ArcModel> {
    Seq::new(
        shortcuts.len(),
        |e: int|
            ArcModel {
                level: spec_tail(first_out, e),
                sources: shortcuts[e].spec_sources(),
                lower: shortcuts[e].lower_bound as int,
                upper: shortcuts[e].upper_bound as int,
                constant: shortcuts[e].lower_bound == shortcuts[e].upper_bound,
            },
    )
}

/// Whether the sources of the needed shortcuts name needed shortcuts only.
pub open spec fn spec_closed(shortcuts: Seq<Shortcut>, required_in: Seq<bool>, required_out: Seq<bool>) -> bool {
    forall|e: int, i: int|
        0 <= e < shortcuts.len() && shortcuts[e].required && 0 <= i < shortcuts[e].sources@.len() ==> (
        match (#[trigger] shortcuts[e].sources@[i]).1@ {
            ShortcutSource::Shortcut(down, up) => down < required_in.len() && up < required_out.len()
                && required_in[down as int] && required_out[up as int],
            _ => true,
        })
}

/// What is handed over for compaction.
pub struct Weighted {
    pub original: TDGraph,
    pub first_out: Seq<EdgeId>,
    pub head: Seq<NodeId>,
    pub outgoing: Seq<Shortcut>,
    pub incoming: Seq<Shortcut>,
}

impl Weighted {
    /// The hierarchy as the cost functions see it before renumbering.
    pub open spec fn model(self) -> ShortcutModel {
        ShortcutModel {
            original: self.original.spec_plfs(),
            outgoing: spec_full_arc_models(self.first_out, self.outgoing),
            incoming: spec_full_arc_models(self.first_out, self.incoming),
        }
    }

    /// Whether the hierarchy can be compacted: a topology whose arcs all lead
    /// to a higher node, one shortcut of each direction per arc, sources
    /// that name original arcs or shortcuts with a lower tail, needed
    /// shortcuts that rest on needed shortcuts only, and no lower bound above `INFINITY`.
    pub open spec fn ok(self) -> bool {
        &&& self.original.wf()
        &&& spec_valid_topology(self.first_out, self.head)
        &&& self.outgoing.len() == self.head.len()
        &&& self.incoming.len() == self.head.len()
        &&& forall|e: int|
            0 <= e < self.head.len() ==> spec_tail(self.first_out, e) < #[trigger] self.head[e]
        &&& self.model().wf()
        &&& spec_closed(self.outgoing, spec_required(self.incoming), spec_required(self.outgoing))
        &&& spec_closed(self.incoming, spec_required(self.incoming), spec_required(self.outgoing))
        &&& forall|e: int|
            0 <= e < self.head.len() ==> (#[trigger] self.outgoing[e]).lower_bound <= INFINITY
        &&& forall|e: int|
            0 <= e < self.head.len() ==> (#[trigger] self.incoming[e]).lower_bound <= INFINITY
    }
}

/// Whether the needed shortcut `e` stands in `dir` at its rank among the
/// needed shortcuts, with its head, tail and bounds, marked as constant if
/// its bounds agree, and with its sources renumbered.
pub open spec fn spec_kept(
    dir: DirArrays,
    first_out: Seq<EdgeId>,
    head: Seq<NodeId>,
    shortcuts: Seq<Shortcut>,
    required_in: Seq<bool>,
    required_out: Seq<bool>,
    e: int,
) -> bool {
    let k = spec_rank(spec_required(shortcuts), e) as int;
    &&& k < dir.num_arcs()
    &&& dir.head[k] == head[e]
    &&& dir.tail[k] == spec_tail(first_out, e)
    &&& dir.bounds[k] == (shortcuts[e].lower_bound, shortcuts[e].upper_bound)
    &&& dir.constant[k] == (shortcuts[e].lower_bound == shortcuts[e].upper_bound)
    &&& spec_unpacked_sources(dir.edge_sources(k)) == spec_remap(
        shortcuts[e].spec_sources(),
        required_in,
        required_out,
    )
}

/// Whether `dir` holds exactly the needed ones of `shortcuts`, in their
/// order, each as `spec_kept` says, and the arcs of every node together.
pub open spec fn spec_compacted(
    dir: DirArrays,
    first_out: Seq<EdgeId>,
    head: Seq<NodeId>,
    shortcuts: Seq<Shortcut>,
    required_in: Seq<bool>,
    required_out: Seq<bool>,
) -> bool {
    &&& dir.first_out.len() == first_out.len()
    &&& forall|v: int|
        0 <= v < first_out.len() ==> (#[trigger] dir.first_out[v]) == spec_rank(
            spec_required(shortcuts),
            first_out[v] as int,
        )
    &&& dir.num_arcs() == spec_rank(spec_required(shortcuts), shortcuts.len() as int)
    &&& forall|e: int|
        0 <= e < shortcuts.len() && (#[trigger] shortcuts[e]).required ==> spec_kept(
            dir,
            first_out,
            head,
            shortcuts,
            required_in,
            required_out,
            e,
        )
}

/// Every rank below the number of set bits is the rank of a set bit.
pub proof fn lemma_rank_select(bits: Seq<bool>, m: int, k: int)
    requires
        0 <= m <= bits.len(),
        0 <= k < spec_rank(bits, m),
    ensures
        exists|e: int| 0 <= e < m && #[trigger] bits[e] && spec_rank(bits, e) == k,
    decreases m,
{
    if m > 0 {
        if k < spec_rank(bits, m - 1) {
            lemma_rank_select(bits, m - 1, k);
        } else {
            assert(bits[m - 1] && spec_rank(bits, m - 1) == k);
        }
    }
}

/// The marks of the needed shortcuts.
fn required_bits(shortcuts: &Vec<Shortcut>) -> (bits: BitVec)
    requires
        shortcuts@.len() <= u32::MAX,
    ensures
        bits.wf(),
        bits@ == spec_required(shortcuts@),
{
    let n = shortcuts.len();
    let mut bits = BitVec::new(n);
    let mut e: usize = 0;
    while e < n
        invariant
            e <= n,
            n == shortcuts@.len(),
            bits.wf(),
            bits@.len() == n,
            forall|j: int| 0 <= j < e ==> bits@[j] == shortcuts@[j].required,
            forall|j: int| e <= j < n ==> !bits@[j],
        decreases n - e,
    {
        if shortcuts[e].required {
            bits.set(e);
        }
        e += 1;
    }
    assert(bits@ =~= spec_required(shortcuts@));
    bits
}

/// Adds the renumbered sources of a needed shortcut to `out`.
fn remap_sources(
    sources: &Vec<(Timestamp, ShortcutSourceData)>,
    mapping_incoming: &RankSelectMap,
    mapping_outgoing: &RankSelectMap,
    out: &mut Vec<(Timestamp, ShortcutSourceData)>,
)
    requires
        mapping_incoming.wf(),
        mapping_outgoing.wf(),
        mapping_incoming.bits().len() <= u32::MAX,
        mapping_outgoing.bits().len() <= u32::MAX,
        forall|i: int|
            0 <= i < sources@.len() ==> (match (#[trigger] sources@[i]).1@ {
                ShortcutSource::Shortcut(down, up) => down < mapping_incoming.bits().len() && up
                    < mapping_outgoing.bits().len() && mapping_incoming.bits()[down as int]
                    && mapping_outgoing.bits()[up as int],
                _ => true,
            }),
    ensures
        final(out)@.len() == old(out)@.len() + sources@.len(),
        final(out)@.take(old(out)@.len() as int) == old(out)@,
        spec_unpacked_sources(final(out)@.skip(old(out)@.len() as int)) == spec_remap(
            spec_unpacked_sources(sources@),
            mapping_incoming.bits(),
            mapping_outgoing.bits(),
        ),
{
    let n = sources.len();
    let start = out.len();
    let ghost wanted = spec_remap(
        spec_unpacked_sources(sources@),
        mapping_incoming.bits(),
        mapping_outgoing.bits(),
    );
    let mut i: usize = 0;
    while i < n
        invariant
            i <= n,
            n == sources@.len(),
            mapping_incoming.wf(),
            mapping_outgoing.wf(),
            mapping_incoming.bits().len() <= u32::MAX,
            mapping_outgoing.bits().len() <= u32::MAX,
            forall|i: int|
                0 <= i < sources@.len() ==> (match (#[trigger] sources@[i]).1@ {
                    ShortcutSource::Shortcut(down, up) => down < mapping_incoming.bits().len() && up
                        < mapping_outgoing.bits().len() && mapping_incoming.bits()[down as int]
                        && mapping_outgoing.bits()[up as int],
                    _ => true,
                }),
            wanted == spec_remap(
                spec_unpacked_sources(sources@),
                mapping_incoming.bits(),
                mapping_outgoing.bits(),
            ),
            out@.len() == start + i,
            out@.take(start as int) == old(out)@,
            forall|j: int| 0 <= j < i ==> (#[trigger] out@[start + j]).0 == wanted[j].0 && out@[start + j].1@ == wanted[j].1,
        decreases n - i,
    {
        let (at, data) = sources[i];
        let ghost before = out@;
        assert(sources@[i as int].1@ == data@);
        let mapped = match data.source() {
            ShortcutSource::Shortcut(down, up) => {
                proof {
                    lemma_rank_monotone(mapping_incoming.bits(), down as int, mapping_incoming.bits().len() as int);
                    lemma_rank_bounded(mapping_incoming.bits(), mapping_incoming.bits().len() as int);
                    lemma_rank_monotone(mapping_outgoing.bits(), up as int, mapping_outgoing.bits().len() as int);
                    lemma_rank_bounded(mapping_outgoing.bits(), mapping_outgoing.bits().len() as int);
                }
                let new_down = mapping_incoming.rank(down as usize);
                let new_up = mapping_outgoing.rank(up as usize);
                ShortcutSourceData::from_source(
                    ShortcutSource::Shortcut(new_down as EdgeId, new_up as EdgeId),
                )
            },
            _ => data,
        };
        out.push((at, mapped));
        proof {
            assert(out@.take(start as int) =~= before.take(start as int));
            assert forall|j: int| 0 <= j < i + 1 implies (#[trigger] out@[start + j]).0 == wanted[j].0
                && out@[start + j].1@ == wanted[j].1 by {
                if j < i {
                    assert(out@[start + j] == before[start + j]);
                }
            }
        }
        i += 1;
    }
    proof {
        let got = spec_unpacked_sources(out@.skip(start as int));
        assert(got.len() == wanted.len());
        assert forall|j: int| 0 <= j < got.len() implies got[j] == wanted[j] by {
            assert(out@.skip(start as int)[j] == out@[start + j]);
        }
        assert(got =~= wanted);
    }
}

/// The arrays of one direction while they are filled.
struct Builder {
    first_out: Vec<EdgeId>,
    head: Vec<NodeId>,
    tail: Vec<NodeId>,
    bounds: Vec<(Weight, Weight)>,
    flags: Vec<bool>,
    first_source: Vec<usize>,
    sources: Vec<(Timestamp, ShortcutSourceData)>,
}

impl Builder {
    /// The arrays as values.
    spec fn arrays(&self) -> DirArrays {
        DirArrays {
            first_out: self.first_out@,
            head: self.head@,
            tail: self.tail@,
            bounds: self.bounds@,
            constant: self.flags@,
            first_source: self.first_source@,
            sources: self.sources@,
        }
    }
}

/// Whether arc `k` is filed under its tail: in the range of a finished node,
/// or under the node `v` whose arcs are being added.
spec fn spec_tail_ok(d: DirArrays, v: int, k: int) -> bool {
    if k < d.first_out[v] {
        d.tail[k] < v && d.first_out[d.tail[k] as int] <= k < d.first_out[d.tail[k] + 1]
    } else {
        d.tail[k] == v
    }
}

/// Whether the arrays fit together while the arcs of node `v` of `n` are being added.
#[verifier::opaque]
spec fn spec_structure(d: DirArrays, n: int, v: int) -> bool {
    &&& d.first_out.len() == v + 1
    &&& d.first_out[0] == 0
    &&& forall|j: int| 0 <= j < v ==> (#[trigger] d.first_out[j]) <= d.first_out[j + 1]
    &&& d.first_out[v] <= d.head.len()
    &&& d.head.len() <= u32::MAX
    &&& d.tail.len() == d.head.len()
    &&& d.bounds.len() == d.head.len()
    &&& d.constant.len() == d.head.len()
    &&& d.first_source.len() == d.head.len() + 1
    &&& d.first_source[0] == 0
    &&& d.first_source[d.head.len() as int] == d.sources.len()
    &&& forall|k: int|
        0 <= k < d.head.len() ==> (#[trigger] d.first_source[k]) <= d.first_source[k + 1]
            <= d.sources.len()
    &&& forall|k: int|
        0 <= k < d.head.len() ==> (#[trigger] d.head[k]) < n && d.tail[k] < d.head[k] && spec_tail_ok(
            d,
            v,
            k,
        )
}

/// Whether the arrays hold what the first `e` shortcuts give, and the offsets of the nodes up to `v`.
#[verifier::opaque]
spec fn spec_content(
    d: DirArrays,
    first_out: Seq<EdgeId>,
    head: Seq<NodeId>,
    shortcuts: Seq<Shortcut>,
    required_in: Seq<bool>,
    required_out: Seq<bool>,
    v: int,
    e: int,
) -> bool {
    &&& d.head.len() == spec_rank(spec_required(shortcuts), e)
    &&& forall|j: int|
        0 <= j <= v ==> (#[trigger] d.first_out[j]) == spec_rank(
            spec_required(shortcuts),
            first_out[j] as int,
        )
    &&& forall|f: int|
        0 <= f < e && (#[trigger] shortcuts[f]).required ==> spec_kept(
            d,
            first_out,
            head,
            shortcuts,
            required_in,
            required_out,
            f,
        )
}

/// A shortcut that was kept stays kept when more is added behind it.
proof fn lemma_kept_stays(
    before: DirArrays,
    after: DirArrays,
    first_out: Seq<EdgeId>,
    head: Seq<NodeId>,
    shortcuts: Seq<Shortcut>,
    required_in: Seq<bool>,
    required_out: Seq<bool>,
    f: int,
)
    requires
        spec_kept(before, first_out, head, shortcuts, required_in, required_out, f),
        before.tail.len() == before.head.len(),
        before.bounds.len() == before.head.len(),
        before.constant.len() == before.head.len(),
        before.first_source.len() == before.head.len() + 1,
        forall|k: int|
            0 <= k < before.head.len() ==> (#[trigger] before.first_source[k]) <= before.first_source[k
                + 1] <= before.sources.len(),
        after.head.len() >= before.head.len(),
        after.head.take(before.head.len() as int) == before.head,
        after.tail.take(before.tail.len() as int) == before.tail,
        after.bounds.take(before.bounds.len() as int) == before.bounds,
        after.constant.take(before.constant.len() as int) == before.constant,
        after.first_source.take(before.first_source.len() as int) == before.first_source,
        after.sources.take(before.sources.len() as int) == before.sources,
        after.tail.len() >= before.tail.len(),
        after.bounds.len() >= before.bounds.len(),
        after.constant.len() >= before.constant.len(),
        after.first_source.len() >= before.first_source.len(),
        after.sources.len() >= before.sources.len(),
    ensures
        spec_kept(after, first_out, head, shortcuts, required_in, required_out, f),
{
    let k = spec_rank(spec_required(shortcuts), f) as int;
    assert(after.head[k] == after.head.take(before.head.len() as int)[k]);
    assert(after.tail[k] == after.tail.take(before.tail.len() as int)[k]);
    assert(after.bounds[k] == after.bounds.take(before.bounds.len() as int)[k]);
    assert(after.constant[k] == after.constant.take(before.constant.len() as int)[k]);
    assert(after.first_source[k] == after.first_source.take(before.first_source.len() as int)[k]);
    assert(after.first_source[k + 1] == after.first_source.take(
        before.first_source.len() as int,
    )[k + 1]);
    assert(before.first_source[k] <= before.first_source[k + 1] <= before.sources.len());
    assert forall|i: int| 0 <= i < before.edge_sources(k).len() implies after.edge_sources(k)[i]
        == before.edge_sources(k)[i] by {
        assert(after.sources[before.first_source[k] + i] == after.sources.take(
            before.sources.len() as int,
        )[before.first_source[k] + i]);
    }
    assert(after.edge_sources(k) =~= before.edge_sources(k));
}

/// The bits of a vector of flags.
fn bits_of(flags: &Vec<bool>) -> (bits: BitVec)
    ensures
        bits.wf(),
        bits@ == flags@,
{
    let n = flags.len();
    let mut bits = BitVec::new(n);
    let mut i: usize = 0;
    while i < n
        invariant
            i <= n,
            n == flags@.len(),
            bits.wf(),
            bits@.len() == n,
            forall|j: int| 0 <= j < i ==> bits@[j] == flags@[j],
            forall|j: int| i <= j < n ==> !bits@[j],
        decreases n - i,
    {
        if flags[i] {
            bits.set(i);
        }
        i += 1;
    }
    assert(bits@ =~= flags@);
    bits
}

/// Whether `after` is `before` with the needed shortcut `e` of node `v` added.
spec fn spec_added(
    before: DirArrays,
    after: DirArrays,
    head: Seq<NodeId>,
    shortcuts: Seq<Shortcut>,
    required_in: Seq<bool>,
    required_out: Seq<bool>,
    v: int,
    e: int,
) -> bool {
    &&& after.first_out == before.first_out
    &&& after.head == before.head.push(head[e])
    &&& after.tail == before.tail.push(v as NodeId)
    &&& after.bounds == before.bounds.push((shortcuts[e].lower_bound, shortcuts[e].upper_bound))
    &&& after.constant == before.constant.push(shortcuts[e].lower_bound == shortcuts[e].upper_bound)
    &&& before.sources.len() <= after.sources.len() <= usize::MAX
    &&& after.sources.take(before.sources.len() as int) == before.sources
    &&& spec_unpacked_sources(after.sources.skip(before.sources.len() as int)) == spec_remap(
        shortcuts[e].spec_sources(),
        required_in,
        required_out,
    )
    &&& after.first_source == before.first_source.push(after.sources.len() as usize)
}

/// Adding a needed shortcut keeps the arrays in order.
proof fn lemma_keep(
    before: DirArrays,
    after: DirArrays,
    first_out: Seq<EdgeId>,
    head: Seq<NodeId>,
    shortcuts: Seq<Shortcut>,
    required_in: Seq<bool>,
    required_out: Seq<bool>,
    v: int,
    e: int,
)
    requires
        spec_valid_topology(first_out, head),
        shortcuts.len() == head.len(),
        0 <= v < first_out.len() - 1,
        first_out[v] <= e < first_out[v + 1],
        v < head[e],
        shortcuts[e].required,
        spec_structure(before, first_out.len() - 1, v),
        spec_content(before, first_out, head, shortcuts, required_in, required_out, v, e),
        spec_added(before, after, head, shortcuts, required_in, required_out, v, e),
    ensures
        spec_structure(after, first_out.len() - 1, v),
        spec_content(after, first_out, head, shortcuts, required_in, required_out, v, e + 1),
{
    reveal(spec_structure);
    reveal(spec_content);
    let required = spec_required(shortcuts);
    let n = first_out.len() - 1;
    let k = before.head.len() as int;
    lemma_offsets_monotone(first_out, head.len() as int, v + 1, first_out.len() - 1);
    lemma_rank_bounded(required, e);
    lemma_tail_unique(first_out, head.len() as int, e, v);
    assert(after.head.take(k) =~= before.head);
    assert(after.tail.take(k) =~= before.tail);
    assert(after.bounds.take(k) =~= before.bounds);
    assert(after.constant.take(k) =~= before.constant);
    assert(after.first_source.take(k + 1) =~= before.first_source);
    assert(after.edge_sources(k) =~= after.sources.skip(before.sources.len() as int));
    assert forall|j: int| 0 <= j < after.head.len() implies (#[trigger] after.first_source[j])
        <= after.first_source[j + 1] <= after.sources.len() by {
        if j < k {
            assert(before.first_source[j] <= before.first_source[j + 1]);
            assert(after.first_source[j] == before.first_source[j]);
            assert(after.first_source[j + 1] == before.first_source[j + 1]);
        }
    }
    assert forall|j: int| 0 <= j < after.head.len() implies (#[trigger] after.head[j]) < n
        && after.tail[j] < after.head[j] && spec_tail_ok(after, v, j) by {
        if j < k {
            assert(before.head[j] < n && spec_tail_ok(before, v, j));
            assert(after.head[j] == before.head[j]);
            assert(after.tail[j] == before.tail[j]);
        }
    }
    assert forall|f: int|
        0 <= f < e + 1 && (#[trigger] shortcuts[f]).required implies spec_kept(
        after,
        first_out,
        head,
        shortcuts,
        required_in,
        required_out,
        f,
    ) by {
        if f < e {
            lemma_kept_stays(before, after, first_out, head, shortcuts, required_in, required_out, f);
        }
    }
    assert(required[e]);
}

/// Passing over a shortcut that is not needed changes nothing.
proof fn lemma_skip(
    d: DirArrays,
    first_out: Seq<EdgeId>,
    head: Seq<NodeId>,
    shortcuts: Seq<Shortcut>,
    required_in: Seq<bool>,
    required_out: Seq<bool>,
    v: int,
    e: int,
)
    requires
        0 <= e < shortcuts.len(),
        !shortcuts[e].required,
        spec_content(d, first_out, head, shortcuts, required_in, required_out, v, e),
    ensures
        spec_content(d, first_out, head, shortcuts, required_in, required_out, v, e + 1),
{
    reveal(spec_content);
    assert(!spec_required(shortcuts)[e]);
}

/// Closing the range of a node keeps the arrays in order.
proof fn lemma_node_done(
    before: DirArrays,
    after: DirArrays,
    first_out: Seq<EdgeId>,
    head: Seq<NodeId>,
    shortcuts: Seq<Shortcut>,
    required_in: Seq<bool>,
    required_out: Seq<bool>,
    v: int,
    e: int,
)
    requires
        0 <= v < first_out.len() - 1,
        e == first_out[v + 1],
        spec_structure(before, first_out.len() - 1, v),
        spec_content(before, first_out, head, shortcuts, required_in, required_out, v, e),
        after.first_out == before.first_out.push(before.head.len() as u32),
        after.head == before.head,
        after.tail == before.tail,
        after.bounds == before.bounds,
        after.constant == before.constant,
        after.first_source == before.first_source,
        after.sources == before.sources,
    ensures
        spec_structure(after, first_out.len() - 1, v + 1),
        spec_content(after, first_out, head, shortcuts, required_in, required_out, v + 1, e),
        after.first_out[v + 1] == after.head.len(),
{
    reveal(spec_structure);
    reveal(spec_content);
    let required = spec_required(shortcuts);
    let n = first_out.len() - 1;
    assert forall|j: int| 0 <= j < v + 1 implies (#[trigger] after.first_out[j]) <= after.first_out[j
        + 1] by {
        if j < v {
            assert(before.first_out[j] <= before.first_out[j + 1]);
        }
    }
    assert forall|k: int| 0 <= k < after.head.len() implies (#[trigger] after.head[k]) < n
        && after.tail[k] < after.head[k] && spec_tail_ok(after, v + 1, k) by {
        assert(before.head[k] < n && spec_tail_ok(before, v, k));
    }
    assert forall|j: int| 0 <= j <= v + 1 implies (#[trigger] after.first_out[j]) == spec_rank(
        required,
        first_out[j] as int,
    ) by {
        if j <= v {
            assert(before.first_out[j] == spec_rank(required, first_out[j] as int));
        }
    }
    assert forall|f: int|
        0 <= f < e && (#[trigger] shortcuts[f]).required implies spec_kept(
        after,
        first_out,
        head,
        shortcuts,
        required_in,
        required_out,
        f,
    ) by {
        assert(spec_kept(before, first_out, head, shortcuts, required_in, required_out, f));
        let k = spec_rank(required, f) as int;
        assert(after.edge_sources(k) == before.edge_sources(k));
    }
}

/// Arrays that were filled node by node fit together and hold the needed shortcuts.
proof fn lemma_finish(
    d: DirArrays,
    first_out: Seq<EdgeId>,
    head: Seq<NodeId>,
    shortcuts: Seq<Shortcut>,
    required_in: Seq<bool>,
    required_out: Seq<bool>,
)
    requires
        spec_valid_topology(first_out, head),
        shortcuts.len() == head.len(),
        spec_structure(d, first_out.len() - 1, first_out.len() - 1),
        spec_content(
            d,
            first_out,
            head,
            shortcuts,
            required_in,
            required_out,
            first_out.len() - 1,
            head.len() as int,
        ),
        d.first_out[first_out.len() - 1] == d.head.len(),
    ensures
        d.ok(),
        spec_compacted(d, first_out, head, shortcuts, required_in, required_out),
{
    reveal(spec_structure);
    reveal(spec_content);
    let n = first_out.len() - 1;
    assert forall|k: int| 0 <= k < d.num_arcs() implies {
        &&& (#[trigger] d.tail[k]) < d.num_nodes()
        &&& d.first_out[d.tail[k] as int] <= k < d.first_out[d.tail[k] + 1]
        &&& d.tail[k] < d.head[k]
    } by {
        assert(d.head[k] < n && spec_tail_ok(d, n, k));
    }
    assert forall|k: int| 0 <= k < d.head.len() implies #[trigger] d.head[k] < d.first_out.len()
        - 1 by {
        assert(d.head[k] < n && spec_tail_ok(d, n, k));
    }
}

/// Empty arrays are in order before the first node.
proof fn lemma_start(
    d: DirArrays,
    first_out: Seq<EdgeId>,
    head: Seq<NodeId>,
    shortcuts: Seq<Shortcut>,
    required_in: Seq<bool>,
    required_out: Seq<bool>,
)
    requires
        spec_valid_topology(first_out, head),
        d.first_out == seq![0u32],
        d.first_source == seq![0usize],
        d.head.len() == 0,
        d.tail.len() == 0,
        d.bounds.len() == 0,
        d.constant.len() == 0,
        d.sources.len() == 0,
    ensures
        spec_structure(d, first_out.len() - 1, 0),
        spec_content(d, first_out, head, shortcuts, required_in, required_out, 0, 0),
{
    reveal(spec_structure);
    reveal(spec_content);
}

/// Adds the needed shortcut `e`, an arc of node `v`, to the arrays.
fn keep(
    b: &mut Builder,
    v: usize,
    e: usize,
    head: &[NodeId],
    shortcuts: &Vec<Shortcut>,
    mapping_incoming: &RankSelectMap,
    mapping_outgoing: &RankSelectMap,
)
    requires
        shortcuts@.len() == head@.len(),
        head@.len() <= u32::MAX,
        mapping_incoming.wf(),
        mapping_outgoing.wf(),
        mapping_incoming.bits().len() <= u32::MAX,
        mapping_outgoing.bits().len() <= u32::MAX,
        spec_closed(shortcuts@, mapping_incoming.bits(), mapping_outgoing.bits()),
        e < head@.len(),
        v <= u32::MAX,
        shortcuts@[e as int].required,
    ensures
        spec_added(
            old(b).arrays(),
            final(b).arrays(),
            head@,
            shortcuts@,
            mapping_incoming.bits(),
            mapping_outgoing.bits(),
            v as int,
            e as int,
        ),
{
    let shortcut = &shortcuts[e];
    proof {
        assert forall|i: int| 0 <= i < shortcut.sources@.len() implies (match (
        #[trigger] shortcut.sources@[i]).1@ {
            ShortcutSource::Shortcut(down, up) => down < mapping_incoming.bits().len() && up
                < mapping_outgoing.bits().len() && mapping_incoming.bits()[down as int]
                && mapping_outgoing.bits()[up as int],
            _ => true,
        }) by {
            assert(shortcuts@[e as int].sources@[i] == shortcut.sources@[i]);
        }
    }
    b.head.push(head[e]);
    b.tail.push(v as NodeId);
    b.bounds.push((shortcut.lower_bound, shortcut.upper_bound));
    b.flags.push(shortcut.lower_bound == shortcut.upper_bound);
    remap_sources(&shortcut.sources, mapping_incoming, mapping_outgoing, &mut b.sources);
    b.first_source.push(b.sources.len());
}

/// Compacts one direction: keeps the needed shortcuts, in their order,
/// with renumbered sources.
fn compact_dir(
    first_out: &[EdgeId],
    head: &[NodeId],
    shortcuts: &Vec<Shortcut>,
    mapping_incoming: &RankSelectMap,
    mapping_outgoing: &RankSelectMap,
) -> (dir: CustomizedSingleDirGraph)
    requires
        spec_valid_topology(first_out@, head@),
        shortcuts@.len() == head@.len(),
        mapping_incoming.wf(),
        mapping_outgoing.wf(),
        mapping_incoming.bits().len() <= u32::MAX,
        mapping_outgoing.bits().len() <= u32::MAX,
        spec_closed(shortcuts@, mapping_incoming.bits(), mapping_outgoing.bits()),
        forall|e: int| 0 <= e < head@.len() ==> spec_tail(first_out@, e) < #[trigger] head@[e],
    ensures
        dir.arrays_ok(),
        spec_compacted(
            dir.arrays(),
            first_out@,
            head@,
            shortcuts@,
            mapping_incoming.bits(),
            mapping_outgoing.bits(),
        ),
{
    let n = first_out.len() - 1;
    let mut b = Builder {
        first_out: Vec::new(),
        head: Vec::new(),
        tail: Vec::new(),
        bounds: Vec::new(),
        flags: Vec::new(),
        first_source: Vec::new(),
        sources: Vec::new(),
    };
    b.first_out.push(0);
    b.first_source.push(0);
    proof {
        assert(b.first_out@ =~= seq![0u32]);
        assert(b.first_source@ =~= seq![0usize]);
        lemma_start(
            b.arrays(),
            first_out@,
            head@,
            shortcuts@,
            mapping_incoming.bits(),
            mapping_outgoing.bits(),
        );
    }
    let mut v: usize = 0;
    let mut e: usize = 0;
    while v < n
        invariant
            v <= n,
            n == first_out@.len() - 1,
            spec_valid_topology(first_out@, head@),
            shortcuts@.len() == head@.len(),
            mapping_incoming.wf(),
            mapping_outgoing.wf(),
            mapping_incoming.bits().len() <= u32::MAX,
            mapping_outgoing.bits().len() <= u32::MAX,
            spec_closed(shortcuts@, mapping_incoming.bits(), mapping_outgoing.bits()),
            forall|e: int| 0 <= e < head@.len() ==> spec_tail(first_out@, e) < #[trigger] head@[e],
            e == first_out@[v as int],
            b.first_out@[v as int] == b.head@.len(),
            b.first_out@.len() == v + 1,
            spec_structure(b.arrays(), n as int, v as int),
            spec_content(
                b.arrays(),
                first_out@,
                head@,
                shortcuts@,
                mapping_incoming.bits(),
                mapping_outgoing.bits(),
                v as int,
                e as int,
            ),
        decreases n - v,
    {
        let end = first_out[v + 1] as usize;
        proof {
            assert(first_out@[v as int] <= first_out@[v as int + 1]);
            lemma_offsets_monotone(first_out@, head@.len() as int, v as int + 1, first_out@.len() - 1);
        }
        while e < end
            invariant
                v < n,
                n == first_out@.len() - 1,
                first_out@[v as int] <= e <= end,
                end == first_out@[v as int + 1],
                end <= head@.len(),
                spec_valid_topology(first_out@, head@),
                shortcuts@.len() == head@.len(),
                mapping_incoming.wf(),
                mapping_outgoing.wf(),
                mapping_incoming.bits().len() <= u32::MAX,
                mapping_outgoing.bits().len() <= u32::MAX,
                spec_closed(shortcuts@, mapping_incoming.bits(), mapping_outgoing.bits()),
                forall|e: int| 0 <= e < head@.len() ==> spec_tail(first_out@, e) < #[trigger] head@[e],
                b.first_out@.len() == v + 1,
                spec_structure(b.arrays(), n as int, v as int),
                spec_content(
                    b.arrays(),
                    first_out@,
                    head@,
                    shortcuts@,
                    mapping_incoming.bits(),
                    mapping_outgoing.bits(),
                    v as int,
                    e as int,
                ),
            decreases end - e,
        {
            let ghost before = b.arrays();
            if shortcuts[e].required {
                keep(&mut b, v, e, head, shortcuts, mapping_incoming, mapping_outgoing);
                proof {
                    lemma_tail_unique(first_out@, head@.len() as int, e as int, v as int);
                    assert(spec_tail(first_out@, e as int) < head@[e as int]);
                    lemma_keep(
                        before,
                        b.arrays(),
                        first_out@,
                        head@,
                        shortcuts@,
                        mapping_incoming.bits(),
                        mapping_outgoing.bits(),
                        v as int,
                        e as int,
                    );
                }
            } else {
                proof {
                    lemma_skip(
                        before,
                        first_out@,
                        head@,
                        shortcuts@,
                        mapping_incoming.bits(),
                        mapping_outgoing.bits(),
                        v as int,
                        e as int,
                    );
                }
            }
            e += 1;
        }
        let ghost before = b.arrays();
        proof {
            reveal(spec_structure);
        }
        b.first_out.push(b.head.len() as u32);
        proof {
            lemma_node_done(
                before,
                b.arrays(),
                first_out@,
                head@,
                shortcuts@,
                mapping_incoming.bits(),
                mapping_outgoing.bits(),
                v as int,
                e as int,
            );
        }
        v += 1;
    }
    let constant = bits_of(&b.flags);
    let ghost d = b.arrays();
    proof {
        lemma_finish(d, first_out@, head@, shortcuts@, mapping_incoming.bits(), mapping_outgoing.bits());
    }
    let dir = CustomizedSingleDirGraph::from_parts(
        b.first_out,
        b.head,
        b.tail,
        b.bounds,
        constant,
        b.first_source,
        b.sources,
    );
    assert(dir.arrays() == d);
    dir
}

/// The compact hierarchy as the cost functions see it.
pub open spec fn spec_compact_model(original: TDGraph, outgoing: DirArrays, incoming: DirArrays) -> ShortcutModel {
    ShortcutModel {
        original: original.spec_plfs(),
        outgoing: outgoing.arc_models(),
        incoming: incoming.arc_models(),
    }
}

impl Weighted {
    /// The shortcuts of one direction.
    pub open spec fn shortcuts(self, up: bool) -> Seq<Shortcut> {
        if up {
            self.outgoing
        } else {
            self.incoming
        }
    }

    /// Every arc of one direction of the compact hierarchy is in order.
    proof fn lemma_arc_ok(self, outgoing: DirArrays, incoming: DirArrays, up: bool, k: int)
        requires
            self.ok(),
            spec_compacted(
                outgoing,
                self.first_out,
                self.head,
                self.outgoing,
                spec_required(self.incoming),
                spec_required(self.outgoing),
            ),
            spec_compacted(
                incoming,
                self.first_out,
                self.head,
                self.incoming,
                spec_required(self.incoming),
                spec_required(self.outgoing),
            ),
            0 <= k < (if up {
                outgoing
            } else {
                incoming
            }).num_arcs(),
        ensures
            spec_compact_model(self.original, outgoing, incoming).arc_ok(
                spec_compact_model(self.original, outgoing, incoming).arcs(up)[k],
            ),
            (if up {
                outgoing
            } else {
                incoming
            }).constant[k] ==> (if up {
                outgoing
            } else {
                incoming
            }).bounds[k].0 <= INFINITY,
    {
        let model = spec_compact_model(self.original, outgoing, incoming);
        let full = self.model();
        let shortcuts = self.shortcuts(up);
        let dir = if up { outgoing } else { incoming };
        let required = spec_required(shortcuts);
        let required_in = spec_required(self.incoming);
        let required_out = spec_required(self.outgoing);
        let m = self.head.len() as int;
        lemma_rank_select(required, m, k);
        let e = choose|e: int| 0 <= e < m && #[trigger] required[e] && spec_rank(required, e) == k;
        assert(shortcuts[e].required);
        assert(spec_kept(dir, self.first_out, self.head, shortcuts, required_in, required_out, e));
        assert(full.arc_ok(full.arcs(up)[e]));
        let old_sources = shortcuts[e].spec_sources();
        let arc = model.arcs(up)[k];
        assert(arc.sources == spec_remap(old_sources, required_in, required_out));
        assert(arc.level == spec_tail(self.first_out, e));
        assert(spec_times_ok(arc.sources)) by {
            assert forall|i: int| 0 <= i < arc.sources.len() implies (#[trigger] arc.sources[i]).0
                == old_sources[i].0 by {}
            assert forall|i: int, j: int| 0 <= i < j < arc.sources.len() implies (
            #[trigger] arc.sources[i]).0 < (#[trigger] arc.sources[j]).0 by {
                assert(old_sources[i].0 < old_sources[j].0);
            }
            assert forall|i: int| 0 <= i < arc.sources.len() implies (#[trigger] arc.sources[i]).0
                < crate::types::PERIOD by {
                assert(old_sources[i].0 < crate::types::PERIOD);
            }
        }
        assert forall|i: int| 0 <= i < arc.sources.len() implies model.source_ok(
            (#[trigger] arc.sources[i]).1,
            arc.level,
        ) by {
            assert(full.source_ok(old_sources[i].1, full.arcs(up)[e].level));
            assert(old_sources[i].1 == shortcuts[e].sources@[i].1@);
            match old_sources[i].1 {
                ShortcutSource::Shortcut(down, up_arc) => {
                    lemma_rank_monotone(required_in, down as int, m);
                    lemma_rank_monotone(required_out, up_arc as int, m);
                    lemma_rank_bounded(required_in, m);
                    lemma_rank_bounded(required_out, m);
                    assert(self.incoming[down as int].required);
                    assert(self.outgoing[up_arc as int].required);
                    assert(spec_kept(
                        incoming,
                        self.first_out,
                        self.head,
                        self.incoming,
                        required_in,
                        required_out,
                        down as int,
                    ));
                    assert(spec_kept(
                        outgoing,
                        self.first_out,
                        self.head,
                        self.outgoing,
                        required_in,
                        required_out,
                        up_arc as int,
                    ));
                },
                _ => {},
            }
        }
    }

    /// The compact hierarchy is in order.
    pub proof fn lemma_compact_wf(self, outgoing: DirArrays, incoming: DirArrays)
        requires
            self.ok(),
            spec_compacted(
                outgoing,
                self.first_out,
                self.head,
                self.outgoing,
                spec_required(self.incoming),
                spec_required(self.outgoing),
            ),
            spec_compacted(
                incoming,
                self.first_out,
                self.head,
                self.incoming,
                spec_required(self.incoming),
                spec_required(self.outgoing),
            ),
        ensures
            spec_compact_model(self.original, outgoing, incoming).wf(),
            spec_compact_model(self.original, outgoing, incoming).constants_in_range(),
    {
        let model = spec_compact_model(self.original, outgoing, incoming);
        self.original.lemma_wf();
        assert forall|e: int| 0 <= e < model.outgoing.len() implies model.arc_ok(
            #[trigger] model.outgoing[e],
        ) by {
            self.lemma_arc_ok(outgoing, incoming, true, e);
        }
        assert forall|e: int| 0 <= e < model.incoming.len() implies model.arc_ok(
            #[trigger] model.incoming[e],
        ) by {
            self.lemma_arc_ok(outgoing, incoming, false, e);
        }
        assert forall|e: int|
            0 <= e < model.outgoing.len() && (#[trigger] model.outgoing[e]).constant implies 0
            <= model.outgoing[e].lower <= INFINITY by {
            self.lemma_arc_ok(outgoing, incoming, true, e);
        }
        assert forall|e: int|
            0 <= e < model.incoming.len() && (#[trigger] model.incoming[e]).constant implies 0
            <= model.incoming[e].lower <= INFINITY by {
            self.lemma_arc_ok(outgoing, incoming, false, e);
        }
    }
}

/// Renumbering the arcs of its triangles does not change which source is in force.
proof fn lemma_remap_index(sources: Sources, required_in: Seq<bool>, required_out: Seq<bool>, t: int, k: int)
    requires
        0 <= k < sources.len(),
    ensures
        spec_source_index(spec_remap(sources, required_in, required_out), t, k) == spec_source_index(
            sources,
            t,
            k,
        ),
        0 <= spec_source_index(sources, t, k) <= k,
    decreases k,
{
    if k > 0 {
        lemma_remap_index(sources, required_in, required_out, t, k - 1);
    }
}

impl Weighted {
    /// Compaction keeps the cost: a needed shortcut costs at every moment
    /// what the arc costs that stands for it in the compact hierarchy.
    pub proof fn lemma_compaction_keeps_cost(
        self,
        outgoing: DirArrays,
        incoming: DirArrays,
        up: bool,
        e: int,
        t: int,
    )
        requires
            self.ok(),
            spec_compacted(
                outgoing,
                self.first_out,
                self.head,
                self.outgoing,
                spec_required(self.incoming),
                spec_required(self.outgoing),
            ),
            spec_compacted(
                incoming,
                self.first_out,
                self.head,
                self.incoming,
                spec_required(self.incoming),
                spec_required(self.outgoing),
            ),
            0 <= e < self.head.len(),
            self.shortcuts(up)[e].required,
            0 <= t,
        ensures
            spec_compact_model(self.original, outgoing, incoming).eval(
                up,
                spec_rank(spec_required(self.shortcuts(up)), e) as int,
                t,
            ) == self.model().eval(up, e, t),
        decreases spec_tail(self.first_out, e),
    {
        let model = spec_compact_model(self.original, outgoing, incoming);
        let full = self.model();
        let shortcuts = self.shortcuts(up);
        let dir = if up { outgoing } else { incoming };
        let required = spec_required(shortcuts);
        let required_in = spec_required(self.incoming);
        let required_out = spec_required(self.outgoing);
        let m = self.head.len() as int;
        let k = spec_rank(required, e) as int;
        let period = crate::types::PERIOD as int;
        assert(spec_kept(dir, self.first_out, self.head, shortcuts, required_in, required_out, e));
        assert(full.arc_ok(full.arcs(up)[e]));
        let old_sources = shortcuts[e].spec_sources();
        let arc = model.arcs(up)[k];
        assert(arc.sources == spec_remap(old_sources, required_in, required_out));
        assert(arc.level == spec_tail(self.first_out, e));
        assert(full.arcs(up)[e].level == spec_tail(self.first_out, e));
        if old_sources.len() > 0 {
            lemma_remap_index(old_sources, required_in, required_out, t % period, old_sources.len() - 1);
            let i = spec_source_index(old_sources, t % period, old_sources.len() - 1);
            assert(model.source(up, k, t) == spec_remap_source(old_sources[i].1, required_in, required_out));
            assert(full.source(up, e, t) == old_sources[i].1);
            assert(full.source_ok(old_sources[i].1, full.arcs(up)[e].level));
            assert(old_sources[i].1 == shortcuts[e].sources@[i].1@);
            match old_sources[i].1 {
                ShortcutSource::Shortcut(down, up_arc) => {
                    lemma_rank_monotone(required_in, down as int, m);
                    lemma_rank_monotone(required_out, up_arc as int, m);
                    lemma_rank_bounded(required_in, m);
                    lemma_rank_bounded(required_out, m);
                    assert(self.incoming[down as int].required);
                    assert(self.outgoing[up_arc as int].required);
                    assert(spec_kept(
                        incoming,
                        self.first_out,
                        self.head,
                        self.incoming,
                        required_in,
                        required_out,
                        down as int,
                    ));
                    assert(spec_kept(
                        outgoing,
                        self.first_out,
                        self.head,
                        self.outgoing,
                        required_in,
                        required_out,
                        up_arc as int,
                    ));
                    assert(full.incoming[down as int].level == spec_tail(self.first_out, down as int));
                    assert(full.outgoing[up_arc as int].level == spec_tail(self.first_out, up_arc as int));
                    self.lemma_compaction_keeps_cost(outgoing, incoming, false, down as int, t);
                    let a = full.eval(false, down as int, t);
                    full.lemma_eval_range(false, down as int, t);
                    self.lemma_compaction_keeps_cost(outgoing, incoming, true, up_arc as int, t + a);
                    let new_down = spec_rank(required_in, down as int) as int;
                    let new_up = spec_rank(required_out, up_arc as int) as int;
                    assert(model.incoming[new_down].level == spec_tail(self.first_out, down as int));
                    assert(model.outgoing[new_up].level == spec_tail(self.first_out, up_arc as int));
                    assert(model.source_ok(
                        ShortcutSource::Shortcut(new_down as EdgeId, new_up as EdgeId),
                        arc.level,
                    ));
                },
                _ => {},
            }
        }
    }
}

impl Weighted {
    /// The bounds of a kept arc hold its travel time where the bounds of
    /// the shortcut that it was hold that of the shortcut.
    proof fn lemma_kept_bounds(self, outgoing: DirArrays, incoming: DirArrays, up: bool, k: int)
        requires
            self.ok(),
            spec_compacted(
                outgoing,
                self.first_out,
                self.head,
                self.outgoing,
                spec_required(self.incoming),
                spec_required(self.outgoing),
            ),
            spec_compacted(
                incoming,
                self.first_out,
                self.head,
                self.incoming,
                spec_required(self.incoming),
                spec_required(self.outgoing),
            ),
            self.model().bounds_sound(),
            0 <= k < spec_compact_model(self.original, outgoing, incoming).arcs(up).len(),
        ensures
            spec_compact_model(self.original, outgoing, incoming).bounded(
                up,
                k,
                spec_compact_model(self.original, outgoing, incoming).arcs(up)[k].lower,
                spec_compact_model(self.original, outgoing, incoming).arcs(up)[k].upper,
            ),
            spec_compact_model(self.original, outgoing, incoming).arcs(up)[k].constant
                ==> spec_compact_model(self.original, outgoing, incoming).arcs(up)[k].lower
                == spec_compact_model(self.original, outgoing, incoming).arcs(up)[k].upper,
    {
        let model = spec_compact_model(self.original, outgoing, incoming);
        let full = self.model();
        let shortcuts = self.shortcuts(up);
        let dir = if up { outgoing } else { incoming };
        let required = spec_required(shortcuts);
        lemma_rank_select(required, shortcuts.len() as int, k);
        let e = choose|e: int| 0 <= e < shortcuts.len() && #[trigger] required[e] && spec_rank(required, e) == k;
        assert(shortcuts[e].required);
        assert(spec_kept(
            dir,
            self.first_out,
            self.head,
            shortcuts,
            spec_required(self.incoming),
            spec_required(self.outgoing),
            e,
        ));
        assert(full.bounded(up, e, full.arcs(up)[e].lower, full.arcs(up)[e].upper)) by {
            if up {
                assert(full.bounded(true, e, full.outgoing[e].lower, full.outgoing[e].upper));
            } else {
                assert(full.bounded(false, e, full.incoming[e].lower, full.incoming[e].upper));
            }
        }
        assert forall|t: int| 0 <= t implies model.arcs(up)[k].lower <= #[trigger] model.eval(up, k, t)
            <= model.arcs(up)[k].upper by {
            self.lemma_compaction_keeps_cost(outgoing, incoming, up, e, t);
            assert(full.arcs(up)[e].lower <= full.eval(up, e, t) <= full.arcs(up)[e].upper);
        }
    }

    /// Compaction keeps sound bounds: where the bounds of every shortcut
    /// hold its travel time at all times, so do the bounds of every arc
    /// that is kept.
    pub proof fn lemma_compaction_keeps_bounds(self, outgoing: DirArrays, incoming: DirArrays)
        requires
            self.ok(),
            spec_compacted(
                outgoing,
                self.first_out,
                self.head,
                self.outgoing,
                spec_required(self.incoming),
                spec_required(self.outgoing),
            ),
            spec_compacted(
                incoming,
                self.first_out,
                self.head,
                self.incoming,
                spec_required(self.incoming),
                spec_required(self.outgoing),
            ),
            self.model().bounds_sound(),
        ensures
            spec_compact_model(self.original, outgoing, incoming).bounds_sound(),
    {
        let model = spec_compact_model(self.original, outgoing, incoming);
        assert forall|k: int| 0 <= k < model.outgoing.len() implies model.bounded(
            true,
            k,
            (#[trigger] model.outgoing[k]).lower,
            model.outgoing[k].upper,
        ) && (model.outgoing[k].constant ==> model.outgoing[k].lower == model.outgoing[k].upper) by {
            self.lemma_kept_bounds(outgoing, incoming, true, k);
        }
        assert forall|k: int| 0 <= k < model.incoming.len() implies model.bounded(
            false,
            k,
            (#[trigger] model.incoming[k]).lower,
            model.incoming[k].upper,
        ) && (model.incoming[k].constant ==> model.incoming[k].lower == model.incoming[k].upper) by {
            self.lemma_kept_bounds(outgoing, incoming, false, k);
        }
    }

    /// Bounds that are sound for the shortcuts as they are weighted are
    /// sound for the hierarchy that is handed over for compaction: where
    /// the shortcuts pass `PartialShortcutGraph::bounds_hold`, the bounds
    /// of every arc of the compact hierarchy hold its travel time.
    pub proof fn lemma_checked_shortcuts_are_sound(self, partial: PartialShortcutGraph)
        requires
            self.ok(),
            partial.wf(),
            partial.spec_original() == self.original,
            partial.spec_outgoing() == self.outgoing,
            partial.spec_incoming() == self.incoming,
            partial.spec_offset() == 0,
            partial.model().bounds_sound(),
        ensures
            self.model().bounds_sound(),
    {
        partial.lemma_model_sizes();
        let checked = partial.model();
        let full = self.model();
        assert forall|up: bool, e: int| 0 <= e < checked.arcs(up).len() implies (#[trigger] full.arcs(
            up,
        )[e]).lower == checked.arcs(up)[e].lower && full.arcs(up)[e].upper == checked.arcs(up)[e].upper
            && (full.arcs(up)[e].constant ==> full.arcs(up)[e].lower == full.arcs(up)[e].upper) by {
            if up {
            } else {
            }
        }
        checked.lemma_same_sound(full);
    }
}

impl<'a> CustomizedGraph<'a> {
    /// Compacts a weighted hierarchy: of the shortcuts of each direction
    /// only the needed ones are kept, in their order and numbered anew;
    /// the arcs that their sources name are renumbered with them.  An arc
    /// is marked as constant if its bounds agree.
    pub fn new(
        original_graph: &'a TDGraph,
        first_out: &'a [EdgeId],
        head: &'a [NodeId],
        outgoing: Vec<Shortcut>,
        incoming: Vec<Shortcut>,
    ) -> (r: Self)
        requires
            (Weighted {
                original: *original_graph,
                first_out: first_out@,
                head: head@,
                outgoing: outgoing@,
                incoming: incoming@,
            }).ok(),
        ensures
            r.wf(),
            r.spec_original() == *original_graph,
            r.spec_first_out() == first_out@,
            r.spec_head() == head@,
            spec_compacted(
                r.spec_dir(true).arrays(),
                first_out@,
                head@,
                outgoing@,
                spec_required(incoming@),
                spec_required(outgoing@),
            ),
            spec_compacted(
                r.spec_dir(false).arrays(),
                first_out@,
                head@,
                incoming@,
                spec_required(incoming@),
                spec_required(outgoing@),
            ),
            (Weighted {
                original: *original_graph,
                first_out: first_out@,
                head: head@,
                outgoing: outgoing@,
                incoming: incoming@,
            }).model().bounds_sound() ==> r.model().bounds_sound(),
    {
        let ghost weighted = Weighted {
            original: *original_graph,
            first_out: first_out@,
            head: head@,
            outgoing: outgoing@,
            incoming: incoming@,
        };
        proof {
            lemma_offsets_monotone(first_out@, head@.len() as int, 0, first_out@.len() - 1);
        }
        let mapping_outgoing = RankSelectMap::new(required_bits(&outgoing));
        let mapping_incoming = RankSelectMap::new(required_bits(&incoming));
        let out = compact_dir(first_out, head, &outgoing, &mapping_incoming, &mapping_outgoing);
        let inc = compact_dir(first_out, head, &incoming, &mapping_incoming, &mapping_outgoing);
        proof {
            weighted.lemma_compact_wf(out.arrays(), inc.arrays());
        }
        let r = CustomizedGraph::from_parts(original_graph, first_out, head, out, inc);
        proof {
            reveal(CustomizedGraph::wf);
            assert(r.model() == spec_compact_model(*original_graph, out.arrays(), inc.arrays()));
            if weighted.model().bounds_sound() {
                weighted.lemma_compaction_keeps_bounds(out.arrays(), inc.arrays());
            }
        }
        r
    }
}

} // verus!
