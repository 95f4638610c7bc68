//! The compact result of weighting a hierarchy, as the queries read it.
use vstd::prelude::*;
use vstd::slice::slice_subrange;
use core::ops::Range;
use crate::datastr::rank_select_map::BitVec;
use crate::datastr::timestamped_vector::TimestampedVector;
use crate::graph::first_out_graph::lemma_tail_unique;
use crate::graph::marking::{mark, spec_marks, Hierarchy};
use crate::graph::plf::spec_eval_periodic;
use crate::graph::first_out_graph::{lemma_offsets_monotone, spec_valid_topology};
use crate::graph::shortcut::{source_at, spec_source_at, spec_times_ok, spec_unpacked_sources, ArcModel, ShortcutModel, ShortcutSource, ShortcutSourceData};
use crate::graph::td_graph::Graph as TDGraph;
use crate::types::{spec_min, sat_add, spec_sat_add, EdgeId, NodeId, Timestamp, Weight, INFINITY, PERIOD};

pub mod compaction;
pub mod persist;

verus! {

/// One direction of a weighted hierarchy: the arcs from each node to higher
/// ranked nodes, with the bounds and the sources of every arc.
#[derive(Debug)]
pub struct CustomizedSingleDirGraph {
    first_out: Vec<EdgeId>,
    head: Vec<NodeId>,
    tail: Vec<NodeId>,
    bounds: Vec<(Weight, Weight)>,
    constant: BitVec,
    first_source: Vec<usize>,
    sources: Vec<(Timestamp, ShortcutSourceData)>,
}

/// Whether `first_source` delimits the sources of `m` arcs in an array of `k` sources.
pub open spec fn spec_source_offsets(first_source: Seq<usize>, m: int, k: int) -> bool {
    &&& first_source.len() == m + 1
    &&& first_source[0] == 0
    &&& first_source[m] == k
    &&& forall|e: int| 0 <= e < m ==> (#[trigger] first_source[e]) <= first_source[e + 1] <= k
}

/// The arrays of one direction, as values.
pub struct DirArrays {
    pub first_out: Seq<EdgeId>,
    pub head: Seq<NodeId>,
    pub tail: Seq<NodeId>,
    pub bounds: Seq<(Weight, Weight)>,
    pub constant: Seq<bool>,
    pub first_source: Seq<usize>,
    pub sources: Seq<(Timestamp, ShortcutSourceData)>,
}

impl DirArrays {
    /// Number of arcs.
    pub open spec fn num_arcs(self) -> int {
        self.head.len() as int
    }

    /// Number of nodes.
    pub open spec fn num_nodes(self) -> int {
        self.first_out.len() - 1
    }

    /// The sources of arc `e` as they are stored.
    pub open spec fn edge_sources(self, e: int) -> Seq<(Timestamp, ShortcutSourceData)> {
        self.sources.subrange(self.first_source[e] as int, self.first_source[e + 1] as int)
    }

    /// The arcs as the cost functions see them: the level of an arc is its tail.
    pub open spec fn arc_models(self) -> Seq<ArcModel> {
        Seq::new(
            self.num_arcs() as nat,
            |e: int|
                ArcModel {
                    level: self.tail[e] as int,
                    sources: spec_unpacked_sources(self.edge_sources(e)),
                    lower: self.bounds[e].0 as int,
                    upper: self.bounds[e].1 as int,
                    constant: self.constant[e],
                },
        )
    }

    /// Whether the arrays fit together: a topology, one tail, one pair of
    /// bounds and one mark per arc, every arc in the range of its tail and
    /// below its head, and a range of sources for every arc.
    pub open spec fn ok(self) -> bool {
        &&& spec_valid_topology(self.first_out, self.head)
        &&& self.tail.len() == self.num_arcs()
        &&& self.bounds.len() == self.num_arcs()
        &&& self.constant.len() == self.num_arcs()
        &&& spec_source_offsets(self.first_source, self.num_arcs(), self.sources.len() as int)
        &&& forall|e: int|
            0 <= e < self.num_arcs() ==> {
                &&& (#[trigger] self.tail[e]) < self.num_nodes()
                &&& self.first_out[self.tail[e] as int] <= e < self.first_out[self.tail[e] + 1]
                &&& self.tail[e] < self.head[e]
            }
    }
}

impl CustomizedSingleDirGraph {
    /// Index of the first arc of each node, and one entry more.
    pub closed spec fn spec_first_out(&self) -> Seq<EdgeId> {
        self.first_out@
    }

    /// Head of each arc: its higher ranked end.
    pub closed spec fn spec_head(&self) -> Seq<NodeId> {
        self.head@
    }

    /// Tail of each arc: its lower ranked end.
    pub closed spec fn spec_tail(&self) -> Seq<NodeId> {
        self.tail@
    }

    /// Lower and upper bound of each arc.
    pub closed spec fn spec_bounds(&self) -> Seq<(Weight, Weight)> {
        self.bounds@
    }

    /// Which arcs are marked as constant.
    pub closed spec fn spec_constant(&self) -> Seq<bool> {
        self.constant@
    }

    /// Index of the first source of each arc, and one entry more.
    pub closed spec fn spec_first_source(&self) -> Seq<usize> {
        self.first_source@
    }

    /// The sources of all arcs, one arc after the other.
    pub closed spec fn spec_sources(&self) -> Seq<(Timestamp, ShortcutSourceData)> {
        self.sources@
    }

    /// The arrays as values.
    pub open spec fn arrays(&self) -> DirArrays {
        DirArrays {
            first_out: self.spec_first_out(),
            head: self.spec_head(),
            tail: self.spec_tail(),
            bounds: self.spec_bounds(),
            constant: self.spec_constant(),
            first_source: self.spec_first_source(),
            sources: self.spec_sources(),
        }
    }

    /// Number of arcs.
    pub open spec fn spec_num_arcs(&self) -> int {
        self.spec_head().len() as int
    }

    /// Number of nodes.
    pub open spec fn spec_num_nodes(&self) -> int {
        self.spec_first_out().len() - 1
    }

    /// The sources of arc `e` as they are stored.
    pub open spec fn spec_edge_sources(&self, e: int) -> Seq<(Timestamp, ShortcutSourceData)> {
        self.arrays().edge_sources(e)
    }

    /// The arcs as the cost functions see them: the level of an arc is its tail.
    pub open spec fn arc_models(&self) -> Seq<ArcModel> {
        self.arrays().arc_models()
    }

    /// Whether the arrays fit together, as `DirArrays::ok` says.
    pub open spec fn arrays_ok(&self) -> bool {
        &&& self.arrays().ok()
        &&& self.wf_constant()
    }

    /// Representation invariant of the marks.
    pub closed spec fn wf_constant(&self) -> bool {
        self.constant.wf()
    }

    /// One direction from its arrays.
    pub(crate) fn from_parts(
        first_out: Vec<EdgeId>,
        head: Vec<NodeId>,
        tail: Vec<NodeId>,
        bounds: Vec<(Weight, Weight)>,
        constant: BitVec,
        first_source: Vec<usize>,
        sources: Vec<(Timestamp, ShortcutSourceData)>,
    ) -> (r: Self)
        requires
            constant.wf(),
        ensures
            r.wf_constant(),
            r.arrays() == (DirArrays {
                first_out: first_out@,
                head: head@,
                tail: tail@,
                bounds: bounds@,
                constant: constant@,
                first_source: first_source@,
                sources: sources@,
            }),
    {
        CustomizedSingleDirGraph { first_out, head, tail, bounds, constant, first_source, sources }
    }

    /// Number of arcs from `node` to higher ranked nodes.
    pub fn degree(&self, node: NodeId) -> (d: usize)
        requires
            self.arrays_ok(),
            node < self.spec_num_nodes(),
        ensures
            d == self.spec_first_out()[node as int + 1] - self.spec_first_out()[node as int],
    {
        assert(self.first_out.len() >= 1);
        assert(node < self.first_out.len() - 1);
        assert(self.first_out[node as int] <= self.first_out[node as int + 1]);
        (self.first_out[node as usize + 1] - self.first_out[node as usize]) as usize
    }

    /// Lower and upper bound of every arc.
    pub fn bounds(&self) -> (r: &[(Weight, Weight)])
        ensures
            r@ == self.spec_bounds(),
    {
        self.bounds.as_slice()
    }

    /// Head of every arc.
    pub fn head(&self) -> (r: &[NodeId])
        ensures
            r@ == self.spec_head(),
    {
        self.head.as_slice()
    }

    /// Tail of every arc.
    pub fn tail(&self) -> (r: &[NodeId])
        ensures
            r@ == self.spec_tail(),
    {
        self.tail.as_slice()
    }

    /// Index of the first arc of each node, and one entry more.
    pub fn first_out(&self) -> (r: &[EdgeId])
        ensures
            r@ == self.spec_first_out(),
    {
        self.first_out.as_slice()
    }

    /// Index of the first source of each arc, and one entry more.
    pub fn first_source(&self) -> (r: &[usize])
        ensures
            r@ == self.spec_first_source(),
    {
        self.first_source.as_slice()
    }

    /// The sources of all arcs, one arc after the other.
    pub fn sources(&self) -> (r: &[(Timestamp, ShortcutSourceData)])
        ensures
            r@ == self.spec_sources(),
    {
        self.sources.as_slice()
    }

    /// Whether arc `edge_idx` is marked as constant.
    pub fn is_constant(&self, edge_idx: usize) -> (b: bool)
        requires
            self.arrays_ok(),
            edge_idx < self.spec_num_arcs(),
        ensures
            b == self.spec_constant()[edge_idx as int],
    {
        self.constant.get(edge_idx)
    }

    /// The sources of arc `edge_idx`.
    pub fn edge_sources(&self, edge_idx: usize) -> (r: &[(Timestamp, ShortcutSourceData)])
        requires
            self.arrays_ok(),
            edge_idx < self.spec_num_arcs(),
        ensures
            r@ == self.spec_edge_sources(edge_idx as int),
    {
        assert(self.first_source@[edge_idx as int] <= self.first_source@[edge_idx as int + 1]);
        slice_subrange(
            self.sources.as_slice(),
            self.first_source[edge_idx],
            self.first_source[edge_idx + 1],
        )
    }

    /// The source of arc `edge_idx` that is in force at `t`.
    pub fn edge_source_at(&self, edge_idx: usize, t: Timestamp) -> (r: Option<ShortcutSourceData>)
        requires
            self.arrays_ok(),
            edge_idx < self.spec_num_arcs(),
            spec_times_ok(spec_unpacked_sources(self.spec_edge_sources(edge_idx as int))),
        ensures
            r.is_none() == (self.spec_edge_sources(edge_idx as int).len() == 0),
            r matches Some(s) ==> s@ == spec_source_at(
                spec_unpacked_sources(self.spec_edge_sources(edge_idx as int)),
                t as int % (PERIOD as int),
            ),
    {
        let data = self.edge_sources(edge_idx);
        source_at(data, t)
    }
}

/// The moments of a path as numbers without a limit.
pub open spec fn spec_path_view(path: Seq<(EdgeId, Timestamp)>) -> Seq<(EdgeId, int)> {
    Seq::new(path.len(), |i: int| (path[i].0, path[i].1 as int))
}

/// A weighted hierarchy: the original graph, the topology of the hierarchy
/// and the weighted arcs of both directions.
#[derive(Debug)]
pub struct CustomizedGraph<'a> {
    pub original_graph: &'a TDGraph,
    first_out: &'a [EdgeId],
    head: &'a [NodeId],
    pub outgoing: CustomizedSingleDirGraph,
    pub incoming: CustomizedSingleDirGraph,
}

impl<'a> CustomizedGraph<'a> {
    /// The original graph.
    pub closed spec fn spec_original(&self) -> TDGraph {
        *self.original_graph
    }

    /// The upward arcs if `up`, else the downward arcs.
    pub closed spec fn spec_dir(&self, up: bool) -> CustomizedSingleDirGraph {
        if up {
            self.outgoing
        } else {
            self.incoming
        }
    }

    /// The hierarchy as the cost functions see it.
    pub open spec fn model(&self) -> ShortcutModel {
        ShortcutModel {
            original: self.spec_original().spec_plfs(),
            outgoing: self.spec_dir(true).arc_models(),
            incoming: self.spec_dir(false).arc_models(),
        }
    }

    /// Whether the hierarchy is in order: the original graph is, the arrays
    /// of both directions fit together and speak of the same nodes, every
    /// source names an original arc or arcs with a lower tail, and the lower
    /// bound of an arc marked as constant is at most `INFINITY`.
    pub open spec fn spec_wf(&self) -> bool {
        &&& self.spec_original().wf()
        &&& self.spec_dir(true).arrays_ok()
        &&& self.spec_dir(false).arrays_ok()
        &&& self.spec_dir(true).spec_num_nodes() == self.spec_dir(false).spec_num_nodes()
        &&& self.model().wf()
        &&& self.model().constants_in_range()
    }

    /// Whether the hierarchy is in order; `spec_wf` says what that means.
    #[verifier::opaque]
    pub open spec fn wf(&self) -> bool {
        self.spec_wf()
    }

    /// What a hierarchy in order gives for one of its arcs.
    pub proof fn lemma_arc(&self, up: bool, e: int, t: int)
        requires
            self.wf(),
            0 <= e < self.spec_dir(up).spec_num_arcs(),
            0 <= t,
        ensures
            self.spec_original().wf(),
            self.model().wf(),
            self.model().constants_in_range(),
            self.model().original.len() == self.spec_original().spec_num_arcs(),
            self.spec_dir(up).arrays_ok(),
            self.model().arcs(up).len() == self.spec_dir(up).spec_num_arcs(),
            self.model().arcs(up)[e].level == self.spec_dir(up).spec_tail()[e],
            self.model().arcs(up)[e].constant == self.spec_dir(up).spec_constant()[e],
            self.model().arcs(up)[e].lower == self.spec_dir(up).spec_bounds()[e].0,
            self.model().arcs(up)[e].sources == spec_unpacked_sources(
                self.spec_dir(up).spec_edge_sources(e),
            ),
            spec_times_ok(spec_unpacked_sources(self.spec_dir(up).spec_edge_sources(e))),
            self.model().source_ok(self.model().source(up, e, t), self.model().arcs(up)[e].level),
            forall|o: int|
                0 <= o < self.model().original.len() ==> #[trigger] self.model().original[o]
                    == self.spec_original().spec_plf(o),
    {
        reveal(CustomizedGraph::wf);
        let model = self.model();
        assert(model.arc_ok(model.arcs(up)[e]));
        model.lemma_source_ok(up, e, t);
    }

    /// A hierarchy from its parts.
    pub(crate) fn from_parts(
        original_graph: &'a TDGraph,
        first_out: &'a [EdgeId],
        head: &'a [NodeId],
        outgoing: CustomizedSingleDirGraph,
        incoming: CustomizedSingleDirGraph,
    ) -> (r: Self)
        ensures
            r.spec_original() == *original_graph,
            r.spec_dir(true) == outgoing,
            r.spec_dir(false) == incoming,
            r.spec_first_out() == first_out@,
            r.spec_head() == head@,
    {
        CustomizedGraph { original_graph, first_out, head, outgoing, incoming }
    }

    /// Index of the first arc of each node in the topology before compaction.
    pub closed spec fn spec_first_out(&self) -> Seq<EdgeId> {
        self.first_out@
    }

    /// Head of each arc in the topology before compaction.
    pub closed spec fn spec_head(&self) -> Seq<NodeId> {
        self.head@
    }

    /// The upward arcs if `up`, else the downward arcs.
    pub fn dir(&self, up: bool) -> (r: &CustomizedSingleDirGraph)
        ensures
            *r == self.spec_dir(up),
    {
        if up {
            &self.outgoing
        } else {
            &self.incoming
        }
    }

    /// The original graph.
    pub fn original(&self) -> (r: &TDGraph)
        ensures
            *r == self.spec_original(),
    {
        self.original_graph
    }
}

impl<'a> CustomizedGraph<'a> {
    /// The travel time across the upward (`up`) or downward arc `edge_id`
    /// when entering at `t`.  An arc marked as constant costs its lower
    /// bound; any other is unfolded along its source in force.
    #[verifier::spinoff_prover]
    pub fn evaluate(&self, up: bool, edge_id: EdgeId, t: Timestamp) -> (r: Weight)
        requires
            self.wf(),
            edge_id < self.spec_dir(up).spec_num_arcs(),
        ensures
            r as int == self.model().eval_fast(up, edge_id as int, t as int),
        decreases self.spec_dir(up).spec_tail()[edge_id as int],
    {
        let ghost model = self.model();
        let edge_idx = edge_id as usize;
        proof {
            self.lemma_arc(up, edge_id as int, t as int);
        }
        let dir = self.dir(up);
        if dir.is_constant(edge_idx) {
            return dir.lower_bound(edge_idx);
        }
        match dir.edge_source_at(edge_idx, t) {
            None => INFINITY,
            Some(data) => match data.source() {
                ShortcutSource::NoSource => INFINITY,
                ShortcutSource::OriginalEdge(edge) => {
                    self.original_graph.travel_time_function(edge).evaluate(t)
                },
                ShortcutSource::Shortcut(down, up_arc) => {
                    let at: Timestamp = t % PERIOD;
                    proof {
                        self.lemma_arc(false, down as int, t as int);
                        self.lemma_arc(true, up_arc as int, t as int);
                    }
                    let first = self.evaluate(false, down, at);
                    proof {
                        model.lemma_eval_fast_periodic(false, down as int, t as int);
                        model.lemma_eval_fast_range(false, down as int, t as int);
                    }
                    if first >= INFINITY {
                        INFINITY
                    } else {
                        let second = self.evaluate(true, up_arc, at + first);
                        proof {
                            model.lemma_eval_fast_shift(true, up_arc as int, t as int, first as int);
                        }
                        sat_add(first, second)
                    }
                },
            },
        }
    }

    /// Unfolds the upward (`up`) or downward arc `edge_id`, entered at `t`,
    /// into original arcs, and adds each with the moment at which it is
    /// entered to `result`.  Returns the moment of arrival.  Where there is
    /// no way across at `t`, or the arrival is not before `INFINITY`,
    /// nothing is added and nothing returned.
    #[verifier::spinoff_prover]
    #[verifier::rlimit(60)]
    pub fn unpack_at(
        &self,
        up: bool,
        edge_id: EdgeId,
        t: Timestamp,
        result: &mut Vec<(EdgeId, Timestamp)>,
    ) -> (r: Option<Timestamp>)
        requires
            self.wf(),
            edge_id < self.spec_dir(up).spec_num_arcs(),
        ensures
            r.is_some() == (t + self.model().eval(up, edge_id as int, t as int) < INFINITY),
            r matches Some(arrival) ==> arrival as int == t + self.model().eval(
                up,
                edge_id as int,
                t as int,
            ) && spec_path_view(final(result)@) == spec_path_view(old(result)@) + self.model().unpacked(
                up,
                edge_id as int,
                t as int,
            ),
            final(result)@.len() >= old(result)@.len(),
            final(result)@.take(old(result)@.len() as int) == old(result)@,
            r.is_none() ==> final(result)@ == old(result)@,
        decreases self.spec_dir(up).spec_tail()[edge_id as int],
    {
        let ghost model = self.model();
        let edge_idx = edge_id as usize;
        let start = result.len();
        proof {
            self.lemma_arc(up, edge_id as int, t as int);
            model.lemma_eval_range(up, edge_id as int, t as int);
            assert(result@.take(start as int) =~= result@);
        }
        if t >= INFINITY {
            return None;
        }
        let dir = self.dir(up);
        match dir.edge_source_at(edge_idx, t) {
            None => None,
            Some(data) => match data.source() {
                ShortcutSource::NoSource => None,
                ShortcutSource::OriginalEdge(edge) => {
                    let arrival: u64 = t as u64 + self.original_graph.travel_time_function(
                        edge,
                    ).evaluate(t) as u64;
                    if arrival >= INFINITY as u64 {
                        return None;
                    }
                    result.push((edge, t));
                    proof {
                        assert(spec_path_view(result@) =~= spec_path_view(old(result)@) + seq![
                            (edge, t as int),
                        ]);
                        assert(result@.take(start as int) =~= old(result)@);
                    }
                    Some(arrival as Timestamp)
                },
                ShortcutSource::Shortcut(down, up_arc) => {
                    proof {
                        self.lemma_arc(false, down as int, t as int);
                        self.lemma_arc(true, up_arc as int, t as int);
                        model.lemma_eval_range(false, down as int, t as int);
                        model.lemma_eval_range(
                            true,
                            up_arc as int,
                            t + model.eval(false, down as int, t as int),
                        );
                    }
                    let middle = match self.unpack_at(false, down, t, result) {
                        None => {
                            return None;
                        },
                        Some(middle) => middle,
                    };
                    let ghost first_path = model.unpacked(false, down as int, t as int);
                    let ghost after_first = result@;
                    match self.unpack_at(true, up_arc, middle, result) {
                        None => {
                            result.truncate(start);
                            proof {
                                assert(result@ =~= after_first.take(start as int));
                            }
                            None
                        },
                        Some(arrival) => {
                            proof {
                                assert(spec_path_view(result@) =~= spec_path_view(old(result)@) + (
                                first_path + model.unpacked(true, up_arc as int, middle as int)));
                                assert(result@.take(start as int) =~= result@.take(
                                    after_first.len() as int,
                                ).take(start as int));
                            }
                            Some(arrival)
                        },
                    }
                },
            },
        }
    }
}

impl CustomizedSingleDirGraph {
    /// The lower bound of arc `edge_idx`.
    pub fn lower_bound(&self, edge_idx: usize) -> (w: Weight)
        requires
            self.arrays_ok(),
            edge_idx < self.spec_num_arcs(),
        ensures
            w == self.spec_bounds()[edge_idx as int].0,
    {
        self.bounds[edge_idx].0
    }

    /// The travel time across arc `edge_id` of this direction of
    /// `customized_graph` when entering at `t`; `up` says which direction this is.
    pub fn evaluate(
        &self,
        edge_id: EdgeId,
        t: Timestamp,
        customized_graph: &CustomizedGraph,
        up: bool,
    ) -> (r: Weight)
        requires
            customized_graph.wf(),
            *self == customized_graph.spec_dir(up),
            edge_id < self.spec_num_arcs(),
        ensures
            r as int == customized_graph.model().eval_fast(up, edge_id as int, t as int),
    {
        customized_graph.evaluate(up, edge_id, t)
    }

    /// Unfolds arc `edge_id` of this direction of `customized_graph`,
    /// entered at `t`, into original arcs with their moments of entry, and
    /// returns the moment of arrival; `up` says which direction this is.
    pub fn unpack_at(
        &self,
        edge_id: EdgeId,
        t: Timestamp,
        customized_graph: &CustomizedGraph,
        up: bool,
        result: &mut Vec<(EdgeId, Timestamp)>,
    ) -> (r: Option<Timestamp>)
        requires
            customized_graph.wf(),
            *self == customized_graph.spec_dir(up),
            edge_id < self.spec_num_arcs(),
        ensures
            r.is_some() == (t + customized_graph.model().eval(up, edge_id as int, t as int) < INFINITY),
            r matches Some(arrival) ==> arrival as int == t + customized_graph.model().eval(
                up,
                edge_id as int,
                t as int,
            ) && spec_path_view(final(result)@) == spec_path_view(old(result)@)
                + customized_graph.model().unpacked(up, edge_id as int, t as int),
            r.is_none() ==> final(result)@ == old(result)@,
    {
        customized_graph.unpack_at(up, edge_id, t, result)
    }
}

impl CustomizedSingleDirGraph {
    /// The end of arc `e` that a search reaches: the head of an upward arc,
    /// the tail of a downward one.
    pub open spec fn spec_far_end(&self, up: bool, e: int) -> NodeId {
        if up {
            self.spec_head()[e]
        } else {
            self.spec_tail()[e]
        }
    }

    /// The end of arc `edge_idx` that a search reaches.
    pub fn far_end(&self, up: bool, edge_idx: usize) -> (node: NodeId)
        requires
            self.arrays_ok(),
            edge_idx < self.spec_num_arcs(),
        ensures
            node == self.spec_far_end(up, edge_idx as int),
    {
        if up {
            self.head[edge_idx]
        } else {
            self.tail[edge_idx]
        }
    }
}

impl<'a> CustomizedGraph<'a> {
    /// The first piece of the way across arc `e` that is looked at no
    /// closer when entering at `t`: the downward arcs of triangles in force
    /// are followed until an arc is met that is marked as constant or does
    /// not stand for a triangle.  The piece is given by its travel time, its
    /// far end and its arc; an arc without any source gives nothing.
    pub open spec fn spec_next_segment(&self, up: bool, e: int, t: int) -> Option<
        (Weight, NodeId, EdgeId),
    >
        decreases self.model().arcs(up)[e].level,
    {
        let arc = self.model().arcs(up)[e];
        let far_end = self.spec_dir(up).spec_far_end(up, e);
        if arc.constant {
            Some((arc.lower as Weight, far_end, e as EdgeId))
        } else if arc.sources.len() == 0 {
            None
        } else {
            match self.model().source(up, e, t) {
                ShortcutSource::Shortcut(down, up_arc) => if self.model().source_ok(
                    ShortcutSource::Shortcut(down, up_arc),
                    arc.level,
                ) {
                    self.spec_next_segment(false, down as int, t)
                } else {
                    None
                },
                ShortcutSource::OriginalEdge(edge) => Some(
                    (
                        spec_eval_periodic(self.model().original[edge as int], t) as Weight,
                        far_end,
                        e as EdgeId,
                    ),
                ),
                ShortcutSource::NoSource => Some((INFINITY, far_end, e as EdgeId)),
            }
        }
    }

    /// The upward arcs of the triangles that are passed on the way to the
    /// first piece, from the top down.
    pub open spec fn spec_marked(&self, up: bool, e: int, t: int) -> Seq<EdgeId>
        decreases self.model().arcs(up)[e].level,
    {
        let arc = self.model().arcs(up)[e];
        if arc.constant || arc.sources.len() == 0 {
            Seq::empty()
        } else {
            match self.model().source(up, e, t) {
                ShortcutSource::Shortcut(down, up_arc) => if self.model().source_ok(
                    ShortcutSource::Shortcut(down, up_arc),
                    arc.level,
                ) {
                    seq![up_arc] + self.spec_marked(false, down as int, t)
                } else {
                    Seq::empty()
                },
                _ => Seq::empty(),
            }
        }
    }

    /// The lower bounds to the target after the way to the first piece:
    /// at every triangle that is passed, the bound of the middle node is
    /// lowered to the bound of the far end plus the lower bound of the
    /// upward arc, if that is less.
    pub open spec fn spec_lowered(
        &self,
        bounds: Seq<Weight>,
        up: bool,
        e: int,
        t: int,
        target: Weight,
    ) -> Seq<Weight>
        decreases self.model().arcs(up)[e].level,
    {
        let arc = self.model().arcs(up)[e];
        if arc.constant || arc.sources.len() == 0 {
            bounds
        } else {
            match self.model().source(up, e, t) {
                ShortcutSource::Shortcut(down, up_arc) => if self.model().source_ok(
                    ShortcutSource::Shortcut(down, up_arc),
                    arc.level,
                ) {
                    let to_middle = spec_sat_add(
                        self.model().outgoing[up_arc as int].lower,
                        target as int,
                    ) as Weight;
                    let middle = self.model().incoming[down as int].level;
                    self.spec_lowered(
                        bounds.update(middle, spec_min(bounds[middle], to_middle)),
                        false,
                        down as int,
                        t,
                        to_middle,
                    )
                } else {
                    bounds
                },
                _ => bounds,
            }
        }
    }

    /// Evaluates the first original arc, or the first arc marked as
    /// constant, on the way across the upward (`up`) or downward arc
    /// `edge_id` when entering at `t`.  On the way down every upward arc of
    /// a triangle passed is added to `marked_upward`, and the lower bound to
    /// the target of every middle node is lowered in `lower_bounds_to_target`,
    /// starting from `lower_bound_target` at the far end of the arc.
    #[verifier::spinoff_prover]
    pub fn evaluate_next_segment_at(
        &self,
        up: bool,
        edge_id: EdgeId,
        t: Timestamp,
        lower_bound_target: Weight,
        lower_bounds_to_target: &mut TimestampedVector<Weight>,
        marked_upward: &mut Vec<EdgeId>,
    ) -> (r: Option<(Weight, NodeId, EdgeId)>)
        requires
            self.wf(),
            edge_id < self.spec_dir(up).spec_num_arcs(),
            old(lower_bounds_to_target).wf(),
            old(lower_bounds_to_target)@.len() == self.spec_dir(up).spec_num_nodes(),
        ensures
            r == self.spec_next_segment(up, edge_id as int, t as int),
            final(marked_upward)@ == old(marked_upward)@ + self.spec_marked(
                up,
                edge_id as int,
                t as int,
            ),
            final(lower_bounds_to_target).wf(),
            final(lower_bounds_to_target)@ == self.spec_lowered(
                old(lower_bounds_to_target)@,
                up,
                edge_id as int,
                t as int,
                lower_bound_target,
            ),
        decreases self.spec_dir(up).spec_tail()[edge_id as int],
    {
        let ghost model = self.model();
        let edge_idx = edge_id as usize;
        proof {
            self.lemma_arc(up, edge_id as int, t as int);
            self.lemma_nodes();
            assert(marked_upward@ + Seq::<EdgeId>::empty() =~= marked_upward@);
        }
        let dir = self.dir(up);
        if dir.is_constant(edge_idx) {
            return Some((dir.lower_bound(edge_idx), dir.far_end(up, edge_idx), edge_id));
        }
        match dir.edge_source_at(edge_idx, t) {
            None => None,
            Some(data) => match data.source() {
                ShortcutSource::Shortcut(down, up_arc) => {
                    proof {
                        self.lemma_arc(false, down as int, t as int);
                        self.lemma_arc(true, up_arc as int, t as int);
                    }
                    marked_upward.push(up_arc);
                    let to_middle = sat_add(
                        self.dir(true).lower_bound(up_arc as usize),
                        lower_bound_target,
                    );
                    let middle = self.dir(false).far_end(false, down as usize) as usize;
                    let known = *lower_bounds_to_target.get(middle);
                    lower_bounds_to_target.set(middle, if known <= to_middle { known } else { to_middle });
                    let ghost marked_before = marked_upward@;
                    let r = self.evaluate_next_segment_at(
                        false,
                        down,
                        t,
                        to_middle,
                        lower_bounds_to_target,
                        marked_upward,
                    );
                    proof {
                        assert(marked_upward@ =~= old(marked_upward)@ + (seq![up_arc] + self.spec_marked(
                            false,
                            down as int,
                            t as int,
                        )));
                    }
                    r
                },
                ShortcutSource::OriginalEdge(edge) => {
                    Some(
                        (
                            self.original_graph.travel_time_function(edge).evaluate(t),
                            dir.far_end(up, edge_idx),
                            edge_id,
                        ),
                    )
                },
                ShortcutSource::NoSource => Some((INFINITY, dir.far_end(up, edge_idx), edge_id)),
            },
        }
    }

    /// Both directions of a hierarchy in order speak of the same nodes.
    pub proof fn lemma_nodes(&self)
        requires
            self.wf(),
        ensures
            self.spec_dir(true).spec_num_nodes() == self.spec_dir(false).spec_num_nodes(),
            self.spec_dir(true).arrays_ok(),
            self.spec_dir(false).arrays_ok(),
    {
        reveal(CustomizedGraph::wf);
    }

    /// The bounds of the upward arcs, for the forward search on the elimination tree.
    pub fn upward_bounds_graph(&self) -> (r: SingleDirBoundsGraph<'_>)
        requires
            self.wf(),
        ensures
            r.wf(),
            r.spec_first_out() == self.spec_dir(true).spec_first_out(),
            r.spec_head() == self.spec_dir(true).spec_head(),
            r.spec_bounds() == self.spec_dir(true).spec_bounds(),
    {
        proof {
            self.lemma_nodes();
        }
        self.outgoing.bounds_graph()
    }

    /// The bounds of the downward arcs, for the backward search on the elimination tree.
    pub fn downward_bounds_graph(&self) -> (r: SingleDirBoundsGraph<'_>)
        requires
            self.wf(),
        ensures
            r.wf(),
            r.spec_first_out() == self.spec_dir(false).spec_first_out(),
            r.spec_head() == self.spec_dir(false).spec_head(),
            r.spec_bounds() == self.spec_dir(false).spec_bounds(),
    {
        proof {
            self.lemma_nodes();
        }
        self.incoming.bounds_graph()
    }
}

impl CustomizedSingleDirGraph {
    /// The topology and the bounds of this direction.
    pub fn bounds_graph(&self) -> (r: SingleDirBoundsGraph<'_>)
        requires
            self.arrays_ok(),
        ensures
            r.wf(),
            r.spec_first_out() == self.spec_first_out(),
            r.spec_head() == self.spec_head(),
            r.spec_bounds() == self.spec_bounds(),
    {
        let r = SingleDirBoundsGraph {
            first_out: self.first_out.as_slice(),
            head: self.head.as_slice(),
            bounds: self.bounds.as_slice(),
        };
        proof {
            assert forall|v: int, e: int|
                0 <= v < r.spec_num_nodes() && (#[trigger] r.spec_first_out()[v]) <= e
                    < r.spec_first_out()[v + 1] implies v < #[trigger] r.spec_head()[e] by {
                lemma_offsets_monotone(self.first_out@, self.head@.len() as int, v + 1, self.first_out@.len() - 1);
                let tail = self.tail@[e] as int;
                lemma_tail_unique(self.first_out@, self.head@.len() as int, e, tail);
                lemma_tail_unique(self.first_out@, self.head@.len() as int, e, v);
            }
        }
        r
    }

    /// Evaluates the first piece of the way across arc `edge_id` of this
    /// direction of `customized_graph`; `up` says which direction this is.
    pub fn evaluate_next_segment_at(
        &self,
        up: bool,
        edge_id: EdgeId,
        t: Timestamp,
        lower_bound_target: Weight,
        customized_graph: &CustomizedGraph,
        lower_bounds_to_target: &mut TimestampedVector<Weight>,
        marked_upward: &mut Vec<EdgeId>,
    ) -> (r: Option<(Weight, NodeId, EdgeId)>)
        requires
            customized_graph.wf(),
            *self == customized_graph.spec_dir(up),
            edge_id < self.spec_num_arcs(),
            old(lower_bounds_to_target).wf(),
            old(lower_bounds_to_target)@.len() == self.spec_num_nodes(),
        ensures
            r == customized_graph.spec_next_segment(up, edge_id as int, t as int),
            final(marked_upward)@ == old(marked_upward)@ + customized_graph.spec_marked(
                up,
                edge_id as int,
                t as int,
            ),
            final(lower_bounds_to_target).wf(),
            final(lower_bounds_to_target)@ == customized_graph.spec_lowered(
                old(lower_bounds_to_target)@,
                up,
                edge_id as int,
                t as int,
                lower_bound_target,
            ),
    {
        customized_graph.evaluate_next_segment_at(
            up,
            edge_id,
            t,
            lower_bound_target,
            lower_bounds_to_target,
            marked_upward,
        )
    }
}

/// The topology and the bounds of one direction of a weighted hierarchy,
/// borrowed for a search on the elimination tree.
#[derive(Debug)]
pub struct SingleDirBoundsGraph<'a> {
    first_out: &'a [EdgeId],
    head: &'a [NodeId],
    bounds: &'a [(Weight, Weight)],
}

impl<'a> SingleDirBoundsGraph<'a> {
    /// Index of the first arc of each node, and one entry more.
    pub closed spec fn spec_first_out(&self) -> Seq<EdgeId> {
        self.first_out@
    }

    /// Head of each arc.
    pub closed spec fn spec_head(&self) -> Seq<NodeId> {
        self.head@
    }

    /// Lower and upper bound of each arc.
    pub closed spec fn spec_bounds(&self) -> Seq<(Weight, Weight)> {
        self.bounds@
    }

    /// Number of nodes.
    pub open spec fn spec_num_nodes(&self) -> int {
        self.spec_first_out().len() - 1
    }

    /// Whether the arrays describe a graph with bounds whose arcs all lead to a higher node.
    pub open spec fn wf(&self) -> bool {
        &&& spec_valid_topology(self.spec_first_out(), self.spec_head())
        &&& self.spec_bounds().len() == self.spec_head().len()
        &&& forall|v: int, e: int|
            0 <= v < self.spec_num_nodes() && (#[trigger] self.spec_first_out()[v]) <= e
                < self.spec_first_out()[v + 1] ==> v < #[trigger] self.spec_head()[e]
    }

    /// Number of nodes.
    pub fn num_nodes(&self) -> (n: usize)
        requires
            self.wf(),
        ensures
            n == self.spec_num_nodes(),
    {
        self.first_out.len() - 1
    }

    /// The arcs that leave `node`, as a range of arc indices.
    pub fn neighbor_edge_indices_usize(&self, node: NodeId) -> (r: Range<usize>)
        requires
            self.wf(),
            node < self.spec_num_nodes(),
        ensures
            r.start == self.spec_first_out()[node as int],
            r.end == self.spec_first_out()[node as int + 1],
            r.start <= r.end <= self.spec_head().len(),
    {
        assert(self.first_out@.len() >= 1);
        assert(node < self.first_out@.len() - 1);
        proof {
            assert(self.first_out@[node as int] <= self.first_out@[node as int + 1]);
            lemma_offsets_monotone(
                self.first_out@,
                self.head@.len() as int,
                node as int + 1,
                self.first_out@.len() - 1,
            );
        }
        Range {
            start: self.first_out[node as usize] as usize,
            end: self.first_out[node as usize + 1] as usize,
        }
    }

    /// Head, identifier and bounds of every arc that leaves `node`.
    pub fn neighbor_iter(&self, node: NodeId) -> (r: Vec<((NodeId, EdgeId), (Weight, Weight))>)
        requires
            self.wf(),
            node < self.spec_num_nodes(),
        ensures
            r@.len() == self.spec_first_out()[node as int + 1] - self.spec_first_out()[node as int],
            forall|i: int|
                0 <= i < r@.len() ==> #[trigger] r@[i] == (
                    (
                        self.spec_head()[self.spec_first_out()[node as int] + i],
                        (self.spec_first_out()[node as int] + i) as EdgeId,
                    ),
                    self.spec_bounds()[self.spec_first_out()[node as int] + i],
                ),
    {
        let range = self.neighbor_edge_indices_usize(node);
        let mut r: Vec<((NodeId, EdgeId), (Weight, Weight))> = Vec::new();
        let mut e: usize = range.start;
        while e < range.end
            invariant
                range.start <= e <= range.end,
                range.end <= self.head@.len(),
                self.head@.len() <= u32::MAX,
                self.bounds@.len() == self.head@.len(),
                r@.len() == e - range.start,
                forall|i: int|
                    0 <= i < r@.len() ==> #[trigger] r@[i] == (
                        (self.head@[range.start + i], (range.start + i) as EdgeId),
                        self.bounds@[range.start + i],
                    ),
            decreases range.end - e,
        {
            r.push(((self.head[e], e as EdgeId), self.bounds[e]));
            e += 1;
        }
        r
    }
}

/// Goes on whatever the arc and the moment: for evaluations that are not to stop early.
pub fn always(_up: bool, _shortcut_id: EdgeId, _t: Timestamp) -> (r: bool)
    ensures
        r,
{
    true
}

impl<'a> Hierarchy for CustomizedGraph<'a> {
    open spec fn spec_hierarchy(&self) -> ShortcutModel {
        self.model()
    }

    open spec fn in_order(&self) -> bool {
        self.wf()
    }

    proof fn lemma_in_order(&self) {
        reveal(CustomizedGraph::wf);
    }

    fn source_count(&self, up: bool, edge_id: EdgeId) -> (n: usize) {
        proof {
            self.lemma_sizes(up);
            self.lemma_arc(up, edge_id as int, 0);
        }
        self.dir(up).edge_sources(edge_id as usize).len()
    }

    fn source_of(&self, up: bool, edge_id: EdgeId, i: usize) -> (s: ShortcutSource) {
        proof {
            self.lemma_sizes(up);
            self.lemma_arc(up, edge_id as int, 0);
        }
        self.dir(up).edge_sources(edge_id as usize)[i].1.source()
    }
}

impl<'a> CustomizedGraph<'a> {
    /// A hierarchy in order has as many arcs as its arrays hold, and functions on as many
    /// original arcs as the original graph has.
    pub proof fn lemma_sizes(&self, up: bool)
        requires
            self.wf(),
        ensures
            self.model().wf(),
            self.spec_original().wf(),
            self.spec_dir(up).arrays_ok(),
            self.model().arcs(up).len() == self.spec_dir(up).spec_num_arcs(),
            self.model().original.len() == self.spec_original().spec_num_arcs(),
    {
        reveal(CustomizedGraph::wf);
    }

    /// Marks the upward (`up`) or downward arc `edge_id` and everything
    /// that it rests on, down to the original arcs.  Downward arcs are
    /// marked at twice their identifier, upward arcs at the place after
    /// that.  An arc that is marked already is not looked into again.
    pub fn unpack(
        &self,
        up: bool,
        edge_id: EdgeId,
        unpacked_shortcuts: &mut BitVec,
        original_edges: &mut BitVec,
    )
        requires
            self.wf(),
            old(unpacked_shortcuts).wf(),
            old(original_edges).wf(),
            self.model().has_room(spec_marks(*old(unpacked_shortcuts), *old(original_edges))),
            edge_id < self.model().arcs(up).len(),
            self.model().closed(spec_marks(*old(unpacked_shortcuts), *old(original_edges))),
        ensures
            final(unpacked_shortcuts).wf(),
            final(original_edges).wf(),
            self.model().has_room(spec_marks(*final(unpacked_shortcuts), *final(original_edges))),
            self.model().closed(spec_marks(*final(unpacked_shortcuts), *final(original_edges))),
            spec_marks(*final(unpacked_shortcuts), *final(original_edges)).marked(up, edge_id as int),
            self.model().only_marked_for(
                spec_marks(*old(unpacked_shortcuts), *old(original_edges)),
                spec_marks(*final(unpacked_shortcuts), *final(original_edges)),
                up,
                edge_id as int,
            ),
    {
        mark(self, up, edge_id, unpacked_shortcuts, original_edges);
    }
}

} // verus!
