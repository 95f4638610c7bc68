//! A graph whose arcs carry travel time functions.
use vstd::prelude::*;
use vstd::slice::slice_subrange;
use core::ops::Range;
use crate::graph::first_out_graph::{lemma_offsets_monotone, spec_valid_topology, valid_topology};
use crate::graph::geometry::{Point, TTFPoint};
use crate::graph::plf::{
    check_fifo, check_frame, spec_eval_periodic, spec_fifo, spec_frame_ok, spec_valid_plf,
    PiecewiseLinearFunction,
};
use crate::types::{EdgeId, Link, NodeId, RoutingError, Timestamp, PERIOD};

verus! {

/// Index of an interpolation point in the arrays that are taken in.
pub type IPPIndex = u32;

/// Whether `first` gives every one of `m` arcs a range of at least one
/// point in an array of `k` points.
pub open spec fn spec_ipp_offsets(first: Seq<IPPIndex>, m: int, k: int) -> bool {
    &&& first.len() == m + 1
    &&& first[0] == 0
    &&& first[m] == k
    &&& forall|e: int| 0 <= e < m ==> (#[trigger] first[e]) < first[e + 1]
}

/// The points `start..end` of two parallel arrays.
pub open spec fn spec_points(dep: Seq<u32>, tt: Seq<u32>, start: int, end: int) -> Seq<Point> {
    Seq::new((end - start) as nat, |i: int| Point { at: dep[start + i] as i64, val: tt[start + i] as i64 })
}

/// The points after clean-up: a single point is moved to the start of the
/// period; several points get a first point at the start and a last point at
/// the end of the period where they lack them, both with the value of the
/// first point given.
#[verifier::opaque]
pub open spec fn spec_sanitized(pts: Seq<Point>) -> Seq<Point> {
    if pts.len() == 1 {
        seq![Point { at: 0, val: pts[0].val }]
    } else {
        let lead = if pts[0].at != 0 {
            seq![Point { at: 0, val: pts[0].val }]
        } else {
            Seq::<Point>::empty()
        };
        let trail = if pts[pts.len() - 1].at != PERIOD {
            seq![Point { at: PERIOD as i64, val: pts[0].val }]
        } else {
            Seq::<Point>::empty()
        };
        lead + pts + trail
    }
}

/// What is taken in: the two arrays of the topology and three of the functions.
pub struct RawGraph {
    pub first_out: Seq<EdgeId>,
    pub head: Seq<NodeId>,
    pub first_ipp_of_arc: Seq<IPPIndex>,
    pub ipp_departure_time: Seq<u32>,
    pub ipp_travel_time: Seq<u32>,
}

impl RawGraph {
    /// Whether the arrays fit together.
    pub open spec fn arrays_ok(self) -> bool {
        &&& spec_valid_topology(self.first_out, self.head)
        &&& self.ipp_travel_time.len() == self.ipp_departure_time.len()
        &&& spec_ipp_offsets(
            self.first_ipp_of_arc,
            self.head.len() as int,
            self.ipp_departure_time.len() as int,
        )
    }

    /// The points given for arc `e`.
    pub open spec fn points(self, e: int) -> Seq<Point> {
        spec_points(
            self.ipp_departure_time,
            self.ipp_travel_time,
            self.first_ipp_of_arc[e] as int,
            self.first_ipp_of_arc[e + 1] as int,
        )
    }

    /// Whether the arrays fit together and every cleaned function frames one period.
    pub open spec fn frame_ok(self) -> bool {
        &&& self.arrays_ok()
        &&& forall|e: int| 0 <= e < self.head.len() ==> spec_frame_ok(#[trigger] spec_sanitized(self.points(e)))
    }

    /// Whether on every cleaned function a later departure never arrives earlier.
    pub open spec fn fifo(self) -> bool {
        forall|e: int| 0 <= e < self.head.len() ==> spec_fifo(#[trigger] spec_sanitized(self.points(e)))
    }
}

/// Appends the cleaned points of one arc to `out`.
fn sanitize_into(
    dep: &Vec<u32>,
    tt: &Vec<u32>,
    start: usize,
    end: usize,
    out: &mut Vec<TTFPoint>,
)
    requires
        start < end <= dep@.len(),
        dep@.len() == tt@.len(),
    ensures
        final(out)@ == old(out)@ + spec_sanitized(spec_points(dep@, tt@, start as int, end as int)),
{
    let ghost pts = spec_points(dep@, tt@, start as int, end as int);
    let ghost before = out@;
    proof {
        reveal(spec_sanitized);
    }
    if end - start > 1 {
        if dep[start] != 0 {
            out.push(Point { at: 0, val: tt[start] as i64 });
        }
        let ghost lead = if pts[0].at != 0 {
            seq![Point { at: 0, val: pts[0].val }]
        } else {
            Seq::<Point>::empty()
        };
        assert(out@ =~= before + lead);
        let mut i: usize = start;
        while i < end
            invariant
                start <= i <= end,
                end <= dep@.len(),
                dep@.len() == tt@.len(),
                pts == spec_points(dep@, tt@, start as int, end as int),
                out@ == before + lead + pts.subrange(0, i - start),
            decreases end - i,
        {
            out.push(Point { at: dep[i] as i64, val: tt[i] as i64 });
            proof {
                assert(pts.subrange(0, i + 1 - start) =~= pts.subrange(0, i - start).push(pts[i - start]));
                assert(out@ =~= before + lead + pts.subrange(0, i + 1 - start));
            }
            i += 1;
        }
        assert(pts.subrange(0, end - start) =~= pts);
        if dep[end - 1] != PERIOD {
            out.push(Point { at: PERIOD as i64, val: tt[start] as i64 });
        }
        proof {
            let trail = if pts[pts.len() - 1].at != PERIOD {
                seq![Point { at: PERIOD as i64, val: pts[0].val }]
            } else {
                Seq::<Point>::empty()
            };
            assert(out@ =~= before + (lead + pts + trail));
        }
    } else {
        out.push(Point { at: 0, val: tt[start] as i64 });
        assert(out@ =~= before + seq![Point { at: 0, val: pts[0].val }]);
    }
}

/// The points between two neighbouring offsets.
pub open spec fn spec_arc_points(ipps: Seq<Point>, firsts: Seq<usize>, j: int) -> Seq<Point> {
    ipps.subrange(firsts[j] as int, firsts[j + 1] as int)
}

/// Cleans the points of every arc up and lays them out one arc after the
/// other.  `None` if an arc has no point.
fn clean_up(first_ipp_of_arc: &Vec<IPPIndex>, dep: &Vec<u32>, tt: &Vec<u32>, m: usize) -> (r: Option<
    (Vec<usize>, Vec<TTFPoint>),
>)
    requires
        first_ipp_of_arc@.len() == m + 1,
        dep@.len() == tt@.len(),
        first_ipp_of_arc@[0] == 0,
        first_ipp_of_arc@[m as int] == dep@.len(),
    ensures
        r.is_some() == spec_ipp_offsets(first_ipp_of_arc@, m as int, dep@.len() as int),
        r matches Some((firsts, ipps)) ==> {
            &&& firsts@.len() == m + 1
            &&& firsts@[0] == 0
            &&& firsts@[m as int] == ipps@.len()
            &&& forall|j: int| 0 <= j < m ==> (#[trigger] firsts@[j]) <= firsts@[j + 1] <= ipps@.len()
            &&& forall|j: int|
                0 <= j < m ==> #[trigger] spec_arc_points(ipps@, firsts@, j) == spec_sanitized(
                    spec_points(
                        dep@,
                        tt@,
                        first_ipp_of_arc@[j] as int,
                        first_ipp_of_arc@[j + 1] as int,
                    ),
                )
        },
{
    let k = dep.len();
    let mut ipps: Vec<TTFPoint> = Vec::new();
    let mut firsts: Vec<usize> = Vec::new();
    firsts.push(0);
    let mut e: usize = 0;
    while e < m
        invariant
            e <= m,
            k == dep@.len(),
            k == tt@.len(),
            first_ipp_of_arc@.len() == m + 1,
            first_ipp_of_arc@[m as int] == k,
            firsts@.len() == e + 1,
            firsts@[0] == 0,
            firsts@[e as int] == ipps@.len(),
            forall|j: int| 0 <= j < e ==> (#[trigger] first_ipp_of_arc@[j]) < first_ipp_of_arc@[j + 1],
            forall|j: int| 0 <= j < e ==> (#[trigger] firsts@[j]) <= firsts@[j + 1] <= ipps@.len(),
            forall|j: int|
                0 <= j < e ==> #[trigger] spec_arc_points(ipps@, firsts@, j) == spec_sanitized(
                    spec_points(
                        dep@,
                        tt@,
                        first_ipp_of_arc@[j] as int,
                        first_ipp_of_arc@[j + 1] as int,
                    ),
                ),
        decreases m - e,
    {
        let start = first_ipp_of_arc[e] as usize;
        let end = first_ipp_of_arc[e + 1] as usize;
        if start >= end {
            return None;
        }
        if end > k {
            proof {
                lemma_offsets_bounded(first_ipp_of_arc@, m as int, k as int, e as int + 1);
            }
            return None;
        }
        let ghost before = ipps@;
        sanitize_into(dep, tt, start, end, &mut ipps);
        let ghost firsts_before = firsts@;
        firsts.push(ipps.len());
        proof {
            assert forall|j: int| 0 <= j < e + 1 implies #[trigger] spec_arc_points(ipps@, firsts@, j)
                == spec_sanitized(
                spec_points(dep@, tt@, first_ipp_of_arc@[j] as int, first_ipp_of_arc@[j + 1] as int),
            ) by {
                if j < e {
                    assert(firsts@[j] == firsts_before[j]);
                    assert(firsts@[j + 1] == firsts_before[j + 1]);
                    assert(spec_arc_points(ipps@, firsts@, j) =~= spec_arc_points(
                        before,
                        firsts_before,
                        j,
                    ));
                } else {
                    assert(spec_arc_points(ipps@, firsts@, j) =~= spec_sanitized(
                        spec_points(
                            dep@,
                            tt@,
                            first_ipp_of_arc@[j] as int,
                            first_ipp_of_arc@[j + 1] as int,
                        ),
                    ));
                }
            }
            assert forall|j: int| 0 <= j < e + 1 implies (#[trigger] firsts@[j]) <= firsts@[j + 1]
                <= ipps@.len() by {
                if j < e {
                    assert(firsts@[j] == firsts_before[j]);
                    assert(firsts@[j + 1] == firsts_before[j + 1]);
                }
            }
        }
        e += 1;
    }
    Some((firsts, ipps))
}

/// A graph in adjacency array form whose arcs carry periodic piecewise
/// linear travel time functions.  All data is owned.
#[derive(Debug, Clone)]
pub struct Graph {
    first_out: Vec<EdgeId>,
    head: Vec<NodeId>,
    first_ipp_of_arc: Vec<usize>,
    ipps: Vec<TTFPoint>,
}

impl Graph {
    /// Index of the first arc of each node, and one entry more.
    pub closed spec fn spec_first_out(&self) -> Seq<EdgeId> {
        self.first_out@
    }

    /// Head of each arc.
    pub closed spec fn spec_head(&self) -> Seq<NodeId> {
        self.head@
    }

    /// Number of nodes.
    pub open spec fn spec_num_nodes(&self) -> int {
        self.spec_first_out().len() - 1
    }

    /// Number of arcs.
    pub open spec fn spec_num_arcs(&self) -> int {
        self.spec_head().len() as int
    }

    /// The points of the travel time function of arc `e`.
    pub closed spec fn spec_plf(&self, e: int) -> Seq<Point> {
        spec_arc_points(self.ipps@, self.first_ipp_of_arc@, e)
    }

    /// The travel time functions of all arcs.
    pub open spec fn spec_plfs(&self) -> Seq<Seq<Point>> {
        Seq::new(self.spec_num_arcs() as nat, |e: int| self.spec_plf(e))
    }

    /// Number of interpolation points of the first `k` arcs together.
    pub open spec fn spec_num_points(&self, k: int) -> int
        decreases k,
    {
        if k <= 0 {
            0
        } else {
            self.spec_num_points(k - 1) + self.spec_plf(k - 1).len()
        }
    }

    /// Number of interpolation points of all arcs together.
    pub open spec fn spec_num_ipps(&self) -> int {
        self.spec_num_points(self.spec_num_arcs())
    }

    /// Representation invariant: a valid topology, and a travel time
    /// function on every arc, laid out one after the other without gaps.
    pub closed spec fn wf(&self) -> bool {
        &&& spec_valid_topology(self.first_out@, self.head@)
        &&& self.first_ipp_of_arc@.len() == self.head@.len() + 1
        &&& self.first_ipp_of_arc@[0] == 0
        &&& self.first_ipp_of_arc@[self.head@.len() as int] == self.ipps@.len()
        &&& forall|e: int|
            0 <= e < self.head@.len() ==> (#[trigger] self.first_ipp_of_arc@[e]) < self.first_ipp_of_arc@[e
                + 1] <= self.ipps@.len()
        &&& forall|e: int| 0 <= e < self.head@.len() ==> spec_valid_plf(#[trigger] self.spec_plf(e))
    }

    /// What being well formed means for a caller.
    pub proof fn lemma_wf(&self)
        requires
            self.wf(),
        ensures
            spec_valid_topology(self.spec_first_out(), self.spec_head()),
            forall|e: int| 0 <= e < self.spec_num_arcs() ==> spec_valid_plf(#[trigger] self.spec_plf(e)),
    {
    }

    /// The travel time on arc `e` when entering at `t`.
    pub open spec fn spec_travel_time(&self, e: int, t: int) -> int {
        spec_eval_periodic(self.spec_plf(e), t)
    }

    /// Takes a graph from raw arrays and cleans the functions up: every
    /// function of several points gets a point at the start and one at the
    /// end of the period where it lacks them, every constant keeps its one
    /// point.  Arrays that do not fit together or a cleaned function that
    /// does not frame the period are malformed input; a function on which
    /// a later departure arrives earlier is refused as such.
    #[verifier::spinoff_prover]
    #[verifier::rlimit(100)]
    pub fn new(
        first_out: Vec<EdgeId>,
        head: Vec<NodeId>,
        first_ipp_of_arc: Vec<IPPIndex>,
        ipp_departure_time: Vec<u32>,
        ipp_travel_time: Vec<u32>,
    ) -> (r: Result<Graph, RoutingError>)
        ensures
            ({
                let raw = RawGraph {
                    first_out: first_out@,
                    head: head@,
                    first_ipp_of_arc: first_ipp_of_arc@,
                    ipp_departure_time: ipp_departure_time@,
                    ipp_travel_time: ipp_travel_time@,
                };
                &&& !raw.frame_ok() ==> r == Err::<Graph, RoutingError>(RoutingError::MalformedInput)
                &&& raw.frame_ok() && !raw.fifo() ==> r == Err::<Graph, RoutingError>(
                    RoutingError::NonFiFOWeight,
                )
                &&& raw.frame_ok() && raw.fifo() ==> r.is_ok() && r.unwrap().wf()
                    && r.unwrap().spec_first_out() == first_out@ && r.unwrap().spec_head() == head@
                    && forall|e: int|
                    0 <= e < head@.len() ==> #[trigger] r.unwrap().spec_plf(e) == spec_sanitized(
                        raw.points(e),
                    )
            }),
    {
        let ghost raw = RawGraph {
            first_out: first_out@,
            head: head@,
            first_ipp_of_arc: first_ipp_of_arc@,
            ipp_departure_time: ipp_departure_time@,
            ipp_travel_time: ipp_travel_time@,
        };
        let m = head.len();
        let k = ipp_departure_time.len();
        if !valid_topology(&first_out, &head) || ipp_travel_time.len() != k || first_ipp_of_arc.len()
            == 0 || first_ipp_of_arc.len() - 1 != m || first_ipp_of_arc[0] != 0
            || first_ipp_of_arc[m] as usize != k {
            return Err(RoutingError::MalformedInput);
        }
        let (firsts, ipps) = match clean_up(&first_ipp_of_arc, &ipp_departure_time, &ipp_travel_time, m) {
            None => {
                return Err(RoutingError::MalformedInput);
            },
            Some(cleaned) => cleaned,
        };
        assert(raw.arrays_ok());
        let graph = Graph { first_out, head, first_ipp_of_arc: firsts, ipps };
        proof {
            assert forall|j: int| 0 <= j < m implies #[trigger] graph.spec_plf(j) == spec_sanitized(
                raw.points(j),
            ) by {
                assert(spec_arc_points(graph.ipps@, graph.first_ipp_of_arc@, j) == spec_sanitized(
                    raw.points(j),
                ));
            }
        }
        if !graph.all_frames_ok() {
            proof {
                let j = choose|j: int| 0 <= j < m && !spec_frame_ok(#[trigger] graph.spec_plf(j));
                assert(!spec_frame_ok(spec_sanitized(raw.points(j))));
            }
            return Err(RoutingError::MalformedInput);
        }
        assert(raw.frame_ok()) by {
            assert forall|j: int| 0 <= j < raw.head.len() implies spec_frame_ok(
                #[trigger] spec_sanitized(raw.points(j)),
            ) by {
                assert(spec_frame_ok(graph.spec_plf(j)));
            }
        }
        if !graph.all_fifo() {
            proof {
                let j = choose|j: int| 0 <= j < m && !spec_fifo(#[trigger] graph.spec_plf(j));
                assert(!spec_fifo(spec_sanitized(raw.points(j))));
            }
            return Err(RoutingError::NonFiFOWeight);
        }
        proof {
            assert(raw.fifo()) by {
                assert forall|j: int| 0 <= j < raw.head.len() implies spec_fifo(
                    #[trigger] spec_sanitized(raw.points(j)),
                ) by {
                    assert(spec_fifo(graph.spec_plf(j)));
                }
            }
            assert forall|j: int| 0 <= j < graph.head@.len() implies (
            #[trigger] graph.first_ipp_of_arc@[j]) < graph.first_ipp_of_arc@[j + 1] by {
                assert(spec_frame_ok(graph.spec_plf(j)));
            }
        }
        Ok(graph)
    }

    /// Whether every arc has a range of points.
    spec fn ranges_ok(&self) -> bool {
        &&& self.first_ipp_of_arc@.len() == self.head@.len() + 1
        &&& forall|j: int|
            0 <= j < self.head@.len() ==> (#[trigger] self.first_ipp_of_arc@[j]) <= self.first_ipp_of_arc@[j
                + 1] <= self.ipps@.len()
    }

    /// Checks the frame of the function of every arc.
    fn all_frames_ok(&self) -> (ok: bool)
        requires
            self.ranges_ok(),
        ensures
            ok == forall|j: int| 0 <= j < self.head@.len() ==> spec_frame_ok(#[trigger] self.spec_plf(j)),
    {
        let m = self.head.len();
        let mut e: usize = 0;
        while e < m
            invariant
                e <= m,
                m == self.head@.len(),
                self.ranges_ok(),
                forall|j: int| 0 <= j < e ==> spec_frame_ok(#[trigger] self.spec_plf(j)),
            decreases m - e,
        {
            assert(self.first_ipp_of_arc@[e as int] <= self.first_ipp_of_arc@[e as int + 1]);
            let points = slice_subrange(
                self.ipps.as_slice(),
                self.first_ipp_of_arc[e],
                self.first_ipp_of_arc[e + 1],
            );
            assert(points@ == self.spec_plf(e as int));
            if !check_frame(points) {
                return false;
            }
            e += 1;
        }
        true
    }

    /// Checks on the function of every arc that a later departure never arrives earlier.
    fn all_fifo(&self) -> (ok: bool)
        requires
            self.ranges_ok(),
            forall|j: int| 0 <= j < self.head@.len() ==> spec_frame_ok(#[trigger] self.spec_plf(j)),
        ensures
            ok == forall|j: int| 0 <= j < self.head@.len() ==> spec_fifo(#[trigger] self.spec_plf(j)),
    {
        let m = self.head.len();
        let mut e: usize = 0;
        while e < m
            invariant
                e <= m,
                m == self.head@.len(),
                self.ranges_ok(),
                forall|j: int| 0 <= j < self.head@.len() ==> spec_frame_ok(#[trigger] self.spec_plf(j)),
                forall|j: int| 0 <= j < e ==> spec_fifo(#[trigger] self.spec_plf(j)),
            decreases m - e,
        {
            assert(self.first_ipp_of_arc@[e as int] <= self.first_ipp_of_arc@[e as int + 1]);
            let points = slice_subrange(
                self.ipps.as_slice(),
                self.first_ipp_of_arc[e],
                self.first_ipp_of_arc[e + 1],
            );
            assert(points@ == self.spec_plf(e as int));
            assert(spec_frame_ok(self.spec_plf(e as int)));
            if !check_fifo(points) {
                return false;
            }
            e += 1;
        }
        true
    }

    /// Number of nodes.
    pub fn num_nodes(&self) -> (n: usize)
        requires
            self.wf(),
        ensures
            n == self.spec_num_nodes(),
            n < u32::MAX,
    {
        self.first_out.len() - 1
    }

    /// Number of arcs.
    pub fn num_arcs(&self) -> (m: usize)
        ensures
            m == self.spec_num_arcs(),
    {
        self.head.len()
    }

    /// Number of arcs that leave `node`.
    pub fn degree(&self, node: NodeId) -> (d: usize)
        requires
            self.wf(),
            node < self.spec_num_nodes(),
        ensures
            d == self.spec_first_out()[node as int + 1] - self.spec_first_out()[node as int],
    {
        let r = self.neighbor_edge_indices_usize(node);
        r.end - r.start
    }

    /// The arcs that leave `node`, as a range of arc indices.
    pub fn neighbor_edge_indices_usize(&self, node: NodeId) -> (r: Range<usize>)
        requires
            self.wf(),
            node < self.spec_num_nodes(),
        ensures
            r.start == self.spec_first_out()[node as int],
            r.end == self.spec_first_out()[node as int + 1],
            r.start <= r.end <= self.spec_num_arcs(),
    {
        assert(self.first_out.len() >= 1);
        assert(node < self.first_out.len() - 1);
        proof {
            assert(self.first_out[node as int] <= self.first_out[node as int + 1]);
            lemma_offsets_monotone(
                self.first_out@,
                self.head.len() as int,
                node as int + 1,
                self.first_out.len() - 1,
            );
        }
        Range {
            start: self.first_out[node as usize] as usize,
            end: self.first_out[node as usize + 1] as usize,
        }
    }

    /// The arcs that leave `node`, as a range of arc identifiers.
    pub fn neighbor_edge_indices(&self, node: NodeId) -> (r: Range<EdgeId>)
        requires
            self.wf(),
            node < self.spec_num_nodes(),
        ensures
            r.start == self.spec_first_out()[node as int],
            r.end == self.spec_first_out()[node as int + 1],
            r.start <= r.end <= self.spec_num_arcs(),
    {
        let r = self.neighbor_edge_indices_usize(node);
        Range { start: r.start as EdgeId, end: r.end as EdgeId }
    }

    /// Head of arc `edge_id`, as a link without a weight.
    pub fn link(&self, edge_id: EdgeId) -> (l: Link)
        requires
            edge_id < self.spec_num_arcs(),
        ensures
            l.node == self.spec_head()[edge_id as int],
            l.weight == 0,
    {
        Link { node: self.head[edge_id as usize], weight: 0 }
    }

    /// Whether `e` is the first arc from `from` to `to`.
    pub open spec fn spec_is_first_edge(&self, e: int, from: int, to: int) -> bool {
        &&& 0 <= from < self.spec_num_nodes()
        &&& self.spec_first_out()[from] <= e < self.spec_first_out()[from + 1]
        &&& self.spec_head()[e] == to
        &&& forall|f: int| self.spec_first_out()[from] <= f < e ==> self.spec_head()[f] != to
    }

    /// The first arc from `from` to `to`.
    pub fn edge_index(&self, from: NodeId, to: NodeId) -> (r: Option<EdgeId>)
        requires
            self.wf(),
            from < self.spec_num_nodes(),
        ensures
            match r {
                Some(e) => self.spec_is_first_edge(e as int, from as int, to as int),
                None => forall|f: int|
                    self.spec_first_out()[from as int] <= f < self.spec_first_out()[from as int + 1]
                        ==> self.spec_head()[f] != to,
            },
    {
        let range = self.neighbor_edge_indices_usize(from);
        let mut e: usize = range.start;
        while e < range.end
            invariant
                range.start <= e <= range.end,
                range.end <= self.head.len(),
                from < self.first_out.len() - 1,
                range.start == self.first_out[from as int],
                range.end == self.first_out[from as int + 1],
                forall|f: int| range.start <= f < e ==> self.head[f] != to,
            decreases range.end - e,
        {
            if self.head[e] == to {
                return Some(e as EdgeId);
            }
            e += 1;
        }
        None
    }

    /// The travel time function of arc `edge_id`.
    pub fn travel_time_function(&self, edge_id: EdgeId) -> (f: PiecewiseLinearFunction<'_>)
        requires
            self.wf(),
            edge_id < self.spec_num_arcs(),
        ensures
            f@ == self.spec_plf(edge_id as int),
            f.wf(),
    {
        let points = slice_subrange(
            self.ipps.as_slice(),
            self.first_ipp_of_arc[edge_id as usize],
            self.first_ipp_of_arc[edge_id as usize + 1],
        );
        assert(spec_valid_plf(self.spec_plf(edge_id as int)));
        PiecewiseLinearFunction::new(points)
    }

    /// Head and identifier of every arc that leaves `node`.
    pub fn neighbor_and_edge_id_iter(&self, node: NodeId) -> (r: Vec<(NodeId, EdgeId)>)
        requires
            self.wf(),
            node < self.spec_num_nodes(),
        ensures
            r@.len() == self.spec_first_out()[node as int + 1] - self.spec_first_out()[node as int],
            forall|i: int|
                0 <= i < r@.len() ==> #[trigger] r@[i] == (
                    self.spec_head()[self.spec_first_out()[node as int] + i],
                    (self.spec_first_out()[node as int] + i) as EdgeId,
                ),
    {
        let range = self.neighbor_edge_indices_usize(node);
        let mut r: Vec<(NodeId, EdgeId)> = Vec::new();
        let mut e: usize = range.start;
        while e < range.end
            invariant
                range.start <= e <= range.end,
                range.end <= self.head.len(),
                self.head.len() <= u32::MAX,
                r@.len() == e - range.start,
                forall|i: int|
                    0 <= i < r@.len() ==> #[trigger] r@[i] == (
                        self.head[range.start + i],
                        (range.start + i) as EdgeId,
                    ),
            decreases range.end - e,
        {
            r.push((self.head[e], e as EdgeId));
            e += 1;
        }
        r
    }

    /// Head and identifier of every arc that leaves `node`.
    pub fn link_iter(&self, node: NodeId) -> (r: Vec<(NodeId, EdgeId)>)
        requires
            self.wf(),
            node < self.spec_num_nodes(),
        ensures
            r@.len() == self.spec_first_out()[node as int + 1] - self.spec_first_out()[node as int],
            forall|i: int|
                0 <= i < r@.len() ==> #[trigger] r@[i] == (
                    self.spec_head()[self.spec_first_out()[node as int] + i],
                    (self.spec_first_out()[node as int] + i) as EdgeId,
                ),
    {
        self.neighbor_and_edge_id_iter(node)
    }

    /// Index of the first arc of each node, and one entry more.
    pub fn first_out(&self) -> (r: &[EdgeId])
        ensures
            r@ == self.spec_first_out(),
    {
        self.first_out.as_slice()
    }

    /// Head of each arc.
    pub fn head(&self) -> (r: &[NodeId])
        ensures
            r@ == self.spec_head(),
    {
        self.head.as_slice()
    }

    /// Whether the step from `a` to `b` takes the first arc between the two
    /// nodes and arrives exactly when that arc says.
    pub open spec fn spec_step_ok(&self, a: (NodeId, Timestamp), b: (NodeId, Timestamp)) -> bool {
        exists|e: int|
            #[trigger] self.spec_is_first_edge(e, a.0 as int, b.0 as int) && b.1 as int == a.1
                + self.spec_travel_time(e, a.1 as int)
    }

    /// Whether every step of a path with moments is in order.
    pub open spec fn spec_path_ok(&self, path: Seq<(NodeId, Timestamp)>) -> bool {
        forall|i: int| 0 <= i < path.len() - 1 ==> self.spec_step_ok(#[trigger] path[i], path[i + 1])
    }

    /// Checks that a path with moments follows arcs of the graph and that its
    /// moments are those that the travel time functions give.
    pub fn check_path(&self, path: Vec<(NodeId, Timestamp)>) -> (ok: bool)
        requires
            self.wf(),
            path@.len() >= 1,
        ensures
            ok == self.spec_path_ok(path@),
    {
        let n = self.num_nodes();
        let last = path.len() - 1;
        let mut i: usize = 0;
        while i < last
            invariant
                i <= last,
                last == path@.len() - 1,
                self.wf(),
                n == self.spec_num_nodes(),
                forall|j: int| 0 <= j < i ==> self.spec_step_ok(#[trigger] path@[j], path@[j + 1]),
            decreases path@.len() - i,
        {
            let (prev_node, prev_t) = path[i];
            let (node, t) = path[i + 1];
            if prev_node as usize >= n {
                proof {
                    assert forall|e: int| !self.spec_is_first_edge(e, prev_node as int, node as int) by {}
                    assert(!self.spec_step_ok(path@[i as int], path@[i + 1]));
                }
                return false;
            }
            match self.edge_index(prev_node, node) {
                None => {
                    proof {
                        assert forall|e: int| !self.spec_is_first_edge(e, prev_node as int, node as int) by {}
                        assert(!self.spec_step_ok(path@[i as int], path@[i + 1]));
                    }
                    return false;
                },
                Some(edge) => {
                    proof {
                        self.lemma_edge_in_range(prev_node as int, edge as int);
                    }
                    let evaled: u64 = prev_t as u64 + self.travel_time_function(edge).evaluate(
                        prev_t,
                    ) as u64;
                    proof {
                        assert forall|e: int|
                            #[trigger] self.spec_is_first_edge(
                                e,
                                prev_node as int,
                                node as int,
                            ) implies e == edge by {}
                    }
                    if t as u64 != evaled {
                        assert(!self.spec_step_ok(path@[i as int], path@[i + 1]));
                        return false;
                    }
                    assert(self.spec_is_first_edge(edge as int, prev_node as int, node as int));
                },
            }
            i += 1;
        }
        true
    }

    /// An arc in the range of a node is an arc of the graph.
    pub proof fn lemma_edge_in_range(&self, node: int, e: int)
        requires
            self.wf(),
            0 <= node < self.spec_num_nodes(),
            self.spec_first_out()[node] <= e < self.spec_first_out()[node + 1],
        ensures
            0 <= e < self.spec_num_arcs(),
    {
        lemma_offsets_monotone(self.first_out@, self.head.len() as int, node + 1, self.first_out.len() - 1);
    }

    /// The first `k` arcs have as many points as lie before the first point of arc `k`.
    proof fn lemma_num_points(&self, k: int)
        requires
            self.wf(),
            0 <= k <= self.head@.len(),
        ensures
            self.spec_num_points(k) == self.first_ipp_of_arc@[k],
        decreases k,
    {
        if k > 0 {
            self.lemma_num_points(k - 1);
            assert(self.first_ipp_of_arc@[k - 1] < self.first_ipp_of_arc@[k - 1 + 1]);
        }
    }

    /// Number of interpolation points of all arcs together.
    pub fn num_ipps(&self) -> (n: usize)
        requires
            self.wf(),
        ensures
            n == self.spec_num_ipps(),
    {
        proof {
            self.lemma_num_points(self.head@.len() as int);
        }
        self.ipps.len()
    }

    /// Number of the first `k` arcs whose function is a constant.
    pub open spec fn spec_num_constant(&self, k: int) -> int
        decreases k,
    {
        if k <= 0 {
            0
        } else {
            self.spec_num_constant(k - 1) + if self.spec_plf(k - 1).len() == 1 { 1int } else { 0int }
        }
    }

    /// Number of arcs whose function is a constant.
    pub fn num_constant(&self) -> (n: usize)
        requires
            self.wf(),
        ensures
            n == self.spec_num_constant(self.spec_num_arcs()),
    {
        let m = self.head.len();
        let mut n: usize = 0;
        let mut e: usize = 0;
        while e < m
            invariant
                e <= m,
                m == self.head@.len(),
                self.wf(),
                n == self.spec_num_constant(e as int),
                n <= e,
            decreases m - e,
        {
            if self.first_ipp_of_arc[e + 1] - self.first_ipp_of_arc[e] == 1 {
                n += 1;
            }
            e += 1;
        }
        n
    }
}

/// Offsets that strictly grow up to `k` are at most `k`.
proof fn lemma_offsets_bounded(first: Seq<IPPIndex>, m: int, k: int, e: int)
    requires
        first.len() == m + 1,
        first[m] == k,
        0 <= e <= m,
        first[e] > k,
    ensures
        exists|j: int| 0 <= j < m && (#[trigger] first[j]) >= first[j + 1],
    decreases m - e,
{
    if e < m {
        if first[e] >= first[e + 1] {
        } else {
            lemma_offsets_bounded(first, m, k, e + 1);
        }
    }
}

} // verus!
