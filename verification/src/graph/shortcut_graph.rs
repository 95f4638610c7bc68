//! Shortcuts while a hierarchy is being weighted, and the compact graph that results.
use vstd::prelude::*;
use core::ops::Range;
use crate::datastr::rank_select_map::BitVec;
pub use crate::graph::marking::spec_marks;
use crate::graph::marking::{mark, Hierarchy};
use crate::graph::shortcut::Marks;
use crate::graph::shortcut::{source_at, spec_pieces, spec_unpacked_sources, ArcModel, ShortcutModel, ShortcutSource, ShortcutSourceData, Sources};
use crate::graph::td_graph::Graph as TDGraph;
use crate::types::{sat_add, EdgeId, Timestamp, Weight, INFINITY, PERIOD};

verus! {

/// An arc of the hierarchy while it is being weighted: its sources, bounds
/// on its travel time, and whether some shortest path needs it.
#[derive(Debug)]
pub struct Shortcut {
    pub sources: Vec<(Timestamp, ShortcutSourceData)>,
    pub lower_bound: Weight,
    pub upper_bound: Weight,
    pub required: bool,
}

impl Shortcut {
    /// The sources with the moments from which they are in force.
    pub open spec fn spec_sources(&self) -> Sources {
        spec_unpacked_sources(self.sources@)
    }

    /// The sources as they are stored.
    pub open spec fn spec_data(&self) -> Seq<(Timestamp, ShortcutSourceData)> {
        self.sources@
    }

    /// A shortcut from its parts.
    pub fn new(
        sources: Vec<(Timestamp, ShortcutSourceData)>,
        lower_bound: Weight,
        upper_bound: Weight,
        required: bool,
    ) -> (s: Self)
        ensures
            s.spec_data() == sources@,
            s.lower_bound == lower_bound,
            s.upper_bound == upper_bound,
            s.required == required,
    {
        Shortcut { sources, lower_bound, upper_bound, required }
    }

    /// The bounds on the travel time.
    pub fn bounds(&self) -> (r: (Weight, Weight))
        ensures
            r == (self.lower_bound, self.upper_bound),
    {
        (self.lower_bound, self.upper_bound)
    }

    /// Whether the travel time is the same at all times, as far as the bounds tell.
    pub fn is_constant(&self) -> (b: bool)
        ensures
            b == (self.lower_bound == self.upper_bound),
    {
        self.lower_bound == self.upper_bound
    }

    /// Number of sources.
    pub fn num_sources(&self) -> (n: usize)
        ensures
            n == self.spec_data().len(),
    {
        self.sources.len()
    }

    /// The sources as they are stored.
    pub fn sources(&self) -> (r: &Vec<(Timestamp, ShortcutSourceData)>)
        ensures
            r@ == self.spec_data(),
    {
        &self.sources
    }

    /// Whether the shortcut stands for anything.
    pub fn is_valid_path(&self) -> (b: bool)
        ensures
            b == (self.spec_data().len() > 0),
    {
        self.sources.len() > 0
    }
}

/// The arcs with identifiers from `offset` on as the cost functions see
/// them; the level of an arc is its identifier, and the identifiers below
/// `offset` stand for arcs without a source.
pub open spec fn spec_arc_models(shortcuts: Seq<Shortcut>, offset: int) -> Seq<ArcModel> {
    Seq::new(
        (offset + shortcuts.len()) as nat,
        |e: int|
            ArcModel {
                level: e,
                sources: if e >= offset {
                    shortcuts[e - offset].spec_sources()
                } else {
                    Seq::empty()
                },
                lower: if e >= offset {
                    shortcuts[e - offset].lower_bound as int
                } else {
                    INFINITY as int
                },
                upper: if e >= offset {
                    shortcuts[e - offset].upper_bound as int
                } else {
                    INFINITY as int
                },
                constant: false,
            },
    )
}

/// A part of a hierarchy that is being weighted: the original graph and the
/// upward and downward shortcuts with identifiers from `offset` on.
#[derive(Debug)]
pub struct PartialShortcutGraph<'a> {
    pub original_graph: &'a TDGraph,
    outgoing: &'a [Shortcut],
    incoming: &'a [Shortcut],
    offset: usize,
}

impl<'a> PartialShortcutGraph<'a> {
    /// The upward shortcuts.
    pub closed spec fn spec_outgoing(&self) -> Seq<Shortcut> {
        self.outgoing@
    }

    /// The downward shortcuts.
    pub closed spec fn spec_incoming(&self) -> Seq<Shortcut> {
        self.incoming@
    }

    /// The identifier of the first shortcut of both directions.
    pub closed spec fn spec_offset(&self) -> int {
        self.offset as int
    }

    /// The original graph.
    pub closed spec fn spec_original(&self) -> TDGraph {
        *self.original_graph
    }

    /// The part as the cost functions see it.
    pub open spec fn model(&self) -> ShortcutModel {
        ShortcutModel {
            original: self.spec_original().spec_plfs(),
            outgoing: spec_arc_models(self.spec_outgoing(), self.spec_offset()),
            incoming: spec_arc_models(self.spec_incoming(), self.spec_offset()),
        }
    }

    /// Whether the part is in order: identifiers fit in 32 bits, and every
    /// source names an original arc or shortcuts of this part with smaller identifiers.
    pub open spec fn wf(&self) -> bool {
        &&& self.spec_original().wf()
        &&& self.spec_offset() + self.spec_outgoing().len() <= u32::MAX
        &&& self.spec_offset() + self.spec_incoming().len() <= u32::MAX
        &&& self.model().wf()
    }

    /// How many arcs the cost functions see: those below the first
    /// identifier, which have no source, and the shortcuts.
    pub proof fn lemma_model_sizes(&self)
        ensures
            0 <= self.spec_offset(),
            self.model().outgoing.len() == self.spec_offset() + self.spec_outgoing().len(),
            self.model().incoming.len() == self.spec_offset() + self.spec_incoming().len(),
    {
    }

    /// Puts the original graph, shortcuts of both directions and the
    /// identifier of the first of them together.
    pub fn new(
        original_graph: &'a TDGraph,
        outgoing: &'a [Shortcut],
        incoming: &'a [Shortcut],
        offset: usize,
    ) -> (g: PartialShortcutGraph<'a>)
        ensures
            g.spec_original() == *original_graph,
            g.spec_outgoing() == outgoing@,
            g.spec_incoming() == incoming@,
            g.spec_offset() == offset,
    {
        PartialShortcutGraph { original_graph, outgoing, incoming, offset }
    }

    /// The upward shortcut with identifier `edge_id`.
    pub fn get_outgoing(&self, edge_id: EdgeId) -> (s: &Shortcut)
        requires
            self.spec_offset() <= edge_id < self.spec_offset() + self.spec_outgoing().len(),
        ensures
            *s == self.spec_outgoing()[edge_id - self.spec_offset()],
    {
        &self.outgoing[edge_id as usize - self.offset]
    }

    /// The downward shortcut with identifier `edge_id`.
    pub fn get_incoming(&self, edge_id: EdgeId) -> (s: &Shortcut)
        requires
            self.spec_offset() <= edge_id < self.spec_offset() + self.spec_incoming().len(),
        ensures
            *s == self.spec_incoming()[edge_id - self.spec_offset()],
    {
        &self.incoming[edge_id as usize - self.offset]
    }

    /// Whether an upward (`up`) or downward shortcut with identifier `edge_id` is part of this.
    pub fn has(&self, up: bool, edge_id: EdgeId) -> (b: bool)
        ensures
            b == (self.spec_offset() <= edge_id < self.spec_offset() + (if up {
                self.spec_outgoing()
            } else {
                self.spec_incoming()
            }).len()),
    {
        let len = if up { self.outgoing.len() } else { self.incoming.len() };
        edge_id as usize >= self.offset && edge_id as usize - self.offset < len
    }

    /// The travel time across the upward (`up`) or downward shortcut
    /// `edge_id` when entering at `t`, found by unfolding its source in force.
    pub fn evaluate(&self, up: bool, edge_id: EdgeId, t: Timestamp) -> (r: Weight)
        requires
            self.wf(),
        ensures
            r as int == self.model().eval(up, edge_id as int, t as int),
        decreases edge_id,
    {
        let ghost model = self.model();
        if !self.has(up, edge_id) {
            proof {
                if edge_id < model.arcs(up).len() {
                    assert(model.arcs(up)[edge_id as int].sources.len() == 0);
                }
            }
            return INFINITY;
        }
        let shortcut = if up { self.get_outgoing(edge_id) } else { self.get_incoming(edge_id) };
        proof {
            assert(model.arcs(up)[edge_id as int].sources == shortcut.spec_sources());
            assert(model.arc_ok(model.arcs(up)[edge_id as int]));
            model.lemma_source_ok(up, edge_id as int, t as int);
        }
        match source_at(shortcut.sources.as_slice(), t) {
            None => INFINITY,
            Some(data) => match data.source() {
                ShortcutSource::NoSource => INFINITY,
                ShortcutSource::OriginalEdge(edge) => {
                    assert(model.original[edge as int] == self.original_graph.spec_plf(edge as int));
                    self.original_graph.travel_time_function(edge).evaluate(t)
                },
                ShortcutSource::Shortcut(down, up_arc) => {
                    let at: Timestamp = t % PERIOD;
                    let first = self.evaluate(false, down, at);
                    proof {
                        model.lemma_eval_periodic(false, down as int, t as int);
                        model.lemma_eval_range(false, down as int, t as int);
                    }
                    if first >= INFINITY {
                        INFINITY
                    } else {
                        let second = self.evaluate(true, up_arc, at + first);
                        proof {
                            model.lemma_eval_shift(true, up_arc as int, t as int, first as int);
                        }
                        sat_add(first, second)
                    }
                },
            },
        }
    }
}

impl<'a> PartialShortcutGraph<'a> {
    /// Whether some source of the upward (`up`) or downward shortcut
    /// `edge_id`, or of a shortcut that it rests on, is a triangle with an
    /// arc with the identifier `id`.
    pub fn mentions(&self, up: bool, edge_id: EdgeId, id: EdgeId) -> (r: bool)
        requires
            self.wf(),
        ensures
            r == self.model().mentions(
                up,
                edge_id as int,
                id,
                (if edge_id < self.model().arcs(up).len() {
                    self.model().arcs(up)[edge_id as int].sources.len()
                } else {
                    0
                }) as int,
            ),
        decreases edge_id,
    {
        let ghost model = self.model();
        if !self.has(up, edge_id) {
            proof {
                if edge_id < model.arcs(up).len() {
                    assert(model.arcs(up)[edge_id as int].sources.len() == 0);
                }
            }
            return false;
        }
        let shortcut = if up { self.get_outgoing(edge_id) } else { self.get_incoming(edge_id) };
        let ghost arc = model.arcs(up)[edge_id as int];
        proof {
            assert(arc.sources == shortcut.spec_sources());
            assert(model.arc_ok(arc));
        }
        let n = shortcut.sources.len();
        let mut found = false;
        let mut i: usize = 0;
        while i < n
            invariant
                i <= n,
                self.wf(),
                model == self.model(),
                edge_id < model.arcs(up).len(),
                arc == model.arcs(up)[edge_id as int],
                arc.level == edge_id,
                arc.sources == shortcut.spec_sources(),
                n == shortcut.sources@.len(),
                model.arc_ok(arc),
                found == model.mentions(up, edge_id as int, id, i as int),
            decreases n - i,
        {
            proof {
                assert(model.source_ok(arc.sources[i as int].1, arc.level));
                assert(arc.sources[i as int].1 == shortcut.sources@[i as int].1@);
            }
            match shortcut.sources[i].1.source() {
                ShortcutSource::Shortcut(down, up_arc) => {
                    if down == id || up_arc == id || self.mentions(false, down, id) || self.mentions(
                        true,
                        up_arc,
                        id,
                    ) {
                        found = true;
                    }
                },
                _ => {},
            }
            i += 1;
        }
        found
    }
}

impl<'a> PartialShortcutGraph<'a> {
    /// Bounds on the travel time across the upward (`up`) or downward
    /// shortcut `edge_id` for the departures of `range`, a range of moments
    /// within the period that is not empty.  They are found from the
    /// sources that are in force within the range; they hold, and they are
    /// the least and the greatest travel time where the shortcut stands
    /// for original arcs only.
    pub fn bounds_for(&self, up: bool, edge_id: EdgeId, range: &Range<Timestamp>) -> (r: (Weight, Weight))
        requires
            self.wf(),
            range.start < range.end <= PERIOD,
        ensures
            (r.0 as int, r.1 as int) == self.model().bounds_for(
                up,
                edge_id as int,
                range.start as int,
                range.end as int,
            ),
            r.0 <= INFINITY,
            r.1 <= INFINITY,
            forall|t: int|
                range.start <= t < range.end ==> r.0 <= #[trigger] self.model().eval(
                    up,
                    edge_id as int,
                    t,
                ) <= r.1,
        decreases edge_id, 1int,
    {
        let ghost model = self.model();
        proof {
            assert forall|t: int| range.start <= t < range.end implies model.bounds_for(
                up,
                edge_id as int,
                range.start as int,
                range.end as int,
            ).0 <= #[trigger] model.eval(up, edge_id as int, t) <= model.bounds_for(
                up,
                edge_id as int,
                range.start as int,
                range.end as int,
            ).1 by {
                if edge_id < model.arcs(up).len() {
                    model.lemma_bounds_for(
                        up,
                        edge_id as int,
                        range.start as int,
                        range.end as int,
                        t,
                    );
                }
            }
        }
        if !self.has(up, edge_id) {
            proof {
                if edge_id < model.arcs(up).len() {
                    assert(model.arcs(up)[edge_id as int].sources.len() == 0);
                }
            }
            return (INFINITY, INFINITY);
        }
        let shortcut = if up { self.get_outgoing(edge_id) } else { self.get_incoming(edge_id) };
        let ghost arc = model.arcs(up)[edge_id as int];
        proof {
            assert(arc.sources == shortcut.spec_sources());
            assert(model.arc_ok(arc));
        }
        let n = shortcut.sources.len();
        if n == 0 {
            return (INFINITY, INFINITY);
        }
        let mut lower: Weight = INFINITY;
        let mut upper: Weight = 0;
        let mut k: usize = 0;
        while k < n
            invariant
                k <= n,
                self.wf(),
                model == self.model(),
                edge_id < model.arcs(up).len(),
                arc == model.arcs(up)[edge_id as int],
                arc.level == edge_id,
                arc.sources == shortcut.spec_sources(),
                n == shortcut.sources@.len(),
                model.arc_ok(arc),
                range.start < range.end <= PERIOD,
                (lower as int, upper as int) == model.bounds_from(
                    up,
                    edge_id as int,
                    range.start as int,
                    range.end as int,
                    k as int,
                ),
                lower <= INFINITY,
                upper <= INFINITY,
            decreases n - k,
        {
            proof {
                assert(model.source_ok(arc.sources[k as int].1, arc.level));
                assert(arc.sources[k as int].1 == shortcut.sources@[k as int].1@);
                assert(arc.sources[k as int].0 < PERIOD);
            }
            let since = shortcut.sources[k].0;
            let first = if range.start >= since { range.start } else { since };
            let until = if k + 1 < n { shortcut.sources[k + 1].0 } else { PERIOD };
            let last = if range.end <= until { range.end } else { until };
            if first < last {
                let (low, high) = self.source_bounds(
                    shortcut.sources[k].1.source(),
                    edge_id,
                    &(first..last),
                );
                if low < lower {
                    lower = low;
                }
                if high > upper {
                    upper = high;
                }
            }
            k += 1;
        }
        (lower, upper)
    }

    /// Bounds on the travel time along `source`, which stands in a
    /// shortcut with the identifier `level`, for the departures of `range`.
    pub fn source_bounds(&self, source: ShortcutSource, level: EdgeId, range: &Range<Timestamp>) -> (r: (
        Weight,
        Weight,
    ))
        requires
            self.wf(),
            self.model().source_ok(source, level as int),
            range.start < range.end <= PERIOD,
        ensures
            (r.0 as int, r.1 as int) == self.model().source_bounds(
                source,
                level as int,
                range.start as int,
                range.end as int,
            ),
            r.0 <= INFINITY,
            r.1 <= INFINITY,
        decreases level, 0int,
    {
        let ghost model = self.model();
        match source {
            ShortcutSource::NoSource => (INFINITY, INFINITY),
            ShortcutSource::OriginalEdge(edge) => {
                proof {
                    assert(model.original[edge as int] == self.original_graph.spec_plf(edge as int));
                }
                self.original_graph.travel_time_function(edge).bounds_for(range)
            },
            ShortcutSource::Shortcut(down, up_arc) => {
                proof {
                    assert(model.incoming[down as int].level == down);
                    assert(model.outgoing[up_arc as int].level == up_arc);
                }
                let first = self.bounds_for(false, down, range);
                if first.0 >= INFINITY {
                    return (INFINITY, INFINITY);
                }
                let from: u64 = range.start as u64 + first.0 as u64;
                let to: u64 = range.end as u64 + first.1 as u64;
                let ghost pieces = spec_pieces(from as int, to as int);
                let ghost sources = model.outgoing[up_arc as int].sources.len() as int;
                proof {
                    model.lemma_bounds_for(
                        false,
                        down as int,
                        range.start as int,
                        range.end as int,
                        range.start as int,
                    );
                    crate::graph::shortcut::lemma_pieces(from as int, to as int, from as int);
                    model.lemma_bounds_from_range(true, up_arc as int, pieces.0.0, pieces.0.1, sources);
                    model.lemma_bounds_from_range(true, up_arc as int, pieces.1.0, pieces.1.1, sources);
                    model.lemma_bounds_from_range(
                        false,
                        down as int,
                        range.start as int,
                        range.end as int,
                        model.incoming[down as int].sources.len() as int,
                    );
                }
                let second = if to - from >= PERIOD as u64 {
                    self.bounds_for(true, up_arc, &(0..PERIOD))
                } else {
                    let start: Timestamp = (from % PERIOD as u64) as Timestamp;
                    let end: u64 = start as u64 + (to - from);
                    if end <= PERIOD as u64 {
                        self.bounds_for(true, up_arc, &(start..(end as Timestamp)))
                    } else {
                        let one = self.bounds_for(true, up_arc, &(start..PERIOD));
                        let other = self.bounds_for(
                            true,
                            up_arc,
                            &(0..((end - PERIOD as u64) as Timestamp)),
                        );
                        (
                            if one.0 <= other.0 {
                                one.0
                            } else {
                                other.0
                            },
                            if one.1 >= other.1 {
                                one.1
                            } else {
                                other.1
                            },
                        )
                    }
                };
                (sat_add(first.0, second.0), sat_add(first.1, second.1))
            },
        }
    }
}

impl<'a> Hierarchy for PartialShortcutGraph<'a> {
    open spec fn spec_hierarchy(&self) -> ShortcutModel {
        self.model()
    }

    open spec fn in_order(&self) -> bool {
        self.wf()
    }

    proof fn lemma_in_order(&self) {
    }

    fn source_count(&self, up: bool, edge_id: EdgeId) -> (n: usize) {
        proof {
            self.lemma_model_sizes();
        }
        if !self.has(up, edge_id) {
            proof {
                assert(self.model().arcs(up)[edge_id as int].sources.len() == 0);
            }
            return 0;
        }
        let shortcut = if up { self.get_outgoing(edge_id) } else { self.get_incoming(edge_id) };
        proof {
            assert(self.model().arcs(up)[edge_id as int].sources == shortcut.spec_sources());
        }
        shortcut.sources.len()
    }

    fn source_of(&self, up: bool, edge_id: EdgeId, i: usize) -> (s: ShortcutSource) {
        proof {
            self.lemma_model_sizes();
        }
        if !self.has(up, edge_id) {
            proof {
                assert(self.model().arcs(up)[edge_id as int].sources.len() == 0);
            }
            return ShortcutSource::NoSource;
        }
        let shortcut = if up { self.get_outgoing(edge_id) } else { self.get_incoming(edge_id) };
        proof {
            assert(self.model().arcs(up)[edge_id as int].sources == shortcut.spec_sources());
        }
        shortcut.sources[i].1.source()
    }
}

impl<'a> PartialShortcutGraph<'a> {
    /// Whether `after` holds, besides what `before` holds, only marks of
    /// the arc `edge_id`, of arcs that it rests on and of original arcs that it rests on.
    pub open spec fn only_marked_for(&self, before: Marks, after: Marks, up: bool, edge_id: int) -> bool {
        self.model().only_marked_for(before, after, up, edge_id)
    }

    /// Marks the upward (`up`) or downward shortcut `edge_id` and
    /// everything that it rests on.  Downward arcs are marked at twice
    /// their identifier, upward arcs at the place after that.  An arc that
    /// is marked already is not looked into again.
    pub fn unpack(
        &self,
        up: bool,
        edge_id: EdgeId,
        unpacked_shortcuts: &mut BitVec,
        original_edges: &mut BitVec,
    )
        requires
            self.wf(),
            old(unpacked_shortcuts).wf(),
            old(original_edges).wf(),
            self.model().has_room(spec_marks(*old(unpacked_shortcuts), *old(original_edges))),
            edge_id < self.model().arcs(up).len(),
            self.model().closed(spec_marks(*old(unpacked_shortcuts), *old(original_edges))),
        ensures
            final(unpacked_shortcuts).wf(),
            final(original_edges).wf(),
            self.model().has_room(spec_marks(*final(unpacked_shortcuts), *final(original_edges))),
            self.model().closed(spec_marks(*final(unpacked_shortcuts), *final(original_edges))),
            spec_marks(*final(unpacked_shortcuts), *final(original_edges)).marked(up, edge_id as int),
            self.only_marked_for(
                spec_marks(*old(unpacked_shortcuts), *old(original_edges)),
                spec_marks(*final(unpacked_shortcuts), *final(original_edges)),
                up,
                edge_id as int,
            ),
    {
        mark(self, up, edge_id, unpacked_shortcuts, original_edges);
    }
}

impl<'a> PartialShortcutGraph<'a> {
    /// Whether the stored bounds of every upward (`up`) or downward
    /// shortcut hold the bounds that its sources give for the whole period.
    fn side_holds(&self, up: bool) -> (b: bool)
        requires
            self.wf(),
        ensures
            b == (forall|e: int|
                0 <= e < self.model().arcs(up).len() ==> #[trigger] self.model().bounds_checked(up, e)),
    {
        let ghost model = self.model();
        let shortcuts = if up { self.outgoing } else { self.incoming };
        let n = shortcuts.len();
        proof {
            self.lemma_model_sizes();
        }
        let mut i: usize = 0;
        while i < n
            invariant
                i <= n,
                self.wf(),
                model == self.model(),
                shortcuts@ == (if up {
                    self.spec_outgoing()
                } else {
                    self.spec_incoming()
                }),
                n == shortcuts@.len(),
                model.arcs(up).len() == self.offset + n,
                self.offset + n <= u32::MAX,
                forall|e: int| 0 <= e < self.offset + i ==> #[trigger] model.bounds_checked(up, e),
            decreases n - i,
        {
            let edge_id = (self.offset + i) as EdgeId;
            let found = self.bounds_for(up, edge_id, &(0..PERIOD));
            let shortcut = &shortcuts[i];
            if !(shortcut.lower_bound <= found.0 && found.1 <= shortcut.upper_bound) {
                proof {
                    assert(!model.bounds_checked(up, edge_id as int));
                }
                return false;
            }
            proof {
                assert(model.bounds_checked(up, edge_id as int));
            }
            i += 1;
        }
        true
    }

    /// Checks the stored bounds of every shortcut against the bounds that
    /// its sources give for the whole period.  Where the check passes,
    /// the stored bounds hold the travel time of every shortcut at all times.
    pub fn bounds_hold(&self) -> (b: bool)
        requires
            self.wf(),
        ensures
            b == self.model().all_bounds_checked(),
            b ==> self.model().bounds_sound(),
    {
        let b = self.side_holds(true) && self.side_holds(false);
        proof {
            let model = self.model();
            if b {
                assert forall|up: bool, e: int| 0 <= e < model.arcs(up).len() implies #[trigger] model.bounds_checked(
                    up,
                    e,
                ) by {
                    if up {
                    } else {
                    }
                }
                model.lemma_checked_is_sound();
            }
        }
        b
    }
}

} // verus!
