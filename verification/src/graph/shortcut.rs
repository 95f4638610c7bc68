//! What a shortcut stands for, and what it costs to take one.
//!
//! A shortcut is a list of sources, each in force from its moment until the
//! moment of the next.  A source is an arc of the original graph, or a
//! lower triangle: a downward shortcut followed by an upward one.  The cost
//! of a shortcut at a moment is the cost of the source in force, found by
//! unfolding triangles until original arcs are reached.
use vstd::prelude::*;
use crate::graph::geometry::Point;
use crate::graph::plf::{lemma_arrival_monotone_periodic, lemma_eval_periodic_bounds, lemma_min_max_over, spec_eval_periodic, spec_max_over, spec_min_over, spec_valid_plf};
use crate::types::{sat_add, spec_sat_add, EdgeId, Timestamp, Weight, INFINITY, PERIOD};

verus! {

/// What a shortcut stands for during one interval of departures.
#[derive(Debug, Clone, Copy, PartialEq, Eq)]
pub enum ShortcutSource {
    /// A lower triangle: the downward arc with the first identifier, then
    /// the upward arc with the second.
    Shortcut(EdgeId, EdgeId),
    /// An arc of the original graph.
    OriginalEdge(EdgeId),
    /// No way through.
    NoSource,
}

/// The mark that stands for "no arc" in a packed source.
pub const NO_ARC: EdgeId = 0xffff_ffff;

/// A source in two words: a triangle keeps both arcs; an original arc has
/// no downward arc; no source has neither.
#[derive(Debug, Clone, Copy, PartialEq, Eq)]
pub struct ShortcutSourceData {
    down_arc: EdgeId,
    up_arc: EdgeId,
}

impl ShortcutSource {
    /// Whether the source can be packed and found again: no arc of it is the mark.
    pub open spec fn packable(self) -> bool {
        match self {
            ShortcutSource::Shortcut(down, up) => down != NO_ARC,
            ShortcutSource::OriginalEdge(edge) => edge != NO_ARC,
            ShortcutSource::NoSource => true,
        }
    }
}

impl ShortcutSourceData {
    /// The source that the two words stand for.
    pub closed spec fn view(&self) -> ShortcutSource {
        if self.down_arc != NO_ARC {
            ShortcutSource::Shortcut(self.down_arc, self.up_arc)
        } else if self.up_arc != NO_ARC {
            ShortcutSource::OriginalEdge(self.up_arc)
        } else {
            ShortcutSource::NoSource
        }
    }

    /// The two words.
    pub closed spec fn spec_raw(&self) -> (EdgeId, EdgeId) {
        (self.down_arc, self.up_arc)
    }

    /// A packed source from its two words: the downward arc, then the upward arc.
    pub fn from_raw(down_arc: EdgeId, up_arc: EdgeId) -> (r: Self)
        ensures
            r.spec_raw() == (down_arc, up_arc),
            r == ShortcutSourceData::from_raw_spec(down_arc, up_arc),
    {
        ShortcutSourceData { down_arc, up_arc }
    }

    /// The two words of the packed source: the downward arc, then the upward arc.
    pub fn raw(&self) -> (r: (EdgeId, EdgeId))
        ensures
            r == self.spec_raw(),
            ShortcutSourceData::from_raw_spec(r.0, r.1) == *self,
    {
        (self.down_arc, self.up_arc)
    }

    /// The packed source with the two words `down_arc` and `up_arc`.
    pub closed spec fn from_raw_spec(down_arc: EdgeId, up_arc: EdgeId) -> ShortcutSourceData {
        ShortcutSourceData { down_arc, up_arc }
    }

    /// Packs a source.
    pub fn from_source(source: ShortcutSource) -> (r: Self)
        requires
            source.packable(),
        ensures
            r@ == source,
    {
        match source {
            ShortcutSource::Shortcut(down, up) => ShortcutSourceData { down_arc: down, up_arc: up },
            ShortcutSource::OriginalEdge(edge) => ShortcutSourceData { down_arc: NO_ARC, up_arc: edge },
            ShortcutSource::NoSource => ShortcutSourceData { down_arc: NO_ARC, up_arc: NO_ARC },
        }
    }

    /// Unpacks the source.
    pub fn source(&self) -> (r: ShortcutSource)
        ensures
            r == self@,
            r.packable(),
    {
        if self.down_arc != NO_ARC {
            ShortcutSource::Shortcut(self.down_arc, self.up_arc)
        } else if self.up_arc != NO_ARC {
            ShortcutSource::OriginalEdge(self.up_arc)
        } else {
            ShortcutSource::NoSource
        }
    }
}

/// The sources of one shortcut with the moments from which they are in force.
pub type Sources = Seq<(Timestamp, ShortcutSource)>;

/// The sources that packed sources stand for.
pub open spec fn spec_unpacked_sources(data: Seq<(Timestamp, ShortcutSourceData)>) -> Sources {
    Seq::new(data.len(), |i: int| (data[i].0, data[i].1@))
}

/// Whether the moments of the sources divide one period: the first at its
/// start, each later than the one before, all within the period.
pub open spec fn spec_times_ok(sources: Sources) -> bool {
    &&& sources.len() > 0 ==> sources[0].0 == 0
    &&& forall|i: int| 0 <= i < sources.len() ==> (#[trigger] sources[i]).0 < PERIOD
    &&& forall|i: int, j: int|
        0 <= i < j < sources.len() ==> (#[trigger] sources[i]).0 < (#[trigger] sources[j]).0
}

/// The last of the sources `0..=k` whose moment is not after `t`.
pub open spec fn spec_source_index(sources: Sources, t: int, k: int) -> int
    decreases k,
{
    if k <= 0 {
        0
    } else if sources[k].0 <= t {
        k
    } else {
        spec_source_index(sources, t, k - 1)
    }
}

/// The source in force at `t`, a moment within the period.
pub open spec fn spec_source_at(sources: Sources, t: int) -> ShortcutSource {
    if sources.len() == 0 {
        ShortcutSource::NoSource
    } else {
        sources[spec_source_index(sources, t, sources.len() - 1)].1
    }
}

/// The index of the source in force is an index, and that source began no later than `t`.
pub proof fn lemma_source_index(sources: Sources, t: int, k: int)
    requires
        spec_times_ok(sources),
        0 <= k < sources.len(),
        0 <= t,
    ensures
        0 <= spec_source_index(sources, t, k) <= k,
        sources[spec_source_index(sources, t, k)].0 <= t,
        forall|j: int| spec_source_index(sources, t, k) < j <= k ==> (#[trigger] sources[j]).0 > t,
    decreases k,
{
    if k > 0 && sources[k].0 > t {
        lemma_source_index(sources, t, k - 1);
    }
}

/// A source that began no later than `t` and whose successor began later is the one in force.
pub proof fn lemma_source_index_unique(sources: Sources, t: int, i: int)
    requires
        spec_times_ok(sources),
        0 <= i < sources.len(),
        sources[i].0 <= t,
        i + 1 < sources.len() ==> t < sources[i + 1].0,
    ensures
        spec_source_index(sources, t, sources.len() - 1) == i,
{
    lemma_source_index(sources, t, sources.len() - 1);
    let r = spec_source_index(sources, t, sources.len() - 1);
    if r < i {
        assert(sources[i].0 > t);
    } else if i < r {
        if i + 1 < r {
            assert(sources[i + 1].0 < sources[r].0);
        }
    }
}

/// Finds the source in force at `t` among packed sources.
pub fn source_at(data: &[(Timestamp, ShortcutSourceData)], t: Timestamp) -> (r: Option<
    ShortcutSourceData,
>)
    requires
        spec_times_ok(spec_unpacked_sources(data@)),
    ensures
        r.is_none() == (data@.len() == 0),
        r matches Some(s) ==> s@ == spec_source_at(
            spec_unpacked_sources(data@),
            t as int % (PERIOD as int),
        ) && s == data@[spec_source_index(
            spec_unpacked_sources(data@),
            t as int % (PERIOD as int),
            data@.len() - 1,
        )].1,
{
    let n = data.len();
    if n == 0 {
        return None;
    }
    let ghost sources = spec_unpacked_sources(data@);
    let t: Timestamp = t % PERIOD;
    if n == 1 {
        return Some(data[0].1);
    }
    let mut lo: usize = 0;
    let mut hi: usize = n;
    assert(sources[0].0 == 0);
    while hi - lo > 1
        invariant
            lo < hi <= n,
            n == data@.len(),
            sources == spec_unpacked_sources(data@),
            spec_times_ok(sources),
            sources[lo as int].0 <= t,
            hi < n ==> t < sources[hi as int].0,
        decreases hi - lo,
    {
        let mid = lo + (hi - lo) / 2;
        assert(sources[mid as int].0 == data@[mid as int].0);
        if data[mid].0 <= t {
            lo = mid;
        } else {
            hi = mid;
        }
    }
    proof {
        lemma_source_index_unique(sources, t as int, lo as int);
    }
    Some(data[lo].1)
}

/// Which arcs are marked: the downward arc `e` at `2 * e`, the upward
/// arc `e` at `2 * e + 1`, and the original arcs.
pub struct Marks {
    pub shortcuts: Seq<bool>,
    pub originals: Seq<bool>,
}

impl Marks {
    /// Where the mark of the upward (`up`) or downward arc `e` stands.
    pub open spec fn index(up: bool, e: int) -> int {
        2 * e + if up {
            1int
        } else {
            0int
        }
    }

    /// Whether the upward (`up`) or downward arc `e` is marked.
    pub open spec fn marked(self, up: bool, e: int) -> bool {
        self.shortcuts[Marks::index(up, e)]
    }

    /// Whether everything that is marked in `self` is marked in `other`.
    pub open spec fn within(self, other: Marks) -> bool {
        &&& self.shortcuts.len() == other.shortcuts.len()
        &&& self.originals.len() == other.originals.len()
        &&& forall|i: int| 0 <= i < self.shortcuts.len() && self.shortcuts[i] ==> #[trigger] other.shortcuts[i]
        &&& forall|i: int| 0 <= i < self.originals.len() && self.originals[i] ==> #[trigger] other.originals[i]
    }
}

/// One arc of the hierarchy as the cost functions see it.
pub struct ArcModel {
    /// The rank of the lower end of the arc.
    pub level: int,
    /// What the arc stands for, and from when.
    pub sources: Sources,
    /// The stored lower bound on the travel time.
    pub lower: int,
    /// The stored upper bound on the travel time.
    pub upper: int,
    /// Whether the arc is marked as having one travel time at all times.
    pub constant: bool,
}

/// A hierarchy as the cost functions see it: the travel time functions of
/// the original arcs, and the upward and the downward arcs with their sources.
pub struct ShortcutModel {
    pub original: Seq<Seq<Point>>,
    pub outgoing: Seq<ArcModel>,
    pub incoming: Seq<ArcModel>,
}

impl ShortcutModel {
    /// The upward arcs if `up`, else the downward arcs.
    pub open spec fn arcs(self, up: bool) -> Seq<ArcModel> {
        if up {
            self.outgoing
        } else {
            self.incoming
        }
    }

    /// Whether `source` may stand in an arc of level `level`: an original
    /// arc exists, and both arcs of a triangle exist on a lower level.
    pub open spec fn source_ok(self, source: ShortcutSource, level: int) -> bool {
        match source {
            ShortcutSource::NoSource => true,
            ShortcutSource::OriginalEdge(edge) => edge < self.original.len(),
            ShortcutSource::Shortcut(down, up) => {
                &&& down < self.incoming.len()
                &&& up < self.outgoing.len()
                &&& 0 <= self.incoming[down as int].level < level
                &&& 0 <= self.outgoing[up as int].level < level
            },
        }
    }

    /// Whether an arc is in order.
    pub open spec fn arc_ok(self, arc: ArcModel) -> bool {
        &&& arc.level >= 0
        &&& spec_times_ok(arc.sources)
        &&& forall|i: int|
            0 <= i < arc.sources.len() ==> self.source_ok((#[trigger] arc.sources[i]).1, arc.level)
    }

    /// Whether the hierarchy is in order: functions on the original arcs,
    /// and every arc in order.
    pub open spec fn wf(self) -> bool {
        &&& forall|o: int| 0 <= o < self.original.len() ==> spec_valid_plf(#[trigger] self.original[o])
        &&& forall|e: int| 0 <= e < self.outgoing.len() ==> self.arc_ok(#[trigger] self.outgoing[e])
        &&& forall|e: int| 0 <= e < self.incoming.len() ==> self.arc_ok(#[trigger] self.incoming[e])
    }

    /// The source of arc `e` that is in force at moment `t`.
    pub open spec fn source(self, up: bool, e: int, t: int) -> ShortcutSource {
        spec_source_at(self.arcs(up)[e].sources, t % (PERIOD as int))
    }

    /// The travel time across arc `e` when entering at `t`; `INFINITY`
    /// where there is no way through or the time reaches it.
    pub open spec fn eval(self, up: bool, e: int, t: int) -> int
        decreases
            (if 0 <= e < self.arcs(up).len() {
                self.arcs(up)[e].level
            } else {
                0
            }),
    {
        if !(0 <= e < self.arcs(up).len()) {
            INFINITY as int
        } else {
            let level = self.arcs(up)[e].level;
            match self.source(up, e, t) {
                ShortcutSource::NoSource => INFINITY as int,
                ShortcutSource::OriginalEdge(edge) => if edge < self.original.len() {
                    spec_eval_periodic(self.original[edge as int], t)
                } else {
                    INFINITY as int
                },
                ShortcutSource::Shortcut(down, up_arc) => if self.source_ok(
                    ShortcutSource::Shortcut(down, up_arc),
                    level,
                ) {
                    spec_link(
                        self.eval(false, down as int, t),
                        self.eval(true, up_arc as int, t + self.eval(false, down as int, t)),
                    )
                } else {
                    INFINITY as int
                },
            }
        }
    }

    /// The travel time across arc `e` when entering at `t`, as it is
    /// computed: an arc that is marked as constant costs its lower bound,
    /// and is not unfolded.
    pub open spec fn eval_fast(self, up: bool, e: int, t: int) -> int
        decreases
            (if 0 <= e < self.arcs(up).len() {
                self.arcs(up)[e].level
            } else {
                0
            }),
    {
        if !(0 <= e < self.arcs(up).len()) {
            INFINITY as int
        } else if self.arcs(up)[e].constant {
            self.arcs(up)[e].lower
        } else {
            let level = self.arcs(up)[e].level;
            match self.source(up, e, t) {
                ShortcutSource::NoSource => INFINITY as int,
                ShortcutSource::OriginalEdge(edge) => if edge < self.original.len() {
                    spec_eval_periodic(self.original[edge as int], t)
                } else {
                    INFINITY as int
                },
                ShortcutSource::Shortcut(down, up_arc) => if self.source_ok(
                    ShortcutSource::Shortcut(down, up_arc),
                    level,
                ) {
                    spec_link(
                        self.eval_fast(false, down as int, t),
                        self.eval_fast(true, up_arc as int, t + self.eval_fast(false, down as int, t)),
                    )
                } else {
                    INFINITY as int
                },
            }
        }
    }

    /// Whether the stored bounds of every arc hold its travel time at all
    /// times, and the arcs marked as constant are those whose bounds agree.
    pub open spec fn bounds_sound(self) -> bool {
        &&& forall|e: int|
            0 <= e < self.outgoing.len() ==> self.bounded(
                true,
                e,
                (#[trigger] self.outgoing[e]).lower,
                self.outgoing[e].upper,
            ) && (self.outgoing[e].constant ==> self.outgoing[e].lower == self.outgoing[e].upper)
        &&& forall|e: int|
            0 <= e < self.incoming.len() ==> self.bounded(
                false,
                e,
                (#[trigger] self.incoming[e]).lower,
                self.incoming[e].upper,
            ) && (self.incoming[e].constant ==> self.incoming[e].lower == self.incoming[e].upper)
    }

    /// Where the stored bounds are sound, the travel time as it is computed
    /// is the travel time, and lies within the stored bounds of the arc.
    pub proof fn lemma_eval_fast(self, up: bool, e: int, t: int)
        requires
            self.wf(),
            self.bounds_sound(),
            0 <= t,
        ensures
            self.eval_fast(up, e, t) == self.eval(up, e, t),
            0 <= e < self.arcs(up).len() ==> self.arcs(up)[e].lower <= self.eval_fast(up, e, t)
                <= self.arcs(up)[e].upper,
        decreases
            (if 0 <= e < self.arcs(up).len() {
                self.arcs(up)[e].level
            } else {
                0
            }),
    {
        if 0 <= e < self.arcs(up).len() {
            if up {
                assert(self.bounded(true, e, self.outgoing[e].lower, self.outgoing[e].upper));
            } else {
                assert(self.bounded(false, e, self.incoming[e].lower, self.incoming[e].upper));
            }
            assert(self.arcs(up)[e].lower <= self.eval(up, e, t) <= self.arcs(up)[e].upper);
            if !self.arcs(up)[e].constant {
                match self.source(up, e, t) {
                    ShortcutSource::NoSource => {},
                    ShortcutSource::OriginalEdge(edge) => {},
                    ShortcutSource::Shortcut(down, up_arc) => {
                        if self.source_ok(
                            ShortcutSource::Shortcut(down, up_arc),
                            self.arcs(up)[e].level,
                        ) {
                            self.lemma_eval_fast(false, down as int, t);
                            self.lemma_eval_range(false, down as int, t);
                            self.lemma_eval_fast(
                                true,
                                up_arc as int,
                                t + self.eval(false, down as int, t),
                            );
                        }
                    },
                }
            }
        }
    }

    /// Whether one of the first `k` sources of arc `e` is a triangle with
    /// an arc with the identifier `id`, or with an arc of which that holds
    /// in turn for any of its sources.
    pub open spec fn mentions(self, up: bool, e: int, id: EdgeId, k: int) -> bool
        decreases
            (if 0 <= e < self.arcs(up).len() {
                self.arcs(up)[e].level
            } else {
                0
            }),
            k,
    {
        if !(0 <= e < self.arcs(up).len()) || k <= 0 {
            false
        } else {
            let arc = self.arcs(up)[e];
            self.mentions(up, e, id, k - 1) || (k <= arc.sources.len() && match arc.sources[k - 1].1 {
                ShortcutSource::Shortcut(down, up_arc) => self.source_ok(
                    ShortcutSource::Shortcut(down, up_arc),
                    arc.level,
                ) && (down == id || up_arc == id || self.mentions(
                    false,
                    down as int,
                    id,
                    self.incoming[down as int].sources.len() as int,
                ) || self.mentions(
                    true,
                    up_arc as int,
                    id,
                    self.outgoing[up_arc as int].sources.len() as int,
                )),
                _ => false,
            })
        }
    }

    /// Whether the marks have room for every arc.
    pub open spec fn has_room(self, marks: Marks) -> bool {
        &&& marks.shortcuts.len() >= 2 * self.incoming.len()
        &&& marks.shortcuts.len() >= 2 * self.outgoing.len()
        &&& marks.originals.len() == self.original.len()
    }

    /// Whether what source `i` of arc `e` names is marked.
    pub open spec fn source_marked(self, marks: Marks, up: bool, e: int, i: int) -> bool {
        match self.arcs(up)[e].sources[i].1 {
            ShortcutSource::Shortcut(down, up_arc) => marks.marked(false, down as int) && marks.marked(
                true,
                up_arc as int,
            ),
            ShortcutSource::OriginalEdge(edge) => marks.originals[edge as int],
            ShortcutSource::NoSource => true,
        }
    }

    /// Whether of every arc that is marked, but for those in `pending`,
    /// everything that its sources name is marked.
    pub open spec fn closed_except(self, marks: Marks, pending: Set<(bool, int)>) -> bool {
        forall|up: bool, e: int, i: int|
            0 <= e < self.arcs(up).len() && marks.marked(up, e) && !pending.contains((up, e)) && 0 <= i
                < self.arcs(up)[e].sources.len() ==> #[trigger] self.source_marked(marks, up, e, i)
    }

    /// Whether of every arc that is marked everything that its sources name is marked.
    pub open spec fn closed(self, marks: Marks) -> bool {
        self.closed_except(marks, Set::empty())
    }

    /// Whether arc `e` rests on the upward (`on_up`) or downward arc `on`,
    /// as far as its first `k` sources tell: one of them is a triangle
    /// with that arc, or with an arc that rests on it.
    pub open spec fn rests_on(self, up: bool, e: int, on_up: bool, on: int, k: int) -> bool
        decreases
            (if 0 <= e < self.arcs(up).len() {
                self.arcs(up)[e].level
            } else {
                0
            }),
            k,
    {
        if !(0 <= e < self.arcs(up).len()) || k <= 0 {
            false
        } else {
            let arc = self.arcs(up)[e];
            self.rests_on(up, e, on_up, on, k - 1) || (k <= arc.sources.len() && match arc.sources[k - 1].1 {
                ShortcutSource::Shortcut(down, up_arc) => self.source_ok(
                    ShortcutSource::Shortcut(down, up_arc),
                    arc.level,
                ) && ((!on_up && down == on) || (on_up && up_arc == on) || self.rests_on(
                    false,
                    down as int,
                    on_up,
                    on,
                    self.incoming[down as int].sources.len() as int,
                ) || self.rests_on(
                    true,
                    up_arc as int,
                    on_up,
                    on,
                    self.outgoing[up_arc as int].sources.len() as int,
                )),
                _ => false,
            })
        }
    }

    /// Whether arc `e` rests on the original arc `edge`, as far as its
    /// first `k` sources tell: one of them is that arc, or a triangle with
    /// an arc that rests on it.
    pub open spec fn rests_on_original(self, up: bool, e: int, edge: int, k: int) -> bool
        decreases
            (if 0 <= e < self.arcs(up).len() {
                self.arcs(up)[e].level
            } else {
                0
            }),
            k,
    {
        if !(0 <= e < self.arcs(up).len()) || k <= 0 {
            false
        } else {
            let arc = self.arcs(up)[e];
            self.rests_on_original(up, e, edge, k - 1) || (k <= arc.sources.len() && match arc.sources[k
                - 1].1 {
                ShortcutSource::Shortcut(down, up_arc) => self.source_ok(
                    ShortcutSource::Shortcut(down, up_arc),
                    arc.level,
                ) && (self.rests_on_original(
                    false,
                    down as int,
                    edge,
                    self.incoming[down as int].sources.len() as int,
                ) || self.rests_on_original(
                    true,
                    up_arc as int,
                    edge,
                    self.outgoing[up_arc as int].sources.len() as int,
                )),
                ShortcutSource::OriginalEdge(o) => o == edge,
                ShortcutSource::NoSource => false,
            })
        }
    }

    /// What the first sources tell, more sources tell too.
    pub proof fn lemma_rests_on_more(self, up: bool, e: int, on_up: bool, on: int, k: int, more: int)
        requires
            k <= more,
        ensures
            self.rests_on(up, e, on_up, on, k) ==> self.rests_on(up, e, on_up, on, more),
        decreases more - k,
    {
        if k < more {
            self.lemma_rests_on_more(up, e, on_up, on, k, more - 1);
        }
    }

    /// What the first sources tell, more sources tell too.
    pub proof fn lemma_rests_on_original_more(self, up: bool, e: int, edge: int, k: int, more: int)
        requires
            k <= more,
        ensures
            self.rests_on_original(up, e, edge, k) ==> self.rests_on_original(up, e, edge, more),
        decreases more - k,
    {
        if k < more {
            self.lemma_rests_on_original_more(up, e, edge, k, more - 1);
        }
    }

    /// The original arcs that arc `e` unfolds to when entered at `t`, each
    /// with the moment at which it is entered.
    pub open spec fn unpacked(self, up: bool, e: int, t: int) -> Seq<(EdgeId, int)>
        decreases
            (if 0 <= e < self.arcs(up).len() {
                self.arcs(up)[e].level
            } else {
                0
            }),
    {
        if !(0 <= e < self.arcs(up).len()) {
            Seq::empty()
        } else {
            let level = self.arcs(up)[e].level;
            match self.source(up, e, t) {
                ShortcutSource::NoSource => Seq::empty(),
                ShortcutSource::OriginalEdge(edge) => seq![(edge, t)],
                ShortcutSource::Shortcut(down, up_arc) => if self.source_ok(
                    ShortcutSource::Shortcut(down, up_arc),
                    level,
                ) {
                    self.unpacked(false, down as int, t) + self.unpacked(
                        true,
                        up_arc as int,
                        t + self.eval(false, down as int, t),
                    )
                } else {
                    Seq::empty()
                },
            }
        }
    }

    /// The sum of the travel times of the original arcs of `path`, each
    /// taken at its own moment.
    pub open spec fn path_cost(self, path: Seq<(EdgeId, int)>) -> int
        decreases path.len(),
    {
        if path.len() == 0 {
            0
        } else {
            self.path_cost(path.drop_last()) + spec_eval_periodic(
                self.original[path.last().0 as int],
                path.last().1,
            )
        }
    }

    /// Whether every arc of `path` is entered when the arcs before it have
    /// been crossed, the first at `t`.
    pub open spec fn path_chained(self, path: Seq<(EdgeId, int)>, t: int) -> bool {
        forall|i: int|
            0 <= i < path.len() ==> (#[trigger] path[i]).0 < self.original.len() && path[i].1 == t
                + self.path_cost(path.take(i))
    }
}

/// The travel time of two arcs in a row: `first` across the first arc and
/// `second` across the second, entered on arrival.  Without a way across
/// the first there is none across both, and the sum stops at `INFINITY`.
pub open spec fn spec_link(first: int, second: int) -> int {
    if first >= INFINITY {
        INFINITY as int
    } else {
        spec_sat_add(first, second)
    }
}

/// Adds the travel times of two arcs in a row.
pub fn link(first: Weight, second: Weight) -> (r: Weight)
    ensures
        r as int == spec_link(first as int, second as int),
{
    if first >= INFINITY {
        INFINITY
    } else {
        sat_add(first, second)
    }
}

impl ShortcutModel {
    /// A travel time is positive and at most `INFINITY`.
    pub proof fn lemma_eval_range(self, up: bool, e: int, t: int)
        requires
            self.wf(),
            0 <= t,
        ensures
            0 < self.eval(up, e, t) <= INFINITY,
        decreases
            (if 0 <= e < self.arcs(up).len() {
                self.arcs(up)[e].level
            } else {
                0
            }),
    {
        if 0 <= e < self.arcs(up).len() {
            match self.source(up, e, t) {
                ShortcutSource::NoSource => {},
                ShortcutSource::OriginalEdge(edge) => {
                    if edge < self.original.len() {
                        lemma_eval_periodic_bounds(self.original[edge as int], t);
                    }
                },
                ShortcutSource::Shortcut(down, up_arc) => {
                    if self.source_ok(ShortcutSource::Shortcut(down, up_arc), self.arcs(up)[e].level) {
                        self.lemma_eval_range(false, down as int, t);
                        self.lemma_eval_range(true, up_arc as int, t + self.eval(false, down as int, t));
                    }
                },
            }
        }
    }

    /// A travel time depends on the moment within the period only.
    pub proof fn lemma_eval_periodic(self, up: bool, e: int, t: int)
        requires
            self.wf(),
            0 <= t,
        ensures
            self.eval(up, e, t) == self.eval(up, e, t % (PERIOD as int)),
        decreases
            (if 0 <= e < self.arcs(up).len() {
                self.arcs(up)[e].level
            } else {
                0
            }),
    {
        let period = PERIOD as int;
        let r = t % period;
        vstd::arithmetic::div_mod::lemma_mod_twice(t, period);
        if 0 <= e < self.arcs(up).len() {
            assert(self.source(up, e, t) == self.source(up, e, r));
            match self.source(up, e, t) {
                ShortcutSource::NoSource => {},
                ShortcutSource::OriginalEdge(edge) => {},
                ShortcutSource::Shortcut(down, up_arc) => {
                    if self.source_ok(ShortcutSource::Shortcut(down, up_arc), self.arcs(up)[e].level) {
                        self.lemma_eval_periodic(false, down as int, t);
                        let a = self.eval(false, down as int, t);
                        self.lemma_eval_range(false, down as int, t);
                        self.lemma_eval_periodic(true, up_arc as int, t + a);
                        self.lemma_eval_periodic(true, up_arc as int, r + a);
                        vstd::arithmetic::div_mod::lemma_add_mod_noop(t, a, period);
                        vstd::arithmetic::div_mod::lemma_add_mod_noop(r, a, period);
                    }
                },
            }
        }
    }

    /// A travel time at a moment that is given as a moment within the
    /// period and a time to add is that at the moment itself and the time added.
    pub proof fn lemma_eval_shift(self, up: bool, e: int, t: int, a: int)
        requires
            self.wf(),
            0 <= t,
            0 <= a,
        ensures
            self.eval(up, e, t % (PERIOD as int) + a) == self.eval(up, e, t + a),
    {
        let period = PERIOD as int;
        let r = t % period;
        vstd::arithmetic::div_mod::lemma_mod_twice(t, period);
        self.lemma_eval_periodic(up, e, t + a);
        self.lemma_eval_periodic(up, e, r + a);
        vstd::arithmetic::div_mod::lemma_add_mod_noop(t, a, period);
        vstd::arithmetic::div_mod::lemma_add_mod_noop(r, a, period);
    }

    /// The source in force is one of the sources of the arc, so it may stand there.
    pub proof fn lemma_source_ok(self, up: bool, e: int, t: int)
        requires
            self.wf(),
            0 <= e < self.arcs(up).len(),
            0 <= t,
        ensures
            self.source_ok(self.source(up, e, t), self.arcs(up)[e].level),
    {
        let arc = self.arcs(up)[e];
        assert(self.arc_ok(arc));
        if arc.sources.len() > 0 {
            lemma_source_index(arc.sources, t % (PERIOD as int), arc.sources.len() - 1);
            let i = spec_source_index(arc.sources, t % (PERIOD as int), arc.sources.len() - 1);
            assert(self.source_ok(arc.sources[i].1, arc.level));
        }
    }

    /// A travel time as it is computed is not negative and at most
    /// `INFINITY`, where the lower bounds of the arcs marked as constant are.
    pub proof fn lemma_eval_fast_range(self, up: bool, e: int, t: int)
        requires
            self.wf(),
            self.constants_in_range(),
            0 <= t,
        ensures
            0 <= self.eval_fast(up, e, t) <= INFINITY,
        decreases
            (if 0 <= e < self.arcs(up).len() {
                self.arcs(up)[e].level
            } else {
                0
            }),
    {
        if 0 <= e < self.arcs(up).len() {
            if up {
                assert(self.outgoing[e].constant ==> 0 <= self.outgoing[e].lower <= INFINITY);
            } else {
                assert(self.incoming[e].constant ==> 0 <= self.incoming[e].lower <= INFINITY);
            }
            if !self.arcs(up)[e].constant {
                match self.source(up, e, t) {
                    ShortcutSource::NoSource => {},
                    ShortcutSource::OriginalEdge(edge) => {
                        if edge < self.original.len() {
                            lemma_eval_periodic_bounds(self.original[edge as int], t);
                        }
                    },
                    ShortcutSource::Shortcut(down, up_arc) => {
                        if self.source_ok(
                            ShortcutSource::Shortcut(down, up_arc),
                            self.arcs(up)[e].level,
                        ) {
                            self.lemma_eval_fast_range(false, down as int, t);
                            self.lemma_eval_fast_range(
                                true,
                                up_arc as int,
                                t + self.eval_fast(false, down as int, t),
                            );
                        }
                    },
                }
            }
        }
    }

    /// Whether the lower bound of every arc marked as constant is a travel
    /// time: not negative and at most `INFINITY`.
    pub open spec fn constants_in_range(self) -> bool {
        &&& forall|e: int|
            0 <= e < self.outgoing.len() && (#[trigger] self.outgoing[e]).constant ==> 0
                <= self.outgoing[e].lower <= INFINITY
        &&& forall|e: int|
            0 <= e < self.incoming.len() && (#[trigger] self.incoming[e]).constant ==> 0
                <= self.incoming[e].lower <= INFINITY
    }

    /// A travel time as it is computed depends on the moment within the period only.
    pub proof fn lemma_eval_fast_periodic(self, up: bool, e: int, t: int)
        requires
            self.wf(),
            self.constants_in_range(),
            0 <= t,
        ensures
            self.eval_fast(up, e, t) == self.eval_fast(up, e, t % (PERIOD as int)),
        decreases
            (if 0 <= e < self.arcs(up).len() {
                self.arcs(up)[e].level
            } else {
                0
            }),
    {
        let period = PERIOD as int;
        let r = t % period;
        vstd::arithmetic::div_mod::lemma_mod_twice(t, period);
        if 0 <= e < self.arcs(up).len() && !self.arcs(up)[e].constant {
            assert(self.source(up, e, t) == self.source(up, e, r));
            match self.source(up, e, t) {
                ShortcutSource::NoSource => {},
                ShortcutSource::OriginalEdge(edge) => {},
                ShortcutSource::Shortcut(down, up_arc) => {
                    if self.source_ok(ShortcutSource::Shortcut(down, up_arc), self.arcs(up)[e].level) {
                        self.lemma_eval_fast_periodic(false, down as int, t);
                        let a = self.eval_fast(false, down as int, t);
                        self.lemma_eval_fast_range(false, down as int, t);
                        self.lemma_eval_fast_periodic(true, up_arc as int, t + a);
                        self.lemma_eval_fast_periodic(true, up_arc as int, r + a);
                        vstd::arithmetic::div_mod::lemma_add_mod_noop(t, a, period);
                        vstd::arithmetic::div_mod::lemma_add_mod_noop(r, a, period);
                    }
                },
            }
        }
    }

    /// The same for a moment that is given as a moment within the period and a time to add.
    pub proof fn lemma_eval_fast_shift(self, up: bool, e: int, t: int, a: int)
        requires
            self.wf(),
            self.constants_in_range(),
            0 <= t,
            0 <= a,
        ensures
            self.eval_fast(up, e, t % (PERIOD as int) + a) == self.eval_fast(up, e, t + a),
    {
        let period = PERIOD as int;
        let r = t % period;
        vstd::arithmetic::div_mod::lemma_mod_twice(t, period);
        self.lemma_eval_fast_periodic(up, e, t + a);
        self.lemma_eval_fast_periodic(up, e, r + a);
        vstd::arithmetic::div_mod::lemma_add_mod_noop(t, a, period);
        vstd::arithmetic::div_mod::lemma_add_mod_noop(r, a, period);
    }

    /// The cost of two paths in a row is the sum of their costs.
    pub proof fn lemma_path_cost_concat(self, a: Seq<(EdgeId, int)>, b: Seq<(EdgeId, int)>)
        ensures
            self.path_cost(a + b) == self.path_cost(a) + self.path_cost(b),
        decreases b.len(),
    {
        if b.len() == 0 {
            assert(a + b =~= a);
        } else {
            assert((a + b).drop_last() =~= a + b.drop_last());
            self.lemma_path_cost_concat(a, b.drop_last());
        }
    }

    /// Round trip of unfolding: where there is a way across an arc, the
    /// original arcs that it unfolds to start at the moment of entry, each
    /// is entered when the one before has been crossed, and their travel
    /// times at those moments add up to the travel time of the arc.
    pub proof fn lemma_unpacked_cost(self, up: bool, e: int, t: int)
        requires
            self.wf(),
            0 <= t,
            self.eval(up, e, t) < INFINITY,
        ensures
            self.path_cost(self.unpacked(up, e, t)) == self.eval(up, e, t),
            self.path_chained(self.unpacked(up, e, t), t),
            self.unpacked(up, e, t).len() > 0,
        decreases
            (if 0 <= e < self.arcs(up).len() {
                self.arcs(up)[e].level
            } else {
                0
            }),
    {
        if 0 <= e < self.arcs(up).len() {
            match self.source(up, e, t) {
                ShortcutSource::NoSource => {},
                ShortcutSource::OriginalEdge(edge) => {
                    let path = seq![(edge, t)];
                    assert(path.drop_last() =~= Seq::<(EdgeId, int)>::empty());
                    assert(self.path_cost(path.drop_last()) == 0);
                    assert forall|i: int| 0 <= i < path.len() implies (#[trigger] path[i]).0
                        < self.original.len() && path[i].1 == t + self.path_cost(path.take(i)) by {
                        assert(path.take(0) =~= Seq::<(EdgeId, int)>::empty());
                    }
                },
                ShortcutSource::Shortcut(down, up_arc) => {
                    if self.source_ok(ShortcutSource::Shortcut(down, up_arc), self.arcs(up)[e].level) {
                        let a = self.eval(false, down as int, t);
                        self.lemma_eval_range(false, down as int, t);
                        self.lemma_eval_range(true, up_arc as int, t + a);
                        self.lemma_unpacked_cost(false, down as int, t);
                        self.lemma_unpacked_cost(true, up_arc as int, t + a);
                        let first = self.unpacked(false, down as int, t);
                        let second = self.unpacked(true, up_arc as int, t + a);
                        self.lemma_path_cost_concat(first, second);
                        let path = first + second;
                        assert forall|i: int| 0 <= i < path.len() implies (#[trigger] path[i]).0
                            < self.original.len() && path[i].1 == t + self.path_cost(path.take(i)) by {
                            if i < first.len() {
                                assert(path.take(i) =~= first.take(i));
                                assert(path[i] == first[i]);
                            } else {
                                let j = i - first.len();
                                assert(path.take(i) =~= first + second.take(j));
                                assert(path[i] == second[j]);
                                self.lemma_path_cost_concat(first, second.take(j));
                            }
                        }
                    }
                },
            }
        }
    }

    /// Whether on arc `e` a later departure never arrives earlier.
    pub open spec fn fifo(self, up: bool, e: int) -> bool {
        forall|x: int, y: int|
            0 <= x <= y ==> x + #[trigger] self.eval(up, e, x) <= y + #[trigger] self.eval(up, e, y)
    }

    /// The travel time of the triangle of the downward arc `down` and the upward arc `up_arc`.
    pub open spec fn eval_linked(self, down: int, up_arc: int, t: int) -> int {
        spec_link(self.eval(false, down, t), self.eval(true, up_arc, t + self.eval(false, down, t)))
    }

    /// Linking keeps first in first out: where on each of two arcs a later
    /// departure never arrives earlier, that holds of the two in a row.
    pub proof fn lemma_link_fifo(self, down: int, up_arc: int, x: int, y: int)
        requires
            self.wf(),
            self.fifo(false, down),
            self.fifo(true, up_arc),
            0 <= x <= y,
        ensures
            x + self.eval_linked(down, up_arc, x) <= y + self.eval_linked(down, up_arc, y),
    {
        let ax = self.eval(false, down, x);
        let ay = self.eval(false, down, y);
        self.lemma_eval_range(false, down, x);
        self.lemma_eval_range(false, down, y);
        self.lemma_eval_range(true, up_arc, x + ax);
        self.lemma_eval_range(true, up_arc, y + ay);
        assert(x + ax <= y + ay);
        let bx = self.eval(true, up_arc, x + ax);
        let by = self.eval(true, up_arc, y + ay);
        assert((x + ax) + bx <= (y + ay) + by);
    }

    /// An arc that stands for one original arc at all times keeps first in first out.
    pub proof fn lemma_original_fifo(self, up: bool, e: int, edge: EdgeId)
        requires
            self.wf(),
            0 <= e < self.arcs(up).len(),
            self.arcs(up)[e].sources == seq![(0u32, ShortcutSource::OriginalEdge(edge))],
        ensures
            self.fifo(up, e),
    {
        let arc = self.arcs(up)[e];
        assert(self.arc_ok(arc));
        assert(self.source_ok(arc.sources[0].1, arc.level));
        assert forall|x: int, y: int| 0 <= x <= y implies x + #[trigger] self.eval(up, e, x) <= y
            + #[trigger] self.eval(up, e, y) by {
            lemma_arrival_monotone_periodic(self.original[edge as int], x, y);
        }
    }

    /// Whether every travel time across arc `e` lies between `lower` and `upper`.
    pub open spec fn bounded(self, up: bool, e: int, lower: int, upper: int) -> bool {
        forall|t: int| 0 <= t ==> lower <= #[trigger] self.eval(up, e, t) <= upper
    }

    /// The sums of the bounds of two arcs bound the travel time of the two in a row.
    pub proof fn lemma_link_bounds(
        self,
        down: int,
        up_arc: int,
        lower_down: int,
        upper_down: int,
        lower_up: int,
        upper_up: int,
        t: int,
    )
        requires
            self.wf(),
            self.bounded(false, down, lower_down, upper_down),
            self.bounded(true, up_arc, lower_up, upper_up),
            0 <= t,
        ensures
            spec_sat_add(lower_down, lower_up) <= self.eval_linked(down, up_arc, t) <= spec_sat_add(
                upper_down,
                upper_up,
            ),
    {
        let a = self.eval(false, down, t);
        self.lemma_eval_range(false, down, t);
        self.lemma_eval_range(true, up_arc, t + a);
        assert(lower_down <= a <= upper_down);
        let b = self.eval(true, up_arc, t + a);
        assert(lower_up <= b <= upper_up);
    }
}

/// A lower and an upper bound on travel times.
pub type Interval = (int, int);

/// The bounds of no travel time at all: they give way to any others.
pub open spec fn spec_no_bounds() -> Interval {
    (INFINITY as int, 0)
}

/// The bounds of no way through.
pub open spec fn spec_no_way() -> Interval {
    (INFINITY as int, INFINITY as int)
}

/// The bounds that hold what either of two bounds holds.
pub open spec fn spec_join(a: Interval, b: Interval) -> Interval {
    (if a.0 <= b.0 {
        a.0
    } else {
        b.0
    }, if a.1 >= b.1 {
        a.1
    } else {
        b.1
    })
}

/// The moments within the period at which a trip arrives that arrives
/// from `from` up to, not including, `to`: one range or two, each given by
/// its first moment and the moment after its last.  An empty second range
/// has both moments zero.
pub open spec fn spec_pieces(from: int, to: int) -> ((int, int), (int, int)) {
    let period = PERIOD as int;
    if to - from >= period {
        ((0, period), (0, 0))
    } else {
        let start = from % period;
        let end = start + (to - from);
        if end <= period {
            ((start, end), (0, 0))
        } else {
            ((start, period), (0, end - period))
        }
    }
}

/// A moment of arrival lies, within the period, in one of the pieces.
pub proof fn lemma_pieces(from: int, to: int, t: int)
    requires
        from <= t < to,
    ensures
        ({
            let (first, second) = spec_pieces(from, to);
            let at = t % (PERIOD as int);
            (first.0 <= at < first.1) || (second.0 <= at < second.1)
        }),
        0 <= spec_pieces(from, to).0.0 < spec_pieces(from, to).0.1 <= PERIOD,
        0 <= spec_pieces(from, to).1.0 <= spec_pieces(from, to).1.1 <= PERIOD,
{
    let period = PERIOD as int;
    vstd::arithmetic::div_mod::lemma_fundamental_div_mod(from, period);
    vstd::arithmetic::div_mod::lemma_fundamental_div_mod(t, period);
    vstd::arithmetic::div_mod::lemma_mod_bound(from, period);
    vstd::arithmetic::div_mod::lemma_mod_bound(t, period);
    if to - from < period {
        let start = from % period;
        let shifted = start + (t - from);
        // `t` and `shifted` differ by a multiple of the period
        assert(t == period * (from / period) + shifted);
        if shifted < period {
            vstd::arithmetic::div_mod::lemma_fundamental_div_mod_converse(
                t,
                period,
                from / period,
                shifted,
            );
        } else {
            assert(t == period * (from / period + 1) + (shifted - period)) by (nonlinear_arith)
                requires
                    t == period * (from / period) + shifted,
            ;
            vstd::arithmetic::div_mod::lemma_fundamental_div_mod_converse(
                t,
                period,
                from / period + 1,
                shifted - period,
            );
        }
    }
}

impl ShortcutModel {
    /// Bounds on the travel time across arc `e` for the departures from
    /// `from` up to, not including, `to`, as far as they are given by the
    /// first `k` sources of the arc.  The bounds of an original arc are its
    /// least and greatest travel time while it is in force.  The bounds of
    /// a triangle are the sums of the bounds of its downward arc while the
    /// triangle is in force and of its upward arc for the moments at which
    /// the trip across the downward arc may arrive.
    pub open spec fn bounds_from(self, up: bool, e: int, from: int, to: int, k: int) -> Interval
        decreases
            (if 0 <= e < self.arcs(up).len() {
                self.arcs(up)[e].level
            } else {
                0
            }),
            1int,
            k,
    {
        if !(0 <= e < self.arcs(up).len()) || k <= 0 {
            spec_no_bounds()
        } else {
            let arc = self.arcs(up)[e];
            let rest = self.bounds_from(up, e, from, to, k - 1);
            if k > arc.sources.len() {
                rest
            } else {
                let first = if from >= arc.sources[k - 1].0 {
                    from
                } else {
                    arc.sources[k - 1].0 as int
                };
                let until = if k < arc.sources.len() {
                    arc.sources[k].0 as int
                } else {
                    PERIOD as int
                };
                let last = if to <= until {
                    to
                } else {
                    until
                };
                if first >= last {
                    rest
                } else {
                    spec_join(rest, self.source_bounds(arc.sources[k - 1].1, arc.level, first, last))
                }
            }
        }
    }

    /// Bounds on the travel time across arc `e` for the departures from
    /// `from` up to, not including, `to`.
    pub open spec fn bounds_for(self, up: bool, e: int, from: int, to: int) -> Interval {
        if 0 <= e < self.arcs(up).len() && self.arcs(up)[e].sources.len() > 0 {
            self.bounds_from(up, e, from, to, self.arcs(up)[e].sources.len() as int)
        } else {
            spec_no_way()
        }
    }

    /// Bounds on the travel time along `source`, which stands in an arc of
    /// level `level`, for the departures from `from` up to, not including, `to`.
    pub open spec fn source_bounds(self, source: ShortcutSource, level: int, from: int, to: int) -> Interval
        decreases level, 0int, 0int,
    {
        match source {
            ShortcutSource::NoSource => spec_no_way(),
            ShortcutSource::OriginalEdge(edge) => if edge < self.original.len() {
                (
                    spec_min_over(self.original[edge as int], from, to),
                    spec_max_over(self.original[edge as int], from, to),
                )
            } else {
                spec_no_way()
            },
            ShortcutSource::Shortcut(down, up_arc) => if self.source_ok(source, level) {
                let first = if self.incoming[down as int].sources.len() > 0 {
                    self.bounds_from(
                        false,
                        down as int,
                        from,
                        to,
                        self.incoming[down as int].sources.len() as int,
                    )
                } else {
                    spec_no_way()
                };
                if first.0 >= INFINITY {
                    spec_no_way()
                } else {
                    let pieces = spec_pieces(from + first.0, to + first.1);
                    let sources = self.outgoing[up_arc as int].sources.len() as int;
                    let second = if sources > 0 {
                        spec_join(
                            self.bounds_from(true, up_arc as int, pieces.0.0, pieces.0.1, sources),
                            if pieces.1.0 < pieces.1.1 {
                                self.bounds_from(true, up_arc as int, pieces.1.0, pieces.1.1, sources)
                            } else {
                                spec_no_bounds()
                            },
                        )
                    } else {
                        spec_no_way()
                    };
                    (spec_sat_add(first.0, second.0), spec_sat_add(first.1, second.1))
                }
            } else {
                spec_no_way()
            },
        }
    }

    /// Whatever the sources give, the lower bound is at most `INFINITY` and the upper bound is not negative.
    pub proof fn lemma_bounds_from_range(self, up: bool, e: int, from: int, to: int, k: int)
        ensures
            self.bounds_from(up, e, from, to, k).0 <= INFINITY,
            self.bounds_from(up, e, from, to, k).1 >= 0,
        decreases k,
    {
        if 0 <= e < self.arcs(up).len() && k > 0 {
            self.lemma_bounds_from_range(up, e, from, to, k - 1);
        }
    }

    /// What the first `k` sources give holds what any one of them gives.
    pub proof fn lemma_bounds_from_hold(self, up: bool, e: int, from: int, to: int, k: int, i: int)
        requires
            0 <= e < self.arcs(up).len(),
            0 <= i < k <= self.arcs(up)[e].sources.len(),
            ({
                let arc = self.arcs(up)[e];
                let first = if from >= arc.sources[i].0 {
                    from
                } else {
                    arc.sources[i].0 as int
                };
                let until = if i + 1 < arc.sources.len() {
                    arc.sources[i + 1].0 as int
                } else {
                    PERIOD as int
                };
                first < (if to <= until {
                    to
                } else {
                    until
                })
            }),
        ensures
            ({
                let arc = self.arcs(up)[e];
                let first = if from >= arc.sources[i].0 {
                    from
                } else {
                    arc.sources[i].0 as int
                };
                let until = if i + 1 < arc.sources.len() {
                    arc.sources[i + 1].0 as int
                } else {
                    PERIOD as int
                };
                let last = if to <= until {
                    to
                } else {
                    until
                };
                let one = self.source_bounds(arc.sources[i].1, arc.level, first, last);
                self.bounds_from(up, e, from, to, k).0 <= one.0 && one.1 <= self.bounds_from(
                    up,
                    e,
                    from,
                    to,
                    k,
                ).1
            }),
        decreases k,
    {
        if i < k - 1 {
            self.lemma_bounds_from_hold(up, e, from, to, k - 1, i);
        }
    }

    /// Whether `other` has the same original arcs and the same arcs with
    /// the same sources; levels, bounds and marks may differ.
    pub open spec fn same_ways(self, other: ShortcutModel) -> bool {
        &&& self.original == other.original
        &&& self.outgoing.len() == other.outgoing.len()
        &&& self.incoming.len() == other.incoming.len()
        &&& forall|e: int|
            0 <= e < self.outgoing.len() ==> (#[trigger] self.outgoing[e]).sources == other.outgoing[e].sources
        &&& forall|e: int|
            0 <= e < self.incoming.len() ==> (#[trigger] self.incoming[e]).sources == other.incoming[e].sources
    }

    /// The travel time across an arc rests on the sources alone: two
    /// hierarchies with the same sources give the same.
    pub proof fn lemma_same_eval(self, other: ShortcutModel, up: bool, e: int, t: int)
        requires
            self.wf(),
            other.wf(),
            self.same_ways(other),
            0 <= t,
        ensures
            self.eval(up, e, t) == other.eval(up, e, t),
        decreases
            (if 0 <= e < self.arcs(up).len() {
                self.arcs(up)[e].level
            } else {
                0
            }),
    {
        if 0 <= e < self.arcs(up).len() {
            assert(self.arcs(up)[e].sources == other.arcs(up)[e].sources);
            assert(self.arc_ok(self.arcs(up)[e]));
            self.lemma_source_ok(up, e, t);
            other.lemma_source_ok(up, e, t);
            match self.source(up, e, t) {
                ShortcutSource::Shortcut(down, up_arc) => {
                    self.lemma_same_eval(other, false, down as int, t);
                    self.lemma_eval_range(false, down as int, t);
                    self.lemma_same_eval(other, true, up_arc as int, t + self.eval(false, down as int, t));
                },
                _ => {},
            }
        }
    }

    /// Sound bounds are sound for a hierarchy with the same sources and
    /// the same bounds in which only arcs whose bounds agree are marked as constant.
    pub proof fn lemma_same_sound(self, other: ShortcutModel)
        requires
            self.wf(),
            other.wf(),
            self.same_ways(other),
            self.bounds_sound(),
            forall|up: bool, e: int|
                0 <= e < self.arcs(up).len() ==> (#[trigger] other.arcs(up)[e]).lower == self.arcs(up)[e].lower
                    && other.arcs(up)[e].upper == self.arcs(up)[e].upper && (other.arcs(up)[e].constant
                    ==> other.arcs(up)[e].lower == other.arcs(up)[e].upper),
        ensures
            other.bounds_sound(),
    {
        assert forall|e: int| 0 <= e < other.outgoing.len() implies other.bounded(
            true,
            e,
            (#[trigger] other.outgoing[e]).lower,
            other.outgoing[e].upper,
        ) && (other.outgoing[e].constant ==> other.outgoing[e].lower == other.outgoing[e].upper) by {
            assert(other.arcs(true)[e].lower == self.arcs(true)[e].lower);
            assert(self.bounded(true, e, self.outgoing[e].lower, self.outgoing[e].upper));
            assert forall|t: int| 0 <= t implies other.outgoing[e].lower <= #[trigger] other.eval(true, e, t)
                <= other.outgoing[e].upper by {
                self.lemma_same_eval(other, true, e, t);
                assert(self.outgoing[e].lower <= self.eval(true, e, t) <= self.outgoing[e].upper);
            }
        }
        assert forall|e: int| 0 <= e < other.incoming.len() implies other.bounded(
            false,
            e,
            (#[trigger] other.incoming[e]).lower,
            other.incoming[e].upper,
        ) && (other.incoming[e].constant ==> other.incoming[e].lower == other.incoming[e].upper) by {
            assert(other.arcs(false)[e].lower == self.arcs(false)[e].lower);
            assert(self.bounded(false, e, self.incoming[e].lower, self.incoming[e].upper));
            assert forall|t: int| 0 <= t implies other.incoming[e].lower <= #[trigger] other.eval(false, e, t)
                <= other.incoming[e].upper by {
                self.lemma_same_eval(other, false, e, t);
                assert(self.incoming[e].lower <= self.eval(false, e, t) <= self.incoming[e].upper);
            }
        }
    }

    /// Whether the stored bounds of arc `e` hold the bounds that its
    /// sources give for the whole period, and the arc is marked as
    /// constant only where its stored bounds agree.
    pub open spec fn bounds_checked(self, up: bool, e: int) -> bool {
        let arc = self.arcs(up)[e];
        let found = self.bounds_for(up, e, 0, PERIOD as int);
        &&& arc.lower <= found.0
        &&& found.1 <= arc.upper
        &&& arc.constant ==> arc.lower == arc.upper
    }

    /// Whether the stored bounds of every arc are checked.
    pub open spec fn all_bounds_checked(self) -> bool {
        forall|up: bool, e: int| 0 <= e < self.arcs(up).len() ==> #[trigger] self.bounds_checked(up, e)
    }

    /// Stored bounds that hold the bounds that the sources give hold
    /// every travel time: a hierarchy whose bounds are checked has sound bounds.
    pub proof fn lemma_checked_is_sound(self)
        requires
            self.wf(),
            self.all_bounds_checked(),
        ensures
            self.bounds_sound(),
    {
        let period = PERIOD as int;
        assert forall|up: bool, e: int, t: int| 0 <= e < self.arcs(up).len() && 0 <= t implies self.arcs(
            up,
        )[e].lower <= #[trigger] self.eval(up, e, t) <= self.arcs(up)[e].upper by {
            assert(self.bounds_checked(up, e));
            self.lemma_eval_periodic(up, e, t);
            self.lemma_bounds_for(up, e, 0, period, t % period);
        }
        assert forall|e: int| 0 <= e < self.outgoing.len() implies self.bounded(
            true,
            e,
            (#[trigger] self.outgoing[e]).lower,
            self.outgoing[e].upper,
        ) && (self.outgoing[e].constant ==> self.outgoing[e].lower == self.outgoing[e].upper) by {
            assert(self.bounds_checked(true, e));
            assert forall|t: int| 0 <= t implies self.outgoing[e].lower <= #[trigger] self.eval(true, e, t)
                <= self.outgoing[e].upper by {
                assert(self.arcs(true)[e].lower <= self.eval(true, e, t));
            }
        }
        assert forall|e: int| 0 <= e < self.incoming.len() implies self.bounded(
            false,
            e,
            (#[trigger] self.incoming[e]).lower,
            self.incoming[e].upper,
        ) && (self.incoming[e].constant ==> self.incoming[e].lower == self.incoming[e].upper) by {
            assert(self.bounds_checked(false, e));
            assert forall|t: int| 0 <= t implies self.incoming[e].lower <= #[trigger] self.eval(false, e, t)
                <= self.incoming[e].upper by {
                assert(self.arcs(false)[e].lower <= self.eval(false, e, t));
            }
        }
    }

    /// The bounds hold: no travel time across an arc for a departure
    /// within the range is below the lower or above the upper bound.
    pub proof fn lemma_bounds_for(self, up: bool, e: int, from: int, to: int, t: int)
        requires
            self.wf(),
            0 <= e < self.arcs(up).len(),
            0 <= from <= t < to <= PERIOD,
        ensures
            self.bounds_for(up, e, from, to).0 <= self.eval(up, e, t) <= self.bounds_for(up, e, from, to).1,
        decreases self.arcs(up)[e].level, 1int,
    {
        let arc = self.arcs(up)[e];
        let period = PERIOD as int;
        assert(self.arc_ok(arc));
        vstd::arithmetic::div_mod::lemma_small_mod(t as nat, period as nat);
        if arc.sources.len() > 0 {
            lemma_source_index(arc.sources, t, arc.sources.len() - 1);
            let i = spec_source_index(arc.sources, t, arc.sources.len() - 1);
            assert(self.source(up, e, t) == arc.sources[i].1);
            assert(self.source_ok(arc.sources[i].1, arc.level));
            if i + 1 < arc.sources.len() {
                assert(arc.sources[i + 1].0 > t);
            }
            let first = if from >= arc.sources[i].0 { from } else { arc.sources[i].0 as int };
            let until = if i + 1 < arc.sources.len() { arc.sources[i + 1].0 as int } else { period };
            let last = if to <= until { to } else { until };
            self.lemma_bounds_from_hold(up, e, from, to, arc.sources.len() as int, i);
            self.lemma_source_bounds(arc.sources[i].1, arc.level, first, last, t);
            match arc.sources[i].1 {
                ShortcutSource::Shortcut(down, up_arc) => {
                    assert(self.eval(up, e, t) == self.eval_linked(down as int, up_arc as int, t));
                },
                _ => {},
            }
        }
    }

    /// The travel time along a source at `t`: that of the original arc, or
    /// that across the triangle; without a source there is no way through.
    pub open spec fn eval_source(self, source: ShortcutSource, t: int) -> int {
        match source {
            ShortcutSource::NoSource => INFINITY as int,
            ShortcutSource::OriginalEdge(edge) => spec_eval_periodic(self.original[edge as int], t),
            ShortcutSource::Shortcut(down, up_arc) => self.eval_linked(down as int, up_arc as int, t),
        }
    }

    /// The bounds of a source hold for every departure within the range.
    pub proof fn lemma_source_bounds(self, source: ShortcutSource, level: int, from: int, to: int, t: int)
        requires
            self.wf(),
            self.source_ok(source, level),
            0 <= from <= t < to <= PERIOD,
        ensures
            self.source_bounds(source, level, from, to).0 <= self.eval_source(source, t)
                <= self.source_bounds(source, level, from, to).1,
        decreases level, 0int,
    {
        let period = PERIOD as int;
        vstd::arithmetic::div_mod::lemma_small_mod(t as nat, period as nat);
        match source {
            ShortcutSource::NoSource => {},
            ShortcutSource::OriginalEdge(edge) => {
                lemma_min_max_over(self.original[edge as int], from, to);
            },
            ShortcutSource::Shortcut(down, up_arc) => {
                let first = if self.incoming[down as int].sources.len() > 0 {
                    self.bounds_from(
                        false,
                        down as int,
                        from,
                        to,
                        self.incoming[down as int].sources.len() as int,
                    )
                } else {
                    spec_no_way()
                };
                assert(first == self.bounds_for(false, down as int, from, to));
                self.lemma_bounds_for(false, down as int, from, to, t);
                self.lemma_bounds_from_range(
                    false,
                    down as int,
                    from,
                    to,
                    self.incoming[down as int].sources.len() as int,
                );
                let pieces_all = spec_pieces(from + first.0, to + first.1);
                self.lemma_bounds_from_range(
                    true,
                    up_arc as int,
                    pieces_all.0.0,
                    pieces_all.0.1,
                    self.outgoing[up_arc as int].sources.len() as int,
                );
                self.lemma_bounds_from_range(
                    true,
                    up_arc as int,
                    pieces_all.1.0,
                    pieces_all.1.1,
                    self.outgoing[up_arc as int].sources.len() as int,
                );
                let a = self.eval(false, down as int, t);
                self.lemma_eval_range(false, down as int, t);
                self.lemma_eval_range(true, up_arc as int, t + a);
                if first.0 < INFINITY && a < INFINITY {
                    let arrival = t + a;
                    let pieces = spec_pieces(from + first.0, to + first.1);
                    lemma_pieces(from + first.0, to + first.1, arrival);
                    let at = arrival % period;
                    self.lemma_eval_periodic(true, up_arc as int, arrival);
                    vstd::arithmetic::div_mod::lemma_mod_bound(arrival, period);
                    let sources = self.outgoing[up_arc as int].sources.len() as int;
                    if sources > 0 {
                        if pieces.0.0 <= at < pieces.0.1 {
                            assert(self.bounds_from(true, up_arc as int, pieces.0.0, pieces.0.1, sources)
                                == self.bounds_for(true, up_arc as int, pieces.0.0, pieces.0.1));
                            self.lemma_bounds_for(true, up_arc as int, pieces.0.0, pieces.0.1, at);
                        } else {
                            assert(self.bounds_from(true, up_arc as int, pieces.1.0, pieces.1.1, sources)
                                == self.bounds_for(true, up_arc as int, pieces.1.0, pieces.1.1));
                            self.lemma_bounds_for(true, up_arc as int, pieces.1.0, pieces.1.1, at);
                        }
                    }
                }
            },
        }
    }
}

/// Merging keeps first in first out: where with each of two travel time
/// functions a later departure never arrives earlier, that holds of the
/// lesser of the two at every moment.
pub proof fn lemma_merge_fifo(f: spec_fn(int) -> int, g: spec_fn(int) -> int, x: int, y: int)
    requires
        forall|a: int, b: int| 0 <= a <= b ==> a + #[trigger] f(a) <= b + #[trigger] f(b),
        forall|a: int, b: int| 0 <= a <= b ==> a + #[trigger] g(a) <= b + #[trigger] g(b),
        0 <= x <= y,
    ensures
        x + spec_merge(f(x), g(x)) <= y + spec_merge(f(y), g(y)),
{
    assert(x + f(x) <= y + f(y));
    assert(x + g(x) <= y + g(y));
}

/// The lesser of two travel times.
pub open spec fn spec_merge(incumbent: int, other: int) -> int {
    if incumbent <= other {
        incumbent
    } else {
        other
    }
}

/// The lesser of two travel times, and whether it is the incumbent's: on a tie it is.
pub fn merge(incumbent: Weight, other: Weight) -> (r: (Weight, bool))
    ensures
        r.0 as int == spec_merge(incumbent as int, other as int),
        r.1 == (incumbent <= other),
{
    if incumbent <= other {
        (incumbent, true)
    } else {
        (other, false)
    }
}

} // verus!
