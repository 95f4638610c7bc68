//! Two shortcuts in a row.
use vstd::prelude::*;
use core::ops::Range;
use crate::datastr::rank_select_map::BitVec;
use crate::graph::shortcut::Marks;
use crate::graph::shortcut_graph::spec_marks;
use crate::graph::shortcut::{ShortcutSource, ShortcutSourceData, NO_ARC};
use crate::graph::shortcut_graph::PartialShortcutGraph;
use crate::types::{sat_add, spec_sat_add, EdgeId, Timestamp, Weight, INFINITY, PERIOD};

verus! {

/// The way across a lower triangle: a downward shortcut, then an upward one.
#[derive(Debug, Clone, Copy)]
pub struct Linked {
    first: EdgeId,
    second: EdgeId,
}

impl Linked {
    /// The downward shortcut.
    pub closed spec fn spec_first(&self) -> EdgeId {
        self.first
    }

    /// The upward shortcut.
    pub closed spec fn spec_second(&self) -> EdgeId {
        self.second
    }

    /// The downward shortcut `first` followed by the upward shortcut `second`.
    pub fn new(first: EdgeId, second: EdgeId) -> (l: Linked)
        ensures
            l.spec_first() == first,
            l.spec_second() == second,
    {
        Linked { first, second }
    }

    /// The travel time across both when entering at `departure`.
    pub fn evaluate(self, departure: Timestamp, shortcut_graph: &PartialShortcutGraph) -> (r: Weight)
        requires
            shortcut_graph.wf(),
            departure < PERIOD,
        ensures
            r as int == shortcut_graph.model().eval_linked(
                self.spec_first() as int,
                self.spec_second() as int,
                departure as int,
            ),
    {
        let first_edge_value = shortcut_graph.evaluate(false, self.first, departure);
        proof {
            shortcut_graph.model().lemma_eval_range(false, self.first as int, departure as int);
        }
        if first_edge_value >= INFINITY {
            return INFINITY;
        }
        let arrival: Timestamp = (departure + first_edge_value) % PERIOD;
        proof {
            shortcut_graph.model().lemma_eval_periodic(
                true,
                self.second as int,
                departure + first_edge_value,
            );
        }
        sat_add(first_edge_value, shortcut_graph.evaluate(true, self.second, arrival))
    }

    /// Bounds on the travel time across both at any time: the sums of the
    /// bounds of the two shortcuts.
    pub fn bounds(self, shortcut_graph: &PartialShortcutGraph) -> (r: (Weight, Weight))
        requires
            shortcut_graph.spec_offset() <= self.spec_first() < shortcut_graph.spec_offset()
                + shortcut_graph.spec_incoming().len(),
            shortcut_graph.spec_offset() <= self.spec_second() < shortcut_graph.spec_offset()
                + shortcut_graph.spec_outgoing().len(),
        ensures
            r.0 as int == spec_sat_add(
                shortcut_graph.spec_incoming()[self.spec_first() - shortcut_graph.spec_offset()].lower_bound as int,
                shortcut_graph.spec_outgoing()[self.spec_second() - shortcut_graph.spec_offset()].lower_bound as int,
            ),
            r.1 as int == spec_sat_add(
                shortcut_graph.spec_incoming()[self.spec_first() - shortcut_graph.spec_offset()].upper_bound as int,
                shortcut_graph.spec_outgoing()[self.spec_second() - shortcut_graph.spec_offset()].upper_bound as int,
            ),
    {
        let (first_min, first_max) = shortcut_graph.get_incoming(self.first).bounds();
        let (second_min, second_max) = shortcut_graph.get_outgoing(self.second).bounds();
        (sat_add(first_min, second_min), sat_add(first_max, second_max))
    }

    /// The triangle as a packed source.
    pub fn as_shortcut_data(self) -> (r: ShortcutSourceData)
        requires
            self.spec_first() != NO_ARC,
        ensures
            r@ == ShortcutSource::Shortcut(self.spec_first(), self.spec_second()),
    {
        ShortcutSourceData::from_source(ShortcutSource::Shortcut(self.first, self.second))
    }

    /// Whether both shortcuts stand for something.
    pub fn is_valid_path(self, shortcut_graph: &PartialShortcutGraph) -> (b: bool)
        requires
            shortcut_graph.spec_offset() <= self.spec_first() < shortcut_graph.spec_offset()
                + shortcut_graph.spec_incoming().len(),
            shortcut_graph.spec_offset() <= self.spec_second() < shortcut_graph.spec_offset()
                + shortcut_graph.spec_outgoing().len(),
        ensures
            b == (shortcut_graph.spec_incoming()[self.spec_first()
                - shortcut_graph.spec_offset()].spec_data().len() > 0
                && shortcut_graph.spec_outgoing()[self.spec_second()
                - shortcut_graph.spec_offset()].spec_data().len() > 0),
    {
        shortcut_graph.get_incoming(self.first).is_valid_path() && shortcut_graph.get_outgoing(
            self.second,
        ).is_valid_path()
    }

    /// Checks that no arc with the identifier `edge_id` is part of the
    /// triangle: neither of the two shortcuts has it, and no source of
    /// either, or of a shortcut that they rest on, is a triangle with it.
    pub fn validate_does_not_contain(self, edge_id: EdgeId, shortcut_graph: &PartialShortcutGraph) -> (ok:
        bool)
        requires
            shortcut_graph.wf(),
        ensures
            ok == !(self.spec_first() == edge_id || self.spec_second() == edge_id
                || shortcut_graph.model().mentions(
                false,
                self.spec_first() as int,
                edge_id,
                (if self.spec_first() < shortcut_graph.model().incoming.len() {
                    shortcut_graph.model().incoming[self.spec_first() as int].sources.len()
                } else {
                    0
                }) as int,
            ) || shortcut_graph.model().mentions(
                true,
                self.spec_second() as int,
                edge_id,
                (if self.spec_second() < shortcut_graph.model().outgoing.len() {
                    shortcut_graph.model().outgoing[self.spec_second() as int].sources.len()
                } else {
                    0
                }) as int,
            )),
    {
        if edge_id == self.first || edge_id == self.second {
            return false;
        }
        !shortcut_graph.mentions(false, self.first, edge_id) && !shortcut_graph.mentions(
            true,
            self.second,
            edge_id,
        )
    }

    /// The level at which the triangle stands: above both of its shortcuts.
    pub open spec fn spec_level(&self) -> int {
        (if self.spec_first() >= self.spec_second() {
            self.spec_first()
        } else {
            self.spec_second()
        }) + 1
    }

    /// Bounds on the travel time across both for the departures of
    /// `range`, a range of moments within the period that is not empty:
    /// the bounds of the first for these departures, plus the bounds of the
    /// second for the moments at which the trip across the first may arrive.
    pub fn bounds_for(self, range: &Range<Timestamp>, shortcut_graph: &PartialShortcutGraph) -> (r: (
        Weight,
        Weight,
    ))
        requires
            shortcut_graph.wf(),
            self.spec_first() < shortcut_graph.model().incoming.len(),
            self.spec_second() < shortcut_graph.model().outgoing.len(),
            range.start < range.end <= PERIOD,
        ensures
            (r.0 as int, r.1 as int) == shortcut_graph.model().source_bounds(
                ShortcutSource::Shortcut(self.spec_first(), self.spec_second()),
                self.spec_level(),
                range.start as int,
                range.end as int,
            ),
            forall|t: int|
                range.start <= t < range.end ==> r.0 <= #[trigger] shortcut_graph.model().eval_linked(
                    self.spec_first() as int,
                    self.spec_second() as int,
                    t,
                ) <= r.1,
    {
        let top = if self.first >= self.second { self.first } else { self.second };
        proof {
            shortcut_graph.lemma_model_sizes();
        }
        let level = top + 1;
        let source = ShortcutSource::Shortcut(self.first, self.second);
        let r = shortcut_graph.source_bounds(source, level, range);
        proof {
            let model = shortcut_graph.model();
            assert forall|t: int| range.start <= t < range.end implies r.0 <= #[trigger] model.eval_linked(
                self.first as int,
                self.second as int,
                t,
            ) <= r.1 by {
                model.lemma_source_bounds(source, level as int, range.start as int, range.end as int, t);
            }
        }
        r
    }

    /// Marks both shortcuts of the triangle and everything that they rest
    /// on: shortcuts in `unpacked_shortcuts`, downward ones at twice their
    /// identifier and upward ones at the place after that, and original
    /// arcs in `original_edges`.  What is marked already is taken to be
    /// dealt with: of every arc that was marked, all that it rests on was marked.
    pub fn unpack(
        self,
        shortcut_graph: &PartialShortcutGraph,
        unpacked_shortcuts: &mut BitVec,
        original_edges: &mut BitVec,
    )
        requires
            shortcut_graph.wf(),
            old(unpacked_shortcuts).wf(),
            old(original_edges).wf(),
            shortcut_graph.model().has_room(spec_marks(*old(unpacked_shortcuts), *old(original_edges))),
            self.spec_first() < shortcut_graph.model().incoming.len(),
            self.spec_second() < shortcut_graph.model().outgoing.len(),
            shortcut_graph.model().closed(spec_marks(*old(unpacked_shortcuts), *old(original_edges))),
        ensures
            final(unpacked_shortcuts).wf(),
            final(original_edges).wf(),
            shortcut_graph.model().closed(spec_marks(*final(unpacked_shortcuts), *final(original_edges))),
            spec_marks(*old(unpacked_shortcuts), *old(original_edges)).within(
                spec_marks(*final(unpacked_shortcuts), *final(original_edges)),
            ),
            spec_marks(*final(unpacked_shortcuts), *final(original_edges)).marked(
                false,
                self.spec_first() as int,
            ),
            spec_marks(*final(unpacked_shortcuts), *final(original_edges)).marked(
                true,
                self.spec_second() as int,
            ),
            forall|on_up: bool, on: int|
                0 <= on && Marks::index(on_up, on) < final(unpacked_shortcuts)@.len() && #[trigger] spec_marks(
                    *final(unpacked_shortcuts),
                    *final(original_edges),
                ).marked(on_up, on) && !spec_marks(*old(unpacked_shortcuts), *old(original_edges)).marked(
                    on_up,
                    on,
                ) ==> (!on_up && on == self.spec_first()) || (on_up && on == self.spec_second())
                    || shortcut_graph.model().rests_on(
                    false,
                    self.spec_first() as int,
                    on_up,
                    on,
                    shortcut_graph.model().incoming[self.spec_first() as int].sources.len() as int,
                ) || shortcut_graph.model().rests_on(
                    true,
                    self.spec_second() as int,
                    on_up,
                    on,
                    shortcut_graph.model().outgoing[self.spec_second() as int].sources.len() as int,
                ),
            forall|edge: int|
                0 <= edge < final(original_edges)@.len() && #[trigger] final(original_edges)@[edge] && !old(original_edges)@[edge] ==> shortcut_graph.model().rests_on_original(
                    false,
                    self.spec_first() as int,
                    edge,
                    shortcut_graph.model().incoming[self.spec_first() as int].sources.len() as int,
                ) || shortcut_graph.model().rests_on_original(
                    true,
                    self.spec_second() as int,
                    edge,
                    shortcut_graph.model().outgoing[self.spec_second() as int].sources.len() as int,
                ),
    {
        let ghost start = spec_marks(*unpacked_shortcuts, *original_edges);
        shortcut_graph.unpack(false, self.first, unpacked_shortcuts, original_edges);
        let ghost middle = spec_marks(*unpacked_shortcuts, *original_edges);
        shortcut_graph.unpack(true, self.second, unpacked_shortcuts, original_edges);
        proof {
            let end = spec_marks(*unpacked_shortcuts, *original_edges);
            let model = shortcut_graph.model();
            assert forall|on_up: bool, on: int|
                0 <= on && Marks::index(on_up, on) < unpacked_shortcuts@.len() && #[trigger] end.marked(
                    on_up,
                    on,
                ) && !start.marked(on_up, on) implies (!on_up && on == self.first) || (on_up && on
                == self.second) || model.rests_on(
                false,
                self.first as int,
                on_up,
                on,
                model.incoming[self.first as int].sources.len() as int,
            ) || model.rests_on(
                true,
                self.second as int,
                on_up,
                on,
                model.outgoing[self.second as int].sources.len() as int,
            ) by {
                if middle.marked(on_up, on) {
                }
            }
            assert forall|edge: int|
                0 <= edge < original_edges@.len() && #[trigger] original_edges@[edge]
                    && !start.originals[edge] implies model.rests_on_original(
                false,
                self.first as int,
                edge,
                model.incoming[self.first as int].sources.len() as int,
            ) || model.rests_on_original(
                true,
                self.second as int,
                edge,
                model.outgoing[self.second as int].sources.len() as int,
            ) by {
                if middle.originals[edge] {
                }
            }
        }
    }
}

} // verus!
