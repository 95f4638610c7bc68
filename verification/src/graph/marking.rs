//! Marking what an arc of a hierarchy rests on.
use vstd::prelude::*;
use crate::datastr::rank_select_map::BitVec;
use crate::graph::shortcut::{Marks, ShortcutModel, ShortcutSource};
use crate::types::EdgeId;

verus! {

/// The marks that two bit vectors hold.
pub open spec fn spec_marks(shortcuts: BitVec, originals: BitVec) -> Marks {
    Marks { shortcuts: shortcuts@, originals: originals@ }
}

/// A hierarchy that hands out the sources of its arcs one by one.
pub trait Hierarchy {
    /// The hierarchy as the cost functions see it.
    spec fn spec_hierarchy(&self) -> ShortcutModel;

    /// Whether the hierarchy is in order.
    spec fn in_order(&self) -> bool;

    /// In a hierarchy in order every source names an original arc or arcs of a lower level.
    proof fn lemma_in_order(&self)
        requires
            self.in_order(),
        ensures
            self.spec_hierarchy().wf(),
    ;

    /// Number of sources of the upward (`up`) or downward arc `edge_id`.
    fn source_count(&self, up: bool, edge_id: EdgeId) -> (n: usize)
        requires
            self.in_order(),
            edge_id < self.spec_hierarchy().arcs(up).len(),
        ensures
            n == self.spec_hierarchy().arcs(up)[edge_id as int].sources.len(),
    ;

    /// Source `i` of the upward (`up`) or downward arc `edge_id`.
    fn source_of(&self, up: bool, edge_id: EdgeId, i: usize) -> (s: ShortcutSource)
        requires
            self.in_order(),
            edge_id < self.spec_hierarchy().arcs(up).len(),
            i < self.spec_hierarchy().arcs(up)[edge_id as int].sources.len(),
        ensures
            s == self.spec_hierarchy().arcs(up)[edge_id as int].sources[i as int].1,
    ;
}

impl ShortcutModel {
    /// Whether `after` holds, besides what `before` holds, only marks of
    /// the arc `edge_id`, of arcs that it rests on and of original arcs that it rests on.
    pub open spec fn only_marked_for(self, before: Marks, after: Marks, up: bool, edge_id: int) -> bool {
        let model = self;
        let sources = if 0 <= edge_id < model.arcs(up).len() {
            model.arcs(up)[edge_id].sources.len() as int
        } else {
            0
        };
        &&& before.within(after)
        &&& forall|on_up: bool, on: int|
            0 <= on && Marks::index(on_up, on) < after.shortcuts.len() && #[trigger] after.marked(on_up, on)
                && !before.marked(on_up, on) ==> (on_up == up && on == edge_id) || model.rests_on(
                up,
                edge_id,
                on_up,
                on,
                sources,
            )
        &&& forall|edge: int|
            0 <= edge < after.originals.len() && #[trigger] after.originals[edge] && !before.originals[edge]
                ==> model.rests_on_original(up, edge_id, edge, sources)
    }

    /// Where of every marked arc everything that its sources name is
    /// marked, every original arc that a marked arc rests on is marked.
    pub proof fn lemma_closed_originals(self, marks: Marks, up: bool, e: int, edge: int, k: int)
        requires
            self.wf(),
            self.has_room(marks),
            self.closed(marks),
            0 <= e < self.arcs(up).len(),
            marks.marked(up, e),
            k <= self.arcs(up)[e].sources.len(),
            self.rests_on_original(up, e, edge, k),
        ensures
            0 <= edge < marks.originals.len(),
            marks.originals[edge],
        decreases self.arcs(up)[e].level, k,
    {
        let arc = self.arcs(up)[e];
        assert(self.arc_ok(arc));
        if k > 0 {
            if self.rests_on_original(up, e, edge, k - 1) {
                self.lemma_closed_originals(marks, up, e, edge, k - 1);
            } else {
                assert(self.source_marked(marks, up, e, k - 1));
                assert(self.source_ok(arc.sources[k - 1].1, arc.level));
                match arc.sources[k - 1].1 {
                    ShortcutSource::Shortcut(down, up_arc) => {
                        let down_sources = self.incoming[down as int].sources.len() as int;
                        let up_sources = self.outgoing[up_arc as int].sources.len() as int;
                        if self.rests_on_original(false, down as int, edge, down_sources) {
                            self.lemma_closed_originals(marks, false, down as int, edge, down_sources);
                        } else {
                            self.lemma_closed_originals(marks, true, up_arc as int, edge, up_sources);
                        }
                    },
                    ShortcutSource::OriginalEdge(o) => {},
                    ShortcutSource::NoSource => {},
                }
            }
        }
    }

    /// Marks grow: what was marked stays marked, so what every marked arc named stays marked.
    pub proof fn lemma_marks_grow(self, before: Marks, after: Marks, pending: Set<(bool, int)>)
        requires
            self.wf(),
            self.has_room(before),
            before.within(after),
            self.closed_except(before, pending),
            forall|up: bool, e: int|
                0 <= e < self.arcs(up).len() && after.marked(up, e) ==> before.marked(up, e),
        ensures
            self.closed_except(after, pending),
    {
        let model = self;
        assert forall|up: bool, e: int, i: int|
            0 <= e < model.arcs(up).len() && after.marked(up, e) && !pending.contains((up, e)) && 0 <= i
                < model.arcs(up)[e].sources.len() implies #[trigger] model.source_marked(after, up, e, i) by {
            assert(model.source_marked(before, up, e, i));
            assert(model.arc_ok(model.arcs(up)[e]));
            assert(model.source_ok(model.arcs(up)[e].sources[i].1, model.arcs(up)[e].level));
        }
    }

    /// One more arc is marked and pending: everything else stays as it was.
    pub proof fn lemma_mark(self, before: Marks, after: Marks, pending: Set<(bool, int)>, up: bool, e: int)
        requires
            self.wf(),
            self.has_room(before),
            0 <= e < self.arcs(up).len(),
            after.originals == before.originals,
            after.shortcuts == before.shortcuts.update(Marks::index(up, e), true),
            self.closed_except(before, pending),
            forall|p: (bool, int)|
                pending.contains(p) ==> 0 <= p.1 < self.arcs(p.0).len() && before.marked(p.0, p.1),
        ensures
            self.closed_except(after, pending.insert((up, e))),
            before.within(after),
            self.has_room(after),
            after.marked(up, e),
            forall|p: (bool, int)|
                pending.insert((up, e)).contains(p) ==> 0 <= p.1 < self.arcs(p.0).len()
                    && after.marked(p.0, p.1),
            forall|on_up: bool, on: int|
                0 <= on && Marks::index(on_up, on) < after.shortcuts.len() && #[trigger] after.marked(
                    on_up,
                    on,
                ) && !before.marked(on_up, on) ==> on_up == up && on == e,
    {
        let model = self;
        assert forall|d: bool, a: int, i: int|
            0 <= a < model.arcs(d).len() && after.marked(d, a) && !pending.insert((up, e)).contains((d, a))
                && 0 <= i < model.arcs(d)[a].sources.len() implies #[trigger] model.source_marked(
            after,
            d,
            a,
            i,
        ) by {
            assert(Marks::index(d, a) != Marks::index(up, e));
            assert(before.marked(d, a));
            assert(model.source_marked(before, d, a, i));
            assert(model.arc_ok(model.arcs(d)[a]));
            assert(model.source_ok(model.arcs(d)[a].sources[i].1, model.arcs(d)[a].level));
        }
        assert forall|on_up: bool, on: int|
            0 <= on && Marks::index(on_up, on) < after.shortcuts.len() && #[trigger] after.marked(on_up, on)
                && !before.marked(on_up, on) implies on_up == up && on == e by {
            assert(Marks::index(on_up, on) == Marks::index(up, e));
        }
    }
}

/// Marks everything that the upward (`up`) or downward arc
/// `edge_id`, which is marked, rests on and that is not marked yet.
/// An arc that is marked already is not looked into: of every arc that
/// is marked and not pending, all that it rests on is marked.
#[verifier::spinoff_prover]
fn mark_sources<H: Hierarchy>(
    h: &H,
    up: bool,
    edge_id: EdgeId,
    unpacked_shortcuts: &mut BitVec,
    original_edges: &mut BitVec,
    Ghost(pending): Ghost<Set<(bool, int)>>,
)
    requires
        h.in_order(),
        old(unpacked_shortcuts).wf(),
        old(original_edges).wf(),
        h.spec_hierarchy().has_room(spec_marks(*old(unpacked_shortcuts), *old(original_edges))),
        edge_id < h.spec_hierarchy().arcs(up).len(),
        spec_marks(*old(unpacked_shortcuts), *old(original_edges)).marked(up, edge_id as int),
        pending.contains((up, edge_id as int)),
        forall|p: (bool, int)|
            pending.contains(p) ==> 0 <= p.1 < h.spec_hierarchy().arcs(p.0).len() && spec_marks(
                *old(unpacked_shortcuts),
                *old(original_edges),
            ).marked(p.0, p.1),
        h.spec_hierarchy().closed_except(
            spec_marks(*old(unpacked_shortcuts), *old(original_edges)),
            pending,
        ),
    ensures
        final(unpacked_shortcuts).wf(),
        final(original_edges).wf(),
        h.spec_hierarchy().closed_except(
            spec_marks(*final(unpacked_shortcuts), *final(original_edges)),
            pending.remove((up, edge_id as int)),
        ),
        h.spec_hierarchy().only_marked_for(
            spec_marks(*old(unpacked_shortcuts), *old(original_edges)),
            spec_marks(*final(unpacked_shortcuts), *final(original_edges)),
            up,
            edge_id as int,
        ),
    decreases h.spec_hierarchy().arcs(up)[edge_id as int].level,
{
    let ghost model = h.spec_hierarchy();
    let ghost start = spec_marks(*unpacked_shortcuts, *original_edges);
    let ghost arc = model.arcs(up)[edge_id as int];
    proof {
        h.lemma_in_order();
        assert(model.arc_ok(arc));
    }
    let n = h.source_count(up, edge_id);
    let mut i: usize = 0;
    while i < n
        invariant
            i <= n,
            h.in_order(),
            model == h.spec_hierarchy(),
            edge_id < model.arcs(up).len(),
            arc == model.arcs(up)[edge_id as int],
            model.wf(),
            n == arc.sources.len(),
            model.arc_ok(arc),
            unpacked_shortcuts.wf(),
            original_edges.wf(),
            model.has_room(spec_marks(*unpacked_shortcuts, *original_edges)),
            pending.contains((up, edge_id as int)),
            forall|p: (bool, int)|
                pending.contains(p) ==> 0 <= p.1 < model.arcs(p.0).len() && spec_marks(
                    *unpacked_shortcuts,
                    *original_edges,
                ).marked(p.0, p.1),
            model.closed_except(spec_marks(*unpacked_shortcuts, *original_edges), pending),
            forall|j: int|
                0 <= j < i ==> #[trigger] model.source_marked(
                    spec_marks(*unpacked_shortcuts, *original_edges),
                    up,
                    edge_id as int,
                    j,
                ),
            start.within(spec_marks(*unpacked_shortcuts, *original_edges)),
            forall|on_up: bool, on: int|
                0 <= on && Marks::index(on_up, on) < unpacked_shortcuts@.len() && #[trigger] spec_marks(
                    *unpacked_shortcuts,
                    *original_edges,
                ).marked(on_up, on) && !start.marked(on_up, on) ==> model.rests_on(
                    up,
                    edge_id as int,
                    on_up,
                    on,
                    i as int,
                ),
            forall|edge: int|
                0 <= edge < original_edges@.len() && #[trigger] original_edges@[edge]
                    && !start.originals[edge] ==> model.rests_on_original(
                    up,
                    edge_id as int,
                    edge,
                    i as int,
                ),
        decreases n - i,
    {
        let ghost before = spec_marks(*unpacked_shortcuts, *original_edges);
        proof {
            assert(model.source_ok(arc.sources[i as int].1, arc.level));
        }
        match h.source_of(up, edge_id, i) {
            ShortcutSource::Shortcut(down, up_arc) => {
                let room = unpacked_shortcuts.len();
                assert(2 * down + 1 < room && 2 * up_arc + 1 < room);
                let down_at = down as usize * 2;
                let up_at = up_arc as usize * 2 + 1;
                let down_is_new = !unpacked_shortcuts.get(down_at);
                if down_is_new {
                    unpacked_shortcuts.set(down_at);
                    proof {
                        model.lemma_mark(
                            before,
                            spec_marks(*unpacked_shortcuts, *original_edges),
                            pending,
                            false,
                            down as int,
                        );
                    }
                }
                let ghost first_marked = spec_marks(*unpacked_shortcuts, *original_edges);
                if down_is_new {
                    mark_sources(
                        h,
                        false,
                        down,
                        unpacked_shortcuts,
                        original_edges,
                        Ghost(pending.insert((false, down as int))),
                    );
                    proof {
                        assert(pending.insert((false, down as int)).remove((false, down as int))
                            =~= pending);
                    }
                }
                let ghost middle = spec_marks(*unpacked_shortcuts, *original_edges);
                let up_is_new = !unpacked_shortcuts.get(up_at);
                if up_is_new {
                    unpacked_shortcuts.set(up_at);
                    proof {
                        model.lemma_mark(
                            middle,
                            spec_marks(*unpacked_shortcuts, *original_edges),
                            pending,
                            true,
                            up_arc as int,
                        );
                    }
                }
                let ghost second_marked = spec_marks(*unpacked_shortcuts, *original_edges);
                if up_is_new {
                    mark_sources(
                        h,
                        true,
                        up_arc,
                        unpacked_shortcuts,
                        original_edges,
                        Ghost(pending.insert((true, up_arc as int))),
                    );
                    proof {
                        assert(pending.insert((true, up_arc as int)).remove((true, up_arc as int))
                            =~= pending);
                    }
                }
                proof {
                    let after = spec_marks(*unpacked_shortcuts, *original_edges);
                    let down_sources = model.incoming[down as int].sources.len() as int;
                    let up_sources = model.outgoing[up_arc as int].sources.len() as int;
                    assert forall|on_up: bool, on: int|
                        0 <= on && Marks::index(on_up, on) < unpacked_shortcuts@.len() && #[trigger] after.marked(
                            on_up,
                            on,
                        ) && !start.marked(on_up, on) implies model.rests_on(
                        up,
                        edge_id as int,
                        on_up,
                        on,
                        i as int + 1,
                    ) by {
                        if before.marked(on_up, on) {
                            assert(model.rests_on(up, edge_id as int, on_up, on, i as int));
                        } else if first_marked.marked(on_up, on) {
                            assert(!on_up && on == down);
                        } else if middle.marked(on_up, on) {
                            assert(model.rests_on(false, down as int, on_up, on, down_sources));
                        } else if second_marked.marked(on_up, on) {
                            assert(on_up && on == up_arc);
                        } else {
                            assert(model.rests_on(true, up_arc as int, on_up, on, up_sources));
                        }
                    }
                    assert forall|edge: int|
                        0 <= edge < original_edges@.len() && #[trigger] original_edges@[edge]
                            && !start.originals[edge] implies model.rests_on_original(
                        up,
                        edge_id as int,
                        edge,
                        i as int + 1,
                    ) by {
                        if before.originals[edge] {
                            assert(model.rests_on_original(up, edge_id as int, edge, i as int));
                        } else if middle.originals[edge] {
                            assert(model.rests_on_original(false, down as int, edge, down_sources));
                        } else {
                            assert(model.rests_on_original(true, up_arc as int, edge, up_sources));
                        }
                    }
                }
            },
            ShortcutSource::OriginalEdge(edge) => {
                proof {
                    assert(model.original.len() == original_edges@.len());
                }
                original_edges.set(edge as usize);
                proof {
                    let after = spec_marks(*unpacked_shortcuts, *original_edges);
                    model.lemma_marks_grow(before, after, pending);
                    assert(after.shortcuts == before.shortcuts);
                    assert forall|on_up: bool, on: int|
                        0 <= on && Marks::index(on_up, on) < unpacked_shortcuts@.len() && #[trigger] after.marked(
                            on_up,
                            on,
                        ) && !start.marked(on_up, on) implies model.rests_on(
                        up,
                        edge_id as int,
                        on_up,
                        on,
                        i as int + 1,
                    ) by {
                        assert(before.marked(on_up, on));
                        assert(model.rests_on(up, edge_id as int, on_up, on, i as int));
                    }
                    assert forall|other: int|
                        0 <= other < original_edges@.len() && #[trigger] original_edges@[other]
                            && !start.originals[other] implies model.rests_on_original(
                        up,
                        edge_id as int,
                        other,
                        i as int + 1,
                    ) by {
                        if before.originals[other] {
                            assert(model.rests_on_original(up, edge_id as int, other, i as int));
                        }
                    }
                }
            },
            ShortcutSource::NoSource => {
                proof {
                    assert forall|on_up: bool, on: int|
                        0 <= on && Marks::index(on_up, on) < unpacked_shortcuts@.len() && #[trigger] before.marked(
                            on_up,
                            on,
                        ) && !start.marked(on_up, on) implies model.rests_on(
                        up,
                        edge_id as int,
                        on_up,
                        on,
                        i as int + 1,
                    ) by {
                        assert(model.rests_on(up, edge_id as int, on_up, on, i as int));
                    }
                    assert forall|other: int|
                        0 <= other < original_edges@.len() && #[trigger] original_edges@[other]
                            && !start.originals[other] implies model.rests_on_original(
                        up,
                        edge_id as int,
                        other,
                        i as int + 1,
                    ) by {
                        assert(model.rests_on_original(up, edge_id as int, other, i as int));
                    }
                }
            },
        }
        proof {
            let after = spec_marks(*unpacked_shortcuts, *original_edges);
            assert forall|j: int| 0 <= j < i + 1 implies #[trigger] model.source_marked(
                after,
                up,
                edge_id as int,
                j,
            ) by {
                if j < i {
                    assert(model.source_marked(before, up, edge_id as int, j));
                }
            }
        }
        i += 1;
    }
    proof {
        let after = spec_marks(*unpacked_shortcuts, *original_edges);
        assert(model.closed_except(after, pending.remove((up, edge_id as int)))) by {
            assert forall|d: bool, e: int, j: int|
                0 <= e < model.arcs(d).len() && after.marked(d, e) && !pending.remove(
                    (up, edge_id as int),
                ).contains((d, e)) && 0 <= j < model.arcs(d)[e].sources.len() implies #[trigger] model.source_marked(
                after,
                d,
                e,
                j,
            ) by {
                if d == up && e == edge_id {
                } else {
                    assert(!pending.contains((d, e)));
                }
            }
        }
    }
}


/// Marks the upward (`up`) or downward arc `edge_id` and
/// everything that it rests on.  Downward arcs are marked at twice
/// their identifier, upward arcs at the place after that.  An arc that
/// is marked already is not looked into again.
pub fn mark<H: Hierarchy>(
    h: &H,
    up: bool,
    edge_id: EdgeId,
    unpacked_shortcuts: &mut BitVec,
    original_edges: &mut BitVec,
)
    requires
        h.in_order(),
        old(unpacked_shortcuts).wf(),
        old(original_edges).wf(),
        h.spec_hierarchy().has_room(spec_marks(*old(unpacked_shortcuts), *old(original_edges))),
        edge_id < h.spec_hierarchy().arcs(up).len(),
        h.spec_hierarchy().closed(spec_marks(*old(unpacked_shortcuts), *old(original_edges))),
    ensures
        final(unpacked_shortcuts).wf(),
        final(original_edges).wf(),
        h.spec_hierarchy().has_room(spec_marks(*final(unpacked_shortcuts), *final(original_edges))),
        h.spec_hierarchy().closed(spec_marks(*final(unpacked_shortcuts), *final(original_edges))),
        spec_marks(*final(unpacked_shortcuts), *final(original_edges)).marked(up, edge_id as int),
        h.spec_hierarchy().only_marked_for(
            spec_marks(*old(unpacked_shortcuts), *old(original_edges)),
            spec_marks(*final(unpacked_shortcuts), *final(original_edges)),
            up,
            edge_id as int,
        ),
{
    let ghost before = spec_marks(*unpacked_shortcuts, *original_edges);
    proof {
        h.lemma_in_order();
    }
    let room = unpacked_shortcuts.len();
    assert(2 * edge_id + 1 < room);
    let at = edge_id as usize * 2 + if up { 1 } else { 0 };
    if !unpacked_shortcuts.get(at) {
        unpacked_shortcuts.set(at);
        proof {
            h.spec_hierarchy().lemma_mark(
                before,
                spec_marks(*unpacked_shortcuts, *original_edges),
                Set::empty(),
                up,
                edge_id as int,
            );
        }
        let ghost marked = spec_marks(*unpacked_shortcuts, *original_edges);
        let ghost pending = Set::<(bool, int)>::empty().insert((up, edge_id as int));
        mark_sources(h, up, edge_id, unpacked_shortcuts, original_edges, Ghost(pending));
        proof {
            assert(pending.remove((up, edge_id as int)) =~= Set::<(bool, int)>::empty());
            let after = spec_marks(*unpacked_shortcuts, *original_edges);
            assert(before.within(after));
            assert forall|on_up: bool, on: int|
                0 <= on && Marks::index(on_up, on) < after.shortcuts.len() && #[trigger] after.marked(
                    on_up,
                    on,
                ) && !before.marked(on_up, on) implies (on_up == up && on == edge_id) || h.spec_hierarchy().rests_on(
                up,
                edge_id as int,
                on_up,
                on,
                h.spec_hierarchy().arcs(up)[edge_id as int].sources.len() as int,
            ) by {
                if marked.marked(on_up, on) {
                }
            }
        }
    }
}

} // verus!
