//! Marking the original arcs under the labels of an interval search.
use vstd::prelude::*;
use crate::datastr::rank_select_map::BitVec;
use crate::graph::customized::CustomizedGraph;
use crate::graph::marking::spec_marks;
use crate::graph::shortcut::{Marks, ShortcutModel};
use crate::shortest_path::floating_td_stepped_elimination_tree::{
    FloatingTDSteppedEliminationTree, NodeState,
};
use crate::types::NodeId;

verus! {

/// Whether the labels lead from `from` down to `to`: they are the same
/// node, or a label of `from` names a lower node from which the labels
/// lead to `to`.
pub open spec fn spec_leads_to(states: Seq<NodeState>, from: int, to: int) -> bool
    decreases from,
{
    from == to || (0 <= from < states.len() && exists|i: int|
        0 <= i < states[from].labels.len() && (#[trigger] states[from].labels[i]).parent < from
            && spec_leads_to(states, states[from].labels[i].parent as int, to))
}

/// Whether label `i` of node `v` names an arc that rests on the original arc `edge`.
pub open spec fn spec_label_names(
    model: ShortcutModel,
    states: Seq<NodeState>,
    up: bool,
    v: int,
    i: int,
    edge: int,
) -> bool {
    let arc = states[v].labels[i].shortcut_id as int;
    &&& 0 <= v < states.len()
    &&& 0 <= i < states[v].labels.len()
    &&& arc < model.arcs(up).len()
    &&& model.rests_on_original(up, arc, edge, model.arcs(up)[arc].sources.len() as int)
}

/// Whether a label of some node to which the labels lead from `start`
/// names an arc that rests on the original arc `edge`.
pub open spec fn spec_named_from(
    model: ShortcutModel,
    states: Seq<NodeState>,
    up: bool,
    start: int,
    edge: int,
) -> bool {
    exists|v: int, i: int|
        spec_leads_to(states, start, v) && #[trigger] spec_label_names(model, states, up, v, i, edge)
}

/// Whether label `i` of node `v` has been followed: the arc that it
/// names is marked, and the node that it names has been visited.
pub open spec fn spec_label_done(
    model: ShortcutModel,
    states: Seq<NodeState>,
    up: bool,
    visited: Seq<bool>,
    marks: Marks,
    v: int,
    i: int,
) -> bool {
    let label = states[v].labels[i];
    &&& label.shortcut_id < model.arcs(up).len() ==> marks.marked(up, label.shortcut_id as int)
    &&& label.parent < v ==> visited[label.parent as int]
}

/// Whether every label of every node that has been visited, but for the
/// nodes in `pending`, has been followed.
pub open spec fn spec_walked(
    model: ShortcutModel,
    states: Seq<NodeState>,
    up: bool,
    visited: Seq<bool>,
    marks: Marks,
    pending: Set<int>,
) -> bool {
    forall|v: int, i: int|
        0 <= v < states.len() && visited[v] && !pending.contains(v) && 0 <= i < states[v].labels.len()
            ==> #[trigger] spec_label_done(model, states, up, visited, marks, v, i)
}

/// Whether every original arc that is marked in `after` and not in
/// `before` lies under a label to which the labels lead from `start`.
pub open spec fn spec_only_named(
    model: ShortcutModel,
    states: Seq<NodeState>,
    up: bool,
    start: int,
    before: Marks,
    after: Marks,
) -> bool {
    forall|edge: int|
        0 <= edge < after.originals.len() && #[trigger] after.originals[edge] && !before.originals[edge]
            ==> spec_named_from(model, states, up, start, edge)
}

/// Where every label of every visited node has been followed, every
/// node to which the labels lead from a visited node has been visited.
pub proof fn lemma_walked_visits(
    model: ShortcutModel,
    states: Seq<NodeState>,
    up: bool,
    visited: Seq<bool>,
    marks: Marks,
    start: int,
    v: int,
)
    requires
        spec_walked(model, states, up, visited, marks, Set::empty()),
        0 <= start < states.len(),
        visited[start],
        spec_leads_to(states, start, v),
    ensures
        0 <= v < states.len(),
        visited[v],
    decreases start,
{
    if start != v {
        let i = choose|i: int|
            0 <= i < states[start].labels.len() && (#[trigger] states[start].labels[i]).parent < start
                && spec_leads_to(states, states[start].labels[i].parent as int, v);
        assert(spec_label_done(model, states, up, visited, marks, start, i));
        lemma_walked_visits(model, states, up, visited, marks, states[start].labels[i].parent as int, v);
    }
}

/// Where every label of every visited node has been followed and of every
/// marked arc everything that its sources name is marked, every original
/// arc under a label to which the labels lead from a visited node is marked.
pub proof fn lemma_walked_marks(
    model: ShortcutModel,
    states: Seq<NodeState>,
    up: bool,
    visited: Seq<bool>,
    marks: Marks,
    start: int,
    edge: int,
)
    requires
        model.wf(),
        model.has_room(marks),
        model.closed(marks),
        spec_walked(model, states, up, visited, marks, Set::empty()),
        0 <= start < states.len(),
        visited[start],
        spec_named_from(model, states, up, start, edge),
    ensures
        0 <= edge < marks.originals.len(),
        marks.originals[edge],
{
    let (v, i) = choose|v: int, i: int|
        spec_leads_to(states, start, v) && #[trigger] spec_label_names(model, states, up, v, i, edge);
    lemma_walked_visits(model, states, up, visited, marks, start, v);
    assert(spec_label_done(model, states, up, visited, marks, v, i));
    let arc = states[v].labels[i].shortcut_id as int;
    model.lemma_closed_originals(marks, up, arc, edge, model.arcs(up)[arc].sources.len() as int);
}

/// Visits `node` and the nodes to which the labels lead from it, and
/// marks the arcs that their labels name with everything that those arcs
/// rest on.  A node that has been visited is not looked into again.
#[verifier::spinoff_prover]
fn mark_from(
    customized: &CustomizedGraph,
    search: &FloatingTDSteppedEliminationTree,
    up: bool,
    node: NodeId,
    visited: &mut BitVec,
    unpacked_shortcuts: &mut BitVec,
    original_edges: &mut BitVec,
    Ghost(pending): Ghost<Set<int>>,
)
    requires
        customized.wf(),
        search.wf(),
        node < search.spec_states().len(),
        old(visited).wf(),
        old(visited)@.len() == search.spec_states().len(),
        old(unpacked_shortcuts).wf(),
        old(original_edges).wf(),
        customized.model().has_room(spec_marks(*old(unpacked_shortcuts), *old(original_edges))),
        customized.model().closed(spec_marks(*old(unpacked_shortcuts), *old(original_edges))),
        spec_walked(
            customized.model(),
            search.spec_states(),
            up,
            old(visited)@,
            spec_marks(*old(unpacked_shortcuts), *old(original_edges)),
            pending,
        ),
        forall|p: int| pending.contains(p) ==> node < p,
    ensures
        final(visited).wf(),
        final(visited)@.len() == old(visited)@.len(),
        forall|v: int| 0 <= v < old(visited)@.len() && old(visited)@[v] ==> #[trigger] final(visited)@[v],
        final(visited)@[node as int],
        final(unpacked_shortcuts).wf(),
        final(original_edges).wf(),
        customized.model().has_room(spec_marks(*final(unpacked_shortcuts), *final(original_edges))),
        customized.model().closed(spec_marks(*final(unpacked_shortcuts), *final(original_edges))),
        spec_marks(*old(unpacked_shortcuts), *old(original_edges)).within(
            spec_marks(*final(unpacked_shortcuts), *final(original_edges)),
        ),
        spec_walked(
            customized.model(),
            search.spec_states(),
            up,
            final(visited)@,
            spec_marks(*final(unpacked_shortcuts), *final(original_edges)),
            pending,
        ),
        spec_only_named(
            customized.model(),
            search.spec_states(),
            up,
            node as int,
            spec_marks(*old(unpacked_shortcuts), *old(original_edges)),
            spec_marks(*final(unpacked_shortcuts), *final(original_edges)),
        ),
    decreases node,
{
    let ghost model = customized.model();
    let ghost states = search.spec_states();
    let ghost start = spec_marks(*unpacked_shortcuts, *original_edges);
    let ghost seen = visited@;
    proof {
        search.lemma_wf();
        customized.lemma_sizes(up);
    }
    if visited.get(node as usize) {
        return ;
    }
    visited.set(node as usize);
    let ghost waiting = pending.insert(node as int);
    proof {
        assert forall|v: int, j: int|
            0 <= v < states.len() && visited@[v] && !waiting.contains(v) && 0 <= j
                < states[v].labels.len() implies #[trigger] spec_label_done(
            model,
            states,
            up,
            visited@,
            start,
            v,
            j,
        ) by {
            assert(seen[v]);
            assert(spec_label_done(model, states, up, seen, start, v, j));
        }
    }
    let arcs = customized.dir(up).head().len();
    let labels = &search.node_data(node).labels;
    let n = labels.len();
    let mut i: usize = 0;
    while i < n
        invariant
            i <= n,
            customized.wf(),
            search.wf(),
            model == customized.model(),
            states == search.spec_states(),
            model.arcs(up).len() == arcs,
            node < states.len(),
            labels@ == states[node as int].labels,
            n == labels@.len(),
            waiting == pending.insert(node as int),
            forall|p: int| pending.contains(p) ==> node < p,
            visited.wf(),
            visited@.len() == states.len(),
            seen.len() == states.len(),
            forall|v: int| 0 <= v < seen.len() && seen[v] ==> #[trigger] visited@[v],
            visited@[node as int],
            unpacked_shortcuts.wf(),
            original_edges.wf(),
            model.has_room(spec_marks(*unpacked_shortcuts, *original_edges)),
            model.closed(spec_marks(*unpacked_shortcuts, *original_edges)),
            start.within(spec_marks(*unpacked_shortcuts, *original_edges)),
            spec_walked(
                model,
                states,
                up,
                visited@,
                spec_marks(*unpacked_shortcuts, *original_edges),
                waiting,
            ),
            forall|j: int|
                0 <= j < i ==> #[trigger] spec_label_done(
                    model,
                    states,
                    up,
                    visited@,
                    spec_marks(*unpacked_shortcuts, *original_edges),
                    node as int,
                    j,
                ),
            spec_only_named(
                model,
                states,
                up,
                node as int,
                start,
                spec_marks(*unpacked_shortcuts, *original_edges),
            ),
        decreases n - i,
    {
        let label = labels[i];
        let ghost before = spec_marks(*unpacked_shortcuts, *original_edges);
        let ghost seen_before = visited@;
        if (label.shortcut_id as usize) < arcs {
            customized.unpack(up, label.shortcut_id, unpacked_shortcuts, original_edges);
        }
        let ghost middle = spec_marks(*unpacked_shortcuts, *original_edges);
        proof {
            assert(spec_leads_to(states, node as int, node as int));
            assert forall|edge: int|
                0 <= edge < middle.originals.len() && #[trigger] middle.originals[edge]
                    && !start.originals[edge] implies spec_named_from(
                model,
                states,
                up,
                node as int,
                edge,
            ) by {
                if !before.originals[edge] {
                    assert(spec_label_names(model, states, up, node as int, i as int, edge));
                }
            }
            assert forall|v: int, j: int|
                0 <= v < states.len() && visited@[v] && !waiting.contains(v) && 0 <= j
                    < states[v].labels.len() implies #[trigger] spec_label_done(
                model,
                states,
                up,
                visited@,
                middle,
                v,
                j,
            ) by {
                assert(spec_label_done(model, states, up, visited@, before, v, j));
            }
        }
        if label.parent < node {
            mark_from(
                customized,
                search,
                up,
                label.parent,
                visited,
                unpacked_shortcuts,
                original_edges,
                Ghost(waiting),
            );
        }
        proof {
            let after = spec_marks(*unpacked_shortcuts, *original_edges);
            assert forall|edge: int|
                0 <= edge < after.originals.len() && #[trigger] after.originals[edge]
                    && !start.originals[edge] implies spec_named_from(
                model,
                states,
                up,
                node as int,
                edge,
            ) by {
                if !middle.originals[edge] {
                    assert(spec_named_from(model, states, up, label.parent as int, edge));
                    let (v, j) = choose|v: int, j: int|
                        spec_leads_to(states, label.parent as int, v) && #[trigger] spec_label_names(
                            model,
                            states,
                            up,
                            v,
                            j,
                            edge,
                        );
                    assert(states[node as int].labels[i as int].parent < node);
                    assert(spec_leads_to(states, node as int, v));
                }
            }
            assert forall|j: int| 0 <= j < i + 1 implies #[trigger] spec_label_done(
                model,
                states,
                up,
                visited@,
                after,
                node as int,
                j,
            ) by {
                if j < i {
                    assert(spec_label_done(model, states, up, seen_before, before, node as int, j));
                }
            }
            assert forall|v: int| 0 <= v < seen.len() && seen[v] implies #[trigger] visited@[v] by {
                assert(seen_before[v]);
            }
        }
        i += 1;
    }
    proof {
        let after = spec_marks(*unpacked_shortcuts, *original_edges);
        assert forall|v: int, j: int|
            0 <= v < states.len() && visited@[v] && !pending.contains(v) && 0 <= j
                < states[v].labels.len() implies #[trigger] spec_label_done(
            model,
            states,
            up,
            visited@,
            after,
            v,
            j,
        ) by {
            if v != node {
                assert(!waiting.contains(v));
            }
        }
    }
}

/// Visits `node` and the nodes to which the labels of `search` lead from
/// it, and marks the arcs that their labels name with everything that
/// those arcs rest on, down to the original arcs.
pub fn mark_labels(
    customized: &CustomizedGraph,
    search: &FloatingTDSteppedEliminationTree,
    up: bool,
    node: NodeId,
    visited: &mut BitVec,
    unpacked_shortcuts: &mut BitVec,
    original_edges: &mut BitVec,
)
    requires
        customized.wf(),
        search.wf(),
        node < search.spec_states().len(),
        old(visited).wf(),
        old(visited)@.len() == search.spec_states().len(),
        old(unpacked_shortcuts).wf(),
        old(original_edges).wf(),
        customized.model().has_room(spec_marks(*old(unpacked_shortcuts), *old(original_edges))),
        customized.model().closed(spec_marks(*old(unpacked_shortcuts), *old(original_edges))),
        spec_walked(
            customized.model(),
            search.spec_states(),
            up,
            old(visited)@,
            spec_marks(*old(unpacked_shortcuts), *old(original_edges)),
            Set::empty(),
        ),
    ensures
        final(visited).wf(),
        final(visited)@.len() == old(visited)@.len(),
        forall|v: int| 0 <= v < old(visited)@.len() && old(visited)@[v] ==> #[trigger] final(visited)@[v],
        final(visited)@[node as int],
        final(unpacked_shortcuts).wf(),
        final(original_edges).wf(),
        customized.model().has_room(spec_marks(*final(unpacked_shortcuts), *final(original_edges))),
        customized.model().closed(spec_marks(*final(unpacked_shortcuts), *final(original_edges))),
        spec_marks(*old(unpacked_shortcuts), *old(original_edges)).within(
            spec_marks(*final(unpacked_shortcuts), *final(original_edges)),
        ),
        spec_walked(
            customized.model(),
            search.spec_states(),
            up,
            final(visited)@,
            spec_marks(*final(unpacked_shortcuts), *final(original_edges)),
            Set::empty(),
        ),
        spec_only_named(
            customized.model(),
            search.spec_states(),
            up,
            node as int,
            spec_marks(*old(unpacked_shortcuts), *old(original_edges)),
            spec_marks(*final(unpacked_shortcuts), *final(original_edges)),
        ),
{
    mark_from(
        customized,
        search,
        up,
        node,
        visited,
        unpacked_shortcuts,
        original_edges,
        Ghost(Set::empty()),
    );
}

} // verus!
