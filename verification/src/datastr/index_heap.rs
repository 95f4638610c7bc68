//! A binary min-heap whose elements are found again by their index.
use vstd::prelude::*;
use crate::types::{NodeId, Weight};

verus! {

/// An element of the queue: a node and the key it is ordered by.
#[derive(Copy, Clone, Eq, PartialEq, Debug, Ord, PartialOrd)]
pub struct State {
    pub distance: Weight,
    pub node: NodeId,
}

impl State {
    /// The slot of the side table that belongs to this element.
    pub fn as_index(&self) -> (i: usize)
        ensures
            i == self.node,
    {
        self.node as usize
    }
}

/// The order of the queue: by key, equal keys by node.
pub open spec fn state_le(a: State, b: State) -> bool {
    a.distance < b.distance || (a.distance == b.distance && a.node <= b.node)
}

/// Position of the parent in the implicit tree.
pub open spec fn parent(i: int) -> int {
    (i - 1) / 2
}

/// Marks an index that is not in the queue.
pub const INVALID_POSITION: usize = usize::MAX;

/// A min-heap over `State`s with a side table from node to heap position,
/// so that membership, lookup and decreasing a key need no search.
#[derive(Debug)]
pub struct IndexdMinHeap {
    positions: Vec<usize>,
    data: Vec<State>,
}

/// Every element but the one at `hole` is at least its parent.
spec fn ordered_except(data: Seq<State>, hole: int) -> bool {
    forall|i: int| 1 <= i < data.len() && i != hole ==> state_le(data[parent(i)], #[trigger] data[i])
}

/// Every element that is no child of `hole` is at least its parent.
spec fn ordered_below_except(data: Seq<State>, hole: int) -> bool {
    forall|i: int|
        1 <= i < data.len() && parent(i) != hole ==> state_le(data[parent(i)], #[trigger] data[i])
}

/// The children of `hole` are at least the parent of `hole`.
spec fn grandparent_ok(data: Seq<State>, hole: int) -> bool {
    hole > 0 ==> forall|c: int|
        1 <= c < data.len() && parent(c) == hole ==> state_le(data[parent(hole)], #[trigger] data[c])
}

/// Every element is at least its parent.
spec fn ordered(data: Seq<State>) -> bool {
    forall|i: int| 1 <= i < data.len() ==> state_le(data[parent(i)], #[trigger] data[i])
}

/// The side table and the heap array describe each other.
spec fn linked(positions: Seq<usize>, data: Seq<State>) -> bool {
    &&& forall|i: int|
        0 <= i < data.len() ==> (#[trigger] data[i]).node < positions.len() && positions[data[i].node as int]
            == i
    &&& forall|x: int|
        0 <= x < positions.len() && #[trigger] positions[x] != INVALID_POSITION ==> positions[x]
            < data.len() && data[positions[x] as int].node == x
}

/// In an ordered heap the root is a least element.
proof fn lemma_root_is_least(data: Seq<State>, i: int)
    requires
        ordered(data),
        0 <= i < data.len(),
    ensures
        state_le(data[0], data[i]),
    decreases i,
{
    if i > 0 {
        lemma_root_is_least(data, parent(i));
        assert(state_le(data[parent(i)], data[i]));
    }
}

impl IndexdMinHeap {
    /// Representation invariant: heap order, and the side table is exact.
    pub closed spec fn wf(&self) -> bool {
        &&& ordered(self.data@)
        &&& linked(self.positions@, self.data@)
        &&& self.positions.len() <= u32::MAX
    }

    /// For each index the key it is queued with, if it is queued.
    pub closed spec fn view(&self) -> Seq<Option<Weight>> {
        Seq::new(
            self.positions.len() as nat,
            |x: int|
                if self.positions[x] != INVALID_POSITION {
                    Some(self.data[self.positions[x] as int].distance)
                } else {
                    None
                },
        )
    }

    /// Number of queued elements.
    pub closed spec fn spec_len(&self) -> nat {
        self.data.len() as nat
    }

    /// An empty queue for indices below `max_index`.
    pub fn new(max_index: usize) -> (r: Self)
        requires
            max_index <= u32::MAX,
        ensures
            r.wf(),
            r@.len() == max_index,
            r.spec_len() == 0,
            forall|x: int| 0 <= x < max_index ==> r@[x].is_none(),
    {
        let mut positions: Vec<usize> = Vec::new();
        let mut i: usize = 0;
        while i < max_index
            invariant
                i <= max_index,
                positions.len() == i,
                forall|j: int| 0 <= j < i ==> positions[j] == INVALID_POSITION,
            decreases max_index - i,
        {
            positions.push(INVALID_POSITION);
            i += 1;
        }
        IndexdMinHeap { positions, data: Vec::new() }
    }

    /// Number of queued elements.
    pub fn len(&self) -> (n: usize)
        ensures
            n == self.spec_len(),
    {
        self.data.len()
    }

    /// Whether nothing is queued.
    pub fn is_empty(&self) -> (b: bool)
        requires
            self.wf(),
        ensures
            b == (self.spec_len() == 0),
            b == (forall|x: int| 0 <= x < self@.len() ==> self@[x].is_none()),
    {
        let b = self.data.len() == 0;
        proof {
            if !b {
                let x = self.data[0].node as int;
                assert(self@[x].is_some());
            }
        }
        b
    }

    /// Whether index `id` is queued.
    pub fn contains_index(&self, id: usize) -> (b: bool)
        requires
            id < self@.len(),
        ensures
            b == self@[id as int].is_some(),
    {
        self.positions[id] != INVALID_POSITION
    }

    /// The element queued under index `id`.
    pub fn get(&self, id: usize) -> (r: Option<State>)
        requires
            self.wf(),
            id < self@.len(),
        ensures
            r.is_some() == self@[id as int].is_some(),
            r matches Some(s) ==> s.node == id && Some(s.distance) == self@[id as int],
    {
        let pos = self.positions[id];
        if pos != INVALID_POSITION {
            Some(self.data[pos])
        } else {
            None
        }
    }

    /// Removes every element.
    pub fn clear(&mut self)
        requires
            old(self).wf(),
        ensures
            final(self).wf(),
            final(self)@.len() == old(self)@.len(),
            final(self).spec_len() == 0,
            forall|x: int| 0 <= x < final(self)@.len() ==> final(self)@[x].is_none(),
    {
        while self.data.len() > 0
            invariant
                self.positions.len() == old(self).positions.len(),
                self.positions.len() <= u32::MAX,
                linked(self.positions@, self.data@),
            decreases self.data.len(),
        {
            let last = self.data.len() - 1;
            let s = self.data[last];
            let ghost before = self.data@;
            self.data.pop();
            self.positions[s.node as usize] = INVALID_POSITION;
            proof {
                assert forall|i: int| 0 <= i < self.data.len() implies (#[trigger] self.data[i]).node
                    < self.positions.len() && self.positions[self.data[i].node as int] == i by {
                    assert(before[i] == self.data[i]);
                }
            }
        }
        proof {
            assert forall|x: int| 0 <= x < self.positions.len() implies self.positions[x]
                == INVALID_POSITION by {
                if self.positions[x] != INVALID_POSITION {
                    assert(self.positions[x] < self.data.len());
                }
            }
        }
    }

    /// The least element, which stays queued.
    pub fn peek(&self) -> (r: Option<State>)
        requires
            self.wf(),
        ensures
            r.is_none() == (self.spec_len() == 0),
            r matches Some(s) ==> self.is_least(s),
    {
        if self.data.len() == 0 {
            None
        } else {
            let s = self.data[0];
            proof {
                self.lemma_least(s);
            }
            Some(s)
        }
    }

    /// Whether `s` is queued and no queued element comes before it.
    pub open spec fn is_least(&self, s: State) -> bool {
        &&& s.node < self@.len()
        &&& self@[s.node as int] == Some(s.distance)
        &&& forall|x: int|
            0 <= x < self@.len() && self@[x].is_some() ==> state_le(
                s,
                State { distance: (#[trigger] self@[x]).unwrap(), node: x as NodeId },
            )
    }

    proof fn lemma_least(&self, s: State)
        requires
            self.wf(),
            self.data.len() > 0,
            s == self.data[0],
        ensures
            self.is_least(s),
    {
        assert forall|x: int| 0 <= x < self@.len() && self@[x].is_some() implies state_le(
            s,
            State { distance: (#[trigger] self@[x]).unwrap(), node: x as NodeId },
        ) by {
            let p = self.positions[x] as int;
            lemma_root_is_least(self.data@, p);
        }
    }

    /// Exchanges the elements at two heap positions and mends the side table.
    fn swap(&mut self, a: usize, b: usize)
        requires
            linked(old(self).positions@, old(self).data@),
            a < old(self).data.len(),
            b < old(self).data.len(),
        ensures
            linked(final(self).positions@, final(self).data@),
            final(self).data@ == old(self).data@.update(a as int, old(self).data[b as int]).update(
                b as int,
                old(self).data[a as int],
            ),
            final(self).positions.len() == old(self).positions.len(),
            final(self)@ == old(self)@,
    {
        let sa = self.data[a];
        let sb = self.data[b];
        self.data[a] = sb;
        self.data[b] = sa;
        self.positions[sb.node as usize] = a;
        self.positions[sa.node as usize] = b;
        proof {
            assert(self@ =~= old(self)@);
        }
    }

    /// Moves the element at `pos` towards the root until its parent is no larger.
    fn move_up(&mut self, pos: usize)
        requires
            linked(old(self).positions@, old(self).data@),
            pos < old(self).data.len(),
            ordered_except(old(self).data@, pos as int),
            grandparent_ok(old(self).data@, pos as int),
        ensures
            linked(final(self).positions@, final(self).data@),
            ordered(final(self).data@),
            final(self).positions.len() == old(self).positions.len(),
            final(self).data.len() == old(self).data.len(),
            final(self)@ == old(self)@,
    {
        let mut pos = pos;
        while pos > 0
            invariant
                linked(self.positions@, self.data@),
                pos < self.data.len(),
                ordered_except(self.data@, pos as int),
                grandparent_ok(self.data@, pos as int),
                self.positions.len() == old(self).positions.len(),
                self.data.len() == old(self).data.len(),
                self@ == old(self)@,
            ensures
                ordered(self.data@),
            decreases pos,
        {
            let up: usize = (pos - 1) / 2;
            let s = self.data[pos];
            let p = self.data[up];
            if p.distance < s.distance || (p.distance == s.distance && p.node <= s.node) {
                break ;
            }
            let ghost before = self.data@;
            self.swap(pos, up);
            proof {
                let after = self.data@;
                assert forall|i: int| 1 <= i < after.len() && i != up implies state_le(
                    after[parent(i)],
                    #[trigger] after[i],
                ) by {
                    if i == pos {
                    } else if parent(i) == pos {
                        assert(state_le(before[parent(pos as int)], before[i]));
                    } else if parent(i) == up {
                        assert(state_le(before[parent(i)], before[i]));
                    } else {
                        assert(state_le(before[parent(i)], before[i]));
                    }
                }
                assert(grandparent_ok(after, up as int)) by {
                    if up > 0 {
                        assert(state_le(before[parent(up as int)], before[up as int]));
                        assert forall|c: int|
                            1 <= c < after.len() && parent(c) == up implies state_le(
                            after[parent(up as int)],
                            #[trigger] after[c],
                        ) by {
                            if c != pos {
                                assert(state_le(before[parent(c)], before[c]));
                            }
                        }
                    }
                }
            }
            pos = up;
        }
    }

    /// Moves the element at `pos` towards the leaves until no child is smaller.
    fn move_down(&mut self, pos: usize)
        requires
            linked(old(self).positions@, old(self).data@),
            pos < old(self).data.len(),
            ordered_below_except(old(self).data@, pos as int),
            grandparent_ok(old(self).data@, pos as int),
        ensures
            linked(final(self).positions@, final(self).data@),
            ordered(final(self).data@),
            final(self).positions.len() == old(self).positions.len(),
            final(self).data.len() == old(self).data.len(),
            final(self)@ == old(self)@,
    {
        let mut pos = pos;
        let n = self.data.len();
        loop
            invariant
                linked(self.positions@, self.data@),
                pos < self.data.len(),
                n == self.data.len(),
                ordered_below_except(self.data@, pos as int),
                grandparent_ok(self.data@, pos as int),
                self.positions.len() == old(self).positions.len(),
                self.data.len() == old(self).data.len(),
                self@ == old(self)@,
            ensures
                ordered(self.data@),
            decreases n - pos,
        {
            if pos >= (n - 1) / 2 + 1 || 2 * pos + 1 >= n {
                proof {
                    assert forall|i: int| 1 <= i < self.data.len() implies state_le(
                        self.data[parent(i)],
                        #[trigger] self.data[i],
                    ) by {
                        assert(parent(i) != pos);
                    }
                }
                break ;
            }
            let left: usize = 2 * pos + 1;
            let mut least: usize = left;
            if left + 1 < n {
                let l = self.data[left];
                let r = self.data[left + 1];
                if !(l.distance < r.distance || (l.distance == r.distance && l.node <= r.node)) {
                    least = left + 1;
                }
            }
            let s = self.data[pos];
            let c = self.data[least];
            if s.distance < c.distance || (s.distance == c.distance && s.node <= c.node) {
                proof {
                    assert forall|i: int| 1 <= i < self.data.len() implies state_le(
                        self.data[parent(i)],
                        #[trigger] self.data[i],
                    ) by {
                        if parent(i) == pos {
                            assert(i == left || i == left + 1);
                        }
                    }
                }
                break ;
            }
            let ghost before = self.data@;
            self.swap(pos, least);
            proof {
                let after = self.data@;
                assert forall|i: int|
                    1 <= i < after.len() && parent(i) != least implies state_le(
                    after[parent(i)],
                    #[trigger] after[i],
                ) by {
                    if i == pos {
                        assert(state_le(before[parent(pos as int)], before[least as int]));
                    } else if parent(i) == pos {
                        assert(i == left || i == left + 1);
                    } else {
                        assert(state_le(before[parent(i)], before[i]));
                    }
                }
                assert(grandparent_ok(after, least as int)) by {
                    assert forall|c: int|
                        1 <= c < after.len() && parent(c) == least implies state_le(
                        after[parent(least as int)],
                        #[trigger] after[c],
                    ) by {
                        assert(state_le(before[parent(c)], before[c]));
                    }
                }
            }
            pos = least;
        }
    }

    /// Removes and returns the least element.
    pub fn pop(&mut self) -> (r: Option<State>)
        requires
            old(self).wf(),
        ensures
            final(self).wf(),
            final(self)@.len() == old(self)@.len(),
            r.is_none() == (old(self).spec_len() == 0),
            r.is_none() ==> final(self)@ == old(self)@ && final(self).spec_len() == 0 && forall|x: int|
                0 <= x < old(self)@.len() ==> (#[trigger] old(self)@[x]).is_none(),
            r matches Some(s) ==> old(self).is_least(s) && final(self)@ == old(self)@.update(
                s.node as int,
                None,
            ) && final(self).spec_len() + 1 == old(self).spec_len(),
    {
        let n = self.data.len();
        if n == 0 {
            return None;
        }
        let s = self.data[0];
        proof {
            self.lemma_least(s);
        }
        if n > 1 {
            self.swap(0, n - 1);
        }
        let ghost swapped = self.data@;
        self.data.pop();
        self.positions[s.node as usize] = INVALID_POSITION;
        proof {
            assert forall|i: int| 0 <= i < self.data.len() implies (#[trigger] self.data[i]).node
                < self.positions.len() && self.positions[self.data[i].node as int] == i by {
                assert(swapped[i] == self.data[i]);
            }
            assert(self@ =~= old(self)@.update(s.node as int, None));
        }
        if n > 1 {
            proof {
                assert forall|i: int|
                    1 <= i < self.data.len() && parent(i) != 0 implies state_le(
                    self.data[parent(i)],
                    #[trigger] self.data[i],
                ) by {
                    assert(state_le(old(self).data[parent(i)], old(self).data[i]));
                }
            }
            self.move_down(0);
        }
        Some(s)
    }

    /// Queues `element`, whose index is not queued yet.
    pub fn push(&mut self, element: State)
        requires
            old(self).wf(),
            element.node < old(self)@.len(),
            old(self)@[element.node as int].is_none(),
        ensures
            final(self).wf(),
            final(self)@ == old(self)@.update(element.node as int, Some(element.distance)),
            final(self).spec_len() == old(self).spec_len() + 1,
    {
        let pos = self.data.len();
        self.data.push(element);
        self.positions[element.node as usize] = pos;
        proof {
            assert forall|i: int| 0 <= i < self.data.len() implies (#[trigger] self.data[i]).node
                < self.positions.len() && self.positions[self.data[i].node as int] == i by {
                if i < pos {
                    assert(old(self).data[i] == self.data[i]);
                }
            }
            assert forall|x: int|
                0 <= x < self.positions.len() && #[trigger] self.positions[x]
                    != INVALID_POSITION implies self.positions[x] < self.data.len()
                && self.data[self.positions[x] as int].node == x by {
                if x != element.node {
                    assert(old(self).positions[x] == self.positions[x]);
                }
            }
            assert(pos + 1 == self.data.len());
            assert(pos != INVALID_POSITION);
            assert forall|x: int| 0 <= x < self.positions.len() implies self@[x] == old(self)@.update(
                element.node as int,
                Some(element.distance),
            )[x] by {
                if x != element.node && self.positions[x] != INVALID_POSITION {
                    assert(old(self).positions[x] == self.positions[x]);
                    assert(old(self).data[self.positions[x] as int] == self.data[self.positions[x] as int]);
                }
            }
            assert(self@ =~= old(self)@.update(element.node as int, Some(element.distance)));
            assert forall|i: int| 1 <= i < self.data.len() && i != pos implies state_le(
                self.data[parent(i)],
                #[trigger] self.data[i],
            ) by {
                assert(state_le(old(self).data[parent(i)], old(self).data[i]));
            }
        }
        self.move_up(pos);
    }

    /// Lowers the key of the element queued under the index of `element`.
    pub fn decrease_key(&mut self, element: State)
        requires
            old(self).wf(),
            element.node < old(self)@.len(),
            old(self)@[element.node as int] matches Some(k) && element.distance <= k,
        ensures
            final(self).wf(),
            final(self)@ == old(self)@.update(element.node as int, Some(element.distance)),
            final(self).spec_len() == old(self).spec_len(),
    {
        let pos = self.positions[element.node as usize];
        self.data[pos] = element;
        proof {
            let before = old(self).data@;
            let after = self.data@;
            assert(before[pos as int].node == element.node);
            assert forall|x: int| 0 <= x < self.positions.len() implies self@[x] == old(self)@.update(
                element.node as int,
                Some(element.distance),
            )[x] by {
                if x != element.node && self.positions[x] != INVALID_POSITION {
                    assert(before[self.positions[x] as int].node == x);
                }
            }
            assert(self@ =~= old(self)@.update(element.node as int, Some(element.distance)));
            assert forall|i: int| 0 <= i < after.len() implies (#[trigger] after[i]).node
                < self.positions.len() && self.positions[after[i].node as int] == i by {
                if i != pos {
                    assert(before[i] == after[i]);
                }
            }
            assert forall|i: int| 1 <= i < after.len() && i != pos implies state_le(
                after[parent(i)],
                #[trigger] after[i],
            ) by {
                assert(state_le(before[parent(i)], before[i]));
            }
            assert(grandparent_ok(after, pos as int)) by {
                if pos > 0 {
                    assert(state_le(before[parent(pos as int)], before[pos as int]));
                    assert forall|c: int|
                        1 <= c < after.len() && parent(c) == pos implies state_le(
                        after[parent(pos as int)],
                        #[trigger] after[c],
                    ) by {
                        assert(state_le(before[parent(c)], before[c]));
                    }
                }
            }
        }
        self.move_up(pos);
    }
}

} // verus!
