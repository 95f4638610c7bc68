//! A vector that is logically cleared in constant time.
use vstd::prelude::*;

verus! {

/// A dense vector in which every cell carries the generation in which it was
/// last written.  A cell written in an earlier generation reads as the
/// default value, so that starting a new generation clears the vector.
#[derive(Debug)]
pub struct TimestampedVector<T> {
    data: Vec<Option<T>>,
    stamps: Vec<u32>,
    current: u32,
    default: T,
}

impl<T> TimestampedVector<T> {
    /// Representation invariant: one stamp per cell, none from a later generation.
    pub closed spec fn wf(&self) -> bool {
        &&& self.data.len() == self.stamps.len()
        &&& forall|i: int| 0 <= i < self.stamps.len() ==> self.stamps[i] <= self.current
    }

    /// The value every cleared cell reads as.
    pub closed spec fn spec_default(&self) -> T {
        self.default
    }

    /// Whether cell `i` was written in the current generation.
    pub closed spec fn is_live(&self, i: int) -> bool {
        0 <= i < self.data.len() && self.stamps[i] == self.current && self.data[i].is_some()
    }

    /// What the cells read as.
    pub closed spec fn view(&self) -> Seq<T> {
        Seq::new(
            self.data.len() as nat,
            |i: int| if self.is_live(i) { self.data[i].unwrap() } else { self.default },
        )
    }

    /// A vector of `size` cells that all read as `default`.
    pub fn new(size: usize, default: T) -> (r: Self)
        ensures
            r.wf(),
            r@.len() == size,
            r.spec_default() == default,
            forall|i: int| 0 <= i < size ==> r@[i] == default,
    {
        let mut data: Vec<Option<T>> = Vec::new();
        let mut stamps: Vec<u32> = Vec::new();
        let mut i: usize = 0;
        while i < size
            invariant
                i <= size,
                data.len() == i,
                stamps.len() == i,
                forall|j: int| 0 <= j < i ==> stamps[j] == 0,
                forall|j: int| 0 <= j < i ==> data[j].is_none(),
            decreases size - i,
        {
            data.push(None);
            stamps.push(0);
            i += 1;
        }
        TimestampedVector { data, stamps, current: 0, default }
    }

    /// Number of cells.
    pub fn len(&self) -> (n: usize)
        ensures
            n == self@.len(),
    {
        self.data.len()
    }

    /// Clears every cell.
    pub fn reset(&mut self)
        requires
            old(self).wf(),
        ensures
            final(self).wf(),
            final(self)@.len() == old(self)@.len(),
            final(self).spec_default() == old(self).spec_default(),
            forall|i: int| 0 <= i < final(self)@.len() ==> final(self)@[i] == old(self).spec_default(),
    {
        if self.current < u32::MAX {
            self.current += 1;
        } else {
            let n = self.stamps.len();
            let mut i: usize = 0;
            while i < n
                invariant
                    i <= n,
                    n == self.stamps.len(),
                    self.data.len() == n,
                    self.default == old(self).default,
                    forall|j: int| 0 <= j < i ==> self.stamps[j] == 0,
                decreases n - i,
            {
                self.stamps[i] = 0;
                i += 1;
            }
            self.current = 1;
        }
    }

    /// Reads cell `i`.
    pub fn get(&self, i: usize) -> (r: &T)
        requires
            self.wf(),
            i < self@.len(),
        ensures
            *r == self@[i as int],
    {
        if self.stamps[i] == self.current {
            match &self.data[i] {
                Some(v) => v,
                None => &self.default,
            }
        } else {
            &self.default
        }
    }

    /// Writes cell `i`.
    pub fn set(&mut self, i: usize, value: T)
        requires
            old(self).wf(),
            i < old(self)@.len(),
        ensures
            final(self).wf(),
            final(self).spec_default() == old(self).spec_default(),
            final(self)@ == old(self)@.update(i as int, value),
    {
        self.data[i] = Some(value);
        self.stamps[i] = self.current;
        assert(self@ =~= old(self)@.update(i as int, value));
    }
}

} // verus!
