//! One way to a slice for the containers that hold the arrays of a graph.
use vstd::prelude::*;

verus! {

/// A container that can be read as a slice.
pub trait AsSlice<T> {
    /// The elements.
    spec fn spec_elements(&self) -> Seq<T>;

    /// The elements as a slice.
    fn as_slice(&self) -> (r: &[T])
        ensures
            r@ == self.spec_elements(),
    ;
}

impl<V> AsSlice<V> for Vec<V> {
    open spec fn spec_elements(&self) -> Seq<V> {
        self@
    }

    fn as_slice(&self) -> (r: &[V]) {
        Vec::as_slice(self)
    }
}

impl<'a, V> AsSlice<V> for &'a [V] {
    open spec fn spec_elements(&self) -> Seq<V> {
        self@
    }

    fn as_slice(&self) -> (r: &[V]) {
        self
    }
}

} // verus!
