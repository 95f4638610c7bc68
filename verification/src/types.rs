//! Identifiers and scalars shared by every module.
use vstd::prelude::*;

verus! {

/// Dense node identifier.
pub type NodeId = u32;

/// Dense edge identifier.
pub type EdgeId = u32;

/// A travel time in milliseconds.
pub type Weight = u32;

/// A moment in milliseconds.
pub type Timestamp = u32;

/// The weight that stands for "not reachable".  Half of the range is left
/// free so that two finite weights can be added without overflow.
pub const INFINITY: Weight = 2147483647;

/// The length of one period in milliseconds: a day.
pub const PERIOD: Timestamp = 86400000;

/// A weighted arc as seen from its tail.
#[derive(Clone, Copy, Debug, PartialEq, Eq)]
pub struct Link {
    pub node: NodeId,
    pub weight: Weight,
}

/// A query on a graph with scalar weights.
#[derive(Clone, Copy, Debug, PartialEq, Eq)]
pub struct Query {
    pub from: NodeId,
    pub to: NodeId,
}

/// A query on a time-dependent graph.
#[derive(Clone, Copy, Debug, PartialEq, Eq)]
pub struct TDQuery {
    pub from: NodeId,
    pub to: NodeId,
    pub departure: Timestamp,
}

/// What can go wrong while data is taken in or a search runs.
#[derive(Clone, Copy, Debug, PartialEq, Eq)]
pub enum RoutingError {
    /// The arrays do not describe a graph, or a function misses its frame.
    MalformedInput,
    /// Reading or writing failed.
    IoFailure,
    /// A travel time function lets a later departure arrive earlier.
    NonFiFOWeight,
    /// A computed moment or weight left the range of finite values.
    NonFiniteArithmetic,
    /// A search met a state that its own rules exclude.
    AlgorithmInvariantViolation,
}

/// Saturating sum of two weights: anything from `INFINITY` upwards is `INFINITY`.
pub open spec fn spec_sat_add(a: int, b: int) -> int {
    if a + b >= INFINITY as int { INFINITY as int } else { a + b }
}

/// Adds two weights, stopping at `INFINITY`.
pub fn sat_add(a: Weight, b: Weight) -> (r: Weight)
    ensures
        r as int == spec_sat_add(a as int, b as int),
{
    let s: u64 = a as u64 + b as u64;
    if s >= INFINITY as u64 { INFINITY } else { s as u32 }
}

/// The lesser of two weights.
pub open spec fn spec_min(a: Weight, b: Weight) -> Weight {
    if a <= b {
        a
    } else {
        b
    }
}

} // verus!
