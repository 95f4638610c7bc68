//! Interpolation points in whole milliseconds, and lines and segments between them.
//!
//! A travel time point says how long the trip takes when it starts at a
//! moment; an arrival time point says when it ends.  Lines may wrap round
//! the period; a monotone line has been unrolled so that its second point
//! is the later one.
use vstd::prelude::*;
use core::ops::Range;
use crate::types::{Timestamp, Weight, PERIOD};

pub mod lazy_chain;
pub mod linked;

verus! {

/// The length of the period.
pub fn period() -> (p: Timestamp)
    ensures
        p == PERIOD,
{
    PERIOD
}

/// Two weights this close count as equal where measured values are compared.
pub const TOLERANCE: Weight = 10;

/// The distance between two weights.
pub fn abs_diff(x: Weight, y: Weight) -> (d: Weight)
    ensures
        d as int == if x >= y { x - y } else { y - x },
{
    if x >= y { x - y } else { y - x }
}

/// The value at `x` of the line through `(at1, v1)` and `(at2, v2)`, rounded towards `v1`.
pub open spec fn spec_interpolate(at1: int, v1: int, at2: int, v2: int, x: int) -> int {
    if v2 >= v1 {
        v1 + ((x - at1) * (v2 - v1)) / (at2 - at1)
    } else {
        v1 - ((x - at1) * (v1 - v2)) / (at2 - at1)
    }
}

/// Between its two points a line takes no value outside those of the points,
/// and it meets both points.
pub proof fn lemma_interpolate_bounds(at1: int, v1: int, at2: int, v2: int, x: int)
    requires
        at1 < at2,
        at1 <= x <= at2,
    ensures
        v1 <= v2 ==> v1 <= spec_interpolate(at1, v1, at2, v2, x) <= v2,
        v2 <= v1 ==> v2 <= spec_interpolate(at1, v1, at2, v2, x) <= v1,
        spec_interpolate(at1, v1, at2, v2, at1) == v1,
        spec_interpolate(at1, v1, at2, v2, at2) == v2,
{
    let d = at2 - at1;
    let k = if v2 >= v1 { v2 - v1 } else { v1 - v2 };
    let a = x - at1;
    assert(0 <= a * k <= d * k) by (nonlinear_arith)
        requires
            0 <= a <= d,
            0 <= k,
    ;
    vstd::arithmetic::div_mod::lemma_div_is_ordered(0, a * k, d);
    vstd::arithmetic::div_mod::lemma_div_is_ordered(a * k, d * k, d);
    vstd::arithmetic::div_mod::lemma_div_multiples_vanish(k, d);
    assert(d * k == k * d) by (nonlinear_arith);
    assert(0int / d == 0) by {
        vstd::arithmetic::div_mod::lemma_div_of0(d);
    }
    assert((at1 - at1) * k == 0) by (nonlinear_arith);
    assert((at2 - at1) * k == k * d) by (nonlinear_arith)
        requires
            d == at2 - at1,
    ;
}

/// Where the value falls by no more than time passes, the moment of arrival
/// never moves back as the moment of departure moves on.
pub proof fn lemma_interpolate_fifo(at1: int, v1: int, at2: int, v2: int, x: int, y: int)
    requires
        at1 < at2,
        at1 <= x <= y <= at2,
        v2 - v1 >= -(at2 - at1),
    ensures
        x + spec_interpolate(at1, v1, at2, v2, x) <= y + spec_interpolate(at1, v1, at2, v2, y),
{
    let d = at2 - at1;
    let a = x - at1;
    let b = y - at1;
    if v2 >= v1 {
        let k = v2 - v1;
        assert(a * k <= b * k) by (nonlinear_arith)
            requires
                0 <= a <= b,
                0 <= k,
        ;
        vstd::arithmetic::div_mod::lemma_div_is_ordered(a * k, b * k, d);
    } else {
        let k = v1 - v2;
        assert(b * k <= a * k + (b - a) * d) by (nonlinear_arith)
            requires
                0 <= a <= b,
                0 <= k <= d,
        ;
        vstd::arithmetic::div_mod::lemma_div_is_ordered(b * k, a * k + (b - a) * d, d);
        vstd::arithmetic::div_mod::lemma_div_multiples_vanish_fancy(b - a, 0, d);
        vstd::arithmetic::div_mod::lemma_hoist_over_denominator(a * k, b - a, d as nat);
        assert(a * k + (b - a) * d == (b - a) * d + a * k);
        assert((a * k) / d + (b - a) == (a * k + (b - a) * d) / d);
    }
}

/// Between its two points a line rises all the way or falls all the way.
pub proof fn lemma_interpolate_monotone(at1: int, v1: int, at2: int, v2: int, x: int, y: int)
    requires
        at1 < at2,
        at1 <= x <= y <= at2,
    ensures
        v1 <= v2 ==> spec_interpolate(at1, v1, at2, v2, x) <= spec_interpolate(at1, v1, at2, v2, y),
        v2 <= v1 ==> spec_interpolate(at1, v1, at2, v2, x) >= spec_interpolate(at1, v1, at2, v2, y),
{
    let d = at2 - at1;
    let k = if v2 >= v1 { v2 - v1 } else { v1 - v2 };
    let a = x - at1;
    let b = y - at1;
    assert(a * k <= b * k) by (nonlinear_arith)
        requires
            0 <= a <= b,
            0 <= k,
    ;
    vstd::arithmetic::div_mod::lemma_div_is_ordered(a * k, b * k, d);
    if k == 0 {
        assert(a * k == 0 && b * k == 0) by (nonlinear_arith)
            requires
                k == 0,
        ;
    }
    assert((x - at1) * k == a * k);
    assert((y - at1) * k == b * k);
}

/// A difference of two travel time points.
#[derive(Debug, Clone, Copy, PartialEq, Eq)]
pub struct Point {
    pub x: i64,
    pub y: i64,
}

/// A travel time interpolation point: leaving at `at` takes `val`.
#[derive(Debug, Clone, Copy, PartialEq, Eq)]
pub struct TTIpp {
    pub at: Timestamp,
    pub val: Weight,
}

/// An interpolation point, where nothing else is said.
pub type Ipp = TTIpp;

impl TTIpp {
    /// The point `(at, val)`.
    pub fn new(at: Timestamp, val: Weight) -> (p: Ipp)
        ensures
            p.at == at,
            p.val == val,
    {
        TTIpp { at, val }
    }

    /// Moment and value as a pair.
    pub fn as_tuple(self) -> (r: (Timestamp, Weight))
        ensures
            r == (self.at, self.val),
    {
        (self.at, self.val)
    }

    /// The same point with the moment of arrival within the period in place of the travel time.
    pub fn into_atipp(self, period: Timestamp) -> (r: ATIpp)
        requires
            self.at < period,
            self.at + self.val <= u32::MAX,
        ensures
            r.at == self.at,
            r.val == (self.at + self.val) % (period as int),
    {
        ATIpp { at: self.at, val: (self.at + self.val) % period }
    }

    /// The difference to `other`, coordinate by coordinate.
    pub fn sub(self, other: Self) -> (r: Point)
        ensures
            r.x == self.at - other.at,
            r.y == self.val - other.val,
    {
        Point { x: self.at as i64 - other.at as i64, y: self.val as i64 - other.val as i64 }
    }
}

/// An arrival time interpolation point: leaving at `at` arrives at `val`.
#[derive(Debug, Clone, Copy, PartialEq, Eq)]
pub struct ATIpp {
    pub at: Timestamp,
    pub val: Timestamp,
}

impl ATIpp {
    /// The point `(at, val)`.
    pub fn new(at: Timestamp, val: Weight) -> (p: ATIpp)
        ensures
            p.at == at,
            p.val == val,
    {
        ATIpp { at, val }
    }

    /// Moment and value as a pair.
    pub fn as_tuple(self) -> (r: (Timestamp, Weight))
        ensures
            r == (self.at, self.val),
    {
        (self.at, self.val)
    }

    /// The same point with the travel time in place of the moment of arrival.
    pub fn into_ttipp(self) -> (r: TTIpp)
        requires
            self.at <= self.val,
        ensures
            r.at == self.at,
            r.val == self.val - self.at,
    {
        TTIpp { at: self.at, val: self.val - self.at }
    }

    /// Moves the point one period on.
    pub fn shift(&mut self, period: Timestamp)
        requires
            old(self).at + period <= u32::MAX,
            old(self).val + period <= u32::MAX,
        ensures
            final(self).at == old(self).at + period,
            final(self).val == old(self).val + period,
    {
        self.at += period;
        self.val += period;
    }
}

/// A line through two points.
#[derive(Debug, Clone, Copy, PartialEq, Eq)]
pub struct Line<P> {
    pub from: P,
    pub to: P,
}

impl<P> Line<P> {
    /// The line from `from` to `to`.
    pub fn new(from: P, to: P) -> (l: Self)
        ensures
            l.from == from,
            l.to == to,
    {
        Line { from, to }
    }
}

/// A line together with the moments for which it is meant.
#[derive(Debug, PartialEq, Eq)]
pub struct Segment<L> {
    pub line: L,
    pub valid: Range<Timestamp>,
}

/// A line whose second point is the later one.
#[derive(Debug, Clone, Copy, PartialEq, Eq)]
pub struct MonotoneLine<P>(pub Line<P>);

/// A piece of a travel time function.
pub type TTFSeg = Segment<Line<Ipp>>;

/// The second moment of a line, one period on where it is before the first.
pub open spec fn spec_unrolled_to(from_at: int, to_at: int, period: int) -> int {
    if to_at < from_at { to_at + period } else { to_at }
}

impl Line<TTIpp> {
    /// The line with its second point moved one period on, if it is before the first.
    pub fn into_monotone_tt_line(self, period: Timestamp) -> (r: MonotoneLine<TTIpp>)
        requires
            self.to.at + period <= u32::MAX,
        ensures
            r.0.from == self.from,
            r.0.to.val == self.to.val,
            r.0.to.at == spec_unrolled_to(self.from.at as int, self.to.at as int, period as int),
    {
        let from = self.from;
        let mut to = self.to;
        if to.at < from.at {
            to.at += period;
        }
        MonotoneLine(Line { from, to })
    }

    /// The unrolled line, with moments of arrival in place of travel times.
    pub fn into_monotone_at_line(self, period: Timestamp) -> (r: MonotoneLine<ATIpp>)
        requires
            self.to.at + period + self.to.val <= u32::MAX,
            self.from.at + self.from.val <= u32::MAX,
        ensures
            r.0.from.at == self.from.at,
            r.0.from.val == self.from.at + self.from.val,
            r.0.to.at == spec_unrolled_to(self.from.at as int, self.to.at as int, period as int),
            r.0.to.val == r.0.to.at + self.to.val,
    {
        let from = self.from;
        let mut to = self.to;
        if to.at < from.at {
            to.at += period;
        }
        MonotoneLine(
            Line {
                from: ATIpp { at: from.at, val: from.at + from.val },
                to: ATIpp { at: to.at, val: to.at + to.val },
            },
        )
    }

    /// How far the second moment is after the first.
    pub fn delta_x(&self) -> (d: Weight)
        requires
            self.from.at <= self.to.at,
        ensures
            d == self.to.at - self.from.at,
    {
        self.to.at - self.from.at
    }

    /// How far the second value is above the first.
    pub fn delta_y(&self) -> (d: Weight)
        requires
            self.from.val <= self.to.val,
        ensures
            d == self.to.val - self.from.val,
    {
        self.to.val - self.from.val
    }
}

impl Line<ATIpp> {
    /// How far the second moment is after the first.
    pub fn delta_x(&self) -> (d: Weight)
        requires
            self.from.at <= self.to.at,
        ensures
            d == self.to.at - self.from.at,
    {
        self.to.at - self.from.at
    }

    /// How far the second value is above the first.
    pub fn delta_y(&self) -> (d: Weight)
        requires
            self.from.val <= self.to.val,
        ensures
            d == self.to.val - self.from.val,
    {
        self.to.val - self.from.val
    }

    /// Moves both points one period on.
    pub fn shift(&mut self, period: Timestamp)
        requires
            old(self).from.at + period <= u32::MAX,
            old(self).from.val + period <= u32::MAX,
            old(self).to.at + period <= u32::MAX,
            old(self).to.val + period <= u32::MAX,
        ensures
            final(self).from.at == old(self).from.at + period,
            final(self).from.val == old(self).from.val + period,
            final(self).to.at == old(self).to.at + period,
            final(self).to.val == old(self).to.val + period,
    {
        self.from.shift(period);
        self.to.shift(period);
    }
}

impl MonotoneLine<ATIpp> {
    /// The travel time when leaving at `x`: the moment of arrival on the line, less `x`.
    pub fn interpolate_tt(&self, x: Timestamp) -> (r: Weight)
        requires
            self.0.from.at < self.0.to.at,
            self.0.from.val <= self.0.to.val,
            self.0.from.at <= x <= self.0.to.at,
            self.0.from.at <= self.0.from.val,
            self.0.to.val - self.0.from.val >= self.0.to.at - self.0.from.at,
        ensures
            r as int == spec_interpolate(
                self.0.from.at as int,
                self.0.from.val as int,
                self.0.to.at as int,
                self.0.to.val as int,
                x as int,
            ) - x,
    {
        let delta_x: u64 = (self.0.to.at - self.0.from.at) as u64;
        let delta_y: u64 = (self.0.to.val - self.0.from.val) as u64;
        let relative_x: u64 = (x - self.0.from.at) as u64;
        proof {
            lemma_interpolate_bounds(
                self.0.from.at as int,
                self.0.from.val as int,
                self.0.to.at as int,
                self.0.to.val as int,
                x as int,
            );
            lemma_interpolate_fifo(
                self.0.from.at as int,
                0,
                self.0.to.at as int,
                (self.0.to.val - self.0.from.val) - (self.0.to.at - self.0.from.at),
                self.0.from.at as int,
                x as int,
            );
            assert(relative_x * delta_y <= 0xffff_ffff * 0xffff_ffff) by (nonlinear_arith)
                requires
                    relative_x <= 0xffff_ffff,
                    delta_y <= 0xffff_ffff,
            ;
            lemma_arrival_not_before(
                self.0.from.at as int,
                self.0.from.val as int,
                self.0.to.at as int,
                self.0.to.val as int,
                x as int,
            );
        }
        let result: u64 = self.0.from.val as u64 + relative_x * delta_y / delta_x;
        (result - x as u64) as Weight
    }

    /// How far the second moment is after the first.
    pub fn delta_x(&self) -> (d: Weight)
        requires
            self.0.from.at <= self.0.to.at,
        ensures
            d == self.0.to.at - self.0.from.at,
    {
        self.0.delta_x()
    }

    /// How far the second value is above the first.
    pub fn delta_y(&self) -> (d: Weight)
        requires
            self.0.from.val <= self.0.to.val,
        ensures
            d == self.0.to.val - self.0.from.val,
    {
        self.0.delta_y()
    }

    /// The same line with travel times in place of moments of arrival.
    pub fn into_monotone_tt_line(self) -> (r: MonotoneLine<TTIpp>)
        requires
            self.0.from.at <= self.0.from.val,
            self.0.to.at <= self.0.to.val,
        ensures
            r.0.from.at == self.0.from.at,
            r.0.from.val == self.0.from.val - self.0.from.at,
            r.0.to.at == self.0.to.at,
            r.0.to.val == self.0.to.val - self.0.to.at,
    {
        let from = self.0.from.into_ttipp();
        let to = self.0.to.into_ttipp();
        MonotoneLine(Line { from, to })
    }

    /// Moves the line one period on.
    pub fn shift(&mut self, period: Timestamp)
        requires
            old(self).0.from.at + period <= u32::MAX,
            old(self).0.from.val + period <= u32::MAX,
            old(self).0.to.at + period <= u32::MAX,
            old(self).0.to.val + period <= u32::MAX,
        ensures
            final(self).0.from.at == old(self).0.from.at + period,
            final(self).0.from.val == old(self).0.from.val + period,
            final(self).0.to.at == old(self).0.to.at + period,
            final(self).0.to.val == old(self).0.to.val + period,
    {
        self.0.shift(period);
    }
}

/// On a line of arrival moments that rises at least as fast as time passes
/// and starts no earlier than it leaves, no moment of arrival is before its departure.
proof fn lemma_arrival_not_before(at1: int, v1: int, at2: int, v2: int, x: int)
    requires
        at1 < at2,
        at1 <= x <= at2,
        at1 <= v1 <= v2,
        v2 - v1 >= at2 - at1,
    ensures
        x <= spec_interpolate(at1, v1, at2, v2, x) <= v2,
{
    let d = at2 - at1;
    let k = v2 - v1;
    let a = x - at1;
    assert(a * d <= a * k) by (nonlinear_arith)
        requires
            0 <= a,
            0 <= d <= k,
    ;
    vstd::arithmetic::div_mod::lemma_div_is_ordered(a * d, a * k, d);
    vstd::arithmetic::div_mod::lemma_div_multiples_vanish(a, d);
    assert(d * a == a * d) by (nonlinear_arith);
    lemma_interpolate_bounds(at1, v1, at2, v2, x);
}

impl MonotoneLine<TTIpp> {
    /// The travel time when leaving at `x`, a moment between the two points.
    pub fn interpolate_tt(&self, x: Timestamp) -> (r: Weight)
        requires
            self.0.from.at < self.0.to.at,
            self.0.from.at <= x <= self.0.to.at,
        ensures
            r as int == spec_interpolate(
                self.0.from.at as int,
                self.0.from.val as int,
                self.0.to.at as int,
                self.0.to.val as int,
                x as int,
            ),
    {
        let delta_x: u64 = (self.0.to.at - self.0.from.at) as u64;
        let relative_x: u64 = (x - self.0.from.at) as u64;
        proof {
            lemma_interpolate_bounds(
                self.0.from.at as int,
                self.0.from.val as int,
                self.0.to.at as int,
                self.0.to.val as int,
                x as int,
            );
        }
        if self.0.to.val >= self.0.from.val {
            let delta_y: u64 = (self.0.to.val - self.0.from.val) as u64;
            assert(relative_x * delta_y <= 0xffff_ffff * 0xffff_ffff) by (nonlinear_arith)
                requires
                    relative_x <= 0xffff_ffff,
                    delta_y <= 0xffff_ffff,
            ;
            (self.0.from.val as u64 + relative_x * delta_y / delta_x) as Weight
        } else {
            let delta_y: u64 = (self.0.from.val - self.0.to.val) as u64;
            assert(relative_x * delta_y <= 0xffff_ffff * 0xffff_ffff) by (nonlinear_arith)
                requires
                    relative_x <= 0xffff_ffff,
                    delta_y <= 0xffff_ffff,
            ;
            (self.0.from.val as u64 - relative_x * delta_y / delta_x) as Weight
        }
    }

    /// The line with every moment and value taken within the period.
    pub fn apply_periodicity(self, period: Timestamp) -> (r: Line<TTIpp>)
        requires
            period > 0,
        ensures
            r.from.at == self.0.from.at % period,
            r.from.val == self.0.from.val % period,
            r.to.at == self.0.to.at % period,
            r.to.val == self.0.to.val % period,
    {
        let mut from = self.0.from;
        let mut to = self.0.to;
        from.at = from.at % period;
        from.val = from.val % period;
        to.at = to.at % period;
        to.val = to.val % period;
        Line { from, to }
    }

    /// How far the second moment is after the first.
    pub fn delta_x(&self) -> (d: Weight)
        requires
            self.0.from.at <= self.0.to.at,
        ensures
            d == self.0.to.at - self.0.from.at,
    {
        self.0.delta_x()
    }

    /// How far the second value is above the first.
    pub fn delta_y(&self) -> (d: Weight)
        requires
            self.0.from.val <= self.0.to.val,
        ensures
            d == self.0.to.val - self.0.from.val,
    {
        self.0.delta_y()
    }
}

/// Whether two lines through points with moments `a1 < a2` and `b1 < b2` are the same line.
pub open spec fn spec_same_line(
    a1: int,
    av1: int,
    a2: int,
    av2: int,
    b1: int,
    bv1: int,
    b2: int,
    bv2: int,
) -> bool {
    &&& (a2 - a1) * (bv2 - bv1) == (av2 - av1) * (b2 - b1)
    &&& if a1 != b1 || av1 != bv1 {
        (a1 - b1) * (av2 - av1) == (av1 - bv1) * (a2 - a1)
    } else {
        (a2 - b2) * (av2 - av1) == (av2 - bv2) * (a2 - a1)
    }
}

impl Segment<Line<TTIpp>> {
    /// The segment between two points, meant for the moments between them.
    pub fn new(from: (Timestamp, Weight), to: (Timestamp, Weight)) -> (s: Self)
        ensures
            s.line.from == (TTIpp { at: from.0, val: from.1 }),
            s.line.to == (TTIpp { at: to.0, val: to.1 }),
            s.valid.start == from.0,
            s.valid.end == to.0,
    {
        Segment {
            line: Line { from: Ipp::new(from.0, from.1), to: Ipp::new(to.0, to.1) },
            valid: Range { start: from.0, end: to.0 },
        }
    }

    /// Whether this segment and `other` describe the same function for the same moments.
    pub fn is_equivalent_to(&self, other: &Self, period: Timestamp) -> (b: bool)
        requires
            self.line.to.at + period <= u32::MAX,
            other.line.to.at + period <= u32::MAX,
        ensures
            b == (self.valid == other.valid && spec_same_line(
                self.line.from.at as int,
                self.line.from.val as int,
                spec_unrolled_to(self.line.from.at as int, self.line.to.at as int, period as int),
                self.line.to.val as int,
                other.line.from.at as int,
                other.line.from.val as int,
                spec_unrolled_to(other.line.from.at as int, other.line.to.at as int, period as int),
                other.line.to.val as int,
            )),
    {
        if self.valid.start != other.valid.start || self.valid.end != other.valid.end {
            return false;
        }
        let a = self.line.into_monotone_tt_line(period).0;
        let b = other.line.into_monotone_tt_line(period).0;
        let adx: i128 = a.to.at as i128 - a.from.at as i128;
        let ady: i128 = a.to.val as i128 - a.from.val as i128;
        let bdx: i128 = b.to.at as i128 - b.from.at as i128;
        let bdy: i128 = b.to.val as i128 - b.from.val as i128;
        proof {
            lemma_product_fits(adx as int, bdy as int);
            lemma_product_fits(ady as int, bdx as int);
        }
        if adx * bdy != ady * bdx {
            return false;
        }
        let (dx, dy): (i128, i128) = if a.from.at != b.from.at || a.from.val != b.from.val {
            (a.from.at as i128 - b.from.at as i128, a.from.val as i128 - b.from.val as i128)
        } else {
            (a.to.at as i128 - b.to.at as i128, a.to.val as i128 - b.to.val as i128)
        };
        proof {
            lemma_product_fits(dx as int, ady as int);
            lemma_product_fits(dy as int, adx as int);
        }
        dx * ady == dy * adx
    }

    /// The segment with moments of arrival, unrolled so that it ends after it starts.
    pub fn into_monotone_at_segment(self, period: Timestamp) -> (r: Segment<MonotoneLine<ATIpp>>)
        requires
            self.line.to.at + period + self.line.to.val <= u32::MAX,
            self.line.from.at + self.line.from.val <= u32::MAX,
            self.valid.end + period <= u32::MAX,
        ensures
            r.line.0.from.at == self.line.from.at,
            r.line.0.from.val == self.line.from.at + self.line.from.val,
            r.line.0.to.at == spec_unrolled_to(
                self.line.from.at as int,
                self.line.to.at as int,
                period as int,
            ),
            r.line.0.to.val == r.line.0.to.at + self.line.to.val,
            r.valid.start == self.valid.start,
            r.valid.end == spec_unrolled_to(
                self.valid.start as int,
                self.valid.end as int,
                period as int,
            ),
    {
        let line = self.line.into_monotone_at_line(period);
        let mut valid = self.valid;
        if valid.end < valid.start {
            valid.end += period;
        }
        Segment { line, valid }
    }

    /// The travel time when leaving at `x`, a moment on the unrolled line.
    pub fn eval(&self, x: Timestamp, period: Timestamp) -> (r: Weight)
        requires
            self.line.to.at + period <= u32::MAX,
            self.line.from.at < spec_unrolled_to(
                self.line.from.at as int,
                self.line.to.at as int,
                period as int,
            ),
            self.line.from.at <= x <= spec_unrolled_to(
                self.line.from.at as int,
                self.line.to.at as int,
                period as int,
            ),
        ensures
            r as int == spec_interpolate(
                self.line.from.at as int,
                self.line.from.val as int,
                spec_unrolled_to(self.line.from.at as int, self.line.to.at as int, period as int),
                self.line.to.val as int,
                x as int,
            ),
    {
        self.line.into_monotone_tt_line(period).interpolate_tt(x)
    }

    /// The moment of arrival, within the period, when leaving at the first valid moment.
    pub fn start_of_valid_at_val(&self, period: Timestamp) -> (r: Timestamp)
        requires
            period > 0,
            self.line.to.at + period <= u32::MAX,
            self.line.from.at < spec_unrolled_to(
                self.line.from.at as int,
                self.line.to.at as int,
                period as int,
            ),
            self.line.from.at <= self.valid.start <= spec_unrolled_to(
                self.line.from.at as int,
                self.line.to.at as int,
                period as int,
            ),
        ensures
            r as int == (spec_interpolate(
                self.line.from.at as int,
                self.line.from.val as int,
                spec_unrolled_to(self.line.from.at as int, self.line.to.at as int, period as int),
                self.line.to.val as int,
                self.valid.start as int,
            ) + self.valid.start) % (period as int),
    {
        let v: u64 = self.eval(self.valid.start, period) as u64 + self.valid.start as u64;
        (v % period as u64) as Timestamp
    }

    /// The moment of arrival, within the period, when leaving at the end of the valid moments.
    pub fn end_of_valid_at_val(&self, period: Timestamp) -> (r: Timestamp)
        requires
            period > 0,
            self.line.to.at + period <= u32::MAX,
            self.valid.end + period <= u32::MAX,
            self.line.from.at < spec_unrolled_to(
                self.line.from.at as int,
                self.line.to.at as int,
                period as int,
            ),
            self.line.from.at <= spec_unrolled_end(
                self.valid.start as int,
                self.valid.end as int,
                period as int,
            ) <= spec_unrolled_to(self.line.from.at as int, self.line.to.at as int, period as int),
        ensures
            r as int == (spec_interpolate(
                self.line.from.at as int,
                self.line.from.val as int,
                spec_unrolled_to(self.line.from.at as int, self.line.to.at as int, period as int),
                self.line.to.val as int,
                spec_unrolled_end(self.valid.start as int, self.valid.end as int, period as int),
            ) + spec_unrolled_end(self.valid.start as int, self.valid.end as int, period as int)) % (
            period as int),
    {
        let x: Timestamp = if self.valid.end <= self.valid.start {
            self.valid.end + period
        } else {
            self.valid.end
        };
        let v: u64 = self.eval(x, period) as u64 + x as u64;
        (v % period as u64) as Timestamp
    }
}

/// The end of a range of moments, one period on where it is not after the start.
pub open spec fn spec_unrolled_end(start: int, end: int, period: int) -> int {
    if end <= start { end + period } else { end }
}

/// The product of two differences of 32 bit numbers fits in 128 bits by far.
proof fn lemma_product_fits(a: int, b: int)
    requires
        -0x1_0000_0000 <= a <= 0x1_0000_0000,
        -0x1_0000_0000 <= b <= 0x1_0000_0000,
    ensures
        -0x1_0000_0000_0000_0000 <= a * b <= 0x1_0000_0000_0000_0000,
{
    assert(-0x1_0000_0000_0000_0000 <= a * b <= 0x1_0000_0000_0000_0000) by (nonlinear_arith)
        requires
            -0x1_0000_0000 <= a <= 0x1_0000_0000,
            -0x1_0000_0000 <= b <= 0x1_0000_0000,
    ;
}

impl Segment<MonotoneLine<ATIpp>> {
    /// The moments of arrival that belong to the valid moments of departure.
    pub fn valid_value_range(&self) -> (r: Range<Timestamp>)
        requires
            self.line.0.from.at < self.line.0.to.at,
            self.line.0.from.val <= self.line.0.to.val,
            self.line.0.from.at <= self.line.0.from.val,
            self.line.0.to.val - self.line.0.from.val >= self.line.0.to.at - self.line.0.from.at,
            self.line.0.from.at <= self.valid.start <= self.line.0.to.at,
            self.line.0.from.at <= self.valid.end <= self.line.0.to.at,
        ensures
            r.start as int == spec_interpolate(
                self.line.0.from.at as int,
                self.line.0.from.val as int,
                self.line.0.to.at as int,
                self.line.0.to.val as int,
                self.valid.start as int,
            ),
            r.end as int == spec_interpolate(
                self.line.0.from.at as int,
                self.line.0.from.val as int,
                self.line.0.to.at as int,
                self.line.0.to.val as int,
                self.valid.end as int,
            ),
    {
        proof {
            lemma_arrival_not_before(
                self.line.0.from.at as int,
                self.line.0.from.val as int,
                self.line.0.to.at as int,
                self.line.0.to.val as int,
                self.valid.start as int,
            );
            lemma_arrival_not_before(
                self.line.0.from.at as int,
                self.line.0.from.val as int,
                self.line.0.to.at as int,
                self.line.0.to.val as int,
                self.valid.end as int,
            );
        }
        Range {
            start: self.line.interpolate_tt(self.valid.start) + self.valid.start,
            end: self.line.interpolate_tt(self.valid.end) + self.valid.end,
        }
    }

    /// Moves the segment one period on.
    pub fn shift(&mut self, period: Timestamp)
        requires
            old(self).line.0.from.at + period <= u32::MAX,
            old(self).line.0.from.val + period <= u32::MAX,
            old(self).line.0.to.at + period <= u32::MAX,
            old(self).line.0.to.val + period <= u32::MAX,
            old(self).valid.start + period <= u32::MAX,
            old(self).valid.end + period <= u32::MAX,
        ensures
            final(self).line.0.from.at == old(self).line.0.from.at + period,
            final(self).line.0.from.val == old(self).line.0.from.val + period,
            final(self).line.0.to.at == old(self).line.0.to.at + period,
            final(self).line.0.to.val == old(self).line.0.to.val + period,
            final(self).valid.start == old(self).valid.start + period,
            final(self).valid.end == old(self).valid.end + period,
    {
        self.valid.start += period;
        self.valid.end += period;
        self.line.shift(period);
    }
}

} // verus!
