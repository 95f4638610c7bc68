//! Periodic piecewise linear travel time functions.
use vstd::prelude::*;
use crate::graph::geometry::{Point, TTFPoint};
use crate::graph::time_dependent::{
    lemma_interpolate_bounds, lemma_interpolate_fifo, lemma_interpolate_monotone, spec_interpolate,
    Line, MonotoneLine, TTIpp,
};
use core::ops::Range;
use crate::types::{RoutingError, Timestamp, Weight, INFINITY, PERIOD};

verus! {

/// Whether the points frame one period: positive finite values, moments that
/// strictly grow, and, for more than one point, the first at zero, the last
/// at the period and both with the same value.  One point stands for a constant.
pub open spec fn spec_frame_ok(p: Seq<Point>) -> bool {
    &&& p.len() >= 1
    &&& p[0].at == 0
    &&& forall|i: int| 0 <= i < p.len() ==> 0 < (#[trigger] p[i]).val < INFINITY
    &&& forall|i: int| 0 <= i < p.len() - 1 ==> (#[trigger] p[i]).at < (#[trigger] p[i + 1]).at
    &&& p.len() > 1 ==> p[p.len() - 1].at == PERIOD && p[p.len() - 1].val == p[0].val
}

/// Whether a later departure never arrives earlier: the value falls by no
/// more than the time that passes.
pub open spec fn spec_fifo(p: Seq<Point>) -> bool {
    forall|i: int|
        0 <= i < p.len() - 1 ==> (#[trigger] p[i + 1]).val - (#[trigger] p[i]).val >= -(p[i + 1].at
            - p[i].at)
}

/// Whether the points are a travel time function.
pub open spec fn spec_valid_plf(p: Seq<Point>) -> bool {
    spec_frame_ok(p) && spec_fifo(p)
}

/// The last of the points `0..=k` that is not after `t`.
pub open spec fn spec_segment_of(p: Seq<Point>, t: int, k: int) -> int
    decreases k,
{
    if k <= 0 {
        0
    } else if p[k].at <= t {
        k
    } else {
        spec_segment_of(p, t, k - 1)
    }
}

/// The travel time when entering at `t`, a moment within the period.
pub open spec fn spec_eval(p: Seq<Point>, t: int) -> int {
    if p.len() == 1 {
        p[0].val as int
    } else {
        let i = spec_segment_of(p, t, p.len() - 2);
        spec_interpolate(p[i].at as int, p[i].val as int, p[i + 1].at as int, p[i + 1].val as int, t)
    }
}

/// The travel time when entering at any moment `t`.
pub open spec fn spec_eval_periodic(p: Seq<Point>, t: int) -> int {
    spec_eval(p, t % (PERIOD as int))
}

/// The least value among the first `k` points.
pub open spec fn spec_min_val(p: Seq<Point>, k: int) -> int
    decreases k,
{
    if k <= 1 {
        p[0].val as int
    } else if p[k - 1].val < spec_min_val(p, k - 1) {
        p[k - 1].val as int
    } else {
        spec_min_val(p, k - 1)
    }
}

/// The greatest value among the first `k` points.
pub open spec fn spec_max_val(p: Seq<Point>, k: int) -> int
    decreases k,
{
    if k <= 1 {
        p[0].val as int
    } else if p[k - 1].val > spec_max_val(p, k - 1) {
        p[k - 1].val as int
    } else {
        spec_max_val(p, k - 1)
    }
}

/// Every one of the first `k` values lies between the least and the greatest of them.
pub proof fn lemma_min_max(p: Seq<Point>, k: int, i: int)
    requires
        0 <= i < k <= p.len(),
    ensures
        spec_min_val(p, k) <= p[i].val <= spec_max_val(p, k),
    decreases k,
{
    if k > 1 && i < k - 1 {
        lemma_min_max(p, k - 1, i);
    }
}

/// Moments grow along the points.
pub proof fn lemma_moments_ordered(p: Seq<Point>, i: int, j: int)
    requires
        spec_frame_ok(p),
        0 <= i <= j < p.len(),
    ensures
        p[i].at <= p[j].at,
        i < j ==> p[i].at < p[j].at,
        0 <= p[i].at <= PERIOD,
    decreases j - i,
{
    if i < j {
        lemma_moments_ordered(p, i + 1, j);
    }
    if i > 0 {
        lemma_moments_zero_first(p, i);
    }
    if p.len() > 1 {
        lemma_moments_last(p, i);
    }
}

proof fn lemma_moments_zero_first(p: Seq<Point>, i: int)
    requires
        spec_frame_ok(p),
        0 <= i < p.len(),
    ensures
        0 <= p[i].at,
    decreases i,
{
    if i > 0 {
        lemma_moments_zero_first(p, i - 1);
        assert(p[i - 1].at < p[i - 1 + 1].at);
    }
}

proof fn lemma_moments_last(p: Seq<Point>, i: int)
    requires
        spec_frame_ok(p),
        p.len() > 1,
        0 <= i < p.len(),
    ensures
        p[i].at <= PERIOD,
    decreases p.len() - i,
{
    if i < p.len() - 1 {
        lemma_moments_last(p, i + 1);
        assert(p[i].at < p[i + 1].at);
    }
}

/// The segment of a moment holds the moment.
pub proof fn lemma_segment_holds(p: Seq<Point>, t: int, k: int)
    requires
        spec_frame_ok(p),
        p.len() >= 2,
        0 <= k <= p.len() - 2,
        0 <= t < p[k + 1].at,
    ensures
        0 <= spec_segment_of(p, t, k) <= k,
        p[spec_segment_of(p, t, k)].at <= t < p[spec_segment_of(p, t, k) + 1].at,
    decreases k,
{
    if k > 0 && p[k].at > t {
        lemma_segment_holds(p, t, k - 1);
    }
}

/// A pair of neighbouring points that holds a moment is the segment of that moment.
pub proof fn lemma_segment_unique(p: Seq<Point>, t: int, j: int)
    requires
        spec_frame_ok(p),
        p.len() >= 2,
        0 <= j <= p.len() - 2,
        p[j].at <= t < p[j + 1].at,
    ensures
        spec_segment_of(p, t, p.len() - 2) == j,
{
    lemma_moments_ordered(p, j + 1, p.len() - 1);
    lemma_moments_ordered(p, 0, j);
    lemma_segment_holds(p, t, p.len() - 2);
    let i = spec_segment_of(p, t, p.len() - 2);
    if i < j {
        lemma_moments_ordered(p, i + 1, j);
    } else if j < i {
        lemma_moments_ordered(p, j + 1, i);
    }
}

/// A travel time lies between the least and the greatest value of the points.
pub proof fn lemma_eval_bounds(p: Seq<Point>, t: int)
    requires
        spec_frame_ok(p),
        0 <= t < PERIOD,
    ensures
        spec_min_val(p, p.len() as int) <= spec_eval(p, t) <= spec_max_val(p, p.len() as int),
        0 < spec_eval(p, t) < INFINITY,
{
    if p.len() == 1 {
        lemma_min_max(p, 1, 0);
    } else {
        lemma_segment_holds(p, t, p.len() - 2);
        let i = spec_segment_of(p, t, p.len() - 2);
        lemma_interpolate_bounds(p[i].at as int, p[i].val as int, p[i + 1].at as int, p[i + 1].val as int, t);
        lemma_min_max(p, p.len() as int, i);
        lemma_min_max(p, p.len() as int, i + 1);
    }
}

/// The same bound for any moment.
pub proof fn lemma_eval_periodic_bounds(p: Seq<Point>, t: int)
    requires
        spec_frame_ok(p),
        0 <= t,
    ensures
        spec_min_val(p, p.len() as int) <= spec_eval_periodic(p, t) <= spec_max_val(p, p.len() as int),
        0 < spec_eval_periodic(p, t) < INFINITY,
{
    lemma_eval_bounds(p, t % (PERIOD as int));
}

/// Arrivals at the points themselves never move back.
proof fn lemma_point_arrivals(p: Seq<Point>, i: int, j: int)
    requires
        spec_valid_plf(p),
        0 <= i <= j < p.len(),
    ensures
        p[i].at + p[i].val <= p[j].at + p[j].val,
    decreases j - i,
{
    if i < j {
        lemma_point_arrivals(p, i + 1, j);
    }
}

/// From a moment within a segment to the end of that segment the arrival does not move back.
proof fn lemma_arrival_to_segment_end(p: Seq<Point>, x: int)
    requires
        spec_valid_plf(p),
        p.len() >= 2,
        0 <= x < PERIOD,
    ensures
        x + spec_eval(p, x) <= p[spec_segment_of(p, x, p.len() - 2) + 1].at + p[spec_segment_of(
            p,
            x,
            p.len() - 2,
        ) + 1].val,
        p[spec_segment_of(p, x, p.len() - 2)].at + p[spec_segment_of(p, x, p.len() - 2)].val <= x
            + spec_eval(p, x),
{
    lemma_segment_holds(p, x, p.len() - 2);
    let i = spec_segment_of(p, x, p.len() - 2);
    let (a1, v1, a2, v2) = (p[i].at as int, p[i].val as int, p[i + 1].at as int, p[i + 1].val as int);
    lemma_interpolate_fifo(a1, v1, a2, v2, x, a2);
    lemma_interpolate_fifo(a1, v1, a2, v2, a1, x);
    lemma_interpolate_bounds(a1, v1, a2, v2, x);
}

/// Within one period a later departure never arrives earlier.
pub proof fn lemma_arrival_monotone(p: Seq<Point>, x: int, y: int)
    requires
        spec_valid_plf(p),
        0 <= x <= y < PERIOD,
    ensures
        x + spec_eval(p, x) <= y + spec_eval(p, y),
{
    if p.len() >= 2 {
        lemma_segment_holds(p, x, p.len() - 2);
        lemma_segment_holds(p, y, p.len() - 2);
        let i = spec_segment_of(p, x, p.len() - 2);
        let j = spec_segment_of(p, y, p.len() - 2);
        if j < i {
            lemma_moments_ordered(p, j + 1, i);
        }
        if i == j {
            lemma_interpolate_fifo(
                p[i].at as int,
                p[i].val as int,
                p[i + 1].at as int,
                p[i + 1].val as int,
                x,
                y,
            );
        } else {
            lemma_arrival_to_segment_end(p, x);
            lemma_point_arrivals(p, i + 1, j);
            lemma_arrival_to_segment_end(p, y);
        }
    }
}

/// Over all time a later departure never arrives earlier.
pub proof fn lemma_arrival_monotone_periodic(p: Seq<Point>, x: int, y: int)
    requires
        spec_valid_plf(p),
        0 <= x <= y,
    ensures
        x + spec_eval_periodic(p, x) <= y + spec_eval_periodic(p, y),
{
    let period = PERIOD as int;
    let (qx, a) = (x / period, x % period);
    let (qy, b) = (y / period, y % period);
    vstd::arithmetic::div_mod::lemma_fundamental_div_mod(x, period);
    vstd::arithmetic::div_mod::lemma_fundamental_div_mod(y, period);
    vstd::arithmetic::div_mod::lemma_div_is_ordered(x, y, period);
    if p.len() >= 2 {
        if qx == qy {
            lemma_arrival_monotone(p, a, b);
        } else {
            lemma_arrival_to_segment_end(p, a);
            lemma_segment_holds(p, a, p.len() - 2);
            lemma_point_arrivals(p, spec_segment_of(p, a, p.len() - 2) + 1, p.len() - 1);
            lemma_arrival_to_segment_end(p, b);
            lemma_segment_holds(p, b, p.len() - 2);
            lemma_point_arrivals(p, 0, spec_segment_of(p, b, p.len() - 2));
            assert(period * qx + period <= period * qy) by (nonlinear_arith)
                requires
                    qx + 1 <= qy,
                    period > 0,
            ;
        }
    }
}

/// Checks the frame of a sequence of points.
pub fn check_frame(points: &[Point]) -> (ok: bool)
    ensures
        ok == spec_frame_ok(points@),
{
    let n = points.len();
    if n == 0 || points[0].at != 0 {
        return false;
    }
    let mut i: usize = 0;
    while i < n
        invariant
            i <= n,
            n == points@.len(),
            forall|j: int| 0 <= j < i ==> 0 < (#[trigger] points@[j]).val < INFINITY,
            forall|j: int| 0 <= j < i && j + 1 < n ==> (#[trigger] points@[j]).at < points@[j + 1].at,
        decreases n - i,
    {
        if points[i].val <= 0 || points[i].val >= INFINITY as i64 {
            return false;
        }
        if i + 1 < n && points[i].at >= points[i + 1].at {
            return false;
        }
        i += 1;
    }
    if n > 1 && (points[n - 1].at != PERIOD as i64 || points[n - 1].val != points[0].val) {
        return false;
    }
    true
}

/// Checks that no later departure arrives earlier, on points whose frame is in order.
pub fn check_fifo(points: &[Point]) -> (ok: bool)
    requires
        spec_frame_ok(points@),
    ensures
        ok == spec_fifo(points@),
{
    let n = points.len();
    let mut i: usize = 0;
    proof {
        assert forall|j: int| 0 <= j < n implies 0 <= (#[trigger] points@[j]).at <= PERIOD by {
            lemma_moments_ordered(points@, j, j);
        }
    }
    while i + 1 < n
        invariant
            i + 1 <= n,
            n == points@.len(),
            forall|j: int| 0 <= j < n ==> 0 <= (#[trigger] points@[j]).at <= PERIOD,
            forall|j: int| 0 <= j < n ==> 0 < (#[trigger] points@[j]).val < INFINITY,
            forall|j: int|
                0 <= j < i ==> points@[j + 1].val - (#[trigger] points@[j]).val >= -(points@[j + 1].at
                    - points@[j].at),
        decreases n - i,
    {
        if points[i + 1].val - points[i].val < -(points[i + 1].at - points[i].at) {
            return false;
        }
        i += 1;
    }
    true
}

/// Checks that a sequence of points is a travel time function: a broken
/// frame is malformed input, an arrival that moves back is not first in first out.
pub fn validate(points: &[Point]) -> (r: Result<(), RoutingError>)
    ensures
        !spec_frame_ok(points@) ==> r == Err::<(), RoutingError>(RoutingError::MalformedInput),
        spec_frame_ok(points@) && !spec_fifo(points@) ==> r == Err::<(), RoutingError>(
            RoutingError::NonFiFOWeight,
        ),
        spec_valid_plf(points@) ==> r == Ok::<(), RoutingError>(()),
{
    if !check_frame(points) {
        return Err(RoutingError::MalformedInput);
    }
    if !check_fifo(points) {
        return Err(RoutingError::NonFiFOWeight);
    }
    Ok(())
}

/// A borrowed travel time function.
#[derive(Debug, Clone, Copy)]
pub struct PiecewiseLinearFunction<'a> {
    ipps: &'a [TTFPoint],
}

impl<'a> PiecewiseLinearFunction<'a> {
    /// The points of the function.
    pub closed spec fn view(&self) -> Seq<Point> {
        self.ipps@
    }

    /// Representation invariant: the points are a travel time function.
    pub open spec fn wf(&self) -> bool {
        spec_valid_plf(self@)
    }

    /// The function through `ipps`.
    pub fn new(ipps: &'a [TTFPoint]) -> (f: Self)
        requires
            spec_valid_plf(ipps@),
        ensures
            f@ == ipps@,
            f.wf(),
    {
        PiecewiseLinearFunction { ipps }
    }

    /// Number of points.
    pub fn len(&self) -> (n: usize)
        ensures
            n == self@.len(),
    {
        self.ipps.len()
    }

    /// Whether the function is a constant.
    pub fn is_constant(&self) -> (b: bool)
        ensures
            b == (self@.len() == 1),
    {
        self.ipps.len() == 1
    }

    /// The travel time when entering at `t`.
    pub fn evaluate(&self, t: Timestamp) -> (r: Weight)
        requires
            self.wf(),
        ensures
            r as int == spec_eval_periodic(self@, t as int),
            0 < r < INFINITY,
    {
        let n = self.ipps.len();
        if n == 1 {
            return self.ipps[0].val as Weight;
        }
        let t: Timestamp = t % PERIOD;
        let mut lo: usize = 0;
        let mut hi: usize = n - 1;
        while hi - lo > 1
            invariant
                lo < hi < n,
                n == self.ipps@.len(),
                spec_valid_plf(self.ipps@),
                self.ipps@[lo as int].at <= t < self.ipps@[hi as int].at,
            decreases hi - lo,
        {
            let mid = lo + (hi - lo) / 2;
            if self.ipps[mid].at <= t as i64 {
                lo = mid;
            } else {
                hi = mid;
            }
        }
        let from = &self.ipps[lo];
        let to = &self.ipps[lo + 1];
        proof {
            lemma_segment_unique(self.ipps@, t as int, lo as int);
            lemma_moments_ordered(self.ipps@, lo as int, lo as int + 1);
            lemma_moments_ordered(self.ipps@, lo as int + 1, lo as int + 1);
            lemma_eval_bounds(self.ipps@, t as int);
        }
        let line = MonotoneLine(
            Line {
                from: TTIpp { at: from.at as u32, val: from.val as u32 },
                to: TTIpp { at: to.at as u32, val: to.val as u32 },
            },
        );
        line.interpolate_tt(t)
    }

    /// The least and the greatest travel time.
    pub fn bounds(&self) -> (r: (Weight, Weight))
        requires
            self.wf(),
        ensures
            r.0 as int == spec_min_val(self@, self@.len() as int),
            r.1 as int == spec_max_val(self@, self@.len() as int),
            forall|t: int| 0 <= t ==> r.0 <= #[trigger] spec_eval_periodic(self@, t) <= r.1,
            0 < r.0 <= r.1 < INFINITY,
    {
        let n = self.ipps.len();
        let mut lower: i64 = self.ipps[0].val;
        let mut upper: i64 = self.ipps[0].val;
        let mut i: usize = 1;
        while i < n
            invariant
                1 <= i <= n,
                n == self.ipps@.len(),
                spec_valid_plf(self.ipps@),
                lower == spec_min_val(self.ipps@, i as int),
                upper == spec_max_val(self.ipps@, i as int),
            decreases n - i,
        {
            if self.ipps[i].val < lower {
                lower = self.ipps[i].val;
            }
            if self.ipps[i].val > upper {
                upper = self.ipps[i].val;
            }
            i += 1;
        }
        proof {
            lemma_min_max(self.ipps@, n as int, 0);
            lemma_min_is_value(self.ipps@, n as int);
            assert forall|t: int| 0 <= t implies lower <= #[trigger] spec_eval_periodic(self@, t)
                <= upper by {
                lemma_eval_periodic_bounds(self@, t);
            }
        }
        (lower as Weight, upper as Weight)
    }
}

/// Whether `lower` and `upper` are the least and the greatest travel time
/// for the moments from `start` up to, not including, `end`.
pub open spec fn spec_bounds_over(p: Seq<Point>, start: int, end: int, lower: int, upper: int) -> bool {
    &&& forall|t: int| start <= t < end ==> lower <= #[trigger] spec_eval(p, t) <= upper
    &&& exists|t: int| start <= t < end && #[trigger] spec_eval(p, t) == lower
    &&& exists|t: int| start <= t < end && #[trigger] spec_eval(p, t) == upper
}

/// The least travel time for the moments from `start` up to, not including, `end`.
pub open spec fn spec_min_over(p: Seq<Point>, start: int, end: int) -> int
    decreases end - start,
{
    if end - start <= 1 {
        spec_eval(p, start)
    } else {
        let rest = spec_min_over(p, start, end - 1);
        if spec_eval(p, end - 1) < rest {
            spec_eval(p, end - 1)
        } else {
            rest
        }
    }
}

/// The greatest travel time for the moments from `start` up to, not including, `end`.
pub open spec fn spec_max_over(p: Seq<Point>, start: int, end: int) -> int
    decreases end - start,
{
    if end - start <= 1 {
        spec_eval(p, start)
    } else {
        let rest = spec_max_over(p, start, end - 1);
        if spec_eval(p, end - 1) > rest {
            spec_eval(p, end - 1)
        } else {
            rest
        }
    }
}

/// The least and the greatest travel time over a range are travel times
/// of the range, and no travel time of the range is beyond them.
pub proof fn lemma_min_max_over(p: Seq<Point>, start: int, end: int)
    requires
        start < end,
    ensures
        spec_bounds_over(p, start, end, spec_min_over(p, start, end), spec_max_over(p, start, end)),
    decreases end - start,
{
    if end - start > 1 {
        lemma_min_max_over(p, start, end - 1);
        let low = choose|t: int| start <= t < end - 1 && #[trigger] spec_eval(p, t) == spec_min_over(p, start, end - 1);
        let high = choose|t: int| start <= t < end - 1 && #[trigger] spec_eval(p, t) == spec_max_over(p, start, end - 1);
        if spec_eval(p, end - 1) < spec_min_over(p, start, end - 1) {
            assert(spec_eval(p, end - 1) == spec_min_over(p, start, end));
        } else {
            assert(spec_eval(p, low) == spec_min_over(p, start, end));
        }
        if spec_eval(p, end - 1) > spec_max_over(p, start, end - 1) {
            assert(spec_eval(p, end - 1) == spec_max_over(p, start, end));
        } else {
            assert(spec_eval(p, high) == spec_max_over(p, start, end));
        }
    } else {
        assert(spec_eval(p, start) == spec_min_over(p, start, end));
        assert(spec_eval(p, start) == spec_max_over(p, start, end));
    }
}

/// Bounds that are met and never passed are the least and the greatest travel time.
pub proof fn lemma_bounds_over_unique(p: Seq<Point>, start: int, end: int, lower: int, upper: int)
    requires
        start < end,
        spec_bounds_over(p, start, end, lower, upper),
    ensures
        lower == spec_min_over(p, start, end),
        upper == spec_max_over(p, start, end),
{
    lemma_min_max_over(p, start, end);
    let a = choose|t: int| start <= t < end && #[trigger] spec_eval(p, t) == lower;
    let b = choose|t: int| start <= t < end && #[trigger] spec_eval(p, t) == upper;
    let c = choose|t: int| start <= t < end && #[trigger] spec_eval(p, t) == spec_min_over(p, start, end);
    let d = choose|t: int| start <= t < end && #[trigger] spec_eval(p, t) == spec_max_over(p, start, end);
    assert(spec_min_over(p, start, end) <= spec_eval(p, a));
    assert(lower <= spec_eval(p, c));
    assert(spec_eval(p, b) <= spec_max_over(p, start, end));
    assert(spec_eval(p, d) <= upper);
}

/// Within a segment the travel time at a moment lies between those at any
/// two moments of the segment that it lies between.
proof fn lemma_between(p: Seq<Point>, i: int, x: int, t: int, y: int)
    requires
        spec_frame_ok(p),
        p.len() >= 2,
        0 <= i <= p.len() - 2,
        p[i].at <= x <= t <= y <= p[i + 1].at,
        y < PERIOD,
    ensures
        (spec_eval(p, x) <= spec_eval(p, t) <= spec_eval(p, y)) || (spec_eval(p, x) >= spec_eval(p, t)
            >= spec_eval(p, y)),
{
    let (a1, v1, a2, v2) = (p[i].at as int, p[i].val as int, p[i + 1].at as int, p[i + 1].val as int);
    lemma_moments_ordered(p, i, i + 1);
    lemma_interpolate_monotone(a1, v1, a2, v2, x, t);
    lemma_interpolate_monotone(a1, v1, a2, v2, t, y);
    lemma_eval_in_segment(p, i, x);
    lemma_eval_in_segment(p, i, t);
    lemma_eval_in_segment(p, i, y);
}

/// The travel time at a moment of segment `i`, its later end included, is
/// that of the line of the segment.
proof fn lemma_eval_in_segment(p: Seq<Point>, i: int, t: int)
    requires
        spec_frame_ok(p),
        p.len() >= 2,
        0 <= i <= p.len() - 2,
        p[i].at <= t <= p[i + 1].at,
        t < PERIOD,
    ensures
        spec_eval(p, t) == spec_interpolate(
            p[i].at as int,
            p[i].val as int,
            p[i + 1].at as int,
            p[i + 1].val as int,
            t,
        ),
{
    lemma_moments_ordered(p, i, i + 1);
    if t < p[i + 1].at {
        lemma_segment_unique(p, t, i);
    } else {
        // the later end of the segment is the first moment of the next one
        lemma_moments_ordered(p, i + 1, p.len() - 1);
        lemma_segment_unique(p, t, i + 1);
        lemma_interpolate_bounds(
            p[i].at as int,
            p[i].val as int,
            p[i + 1].at as int,
            p[i + 1].val as int,
            t,
        );
        lemma_moments_ordered(p, i + 1, i + 2);
        lemma_interpolate_bounds(
            p[i + 1].at as int,
            p[i + 1].val as int,
            p[i + 2].at as int,
            p[i + 2].val as int,
            t,
        );
    }
}

impl<'a> PiecewiseLinearFunction<'a> {
    /// The least and the greatest travel time for the departures of
    /// `range`, a range of moments within the period that is not empty.
    pub fn bounds_for(&self, range: &Range<Timestamp>) -> (r: (Weight, Weight))
        requires
            self.wf(),
            range.start < range.end <= PERIOD,
        ensures
            spec_bounds_over(self@, range.start as int, range.end as int, r.0 as int, r.1 as int),
            r.0 as int == spec_min_over(self@, range.start as int, range.end as int),
            r.1 as int == spec_max_over(self@, range.start as int, range.end as int),
            0 < r.0 <= r.1 < INFINITY,
    {
        let start = range.start;
        let last = range.end - 1;
        let first = self.evaluate(start);
        let at_last = self.evaluate(last);
        let mut lower = if first <= at_last { first } else { at_last };
        let mut upper = if first <= at_last { at_last } else { first };
        let n = self.ipps.len();
        let ghost p = self.ipps@;
        proof {
            vstd::arithmetic::div_mod::lemma_small_mod(start as nat, PERIOD as nat);
            vstd::arithmetic::div_mod::lemma_small_mod(last as nat, PERIOD as nat);
        }
        let ghost mut low_at: int = if first <= at_last { start as int } else { last as int };
        let ghost mut high_at: int = if first <= at_last { last as int } else { start as int };
        let mut i: usize = 0;
        while i < n
            invariant
                i <= n,
                n == p.len(),
                p == self.ipps@,
                spec_valid_plf(p),
                start <= last < PERIOD,
                start <= low_at <= last,
                start <= high_at <= last,
                lower as int == spec_eval(p, low_at),
                upper as int == spec_eval(p, high_at),
                lower <= spec_eval(p, start as int) <= upper,
                lower <= spec_eval(p, last as int) <= upper,
                0 < lower <= upper < INFINITY,
                forall|k: int|
                    0 <= k < i && start <= (#[trigger] p[k]).at <= last ==> lower <= spec_eval(
                        p,
                        p[k].at as int,
                    ) <= upper,
            decreases n - i,
        {
            let at = self.ipps[i].at;
            if start as i64 <= at && at <= last as i64 {
                proof {
                    vstd::arithmetic::div_mod::lemma_small_mod(at as nat, PERIOD as nat);
                }
                let value = self.evaluate(at as Timestamp);
                if value < lower {
                    lower = value;
                    proof {
                        low_at = at as int;
                    }
                }
                if value > upper {
                    upper = value;
                    proof {
                        high_at = at as int;
                    }
                }
            }
            i += 1;
        }
        proof {
            assert forall|t: int| start <= t <= last implies lower <= #[trigger] spec_eval(p, t)
                <= upper by {
                if n >= 2 {
                    lemma_segment_holds(p, t, n - 2);
                    let s = spec_segment_of(p, t, n - 2);
                    // the moments of the range that bracket `t` within its segment
                    let x = if p[s].at >= start as int { p[s].at as int } else { start as int };
                    let y = if p[s + 1].at <= last as int { p[s + 1].at as int } else { last as int };
                    lemma_between(p, s, x, t, y);
                }
            }
            assert(spec_eval(p, low_at) == lower);
            assert(spec_eval(p, high_at) == upper);
            lemma_bounds_over_unique(p, start as int, last as int + 1, lower as int, upper as int);
        }
        (lower, upper)
    }
}

/// The least and the greatest of the first `k` values are values of points.
proof fn lemma_min_is_value(p: Seq<Point>, k: int)
    requires
        1 <= k <= p.len(),
    ensures
        exists|i: int| 0 <= i < k && #[trigger] p[i].val == spec_min_val(p, k),
        exists|i: int| 0 <= i < k && #[trigger] p[i].val == spec_max_val(p, k),
    decreases k,
{
    if k > 1 {
        lemma_min_is_value(p, k - 1);
        let i = choose|i: int| 0 <= i < k - 1 && #[trigger] p[i].val == spec_min_val(p, k - 1);
        let j = choose|j: int| 0 <= j < k - 1 && #[trigger] p[j].val == spec_max_val(p, k - 1);
        if p[k - 1].val < spec_min_val(p, k - 1) {
            assert(p[k - 1].val == spec_min_val(p, k));
        } else {
            assert(p[i].val == spec_min_val(p, k));
        }
        if p[k - 1].val > spec_max_val(p, k - 1) {
            assert(p[k - 1].val == spec_max_val(p, k));
        } else {
            assert(p[j].val == spec_max_val(p, k));
        }
    } else {
        assert(p[0].val == spec_min_val(p, k));
        assert(p[0].val == spec_max_val(p, k));
    }
}

} // verus!
