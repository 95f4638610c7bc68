//! Points of travel time functions and the orientation tests on them.
//!
//! Coordinates are whole milliseconds, so every test here is exact.
use vstd::prelude::*;
use crate::types::RoutingError;

verus! {

/// The largest absolute value of a coordinate for which the tests are offered.
pub const COORDINATE_LIMIT: i64 = 0x8000_0000;

/// A point of a travel time function: entering at `at` takes `val`.
#[derive(Debug, Clone, Copy, PartialEq, Eq)]
pub struct Point {
    pub at: i64,
    pub val: i64,
}

/// A point of a travel time function.
pub type TTFPoint = Point;

/// Twice the signed area of the triangle `a`, `c`, `b`: positive where `b`
/// lies to the right of the line from `a` to `c`.
pub open spec fn spec_perp_dot(a: Point, b: Point, c: Point) -> int {
    (c.at - a.at) * (b.val - a.val) - (b.at - a.at) * (c.val - a.val)
}

/// The sign of `x`.
pub open spec fn spec_sign(x: int) -> int {
    if x > 0 {
        1
    } else if x < 0 {
        -1
    } else {
        0
    }
}

/// Whether the coordinates of `p` are within the limit.
pub open spec fn spec_in_range(p: Point) -> bool {
    &&& -COORDINATE_LIMIT <= p.at <= COORDINATE_LIMIT
    &&& -COORDINATE_LIMIT <= p.val <= COORDINATE_LIMIT
}

/// Whether the segments `f1 f2` and `g1 g2` cross in one point that is an
/// end of neither.
pub open spec fn spec_intersect(f1: Point, f2: Point, g1: Point, g2: Point) -> bool {
    &&& spec_sign(spec_perp_dot(f1, f2, g1)) * spec_sign(spec_perp_dot(f1, f2, g2)) == -1
    &&& spec_sign(spec_perp_dot(g1, g2, f1)) * spec_sign(spec_perp_dot(g1, g2, f2)) == -1
}

/// The quotient of `n` by `d`, rounded towards zero.
pub open spec fn spec_div_towards_zero(n: int, d: int) -> int {
    if (n >= 0) == (d > 0) {
        (if n >= 0 { n } else { -n }) / (if d > 0 { d } else { -d })
    } else {
        -((if n >= 0 { n } else { -n }) / (if d > 0 { d } else { -d }))
    }
}

/// The numerator of the share of `f1 f2` that lies before the line through `g1 g2`.
pub open spec fn spec_cut_numerator(f1: Point, g1: Point, g2: Point) -> int {
    (g1.at - g2.at) * (g1.val - f1.val) - (g1.at - f1.at) * (g1.val - g2.val)
}

/// The denominator of that share: zero where the two lines are parallel.
pub open spec fn spec_cut_denominator(f1: Point, f2: Point, g1: Point, g2: Point) -> int {
    (g1.at - g2.at) * (f2.val - f1.val) - (f2.at - f1.at) * (g1.val - g2.val)
}

/// Products of differences of coordinates within the limit stay small.
proof fn lemma_products(a: int, b: int)
    requires
        -0x1_0000_0000 <= a <= 0x1_0000_0000,
        -0x1_0000_0000 <= b <= 0x1_0000_0000,
    ensures
        -0x1_0000_0000_0000_0000 <= a * b <= 0x1_0000_0000_0000_0000,
{
    assert(-0x1_0000_0000_0000_0000 <= a * b <= 0x1_0000_0000_0000_0000) by (nonlinear_arith)
        requires
            -0x1_0000_0000 <= a <= 0x1_0000_0000,
            -0x1_0000_0000 <= b <= 0x1_0000_0000,
    ;
}

/// A cross product times one more difference stays within 128 bits.
proof fn lemma_triple(a: int, b: int)
    requires
        -0x2_0000_0000_0000_0000 <= a <= 0x2_0000_0000_0000_0000,
        -0x1_0000_0000 <= b <= 0x1_0000_0000,
    ensures
        -0x2_0000_0000_0000_0000_0000_0000 <= a * b <= 0x2_0000_0000_0000_0000_0000_0000,
{
    assert(-0x2_0000_0000_0000_0000_0000_0000 <= a * b <= 0x2_0000_0000_0000_0000_0000_0000)
        by (nonlinear_arith)
        requires
            -0x2_0000_0000_0000_0000 <= a <= 0x2_0000_0000_0000_0000,
            -0x1_0000_0000 <= b <= 0x1_0000_0000,
    ;
}

impl Point {
    /// The point `offset` later, with the same value.
    pub fn shifted(&self, offset: i64) -> (p: Point)
        requires
            i64::MIN <= self.at + offset <= i64::MAX,
        ensures
            p.at == self.at + offset,
            p.val == self.val,
    {
        Point { at: self.at + offset, val: self.val }
    }

    /// The difference to `other`, coordinate by coordinate.
    pub fn sub(&self, other: &Point) -> (p: Point)
        requires
            spec_in_range(*self),
            spec_in_range(*other),
        ensures
            p.at == self.at - other.at,
            p.val == self.val - other.val,
    {
        Point { at: self.at - other.at, val: self.val - other.val }
    }
}

/// Twice the signed area spanned by the vectors `p` and `q`.
fn perp_dot_product(p: &Point, q: &Point) -> (x: i128)
    requires
        -0x1_0000_0000 <= p.at <= 0x1_0000_0000,
        -0x1_0000_0000 <= p.val <= 0x1_0000_0000,
        -0x1_0000_0000 <= q.at <= 0x1_0000_0000,
        -0x1_0000_0000 <= q.val <= 0x1_0000_0000,
    ensures
        x == p.at * q.val - q.at * p.val,
        -0x2_0000_0000_0000_0000 <= x <= 0x2_0000_0000_0000_0000,
{
    proof {
        lemma_products(p.at as int, q.val as int);
        lemma_products(q.at as int, p.val as int);
    }
    p.at as i128 * q.val as i128 - q.at as i128 * p.val as i128
}

/// On which side of the line from `a` to `c` the point `b` lies: `1` to the
/// right, `-1` to the left, `0` on the line.
pub fn ccw(a: &Point, b: &Point, c: &Point) -> (r: i32)
    requires
        spec_in_range(*a),
        spec_in_range(*b),
        spec_in_range(*c),
    ensures
        r as int == spec_sign(spec_perp_dot(*a, *b, *c)),
{
    let v1 = c.sub(a);
    let v2 = b.sub(a);
    let x = perp_dot_product(&v1, &v2);
    if x > 0 {
        1
    } else if x < 0 {
        -1
    } else {
        0
    }
}

/// Whether `p`, `q`, `r` turn to the left.
pub fn counter_clockwise(p: &Point, q: &Point, r: &Point) -> (b: bool)
    requires
        spec_in_range(*p),
        spec_in_range(*q),
        spec_in_range(*r),
    ensures
        b == (spec_perp_dot(*p, *q, *r) < 0),
{
    ccw(p, q, r) == -1
}

/// Whether `p`, `q`, `r` turn to the right.
pub fn clockwise(p: &Point, q: &Point, r: &Point) -> (b: bool)
    requires
        spec_in_range(*p),
        spec_in_range(*q),
        spec_in_range(*r),
    ensures
        b == (spec_perp_dot(*p, *q, *r) > 0),
{
    ccw(p, q, r) == 1
}

/// Whether `q` lies on the line from `p` to `r`, three points in the order of their moments.
pub fn colinear_ordered(p: &Point, q: &Point, r: &Point) -> (b: bool)
    requires
        spec_in_range(*p),
        spec_in_range(*q),
        spec_in_range(*r),
        p.at < q.at < r.at,
    ensures
        b == ((q.val - p.val) * (r.at - p.at) == (q.at - p.at) * (r.val - p.val)),
{
    let x = ccw(p, q, r);
    proof {
        assert((r.at - p.at) * (q.val - p.val) == (q.val - p.val) * (r.at - p.at)) by (nonlinear_arith);
    }
    x == 0
}

/// Whether two segments cross in one point that is an end of neither.
pub fn intersect(f1: &Point, f2: &Point, g1: &Point, g2: &Point) -> (b: bool)
    requires
        spec_in_range(*f1),
        spec_in_range(*f2),
        spec_in_range(*g1),
        spec_in_range(*g2),
    ensures
        b == spec_intersect(*f1, *f2, *g1, *g2),
{
    let a = ccw(f1, f2, g1);
    let b = ccw(f1, f2, g2);
    let c = ccw(g1, g2, f1);
    let d = ccw(g1, g2, f2);
    if a == 0 {
        return false;
    }
    if b == 0 {
        return false;
    }
    if c == 0 {
        return false;
    }
    if d == 0 {
        return false;
    }
    if a == b {
        return false;
    }
    if c == d {
        return false;
    }
    true
}

/// The absolute value of `n` divided by that of `d`, with the sign of the quotient.
fn div_towards_zero(n: i128, d: i128) -> (q: i128)
    requires
        d != 0,
        -0x2_0000_0000_0000_0000_0000_0000 <= n <= 0x2_0000_0000_0000_0000_0000_0000,
        -0x2_0000_0000_0000_0000_0000_0000 <= d <= 0x2_0000_0000_0000_0000_0000_0000,
    ensures
        q == spec_div_towards_zero(n as int, d as int),
        -0x2_0000_0000_0000_0000_0000_0000 <= q <= 0x2_0000_0000_0000_0000_0000_0000,
{
    let an: u128 = if n >= 0 { n as u128 } else { (-n) as u128 };
    let ad: u128 = if d > 0 { d as u128 } else { (-d) as u128 };
    let aq: u128 = an / ad;
    proof {
        vstd::arithmetic::div_mod::lemma_div_nonincreasing(an as int, ad as int);
        vstd::arithmetic::div_mod::lemma_div_pos_is_pos(an as int, ad as int);
    }
    if (n >= 0) == (d > 0) {
        aq as i128
    } else {
        -(aq as i128)
    }
}

/// Where the lines through `f1 f2` and through `g1 g2` meet, each
/// coordinate rounded towards that of `f1`; meaningless for parallel lines.
pub open spec fn spec_meeting_point(f1: Point, f2: Point, g1: Point, g2: Point) -> (int, int) {
    (
        f1.at + spec_div_towards_zero(
            spec_cut_numerator(f1, g1, g2) * (f2.at - f1.at),
            spec_cut_denominator(f1, f2, g1, g2),
        ),
        f1.val + spec_div_towards_zero(
            spec_cut_numerator(f1, g1, g2) * (f2.val - f1.val),
            spec_cut_denominator(f1, f2, g1, g2),
        ),
    )
}

/// Whether two lines meet in a point with coordinates within the limit.
pub open spec fn spec_meets_in_range(f1: Point, f2: Point, g1: Point, g2: Point) -> bool {
    &&& spec_cut_denominator(f1, f2, g1, g2) != 0
    &&& -COORDINATE_LIMIT <= spec_meeting_point(f1, f2, g1, g2).0 <= COORDINATE_LIMIT
    &&& -COORDINATE_LIMIT <= spec_meeting_point(f1, f2, g1, g2).1 <= COORDINATE_LIMIT
}

/// The point in which the lines through `f1 f2` and through `g1 g2` meet,
/// each coordinate rounded towards that of `f1`.  Parallel lines meet
/// nowhere, and a point beyond the limit is not given out.
pub fn intersection_point(f1: &Point, f2: &Point, g1: &Point, g2: &Point) -> (r: Result<
    Point,
    RoutingError,
>)
    requires
        spec_in_range(*f1),
        spec_in_range(*f2),
        spec_in_range(*g1),
        spec_in_range(*g2),
    ensures
        !spec_meets_in_range(*f1, *f2, *g1, *g2) ==> r == Err::<Point, RoutingError>(
            RoutingError::NonFiniteArithmetic,
        ),
        spec_meets_in_range(*f1, *f2, *g1, *g2) ==> r.is_ok() && r.unwrap().at
            == spec_meeting_point(*f1, *f2, *g1, *g2).0 && r.unwrap().val == spec_meeting_point(
            *f1,
            *f2,
            *g1,
            *g2,
        ).1,
{
    let g = g1.sub(g2);
    let gf = g1.sub(f1);
    let f = f2.sub(f1);
    let nom = perp_dot_product(&g, &gf);
    let div = perp_dot_product(&g, &f);
    if div == 0 {
        return Err(RoutingError::NonFiniteArithmetic);
    }
    proof {
        lemma_triple(nom as int, f.at as int);
        lemma_triple(nom as int, f.val as int);
    }
    let at: i128 = f1.at as i128 + div_towards_zero(nom * f.at as i128, div);
    let val: i128 = f1.val as i128 + div_towards_zero(nom * f.val as i128, div);
    if at < -(COORDINATE_LIMIT as i128) || at > COORDINATE_LIMIT as i128 || val < -(
    COORDINATE_LIMIT as i128) || val > COORDINATE_LIMIT as i128 {
        return Err(RoutingError::NonFiniteArithmetic);
    }
    Ok(Point { at: at as i64, val: val as i64 })
}

} // verus!
