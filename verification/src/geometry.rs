//! Points, polygon edges and the place where an edge meets a pixel row.

use vstd::prelude::*;

verus! {

/// A pixel coordinate.
#[derive(Clone, Copy, Debug, PartialEq, Eq, Structural)]
pub struct Point {
    pub x: i32,
    pub y: i32,
}

impl View for Point {
    type V = (int, int);

    /// The point as a pair of integers: column, then row.
    open spec fn view(&self) -> (int, int) {
        (self.x as int, self.y as int)
    }
}

/// The absolute value of `v`.
pub open spec fn magnitude(v: int) -> int {
    if v < 0 {
        -v
    } else {
        v
    }
}

/// The quotient of `n` by `d`, rounded toward zero.
pub open spec fn trunc_div(n: int, d: int) -> int
    recommends
        d != 0,
{
    if (n < 0) == (d < 0) {
        magnitude(n) / magnitude(d)
    } else {
        -(magnitude(n) / magnitude(d))
    }
}

/// The index of the vertex after vertex `i` on a closed polygon of `n`
/// vertices.
pub open spec fn next_index(n: int, i: int) -> int {
    if i + 1 >= n {
        0
    } else {
        i + 1
    }
}

/// The index of the vertex after vertex `i` on a closed polygon of `n`
/// vertices.
pub fn next_vertex(n: usize, i: usize) -> (j: usize)
    requires
        i < n,
    ensures
        j == next_index(n as int, i as int),
        j < n,
{
    if i + 1 == n {
        0
    } else {
        i + 1
    }
}

/// The edge from `a` to `b` crosses row `y`: exactly one end lies strictly
/// below the row (has a larger `y`), the other on it or above. A vertex on the
/// row therefore counts for one of its two edges only, and a horizontal edge
/// never crosses.
pub open spec fn crosses_row(a: Point, b: Point, y: int) -> bool {
    (a.y <= y < b.y) || (b.y <= y < a.y)
}

/// The column at which the edge from `a` to `b` meets row `y`: linear
/// interpolation starting from `a`, with the offset rounded toward zero, that
/// is toward `a.x`.
pub open spec fn edge_x(a: Point, b: Point, y: int) -> int
    recommends
        crosses_row(a, b, y),
{
    a.x + trunc_div((y - a.y) * (b.x - a.x), b.y - a.y)
}

/// The interpolated column never leaves the columns that the edge spans.
pub proof fn lemma_edge_x_within(a: Point, b: Point, y: int)
    requires
        crosses_row(a, b, y),
    ensures
        a.x <= b.x ==> a.x <= edge_x(a, b, y) <= b.x,
        b.x <= a.x ==> b.x <= edge_x(a, b, y) <= a.x,
{
    let t = magnitude(y - a.y);
    let d = magnitude(b.y - a.y);
    let w = magnitude(b.x - a.x);
    lemma_scaled_offset(y - a.y, b.x - a.x, b.y - a.y);
    lemma_quotient_bounded(t, w, d);
}

/// `|t * w| == |t| * |w|`, and the sign of `t * w / d` when `t` and `d` have
/// the same sign is the sign of `w`.
proof fn lemma_scaled_offset(t: int, w: int, d: int)
    requires
        d != 0,
        (0 <= t && 0 < d) || (t < 0 && d < 0),
    ensures
        trunc_div(t * w, d) == if w >= 0 {
            (magnitude(t) * magnitude(w)) / magnitude(d)
        } else {
            -((magnitude(t) * magnitude(w)) / magnitude(d))
        },
{
    assert(magnitude(t * w) == magnitude(t) * magnitude(w)) by (nonlinear_arith);
    assert(t == 0 ==> t * w == 0) by (nonlinear_arith);
    assert(w == 0 ==> t * w == 0) by (nonlinear_arith);
    assert(t > 0 && w > 0 ==> t * w > 0) by (nonlinear_arith);
    assert(t > 0 && w < 0 ==> t * w < 0) by (nonlinear_arith);
    assert(t < 0 && w > 0 ==> t * w < 0) by (nonlinear_arith);
    assert(t < 0 && w < 0 ==> t * w > 0) by (nonlinear_arith);
    if t == 0 || w == 0 {
        assert(0int / magnitude(d) == 0) by (nonlinear_arith)
            requires
                magnitude(d) > 0,
        ;
    }
}

/// A fraction `t / d` of at most one, applied to `w`, gives at most `w`.
proof fn lemma_quotient_bounded(t: int, w: int, d: int)
    by (nonlinear_arith)
    requires
        0 <= t <= d,
        0 < d,
        0 <= w,
    ensures
        0 <= (t * w) / d <= w,
        t * w <= d * w,
{
}

/// `|a - b|`, which always fits in 64 bits.
pub(crate) fn distance(a: i32, b: i32) -> (r: u64)
    ensures
        r == magnitude(a - b),
        r <= 0xFFFF_FFFF,
{
    let wide: i64 = a as i64 - b as i64;
    if wide < 0 {
        (-wide) as u64
    } else {
        wide as u64
    }
}

/// Computes the column at which the edge from `a` to `b` meets row `y`.
pub fn intersect_x(a: Point, b: Point, y: i32) -> (x: i32)
    requires
        crosses_row(a, b, y as int),
    ensures
        x == edge_x(a, b, y as int),
{
    let t: u64 = distance(y, a.y);
    let d: u64 = distance(b.y, a.y);
    let w: u64 = distance(b.x, a.x);
    proof {
        assert(t * w <= 0xFFFF_FFFF * 0xFFFF_FFFF) by (nonlinear_arith)
            requires
                0 <= t <= 0xFFFF_FFFF,
                0 <= w <= 0xFFFF_FFFF,
        ;
        lemma_quotient_bounded(t as int, w as int, d as int);
        lemma_scaled_offset(y - a.y, b.x - a.x, b.y - a.y);
    }
    let q: u64 = t * w / d;
    if b.x >= a.x {
        (a.x as i64 + q as i64) as i32
    } else {
        (a.x as i64 - q as i64) as i32
    }
}

} // verus!
