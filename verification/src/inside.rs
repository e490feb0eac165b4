//! The ray-casting test for a point inside a polygon.
//!
//! A ray runs from the point to the right along its row. The point is inside
//! when the ray crosses the boundary an odd number of times.

use vstd::prelude::*;
use crate::geometry::{crosses_row, edge_x, intersect_x, Point};

verus! {

/// The index of the vertex before vertex `i` on a closed polygon of `n`
/// vertices.
pub open spec fn prev_index(n: int, i: int) -> int {
    if i == 0 {
        n - 1
    } else {
        i - 1
    }
}

/// The ray from `(x, y)` to the right crosses the edge between vertex `i`
/// and the vertex before it: the edge crosses row `y`, and meets it, as seen
/// from vertex `i`, to the right of `x`.
pub open spec fn ray_crosses(poly: Seq<Point>, i: int, x: int, y: int) -> bool {
    let a = poly[i];
    let b = poly[prev_index(poly.len() as int, i)];
    crosses_row(a, b, y) && x < edge_x(a, b, y)
}

/// How many of the edges that end at the first `m` vertices the ray from
/// `(x, y)` crosses.
pub open spec fn ray_crossings(poly: Seq<Point>, x: int, y: int, m: int) -> int
    decreases m,
{
    if m <= 0 {
        0
    } else {
        ray_crossings(poly, x, y, m - 1) + if ray_crosses(poly, m - 1, x, y) {
            1int
        } else {
            0int
        }
    }
}

/// `(x, y)` lies inside the polygon: the ray crosses its boundary an odd
/// number of times. Fewer than three vertices enclose nothing.
pub open spec fn inside(poly: Seq<Point>, x: int, y: int) -> bool {
    poly.len() >= 3 && ray_crossings(poly, x, y, poly.len() as int) % 2 == 1
}

/// Whether `p` lies inside the polygon `poly`.
pub fn point_in_polygon(p: Point, poly: &[Point]) -> (r: bool)
    ensures
        r == inside(poly@, p.x as int, p.y as int),
{
    let n: usize = poly.len();
    if n < 3 {
        return false;
    }
    let mut odd: bool = false;
    let mut j: usize = n - 1;
    let mut i: usize = 0;
    while i < n
        invariant
            n == poly@.len(),
            n >= 3,
            i <= n,
            i < n ==> j == prev_index(n as int, i as int),
            odd == (ray_crossings(poly@, p.x as int, p.y as int, i as int) % 2 == 1),
            ray_crossings(poly@, p.x as int, p.y as int, i as int) >= 0,
        decreases n - i,
    {
        let a: Point = poly[i];
        let b: Point = poly[j];
        if (a.y > p.y) != (b.y > p.y) && p.x < intersect_x(a, b, p.y) {
            odd = !odd;
        }
        j = i;
        i = i + 1;
    }
    odd
}

} // verus!
