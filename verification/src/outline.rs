//! The closed boundary of a polygon, edge by edge.

use vstd::prelude::*;
use crate::canvas::{lemma_paint_again, lemma_paint_nothing, Canvas};
use crate::geometry::{next_index, next_vertex, Point};
use crate::line::{draw_line, line_pixels};

verus! {

/// The pixels of edge `i` of the polygon: the line from vertex `i` to the
/// vertex after it, the last edge leading back to the first vertex.
pub open spec fn edge_pixels(poly: Seq<Point>, i: int) -> Set<(int, int)> {
    line_pixels(poly[i], poly[next_index(poly.len() as int, i)])
}

/// The pixels of the first `m` edges of the polygon.
pub open spec fn outline_prefix(poly: Seq<Point>, m: int) -> Set<(int, int)> {
    Set::new(
        |c: (int, int)| exists|i: int| 0 <= i < m && #[trigger] edge_pixels(poly, i).contains(c),
    )
}

/// The pixels of all edges of the polygon. A polygon of fewer than two
/// vertices has no edge.
pub open spec fn outline_pixels(poly: Seq<Point>) -> Set<(int, int)> {
    if poly.len() < 2 {
        Set::empty()
    } else {
        outline_prefix(poly, poly.len() as int)
    }
}

/// Draws every edge of the polygon in `color`, the edge from the last vertex
/// back to the first included. Nothing is filled, and a polygon of fewer than
/// two vertices draws nothing.
pub fn draw_polygon_outline(canvas: &mut Canvas, points: &[Point], color: u32)
    ensures
        final(canvas)@ == old(canvas)@.paint(outline_pixels(points@), color),
{
    let n: usize = points.len();
    proof {
        lemma_paint_nothing(canvas@, color);
        assert(outline_prefix(points@, 0) =~= Set::empty());
    }
    if n < 2 {
        return ;
    }
    let mut i: usize = 0;
    while i < n
        invariant
            n == points@.len(),
            i <= n,
            canvas@ == old(canvas)@.paint(outline_prefix(points@, i as int), color),
        decreases n - i,
    {
        let a: Point = points[i];
        let b: Point = points[next_vertex(n, i)];
        draw_line(canvas, a, b, color);
        proof {
            lemma_paint_again(
                old(canvas)@,
                outline_prefix(points@, i as int),
                edge_pixels(points@, i as int),
                color,
            );
            assert(outline_prefix(points@, i as int).union(edge_pixels(points@, i as int))
                =~= outline_prefix(points@, i + 1));
        }
        i = i + 1;
    }
}

} // verus!
