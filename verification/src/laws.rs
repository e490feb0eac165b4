//! How the drawing operations relate to one another.

use vstd::prelude::*;
use vstd::relations::sorted_by;
use crate::canvas::{lemma_paint_at, Grid};
use crate::counting::{
    count, count_below, lemma_count_below_rearranged, lemma_count_below_sorted, lemma_count_range,
    lemma_count_rotated, lemma_count_same, lemma_count_split,
};
use crate::fill::{fill_pixels, in_spans, row_crossings, scanline_covers};
use crate::geometry::{crosses_row, edge_x, next_index, Point};
use crate::inside::{inside, prev_index, ray_crosses, ray_crossings};
use crate::outline::outline_pixels;

verus! {

/// Edge `i` of the polygon, from vertex `i` to the vertex after it, cuts row
/// `y`.
pub open spec fn edge_cuts(poly: Seq<Point>, i: int, y: int) -> bool {
    crosses_row(poly[i], poly[next_index(poly.len() as int, i)], y)
}

/// The column at which edge `i` cuts row `y`, interpolated from vertex `i`,
/// as filling does.
pub open spec fn cut_forward(poly: Seq<Point>, i: int, y: int) -> int {
    edge_x(poly[i], poly[next_index(poly.len() as int, i)], y)
}

/// The column at which edge `i` cuts row `y`, interpolated from the vertex
/// after `i`, as the ray test does. Rounding toward the other end, it may
/// differ from the forward cut by one.
pub open spec fn cut_backward(poly: Seq<Point>, i: int, y: int) -> int {
    edge_x(poly[next_index(poly.len() as int, i)], poly[i], y)
}

/// Column `x` touches no edge in row `y`: of every edge that cuts the row it
/// lies strictly to the left of both cuts, or to the right of both, strictly
/// to the right of the forward one.
pub open spec fn clear_of_edges(poly: Seq<Point>, x: int, y: int) -> bool {
    forall|i: int|
        0 <= i < poly.len() && #[trigger] edge_cuts(poly, i, y) ==> (x < cut_forward(poly, i, y)
            && x < cut_backward(poly, i, y)) || (cut_forward(poly, i, y) < x && cut_backward(
            poly,
            i,
            y,
        ) <= x)
}

/// The ray count written as a count over the vertices.
proof fn lemma_ray_crossings_count(poly: Seq<Point>, x: int, y: int, m: int)
    ensures
        ray_crossings(poly, x, y, m) == count(m, |i: int| ray_crosses(poly, i, x, y)),
    decreases m,
{
    if m > 0 {
        lemma_ray_crossings_count(poly, x, y, m - 1);
    }
}

/// The cuts of a row, counted: how many there are, how many lie left of `x`,
/// and that none lies on `x` where `x` is clear of the edges.
proof fn lemma_row_counts(poly: Seq<Point>, x: int, y: int, m: int)
    requires
        0 <= m <= poly.len(),
        clear_of_edges(poly, x, y),
    ensures
        row_crossings(poly, y, m).len() == count(m, |i: int| edge_cuts(poly, i, y)),
        count_below(row_crossings(poly, y, m), x) == count(
            m,
            |i: int| edge_cuts(poly, i, y) && cut_forward(poly, i, y) < x,
        ),
        !row_crossings(poly, y, m).contains(x),
    decreases m,
{
    let row = row_crossings(poly, y, m);
    if m > 0 {
        let before = row_crossings(poly, y, m - 1);
        lemma_row_counts(poly, x, y, m - 1);
        if edge_cuts(poly, m - 1, y) {
            let v = cut_forward(poly, m - 1, y);
            assert(row == before.push(v));
            lemma_count_same(before.len() as int, |k: int| row[k] < x, |k: int| before[k] < x);
            assert(row[before.len() as int] == v);
            assert forall|k: int| 0 <= k < row.len() implies row[k] != x by {
                if k < before.len() {
                    assert(before[k] == row[k]);
                    assert(before.contains(before[k]));
                }
            }
        }
    } else {
        assert(row.len() == 0);
    }
}

/// Going once around a closed polygon, the boundary changes sides of a row
/// an even number of times.
pub proof fn lemma_cuts_are_even(poly: Seq<Point>, y: int)
    requires
        poly.len() >= 1,
    ensures
        count(poly.len() as int, |i: int| edge_cuts(poly, i, y)) % 2 == 0,
{
    let n = poly.len() as int;
    lemma_cuts_parity(poly, y, n - 1);
}

/// After `m` edges the number of cuts is odd exactly when vertex `m` lies on
/// the other side of the row than vertex 0.
proof fn lemma_cuts_parity(poly: Seq<Point>, y: int, m: int)
    requires
        0 <= m < poly.len(),
    ensures
        count(m, |i: int| edge_cuts(poly, i, y)) % 2 == if (poly[0].y > y) != (poly[m].y > y) {
            1int
        } else {
            0int
        },
    decreases m,
{
    if m > 0 {
        lemma_cuts_parity(poly, y, m - 1);
        assert(edge_cuts(poly, m - 1, y) <==> (poly[m - 1].y > y) != (poly[m].y > y));
    }
}

/// In an ascending sequence of even length that does not hold `x`, `x` lies
/// in a span exactly when an odd number of values lie below it.
proof fn lemma_spans_parity(s: Seq<int>, x: int)
    requires
        forall|a: int, b: int| 0 <= a < b < s.len() ==> s[a] <= s[b],
        s.len() % 2 == 0,
        !s.contains(x),
    ensures
        in_spans(s, x) <==> count_below(s, x) % 2 == 1,
{
    let c = count_below(s, x);
    lemma_count_below_sorted(s, x);
    if in_spans(s, x) {
        let e = choose|e: int|
            0 <= e && e + 1 < s.len() && e % 2 == 0 && #[trigger] s[e] <= x && x <= s[e + 1];
        assert(s.contains(s[e]) && s.contains(s[e + 1]));
        assert(s[e] < x && !(s[e + 1] < x));
        assert(c == e + 1);
    }
    if c % 2 == 1 {
        let e = c - 1;
        assert(s[e] < x);
        assert(!(s[c] < x));
        assert(s.contains(s[c]));
        assert(s[e] <= x && x <= s[e + 1]);
    }
}

/// Filling and the ray test agree wherever the pixel touches no edge: on a
/// polygon of three vertices or more, such a pixel is covered by the scanline
/// rule exactly when it lies inside by the ray test. On an edge the two may
/// differ, since a span includes both of its ends and the two round a cut
/// toward different ends of the edge.
pub proof fn lemma_fill_agrees_with_inside(poly: Seq<Point>, x: int, y: int)
    requires
        poly.len() >= 3,
        clear_of_edges(poly, x, y),
    ensures
        scanline_covers(poly, x, y) <==> inside(poly, x, y),
{
    let n = poly.len() as int;
    let row = row_crossings(poly, y, n);
    let s = row.sort();
    let cuts = |i: int| edge_cuts(poly, i, y);
    let left = |i: int| edge_cuts(poly, i, y) && cut_forward(poly, i, y) < x;
    let right = |i: int| edge_cuts(poly, i, y) && x < cut_forward(poly, i, y);
    let right_back = |i: int| edge_cuts(poly, i, y) && x < cut_backward(poly, i, y);
    let ray = |i: int| ray_crosses(poly, i, x, y);

    // What the sorted row says is said by counting the cuts to the left.
    lemma_row_counts(poly, x, y, n);
    row.lemma_sort_ensures();
    vstd::seq_lib::to_multiset_len(row);
    vstd::seq_lib::to_multiset_len(s);
    vstd::seq_lib::to_multiset_contains(row, x);
    vstd::seq_lib::to_multiset_contains(s, x);
    lemma_cuts_are_even(poly, y);
    lemma_count_below_rearranged(s, row, x);
    assert forall|a: int, b: int| 0 <= a < b < s.len() implies s[a] <= s[b] by {
        let leq = |u: int, v: int| u <= v;
        assert(sorted_by(s, leq));
        assert(leq(s[a], s[b]));
    }
    lemma_spans_parity(s, x);
    assert(in_spans(s, x) <==> count(n, left) % 2 == 1);

    // An even number of cuts in all: as many odd to the right as to the left.
    assert forall|i: int| 0 <= i < n implies (#[trigger] cuts(i) <==> left(i) || right(i)) by {
        if edge_cuts(poly, i, y) {
        }
    }
    lemma_count_split(n, cuts, left, right);
    lemma_count_range(n, left);
    lemma_count_range(n, right);
    assert(count(n, left) % 2 == 1 <==> count(n, right) % 2 == 1);

    // Clear of the edges, both roundings put the pixel on the same side.
    assert forall|i: int| 0 <= i < n implies #[trigger] right(i) == right_back(i) by {
        if edge_cuts(poly, i, y) {
        }
    }
    lemma_count_same(n, right, right_back);

    // The ray test asks the same of each edge, named by its other end.
    assert forall|i: int| 0 <= i < n - 1 implies #[trigger] right_back(i) == ray(i + 1) by {
        assert(next_index(n, i) == i + 1);
        assert(prev_index(n, i + 1) == i);
    }
    assert(right_back(n - 1) == ray(0)) by {
        assert(next_index(n, n - 1) == 0);
        assert(prev_index(n, 0) == n - 1);
    }
    lemma_count_rotated(n, ray, right_back);
    lemma_ray_crossings_count(poly, x, y, n);
}

/// A hole takes out of the fill exactly the pixels that lie inside it.
pub proof fn lemma_hole_is_cut_out(poly: Seq<Point>, hole: Seq<Point>)
    ensures
        fill_pixels(poly, Some(hole)) == fill_pixels(poly, None).difference(
            Set::new(|c: (int, int)| inside(hole, c.0, c.1)),
        ),
{
    assert(fill_pixels(poly, Some(hole)) =~= fill_pixels(poly, None).difference(
        Set::new(|c: (int, int)| inside(hole, c.0, c.1)),
    ));
}

/// Away from the edges of the outer polygon, a pixel is filled exactly when it
/// lies inside the outer polygon and not inside the hole.
pub proof fn lemma_fill_with_hole(poly: Seq<Point>, hole: Seq<Point>, x: int, y: int)
    requires
        poly.len() >= 3,
        clear_of_edges(poly, x, y),
    ensures
        fill_pixels(poly, Some(hole)).contains((x, y)) <==> inside(poly, x, y) && !inside(
            hole,
            x,
            y,
        ),
{
    lemma_fill_agrees_with_inside(poly, x, y);
}

/// A polygon of fewer than three vertices fills nothing, encloses nothing,
/// and with fewer than two has no outline.
pub proof fn lemma_degenerate(poly: Seq<Point>, hole: Option<Seq<Point>>)
    requires
        poly.len() < 3,
    ensures
        fill_pixels(poly, hole) == Set::<(int, int)>::empty(),
        forall|x: int, y: int| !inside(poly, x, y),
        poly.len() < 2 ==> outline_pixels(poly) == Set::<(int, int)>::empty(),
{
    assert(fill_pixels(poly, hole) =~= Set::<(int, int)>::empty());
}

/// What shows at a pixel of the grid after painting one region and then
/// another: the second color on the second region, the first color on the
/// rest of the first, and the old color elsewhere.
pub proof fn lemma_paint_over(
    g: Grid,
    first: Set<(int, int)>,
    first_color: u32,
    second: Set<(int, int)>,
    second_color: u32,
    x: int,
    y: int,
)
    requires
        g.wf(),
        g.contains(x, y),
    ensures
        g.paint(first, first_color).paint(second, second_color).at(x, y) == if second.contains(
            (x, y),
        ) {
            second_color
        } else if first.contains((x, y)) {
            first_color
        } else {
            g.at(x, y)
        },
{
    lemma_paint_at(g, first, first_color, x, y);
    lemma_paint_at(g.paint(first, first_color), second, second_color, x, y);
}

/// An outline drawn after the fill shows on every pixel of the boundary.
pub proof fn lemma_outline_over_fill(
    g: Grid,
    poly: Seq<Point>,
    hole: Option<Seq<Point>>,
    fill_color: u32,
    line_color: u32,
    x: int,
    y: int,
)
    requires
        g.wf(),
        g.contains(x, y),
        outline_pixels(poly).contains((x, y)),
    ensures
        g.paint(fill_pixels(poly, hole), fill_color).paint(outline_pixels(poly), line_color).at(
            x,
            y,
        ) == line_color,
{
    lemma_paint_over(g, fill_pixels(poly, hole), fill_color, outline_pixels(poly), line_color, x, y);
}

/// A fill painted after the outline covers the boundary wherever it reaches
/// it: there the fill color shows, and the outline color only on the rest of
/// the boundary.
pub proof fn lemma_fill_over_outline(
    g: Grid,
    poly: Seq<Point>,
    hole: Option<Seq<Point>>,
    fill_color: u32,
    line_color: u32,
    x: int,
    y: int,
)
    requires
        g.wf(),
        g.contains(x, y),
        outline_pixels(poly).contains((x, y)),
    ensures
        g.paint(outline_pixels(poly), line_color).paint(fill_pixels(poly, hole), fill_color).at(
            x,
            y,
        ) == if fill_pixels(poly, hole).contains((x, y)) {
            fill_color
        } else {
            line_color
        },
{
    lemma_paint_over(g, outline_pixels(poly), line_color, fill_pixels(poly, hole), fill_color, x, y);
}

} // verus!
