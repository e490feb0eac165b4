//! Scanline filling of a polygon, with an optional hole.
//!
//! Each pixel row is cut by the edges of the polygon. The columns of the cuts,
//! in ascending order and taken two by two, bound the spans of the row that
//! lie inside. A pixel of a span is painted unless it lies inside the hole.

use vstd::prelude::*;
use vstd::relations::{sorted_by, total_ordering};
use vstd::seq_lib::lemma_sorted_unique;
use crate::canvas::{lemma_paint_again, lemma_paint_nothing, lemma_paint_on_grid, Canvas};
use crate::geometry::{crosses_row, edge_x, intersect_x, next_index, next_vertex, Point};
use crate::inside::{inside, point_in_polygon};

verus! {

/// The columns at which the first `m` edges of the polygon cut row `y`, in
/// the order of the edges. Edge `i` runs from vertex `i` to the vertex after
/// it, the last edge back to the first vertex.
pub open spec fn row_crossings(poly: Seq<Point>, y: int, m: int) -> Seq<int>
    decreases m,
{
    if m <= 0 {
        Seq::empty()
    } else {
        let before = row_crossings(poly, y, m - 1);
        let a = poly[m - 1];
        let b = poly[next_index(poly.len() as int, m - 1)];
        if crosses_row(a, b, y) {
            before.push(edge_x(a, b, y))
        } else {
            before
        }
    }
}

/// `x` lies in one of the spans that `s` bounds: from `s[0]` to `s[1]`, from
/// `s[2]` to `s[3]` and so on, both ends included. A last bound without a
/// partner bounds nothing.
pub open spec fn in_spans(s: Seq<int>, x: int) -> bool {
    exists|e: int| 0 <= e && e + 1 < s.len() && e % 2 == 0 && #[trigger] s[e] <= x && x <= s[e + 1]
}

/// The scanline rule: `(x, y)` lies in a span of row `y` of the polygon.
/// Fewer than three vertices enclose nothing.
pub open spec fn scanline_covers(poly: Seq<Point>, x: int, y: int) -> bool {
    poly.len() >= 3 && in_spans(row_crossings(poly, y, poly.len() as int).sort(), x)
}

/// `(x, y)` lies inside the hole, if there is one.
pub open spec fn in_hole(hole: Option<Seq<Point>>, x: int, y: int) -> bool {
    hole matches Some(h) && inside(h, x, y)
}

/// The pixels that filling the polygon paints: those that the scanline rule
/// covers and that do not lie inside the hole.
pub open spec fn fill_pixels(poly: Seq<Point>, hole: Option<Seq<Point>>) -> Set<(int, int)> {
    Set::new(|c: (int, int)| scanline_covers(poly, c.0, c.1) && !in_hole(hole, c.0, c.1))
}

/// The vertices of the hole, if there is one.
pub open spec fn hole_view(hole: Option<&[Point]>) -> Option<Seq<Point>> {
    match hole {
        Some(h) => Some(h@),
        None => None,
    }
}

/// The values of `s` as mathematical integers.
spec fn as_ints(s: Seq<i32>) -> Seq<int> {
    s.map_values(|v: i32| v as int)
}

/// The order in which the columns of a row are sorted.
spec fn ascending() -> spec_fn(int, int) -> bool {
    |a: int, b: int| a <= b
}

/// A sequence that is in ascending order and holds what `s` holds is `s`
/// sorted.
proof fn lemma_is_sorted(s: Seq<int>, t: Seq<int>)
    requires
        sorted_by(t, ascending()),
        t.to_multiset() == s.to_multiset(),
    ensures
        t == s.sort(),
{
    s.lemma_sort_ensures();
    assert(total_ordering(ascending()));
    assert(sorted_by(s.sort(), ascending()));
    lemma_sorted_unique(t, s.sort(), ascending());
}

/// The columns at which the edges of the polygon cut row `y`.
fn row_intersections(points: &[Point], y: i32) -> (xs: Vec<i32>)
    ensures
        as_ints(xs@) == row_crossings(points@, y as int, points@.len() as int),
{
    let n: usize = points.len();
    let mut xs: Vec<i32> = Vec::new();
    let mut i: usize = 0;
    while i < n
        invariant
            n == points@.len(),
            i <= n,
            as_ints(xs@) =~= row_crossings(points@, y as int, i as int),
        decreases n - i,
    {
        let a: Point = points[i];
        let b: Point = points[next_vertex(n, i)];
        if (a.y <= y && b.y > y) || (b.y <= y && a.y > y) {
            let x: i32 = intersect_x(a, b, y);
            xs.push(x);
        }
        i = i + 1;
    }
    xs
}

/// The values of `v` in ascending order.
fn sort_ascending(v: &Vec<i32>) -> (out: Vec<i32>)
    ensures
        as_ints(out@) == as_ints(v@).sort(),
{
    let mut out: Vec<i32> = Vec::new();
    let mut k: usize = 0;
    assert(as_ints(out@) =~= as_ints(v@.take(0)));
    while k < v.len()
        invariant
            k <= v@.len(),
            out@.len() == k,
            forall|a: int, b: int| 0 <= a < b < out@.len() ==> out@[a] <= out@[b],
            as_ints(out@).to_multiset() == as_ints(v@.take(k as int)).to_multiset(),
        decreases v@.len() - k,
    {
        let x: i32 = v[k];
        let mut at: usize = 0;
        while at < out.len() && out[at] <= x
            invariant
                at <= out@.len(),
                forall|m: int| 0 <= m < at ==> out@[m] <= x,
            decreases out@.len() - at,
        {
            at = at + 1;
        }
        proof {
            let before = out@;
            let after = out@.insert(at as int, x);
            assert(as_ints(after) =~= as_ints(before).insert(at as int, x as int));
            vstd::seq_lib::to_multiset_insert(as_ints(before), at as int, x as int);
            assert(as_ints(v@.take(k + 1)) =~= as_ints(v@.take(k as int)).push(x as int));
            vstd::seq_lib::to_multiset_build(as_ints(v@.take(k as int)), x as int);
            assert forall|a: int, b: int| 0 <= a < b < after.len() implies after[a] <= after[b] by {
                let origin = |m: int| if m < at { m } else { m - 1 };
                if a != at {
                    assert(after[a] == before[origin(a)]);
                }
                if b != at {
                    assert(after[b] == before[origin(b)]);
                }
                if at < before.len() {
                    assert(before[at as int] > x);
                }
            }
        }
        out.insert(at, x);
        k = k + 1;
    }
    proof {
        assert(v@.take(k as int) =~= v@);
        assert(sorted_by(as_ints(out@), ascending()));
        lemma_is_sorted(as_ints(v@), as_ints(out@));
    }
    out
}

/// The pixels of row `y` from column `lo` to column `hi` that do not lie
/// inside the hole.
spec fn span_pixels(lo: int, hi: int, y: int, hole: Option<Seq<Point>>) -> Set<(int, int)> {
    Set::new(|c: (int, int)| c.1 == y && lo <= c.0 <= hi && !in_hole(hole, c.0, c.1))
}

/// The pixels of row `y` that lie in one of the spans of `s` that start
/// before index `m`, and not inside the hole.
spec fn row_pixels(s: Seq<int>, m: int, y: int, hole: Option<Seq<Point>>) -> Set<(int, int)> {
    Set::new(|c: (int, int)| c.1 == y && in_spans(s.take(m), c.0) && !in_hole(hole, c.0, c.1))
}

/// The pixels of the fill that lie in rows before row `y`.
spec fn rows_before(poly: Seq<Point>, hole: Option<Seq<Point>>, y: int) -> Set<(int, int)> {
    Set::new(|c: (int, int)| c.1 < y && fill_pixels(poly, hole).contains(c))
}

/// No edge cuts a row that has all vertices on one side.
proof fn lemma_row_clear(poly: Seq<Point>, y: int, m: int)
    requires
        0 <= m <= poly.len(),
        (forall|i: int| 0 <= i < poly.len() ==> (#[trigger] poly[i]).y <= y) || (forall|i: int|
            0 <= i < poly.len() ==> (#[trigger] poly[i]).y > y),
    ensures
        row_crossings(poly, y, m) == Seq::<int>::empty(),
    decreases m,
{
    if m > 0 {
        lemma_row_clear(poly, y, m - 1);
        let a = poly[m - 1];
        let b = poly[next_index(poly.len() as int, m - 1)];
        assert(!crosses_row(a, b, y));
    }
}

/// The scanline rule covers no pixel of a row that has all vertices on one
/// side: on it or above, or strictly below. So the rows of the fill reach
/// from the first row of the polygon to the row before its last.
pub proof fn lemma_row_uncovered(poly: Seq<Point>, x: int, y: int)
    requires
        (forall|i: int| 0 <= i < poly.len() ==> (#[trigger] poly[i]).y <= y) || (forall|i: int|
            0 <= i < poly.len() ==> (#[trigger] poly[i]).y > y),
    ensures
        !scanline_covers(poly, x, y),
{
    let row = row_crossings(poly, y, poly.len() as int);
    lemma_row_clear(poly, y, poly.len() as int);
    row.lemma_sort_ensures();
    vstd::seq_lib::to_multiset_len(row);
    vstd::seq_lib::to_multiset_len(row.sort());
}

/// The least and the greatest row of the vertices.
fn vertical_extent(points: &[Point]) -> (r: (i32, i32))
    ensures
        forall|i: int| 0 <= i < points@.len() ==> r.0 <= (#[trigger] points@[i]).y <= r.1,
{
    let mut ymin: i32 = i32::MAX;
    let mut ymax: i32 = i32::MIN;
    let mut i: usize = 0;
    while i < points.len()
        invariant
            i <= points@.len(),
            forall|m: int| 0 <= m < i ==> ymin <= (#[trigger] points@[m]).y <= ymax,
        decreases points@.len() - i,
    {
        let p: Point = points[i];
        if p.y < ymin {
            ymin = p.y;
        }
        if p.y > ymax {
            ymax = p.y;
        }
        i = i + 1;
    }
    (ymin, ymax)
}

/// Paints the pixels of row `y` from column `start` to column `end` that lie
/// on the canvas and not inside the hole.
fn fill_span(
    canvas: &mut Canvas,
    start: i32,
    end: i32,
    y: i32,
    color: u32,
    hole: Option<&[Point]>,
)
    ensures
        final(canvas)@ == old(canvas)@.paint(
            span_pixels(start as int, end as int, y as int, hole_view(hole)),
            color,
        ),
{
    let ghost model = hole_view(hole);
    let mut x: i64 = start as i64;
    proof {
        lemma_paint_nothing(canvas@, color);
        assert(span_pixels(start as int, start - 1, y as int, model) =~= Set::empty());
    }
    while x <= end as i64
        invariant
            start <= x,
            x <= end + 1 || x == start,
            model == hole_view(hole),
            canvas@ == old(canvas)@.paint(span_pixels(start as int, x - 1, y as int, model), color),
        decreases end + 1 - x,
    {
        let p: Point = Point { x: x as i32, y };
        let ghost done = span_pixels(start as int, x - 1, y as int, model);
        let ghost next = span_pixels(start as int, x as int, y as int, model);
        if canvas.contains(p) {
            let skip: bool = match hole {
                Some(h) => point_in_polygon(p, h),
                None => false,
            };
            if !skip {
                canvas.plot(p, color);
                proof {
                    lemma_paint_again(old(canvas)@, done, set![(x as int, y as int)], color);
                    assert(done.union(set![(x as int, y as int)]) =~= next);
                }
            } else {
                assert(done =~= next);
            }
        } else {
            proof {
                assert(old(canvas)@.paint(done, color).wf());
                assert(old(canvas)@.wf());
                lemma_paint_on_grid(old(canvas)@, done, next, color);
            }
        }
        x = x + 1;
    }
    proof {
        assert(span_pixels(start as int, x - 1, y as int, model) =~= span_pixels(
            start as int,
            end as int,
            y as int,
            model,
        ));
    }
}

/// Paints the spans of row `y` that the sorted columns `xs` bound.
fn fill_row(canvas: &mut Canvas, xs: &Vec<i32>, y: i32, color: u32, hole: Option<&[Point]>)
    ensures
        final(canvas)@ == old(canvas)@.paint(
            row_pixels(as_ints(xs@), xs@.len() as int, y as int, hole_view(hole)),
            color,
        ),
{
    let ghost model = hole_view(hole);
    let ghost s = as_ints(xs@);
    let n: usize = xs.len();
    let mut i: usize = 0;
    proof {
        lemma_paint_nothing(canvas@, color);
        assert(row_pixels(s, 0, y as int, model) =~= Set::empty());
    }
    while n - i >= 2
        invariant
            n == xs@.len(),
            i <= n,
            i % 2 == 0,
            s == as_ints(xs@),
            model == hole_view(hole),
            canvas@ == old(canvas)@.paint(row_pixels(s, i as int, y as int, model), color),
        decreases n - i,
    {
        let start: i32 = xs[i];
        let end: i32 = xs[i + 1];
        fill_span(canvas, start, end, y, color, hole);
        proof {
            let done = row_pixels(s, i as int, y as int, model);
            let span = span_pixels(start as int, end as int, y as int, model);
            let next = row_pixels(s, i + 2, y as int, model);
            lemma_paint_again(old(canvas)@, done, span, color);
            assert forall|c: (int, int)| done.union(span).contains(c) <==> next.contains(c) by {
                lemma_spans_grow(s, i as int, c.0);
            }
            assert(done.union(span) =~= next);
        }
        i = i + 2;
    }
    proof {
        assert forall|c: (int, int)|
            row_pixels(s, i as int, y as int, model).contains(c) <==> row_pixels(
                s,
                n as int,
                y as int,
                model,
            ).contains(c) by {
            if i < n {
                lemma_spans_odd(s, i as int, c.0);
            } else {
                assert(s.take(i as int) =~= s.take(n as int));
            }
        }
        assert(row_pixels(s, i as int, y as int, model) =~= row_pixels(s, n as int, y as int, model));
    }
}

/// Two more bounds add the span between them.
proof fn lemma_spans_grow(s: Seq<int>, m: int, x: int)
    requires
        0 <= m,
        m + 2 <= s.len(),
        m % 2 == 0,
    ensures
        in_spans(s.take(m + 2), x) <==> in_spans(s.take(m), x) || s[m] <= x <= s[m + 1],
{
    let short = s.take(m);
    let long = s.take(m + 2);
    if in_spans(short, x) {
        let e = choose|e: int|
            0 <= e && e + 1 < short.len() && e % 2 == 0 && #[trigger] short[e] <= x && x <= short[e
                + 1];
        assert(long[e] <= x && x <= long[e + 1]);
    }
    if s[m] <= x <= s[m + 1] {
        assert(long[m] <= x && x <= long[m + 1]);
    }
    if in_spans(long, x) {
        let e = choose|e: int|
            0 <= e && e + 1 < long.len() && e % 2 == 0 && #[trigger] long[e] <= x && x <= long[e
                + 1];
        if e < m {
            assert(short[e] <= x && x <= short[e + 1]);
        }
    }
}

/// A last bound without a partner adds no span.
proof fn lemma_spans_odd(s: Seq<int>, m: int, x: int)
    requires
        0 <= m,
        m + 1 == s.len(),
        m % 2 == 0,
    ensures
        in_spans(s.take(m + 1), x) <==> in_spans(s.take(m), x),
{
    let short = s.take(m);
    let long = s.take(m + 1);
    if in_spans(short, x) {
        let e = choose|e: int|
            0 <= e && e + 1 < short.len() && e % 2 == 0 && #[trigger] short[e] <= x && x <= short[e
                + 1];
        assert(long[e] <= x && x <= long[e + 1]);
    }
    if in_spans(long, x) {
        let e = choose|e: int|
            0 <= e && e + 1 < long.len() && e % 2 == 0 && #[trigger] long[e] <= x && x <= long[e
                + 1];
        assert(short[e] <= x && x <= short[e + 1]);
    }
}

/// Fills the polygon `points` with `color`, row by row, leaving out the
/// pixels inside `hole`. Pixels off the canvas are skipped. No outline is
/// drawn, and a polygon of fewer than three vertices paints nothing.
pub fn fill_polygon(canvas: &mut Canvas, points: &[Point], color: u32, hole: Option<&[Point]>)
    ensures
        final(canvas)@ == old(canvas)@.paint(fill_pixels(points@, hole_view(hole)), color),
{
    let ghost poly = points@;
    let ghost model = hole_view(hole);
    if points.len() < 3 {
        proof {
            lemma_paint_nothing(canvas@, color);
            assert(fill_pixels(poly, model) =~= Set::empty());
        }
        return ;
    }
    let (ymin, ymax) = vertical_extent(points);
    let mut y: i64 = ymin as i64;
    proof {
        assert(ymin <= poly[0].y <= ymax);
        lemma_paint_nothing(canvas@, color);
        assert forall|c: (int, int)| !rows_before(poly, model, ymin as int).contains(c) by {
            if c.1 < ymin {
                lemma_row_uncovered(poly, c.0, c.1);
            }
        }
        assert(rows_before(poly, model, ymin as int) =~= Set::empty());
    }
    while y <= ymax as i64
        invariant
            poly == points@,
            model == hole_view(hole),
            poly.len() >= 3,
            ymin <= y <= ymax + 1,
            forall|i: int| 0 <= i < poly.len() ==> ymin <= (#[trigger] poly[i]).y <= ymax,
            canvas@ == old(canvas)@.paint(rows_before(poly, model, y as int), color),
        decreases ymax + 1 - y,
    {
        let row: Vec<i32> = row_intersections(points, y as i32);
        let xs: Vec<i32> = sort_ascending(&row);
        fill_row(canvas, &xs, y as i32, color, hole);
        proof {
            let s = as_ints(xs@);
            let done = rows_before(poly, model, y as int);
            let this = row_pixels(s, xs@.len() as int, y as int, model);
            assert(s.take(xs@.len() as int) =~= s);
            lemma_paint_again(old(canvas)@, done, this, color);
            assert(done.union(this) =~= rows_before(poly, model, y + 1));
        }
        y = y + 1;
    }
    proof {
        assert forall|c: (int, int)|
            rows_before(poly, model, y as int).contains(c) <==> fill_pixels(poly, model).contains(
                c,
            ) by {
            if c.1 >= y {
                lemma_row_uncovered(poly, c.0, c.1);
            }
        }
        assert(rows_before(poly, model, y as int) =~= fill_pixels(poly, model));
    }
}

} // verus!
