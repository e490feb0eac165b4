//! Straight lines on the pixel grid.
//!
//! A line from `start` to `end` takes `n = max(|dx|, |dy|)` steps. After `k` of
//! them it stands on the point of the ideal segment at `k / n` of the way,
//! each coordinate rounded to the nearest integer, a half rounding away from
//! `start`. The walk in [`draw_line`] and [`rasterize`] finds these pixels with
//! an error accumulator, using additions and comparisons only.

use vstd::prelude::*;
use vstd::arithmetic::div_mod::{
    lemma_fundamental_div_mod, lemma_fundamental_div_mod_converse, lemma_mod_bound,
};
use crate::canvas::{lemma_paint_again, lemma_paint_nothing, Canvas};
use crate::geometry::{distance, magnitude, Point};

verus! {

/// The integer nearest to `a / n`, a half rounded up.
pub open spec fn round_div(a: int, n: int) -> int
    recommends
        0 <= a,
        0 < n,
{
    (2 * a + n) / (2 * n)
}

/// The coordinate that lies `offset` away from `from`, on the side of `to`.
pub open spec fn toward(from: int, to: int, offset: int) -> int {
    if from < to {
        from + offset
    } else {
        from - offset
    }
}

/// The number of steps from `start` to `end`: the larger of the two extents.
pub open spec fn line_steps(start: Point, end: Point) -> int {
    let dx = magnitude(end.x - start.x);
    let dy = magnitude(end.y - start.y);
    if dx >= dy {
        dx
    } else {
        dy
    }
}

/// The pixel on which the line from `start` to `end` stands after `k` steps.
pub open spec fn line_pixel(start: Point, end: Point, k: int) -> (int, int)
    recommends
        0 <= k <= line_steps(start, end),
{
    let n = line_steps(start, end);
    if n == 0 {
        (start.x as int, start.y as int)
    } else {
        (
            toward(start.x as int, end.x as int, round_div(k * magnitude(end.x - start.x), n)),
            toward(start.y as int, end.y as int, round_div(k * magnitude(end.y - start.y), n)),
        )
    }
}

/// The pixels of the line from `start` to `end`, in the order of the walk.
pub open spec fn line_path(start: Point, end: Point) -> Seq<(int, int)> {
    Seq::new((line_steps(start, end) + 1) as nat, |k: int| line_pixel(start, end, k))
}

/// The pixels that the first `m` positions of the walk cover.
pub open spec fn line_prefix(start: Point, end: Point, m: int) -> Set<(int, int)> {
    Set::new(|c: (int, int)| exists|k: int| 0 <= k < m && #[trigger] line_pixel(start, end, k) == c)
}

/// The set of pixels of the line from `start` to `end`, both ends included.
pub open spec fn line_pixels(start: Point, end: Point) -> Set<(int, int)> {
    line_prefix(start, end, line_steps(start, end) + 1)
}

/// `round_div(a, n)` is the one integer `r` with `r - 1/2 <= a / n < r + 1/2`.
pub proof fn lemma_round_div_bounds(a: int, n: int)
    requires
        0 < n,
    ensures
        2 * (round_div(a, n) * n) <= 2 * a + n < 2 * (round_div(a, n) * n) + 2 * n,
{
    let x = 2 * a + n;
    let d = 2 * n;
    let q = x / d;
    lemma_fundamental_div_mod(x, d);
    lemma_mod_bound(x, d);
    assert(d * q == 2 * (q * n)) by (nonlinear_arith)
        requires
            d == 2 * n,
    ;
}

/// The converse: the bounds single out the rounded quotient.
pub proof fn lemma_round_div_is(a: int, n: int, r: int)
    requires
        0 < n,
        2 * (r * n) <= 2 * a + n < 2 * (r * n) + 2 * n,
    ensures
        round_div(a, n) == r,
{
    let x = 2 * a + n;
    let d = 2 * n;
    assert(r * d == 2 * (r * n)) by (nonlinear_arith)
        requires
            d == 2 * n,
    ;
    lemma_fundamental_div_mod_converse(x, d, r, x - r * d);
}

/// The offset along an axis after `m` steps lies between nothing and `m`, and
/// never exceeds the extent `d` of the axis.
proof fn lemma_offset_range(m: int, d: int, n: int)
    requires
        0 <= m <= n,
        0 <= d <= n,
        0 < n,
    ensures
        0 <= round_div(m * d, n) <= m,
        round_div(m * d, n) <= d,
{
    let r = round_div(m * d, n);
    lemma_round_div_bounds(m * d, n);
    assert(0 <= m * d <= n * d && m * d <= m * n) by (nonlinear_arith)
        requires
            0 <= m <= n,
            0 <= d <= n,
    ;
    assert(0 <= r <= m && r <= d) by (nonlinear_arith)
        requires
            -n < 2 * (r * n),
            2 * (r * n) <= 2 * (n * d) + n,
            2 * (r * n) <= 2 * (m * n) + n,
            0 < n,
    ;
}

/// Along the longer axis the walk advances by one in every step.
proof fn lemma_major_axis(k: int, n: int)
    requires
        0 < n,
    ensures
        round_div(k * n, n) == k,
{
    lemma_round_div_is(k * n, n, k);
}

/// Along the shorter axis, of extent `d <= n`, a step advances by one or not
/// at all, and which of the two is decided by comparing the next ideal
/// position with the middle between this pixel and the next.
proof fn lemma_minor_axis(k: int, d: int, n: int)
    requires
        0 <= k,
        0 <= d <= n,
        0 < n,
    ensures
        ({
            let r = round_div(k * d, n);
            let r2 = round_div((k + 1) * d, n);
            &&& (k + 1) * d == k * d + d
            &&& (r + 1) * n == r * n + n
            &&& 2 * (r * n) <= 2 * (k * d) + n < 2 * (r * n) + 2 * n
            &&& r2 == if 2 * (r * n) + 2 * n <= 2 * (k * d) + 2 * d + n {
                r + 1
            } else {
                r
            }
        }),
{
    let r = round_div(k * d, n);
    lemma_round_div_bounds(k * d, n);
    assert((k + 1) * d == k * d + d) by (nonlinear_arith);
    assert((r + 1) * n == r * n + n) by (nonlinear_arith);
    assert((r + 2) * n == r * n + 2 * n) by (nonlinear_arith);
    if 2 * (r * n) + 2 * n <= 2 * (k * d) + 2 * d + n {
        lemma_round_div_is((k + 1) * d, n, r + 1);
    } else {
        lemma_round_div_is((k + 1) * d, n, r);
    }
}

/// One step of the walk. With `i` and `j` the offsets reached after `k`
/// steps and `err == (j + 1) * adx - (i + 1) * ady`, comparing `2 * err` with
/// the two extents tells which coordinates advance, and `err` changes by the
/// extent of the other axis for each coordinate that does.
proof fn lemma_walk_step(k: int, adx: int, ady: int)
    requires
        0 <= adx,
        0 <= ady,
        0 < adx || 0 < ady,
        0 <= k < (if adx >= ady { adx } else { ady }),
    ensures
        ({
            let n = if adx >= ady { adx } else { ady };
            let i = round_div(k * adx, n);
            let j = round_div(k * ady, n);
            let i2 = round_div((k + 1) * adx, n);
            let j2 = round_div((k + 1) * ady, n);
            let err = (j + 1) * adx - (i + 1) * ady;
            let err2 = (j2 + 1) * adx - (i2 + 1) * ady;
            &&& 0 <= i <= k
            &&& 0 <= j <= k
            &&& -2 * n <= err <= 2 * n
            &&& i2 == if 2 * err >= -ady { i + 1 } else { i }
            &&& j2 == if 2 * err <= adx { j + 1 } else { j }
            &&& err2 == err - (if 2 * err >= -ady { ady } else { 0 })
                + (if 2 * err <= adx { adx } else { 0 })
            &&& adx >= ady ==> i == k && i2 == k + 1
            &&& adx < ady ==> j == k && j2 == k + 1
            &&& i2 <= adx
            &&& j2 <= ady
        }),
{
    let n = if adx >= ady { adx } else { ady };
    let i = round_div(k * adx, n);
    let j = round_div(k * ady, n);
    lemma_minor_axis(k, adx, n);
    lemma_minor_axis(k, ady, n);
    lemma_major_axis(k, n);
    lemma_major_axis(k + 1, n);
    lemma_offset_range(k, adx, n);
    lemma_offset_range(k, ady, n);
    lemma_offset_range(k + 1, adx, n);
    lemma_offset_range(k + 1, ady, n);
    assert((j + 1) * adx == j * adx + adx) by (nonlinear_arith);
    assert((i + 1) * ady == i * ady + ady) by (nonlinear_arith);
    assert((j + 2) * adx == j * adx + 2 * adx) by (nonlinear_arith);
    assert((i + 2) * ady == i * ady + 2 * ady) by (nonlinear_arith);
}

/// The pixels that a line covers are the pixels of its path.
pub proof fn lemma_line_pixels_are_path(start: Point, end: Point)
    ensures
        line_pixels(start, end) == line_path(start, end).to_set(),
{
    let path = line_path(start, end);
    assert forall|c: (int, int)| line_pixels(start, end).contains(c) implies path.to_set().contains(
        c,
    ) by {
        let k = choose|k: int|
            0 <= k < line_steps(start, end) + 1 && #[trigger] line_pixel(start, end, k) == c;
        assert(path[k] == c);
    }
    assert forall|c: (int, int)| path.to_set().contains(c) implies line_pixels(start, end).contains(
        c,
    ) by {
        let k = choose|k: int| 0 <= k < path.len() && path[k] == c;
        assert(line_pixel(start, end, k) == c);
    }
    assert(line_pixels(start, end) =~= path.to_set());
}

/// The walk starts on `start`.
pub proof fn lemma_line_start(start: Point, end: Point)
    ensures
        line_pixel(start, end, 0) == start@,
{
    let n = line_steps(start, end);
    if n > 0 {
        assert(0 * magnitude(end.x - start.x) == 0 && 0 * magnitude(end.y - start.y) == 0)
            by (nonlinear_arith);
        assert(0 * n == 0) by (nonlinear_arith);
        lemma_round_div_is(0, n, 0);
    }
}

/// The walk ends on `end`.
pub proof fn lemma_line_end(start: Point, end: Point)
    ensures
        line_pixel(start, end, line_steps(start, end)) == end@,
{
    let n = line_steps(start, end);
    let dx = magnitude(end.x - start.x);
    let dy = magnitude(end.y - start.y);
    if n > 0 {
        assert(n * dx == dx * n && n * dy == dy * n) by (nonlinear_arith);
        lemma_round_div_is(n * dx, n, dx);
        lemma_round_div_is(n * dy, n, dy);
    }
}

/// Before its last step the walk has not reached `end`: along the longer axis
/// it stands `k` away from `start`.
pub proof fn lemma_line_underway(start: Point, end: Point, k: int)
    requires
        0 <= k < line_steps(start, end),
    ensures
        line_pixel(start, end, k) != end@,
{
    let n = line_steps(start, end);
    lemma_major_axis(k, n);
}

/// Each step moves to one of the eight neighbours: by one along the longer
/// axis, and by one or not at all along the other.
pub proof fn lemma_line_connected(start: Point, end: Point, k: int)
    requires
        0 <= k < line_steps(start, end),
    ensures
        ({
            let here = line_pixel(start, end, k);
            let next = line_pixel(start, end, k + 1);
            let dx = magnitude(next.0 - here.0);
            let dy = magnitude(next.1 - here.1);
            &&& dx <= 1
            &&& dy <= 1
            &&& magnitude(end.x - start.x) >= magnitude(end.y - start.y) ==> dx == 1
            &&& magnitude(end.x - start.x) <= magnitude(end.y - start.y) ==> dy == 1
        }),
{
    lemma_walk_step(k, magnitude(end.x - start.x), magnitude(end.y - start.y));
    if magnitude(end.x - start.x) == magnitude(end.y - start.y) {
        lemma_major_axis(k, line_steps(start, end));
        lemma_major_axis(k + 1, line_steps(start, end));
    }
}

/// A walk along a line: the pixel it stands on, the direction and extent along
/// each axis, and the error term that decides the next step.
struct Walk {
    x: i32,
    y: i32,
    sx: i32,
    sy: i32,
    adx: i64,
    ady: i64,
    err: i64,
}

impl Walk {
    /// The walk from `start` to `end` has made `k` steps.
    spec fn at(self, start: Point, end: Point, k: int) -> bool {
        let n = line_steps(start, end);
        let i = round_div(k * magnitude(end.x - start.x), n);
        let j = round_div(k * magnitude(end.y - start.y), n);
        &&& 0 <= k <= n
        &&& self.adx == magnitude(end.x - start.x)
        &&& self.ady == magnitude(end.y - start.y)
        &&& self.sx == if start.x < end.x { 1int } else { -1int }
        &&& self.sy == if start.y < end.y { 1int } else { -1int }
        &&& (self.x as int, self.y as int) == line_pixel(start, end, k)
        &&& n > 0 ==> self.err == (j + 1) * self.adx - (i + 1) * self.ady
    }

    fn begin(start: Point, end: Point) -> (w: Walk)
        ensures
            w.at(start, end, 0),
    {
        let adx: i64 = distance(end.x, start.x) as i64;
        let ady: i64 = distance(end.y, start.y) as i64;
        proof {
            lemma_line_start(start, end);
            let n = line_steps(start, end);
            if n > 0 {
                assert(0 * magnitude(end.x - start.x) == 0 && 0 * magnitude(end.y - start.y) == 0)
                    by (nonlinear_arith);
                assert(0 * n == 0) by (nonlinear_arith);
                lemma_round_div_is(0, n, 0);
                assert((0 + 1) * (adx as int) == adx && (0 + 1) * (ady as int) == ady)
                    by (nonlinear_arith);
            }
        }
        Walk {
            x: start.x,
            y: start.y,
            sx: if start.x < end.x { 1 } else { -1 },
            sy: if start.y < end.y { 1 } else { -1 },
            adx,
            ady,
            err: adx - ady,
        }
    }

    fn advance(&mut self, Ghost(start): Ghost<Point>, Ghost(end): Ghost<Point>, Ghost(k): Ghost<int>)
        requires
            old(self).at(start, end, k),
            k < line_steps(start, end),
        ensures
            final(self).at(start, end, k + 1),
    {
        proof {
            lemma_walk_step(k, self.adx as int, self.ady as int);
        }
        let e2: i64 = 2 * self.err;
        if e2 >= -self.ady {
            self.err = self.err - self.ady;
            self.x = self.x + self.sx;
        }
        if e2 <= self.adx {
            self.err = self.err + self.adx;
            self.y = self.y + self.sy;
        }
    }
}

/// The pixels of the line from `start` to `end`, in the order of the walk: `start`
/// first, `end` last.
pub fn rasterize(start: Point, end: Point) -> (path: Vec<Point>)
    ensures
        path@.map_values(|p: Point| p@) == line_path(start, end),
{
    let mut path: Vec<Point> = Vec::new();
    let mut walk = Walk::begin(start, end);
    let ghost mut k: int = 0;
    loop
        invariant_except_break
            walk.at(start, end, k),
            path@.len() == k,
            forall|m: int| 0 <= m < k ==> (#[trigger] path@[m])@ == line_pixel(start, end, m),
        ensures
            path@.len() == line_steps(start, end) + 1,
            forall|m: int| 0 <= m < path@.len() ==> (#[trigger] path@[m])@ == line_pixel(start, end, m),
        decreases line_steps(start, end) - k,
    {
        path.push(Point { x: walk.x, y: walk.y });
        if walk.x == end.x && walk.y == end.y {
            proof {
                if k < line_steps(start, end) {
                    lemma_line_underway(start, end, k);
                }
            }
            break ;
        }
        proof {
            lemma_line_end(start, end);
        }
        walk.advance(Ghost(start), Ghost(end), Ghost(k));
        proof {
            k = k + 1;
        }
    }
    assert(path@.map_values(|p: Point| p@) =~= line_path(start, end));
    path
}

/// Draws the line from `start` to `end` in `color`, both ends included. The walk
/// covers the whole line; its pixels off the canvas are skipped.
pub fn draw_line(canvas: &mut Canvas, start: Point, end: Point, color: u32)
    ensures
        final(canvas)@ == old(canvas)@.paint(line_pixels(start, end), color),
{
    let mut walk = Walk::begin(start, end);
    let ghost mut k: int = 0;
    proof {
        assert(line_prefix(start, end, 0) =~= Set::empty());
        lemma_paint_nothing(canvas@, color);
    }
    loop
        invariant_except_break
            walk.at(start, end, k),
            canvas@ == old(canvas)@.paint(line_prefix(start, end, k), color),
        ensures
            canvas@ == old(canvas)@.paint(line_pixels(start, end), color),
        decreases line_steps(start, end) - k,
    {
        canvas.plot(Point { x: walk.x, y: walk.y }, color);
        proof {
            let here = line_pixel(start, end, k);
            lemma_paint_again(old(canvas)@, line_prefix(start, end, k), set![here], color);
            assert(line_prefix(start, end, k).union(set![here]) =~= line_prefix(start, end, k + 1));
        }
        if walk.x == end.x && walk.y == end.y {
            proof {
                if k < line_steps(start, end) {
                    lemma_line_underway(start, end, k);
                }
            }
            break ;
        }
        proof {
            lemma_line_end(start, end);
        }
        walk.advance(Ghost(start), Ghost(end), Ghost(k));
        proof {
            k = k + 1;
        }
    }
}

/// `a / n` lies exactly halfway between two integers.
pub open spec fn halfway(a: int, n: int) -> bool
    recommends
        0 < n,
{
    (2 * a + n) % (2 * n) == 0
}

/// After `k` steps the ideal segment from `start` to `end` passes exactly between
/// two pixels, so that the walk has to break a tie.
pub open spec fn on_tie(start: Point, end: Point, k: int) -> bool {
    let n = line_steps(start, end);
    n > 0 && (halfway(k * magnitude(end.x - start.x), n) || halfway(k * magnitude(end.y - start.y), n))
}

/// The walk from `start` to `end` never has to break a tie.
pub open spec fn tie_free(start: Point, end: Point) -> bool {
    forall|k: int| 0 <= k <= line_steps(start, end) ==> !#[trigger] on_tie(start, end, k)
}

/// Seen from the two ends of an axis of extent `d`, the offsets after `k`
/// and after `n - k` steps add up to `d`, but on a tie, where both have
/// rounded away from their own start and overshoot by one.
proof fn lemma_offsets_meet(k: int, d: int, n: int)
    requires
        0 <= k <= n,
        0 <= d,
        0 < n,
    ensures
        round_div(k * d, n) + round_div((n - k) * d, n) == if halfway(k * d, n) {
            d + 1
        } else {
            d
        },
{
    let r = round_div(k * d, n);
    lemma_round_div_bounds(k * d, n);
    lemma_fundamental_div_mod(2 * (k * d) + n, 2 * n);
    assert((2 * n) * r == 2 * (r * n)) by (nonlinear_arith);
    assert((n - k) * d == d * n - k * d) by (nonlinear_arith);
    assert((d - r) * n == d * n - r * n) by (nonlinear_arith);
    assert((d + 1 - r) * n == d * n + n - r * n) by (nonlinear_arith);
    if halfway(k * d, n) {
        lemma_round_div_is((n - k) * d, n, d + 1 - r);
    } else {
        lemma_round_div_is((n - k) * d, n, d - r);
    }
}

/// Walking back from `end` visits the pixel that the walk from `start` visits at
/// the same distance from `start`, wherever that walk did not break a tie.
pub proof fn lemma_line_reversed_at(start: Point, end: Point, k: int)
    requires
        0 <= k <= line_steps(start, end),
        !on_tie(start, end, k),
    ensures
        line_pixel(end, start, line_steps(start, end) - k) == line_pixel(start, end, k),
{
    let n = line_steps(start, end);
    if n > 0 {
        lemma_offsets_meet(k, magnitude(end.x - start.x), n);
        lemma_offsets_meet(k, magnitude(end.y - start.y), n);
    }
}

/// On a tie the two walks part: each has rounded away from its own start.
pub proof fn lemma_line_reversed_on_tie(start: Point, end: Point, k: int)
    requires
        0 <= k <= line_steps(start, end),
        on_tie(start, end, k),
    ensures
        line_pixel(end, start, line_steps(start, end) - k) != line_pixel(start, end, k),
{
    let n = line_steps(start, end);
    lemma_offsets_meet(k, magnitude(end.x - start.x), n);
    lemma_offsets_meet(k, magnitude(end.y - start.y), n);
}

/// A line without ties covers the same pixels in both directions.
pub proof fn lemma_line_symmetric(start: Point, end: Point)
    requires
        tie_free(start, end),
    ensures
        line_pixels(end, start) == line_pixels(start, end),
{
    let n = line_steps(start, end);
    assert forall|c: (int, int)| line_pixels(start, end).contains(c) implies line_pixels(
        end,
        start,
    ).contains(c) by {
        let k = choose|k: int| 0 <= k < n + 1 && #[trigger] line_pixel(start, end, k) == c;
        assert(!on_tie(start, end, k));
        lemma_line_reversed_at(start, end, k);
        assert(line_pixel(end, start, n - k) == c);
    }
    assert forall|c: (int, int)| line_pixels(end, start).contains(c) implies line_pixels(
        start,
        end,
    ).contains(c) by {
        let m = choose|m: int| 0 <= m < n + 1 && #[trigger] line_pixel(end, start, m) == c;
        assert(!on_tie(start, end, n - m));
        lemma_line_reversed_at(start, end, n - m);
        assert(line_pixel(start, end, n - m) == c);
    }
    assert(line_pixels(end, start) =~= line_pixels(start, end));
}

} // verus!
