//! The pixel grid that every drawing operation writes into.

use vstd::prelude::*;
use vstd::arithmetic::div_mod::lemma_fundamental_div_mod_converse;
use crate::geometry::Point;

verus! {

/// The mathematical model of a canvas: `width * height` colors, row after
/// row, the pixel in column `x` of row `y` at index `y * width + x`.
pub struct Grid {
    pub width: nat,
    pub height: nat,
    pub cells: Seq<u32>,
}

impl Grid {
    /// There is one cell for each pixel.
    pub open spec fn wf(self) -> bool {
        self.cells.len() == self.width * self.height
    }

    /// Column `x` of row `y` lies on the grid.
    pub open spec fn contains(self, x: int, y: int) -> bool {
        0 <= x < self.width && 0 <= y < self.height
    }

    /// The color of the pixel in column `x` of row `y`.
    pub open spec fn at(self, x: int, y: int) -> u32
        recommends
            self.contains(x, y),
    {
        self.cells[y * self.width + x]
    }

    /// The pixel that is stored at index `i`, as (column, row).
    pub open spec fn pixel_of(self, i: int) -> (int, int) {
        (i % (self.width as int), i / (self.width as int))
    }

    /// A grid of one color.
    pub open spec fn solid(width: nat, height: nat, color: u32) -> Grid {
        Grid { width, height, cells: Seq::new(width * height, |i: int| color) }
    }

    /// The grid with every pixel of `region` set to `color`. Pixels of the
    /// region that lie off the grid change nothing.
    pub open spec fn paint(self, region: Set<(int, int)>, color: u32) -> Grid {
        Grid {
            width: self.width,
            height: self.height,
            cells: Seq::new(
                self.cells.len(),
                |i: int|
                    if region.contains(self.pixel_of(i)) {
                        color
                    } else {
                        self.cells[i]
                    },
            ),
        }
    }
}

/// Row-major indexing is a bijection between the pixels of a grid and the
/// indices of its cells.
pub proof fn lemma_pixel_index(g: Grid, x: int, y: int)
    requires
        g.wf(),
        g.contains(x, y),
    ensures
        0 <= y * g.width + x < g.cells.len(),
        g.pixel_of(y * g.width + x) == (x, y),
{
    let w = g.width as int;
    let h = g.height as int;
    assert(y * w + x < w * h) by (nonlinear_arith)
        requires
            0 <= x < w,
            0 <= y < h,
    ;
    assert(0 <= y * w) by (nonlinear_arith)
        requires
            0 <= y,
            0 <= w,
    ;
    lemma_fundamental_div_mod_converse(y * w + x, w, y, x);
}

/// Row `y` starts at index `y * w`, and all of it lies before `w * h`.
proof fn lemma_row_start(y: int, w: int, h: int)
    by (nonlinear_arith)
    requires
        0 <= y < h,
        0 <= w,
    ensures
        0 <= y * w,
        y * w + w <= w * h,
{
}

/// Every cell of a grid holds a pixel of the grid.
pub proof fn lemma_index_pixel(g: Grid, i: int)
    requires
        g.wf(),
        0 <= i < g.cells.len(),
    ensures
        g.contains(g.pixel_of(i).0, g.pixel_of(i).1),
        g.pixel_of(i).1 * g.width + g.pixel_of(i).0 == i,
{
    let w = g.width as int;
    let h = g.height as int;
    assert(w > 0) by (nonlinear_arith)
        requires
            0 <= i < w * h,
            w >= 0,
    ;
    assert(0 <= i % w < w && 0 <= i / w < h && (i / w) * w + i % w == i) by (nonlinear_arith)
        requires
            0 <= i < w * h,
            w > 0,
    ;
}

/// What painting does to each pixel of the grid.
pub proof fn lemma_paint_at(g: Grid, region: Set<(int, int)>, color: u32, x: int, y: int)
    requires
        g.wf(),
        g.contains(x, y),
    ensures
        g.paint(region, color).at(x, y) == if region.contains((x, y)) {
            color
        } else {
            g.at(x, y)
        },
{
    lemma_pixel_index(g, x, y);
}

/// Painting no pixel leaves the grid as it was.
pub proof fn lemma_paint_nothing(g: Grid, color: u32)
    ensures
        g.paint(Set::empty(), color) == g,
{
    assert(g.paint(Set::empty(), color).cells =~= g.cells);
}

/// Painting two regions with one color, one after the other, paints their
/// union.
pub proof fn lemma_paint_again(g: Grid, first: Set<(int, int)>, second: Set<(int, int)>, color: u32)
    ensures
        g.paint(first, color).paint(second, color) == g.paint(first.union(second), color),
{
    assert(g.paint(first, color).paint(second, color).cells =~= g.paint(
        first.union(second),
        color,
    ).cells);
}

/// Two regions that hold the same pixels of the grid paint it alike.
pub proof fn lemma_paint_on_grid(g: Grid, a: Set<(int, int)>, b: Set<(int, int)>, color: u32)
    requires
        g.wf(),
        forall|x: int, y: int| g.contains(x, y) ==> (a.contains((x, y)) <==> b.contains((x, y))),
    ensures
        g.paint(a, color) == g.paint(b, color),
{
    assert forall|i: int| 0 <= i < g.cells.len() implies g.paint(a, color).cells[i] == g.paint(
        b,
        color,
    ).cells[i] by {
        lemma_index_pixel(g, i);
    }
    assert(g.paint(a, color).cells =~= g.paint(b, color).cells);
}

/// A rectangular grid of colors, stored row after row.
pub struct Canvas {
    width: usize,
    height: usize,
    pixels: Vec<u32>,
}

impl View for Canvas {
    type V = Grid;

    closed spec fn view(&self) -> Grid {
        Grid { width: self.width as nat, height: self.height as nat, cells: self.pixels@ }
    }
}

impl Canvas {
    #[verifier::type_invariant]
    spec fn well_formed(&self) -> bool {
        self.pixels.len() == self.width * self.height
    }

    /// A canvas of `width` by `height` pixels, all of them `background`, or
    /// `None` where the four bytes for each pixel do not fit in one
    /// allocation.
    pub fn new(width: usize, height: usize, background: u32) -> (r: Option<Canvas>)
        ensures
            r is Some <==> 4 * (width * height) <= isize::MAX,
            r matches Some(c) ==> c@ == Grid::solid(width as nat, height as nat, background),
    {
        match width.checked_mul(height) {
            Some(n) => {
                if n > (isize::MAX as usize) / 4 {
                    return None;
                }
                let pixels = vec![background; n];
                let c = Canvas { width, height, pixels };
                assert(c@.cells =~= Grid::solid(width as nat, height as nat, background).cells);
                Some(c)
            },
            None => None,
        }
    }

    /// The number of columns.
    pub fn width(&self) -> (w: usize)
        ensures
            w == self@.width,
            self@.wf(),
    {
        proof {
            use_type_invariant(self);
        }
        self.width
    }

    /// The number of rows.
    pub fn height(&self) -> (h: usize)
        ensures
            h == self@.height,
            self@.wf(),
    {
        proof {
            use_type_invariant(self);
        }
        self.height
    }

    /// The colors of all pixels, row after row.
    pub fn pixels(&self) -> (cells: &[u32])
        ensures
            cells@ == self@.cells,
            self@.wf(),
    {
        proof {
            use_type_invariant(self);
        }
        self.pixels.as_slice()
    }

    /// Whether `p` lies on the canvas.
    pub fn contains(&self, p: Point) -> (b: bool)
        ensures
            b == self@.contains(p.x as int, p.y as int),
            self@.wf(),
    {
        proof {
            use_type_invariant(self);
        }
        p.x >= 0 && p.y >= 0 && (p.x as usize) < self.width && (p.y as usize) < self.height
    }

    /// The color at `p`, or `None` where `p` lies off the canvas.
    pub fn get(&self, p: Point) -> (r: Option<u32>)
        ensures
            r == if self@.contains(p.x as int, p.y as int) {
                Some(self@.at(p.x as int, p.y as int))
            } else {
                None
            },
    {
        if self.contains(p) {
            proof {
                use_type_invariant(self);
                lemma_pixel_index(self@, p.x as int, p.y as int);
                lemma_row_start(p.y as int, self.width as int, self.height as int);
            }
            Some(self.pixels[p.y as usize * self.width + p.x as usize])
        } else {
            None
        }
    }

    /// Writes `color` at `p`. A point off the canvas is dropped silently.
    pub fn plot(&mut self, p: Point, color: u32)
        ensures
            final(self)@ == old(self)@.paint(set![(p.x as int, p.y as int)], color),
            final(self)@.wf(),
    {
        proof {
            use_type_invariant(&*self);
        }
        if self.contains(p) {
            proof {
                lemma_pixel_index(self@, p.x as int, p.y as int);
                lemma_row_start(p.y as int, self.width as int, self.height as int);
            }
            let i: usize = p.y as usize * self.width + p.x as usize;
            self.pixels[i] = color;
            proof {
                let before = old(self)@;
                let after = before.paint(set![(p.x as int, p.y as int)], color);
                assert forall|k: int| 0 <= k < before.cells.len() implies self@.cells[k]
                    == after.cells[k] by {
                    lemma_index_pixel(before, k);
                }
                assert(self@.cells =~= after.cells);
            }
        } else {
            proof {
                let before = old(self)@;
                let after = before.paint(set![(p.x as int, p.y as int)], color);
                assert forall|k: int| 0 <= k < before.cells.len() implies before.cells[k]
                    == after.cells[k] by {
                    lemma_index_pixel(before, k);
                }
                assert(self@.cells =~= after.cells);
            }
        }
    }
}

} // verus!
