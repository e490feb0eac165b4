//! Handing a finished canvas to the `image` crate, which can encode it.
//!
//! A color is packed into the low 24 bits of a `u32`: red in bits 16 to 23,
//! green in bits 8 to 15, blue in bits 0 to 7.

use vstd::prelude::*;
use crate::canvas::{lemma_index_pixel, lemma_pixel_index, Canvas, Grid};

verus! {

/// An `image::RgbImage`, the image buffer of the `image` crate with three
/// channels of eight bits to the pixel. The verifier does not look inside:
/// what it knows of a picture is what the functions below state over
/// [`image_pixels`].
#[verifier::external_body]
pub struct Picture {
    pub image: image::RgbImage,
}

/// What a picture holds: for each of its pixels, by column and row, the red,
/// green and blue channel. The pixels are those of its width and height.
pub uninterp spec fn image_pixels(img: Picture) -> Map<(int, int), (u8, u8, u8)>;

/// The pixels of an image of `width` by `height`.
pub open spec fn frame(width: int, height: int) -> Set<(int, int)> {
    Set::new(|c: (int, int)| 0 <= c.0 < width && 0 <= c.1 < height)
}

/// The red channel of a packed color.
pub open spec fn red(color: u32) -> u8 {
    ((color >> 16) & 0xFF) as u8
}

/// The green channel of a packed color.
pub open spec fn green(color: u32) -> u8 {
    ((color >> 8) & 0xFF) as u8
}

/// The blue channel of a packed color.
pub open spec fn blue(color: u32) -> u8 {
    (color & 0xFF) as u8
}

/// `image::ImageBuffer::new`: an image of `width` by `height` pixels with
/// every channel zero. The call panics where the three bytes for each pixel
/// do not fit in one allocation, which `requires` rules out.
#[verifier::external_body]
fn blank_image(width: u32, height: u32) -> (img: Picture)
    requires
        3 * (width * height) <= isize::MAX,
    ensures
        image_pixels(img).dom() == frame(width as int, height as int),
        forall|c: (int, int)|
            image_pixels(img).dom().contains(c) ==> #[trigger] image_pixels(img)[c] == (
                0u8,
                0u8,
                0u8,
            ),
{
    Picture { image: image::ImageBuffer::new(width, height) }
}

/// `image::ImageBuffer::put_pixel` with an `image::Rgb` made of the three
/// channels: the pixel in column `x` of row `y` becomes `(r, g, b)`, every
/// other pixel stays. The call panics for a pixel outside the image, which
/// `requires` rules out.
#[verifier::external_body]
fn put_rgb(img: &mut Picture, x: u32, y: u32, r: u8, g: u8, b: u8)
    requires
        image_pixels(*old(img)).dom().contains((x as int, y as int)),
    ensures
        image_pixels(*final(img)) == image_pixels(*old(img)).insert(
            (x as int, y as int),
            (r, g, b),
        ),
{
    img.image.put_pixel(x, y, image::Rgb([r, g, b]));
}

/// The image shows the grid: it has the pixels of the grid, each with the
/// three channels of its color.
pub open spec fn shows(pixels: Map<(int, int), (u8, u8, u8)>, g: Grid) -> bool {
    &&& pixels.dom() == frame(g.width as int, g.height as int)
    &&& forall|x: int, y: int|
        g.contains(x, y) ==> #[trigger] pixels[(x, y)] == (
            red(g.at(x, y)),
            green(g.at(x, y)),
            blue(g.at(x, y)),
        )
}

/// The width and height of the grid fit an image, and its bytes one
/// allocation.
pub open spec fn fits_image(g: Grid) -> bool {
    g.width <= u32::MAX && g.height <= u32::MAX && 3 * (g.width * g.height) <= isize::MAX
}

/// The canvas as an image of the `image` crate, or `None` where it is too
/// large for one.
pub fn to_rgb_image(canvas: &Canvas) -> (r: Option<Picture>)
    ensures
        r is Some <==> fits_image(canvas@),
        r matches Some(img) ==> shows(image_pixels(img), canvas@),
{
    let width: usize = canvas.width();
    let height: usize = canvas.height();
    let cells: &[u32] = canvas.pixels();
    if width > u32::MAX as usize || height > u32::MAX as usize {
        return None;
    }
    if cells.len() > (isize::MAX as usize) / 3 {
        return None;
    }
    let ghost g = canvas@;
    let mut img = blank_image(width as u32, height as u32);
    let mut i: usize = 0;
    while i < cells.len()
        invariant
            g == canvas@,
            g.wf(),
            cells@ == g.cells,
            width == g.width,
            height == g.height,
            width <= u32::MAX,
            height <= u32::MAX,
            i <= cells@.len(),
            image_pixels(img).dom() == frame(width as int, height as int),
            forall|k: int|
                0 <= k < i ==> #[trigger] image_pixels(img)[g.pixel_of(k)] == (
                    red(g.cells[k]),
                    green(g.cells[k]),
                    blue(g.cells[k]),
                ),
        decreases cells@.len() - i,
    {
        proof {
            lemma_index_pixel(g, i as int);
            assert forall|k: int| 0 <= k < i implies g.pixel_of(k) != g.pixel_of(i as int) by {
                lemma_index_pixel(g, k);
            }
        }
        let color: u32 = cells[i];
        let x: u32 = (i % width) as u32;
        let y: u32 = (i / width) as u32;
        proof {
            assert(((color >> 16) & 0xFF) <= 0xFF) by (bit_vector);
            assert(((color >> 8) & 0xFF) <= 0xFF) by (bit_vector);
            assert((color & 0xFF) <= 0xFF) by (bit_vector);
        }
        let r: u8 = ((color >> 16) & 0xFF) as u8;
        let gr: u8 = ((color >> 8) & 0xFF) as u8;
        let b: u8 = (color & 0xFF) as u8;
        put_rgb(&mut img, x, y, r, gr, b);
        i = i + 1;
    }
    proof {
        assert forall|x: int, y: int| g.contains(x, y) implies #[trigger] image_pixels(img)[(x, y)]
            == (red(g.at(x, y)), green(g.at(x, y)), blue(g.at(x, y))) by {
            lemma_pixel_index(g, x, y);
        }
    }
    Some(img)
}

} // verus!
