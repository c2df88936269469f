//! A decoded RGBA raster, owned by the library.
//!
//! The surrounding I/O layer decodes an image file into plain pixel values
//! and hands them over in this form; the library never touches encoded
//! image data.

use vstd::prelude::*;

use crate::color::Color;

verus! {

/// One RGBA sample with 8-bit channels; alpha 255 is fully opaque.
#[derive(Clone, Copy, PartialEq, Eq, Structural, Debug)]
pub struct Rgba {
    pub r: u8,
    pub g: u8,
    pub b: u8,
    pub a: u8,
}

impl Rgba {
    pub fn new(r: u8, g: u8, b: u8, a: u8) -> (p: Rgba)
        ensures
            p == (Rgba { r, g, b, a }),
    {
        Rgba { r, g, b, a }
    }

    /// The color channels without alpha.
    pub open spec fn rgb(self) -> Color {
        Color { r: self.r, g: self.g, b: self.b }
    }
}

/// A width x height grid of RGBA samples in row-major order.
pub struct Raster {
    width: usize,
    height: usize,
    pixels: Vec<Rgba>,
}

impl Raster {
    pub closed spec fn spec_width(self) -> int {
        self.width as int
    }

    pub closed spec fn spec_height(self) -> int {
        self.height as int
    }

    /// The sample at column `x`, row `y`.
    pub closed spec fn pixel_at(self, x: int, y: int) -> Rgba {
        self.pixels@[y * self.spec_width() + x]
    }

    /// The pixel store holds exactly one sample per grid cell.
    pub closed spec fn wf(self) -> bool {
        self.pixels@.len() == self.spec_width() * self.spec_height()
    }

    /// A fresh raster with every sample equal to `fill`.
    pub fn new(width: usize, height: usize, fill: Rgba) -> (r: Raster)
        requires
            width * height <= usize::MAX,
        ensures
            r.wf(),
            r.spec_width() == width,
            r.spec_height() == height,
            forall|x: int, y: int|
                0 <= x < width && 0 <= y < height ==> #[trigger] r.pixel_at(x, y) == fill,
    {
        let n = width * height;
        let mut pixels: Vec<Rgba> = Vec::new();
        let mut i: usize = 0;
        while i < n
            invariant
                i <= n,
                pixels@.len() == i,
                forall|j: int| 0 <= j < i ==> pixels@[j] == fill,
            decreases n - i,
        {
            pixels.push(fill);
            i += 1;
        }
        let r = Raster { width, height, pixels };
        proof {
            assert forall|x: int, y: int|
                0 <= x < width && 0 <= y < height implies #[trigger] r.pixel_at(x, y) == fill by {
                lemma_index_in_range(width as int, height as int, x, y);
            }
        }
        r
    }

    /// A raster over an existing row-major pixel vector.
    pub fn from_pixels(width: usize, height: usize, pixels: Vec<Rgba>) -> (r: Raster)
        requires
            pixels@.len() == width * height,
        ensures
            r.wf(),
            r.spec_width() == width,
            r.spec_height() == height,
            forall|x: int, y: int|
                0 <= x < width && 0 <= y < height ==> #[trigger] r.pixel_at(x, y) == pixels@[y
                    * width + x],
    {
        Raster { width, height, pixels }
    }

    /// The number of pixels, `width * height`.
    pub fn pixel_count(&self) -> (n: usize)
        requires
            self.wf(),
        ensures
            n == self.spec_width() * self.spec_height(),
    {
        self.pixels.len()
    }

    pub fn width(&self) -> (w: usize)
        ensures
            w == self.spec_width(),
    {
        self.width
    }

    pub fn height(&self) -> (h: usize)
        ensures
            h == self.spec_height(),
    {
        self.height
    }

    pub fn get_pixel(&self, x: usize, y: usize) -> (p: Rgba)
        requires
            self.wf(),
            x < self.spec_width(),
            y < self.spec_height(),
        ensures
            p == self.pixel_at(x as int, y as int),
    {
        let _n = self.pixels.len();
        proof {
            lemma_index_in_range(self.spec_width(), self.spec_height(), x as int, y as int);
        }
        self.pixels[y * self.width + x]
    }

    pub fn set_pixel(&mut self, x: usize, y: usize, p: Rgba)
        requires
            old(self).wf(),
            x < old(self).spec_width(),
            y < old(self).spec_height(),
        ensures
            final(self).wf(),
            final(self).spec_width() == old(self).spec_width(),
            final(self).spec_height() == old(self).spec_height(),
            final(self).pixel_at(x as int, y as int) == p,
            forall|i: int, j: int|
                0 <= i < final(self).spec_width() && 0 <= j < final(self).spec_height() && !(i == x
                    && j == y) ==> #[trigger] final(self).pixel_at(i, j) == old(self).pixel_at(
                    i,
                    j,
                ),
    {
        let _n = self.pixels.len();
        proof {
            lemma_index_in_range(self.spec_width(), self.spec_height(), x as int, y as int);
        }
        let idx = y * self.width + x;
        self.pixels.set(idx, p);
        proof {
            assert forall|i: int, j: int|
                0 <= i < self.spec_width() && 0 <= j < self.spec_height() && !(i == x && j
                    == y) implies #[trigger] self.pixel_at(i, j) == old(self).pixel_at(i, j) by {
                lemma_index_in_range(self.spec_width(), self.spec_height(), i, j);
                lemma_distinct_cells(self.spec_width(), x as int, y as int, i, j);
            }
        }
    }
}

/// A cell of the grid indexes into the row-major pixel store.
proof fn lemma_index_in_range(w: int, h: int, x: int, y: int)
    requires
        0 <= x < w,
        0 <= y < h,
    ensures
        0 <= y * w + x < w * h,
{
    assert(y * w + x < w * h) by (nonlinear_arith)
        requires
            0 <= x < w,
            0 <= y < h,
    ;
}

/// Distinct cells have distinct row-major indices.
proof fn lemma_distinct_cells(w: int, x: int, y: int, i: int, j: int)
    requires
        0 <= x < w,
        0 <= i < w,
        !(i == x && j == y),
    ensures
        j * w + i != y * w + x,
{
    assert(j * w + i != y * w + x) by (nonlinear_arith)
        requires
            0 <= x < w,
            0 <= i < w,
            !(i == x && j == y),
    ;
}

} // verus!
