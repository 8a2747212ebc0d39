//! The in-memory raster buffer shared by the decoder and the renderer.
//!
//! A pixel is kept in its on-disk RGBE form: three color mantissas and the
//! shared exponent byte.  Expanding a pixel to floating-point radiance
//! (`mantissa * 2^(e - 136)`) is left to the unverified caller, since the
//! expansion is pure floating-point arithmetic.

use vstd::prelude::*;

verus! {

/// One pixel of a Radiance picture before exponent expansion: red, green and
/// blue mantissas plus the shared exponent byte.
#[derive(Clone, Copy, Debug, PartialEq, Eq, Structural)]
pub struct Rgbe {
    pub r: u8,
    pub g: u8,
    pub b: u8,
    pub e: u8,
}

/// A dense row-major raster of RGBE pixels.  The pixel for column `x` of row
/// `y` sits at index `x + y * width`.
pub struct RgbeImage {
    pub pixels: Vec<Rgbe>,
    pub width: usize,
    pub height: usize,
}

/// A row-major index stays strictly below `width * height`.
pub proof fn lemma_row_major_index_bound(x: int, y: int, width: int, height: int)
    requires
        0 <= x < width,
        0 <= y < height,
    ensures
        0 <= x + y * width < width * height,
{
    assert(0 <= x + y * width < width * height) by (nonlinear_arith)
        requires
            0 <= x < width,
            0 <= y < height,
    {
    }
}

/// Distinct coordinates of one raster map to distinct row-major indices, so
/// writers of disjoint pixel sets never touch the same slot.
pub proof fn lemma_row_major_index_injective(
    width: int,
    height: int,
    x1: int,
    y1: int,
    x2: int,
    y2: int,
)
    requires
        0 <= x1 < width,
        0 <= y1 < height,
        0 <= x2 < width,
        0 <= y2 < height,
        x1 + y1 * width == x2 + y2 * width,
    ensures
        x1 == x2,
        y1 == y2,
{
    assert(y1 == y2 && x1 == x2) by (nonlinear_arith)
        requires
            0 <= x1 < width,
            0 <= y1 < height,
            0 <= x2 < width,
            0 <= y2 < height,
            x1 + y1 * width == x2 + y2 * width,
    {
    }
}

impl RgbeImage {
    /// The raster is well formed when it holds exactly one pixel per
    /// coordinate of the `width` by `height` grid.
    pub open spec fn wf(self) -> bool {
        self.pixels@.len() == self.width * self.height
    }

    /// The pixel stored for column `x` of row `y`.
    pub open spec fn spec_pixel(self, x: int, y: int) -> Rgbe {
        self.pixels@[x + y * self.width]
    }

    /// A fresh raster with every pixel zeroed.
    pub fn new(width: usize, height: usize) -> (img: RgbeImage)
        requires
            width * height <= usize::MAX,
        ensures
            img.wf(),
            img.width == width,
            img.height == height,
            forall|x: int, y: int|
                0 <= x < width && 0 <= y < height ==> img.spec_pixel(x, y) == (Rgbe {
                    r: 0,
                    g: 0,
                    b: 0,
                    e: 0,
                }),
    {
        let count = width * height;
        let mut pixels: Vec<Rgbe> = Vec::new();
        let mut i: usize = 0;
        while i < count
            invariant
                i <= count,
                pixels@.len() == i,
                forall|k: int| 0 <= k < i ==> pixels@[k] == (Rgbe { r: 0, g: 0, b: 0, e: 0 }),
            decreases count - i,
        {
            pixels.push(Rgbe { r: 0, g: 0, b: 0, e: 0 });
            i = i + 1;
        }
        let img = RgbeImage { pixels, width, height };
        proof {
            assert forall|x: int, y: int|
                0 <= x < width && 0 <= y < height implies img.spec_pixel(x, y) == (Rgbe {
                r: 0,
                g: 0,
                b: 0,
                e: 0,
            }) by {
                lemma_row_major_index_bound(x, y, width as int, height as int);
            }
        }
        img
    }

    /// Overwrites the pixel at (`x`, `y`); every other pixel is kept.
    pub fn set_pixel(&mut self, x: usize, y: usize, color: Rgbe)
        requires
            old(self).wf(),
            x < old(self).width,
            y < old(self).height,
        ensures
            final(self).wf(),
            final(self).width == old(self).width,
            final(self).height == old(self).height,
            final(self).spec_pixel(x as int, y as int) == color,
            forall|i: int, j: int|
                0 <= i < old(self).width && 0 <= j < old(self).height && !(i == x && j == y)
                    ==> final(self).spec_pixel(i, j) == old(self).spec_pixel(i, j),
    {
        proof {
            lemma_row_major_index_bound(x as int, y as int, self.width as int, self.height as int);
        }
        // binding the length bounds it by the machine word, so the index fits
        let len = self.pixels.len();
        let index = x + y * self.width;
        self.pixels[index] = color;
        proof {
            assert forall|i: int, j: int|
                0 <= i < old(self).width && 0 <= j < old(self).height && !(i == x && j == y)
                    implies final(self).spec_pixel(i, j) == old(self).spec_pixel(i, j) by {
                lemma_row_major_index_bound(i, j, self.width as int, self.height as int);
                if i + j * self.width == x + y * self.width {
                    lemma_row_major_index_injective(
                        self.width as int,
                        self.height as int,
                        i,
                        j,
                        x as int,
                        y as int,
                    );
                }
            }
        }
    }

    /// Reads the pixel at (`x`, `y`).
    pub fn get_pixel(&self, x: usize, y: usize) -> (color: Rgbe)
        requires
            self.wf(),
            x < self.width,
            y < self.height,
        ensures
            color == self.spec_pixel(x as int, y as int),
    {
        proof {
            lemma_row_major_index_bound(x as int, y as int, self.width as int, self.height as int);
        }
        // binding the length bounds it by the machine word, so the index fits
        let len = self.pixels.len();
        let index = x + y * self.width;
        self.pixels[index]
    }
}

} // verus!
