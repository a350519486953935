use crate::color::Color;
use vstd::prelude::*;

verus! {

/// An in-memory RGB raster buffer, stored row-major. This is the boundary
/// type the codec produces and consumes; reading or writing an on-disk
/// image format is a caller concern.
pub struct RasterImage {
    width: usize,
    height: usize,
    pixels: Vec<Color>,
}

/// A pixel's row-major position lies inside the buffer.
pub proof fn lemma_row_major_bounds(x: int, y: int, w: int, h: int)
    requires
        0 <= x < w,
        0 <= y < h,
    ensures
        0 <= y * w + x < w * h,
    decreases h,
{
    if y == h - 1 {
        assert(y * w + x < y * w + w);
        assert(y * w + w == h * w) by (nonlinear_arith)
            requires
                y == h - 1,
        ;
        assert(h * w == w * h) by (nonlinear_arith);
        assert(0 <= y * w) by (nonlinear_arith)
            requires
                0 <= y,
                0 < w,
        ;
    } else {
        lemma_row_major_bounds(x, y, w, h - 1);
        assert((h - 1) * w <= h * w && w * (h - 1) == (h - 1) * w && w * h == h * w)
            by (nonlinear_arith)
            requires
                0 < w,
                0 < h,
        ;
    }
}

impl RasterImage {
    pub closed spec fn spec_width(self) -> int {
        self.width as int
    }

    pub closed spec fn spec_height(self) -> int {
        self.height as int
    }

    /// The color stored at column `x`, row `y`.
    pub closed spec fn pixel(self, x: int, y: int) -> Color {
        self.pixels@[y * self.width + x]
    }

    /// The buffer holds exactly one color per coordinate pair.
    pub closed spec fn wf(self) -> bool {
        self.pixels@.len() == self.width * self.height
    }

    /// A buffer of the given dimensions with every pixel set to `fill`.
    pub fn new(width: usize, height: usize, fill: Color) -> (img: RasterImage)
        requires
            width * height <= usize::MAX,
        ensures
            img.wf(),
            img.spec_width() == width,
            img.spec_height() == height,
            forall|x: int, y: int|
                0 <= x < width && 0 <= y < height ==> #[trigger] img.pixel(x, y) == fill,
    {
        let total: usize = width * height;
        let mut pixels: Vec<Color> = Vec::new();
        for i in 0..total
            invariant
                pixels@.len() == i,
                forall|j: int| 0 <= j < i ==> #[trigger] pixels@[j] == fill,
        {
            pixels.push(fill);
        }
        let img = RasterImage { width, height, pixels };
        proof {
            assert forall|x: int, y: int|
                0 <= x < width && 0 <= y < height implies #[trigger] img.pixel(x, y) == fill by {
                lemma_row_major_bounds(x, y, width as int, height as int);
            }
        }
        img
    }

    /// A buffer of the given dimensions over an existing row-major pixel
    /// vector.
    pub fn from_pixels(width: usize, height: usize, pixels: Vec<Color>) -> (img: RasterImage)
        requires
            pixels@.len() == width * height,
        ensures
            img.wf(),
            img.spec_width() == width,
            img.spec_height() == height,
            forall|x: int, y: int|
                0 <= x < width && 0 <= y < height ==> #[trigger] img.pixel(x, y) == pixels@[y
                    * width + x],
    {
        RasterImage { width, height, pixels }
    }

    /// Both dimensions fit the machine word they are stored in.
    pub proof fn lemma_dims_bounded(&self)
        ensures
            0 <= self.spec_width() <= usize::MAX,
            0 <= self.spec_height() <= usize::MAX,
    {
    }

    pub fn width(&self) -> (w: usize)
        ensures
            w == self.spec_width(),
    {
        self.width
    }

    pub fn height(&self) -> (h: usize)
        ensures
            h == self.spec_height(),
    {
        self.height
    }

    pub fn get_pixel(&self, x: usize, y: usize) -> (c: Color)
        requires
            self.wf(),
            x < self.spec_width(),
            y < self.spec_height(),
        ensures
            c == self.pixel(x as int, y as int),
    {
        proof {
            lemma_row_major_bounds(x as int, y as int, self.spec_width(), self.spec_height());
            assert(self.pixels.len() == self.pixels@.len());
        }
        self.pixels[y * self.width + x]
    }

    pub fn set_pixel(&mut self, x: usize, y: usize, c: Color)
        requires
            old(self).wf(),
            x < old(self).spec_width(),
            y < old(self).spec_height(),
        ensures
            final(self).wf(),
            final(self).spec_width() == old(self).spec_width(),
            final(self).spec_height() == old(self).spec_height(),
            final(self).pixel(x as int, y as int) == c,
            forall|x2: int, y2: int|
                0 <= x2 < old(self).spec_width() && 0 <= y2 < old(self).spec_height() && !(x2
                    == x && y2 == y) ==> #[trigger] final(self).pixel(x2, y2) == old(self).pixel(
                    x2,
                    y2,
                ),
    {
        proof {
            lemma_row_major_bounds(x as int, y as int, self.spec_width(), self.spec_height());
            assert(self.pixels.len() == self.pixels@.len());
        }
        let i: usize = y * self.width + x;
        self.pixels[i] = c;
        proof {
            assert forall|x2: int, y2: int|
                0 <= x2 < old(self).spec_width() && 0 <= y2 < old(self).spec_height() && !(x2
                    == x && y2 == y) implies #[trigger] self.pixel(x2, y2) == old(self).pixel(
                x2,
                y2,
            ) by {
                lemma_row_major_bounds(x2, y2, self.spec_width(), self.spec_height());
                if y2 * self.spec_width() + x2 == i {
                    lemma_row_major_distinct(
                        x as int,
                        y as int,
                        x2,
                        y2,
                        self.spec_width(),
                    );
                }
            }
        }
    }

}

/// Distinct coordinate pairs occupy distinct row-major positions.
proof fn lemma_row_major_distinct(x1: int, y1: int, x2: int, y2: int, w: int)
    requires
        0 <= x1 < w,
        0 <= x2 < w,
        0 <= y1,
        0 <= y2,
        !(x1 == x2 && y1 == y2),
    ensures
        y1 * w + x1 != y2 * w + x2,
{
    if y1 == y2 {
    } else {
        assert(y1 * w + x1 != y2 * w + x2) by (nonlinear_arith)
            requires
                0 <= x1 < w,
                0 <= x2 < w,
                y1 != y2,
        ;
    }
}

} // verus!
