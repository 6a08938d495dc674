//! In-memory raster images: a pixel buffer in row-major order.

use vstd::prelude::*;
use vstd::pervasive::VecAdditionalExecFns;
use crate::geometry::Rect;

verus! {

/// One pixel: red, green, blue and alpha intensities.
#[derive(Clone, Copy, PartialEq, Eq, Structural, Debug)]
pub struct Rgba8 {
    pub r: u8,
    pub g: u8,
    pub b: u8,
    pub a: u8,
}

/// The channel of a pixel selected by index: red, green, blue, then alpha.
pub open spec fn chan(p: Rgba8, c: int) -> u8 {
    if c == 0 {
        p.r
    } else if c == 1 {
        p.g
    } else if c == 2 {
        p.b
    } else {
        p.a
    }
}

impl Rgba8 {
    /// The channel selected by index: red, green, blue, then alpha.
    pub fn channel(&self, c: usize) -> (v: u8)
        ensures
            v == chan(*self, c as int),
    {
        if c == 0 {
            self.r
        } else if c == 1 {
            self.g
        } else if c == 2 {
            self.b
        } else {
            self.a
        }
    }
}

/// A non-empty raster image whose pixels are stored row by row.
pub struct Image {
    pub width: u32,
    pub height: u32,
    pub pixels: Vec<Rgba8>,
}

impl Image {
    /// The buffer holds one pixel per coordinate, both dimensions are
    /// non-zero, and the total pixel count fits the area arithmetic.
    pub open spec fn wf(self) -> bool {
        &&& self.pixels@.len() == self.width * self.height
        &&& 1 <= self.width
        &&& 1 <= self.height
        &&& self.width * self.height <= u32::MAX
    }

    /// The pixel at a coordinate, read from the row-major buffer.
    pub open spec fn pix(self, x: int, y: int) -> Rgba8 {
        self.pixels@[y * self.width + x]
    }

    pub open spec fn in_bounds(self, x: int, y: int) -> bool {
        0 <= x < self.width && 0 <= y < self.height
    }

    /// The region lies entirely inside the image.
    pub open spec fn contains_rect(self, r: Rect) -> bool {
        r.wf() && r.right < self.width && r.bottom < self.height
    }

    /// A fresh image with every pixel set to one fill color.
    pub fn new_filled(width: u32, height: u32, fill: Rgba8) -> (img: Image)
        requires
            1 <= width,
            1 <= height,
            width * height <= u32::MAX,
        ensures
            img.wf(),
            img.width == width,
            img.height == height,
            forall|x: int, y: int| img.in_bounds(x, y) ==> img.pix(x, y) == fill,
    {
        let n: usize = (width as usize) * (height as usize);
        let mut pixels: Vec<Rgba8> = Vec::new();
        let mut i: usize = 0;
        while i < n
            invariant
                i <= n,
                n == width * height,
                pixels@.len() == i,
                forall|k: int| 0 <= k < i ==> pixels@[k] == fill,
            decreases n - i,
        {
            pixels.push(fill);
            i = i + 1;
        }
        let img = Image { width, height, pixels };
        proof {
            assert forall|x: int, y: int| img.in_bounds(x, y) implies img.pix(x, y) == fill by {
                lemma_row_major_index(width as int, height as int, x, y);
            }
        }
        img
    }

    /// An image over a caller-supplied buffer; rejected unless the dimensions
    /// are non-zero, the area fits the arithmetic, and the buffer length
    /// matches.
    pub fn from_pixels(width: u32, height: u32, pixels: Vec<Rgba8>) -> (res: Option<Image>)
        ensures
            match res {
                Some(img) => {
                    &&& img.wf()
                    &&& img.width == width
                    &&& img.height == height
                    &&& img.pixels == pixels
                    &&& 1 <= width
                    &&& 1 <= height
                    &&& width * height <= u32::MAX
                    &&& pixels@.len() == width * height
                },
                None => !(1 <= width && 1 <= height && width * height <= u32::MAX
                    && pixels@.len() == width * height),
            },
    {
        if width == 0 || height == 0 {
            return None;
        }
        proof {
            assert(width * height <= u32::MAX * u32::MAX) by (nonlinear_arith)
                requires width <= u32::MAX && height <= u32::MAX;
        }
        let area: u64 = (width as u64) * (height as u64);
        if area > (u32::MAX as u64) {
            return None;
        }
        if (pixels.len() as u64) != area {
            return None;
        }
        Some(Image { width, height, pixels })
    }

    /// The pixel at the given coordinate.
    pub fn get_pixel(&self, x: u32, y: u32) -> (p: Rgba8)
        requires
            self.wf(),
            self.in_bounds(x as int, y as int),
        ensures
            p == self.pix(x as int, y as int),
    {
        proof {
            lemma_row_major_index(self.width as int, self.height as int, x as int, y as int);
        }
        let idx: usize = (y as usize) * (self.width as usize) + (x as usize);
        self.pixels[idx]
    }

    /// Overwrites the pixel at the given coordinate, leaving every other
    /// pixel as it was.
    pub fn put_pixel(&mut self, x: u32, y: u32, p: Rgba8)
        requires
            old(self).wf(),
            old(self).in_bounds(x as int, y as int),
        ensures
            final(self).wf(),
            final(self).width == old(self).width,
            final(self).height == old(self).height,
            final(self).pix(x as int, y as int) == p,
            forall|i: int, j: int|
                final(self).in_bounds(i, j) && !(i == x && j == y)
                    ==> final(self).pix(i, j) == old(self).pix(i, j),
    {
        proof {
            lemma_row_major_index(self.width as int, self.height as int, x as int, y as int);
        }
        let idx: usize = (y as usize) * (self.width as usize) + (x as usize);
        self.pixels.set(idx, p);
        proof {
            let w = self.width as int;
            let h = self.height as int;
            assert forall|i: int, j: int|
                final(self).in_bounds(i, j) && !(i == x && j == y)
                    implies final(self).pix(i, j) == old(self).pix(i, j) by {
                lemma_row_major_index(w, h, i, j);
                lemma_row_major_injective(w, i, j, x as int, y as int);
            }
        }
    }
}

/// A region contained in a well-formed image covers at least one pixel and at
/// most the image's area, which bounds it by u32::MAX.
pub proof fn lemma_contained_area(img: Image, r: Rect)
    requires
        img.wf(),
        img.contains_rect(r),
    ensures
        1 <= r.area(),
        r.area() <= u32::MAX,
        1 <= r.width() <= img.width,
        1 <= r.height() <= img.height,
{
    assert(1 <= r.area()) by (nonlinear_arith)
        requires r.width() >= 1 && r.height() >= 1;
    assert(r.area() <= img.width * img.height) by (nonlinear_arith)
        requires
            1 <= r.width() <= img.width && 1 <= r.height() <= img.height
                && r.area() == r.width() * r.height();
}

/// A row-major index lies inside the buffer of a width-by-height image.
pub proof fn lemma_row_major_index(w: int, h: int, x: int, y: int)
    requires
        0 <= x < w,
        0 <= y < h,
    ensures
        0 <= y * w + x < w * h,
{
    assert(y * w + x < w * h) by (nonlinear_arith)
        requires 0 <= x < w && 0 <= y < h;
}

/// Distinct in-bounds coordinates have distinct row-major indices.
pub proof fn lemma_row_major_injective(w: int, x1: int, y1: int, x2: int, y2: int)
    requires
        0 <= x1 < w,
        0 <= x2 < w,
        0 <= y1,
        0 <= y2,
        !(x1 == x2 && y1 == y2),
    ensures
        y1 * w + x1 != y2 * w + x2,
{
    if y1 == y2 {
        assert(y1 * w + x1 != y2 * w + x2);
    } else {
        assert(y1 * w + x1 != y2 * w + x2) by (nonlinear_arith)
            requires 0 <= x1 < w && 0 <= x2 < w && y1 != y2;
    }
}

} // verus!
