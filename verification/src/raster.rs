//! The mathematical model of an RGBA image: a width, a height and a
//! row-major sequence of pixels, with the grid arithmetic that links a
//! pixel's position to its index.

use vstd::prelude::*;
use vstd::arithmetic::div_mod::{lemma_fundamental_div_mod, lemma_fundamental_div_mod_converse, lemma_mod_pos_bound};

verus! {

/// One pixel: red, green, blue and alpha channels.
#[derive(Clone, Copy, Debug, PartialEq, Eq, Structural)]
pub struct Rgba {
    pub r: u8,
    pub g: u8,
    pub b: u8,
    pub a: u8,
}

/// The fully transparent black pixel a fresh image is filled with.
pub open spec fn transparent() -> Rgba {
    Rgba { r: 0, g: 0, b: 0, a: 0 }
}

/// An image as a mathematical value: pixel `(x, y)` is `pixels[y * width + x]`.
pub struct Raster {
    pub width: nat,
    pub height: nat,
    pub pixels: Seq<Rgba>,
}

/// The pixel stored at pixel index `i` of a packed RGBA byte buffer.
pub open spec fn pixel_of_bytes(bytes: Seq<u8>, i: int) -> Rgba {
    Rgba { r: bytes[4 * i], g: bytes[4 * i + 1], b: bytes[4 * i + 2], a: bytes[4 * i + 3] }
}

/// The image that a packed, row-major RGBA byte buffer describes.
pub open spec fn raster_of_bytes(width: nat, height: nat, bytes: Seq<u8>) -> Raster {
    Raster {
        width,
        height,
        pixels: Seq::new(width * height, |i: int| pixel_of_bytes(bytes, i)),
    }
}

/// Channel `c` (0 = red, 1 = green, 2 = blue, 3 = alpha) of a pixel.
pub open spec fn channel(p: Rgba, c: int) -> u8 {
    if c == 0 {
        p.r
    } else if c == 1 {
        p.g
    } else if c == 2 {
        p.b
    } else {
        p.a
    }
}

pub open spec fn min_nat(a: nat, b: nat) -> nat {
    if a <= b { a } else { b }
}

impl Raster {
    pub open spec fn wf(self) -> bool {
        self.pixels.len() == self.width * self.height
    }

    pub open spec fn in_bounds(self, x: int, y: int) -> bool {
        0 <= x < self.width && 0 <= y < self.height
    }

    pub open spec fn at(self, x: int, y: int) -> Rgba {
        self.pixels[y * self.width + x]
    }

    /// The image of the given size whose pixel `(x, y)` is `f(x, y)`.
    pub open spec fn from_fn(width: nat, height: nat, f: spec_fn(int, int) -> Rgba) -> Raster {
        Raster {
            width,
            height,
            pixels: Seq::new(width * height, |i: int| f(i % (width as int), i / (width as int))),
        }
    }

    /// A fully transparent image.
    pub open spec fn blank(width: nat, height: nat) -> Raster {
        Raster::from_fn(width, height, |x: int, y: int| transparent())
    }

    /// The rectangle at `(x, y)` of size `width` x `height`, first clipped to
    /// the image: its corner is moved inside the image and its size shrunk
    /// to what the image holds.
    pub open spec fn crop(self, x: nat, y: nat, width: nat, height: nat) -> Raster {
        let cx = min_nat(x, self.width);
        let cy = min_nat(y, self.height);
        let cw = min_nat(width, (self.width - cx) as nat);
        let ch = min_nat(height, (self.height - cy) as nat);
        Raster::from_fn(cw, ch, |i: int, j: int| self.at(cx + i, cy + j))
    }

    /// This image with `top` drawn over it, top's corner at `(x, y)`;
    /// whatever of `top` falls outside this image is dropped.
    pub open spec fn replace(self, top: Raster, x: int, y: int) -> Raster {
        Raster::from_fn(
            self.width,
            self.height,
            |i: int, j: int|
                if x <= i < x + top.width && y <= j < y + top.height {
                    top.at(i - x, j - y)
                } else {
                    self.at(i, j)
                },
        )
    }
}

/// Position `(x, y)` of a grid `width` wide has index `y * width + x`, and
/// that index gives the position back.
pub proof fn lemma_grid_index(width: nat, height: nat, x: int, y: int)
    requires
        0 <= x < width,
        0 <= y < height,
    ensures
        0 <= y * width + x < width * height,
        (y * width + x) % (width as int) == x,
        (y * width + x) / (width as int) == y,
{
    assert(0 <= y * width) by (nonlinear_arith)
        requires
            0 <= y,
            0 <= width,
    ;
    assert(y * width + x < width * height) by (nonlinear_arith)
        requires
            0 <= x < width,
            0 <= y < height,
    ;
    lemma_fundamental_div_mod_converse(y * width + x, width as int, y, x);
}

/// Index `i` of a grid `width` wide lies at position `(i % width, i / width)`.
pub proof fn lemma_grid_position(width: nat, height: nat, i: int)
    requires
        0 <= i < width * height,
    ensures
        width > 0,
        0 <= i % (width as int) < width,
        0 <= i / (width as int) < height,
        (i / (width as int)) * width + i % (width as int) == i,
{
    if width == 0 {
        assert(width * height == 0) by (nonlinear_arith)
            requires
                width == 0,
        ;
    }
    let w = width as int;
    lemma_mod_pos_bound(i, w);
    lemma_fundamental_div_mod(i, w);
    let q = i / w;
    assert(q * w == w * q) by (nonlinear_arith);
    assert(0 <= q < height) by (nonlinear_arith)
        requires
            0 <= i < w * height,
            i == w * q + i % w,
            0 <= i % w < w,
            w > 0,
    ;
}

/// A pixel of `from_fn` is what the function gives at its position.
pub proof fn lemma_from_fn_at(width: nat, height: nat, f: spec_fn(int, int) -> Rgba, x: int, y: int)
    requires
        0 <= x < width,
        0 <= y < height,
    ensures
        Raster::from_fn(width, height, f).wf(),
        Raster::from_fn(width, height, f).at(x, y) == f(x, y),
{
    lemma_grid_index(width, height, x, y);
}

/// Two well-formed images of one size that agree at every position are equal.
pub proof fn lemma_raster_ext(a: Raster, b: Raster)
    requires
        a.wf(),
        b.wf(),
        a.width == b.width,
        a.height == b.height,
        forall|x: int, y: int| a.in_bounds(x, y) ==> #[trigger] a.at(x, y) == b.at(x, y),
    ensures
        a == b,
{
    assert forall|i: int| 0 <= i < a.pixels.len() implies a.pixels[i] == b.pixels[i] by {
        lemma_grid_position(a.width, a.height, i);
        let x = i % (a.width as int);
        let y = i / (a.width as int);
        assert(a.in_bounds(x, y));
        assert(a.at(x, y) == b.at(x, y));
    }
    assert(a.pixels =~= b.pixels);
}

} // verus!
