//! One animation frame: an RGBA image held as a packed, row-major byte
//! buffer, as the `image` crate lays it out.

use vstd::prelude::*;
use crate::raster::{Raster, Rgba, raster_of_bytes, lemma_grid_index, lemma_from_fn_at, lemma_raster_ext, transparent};

verus! {

/// An RGBA image: `data` holds four bytes (red, green, blue, alpha) per
/// pixel, row by row.
#[derive(Clone, Debug, PartialEq, Eq)]
pub struct Frame {
    pub width: u32,
    pub height: u32,
    pub data: Vec<u8>,
}

impl View for Frame {
    type V = Raster;

    open spec fn view(&self) -> Raster {
        raster_of_bytes(self.width as nat, self.height as nat, self.data@)
    }
}

impl Frame {
    /// The buffer holds exactly four bytes per pixel.
    pub open spec fn wf(&self) -> bool {
        self.data@.len() == 4 * (self.width * self.height)
    }

    /// A frame of the given size over the given bytes, or `None` where the
    /// buffer does not hold exactly four bytes per pixel.
    pub fn new(width: u32, height: u32, data: Vec<u8>) -> (res: Option<Frame>)
        ensures
            res is Some <==> data@.len() == 4 * (width * height),
            res matches Some(f) ==> f.wf() && f.width == width && f.height == height && f.data@
                == data@,
    {
        assert((width as u128) * (height as u128) <= 0xFFFF_FFFFu128 * 0xFFFF_FFFFu128)
            by (nonlinear_arith);
        let expected: u128 = (width as u128) * (height as u128) * 4;
        if data.len() as u128 == expected {
            Some(Frame { width, height, data })
        } else {
            None
        }
    }

    /// A fully transparent frame.
    pub fn blank(width: u32, height: u32) -> (res: Frame)
        requires
            4 * (width * height) <= usize::MAX,
        ensures
            res.wf(),
            res.width == width,
            res.height == height,
            res@ == Raster::blank(width as nat, height as nat),
    {
        assert(0 <= width * height);
        let len: usize = (width as usize) * (height as usize) * 4;
        let data: Vec<u8> = vec![0u8; len];
        let res = Frame { width, height, data };
        proof {
            let b = Raster::blank(width as nat, height as nat);
            assert forall|x: int, y: int| res@.in_bounds(x, y) implies #[trigger] res@.at(x, y)
                == b.at(x, y) by {
                lemma_grid_index(width as nat, height as nat, x, y);
                lemma_from_fn_at(
                    width as nat,
                    height as nat,
                    |x: int, y: int| transparent(),
                    x,
                    y,
                );
                let i = y * width + x;
                assert(4 * i + 3 < 4 * (width * height));
                assert(data@[4 * i] == 0u8);
                assert(data@[4 * i + 1] == 0u8);
                assert(data@[4 * i + 2] == 0u8);
                assert(data@[4 * i + 3] == 0u8);
            }
            lemma_raster_ext(res@, b);
        }
        res
    }

    /// The byte offset of pixel `(x, y)` in `data`.
    pub fn pixel_offset(&self, x: u32, y: u32) -> (offset: usize)
        requires
            self.wf(),
            x < self.width,
            y < self.height,
        ensures
            offset == 4 * (y * self.width + x),
            offset + 4 <= self.data@.len(),
    {
        let len = self.data.len();
        proof {
            lemma_grid_index(self.width as nat, self.height as nat, x as int, y as int);
            assert(0 <= y * self.width);
            assert(y * self.width <= y * self.width + x);
        }
        let i: usize = (y as usize) * (self.width as usize) + (x as usize);
        i * 4
    }

    /// The pixel at `(x, y)`.
    pub fn pixel(&self, x: u32, y: u32) -> (p: Rgba)
        requires
            self.wf(),
            x < self.width,
            y < self.height,
        ensures
            p == self@.at(x as int, y as int),
    {
        let o = self.pixel_offset(x, y);
        proof {
            lemma_grid_index(self.width as nat, self.height as nat, x as int, y as int);
        }
        Rgba { r: self.data[o], g: self.data[o + 1], b: self.data[o + 2], a: self.data[o + 3] }
    }
}

/// Calls `image::imageops::crop_imm` on the frame and copies the view out
/// with `SubImage::to_image`. The contract states what that source does: the
/// rectangle is first clipped to the image (corner moved inside, size
/// shrunk to what is left), and the result holds its pixels.
#[verifier::external_body]
pub(crate) fn crop_frame(frame: &Frame, x: u32, y: u32, width: u32, height: u32) -> (out: Frame)
    requires
        frame.wf(),
    ensures
        out.wf(),
        out@ == frame@.crop(x as nat, y as nat, width as nat, height as nat),
{
    let img = image::RgbaImage::from_raw(frame.width, frame.height, frame.data.clone()).unwrap();
    let sub = image::imageops::crop_imm(&img, x, y, width, height).to_image();
    Frame { width: sub.width(), height: sub.height(), data: sub.into_raw() }
}

/// Calls `image::imageops::replace`, drawing `top` over `bottom` with top's
/// corner at `(x, y)`. The contract states what that source does: every
/// pixel of `bottom` that `top` covers takes top's pixel, the rest stay, and
/// the size of `bottom` does not change.
#[verifier::external_body]
pub(crate) fn replace_frame(bottom: &mut Frame, top: &Frame, x: i64, y: i64)
    requires
        old(bottom).wf(),
        top.wf(),
    ensures
        final(bottom).wf(),
        final(bottom).width == old(bottom).width,
        final(bottom).height == old(bottom).height,
        final(bottom)@ == old(bottom)@.replace(top@, x as int, y as int),
{
    let (w, h) = (bottom.width, bottom.height);
    let mut canvas = image::ImageBuffer::<image::Rgba<u8>, &mut [u8]>::from_raw(
        w,
        h,
        bottom.data.as_mut_slice(),
    ).unwrap();
    let overlay = image::ImageBuffer::<image::Rgba<u8>, &[u8]>::from_raw(
        top.width,
        top.height,
        top.data.as_slice(),
    ).unwrap();
    image::imageops::replace(&mut canvas, &overlay, x, y);
}

} // verus!
