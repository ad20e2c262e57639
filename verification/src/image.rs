//! A minimal, I/O-free RGB image buffer.
//!
//! Decoding/encoding lives in the I/O shell; the core operates only on
//! decoded pixels.
use vstd::prelude::*;

verus! {

/// A tightly-packed 8-bit RGB image, row-major (`3 * width * height` bytes).
#[derive(Debug, Clone)]
pub struct RgbImage {
    width: u32,
    height: u32,
    data: Vec<u8>,
}

impl RgbImage {
    /// Three bytes per pixel: what every image made by `from_rgb` keeps.
    pub open spec fn wf(&self) -> bool {
        self.bytes().len() == 3 * self.dims().0 * self.dims().1
    }

    /// The image's `(width, height)`.
    pub closed spec fn dims(&self) -> (nat, nat) {
        (self.width as nat, self.height as nat)
    }

    /// The raw bytes, three per pixel, row by row.
    pub closed spec fn bytes(&self) -> Seq<u8> {
        self.data@
    }

    /// The RGB triple of pixel `(x, y)`.
    pub open spec fn pixel_at(&self, x: int, y: int) -> Seq<u8> {
        let i = 3 * (y * self.dims().0 + x);
        seq![self.bytes()[i], self.bytes()[i + 1], self.bytes()[i + 2]]
    }

    /// Wrap raw RGB bytes; `data.len()` must be `3 * width * height`.
    pub fn from_rgb(width: u32, height: u32, data: Vec<u8>) -> (r: Self)
        requires
            data@.len() == 3 * width * height,
        ensures
            r.wf(),
            r.dims() == (width as nat, height as nat),
            r.bytes() == data@,
    {
        Self { width, height, data }
    }

    pub fn width(&self) -> (r: u32)
        ensures
            r == self.dims().0,
    {
        self.width
    }

    pub fn height(&self) -> (r: u32)
        ensures
            r == self.dims().1,
    {
        self.height
    }

    /// The RGB triple at `(x, y)`.
    pub fn pixel(&self, x: u32, y: u32) -> (r: [u8; 3])
        requires
            self.wf(),
            x < self.dims().0,
            y < self.dims().1,
        ensures
            r@ == self.pixel_at(x as int, y as int),
    {
        let w = self.width as usize;
        let n = self.data.len();
        assert(3 * (y * w + x) + 2 < n) by (nonlinear_arith)
            requires
                x < w,
                y < self.height,
                n == 3 * w * self.height,
        ;
        let row = y as usize * w;
        let i = 3 * (row + x as usize);
        let r = [self.data[i], self.data[i + 1], self.data[i + 2]];
        assert(r@ =~= self.pixel_at(x as int, y as int));
        r
    }
}

} // verus!
