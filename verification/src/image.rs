//! A grayscale image as the library sees it: a flat row-major buffer of 8-bit
//! intensities with known width and height.
use vstd::prelude::*;

verus! {

/// Largest width or height the library accepts; keeps every pixel index well
/// inside `usize` range.
pub const MAX_DIM: u32 = 8192;

/// A grayscale image: 8-bit intensities, row-major, `width * height` pixels.
pub struct GrayImage {
    pub width: u32,
    pub height: u32,
    pub data: Vec<u8>,
}

impl GrayImage {
    /// The buffer holds exactly one intensity per pixel.
    pub open spec fn wf(self) -> bool {
        self.data@.len() == self.width * self.height && self.width <= MAX_DIM && self.height
            <= MAX_DIM
    }

    pub open spec fn width_spec(self) -> u32 {
        self.width
    }

    pub open spec fn height_spec(self) -> u32 {
        self.height
    }

    /// The intensity at column `x`, row `y`.
    pub open spec fn pixel(self, x: int, y: int) -> u8 {
        self.data@[y * self.width + x]
    }

    /// Wraps a raw buffer; refuses one whose length does not match the
    /// dimensions.
    pub fn new(width: u32, height: u32, data: Vec<u8>) -> (r: Option<GrayImage>)
        ensures
            match r {
                Some(i) => i.wf() && i.width_spec() == width && i.height_spec() == height
                    && i@ == data@,
                None => width > MAX_DIM || height > MAX_DIM || data@.len() != width * height,
            },
    {
        if width > MAX_DIM || height > MAX_DIM {
            return None;
        }
        proof {
            crate::math::lemma_mul_le_mono(
                width as int,
                MAX_DIM as int,
                height as int,
                MAX_DIM as int,
            );
        }
        if data.len() == (width as usize) * (height as usize) {
            Some(GrayImage { width, height, data })
        } else {
            None
        }
    }

    pub fn dimensions(&self) -> (r: (u32, u32))
        ensures
            r.0 == self.width_spec(),
            r.1 == self.height_spec(),
    {
        (self.width, self.height)
    }

    /// Consumes the image and hands the buffer back.
    pub fn into_data(self) -> (r: Vec<u8>)
        ensures
            r@ == self@,
    {
        self.data
    }

    pub fn get_pixel(&self, x: u32, y: u32) -> (r: u8)
        requires
            self.wf(),
            x < self.width_spec(),
            y < self.height_spec(),
        ensures
            r == self.pixel(x as int, y as int),
    {
        proof {
            assert((y as int) * (self.width as int) + x < (self.width as int)
                * (self.height as int) && (y as int) * (self.width as int) + x < 0x8000000)
                by (nonlinear_arith)
                requires
                    x < self.width <= MAX_DIM,
                    y < self.height <= MAX_DIM,
            ;
        }
        let idx: usize = (y as usize) * (self.width as usize) + (x as usize);
        self.data[idx]
    }
}

impl View for GrayImage {
    type V = Seq<u8>;

    open spec fn view(&self) -> Seq<u8> {
        self.data@
    }
}

} // verus!
