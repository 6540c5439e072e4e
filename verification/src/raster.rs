//! An RGBA raster held in memory.

use crate::geometry::product;
use vstd::prelude::*;

verus! {

/// What a raster is: its size and its bytes, four to a pixel in the order
/// red, green, blue, alpha, the pixels row by row from the top left.
pub struct RasterView {
    pub width: nat,
    pub height: nat,
    pub bytes: Seq<u8>,
}

impl RasterView {
    /// Whether the bytes are those of `width * height` pixels.
    pub open spec fn wf(self) -> bool {
        self.bytes.len() == self.width * self.height * 4
    }

    /// The byte of channel `c` of the pixel in column `x` of row `y`.
    pub open spec fn channel(self, x: int, y: int, c: int) -> u8 {
        self.bytes[byte_at(self.width, x, y, c)]
    }
}

/// Where channel `c` of the pixel in column `x` of row `y` lies among the
/// bytes of a raster `width` pixels wide.
pub open spec fn byte_at(width: nat, x: int, y: int, c: int) -> int {
    (y * width + x) * 4 + c
}

/// An 8-bit RGBA image. Either side may be zero, and the image then holds no
/// pixel.
#[derive(Debug, PartialEq, Eq)]
pub struct Raster {
    width: u32,
    height: u32,
    pixels: Vec<u8>,
}

impl View for Raster {
    type V = RasterView;

    closed spec fn view(&self) -> RasterView {
        RasterView { width: self.width as nat, height: self.height as nat, bytes: self.pixels@ }
    }
}

impl Clone for Raster {
    fn clone(&self) -> (r: Self)
        ensures
            r@ == self@,
    {
        proof {
            use_type_invariant(self);
        }
        let pixels = self.pixels.clone();
        assert(pixels@ =~= self.pixels@);
        Raster { width: self.width, height: self.height, pixels }
    }
}

impl Raster {
    #[verifier::type_invariant]
    spec fn inv(self) -> bool {
        self.pixels.len() == self.width * self.height * 4
    }

    /// A raster over bytes whose number is known to be right.
    pub(crate) fn from_parts(width: u32, height: u32, pixels: Vec<u8>) -> (r: Raster)
        requires
            pixels.len() == width * height * 4,
        ensures
            r@ == (RasterView { width: width as nat, height: height as nat, bytes: pixels@ }),
    {
        Raster { width, height, pixels }
    }

    /// A raster of `width` by `height` pixels over `pixels`, where `pixels`
    /// holds exactly four bytes for each of them.
    pub fn from_raw(width: u32, height: u32, pixels: Vec<u8>) -> (r: Option<Raster>)
        ensures
            r is Some <==> pixels.len() == width * height * 4,
            r matches Some(raster) ==> raster@ == (RasterView {
                width: width as nat,
                height: height as nat,
                bytes: pixels@,
            }),
    {
        let count = product(width, height);
        if pixels.len() as u128 == (count as u128) * 4 {
            Some(Raster { width, height, pixels })
        } else {
            None
        }
    }

    /// The number of columns.
    pub fn width(&self) -> (w: u32)
        ensures
            w == self@.width,
    {
        self.width
    }

    /// The number of rows.
    pub fn height(&self) -> (h: u32)
        ensures
            h == self@.height,
    {
        self.height
    }

    /// The bytes of the pixels.
    pub fn as_raw(&self) -> (bytes: &Vec<u8>)
        ensures
            bytes@ == self@.bytes,
            self@.wf(),
    {
        proof {
            use_type_invariant(self);
        }
        &self.pixels
    }

    /// The bytes of the pixels, the raster given up.
    pub fn into_raw(self) -> (bytes: Vec<u8>)
        ensures
            bytes@ == self@.bytes,
            self@.wf(),
    {
        proof {
            use_type_invariant(&self);
        }
        self.pixels
    }

    /// The four channels of the pixel in column `x` of row `y`.
    pub fn pixel(&self, x: u32, y: u32) -> (rgba: [u8; 4])
        requires
            x < self@.width,
            y < self@.height,
        ensures
            forall|c: int| 0 <= c < 4 ==> rgba[c] == self@.channel(x as int, y as int, c),
    {
        proof {
            use_type_invariant(self);
            lemma_byte_in_range(self.width as nat, self.height as nat, x as int, y as int);
        }
        let first = (product(y, self.width) as usize + x as usize) * 4;
        [self.pixels[first], self.pixels[first + 1], self.pixels[first + 2], self.pixels[first + 3]]
    }
}

/// The bytes of a pixel inside a raster lie inside its bytes.
pub(crate) proof fn lemma_byte_in_range(width: nat, height: nat, x: int, y: int)
    requires
        0 <= x < width,
        0 <= y < height,
    ensures
        0 <= byte_at(width, x, y, 0),
        byte_at(width, x, y, 3) < width * height * 4,
        0 <= y * width <= y * width + x < width * height,
{
    assert(0 <= y * width && y * width + width <= height * width) by (nonlinear_arith)
        requires
            0 <= y < height,
            width >= 0,
    {
        assert((y + 1) * width <= height * width);
    }
    assert(height * width == width * height) by (nonlinear_arith);
}

} // verus!
