//! Resampling an RGBA raster to another size with a Lanczos filter.

use crate::geometry::product;
use crate::raster::{Raster, RasterView};
use vstd::prelude::*;

verus! {

/// Why a resize did not give an image.
#[derive(Debug, PartialEq, Eq)]
pub enum ResizeError {
    /// The source image has no width or no height.
    InvalidDimensions,
    /// The resampler refused the images; its own words.
    Resample(String),
    /// The resampler's buffer does not hold the pixels that were asked for.
    OutputBuffer,
}

impl ResizeError {
    /// The error in words.
    pub fn message(&self) -> (text: String)
        ensures
            text@ == match self {
                ResizeError::InvalidDimensions => "Image has invalid dimensions"@,
                ResizeError::Resample(words) => words@,
                ResizeError::OutputBuffer => "Error creating final buffer"@,
            },
    {
        match self {
            ResizeError::InvalidDimensions => "Image has invalid dimensions".to_owned(),
            ResizeError::Resample(words) => words.clone(),
            ResizeError::OutputBuffer => "Error creating final buffer".to_owned(),
        }
    }
}

/// The longer of two lengths.
pub open spec fn longer(a: nat, b: nat) -> nat {
    if a >= b {
        a
    } else {
        b
    }
}

/// Whether every buffer that resampling a `src_w` by `src_h` raster to
/// `dst_w` by `dst_h` allocates has a length that a vector can have: the
/// source and its copy with the colours multiplied by alpha, the image
/// between the vertical and the horizontal pass, the destination, and the
/// two tables of filter weights.
pub open spec fn resample_fits(src_w: nat, src_h: nat, dst_w: nat, dst_h: nat) -> bool {
    &&& src_w * src_h * 4 + 4 <= isize::MAX
    &&& src_w * dst_h * 4 + 4 <= isize::MAX
    &&& dst_w * dst_h * 4 <= isize::MAX
    &&& 72 * longer(src_w, dst_w) <= isize::MAX
    &&& 72 * longer(src_h, dst_h) <= isize::MAX
}

/// `fast_image_resize::Resizer::resize` from an image made by
/// `Image::from_vec_u8` into one made by `Image::new`, both of pixel type
/// `U8x4`, by convolution with the `Lanczos3` filter; the result is the
/// destination's buffer, or the crate's error in its own words.
///
/// The crate refuses a source buffer that is shorter than the source's
/// pixels, and nothing else that can arise here: pixels of this type need
/// no alignment, both images have the one pixel type, and no part of the
/// source is cut out. The destination's buffer is allocated for its size and
/// keeps its length. Which bytes fill it rests on the processor's vector
/// unit and on the platform's sine, so nothing is claimed of them.
/// `requires` leaves out the sizes at which one of the crate's allocations
/// would panic.
#[verifier::external_body]
fn lanczos3(src_rgba: &[u8], src_w: u32, src_h: u32, dst_w: u32, dst_h: u32) -> (outcome: Result<
    Vec<u8>,
    String,
>)
    requires
        resample_fits(src_w as nat, src_h as nat, dst_w as nat, dst_h as nat),
    ensures
        outcome is Ok <==> src_rgba@.len() >= src_w * src_h * 4,
        outcome matches Ok(bytes) ==> bytes@.len() == dst_w * dst_h * 4,
{
    let kind = fast_image_resize::PixelType::U8x4;
    let by = fast_image_resize::ResizeAlg::Convolution(fast_image_resize::FilterType::Lanczos3);
    let options = fast_image_resize::ResizeOptions::new().resize_alg(by);
    match fast_image_resize::images::Image::from_vec_u8(src_w, src_h, src_rgba.to_vec(), kind) {
        Err(error) => Err(error.to_string()),
        Ok(source) => {
            let mut target = fast_image_resize::images::Image::new(dst_w, dst_h, kind);
            match fast_image_resize::Resizer::new().resize(&source, &mut target, &options) {
                Err(error) => Err(error.to_string()),
                Ok(()) => Ok(target.into_vec()),
            }
        },
    }
}

/// What a resampler's outcome is worth for a `width` by `height` image: its
/// error stays an error, and its buffer is a raster where it holds exactly
/// the bytes of that many pixels.
pub open spec fn accepted(
    outcome: Result<Vec<u8>, String>,
    width: nat,
    height: nat,
    r: Result<Raster, ResizeError>,
) -> bool {
    match outcome {
        Err(words) => r matches Err(ResizeError::Resample(said)) && said@ == words@,
        Ok(bytes) => if bytes@.len() == width * height * 4 {
            r matches Ok(raster) && raster@ == (RasterView { width, height, bytes: bytes@ })
        } else {
            r matches Err(ResizeError::OutputBuffer)
        },
    }
}

/// Takes the outcome of a resampler for a `width` by `height` image.
pub fn accept(outcome: Result<Vec<u8>, String>, width: u32, height: u32) -> (r: Result<
    Raster,
    ResizeError,
>)
    ensures
        accepted(outcome, width as nat, height as nat, r),
{
    match outcome {
        Err(words) => Err(ResizeError::Resample(words)),
        Ok(bytes) => match Raster::from_raw(width, height, bytes) {
            Some(raster) => Ok(raster),
            None => Err(ResizeError::OutputBuffer),
        },
    }
}

/// Resamples the `src_w` by `src_h` pixels of `src_rgba` to `dst_w` by
/// `dst_h` pixels. It succeeds where `src_rgba` holds at least the bytes of
/// the source's pixels; what lies behind them is not looked at.
pub fn resize_rgba8(src_rgba: &[u8], src_w: u32, src_h: u32, dst_w: u32, dst_h: u32) -> (r: Result<
    Raster,
    ResizeError,
>)
    requires
        resample_fits(src_w as nat, src_h as nat, dst_w as nat, dst_h as nat),
    ensures
        r is Ok <==> src_rgba@.len() >= src_w * src_h * 4,
        r matches Ok(raster) ==> raster@.width == dst_w && raster@.height == dst_h
            && raster@.wf(),
        r matches Err(error) ==> error is Resample,
{
    accept(lanczos3(src_rgba, src_w, src_h, dst_w, dst_h), dst_w, dst_h)
}

/// Whether resampling from the one size to the other stays within what
/// vectors can hold.
pub fn can_resample(src_w: u32, src_h: u32, dst_w: u32, dst_h: u32) -> (yes: bool)
    ensures
        yes == resample_fits(src_w as nat, src_h as nat, dst_w as nat, dst_h as nat),
{
    let limit = isize::MAX as u128;
    let wide = if src_w >= dst_w {
        src_w
    } else {
        dst_w
    };
    let tall = if src_h >= dst_h {
        src_h
    } else {
        dst_h
    };
    (product(src_w, src_h) as u128) * 4 + 4 <= limit && (product(src_w, dst_h) as u128) * 4 + 4
        <= limit && (product(dst_w, dst_h) as u128) * 4 <= limit && 72 * (wide as u128) <= limit
        && 72 * (tall as u128) <= limit
}

} // verus!
