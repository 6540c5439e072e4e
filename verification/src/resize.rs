//! From a decoded image to the image of the target size.

use crate::compose::{canvas, compose, composed, lemma_row_fits, overlay_of};
use crate::geometry::{centred, product, resized, resized_size};
use crate::raster::{Raster, RasterView};
use crate::resample::{can_resample, resample_fits, resize_rgba8, ResizeError};
use crate::token::Mode;
use vstd::prelude::*;

verus! {

/// Whether the buffers of a resize have lengths that vectors can have: the
/// target's, and those of resampling the source to the size between. A
/// source without pixels needs none.
pub open spec fn workspace_fits(src_w: nat, src_h: nat, target_w: nat, target_h: nat, mode: Mode)
    -> bool {
    src_w == 0 || src_h == 0 || {
        let between = resized(src_w, src_h, target_w, target_h, mode);
        &&& target_w * target_h * 4 <= isize::MAX
        &&& resample_fits(src_w, src_h, between.0, between.1)
    }
}

/// Whether the buffers of a resize have lengths that vectors can have: the
/// test to make before `resize_to_target` is called.
pub fn can_resize(src_w: u32, src_h: u32, target_w: u32, target_h: u32, mode: Mode) -> (yes: bool)
    requires
        target_w > 0,
        target_h > 0,
    ensures
        yes == workspace_fits(
            src_w as nat,
            src_h as nat,
            target_w as nat,
            target_h as nat,
            mode,
        ),
{
    if src_w == 0 || src_h == 0 {
        return true;
    }
    let between = resized_size(src_w, src_h, target_w, target_h, mode);
    (product(target_w, target_h) as u128) * 4 <= isize::MAX as u128 && can_resample(
        src_w,
        src_h,
        between.0,
        between.1,
    )
}

/// Resizes `src` to exactly `target_w` by `target_h` pixels: resampled by
/// one scale factor for both sides, then under `Fit` centred on opaque
/// white, under `Fill` cropped about the centre.
///
/// A source without width or height is refused before anything else is
/// done, and every other source gives an image. The image is composed from
/// a raster of the size that `resized` gives, whose pixels are the
/// resampler's; under `Fit` it is white around that raster and shows the
/// raster's opaque pixels as they are.
pub fn resize_to_target(src: &Raster, target_w: u32, target_h: u32, mode: Mode) -> (r: Result<
    Raster,
    ResizeError,
>)
    requires
        target_w > 0,
        target_h > 0,
        workspace_fits(src@.width, src@.height, target_w as nat, target_h as nat, mode),
    ensures
        r is Ok <==> src@.width > 0 && src@.height > 0,
        r matches Err(error) ==> error is InvalidDimensions,
        r matches Ok(out) ==> out@.width == target_w && out@.height == target_h && out@.wf(),
        r matches Ok(out) ==> exists|between: RasterView|
            {
                &&& between.wf()
                &&& (between.width, between.height) == resized(
                    src@.width,
                    src@.height,
                    target_w as nat,
                    target_h as nat,
                    mode,
                )
                &&& out@ == #[trigger] composed(between, target_w as nat, target_h as nat, mode)
                &&& mode == Mode::Fit ==> overlay_of(
                    out@.bytes,
                    canvas(target_w as nat, target_h as nat),
                    between,
                    centred(target_w as int, between.width as int),
                    centred(target_h as int, between.height as int),
                )
            },
{
    let src_w = src.width();
    let src_h = src.height();
    if src_w == 0 || src_h == 0 {
        return Err(ResizeError::InvalidDimensions);
    }
    let (resized_w, resized_h) = resized_size(src_w, src_h, target_w, target_h, mode);
    match resize_rgba8(src.as_raw().as_slice(), src_w, src_h, resized_w, resized_h) {
        Err(error) => Err(error),
        Ok(between) => {
            let ghost seen = between@;
            proof {
                lemma_row_fits(target_w as nat, target_h as nat);
                lemma_row_fits(resized_w as nat, resized_h as nat);
            }
            let out = compose(between, target_w, target_h, mode);
            assert(out@ == composed(seen, target_w as nat, target_h as nat, mode));
            Ok(out)
        },
    }
}

} // verus!
