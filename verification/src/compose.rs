//! Bringing a resampled image to the target size: centred on a white canvas,
//! or cut from the centre.

use crate::geometry::{centred, product};
use crate::raster::{byte_at, lemma_byte_in_range, Raster, RasterView};
use crate::token::Mode;
use vstd::prelude::*;

verus! {

/// The bytes of a `width` by `height` raster whose every pixel is `rgba`.
pub open spec fn blank(width: nat, height: nat, rgba: Seq<u8>) -> Seq<u8> {
    Seq::new(width * height * 4, |i: int| rgba[i % 4])
}

/// Opaque white.
pub open spec fn white() -> Seq<u8> {
    seq![255u8, 255u8, 255u8, 255u8]
}

/// The bytes of the `w` by `h` pixels of `src`, a raster `src_w` pixels
/// wide, whose top left pixel is in column `x` of row `y`.
pub open spec fn window(src: Seq<u8>, src_w: nat, x: nat, y: nat, w: nat, h: nat) -> Seq<u8> {
    Seq::new(
        w * h * 4,
        |i: int| src[byte_at(src_w, x + (i / 4) % (w as int), y + (i / 4) / (w as int), i % 4)],
    )
}

/// The bytes of the raster `bottom` once the raster `top` is laid over it
/// with the top left pixel of `top` in column `x` of row `y` of `bottom`, as
/// `image::imageops::overlay` blends them.
pub uninterp spec fn overlaid(
    bottom: Seq<u8>,
    bottom_w: nat,
    bottom_h: nat,
    top: Seq<u8>,
    top_w: nat,
    top_h: nat,
    x: int,
    y: int,
) -> Seq<u8>;

/// Whether `top`, with its top left pixel in column `x` of row `y` of
/// another raster, covers the pixel in column `px` of row `py` of that
/// raster.
pub open spec fn covers(top: RasterView, x: int, y: int, px: int, py: int) -> bool {
    x <= px < x + top.width && y <= py < y + top.height
}

/// What is known of `out`, the bytes of `bottom` with `top` laid over it at
/// `(x, y)`: a pixel that `top` does not cover stays; where an opaque pixel
/// of `top` lies, `out` has that pixel; where a transparent one lies, the
/// pixel of `bottom` stays. Where a translucent one lies, `out` has a blend
/// of the two, of which nothing is said here.
pub open spec fn overlay_of(out: Seq<u8>, bottom: RasterView, top: RasterView, x: int, y: int)
    -> bool {
    &&& out.len() == bottom.bytes.len()
    &&& forall|px: int, py: int, c: int|
        0 <= px < bottom.width && 0 <= py < bottom.height && 0 <= c < 4 ==> {
            let at = #[trigger] byte_at(bottom.width, px, py, c);
            let alpha = top.channel(px - x, py - y, 3);
            if !covers(top, x, y, px, py) || alpha == 0 {
                out[at] == bottom.bytes[at]
            } else {
                alpha == 255 ==> out[at] == top.channel(px - x, py - y, c)
            }
        }
}

/// The canvas of `Fit`: opaque white, of the target's size.
pub open spec fn canvas(target_w: nat, target_h: nat) -> RasterView {
    RasterView { width: target_w, height: target_h, bytes: blank(target_w, target_h, white()) }
}

/// The target raster made from the resampled one. Under `Fit` the resampled
/// image is laid over the canvas, centred; what juts out is clipped. Under
/// `Fill` the target is the centred window of the resampled image.
pub open spec fn composed(resized: RasterView, target_w: nat, target_h: nat, mode: Mode)
    -> RasterView {
    RasterView {
        width: target_w,
        height: target_h,
        bytes: match mode {
            Mode::Fit => overlaid(
                canvas(target_w, target_h).bytes,
                target_w,
                target_h,
                resized.bytes,
                resized.width,
                resized.height,
                centred(target_w as int, resized.width as int),
                centred(target_h as int, resized.height as int),
            ),
            Mode::Fill => window(
                resized.bytes,
                resized.width,
                ((resized.width - target_w) / 2) as nat,
                ((resized.height - target_h) / 2) as nat,
                target_w,
                target_h,
            ),
        },
    }
}

/// Where byte `at` of a raster lies: the channel, the column and the row.
proof fn lemma_byte_place(width: nat, height: nat, px: int, py: int, c: int)
    requires
        0 <= px < width,
        0 <= py < height,
        0 <= c < 4,
    ensures
        0 <= byte_at(width, px, py, c) < width * height * 4,
        byte_at(width, px, py, c) % 4 == c,
        (byte_at(width, px, py, c) / 4) % (width as int) == px,
        (byte_at(width, px, py, c) / 4) / (width as int) == py,
{
    lemma_byte_in_range(width, height, px, py);
    let k = py * width + px;
    assert(byte_at(width, px, py, c) / 4 == k && byte_at(width, px, py, c) % 4 == c);
    vstd::arithmetic::div_mod::lemma_fundamental_div_mod_converse(k, width as int, py, px);
}

/// Around an image laid over the canvas the canvas stays white.
pub proof fn lemma_padding_is_white(
    out: Seq<u8>,
    width: nat,
    height: nat,
    top: RasterView,
    x: int,
    y: int,
    px: int,
    py: int,
    c: int,
)
    requires
        overlay_of(out, canvas(width, height), top, x, y),
        0 <= px < width,
        0 <= py < height,
        0 <= c < 4,
        !covers(top, x, y, px, py),
    ensures
        out[byte_at(width, px, py, c)] == 255,
{
    lemma_byte_place(width, height, px, py, c);
    let at = byte_at(width, px, py, c);
    assert(at == byte_at(canvas(width, height).width, px, py, c));
    assert(canvas(width, height).bytes[at] == white()[at % 4]);
    assert(white()[0] == 255 && white()[1] == 255 && white()[2] == 255 && white()[3] == 255);
}

/// Under `Fill` the pixel in column `px` of row `py` of the target is the
/// pixel of the resampled image that lies as far from the window's corner.
pub proof fn lemma_crop_is_centred(
    resized: RasterView,
    target_w: nat,
    target_h: nat,
    px: int,
    py: int,
    c: int,
)
    requires
        target_w <= resized.width,
        target_h <= resized.height,
        0 <= px < target_w,
        0 <= py < target_h,
        0 <= c < 4,
    ensures
        composed(resized, target_w, target_h, Mode::Fill).channel(px, py, c) == resized.channel(
            (resized.width - target_w) / 2 + px,
            (resized.height - target_h) / 2 + py,
            c,
        ),
{
    lemma_byte_place(target_w, target_h, px, py, c);
}

/// Whether the bytes of one row of `width` pixels can be counted: the crate
/// `image` multiplies four by the width before it looks at the height.
pub open spec fn row_fits(width: nat) -> bool {
    4 * width <= usize::MAX
}

/// A raster with a row whose bytes fit a vector has rows that can be
/// counted.
pub proof fn lemma_row_fits(width: nat, height: nat)
    requires
        height > 0,
        width * height * 4 <= isize::MAX,
    ensures
        row_fits(width),
{
    assert(4 * width <= width * height * 4) by (nonlinear_arith)
        requires
            height >= 1,
    ;
}

/// `image::ImageBuffer::from_pixel`, then `into_raw`: the bytes of a raster
/// of the given size that holds one pixel throughout. The crate panics where
/// it cannot count the bytes of a row, whatever the height, and where the
/// bytes would outgrow a vector; `requires` leaves those sizes out.
#[verifier::external_body]
fn filled(width: u32, height: u32, rgba: [u8; 4]) -> (bytes: Vec<u8>)
    requires
        row_fits(width as nat),
        width * height * 4 <= isize::MAX,
    ensures
        bytes@ == blank(width as nat, height as nat, rgba@),
{
    image::RgbaImage::from_pixel(width, height, image::Rgba(rgba)).into_raw()
}

/// `image::imageops::overlay` on two RGBA rasters made by
/// `ImageBuffer::from_raw`. The crate walks the part of `top` that lies over
/// `bottom` and blends each of its pixels into the one below: an opaque
/// pixel replaces the one below, a transparent one leaves it, and a
/// translucent one is mixed in with floating-point arithmetic, which is why
/// the result has a name and no formula. `from_raw` refuses a raster the
/// bytes of whose rows it cannot count, whatever the height; `requires`
/// leaves those widths out.
#[verifier::external_body]
fn overlay(
    bottom: Vec<u8>,
    bottom_w: u32,
    bottom_h: u32,
    top: Vec<u8>,
    top_w: u32,
    top_h: u32,
    x: i64,
    y: i64,
) -> (out: Vec<u8>)
    requires
        row_fits(bottom_w as nat),
        row_fits(top_w as nat),
        bottom@.len() == bottom_w * bottom_h * 4,
        top@.len() == top_w * top_h * 4,
    ensures
        out@ == overlaid(
            bottom@,
            bottom_w as nat,
            bottom_h as nat,
            top@,
            top_w as nat,
            top_h as nat,
            x as int,
            y as int,
        ),
        overlay_of(
            out@,
            RasterView { width: bottom_w as nat, height: bottom_h as nat, bytes: bottom@ },
            RasterView { width: top_w as nat, height: top_h as nat, bytes: top@ },
            x as int,
            y as int,
        ),
{
    let mut canvas = image::RgbaImage::from_raw(bottom_w, bottom_h, bottom).unwrap();
    let top = image::RgbaImage::from_raw(top_w, top_h, top).unwrap();
    image::imageops::overlay(&mut canvas, &top, x, y);
    canvas.into_raw()
}

/// `image::imageops::crop_imm`, then `SubImage::to_image` and `into_raw`:
/// the pixels of a rectangle that lies inside the raster, copied row by row.
/// `from_raw` refuses a raster the bytes of whose rows it cannot count,
/// whatever the height; `requires` leaves those widths out.
#[verifier::external_body]
fn crop(src: Vec<u8>, src_w: u32, src_h: u32, x: u32, y: u32, w: u32, h: u32) -> (out: Vec<u8>)
    requires
        row_fits(src_w as nat),
        src@.len() == src_w * src_h * 4,
        x + w <= src_w,
        y + h <= src_h,
    ensures
        out@ == window(src@, src_w as nat, x as nat, y as nat, w as nat, h as nat),
{
    let image = image::RgbaImage::from_raw(src_w, src_h, src).unwrap();
    image::imageops::crop_imm(&image, x, y, w, h).to_image().into_raw()
}

/// The offset that centres `inner` pixels in `outer`.
fn centre(outer: u32, inner: u32) -> (at: i64)
    ensures
        at == centred(outer as int, inner as int),
{
    if outer >= inner {
        ((outer - inner) / 2) as i64
    } else {
        -(((inner - outer) / 2) as i64)
    }
}

/// Whether the target can be made from the resampled raster: the rows of
/// both can be counted, the target's bytes fit a vector, and under `Fill`
/// the resampled raster covers the target.
pub open spec fn composable(resized: RasterView, target_w: nat, target_h: nat, mode: Mode)
    -> bool {
    &&& row_fits(target_w)
    &&& row_fits(resized.width)
    &&& target_w * target_h * 4 <= isize::MAX
    &&& mode == Mode::Fill ==> target_w <= resized.width && target_h <= resized.height
}

/// Whether the target can be made from the resampled raster: the test to
/// make before `compose` is called.
pub fn can_compose(resized: &Raster, target_w: u32, target_h: u32, mode: Mode) -> (yes: bool)
    ensures
        yes == composable(resized@, target_w as nat, target_h as nat, mode),
{
    let covers = match mode {
        Mode::Fit => true,
        Mode::Fill => target_w <= resized.width() && target_h <= resized.height(),
    };
    let rows = 4 * (target_w as u128) <= usize::MAX as u128 && 4 * (resized.width() as u128)
        <= usize::MAX as u128;
    rows && (product(target_w, target_h) as u128) * 4 <= isize::MAX as u128 && covers
}

/// Makes the target raster from the resampled one.
pub fn compose(resized: Raster, target_w: u32, target_h: u32, mode: Mode) -> (out: Raster)
    requires
        composable(resized@, target_w as nat, target_h as nat, mode),
    ensures
        out@ == composed(resized@, target_w as nat, target_h as nat, mode),
        out@.width == target_w,
        out@.height == target_h,
        out@.wf(),
        mode == Mode::Fit ==> overlay_of(
            out@.bytes,
            canvas(target_w as nat, target_h as nat),
            resized@,
            centred(target_w as int, resized@.width as int),
            centred(target_h as int, resized@.height as int),
        ),
{
    let width = resized.width();
    let height = resized.height();
    let pixels = resized.into_raw();
    match mode {
        Mode::Fit => {
            let rgba: [u8; 4] = [255, 255, 255, 255];
            assert(rgba@ =~= white());
            let ground = filled(target_w, target_h, rgba);
            let x = centre(target_w, width);
            let y = centre(target_h, height);
            let out = overlay(ground, target_w, target_h, pixels, width, height, x, y);
            Raster::from_parts(target_w, target_h, out)
        },
        Mode::Fill => {
            let x = (width - target_w) / 2;
            let y = (height - target_h) / 2;
            let out = crop(pixels, width, height, x, y, target_w, target_h);
            Raster::from_parts(target_w, target_h, out)
        },
    }
}

} // verus!
