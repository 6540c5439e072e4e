//! The size that a source image is resampled to, and where the resampled
//! image lies against the target.

use crate::binary64::{
    binary64, lemma_binary64_monotone, lemma_scaled_reaches, lemma_scaled_within, scaled, Scale,
};
use crate::fraction::{at_most, Fraction};
use crate::token::Mode;
use vstd::prelude::*;

verus! {

/// Whether the width decides the scale factor: under `Fit` the smaller of
/// the two ratios `target / source` is taken, under `Fill` the larger.
pub open spec fn width_governs(src_w: nat, src_h: nat, target_w: nat, target_h: nat, mode: Mode)
    -> bool {
    match mode {
        Mode::Fit => target_w * src_h <= target_h * src_w,
        Mode::Fill => target_w * src_h >= target_h * src_w,
    }
}

/// The scale factor of `mode`, a binary64 number.
pub open spec fn scale_factor(src_w: nat, src_h: nat, target_w: nat, target_h: nat, mode: Mode)
    -> Fraction {
    if width_governs(src_w, src_h, target_w, target_h, mode) {
        binary64(target_w, src_w)
    } else {
        binary64(target_h, src_h)
    }
}

/// The width and height that the source is resampled to: each side scaled by
/// the one scale factor and rounded, at least one pixel, and under `Fill`
/// raised to the target where rounding left it short.
pub open spec fn resized(src_w: nat, src_h: nat, target_w: nat, target_h: nat, mode: Mode) -> (
    nat,
    nat,
) {
    let scale = scale_factor(src_w, src_h, target_w, target_h, mode);
    let w = scaled(src_w, scale);
    let h = scaled(src_h, scale);
    match mode {
        Mode::Fit => (w, h),
        Mode::Fill => (
            if w < target_w {
                target_w
            } else {
                w
            },
            if h < target_h {
                target_h
            } else {
                h
            },
        ),
    }
}

/// The offset that centres a span of `inner` pixels in one of `outer`: half
/// the difference, rounded toward zero, and negative where `inner` is the
/// longer.
pub open spec fn centred(outer: int, inner: int) -> int {
    if outer >= inner {
        (outer - inner) / 2
    } else {
        -((inner - outer) / 2)
    }
}

/// The scale factor is one of the two binary64 quotients `target / source`:
/// under `Fit` the smaller, under `Fill` the larger.
pub proof fn lemma_scale_factor_is_extreme(
    src_w: nat,
    src_h: nat,
    target_w: nat,
    target_h: nat,
    mode: Mode,
)
    requires
        0 < src_w <= u32::MAX,
        0 < src_h <= u32::MAX,
        0 < target_w <= u32::MAX,
        0 < target_h <= u32::MAX,
    ensures
        ({
            let scale = scale_factor(src_w, src_h, target_w, target_h, mode);
            let across = binary64(target_w, src_w);
            let down = binary64(target_h, src_h);
            &&& scale == across || scale == down
            &&& mode == Mode::Fit ==> at_most(scale, across) && at_most(scale, down)
            &&& mode == Mode::Fill ==> at_most(across, scale) && at_most(down, scale)
        }),
{
    if target_w * src_h <= target_h * src_w {
        lemma_binary64_monotone(target_w, src_w, target_h, src_h);
    }
    if target_h * src_w <= target_w * src_h {
        lemma_binary64_monotone(target_h, src_h, target_w, src_w);
    }
}

/// Under `Fit` the resampled image lies inside the target and spans it along
/// at least one axis.
pub proof fn lemma_fit_inside(src_w: nat, src_h: nat, target_w: nat, target_h: nat)
    requires
        0 < src_w <= u32::MAX,
        0 < src_h <= u32::MAX,
        0 < target_w <= u32::MAX,
        0 < target_h <= u32::MAX,
    ensures
        1 <= resized(src_w, src_h, target_w, target_h, Mode::Fit).0 <= target_w,
        1 <= resized(src_w, src_h, target_w, target_h, Mode::Fit).1 <= target_h,
        resized(src_w, src_h, target_w, target_h, Mode::Fit).0 == target_w || resized(
            src_w,
            src_h,
            target_w,
            target_h,
            Mode::Fit,
        ).1 == target_h,
{
    if width_governs(src_w, src_h, target_w, target_h, Mode::Fit) {
        lemma_scaled_within(src_w, target_w, src_w, target_w);
        lemma_scaled_within(src_h, target_w, src_w, target_h);
    } else {
        lemma_scaled_within(src_h, target_h, src_h, target_h);
        assert(target_h * src_w <= target_w * src_h);
        lemma_scaled_within(src_w, target_h, src_h, target_w);
    }
}

/// Under `Fill` the resampled image covers the target and is exactly as
/// long as the target along at least one axis.
pub proof fn lemma_fill_covers(src_w: nat, src_h: nat, target_w: nat, target_h: nat)
    requires
        0 < src_w <= u32::MAX,
        0 < src_h <= u32::MAX,
        0 < target_w <= u32::MAX,
        0 < target_h <= u32::MAX,
    ensures
        target_w <= resized(src_w, src_h, target_w, target_h, Mode::Fill).0 <= u32::MAX,
        target_h <= resized(src_w, src_h, target_w, target_h, Mode::Fill).1 <= u32::MAX,
        resized(src_w, src_h, target_w, target_h, Mode::Fill).0 == target_w || resized(
            src_w,
            src_h,
            target_w,
            target_h,
            Mode::Fill,
        ).1 == target_h,
{
    if width_governs(src_w, src_h, target_w, target_h, Mode::Fill) {
        lemma_scaled_within(src_w, target_w, src_w, target_w);
    } else {
        lemma_scaled_within(src_h, target_h, src_h, target_h);
    }
}

/// Under `Fill` rounding never leaves a side short of the target: the two
/// scaled sides cover the target as they are.
pub proof fn lemma_fill_is_never_short(src_w: nat, src_h: nat, target_w: nat, target_h: nat)
    requires
        0 < src_w <= u32::MAX,
        0 < src_h <= u32::MAX,
        0 < target_w <= u32::MAX,
        0 < target_h <= u32::MAX,
    ensures
        ({
            let scale = scale_factor(src_w, src_h, target_w, target_h, Mode::Fill);
            resized(src_w, src_h, target_w, target_h, Mode::Fill) == (
                scaled(src_w, scale),
                scaled(src_h, scale),
            )
        }),
{
    if width_governs(src_w, src_h, target_w, target_h, Mode::Fill) {
        lemma_scaled_reaches(src_w, target_w, src_w, target_w);
        lemma_scaled_reaches(src_h, target_w, src_w, target_h);
    } else {
        lemma_scaled_reaches(src_h, target_h, src_h, target_h);
        lemma_scaled_reaches(src_w, target_h, src_h, target_w);
    }
}

/// A target with the proportions of the source is met exactly, whatever the
/// mode.
pub proof fn lemma_same_proportions(
    src_w: nat,
    src_h: nat,
    target_w: nat,
    target_h: nat,
    mode: Mode,
)
    requires
        0 < src_w <= u32::MAX,
        0 < src_h <= u32::MAX,
        0 < target_w <= u32::MAX,
        0 < target_h <= u32::MAX,
        target_w * src_h == target_h * src_w,
    ensures
        resized(src_w, src_h, target_w, target_h, mode) == (target_w, target_h),
{
    lemma_scaled_within(src_w, target_w, src_w, target_w);
    lemma_scaled_within(src_h, target_w, src_w, target_h);
}

/// The product of two 32-bit lengths.
pub(crate) fn product(a: u32, b: u32) -> (p: u64)
    ensures
        p == a * b,
        p <= 0xFFFF_FFFE_0000_0001,
{
    assert(a * b <= 0xFFFF_FFFF * 0xFFFF_FFFF) by (nonlinear_arith)
        requires
            a <= 0xFFFF_FFFF,
            b <= 0xFFFF_FFFF,
    ;
    (a as u64) * (b as u64)
}

/// The size to resample a `src_w` by `src_h` image to, for a target of
/// `target_w` by `target_h`.
pub fn resized_size(src_w: u32, src_h: u32, target_w: u32, target_h: u32, mode: Mode) -> (r: (
    u32,
    u32,
))
    requires
        src_w > 0,
        src_h > 0,
        target_w > 0,
        target_h > 0,
    ensures
        (r.0 as nat, r.1 as nat) == resized(
            src_w as nat,
            src_h as nat,
            target_w as nat,
            target_h as nat,
            mode,
        ),
        r.0 >= 1,
        r.1 >= 1,
        mode == Mode::Fit ==> r.0 <= target_w && r.1 <= target_h,
        mode == Mode::Fill ==> r.0 >= target_w && r.1 >= target_h,
        r.0 == target_w || r.1 == target_h,
{
    let across = product(target_w, src_h);
    let down = product(target_h, src_w);
    let by_width = match mode {
        Mode::Fit => across <= down,
        Mode::Fill => across >= down,
    };
    let scale = if by_width {
        Scale::ratio(target_w, src_w)
    } else {
        Scale::ratio(target_h, src_h)
    };
    let w = scale.times(src_w);
    let h = scale.times(src_h);
    proof {
        lemma_fit_inside(src_w as nat, src_h as nat, target_w as nat, target_h as nat);
        lemma_fill_covers(src_w as nat, src_h as nat, target_w as nat, target_h as nat);
    }
    match mode {
        Mode::Fit => (w, h),
        Mode::Fill => (
            if w < target_w {
                target_w
            } else {
                w
            },
            if h < target_h {
                target_h
            } else {
                h
            },
        ),
    }
}

} // verus!
