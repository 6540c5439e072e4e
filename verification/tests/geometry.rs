use fit_resize::binary64::Scale;
use fit_resize::{resized_size, Mode};

/// The size that binary64 arithmetic gives, computed with `f64` itself.
fn with_floats(src_w: u32, src_h: u32, target_w: u32, target_h: u32, mode: Mode) -> (u32, u32) {
    let across = target_w as f64 / src_w as f64;
    let down = target_h as f64 / src_h as f64;
    let scale = match mode {
        Mode::Fit => across.min(down),
        Mode::Fill => across.max(down),
    };
    let mut w = ((src_w as f64) * scale).round().max(1.0) as u32;
    let mut h = ((src_h as f64) * scale).round().max(1.0) as u32;
    if mode == Mode::Fill {
        w = w.max(target_w);
        h = h.max(target_h);
    }
    (w, h)
}

/// A small generator of repeatable numbers.
fn next(state: &mut u64) -> u64 {
    *state ^= *state << 13;
    *state ^= *state >> 7;
    *state ^= *state << 17;
    *state
}

fn length(state: &mut u64) -> u32 {
    let bits = 1 + next(state) % 32;
    let mask = if bits == 32 { u32::MAX as u64 } else { (1u64 << bits) - 1 };
    ((next(state) & mask) as u32).max(1)
}

#[test]
fn fit_of_wide_source_in_square_target() {
    assert_eq!(resized_size(100, 50, 200, 200, Mode::Fit), (200, 100));
}

#[test]
fn fill_of_wide_source_in_square_target() {
    assert_eq!(resized_size(100, 50, 200, 200, Mode::Fill), (400, 200));
}

#[test]
fn fit_matches_float_arithmetic_on_small_sizes() {
    for src_w in 1..60u32 {
        for src_h in 1..60u32 {
            for target_w in 1..40u32 {
                let target_h = 1 + (src_w * 7 + src_h * 3 + target_w) % 50;
                assert_eq!(
                    resized_size(src_w, src_h, target_w, target_h, Mode::Fit),
                    with_floats(src_w, src_h, target_w, target_h, Mode::Fit)
                );
            }
        }
    }
}

#[test]
fn fill_matches_float_arithmetic_on_small_sizes() {
    for src_w in 1..60u32 {
        for src_h in 1..60u32 {
            for target_w in 1..40u32 {
                let target_h = 1 + (src_w * 5 + src_h * 11 + target_w) % 50;
                assert_eq!(
                    resized_size(src_w, src_h, target_w, target_h, Mode::Fill),
                    with_floats(src_w, src_h, target_w, target_h, Mode::Fill)
                );
            }
        }
    }
}

#[test]
fn both_modes_match_float_arithmetic_on_mixed_sizes() {
    let mut state = 0x9E37_79B9_7F4A_7C15u64;
    for _ in 0..200_000 {
        let (sw, sh) = (length(&mut state), length(&mut state));
        let (tw, th) = (length(&mut state), length(&mut state));
        assert_eq!(resized_size(sw, sh, tw, th, Mode::Fit), with_floats(sw, sh, tw, th, Mode::Fit));
        assert_eq!(
            resized_size(sw, sh, tw, th, Mode::Fill),
            with_floats(sw, sh, tw, th, Mode::Fill)
        );
    }
}

#[test]
fn both_modes_match_float_arithmetic_at_the_limits() {
    let edge = [1u32, 2, 3, 0x7FFF_FFFF, 0x8000_0000, 0xFFFF_FFFE, 0xFFFF_FFFF];
    for &sw in &edge {
        for &sh in &edge {
            for &tw in &edge {
                for &th in &edge {
                    for mode in [Mode::Fit, Mode::Fill] {
                        assert_eq!(
                            resized_size(sw, sh, tw, th, mode),
                            with_floats(sw, sh, tw, th, mode)
                        );
                    }
                }
            }
        }
    }
}

#[test]
fn a_half_that_binary64_rounds_down() {
    // 27 * 13 / 6 is 58.5, but the binary64 quotient 13 / 6 lies below 13 / 6
    assert_eq!(resized_size(6, 27, 13, 100, Mode::Fit), (13, 58));
}

#[test]
fn a_shrunk_side_is_never_empty() {
    assert_eq!(resized_size(1000, 1, 10, 10, Mode::Fit), (10, 1));
}

#[test]
fn fill_saturates_at_the_largest_length() {
    assert_eq!(
        resized_size(u32::MAX, 1, 1, u32::MAX, Mode::Fill),
        (u32::MAX, u32::MAX)
    );
}

#[test]
fn fit_lies_inside_the_target_and_spans_one_axis() {
    let mut state = 0x0123_4567_89AB_CDEFu64;
    for _ in 0..100_000 {
        let (sw, sh) = (length(&mut state), length(&mut state));
        let (tw, th) = (length(&mut state), length(&mut state));
        let (w, h) = resized_size(sw, sh, tw, th, Mode::Fit);
        assert!(1 <= w && w <= tw);
        assert!(1 <= h && h <= th);
        assert!(w == tw || h == th);
    }
}

#[test]
fn fill_covers_the_target_and_meets_one_axis() {
    let mut state = 0xFEDC_BA98_7654_3210u64;
    for _ in 0..100_000 {
        let (sw, sh) = (length(&mut state), length(&mut state));
        let (tw, th) = (length(&mut state), length(&mut state));
        let (w, h) = resized_size(sw, sh, tw, th, Mode::Fill);
        assert!(w >= tw);
        assert!(h >= th);
        assert!(w == tw || h == th);
    }
}

#[test]
fn a_target_with_the_source_proportions_is_met_exactly() {
    for (sw, sh) in [(1u32, 1u32), (3, 2), (16, 9), (49, 98), (1920, 1080), (65_535, 1)] {
        for factor in [1u32, 2, 3, 7, 10, 1000, 65_537] {
            let (tw, th) = (sw * factor, sh * factor);
            assert_eq!(resized_size(sw, sh, tw, th, Mode::Fit), (tw, th));
            assert_eq!(resized_size(sw, sh, tw, th, Mode::Fill), (tw, th));
            assert_eq!(resized_size(tw, th, sw, sh, Mode::Fit), (sw, sh));
            assert_eq!(resized_size(tw, th, sw, sh, Mode::Fill), (sw, sh));
        }
    }
}

#[test]
fn scale_factor_times_a_length() {
    // a third is no binary64 number, yet three thirds round to one
    assert_eq!(Scale::ratio(1, 3).times(3), 1);
    assert_eq!(Scale::ratio(1, 3).times(1), 1);
    assert_eq!(Scale::ratio(1, 3).times(2), 1);
    assert_eq!(Scale::ratio(1, 3).times(4), 1);
    assert_eq!(Scale::ratio(1, 3).times(5), 2);
    assert_eq!(Scale::ratio(1, 2).times(1), 1);
    assert_eq!(Scale::ratio(1, 2).times(3), 2);
    assert_eq!(Scale::ratio(1, 2).times(5), 3);
    assert_eq!(Scale::ratio(1, 4).times(1), 1);
    assert_eq!(Scale::ratio(1, 4).times(6), 2);
    assert_eq!(Scale::ratio(3, 98).times(49), 2);
    assert_eq!(Scale::ratio(13, 6).times(27), 58);
    assert_eq!(Scale::ratio(u32::MAX, 1).times(u32::MAX), u32::MAX);
    assert_eq!(Scale::ratio(1, u32::MAX).times(1), 1);
    assert_eq!(Scale::ratio(1, u32::MAX).times(u32::MAX), 1);
    assert_eq!(Scale::ratio(u32::MAX, u32::MAX).times(12_345), 12_345);
}

#[test]
fn scale_factor_times_a_length_as_floats_do() {
    let mut state = 0x1357_9BDF_0246_8ACEu64;
    for _ in 0..200_000 {
        let (num, den, len) = (length(&mut state), length(&mut state), length(&mut state));
        let expected = ((len as f64) * (num as f64 / den as f64)).round().max(1.0) as u32;
        assert_eq!(Scale::ratio(num, den).times(len), expected);
    }
}

#[test]
fn fill_is_never_short_before_the_raise() {
    let mut state = 0x0F1E_2D3C_4B5A_6978u64;
    for _ in 0..100_000 {
        let (sw, sh) = (length(&mut state), length(&mut state));
        let (tw, th) = (length(&mut state), length(&mut state));
        let by_width = (tw as u64) * (sh as u64) >= (th as u64) * (sw as u64);
        let scale = if by_width { Scale::ratio(tw, sw) } else { Scale::ratio(th, sh) };
        assert!(scale.times(sw) >= tw);
        assert!(scale.times(sh) >= th);
        assert_eq!(resized_size(sw, sh, tw, th, Mode::Fill), (scale.times(sw), scale.times(sh)));
    }
}

#[test]
fn the_smaller_quotient_has_the_smaller_scale() {
    // 1/3 < 2/5 < 1/2, and every length keeps that order
    for len in [1u32, 2, 3, 10, 1000, 65_536, u32::MAX] {
        let third = Scale::ratio(1, 3).times(len);
        let two_fifths = Scale::ratio(2, 5).times(len);
        let half = Scale::ratio(1, 2).times(len);
        assert!(third <= two_fifths && two_fifths <= half);
    }
}
