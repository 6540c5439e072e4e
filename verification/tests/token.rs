use fit_resize::{parse_size, Mode};

#[test]
fn size_aliases_name_1280_by_720() {
    assert_eq!(parse_size("youtube"), Some((1280, 720)));
    assert_eq!(parse_size("YT"), Some((1280, 720)));
    assert_eq!(parse_size("yt"), Some((1280, 720)));
    assert_eq!(parse_size("YouTube"), Some((1280, 720)));
}

#[test]
fn size_of_two_numbers() {
    assert_eq!(parse_size("1280x720"), Some((1280, 720)));
    assert_eq!(parse_size("1x1"), Some((1, 1)));
    assert_eq!(parse_size("200x200"), Some((200, 200)));
}

#[test]
fn size_with_an_empty_side_fails() {
    assert_eq!(parse_size("0x10"), None);
    assert_eq!(parse_size("10x0"), None);
    assert_eq!(parse_size("0x0"), None);
    assert_eq!(parse_size("000x5"), None);
}

#[test]
fn size_that_is_no_pair_of_numbers_fails() {
    assert_eq!(parse_size("abc"), None);
    assert_eq!(parse_size("10xabc"), None);
    assert_eq!(parse_size("abcx10"), None);
    assert_eq!(parse_size(""), None);
    assert_eq!(parse_size("x"), None);
    assert_eq!(parse_size("10x"), None);
    assert_eq!(parse_size("x10"), None);
    assert_eq!(parse_size("10"), None);
    assert_eq!(parse_size("10 x 20"), None);
    assert_eq!(parse_size(" 10x20"), None);
    assert_eq!(parse_size("10x20 "), None);
    assert_eq!(parse_size("1.5x2"), None);
    assert_eq!(parse_size("-1x2"), None);
    assert_eq!(parse_size("1x-2"), None);
}

#[test]
fn size_splits_at_the_first_small_x() {
    assert_eq!(parse_size("1x2x3"), None);
    assert_eq!(parse_size("10X20"), None);
    assert_eq!(parse_size("1xx2"), None);
}

#[test]
fn size_numbers_may_carry_a_plus_and_zeros() {
    assert_eq!(parse_size("+5x+7"), Some((5, 7)));
    assert_eq!(parse_size("007x0010"), Some((7, 10)));
    assert_eq!(parse_size("+x1"), None);
    assert_eq!(parse_size("++5x1"), None);
    assert_eq!(parse_size("5+x1"), None);
    assert_eq!(parse_size("+0x1"), None);
}

#[test]
fn size_numbers_end_at_32_bits() {
    assert_eq!(parse_size("4294967295x1"), Some((4294967295, 1)));
    assert_eq!(parse_size("1x4294967295"), Some((1, 4294967295)));
    assert_eq!(parse_size("4294967296x1"), None);
    assert_eq!(parse_size("1x4294967296"), None);
    assert_eq!(parse_size("99999999999999999999999999x1"), None);
    assert_eq!(parse_size("00000000000000000000000004294967295x1"), Some((4294967295, 1)));
}

#[test]
fn size_takes_ascii_digits_only() {
    assert_eq!(parse_size("١٢x3"), None);
    assert_eq!(parse_size("１２x3"), None);
    assert_eq!(parse_size("12×3"), None);
    assert_eq!(parse_size("yt\u{212A}"), None);
}

#[test]
fn size_agrees_with_the_standard_parser() {
    let parts = [
        "", "0", "1", "+1", "-1", "+", "12", "012", "4294967295", "4294967296", "1a", "a1", " 1",
    ];
    for w in parts {
        for h in parts {
            let text = format!("{}x{}", w, h);
            let expected = match (w.parse::<u32>(), h.parse::<u32>()) {
                (Ok(w), Ok(h)) if w != 0 && h != 0 => Some((w, h)),
                _ => None,
            };
            assert_eq!(parse_size(&text), expected);
        }
    }
}

#[test]
fn mode_names_of_fit() {
    assert_eq!(Mode::parse("fit"), Some(Mode::Fit));
    assert_eq!(Mode::parse("Pad"), Some(Mode::Fit));
    assert_eq!(Mode::parse("CONTAIN"), Some(Mode::Fit));
}

#[test]
fn mode_names_of_fill() {
    assert_eq!(Mode::parse("fill"), Some(Mode::Fill));
    assert_eq!(Mode::parse("Crop"), Some(Mode::Fill));
    assert_eq!(Mode::parse("COVER"), Some(Mode::Fill));
}

#[test]
fn mode_of_another_word_fails() {
    assert_eq!(Mode::parse("stretch"), None);
    assert_eq!(Mode::parse(""), None);
    assert_eq!(Mode::parse("fit "), None);
    assert_eq!(Mode::parse("fi"), None);
    assert_eq!(Mode::parse("fitt"), None);
    assert_eq!(Mode::parse("ﬁt"), None);
    assert_eq!(Mode::parse("\u{212A}over"), None);
}

#[test]
fn mode_shows_its_name() {
    assert_eq!(format!("{:?}", Mode::Fit), "Fit");
    assert_eq!(format!("{:?}", Mode::Fill), "Fill");
}
