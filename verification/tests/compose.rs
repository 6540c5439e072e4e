use fit_resize::{can_compose, compose, Mode, Raster};

const WHITE: [u8; 4] = [255, 255, 255, 255];

/// A raster whose pixel in column `x` of row `y` is `[x, y, x + y, alpha]`.
fn numbered(width: u32, height: u32, alpha: u8) -> Raster {
    let mut bytes = Vec::new();
    for y in 0..height {
        for x in 0..width {
            bytes.extend_from_slice(&[x as u8, y as u8, (x + y) as u8, alpha]);
        }
    }
    Raster::from_raw(width, height, bytes).unwrap()
}

#[test]
fn fit_centres_an_opaque_image_on_white() {
    let out = compose(numbered(4, 2, 255), 4, 6, Mode::Fit);
    assert_eq!((out.width(), out.height()), (4, 6));
    for x in 0..4 {
        for y in 0..6 {
            let expected = if (2..4).contains(&y) {
                [x as u8, (y - 2) as u8, (x + y - 2) as u8, 255]
            } else {
                WHITE
            };
            assert_eq!(out.pixel(x, y), expected);
        }
    }
}

#[test]
fn fit_rounds_the_offset_down() {
    // (5 - 2) / 2 == 1 column to the left, (4 - 1) / 2 == 1 row above
    let out = compose(numbered(2, 1, 255), 5, 4, Mode::Fit);
    for x in 0..5 {
        for y in 0..4 {
            let expected = if y == 1 && (1..3).contains(&x) {
                [(x - 1) as u8, 0, (x - 1) as u8, 255]
            } else {
                WHITE
            };
            assert_eq!(out.pixel(x, y), expected);
        }
    }
}

#[test]
fn fit_leaves_white_under_transparent_pixels() {
    let out = compose(numbered(3, 3, 0), 5, 5, Mode::Fit);
    for x in 0..5 {
        for y in 0..5 {
            assert_eq!(out.pixel(x, y), WHITE);
        }
    }
}

#[test]
fn fit_blends_translucent_pixels_into_white() {
    let top = Raster::from_raw(1, 1, vec![0, 0, 0, 128]).unwrap();
    let out = compose(top, 3, 1, Mode::Fit);
    assert_eq!(out.pixel(0, 0), WHITE);
    assert_eq!(out.pixel(2, 0), WHITE);
    // half black over white, in single precision and cut off, not rounded
    assert_eq!(out.pixel(1, 0), [127, 127, 127, 254]);
    let top = Raster::from_raw(1, 1, vec![200, 100, 0, 64]).unwrap();
    assert_eq!(compose(top, 1, 1, Mode::Fit).pixel(0, 0), [241, 216, 191, 255]);
}

#[test]
fn fit_fills_the_target_with_an_image_of_its_size() {
    let out = compose(numbered(3, 2, 255), 3, 2, Mode::Fit);
    assert_eq!(out, numbered(3, 2, 255));
}

#[test]
fn fit_clips_an_image_larger_than_the_target() {
    // centred at -((6 - 2) / 2) == -2 and -((5 - 1) / 2) == -2
    let out = compose(numbered(6, 5, 255), 2, 1, Mode::Fit);
    assert_eq!((out.width(), out.height()), (2, 1));
    assert_eq!(out.pixel(0, 0), [2, 2, 4, 255]);
    assert_eq!(out.pixel(1, 0), [3, 2, 5, 255]);
}

#[test]
fn fit_of_an_image_without_pixels_is_all_white() {
    let out = compose(Raster::from_raw(0, 0, Vec::new()).unwrap(), 2, 2, Mode::Fit);
    assert_eq!(out.into_raw(), vec![255; 16]);
}

#[test]
fn fill_cuts_the_centre() {
    let out = compose(numbered(8, 4, 200), 4, 2, Mode::Fill);
    assert_eq!((out.width(), out.height()), (4, 2));
    for x in 0..4 {
        for y in 0..2 {
            assert_eq!(out.pixel(x, y), [(x + 2) as u8, (y + 1) as u8, (x + y + 3) as u8, 200]);
        }
    }
}

#[test]
fn fill_rounds_the_offset_down() {
    // (7 - 4) / 2 == 1 column, (4 - 1) / 2 == 1 row
    let out = compose(numbered(7, 4, 255), 4, 1, Mode::Fill);
    for x in 0..4 {
        assert_eq!(out.pixel(x, 0), [(x + 1) as u8, 1, (x + 2) as u8, 255]);
    }
}

#[test]
fn fill_keeps_an_image_of_the_target_size() {
    let out = compose(numbered(5, 3, 17), 5, 3, Mode::Fill);
    assert_eq!(out, numbered(5, 3, 17));
}

#[test]
fn fill_keeps_translucent_pixels_as_they_are() {
    let out = compose(numbered(3, 3, 1), 1, 1, Mode::Fill);
    assert_eq!(out.into_raw(), vec![1, 1, 2, 1]);
}

#[test]
fn fill_needs_an_image_that_covers_the_target() {
    let image = numbered(4, 3, 255);
    assert!(can_compose(&image, 4, 3, Mode::Fill));
    assert!(can_compose(&image, 1, 1, Mode::Fill));
    assert!(!can_compose(&image, 5, 3, Mode::Fill));
    assert!(!can_compose(&image, 4, 4, Mode::Fill));
    assert!(can_compose(&image, 5, 4, Mode::Fit));
    assert!(can_compose(&image, 1, 1, Mode::Fit));
}

#[test]
fn a_target_beyond_memory_cannot_be_composed() {
    let image = numbered(1, 1, 255);
    assert!(!can_compose(&image, u32::MAX, u32::MAX, Mode::Fit));
    assert!(can_compose(&image, 1280, 720, Mode::Fit));
}

#[test]
fn a_target_without_rows_has_no_bytes() {
    assert!(can_compose(&numbered(2, 2, 255), 3, 0, Mode::Fit));
    let out = compose(numbered(2, 2, 255), 3, 0, Mode::Fit);
    assert_eq!((out.width(), out.height()), (3, 0));
    assert!(out.into_raw().is_empty());
    let out = compose(numbered(2, 2, 255), 0, 0, Mode::Fill);
    assert!(out.into_raw().is_empty());
}
