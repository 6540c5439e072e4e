use fit_resize::Raster;

#[test]
fn raster_takes_four_bytes_a_pixel() {
    assert!(Raster::from_raw(2, 3, vec![0; 24]).is_some());
    assert!(Raster::from_raw(2, 3, vec![0; 23]).is_none());
    assert!(Raster::from_raw(2, 3, vec![0; 25]).is_none());
    assert!(Raster::from_raw(2, 3, Vec::new()).is_none());
}

#[test]
fn raster_without_pixels_has_no_bytes() {
    assert!(Raster::from_raw(0, 7, Vec::new()).is_some());
    assert!(Raster::from_raw(7, 0, Vec::new()).is_some());
    assert!(Raster::from_raw(0, 0, Vec::new()).is_some());
    assert!(Raster::from_raw(0, 7, vec![0; 4]).is_none());
}

#[test]
fn raster_of_the_largest_size_needs_its_bytes() {
    assert!(Raster::from_raw(u32::MAX, u32::MAX, vec![0; 16]).is_none());
    assert!(Raster::from_raw(u32::MAX, u32::MAX, Vec::new()).is_none());
}

#[test]
fn raster_gives_back_what_it_was_made_of() {
    let bytes: Vec<u8> = (0..24).collect();
    let raster = Raster::from_raw(3, 2, bytes.clone()).unwrap();
    assert_eq!(raster.width(), 3);
    assert_eq!(raster.height(), 2);
    assert_eq!(raster.as_raw(), &bytes);
    assert_eq!(raster.clone(), raster);
    assert_eq!(raster.into_raw(), bytes);
}

#[test]
fn raster_pixels_lie_row_by_row() {
    let bytes: Vec<u8> = (0..24).collect();
    let raster = Raster::from_raw(3, 2, bytes).unwrap();
    assert_eq!(raster.pixel(0, 0), [0, 1, 2, 3]);
    assert_eq!(raster.pixel(2, 0), [8, 9, 10, 11]);
    assert_eq!(raster.pixel(0, 1), [12, 13, 14, 15]);
    assert_eq!(raster.pixel(2, 1), [20, 21, 22, 23]);
}
