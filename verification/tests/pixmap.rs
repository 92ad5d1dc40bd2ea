use firemark::pixmap::Pixmap;

#[test]
fn raw_round_trip() {
    let data: Vec<u8> = (0u8..24).collect();
    let img = Pixmap::from_raw(3, 2, data.clone()).expect("six pixels");
    assert_eq!(img.width(), 3);
    assert_eq!(img.height(), 2);
    assert_eq!(img.pixel_count(), 6);
    assert_eq!(img.pixel_at(4), [16, 17, 18, 19]);
    assert_eq!(img.into_raw(), data);
}

#[test]
fn wrong_buffer_size_is_refused() {
    assert!(Pixmap::from_raw(2, 2, vec![0; 12]).is_none());
    assert!(Pixmap::from_raw(2, 2, vec![0; 17]).is_none());
    assert!(Pixmap::from_raw(u32::MAX, u32::MAX, vec![0; 4]).is_none());
    assert!(Pixmap::from_raw(0, 5, vec![]).is_some());
}

#[test]
fn set_pixel_replaces_one_pixel() {
    let mut img = Pixmap::from_raw(2, 1, vec![1, 2, 3, 4, 5, 6, 7, 8]).unwrap();
    img.set_pixel_at(1, [9, 9, 9, 9]);
    assert_eq!(img.into_raw(), vec![1, 2, 3, 4, 9, 9, 9, 9]);
}
