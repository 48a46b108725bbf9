use bitmapflow_cli::frame::Frame;
use bitmapflow_cli::raster::Rgba;

#[test]
fn new_checks_the_buffer_length() {
    assert!(Frame::new(2, 2, vec![0; 16]).is_some());
    assert!(Frame::new(2, 2, vec![0; 15]).is_none());
    assert!(Frame::new(0, 5, Vec::new()).is_some());
}

#[test]
fn blank_frames_are_transparent() {
    let f = Frame::blank(3, 2);
    assert_eq!(f.data, vec![0; 24]);
    assert_eq!(f.pixel(2, 1), Rgba { r: 0, g: 0, b: 0, a: 0 });
}

#[test]
fn pixels_are_row_major() {
    let f = Frame::new(2, 2, (0..16).collect()).unwrap();
    assert_eq!(f.pixel(1, 0), Rgba { r: 4, g: 5, b: 6, a: 7 });
    assert_eq!(f.pixel(0, 1), Rgba { r: 8, g: 9, b: 10, a: 11 });
    assert_eq!(f.pixel_offset(1, 1), 12);
}
