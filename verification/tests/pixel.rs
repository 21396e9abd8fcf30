use quantizr::pixel::{pix_or_empty, pixel_at, EMPTY_PIX};

#[test]
fn transparent_pixel_becomes_empty() {
    let pix = [10u8, 20, 30, 0];
    assert_eq!(pix_or_empty(&pix), &[0u8, 0, 0, 0][..]);
}

#[test]
fn opaque_pixel_is_kept() {
    let pix = [10u8, 20, 30, 1];
    assert_eq!(pix_or_empty(&pix), &[10u8, 20, 30, 1][..]);
}

#[test]
fn longer_slice_is_kept_whole() {
    let pix = [1u8, 2, 3, 4, 5];
    assert_eq!(pix_or_empty(&pix), &[1u8, 2, 3, 4, 5][..]);
}

#[test]
fn empty_pixel_is_all_zero() {
    assert_eq!(EMPTY_PIX, [0u8; 4]);
}

#[test]
fn pixel_at_reads_the_right_pixel() {
    let data = [1u8, 2, 3, 255, 4, 5, 6, 0, 7, 8, 9, 128];
    assert_eq!(pixel_at(&data, 0), [1, 2, 3, 255]);
    assert_eq!(pixel_at(&data, 1), [0, 0, 0, 0]);
    assert_eq!(pixel_at(&data, 2), [7, 8, 9, 128]);
}
