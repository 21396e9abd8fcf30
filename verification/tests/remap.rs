use quantizr::remap::{check_output_buffer, Error};

#[test]
fn buffer_large_enough() {
    assert_eq!(check_output_buffer(12, 4, 3), Ok(()));
    assert_eq!(check_output_buffer(100, 4, 3), Ok(()));
    assert_eq!(check_output_buffer(0, 0, 5), Ok(()));
}

#[test]
fn buffer_too_small() {
    assert_eq!(check_output_buffer(11, 4, 3), Err(Error::BufferTooSmall));
    assert_eq!(check_output_buffer(0, 1, 1), Err(Error::BufferTooSmall));
}
