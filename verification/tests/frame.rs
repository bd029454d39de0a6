use rze_core::color::Rgb8;
use rze_core::frame::{pixels_from_rgb24, SizeMismatch};

#[test]
fn frame_of_two_pixels() {
    let bytes = [1u8, 2, 3, 250, 251, 252];
    assert_eq!(
        pixels_from_rgb24(&bytes, 2, 1),
        Ok(vec![Rgb8::new(1, 2, 3), Rgb8::new(250, 251, 252)])
    );
    assert_eq!(
        pixels_from_rgb24(&bytes, 1, 2),
        Ok(vec![Rgb8::new(1, 2, 3), Rgb8::new(250, 251, 252)])
    );
}

#[test]
fn frame_of_no_pixel() {
    assert_eq!(pixels_from_rgb24(&[], 0, 7), Ok(vec![]));
}

#[test]
fn frame_of_the_wrong_size_is_refused() {
    let bytes = [0u8; 3];
    assert_eq!(
        pixels_from_rgb24(&bytes, 2, 2),
        Err(SizeMismatch { got: 3, expected: 12 })
    );
    assert_eq!(
        pixels_from_rgb24(&bytes, u32::MAX, u32::MAX),
        Err(SizeMismatch { got: 3, expected: u64::MAX })
    );
}
