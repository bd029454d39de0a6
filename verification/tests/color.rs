use rze_core::color::{contrast_ratio, Rgb8, CONTRAST_OFFSET, LUMINANCE_ONE};
use rze_core::transfer::{linear_level, LINEAR_ONE};

fn luminance_of(c: Rgb8) -> f64 {
    c.rel_luminance() as f64 / LUMINANCE_ONE as f64
}

fn ratio_of(a: Rgb8, b: Rgb8) -> f64 {
    let c = contrast_ratio(a, b);
    c.num as f64 / c.den as f64
}

#[test]
fn luminance_black_white() {
    assert!(luminance_of(Rgb8::new(0, 0, 0)) < 0.001);
    assert!(luminance_of(Rgb8::new(255, 255, 255)) > 0.99);
}

#[test]
fn contrast_is_symmetric() {
    let a = Rgb8::new(10, 20, 30);
    let b = Rgb8::new(240, 240, 240);
    let ab = ratio_of(a, b);
    let ba = ratio_of(b, a);
    assert!((ab - ba).abs() < 1e-6);
}

#[test]
fn luminance_exact_values() {
    assert_eq!(Rgb8::new(0, 0, 0).rel_luminance(), 0);
    assert_eq!(Rgb8::new(255, 255, 255).rel_luminance(), LUMINANCE_ONE);
    assert_eq!(Rgb8::new(255, 0, 0).rel_luminance(), 2126 * LINEAR_ONE);
    assert_eq!(Rgb8::new(0, 255, 0).rel_luminance(), 7152 * LINEAR_ONE);
    assert_eq!(Rgb8::new(0, 0, 255).rel_luminance(), 722 * LINEAR_ONE);
    assert_eq!(Rgb8::new(128, 128, 128).rel_luminance(), 2_158_605_001_140_000);
}

#[test]
fn luminance_agrees_with_the_formula_in_floating_point() {
    fn linear(c: u8) -> f64 {
        let x = c as f64 / 255.0;
        if x <= 0.04045 {
            x / 12.92
        } else {
            ((x + 0.055) / 1.055).powf(2.4)
        }
    }
    for c in 0..=255u8 {
        let exact = linear_level(c) as f64 / LINEAR_ONE as f64;
        assert!((exact - linear(c)).abs() < 1e-12);
    }
    let c = Rgb8::new(10, 20, 30);
    let expected = 0.2126 * linear(10) + 0.7152 * linear(20) + 0.0722 * linear(30);
    assert!((luminance_of(c) - expected).abs() < 1e-12);
}

#[test]
fn linear_level_follows_both_branches() {
    // 10 / 255 is below the knee 0.04045: round(1e12 * 10 / 255 / 12.92).
    assert_eq!(linear_level(10), 3_035_269_835);
    // 11 / 255 is above it: round(1e12 * ((11 / 255 + 0.055) / 1.055)^2.4).
    assert_eq!(linear_level(11), 3_346_535_764);
    assert_eq!(linear_level(0), 0);
    assert_eq!(linear_level(255), LINEAR_ONE);
}

#[test]
fn contrast_of_black_and_white_is_21() {
    let c = contrast_ratio(Rgb8::new(0, 0, 0), Rgb8::new(255, 255, 255));
    assert_eq!(c.num, LUMINANCE_ONE + CONTRAST_OFFSET);
    assert_eq!(c.den, CONTRAST_OFFSET);
    assert_eq!(c.num, 21 * c.den);
    assert!(c.at_least(21, 1));
    assert!(!c.at_least(22, 1));
}

#[test]
fn contrast_of_a_colour_with_itself_is_1() {
    let a = Rgb8::new(90, 14, 200);
    let c = contrast_ratio(a, a);
    assert_eq!(c.num, c.den);
    assert!(c.at_least(1, 1));
    assert!(!c.is_below(c));
}

#[test]
fn contrast_is_exactly_symmetric() {
    let a = Rgb8::new(10, 20, 30);
    let b = Rgb8::new(240, 240, 240);
    let ab = contrast_ratio(a, b);
    let ba = contrast_ratio(b, a);
    assert_eq!((ab.num, ab.den), (ba.num, ba.den));
}

#[test]
fn contrast_comparison() {
    let black = Rgb8::new(0, 0, 0);
    let low = contrast_ratio(black, Rgb8::new(60, 60, 60));
    let high = contrast_ratio(black, Rgb8::new(200, 200, 200));
    assert!(low.is_below(high));
    assert!(!high.is_below(low));
    // (117, 117, 117) on black is 4.558 : 1, (116, 116, 116) is 4.493 : 1.
    assert!(contrast_ratio(black, Rgb8::new(117, 117, 117)).at_least(9, 2));
    assert!(!contrast_ratio(black, Rgb8::new(116, 116, 116)).at_least(9, 2));
}

#[test]
fn hex_is_lower_case_with_two_digits_per_channel() {
    assert_eq!(Rgb8::new(0, 0, 0).hex(), "#000000");
    assert_eq!(Rgb8::new(255, 255, 255).hex(), "#ffffff");
    assert_eq!(Rgb8::new(1, 171, 9).hex(), "#01ab09");
    assert_eq!(Rgb8::new(0x9f, 0xa0, 0x5c).hex(), "#9fa05c");
}

#[test]
fn packed_is_the_lexicographic_rank() {
    assert_eq!(Rgb8::new(0, 0, 0).packed(), 0);
    assert_eq!(Rgb8::new(1, 2, 3).packed(), 0x010203);
    assert_eq!(Rgb8::new(255, 255, 255).packed(), 0xff_ffff);
    assert!(Rgb8::new(0, 255, 255).packed() < Rgb8::new(1, 0, 0).packed());
}
