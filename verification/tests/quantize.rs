use rze_core::bucket::{bucket_range, split_bucket, weighted_average, Axis, Bucket, ColorCount};
use rze_core::color::Rgb8;
use rze_core::histogram::count_colors;
use rze_core::quantize_mediancut::{quantize, quantize_16};

fn weighted(r: u8, g: u8, b: u8, n: u64) -> ColorCount {
    ColorCount { c: Rgb8::new(r, g, b), n }
}

#[test]
fn quantize_is_deterministic() {
    let px = vec![
        Rgb8::new(10, 20, 30),
        Rgb8::new(10, 20, 30),
        Rgb8::new(200, 210, 220),
        Rgb8::new(201, 211, 221),
        Rgb8::new(50, 60, 70),
    ];
    let a = quantize(&px, 4);
    let b = quantize(&px, 4);
    assert_eq!(a, b);
}

#[test]
fn quantize_empty_returns_black() {
    let v = quantize(&[], 3);
    assert_eq!(v, vec![Rgb8::new(0, 0, 0); 3]);
}

#[test]
fn quantize_four_distinct_colours_into_four() {
    let px = vec![
        Rgb8::new(10, 20, 30),
        Rgb8::new(10, 20, 30),
        Rgb8::new(200, 210, 220),
        Rgb8::new(201, 211, 221),
        Rgb8::new(50, 60, 70),
    ];
    assert_eq!(
        quantize(&px, 4),
        vec![
            Rgb8::new(10, 20, 30),
            Rgb8::new(50, 60, 70),
            Rgb8::new(200, 210, 220),
            Rgb8::new(201, 211, 221),
        ]
    );
}

#[test]
fn quantize_five_pixels_into_two() {
    // The weights along red are 2, 1, 1, 1. The first colour carries 2 of 5,
    // less than half, so the cut falls after the second colour.
    let px = vec![
        Rgb8::new(10, 20, 30),
        Rgb8::new(10, 20, 30),
        Rgb8::new(200, 210, 220),
        Rgb8::new(201, 211, 221),
        Rgb8::new(50, 60, 70),
    ];
    assert_eq!(
        quantize(&px, 2),
        vec![Rgb8::new(23, 33, 43), Rgb8::new(200, 210, 220)]
    );
}

#[test]
fn quantize_ignores_pixel_order() {
    let px = vec![
        Rgb8::new(10, 20, 30),
        Rgb8::new(10, 20, 30),
        Rgb8::new(200, 210, 220),
        Rgb8::new(201, 211, 221),
        Rgb8::new(50, 60, 70),
        Rgb8::new(90, 10, 250),
        Rgb8::new(90, 10, 251),
    ];
    let mut reversed = px.clone();
    reversed.reverse();
    let mut rotated = px.clone();
    rotated.rotate_left(3);
    for k in 1..9 {
        let expected = quantize(&px, k);
        assert_eq!(expected.len(), k);
        assert_eq!(quantize(&reversed, k), expected);
        assert_eq!(quantize(&rotated, k), expected);
    }
}

#[test]
fn quantize_two_homogeneous_halves() {
    let mut px = vec![Rgb8::new(10, 20, 30); 1000];
    px.extend(vec![Rgb8::new(240, 245, 250); 1000]);
    assert_eq!(
        quantize(&px, 2),
        vec![Rgb8::new(10, 20, 30), Rgb8::new(240, 245, 250)]
    );
}

#[test]
fn quantize_two_halves_given_brightest_first() {
    let mut px = vec![Rgb8::new(240, 245, 250); 1000];
    px.extend(vec![Rgb8::new(10, 20, 30); 1000]);
    assert_eq!(
        quantize(&px, 2),
        vec![Rgb8::new(10, 20, 30), Rgb8::new(240, 245, 250)]
    );
}

#[test]
fn quantize_16_of_one_grey() {
    let px = vec![Rgb8::new(128, 128, 128); 5000];
    assert_eq!(quantize_16(&px), [Rgb8::new(128, 128, 128); 16]);
}

#[test]
fn quantize_16_pads_with_the_brightest() {
    let px = vec![
        Rgb8::new(200, 0, 0),
        Rgb8::new(0, 0, 40),
        Rgb8::new(0, 90, 0),
    ];
    let out = quantize_16(&px);
    assert_eq!(out.len(), 16);
    assert_eq!(out[0], Rgb8::new(0, 0, 40));
    assert_eq!(out[1], Rgb8::new(0, 90, 0));
    for c in &out[2..] {
        assert_eq!(*c, Rgb8::new(200, 0, 0));
    }
}

#[test]
fn quantize_16_of_nothing_is_black() {
    assert_eq!(quantize_16(&[]), [Rgb8::new(0, 0, 0); 16]);
}

#[test]
fn quantize_averages_round_down() {
    // One bucket: (0 + 0 + 255) / 3 = 85, (1 + 2 + 2) / 3 = 1.
    let px = vec![Rgb8::new(0, 1, 0), Rgb8::new(0, 2, 0), Rgb8::new(255, 2, 0)];
    assert_eq!(quantize(&px, 1), vec![Rgb8::new(85, 1, 0)]);
}

#[test]
fn quantize_cuts_the_widest_bucket_first() {
    // Red spans 0..=200 and blue 0..=100, so the cut is along red. The first
    // colour carries 1 of the weight 3, less than half; the first two carry
    // 2, so the cut falls after them.
    let px = vec![
        Rgb8::new(200, 0, 50),
        Rgb8::new(0, 0, 0),
        Rgb8::new(10, 0, 100),
    ];
    assert_eq!(
        quantize(&px, 2),
        vec![Rgb8::new(5, 0, 50), Rgb8::new(200, 0, 50)]
    );
}

#[test]
fn quantize_prefers_the_first_of_equally_wide_buckets() {
    // After the first cut along red the buckets are {0, 10} and {100, 110}:
    // both span 10, and the first of them is cut.
    let px = vec![
        Rgb8::new(0, 0, 0),
        Rgb8::new(10, 0, 0),
        Rgb8::new(100, 0, 0),
        Rgb8::new(110, 0, 0),
    ];
    assert_eq!(
        quantize(&px, 3),
        vec![Rgb8::new(0, 0, 0), Rgb8::new(10, 0, 0), Rgb8::new(105, 0, 0)]
    );
}

#[test]
fn quantize_is_large_input_fast_enough() {
    let mut px = Vec::new();
    for i in 0..16384u32 {
        px.push(Rgb8::new((i % 256) as u8, (i / 64) as u8, (i * 7 % 251) as u8));
    }
    let out = quantize_16(&px);
    for w in out.windows(2) {
        assert!(w[0].rel_luminance() <= w[1].rel_luminance());
    }
}

#[test]
fn count_colors_lists_colours_in_lexicographic_order() {
    let px = vec![
        Rgb8::new(1, 0, 0),
        Rgb8::new(0, 255, 255),
        Rgb8::new(1, 0, 0),
        Rgb8::new(0, 0, 1),
        Rgb8::new(1, 0, 0),
    ];
    assert_eq!(
        count_colors(&px),
        vec![weighted(0, 0, 1, 1), weighted(0, 255, 255, 1), weighted(1, 0, 0, 3)]
    );
    assert_eq!(count_colors(&[]), vec![]);
}

#[test]
fn bucket_range_prefers_red_then_green() {
    let b = Bucket {
        colors: vec![weighted(10, 20, 30, 1), weighted(40, 50, 60, 1)],
        total: 2,
    };
    assert_eq!(bucket_range(&b), (30, Axis::R));
    let b = Bucket {
        colors: vec![weighted(10, 20, 30, 1), weighted(11, 50, 60, 1)],
        total: 2,
    };
    assert_eq!(bucket_range(&b), (30, Axis::G));
    let b = Bucket {
        colors: vec![weighted(10, 20, 30, 1), weighted(11, 21, 90, 1)],
        total: 2,
    };
    assert_eq!(bucket_range(&b), (60, Axis::B));
    let b = Bucket { colors: vec![weighted(7, 8, 9, 5)], total: 5 };
    assert_eq!(bucket_range(&b), (0, Axis::R));
}

#[test]
fn split_bucket_cuts_at_the_weighted_median() {
    // Weights 1, 1, 6 sorted along green: half of 8 is 4, reached only with
    // the third member, so the cut is moved back to keep the right side.
    let b = Bucket {
        colors: vec![weighted(0, 30, 0, 6), weighted(0, 10, 0, 1), weighted(0, 20, 0, 1)],
        total: 8,
    };
    let (left, right) = split_bucket(b, Axis::G);
    assert_eq!(left.colors, vec![weighted(0, 10, 0, 1), weighted(0, 20, 0, 1)]);
    assert_eq!(right.colors, vec![weighted(0, 30, 0, 6)]);
    assert_eq!((left.total, right.total), (2, 6));

    // Weights 5, 1, 1: the first member alone carries more than half of 7.
    let b = Bucket {
        colors: vec![weighted(1, 0, 0, 5), weighted(2, 0, 0, 1), weighted(3, 0, 0, 1)],
        total: 7,
    };
    let (left, right) = split_bucket(b, Axis::R);
    assert_eq!(left.colors, vec![weighted(1, 0, 0, 5)]);
    assert_eq!(right.colors, vec![weighted(2, 0, 0, 1), weighted(3, 0, 0, 1)]);
    assert_eq!((left.total, right.total), (5, 2));
}

#[test]
fn split_bucket_of_odd_weight_reaches_the_full_half() {
    // Weights 2, 1, 1, 1: the first member carries 2 of 5, which is less than
    // half; the first two carry 3.
    let b = Bucket {
        colors: vec![
            weighted(10, 20, 30, 2),
            weighted(50, 60, 70, 1),
            weighted(200, 210, 220, 1),
            weighted(201, 211, 221, 1),
        ],
        total: 5,
    };
    let (left, right) = split_bucket(b, Axis::R);
    assert_eq!(left.colors, vec![weighted(10, 20, 30, 2), weighted(50, 60, 70, 1)]);
    assert_eq!(left.total, 3);
    assert_eq!(
        right.colors,
        vec![weighted(200, 210, 220, 1), weighted(201, 211, 221, 1)]
    );
    assert_eq!(right.total, 2);
}

#[test]
fn split_bucket_of_even_weight_stops_at_the_exact_half() {
    // Weights 2, 2: the first member carries exactly half of 4.
    let b = Bucket {
        colors: vec![weighted(9, 0, 0, 2), weighted(3, 0, 0, 2)],
        total: 4,
    };
    let (left, right) = split_bucket(b, Axis::R);
    assert_eq!(left.colors, vec![weighted(3, 0, 0, 2)]);
    assert_eq!(right.colors, vec![weighted(9, 0, 0, 2)]);
    assert_eq!((left.total, right.total), (2, 2));
}

#[test]
fn split_bucket_keeps_the_order_of_equal_values() {
    let b = Bucket {
        colors: vec![
            weighted(5, 9, 0, 1),
            weighted(5, 1, 0, 1),
            weighted(4, 7, 0, 1),
            weighted(5, 3, 0, 1),
        ],
        total: 4,
    };
    let (left, right) = split_bucket(b, Axis::R);
    assert_eq!(left.colors, vec![weighted(4, 7, 0, 1), weighted(5, 9, 0, 1)]);
    assert_eq!(right.colors, vec![weighted(5, 1, 0, 1), weighted(5, 3, 0, 1)]);
}

#[test]
fn weighted_average_rounds_down_and_handles_no_weight() {
    let b = Bucket {
        colors: vec![weighted(10, 0, 255, 1), weighted(20, 1, 255, 2)],
        total: 3,
    };
    assert_eq!(weighted_average(&b), Rgb8::new(16, 0, 255));
    let empty = Bucket { colors: vec![], total: 0 };
    assert_eq!(weighted_average(&empty), Rgb8::new(0, 0, 0));
}
