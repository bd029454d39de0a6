use rze_core::color::Rgb8;
use rze_core::palette::Palette16;
use rze_core::roles::{assign_roles, Roles};

#[test]
fn assign_roles_of_nothing_gives_the_defaults() {
    assert_eq!(
        assign_roles(&[]),
        Roles {
            bg: Rgb8::new(0, 0, 0),
            fg: Rgb8::new(255, 255, 255),
            cursor: Rgb8::new(255, 255, 255),
        }
    );
}

#[test]
fn assign_roles_takes_the_darkest_and_the_brightest() {
    let colors = [
        Rgb8::new(120, 120, 120),
        Rgb8::new(250, 250, 250),
        Rgb8::new(5, 5, 5),
        Rgb8::new(60, 60, 60),
    ];
    assert_eq!(
        assign_roles(&colors),
        Roles {
            bg: Rgb8::new(5, 5, 5),
            fg: Rgb8::new(250, 250, 250),
            cursor: Rgb8::new(250, 250, 250),
        }
    );
}

#[test]
fn assign_roles_keeps_the_best_where_none_is_readable() {
    // (116, 116, 116) on black is below 4.5 : 1.
    let colors = [Rgb8::new(116, 116, 116), Rgb8::new(0, 0, 0), Rgb8::new(40, 40, 40)];
    let r = assign_roles(&colors);
    assert_eq!(r.bg, Rgb8::new(0, 0, 0));
    assert_eq!(r.fg, Rgb8::new(116, 116, 116));
    assert_eq!(r.cursor, Rgb8::new(116, 116, 116));
}

#[test]
fn assign_roles_of_one_colour() {
    let c = Rgb8::new(9, 99, 199);
    assert_eq!(assign_roles(&[c]), Roles { bg: c, fg: c, cursor: c });
}

#[test]
fn assign_roles_foreground_is_readable_where_a_colour_is() {
    let sets: [&[Rgb8]; 3] = [
        &[Rgb8::new(0, 0, 0), Rgb8::new(117, 117, 117), Rgb8::new(30, 30, 30)],
        &[Rgb8::new(200, 10, 10), Rgb8::new(10, 10, 200), Rgb8::new(255, 255, 0)],
        &[Rgb8::new(100, 100, 100), Rgb8::new(101, 101, 101)],
    ];
    for colors in sets {
        let r = assign_roles(colors);
        let readable = colors
            .iter()
            .any(|c| rze_core::color::contrast_ratio(r.bg, *c).at_least(9, 2));
        if readable {
            assert!(rze_core::color::contrast_ratio(r.bg, r.fg).at_least(9, 2));
        }
    }
}

#[test]
fn roles_among_colours_of_equal_luminance() {
    // Both greys below have the luminance of no other colour here; the two
    // copies of the brightest tie, and the cursor is the first of them.
    let colors = [Rgb8::new(200, 200, 200), Rgb8::new(3, 3, 3), Rgb8::new(200, 200, 200)];
    let r = assign_roles(&colors);
    assert_eq!(r.bg, Rgb8::new(3, 3, 3));
    assert_eq!(r.fg, Rgb8::new(200, 200, 200));
    assert_eq!(r.cursor, Rgb8::new(200, 200, 200));
}

#[test]
fn palette_is_sorted_by_luminance() {
    let mut colors = [Rgb8::new(0, 0, 0); 16];
    for i in 0..16u8 {
        let v = 255 - 16 * i;
        colors[i as usize] = Rgb8::new(v, v / 2, 255 - v);
    }
    let p = Palette16::from_quantized(colors);
    for w in p.colors.windows(2) {
        assert!(w[0].rel_luminance() <= w[1].rel_luminance());
    }
    assert_eq!(p.bg, p.colors[0]);
    assert_eq!(p.fg, p.colors[15]);
    assert_eq!(p.cursor, p.colors[15]);
    let mut given = colors.to_vec();
    let mut kept = p.colors.to_vec();
    given.sort_by_key(|c| c.packed());
    kept.sort_by_key(|c| c.packed());
    assert_eq!(given, kept);
}

#[test]
fn palette_does_not_enforce_a_minimum_contrast() {
    let mut colors = [Rgb8::new(100, 100, 100); 16];
    colors[3] = Rgb8::new(101, 101, 101);
    colors[9] = Rgb8::new(99, 99, 99);
    let p = Palette16::from_quantized(colors);
    assert_eq!(p.bg, Rgb8::new(99, 99, 99));
    assert_eq!(p.fg, Rgb8::new(101, 101, 101));
    assert_eq!(p.cursor, Rgb8::new(101, 101, 101));
    assert_eq!(p.colors[1], Rgb8::new(100, 100, 100));
    assert_eq!(p.colors[14], Rgb8::new(100, 100, 100));
}

#[test]
fn palette_of_sixteen_equal_colours() {
    let c = Rgb8::new(128, 128, 128);
    let p = Palette16::from_quantized([c; 16]);
    assert_eq!(p.colors, [c; 16]);
    assert_eq!((p.bg, p.fg, p.cursor), (c, c, c));
}
