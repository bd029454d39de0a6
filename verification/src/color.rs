//! The colour value type and its colour-space arithmetic.

use vstd::prelude::*;
use crate::order::{arrange, key_values, sorted_stably};
use crate::transfer::{linear, linear_level};

verus! {

/// Relative luminance of white: luminances are in units of `1 / LUMINANCE_ONE`.
pub const LUMINANCE_ONE: u64 = 10_000_000_000_000_000;

/// The WCAG flare term 0.05, in luminance units.
pub const CONTRAST_OFFSET: u64 = 500_000_000_000_000;

/// An 8-bit sRGB colour.
#[derive(Debug, Clone, Copy, PartialEq, Eq, Hash, Structural)]
pub struct Rgb8 {
    pub r: u8,
    pub g: u8,
    pub b: u8,
}

/// An exact contrast ratio, the fraction `num / den`.
///
/// Ratios are compared by cross-multiplication; two values of this type are
/// the same ratio whenever `a.num * b.den == b.num * a.den`.
#[derive(Debug, Clone, Copy)]
pub struct Contrast {
    pub num: u64,
    pub den: u64,
}

impl Rgb8 {
    /// Makes the colour of the given red, green and blue.
    pub fn new(r: u8, g: u8, b: u8) -> (c: Self)
        ensures
            c == (Rgb8 { r, g, b }),
    {
        Self { r, g, b }
    }

    /// Rank of the colour in the lexicographic order on (red, green, blue).
    pub open spec fn code(self) -> int {
        self.r as int * 65536 + self.g as int * 256 + self.b as int
    }

    /// Computes the rank of the colour in the lexicographic order.
    pub fn packed(self) -> (k: u32)
        ensures
            k == self.code(),
            k < 0x100_0000,
    {
        self.r as u32 * 65536 + self.g as u32 * 256 + self.b as u32
    }

    /// The text `#rrggbb`: the three channels as two lower-case hexadecimal
    /// digits each.
    pub open spec fn hex_text(self) -> Seq<char> {
        seq![
            '#',
            hex_digit(self.r as int / 16),
            hex_digit(self.r as int % 16),
            hex_digit(self.g as int / 16),
            hex_digit(self.g as int % 16),
            hex_digit(self.b as int / 16),
            hex_digit(self.b as int % 16),
        ]
    }

    /// Formats the colour as `#rrggbb`.
    pub fn hex(self) -> (text: String)
        ensures
            text@ == self.hex_text(),
    {
        let mut text = String::new();
        text.push('#');
        text.push(hex_char(self.r / 16));
        text.push(hex_char(self.r % 16));
        text.push(hex_char(self.g / 16));
        text.push(hex_char(self.g % 16));
        text.push(hex_char(self.b / 16));
        text.push(hex_char(self.b % 16));
        assert(text@ =~= self.hex_text());
        text
    }

    /// WCAG relative luminance `0.2126 R + 0.7152 G + 0.0722 B` of the
    /// linear-light channels, in units of `1 / LUMINANCE_ONE`.
    pub open spec fn luminance(self) -> int {
        2126 * linear(self.r) + 7152 * linear(self.g) + 722 * linear(self.b)
    }

    /// Computes the relative luminance, in units of `1 / LUMINANCE_ONE`.
    pub fn rel_luminance(self) -> (l: u64)
        ensures
            l == self.luminance(),
            l <= LUMINANCE_ONE,
    {
        2126 * linear_level(self.r) + 7152 * linear_level(self.g) + 722 * linear_level(self.b)
    }
}

impl Contrast {
    /// The ratio is a fraction with a positive denominator.
    pub open spec fn wf(self) -> bool {
        self.den > 0
    }

    /// `self < other` as fractions.
    pub open spec fn below(self, other: Contrast) -> bool {
        self.num * other.den < other.num * self.den
    }

    /// `self >= num / den` as fractions.
    pub open spec fn reaches(self, num: int, den: int) -> bool {
        self.num * den >= num * self.den
    }

    /// Tells whether this ratio is strictly smaller than `other`.
    pub fn is_below(self, other: Contrast) -> (r: bool)
        ensures
            r == self.below(other),
    {
        assert(self.num * other.den <= u64::MAX * u64::MAX) by (nonlinear_arith)
            requires self.num <= u64::MAX, other.den <= u64::MAX;
        assert(other.num * self.den <= u64::MAX * u64::MAX) by (nonlinear_arith)
            requires other.num <= u64::MAX, self.den <= u64::MAX;
        (self.num as u128) * (other.den as u128) < (other.num as u128) * (self.den as u128)
    }

    /// Tells whether this ratio is at least `num / den`.
    pub fn at_least(self, num: u64, den: u64) -> (r: bool)
        ensures
            r == self.reaches(num as int, den as int),
    {
        assert(self.num * den <= u64::MAX * u64::MAX) by (nonlinear_arith)
            requires self.num <= u64::MAX, den <= u64::MAX;
        assert(num * self.den <= u64::MAX * u64::MAX) by (nonlinear_arith)
            requires num <= u64::MAX, self.den <= u64::MAX;
        (self.num as u128) * (den as u128) >= (num as u128) * (self.den as u128)
    }
}

/// The lower-case hexadecimal digit of value `d`.
pub open spec fn hex_digit(d: int) -> char {
    if d < 10 {
        ('0' as int + d) as char
    } else {
        ('a' as int + d - 10) as char
    }
}

/// Gives the lower-case hexadecimal digit of a value below 16.
fn hex_char(d: u8) -> (c: char)
    requires
        d < 16,
    ensures
        c == hex_digit(d as int),
{
    if d < 10 {
        (48 + d) as char
    } else {
        (87 + d) as char
    }
}

/// The WCAG contrast ratio `(L_hi + 0.05) / (L_lo + 0.05)` of two colours,
/// where `L_hi` is the larger and `L_lo` the smaller of their luminances.
pub open spec fn contrast(a: Rgb8, b: Rgb8) -> Contrast {
    let la = a.luminance();
    let lb = b.luminance();
    if la >= lb {
        Contrast { num: (la + CONTRAST_OFFSET) as u64, den: (lb + CONTRAST_OFFSET) as u64 }
    } else {
        Contrast { num: (lb + CONTRAST_OFFSET) as u64, den: (la + CONTRAST_OFFSET) as u64 }
    }
}

/// Computes the contrast ratio of two colours.
pub fn contrast_ratio(a: Rgb8, b: Rgb8) -> (c: Contrast)
    ensures
        c == contrast(a, b),
{
    let la = a.rel_luminance();
    let lb = b.rel_luminance();
    if la >= lb {
        Contrast { num: la + CONTRAST_OFFSET, den: lb + CONTRAST_OFFSET }
    } else {
        Contrast { num: lb + CONTRAST_OFFSET, den: la + CONTRAST_OFFSET }
    }
}

/// The sort key of a colour: its relative luminance.
pub open spec fn by_luminance() -> spec_fn(Rgb8) -> int {
    |c: Rgb8| c.luminance()
}

/// Colour `i` has the largest contrast against `bg`, and is the first that
/// has it.
pub open spec fn is_best_contrast(colors: Seq<Rgb8>, bg: Rgb8, i: int) -> bool {
    &&& 0 <= i < colors.len()
    &&& forall|j: int|
        0 <= j < colors.len() ==> !contrast(bg, colors[i]).below(
            contrast(bg, #[trigger] colors[j]),
        )
    &&& forall|j: int|
        0 <= j < i ==> contrast(bg, #[trigger] colors[j]).below(contrast(bg, colors[i]))
}

/// The position of the colour of largest contrast against `bg`, the first
/// among equals.
pub open spec fn best_contrast(colors: Seq<Rgb8>, bg: Rgb8) -> int {
    choose|i: int| is_best_contrast(colors, bg, i)
}

/// A contrast ratio is a fraction of positive luminance terms, the larger one
/// on top.
pub proof fn lemma_contrast_bounds(a: Rgb8, b: Rgb8)
    ensures
        0 < contrast(a, b).den <= contrast(a, b).num <= LUMINANCE_ONE + CONTRAST_OFFSET,
        contrast(a, b).reaches(1, 1),
{
    lemma_luminance_bounds(a);
    lemma_luminance_bounds(b);
}

/// A luminance lies between 0 and the luminance of white.
pub proof fn lemma_luminance_bounds(c: Rgb8)
    ensures
        0 <= c.luminance() <= LUMINANCE_ONE,
{
    crate::transfer::lemma_linear_bounds(c.r);
    crate::transfer::lemma_linear_bounds(c.g);
    crate::transfer::lemma_linear_bounds(c.b);
}

/// The contrast of two colours does not depend on their order.
pub proof fn lemma_contrast_symmetric(a: Rgb8, b: Rgb8)
    ensures
        contrast(a, b) == contrast(b, a),
{
}

/// Against a fixed colour that is no brighter than either, the colour of
/// larger luminance has the larger contrast.
pub proof fn lemma_contrast_follows_luminance(bg: Rgb8, a: Rgb8, b: Rgb8)
    requires
        bg.luminance() <= a.luminance(),
        bg.luminance() <= b.luminance(),
    ensures
        contrast(bg, a).below(contrast(bg, b)) <==> a.luminance() < b.luminance(),
{
    lemma_luminance_bounds(bg);
    lemma_luminance_bounds(a);
    lemma_luminance_bounds(b);
    let d = bg.luminance() + CONTRAST_OFFSET;
    let x = a.luminance() + CONTRAST_OFFSET;
    let y = b.luminance() + CONTRAST_OFFSET;
    assert(contrast(bg, a).num == x && contrast(bg, a).den == d);
    assert(contrast(bg, b).num == y && contrast(bg, b).den == d);
    assert((x * d < y * d) <==> (x < y)) by (nonlinear_arith)
        requires
            d > 0,
    ;
}

/// If `x` is not below `y`, and `y` is at least `num / den`, so is `x`.
pub proof fn lemma_reaches_carries(x: Contrast, y: Contrast, num: int, den: int)
    requires
        x.wf(),
        y.wf(),
        0 <= num,
        0 < den,
        !x.below(y),
        y.reaches(num, den),
    ensures
        x.reaches(num, den),
{
    let (a, b) = (x.num as int, x.den as int);
    let (c, d) = (y.num as int, y.den as int);
    assert(a * den >= num * b) by (nonlinear_arith)
        requires
            a * d >= c * b,
            c * den >= num * d,
            b > 0,
            d > 0,
            den > 0,
            a >= 0,
            c >= 0,
            num >= 0,
    {
        assert(a * d * den >= c * b * den);
        assert(c * den * b >= num * d * b);
        assert(a * den * d >= num * b * d);
    }
}

/// Comparing contrast ratios is transitive.
pub proof fn lemma_below_chains(x: Contrast, y: Contrast, z: Contrast)
    requires
        x.wf(),
        y.wf(),
        z.wf(),
        !y.below(x),
        y.below(z),
    ensures
        x.below(z),
{
    let (a, b) = (x.num as int, x.den as int);
    let (c, d) = (y.num as int, y.den as int);
    let (e, f) = (z.num as int, z.den as int);
    assert(a * f < e * b) by (nonlinear_arith)
        requires
            a * d <= c * b,
            c * f < e * d,
            b > 0,
            d > 0,
            f > 0,
            a >= 0,
            c >= 0,
            e >= 0,
    {
        assert(a * d * f <= c * b * f);
        assert(c * f * b < e * d * b);
        assert(a * f * d < e * b * d);
    }
}

/// Among one or more colours, one is the first of largest contrast.
pub proof fn lemma_best_contrast_exists(colors: Seq<Rgb8>, bg: Rgb8)
    requires
        colors.len() > 0,
    ensures
        is_best_contrast(colors, bg, best_contrast(colors, bg)),
    decreases colors.len(),
{
    if colors.len() == 1 {
        lemma_contrast_bounds(bg, colors[0]);
        assert(is_best_contrast(colors, bg, 0));
    } else {
        let rest = colors.drop_last();
        lemma_best_contrast_exists(rest, bg);
        let w = best_contrast(rest, bg);
        let top = contrast(bg, colors[w]);
        let new = contrast(bg, colors.last());
        lemma_contrast_bounds(bg, colors[w]);
        lemma_contrast_bounds(bg, colors.last());
        assert(forall|j: int| 0 <= j < rest.len() ==> rest[j] == colors[j]);
        if top.below(new) {
            assert(is_best_contrast(colors, bg, colors.len() - 1)) by {
                assert forall|j: int| 0 <= j < colors.len() - 1 implies contrast(
                    bg,
                    #[trigger] colors[j],
                ).below(new) by {
                    assert(!top.below(contrast(bg, rest[j])));
                    lemma_contrast_bounds(bg, colors[j]);
                    lemma_below_chains(contrast(bg, colors[j]), top, new);
                }
                assert forall|j: int| 0 <= j < colors.len() implies !new.below(
                    contrast(bg, #[trigger] colors[j]),
                ) by {
                    if j < colors.len() - 1 {
                        assert(contrast(bg, colors[j]).below(new));
                    }
                }
            }
        } else {
            assert(is_best_contrast(colors, bg, w)) by {
                assert forall|j: int| 0 <= j < colors.len() implies !top.below(
                    contrast(bg, #[trigger] colors[j]),
                ) by {
                    if j < rest.len() {
                        assert(!top.below(contrast(bg, rest[j])));
                    }
                }
                assert forall|j: int| 0 <= j < w implies contrast(bg, #[trigger] colors[j]).below(
                    top,
                ) by {
                    assert(contrast(bg, rest[j]).below(top));
                }
            }
        }
    }
}

/// Where one of the colours reaches the contrast `num / den` against `bg`,
/// the colour of largest contrast reaches it too.
pub proof fn lemma_best_contrast_reaches(colors: Seq<Rgb8>, bg: Rgb8, j: int, num: int, den: int)
    requires
        0 <= j < colors.len(),
        0 <= num,
        0 < den,
        contrast(bg, colors[j]).reaches(num, den),
    ensures
        contrast(bg, colors[best_contrast(colors, bg)]).reaches(num, den),
{
    lemma_best_contrast_exists(colors, bg);
    let best = colors[best_contrast(colors, bg)];
    assert(!contrast(bg, best).below(contrast(bg, colors[j])));
    lemma_contrast_bounds(bg, best);
    lemma_contrast_bounds(bg, colors[j]);
    lemma_reaches_carries(contrast(bg, best), contrast(bg, colors[j]), num, den);
}

/// Against a colour that is no brighter than any of them, the colour of
/// largest contrast is the brightest of the colours, and the first of those
/// that are as bright.
pub proof fn lemma_best_contrast_is_brightest(colors: Seq<Rgb8>, bg: Rgb8)
    requires
        colors.len() > 0,
        forall|j: int| 0 <= j < colors.len() ==> bg.luminance() <= (#[trigger] colors[j]).luminance(),
    ensures
        forall|j: int|
            0 <= j < colors.len() ==> (#[trigger] colors[j]).luminance() <= colors[best_contrast(
                colors,
                bg,
            )].luminance(),
        forall|j: int|
            0 <= j < best_contrast(colors, bg) ==> (#[trigger] colors[j]).luminance()
                < colors[best_contrast(colors, bg)].luminance(),
{
    lemma_best_contrast_exists(colors, bg);
    let best = colors[best_contrast(colors, bg)];
    assert forall|j: int| 0 <= j < colors.len() implies (#[trigger] colors[j]).luminance()
        <= best.luminance() by {
        lemma_contrast_follows_luminance(bg, best, colors[j]);
    }
    assert forall|j: int| 0 <= j < best_contrast(colors, bg) implies (#[trigger] colors[j]).luminance()
        < best.luminance() by {
        lemma_contrast_follows_luminance(bg, colors[j], best);
    }
}

/// Only one position is the first of largest contrast.
pub proof fn lemma_best_contrast_unique(colors: Seq<Rgb8>, bg: Rgb8, i: int)
    requires
        is_best_contrast(colors, bg, i),
    ensures
        best_contrast(colors, bg) == i,
{
    let j = best_contrast(colors, bg);
    assert(is_best_contrast(colors, bg, j));
    if j < i {
        assert(contrast(bg, colors[j]).below(contrast(bg, colors[i])));
    } else if i < j {
        assert(contrast(bg, colors[i]).below(contrast(bg, colors[j])));
    }
}

/// Finds the colour of largest contrast against `bg`, the first among equals.
pub fn first_best_contrast(colors: &Vec<Rgb8>, bg: Rgb8) -> (best: usize)
    requires
        colors.len() > 0,
    ensures
        best == best_contrast(colors@, bg),
        is_best_contrast(colors@, bg, best as int),
{
    let mut best: usize = 0;
    let mut top = contrast_ratio(bg, colors[0]);
    let mut i: usize = 1;
    proof {
        lemma_contrast_bounds(bg, colors[0]);
    }
    while i < colors.len()
        invariant
            1 <= i <= colors.len(),
            best < i,
            top == contrast(bg, colors[best as int]),
            forall|j: int| 0 <= j < i ==> !top.below(contrast(bg, #[trigger] colors[j])),
            forall|j: int| 0 <= j < best ==> contrast(bg, #[trigger] colors[j]).below(top),
        decreases colors.len() - i,
    {
        let cr = contrast_ratio(bg, colors[i]);
        if top.is_below(cr) {
            proof {
                lemma_contrast_bounds(bg, colors[best as int]);
                lemma_contrast_bounds(bg, colors[i as int]);
                assert forall|j: int| 0 <= j < i implies contrast(bg, #[trigger] colors[j]).below(
                    cr,
                ) by {
                    lemma_contrast_bounds(bg, colors[j]);
                    lemma_below_chains(contrast(bg, colors[j]), top, cr);
                }
            }
            best = i;
            top = cr;
        }
        i += 1;
    }
    proof {
        lemma_best_contrast_unique(colors@, bg, best as int);
    }
    best
}

/// Sorts the colours by ascending luminance; colours of equal luminance keep
/// their order.
pub fn sort_by_luminance(colors: &Vec<Rgb8>) -> (out: Vec<Rgb8>)
    ensures
        out@ == sorted_stably(colors@, by_luminance()),
{
    let mut keys: Vec<u128> = Vec::new();
    let mut i: usize = 0;
    while i < colors.len()
        invariant
            i <= colors.len(),
            keys.len() == i,
            forall|x: int| 0 <= x < i ==> #[trigger] keys[x] == colors[x].luminance(),
        decreases colors.len() - i,
    {
        keys.push(colors[i].rel_luminance() as u128);
        i += 1;
    }
    assert(key_values(keys@) =~= colors@.map_values(by_luminance()));
    arrange(colors, &keys)
}


} // verus!
