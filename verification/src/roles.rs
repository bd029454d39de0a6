//! Background, foreground and cursor for a colour collection of any size,
//! with a floor on the contrast of the foreground.

use vstd::prelude::*;
use crate::color::{
    best_contrast, by_luminance, contrast, contrast_ratio, first_best_contrast,
    lemma_best_contrast_exists, lemma_best_contrast_is_brightest, lemma_best_contrast_reaches,
    sort_by_luminance, Rgb8,
};
use crate::order::{lemma_same_elements, lemma_sorted_stably, sorted_stably};

verus! {

/// The contrast 4.5 that a readable foreground should reach, as the fraction
/// `MIN_CONTRAST_NUM / MIN_CONTRAST_DEN`.
pub const MIN_CONTRAST_NUM: u64 = 9;

/// The denominator of the contrast that a readable foreground should reach.
pub const MIN_CONTRAST_DEN: u64 = 2;

/// The three colours that a terminal theme needs.
#[derive(Debug, Clone, Copy, PartialEq, Eq, Structural)]
pub struct Roles {
    pub bg: Rgb8,
    pub fg: Rgb8,
    pub cursor: Rgb8,
}

/// The roles that a colour collection gives.
///
/// None: black background, white foreground and cursor. Else the colours are
/// sorted by luminance, colours of equal luminance keeping their order. The
/// background is the first of them. The cursor is the colour of largest
/// contrast against the background, the first among equals. The foreground
/// is the last colour where that reaches the contrast 4.5 against the
/// background, else the same colour as the cursor.
pub open spec fn assigned(colors: Seq<Rgb8>) -> Roles {
    if colors.len() == 0 {
        Roles {
            bg: Rgb8 { r: 0, g: 0, b: 0 },
            fg: Rgb8 { r: 255, g: 255, b: 255 },
            cursor: Rgb8 { r: 255, g: 255, b: 255 },
        }
    } else {
        let sorted = sorted_stably(colors, by_luminance());
        let bg = sorted[0];
        let best = sorted[best_contrast(sorted, bg)];
        let fg = if contrast(bg, sorted.last()).reaches(
            MIN_CONTRAST_NUM as int,
            MIN_CONTRAST_DEN as int,
        ) {
            sorted.last()
        } else {
            best
        };
        Roles { bg, fg, cursor: best }
    }
}

/// Where any of the colours reaches the contrast 4.5 against the background
/// that was chosen, the foreground that was chosen reaches it too.
pub proof fn lemma_foreground_is_readable(colors: Seq<Rgb8>, c: Rgb8)
    requires
        colors.contains(c),
        contrast(assigned(colors).bg, c).reaches(MIN_CONTRAST_NUM as int, MIN_CONTRAST_DEN as int),
    ensures
        contrast(assigned(colors).bg, assigned(colors).fg).reaches(
            MIN_CONTRAST_NUM as int,
            MIN_CONTRAST_DEN as int,
        ),
{
    let sorted = sorted_stably(colors, by_luminance());
    lemma_sorted_stably(colors, by_luminance());
    lemma_same_elements(colors, sorted);
    let j = choose|j: int| 0 <= j < sorted.len() && sorted[j] == c;
    lemma_best_contrast_reaches(
        sorted,
        sorted[0],
        j,
        MIN_CONTRAST_NUM as int,
        MIN_CONTRAST_DEN as int,
    );
}

/// The background is the least luminous of the colours, the cursor has the
/// largest contrast against it, and all three roles are among the colours.
pub proof fn lemma_assigned_roles(colors: Seq<Rgb8>, c: Rgb8)
    requires
        colors.contains(c),
    ensures
        colors.contains(assigned(colors).bg),
        colors.contains(assigned(colors).fg),
        colors.contains(assigned(colors).cursor),
        assigned(colors).bg.luminance() <= c.luminance(),
        !contrast(assigned(colors).bg, assigned(colors).cursor).below(
            contrast(assigned(colors).bg, c),
        ),
{
    let sorted = sorted_stably(colors, by_luminance());
    let roles = assigned(colors);
    lemma_sorted_stably(colors, by_luminance());
    lemma_same_elements(colors, sorted);
    lemma_best_contrast_exists(sorted, roles.bg);
    let j = choose|j: int| 0 <= j < sorted.len() && sorted[j] == c;
    if j > 0 {
        assert(by_luminance()(sorted[0]) <= by_luminance()(sorted[j]));
    }
    assert(sorted.contains(sorted[0]));
    assert(sorted.contains(sorted[sorted.len() - 1]));
    assert(sorted.contains(sorted[best_contrast(sorted, roles.bg)]));
}

/// No colour is brighter than the foreground, and the cursor is as bright as
/// the foreground.
pub proof fn lemma_assigned_brightest(colors: Seq<Rgb8>, c: Rgb8)
    requires
        colors.contains(c),
    ensures
        c.luminance() <= assigned(colors).fg.luminance(),
        assigned(colors).cursor.luminance() == assigned(colors).fg.luminance(),
{
    let sorted = sorted_stably(colors, by_luminance());
    let last = sorted.len() - 1;
    lemma_sorted_stably(colors, by_luminance());
    lemma_same_elements(colors, sorted);
    assert forall|j: int| 0 <= j < sorted.len() implies sorted[0].luminance() <= (
    #[trigger] sorted[j]).luminance() && sorted[j].luminance() <= sorted[last].luminance() by {
        if 0 < j {
            assert(by_luminance()(sorted[0]) <= by_luminance()(sorted[j]));
        }
        if j < last {
            assert(by_luminance()(sorted[j]) <= by_luminance()(sorted[last]));
        }
    }
    lemma_best_contrast_is_brightest(sorted, sorted[0]);
    lemma_best_contrast_exists(sorted, sorted[0]);
    let j = choose|j: int| 0 <= j < sorted.len() && sorted[j] == c;
    assert(sorted[j].luminance() <= sorted[last].luminance());
    assert(sorted[last].luminance() <= sorted[best_contrast(sorted, sorted[0])].luminance());
}

/// Derives background, foreground and cursor from a colour collection.
pub fn assign_roles(colors: &[Rgb8]) -> (r: Roles)
    ensures
        r == assigned(colors@),
{
    if colors.len() == 0 {
        return Roles {
            bg: Rgb8::new(0, 0, 0),
            fg: Rgb8::new(255, 255, 255),
            cursor: Rgb8::new(255, 255, 255),
        };
    }
    let mut given: Vec<Rgb8> = Vec::new();
    let mut i: usize = 0;
    while i < colors.len()
        invariant
            i <= colors.len(),
            given.len() == i,
            forall|x: int| 0 <= x < i ==> #[trigger] given[x] == colors[x],
        decreases colors.len() - i,
    {
        given.push(colors[i]);
        i += 1;
    }
    assert(given@ =~= colors@);
    let sorted = sort_by_luminance(&given);
    proof {
        lemma_sorted_stably(colors@, by_luminance());
    }
    let bg = sorted[0];
    let last = sorted[sorted.len() - 1];
    let cursor = sorted[first_best_contrast(&sorted, bg)];
    let fg = if contrast_ratio(bg, last).at_least(MIN_CONTRAST_NUM, MIN_CONTRAST_DEN) {
        last
    } else {
        cursor
    };
    Roles { bg, fg, cursor }
}

} // verus!
