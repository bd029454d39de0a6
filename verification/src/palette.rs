//! The 16-colour palette and its background, foreground and cursor.

use vstd::prelude::*;
use crate::color::{
    best_contrast, by_luminance, first_best_contrast, lemma_best_contrast_is_brightest,
    sort_by_luminance, Rgb8,
};
use crate::order::{lemma_sorted_stably, lemma_sorted_stably_fixes_sorted, sorted_stably};
use crate::quantize_mediancut::{lemma_quantized_ascends, quantized};

verus! {

/// Sixteen colours by ascending luminance, with the roles derived from them.
#[derive(Debug, Clone, Copy, PartialEq, Eq)]
pub struct Palette16 {
    pub colors: [Rgb8; 16],
    pub bg: Rgb8,
    pub fg: Rgb8,
    pub cursor: Rgb8,
}

impl Palette16 {
    /// The colours ascend in luminance; the background is the first and the
    /// foreground the last of them; the cursor is the colour of largest
    /// contrast against the background, the first among equals.
    pub open spec fn wf(self) -> bool {
        &&& forall|i: int, j: int|
            0 <= i <= j < 16 ==> (#[trigger] self.colors@[i]).luminance() <= (
            #[trigger] self.colors@[j]).luminance()
        &&& self.bg == self.colors@[0]
        &&& self.fg == self.colors@[15]
        &&& self.cursor == self.colors@[best_contrast(self.colors@, self.bg)]
    }

    /// Orders sixteen colours by luminance and derives the roles.
    ///
    /// Colours of equal luminance keep the order in which they were given.
    /// The foreground is the brightest colour whatever its contrast against
    /// the background: no minimum contrast is enforced here.
    pub fn from_quantized(colors: [Rgb8; 16]) -> (p: Self)
        ensures
            p.colors@ == sorted_stably(colors@, by_luminance()),
            p.wf(),
    {
        let given = to_vec(&colors);
        let v = sort_by_luminance(&given);
        proof {
            lemma_sorted_stably(colors@, by_luminance());
        }
        let sorted = to_array(&v);
        let bg = v[0];
        let fg = v[15];
        let cursor = v[first_best_contrast(&v, bg)];
        proof {
            assert forall|a: int, b: int| 0 <= a <= b < 16 implies (#[trigger] sorted@[a]).luminance()
                <= (#[trigger] sorted@[b]).luminance() by {
                if a < b {
                    assert(by_luminance()(v@[a]) <= by_luminance()(v@[b]));
                }
            }
        }
        Palette16 { colors: sorted, bg, fg, cursor }
    }
}

/// A palette made of the sixteen colours of a quantisation holds them in the
/// order in which the quantisation gave them.
pub proof fn lemma_palette_keeps_quantized(pixels: Seq<Rgb8>)
    ensures
        sorted_stably(quantized(pixels, 16), by_luminance()) == quantized(pixels, 16),
{
    let colors = quantized(pixels, 16);
    lemma_quantized_ascends(pixels, 16);
    assert forall|a: int, b: int| 0 <= a < b < colors.len() implies by_luminance()(
        #[trigger] colors[a],
    ) <= by_luminance()(#[trigger] colors[b]) by {
        assert(colors[a].luminance() <= colors[b].luminance());
    }
    lemma_sorted_stably_fixes_sorted(colors, by_luminance());
}

/// No colour of a palette is brighter than its foreground or its cursor, and
/// the cursor is the first colour that is as bright as they are.
pub proof fn lemma_palette_roles(p: Palette16)
    requires
        p.wf(),
    ensures
        p.cursor.luminance() == p.fg.luminance(),
        forall|j: int| 0 <= j < 16 ==> p.bg.luminance() <= (#[trigger] p.colors@[j]).luminance(),
        forall|j: int| 0 <= j < 16 ==> (#[trigger] p.colors@[j]).luminance() <= p.fg.luminance(),
        forall|j: int|
            0 <= j < best_contrast(p.colors@, p.bg) ==> (#[trigger] p.colors@[j]).luminance()
                < p.cursor.luminance(),
{
    let colors = p.colors@;
    assert(colors.len() == 16);
    assert forall|j: int| 0 <= j < 16 implies p.bg.luminance() <= (#[trigger] colors[j]).luminance() by {
        assert(colors[0].luminance() <= colors[j].luminance());
    }
    assert forall|j: int| 0 <= j < 16 implies (#[trigger] colors[j]).luminance()
        <= p.fg.luminance() by {
        assert(colors[j].luminance() <= colors[15].luminance());
    }
    lemma_best_contrast_is_brightest(colors, p.bg);
    crate::color::lemma_best_contrast_exists(colors, p.bg);
    assert(colors[15].luminance() <= p.cursor.luminance());
}

/// Copies sixteen colours into a vector.
fn to_vec(colors: &[Rgb8; 16]) -> (v: Vec<Rgb8>)
    ensures
        v@ == colors@,
{
    let mut v: Vec<Rgb8> = Vec::new();
    let mut i: usize = 0;
    while i < 16
        invariant
            i <= 16,
            v.len() == i,
            forall|x: int| 0 <= x < i ==> #[trigger] v[x] == colors[x],
        decreases 16 - i,
    {
        v.push(colors[i]);
        i += 1;
    }
    assert(v@ =~= colors@);
    v
}

/// Copies a vector of sixteen colours into an array.
fn to_array(v: &Vec<Rgb8>) -> (a: [Rgb8; 16])
    requires
        v.len() == 16,
    ensures
        a@ == v@,
{
    let a = [
        v[0], v[1], v[2], v[3], v[4], v[5], v[6], v[7],
        v[8], v[9], v[10], v[11], v[12], v[13], v[14], v[15],
    ];
    assert(a@ =~= v@);
    a
}

} // verus!
