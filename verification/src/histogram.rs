//! Counting the pixels of each colour.
//!
//! The histogram of a population of pixels lists every colour that occurs,
//! with the number of its occurrences, in lexicographic order of (red, green,
//! blue). It depends on which pixels there are and how often, not on the
//! order in which they come.

use vstd::multiset::Multiset;
use vstd::prelude::*;
use crate::bucket::{distinct_colors, total_weight, ColorCount};
use crate::color::Rgb8;
use crate::order::{arrange, key_values, lemma_sorted_stably, sorted_stably};

verus! {

/// The number of distinct colours.
pub const COLOR_CODES: u32 = 0x100_0000;

/// The colour of lexicographic rank `code`.
pub open spec fn color_of_code(code: int) -> Rgb8 {
    Rgb8 { r: (code / 65536) as u8, g: (code / 256 % 256) as u8, b: (code % 256) as u8 }
}

/// The colours of rank below `bound` that occur in `pixels`, by ascending
/// rank, each with its number of occurrences.
pub open spec fn histogram_below(pixels: Multiset<Rgb8>, bound: int) -> Seq<ColorCount>
    decreases bound,
{
    if bound <= 0 {
        Seq::empty()
    } else {
        let c = color_of_code(bound - 1);
        let rest = histogram_below(pixels, bound - 1);
        if pixels.count(c) > 0 {
            rest.push(ColorCount { c, n: pixels.count(c) as u64 })
        } else {
            rest
        }
    }
}

/// The colours that occur in `pixels`, in lexicographic order, each with its
/// number of occurrences.
pub open spec fn histogram(pixels: Multiset<Rgb8>) -> Seq<ColorCount> {
    histogram_below(pixels, COLOR_CODES as int)
}

/// The sort key of a colour: its lexicographic rank.
pub open spec fn by_code() -> spec_fn(Rgb8) -> int {
    |c: Rgb8| c.code()
}

/// Rank and colour determine each other.
pub proof fn lemma_code_of_color(c: Rgb8)
    ensures
        0 <= c.code() < COLOR_CODES,
        color_of_code(c.code()) == c,
{
}

/// Every rank below the number of colours is the rank of its colour.
pub proof fn lemma_color_of_code(code: int)
    requires
        0 <= code < COLOR_CODES,
    ensures
        color_of_code(code).code() == code,
{
}

/// Ranks at which no pixel's colour lies add nothing to the histogram.
pub proof fn lemma_histogram_gap(pixels: Multiset<Rgb8>, lo: int, hi: int)
    requires
        0 <= lo <= hi <= COLOR_CODES,
        forall|d: Rgb8| lo <= d.code() < hi ==> pixels.count(d) == 0,
    ensures
        histogram_below(pixels, hi) == histogram_below(pixels, lo),
    decreases hi - lo,
{
    if lo < hi {
        lemma_color_of_code(hi - 1);
        lemma_histogram_gap(pixels, lo, hi - 1);
    }
}

/// The histogram lists the colours by strictly ascending rank, each with the
/// number of its pixels, which is not zero.
pub proof fn lemma_histogram_entries(pixels: Multiset<Rgb8>, bound: int)
    requires
        bound <= COLOR_CODES,
    ensures
        forall|i: int|
            0 <= i < histogram_below(pixels, bound).len() ==> {
                let e = #[trigger] histogram_below(pixels, bound)[i];
                e.c.code() < bound && pixels.count(e.c) > 0 && (pixels.count(e.c) <= u64::MAX
                    ==> e.n == pixels.count(e.c))
            },
        forall|i: int, j: int|
            0 <= i < j < histogram_below(pixels, bound).len() ==> (#[trigger] histogram_below(
                pixels,
                bound,
            )[i]).c.code() < (#[trigger] histogram_below(pixels, bound)[j]).c.code(),
    decreases bound,
{
    if bound > 0 {
        lemma_histogram_entries(pixels, bound - 1);
        lemma_color_of_code(bound - 1);
        let h = histogram_below(pixels, bound);
        let rest = histogram_below(pixels, bound - 1);
        assert forall|i: int| 0 <= i < h.len() implies {
            let e = #[trigger] h[i];
            e.c.code() < bound && pixels.count(e.c) > 0 && (pixels.count(e.c) <= u64::MAX ==> e.n
                == pixels.count(e.c))
        } by {
            if i < rest.len() {
                assert(h[i] == rest[i]);
            }
        }
        assert forall|i: int, j: int| 0 <= i < j < h.len() implies (#[trigger] h[i]).c.code() < (
        #[trigger] h[j]).c.code() by {
            assert(h[i] == rest[i]);
            if j < rest.len() {
                assert(h[j] == rest[j]);
            }
        }
    }
}

/// Every colour that occurs among the pixels is listed in the histogram.
pub proof fn lemma_histogram_lists(pixels: Multiset<Rgb8>, bound: int, c: Rgb8)
    requires
        pixels.count(c) > 0,
        c.code() < bound <= COLOR_CODES,
    ensures
        exists|i: int|
            0 <= i < histogram_below(pixels, bound).len() && (#[trigger] histogram_below(
                pixels,
                bound,
            )[i]).c == c,
    decreases bound,
{
    lemma_code_of_color(c);
    let h = histogram_below(pixels, bound);
    if c.code() == bound - 1 {
        assert(h.last().c == c);
        assert(h[h.len() - 1].c == c);
    } else {
        lemma_histogram_lists(pixels, bound - 1, c);
        let rest = histogram_below(pixels, bound - 1);
        let i = choose|i: int| 0 <= i < rest.len() && (#[trigger] rest[i]).c == c;
        assert(h[i].c == c);
    }
}

/// A colour that fills exactly the positions `i..j` of a sequence occurs
/// `j - i` times in it.
pub proof fn lemma_count_of_run(s: Seq<Rgb8>, c: Rgb8, i: int, j: int)
    requires
        0 <= i <= j <= s.len(),
        forall|x: int| 0 <= x < i ==> s[x] != c,
        forall|x: int| i <= x < j ==> s[x] == c,
        forall|x: int| j <= x < s.len() ==> s[x] != c,
    ensures
        s.to_multiset().count(c) == j - i,
    decreases s.len(),
{
    broadcast use {
        vstd::seq_lib::group_to_multiset_ensures,
        vstd::multiset::group_multiset_axioms,
    };

    if s.len() == 0 {
        assert(s.to_multiset().len() == 0);
        assert(s.to_multiset().count(c) == 0);
    } else {
        let rest = s.drop_last();
        assert(s =~= rest.push(s.last()));
        assert(s.to_multiset() =~= rest.to_multiset().insert(s.last()));
        if j == s.len() {
            if i == j {
                lemma_count_of_run(rest, c, i - 1, i - 1);
            } else {
                lemma_count_of_run(rest, c, i, j - 1);
            }
        } else {
            lemma_count_of_run(rest, c, i, j);
        }
    }
}

/// Copies the pixels and reads off their ranks as sort keys.
fn pixel_keys(pixels: &[Rgb8]) -> (r: (Vec<Rgb8>, Vec<u128>))
    ensures
        r.0@ == pixels@,
        r.1.len() == pixels.len(),
        key_values(r.1@) == pixels@.map_values(by_code()),
{
    let mut items: Vec<Rgb8> = Vec::new();
    let mut keys: Vec<u128> = Vec::new();
    let mut i: usize = 0;
    while i < pixels.len()
        invariant
            i <= pixels.len(),
            items.len() == i,
            keys.len() == i,
            forall|x: int| 0 <= x < i ==> #[trigger] items[x] == pixels[x],
            forall|x: int| 0 <= x < i ==> #[trigger] keys[x] == pixels[x].code(),
        decreases pixels.len() - i,
    {
        let c = pixels[i];
        items.push(c);
        keys.push(c.packed() as u128);
        i += 1;
    }
    assert(items@ =~= pixels@);
    assert(key_values(keys@) =~= pixels@.map_values(by_code()));
    (items, keys)
}

/// Counts the pixels of each colour.
pub fn count_colors(pixels: &[Rgb8]) -> (h: Vec<ColorCount>)
    ensures
        h@ == histogram(pixels@.to_multiset()),
        total_weight(h@) == pixels.len(),
        distinct_colors(h@),
        pixels.len() > 0 ==> h.len() > 0,
{
    let (items, keys) = pixel_keys(pixels);
    let sorted = arrange(&items, &keys);
    let n = sorted.len();
    let ghost all = pixels@.to_multiset();
    proof {
        lemma_sorted_stably(pixels@, by_code());
        assert(sorted@ == sorted_stably(pixels@, by_code()));
        assert forall|a: int, b: int| 0 <= a < b < n implies #[trigger] sorted[a].code()
            <= #[trigger] sorted[b].code() by {
            assert(by_code()(sorted[a]) <= by_code()(sorted[b]));
        }
    }
    let mut h: Vec<ColorCount> = Vec::new();
    let mut i: usize = 0;
    let ghost mut bound: int = 0;
    while i < n
        invariant
            n == sorted.len(),
            n == pixels.len(),
            i <= n,
            sorted@.to_multiset() == all,
            forall|a: int, b: int|
                0 <= a < b < n ==> #[trigger] sorted[a].code() <= #[trigger] sorted[b].code(),
            0 <= bound <= COLOR_CODES,
            h@ == histogram_below(all, bound),
            forall|x: int| 0 <= x < i ==> (#[trigger] sorted[x]).code() < bound,
            forall|x: int| i <= x < n ==> (#[trigger] sorted[x]).code() >= bound,
            total_weight(h@) == i,
            i > 0 ==> h.len() > 0,
        decreases n - i,
    {
        let c = sorted[i];
        let mut j: usize = i + 1;
        while j < n && sorted[j] == c
            invariant
                n == sorted.len(),
                i < j <= n,
                forall|x: int| i <= x < j ==> #[trigger] sorted[x] == c,
            decreases n - j,
        {
            j += 1;
        }
        let count = (j - i) as u64;
        proof {
            broadcast use vstd::seq_lib::group_to_multiset_ensures;

            lemma_code_of_color(c);
            assert forall|x: int| j <= x < n implies (#[trigger] sorted[x]).code() > c.code() by {
                lemma_code_of_color(sorted[x]);
                lemma_code_of_color(sorted[j as int]);
                if x > j {
                    assert(sorted[j as int].code() <= sorted[x].code());
                }
                assert(sorted[i as int].code() <= sorted[j as int].code());
            }
            assert forall|x: int| 0 <= x < i implies #[trigger] sorted[x] != c by {
                assert(sorted[x].code() < bound);
            }
            lemma_count_of_run(sorted@, c, i as int, j as int);
            assert forall|d: Rgb8| bound <= d.code() < c.code() implies all.count(d) == 0 by {
                if all.count(d) > 0 {
                    assert(sorted@.contains(d));
                    let x = choose|x: int| 0 <= x < n && sorted@[x] == d;
                    if x >= i {
                        assert(sorted[i as int].code() <= sorted[x].code());
                    }
                }
            }
            lemma_histogram_gap(all, bound, c.code());
            assert(histogram_below(all, c.code() + 1) == h@.push(ColorCount { c, n: count }));
            assert(h@.push(ColorCount { c, n: count }).drop_last() =~= h@);
            bound = c.code() + 1;
        }
        h.push(ColorCount { c, n: count });
        i = j;
    }
    proof {
        broadcast use vstd::seq_lib::group_to_multiset_ensures;

        assert forall|d: Rgb8| bound <= d.code() < COLOR_CODES implies all.count(d) == 0 by {
            if all.count(d) > 0 {
                assert(sorted@.contains(d));
            }
        }
        lemma_histogram_gap(all, bound, COLOR_CODES as int);
        lemma_histogram_entries(all, COLOR_CODES as int);
        assert forall|a: int, b: int| 0 <= a < b < h.len() implies (#[trigger] h[a]).c != (
        #[trigger] h[b]).c by {
            assert(h[a].c.code() < h[b].c.code());
        }
    }
    h
}

} // verus!
