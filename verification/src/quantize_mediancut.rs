//! Median-cut quantisation.
//!
//! The pixels are counted into one bucket. While there are fewer buckets
//! than colours asked for, the bucket with the widest channel spread is cut
//! in two at its weighted median. Each bucket then gives its weighted
//! average, and the averages come out by ascending luminance.
//!
//! [`quantized`] states the result as a function of the pixels taken as a
//! multiset, so the order in which the pixels arrive cannot matter.

use vstd::prelude::*;
use vstd::relations::{sorted_by, total_ordering};
use vstd::seq_lib::lemma_sorted_unique;
use crate::bucket::{
    bucket_range, distinct_colors, halves, lemma_halves, lemma_spread_of_distinct,
    representative, split_bucket, weighted_average, widest_axis, widest_spread, Axis, Bucket,
    ColorCount,
};
use crate::color::Rgb8;
use crate::histogram::{
    count_colors, histogram, lemma_code_of_color, lemma_histogram_entries, lemma_histogram_lists,
    COLOR_CODES,
};
use crate::order::{arrange, key_values, lemma_arranged};

verus! {

/// Bucket `i` has the largest spread, and is the first that has it.
pub open spec fn is_widest(buckets: Seq<Seq<ColorCount>>, i: int) -> bool {
    &&& 0 <= i < buckets.len()
    &&& forall|j: int|
        0 <= j < buckets.len() ==> widest_spread(#[trigger] buckets[j]) <= widest_spread(
            buckets[i],
        )
    &&& forall|j: int| 0 <= j < i ==> widest_spread(#[trigger] buckets[j]) < widest_spread(buckets[i])
}

/// The bucket to cut next: the one of largest spread, the first among equals.
pub open spec fn widest_bucket(buckets: Seq<Seq<ColorCount>>) -> int {
    choose|i: int| is_widest(buckets, i)
}

/// The buckets after bucket `i` was cut along its widest channel: the last
/// bucket takes its place, and its two children are added at the end.
pub open spec fn cut_at(buckets: Seq<Seq<ColorCount>>, i: int) -> Seq<Seq<ColorCount>> {
    let parts = halves(buckets[i], widest_axis(buckets[i]));
    buckets.update(i, buckets.last()).drop_last().push(parts.0).push(parts.1)
}

/// The buckets after cutting, again and again, the widest bucket, until there
/// are `k` buckets or the widest bucket has a single member.
pub open spec fn median_cut(buckets: Seq<Seq<ColorCount>>, k: nat) -> Seq<Seq<ColorCount>>
    decreases k - buckets.len(),
{
    if buckets.len() >= k || buckets.len() == 0 {
        buckets
    } else {
        let i = widest_bucket(buckets);
        if buckets[i].len() <= 1 {
            buckets
        } else {
            proof {
                lemma_widest_exists(buckets);
            }
            median_cut(cut_at(buckets, i), k)
        }
    }
}

/// The order of the output: by luminance, then by (red, green, blue).
pub open spec fn luminance_then_code() -> spec_fn(Rgb8, Rgb8) -> bool {
    |a: Rgb8, b: Rgb8|
        a.luminance() < b.luminance() || (a.luminance() == b.luminance() && a.code() <= b.code())
}

/// The representatives of the buckets by ascending luminance.
pub open spec fn ranked(buckets: Seq<Seq<ColorCount>>) -> Seq<Rgb8> {
    buckets.map_values(|b: Seq<ColorCount>| representative(b)).sort_by(luminance_then_code())
}

/// The first `k` colours, the last colour repeated where there are fewer.
pub open spec fn padded(colors: Seq<Rgb8>, k: nat) -> Seq<Rgb8> {
    Seq::new(
        k,
        |i: int|
            if i < colors.len() {
                colors[i]
            } else {
                colors.last()
            },
    )
}

/// The `k` colours that stand for the pixels: `k` times black where there is
/// no pixel, else the ranked representatives of the median cut of the
/// histogram, padded to `k`.
pub open spec fn quantized(pixels: Seq<Rgb8>, k: nat) -> Seq<Rgb8> {
    if pixels.len() == 0 {
        Seq::new(k, |i: int| Rgb8 { r: 0, g: 0, b: 0 })
    } else {
        padded(ranked(median_cut(seq![histogram(pixels.to_multiset())], k)), k)
    }
}

/// The member sequences of a list of buckets.
pub open spec fn members_of(buckets: Seq<Bucket>) -> Seq<Seq<ColorCount>> {
    buckets.map_values(|b: Bucket| b@)
}

/// Among one or more buckets, one is the first of largest spread.
pub proof fn lemma_widest_exists(buckets: Seq<Seq<ColorCount>>)
    requires
        buckets.len() > 0,
    ensures
        is_widest(buckets, widest_bucket(buckets)),
    decreases buckets.len(),
{
    if buckets.len() == 1 {
        assert(is_widest(buckets, 0));
    } else {
        let rest = buckets.drop_last();
        lemma_widest_exists(rest);
        let w = widest_bucket(rest);
        assert(forall|j: int| 0 <= j < rest.len() ==> rest[j] == buckets[j]);
        if widest_spread(buckets.last()) > widest_spread(buckets[w]) {
            assert(is_widest(buckets, buckets.len() - 1)) by {
                assert forall|j: int| 0 <= j < buckets.len() - 1 implies widest_spread(
                    #[trigger] buckets[j],
                ) < widest_spread(buckets.last()) by {
                    assert(widest_spread(rest[j]) <= widest_spread(rest[w]));
                }
            }
        } else {
            assert(is_widest(buckets, w)) by {
                assert forall|j: int| 0 <= j < buckets.len() implies widest_spread(
                    #[trigger] buckets[j],
                ) <= widest_spread(buckets[w]) by {
                    if j < rest.len() {
                        assert(widest_spread(rest[j]) <= widest_spread(rest[w]));
                    }
                }
                assert forall|j: int| 0 <= j < w implies widest_spread(#[trigger] buckets[j])
                    < widest_spread(buckets[w]) by {
                    assert(widest_spread(rest[j]) < widest_spread(rest[w]));
                }
            }
        }
    }
}

/// Only one bucket is the first of largest spread.
pub proof fn lemma_widest_unique(buckets: Seq<Seq<ColorCount>>, i: int)
    requires
        is_widest(buckets, i),
    ensures
        widest_bucket(buckets) == i,
{
    let j = widest_bucket(buckets);
    assert(is_widest(buckets, j));
    if j < i {
        assert(widest_spread(buckets[j]) < widest_spread(buckets[i]));
    } else if i < j {
        assert(widest_spread(buckets[i]) < widest_spread(buckets[j]));
    }
}

/// [`luminance_then_code`] is a total order on colours.
pub proof fn lemma_luminance_then_code_total()
    ensures
        total_ordering(luminance_then_code()),
{
    let leq = luminance_then_code();
    assert(vstd::relations::reflexive(leq));
    assert(vstd::relations::antisymmetric(leq)) by {
        assert forall|a: Rgb8, b: Rgb8| #[trigger] leq(a, b) && #[trigger] leq(b, a) implies a
            == b by {
            lemma_code_of_color(a);
            lemma_code_of_color(b);
        }
    }
    assert(vstd::relations::transitive(leq));
    assert(vstd::relations::strongly_connected(leq));
}

/// Every bucket has a member, and no colour occurs twice within a bucket.
pub open spec fn well_formed(buckets: Seq<Seq<ColorCount>>) -> bool {
    forall|j: int|
        0 <= j < buckets.len() ==> (#[trigger] buckets[j]).len() > 0 && distinct_colors(
            buckets[j],
        )
}

/// The number of members of all buckets together.
pub open spec fn member_count(buckets: Seq<Seq<ColorCount>>) -> int
    decreases buckets.len(),
{
    if buckets.len() == 0 {
        0
    } else {
        member_count(buckets.drop_last()) + buckets.last().len()
    }
}

/// There are at least as many members as buckets where no bucket is empty,
/// and exactly as many where every bucket has one member.
pub proof fn lemma_member_count_bounds(buckets: Seq<Seq<ColorCount>>)
    ensures
        (forall|j: int| 0 <= j < buckets.len() ==> (#[trigger] buckets[j]).len() >= 1)
            ==> member_count(buckets) >= buckets.len(),
        (forall|j: int| 0 <= j < buckets.len() ==> (#[trigger] buckets[j]).len() == 1)
            ==> member_count(buckets) == buckets.len(),
    decreases buckets.len(),
{
    if buckets.len() > 0 {
        let rest = buckets.drop_last();
        lemma_member_count_bounds(rest);
        assert(forall|j: int| 0 <= j < rest.len() ==> rest[j] == buckets[j]);
    }
}

/// Changing one bucket changes the number of members by the difference of
/// the two buckets.
pub proof fn lemma_member_count_update(
    buckets: Seq<Seq<ColorCount>>,
    i: int,
    members: Seq<ColorCount>,
)
    requires
        0 <= i < buckets.len(),
    ensures
        member_count(buckets.update(i, members)) == member_count(buckets) - buckets[i].len()
            + members.len(),
    decreases buckets.len(),
{
    let changed = buckets.update(i, members);
    if i == buckets.len() - 1 {
        assert(changed.drop_last() =~= buckets.drop_last());
    } else {
        lemma_member_count_update(buckets.drop_last(), i, members);
        assert(changed.drop_last() =~= buckets.drop_last().update(i, members));
    }
}

/// A cut keeps the members, adds one bucket, and leaves the buckets well
/// formed.
pub proof fn lemma_cut_at(buckets: Seq<Seq<ColorCount>>, i: int)
    requires
        well_formed(buckets),
        0 <= i < buckets.len(),
        buckets[i].len() >= 2,
    ensures
        well_formed(cut_at(buckets, i)),
        cut_at(buckets, i).len() == buckets.len() + 1,
        member_count(cut_at(buckets, i)) == member_count(buckets),
{
    let parts = halves(buckets[i], widest_axis(buckets[i]));
    let moved = buckets.update(i, buckets.last());
    let kept = moved.drop_last();
    let next = cut_at(buckets, i);
    lemma_halves(buckets[i], widest_axis(buckets[i]));
    lemma_member_count_update(buckets, i, buckets.last());
    assert(member_count(kept) == member_count(buckets) - buckets[i].len()) by {
        assert(moved.last() == buckets.last());
        assert(member_count(moved) == member_count(kept) + moved.last().len());
    }
    assert(member_count(next) == member_count(kept) + parts.0.len() + parts.1.len()) by {
        let grown = kept.push(parts.0);
        assert(grown.drop_last() =~= kept);
        assert(next.drop_last() =~= grown);
        assert(member_count(grown) == member_count(kept) + grown.last().len());
        assert(member_count(next) == member_count(grown) + next.last().len());
    }
    assert forall|j: int| 0 <= j < next.len() implies (#[trigger] next[j]).len() > 0
        && distinct_colors(next[j]) by {
        if j < kept.len() {
            if j == i {
                assert(next[j] == buckets[buckets.len() - 1]);
            } else {
                assert(next[j] == buckets[j]);
            }
        }
    }
}

/// The cutting stops early only where nothing is left to cut: where the
/// widest bucket has a single member, every bucket has.
pub proof fn lemma_widest_single(buckets: Seq<Seq<ColorCount>>)
    requires
        well_formed(buckets),
        buckets.len() > 0,
        buckets[widest_bucket(buckets)].len() <= 1,
    ensures
        forall|j: int| 0 <= j < buckets.len() ==> (#[trigger] buckets[j]).len() == 1,
{
    let w = widest_bucket(buckets);
    lemma_widest_exists(buckets);
    lemma_spread_of_distinct(buckets[w]);
    assert forall|j: int| 0 <= j < buckets.len() implies (#[trigger] buckets[j]).len() == 1 by {
        lemma_spread_of_distinct(buckets[j]);
        assert(widest_spread(buckets[j]) <= widest_spread(buckets[w]));
    }
}

/// The median cut ends with `k` buckets, or with one bucket for each member
/// where there are fewer than `k` members.
pub proof fn lemma_median_cut_count(buckets: Seq<Seq<ColorCount>>, k: nat)
    requires
        well_formed(buckets),
        0 < buckets.len() <= k,
    ensures
        well_formed(median_cut(buckets, k)),
        member_count(median_cut(buckets, k)) == member_count(buckets),
        median_cut(buckets, k).len() == if k <= member_count(buckets) {
            k as int
        } else {
            member_count(buckets)
        },
    decreases k - buckets.len(),
{
    lemma_member_count_bounds(buckets);
    if buckets.len() < k {
        let w = widest_bucket(buckets);
        lemma_widest_exists(buckets);
        if buckets[w].len() <= 1 {
            lemma_widest_single(buckets);
        } else {
            lemma_cut_at(buckets, w);
            lemma_median_cut_count(cut_at(buckets, w), k);
        }
    }
}

/// Pixels of `k` or more different colours give `k` buckets; pixels of fewer
/// colours give one bucket for each colour.
pub proof fn lemma_bucket_count(pixels: Seq<Rgb8>, k: nat)
    requires
        pixels.len() > 0,
        k > 0,
    ensures
        histogram(pixels.to_multiset()).len() > 0,
        distinct_colors(histogram(pixels.to_multiset())),
        median_cut(seq![histogram(pixels.to_multiset())], k).len() == if k <= histogram(
            pixels.to_multiset(),
        ).len() {
            k
        } else {
            histogram(pixels.to_multiset()).len()
        },
{
    let all = pixels.to_multiset();
    let h = histogram(all);
    let start = seq![h];
    lemma_histogram_entries(all, COLOR_CODES as int);
    assert(h.len() > 0) by {
        pixels.to_multiset_ensures();
        assert(pixels.contains(pixels[0]));
        lemma_code_of_color(pixels[0]);
        lemma_histogram_lists(all, COLOR_CODES as int, pixels[0]);
    }
    assert(distinct_colors(h)) by {
        assert forall|i: int, j: int| 0 <= i < j < h.len() implies (#[trigger] h[i]).c != (
        #[trigger] h[j]).c by {
            assert(h[i].c.code() < h[j].c.code());
        }
    }
    assert(member_count(start) == h.len()) by {
        assert(start.drop_last().len() == 0);
        reveal_with_fuel(member_count, 2);
    }
    lemma_median_cut_count(start, k);
}

/// There is one representative for each bucket. The result begins with the
/// representatives by ascending luminance, and where the pixels have fewer
/// than `k` colours it goes on with the last, the most luminous, of them.
pub proof fn lemma_quantized_padding(pixels: Seq<Rgb8>, k: nat)
    requires
        pixels.len() > 0,
        k > 0,
    ensures
        ({
            let colours = histogram(pixels.to_multiset()).len();
            let reps = ranked(median_cut(seq![histogram(pixels.to_multiset())], k));
            &&& reps.len() == if k <= colours {
                k
            } else {
                colours
            }
            &&& forall|i: int| 0 <= i < reps.len() ==> #[trigger] quantized(pixels, k)[i] == reps[i]
            &&& forall|i: int|
                reps.len() <= i < k ==> #[trigger] quantized(pixels, k)[i] == reps.last()
        }),
{
    let buckets = median_cut(seq![histogram(pixels.to_multiset())], k);
    let unsorted = buckets.map_values(|b: Seq<ColorCount>| representative(b));
    lemma_bucket_count(pixels, k);
    lemma_luminance_then_code_total();
    unsorted.lemma_sort_by_ensures(luminance_then_code());
    crate::order::lemma_same_elements(unsorted, ranked(buckets));
}

/// The result depends on which pixels there are and how often, not on their
/// order: two sequences of the same pixels give the same colours.
pub proof fn lemma_quantized_ignores_order(a: Seq<Rgb8>, b: Seq<Rgb8>, k: nat)
    requires
        a.to_multiset() == b.to_multiset(),
    ensures
        quantized(a, k) == quantized(b, k),
{
    crate::order::lemma_same_elements(a, b);
}

/// The result has exactly `k` colours, and they ascend in luminance.
pub proof fn lemma_quantized_ascends(pixels: Seq<Rgb8>, k: nat)
    ensures
        quantized(pixels, k).len() == k,
        forall|i: int, j: int|
            0 <= i <= j < k ==> (#[trigger] quantized(pixels, k)[i]).luminance() <= (
            #[trigger] quantized(pixels, k)[j]).luminance(),
{
    if pixels.len() > 0 {
        let buckets = median_cut(seq![histogram(pixels.to_multiset())], k);
        let reps = buckets.map_values(|b: Seq<ColorCount>| representative(b));
        let leq = luminance_then_code();
        lemma_luminance_then_code_total();
        reps.lemma_sort_by_ensures(leq);
        let r = ranked(buckets);
        assert forall|i: int, j: int| 0 <= i <= j < k implies (#[trigger] quantized(
            pixels,
            k,
        )[i]).luminance() <= (#[trigger] quantized(pixels, k)[j]).luminance() by {
            if i < j && i < r.len() {
                if j < r.len() {
                    assert(leq(r[i], r[j]));
                } else if i < r.len() - 1 {
                    assert(leq(r[i], r[r.len() - 1]));
                }
            }
        }
    }
}

/// Finds the bucket to cut next and the channel to cut it along.
fn pick_widest(buckets: &Vec<Bucket>) -> (r: (usize, Axis))
    requires
        buckets.len() > 0,
        forall|j: int| 0 <= j < buckets.len() ==> (#[trigger] buckets[j]).wf(),
    ensures
        r.0 == widest_bucket(members_of(buckets@)),
        r.0 < buckets.len(),
        r.1 == widest_axis(buckets[r.0 as int]@),
{
    let ghost views = members_of(buckets@);
    let first = bucket_range(&buckets[0]);
    let mut best: usize = 0;
    let mut best_range: u32 = first.0;
    let mut best_axis: Axis = first.1;
    let mut j: usize = 1;
    while j < buckets.len()
        invariant
            views == members_of(buckets@),
            forall|x: int| 0 <= x < buckets.len() ==> (#[trigger] buckets[x]).wf(),
            1 <= j <= buckets.len(),
            best < j,
            best_range == widest_spread(views[best as int]),
            best_axis == widest_axis(views[best as int]),
            forall|x: int| 0 <= x < j ==> widest_spread(#[trigger] views[x]) <= best_range,
            forall|x: int| 0 <= x < best ==> widest_spread(#[trigger] views[x]) < best_range,
        decreases buckets.len() - j,
    {
        let r = bucket_range(&buckets[j]);
        if r.0 > best_range {
            best = j;
            best_range = r.0;
            best_axis = r.1;
        }
        j += 1;
    }
    proof {
        lemma_widest_unique(views, best as int);
    }
    (best, best_axis)
}

/// Reduces the pixels to `k` representative colours by median cut.
pub fn quantize(pixels: &[Rgb8], k: usize) -> (out: Vec<Rgb8>)
    requires
        k > 0,
    ensures
        out@ == quantized(pixels@, k as nat),
        out.len() == k,
{
    let black = Rgb8::new(0, 0, 0);
    let mut out: Vec<Rgb8> = Vec::new();
    if pixels.len() == 0 {
        while out.len() < k
            invariant
                out.len() <= k,
                forall|i: int| 0 <= i < out.len() ==> #[trigger] out[i] == black,
            decreases k - out.len(),
        {
            out.push(black);
        }
        assert(out@ =~= quantized(pixels@, k as nat));
        return out;
    }
    let uniq = count_colors(pixels);
    let total = pixels.len() as u64;
    let ghost start = seq![histogram(pixels@.to_multiset())];
    let mut buckets: Vec<Bucket> = Vec::new();
    buckets.push(Bucket { colors: uniq, total });
    assert(members_of(buckets@) =~= start);
    let mut done = false;
    while !done && buckets.len() < k
        invariant
            0 < buckets.len() <= k,
            forall|j: int| 0 <= j < buckets.len() ==> (#[trigger] buckets[j]).wf(),
            median_cut(members_of(buckets@), k as nat) == median_cut(start, k as nat),
            done ==> median_cut(members_of(buckets@), k as nat) == members_of(buckets@),
        decreases (if done { 0int } else { 1int }), k - buckets.len(),
    {
        let ghost before = members_of(buckets@);
        let (idx, axis) = pick_widest(&buckets);
        if buckets[idx].colors.len() <= 1 {
            done = true;
        } else {
            let b = buckets.swap_remove(idx);
            let (left, right) = split_bucket(b, axis);
            buckets.push(left);
            buckets.push(right);
            assert(members_of(buckets@) =~= cut_at(before, idx as int));
        }
    }
    let ghost cut = members_of(buckets@);
    assert(cut == median_cut(start, k as nat));
    let mut reps: Vec<Rgb8> = Vec::new();
    let mut keys: Vec<u128> = Vec::new();
    let mut i: usize = 0;
    while i < buckets.len()
        invariant
            i <= buckets.len(),
            cut == members_of(buckets@),
            forall|j: int| 0 <= j < buckets.len() ==> (#[trigger] buckets[j]).wf(),
            reps.len() == i,
            keys.len() == i,
            forall|x: int| 0 <= x < i ==> #[trigger] reps[x] == representative(cut[x]),
            forall|x: int|
                0 <= x < i ==> #[trigger] keys[x] == reps[x].luminance() * 0x100_0000
                    + reps[x].code(),
        decreases buckets.len() - i,
    {
        let c = weighted_average(&buckets[i]);
        let key = c.rel_luminance() as u128 * 0x100_0000 + c.packed() as u128;
        reps.push(c);
        keys.push(key);
        i += 1;
    }
    let mut out = arrange(&reps, &keys);
    proof {
        let leq = luminance_then_code();
        let unsorted = cut.map_values(|b: Seq<ColorCount>| representative(b));
        assert(reps@ =~= unsorted);
        lemma_arranged(reps@, key_values(keys@));
        lemma_luminance_then_code_total();
        unsorted.lemma_sort_by_ensures(leq);
        let order = crate::order::stable_order(key_values(keys@));
        crate::order::lemma_stable_order(key_values(keys@));
        assert(sorted_by(out@, leq)) by {
            assert forall|a: int, b: int| 0 <= a < b < out@.len() implies #[trigger] leq(
                out@[a],
                out@[b],
            ) by {
                let x = order[a];
                let y = order[b];
                assert(key_values(keys@)[x] <= key_values(keys@)[y]);
                lemma_code_of_color(reps@[x]);
                lemma_code_of_color(reps@[y]);
                lemma_key_order(
                    reps@[x].luminance(),
                    reps@[x].code(),
                    reps@[y].luminance(),
                    reps@[y].code(),
                );
            }
        }
        lemma_sorted_unique(out@, ranked(cut), leq);
    }
    out.truncate(k);
    assert(out@ =~= ranked(cut));
    let ghost ranked_reps = out@;
    let last = out[out.len() - 1];
    while out.len() < k
        invariant
            0 < ranked_reps.len() <= out.len() <= k,
            last == ranked_reps.last(),
            forall|x: int| 0 <= x < ranked_reps.len() ==> #[trigger] out[x] == ranked_reps[x],
            forall|x: int| ranked_reps.len() <= x < out.len() ==> #[trigger] out[x] == last,
        decreases k - out.len(),
    {
        out.push(last);
    }
    assert(out@ =~= padded(ranked_reps, k as nat));
    out
}

/// A key made of a luminance and a rank below 2^24 orders like the pair.
proof fn lemma_key_order(l1: int, c1: int, l2: int, c2: int)
    requires
        0 <= c1 < 0x100_0000,
        0 <= c2 < 0x100_0000,
        l1 * 0x100_0000 + c1 <= l2 * 0x100_0000 + c2,
    ensures
        l1 < l2 || (l1 == l2 && c1 <= c2),
{
}

/// Reduces the pixels to 16 representative colours.
pub fn quantize_16(pixels: &[Rgb8]) -> (out: [Rgb8; 16])
    ensures
        out@ == quantized(pixels@, 16),
{
    let v = quantize(pixels, 16);
    let out = [
        v[0], v[1], v[2], v[3], v[4], v[5], v[6], v[7],
        v[8], v[9], v[10], v[11], v[12], v[13], v[14], v[15],
    ];
    assert(out@ =~= v@);
    out
}

} // verus!
