//! Weighted groups of colours: the working sets of the median cut.
//!
//! A bucket is modelled as the sequence of its members. Everything the
//! quantiser asks of a bucket (its spread along each channel, its weighted
//! average, the place where it is cut in two) is a function of that sequence.

use vstd::prelude::*;
use crate::color::Rgb8;
use crate::order::{
    arrange, key_values, lemma_sorted_stably, lemma_stable_order, sorted_stably, stable_order,
};

verus! {

/// A colour together with the number of pixels that have it.
#[derive(Debug, Clone, Copy, PartialEq, Eq, Structural)]
pub struct ColorCount {
    pub c: Rgb8,
    pub n: u64,
}

/// One of the three colour channels.
#[derive(Debug, Clone, Copy, PartialEq, Eq, Structural)]
pub enum Axis {
    R,
    G,
    B,
}

/// A group of weighted colours and the sum of their weights.
#[derive(Debug)]
pub struct Bucket {
    pub colors: Vec<ColorCount>,
    pub total: u64,
}

impl View for Bucket {
    type V = Seq<ColorCount>;

    open spec fn view(&self) -> Seq<ColorCount> {
        self.colors@
    }
}

impl Bucket {
    /// The bucket has a member, no colour occurs twice in it, and `total` is
    /// the weight of its members.
    pub open spec fn wf(&self) -> bool {
        &&& self.colors@.len() > 0
        &&& distinct_colors(self.colors@)
        &&& self.total == total_weight(self.colors@)
    }
}

/// The value of a colour along one channel.
pub open spec fn channel(c: Rgb8, axis: Axis) -> int {
    match axis {
        Axis::R => c.r as int,
        Axis::G => c.g as int,
        Axis::B => c.b as int,
    }
}

/// The number of pixels that the members stand for.
pub open spec fn total_weight(members: Seq<ColorCount>) -> int
    decreases members.len(),
{
    if members.len() == 0 {
        0
    } else {
        total_weight(members.drop_last()) + members.last().n
    }
}

/// The sum over the members of channel value times weight.
pub open spec fn weighted_sum(members: Seq<ColorCount>, axis: Axis) -> int
    decreases members.len(),
{
    if members.len() == 0 {
        0
    } else {
        weighted_sum(members.drop_last(), axis) + channel(members.last().c, axis)
            * members.last().n
    }
}

/// The smallest channel value among the members; 255 where there is none.
pub open spec fn lowest(members: Seq<ColorCount>, axis: Axis) -> int
    decreases members.len(),
{
    if members.len() == 0 {
        255
    } else {
        let rest = lowest(members.drop_last(), axis);
        let v = channel(members.last().c, axis);
        if v < rest {
            v
        } else {
            rest
        }
    }
}

/// The largest channel value among the members; 0 where there is none.
pub open spec fn highest(members: Seq<ColorCount>, axis: Axis) -> int
    decreases members.len(),
{
    if members.len() == 0 {
        0
    } else {
        let rest = highest(members.drop_last(), axis);
        let v = channel(members.last().c, axis);
        if v > rest {
            v
        } else {
            rest
        }
    }
}

/// The range of channel values that the members cover along `axis`.
pub open spec fn spread(members: Seq<ColorCount>, axis: Axis) -> int {
    highest(members, axis) - lowest(members, axis)
}

/// The largest of the three channel spreads.
pub open spec fn widest_spread(members: Seq<ColorCount>) -> int {
    let r = spread(members, Axis::R);
    let g = spread(members, Axis::G);
    let b = spread(members, Axis::B);
    if r >= g && r >= b {
        r
    } else if g >= b {
        g
    } else {
        b
    }
}

/// The channel of largest spread: red before green before blue among equals.
pub open spec fn widest_axis(members: Seq<ColorCount>) -> Axis {
    if spread(members, Axis::R) == widest_spread(members) {
        Axis::R
    } else if spread(members, Axis::G) == widest_spread(members) {
        Axis::G
    } else {
        Axis::B
    }
}

/// The weighted average of the members, each channel rounded down; black
/// where the members have no weight.
pub open spec fn representative(members: Seq<ColorCount>) -> Rgb8 {
    let t = total_weight(members);
    if t == 0 {
        Rgb8 { r: 0, g: 0, b: 0 }
    } else {
        Rgb8 {
            r: (weighted_sum(members, Axis::R) / t) as u8,
            g: (weighted_sum(members, Axis::G) / t) as u8,
            b: (weighted_sum(members, Axis::B) / t) as u8,
        }
    }
}

/// Bounds on the sums over a prefix: weights only add up, and a weighted
/// channel sum is at most 255 times the weight.
pub proof fn lemma_prefix_sums(members: Seq<ColorCount>, axis: Axis, p: int)
    requires
        0 <= p <= members.len(),
    ensures
        0 <= total_weight(members.take(p)) <= total_weight(members),
        0 <= weighted_sum(members.take(p), axis) <= 255 * total_weight(members.take(p)),
    decreases members.len() - p,
{
    lemma_sums_bounded(members.take(p), axis);
    if p < members.len() {
        lemma_prefix_sums(members, axis, p + 1);
        assert(members.take(p + 1).drop_last() =~= members.take(p));
    } else {
        assert(members.take(p) =~= members);
    }
}

/// A weighted channel sum lies between 0 and 255 times the total weight.
pub proof fn lemma_sums_bounded(members: Seq<ColorCount>, axis: Axis)
    ensures
        0 <= total_weight(members),
        0 <= weighted_sum(members, axis) <= 255 * total_weight(members),
    decreases members.len(),
{
    if members.len() > 0 {
        lemma_sums_bounded(members.drop_last(), axis);
        let v = channel(members.last().c, axis);
        let n = members.last().n as int;
        assert(0 <= v * n <= 255 * n) by (nonlinear_arith)
            requires
                0 <= v <= 255,
                0 <= n,
        ;
    }
}

/// Every member lies between the lowest and the highest value of its channel.
pub proof fn lemma_spread_covers(members: Seq<ColorCount>, axis: Axis, i: int)
    requires
        0 <= i < members.len(),
    ensures
        0 <= lowest(members, axis) <= channel(members[i].c, axis) <= highest(members, axis) <= 255,
    decreases members.len(),
{
    lemma_extremes_in_range(members, axis);
    if i < members.len() - 1 {
        lemma_spread_covers(members.drop_last(), axis, i);
    } else {
        lemma_extremes_in_range(members.drop_last(), axis);
    }
}

/// The lowest and highest values are channel values.
pub proof fn lemma_extremes_in_range(members: Seq<ColorCount>, axis: Axis)
    ensures
        0 <= lowest(members, axis) <= 255,
        0 <= highest(members, axis) <= 255,
    decreases members.len(),
{
    if members.len() > 0 {
        lemma_extremes_in_range(members.drop_last(), axis);
    }
}

/// Finds the widest channel of a bucket and its spread.
pub fn bucket_range(b: &Bucket) -> (r: (u32, Axis))
    requires
        b.colors.len() > 0,
    ensures
        r.0 == widest_spread(b@),
        r.1 == widest_axis(b@),
        r.0 <= 255,
{
    let mut rmin: u8 = 255;
    let mut rmax: u8 = 0;
    let mut gmin: u8 = 255;
    let mut gmax: u8 = 0;
    let mut bmin: u8 = 255;
    let mut bmax: u8 = 0;
    let mut i: usize = 0;
    while i < b.colors.len()
        invariant
            i <= b.colors.len(),
            rmin == lowest(b@.take(i as int), Axis::R),
            rmax == highest(b@.take(i as int), Axis::R),
            gmin == lowest(b@.take(i as int), Axis::G),
            gmax == highest(b@.take(i as int), Axis::G),
            bmin == lowest(b@.take(i as int), Axis::B),
            bmax == highest(b@.take(i as int), Axis::B),
        decreases b.colors.len() - i,
    {
        let c = b.colors[i].c;
        assert(b@.take(i + 1).drop_last() =~= b@.take(i as int));
        if c.r < rmin {
            rmin = c.r;
        }
        if c.r > rmax {
            rmax = c.r;
        }
        if c.g < gmin {
            gmin = c.g;
        }
        if c.g > gmax {
            gmax = c.g;
        }
        if c.b < bmin {
            bmin = c.b;
        }
        if c.b > bmax {
            bmax = c.b;
        }
        i += 1;
    }
    proof {
        assert(b@.take(b.colors.len() as int) =~= b@);
        lemma_spread_covers(b@, Axis::R, 0);
        lemma_spread_covers(b@, Axis::G, 0);
        lemma_spread_covers(b@, Axis::B, 0);
    }
    let rr: u32 = (rmax - rmin) as u32;
    let gr: u32 = (gmax - gmin) as u32;
    let br: u32 = (bmax - bmin) as u32;
    if rr >= gr && rr >= br {
        (rr, Axis::R)
    } else if gr >= rr && gr >= br {
        (gr, Axis::G)
    } else {
        (br, Axis::B)
    }
}

/// Computes the representative colour of a bucket.
pub fn weighted_average(b: &Bucket) -> (c: Rgb8)
    requires
        b.total == total_weight(b@),
    ensures
        c == representative(b@),
{
    if b.total == 0 {
        return Rgb8::new(0, 0, 0);
    }
    let mut r: u128 = 0;
    let mut g: u128 = 0;
    let mut bl: u128 = 0;
    let mut i: usize = 0;
    while i < b.colors.len()
        invariant
            i <= b.colors.len(),
            b.total == total_weight(b@),
            r == weighted_sum(b@.take(i as int), Axis::R),
            g == weighted_sum(b@.take(i as int), Axis::G),
            bl == weighted_sum(b@.take(i as int), Axis::B),
        decreases b.colors.len() - i,
    {
        let cc = b.colors[i];
        proof {
            assert(b@.take(i + 1).drop_last() =~= b@.take(i as int));
            lemma_prefix_sums(b@, Axis::R, i + 1);
            lemma_prefix_sums(b@, Axis::G, i + 1);
            lemma_prefix_sums(b@, Axis::B, i + 1);
        }
        r += cc.c.r as u128 * cc.n as u128;
        g += cc.c.g as u128 * cc.n as u128;
        bl += cc.c.b as u128 * cc.n as u128;
        i += 1;
    }
    let t = b.total as u128;
    proof {
        assert(b@.take(b.colors.len() as int) =~= b@);
        lemma_sums_bounded(b@, Axis::R);
        lemma_sums_bounded(b@, Axis::G);
        lemma_sums_bounded(b@, Axis::B);
        lemma_average_is_channel(r as int, t as int);
        lemma_average_is_channel(g as int, t as int);
        lemma_average_is_channel(bl as int, t as int);
    }
    Rgb8::new((r / t) as u8, (g / t) as u8, (bl / t) as u8)
}

/// A sum of at most 255 per unit of weight averages to a channel value.
proof fn lemma_average_is_channel(sum: int, t: int)
    requires
        0 < t,
        0 <= sum <= 255 * t,
    ensures
        0 <= sum / t <= 255,
{
    assert(0 <= sum / t <= 255) by (nonlinear_arith)
        requires
            0 < t,
            0 <= sum <= 255 * t,
    ;
}

/// The key by which members are sorted along `axis`.
pub open spec fn along(axis: Axis) -> spec_fn(ColorCount) -> int {
    |m: ColorCount| channel(m.c, axis)
}

/// The members by ascending channel value; members of equal value keep
/// their order.
pub open spec fn sorted_along(members: Seq<ColorCount>, axis: Axis) -> Seq<ColorCount> {
    sorted_stably(members, along(axis))
}

/// The first `p` members carry at least half of the weight: twice their
/// weight is no less than the whole weight.
pub open spec fn reaches_half(sorted: Seq<ColorCount>, p: int) -> bool {
    2 * total_weight(sorted.take(p)) >= total_weight(sorted)
}

/// `p` is the length of the shortest non-empty prefix that reaches half of
/// the weight.
pub open spec fn is_median(sorted: Seq<ColorCount>, p: int) -> bool {
    &&& 1 <= p <= sorted.len()
    &&& reaches_half(sorted, p)
    &&& forall|q: int| 1 <= q < p ==> !reaches_half(sorted, q)
}

/// Where a sorted bucket is cut: at the median prefix, moved if need be so
/// that neither side is empty.
pub open spec fn cut_point(sorted: Seq<ColorCount>) -> int {
    let p = choose|p: int| is_median(sorted, p);
    if p < 1 {
        1
    } else if p > sorted.len() - 1 {
        sorted.len() - 1
    } else {
        p
    }
}

/// The two children of a bucket split along `axis`.
pub open spec fn halves(members: Seq<ColorCount>, axis: Axis) -> (
    Seq<ColorCount>,
    Seq<ColorCount>,
) {
    let sorted = sorted_along(members, axis);
    let p = cut_point(sorted);
    (sorted.take(p), sorted.skip(p))
}

/// No colour occurs twice among the members.
pub open spec fn distinct_colors(members: Seq<ColorCount>) -> bool {
    forall|i: int, j: int|
        0 <= i < j < members.len() ==> (#[trigger] members[i]).c != (#[trigger] members[j]).c
}

/// A single member covers no range; two or more members of different colours
/// cover a range along some channel.
pub proof fn lemma_spread_of_distinct(members: Seq<ColorCount>)
    ensures
        members.len() == 1 ==> widest_spread(members) == 0,
        members.len() >= 2 && distinct_colors(members) ==> widest_spread(members) >= 1,
{
    if members.len() == 1 {
        assert(members.drop_last().len() == 0);
        assert(forall|axis: Axis| #[trigger] spread(members, axis) == 0) by {
            reveal_with_fuel(lowest, 2);
            reveal_with_fuel(highest, 2);
        }
    } else if members.len() >= 2 && distinct_colors(members) {
        let a = members[0].c;
        let b = members[1].c;
        assert(a != b);
        lemma_spread_covers(members, Axis::R, 0);
        lemma_spread_covers(members, Axis::R, 1);
        lemma_spread_covers(members, Axis::G, 0);
        lemma_spread_covers(members, Axis::G, 1);
        lemma_spread_covers(members, Axis::B, 0);
        lemma_spread_covers(members, Axis::B, 1);
        assert(a.r != b.r || a.g != b.g || a.b != b.b);
    }
}

/// Cutting a bucket of two or more members leaves a member on each side,
/// keeps every member and the whole weight, and puts no colour twice on a
/// side where none occurred twice before.
pub proof fn lemma_halves(members: Seq<ColorCount>, axis: Axis)
    requires
        members.len() >= 2,
    ensures
        halves(members, axis).0.len() >= 1,
        halves(members, axis).1.len() >= 1,
        halves(members, axis).0.len() + halves(members, axis).1.len() == members.len(),
        total_weight(halves(members, axis).0) + total_weight(halves(members, axis).1)
            == total_weight(members),
        (halves(members, axis).0 + halves(members, axis).1).to_multiset()
            == members.to_multiset(),
        distinct_colors(members) ==> distinct_colors(halves(members, axis).0) && distinct_colors(
            halves(members, axis).1,
        ),
{
    let sorted = sorted_along(members, axis);
    let p = cut_point(sorted);
    let left = sorted.take(p);
    let right = sorted.skip(p);
    lemma_sorted_stably(members, along(axis));
    lemma_weight_permutes(sorted, members);
    lemma_weight_splits(sorted, p);
    assert(left + right =~= sorted);
    if distinct_colors(members) {
        lemma_sorted_keeps_distinct(members, axis);
        assert(distinct_colors(left)) by {
            assert forall|i: int, j: int| 0 <= i < j < left.len() implies (#[trigger] left[i]).c != (
            #[trigger] left[j]).c by {
                assert(sorted[i].c != sorted[j].c);
            }
        }
        assert(distinct_colors(right)) by {
            assert forall|i: int, j: int| 0 <= i < j < right.len() implies (#[trigger] right[i]).c
                != (#[trigger] right[j]).c by {
                assert(sorted[p + i].c != sorted[p + j].c);
            }
        }
    }
}

/// Sorting puts no colour twice where none occurred twice before.
pub proof fn lemma_sorted_keeps_distinct(members: Seq<ColorCount>, axis: Axis)
    requires
        distinct_colors(members),
    ensures
        distinct_colors(sorted_along(members, axis)),
{
    let keys = members.map_values(along(axis));
    let order = stable_order(keys);
    let sorted = sorted_along(members, axis);
    lemma_stable_order(keys);
    assert forall|a: int, b: int| 0 <= a < b < sorted.len() implies (#[trigger] sorted[a]).c != (
    #[trigger] sorted[b]).c by {
        let i = order[a];
        let j = order[b];
        assert(keys[i] < keys[j] || (keys[i] == keys[j] && i < j));
        assert(sorted[a] == members[i]);
        assert(sorted[b] == members[j]);
        if i < j {
            assert(members[i].c != members[j].c);
        } else {
            assert(members[j].c != members[i].c);
        }
    }
}

/// The weight of a sequence is the weight of a prefix plus that of the rest.
pub proof fn lemma_weight_splits(members: Seq<ColorCount>, p: int)
    requires
        0 <= p <= members.len(),
    ensures
        total_weight(members.take(p)) + total_weight(members.skip(p)) == total_weight(members),
    decreases members.len(),
{
    if p == members.len() {
        assert(members.take(p) =~= members);
        assert(members.skip(p) =~= Seq::<ColorCount>::empty());
    } else {
        lemma_weight_splits(members.drop_last(), p);
        assert(members.drop_last().take(p) =~= members.take(p));
        assert(members.drop_last().skip(p) =~= members.skip(p).drop_last());
    }
}

/// The weight does not depend on the order of the members.
pub proof fn lemma_weight_permutes(a: Seq<ColorCount>, b: Seq<ColorCount>)
    requires
        a.to_multiset() == b.to_multiset(),
    ensures
        total_weight(a) == total_weight(b),
{
    let f = |acc: int, m: ColorCount| acc + m.n;
    lemma_weight_is_fold(a);
    lemma_weight_is_fold(b);
    assert(vstd::seq_lib::commutative_foldl(f));
    vstd::seq_lib::lemma_fold_left_permutation(a, b, f, 0int);
}

proof fn lemma_weight_is_fold(members: Seq<ColorCount>)
    ensures
        total_weight(members) == members.fold_left(0int, |acc: int, m: ColorCount| acc + m.n),
    decreases members.len(),
{
    if members.len() > 0 {
        lemma_weight_is_fold(members.drop_last());
    }
}

/// Only one prefix length is the median of a sorted bucket.
pub proof fn lemma_median_unique(sorted: Seq<ColorCount>, p: int)
    requires
        is_median(sorted, p),
    ensures
        (choose|q: int| is_median(sorted, q)) == p,
{
    let q = choose|q: int| is_median(sorted, q);
    assert(is_median(sorted, q));
    if q < p {
        assert(!reaches_half(sorted, q));
    } else if p < q {
        assert(!reaches_half(sorted, p));
    }
}

/// Adds up the weights of the members.
fn sum_weights(members: &Vec<ColorCount>) -> (t: u64)
    requires
        total_weight(members@) <= u64::MAX,
    ensures
        t == total_weight(members@),
{
    let mut t: u64 = 0;
    let mut i: usize = 0;
    while i < members.len()
        invariant
            i <= members.len(),
            total_weight(members@) <= u64::MAX,
            t == total_weight(members@.take(i as int)),
        decreases members.len() - i,
    {
        proof {
            assert(members@.take(i + 1).drop_last() =~= members@.take(i as int));
            lemma_prefix_sums(members@, Axis::R, i + 1);
        }
        t += members[i].n;
        i += 1;
    }
    assert(members@.take(members.len() as int) =~= members@);
    t
}

/// Reads off the channel values of the members as sort keys.
fn channel_keys(members: &Vec<ColorCount>, axis: Axis) -> (keys: Vec<u128>)
    ensures
        keys.len() == members.len(),
        key_values(keys@) == members@.map_values(along(axis)),
{
    let mut keys: Vec<u128> = Vec::new();
    let mut i: usize = 0;
    while i < members.len()
        invariant
            i <= members.len(),
            keys.len() == i,
            forall|x: int| 0 <= x < i ==> #[trigger] keys[x] == channel(members[x].c, axis),
        decreases members.len() - i,
    {
        let c = members[i].c;
        let v = match axis {
            Axis::R => c.r,
            Axis::G => c.g,
            Axis::B => c.b,
        };
        keys.push(v as u128);
        i += 1;
    }
    assert(key_values(keys@) =~= members@.map_values(along(axis)));
    keys
}

/// Splits a bucket in two along `axis`, at the weighted median.
pub fn split_bucket(b: Bucket, axis: Axis) -> (r: (Bucket, Bucket))
    requires
        b.wf(),
        b.colors.len() >= 2,
    ensures
        r.0@ == halves(b@, axis).0,
        r.1@ == halves(b@, axis).1,
        r.0.wf(),
        r.1.wf(),
        r.0.total + r.1.total == b.total,
{
    let keys = channel_keys(&b.colors, axis);
    let mut sorted = arrange(&b.colors, &keys);
    proof {
        lemma_sorted_stably(b@, along(axis));
        lemma_weight_permutes(sorted@, b@);
    }
    // The least weight that is at least half of the whole.
    let half = b.total - b.total / 2;
    let n = sorted.len();
    let mut acc: u64 = sorted[0].n;
    let mut p: usize = 1;
    proof {
        assert(total_weight(sorted@.take(1)) == sorted@[0].n) by {
            reveal_with_fuel(total_weight, 2);
        }
        lemma_prefix_sums(sorted@, Axis::R, 1);
    }
    while acc < half && p < n
        invariant
            n == sorted.len(),
            1 <= p <= n,
            half == total_weight(sorted@) - total_weight(sorted@) / 2,
            total_weight(sorted@) <= u64::MAX,
            acc == total_weight(sorted@.take(p as int)),
            forall|q: int| 1 <= q < p ==> !reaches_half(sorted@, q),
        decreases n - p,
    {
        proof {
            assert(sorted@.take(p + 1).drop_last() =~= sorted@.take(p as int));
            lemma_prefix_sums(sorted@, Axis::R, p + 1);
        }
        acc += sorted[p].n;
        p += 1;
    }
    proof {
        assert(sorted@.take(n as int) =~= sorted@);
        assert(is_median(sorted@, p as int));
        lemma_median_unique(sorted@, p as int);
    }
    let cut = if p > n - 1 {
        n - 1
    } else {
        p
    };
    let right_colors = sorted.split_off(cut);
    let left_colors = sorted;
    proof {
        let whole = sorted_along(b@, axis);
        assert(left_colors@ == whole.take(cut as int));
        assert(right_colors@ == whole.skip(cut as int));
        lemma_weight_splits(whole, cut as int);
        lemma_halves(b@, axis);
        lemma_sums_bounded(left_colors@, Axis::R);
        lemma_sums_bounded(right_colors@, Axis::R);
    }
    let left_total = sum_weights(&left_colors);
    let right_total = sum_weights(&right_colors);
    (
        Bucket { colors: left_colors, total: left_total },
        Bucket { colors: right_colors, total: right_total },
    )
}

} // verus!
