//! Stable arrangement of a sequence by integer keys.
//!
//! Sorting is specified through positions: [`stable_order`] is the one
//! arrangement of the positions `0..n` that ascends by key and, among equal
//! keys, by position. [`arranged`] reads the items off in that arrangement.

use vstd::prelude::*;
use vstd::relations::{sorted_by, total_ordering};
use vstd::seq_lib::{lemma_multiset_commutative, lemma_sorted_unique};

verus! {

/// The positions `0, 1, .., n - 1`.
pub open spec fn positions(n: nat) -> Seq<int> {
    Seq::new(n, |i: int| i)
}

/// Position `i` comes no later than position `j`: its key is smaller, or the
/// keys are equal and `i` is not the later position.
pub open spec fn key_then_position(keys: Seq<int>) -> spec_fn(int, int) -> bool {
    |i: int, j: int| keys[i] < keys[j] || (keys[i] == keys[j] && i <= j)
}

/// The positions of `keys` by ascending key, equal keys by ascending position.
pub open spec fn stable_order(keys: Seq<int>) -> Seq<int> {
    positions(keys.len()).sort_by(key_then_position(keys))
}

/// The items read off in the stable order of their keys, `keys[i]` being the
/// key of `items[i]`.
pub open spec fn arranged<T>(items: Seq<T>, keys: Seq<int>) -> Seq<T> {
    stable_order(keys).map_values(|i: int| items[i])
}

/// The items by ascending `key`; items of equal key keep their order.
pub open spec fn sorted_stably<T>(items: Seq<T>, key: spec_fn(T) -> int) -> Seq<T> {
    arranged(items, items.map_values(key))
}

/// Views a vector of machine keys as mathematical integers.
pub open spec fn key_values(keys: Seq<u128>) -> Seq<int> {
    keys.map_values(|k: u128| k as int)
}

/// Views a vector of machine positions as mathematical integers.
pub open spec fn position_values(perm: Seq<usize>) -> Seq<int> {
    perm.map_values(|i: usize| i as int)
}

/// Mapping two sequences with the same elements gives the same elements.
pub proof fn lemma_map_values_permutes<A, B>(a: Seq<A>, b: Seq<A>, f: spec_fn(A) -> B)
    requires
        a.to_multiset() == b.to_multiset(),
    ensures
        a.map_values(f).to_multiset() == b.map_values(f).to_multiset(),
    decreases a.len(),
{
    broadcast use vstd::seq_lib::group_to_multiset_ensures;

    if a.len() == 0 {
        assert(b.len() == 0) by {
            assert(a.to_multiset().len() == 0);
            assert(b.to_multiset().len() == b.len());
        }
        assert(a.map_values(f) =~= b.map_values(f));
    } else {
        let x = a.last();
        assert(b.contains(x)) by {
            assert(a.contains(x));
            assert(a.to_multiset().count(x) > 0);
            assert(b.to_multiset().count(x) > 0);
        }
        let i = b.index_of(x);
        let a1 = a.drop_last();
        let b1 = b.remove(i);
        assert(a1 =~= a.remove(a.len() - 1));
        assert(a1.to_multiset() == b1.to_multiset());
        lemma_map_values_permutes(a1, b1, f);
        assert(a.map_values(f) =~= a1.map_values(f).push(f(x)));
        assert(b.map_values(f) =~= b1.map_values(f).insert(i, f(x)));
    }
}

/// [`key_then_position`] is a total order on the integers.
pub proof fn lemma_key_then_position_total(keys: Seq<int>)
    ensures
        total_ordering(key_then_position(keys)),
{
    let leq = key_then_position(keys);
    assert(vstd::relations::reflexive(leq));
    assert(vstd::relations::antisymmetric(leq));
    assert(vstd::relations::transitive(leq));
    assert(vstd::relations::strongly_connected(leq));
}

/// The stable order holds every position once, and ascends by key and then
/// by position.
pub proof fn lemma_stable_order(keys: Seq<int>)
    ensures
        stable_order(keys).len() == keys.len(),
        stable_order(keys).to_multiset() == positions(keys.len()).to_multiset(),
        forall|a: int|
            0 <= a < keys.len() ==> 0 <= #[trigger] stable_order(keys)[a] < keys.len(),
        forall|i: int| 0 <= i < keys.len() ==> stable_order(keys).contains(i),
        forall|a: int, b: int|
            0 <= a < b < keys.len() ==> {
                let i = #[trigger] stable_order(keys)[a];
                let j = #[trigger] stable_order(keys)[b];
                keys[i] < keys[j] || (keys[i] == keys[j] && i < j)
            },
{
    broadcast use vstd::seq_lib::group_to_multiset_ensures;

    let leq = key_then_position(keys);
    let ids = positions(keys.len());
    let order = stable_order(keys);
    lemma_key_then_position_total(keys);
    ids.lemma_sort_by_ensures(leq);
    assert(order.len() == keys.len()) by {
        assert(order.to_multiset().len() == ids.to_multiset().len());
    }
    assert forall|a: int| 0 <= a < keys.len() implies 0 <= #[trigger] order[a] < keys.len() by {
        assert(order.contains(order[a]));
        assert(order.to_multiset().count(order[a]) > 0);
        assert(ids.to_multiset().count(order[a]) > 0);
        assert(ids.contains(order[a]));
    }
    assert forall|i: int| 0 <= i < keys.len() implies order.contains(i) by {
        assert(ids[i] == i);
        assert(ids.contains(i));
        assert(ids.to_multiset().count(i) > 0);
        assert(order.to_multiset().count(i) > 0);
    }
    assert forall|a: int, b: int| 0 <= a < b < keys.len() implies {
        let i = #[trigger] order[a];
        let j = #[trigger] order[b];
        keys[i] < keys[j] || (keys[i] == keys[j] && i < j)
    } by {
        let i = order[a];
        let j = order[b];
        assert(leq(i, j));
        if i == j {
            lemma_positions_distinct(keys.len());
            ids.lemma_multiset_has_no_duplicates();
            order.lemma_multiset_has_no_duplicates_conv();
            assert(false);
        }
    }
}

/// No position occurs twice among `0..n`.
proof fn lemma_positions_distinct(n: nat)
    ensures
        positions(n).no_duplicates(),
{
}

/// Only one arrangement of the positions ascends by key and then by position.
pub proof fn lemma_stable_order_unique(keys: Seq<int>, perm: Seq<int>)
    requires
        perm.to_multiset() == positions(keys.len()).to_multiset(),
        forall|a: int, b: int|
            0 <= a < b < perm.len() ==> {
                let i = #[trigger] perm[a];
                let j = #[trigger] perm[b];
                keys[i] < keys[j] || (keys[i] == keys[j] && i < j)
            },
    ensures
        perm == stable_order(keys),
{
    let leq = key_then_position(keys);
    let ids = positions(keys.len());
    lemma_key_then_position_total(keys);
    ids.lemma_sort_by_ensures(leq);
    assert(sorted_by(perm, leq)) by {
        assert forall|a: int, b: int| 0 <= a < b < perm.len() implies #[trigger] leq(
            perm[a],
            perm[b],
        ) by {
            let i = perm[a];
            let j = perm[b];
            assert(keys[i] < keys[j] || (keys[i] == keys[j] && i < j));
        }
    }
    lemma_sorted_unique(perm, stable_order(keys), leq);
}

/// Arranging keeps every item, each as often as before, and puts the keys in
/// ascending order.
pub proof fn lemma_arranged<T>(items: Seq<T>, keys: Seq<int>)
    requires
        keys.len() == items.len(),
    ensures
        arranged(items, keys).len() == items.len(),
        arranged(items, keys).to_multiset() == items.to_multiset(),
        arranged(items, keys) == stable_order(keys).map_values(|i: int| items[i]),
        arranged(keys, keys) == stable_order(keys).map_values(|i: int| keys[i]),
        forall|a: int, b: int|
            0 <= a < b < keys.len() ==> #[trigger] arranged(keys, keys)[a] <= #[trigger] arranged(
                keys,
                keys,
            )[b],
{
    let order = stable_order(keys);
    let ids = positions(keys.len());
    lemma_stable_order(keys);
    lemma_map_values_permutes(order, ids, |i: int| items[i]);
    assert(ids.map_values(|i: int| items[i]) =~= items);
    assert forall|a: int, b: int| 0 <= a < b < keys.len() implies #[trigger] arranged(
        keys,
        keys,
    )[a] <= #[trigger] arranged(keys, keys)[b] by {
        let i = order[a];
        let j = order[b];
        assert(keys[i] < keys[j] || (keys[i] == keys[j] && i < j));
    }
}

/// A stable sort keeps every item and puts the keys in ascending order.
pub proof fn lemma_sorted_stably<T>(items: Seq<T>, key: spec_fn(T) -> int)
    ensures
        sorted_stably(items, key).len() == items.len(),
        sorted_stably(items, key).to_multiset() == items.to_multiset(),
        forall|a: int, b: int|
            0 <= a < b < items.len() ==> key(#[trigger] sorted_stably(items, key)[a]) <= key(
                #[trigger] sorted_stably(items, key)[b],
            ),
{
    let keys = items.map_values(key);
    let order = stable_order(keys);
    lemma_stable_order(keys);
    lemma_arranged(items, keys);
    assert forall|a: int, b: int| 0 <= a < b < items.len() implies key(
        #[trigger] sorted_stably(items, key)[a],
    ) <= key(#[trigger] sorted_stably(items, key)[b]) by {
        let i = order[a];
        let j = order[b];
        assert(keys[i] < keys[j] || (keys[i] == keys[j] && i < j));
    }
}

/// Two sequences with the same elements have the same length, and hold the
/// same values.
pub proof fn lemma_same_elements<T>(a: Seq<T>, b: Seq<T>)
    requires
        a.to_multiset() == b.to_multiset(),
    ensures
        a.len() == b.len(),
        forall|x: T| a.contains(x) <==> b.contains(x),
{
    a.to_multiset_ensures();
    b.to_multiset_ensures();
    assert(a.len() == a.to_multiset().len());
    assert(b.len() == b.to_multiset().len());
    assert forall|x: T| a.contains(x) <==> b.contains(x) by {
        assert(a.contains(x) <==> a.to_multiset().count(x) > 0);
        assert(b.contains(x) <==> b.to_multiset().count(x) > 0);
    }
}

/// A sequence whose keys already ascend is its own stable sort.
pub proof fn lemma_sorted_stably_fixes_sorted<T>(items: Seq<T>, key: spec_fn(T) -> int)
    requires
        forall|a: int, b: int|
            0 <= a < b < items.len() ==> key(#[trigger] items[a]) <= key(#[trigger] items[b]),
    ensures
        sorted_stably(items, key) == items,
{
    let keys = items.map_values(key);
    let ids = positions(items.len());
    assert forall|a: int, b: int| 0 <= a < b < ids.len() implies {
        let i = #[trigger] ids[a];
        let j = #[trigger] ids[b];
        keys[i] < keys[j] || (keys[i] == keys[j] && i < j)
    } by {
        assert(key(items[a]) <= key(items[b]));
    }
    lemma_stable_order_unique(keys, ids);
    assert(ids.map_values(|i: int| items[i]) =~= items);
}

/// Position `a` comes strictly before position `b` in the stable order.
spec fn precedes(keys: Seq<u128>, a: usize, b: usize) -> bool {
    keys[a as int] < keys[b as int] || (keys[a as int] == keys[b as int] && a < b)
}

/// Every earlier entry of `s` precedes every later one.
spec fn ascending(keys: Seq<u128>, s: Seq<usize>) -> bool {
    forall|i: int, j: int| 0 <= i < j < s.len() ==> precedes(keys, #[trigger] s[i], #[trigger] s[j])
}

/// The positions `lo, lo + 1, .., hi - 1`.
spec fn span(lo: int, hi: int) -> Seq<usize> {
    Seq::new((hi - lo) as nat, |i: int| (lo + i) as usize)
}

/// Merges two ascending runs of positions, the left run holding the earlier
/// positions, into one ascending run.
fn merge(
    keys: &Vec<u128>,
    left: &Vec<usize>,
    right: &Vec<usize>,
    Ghost(lo): Ghost<int>,
    Ghost(mid): Ghost<int>,
    Ghost(hi): Ghost<int>,
) -> (out: Vec<usize>)
    requires
        0 <= lo <= mid <= hi <= keys.len(),
        ascending(keys@, left@),
        ascending(keys@, right@),
        forall|i: int| 0 <= i < left.len() ==> lo <= #[trigger] left[i] < mid,
        forall|j: int| 0 <= j < right.len() ==> mid <= #[trigger] right[j] < hi,
    ensures
        ascending(keys@, out@),
        out@.to_multiset() == left@.to_multiset().add(right@.to_multiset()),
        forall|i: int| 0 <= i < out.len() ==> lo <= #[trigger] out[i] < hi,
{
    let mut out: Vec<usize> = Vec::new();
    let mut i: usize = 0;
    let mut j: usize = 0;
    proof {
        broadcast use {
            vstd::seq_lib::group_to_multiset_ensures,
            vstd::multiset::group_multiset_axioms,
        };

        assert(left@.take(0) =~= Seq::<usize>::empty());
        assert(right@.take(0) =~= Seq::<usize>::empty());
        assert(out@.to_multiset() =~= left@.take(0).to_multiset().add(
            right@.take(0).to_multiset(),
        ));
    }
    while i < left.len() || j < right.len()
        invariant
            0 <= lo <= mid <= hi <= keys.len(),
            ascending(keys@, left@),
            ascending(keys@, right@),
            forall|p: int| 0 <= p < left.len() ==> lo <= #[trigger] left[p] < mid,
            forall|q: int| 0 <= q < right.len() ==> mid <= #[trigger] right[q] < hi,
            i <= left.len(),
            j <= right.len(),
            ascending(keys@, out@),
            out@.to_multiset() == left@.take(i as int).to_multiset().add(
                right@.take(j as int).to_multiset(),
            ),
            forall|x: int| 0 <= x < out.len() ==> lo <= #[trigger] out[x] < hi,
            forall|x: int, p: int|
                0 <= x < out.len() && i <= p < left.len() ==> precedes(
                    keys@,
                    #[trigger] out[x],
                    #[trigger] left[p],
                ),
            forall|x: int, q: int|
                0 <= x < out.len() && j <= q < right.len() ==> precedes(
                    keys@,
                    #[trigger] out[x],
                    #[trigger] right[q],
                ),
        decreases left.len() - i + right.len() - j,
    {
        let from_left = if i < left.len() && j < right.len() {
            keys[left[i]] <= keys[right[j]]
        } else {
            i < left.len()
        };
        if from_left {
            let x = left[i];
            proof {
                assert(left@.take(i + 1) =~= left@.take(i as int).push(x));
                broadcast use {
                    vstd::seq_lib::group_to_multiset_ensures,
                    vstd::multiset::group_multiset_axioms,
                };

                assert(out@.push(x).to_multiset() =~= left@.take(i + 1).to_multiset().add(
                    right@.take(j as int).to_multiset(),
                ));
                assert forall|q: int| j <= q < right.len() implies precedes(
                    keys@,
                    x,
                    #[trigger] right[q],
                ) by {
                    if q > j {
                        assert(precedes(keys@, right[j as int], right[q]));
                    }
                }
            }
            out.push(x);
            i += 1;
        } else {
            let y = right[j];
            proof {
                broadcast use {
                    vstd::seq_lib::group_to_multiset_ensures,
                    vstd::multiset::group_multiset_axioms,
                };

                assert(right@.take(j + 1) =~= right@.take(j as int).push(y));
                assert(out@.push(y).to_multiset() =~= left@.take(i as int).to_multiset().add(
                    right@.take(j + 1).to_multiset(),
                ));
                assert forall|p: int| i <= p < left.len() implies precedes(
                    keys@,
                    y,
                    #[trigger] left[p],
                ) by {
                    if p > i {
                        assert(precedes(keys@, left[i as int], left[p]));
                    }
                }
            }
            out.push(y);
            j += 1;
        }
    }
    assert(left@.take(left.len() as int) =~= left@);
    assert(right@.take(right.len() as int) =~= right@);
    out
}

/// Puts the positions `lo..hi` in stable order of their keys.
fn order_span(keys: &Vec<u128>, lo: usize, hi: usize) -> (out: Vec<usize>)
    requires
        lo <= hi <= keys.len(),
    ensures
        ascending(keys@, out@),
        out@.to_multiset() == span(lo as int, hi as int).to_multiset(),
        forall|i: int| 0 <= i < out.len() ==> lo <= #[trigger] out[i] < hi,
    decreases hi - lo,
{
    broadcast use vstd::seq_lib::group_to_multiset_ensures;

    let mut out: Vec<usize> = Vec::new();
    if hi - lo == 0 {
        assert(out@ =~= span(lo as int, hi as int));
        out
    } else if hi - lo == 1 {
        out.push(lo);
        assert(out@ =~= span(lo as int, hi as int));
        out
    } else {
        let mid = lo + (hi - lo) / 2;
        let left = order_span(keys, lo, mid);
        let right = order_span(keys, mid, hi);
        proof {
            lemma_multiset_commutative(span(lo as int, mid as int), span(mid as int, hi as int));
            assert(span(lo as int, mid as int) + span(mid as int, hi as int) =~= span(
                lo as int,
                hi as int,
            ));
        }
        merge(keys, &left, &right, Ghost(lo as int), Ghost(mid as int), Ghost(hi as int))
    }
}

/// Computes the stable order of the keys: the positions by ascending key,
/// positions of equal keys ascending.
pub fn stable_order_of(keys: &Vec<u128>) -> (perm: Vec<usize>)
    ensures
        position_values(perm@) == stable_order(key_values(keys@)),
        perm.len() == keys.len(),
        forall|a: int| 0 <= a < perm.len() ==> #[trigger] perm[a] < keys.len(),
{
    let perm = order_span(keys, 0, keys.len());
    proof {
        broadcast use vstd::seq_lib::group_to_multiset_ensures;

        let n = keys.len() as nat;
        let ints = position_values(perm@);
        let vals = key_values(keys@);
        lemma_map_values_permutes(perm@, span(0, n as int), |i: usize| i as int);
        assert(span(0, n as int).map_values(|i: usize| i as int) =~= positions(n));
        assert(perm@.len() == n) by {
            assert(perm@.to_multiset().len() == span(0, n as int).to_multiset().len());
        }
        assert forall|a: int, b: int| 0 <= a < b < ints.len() implies {
            let i = #[trigger] ints[a];
            let j = #[trigger] ints[b];
            vals[i] < vals[j] || (vals[i] == vals[j] && i < j)
        } by {
            assert(precedes(keys@, perm[a], perm[b]));
        }
        lemma_stable_order_unique(vals, ints);
    }
    perm
}

/// Arranges the items in the stable order of their keys, `keys[i]` being the
/// key of `items[i]`.
pub fn arrange<T: Copy>(items: &Vec<T>, keys: &Vec<u128>) -> (out: Vec<T>)
    requires
        keys.len() == items.len(),
    ensures
        out@ == arranged(items@, key_values(keys@)),
{
    let perm = stable_order_of(keys);
    let mut out: Vec<T> = Vec::new();
    let mut a: usize = 0;
    while a < perm.len()
        invariant
            a <= perm.len(),
            perm.len() == items.len(),
            forall|x: int| 0 <= x < perm.len() ==> #[trigger] perm[x] < items.len(),
            out.len() == a,
            forall|x: int| 0 <= x < a ==> #[trigger] out[x] == items[perm[x] as int],
        decreases perm.len() - a,
    {
        out.push(items[perm[a]]);
        a += 1;
    }
    assert(out@ =~= position_values(perm@).map_values(|i: int| items@[i]));
    out
}

} // verus!
