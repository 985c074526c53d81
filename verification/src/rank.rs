//! The order of the vocabulary: by falling count, and among equal counts by
//! the order in which the words were first seen.
//!
//! The entries that are put in order are indices into a list of counts, and a
//! smaller index stands for a word that was seen earlier.

use vstd::prelude::*;
use vstd::slice::*;
use vstd::seq_lib::*;

verus! {

/// Entry `a` stands before entry `b`: it has the greater count, or the same
/// count and the smaller index.
pub open spec fn ranks_before(counts: Seq<u64>, a: int, b: int) -> bool {
    counts[a] > counts[b] || (counts[a] == counts[b] && a < b)
}

/// Each entry of `order` stands before all that follow it.
pub open spec fn in_rank_order(order: Seq<usize>, counts: Seq<u64>) -> bool {
    forall|i: int, j: int|
        0 <= i < j < order.len() ==> ranks_before(counts, order[i] as int, order[j] as int)
}

/// No entry of `order` stands after one that should follow it.
pub open spec fn never_reversed(order: Seq<usize>, counts: Seq<u64>) -> bool {
    forall|i: int, j: int|
        0 <= i < j < order.len() ==> !ranks_before(counts, order[j] as int, order[i] as int)
}

/// Every entry of `order` is an index below `bound`.
pub open spec fn all_below(order: Seq<usize>, bound: int) -> bool {
    forall|i: int| 0 <= i < order.len() ==> order[i] < bound
}

/// Decides whether entry `a` stands before entry `b`.
pub fn comes_first(counts: &Vec<u64>, a: usize, b: usize) -> (first: bool)
    requires
        a < counts@.len(),
        b < counts@.len(),
    ensures
        first == ranks_before(counts@, a as int, b as int),
{
    counts[a] > counts[b] || (counts[a] == counts[b] && a < b)
}

/// Merges two lists that are in order into one.
fn merge(left: &Vec<usize>, right: &Vec<usize>, counts: &Vec<u64>) -> (merged: Vec<usize>)
    requires
        all_below(left@, counts@.len() as int),
        all_below(right@, counts@.len() as int),
        never_reversed(left@, counts@),
        never_reversed(right@, counts@),
    ensures
        all_below(merged@, counts@.len() as int),
        never_reversed(merged@, counts@),
        merged@.to_multiset() == left@.to_multiset().add(right@.to_multiset()),
{
    broadcast use vstd::multiset::group_multiset_axioms;

    let mut merged: Vec<usize> = Vec::new();
    let mut i: usize = 0;
    let mut j: usize = 0;
    proof {
        let none = Seq::<usize>::empty();
        assert(left@.take(0) =~= none);
        assert(right@.take(0) =~= none);
        assert(merged@ =~= none);
        none.to_multiset_ensures();
        assert(none.to_multiset() =~= none.to_multiset().add(none.to_multiset()));
    }
    while i < left.len() || j < right.len()
        invariant
            i <= left@.len(),
            j <= right@.len(),
            all_below(left@, counts@.len() as int),
            all_below(right@, counts@.len() as int),
            never_reversed(left@, counts@),
            never_reversed(right@, counts@),
            all_below(merged@, counts@.len() as int),
            never_reversed(merged@, counts@),
            merged@.to_multiset() == left@.take(i as int).to_multiset().add(
                right@.take(j as int).to_multiset(),
            ),
            forall|k: int, a: int|
                0 <= k < merged@.len() && i <= a < left@.len() ==> !ranks_before(
                    counts@,
                    left@[a] as int,
                    merged@[k] as int,
                ),
            forall|k: int, b: int|
                0 <= k < merged@.len() && j <= b < right@.len() ==> !ranks_before(
                    counts@,
                    right@[b] as int,
                    merged@[k] as int,
                ),
        decreases left@.len() - i + right@.len() - j,
    {
        let take_right: bool = if i >= left.len() {
            true
        } else if j >= right.len() {
            false
        } else {
            comes_first(counts, right[j], left[i])
        };
        let ghost before = merged@;
        if take_right {
            let entry: usize = right[j];
            merged.push(entry);
            proof {
                assert(right@.take(j + 1) =~= right@.take(j as int).push(entry));
                to_multiset_build(right@.take(j as int), entry);
                to_multiset_build(before, entry);
                assert(merged@.to_multiset() =~= left@.take(i as int).to_multiset().add(
                    right@.take(j + 1).to_multiset(),
                ));
                assert forall|k: int, a: int|
                    0 <= k < merged@.len() && i <= a < left@.len() implies !ranks_before(
                    counts@,
                    left@[a] as int,
                    merged@[k] as int,
                ) by {
                    if k == before.len() && a > i {
                        assert(!ranks_before(counts@, left@[a] as int, left@[i as int] as int));
                    }
                }
                assert forall|k: int, b: int|
                    0 <= k < merged@.len() && j + 1 <= b < right@.len() implies !ranks_before(
                    counts@,
                    right@[b] as int,
                    merged@[k] as int,
                ) by {
                    if k == before.len() {
                        assert(!ranks_before(counts@, right@[b] as int, right@[j as int] as int));
                    }
                }
            }
            j = j + 1;
        } else {
            let entry: usize = left[i];
            merged.push(entry);
            proof {
                assert(left@.take(i + 1) =~= left@.take(i as int).push(entry));
                to_multiset_build(left@.take(i as int), entry);
                to_multiset_build(before, entry);
                assert(merged@.to_multiset() =~= left@.take(i + 1).to_multiset().add(
                    right@.take(j as int).to_multiset(),
                ));
                assert forall|k: int, a: int|
                    0 <= k < merged@.len() && i + 1 <= a < left@.len() implies !ranks_before(
                    counts@,
                    left@[a] as int,
                    merged@[k] as int,
                ) by {
                    if k == before.len() {
                        assert(!ranks_before(counts@, left@[a] as int, left@[i as int] as int));
                    }
                }
                assert forall|k: int, b: int|
                    0 <= k < merged@.len() && j <= b < right@.len() implies !ranks_before(
                    counts@,
                    right@[b] as int,
                    merged@[k] as int,
                ) by {
                    if k == before.len() && b > j {
                        assert(!ranks_before(counts@, right@[b] as int, right@[j as int] as int));
                    }
                }
            }
            i = i + 1;
        }
    }
    proof {
        assert(left@.take(i as int) =~= left@);
        assert(right@.take(j as int) =~= right@);
    }
    merged
}

/// Sorts by halves: each half is put in order, and the two are merged.
fn merge_sort(items: &[usize], counts: &Vec<u64>) -> (sorted: Vec<usize>)
    requires
        all_below(items@, counts@.len() as int),
    ensures
        all_below(sorted@, counts@.len() as int),
        never_reversed(sorted@, counts@),
        sorted@.to_multiset() == items@.to_multiset(),
    decreases items@.len(),
{
    let len: usize = items.len();
    if len <= 1 {
        return slice_to_vec(items);
    }
    let mid: usize = len / 2;
    let first = slice_subrange(items, 0, mid);
    let second = slice_subrange(items, mid, len);
    let left = merge_sort(first, counts);
    let right = merge_sort(second, counts);
    proof {
        assert(items@ =~= first@ + second@);
        lemma_multiset_commutative(first@, second@);
    }
    merge(&left, &right, counts)
}

/// Puts the entries of `items` in the order of the vocabulary. The result
/// holds the same entries, each before all that follow it by `ranks_before`.
pub fn rank_order(items: &[usize], counts: &Vec<u64>) -> (order: Vec<usize>)
    requires
        all_below(items@, counts@.len() as int),
        items@.no_duplicates(),
    ensures
        in_rank_order(order@, counts@),
        order@.to_multiset() == items@.to_multiset(),
        order@.no_duplicates(),
        forall|x: usize| order@.contains(x) <==> items@.contains(x),
{
    let order = merge_sort(items, counts);
    proof {
        broadcast use vstd::multiset::group_multiset_axioms;

        items@.lemma_multiset_has_no_duplicates();
        order@.lemma_multiset_has_no_duplicates_conv();
        items@.to_multiset_ensures();
        order@.to_multiset_ensures();
        assert forall|x: usize| order@.contains(x) <==> items@.contains(x) by {
            assert(order@.contains(x) <==> order@.to_multiset().count(x) > 0);
            assert(items@.contains(x) <==> items@.to_multiset().count(x) > 0);
        }
        assert forall|i: int, j: int| 0 <= i < j < order@.len() implies ranks_before(
            counts@,
            order@[i] as int,
            order@[j] as int,
        ) by {
            assert(order@[i] != order@[j]);
            assert(!ranks_before(counts@, order@[j] as int, order@[i] as int));
        }
    }
    order
}

} // verus!
