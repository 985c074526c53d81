//! The table that negative examples are drawn from.
//!
//! The table has a fixed number of slots, and each slot holds the index of a
//! word. The slots are dealt out along the running sum of the weights of the
//! words, so that a word holds a share of the table that is in proportion to
//! its weight. The table is then shuffled, so that a walk through it meets
//! the words in no order.

use vstd::prelude::*;
use vstd::seq_lib::*;
use vstd::arithmetic::div_mod::lemma_fundamental_div_mod;
use rand::StdRng;
use crate::numeric::{lemma_weight_bounds, weight, word_weight};
use crate::random::{shuffle, shuffled};
use crate::utils::W2vError;

verus! {

/// The number of slots of the table of a training run.
pub const NEGATIVE_TABLE_SIZE: usize = 10000000;

/// The sum of the weights of the first `upto` words.
pub open spec fn weight_sum(counts: Seq<u64>, upto: int) -> int
    decreases upto,
{
    if upto <= 0 {
        0
    } else {
        weight_sum(counts, upto - 1) + weight(counts[upto - 1] as int)
    }
}

/// The sum of the weights of all words.
pub open spec fn total_weight(counts: Seq<u64>) -> int {
    weight_sum(counts, counts.len() as int)
}

/// The slot at which the share of word `i` starts in a table of `size` slots
/// that is not shuffled yet: the share of the table that the words before `i`
/// hold of the total weight, rounded up.
pub open spec fn block_start(counts: Seq<u64>, size: int, i: int) -> int {
    (weight_sum(counts, i) * size + total_weight(counts) - 1) / total_weight(counts)
}

/// The number of slots that hold word `i`.
pub open spec fn slots(counts: Seq<u64>, size: int, i: int) -> int {
    block_start(counts, size, i + 1) - block_start(counts, size, i)
}

/// The table before it is shuffled, as far as the slots of the first `upto`
/// words: for each word in turn as many slots as it holds.
pub open spec fn ordered_slots(counts: Seq<u64>, size: int, upto: int) -> Seq<usize>
    decreases upto,
{
    if upto <= 0 {
        Seq::empty()
    } else {
        ordered_slots(counts, size, upto - 1) + Seq::new(
            slots(counts, size, upto - 1) as nat,
            |a: int| (upto - 1) as usize,
        )
    }
}

/// How often `index` stands in `table`.
pub open spec fn count_of(table: Seq<usize>, index: usize) -> nat {
    table.to_multiset().count(index)
}

/// The sum of the weights grows with the number of words.
pub proof fn lemma_weight_sum_grows(counts: Seq<u64>, shorter: int, longer: int)
    requires
        0 <= shorter <= longer,
    ensures
        0 <= weight_sum(counts, shorter) <= weight_sum(counts, longer),
    decreases longer,
{
    if longer > 0 {
        lemma_weight_bounds(counts[longer - 1] as int);
        if shorter < longer {
            lemma_weight_sum_grows(counts, shorter, longer - 1);
        } else {
            lemma_weight_sum_grows(counts, shorter - 1, longer - 1);
        }
    }
}

/// A quotient that is rounded up lies less than one divisor above.
proof fn lemma_round_up(x: int, d: int)
    requires
        0 <= x,
        0 < d,
    ensures
        x <= ((x + d - 1) / d) * d < x + d,
        0 <= (x + d - 1) / d,
{
    lemma_fundamental_div_mod(x + d - 1, d);
    let q = (x + d - 1) / d;
    let r = (x + d - 1) % d;
    assert(0 <= r < d) by (nonlinear_arith)
        requires
            r == (x + d - 1) % d,
            0 < d,
    ;
    assert(q * d == d * q) by (nonlinear_arith);
    if q < 0 {
        assert(q * d <= -d) by (nonlinear_arith)
            requires
                q <= -1,
                0 < d,
        ;
    }
}

/// The shares follow one another from slot 0 to the last slot of the table.
pub proof fn lemma_block_start_bounds(counts: Seq<u64>, size: int, i: int)
    requires
        0 < total_weight(counts),
        0 <= size,
        0 <= i < counts.len(),
    ensures
        block_start(counts, size, 0) == 0,
        block_start(counts, size, counts.len() as int) == size,
        0 <= block_start(counts, size, i) <= block_start(counts, size, i + 1) <= size,
{
    let total = total_weight(counts);
    let len = counts.len() as int;
    lemma_weight_sum_grows(counts, i, i + 1);
    lemma_weight_sum_grows(counts, i + 1, len);
    let a = weight_sum(counts, i);
    let b = weight_sum(counts, i + 1);
    assert(0 <= a * size <= b * size <= total * size) by (nonlinear_arith)
        requires
            0 <= a <= b <= total,
            0 <= size,
    ;
    lemma_round_up(a * size, total);
    lemma_round_up(b * size, total);
    lemma_round_up(total * size, total);
    lemma_round_up(0, total);
    let sa = block_start(counts, size, i);
    let sb = block_start(counts, size, i + 1);
    let s0 = block_start(counts, size, 0);
    let sn = block_start(counts, size, len);
    assert(weight_sum(counts, 0) * size == 0);
    assert(s0 == 0) by (nonlinear_arith)
        requires
            0 <= s0 * total < total,
            0 <= s0,
    ;
    assert(sn == size) by (nonlinear_arith)
        requires
            total * size <= sn * total < total * size + total,
            0 < total,
    ;
    assert(sa <= sb) by (nonlinear_arith)
        requires
            sa * total < a * size + total,
            b * size <= sb * total,
            a * size <= b * size,
            0 < total,
    ;
    assert(sb <= size) by (nonlinear_arith)
        requires
            sb * total < b * size + total,
            b * size <= total * size,
            0 < total,
    ;
}

/// A word holds a share of the table in proportion to its weight: the number
/// of its slots, times the total weight, differs from its weight times the
/// number of all slots by less than the total weight.
pub proof fn lemma_slots_proportional(counts: Seq<u64>, size: int, i: int)
    requires
        0 < total_weight(counts),
        0 <= size,
        0 <= i < counts.len(),
    ensures
        weight(counts[i] as int) * size - total_weight(counts) < slots(counts, size, i)
            * total_weight(counts) < weight(counts[i] as int) * size + total_weight(counts),
{
    let total = total_weight(counts);
    lemma_weight_sum_grows(counts, i, i + 1);
    let a = weight_sum(counts, i);
    let b = weight_sum(counts, i + 1);
    let w = weight(counts[i] as int);
    assert(0 <= a * size && 0 <= b * size && b * size - a * size == w * size) by (nonlinear_arith)
        requires
            0 <= a <= b,
            b == a + w,
            0 <= size,
    ;
    lemma_round_up(a * size, total);
    lemma_round_up(b * size, total);
    let sa = block_start(counts, size, i);
    let sb = block_start(counts, size, i + 1);
    assert((sb - sa) * total == sb * total - sa * total) by (nonlinear_arith);
}

/// Deals the slots of a table out to the words, in the order of the words.
///
/// Word `i` holds `slots(counts, size, i)` slots, and they follow those of
/// the words before it. The result is `RuntimeError` where the total weight
/// is 0 or more than 64 bits hold.
pub fn ordered_table(counts: &Vec<u64>, size: usize) -> (result: Result<Vec<usize>, W2vError>)
    ensures
        match result {
            Ok(table) => {
                &&& 0 < total_weight(counts@) <= u64::MAX
                &&& table@ == ordered_slots(counts@, size as int, counts@.len() as int)
                &&& table@.len() == size
                &&& forall|k: int| 0 <= k < table@.len() ==> #[trigger] table@[k] < counts@.len()
                &&& forall|a: int, b: int| 0 <= a <= b < table@.len() ==> table@[a] <= table@[b]
                &&& forall|i: usize|
                    i < counts@.len() ==> #[trigger] count_of(table@, i) == slots(
                        counts@,
                        size as int,
                        i as int,
                    )
            },
            Err(e) => e is RuntimeError && !(0 < total_weight(counts@) <= u64::MAX),
        },
{
    broadcast use vstd::multiset::group_multiset_axioms;

    let len: usize = counts.len();
    let mut total: u64 = 0;
    let mut i: usize = 0;
    while i < len
        invariant
            len == counts@.len(),
            i <= len,
            total == weight_sum(counts@, i as int),
        decreases len - i,
    {
        let w = word_weight(counts[i]);
        if w > u64::MAX - total {
            proof {
                lemma_weight_sum_grows(counts@, i + 1, len as int);
            }
            return Err(W2vError::RuntimeError);
        }
        total = total + w;
        i = i + 1;
    }
    if total == 0 {
        return Err(W2vError::RuntimeError);
    }
    let ghost t = total as int;
    let ghost s = size as int;
    let mut table: Vec<usize> = Vec::new();
    let mut running: u64 = 0;
    let mut word: usize = 0;
    proof {
        if len > 0 {
            lemma_block_start_bounds(counts@, s, 0);
        } else {
            assert(weight_sum(counts@, 0) == 0);
        }
        Seq::<usize>::empty().to_multiset_ensures();
        assert(table@ =~= Seq::<usize>::empty());
    }
    while word < len
        invariant
            len == counts@.len(),
            t == total_weight(counts@),
            t == total as int,
            0 < t,
            s == size as int,
            word <= len,
            running == weight_sum(counts@, word as int),
            table@.len() == block_start(counts@, s, word as int),
            table@ == ordered_slots(counts@, s, word as int),
            forall|k: int| 0 <= k < table@.len() ==> #[trigger] table@[k] < word,
            forall|a: int, b: int| 0 <= a <= b < table@.len() ==> table@[a] <= table@[b],
            forall|j: usize| j < word ==> #[trigger] count_of(table@, j) == slots(counts@, s, j as int),
            forall|j: usize| word <= j < len ==> #[trigger] count_of(table@, j) == 0,
        decreases len - word,
    {
        proof {
            lemma_block_start_bounds(counts@, s, word as int);
            lemma_weight_sum_grows(counts@, word + 1, len as int);
            lemma_weight_bounds(counts@[word as int] as int);
        }
        let w = word_weight(counts[word]);
        running = running + w;
        assert(running as u128 * size as u128 + total as u128 <= u128::MAX) by (nonlinear_arith)
            requires
                running <= u64::MAX,
                size <= u64::MAX,
                1 <= total <= u64::MAX,
        ;
        let end: u128 = (running as u128 * size as u128 + total as u128 - 1) / (total as u128);
        assert(end == block_start(counts@, s, word + 1));
        let ghost start = table@.len() as int;
        let ghost earlier = table@;
        assert(table@ =~= earlier + Seq::new(0, |a: int| word));
        while (table.len() as u128) < end
            invariant
                len == counts@.len(),
                word < len,
                earlier == ordered_slots(counts@, s, word as int),
                table@ == earlier + Seq::new((table@.len() - start) as nat, |a: int| word),
                start == block_start(counts@, s, word as int),
                end == block_start(counts@, s, word + 1),
                start <= table@.len() <= end <= size,
                forall|k: int| 0 <= k < table@.len() ==> #[trigger] table@[k] <= word,
                forall|a: int, b: int| 0 <= a <= b < table@.len() ==> table@[a] <= table@[b],
                forall|j: usize|
                    j < word ==> #[trigger] count_of(table@, j) == slots(counts@, s, j as int),
                count_of(table@, word) == table@.len() - start,
                forall|j: usize| word < j < len ==> #[trigger] count_of(table@, j) == 0,
            decreases end - table@.len(),
        {
            let ghost before = table@;
            table.push(word);
            proof {
                assert(table@ =~= earlier + Seq::new((table@.len() - start) as nat, |a: int| word));
                to_multiset_build(before, word);
                assert forall|j: usize| j < len && j != word implies #[trigger] count_of(table@, j)
                    == count_of(before, j) by {}
            }
        }
        proof {
            assert(Seq::new((table@.len() - start) as nat, |a: int| word) =~= Seq::new(
                slots(counts@, s, word as int) as nat,
                |a: int| (word + 1 - 1) as usize,
            ));
        }
        word = word + 1;
    }
    proof {
        if len > 0 {
            lemma_block_start_bounds(counts@, s, 0);
        }
    }
    Ok(table)
}

/// Builds the negative table of a vocabulary with the given counts: a table
/// of `size` slots in which word `i` holds `slots(counts, size, i)` slots,
/// shuffled with `rng`.
///
/// Which slots a word holds follows from the state of the generator: a
/// generator in the same state gives the same table again, and a generator
/// that is refused a table is left as it was. The result is `RuntimeError`
/// where the total weight is 0 or more than 64 bits hold.
pub fn negative_table(counts: &Vec<u64>, size: usize, rng: &mut StdRng) -> (result: Result<
    Vec<usize>,
    W2vError,
>)
    ensures
        match result {
            Ok(table) => {
                &&& 0 < total_weight(counts@) <= u64::MAX
                &&& (table@, *final(rng)) == shuffled(
                    *old(rng),
                    ordered_slots(counts@, size as int, counts@.len() as int),
                )
                &&& table@.len() == size
                &&& forall|k: int| 0 <= k < table@.len() ==> #[trigger] table@[k] < counts@.len()
                &&& forall|i: usize|
                    i < counts@.len() ==> #[trigger] count_of(table@, i) == slots(
                        counts@,
                        size as int,
                        i as int,
                    )
            },
            Err(e) => e is RuntimeError && !(0 < total_weight(counts@) <= u64::MAX) && *final(rng)
                == *old(rng),
        },
{
    match ordered_table(counts, size) {
        Ok(ordered) => {
            let mut table = ordered;
            let ghost before = table@;
            shuffle(rng, &mut table);
            proof {
                before.to_multiset_ensures();
                table@.to_multiset_ensures();
                assert(table@.to_multiset() == before.to_multiset());
                assert(table@.len() == before.len());
                assert forall|i: usize| i < counts@.len() implies #[trigger] count_of(table@, i)
                    == slots(counts@, size as int, i as int) by {
                    assert(count_of(table@, i) == count_of(before, i));
                }
                assert forall|k: int| 0 <= k < table@.len() implies #[trigger] table@[k]
                    < counts@.len() by {
                    let entry = table@[k];
                    assert(table@.contains(entry));
                    assert(table@.to_multiset().count(entry) > 0);
                    assert(before.contains(entry));
                    let m = choose|m: int| 0 <= m < before.len() && before[m] == entry;
                    assert(before[m] < counts@.len());
                }
            }
            Ok(table)
        },
        Err(e) => Err(e),
    }
}

} // verus!
