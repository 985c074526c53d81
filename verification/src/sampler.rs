//! Drawing negative examples from the shared table.
//!
//! Each worker walks the table with a cursor of its own. A draw reads the
//! entry under the cursor and moves the cursor on by one, wrapping at the end
//! of the table; an entry that equals the target is passed over.

use std::sync::Arc;
use vstd::prelude::*;
use vstd::arithmetic::div_mod::{lemma_fundamental_div_mod_converse, lemma_small_mod};

verus! {

/// A cursor into a negative table. The table is shared by all the workers and
/// never written to.
pub struct NegativeSampler {
    table: Arc<Vec<usize>>,
    cursor: usize,
}

/// The index that lies `k` steps after `cursor`, walking round a table of
/// `len` entries.
pub open spec fn slot_after(len: int, cursor: int, k: int) -> int
    recommends
        len > 0,
{
    (cursor + k) % len
}

/// The entry that lies `k` steps after `cursor`, walking round the table.
pub open spec fn entry_after(table: Seq<usize>, cursor: int, k: int) -> usize
    recommends
        table.len() > 0,
{
    table[slot_after(table.len() as int, cursor, k)]
}

/// Every entry of the table is `target`.
pub open spec fn holds_only(table: Seq<usize>, target: usize) -> bool {
    forall|i: int| 0 <= i < table.len() ==> table[i] == target
}

/// The draw for `target` ends `k` steps after `cursor`: the entry there is
/// the first one that differs from `target`.
pub open spec fn draw_ends_at(table: Seq<usize>, cursor: int, target: usize, k: int) -> bool {
    &&& 0 <= k < table.len()
    &&& entry_after(table, cursor, k) != target
    &&& forall|j: int| 0 <= j < k ==> entry_after(table, cursor, j) == target
}

/// The number of entries that the draw for `target` passes over.
pub open spec fn draw_steps(table: Seq<usize>, cursor: int, target: usize) -> int {
    choose|k: int| draw_ends_at(table, cursor, target, k)
}

/// The first `count` draws for `target`, from `cursor` on. A table that holds
/// nothing but `target` gives none.
pub open spec fn draws(table: Seq<usize>, cursor: int, target: usize, count: nat) -> Seq<usize>
    decreases count,
{
    if count == 0 || holds_only(table, target) {
        Seq::empty()
    } else {
        let k = draw_steps(table, cursor, target);
        seq![entry_after(table, cursor, k)] + draws(
            table,
            slot_after(table.len() as int, cursor, k + 1),
            target,
            (count - 1) as nat,
        )
    }
}

/// Where the cursor stands after the first `count` draws for `target`.
pub open spec fn cursor_after_draws(table: Seq<usize>, cursor: int, target: usize, count: nat) -> int
    decreases count,
{
    if count == 0 || holds_only(table, target) {
        cursor
    } else {
        let k = draw_steps(table, cursor, target);
        cursor_after_draws(
            table,
            slot_after(table.len() as int, cursor, k + 1),
            target,
            (count - 1) as nat,
        )
    }
}

/// The steps of one training example: first the target with the label
/// `true`, then `neg` negative examples with the label `false`.
pub open spec fn example_steps(table: Seq<usize>, cursor: int, target: usize, neg: nat) -> Seq<
    (usize, bool),
> {
    let negatives = draws(table, cursor, target, neg);
    seq![(target, true)] + Seq::new(negatives.len(), |i: int| (negatives[i], false))
}

/// A draw ends at one place only.
pub proof fn lemma_draw_ends_once(table: Seq<usize>, cursor: int, target: usize, k: int)
    requires
        draw_ends_at(table, cursor, target, k),
    ensures
        draw_steps(table, cursor, target) == k,
        !holds_only(table, target),
{
    let chosen = draw_steps(table, cursor, target);
    assert(draw_ends_at(table, cursor, target, chosen));
    if chosen < k {
        assert(entry_after(table, cursor, chosen) == target);
    } else if k < chosen {
        assert(entry_after(table, cursor, k) == target);
    }
    let len = table.len() as int;
    assert(0 <= slot_after(len, cursor, k) < len) by (nonlinear_arith)
        requires
            len > 0,
            slot_after(len, cursor, k) == (cursor + k) % len,
    ;
}

/// No draw gives the target it was made for.
pub proof fn lemma_draws_avoid_target(
    table: Seq<usize>,
    cursor: int,
    target: usize,
    count: nat,
    i: int,
)
    requires
        0 <= i < draws(table, cursor, target, count).len(),
    ensures
        draws(table, cursor, target, count)[i] != target,
    decreases count,
{
    if count == 0 || holds_only(table, target) {
    } else {
        let k = draw_steps(table, cursor, target);
        lemma_draw_exists(table, cursor, target);
        if i > 0 {
            lemma_draws_avoid_target(
                table,
                slot_after(table.len() as int, cursor, k + 1),
                target,
                (count - 1) as nat,
                i - 1,
            );
        }
    }
}

/// Every draw is an entry of the table.
pub proof fn lemma_draws_from_table(
    table: Seq<usize>,
    cursor: int,
    target: usize,
    count: nat,
    i: int,
)
    requires
        0 <= i < draws(table, cursor, target, count).len(),
    ensures
        table.contains(draws(table, cursor, target, count)[i]),
    decreases count,
{
    if count == 0 || holds_only(table, target) {
    } else {
        let k = draw_steps(table, cursor, target);
        let len = table.len() as int;
        if i == 0 {
            lemma_draw_exists(table, cursor, target);
            let slot = slot_after(len, cursor, k);
            assert(0 <= slot < len) by (nonlinear_arith)
                requires
                    len > 0,
                    slot == (cursor + k) % len,
            ;
            assert(table[slot] == draws(table, cursor, target, count)[0]);
        } else {
            lemma_draws_from_table(
                table,
                slot_after(len, cursor, k + 1),
                target,
                (count - 1) as nat,
                i - 1,
            );
        }
    }
}

/// A table that holds another entry than `target` gives as many draws as are
/// asked for.
pub proof fn lemma_draws_len(table: Seq<usize>, cursor: int, target: usize, count: nat)
    ensures
        draws(table, cursor, target, count).len() == if holds_only(table, target) {
            0
        } else {
            count
        },
    decreases count,
{
    if count == 0 || holds_only(table, target) {
    } else {
        let k = draw_steps(table, cursor, target);
        lemma_draws_len(
            table,
            slot_after(table.len() as int, cursor, k + 1),
            target,
            (count - 1) as nat,
        );
    }
}

/// In a table that holds another entry than `target`, every draw ends.
pub proof fn lemma_draw_exists(table: Seq<usize>, cursor: int, target: usize)
    requires
        !holds_only(table, target),
    ensures
        draw_ends_at(table, cursor, target, draw_steps(table, cursor, target)),
{
    let len = table.len() as int;
    let other = choose|i: int| 0 <= i < table.len() && table[i] != target;
    let c = cursor % len;
    assert(0 <= c < len) by (nonlinear_arith)
        requires
            len > 0,
            c == cursor % len,
    ;
    lemma_round_reaches(len, c, other);
    let j = choose|j: int| 0 <= j < len && slot_after(len, c, j) == other;
    assert(slot_after(len, cursor, j) == other) by {
        vstd::arithmetic::div_mod::lemma_add_mod_noop(cursor, j, len);
        vstd::arithmetic::div_mod::lemma_add_mod_noop(c, j, len);
        vstd::arithmetic::div_mod::lemma_mod_twice(cursor, len);
    }
    lemma_first_differing(table, cursor, target, j);
}

/// If step `upto` meets an entry that differs from `target`, the draw ends
/// there or before.
proof fn lemma_first_differing(table: Seq<usize>, cursor: int, target: usize, upto: int)
    requires
        0 <= upto < table.len(),
        entry_after(table, cursor, upto) != target,
    ensures
        draw_ends_at(table, cursor, target, draw_steps(table, cursor, target)),
    decreases upto,
{
    if forall|j: int| 0 <= j < upto ==> entry_after(table, cursor, j) == target {
        assert(draw_ends_at(table, cursor, target, upto));
    } else {
        let j = choose|j: int| 0 <= j < upto && entry_after(table, cursor, j) != target;
        lemma_first_differing(table, cursor, target, j);
    }
}

/// Walking round a table: one step on from step `k`.
proof fn lemma_step(len: int, cursor: int, k: int)
    requires
        0 <= cursor < len,
        0 <= k,
    ensures
        (cursor + k + 1) % len == if (cursor + k) % len + 1 == len {
            0
        } else {
            (cursor + k) % len + 1
        },
        0 <= (cursor + k) % len < len,
{
    let q = (cursor + k) / len;
    let r = (cursor + k) % len;
    assert(cursor + k == q * len + r && 0 <= r < len) by (nonlinear_arith)
        requires
            q == (cursor + k) / len,
            r == (cursor + k) % len,
            len > 0,
    ;
    if r + 1 == len {
        assert(cursor + k + 1 == (q + 1) * len + 0) by (nonlinear_arith)
            requires
                cursor + k == q * len + r,
                r + 1 == len,
        ;
        lemma_fundamental_div_mod_converse(cursor + k + 1, len, q + 1, 0);
    } else {
        lemma_fundamental_div_mod_converse(cursor + k + 1, len, q, r + 1);
    }
}

/// A full round from any cursor passes every entry of the table.
proof fn lemma_round_reaches(len: int, cursor: int, i: int)
    requires
        0 <= cursor < len,
        0 <= i < len,
    ensures
        exists|j: int| 0 <= j < len && slot_after(len, cursor, j) == i,
{
    if i >= cursor {
        lemma_small_mod(i as nat, len as nat);
        assert(slot_after(len, cursor, i - cursor) == i);
    } else {
        let j = i - cursor + len;
        lemma_fundamental_div_mod_converse(cursor + j, len, 1, i);
        assert(slot_after(len, cursor, j) == i);
    }
}

impl NegativeSampler {
    /// The table that the sampler draws from.
    pub closed spec fn table(&self) -> Seq<usize> {
        self.table@
    }

    /// The index of the entry that the next draw reads first.
    pub closed spec fn cursor(&self) -> int {
        self.cursor as int
    }

    /// The cursor lies inside the table, or at 0 where the table is empty.
    pub closed spec fn wf(&self) -> bool {
        if self.table@.len() == 0 {
            self.cursor == 0
        } else {
            self.cursor < self.table@.len()
        }
    }

    /// A sampler at the start of `table`.
    pub fn new(table: Arc<Vec<usize>>) -> (sampler: NegativeSampler)
        ensures
            sampler.wf(),
            sampler.table() == table@,
            sampler.cursor() == 0,
    {
        NegativeSampler { table, cursor: 0 }
    }

    /// The number of entries of the table.
    pub fn table_len(&self) -> (len: usize)
        ensures
            len == self.table().len(),
    {
        self.table.len()
    }

    /// The index of the entry that the next draw reads first.
    pub fn position(&self) -> (cursor: usize)
        ensures
            cursor == self.cursor(),
    {
        self.cursor
    }

    /// Draws a negative example for `target`: the first entry from the cursor
    /// on, walking round the table, that differs from `target`. The cursor
    /// moves past that entry.
    ///
    /// Where the table holds nothing but `target`, and where it is empty, no
    /// draw can end: the result is `None` and the cursor stays.
    pub fn get_negative(&mut self, target: usize) -> (negative: Option<usize>)
        requires
            old(self).wf(),
        ensures
            final(self).wf(),
            final(self).table() == old(self).table(),
            match negative {
                Some(n) => {
                    let k = draw_steps(old(self).table(), old(self).cursor(), target);
                    &&& n != target
                    &&& !holds_only(old(self).table(), target)
                    &&& draw_ends_at(old(self).table(), old(self).cursor(), target, k)
                    &&& n == entry_after(old(self).table(), old(self).cursor(), k)
                    &&& final(self).cursor() == slot_after(
                        old(self).table().len() as int,
                        old(self).cursor(),
                        k + 1,
                    )
                },
                None => holds_only(old(self).table(), target) && final(self).cursor() == old(
                    self,
                ).cursor(),
            },
    {
        let len: usize = self.table.len();
        if len == 0 {
            return None;
        }
        let start: usize = self.cursor;
        let ghost table = self.table@;
        let mut k: usize = 0;
        proof {
            lemma_small_mod(start as nat, len as nat);
        }
        while k < len
            invariant
                len == table.len(),
                len > 0,
                self.table@ == table,
                old(self).table@ == table,
                old(self).cursor == start,
                start < len,
                k <= len,
                self.cursor == (start + k) % (len as int),
                forall|j: int| 0 <= j < k ==> entry_after(table, start as int, j) == target,
            decreases len - k,
        {
            proof {
                lemma_step(len as int, start as int, k as int);
            }
            let negative: usize = self.table[self.cursor];
            self.cursor = if self.cursor + 1 == len {
                0
            } else {
                self.cursor + 1
            };
            if negative != target {
                proof {
                    let first = old(self).cursor();
                    assert(negative == entry_after(table, first, k as int));
                    assert(self.cursor() == slot_after(len as int, first, k + 1));
                    assert(draw_ends_at(old(self).table(), first, target, k as int));
                    lemma_draw_ends_once(table, first, target, k as int);
                }
                return Some(negative);
            }
            k = k + 1;
        }
        proof {
            assert forall|i: int| 0 <= i < len implies table[i] == target by {
                lemma_round_reaches(len as int, start as int, i);
                let j = choose|j: int| 0 <= j < len && slot_after(len as int, start as int, j) == i;
                assert(entry_after(table, start as int, j) == target);
            }
            lemma_fundamental_div_mod_converse(start + len, len as int, 1, start as int);
        }
        None
    }

    /// Draws the negative examples of one training example: `neg` draws for
    /// `target`, written to `negatives` in the order in which they were made.
    /// None of them is `target`. A table that holds nothing but `target`
    /// gives none.
    pub fn draw_negatives(&mut self, target: usize, neg: usize, negatives: &mut Vec<usize>)
        requires
            old(self).wf(),
        ensures
            final(self).wf(),
            final(self).table() == old(self).table(),
            final(negatives)@ == draws(
                old(self).table(),
                old(self).cursor(),
                target,
                neg as nat,
            ),
            final(self).cursor() == cursor_after_draws(
                old(self).table(),
                old(self).cursor(),
                target,
                neg as nat,
            ),
            forall|i: int| 0 <= i < final(negatives)@.len() ==> final(negatives)@[i] != target,
            final(negatives)@.len() == if holds_only(old(self).table(), target) {
                0
            } else {
                neg as int
            },
    {
        negatives.clear();
        let ghost table = self.table@;
        let ghost first = self.cursor as int;
        let mut made: usize = 0;
        while made < neg
            invariant
                self.wf(),
                self.table@ == table,
                old(self).table@ == table,
                old(self).cursor == first,
                made <= neg,
                negatives@.len() == made,
                draws(table, first, target, neg as nat) == negatives@ + draws(
                    table,
                    self.cursor as int,
                    target,
                    (neg - made) as nat,
                ),
                cursor_after_draws(table, first, target, neg as nat) == cursor_after_draws(
                    table,
                    self.cursor as int,
                    target,
                    (neg - made) as nat,
                ),
            decreases neg - made,
        {
            let ghost before = self.cursor as int;
            match self.get_negative(target) {
                Some(n) => {
                    proof {
                        let rest = draws(table, self.cursor as int, target, (neg - made - 1) as nat);
                        assert(draws(table, before, target, (neg - made) as nat) == seq![n] + rest);
                        assert(negatives@ + (seq![n] + rest) =~= negatives@.push(n) + rest);
                    }
                    negatives.push(n);
                },
                None => {
                    proof {
                        lemma_draws_len(table, first, target, neg as nat);
                        assert(made == 0);
                        assert(negatives@ =~= Seq::<usize>::empty());
                    }
                    return ;
                },
            }
            made = made + 1;
        }
        proof {
            assert(draws(table, self.cursor as int, target, 0) =~= Seq::empty());
            lemma_draws_len(table, first, target, neg as nat);
            assert forall|i: int| 0 <= i < negatives@.len() implies negatives@[i] != target by {
                lemma_draws_avoid_target(table, first, target, neg as nat, i);
            }
        }
    }
}

impl NegativeSampler {
    /// Lays out one training example: the rows that its steps are taken
    /// against, each with its label, in the order of the steps. The first
    /// step is the target with the label `true`; the steps that follow are
    /// the negative examples, drawn as `draw_negatives` draws them.
    pub fn negative_sampling(&mut self, target: usize, neg: usize, steps: &mut Vec<(usize, bool)>)
        requires
            old(self).wf(),
        ensures
            final(self).wf(),
            final(self).table() == old(self).table(),
            final(steps)@ == example_steps(
                old(self).table(),
                old(self).cursor(),
                target,
                neg as nat,
            ),
            final(self).cursor() == cursor_after_draws(
                old(self).table(),
                old(self).cursor(),
                target,
                neg as nat,
            ),
    {
        let mut negatives: Vec<usize> = Vec::new();
        self.draw_negatives(target, neg, &mut negatives);
        steps.clear();
        steps.push((target, true));
        let mut i: usize = 0;
        while i < negatives.len()
            invariant
                i <= negatives@.len(),
                steps@ == seq![(target, true)] + Seq::new(
                    i as nat,
                    |k: int| (negatives@[k], false),
                ),
            decreases negatives@.len() - i,
        {
            steps.push((negatives[i], false));
            i = i + 1;
        }
    }
}

} // verus!
