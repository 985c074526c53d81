//! The vocabulary of a corpus.
//!
//! A dictionary is built in one pass: a builder is fed the records of the
//! corpus and counts their words, and `finish` drops the rare words and puts
//! the rest in order. The model of a corpus is the list of its words in the
//! order in which they are read; everything a dictionary holds is stated over
//! that list.

use vstd::prelude::*;
use vstd::slice::*;
use rand::StdRng;
use crate::negative::{
    count_of, lemma_weight_sum_grows, negative_table, ordered_slots, slots, total_weight,
    weight_sum,
};
use crate::numeric::{
    keep_level, keeps, keeps_draw, lemma_weight_bounds, weight, word_keep_level,
};
use crate::random::{bits_draw, next_u32, shuffled};
use crate::rank::{rank_order, ranks_before};
use crate::tokens::{count_tokens, next_token, tokens, tokens_from};
use crate::utils::W2vError;
use crate::word_table::WordTable;

verus! {

/// How often `word` stands in `seen`.
pub open spec fn occurrences(seen: Seq<Seq<u8>>, word: Seq<u8>) -> nat
    decreases seen.len(),
{
    if seen.len() == 0 {
        0
    } else {
        occurrences(seen.drop_last(), word) + if seen.last() == word {
            1nat
        } else {
            0nat
        }
    }
}

/// The place at which `word` stands in `seen` for the first time.
pub open spec fn first_position(seen: Seq<Seq<u8>>, word: Seq<u8>) -> int
    decreases seen.len(),
{
    if seen.len() == 0 {
        0
    } else if occurrences(seen.drop_last(), word) > 0 {
        first_position(seen.drop_last(), word)
    } else {
        seen.len() - 1
    }
}

/// In the vocabulary of `seen`, word `a` stands before word `b`: it is the
/// more frequent one, or as frequent and seen earlier.
pub open spec fn stands_before(seen: Seq<Seq<u8>>, a: Seq<u8>, b: Seq<u8>) -> bool {
    occurrences(seen, a) > occurrences(seen, b) || (occurrences(seen, a) == occurrences(seen, b)
        && first_position(seen, a) < first_position(seen, b))
}

/// `words` with `counts` is the vocabulary of `seen` for the threshold
/// `min_count`: it holds the words of `seen` that occur at least `min_count`
/// times and no others, each once and with its count, the more frequent
/// before the less frequent and, among equals, the earlier seen first.
pub open spec fn is_vocabulary_of(
    words: Seq<Seq<u8>>,
    counts: Seq<u64>,
    seen: Seq<Seq<u8>>,
    min_count: int,
) -> bool {
    &&& words.len() == counts.len()
    &&& forall|i: int|
        0 <= i < words.len() ==> {
            &&& (#[trigger] counts[i]) == occurrences(seen, words[i])
            &&& counts[i] >= 1
            &&& counts[i] >= min_count
        }
    &&& forall|word: Seq<u8>|
        #![trigger occurrences(seen, word)]
        occurrences(seen, word) >= 1 && occurrences(seen, word) >= min_count ==> exists|i: int|
            0 <= i < words.len() && #[trigger] words[i] == word
    &&& forall|i: int, j: int|
        0 <= i < j < words.len() ==> stands_before(seen, #[trigger] words[i], #[trigger] words[j])
}

/// A word never occurs more often than the corpus is long.
pub proof fn lemma_occurrences_bound(seen: Seq<Seq<u8>>, word: Seq<u8>)
    ensures
        occurrences(seen, word) <= seen.len(),
    decreases seen.len(),
{
    if seen.len() > 0 {
        lemma_occurrences_bound(seen.drop_last(), word);
    }
}

/// A word occurs in the corpus exactly if it stands somewhere in it.
pub proof fn lemma_occurs_iff_present(seen: Seq<Seq<u8>>, word: Seq<u8>)
    ensures
        occurrences(seen, word) > 0 <==> exists|k: int| 0 <= k < seen.len() && seen[k] == word,
    decreases seen.len(),
{
    if seen.len() > 0 {
        let shorter = seen.drop_last();
        lemma_occurs_iff_present(shorter, word);
        if occurrences(shorter, word) > 0 {
            let k = choose|k: int| 0 <= k < shorter.len() && shorter[k] == word;
            assert(seen[k] == word);
        } else if seen.last() == word {
            assert(seen[seen.len() - 1] == word);
        } else {
            if exists|k: int| 0 <= k < seen.len() && seen[k] == word {
                let k = choose|k: int| 0 <= k < seen.len() && seen[k] == word;
                assert(shorter[k] == word);
            }
        }
    }
}

/// Where a word that occurs stands first: at a place that holds it, with no
/// place before that does.
pub proof fn lemma_first_position(seen: Seq<Seq<u8>>, word: Seq<u8>)
    requires
        occurrences(seen, word) > 0,
    ensures
        0 <= first_position(seen, word) < seen.len(),
        seen[first_position(seen, word)] == word,
        forall|k: int| 0 <= k < first_position(seen, word) ==> seen[k] != word,
    decreases seen.len(),
{
    let shorter = seen.drop_last();
    if occurrences(shorter, word) > 0 {
        lemma_first_position(shorter, word);
        assert forall|k: int| 0 <= k < first_position(seen, word) implies seen[k] != word by {
            assert(shorter[k] == seen[k]);
        }
    } else {
        lemma_occurs_iff_present(shorter, word);
        assert forall|k: int| 0 <= k < seen.len() - 1 implies seen[k] != word by {
            assert(shorter[k] == seen[k]);
        }
    }
}

/// What one more word does to the counts and to the first positions.
pub proof fn lemma_one_more(seen: Seq<Seq<u8>>, added: Seq<u8>, word: Seq<u8>)
    ensures
        occurrences(seen.push(added), word) == occurrences(seen, word) + if added == word {
            1nat
        } else {
            0nat
        },
        occurrences(seen, word) > 0 ==> first_position(seen.push(added), word) == first_position(
            seen,
            word,
        ),
        occurrences(seen, word) == 0 ==> first_position(seen.push(added), word) == seen.len(),
{
    assert(seen.push(added).drop_last() =~= seen);
}

/// Two vocabularies of one corpus agree on their first `upto` words.
proof fn lemma_vocabulary_prefix(
    words: Seq<Seq<u8>>,
    counts: Seq<u64>,
    other_words: Seq<Seq<u8>>,
    other_counts: Seq<u64>,
    seen: Seq<Seq<u8>>,
    min_count: int,
    upto: int,
)
    requires
        is_vocabulary_of(words, counts, seen, min_count),
        is_vocabulary_of(other_words, other_counts, seen, min_count),
        0 <= upto <= words.len(),
        upto <= other_words.len(),
    ensures
        forall|k: int| 0 <= k < upto ==> words[k] == other_words[k],
    decreases upto,
{
    if upto > 0 {
        lemma_vocabulary_prefix(
            words,
            counts,
            other_words,
            other_counts,
            seen,
            min_count,
            upto - 1,
        );
        let i = upto - 1;
        let a = words[i];
        let b = other_words[i];
        assert(counts[i] == occurrences(seen, a));
        assert(other_counts[i] == occurrences(seen, b));
        let j = choose|j: int| 0 <= j < other_words.len() && other_words[j] == a;
        let m = choose|m: int| 0 <= m < words.len() && words[m] == b;
        if j < i {
            assert(words[j] == other_words[j]);
            assert(stands_before(seen, words[j], words[i]));
        } else if m < i {
            assert(words[m] == other_words[m]);
            assert(stands_before(seen, other_words[m], other_words[i]));
        } else if j > i && m > i {
            assert(stands_before(seen, other_words[i], other_words[j]));
            assert(stands_before(seen, words[i], words[m]));
        }
    }
}

/// A corpus has one vocabulary only: what `is_vocabulary_of` says of the
/// words and their counts leaves no choice.
pub proof fn lemma_vocabulary_unique(
    words: Seq<Seq<u8>>,
    counts: Seq<u64>,
    other_words: Seq<Seq<u8>>,
    other_counts: Seq<u64>,
    seen: Seq<Seq<u8>>,
    min_count: int,
)
    requires
        is_vocabulary_of(words, counts, seen, min_count),
        is_vocabulary_of(other_words, other_counts, seen, min_count),
    ensures
        words == other_words,
        counts == other_counts,
{
    let shorter = if words.len() <= other_words.len() {
        words.len() as int
    } else {
        other_words.len() as int
    };
    lemma_vocabulary_prefix(words, counts, other_words, other_counts, seen, min_count, shorter);
    if words.len() < other_words.len() {
        let b = other_words[shorter];
        assert(other_counts[shorter] == occurrences(seen, b));
        let m = choose|m: int| 0 <= m < words.len() && words[m] == b;
        assert(words[m] == other_words[m]);
        assert(stands_before(seen, other_words[m], other_words[shorter]));
    } else if other_words.len() < words.len() {
        let a = words[shorter];
        assert(counts[shorter] == occurrences(seen, a));
        let j = choose|j: int| 0 <= j < other_words.len() && other_words[j] == a;
        assert(words[j] == other_words[j]);
        assert(stands_before(seen, words[j], words[shorter]));
    }
    assert(words =~= other_words);
    assert forall|i: int| 0 <= i < counts.len() implies counts[i] == other_counts[i] by {
        assert(counts[i] == occurrences(seen, words[i]));
        assert(other_counts[i] == occurrences(seen, other_words[i]));
    }
    assert(counts =~= other_counts);
}

/// Counts the words of a corpus, record by record.
pub struct DictBuilder {
    table: WordTable,
    counts: Vec<u64>,
    ntokens: u64,
    rows_left: Option<usize>,
    seen: Ghost<Seq<Seq<u8>>>,
}

impl DictBuilder {
    /// The words of the records that were counted, in the order in which they
    /// were read.
    pub closed spec fn seen(&self) -> Seq<Seq<u8>> {
        self.seen@
    }

    /// How many more records are counted, where their number is capped.
    pub closed spec fn rows_left(&self) -> Option<usize> {
        self.rows_left
    }

    /// The next record is counted: the cap on the records is not reached.
    pub open spec fn accepts(&self) -> bool {
        self.rows_left() != Some(0usize)
    }

    /// The table holds the distinct words of `seen` in the order in which they
    /// were first seen, and beside each its count.
    pub closed spec fn wf(&self) -> bool {
        &&& self.table.wf()
        &&& self.counts@.len() == self.table@.len()
        &&& self.ntokens == self.seen@.len()
        &&& forall|i: int|
            0 <= i < self.counts@.len() ==> {
                &&& (#[trigger] self.counts@[i]) == occurrences(self.seen@, self.table@[i])
                &&& self.counts@[i] >= 1
            }
        &&& forall|i: int, j: int|
            0 <= i < j < self.table@.len() ==> first_position(self.seen@, #[trigger] self.table@[i])
                < first_position(self.seen@, #[trigger] self.table@[j])
        &&& forall|k: int| 0 <= k < self.seen@.len() ==> self.table.has(#[trigger] self.seen@[k])
    }

    /// A builder that has counted nothing. With `row_cap` given, no more than
    /// that many records are counted.
    pub fn new(row_cap: Option<usize>) -> (builder: DictBuilder)
        ensures
            builder.wf(),
            builder.seen() == Seq::<Seq<u8>>::empty(),
            builder.rows_left() == row_cap,
    {
        DictBuilder {
            table: WordTable::new(),
            counts: Vec::new(),
            ntokens: 0,
            rows_left: row_cap,
            seen: Ghost(Seq::empty()),
        }
    }

    /// True once the cap on the records is reached: further records are not
    /// counted.
    pub fn is_full(&self) -> (full: bool)
        ensures
            full == !self.accepts(),
    {
        match self.rows_left {
            Some(left) => left == 0,
            None => false,
        }
    }

    /// The number of words counted so far.
    pub fn ntokens(&self) -> (n: u64)
        requires
            self.wf(),
        ensures
            n == self.seen().len(),
    {
        self.ntokens
    }

    /// Counts one more word.
    fn add_token(&mut self, word: &[u8])
        requires
            old(self).wf(),
            old(self).seen@.len() < u64::MAX,
        ensures
            final(self).wf(),
            final(self).seen@ == old(self).seen@.push(word@),
            final(self).rows_left == old(self).rows_left,
    {
        let ghost before = *self;
        let ghost seen = self.seen@;
        let ghost longer = seen.push(word@);
        proof {
            assert forall|other: Seq<u8>| true implies {
                &&& occurrences(longer, other) == occurrences(seen, other) + if word@ == other {
                    1nat
                } else {
                    0nat
                }
                &&& occurrences(seen, other) > 0 ==> first_position(longer, other)
                    == first_position(seen, other)
                &&& occurrences(seen, other) == 0 ==> first_position(longer, other) == seen.len()
            } by {
                lemma_one_more(seen, word@, other);
            }
            lemma_occurs_iff_present(seen, word@);
        }
        match self.table.find(word) {
            Some(i) => {
                proof {
                    lemma_occurrences_bound(seen, word@);
                }
                let count: u64 = self.counts[i];
                self.counts.set(i, count + 1);
            },
            None => {
                proof {
                    if occurrences(seen, word@) > 0 {
                        let k = choose|k: int| 0 <= k < seen.len() && seen[k] == word@;
                        assert(before.table.has(seen[k]));
                    }
                    assert forall|i: int| 0 <= i < before.table@.len() implies first_position(
                        seen,
                        #[trigger] before.table@[i],
                    ) < seen.len() by {
                        assert(before.counts@[i] >= 1);
                        lemma_first_position(seen, before.table@[i]);
                    }
                }
                let owned = slice_to_vec(word);
                self.table.push(owned);
                self.counts.push(1);
            },
        }
        self.ntokens = self.ntokens + 1;
        self.seen = Ghost(longer);
        proof {
            assert forall|k: int| 0 <= k < longer.len() implies self.table.has(
                #[trigger] longer[k],
            ) by {
                if k < seen.len() {
                    assert(before.table.has(seen[k]));
                    let i = choose|i: int| 0 <= i < before.table@.len() && before.table@[i] == seen[k];
                    assert(self.table@[i] == longer[k]);
                } else {
                    if before.table.has(word@) {
                        let i = choose|i: int|
                            0 <= i < before.table@.len() && before.table@[i] == word@;
                        assert(self.table@[i] == longer[k]);
                    } else {
                        assert(self.table@[before.table@.len() as int] == longer[k]);
                    }
                }
            }
            assert forall|i: int| 0 <= i < self.counts@.len() implies {
                &&& (#[trigger] self.counts@[i]) == occurrences(longer, self.table@[i])
                &&& self.counts@[i] >= 1
            } by {
                if i < before.counts@.len() {
                    assert(before.counts@[i] == occurrences(seen, before.table@[i]));
                    before.table.lemma_distinct();
                }
            }
            assert forall|i: int, j: int| 0 <= i < j < self.table@.len() implies first_position(
                longer,
                #[trigger] self.table@[i],
            ) < first_position(longer, #[trigger] self.table@[j]) by {
                assert(before.counts@[i] >= 1);
                if j < before.table@.len() {
                    assert(before.counts@[j] >= 1);
                    assert(first_position(seen, before.table@[i]) < first_position(
                        seen,
                        before.table@[j],
                    ));
                } else {
                    assert(first_position(seen, before.table@[i]) < seen.len());
                }
            }
        }
    }

    /// Counts the words of one record.
    ///
    /// A record that comes after the cap is reached is passed over, and the
    /// answer is `Ok(false)`. A record whose words would take the number of
    /// words counted beyond what 64 bits hold is refused with `RuntimeError`,
    /// and nothing is counted of it.
    pub fn add_record(&mut self, text: &[u8]) -> (result: Result<bool, W2vError>)
        requires
            old(self).wf(),
        ensures
            final(self).wf(),
            match result {
                Ok(counted) => {
                    &&& counted == old(self).accepts()
                    &&& counted ==> old(self).seen().len() + tokens(text@).len() <= u64::MAX
                    &&& final(self).seen() == if counted {
                        old(self).seen() + tokens(text@)
                    } else {
                        old(self).seen()
                    }
                    &&& final(self).rows_left() == match old(self).rows_left() {
                        Some(left) => if left > 0 {
                            Some((left - 1) as usize)
                        } else {
                            Some(0usize)
                        },
                        None => None,
                    }
                },
                Err(e) => {
                    &&& e is RuntimeError
                    &&& old(self).accepts()
                    &&& old(self).seen().len() + tokens(text@).len() > u64::MAX
                    &&& final(self).seen() == old(self).seen()
                    &&& final(self).rows_left() == old(self).rows_left()
                },
            },
    {
        if self.is_full() {
            return Ok(false);
        }
        let more: usize = count_tokens(text);
        if more as u64 > u64::MAX - self.ntokens {
            return Err(W2vError::RuntimeError);
        }
        let ghost first = self.seen@;
        let mut pos: usize = 0;
        proof {
            assert(first + Seq::<Seq<u8>>::empty() =~= first);
        }
        let ghost mut done: Seq<Seq<u8>> = Seq::empty();
        loop
            invariant
                self.wf(),
                self.rows_left == old(self).rows_left,
                old(self).rows_left != Some(0usize),
                first == old(self).seen@,
                pos <= text@.len(),
                self.seen@ == first + done,
                done + tokens_from(text@, pos as int) == tokens(text@),
                first.len() + tokens(text@).len() <= u64::MAX,
            decreases text@.len() - pos,
        {
            match next_token(text, pos) {
                Some((start, end)) => {
                    let word = slice_subrange(text, start, end);
                    proof {
                        let rest = tokens_from(text@, end as int);
                        assert((done + tokens_from(text@, pos as int)).len() == done.len() + 1
                            + rest.len());
                        assert(first + done.push(word@) =~= (first + done).push(word@));
                        assert(done.push(word@) + rest =~= done + (seq![word@] + rest));
                    }
                    self.add_token(word);
                    proof {
                        done = done.push(word@);
                    }
                    pos = end;
                },
                None => {
                    proof {
                        assert(done + Seq::<Seq<u8>>::empty() =~= done);
                    }
                    self.rows_left =
                    match self.rows_left {
                        Some(left) => Some(left - 1),
                        None => None,
                    };
                    return Ok(true);
                },
            }
        }
    }
}

/// `word` is one of `words`.
pub open spec fn in_vocabulary(words: Seq<Seq<u8>>, word: Seq<u8>) -> bool {
    exists|i: int| 0 <= i < words.len() && words[i] == word
}

/// The index of `word` among `words`.
pub open spec fn vocabulary_index(words: Seq<Seq<u8>>, word: Seq<u8>) -> int {
    choose|i: int| 0 <= i < words.len() && words[i] == word
}

/// The vocabulary of a corpus: its words that are frequent enough, each with
/// its count and with the level up to which its occurrences are kept.
pub struct Dict {
    table: WordTable,
    counts: Vec<u64>,
    keep: Vec<u64>,
    threshold: u32,
    ntokens: u64,
}

impl Dict {
    /// The words, by index.
    pub closed spec fn words(&self) -> Seq<Seq<u8>> {
        self.table@
    }

    /// The count of each word, by index.
    pub closed spec fn counts(&self) -> Seq<u64> {
        self.counts@
    }

    /// The number of words of the corpus, rare ones included.
    pub closed spec fn total(&self) -> int {
        self.ntokens as int
    }

    /// The threshold of the thinning, in billionths.
    pub closed spec fn threshold(&self) -> u32 {
        self.threshold
    }

    /// The keep level of the word with index `i`.
    pub open spec fn level(&self, i: int) -> int {
        keep_level(self.counts()[i] as int, self.total(), self.threshold() as int)
    }

    /// The dictionary holds a word at least, no word twice, for each word a
    /// count of 1 or more, and its keep level.
    pub closed spec fn wf(&self) -> bool {
        &&& self.table.wf()
        &&& self.table@.len() >= 1
        &&& self.counts@.len() == self.table@.len()
        &&& self.keep@.len() == self.table@.len()
        &&& forall|i: int| 0 <= i < self.counts@.len() ==> #[trigger] self.counts@[i] >= 1
        &&& forall|i: int| 0 <= i < self.keep@.len() ==> #[trigger] self.keep@[i] == self.level(i)
    }

    /// What every dictionary can be relied on for.
    pub proof fn lemma_wf(&self)
        requires
            self.wf(),
        ensures
            self.words().len() >= 1,
            self.counts().len() == self.words().len(),
            forall|i: int| 0 <= i < self.counts().len() ==> #[trigger] self.counts()[i] >= 1,
            forall|i: int, j: int|
                0 <= i < j < self.words().len() ==> self.words()[i] != self.words()[j],
    {
        self.table.lemma_distinct();
    }

    /// The number of words.
    pub fn nsize(&self) -> (n: usize)
        requires
            self.wf(),
        ensures
            n == self.words().len(),
            n >= 1,
    {
        self.table.len()
    }

    /// The number of words of the corpus, rare ones included.
    pub fn ntokens(&self) -> (n: u64)
        ensures
            n == self.total(),
    {
        self.ntokens
    }

    /// The word with index `i`.
    pub fn get_word(&self, i: usize) -> (word: &Vec<u8>)
        requires
            self.wf(),
            i < self.words().len(),
        ensures
            word@ == self.words()[i as int],
    {
        self.table.word(i)
    }

    /// The count of the word with index `i`.
    pub fn get_count(&self, i: usize) -> (count: u64)
        requires
            self.wf(),
            i < self.words().len(),
        ensures
            count == self.counts()[i as int],
    {
        self.counts[i]
    }

    /// The counts of all words, by index.
    pub fn counts_ref(&self) -> (counts: &Vec<u64>)
        ensures
            counts@ == self.counts(),
    {
        &self.counts
    }

    /// The index of `word`, or `None` for a word that is not in the
    /// vocabulary.
    pub fn lookup(&self, word: &[u8]) -> (found: Option<usize>)
        requires
            self.wf(),
        ensures
            match found {
                Some(i) => {
                    &&& i < self.words().len()
                    &&& self.words()[i as int] == word@
                    &&& i == vocabulary_index(self.words(), word@)
                },
                None => !in_vocabulary(self.words(), word@),
            },
    {
        let found = self.table.find(word);
        proof {
            self.table.lemma_distinct();
            if let Some(i) = found {
                let j = vocabulary_index(self.words(), word@);
                assert(self.words()[i as int] == word@);
                assert(0 <= j < self.words().len() && self.words()[j] == word@);
            }
        }
        found
    }
}

impl DictBuilder {
    /// Ends the pass over the corpus: the words that occur fewer than
    /// `min_count` times are dropped, and the rest put in the order of the
    /// vocabulary. `threshold` is the threshold of the thinning, in
    /// billionths.
    ///
    /// The result is `Vocabulary` where no word is left.
    pub fn finish(self, min_count: u32, threshold: u32) -> (result: Result<Dict, W2vError>)
        requires
            self.wf(),
        ensures
            match result {
                Ok(dict) => {
                    &&& dict.wf()
                    &&& is_vocabulary_of(dict.words(), dict.counts(), self.seen(), min_count as int)
                    &&& dict.total() == self.seen().len()
                    &&& dict.threshold() == threshold
                },
                Err(e) => {
                    &&& e is Vocabulary
                    &&& forall|word: Seq<u8>|
                        !(#[trigger] occurrences(self.seen(), word) >= 1 && occurrences(
                            self.seen(),
                            word,
                        ) >= min_count)
                },
            },
    {
        let ghost seen = self.seen@;
        let n: usize = self.counts.len();
        let mut kept: Vec<usize> = Vec::new();
        let mut i: usize = 0;
        while i < n
            invariant
                n == self.counts@.len(),
                i <= n,
                forall|k: int| 0 <= k < kept@.len() ==> #[trigger] kept@[k] < i,
                forall|k: int, l: int| 0 <= k < l < kept@.len() ==> kept@[k] < kept@[l],
                forall|k: int|
                    0 <= k < kept@.len() ==> self.counts@[#[trigger] kept@[k] as int] >= min_count,
                forall|j: int|
                    0 <= j < i && #[trigger] self.counts@[j] >= min_count ==> kept@.contains(
                        j as usize,
                    ),
            decreases n - i,
        {
            if self.counts[i] >= min_count as u64 {
                let ghost before = kept@;
                kept.push(i);
                proof {
                    assert forall|j: int|
                        0 <= j < i + 1 && #[trigger] self.counts@[j] >= min_count implies kept@.contains(
                        j as usize,
                    ) by {
                        if j < i {
                            assert(before.contains(j as usize));
                            let k = choose|k: int| 0 <= k < before.len() && before[k] == j as usize;
                            assert(kept@[k] == j as usize);
                        } else {
                            assert(kept@[before.len() as int] == j as usize);
                        }
                    }
                }
            }
            i = i + 1;
        }
        if kept.len() == 0 {
            proof {
                assert forall|word: Seq<u8>|
                    !(#[trigger] occurrences(seen, word) >= 1 && occurrences(seen, word)
                        >= min_count) by {
                    if occurrences(seen, word) >= 1 && occurrences(seen, word) >= min_count {
                        lemma_occurs_iff_present(seen, word);
                        let k = choose|k: int| 0 <= k < seen.len() && seen[k] == word;
                        assert(self.table.has(seen[k]));
                        let j = choose|j: int| 0 <= j < self.table@.len() && self.table@[j] == word;
                        assert(self.counts@[j] == occurrences(seen, self.table@[j]));
                        assert(kept@.contains(j as usize));
                    }
                }
            }
            return Err(W2vError::Vocabulary);
        }
        let order = rank_order(kept.as_slice(), &self.counts);
        proof {
            assert forall|k: int| 0 <= k < order@.len() implies #[trigger] order@[k] < n
                && self.counts@[order@[k] as int] >= min_count by {
                assert(order@.contains(order@[k]));
                assert(kept@.contains(order@[k]));
                let m = choose|m: int| 0 <= m < kept@.len() && kept@[m] == order@[k];
                assert(kept@[m] < n);
            }
            order@.to_multiset_ensures();
            kept@.to_multiset_ensures();
            self.table.lemma_distinct();
        }
        let mut table = WordTable::new();
        let mut counts: Vec<u64> = Vec::new();
        let mut keep: Vec<u64> = Vec::new();
        let mut k: usize = 0;
        while k < order.len()
            invariant
                self.wf(),
                n == self.counts@.len(),
                k <= order@.len(),
                order@.no_duplicates(),
                forall|m: int| 0 <= m < order@.len() ==> #[trigger] order@[m] < n,
                forall|a: int, b: int|
                    0 <= a < b < self.table@.len() ==> self.table@[a] != self.table@[b],
                table.wf(),
                table@.len() == k,
                counts@.len() == k,
                keep@.len() == k,
                forall|m: int| 0 <= m < k ==> #[trigger] table@[m] == self.table@[order@[m] as int],
                forall|m: int|
                    0 <= m < k ==> #[trigger] counts@[m] == self.counts@[order@[m] as int],
                forall|m: int|
                    0 <= m < k ==> #[trigger] keep@[m] == keep_level(
                        self.counts@[order@[m] as int] as int,
                        self.ntokens as int,
                        threshold as int,
                    ),
            decreases order@.len() - k,
        {
            let entry: usize = order[k];
            let word = slice_to_vec(self.table.word(entry).as_slice());
            let count: u64 = self.counts[entry];
            proof {
                assert(self.counts@[entry as int] >= 1);
                if table.has(word@) {
                    let m = choose|m: int| 0 <= m < table@.len() && table@[m] == word@;
                    assert(order@[m] != order@[k as int]);
                    let a = order@[m] as int;
                    let b = entry as int;
                    assert(self.table@[a] == self.table@[b]);
                    assert(a < b || b < a);
                }
            }
            table.push(word);
            counts.push(count);
            keep.push(word_keep_level(count, self.ntokens, threshold));
            k = k + 1;
        }
        let dict = Dict { table, counts, keep, threshold, ntokens: self.ntokens };
        proof {
            let words = dict.words();
            assert forall|m: int| 0 <= m < words.len() implies {
                &&& (#[trigger] dict.counts()[m]) == occurrences(seen, words[m])
                &&& dict.counts()[m] >= 1
                &&& dict.counts()[m] >= min_count
            } by {
                let a = order@[m] as int;
                assert(dict.table@[m] == self.table@[a]);
                assert(dict.counts@[m] == self.counts@[a]);
                assert(self.counts@[a] == occurrences(seen, self.table@[a]));
            }
            assert forall|word: Seq<u8>|
                #![trigger occurrences(seen, word)]
                occurrences(seen, word) >= 1 && occurrences(seen, word) >= min_count implies exists|
                m: int,
            |
                0 <= m < words.len() && #[trigger] words[m] == word by {
                lemma_occurs_iff_present(seen, word);
                let p = choose|p: int| 0 <= p < seen.len() && seen[p] == word;
                assert(self.table.has(seen[p]));
                let j = choose|j: int| 0 <= j < self.table@.len() && self.table@[j] == word;
                assert(self.counts@[j] == occurrences(seen, self.table@[j]));
                assert(kept@.contains(j as usize));
                assert(order@.contains(j as usize));
                let m = choose|m: int| 0 <= m < order@.len() && order@[m] == j as usize;
                assert(dict.table@[m] == self.table@[order@[m] as int]);
                assert(words[m] == word);
            }
            assert forall|a: int, b: int| 0 <= a < b < words.len() implies stands_before(
                seen,
                #[trigger] words[a],
                #[trigger] words[b],
            ) by {
                let x = order@[a] as int;
                let y = order@[b] as int;
                assert(dict.table@[a] == self.table@[x]);
                assert(dict.table@[b] == self.table@[y]);
                assert(ranks_before(self.counts@, x, y));
                assert(self.counts@[x] == occurrences(seen, self.table@[x]));
                assert(self.counts@[y] == occurrences(seen, self.table@[y]));
                if x < y {
                    assert(first_position(seen, self.table@[x]) < first_position(
                        seen,
                        self.table@[y],
                    ));
                }
            }
            assert forall|m: int| 0 <= m < dict.keep@.len() implies #[trigger] dict.keep@[m]
                == dict.level(m) by {
                assert(dict.counts@[m] == self.counts@[order@[m] as int]);
            }
            assert forall|m: int| 0 <= m < dict.counts@.len() implies #[trigger] dict.counts@[m]
                >= 1 by {
                assert(dict.counts@[m] == self.counts@[order@[m] as int]);
                assert(self.counts@[order@[m] as int] >= 1);
            }
        }
        Ok(dict)
    }
}

/// The words of the first `upto` records of a corpus, in the order in which
/// they are read.
pub open spec fn corpus_tokens(records: Seq<Vec<u8>>, upto: int) -> Seq<Seq<u8>>
    decreases upto,
{
    if upto <= 0 {
        Seq::empty()
    } else {
        corpus_tokens(records, upto - 1) + tokens(records[upto - 1]@)
    }
}

/// The number of records that are counted of a corpus of `len` records.
pub open spec fn counted_records(len: int, row_cap: Option<usize>) -> int {
    match row_cap {
        Some(cap) => if cap < len {
            cap as int
        } else {
            len
        },
        None => len,
    }
}

/// A longer corpus has no fewer words.
pub proof fn lemma_corpus_tokens_grow(records: Seq<Vec<u8>>, shorter: int, longer: int)
    requires
        0 <= shorter <= longer,
    ensures
        corpus_tokens(records, shorter).len() <= corpus_tokens(records, longer).len(),
    decreases longer - shorter,
{
    if shorter < longer {
        lemma_corpus_tokens_grow(records, shorter, longer - 1);
    }
}

/// The numbers that a generator in the state `rng` gives in `count` draws,
/// and the state of the generator after the last one.
pub open spec fn drawn_bits(rng: StdRng, count: nat) -> (Seq<u32>, StdRng)
    decreases count,
{
    if count == 0 {
        (Seq::empty(), rng)
    } else {
        let (bits, next) = bits_draw(rng);
        let (rest, last) = drawn_bits(next, (count - 1) as nat);
        (seq![bits] + rest, last)
    }
}

/// The draw that belongs to word `k` of a line. Where the draws run out the
/// draw is 0.
pub open spec fn draw_at(draws: Seq<u32>, k: int) -> u32 {
    if 0 <= k < draws.len() {
        draws[k]
    } else {
        0
    }
}

impl Dict {
    /// Builds the dictionary of a corpus that is held in memory: the
    /// vocabulary of the words of its records, or of the first `row_cap`
    /// records where a cap is given.
    ///
    /// The result is `RuntimeError` where the corpus has more words than 64
    /// bits count, and `Vocabulary` where no word occurs `min_count` times.
    pub fn build(
        records: &Vec<Vec<u8>>,
        min_count: u32,
        threshold: u32,
        row_cap: Option<usize>,
    ) -> (result: Result<Dict, W2vError>)
        ensures
            ({
                let seen = corpus_tokens(
                    records@,
                    counted_records(records@.len() as int, row_cap),
                );
                match result {
                    Ok(dict) => {
                        &&& dict.wf()
                        &&& seen.len() <= u64::MAX
                        &&& is_vocabulary_of(dict.words(), dict.counts(), seen, min_count as int)
                        &&& dict.total() == seen.len()
                        &&& dict.threshold() == threshold
                    },
                    Err(e) => {
                        ||| e is RuntimeError && seen.len() > u64::MAX
                        ||| {
                            &&& e is Vocabulary
                            &&& seen.len() <= u64::MAX
                            &&& forall|word: Seq<u8>|
                                !(#[trigger] occurrences(seen, word) >= 1 && occurrences(seen, word)
                                    >= min_count)
                        }
                    },
                }
            }),
    {
        let mut builder = DictBuilder::new(row_cap);
        let ghost counted = counted_records(records@.len() as int, row_cap);
        let mut r: usize = 0;
        while r < records.len() && !builder.is_full()
            invariant
                builder.wf(),
                r <= records@.len(),
                counted == counted_records(records@.len() as int, row_cap),
                r <= counted,
                builder.seen() == corpus_tokens(records@, r as int),
                builder.rows_left() == match row_cap {
                    Some(cap) => Some((cap - r) as usize),
                    None => None,
                },
            decreases records@.len() - r,
        {
            match builder.add_record(records[r].as_slice()) {
                Ok(_) => {},
                Err(_) => {
                    proof {
                        lemma_corpus_tokens_grow(records@, r + 1, counted);
                    }
                    return Err(W2vError::RuntimeError);
                },
            }
            r = r + 1;
        }
        assert(r == counted);
        proof {
            lemma_occurrences_bound(builder.seen(), Seq::empty());
        }
        builder.finish(min_count, threshold)
    }

    /// The indices of the words of a line that are kept: word `k` is kept
    /// where it is in the vocabulary and draw `k` lies below its keep level.
    pub open spec fn kept_indices(&self, line: Seq<Seq<u8>>, draws: Seq<u32>) -> Seq<usize>
        decreases line.len(),
    {
        if line.len() == 0 {
            Seq::empty()
        } else {
            let before = self.kept_indices(line.drop_last(), draws);
            let index = vocabulary_index(self.words(), line.last());
            if in_vocabulary(self.words(), line.last()) && keeps(
                self.level(index),
                draw_at(draws, line.len() - 1),
            ) {
                before.push(index as usize)
            } else {
                before
            }
        }
    }

    /// Every index that is kept of a line is the index of a word.
    pub proof fn lemma_kept_indices_in_range(&self, line: Seq<Seq<u8>>, draws: Seq<u32>, i: int)
        requires
            0 <= i < self.kept_indices(line, draws).len(),
        ensures
            self.kept_indices(line, draws)[i] < self.words().len(),
            self.kept_indices(line, draws).len() <= line.len(),
        decreases line.len(),
    {
        self.lemma_kept_indices_len(line, draws);
        let before = self.kept_indices(line.drop_last(), draws);
        if i < before.len() {
            self.lemma_kept_indices_in_range(line.drop_last(), draws, i);
        }
    }

    /// No more indices are kept of a line than it has words.
    pub proof fn lemma_kept_indices_len(&self, line: Seq<Seq<u8>>, draws: Seq<u32>)
        ensures
            self.kept_indices(line, draws).len() <= line.len(),
        decreases line.len(),
    {
        if line.len() > 0 {
            self.lemma_kept_indices_len(line.drop_last(), draws);
        }
    }

    /// Decides for one word of a line whether it is trained on: its index
    /// where it is in the vocabulary and `draw` lies below its keep level.
    pub fn keep_word(&self, word: &[u8], draw: u32) -> (kept: Option<usize>)
        requires
            self.wf(),
        ensures
            kept == if in_vocabulary(self.words(), word@) && keeps(
                self.level(vocabulary_index(self.words(), word@)),
                draw,
            ) {
                Some(vocabulary_index(self.words(), word@) as usize)
            } else {
                None
            },
    {
        match self.lookup(word) {
            Some(i) => {
                if keeps_draw(self.keep[i], draw) {
                    Some(i)
                } else {
                    None
                }
            },
            None => None,
        }
    }

    /// Reads a line with given draws: the indices of the words that are kept
    /// are appended to what `out` holds, and the number of words of the
    /// line is returned, those that were dropped included.
    pub fn read_line_with(&self, text: &[u8], draws: &[u32], out: &mut Vec<usize>) -> (n: usize)
        requires
            self.wf(),
        ensures
            n == tokens(text@).len(),
            final(out)@ == old(out)@ + self.kept_indices(tokens(text@), draws@),
            forall|k: int|
                old(out)@.len() <= k < final(out)@.len() ==> #[trigger] final(out)@[k]
                    < self.words().len(),
    {
        let mut n: usize = 0;
        let mut pos: usize = 0;
        let ghost first = out@;
        let ghost mut done: Seq<Seq<u8>> = Seq::empty();
        proof {
            crate::tokens::lemma_tokens_len_bound(text@, 0);
            assert(first + self.kept_indices(done, draws@) =~= first);
        }
        let len: usize = text.len();
        loop
            invariant
                self.wf(),
                len == text@.len(),
                first == old(out)@,
                pos <= text@.len(),
                n == done.len(),
                done + tokens_from(text@, pos as int) == tokens(text@),
                tokens(text@).len() <= text@.len(),
                out@ == first + self.kept_indices(done, draws@),
            decreases text@.len() - pos,
        {
            match next_token(text, pos) {
                Some((start, end)) => {
                    let word = slice_subrange(text, start, end);
                    let draw: u32 = if n < draws.len() {
                        draws[n]
                    } else {
                        0
                    };
                    proof {
                        let rest = tokens_from(text@, end as int);
                        assert((done + tokens_from(text@, pos as int)).len() == done.len() + 1
                            + rest.len());
                        assert(done.push(word@) + rest =~= done + (seq![word@] + rest));
                        assert(done.push(word@).drop_last() =~= done);
                    }
                    let ghost before = out@;
                    match self.keep_word(word, draw) {
                        Some(i) => {
                            out.push(i);
                            proof {
                                assert(out@ =~= first + self.kept_indices(done.push(word@), draws@));
                            }
                        },
                        None => {},
                    }
                    proof {
                        done = done.push(word@);
                    }
                    n = n + 1;
                    pos = end;
                },
                None => {
                    proof {
                        assert(done + Seq::<Seq<u8>>::empty() =~= done);
                        assert forall|k: int| first.len() <= k < out@.len() implies #[trigger] out@[k]
                            < self.words().len() by {
                            self.lemma_kept_indices_in_range(done, draws@, k - first.len());
                        }
                    }
                    return n;
                },
            }
        }
    }

    /// Reads a line: the indices of the words that are kept are appended to
    /// what `out` holds, and the number of words of the line is returned,
    /// those that were dropped included.
    ///
    /// A number is drawn from `rng` for each word of the line, and the result
    /// is what `read_line_with` gives for these draws. They follow from the
    /// state of the generator: a generator in the same state reads the line
    /// in the same way again.
    pub fn read_line(&self, text: &[u8], rng: &mut StdRng, out: &mut Vec<usize>) -> (n: usize)
        requires
            self.wf(),
        ensures
            n == tokens(text@).len(),
            final(out)@ == old(out)@ + self.kept_indices(
                tokens(text@),
                drawn_bits(*old(rng), tokens(text@).len()).0,
            ),
            *final(rng) == drawn_bits(*old(rng), tokens(text@).len()).1,
            forall|k: int|
                old(out)@.len() <= k < final(out)@.len() ==> #[trigger] final(out)@[k]
                    < self.words().len(),
    {
        let words: usize = count_tokens(text);
        let mut draws: Vec<u32> = Vec::new();
        let ghost all = drawn_bits(*rng, words as nat);
        assert(draws@ + all.0 =~= all.0);
        while draws.len() < words
            invariant
                draws@.len() <= words,
                all.0 == draws@ + drawn_bits(*rng, (words - draws@.len()) as nat).0,
                all.1 == drawn_bits(*rng, (words - draws@.len()) as nat).1,
            decreases words - draws@.len(),
        {
            let ghost before = *rng;
            let ghost done = draws@;
            let bits = next_u32(rng);
            proof {
                let rest = drawn_bits(*rng, (words - done.len() - 1) as nat);
                assert(drawn_bits(before, (words - done.len()) as nat) == (
                    seq![bits] + rest.0,
                    rest.1,
                ));
                assert(done + (seq![bits] + rest.0) =~= done.push(bits) + rest.0);
            }
            draws.push(bits);
        }
        proof {
            assert(draws@ + Seq::<u32>::empty() =~= draws@);
        }
        self.read_line_with(text, draws.as_slice(), out)
    }
}

impl Dict {
    /// The words of a dictionary have a weight between them.
    pub proof fn lemma_total_weight_positive(&self)
        requires
            self.wf(),
        ensures
            total_weight(self.counts()) > 0,
    {
        let counts = self.counts();
        lemma_weight_bounds(counts[0] as int);
        assert(weight_sum(counts, 0) == 0);
        assert(weight_sum(counts, 1) == weight_sum(counts, 0) + weight(counts[0] as int));
        lemma_weight_sum_grows(counts, 1, counts.len() as int);
    }

    /// Builds the negative table of the vocabulary: a table of `size` slots in
    /// which each word holds a share in proportion to its weight, shuffled
    /// with `rng`.
    ///
    /// Which slots a word holds follows from the state of the generator: a
    /// generator in the same state gives the same table again. The result is
    /// `RuntimeError` where the weights of the words add up to more than 64
    /// bits hold.
    pub fn init_negative_table(&self, size: usize, rng: &mut StdRng) -> (result: Result<
        Vec<usize>,
        W2vError,
    >)
        requires
            self.wf(),
        ensures
            match result {
                Ok(table) => {
                    &&& total_weight(self.counts()) <= u64::MAX
                    &&& (table@, *final(rng)) == shuffled(
                        *old(rng),
                        ordered_slots(self.counts(), size as int, self.counts().len() as int),
                    )
                    &&& table@.len() == size
                    &&& forall|k: int|
                        0 <= k < table@.len() ==> #[trigger] table@[k] < self.words().len()
                    &&& forall|i: usize|
                        i < self.words().len() ==> #[trigger] count_of(table@, i) == slots(
                            self.counts(),
                            size as int,
                            i as int,
                        )
                },
                Err(e) => e is RuntimeError && total_weight(self.counts()) > u64::MAX && *final(rng)
                    == *old(rng),
            },
    {
        proof {
            self.lemma_total_weight_positive();
        }
        negative_table(&self.counts, size, rng)
    }
}

} // verus!
