//! A table of distinct words, each found again by its bytes.
//!
//! The words stand in the order in which they were added, and the place of a
//! word in that order is its index. Beside them the table keeps a chained hash
//! index: for each bucket the entry that was added to it last, and for each
//! entry the one that was added to its bucket before it.

use vstd::prelude::*;

verus! {

/// Starting value of the hash of a word.
pub const HASH_OFFSET: u64 = 14695981039346656037;

/// The factor that the hash of a word is multiplied with after each byte.
pub const HASH_PRIME: u64 = 1099511628211;

/// Number of buckets of a table that was just made.
pub const FIRST_BUCKETS: usize = 1024;

/// The hash of a word: byte after byte is mixed in with exclusive or, and the
/// sum multiplied with `HASH_PRIME` modulo 2^64.
pub open spec fn hash_bytes(word: Seq<u8>) -> u64
    decreases word.len(),
{
    if word.len() == 0 {
        HASH_OFFSET
    } else {
        (hash_bytes(word.drop_last()) ^ (word.last() as u64)).wrapping_mul(HASH_PRIME)
    }
}

/// The bucket of a word in an index of `buckets` buckets.
pub open spec fn bucket_of(word: Seq<u8>, buckets: int) -> int {
    (hash_bytes(word) as int) % buckets
}

/// Entry `entry` is met on the chain that starts with `link`. A link is the
/// index of an entry plus one, and 0 where the chain ends.
pub open spec fn on_chain(next: Seq<usize>, link: int, entry: int) -> bool
    decreases link,
{
    if link <= 0 || link > next.len() {
        false
    } else if link - 1 == entry {
        true
    } else if next[link - 1] < link {
        on_chain(next, next[link - 1] as int, entry)
    } else {
        false
    }
}

/// An entry that is added later does not change the chains of the earlier
/// ones.
proof fn lemma_chain_grows(next: Seq<usize>, added: usize, link: int, entry: int)
    requires
        link <= next.len(),
    ensures
        on_chain(next.push(added), link, entry) == on_chain(next, link, entry),
    decreases link,
{
    if link > 0 && link - 1 != entry && next[link - 1] < link {
        lemma_chain_grows(next, added, next[link - 1] as int, entry);
    }
}

/// Computes the hash of a word.
pub fn hash_word(word: &[u8]) -> (hash: u64)
    ensures
        hash == hash_bytes(word@),
{
    let mut hash: u64 = HASH_OFFSET;
    let mut i: usize = 0;
    while i < word.len()
        invariant
            i <= word@.len(),
            hash == hash_bytes(word@.take(i as int)),
        decreases word@.len() - i,
    {
        assert(word@.take(i + 1).drop_last() == word@.take(i as int));
        hash = (hash ^ (word[i] as u64)).wrapping_mul(HASH_PRIME);
        i = i + 1;
    }
    assert(word@.take(i as int) == word@);
    hash
}

/// Compares two words byte by byte.
pub fn same_bytes(a: &[u8], b: &[u8]) -> (same: bool)
    ensures
        same == (a@ == b@),
{
    if a.len() != b.len() {
        return false;
    }
    let mut i: usize = 0;
    while i < a.len()
        invariant
            a@.len() == b@.len(),
            i <= a@.len(),
            forall|k: int| 0 <= k < i ==> a@[k] == b@[k],
        decreases a@.len() - i,
    {
        if a[i] != b[i] {
            return false;
        }
        i = i + 1;
    }
    assert(a@ =~= b@);
    true
}

/// Distinct words in the order in which they were added.
pub struct WordTable {
    words: Vec<Vec<u8>>,
    heads: Vec<usize>,
    next: Vec<usize>,
}

impl View for WordTable {
    type V = Seq<Seq<u8>>;

    closed spec fn view(&self) -> Seq<Seq<u8>> {
        Seq::new(self.words@.len(), |i: int| self.words@[i]@)
    }
}

impl WordTable {
    /// The chains of the index hold the first `upto` words, each in the
    /// bucket of its hash.
    spec fn indexed(&self, upto: int) -> bool {
        &&& self.heads@.len() > 0
        &&& self.next@.len() == upto
        &&& upto <= self.words@.len()
        &&& forall|b: int| 0 <= b < self.heads@.len() ==> #[trigger] self.heads@[b] <= upto
        &&& forall|i: int|
            0 <= i < upto ==> on_chain(
                self.next@,
                self.heads@[bucket_of(#[trigger] self.words@[i]@, self.heads@.len() as int)] as int,
                i,
            )
    }

    /// No word stands in the table twice, and every word is on the chain of
    /// its bucket.
    pub closed spec fn wf(&self) -> bool {
        &&& self.indexed(self.words@.len() as int)
        &&& forall|i: int, j: int|
            0 <= i < j < self.words@.len() ==> self.words@[i]@ != self.words@[j]@
    }

    /// The table holds `word`.
    pub open spec fn has(&self, word: Seq<u8>) -> bool {
        exists|i: int| 0 <= i < self@.len() && self@[i] == word
    }

    /// In a table that is well formed no word stands twice.
    pub proof fn lemma_distinct(&self)
        requires
            self.wf(),
        ensures
            forall|i: int, j: int| 0 <= i < j < self@.len() ==> self@[i] != self@[j],
    {
    }

    /// A table without words.
    pub fn new() -> (table: WordTable)
        ensures
            table.wf(),
            table@ == Seq::<Seq<u8>>::empty(),
    {
        let mut heads: Vec<usize> = Vec::new();
        let mut b: usize = 0;
        while b < FIRST_BUCKETS
            invariant
                b <= FIRST_BUCKETS,
                heads@.len() == b,
                forall|k: int| 0 <= k < b ==> heads@[k] == 0,
            decreases FIRST_BUCKETS - b,
        {
            heads.push(0);
            b = b + 1;
        }
        let table = WordTable { words: Vec::new(), heads, next: Vec::new() };
        assert(table@ =~= Seq::<Seq<u8>>::empty());
        table
    }

    /// The number of words.
    pub fn len(&self) -> (len: usize)
        ensures
            len == self@.len(),
    {
        self.words.len()
    }

    /// The word with index `i`.
    pub fn word(&self, i: usize) -> (word: &Vec<u8>)
        requires
            i < self@.len(),
        ensures
            word@ == self@[i as int],
    {
        &self.words[i]
    }

    /// The bucket of `word` in the index as it stands.
    fn bucket(&self, word: &[u8]) -> (b: usize)
        requires
            self.heads@.len() > 0,
        ensures
            b == bucket_of(word@, self.heads@.len() as int),
            b < self.heads@.len(),
    {
        let hash = hash_word(word);
        let buckets: u64 = self.heads.len() as u64;
        (hash % buckets) as usize
    }

    /// Looks `word` up: its index where the table holds it, `None` where it
    /// does not.
    pub fn find(&self, word: &[u8]) -> (found: Option<usize>)
        requires
            self.wf(),
        ensures
            match found {
                Some(i) => i < self@.len() && self@[i as int] == word@,
                None => !self.has(word@),
            },
    {
        let b = self.bucket(word);
        let mut link: usize = self.heads[b];
        assert(forall|i: int|
            0 <= i < self.words@.len() && (#[trigger] self.words@[i])@ == word@ ==> on_chain(
                self.next@,
                link as int,
                i,
            ));
        while link != 0
            invariant
                self.wf(),
                link <= self.words@.len(),
                forall|i: int|
                    0 <= i < self.words@.len() && (#[trigger] self.words@[i])@ == word@
                        ==> on_chain(self.next@, link as int, i),
            decreases link,
        {
            let entry: usize = link - 1;
            if same_bytes(self.words[entry].as_slice(), word) {
                return Some(entry);
            }
            let onward: usize = self.next[entry];
            proof {
                assert forall|i: int|
                    0 <= i < self.words@.len() && (#[trigger] self.words@[i])@ == word@ implies onward
                    < link && on_chain(self.next@, onward as int, i) by {
                    assert(on_chain(self.next@, link as int, i));
                }
            }
            if onward >= link {
                proof {
                    assert forall|i: int| 0 <= i < self@.len() implies self@[i] != word@ by {
                        assert(self.words@[i]@ == self@[i]);
                    }
                }
                return None;
            }
            link = onward;
        }
        proof {
            assert forall|i: int| 0 <= i < self@.len() implies self@[i] != word@ by {
                assert(self.words@[i]@ == self@[i]);
                if self.words@[i]@ == word@ {
                    assert(on_chain(self.next@, link as int, i));
                }
            }
        }
        None
    }

    /// Puts the next word that is not in the index yet on the chain of its
    /// bucket.
    fn index_next(&mut self)
        requires
            old(self).indexed(old(self).next@.len() as int),
            old(self).next@.len() < old(self).words@.len(),
        ensures
            final(self).indexed(old(self).next@.len() as int + 1),
            final(self).words == old(self).words,
            final(self).heads@.len() == old(self).heads@.len(),
    {
        let entry: usize = self.next.len();
        assert(entry < self.words.len());
        let b = self.bucket(self.words[entry].as_slice());
        let ghost before = *self;
        let head: usize = self.heads[b];
        self.next.push(head);
        self.heads.set(b, entry + 1);
        proof {
            let buckets = self.heads@.len() as int;
            assert forall|i: int| 0 <= i < entry + 1 implies on_chain(
                self.next@,
                self.heads@[bucket_of(#[trigger] self.words@[i]@, buckets)] as int,
                i,
            ) by {
                let bi = bucket_of(self.words@[i]@, buckets);
                assert(0 <= bi < buckets) by (nonlinear_arith)
                    requires
                        bi == (hash_bytes(self.words@[i]@) as int) % buckets,
                        buckets > 0,
                ;
                if i < entry {
                    let old_link = before.heads@[bi] as int;
                    lemma_chain_grows(before.next@, head, old_link, i);
                    if bi == b {
                        assert(on_chain(self.next@, entry + 1, i));
                    }
                }
            }
        }
    }

    /// Builds the index anew with `buckets` buckets.
    fn reindex(&mut self, buckets: usize)
        requires
            buckets > 0,
        ensures
            final(self).indexed(old(self).words@.len() as int),
            final(self).words == old(self).words,
            final(self).heads@.len() == buckets,
    {
        let mut heads: Vec<usize> = Vec::new();
        let mut b: usize = 0;
        while b < buckets
            invariant
                b <= buckets,
                heads@.len() == b,
                forall|k: int| 0 <= k < b ==> heads@[k] == 0,
            decreases buckets - b,
        {
            heads.push(0);
            b = b + 1;
        }
        self.heads = heads;
        self.next = Vec::new();
        while self.next.len() < self.words.len()
            invariant
                self.words == old(self).words,
                self.heads@.len() == buckets,
                self.indexed(self.next@.len() as int),
            decreases self.words@.len() - self.next@.len(),
        {
            self.index_next();
        }
    }

    /// Adds a word that the table does not hold, after the others. Its index
    /// is returned.
    pub fn push(&mut self, word: Vec<u8>) -> (index: usize)
        requires
            old(self).wf(),
            !old(self).has(word@),
        ensures
            final(self).wf(),
            final(self)@ == old(self)@.push(word@),
            index == old(self)@.len(),
    {
        let index: usize = self.words.len();
        let ghost before = *self;
        self.words.push(word);
        proof {
            assert(self.indexed(index as int)) by {
                assert forall|i: int| 0 <= i < index implies on_chain(
                    self.next@,
                    self.heads@[bucket_of(
                        #[trigger] self.words@[i]@,
                        self.heads@.len() as int,
                    )] as int,
                    i,
                ) by {
                    assert(self.words@[i] == before.words@[i]);
                }
            }
        }
        if index >= self.heads.len() && self.heads.len() <= usize::MAX / 2 {
            let buckets: usize = self.heads.len() * 2;
            self.reindex(buckets);
        } else {
            self.index_next();
        }
        proof {
            assert(self@ =~= before@.push(word@));
            assert forall|i: int, j: int| 0 <= i < j < self.words@.len() implies self.words@[i]@
                != self.words@[j]@ by {
                if j == index {
                    assert(before@[i] == self.words@[i]@);
                } else {
                    assert(self.words@[i] == before.words@[i]);
                    assert(self.words@[j] == before.words@[j]);
                }
            }
        }
        index
    }
}

} // verus!
