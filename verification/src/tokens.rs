//! Cutting a line of text into words.
//!
//! A word is a longest run of bytes none of which is white space. White space
//! is the blank and the control bytes from tab to carriage return.

use vstd::prelude::*;
use vstd::slice::*;

verus! {

/// The byte separates words.
pub open spec fn is_space(byte: u8) -> bool {
    byte == 32 || (9 <= byte && byte <= 13)
}

/// The number of bytes from `pos` on that belong to one word.
pub open spec fn word_len(text: Seq<u8>, pos: int) -> nat
    decreases text.len() - pos,
{
    if 0 <= pos < text.len() && !is_space(text[pos]) {
        1 + word_len(text, pos + 1)
    } else {
        0
    }
}

/// The words of `text` that start at or after `pos`, in their order.
pub open spec fn tokens_from(text: Seq<u8>, pos: int) -> Seq<Seq<u8>>
    decreases text.len() - pos,
{
    if pos < 0 || pos >= text.len() {
        Seq::empty()
    } else if is_space(text[pos]) {
        tokens_from(text, pos + 1)
    } else {
        proof {
            lemma_word_len_bound(text, pos);
        }
        seq![text.subrange(pos, pos + word_len(text, pos))] + tokens_from(
            text,
            pos + word_len(text, pos),
        )
    }
}

/// The words of `text`, in their order.
pub open spec fn tokens(text: Seq<u8>) -> Seq<Seq<u8>> {
    tokens_from(text, 0)
}

/// A word ends inside the text.
pub proof fn lemma_word_len_bound(text: Seq<u8>, pos: int)
    requires
        0 <= pos <= text.len(),
    ensures
        pos + word_len(text, pos) <= text.len(),
        forall|k: int| pos <= k < pos + word_len(text, pos) ==> !is_space(text[k]),
        pos + word_len(text, pos) < text.len() ==> is_space(text[pos + word_len(text, pos)]),
    decreases text.len() - pos,
{
    if pos < text.len() && !is_space(text[pos]) {
        lemma_word_len_bound(text, pos + 1);
    }
}

/// A text has no more words than bytes.
pub proof fn lemma_tokens_len_bound(text: Seq<u8>, pos: int)
    requires
        0 <= pos <= text.len(),
    ensures
        tokens_from(text, pos).len() <= text.len() - pos,
    decreases text.len() - pos,
{
    if pos < text.len() {
        if is_space(text[pos]) {
            lemma_tokens_len_bound(text, pos + 1);
        } else {
            lemma_word_len_bound(text, pos);
            lemma_tokens_len_bound(text, pos + word_len(text, pos));
        }
    }
}

/// Every word has a byte at least, and no white space in it.
pub proof fn lemma_tokens_are_words(text: Seq<u8>, pos: int, i: int)
    requires
        0 <= pos <= text.len(),
        0 <= i < tokens_from(text, pos).len(),
    ensures
        tokens_from(text, pos)[i].len() >= 1,
        forall|k: int|
            0 <= k < tokens_from(text, pos)[i].len() ==> !is_space(
                #[trigger] tokens_from(text, pos)[i][k],
            ),
    decreases text.len() - pos,
{
    if pos < text.len() {
        if is_space(text[pos]) {
            lemma_tokens_are_words(text, pos + 1, i);
        } else {
            lemma_word_len_bound(text, pos);
            if i > 0 {
                lemma_tokens_are_words(text, pos + word_len(text, pos), i - 1);
            }
        }
    }
}

/// Tells white space from the bytes of words.
pub fn byte_is_space(byte: u8) -> (space: bool)
    ensures
        space == is_space(byte),
{
    byte == 32 || (9 <= byte && byte <= 13)
}

/// Finds the next word at or after `pos`: the offsets of its first byte and
/// of the byte after its last. `None` where only white space is left.
pub fn next_token(text: &[u8], pos: usize) -> (found: Option<(usize, usize)>)
    requires
        pos <= text@.len(),
    ensures
        match found {
            Some((start, end)) => {
                &&& pos <= start < end <= text@.len()
                &&& end == start + word_len(text@, start as int)
                &&& tokens_from(text@, pos as int) == seq![
                    text@.subrange(start as int, end as int),
                ] + tokens_from(text@, end as int)
            },
            None => tokens_from(text@, pos as int) == Seq::<Seq<u8>>::empty(),
        },
{
    let len: usize = text.len();
    let mut start: usize = pos;
    while start < len && byte_is_space(text[start])
        invariant
            len == text@.len(),
            pos <= start <= len,
            tokens_from(text@, pos as int) == tokens_from(text@, start as int),
        decreases len - start,
    {
        start = start + 1;
    }
    if start >= len {
        return None;
    }
    let mut end: usize = start + 1;
    proof {
        lemma_word_len_bound(text@, start as int);
    }
    while end < len && !byte_is_space(text[end])
        invariant
            len == text@.len(),
            start < end <= len,
            end + word_len(text@, end as int) == start + word_len(text@, start as int),
        decreases len - end,
    {
        end = end + 1;
    }
    Some((start, end))
}

/// Counts the words of `text`.
pub fn count_tokens(text: &[u8]) -> (count: usize)
    ensures
        count == tokens(text@).len(),
{
    let len: usize = text.len();
    let mut count: usize = 0;
    let mut pos: usize = 0;
    proof {
        lemma_tokens_len_bound(text@, 0);
    }
    loop
        invariant
            len == text@.len(),
            pos <= text@.len(),
            count + tokens_from(text@, pos as int).len() == tokens(text@).len(),
            tokens(text@).len() <= text@.len(),
        decreases text@.len() - pos,
    {
        match next_token(text, pos) {
            Some((_, end)) => {
                assert(tokens_from(text@, pos as int).len() >= 1);
                count = count + 1;
                pos = end;
            },
            None => {
                return count;
            },
        }
    }
}

/// Lists the words of `text`, in their order.
pub fn tokenize(text: &[u8]) -> (words: Vec<Vec<u8>>)
    ensures
        words@.len() == tokens(text@).len(),
        forall|i: int| 0 <= i < words@.len() ==> (#[trigger] words@[i])@ == tokens(text@)[i],
{
    let mut words: Vec<Vec<u8>> = Vec::new();
    let mut pos: usize = 0;
    loop
        invariant
            pos <= text@.len(),
            words@.len() + tokens_from(text@, pos as int).len() == tokens(text@).len(),
            forall|i: int| 0 <= i < words@.len() ==> (#[trigger] words@[i])@ == tokens(text@)[i],
            forall|i: int|
                0 <= i < tokens_from(text@, pos as int).len() ==> tokens_from(text@, pos as int)[i]
                    == tokens(text@)[words@.len() + i],
        decreases text@.len() - pos,
    {
        match next_token(text, pos) {
            Some((start, end)) => {
                let word = slice_to_vec(slice_subrange(text, start, end));
                proof {
                    let rest = tokens_from(text@, pos as int);
                    let tail = tokens_from(text@, end as int);
                    assert(rest[0] == word@);
                    assert forall|i: int| 0 <= i < tail.len() implies tail[i] == tokens(text@)[words@.len()
                        + 1 + i] by {
                        assert(tail[i] == rest[i + 1]);
                    }
                }
                words.push(word);
                pos = end;
            },
            None => {
                return words;
            },
        }
    }
}

} // verus!
