//! The bookkeeping of the learning-rate schedule.
//!
//! All workers add the words they have read to one shared counter, and the
//! learning rate falls with the share of the run that the counter stands for.
//! To keep the workers off the counter, each of them collects its words in a
//! count of its own and hands them over only when that count has passed a
//! threshold. This file holds the count of one worker.

use vstd::prelude::*;

verus! {

/// The count of the words that a worker has read and not handed over yet.
pub struct Progress {
    pending: usize,
    lr_update: u32,
    all_tokens: u128,
}

/// What a worker hands over after it has read `more` words on top of
/// `pending`: their sum, held to what the machine's word holds.
pub open spec fn collected(pending: int, more: int) -> int {
    if pending + more > usize::MAX {
        usize::MAX as int
    } else {
        pending + more
    }
}

impl Progress {
    /// The words that are not handed over yet.
    pub closed spec fn pending(&self) -> int {
        self.pending as int
    }

    /// The threshold beyond which the words are handed over.
    pub closed spec fn lr_update(&self) -> int {
        self.lr_update as int
    }

    /// The number of words of the whole run: those of the corpus, once for
    /// each epoch.
    pub closed spec fn all_tokens(&self) -> int {
        self.all_tokens as int
    }

    /// The count of a worker that has read nothing, in a run of `epoch`
    /// epochs over a corpus of `ntokens` words.
    pub fn new(epoch: u32, ntokens: u64, lr_update: u32) -> (progress: Progress)
        ensures
            progress.pending() == 0,
            progress.lr_update() == lr_update,
            progress.all_tokens() == epoch * ntokens,
    {
        assert(epoch as u128 * ntokens as u128 <= u128::MAX) by (nonlinear_arith)
            requires
                epoch <= u32::MAX,
                ntokens <= u64::MAX,
        ;
        Progress { pending: 0, lr_update, all_tokens: epoch as u128 * ntokens as u128 }
    }

    /// The number of words of the whole run.
    pub fn run_tokens(&self) -> (n: u128)
        ensures
            n == self.all_tokens(),
    {
        self.all_tokens
    }

    /// Notes that the worker has read `more` words. Once the count has passed
    /// the threshold the words collected are handed over: they are returned
    /// for the shared counter, and the count starts again at 0.
    pub fn add_tokens(&mut self, more: usize) -> (handed: Option<usize>)
        ensures
            final(self).lr_update() == old(self).lr_update(),
            final(self).all_tokens() == old(self).all_tokens(),
            collected(old(self).pending(), more as int) > old(self).lr_update() ==> handed == Some(
                collected(old(self).pending(), more as int) as usize,
            ) && final(self).pending() == 0,
            collected(old(self).pending(), more as int) <= old(self).lr_update() ==> handed
                == None::<usize> && final(self).pending() == collected(
                old(self).pending(),
                more as int,
            ),
    {
        let sum: usize = if more > usize::MAX - self.pending {
            usize::MAX
        } else {
            self.pending + more
        };
        if sum as u128 > self.lr_update as u128 {
            self.pending = 0;
            Some(sum)
        } else {
            self.pending = sum;
            None
        }
    }

    /// Hands over what is left when the worker has read its shard for the
    /// last time.
    pub fn flush(&mut self) -> (handed: usize)
        ensures
            handed == old(self).pending(),
            final(self).pending() == 0,
            final(self).lr_update() == old(self).lr_update(),
            final(self).all_tokens() == old(self).all_tokens(),
    {
        let handed = self.pending;
        self.pending = 0;
        handed
    }

    /// True once the shared counter, standing at `words`, has reached the
    /// number of words of the whole run.
    pub fn is_complete(&self, words: usize) -> (complete: bool)
        ensures
            complete == (words >= self.all_tokens()),
    {
        words as u128 >= self.all_tokens
    }
}

} // verus!
