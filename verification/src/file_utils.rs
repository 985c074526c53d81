//! How a corpus is told apart by its name, and what a worker is handed to
//! open its shard.

use vstd::prelude::*;
use vstd::string::*;
use crate::utils::W2vError;

verus! {

/// What a worker opens: one row group of a columnar corpus, or a range of
/// bytes of a line-oriented one.
#[derive(Clone, Copy, Debug, PartialEq, Eq, Structural)]
pub enum LoadOptions {
    /// The index of a row group.
    Parquet(usize),
    /// The first byte, and the byte after the last one.
    TextFile(u64, u64),
}

/// `needle` stands in `hay` at offset `k`.
pub open spec fn occurs_at(hay: Seq<u8>, needle: Seq<u8>, k: int) -> bool {
    0 <= k && k + needle.len() <= hay.len() && hay.subrange(k, k + needle.len()) == needle
}

/// `needle` stands somewhere in `hay`.
pub open spec fn contains_bytes(hay: Seq<u8>, needle: Seq<u8>) -> bool {
    exists|k: int| occurs_at(hay, needle, k)
}

/// The name is that of a columnar corpus: it holds the word `parquet`.
pub open spec fn names_parquet(filename: &str) -> bool {
    contains_bytes(filename.spec_bytes(), "parquet".spec_bytes())
}

fn matches_at(hay: &[u8], needle: &[u8], k: usize) -> (found: bool)
    requires
        k + needle@.len() <= hay@.len(),
    ensures
        found == occurs_at(hay@, needle@, k as int),
{
    let hay_len: usize = hay.len();
    let mut j: usize = 0;
    while j < needle.len()
        invariant
            hay_len == hay@.len(),
            k + needle@.len() <= hay@.len(),
            j <= needle@.len(),
            forall|t: int| 0 <= t < j ==> hay@[k + t] == needle@[t],
        decreases needle@.len() - j,
    {
        if hay[k + j] != needle[j] {
            assert(hay@.subrange(k as int, k + needle@.len())[j as int] != needle@[j as int]);
            return false;
        }
        j = j + 1;
    }
    assert(hay@.subrange(k as int, k + needle@.len()) =~= needle@);
    true
}

/// Searches `hay` for `needle`.
pub fn has_bytes(hay: &[u8], needle: &[u8]) -> (found: bool)
    ensures
        found == contains_bytes(hay@, needle@),
{
    if needle.len() > hay.len() {
        return false;
    }
    let last: usize = hay.len() - needle.len();
    let mut k: usize = 0;
    loop
        invariant
            last == hay@.len() - needle@.len(),
            k <= last,
            forall|t: int| 0 <= t < k ==> !occurs_at(hay@, needle@, t),
        decreases last - k,
    {
        if matches_at(hay, needle, k) {
            return true;
        }
        if k == last {
            return false;
        }
        k = k + 1;
    }
}

/// Tells a columnar corpus from a line-oriented one by its name.
pub fn is_parquet_name(filename: &str) -> (columnar: bool)
    ensures
        columnar == names_parquet(filename),
{
    has_bytes(filename.as_bytes(), "parquet".as_bytes())
}

/// What the worker of the shard `start..end` opens, in the order in which it
/// reads: one range of bytes, or each row group of the shard in turn.
pub open spec fn shard_options(columnar: bool, start: int, end: int) -> Seq<LoadOptions> {
    if !columnar {
        seq![LoadOptions::TextFile(start as u64, end as u64)]
    } else if start <= end {
        Seq::new((end - start) as nat, |g: int| LoadOptions::Parquet((start + g) as usize))
    } else {
        Seq::empty()
    }
}

/// Lists what the worker of the shard `start..end` opens. It is `RuntimeError`
/// for a row group whose index does not fit the machine's word.
pub fn shard_load_options(columnar: bool, start: u64, end: u64) -> (result: Result<
    Vec<LoadOptions>,
    W2vError,
>)
    ensures
        match result {
            Ok(options) => options@ == shard_options(columnar, start as int, end as int) && !(
            columnar && start < end && end - 1 > usize::MAX),
            Err(e) => e is RuntimeError && columnar && start < end && end - 1 > usize::MAX,
        },
{
    let mut options: Vec<LoadOptions> = Vec::new();
    if !columnar {
        options.push(LoadOptions::TextFile(start, end));
        assert(options@ =~= shard_options(columnar, start as int, end as int));
        return Ok(options);
    }
    if start >= end {
        assert(options@ =~= shard_options(columnar, start as int, end as int));
        return Ok(options);
    }
    if end - 1 > usize::MAX as u64 {
        return Err(W2vError::RuntimeError);
    }
    let mut g: u64 = start;
    while g < end
        invariant
            start <= g <= end,
            end - 1 <= usize::MAX,
            options@.len() == g - start,
            forall|k: int| 0 <= k < g - start ==> options[k] == LoadOptions::Parquet((start + k) as usize),
        decreases end - g,
    {
        options.push(LoadOptions::Parquet(g as usize));
        g = g + 1;
    }
    assert(options@ =~= shard_options(columnar, start as int, end as int));
    Ok(options)
}

} // verus!
