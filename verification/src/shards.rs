//! Cutting a corpus into shards, one for each worker.
//!
//! A plan for `n` shards is a list of `n + 1` boundaries. Shard `i` runs from
//! boundary `i` up to, and not including, boundary `i + 1`. For a corpus of
//! lines the boundaries are byte offsets and a record ends with a line feed;
//! for a columnar corpus they are indices of row groups.
//!
//! Every corpus that has a record for each shard has a plan. A corpus of
//! lines is planned by probing: the planner names an offset, and is told how
//! many bytes lie between it and the end of the record that holds it. A
//! corpus in memory answers the probes itself; for one in a file the caller
//! seeks and reads.

use vstd::prelude::*;
use crate::file_utils::{is_parquet_name, names_parquet};
use crate::utils::W2vError;

verus! {

/// The byte that ends a record of a line-oriented corpus.
pub const LINE_FEED: u8 = 10;

/// The offset just after the first line feed at or after `pos`, or the length
/// of the corpus where no line feed follows.
pub open spec fn record_edge_after(corpus: Seq<u8>, pos: int) -> int
    decreases corpus.len() - pos,
{
    if pos < 0 || pos >= corpus.len() {
        corpus.len() as int
    } else if corpus[pos] == LINE_FEED {
        pos + 1
    } else {
        record_edge_after(corpus, pos + 1)
    }
}

/// An offset at which no record is cut in two: the start, the end, or the
/// offset just after a line feed.
pub open spec fn is_record_edge(corpus: Seq<u8>, pos: int) -> bool {
    pos == 0 || pos == corpus.len() || (0 < pos < corpus.len() && corpus[pos - 1] == LINE_FEED)
}

/// `plan` cuts `0..extent` into `n_split` shards, none of them empty.
pub open spec fn is_shard_plan(plan: Seq<u64>, extent: int, n_split: int) -> bool {
    &&& n_split >= 1
    &&& plan.len() == n_split + 1
    &&& plan[0] == 0
    &&& plan[n_split] == extent
    &&& forall|i: int, j: int| 0 <= i < j <= n_split ==> plan[i] < plan[j]
}

/// The number of records from `pos` to the end of the corpus, where `pos` is
/// a record edge. A last line without a line feed counts as a record.
pub open spec fn records_from(corpus: Seq<u8>, pos: int) -> int
    decreases corpus.len() - pos,
{
    if pos < 0 || pos >= corpus.len() {
        0
    } else {
        proof {
            lemma_record_edge_after(corpus, pos);
        }
        1 + records_from(corpus, record_edge_after(corpus, pos))
    }
}

/// The number of records of the corpus.
pub open spec fn record_count(corpus: Seq<u8>) -> int {
    records_from(corpus, 0)
}

/// The record edge with `k` records before it.
pub open spec fn edge(corpus: Seq<u8>, k: int) -> int
    decreases k,
{
    if k <= 0 {
        0
    } else {
        record_edge_after(corpus, edge(corpus, k - 1))
    }
}

/// The record edge with `left` records after it.
pub open spec fn tail_edge(corpus: Seq<u8>, left: int) -> int {
    edge(corpus, record_count(corpus) - left)
}

/// Where the `i`-th probe of a corpus of `extent` bytes starts.
pub open spec fn probe_start(extent: int, n_split: int, i: int) -> int {
    (extent / n_split) * i
}

/// Boundary `i` of a line-oriented corpus cut into `n_split` shards.
///
/// The corpus is probed at byte `(len / n_split) * i`, or at the boundary
/// before where that lies further on, and the boundary is the first record
/// edge after the probe. It is held back to the edge that leaves a record for
/// each of the shards that follow.
pub open spec fn text_boundary(corpus: Seq<u8>, n_split: int, i: int) -> int
    decreases i,
{
    if i <= 0 {
        0
    } else if i >= n_split {
        corpus.len() as int
    } else {
        let before = text_boundary(corpus, n_split, i - 1);
        let probe = probe_start(corpus.len() as int, n_split, i);
        let reached = record_edge_after(
            corpus,
            if probe > before {
                probe
            } else {
                before
            },
        );
        let last = tail_edge(corpus, n_split - i);
        if reached < last {
            reached
        } else {
            last
        }
    }
}

/// Boundary `i` of a columnar corpus of `n_records` row groups.
pub open spec fn row_boundary(n_records: int, n_split: int, i: int) -> int {
    if i <= 0 {
        0
    } else if i >= n_split {
        n_records
    } else {
        (n_records / n_split) * i
    }
}

/// Where `record_edge_after` lands: at or after `pos`, inside the corpus, and on a
/// record edge.
pub proof fn lemma_record_edge_after(corpus: Seq<u8>, pos: int)
    requires
        0 <= pos <= corpus.len(),
    ensures
        pos <= record_edge_after(corpus, pos) <= corpus.len(),
        pos < corpus.len() ==> pos < record_edge_after(corpus, pos),
        is_record_edge(corpus, record_edge_after(corpus, pos)),
        forall|k: int| pos <= k < record_edge_after(corpus, pos) - 1 ==> corpus[k] != LINE_FEED,
    decreases corpus.len() - pos,
{
    if pos < corpus.len() && corpus[pos] != LINE_FEED {
        lemma_record_edge_after(corpus, pos + 1);
    }
}

/// The number of bytes from `pos` to the end of the record that holds it, its
/// line feed included.
pub fn bytes_to_record_edge(corpus: &[u8], pos: usize) -> (extra: usize)
    requires
        pos <= corpus@.len(),
    ensures
        pos + extra == record_edge_after(corpus@, pos as int),
{
    let mut at: usize = pos;
    while at < corpus.len() && corpus[at] != LINE_FEED
        invariant
            pos <= at <= corpus@.len(),
            record_edge_after(corpus@, pos as int) == record_edge_after(corpus@, at as int),
        decreases corpus@.len() - at,
    {
        at = at + 1;
    }
    if at < corpus.len() {
        at + 1 - pos
    } else {
        at - pos
    }
}

/// A probe starts inside the corpus.
pub proof fn lemma_probe_start_bounds(extent: int, n_split: int, i: int)
    requires
        0 <= extent,
        0 <= i <= n_split,
        n_split >= 1,
    ensures
        0 <= probe_start(extent, n_split, i) <= extent,
{
    let stride = extent / n_split;
    assert(stride * n_split <= extent) by (nonlinear_arith)
        requires
            stride == extent / n_split,
            n_split >= 1,
            extent >= 0,
    ;
    assert(0 <= stride * i <= stride * n_split) by (nonlinear_arith)
        requires
            0 <= i <= n_split,
            0 <= stride,
    ;
}

/// In a plan, boundary `i` is at least `i`.
pub proof fn lemma_boundary_at_least_index(plan: Seq<u64>, extent: int, n_split: int, i: int)
    requires
        is_shard_plan(plan, extent, n_split),
        0 <= i <= n_split,
    ensures
        plan[i] >= i,
    decreases i,
{
    if i > 0 {
        lemma_boundary_at_least_index(plan, extent, n_split, i - 1);
        assert(plan[i - 1] < plan[i]);
    }
}

/// A corpus cannot be cut into more shards than it has units.
pub proof fn lemma_plan_needs_room(plan: Seq<u64>, extent: int, n_split: int)
    requires
        is_shard_plan(plan, extent, n_split),
    ensures
        n_split <= extent,
{
    lemma_boundary_at_least_index(plan, extent, n_split, n_split);
}

/// Shard `i` of `plan` holds `unit`.
pub open spec fn shard_holds(plan: Seq<u64>, i: int, unit: int) -> bool {
    0 <= i < plan.len() - 1 && plan[i] <= unit < plan[i + 1]
}

/// Every unit of the corpus belongs to exactly one shard of a plan.
pub proof fn lemma_plan_covers_once(plan: Seq<u64>, extent: int, n_split: int, unit: int)
    requires
        is_shard_plan(plan, extent, n_split),
        0 <= unit < extent,
    ensures
        exists|i: int| shard_holds(plan, i, unit),
        forall|i: int, j: int| shard_holds(plan, i, unit) && shard_holds(plan, j, unit) ==> i == j,
{
    lemma_some_shard_holds(plan, unit, n_split);
    assert forall|i: int, j: int|
        shard_holds(plan, i, unit) && shard_holds(plan, j, unit) implies i == j by {
        if i < j {
            assert(i + 1 < j ==> plan[i + 1] < plan[j]);
        } else if j < i {
            assert(j + 1 < i ==> plan[j + 1] < plan[i]);
        }
    }
}

proof fn lemma_some_shard_holds(plan: Seq<u64>, unit: int, upto: int)
    requires
        1 <= upto < plan.len(),
        plan[0] <= unit < plan[upto],
    ensures
        exists|i: int| shard_holds(plan, i, unit),
    decreases upto,
{
    if plan[upto - 1] <= unit {
        assert(shard_holds(plan, upto - 1, unit));
    } else {
        lemma_some_shard_holds(plan, unit, upto - 1);
    }
}

/// Byte offset at which the `i`-th probe of a line-oriented corpus starts. A
/// caller that reads the corpus from a file seeks there, reads to the end of
/// the line and reports the number of bytes read.
pub fn probe_offset(extent: u64, n_split: u64, i: u64) -> (offset: u64)
    requires
        n_split >= 1,
        i <= n_split,
    ensures
        offset == probe_start(extent as int, n_split as int, i as int),
        offset <= extent,
{
    proof {
        lemma_probe_start_bounds(extent as int, n_split as int, i as int);
    }
    (extent / n_split) * i
}

/// Where the record edges lie: edge `k` of a corpus of at least `k` records
/// is a record edge inside the corpus, it has the records from `k` on after
/// it, and it lies beyond the edge before it.
pub proof fn lemma_edges(corpus: Seq<u8>, k: int)
    requires
        0 <= k <= record_count(corpus),
    ensures
        0 <= edge(corpus, k) <= corpus.len(),
        records_from(corpus, edge(corpus, k)) == record_count(corpus) - k,
        is_record_edge(corpus, edge(corpus, k)),
        k < record_count(corpus) ==> edge(corpus, k) < corpus.len(),
        k == record_count(corpus) ==> edge(corpus, k) == corpus.len(),
        k >= 1 ==> edge(corpus, k - 1) < edge(corpus, k),
    decreases k,
{
    if k > 0 {
        lemma_edges(corpus, k - 1);
        lemma_record_edge_after(corpus, edge(corpus, k - 1));
    }
    lemma_records_from_end(corpus, edge(corpus, k));
}

/// No record is left from a position on exactly where that is the end of the
/// corpus.
proof fn lemma_records_from_end(corpus: Seq<u8>, pos: int)
    requires
        0 <= pos <= corpus.len(),
    ensures
        0 <= records_from(corpus, pos),
        records_from(corpus, pos) == 0 <==> pos == corpus.len(),
    decreases corpus.len() - pos,
{
    if pos < corpus.len() {
        lemma_record_edge_after(corpus, pos);
        lemma_records_from_end(corpus, record_edge_after(corpus, pos));
    }
}

/// A corpus with a record for each shard has a plan: each boundary is a
/// record edge, lies beyond the one before it, and leaves a record for each
/// of the shards that follow.
pub proof fn lemma_text_boundary(corpus: Seq<u8>, n_split: int, i: int)
    requires
        1 <= n_split <= record_count(corpus),
        0 <= i <= n_split,
    ensures
        0 <= text_boundary(corpus, n_split, i) <= tail_edge(corpus, n_split - i),
        tail_edge(corpus, n_split - i) <= corpus.len(),
        is_record_edge(corpus, text_boundary(corpus, n_split, i)),
        i >= 1 ==> text_boundary(corpus, n_split, i - 1) < text_boundary(corpus, n_split, i),
    decreases i,
{
    let count = record_count(corpus);
    let len = corpus.len() as int;
    lemma_edges(corpus, count - n_split + i);
    if i >= 1 {
        lemma_text_boundary(corpus, n_split, i - 1);
        let before = text_boundary(corpus, n_split, i - 1);
        if i < n_split {
            let probe = probe_start(len, n_split, i);
            lemma_probe_start_bounds(len, n_split, i);
            let from = if probe > before {
                probe
            } else {
                before
            };
            lemma_record_edge_after(corpus, from);
        }
    }
}

/// The boundaries of a plan rise from each to every later one.
pub proof fn lemma_text_boundaries_rise(corpus: Seq<u8>, n_split: int, i: int, j: int)
    requires
        1 <= n_split <= record_count(corpus),
        0 <= i < j <= n_split,
    ensures
        text_boundary(corpus, n_split, i) < text_boundary(corpus, n_split, j),
    decreases j,
{
    lemma_text_boundary(corpus, n_split, j);
    if i < j - 1 {
        lemma_text_boundaries_rise(corpus, n_split, i, j - 1);
    }
}

/// What is reported of the end of a corpus to plan `n_split` shards: the
/// starts of its last `n_split - 1` records, in rising order. Of a corpus
/// with fewer records than shards, the starts of all records but the first.
pub open spec fn tail_report(corpus: Seq<u8>, n_split: int) -> Seq<int> {
    let count = record_count(corpus);
    let wanted = if count < n_split {
        count - 1
    } else {
        n_split - 1
    };
    let held = if wanted < 0 {
        0
    } else {
        wanted
    };
    Seq::new(held as nat, |j: int| edge(corpus, count - held + j))
}

/// `tail` is what is reported of the end of `corpus`.
pub open spec fn reports(tail: Seq<u64>, corpus: Seq<u8>, n_split: int) -> bool {
    &&& tail.len() == tail_report(corpus, n_split).len()
    &&& forall|j: int| 0 <= j < tail.len() ==> tail[j] == tail_report(corpus, n_split)[j]
}

/// The boundary that follows from a probe at `offset` that was answered with
/// `extra` bytes: the end of the record read, held back to `bound`.
pub open spec fn next_boundary(offset: int, extra: int, bound: int) -> int {
    if offset + extra < bound {
        offset + extra
    } else {
        bound
    }
}

/// A true report shows whether the corpus has a record for each shard.
pub proof fn lemma_report_decides(corpus: Seq<u8>, n_split: int, tail: Seq<u64>)
    requires
        reports(tail, corpus, n_split),
    ensures
        (1 <= n_split <= record_count(corpus)) <==> (n_split >= 1 && corpus.len() >= 1
            && tail.len() == n_split - 1),
{
    lemma_records_from_end(corpus, 0);
}

/// A probe that is answered truly gives the boundary of the plan.
pub proof fn lemma_next_boundary(
    corpus: Seq<u8>,
    n_split: int,
    tail: Seq<u64>,
    i: int,
    offset: int,
    extra: int,
)
    requires
        1 <= n_split <= record_count(corpus),
        reports(tail, corpus, n_split),
        1 <= i < n_split,
        offset == if probe_start(corpus.len() as int, n_split, i) > text_boundary(
            corpus,
            n_split,
            i - 1,
        ) {
            probe_start(corpus.len() as int, n_split, i)
        } else {
            text_boundary(corpus, n_split, i - 1)
        },
        offset + extra == record_edge_after(corpus, offset),
    ensures
        next_boundary(offset, extra, tail[i - 1] as int) == text_boundary(corpus, n_split, i),
{
    assert(tail[i - 1] == tail_report(corpus, n_split)[i - 1]);
}

/// The plan of a line-oriented corpus in the making: the boundaries found so
/// far, and what was reported of the end of the corpus.
///
/// The planner never reads the corpus. It names the offset of the next probe;
/// the caller reads from there to the end of the record and answers with the
/// number of bytes read.
pub struct ShardPlanner {
    extent: u64,
    n_split: u64,
    tail: Vec<u64>,
    plan: Vec<u64>,
}

impl ShardPlanner {
    /// The length of the corpus in bytes.
    pub closed spec fn extent(&self) -> int {
        self.extent as int
    }

    /// The number of shards.
    pub closed spec fn n_split(&self) -> int {
        self.n_split as int
    }

    /// What was reported of the end of the corpus.
    pub closed spec fn reported(&self) -> Seq<u64> {
        self.tail@
    }

    /// The boundaries found so far.
    pub closed spec fn planned(&self) -> Seq<u64> {
        self.plan@
    }

    /// The first boundary is found, and no more boundaries than shards.
    pub closed spec fn wf(&self) -> bool {
        &&& self.n_split >= 1
        &&& self.tail@.len() == self.n_split - 1
        &&& 1 <= self.plan@.len() <= self.n_split
        &&& self.plan@[0] == 0
    }

    /// A boundary is still to be found.
    pub open spec fn pending(&self) -> bool {
        self.planned().len() < self.n_split()
    }

    /// Where the next probe starts: at its multiple of the stride, or at the
    /// boundary found last where that lies further on.
    pub open spec fn probe(&self) -> int {
        let at = probe_start(self.extent(), self.n_split(), self.planned().len() as int);
        if at > self.planned().last() {
            at
        } else {
            self.planned().last() as int
        }
    }

    /// The boundaries found so far are those of the plan of `corpus`.
    pub open spec fn agrees(&self, corpus: Seq<u8>) -> bool {
        &&& corpus.len() == self.extent()
        &&& 1 <= self.n_split() <= record_count(corpus)
        &&& reports(self.reported(), corpus, self.n_split())
        &&& forall|k: int|
            0 <= k < self.planned().len() ==> self.planned()[k] == text_boundary(
                corpus,
                self.n_split(),
                k,
            )
    }

    /// Starts a plan of `n_split` shards for a corpus of `extent` bytes of
    /// whose end `tail` is reported. It is `RuntimeError` where no shard is
    /// asked for, where the corpus is empty, and where the report holds
    /// another number of record starts than `n_split - 1`: a true report does
    /// so where the corpus has fewer records than shards.
    pub fn new(extent: u64, n_split: u64, tail: Vec<u64>) -> (result: Result<
        ShardPlanner,
        W2vError,
    >)
        ensures
            match result {
                Ok(planner) => {
                    &&& planner.wf()
                    &&& planner.extent() == extent
                    &&& planner.n_split() == n_split
                    &&& planner.reported() == tail@
                    &&& planner.planned() == seq![0u64]
                    &&& n_split >= 1 && extent >= 1 && tail@.len() == n_split - 1
                },
                Err(e) => e is RuntimeError && !(n_split >= 1 && extent >= 1 && tail@.len()
                    == n_split - 1),
            },
    {
        if n_split == 0 || extent == 0 {
            return Err(W2vError::RuntimeError);
        }
        if tail.len() as u64 != n_split - 1 {
            return Err(W2vError::RuntimeError);
        }
        let mut plan: Vec<u64> = Vec::new();
        plan.push(0);
        assert(plan@ =~= seq![0u64]);
        Ok(ShardPlanner { extent, n_split, tail, plan })
    }

    /// True while a boundary is still to be found.
    pub fn is_pending(&self) -> (pending: bool)
        requires
            self.wf(),
        ensures
            pending == self.pending(),
    {
        (self.plan.len() as u64) < self.n_split
    }

    /// The offset at which the caller is to probe next.
    pub fn next_offset(&self) -> (offset: u64)
        requires
            self.wf(),
            self.pending(),
        ensures
            offset == self.probe(),
    {
        let i: usize = self.plan.len();
        let at = probe_offset(self.extent, self.n_split, i as u64);
        let last: u64 = self.plan[i - 1];
        if at > last {
            at
        } else {
            last
        }
    }

    /// Takes the answer to the probe at `next_offset`: `extra` bytes were
    /// read from there to the end of the record. The boundary that follows is
    /// added to those found so far.
    pub fn answer(&mut self, extra: u64)
        requires
            old(self).wf(),
            old(self).pending(),
        ensures
            final(self).wf(),
            final(self).extent() == old(self).extent(),
            final(self).n_split() == old(self).n_split(),
            final(self).reported() == old(self).reported(),
            final(self).planned() == old(self).planned().push(
                next_boundary(
                    old(self).probe(),
                    extra as int,
                    old(self).reported()[old(self).planned().len() - 1] as int,
                ) as u64,
            ),
    {
        let offset = self.next_offset();
        let bound: u64 = self.tail[self.plan.len() - 1];
        let boundary: u64 = if offset >= bound || extra >= bound - offset {
            bound
        } else {
            offset + extra
        };
        self.plan.push(boundary);
    }

    /// Ends the plan with the last boundary, the end of the corpus.
    pub fn finish(self) -> (plan: Vec<u64>)
        requires
            self.wf(),
            !self.pending(),
        ensures
            plan@ == self.planned().push(self.extent() as u64),
    {
        let mut plan = self.plan;
        plan.push(self.extent);
        plan
    }

    /// A probe that is answered truly leaves the planner in agreement with the
    /// corpus.
    pub proof fn lemma_answer_agrees(&self, after: &ShardPlanner, corpus: Seq<u8>, extra: int)
        requires
            self.wf(),
            self.pending(),
            self.agrees(corpus),
            self.probe() + extra == record_edge_after(corpus, self.probe()),
            after.extent() == self.extent(),
            after.n_split() == self.n_split(),
            after.reported() == self.reported(),
            after.planned() == self.planned().push(
                next_boundary(
                    self.probe(),
                    extra,
                    self.reported()[self.planned().len() - 1] as int,
                ) as u64,
            ),
        ensures
            after.agrees(corpus),
    {
        let i = self.planned().len() as int;
        lemma_next_boundary(corpus, self.n_split(), self.reported(), i, self.probe(), extra);
        lemma_text_boundary(corpus, self.n_split(), i);
        assert forall|k: int| 0 <= k < after.planned().len() implies after.planned()[k]
            == text_boundary(corpus, after.n_split(), k) by {
            if k < i {
                assert(after.planned()[k] == self.planned()[k]);
            }
        }
    }
}

impl ShardPlanner {
    /// A planner that agrees with the corpus ends with its plan: the
    /// boundaries that `text_boundary` names, each on a record edge and
    /// beyond the one before it.
    pub proof fn lemma_finished_plan(&self, corpus: Seq<u8>, plan: Seq<u64>)
        requires
            self.wf(),
            !self.pending(),
            self.agrees(corpus),
            plan == self.planned().push(self.extent() as u64),
        ensures
            is_shard_plan(plan, corpus.len() as int, self.n_split()),
            forall|i: int|
                0 <= i <= self.n_split() ==> plan[i] == text_boundary(corpus, self.n_split(), i),
            forall|i: int| 0 <= i <= self.n_split() ==> is_record_edge(corpus, plan[i] as int),
    {
        let n = self.n_split();
        lemma_text_boundary(corpus, n, n);
        assert forall|i: int| 0 <= i <= n implies plan[i] == text_boundary(corpus, n, i)
            && is_record_edge(corpus, plan[i] as int) by {
            lemma_text_boundary(corpus, n, i);
            if i < n {
                assert(plan[i] == self.planned()[i]);
            }
        }
        assert forall|i: int, j: int| 0 <= i < j <= n implies plan[i] < plan[j] by {
            lemma_text_boundaries_rise(corpus, n, i, j);
        }
    }
}

/// Lists the record edges of a corpus, from the start to the end.
pub fn record_edges(corpus: &[u8]) -> (edges: Vec<u64>)
    ensures
        edges@.len() == record_count(corpus@) + 1,
        forall|k: int| 0 <= k < edges@.len() ==> edges@[k] == edge(corpus@, k),
{
    let len: usize = corpus.len();
    let mut edges: Vec<u64> = Vec::new();
    edges.push(0);
    let mut pos: usize = 0;
    proof {
        lemma_records_from_end(corpus@, 0);
    }
    while pos < len
        invariant
            len == corpus@.len(),
            pos <= len,
            edges@.len() >= 1,
            pos == edge(corpus@, edges@.len() - 1),
            records_from(corpus@, pos as int) + edges@.len() - 1 == record_count(corpus@),
            forall|k: int| 0 <= k < edges@.len() ==> edges@[k] == edge(corpus@, k),
        decreases len - pos,
    {
        proof {
            lemma_record_edge_after(corpus@, pos as int);
        }
        pos = pos + bytes_to_record_edge(corpus, pos);
        edges.push(pos as u64);
    }
    proof {
        lemma_records_from_end(corpus@, pos as int);
    }
    edges
}

/// Plans the shards of a line-oriented corpus held in memory.
///
/// A corpus with a record for each shard is cut at the boundaries that
/// `text_boundary` names: each lies on a record edge and beyond the one
/// before it, so that no shard is empty. The result is `RuntimeError` where
/// no shard is asked for, or more shards than the corpus has records.
pub fn text_file_split_indices(corpus: &[u8], n_split: u64) -> (result: Result<Vec<u64>, W2vError>)
    ensures
        match result {
            Ok(plan) => {
                &&& 1 <= n_split <= record_count(corpus@)
                &&& is_shard_plan(plan@, corpus@.len() as int, n_split as int)
                &&& forall|i: int|
                    0 <= i <= n_split ==> plan[i] == text_boundary(corpus@, n_split as int, i)
                &&& forall|i: int| 0 <= i <= n_split ==> is_record_edge(corpus@, plan[i] as int)
            },
            Err(e) => e is RuntimeError && !(1 <= n_split <= record_count(corpus@)),
        },
{
    let ghost n = n_split as int;
    let ghost count = record_count(corpus@);
    let edges = record_edges(corpus);
    proof {
        lemma_records_from_end(corpus@, 0);
    }
    let records: usize = edges.len() - 1;
    if n_split == 0 || n_split > records as u64 {
        return Err(W2vError::RuntimeError);
    }
    let mut tail: Vec<u64> = Vec::new();
    let first: usize = records - (n_split as usize - 1);
    let mut k: usize = first;
    while k < records
        invariant
            1 <= n_split <= records,
            records == count,
            edges@.len() == records + 1,
            first == records - (n_split - 1),
            first <= k <= records,
            tail@.len() == k - first,
            forall|j: int| 0 <= j < tail@.len() ==> tail@[j] == edges@[first + j],
        decreases records - k,
    {
        tail.push(edges[k]);
        k = k + 1;
    }
    proof {
        assert(tail_report(corpus@, n).len() == n - 1);
        assert forall|j: int| 0 <= j < tail@.len() implies tail@[j] == tail_report(corpus@, n)[j] by {
            assert(tail@[j] == edges@[first + j]);
        }
        assert(reports(tail@, corpus@, n));
        lemma_report_decides(corpus@, n, tail@);
    }
    let len: usize = corpus.len();
    let extent: u64 = len as u64;
    let mut planner = match ShardPlanner::new(extent, n_split, tail) {
        Ok(planner) => planner,
        Err(e) => {
            return Err(e);
        },
    };
    while planner.is_pending()
        invariant
            n == n_split as int,
            len == corpus@.len(),
            extent == len,
            planner.wf(),
            planner.n_split() == n,
            planner.agrees(corpus@),
        decreases n - planner.planned().len(),
    {
        let offset = planner.next_offset();
        proof {
            let i = planner.planned().len() as int;
            lemma_probe_start_bounds(extent as int, n, i);
            lemma_text_boundary(corpus@, n, i - 1);
            assert(planner.planned().last() == text_boundary(corpus@, n, i - 1));
            assert(offset <= len);
        }
        let extra = bytes_to_record_edge(corpus, offset as usize);
        let ghost before = planner;
        planner.answer(extra as u64);
        proof {
            before.lemma_answer_agrees(&planner, corpus@, extra as int);
        }
    }
    let plan = planner.finish();
    proof {
        planner.lemma_finished_plan(corpus@, plan@);
    }
    Ok(plan)
}

/// Plans the shards of a columnar corpus of `n_records` row groups.
///
/// Boundary `i` is `(n_records / n_split) * i`, and the last one is
/// `n_records`. The result is `RuntimeError` where no shard is asked for or
/// the corpus has fewer row groups than shards.
pub fn parquet_file_split_indices(n_records: u64, n_split: u64) -> (result: Result<
    Vec<u64>,
    W2vError,
>)
    ensures
        match result {
            Ok(plan) => {
                &&& 1 <= n_split <= n_records
                &&& is_shard_plan(plan@, n_records as int, n_split as int)
                &&& forall|i: int|
                    0 <= i <= n_split ==> plan[i] == row_boundary(
                        n_records as int,
                        n_split as int,
                        i,
                    )
            },
            Err(e) => e is RuntimeError && !(1 <= n_split <= n_records),
        },
{
    if n_split == 0 || n_split > n_records {
        return Err(W2vError::RuntimeError);
    }
    let stride: u64 = n_records / n_split;
    let ghost e = n_records as int;
    let ghost n = n_split as int;
    assert(stride >= 1 && stride * n_split <= n_records) by (nonlinear_arith)
        requires
            stride == n_records / n_split,
            1 <= n_split <= n_records,
    ;
    let mut plan: Vec<u64> = Vec::new();
    let mut i: u64 = 0;
    while i < n_split
        invariant
            1 <= n_split <= n_records,
            stride == n_records / n_split,
            stride >= 1,
            stride * n_split <= n_records,
            e == n_records as int,
            n == n_split as int,
            0 <= i <= n_split,
            plan@.len() == i,
            forall|k: int| 0 <= k < i ==> plan[k] == stride * k,
        decreases n_split - i,
    {
        assert(stride * i <= stride * n_split) by (nonlinear_arith)
            requires
                i <= n_split,
                stride >= 0,
        ;
        plan.push(stride * i);
        i = i + 1;
    }
    plan.push(n_records);
    proof {
        assert forall|a: int, b: int| 0 <= a < b <= n implies plan[a] < plan[b] by {
            assert(stride * a < stride * b) by (nonlinear_arith)
                requires
                    0 <= a < b,
                    stride >= 1,
            ;
            if b == n {
                assert(stride * (a + 1) <= stride * n) by (nonlinear_arith)
                    requires
                        a + 1 <= n,
                        stride >= 0,
                ;
                assert(stride * (a + 1) == stride * a + stride) by (nonlinear_arith);
            }
        }
    }
    Ok(plan)
}

/// Plans the shards of a corpus, by the kind that its name gives it: a name
/// that holds `parquet` is planned over `n_records` row groups, any other over
/// the bytes of `corpus`. Either way the plan is refused only where no shard
/// is asked for, or more shards than the corpus has records.
pub fn file_split_indices(filename: &str, corpus: &[u8], n_records: u64, n_split: u64) -> (result:
    Result<Vec<u64>, W2vError>)
    ensures
        names_parquet(filename) ==> match result {
            Ok(plan) => {
                &&& 1 <= n_split <= n_records
                &&& is_shard_plan(plan@, n_records as int, n_split as int)
                &&& forall|i: int|
                    0 <= i <= n_split ==> plan[i] == row_boundary(
                        n_records as int,
                        n_split as int,
                        i,
                    )
            },
            Err(e) => e is RuntimeError && !(1 <= n_split <= n_records),
        },
        !names_parquet(filename) ==> match result {
            Ok(plan) => {
                &&& 1 <= n_split <= record_count(corpus@)
                &&& is_shard_plan(plan@, corpus@.len() as int, n_split as int)
                &&& forall|i: int|
                    0 <= i <= n_split ==> plan[i] == text_boundary(corpus@, n_split as int, i)
                &&& forall|i: int| 0 <= i <= n_split ==> is_record_edge(corpus@, plan[i] as int)
            },
            Err(e) => e is RuntimeError && !(1 <= n_split <= record_count(corpus@)),
        },
{
    if !is_parquet_name(filename) {
        text_file_split_indices(corpus, n_split)
    } else {
        parquet_file_split_indices(n_records, n_split)
    }
}

} // verus!
