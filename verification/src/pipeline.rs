//! The batch pipeline's bookkeeping.
//!
//! URLs stream through one at a time: a cached, reusable record
//! short-circuits remote work; otherwise the resolver runs and its outcome
//! is recorded.  The pipeline counts processed URLs and signals a checkpoint
//! after every interval, so a crash loses at most one partial interval.

use crate::cache::{is_reusable, Cache, REUSE_WINDOW_DAYS};
use crate::outcome::ArchivingResult;
use crate::timestamp::{spec_within_days, Timestamp};
use vstd::prelude::*;

verus! {

/// Number of processed URLs between two durable checkpoints.
pub const CHECKPOINT_INTERVAL: u64 = 100;

/// Per-run state of the batch pipeline: the cache and a processed counter.
#[derive(Debug)]
pub struct Pipeline {
    pub cache: Cache,
    pub processed: u64,
}

/// The record that a run over `pairs`, started from an empty cache, holds
/// for the key `k`: the result of the last pair with that key.
pub open spec fn spec_run_lookup(
    pairs: Seq<(Seq<char>, ArchivingResult)>,
    k: Seq<char>,
) -> Option<ArchivingResult>
    decreases pairs.len(),
{
    if pairs.len() == 0 {
        None
    } else if pairs.last().0 == k {
        Some(pairs.last().1)
    } else {
        spec_run_lookup(pairs.drop_last(), k)
    }
}

/// One `record` call advances the run model by one pair: the recorded URL
/// now maps to its result, everything else is as before — exactly what
/// `Pipeline::record` ensures of the cache.
pub proof fn lemma_run_step(
    pairs: Seq<(Seq<char>, ArchivingResult)>,
    u: Seq<char>,
    r: ArchivingResult,
    k: Seq<char>,
)
    ensures
        spec_run_lookup(pairs.push((u, r)), k) == if k == u {
            Some(r)
        } else {
            spec_run_lookup(pairs, k)
        },
{
    assert(pairs.push((u, r)).drop_last() =~= pairs);
}

/// Checkpoint durability: when the processed URLs are distinct, the cache
/// state that any checkpoint writes holds every one of them with its
/// recorded result — nothing processed before the checkpoint is lost.
pub proof fn lemma_run_contains(pairs: Seq<(Seq<char>, ArchivingResult)>, i: int)
    requires
        0 <= i < pairs.len(),
        forall|a: int, b: int|
            0 <= a < b < pairs.len() ==> (#[trigger] pairs[a]).0 != (#[trigger] pairs[b]).0,
    ensures
        spec_run_lookup(pairs, pairs[i].0) == Some(pairs[i].1),
    decreases pairs.len(),
{
    if i + 1 < pairs.len() {
        assert(pairs.drop_last()[i] == pairs[i]);
        lemma_run_contains(pairs.drop_last(), i);
    }
}

impl Pipeline {
    /// The cache invariant carries over.
    pub open spec fn wf(self) -> bool {
        self.cache.wf()
    }

    /// Starts a run over a previously loaded (or empty) cache.
    pub fn new(cache: Cache) -> (p: Pipeline)
        requires
            cache.wf(),
        ensures
            p.wf(),
            p.cache == cache,
            p.processed == 0,
    {
        Pipeline { cache, processed: 0 }
    }

    /// Whether the cached record for `url` short-circuits remote work:
    /// it must exist, still point at a snapshot, and be younger than the
    /// reuse window.
    pub fn should_skip(&self, url: &str, now: &Timestamp) -> (r: bool)
        requires
            self.wf(),
            now.wf(),
        ensures
            r == (match self.cache.spec_lookup(url@) {
                Some(a) => a.url is Some && spec_within_days(
                    a.last_archived,
                    *now,
                    REUSE_WINDOW_DAYS as int,
                ),
                None => false,
            }),
    {
        match self.cache.lookup(url) {
            Some(existing) => is_reusable(existing, now),
            None => false,
        }
    }

    /// Records the outcome for one processed URL and reports whether a
    /// checkpoint is due: exactly after every `CHECKPOINT_INTERVAL`-th URL.
    pub fn record(&mut self, url: &str, result: ArchivingResult) -> (checkpoint: bool)
        requires
            old(self).wf(),
            result.wf(),
            old(self).processed < u64::MAX,
        ensures
            final(self).wf(),
            final(self).processed == old(self).processed + 1,
            final(self).cache.spec_lookup(url@) == Some(result),
            forall|k: Seq<char>|
                k != url@ ==> final(self).cache.spec_lookup(k) == old(self).cache.spec_lookup(k),
            final(self).cache.entries@.len() >= old(self).cache.entries@.len(),
            checkpoint == (final(self).processed % CHECKPOINT_INTERVAL == 0),
    {
        self.cache.update(url, result);
        self.processed = self.processed + 1;
        self.processed % CHECKPOINT_INTERVAL == 0
    }
}

} // verus!
