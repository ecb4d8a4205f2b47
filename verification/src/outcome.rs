//! Outcome records and the closed error classification.
//!
//! Every processed URL ends in an `ArchivingResult`; every failed resolution
//! step is one of the `ArchiveError` variants, so retry and fallback policy
//! can dispatch on them exhaustively.

use crate::timestamp::Timestamp;
use vstd::prelude::*;

verus! {

/// The recorded outcome of archiving one URL.
///
/// `url` is present exactly when the URL has a usable snapshot (fresh or
/// pre-existing); a record with `url == None` is a tombstone marking a failed
/// attempt.  `last_archived` is the snapshot's creation time, or the time the
/// failure was recorded.  `existing_snapshot` says whether the record was
/// satisfied by a prior snapshot; it is not persisted.
#[derive(Debug)]
pub struct ArchivingResult {
    pub url: Option<String>,
    pub last_archived: Timestamp,
    pub existing_snapshot: bool,
}

impl ArchivingResult {
    /// The embedded timestamp is a valid calendar instant.
    pub open spec fn wf(self) -> bool {
        self.last_archived.wf()
    }

    /// A snapshot usable as a fallback: it points at a stored copy.
    pub open spec fn is_snapshot(self) -> bool {
        self.url is Some
    }

    /// The tombstone recorded for a URL that could not be archived at `now`.
    pub open spec fn spec_tombstone(now: Timestamp) -> ArchivingResult {
        ArchivingResult { url: None, last_archived: now, existing_snapshot: false }
    }

    /// Builds the failure tombstone for the current instant.
    pub fn tombstone(now: &Timestamp) -> (r: ArchivingResult)
        ensures
            r == ArchivingResult::spec_tombstone(*now),
    {
        ArchivingResult { url: None, last_archived: *now, existing_snapshot: false }
    }
}

/// Why a resolution step failed.
#[derive(Debug, PartialEq)]
pub enum ArchiveError {
    /// The service is rate limiting; the attempt may be retried after a wait.
    BandwidthExceeded,
    /// The service declined or failed to archive this URL; a stale snapshot
    /// may substitute, but retrying is pointless.
    UnableToArchive,
    /// The availability query returned no candidate snapshots.
    NoExistingSnapshot,
    /// A response or timestamp did not have the expected shape.
    ParseError(String),
    /// Transport failures and unclassified statuses, with diagnostic detail.
    Unknown(String),
}

} // verus!
