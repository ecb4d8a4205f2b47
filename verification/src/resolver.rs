//! The archival resolution state machine.
//!
//! Resolving one URL is a protocol: query for an existing snapshot; accept it
//! when fresh; otherwise request a new snapshot and classify the response,
//! retrying indefinitely on rate limiting, falling back to a stale snapshot
//! on permanent failure, and recording a tombstone otherwise.  The machine
//! below makes every decision; the surrounding application only performs the
//! actions it emits (HTTP calls and sleeps) and feeds the outcomes back in.

use crate::outcome::{ArchiveError, ArchivingResult};
use crate::timestamp::{spec_within_days, within_days, Timestamp};
use crate::url::{spec_path_starts_with_web, spec_url_timestamp};
use vstd::prelude::*;

verus! {

/// Maximum age, in days, for an existing snapshot to be accepted outright.
pub const FRESH_WINDOW_DAYS: u64 = 90;

/// Seconds to wait before retrying after the service rate limits.
pub const RATE_LIMIT_WAIT_SECS: u64 = 15;

/// Seconds to pause after minting a fresh snapshot.
pub const COOLDOWN_SECS: u64 = 5;

/// What the resolution of one URL is waiting on.
#[derive(Debug)]
pub enum ResolvePhase {
    /// Waiting for the availability query's outcome.
    AwaitAvailability,
    /// Waiting for the snapshot request's outcome; holds the existing
    /// snapshot, if any, as a fallback for permanent failures.
    AwaitSave(Option<ArchivingResult>),
    /// A fresh snapshot was minted; pausing before reporting it.
    Cooldown(ArchivingResult),
    /// Rate limited; pausing before starting over.
    Backoff,
    /// Resolution finished.
    Done,
}

/// What the driver observed, fed into the machine.
#[derive(Debug)]
pub enum ResolveEvent {
    /// The availability query finished: the most recent existing snapshot,
    /// or `None` when the query failed or nothing usable exists.
    Availability(Option<ArchivingResult>),
    /// The snapshot request finished with a terminal status and a final,
    /// redirect-resolved URL.
    SaveResponse(u16, String),
    /// The snapshot request failed in transport, with diagnostic detail.
    SaveFailed(String),
    /// The requested pause has elapsed.
    Slept,
}

/// What the driver must do next.
#[derive(Debug)]
pub enum ResolveAction {
    /// Query the availability endpoint for the URL being resolved.
    QueryAvailability,
    /// Request a new snapshot of the URL, following redirects.
    RequestSnapshot,
    /// Sleep for the given number of seconds, then report `Slept`.
    Wait(u64),
    /// Resolution is complete with this record.
    Finish(ArchivingResult),
}

/// A snapshot request's terminal status counts as success when it is `200`,
/// or when it is `404` but the final URL already points into the archive:
/// the service is known to race between completing an archival and making
/// the snapshot resolvable.
pub open spec fn spec_save_success(status: u16, u: Seq<char>) -> bool {
    status == 200 || (status == 404 && spec_path_starts_with_web(u))
}

/// Statuses on which the service declined this URL for good.
pub open spec fn spec_permanent(status: u16) -> bool {
    status == 403 || status == 520 || status == 523
}

/// Drives the resolution of a single URL.
pub struct Resolver {
    pub phase: ResolvePhase,
}

impl Resolver {
    /// Embedded records are valid; a stored fallback is an existing snapshot.
    pub open spec fn wf(self) -> bool {
        match self.phase {
            ResolvePhase::AwaitSave(stale) => match stale {
                Some(s) => s.wf() && s.is_snapshot() && s.existing_snapshot,
                None => true,
            },
            ResolvePhase::Cooldown(r) => r.wf(),
            _ => true,
        }
    }

    /// Which events the current phase can consume.
    pub open spec fn expects(self, e: ResolveEvent) -> bool {
        match (self.phase, e) {
            (ResolvePhase::AwaitAvailability, ResolveEvent::Availability(_)) => true,
            (ResolvePhase::AwaitSave(_), ResolveEvent::SaveResponse(_, _)) => true,
            (ResolvePhase::AwaitSave(_), ResolveEvent::SaveFailed(_)) => true,
            (ResolvePhase::Cooldown(_), ResolveEvent::Slept) => true,
            (ResolvePhase::Backoff, ResolveEvent::Slept) => true,
            _ => false,
        }
    }

    /// An availability event must carry a valid existing snapshot.
    pub open spec fn event_wf(e: ResolveEvent) -> bool {
        match e {
            ResolveEvent::Availability(latest) => match latest {
                Some(s) => s.wf() && s.is_snapshot() && s.existing_snapshot,
                None => true,
            },
            _ => true,
        }
    }

    /// A fresh resolver; the driver's first duty is the availability query.
    pub fn new() -> (r: Resolver)
        ensures
            r.phase is AwaitAvailability,
            r.wf(),
    {
        Resolver { phase: ResolvePhase::AwaitAvailability }
    }

    /// Whether resolution has finished.
    pub fn is_done(&self) -> (b: bool)
        ensures
            b == (self.phase is Done),
    {
        match self.phase {
            ResolvePhase::Done => true,
            _ => false,
        }
    }

    /// Consumes one event and returns the successor machine and the action
    /// the driver must perform, exactly as `spec_step` prescribes.
    pub fn step(self, event: ResolveEvent, now: &Timestamp) -> (out: (Resolver, ResolveAction))
        requires
            self.expects(event),
            Resolver::event_wf(event),
            self.wf(),
            now.wf(),
        ensures
            out == spec_step(self, event, *now),
            out.0.wf(),
            out.1 matches ResolveAction::Finish(res) ==> res.wf(),
    {
        match (self.phase, event) {
            (ResolvePhase::AwaitAvailability, ResolveEvent::Availability(latest)) => match latest {
                Some(s) => {
                    if within_days(&s.last_archived, now, FRESH_WINDOW_DAYS) {
                        (Resolver { phase: ResolvePhase::Done }, ResolveAction::Finish(s))
                    } else {
                        (
                            Resolver { phase: ResolvePhase::AwaitSave(Some(s)) },
                            ResolveAction::RequestSnapshot,
                        )
                    }
                },
                None => (
                    Resolver { phase: ResolvePhase::AwaitSave(None) },
                    ResolveAction::RequestSnapshot,
                ),
            },
            (ResolvePhase::AwaitSave(stale), ResolveEvent::SaveResponse(status, u)) => {
                match crate::requester::classify_save_response(status, u) {
                    Ok(minted) => (
                        Resolver { phase: ResolvePhase::Cooldown(minted) },
                        ResolveAction::Wait(COOLDOWN_SECS),
                    ),
                    Err(ArchiveError::BandwidthExceeded) => (
                        Resolver { phase: ResolvePhase::Backoff },
                        ResolveAction::Wait(RATE_LIMIT_WAIT_SECS),
                    ),
                    Err(ArchiveError::UnableToArchive) => match stale {
                        Some(s) => (Resolver { phase: ResolvePhase::Done }, ResolveAction::Finish(s)),
                        None => (
                            Resolver { phase: ResolvePhase::Done },
                            ResolveAction::Finish(ArchivingResult::tombstone(now)),
                        ),
                    },
                    Err(_) => (
                        Resolver { phase: ResolvePhase::Done },
                        ResolveAction::Finish(ArchivingResult::tombstone(now)),
                    ),
                }
            },
            (ResolvePhase::AwaitSave(_), ResolveEvent::SaveFailed(_)) => (
                Resolver { phase: ResolvePhase::Done },
                ResolveAction::Finish(ArchivingResult::tombstone(now)),
            ),
            (ResolvePhase::Cooldown(res), ResolveEvent::Slept) => (
                Resolver { phase: ResolvePhase::Done },
                ResolveAction::Finish(res),
            ),
            (ResolvePhase::Backoff, ResolveEvent::Slept) => (
                Resolver { phase: ResolvePhase::AwaitAvailability },
                ResolveAction::QueryAvailability,
            ),
            _ => vstd::pervasive::unreached(),
        }
    }
}

/// The machine's full transition function.
pub open spec fn spec_step(r: Resolver, e: ResolveEvent, now: Timestamp) -> (Resolver,
    ResolveAction) {
    match (r.phase, e) {
        (ResolvePhase::AwaitAvailability, ResolveEvent::Availability(latest)) => match latest {
            Some(s) => {
                if spec_within_days(s.last_archived, now, FRESH_WINDOW_DAYS as int) {
                    (Resolver { phase: ResolvePhase::Done }, ResolveAction::Finish(s))
                } else {
                    (
                        Resolver { phase: ResolvePhase::AwaitSave(Some(s)) },
                        ResolveAction::RequestSnapshot,
                    )
                }
            },
            None => (
                Resolver { phase: ResolvePhase::AwaitSave(None) },
                ResolveAction::RequestSnapshot,
            ),
        },
        (ResolvePhase::AwaitSave(stale), ResolveEvent::SaveResponse(status, u)) => {
            if spec_save_success(status, u@) {
                match spec_url_timestamp(u@) {
                    Some(t) => (
                        Resolver {
                            phase: ResolvePhase::Cooldown(
                                ArchivingResult {
                                    url: Some(u),
                                    last_archived: t,
                                    existing_snapshot: false,
                                },
                            ),
                        },
                        ResolveAction::Wait(COOLDOWN_SECS),
                    ),
                    None => (
                        Resolver { phase: ResolvePhase::Done },
                        ResolveAction::Finish(ArchivingResult::spec_tombstone(now)),
                    ),
                }
            } else if status == 509 {
                (Resolver { phase: ResolvePhase::Backoff }, ResolveAction::Wait(RATE_LIMIT_WAIT_SECS))
            } else if spec_permanent(status) {
                match stale {
                    Some(s) => (Resolver { phase: ResolvePhase::Done }, ResolveAction::Finish(s)),
                    None => (
                        Resolver { phase: ResolvePhase::Done },
                        ResolveAction::Finish(ArchivingResult::spec_tombstone(now)),
                    ),
                }
            } else {
                (
                    Resolver { phase: ResolvePhase::Done },
                    ResolveAction::Finish(ArchivingResult::spec_tombstone(now)),
                )
            }
        },
        (ResolvePhase::AwaitSave(_), ResolveEvent::SaveFailed(_)) => (
            Resolver { phase: ResolvePhase::Done },
            ResolveAction::Finish(ArchivingResult::spec_tombstone(now)),
        ),
        (ResolvePhase::Cooldown(res), ResolveEvent::Slept) => (
            Resolver { phase: ResolvePhase::Done },
            ResolveAction::Finish(res),
        ),
        (ResolvePhase::Backoff, ResolveEvent::Slept) => (
            Resolver { phase: ResolvePhase::AwaitAvailability },
            ResolveAction::QueryAvailability,
        ),
        _ => (r, ResolveAction::QueryAvailability),
    }
}

/// An existing snapshot younger than the freshness window resolves at once:
/// the machine finishes with that snapshot and never asks for a new one.
pub proof fn lemma_fresh_snapshot_resolves(r: Resolver, s: ArchivingResult, now: Timestamp)
    requires
        r.phase is AwaitAvailability,
        spec_within_days(s.last_archived, now, FRESH_WINDOW_DAYS as int),
    ensures
        spec_step(r, ResolveEvent::Availability(Some(s)), now) == (
            Resolver { phase: ResolvePhase::Done },
            ResolveAction::Finish(s),
        ),
{
}

/// With no usable existing snapshot, a successful creation response yields a
/// record whose time is exactly the timestamp decoded from the final URL's
/// path, reported after the cooldown pause.
pub proof fn lemma_minted_snapshot_time(
    stale: Option<ArchivingResult>,
    status: u16,
    u: String,
    t: Timestamp,
    now: Timestamp,
)
    requires
        spec_save_success(status, u@),
        spec_url_timestamp(u@) == Some(t),
    ensures
        ({
            let minted = ArchivingResult { url: Some(u), last_archived: t, existing_snapshot: false };
            let (r2, a) = spec_step(
                Resolver { phase: ResolvePhase::AwaitSave(stale) },
                ResolveEvent::SaveResponse(status, u),
                now,
            );
            &&& a == ResolveAction::Wait(COOLDOWN_SECS)
            &&& r2.phase == ResolvePhase::Cooldown(minted)
            &&& spec_step(r2, ResolveEvent::Slept, now) == (
                Resolver { phase: ResolvePhase::Done },
                ResolveAction::Finish(minted),
            )
        }),
{
}

/// A `404` whose final URL path begins with `/web` transitions exactly as a
/// `200` with the same URL.
pub proof fn lemma_racy_not_found_is_success(r: Resolver, u: String, now: Timestamp)
    requires
        spec_path_starts_with_web(u@),
    ensures
        spec_step(r, ResolveEvent::SaveResponse(404, u), now) == spec_step(
            r,
            ResolveEvent::SaveResponse(200, u),
            now,
        ),
{
}

/// Rate limiting never ends a resolution: a `509` always waits the fixed
/// interval, and after the wait the machine starts the cycle over.
pub proof fn lemma_rate_limit_retries(stale: Option<ArchivingResult>, u: String, now: Timestamp)
    ensures
        spec_step(
            Resolver { phase: ResolvePhase::AwaitSave(stale) },
            ResolveEvent::SaveResponse(509, u),
            now,
        ) == (Resolver { phase: ResolvePhase::Backoff }, ResolveAction::Wait(RATE_LIMIT_WAIT_SECS)),
        spec_step(Resolver { phase: ResolvePhase::Backoff }, ResolveEvent::Slept, now) == (
            Resolver { phase: ResolvePhase::AwaitAvailability },
            ResolveAction::QueryAvailability,
        ),
{
}

/// A permanently failing URL still resolves to the stale snapshot when one
/// exists, and to a tombstone otherwise.
pub proof fn lemma_permanent_failure_fallback(
    stale: Option<ArchivingResult>,
    status: u16,
    u: String,
    now: Timestamp,
)
    requires
        spec_permanent(status),
    ensures
        ({
            let out = spec_step(
                Resolver { phase: ResolvePhase::AwaitSave(stale) },
                ResolveEvent::SaveResponse(status, u),
                now,
            );
            match stale {
                Some(s) => out == (
                    Resolver { phase: ResolvePhase::Done },
                    ResolveAction::Finish(s),
                ),
                None => out == (
                    Resolver { phase: ResolvePhase::Done },
                    ResolveAction::Finish(ArchivingResult::spec_tombstone(now)),
                ),
            }
        }),
{
}

} // verus!
