//! Classifying snapshot-creation responses.
//!
//! The save endpoint answers with a terminal HTTP status and a final,
//! redirect-resolved URL.  This module turns that pair into a typed outcome:
//! a fresh snapshot record, or one of the closed error variants the retry
//! and fallback policy dispatches on.

use crate::outcome::{ArchiveError, ArchivingResult};
use crate::resolver::{spec_permanent, spec_save_success};
use crate::url::{path_starts_with_web, spec_url_timestamp, timestamp_from_archive_url};
use vstd::prelude::*;

verus! {

/// Classifies the terminal status and final URL of a snapshot request.
///
/// `200` succeeds; `404` succeeds anyway when the final URL already points
/// into the archive (the service races between archiving and resolving);
/// `509` is the retryable rate limit; `403`, `520` and `523` are permanent
/// refusals; everything else is an unknown failure.  On the success path the
/// snapshot's creation time is decoded from the final URL, and a URL that
/// does not carry one turns the response into an unknown failure.
pub fn classify_save_response(status: u16, final_url: String) -> (r: Result<
    ArchivingResult,
    ArchiveError,
>)
    ensures
        (r matches Ok(a) ==> spec_save_success(status, final_url@) && (
        match spec_url_timestamp(final_url@) {
            Some(t) => a == (ArchivingResult {
                url: Some(final_url),
                last_archived: t,
                existing_snapshot: false,
            }) && t.wf(),
            None => false,
        })),
        (r matches Err(e) ==> match e {
            ArchiveError::BandwidthExceeded => status == 509,
            ArchiveError::UnableToArchive => spec_permanent(status),
            ArchiveError::Unknown(_) => (spec_save_success(status, final_url@)
                && spec_url_timestamp(final_url@) is None) || (!spec_save_success(
                status,
                final_url@,
            ) && status != 509 && !spec_permanent(status)),
            _ => false,
        }),
        r is Ok <==> spec_save_success(status, final_url@) && spec_url_timestamp(
            final_url@,
        ) is Some,
{
    let success = status == 200 || (status == 404 && path_starts_with_web(final_url.as_str()));
    if success {
        match timestamp_from_archive_url(final_url.as_str()) {
            Ok(t) => Ok(
                ArchivingResult { url: Some(final_url), last_archived: t, existing_snapshot: false },
            ),
            Err(_) => Err(
                ArchiveError::Unknown(
                    "archival succeeded but the snapshot URL carries no timestamp".to_owned(),
                ),
            ),
        }
    } else if status == 509 {
        Err(ArchiveError::BandwidthExceeded)
    } else if status == 403 || status == 520 || status == 523 {
        Err(ArchiveError::UnableToArchive)
    } else {
        Err(ArchiveError::Unknown("unexpected HTTP status".to_owned()))
    }
}

} // verus!
