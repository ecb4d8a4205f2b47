use wayback_archiver::availability::{select_latest, Candidate};
use wayback_archiver::outcome::{ArchiveError, ArchivingResult};
use wayback_archiver::requester::classify_save_response;
use wayback_archiver::resolver::{ResolveAction, ResolveEvent, Resolver};
use wayback_archiver::timestamp::Timestamp;
use wayback_archiver::url::{path_starts_with_web, timestamp_from_archive_url};

fn ts(year: u16, month: u8, day: u8, hour: u8, minute: u8, second: u8) -> Timestamp {
    Timestamp { year, month, day, hour, minute, second }
}

fn snapshot(url: &str, at: Timestamp) -> ArchivingResult {
    ArchivingResult { url: Some(url.to_string()), last_archived: at, existing_snapshot: true }
}

const SNAP_URL: &str = "https://web.archive.org/web/20210102030405/http://example.com/";

#[test]
fn parse_compact_accepts_exact_form() {
    let v: Vec<char> = "20210102030405".chars().collect();
    let t = Timestamp::parse_compact(&v).expect("valid stamp");
    assert_eq!(t, ts(2021, 1, 2, 3, 4, 5));
}

#[test]
fn parse_compact_rejects_malformed_input() {
    for bad in [
        "2021010203040",    // too short
        "202101020304056",  // too long
        "2021010203040x",   // non-digit
        "20211302030405",   // month 13
        "20210100030405",   // day 0
        "20210230030405",   // 30 February
        "20190229030405",   // 29 February off a leap year
        "20210102240405",   // hour 24
        "20210102036005",   // minute 60
        "20210102030460",   // second 60
        "00000102030405",   // year 0
    ] {
        let v: Vec<char> = bad.chars().collect();
        assert!(Timestamp::parse_compact(&v).is_none(), "accepted {:?}", bad);
    }
}

#[test]
fn parse_compact_accepts_leap_day() {
    let v: Vec<char> = "20200229235959".chars().collect();
    assert_eq!(Timestamp::parse_compact(&v), Some(ts(2020, 2, 29, 23, 59, 59)));
}

#[test]
fn format_compact_round_trips() {
    let t = ts(1999, 12, 31, 23, 59, 59);
    let s = t.format_compact();
    assert_eq!(s, "19991231235959");
    let v: Vec<char> = s.chars().collect();
    assert_eq!(Timestamp::parse_compact(&v), Some(t));
}

#[test]
fn epoch_seconds_counts_calendar_days() {
    let day = 86400u64;
    assert_eq!(
        ts(2021, 1, 2, 0, 0, 0).epoch_seconds() - ts(2021, 1, 1, 0, 0, 0).epoch_seconds(),
        day
    );
    // 2020 is a leap year, 2019 is not.
    assert_eq!(
        ts(2020, 3, 1, 0, 0, 0).epoch_seconds() - ts(2020, 2, 28, 0, 0, 0).epoch_seconds(),
        2 * day
    );
    assert_eq!(
        ts(2019, 3, 1, 0, 0, 0).epoch_seconds() - ts(2019, 2, 28, 0, 0, 0).epoch_seconds(),
        day
    );
    // 1900 is not a leap year, 2000 is.
    assert_eq!(
        ts(1900, 3, 1, 0, 0, 0).epoch_seconds() - ts(1900, 2, 28, 0, 0, 0).epoch_seconds(),
        day
    );
    assert_eq!(
        ts(2000, 3, 1, 0, 0, 0).epoch_seconds() - ts(2000, 2, 28, 0, 0, 0).epoch_seconds(),
        2 * day
    );
    assert_eq!(
        ts(2021, 1, 1, 1, 2, 3).epoch_seconds() - ts(2021, 1, 1, 0, 0, 0).epoch_seconds(),
        3600 + 2 * 60 + 3
    );
}

#[test]
fn extracts_timestamp_from_archive_url() {
    let t = timestamp_from_archive_url(SNAP_URL).expect("stamp");
    assert_eq!(t, ts(2021, 1, 2, 3, 4, 5));
}

#[test]
fn extraction_takes_the_first_stamp() {
    let t = timestamp_from_archive_url(
        "https://web.archive.org/web/20200606060606/https://web.archive.org/web/20210102030405/x",
    )
    .expect("stamp");
    assert_eq!(t, ts(2020, 6, 6, 6, 6, 6));
}

#[test]
fn extraction_fails_without_a_stamp() {
    for bad in [
        "https://example.com/nothing/here",
        "https://web.archive.org/web/notdigits/x",
        "https://web.archive.org/web/2021",          // no trailing slash
        "https://web.archive.org/web/123/x",         // digits, but no valid stamp
    ] {
        match timestamp_from_archive_url(bad) {
            Err(ArchiveError::ParseError(_)) => {}
            other => panic!("expected a parse error for {:?}, got {:?}", bad, other),
        }
    }
}

#[test]
fn path_prefix_detection() {
    assert!(path_starts_with_web(SNAP_URL));
    assert!(path_starts_with_web("https://web.archive.org/web"));
    assert!(!path_starts_with_web("https://web.archive.org/save/http://x"));
    assert!(!path_starts_with_web("https://web.archive.org"));
    assert!(!path_starts_with_web("no-scheme-at-all/web/1/"));
}

#[test]
fn selects_greatest_timestamp() {
    let cands = vec![
        Candidate { url: "https://a".to_string(), timestamp: "20200101000000".to_string() },
        Candidate { url: "https://c".to_string(), timestamp: "20211231235959".to_string() },
        Candidate { url: "https://b".to_string(), timestamp: "20210615120000".to_string() },
    ];
    let r = select_latest(&cands).expect("snapshot");
    assert_eq!(r.url.as_deref(), Some("https://c"));
    assert_eq!(r.last_archived, ts(2021, 12, 31, 23, 59, 59));
    assert!(r.existing_snapshot);
}

#[test]
fn select_empty_reports_no_snapshot() {
    match select_latest(&Vec::new()) {
        Err(ArchiveError::NoExistingSnapshot) => {}
        other => panic!("expected no-snapshot error, got {:?}", other),
    }
}

#[test]
fn select_with_malformed_best_is_a_parse_error() {
    // "9999" sorts above any 14-digit stamp, so the malformed candidate wins
    // the comparison and then fails to decode.
    let cands = vec![
        Candidate { url: "https://ok".to_string(), timestamp: "20210101000000".to_string() },
        Candidate { url: "https://bad".to_string(), timestamp: "9999".to_string() },
    ];
    match select_latest(&cands) {
        Err(ArchiveError::ParseError(_)) => {}
        other => panic!("expected a parse error, got {:?}", other),
    }
}

#[test]
fn classification_of_statuses() {
    // 200: fresh snapshot with the decoded creation time.
    let ok = classify_save_response(200, SNAP_URL.to_string()).expect("success");
    assert_eq!(ok.url.as_deref(), Some(SNAP_URL));
    assert_eq!(ok.last_archived, ts(2021, 1, 2, 3, 4, 5));
    assert!(!ok.existing_snapshot);
    // 404 into the archive: the race is tolerated.
    let racy = classify_save_response(404, SNAP_URL.to_string()).expect("tolerated");
    assert_eq!(racy.url.as_deref(), Some(SNAP_URL));
    // 404 elsewhere: unknown failure.
    match classify_save_response(404, "https://example.com/missing".to_string()) {
        Err(ArchiveError::Unknown(_)) => {}
        other => panic!("expected unknown failure, got {:?}", other),
    }
    // Rate limiting and permanent refusals.
    assert_eq!(
        classify_save_response(509, "https://x".to_string()).unwrap_err(),
        ArchiveError::BandwidthExceeded
    );
    for status in [403u16, 520, 523] {
        assert_eq!(
            classify_save_response(status, "https://x".to_string()).unwrap_err(),
            ArchiveError::UnableToArchive
        );
    }
    // Anything else is unknown.
    match classify_save_response(500, "https://x".to_string()) {
        Err(ArchiveError::Unknown(_)) => {}
        other => panic!("expected unknown failure, got {:?}", other),
    }
    // A success whose final URL carries no stamp is itself an error.
    match classify_save_response(200, "https://web.archive.org/web/oops".to_string()) {
        Err(ArchiveError::Unknown(_)) => {}
        other => panic!("expected unknown failure, got {:?}", other),
    }
}

#[test]
fn fresh_snapshot_short_circuits_without_save_request() {
    let now = ts(2021, 4, 1, 0, 0, 0);
    let existing = snapshot("https://web.archive.org/web/20210301000000/x", ts(2021, 3, 1, 0, 0, 0));
    let r = Resolver::new();
    let (r, action) = r.step(ResolveEvent::Availability(Some(existing)), &now);
    // 31 days old, well within the 90-day window: done at once — had the
    // machine wanted the save endpoint it would have emitted RequestSnapshot.
    match action {
        ResolveAction::Finish(a) => {
            assert_eq!(a.url.as_deref(), Some("https://web.archive.org/web/20210301000000/x"));
            assert_eq!(a.last_archived, ts(2021, 3, 1, 0, 0, 0));
            assert!(a.existing_snapshot);
        }
        other => panic!("expected Finish, got {:?}", other),
    }
    assert!(r.is_done());
}

#[test]
fn stale_snapshot_triggers_a_save_request() {
    let now = ts(2021, 8, 1, 0, 0, 0);
    let existing = snapshot("https://web.archive.org/web/20210301000000/x", ts(2021, 3, 1, 0, 0, 0));
    let r = Resolver::new();
    // 153 days old: past the 90-day window.
    let (_, action) = r.step(ResolveEvent::Availability(Some(existing)), &now);
    assert!(matches!(action, ResolveAction::RequestSnapshot));
}

#[test]
fn fresh_mint_reports_decoded_time_after_cooldown() {
    let now = ts(2021, 4, 1, 0, 0, 0);
    let r = Resolver::new();
    let (r, action) = r.step(ResolveEvent::Availability(None), &now);
    assert!(matches!(action, ResolveAction::RequestSnapshot));
    let (r, action) = r.step(ResolveEvent::SaveResponse(200, SNAP_URL.to_string()), &now);
    assert!(matches!(action, ResolveAction::Wait(5)));
    let (r, action) = r.step(ResolveEvent::Slept, &now);
    match action {
        ResolveAction::Finish(a) => {
            assert_eq!(a.url.as_deref(), Some(SNAP_URL));
            assert_eq!(a.last_archived, ts(2021, 1, 2, 3, 4, 5));
            assert!(!a.existing_snapshot);
        }
        other => panic!("expected Finish, got {:?}", other),
    }
    assert!(r.is_done());
}

#[test]
fn racy_not_found_matches_plain_success() {
    let now = ts(2021, 4, 1, 0, 0, 0);
    let run = |status: u16| {
        let r = Resolver::new();
        let (r, _) = r.step(ResolveEvent::Availability(None), &now);
        let (r, action) = r.step(ResolveEvent::SaveResponse(status, SNAP_URL.to_string()), &now);
        assert!(matches!(action, ResolveAction::Wait(5)));
        let (_, action) = r.step(ResolveEvent::Slept, &now);
        match action {
            ResolveAction::Finish(a) => (a.url, a.last_archived, a.existing_snapshot),
            other => panic!("expected Finish, got {:?}", other),
        }
    };
    assert_eq!(run(404), run(200));
}

#[test]
fn rate_limit_waits_and_retries_until_success() {
    let now = ts(2021, 4, 1, 0, 0, 0);
    let mut r = Resolver::new();
    let mut waits_of_15 = 0u32;
    let (r2, action) = r.step(ResolveEvent::Availability(None), &now);
    r = r2;
    assert!(matches!(action, ResolveAction::RequestSnapshot));
    // The stub answers 509 three times, then 200: exactly three 15-second
    // waits, each followed by a fresh availability query, then success.
    for _ in 0..3 {
        let (r2, action) = r.step(ResolveEvent::SaveResponse(509, "https://x".to_string()), &now);
        r = r2;
        match action {
            ResolveAction::Wait(secs) => {
                assert_eq!(secs, 15);
                waits_of_15 += 1;
            }
            other => panic!("expected Wait, got {:?}", other),
        }
        let (r2, action) = r.step(ResolveEvent::Slept, &now);
        r = r2;
        assert!(matches!(action, ResolveAction::QueryAvailability));
        let (r2, action) = r.step(ResolveEvent::Availability(None), &now);
        r = r2;
        assert!(matches!(action, ResolveAction::RequestSnapshot));
    }
    let (r2, action) = r.step(ResolveEvent::SaveResponse(200, SNAP_URL.to_string()), &now);
    r = r2;
    assert!(matches!(action, ResolveAction::Wait(5)));
    let (r2, action) = r.step(ResolveEvent::Slept, &now);
    assert_eq!(waits_of_15, 3);
    assert!(r2.is_done());
    match action {
        ResolveAction::Finish(a) => assert!(a.url.is_some()),
        other => panic!("expected Finish, got {:?}", other),
    }
}

#[test]
fn permanent_failure_falls_back_to_stale_snapshot() {
    let now = ts(2021, 8, 1, 0, 0, 0);
    for status in [403u16, 520, 523] {
        let stale = snapshot("https://web.archive.org/web/20200101000000/x", ts(2020, 1, 1, 0, 0, 0));
        let r = Resolver::new();
        let (r, _) = r.step(ResolveEvent::Availability(Some(stale)), &now);
        let (r, action) = r.step(ResolveEvent::SaveResponse(status, "https://x".to_string()), &now);
        match action {
            ResolveAction::Finish(a) => {
                assert_eq!(a.url.as_deref(), Some("https://web.archive.org/web/20200101000000/x"));
                assert_eq!(a.last_archived, ts(2020, 1, 1, 0, 0, 0));
                assert!(a.existing_snapshot);
            }
            other => panic!("expected Finish, got {:?}", other),
        }
        assert!(r.is_done());
    }
}

#[test]
fn permanent_failure_without_fallback_is_a_tombstone() {
    let now = ts(2021, 8, 1, 0, 0, 0);
    let r = Resolver::new();
    let (r, _) = r.step(ResolveEvent::Availability(None), &now);
    let (r, action) = r.step(ResolveEvent::SaveResponse(523, "https://x".to_string()), &now);
    match action {
        ResolveAction::Finish(a) => {
            assert!(a.url.is_none());
            assert_eq!(a.last_archived, now);
            assert!(!a.existing_snapshot);
        }
        other => panic!("expected Finish, got {:?}", other),
    }
    assert!(r.is_done());
}

#[test]
fn transport_failure_is_a_tombstone() {
    let now = ts(2021, 8, 1, 0, 0, 0);
    let r = Resolver::new();
    let (r, _) = r.step(ResolveEvent::Availability(None), &now);
    let (r, action) = r.step(
        ResolveEvent::SaveFailed("connection reset".to_string()),
        &now,
    );
    match action {
        ResolveAction::Finish(a) => {
            assert!(a.url.is_none());
            assert_eq!(a.last_archived, now);
        }
        other => panic!("expected Finish, got {:?}", other),
    }
    assert!(r.is_done());
}
