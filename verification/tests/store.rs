use wayback_archiver::cache::{is_reusable, Cache};
use wayback_archiver::codec::{load_cache, serialize_cache};
use wayback_archiver::outcome::ArchivingResult;
use wayback_archiver::pipeline::Pipeline;
use wayback_archiver::timestamp::Timestamp;

fn ts(year: u16, month: u8, day: u8, hour: u8, minute: u8, second: u8) -> Timestamp {
    Timestamp { year, month, day, hour, minute, second }
}

fn success(url: &str, at: Timestamp) -> ArchivingResult {
    ArchivingResult { url: Some(url.to_string()), last_archived: at, existing_snapshot: false }
}

fn tombstone(at: Timestamp) -> ArchivingResult {
    ArchivingResult { url: None, last_archived: at, existing_snapshot: false }
}

#[test]
fn lookup_and_overwrite() {
    let mut c = Cache::new();
    assert!(c.lookup("http://a").is_none());
    c.update("http://a", success("https://snap/a", ts(2021, 1, 1, 0, 0, 0)));
    c.update("http://b", tombstone(ts(2021, 2, 2, 0, 0, 0)));
    assert_eq!(c.len(), 2);
    let a = c.lookup("http://a").expect("present");
    assert_eq!(a.url.as_deref(), Some("https://snap/a"));
    let b = c.lookup("http://b").expect("present");
    assert!(b.url.is_none());
    // Overwriting replaces the record without growing the cache.
    c.update("http://a", success("https://snap/a2", ts(2021, 3, 3, 0, 0, 0)));
    assert_eq!(c.len(), 2);
    let a = c.lookup("http://a").expect("present");
    assert_eq!(a.url.as_deref(), Some("https://snap/a2"));
    assert_eq!(a.last_archived, ts(2021, 3, 3, 0, 0, 0));
    assert!(c.lookup("http://missing").is_none());
}

#[test]
fn serialized_form_is_canonical() {
    let mut c = Cache::new();
    // Inserted out of order: the file is sorted by URL text.
    c.update("http://b", tombstone(ts(2022, 12, 1, 10, 20, 30)));
    c.update("http://a", success(
        "https://web.archive.org/web/20210102030405/http://a",
        ts(2021, 1, 2, 3, 4, 5),
    ));
    let text = serialize_cache(&c);
    let expected_a = "{\"http://a\":{\"url\":\"https://web.archive.org/web/20210102030405/http://a\",\"last_archived\":\"2021-01-02T03:04:05\"},";
    let expected_b = "\"http://b\":{\"url\":null,\"last_archived\":\"2022-12-01T10:20:30\"}}";
    assert_eq!(text, format!("{}{}", expected_a, expected_b));
}

#[test]
fn empty_cache_serializes_to_empty_object() {
    let c = Cache::new();
    assert_eq!(serialize_cache(&c), "{}");
    let back = load_cache("{}").expect("readable");
    assert_eq!(back.len(), 0);
}

#[test]
fn round_trip_preserves_the_mapping() {
    let mut c = Cache::new();
    c.update("http://plain", success("https://snap/p", ts(2021, 5, 6, 7, 8, 9)));
    c.update("http://gone", tombstone(ts(2020, 2, 29, 23, 59, 59)));
    c.update("http://qu\"ote", success("https://snap/\\back\\", ts(1999, 1, 1, 0, 0, 0)));
    let text = serialize_cache(&c);
    let back = load_cache(&text).expect("own output is readable");
    assert_eq!(back.len(), c.len());
    for url in ["http://plain", "http://gone", "http://qu\"ote"] {
        let stored = c.lookup(url).expect("still present");
        let got = back.lookup(url).expect("reloaded");
        assert_eq!(got.url, stored.url);
        assert_eq!(got.last_archived, stored.last_archived);
        // The transient flag is not persisted; a loaded record never claims
        // to come from the current run's availability check.
        assert!(!got.existing_snapshot);
    }
    // And the canonical text is stable under another round.
    assert_eq!(serialize_cache(&back), text);
}

#[test]
fn load_rejects_corrupt_text() {
    for bad in [
        "",
        "{",
        "[]",
        "{\"a\":{\"url\":null}}",                                    // missing field
        "{\"a\":{\"url\":null,\"last_archived\":\"2021-13-01T00:00:00\"}}", // bad month
        "{\"a\":{\"url\":null,\"last_archived\":\"2021-01-01T00:00:00\"}",  // unterminated
        "{\"b\":{\"url\":null,\"last_archived\":\"2021-01-01T00:00:00\"},\"a\":{\"url\":null,\"last_archived\":\"2021-01-01T00:00:00\"}}", // unsorted
        "{\"a\":{\"url\":null,\"last_archived\":\"2021-01-01T00:00:00\"},\"a\":{\"url\":null,\"last_archived\":\"2021-01-01T00:00:00\"}}", // duplicate key
    ] {
        assert!(load_cache(bad).is_none(), "accepted {:?}", bad);
    }
}

#[test]
fn reuse_window_is_looser_than_freshness() {
    // A record 100 days old: reusable under the 180-day cache window, even
    // though a 90-day freshness check would reject it.
    let now = ts(2021, 4, 11, 0, 0, 0);
    let archived = ts(2021, 1, 1, 0, 0, 0);
    let aged = (now.epoch_seconds() - archived.epoch_seconds()) / 86400;
    assert_eq!(aged, 100);
    let record = success("https://snap/a", archived);
    assert!(is_reusable(&record, &now));
    let mut p = Pipeline::new(Cache::new());
    p.record("http://a", record);
    assert!(p.should_skip("http://a", &now));
}

#[test]
fn tombstones_are_not_reusable() {
    let now = ts(2021, 1, 2, 0, 0, 0);
    assert!(!is_reusable(&tombstone(ts(2021, 1, 1, 0, 0, 0)), &now));
}

#[test]
fn records_past_the_reuse_window_are_not_reusable() {
    let now = ts(2021, 12, 1, 0, 0, 0);
    let record = success("https://snap/a", ts(2021, 1, 1, 0, 0, 0));
    assert!(!is_reusable(&record, &now));
}

#[test]
fn checkpoint_preserves_the_first_interval() {
    let now = ts(2021, 1, 1, 0, 0, 0);
    let mut p = Pipeline::new(Cache::new());
    let mut checkpointed: Option<String> = None;
    let mut signals = 0u32;
    for i in 0..150u32 {
        let url = format!("http://site/{:03}", i);
        let snap = format!("https://snap/{:03}", i);
        let due = p.record(&url, success(&snap, now));
        if due {
            signals += 1;
            checkpointed = Some(serialize_cache(&p.cache));
        }
        // The run is cut off after 150 URLs, before any further checkpoint.
    }
    assert_eq!(signals, 1);
    let file = checkpointed.expect("one checkpoint was written");
    let persisted = load_cache(&file).expect("checkpoint is readable");
    assert_eq!(persisted.len(), 100);
    for i in 0..100u32 {
        let url = format!("http://site/{:03}", i);
        let got = persisted.lookup(&url).expect("first interval persisted");
        assert_eq!(got.url.as_deref(), Some(format!("https://snap/{:03}", i).as_str()));
    }
    assert!(persisted.lookup("http://site/120").is_none());
}
