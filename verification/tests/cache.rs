use audiocache::codec::decode_header;
use audiocache::index::TrackCache;
use audiocache::meta::{DcaMetadata, TrackMeta};
use audiocache::util::handle_io;
use audiocache::writer::{eligible, estimated_len, plan_write, rel_path};

fn meta(duration_ms: Option<u64>, url: &str) -> TrackMeta {
    TrackMeta {
        title: Some("t".to_owned()),
        artist: None,
        date: None,
        duration: duration_ms,
        sample_rate: Some(48_000),
        channels: 2,
        source_url: Some(url.to_owned()),
        thumbnail: None,
    }
}

#[test]
fn lookup_of_never_inserted_key_is_a_miss() {
    let cache = TrackCache::new();
    assert_eq!(cache.get("https://host/query?a=1"), None);
    let mut cache = cache;
    cache.insert("k1".to_owned(), "p1".to_owned());
    assert_eq!(cache.get("k2"), None);
}

#[test]
fn insert_is_idempotent() {
    let mut once = TrackCache::new();
    once.insert("k".to_owned(), "p".to_owned());
    let mut twice = TrackCache::new();
    twice.insert("k".to_owned(), "p".to_owned());
    twice.insert("k".to_owned(), "p".to_owned());
    assert_eq!(once.len(), twice.len());
    assert_eq!(once.get("k"), twice.get("k"));
    assert_eq!(twice.get("k").as_deref(), Some("p"));
}

#[test]
fn racing_writers_converge_to_one_entry() {
    // two finishers for the same source both passed the duplicate guard;
    // their inserts land one after the other
    let mut cache = TrackCache::new();
    cache.insert("https://host/q?a=1".to_owned(), "host/a=1".to_owned());
    cache.insert("https://host/q?a=1".to_owned(), "host/a=1".to_owned());
    assert_eq!(cache.len(), 1);
    assert_eq!(cache.get("https://host/q?a=1").as_deref(), Some("host/a=1"));
}

#[test]
fn eligibility_has_a_twenty_minute_ceiling() {
    assert!(eligible(Some(1_200_000)));
    assert!(eligible(Some(300_000)));
    assert!(!eligible(Some(1_200_001)));
    assert!(!eligible(None));
}

#[test]
fn estimated_len_matches_the_formula() {
    assert_eq!(estimated_len(300_000), (300 + 1) * 128_000 / 8);
    assert_eq!(estimated_len(0), 16_000);
}

#[test]
fn rel_path_joins_host_and_query() {
    assert_eq!(rel_path("host", "a=1"), "host/a=1");
}

#[test]
fn stream_end_scenario_writes_and_registers() {
    // a five minute stream finishes
    let cache = TrackCache::new();
    let m = meta(Some(300_000), "https://host/query?a=1");
    let plan = plan_write(&cache, &m).expect("a five minute stream is cached");
    assert_eq!(plan.host_dir, "host");
    assert_eq!(plan.rel_path, "host/a=1");
    assert_eq!(plan.reserve, (300 + 1) * 128_000 / 8);
    let (h, off) = decode_header(&plan.header).unwrap();
    assert_eq!(off, plan.header.len());
    assert_eq!(h.opus.channels, 2);
    assert_eq!(h.extra.duration, Some(300_000));
    // the copy succeeded: commit the mapping
    let mut cache = cache;
    cache.insert(m.source_url.clone().unwrap(), plan.rel_path.clone());
    assert_eq!(cache.get("https://host/query?a=1").as_deref(), Some("host/a=1"));
}

#[test]
fn long_stream_is_not_cached() {
    let cache = TrackCache::new();
    let m = meta(Some(1_300_000), "https://host/query?a=1");
    assert!(plan_write(&cache, &m).is_none());
}

#[test]
fn already_cached_stream_is_not_written_again() {
    let mut cache = TrackCache::new();
    cache.insert("https://host/query?a=1".to_owned(), "host/a=1".to_owned());
    let m = meta(Some(300_000), "https://host/query?a=1");
    assert!(plan_write(&cache, &m).is_none());
}

#[test]
fn unusable_source_urls_are_skipped() {
    let cache = TrackCache::new();
    assert!(plan_write(&cache, &meta(Some(1_000), "not a url")).is_none());
    assert!(plan_write(&cache, &meta(Some(1_000), "https://host/no-query")).is_none());
    let mut m = meta(Some(1_000), "https://host/q?a=1");
    m.source_url = None;
    assert!(plan_write(&cache, &m).is_none());
    m.duration = None;
    assert!(plan_write(&cache, &m).is_none());
}

#[test]
fn corrupted_hit_reads_as_a_miss() {
    // a lookup hit whose artifact's first four bytes were overwritten
    let mut cache = TrackCache::new();
    let m = meta(Some(300_000), "https://host/query?a=1");
    let plan = plan_write(&cache, &m).unwrap();
    cache.insert("https://host/query?a=1".to_owned(), plan.rel_path.clone());
    let mut artifact = plan.header.clone();
    artifact.extend_from_slice(&[1, 2, 3, 4]);
    artifact[0] = 0;
    artifact[1] = 0;
    artifact[2] = 0;
    artifact[3] = 0;
    let hit = cache.get("https://host/query?a=1");
    assert!(hit.is_some());
    // the reader rejects the file; the caller proceeds as on a miss
    assert!(decode_header(&artifact).is_err());
}

#[test]
fn handle_io_unwraps_ok() {
    let r: Result<u32, std::io::Error> = Ok(7);
    assert_eq!(handle_io(r), 7);
}
