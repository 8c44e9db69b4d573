use std::sync::mpsc::sync_channel;

use version_notify::cache::{ToolVersionInfo, VersionCache};
use version_notify::checker::VersionChecker;
use version_notify::codec::{cache_from_text, decode_cache, encode_cache};
use version_notify::orchestrator::{
    absorb_probe, consult_cache, decide_override, get_current_timestamp, is_fresh, CacheVerdict,
};
use version_notify::version::{is_newer_version, parse_version};

fn info(last_check: u64, latest: &str) -> ToolVersionInfo {
    ToolVersionInfo { last_check, latest: latest.to_owned() }
}

#[test]
fn newer_on_differing_segment() {
    assert!(is_newer_version("1.2.0", "1.3.0"));
    assert!(!is_newer_version("2.0.0", "1.9.9"));
}

#[test]
fn newer_on_longer_sequence() {
    assert!(is_newer_version("1.2", "1.2.1"));
    assert!(!is_newer_version("1.2.1", "1.2"));
}

#[test]
fn equal_sequences_are_not_newer() {
    assert!(!is_newer_version("1.2.3", "1.2.3"));
    assert!(!is_newer_version("v1.2.3", "1.2.3"));
    assert!(!is_newer_version("1.2.3", "v1.2.3"));
}

#[test]
fn leading_v_is_stripped() {
    assert!(is_newer_version("v1.0", "v1.1"));
    assert!(is_newer_version("1.0", "v1.1"));
}

#[test]
fn malformed_segments_are_dropped() {
    assert_eq!(parse_version("1.x.2"), vec![1, 2]);
    assert_eq!(parse_version(""), Vec::<u32>::new());
    assert_eq!(parse_version("v"), Vec::<u32>::new());
    assert_eq!(parse_version("1..2"), vec![1, 2]);
    // A segment past u32 range is dropped, not clamped.
    assert_eq!(parse_version("1.99999999999"), vec![1]);
    assert!(!is_newer_version("1", "1.99999999999"));
    // An empty current sequence loses to any non-empty candidate.
    assert!(is_newer_version("", "0"));
}

#[test]
fn cache_upsert_lookup_remove() {
    let mut cache = VersionCache::new();
    assert_eq!(cache.len(), 0);
    assert!(cache.lookup("rg").is_none());
    cache.upsert("rg", info(100, "14.1.0"));
    cache.upsert("fd", info(200, "10.2.0"));
    assert_eq!(cache.len(), 2);
    let got = cache.lookup("rg").unwrap();
    assert_eq!(got.last_check, 100);
    assert_eq!(got.latest, "14.1.0");
    cache.upsert("rg", info(300, "14.2.0"));
    assert_eq!(cache.len(), 2);
    let got = cache.lookup("rg").unwrap();
    assert_eq!(got.last_check, 300);
    assert_eq!(got.latest, "14.2.0");
    cache.remove("rg");
    assert_eq!(cache.len(), 1);
    assert!(cache.lookup("rg").is_none());
    assert!(cache.lookup("fd").is_some());
}

#[test]
fn encode_empty_cache() {
    let cache = VersionCache::new();
    assert_eq!(encode_cache(&cache).unwrap(), "{}");
}

#[test]
fn encode_one_entry_exact_text() {
    let mut cache = VersionCache::new();
    cache.upsert("ripgrep", info(123, "14.1.0"));
    assert_eq!(
        encode_cache(&cache).unwrap(),
        "{\"ripgrep\":{\"last_check\":123,\"latest\":\"14.1.0\"}}"
    );
}

#[test]
fn encode_rejects_unescapable_strings() {
    let mut cache = VersionCache::new();
    cache.upsert("a\"b", info(1, "1.0"));
    assert!(encode_cache(&cache).is_none());
    let mut cache = VersionCache::new();
    cache.upsert("ok", info(1, "1.0\\x"));
    assert!(encode_cache(&cache).is_none());
}

#[test]
fn round_trip_reproduces_entries() {
    let mut cache = VersionCache::new();
    cache.upsert("ripgrep", info(1700000000, "14.1.0"));
    cache.upsert("fd", info(1700000100, "10.2.0"));
    cache.upsert("bat", info(0, "0.24.0"));
    let text = encode_cache(&cache).unwrap();
    let loaded = decode_cache(text.as_str()).unwrap();
    assert_eq!(loaded.len(), 3);
    for (name, last_check, latest) in [
        ("ripgrep", 1700000000u64, "14.1.0"),
        ("fd", 1700000100u64, "10.2.0"),
        ("bat", 0u64, "0.24.0"),
    ] {
        let got = loaded.lookup(name).unwrap();
        assert_eq!(got.last_check, last_check);
        assert_eq!(got.latest, latest);
    }
}

#[test]
fn round_trip_keeps_empty_and_symbol_strings() {
    let mut cache = VersionCache::new();
    cache.upsert("", info(0, ""));
    cache.upsert("odd tool (beta)", info(42, "1.0-rc.1+build 7"));
    let text = encode_cache(&cache).unwrap();
    let loaded = decode_cache(text.as_str()).unwrap();
    assert_eq!(loaded.len(), 2);
    assert_eq!(loaded.lookup("").unwrap().latest, "");
    assert_eq!(loaded.lookup("odd tool (beta)").unwrap().latest, "1.0-rc.1+build 7");
}

#[test]
fn decode_accepts_largest_timestamp() {
    let text = "{\"t\":{\"last_check\":18446744073709551615,\"latest\":\"1\"}}";
    let cache = decode_cache(text).unwrap();
    assert_eq!(cache.lookup("t").unwrap().last_check, u64::MAX);
}

#[test]
fn decode_rejects_noncanonical_text() {
    assert!(decode_cache("").is_none());
    assert!(decode_cache("{").is_none());
    assert!(decode_cache("nonsense").is_none());
    assert!(decode_cache("{}x").is_none());
    assert!(decode_cache("{\"a\":{\"last_check\":1,\"latest\":\"1\"}} ").is_none());
    // Pretty-printed or re-ordered JSON is not the canonical form.
    assert!(decode_cache("{ \"a\": {\"last_check\": 1, \"latest\": \"1\"} }").is_none());
    // A timestamp past u64 range is rejected.
    assert!(decode_cache("{\"t\":{\"last_check\":18446744073709551616,\"latest\":\"1\"}}").is_none());
    // A duplicated tool name is rejected.
    assert!(decode_cache(
        "{\"a\":{\"last_check\":1,\"latest\":\"1\"},\"a\":{\"last_check\":2,\"latest\":\"2\"}}"
    )
    .is_none());
}

#[test]
fn cache_from_text_swallows_failures() {
    assert_eq!(cache_from_text(None).len(), 0);
    assert_eq!(cache_from_text(Some("corrupt")).len(), 0);
    let loaded = cache_from_text(Some("{\"a\":{\"last_check\":7,\"latest\":\"2.0\"}}"));
    assert_eq!(loaded.len(), 1);
    assert_eq!(loaded.lookup("a").unwrap().last_check, 7);
}

#[test]
fn freshness_window_boundaries() {
    let now: u64 = 1_000_000;
    assert!(is_fresh(now - 86399, now));
    assert!(!is_fresh(now - 86400, now));
    assert!(!is_fresh(now - 86401, now));
    // A clock that moved backwards never makes a record stale.
    assert!(is_fresh(now + 50, now));
}

#[test]
fn fresh_record_answers_without_probe() {
    let now: u64 = 1_000_000;
    let mut cache = VersionCache::new();
    cache.upsert("rg", info(now - 86399, "2.0.0"));
    match consult_cache(&mut cache, "rg", "1.0.0", now, true) {
        CacheVerdict::HitNewer(latest) => assert_eq!(latest, "2.0.0"),
        _ => panic!("a fresh record naming a newer version must answer"),
    }
    assert!(cache.lookup("rg").is_some());
}

#[test]
fn stale_record_requires_probe() {
    let now: u64 = 1_000_000;
    let mut cache = VersionCache::new();
    cache.upsert("rg", info(now - 86401, "2.0.0"));
    assert!(matches!(consult_cache(&mut cache, "rg", "1.0.0", now, true), CacheVerdict::Miss));
    let mut empty = VersionCache::new();
    assert!(matches!(consult_cache(&mut empty, "rg", "1.0.0", now, true), CacheVerdict::Miss));
}

#[test]
fn fresh_record_behind_current_is_evicted_by_policy() {
    let now: u64 = 1_000_000;
    let mut cache = VersionCache::new();
    cache.upsert("rg", info(now - 100, "1.0.0"));
    assert!(matches!(
        consult_cache(&mut cache, "rg", "1.5.0", now, true),
        CacheVerdict::HitStale
    ));
    assert!(cache.lookup("rg").is_none());

    let mut cache = VersionCache::new();
    cache.upsert("rg", info(now - 100, "1.0.0"));
    assert!(matches!(
        consult_cache(&mut cache, "rg", "1.5.0", now, false),
        CacheVerdict::HitQuiet
    ));
    assert!(cache.lookup("rg").is_some());
}

#[test]
fn fresh_record_equal_to_current_is_quiet() {
    let now: u64 = 1_000_000;
    let mut cache = VersionCache::new();
    cache.upsert("rg", info(now - 100, "1.5.0"));
    assert!(matches!(
        consult_cache(&mut cache, "rg", "1.5.0", now, true),
        CacheVerdict::HitQuiet
    ));
    assert!(cache.lookup("rg").is_some());
}

#[test]
fn probe_failure_is_not_cached() {
    let now: u64 = 1_000_000;
    let mut cache = VersionCache::new();
    assert!(absorb_probe(&mut cache, "rg", "1.0.0", now, None).is_none());
    assert_eq!(cache.len(), 0);
}

#[test]
fn probe_answer_is_recorded_and_advised() {
    let now: u64 = 1_000_000;
    let mut cache = VersionCache::new();
    let advice = absorb_probe(&mut cache, "rg", "1.0.0", now, Some("2.0.0".to_owned()));
    assert_eq!(advice.unwrap(), "2.0.0");
    let got = cache.lookup("rg").unwrap();
    assert_eq!(got.last_check, now);
    assert_eq!(got.latest, "2.0.0");

    let advice = absorb_probe(&mut cache, "rg", "3.0.0", now + 5, Some("2.5.0".to_owned()));
    assert!(advice.is_none());
    assert_eq!(cache.lookup("rg").unwrap().last_check, now + 5);
}

#[test]
fn override_decides_without_cache_or_network() {
    assert_eq!(decide_override("1.0.0", "2.0.0".to_owned()).unwrap(), "2.0.0");
    assert!(decide_override("1.0.0", "1.0.0".to_owned()).is_none());
    assert!(decide_override("2.0.0", "1.0.0".to_owned()).is_none());
}

#[test]
fn unarmed_checker_reports_nothing() {
    let mut checker = VersionChecker::new("rg", "1.0.0");
    assert!(checker.recv_update(10).is_none());
    checker.print_warning();
    checker.print_warning_sync();
    assert!(checker.recv_update(10).is_none());
}

#[test]
fn armed_checker_delivers_once() {
    let mut checker = VersionChecker::new("rg", "1.0.0");
    let (tx, rx) = sync_channel(1);
    checker.arm(rx);
    tx.send(Some("2.0.0".to_owned())).unwrap();
    assert_eq!(checker.recv_update(100).unwrap(), "2.0.0");
    // The result was consumed: a second report finds nothing.
    assert!(checker.recv_update(100).is_none());
}

#[test]
fn no_update_answer_is_consumed_silently() {
    let mut checker = VersionChecker::new("rg", "1.0.0");
    let (tx, rx) = sync_channel(1);
    checker.arm(rx);
    tx.send(None).unwrap();
    assert!(checker.recv_update(100).is_none());
    assert!(checker.recv_update(100).is_none());
}

#[test]
fn timed_out_report_does_not_lose_the_result() {
    let mut checker = VersionChecker::new("rg", "1.0.0");
    let (tx, rx) = sync_channel(1);
    checker.arm(rx);
    // Nothing has been sent yet: the short wait elapses empty.
    assert!(checker.recv_update(10).is_none());
    // The delayed background result still arrives at a later report.
    tx.send(Some("2.0.0".to_owned())).unwrap();
    assert_eq!(checker.recv_update(100).unwrap(), "2.0.0");
}

#[test]
fn rearming_replaces_the_previous_channel() {
    let mut checker = VersionChecker::new("rg", "1.0.0");
    let (tx1, rx1) = sync_channel(1);
    checker.arm(rx1);
    tx1.send(Some("9.9.9".to_owned())).unwrap();
    let (tx2, rx2) = sync_channel(1);
    checker.arm(rx2);
    tx2.send(None).unwrap();
    // The superseded channel's result is discarded.
    assert!(checker.recv_update(100).is_none());
}

#[test]
fn advisory_smoke() {
    let mut checker = VersionChecker::new("rg", "1.0.0");
    let (tx, rx) = sync_channel(1);
    checker.arm(rx);
    tx.send(Some("2.0.0".to_owned())).unwrap();
    checker.print_warning();
    // The advisory was printed and consumed: nothing is left to report.
    assert!(checker.recv_update(10).is_none());
}

#[test]
fn timestamp_is_current_epoch_seconds() {
    // Seconds since the Unix epoch: far past 2020 on any sane clock, and
    // never negative or wildly in the future.
    let now = get_current_timestamp();
    assert!(now > 1_600_000_000);
    assert!(now < 100_000_000_000);
}
