use ap_scanner::cache::{Cache, CacheEntry};
use ap_scanner::reading::{Reading, Suggestion, Suggestions5G};
use ap_scanner::wifi::{Frequency, Width, Wifi};

fn ap(ssid: &str, mac: &str, channel: u8, mhz: u16) -> Wifi {
    Wifi {
        ssid: ssid.to_string(),
        mac: mac.to_string(),
        channel,
        signal_mdbm: -40000,
        frequency: Frequency::from_mhz(mhz),
        width: Width::MHz40,
    }
}

fn record(k: u8) -> Suggestions5G {
    Suggestions5G {
        ndfs_20: 36 + 4 * k,
        dfs_20: 52,
        ndfs_40: 46,
        dfs_40: 62,
        ndfs_80: 155,
        dfs_80: 106,
        dfs_160: 114,
    }
}

fn sample_reading(draw: u8) -> Reading {
    let obs = vec![
        ap("home", "aa:01", 3, 2422),
        ap("cafe", "aa:02", 6, 2437),
        ap("office", "aa:03", 36, 5180),
    ];
    Reading::from_draws(1, "lab".to_string(), &obs, &vec![draw, 0], &vec![record(1)])
}

#[test]
fn ingest_then_lookup() {
    let mut cache = Cache::new();
    cache.insert_into_cache(&sample_reading(11), "f1");
    assert_eq!(cache.get_suggestion("home", "aa:01"), Some(Suggestion::Suggestion2g(11)));
    assert_eq!(cache.get_suggestion("cafe", "aa:02"), Some(Suggestion::Suggestion2g(6)));
    assert_eq!(cache.get_suggestion("office", "aa:03"), Some(Suggestion::Suggestion5g(record(1))));
}

#[test]
fn lookup_with_wrong_ssid_is_absent() {
    let mut cache = Cache::new();
    cache.insert_into_cache(&sample_reading(11), "f1");
    assert_eq!(cache.get_suggestion("cafe", "aa:01"), None);
    assert_eq!(cache.get_suggestion("home", "ff:ff"), None);
    assert_eq!(Cache::new().get_suggestion("home", "aa:01"), None);
}

#[test]
fn later_reading_wins() {
    let mut cache = Cache::new();
    cache.insert_into_cache(&sample_reading(11), "f1");
    cache.insert_into_cache(&sample_reading(1), "f2");
    assert_eq!(cache.get_suggestion("home", "aa:01"), Some(Suggestion::Suggestion2g(1)));
    let saved = cache.to_entries();
    assert_eq!(saved.len(), 3);
    let home = saved.iter().find(|p| p.0 == "aa:01").unwrap();
    assert_eq!(home.1.file, "f2");
}

#[test]
fn same_mac_under_new_ssid_replaces() {
    let mut cache = Cache::new();
    cache.insert_into_cache(&sample_reading(11), "f1");
    let moved = vec![ap("renamed", "aa:01", 1, 2412)];
    let r = Reading::from_draws(2, "lab".to_string(), &moved, &vec![0], &vec![]);
    cache.insert_into_cache(&r, "f2");
    assert_eq!(cache.get_suggestion("home", "aa:01"), None);
    assert_eq!(cache.get_suggestion("renamed", "aa:01"), Some(Suggestion::Suggestion2g(1)));
}

#[test]
fn save_and_load_round_trip() {
    let mut cache = Cache::new();
    cache.insert_into_cache(&sample_reading(6), "f1");
    let mut saved = cache.to_entries();
    saved.reverse();
    let loaded = Cache::from_entries(&saved);
    for (ssid, mac) in [("home", "aa:01"), ("cafe", "aa:02"), ("office", "aa:03")] {
        assert_eq!(loaded.get_suggestion(ssid, mac), cache.get_suggestion(ssid, mac));
        assert!(loaded.get_suggestion(ssid, mac).is_some());
    }
    assert_eq!(loaded.to_entries().len(), 3);
}

#[test]
fn load_keeps_last_of_repeated_mac() {
    let entry = |s: &str, f: &str, c: u8| CacheEntry {
        ssid: s.to_string(),
        file: f.to_string(),
        suggestion: Suggestion::Suggestion2g(c),
    };
    let loaded = Cache::from_entries(&vec![
        ("m".to_string(), entry("x", "f1", 1)),
        ("n".to_string(), entry("y", "f1", 6)),
        ("m".to_string(), entry("x", "f2", 11)),
    ]);
    assert_eq!(loaded.get_suggestion("x", "m"), Some(Suggestion::Suggestion2g(11)));
    assert_eq!(loaded.get_suggestion("y", "n"), Some(Suggestion::Suggestion2g(6)));
    assert_eq!(loaded.to_entries().len(), 2);
}

#[test]
fn upsert_replaces_in_place() {
    let mut cache = Cache::new();
    let entry = CacheEntry {
        ssid: "a".to_string(),
        file: "f".to_string(),
        suggestion: Suggestion::Suggestion2g(1),
    };
    cache.upsert("m".to_string(), entry.clone());
    cache.upsert("m".to_string(), CacheEntry { suggestion: Suggestion::Suggestion2g(6), ..entry });
    assert_eq!(cache.to_entries().len(), 1);
    assert_eq!(cache.get_suggestion("a", "m"), Some(Suggestion::Suggestion2g(6)));
}
