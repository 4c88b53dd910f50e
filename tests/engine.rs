use ap_scanner::engine::{crowding_weights, get_distr_vec, DistributionError};
use ap_scanner::reading::{ChannelGroup, Reading, Suggestion, Suggestions5G};
use ap_scanner::wifi::{Frequency, Width, Wifi};
use rand::rngs::StdRng;
use rand::SeedableRng;

fn ap(mac: &str, channel: u8, mhz: u16) -> Wifi {
    Wifi {
        ssid: format!("net-{}", mac),
        mac: mac.to_string(),
        channel,
        signal_mdbm: -50000,
        frequency: Frequency::from_mhz(mhz),
        width: Width::MHz20,
    }
}

fn ap24(mac: &str, channel: u8) -> Wifi {
    ap(mac, channel, 2407 + 5 * channel as u16)
}

fn ap5(mac: &str, channel: u8) -> Wifi {
    ap(mac, channel, 5000 + 5 * channel as u16)
}

fn group<'a>(groups: &'a [ChannelGroup], channel: u8) -> &'a ChannelGroup {
    groups.iter().find(|g| g.channel == channel).expect("channel present")
}

fn all_pairs(groups: &[ChannelGroup]) -> Vec<(String, u8, Suggestion)> {
    let mut out = vec![];
    for g in groups {
        for (w, s) in &g.entries {
            out.push((w.mac.clone(), w.channel, *s));
        }
    }
    out
}

fn mixed_observations() -> Vec<Wifi> {
    vec![
        ap24("a", 3),
        ap24("b", 6),
        ap5("c", 36),
        ap24("d", 1),
        ap24("e", 9),
        ap24("f", 11),
        ap5("g", 100),
        ap24("h", 6),
        ap5("i", 36),
    ]
}

const NDFS_20: [u8; 9] = [36, 40, 44, 48, 149, 153, 157, 161, 165];
const DFS_20: [u8; 25] = [
    36, 40, 44, 48, 52, 56, 60, 64, 100, 104, 108, 112, 116, 120, 124, 128, 132, 136, 140, 144,
    149, 153, 157, 161, 165,
];
const NDFS_40: [u8; 4] = [38, 46, 151, 159];
const DFS_40: [u8; 12] = [38, 46, 54, 62, 102, 110, 118, 126, 134, 142, 151, 159];
const NDFS_80: [u8; 2] = [42, 155];
const DFS_80: [u8; 6] = [42, 58, 106, 122, 138, 155];
const DFS_160: [u8; 2] = [50, 114];

#[test]
fn anchors_keep_their_channel() {
    let obs = mixed_observations();
    for seed in 0..20u64 {
        let mut rng = StdRng::seed_from_u64(seed);
        let r = Reading::new(1, "lab".to_string(), &obs, &mut rng);
        for (_, channel, s) in all_pairs(&r.wifi_2_4_ghz) {
            if channel == 1 || channel == 6 || channel == 11 {
                assert_eq!(s, Suggestion::Suggestion2g(channel));
            }
        }
    }
}

#[test]
fn non_anchors_move_to_an_anchor() {
    let obs = mixed_observations();
    for seed in 0..20u64 {
        let mut rng = StdRng::seed_from_u64(seed);
        let r = Reading::new(1, "lab".to_string(), &obs, &mut rng);
        for (_, channel, s) in all_pairs(&r.wifi_2_4_ghz) {
            if channel != 1 && channel != 6 && channel != 11 {
                match s {
                    Suggestion::Suggestion2g(c) => assert!(c == 1 || c == 6 || c == 11),
                    _ => panic!("a 2.4GHz pair carries a 5GHz record"),
                }
            }
        }
    }
}

#[test]
fn five_ghz_fields_within_candidates() {
    let obs = mixed_observations();
    for seed in 0..20u64 {
        let mut rng = StdRng::seed_from_u64(seed);
        let r = Reading::new(1, "lab".to_string(), &obs, &mut rng);
        let pairs = all_pairs(&r.wifi_5_ghz);
        assert_eq!(pairs.len(), 3);
        for (_, _, s) in pairs {
            match s {
                Suggestion::Suggestion5g(v) => {
                    assert!(NDFS_20.contains(&v.ndfs_20));
                    assert!(DFS_20.contains(&v.dfs_20));
                    assert!(NDFS_40.contains(&v.ndfs_40));
                    assert!(DFS_40.contains(&v.dfs_40));
                    assert!(NDFS_80.contains(&v.ndfs_80));
                    assert!(DFS_80.contains(&v.dfs_80));
                    assert!(DFS_160.contains(&v.dfs_160));
                }
                _ => panic!("a 5GHz pair carries a 2.4GHz channel"),
            }
        }
    }
}

#[test]
fn crowding_favours_the_empty_anchor() {
    // Channel 1 is empty, channels 6 and 11 hold everything else.
    let mut obs = vec![ap24("x", 3)];
    for k in 0..10 {
        obs.push(ap24(&format!("six{}", k), 6));
        obs.push(ap24(&format!("eleven{}", k), 11));
    }
    let mut counts = [0u32; 3];
    let mut rng = StdRng::seed_from_u64(7);
    for _ in 0..2000 {
        let r = Reading::new(0, "busy".to_string(), &obs, &mut rng);
        match group(&r.wifi_2_4_ghz, 3).entries[0].1 {
            Suggestion::Suggestion2g(1) => counts[0] += 1,
            Suggestion::Suggestion2g(6) => counts[1] += 1,
            Suggestion::Suggestion2g(11) => counts[2] += 1,
            other => panic!("unexpected suggestion {:?}", other),
        }
    }
    assert!(counts[0] > counts[1]);
    assert!(counts[0] > counts[2]);
}

#[test]
fn same_seed_same_reading() {
    let obs = mixed_observations();
    let mut rng_a = StdRng::seed_from_u64(42);
    let mut rng_b = StdRng::seed_from_u64(42);
    let a = Reading::new(5, "lab".to_string(), &obs, &mut rng_a);
    let b = Reading::new(5, "lab".to_string(), &obs, &mut rng_b);
    assert_eq!(a.timestamp, b.timestamp);
    assert_eq!(a.local, b.local);
    assert_eq!(all_pairs(&a.wifi_2_4_ghz), all_pairs(&b.wifi_2_4_ghz));
    assert_eq!(all_pairs(&a.wifi_5_ghz), all_pairs(&b.wifi_5_ghz));
}

#[test]
fn scenario_three_channels() {
    // One observation on channel 3, five on 6, two on 11: total 8, weights 8:3:6.
    let mut obs = vec![ap24("three", 3)];
    for k in 0..5 {
        obs.push(ap24(&format!("six{}", k), 6));
    }
    for k in 0..2 {
        obs.push(ap24(&format!("eleven{}", k), 11));
    }
    let mut rng = StdRng::seed_from_u64(3);
    let mut seen = [0u32; 3];
    for _ in 0..1700 {
        let r = Reading::new(0, "scenario".to_string(), &obs, &mut rng);
        assert_eq!(r.wifi_2_4_ghz.len(), 3);
        assert_eq!(group(&r.wifi_2_4_ghz, 6).entries.len(), 5);
        assert_eq!(group(&r.wifi_2_4_ghz, 11).entries.len(), 2);
        for (_, s) in &group(&r.wifi_2_4_ghz, 6).entries {
            assert_eq!(*s, Suggestion::Suggestion2g(6));
        }
        for (_, s) in &group(&r.wifi_2_4_ghz, 11).entries {
            assert_eq!(*s, Suggestion::Suggestion2g(11));
        }
        match group(&r.wifi_2_4_ghz, 3).entries[0].1 {
            Suggestion::Suggestion2g(1) => seen[0] += 1,
            Suggestion::Suggestion2g(6) => seen[1] += 1,
            Suggestion::Suggestion2g(11) => seen[2] += 1,
            other => panic!("unexpected suggestion {:?}", other),
        }
    }
    // Expected about 800 : 300 : 600.
    assert!(seen[0] > seen[2] && seen[2] > seen[1]);
    assert!(seen[1] > 0);
}

#[test]
fn from_draws_places_every_observation() {
    let obs = vec![ap24("a", 3), ap24("b", 6), ap5("c", 36), ap24("d", 3), ap5("e", 40)];
    let draws = vec![11u8, 0, 1];
    let rec = |k: u8| Suggestions5G {
        ndfs_20: 36 + k,
        dfs_20: 52,
        ndfs_40: 38,
        dfs_40: 54,
        ndfs_80: 42,
        dfs_80: 58,
        dfs_160: 50,
    };
    let picks = vec![rec(0), rec(4)];
    let r = Reading::from_draws(9, "here".to_string(), &obs, &draws, &picks);
    assert_eq!(r.timestamp, 9);
    assert_eq!(r.local, "here");
    assert_eq!(r.wifi_2_4_ghz.len(), 2);
    assert_eq!(r.wifi_2_4_ghz[0].channel, 3);
    assert_eq!(r.wifi_2_4_ghz[1].channel, 6);
    assert_eq!(
        all_pairs(&r.wifi_2_4_ghz),
        vec![
            ("a".to_string(), 3, Suggestion::Suggestion2g(11)),
            ("d".to_string(), 3, Suggestion::Suggestion2g(1)),
            ("b".to_string(), 6, Suggestion::Suggestion2g(6)),
        ]
    );
    assert_eq!(
        all_pairs(&r.wifi_5_ghz),
        vec![
            ("c".to_string(), 36, Suggestion::Suggestion5g(rec(0))),
            ("e".to_string(), 40, Suggestion::Suggestion5g(rec(4))),
        ]
    );
}

#[test]
fn empty_band_needs_no_draw() {
    let obs = vec![ap5("c", 36)];
    let mut rng = StdRng::seed_from_u64(1);
    let r = Reading::new(0, "5only".to_string(), &obs, &mut rng);
    assert!(r.wifi_2_4_ghz.is_empty());
    assert_eq!(r.wifi_5_ghz.len(), 1);
    let empty = Reading::new(0, "none".to_string(), &vec![], &mut rng);
    assert!(empty.wifi_2_4_ghz.is_empty());
    assert!(empty.wifi_5_ghz.is_empty());
}

#[test]
fn distr_vec_draws_from_values() {
    let mut rng = StdRng::seed_from_u64(11);
    let values = [50u8, 114];
    let v = get_distr_vec(&values, 40, &mut rng).unwrap();
    assert_eq!(v.len(), 40);
    assert!(v.iter().all(|x| values.contains(x)));
    assert!(v.contains(&50) && v.contains(&114));
    assert_eq!(get_distr_vec(&values, 0, &mut rng).unwrap().len(), 0);
}

#[test]
fn distr_vec_rejects_empty_candidates() {
    let mut rng = StdRng::seed_from_u64(11);
    assert_eq!(get_distr_vec(&[], 3, &mut rng), Err(DistributionError::EmptyCandidates));
    assert_eq!(get_distr_vec(&[], 0, &mut rng), Err(DistributionError::EmptyCandidates));
}

#[test]
fn suggestion_helpers() {
    let z = Suggestions5G::default();
    assert_eq!(Suggestion::default_5g(), Suggestion::Suggestion5g(z));
    assert_eq!(z.dfs_160, 0);
    assert_eq!(Suggestion::Suggestion2g(6).headline_channel(), 6);
    let mut s = z;
    s.ndfs_20 = 149;
    assert_eq!(Suggestion::Suggestion5g(s).headline_channel(), 149);
}

#[test]
fn find_suggestion_takes_first_match() {
    let obs = vec![ap24("a", 3), ap24("a", 6), ap5("a", 36), ap24("b", 1)];
    let rec = Suggestions5G::default();
    let r = Reading::from_draws(0, "x".to_string(), &obs, &vec![6, 0, 0], &vec![rec]);
    assert_eq!(r.find_suggestion("net-a", "a"), Some(Suggestion::Suggestion2g(6)));
    assert_eq!(r.find_suggestion("net-b", "b"), Some(Suggestion::Suggestion2g(1)));
    assert_eq!(r.find_suggestion("other", "a"), None);
    assert_eq!(r.find_suggestion("net-z", "z"), None);
}

#[test]
fn scenario_crowding_weights() {
    // One observation on channel 3, five on 6, two on 11: total 8, weights 8, 3, 6.
    let mut obs = vec![ap24("three", 3), ap5("five", 36)];
    for k in 0..5 {
        obs.push(ap24(&format!("six{}", k), 6));
    }
    for k in 0..2 {
        obs.push(ap24(&format!("eleven{}", k), 11));
    }
    assert_eq!(crowding_weights(&obs), vec![8, 3, 6]);
    assert_eq!(crowding_weights(&vec![]), vec![0, 0, 0]);
    assert_eq!(crowding_weights(&vec![ap24("a", 1), ap24("b", 1)]), vec![0, 2, 2]);
}

#[test]
fn groups_follow_first_occurrence() {
    let obs = vec![ap24("a", 9), ap24("b", 2), ap24("c", 9), ap24("d", 4), ap24("e", 2)];
    let r = Reading::from_draws(0, "x".to_string(), &obs, &vec![1, 6, 11, 1, 6], &vec![]);
    let channels: Vec<u8> = r.wifi_2_4_ghz.iter().map(|g| g.channel).collect();
    assert_eq!(channels, vec![9, 2, 4]);
    let macs: Vec<&str> = group(&r.wifi_2_4_ghz, 9).entries.iter().map(|(w, _)| w.mac.as_str()).collect();
    assert_eq!(macs, vec!["a", "c"]);
}
