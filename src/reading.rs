//! Suggestions and the reading that groups them by channel.

use vstd::prelude::*;
use crate::wifi::Wifi;

verus! {

/// Recommended 5GHz channels, one per width and DFS class.
#[derive(Clone, Copy, Debug, PartialEq, Eq, Structural)]
pub struct Suggestions5G {
    pub ndfs_20: u8,
    pub dfs_20: u8,
    pub ndfs_40: u8,
    pub dfs_40: u8,
    pub ndfs_80: u8,
    pub dfs_80: u8,
    pub dfs_160: u8,
}

impl Default for Suggestions5G {
    fn default() -> (r: Self)
        ensures
            r == (Suggestions5G {
                ndfs_20: 0,
                dfs_20: 0,
                ndfs_40: 0,
                dfs_40: 0,
                ndfs_80: 0,
                dfs_80: 0,
                dfs_160: 0,
            }),
    {
        Suggestions5G { ndfs_20: 0, dfs_20: 0, ndfs_40: 0, dfs_40: 0, ndfs_80: 0, dfs_80: 0, dfs_160: 0 }
    }
}

/// The advice for one access point: a single 2.4GHz channel, or a 5GHz record.
#[derive(Clone, Copy, Debug, PartialEq, Eq, Structural)]
pub enum Suggestion {
    Suggestion2g(u8),
    Suggestion5g(Suggestions5G),
}

impl Suggestion {
    /// A 5GHz suggestion whose fields are all zero.
    pub fn default_5g() -> (r: Self)
        ensures
            r == Suggestion::Suggestion5g(
                Suggestions5G { ndfs_20: 0, dfs_20: 0, ndfs_40: 0, dfs_40: 0, ndfs_80: 0, dfs_80: 0, dfs_160: 0 },
            ),
    {
        Suggestion::Suggestion5g(Suggestions5G::default())
    }

    /// The channel shown for this suggestion: the 2.4GHz channel, or the non-DFS
    /// 20MHz channel of a 5GHz record.
    pub fn headline_channel(&self) -> (r: u8)
        ensures
            r == match *self {
                Suggestion::Suggestion2g(c) => c,
                Suggestion::Suggestion5g(s) => s.ndfs_20,
            },
    {
        match self {
            Suggestion::Suggestion2g(c) => *c,
            Suggestion::Suggestion5g(s) => s.ndfs_20,
        }
    }
}

/// The access points seen on one channel, each with its suggestion, in the order seen.
pub struct ChannelGroup {
    pub channel: u8,
    pub entries: Vec<(Wifi, Suggestion)>,
}

/// Whether a pair's access point sits on channel `c`.
pub open spec fn pair_on(c: u8) -> spec_fn((Wifi, Suggestion)) -> bool {
    |p: (Wifi, Suggestion)| p.0.channel == c
}

/// The pairs grouped by their access point's channel: each channel that occurs maps
/// to its pairs, in order.
pub open spec fn group_map(pairs: Seq<(Wifi, Suggestion)>) -> Map<u8, Seq<(Wifi, Suggestion)>> {
    Map::new(
        |c: u8| exists|k: int| 0 <= k < pairs.len() && pairs[k].0.channel == c,
        |c: u8| pairs.filter(pair_on(c)),
    )
}

/// No two groups share a channel.
pub open spec fn distinct_channels(g: Seq<ChannelGroup>) -> bool {
    forall|i: int, j: int|
        0 <= i < g.len() && 0 <= j < g.len() && i != j ==> g[i].channel != g[j].channel
}

/// The map from channel to entries that a list of groups stands for.
pub open spec fn band_map(g: Seq<ChannelGroup>) -> Map<u8, Seq<(Wifi, Suggestion)>> {
    Map::new(
        |c: u8| exists|i: int| 0 <= i < g.len() && g[i].channel == c,
        |c: u8| g[choose|i: int| 0 <= i < g.len() && g[i].channel == c].entries@,
    )
}

/// One scan-and-suggest snapshot: when and where it was taken, and the access points
/// of each band grouped by channel.
pub struct Reading {
    /// Milliseconds since the Unix epoch.
    pub timestamp: u128,
    /// Where the reading was taken.
    pub local: String,
    pub wifi_2_4_ghz: Vec<ChannelGroup>,
    pub wifi_5_ghz: Vec<ChannelGroup>,
}

/// What a reading stands for: each band as a map from channel to its pairs.
pub struct ReadingView {
    pub timestamp: u128,
    pub local: Seq<char>,
    pub wifi_2_4_ghz: Map<u8, Seq<(Wifi, Suggestion)>>,
    pub wifi_5_ghz: Map<u8, Seq<(Wifi, Suggestion)>>,
}

impl View for Reading {
    type V = ReadingView;

    open spec fn view(&self) -> ReadingView {
        ReadingView {
            timestamp: self.timestamp,
            local: self.local@,
            wifi_2_4_ghz: band_map(self.wifi_2_4_ghz@),
            wifi_5_ghz: band_map(self.wifi_5_ghz@),
        }
    }
}

impl Reading {
    /// Each band names every channel at most once.
    pub open spec fn wf(&self) -> bool {
        distinct_channels(self.wifi_2_4_ghz@) && distinct_channels(self.wifi_5_ghz@)
    }
}

/// The pairs of a list of groups, group after group.
pub open spec fn flat(g: Seq<ChannelGroup>) -> Seq<(Wifi, Suggestion)>
    decreases g.len(),
{
    if g.len() == 0 {
        Seq::empty()
    } else {
        flat(g.drop_last()) + g.last().entries@
    }
}

/// The pairs of a reading: the 2.4GHz band, then the 5GHz band, each group after group.
pub open spec fn reading_pairs(r: Reading) -> Seq<(Wifi, Suggestion)> {
    flat(r.wifi_2_4_ghz@) + flat(r.wifi_5_ghz@)
}

proof fn lemma_flat_append(a: Seq<ChannelGroup>, b: Seq<ChannelGroup>)
    ensures
        flat(a + b) == flat(a) + flat(b),
    decreases b.len(),
{
    if b.len() == 0 {
        assert(a + b =~= a);
        assert(flat(a) + flat(b) =~= flat(a));
    } else {
        assert((a + b).drop_last() =~= a + b.drop_last());
        lemma_flat_append(a, b.drop_last());
        assert(flat(a + b) =~= flat(a) + flat(b));
    }
}

/// Whether a pair's access point has this SSID and MAC.
pub open spec fn is_device(p: (Wifi, Suggestion), ssid: Seq<char>, mac: Seq<char>) -> bool {
    p.0.ssid@ == ssid && p.0.mac@ == mac
}

/// `r` is the suggestion of the first pair of `pairs` for the device, or `None` when
/// no pair is for it.
pub open spec fn is_first_match(
    pairs: Seq<(Wifi, Suggestion)>,
    ssid: Seq<char>,
    mac: Seq<char>,
    r: Option<Suggestion>,
) -> bool {
    match r {
        None => forall|k: int| 0 <= k < pairs.len() ==> !is_device(#[trigger] pairs[k], ssid, mac),
        Some(s) => exists|k: int|
            0 <= k < pairs.len() && is_device(pairs[k], ssid, mac) && pairs[k].1 == s && forall|
                l: int,
            | 0 <= l < k ==> !is_device(#[trigger] pairs[l], ssid, mac),
    }
}

fn find_in_band(groups: &Vec<ChannelGroup>, ssid: &String, mac: &String) -> (r: Option<Suggestion>)
    ensures
        is_first_match(flat(groups@), ssid@, mac@, r),
{
    let mut g: usize = 0;
    proof {
        assert(groups@.take(0) =~= Seq::<ChannelGroup>::empty());
    }
    while g < groups.len()
        invariant
            g <= groups.len(),
            forall|k: int|
                0 <= k < flat(groups@.take(g as int)).len() ==> !is_device(
                    #[trigger] flat(groups@.take(g as int))[k],
                    ssid@,
                    mac@,
                ),
        decreases groups.len() - g,
    {
        let entries = &groups[g].entries;
        let ghost done = flat(groups@.take(g as int));
        proof {
            assert(groups@.take(g + 1).drop_last() =~= groups@.take(g as int));
            assert(flat(groups@.take(g + 1)) == done + entries@);
            assert(groups@ =~= groups@.take(g + 1) + groups@.skip(g + 1));
            lemma_flat_append(groups@.take(g + 1), groups@.skip(g + 1));
        }
        let mut j: usize = 0;
        while j < entries.len()
            invariant
                j <= entries.len(),
                entries@ == groups@[g as int].entries@,
                done == flat(groups@.take(g as int)),
                flat(groups@) == done + entries@ + flat(groups@.skip(g + 1)),
                forall|k: int| 0 <= k < done.len() ==> !is_device(#[trigger] done[k], ssid@, mac@),
                forall|k: int| 0 <= k < j ==> !is_device(#[trigger] entries@[k], ssid@, mac@),
            decreases entries.len() - j,
        {
            let w = &entries[j].0;
            if w.ssid == *ssid && w.mac == *mac {
                proof {
                    let all = flat(groups@);
                    let k = done.len() + j;
                    assert(all[k] == entries@[j as int]);
                    assert forall|l: int| 0 <= l < k implies !is_device(#[trigger] all[l], ssid@, mac@) by {
                        if l < done.len() {
                            assert(all[l] == done[l]);
                        } else {
                            assert(all[l] == entries@[l - done.len()]);
                        }
                    }
                }
                return Some(entries[j].1);
            }
            j += 1;
        }
        proof {
            let next = flat(groups@.take(g + 1));
            assert(next == done + entries@);
            assert forall|k: int| 0 <= k < next.len() implies !is_device(#[trigger] next[k], ssid@, mac@) by {
                if k < done.len() {
                    assert(next[k] == done[k]);
                } else {
                    assert(next[k] == entries@[k - done.len()]);
                }
            }
        }
        g += 1;
    }
    proof {
        assert(groups@.take(g as int) =~= groups@);
    }
    None
}

impl Reading {
    /// The suggestion of the first pair for the device with this SSID and MAC, the
    /// 2.4GHz band first, each band group after group; `None` when no pair is for it.
    pub fn find_suggestion(&self, ssid: &str, mac: &str) -> (r: Option<Suggestion>)
        ensures
            is_first_match(reading_pairs(*self), ssid@, mac@, r),
    {
        let name = ssid.to_owned();
        let key = mac.to_owned();
        let ghost a = flat(self.wifi_2_4_ghz@);
        let ghost b = flat(self.wifi_5_ghz@);
        match find_in_band(&self.wifi_2_4_ghz, &name, &key) {
            Some(s) => {
                proof {
                    let k = choose|k: int|
                        0 <= k < a.len() && is_device(a[k], ssid@, mac@) && a[k].1 == s && forall|
                            l: int,
                        | 0 <= l < k ==> !is_device(#[trigger] a[l], ssid@, mac@);
                    assert((a + b)[k] == a[k]);
                    assert forall|l: int| 0 <= l < k implies !is_device(#[trigger] (a + b)[l], ssid@, mac@) by {
                        assert((a + b)[l] == a[l]);
                    }
                }
                Some(s)
            },
            None => {
                let r = find_in_band(&self.wifi_5_ghz, &name, &key);
                proof {
                    match r {
                        None => {
                            assert forall|k: int| 0 <= k < (a + b).len() implies !is_device(
                                #[trigger] (a + b)[k],
                                ssid@,
                                mac@,
                            ) by {
                                if k < a.len() {
                                    assert((a + b)[k] == a[k]);
                                } else {
                                    assert((a + b)[k] == b[k - a.len()]);
                                }
                            }
                        },
                        Some(s) => {
                            let k = choose|k: int|
                                0 <= k < b.len() && is_device(b[k], ssid@, mac@) && b[k].1 == s
                                    && forall|l: int| 0 <= l < k ==> !is_device(#[trigger] b[l], ssid@, mac@);
                            let kk = a.len() + k;
                            assert((a + b)[kk] == b[k]);
                            assert forall|l: int| 0 <= l < kk implies !is_device(#[trigger] (a + b)[l], ssid@, mac@) by {
                                if l < a.len() {
                                    assert((a + b)[l] == a[l]);
                                } else {
                                    assert((a + b)[l] == b[l - a.len()]);
                                }
                            }
                        },
                    }
                }
                r
            },
        }
    }
}

fn copy_pair(p: &(Wifi, Suggestion)) -> (r: (Wifi, Suggestion))
    ensures
        r == *p,
{
    (p.0.clone(), p.1)
}

/// The pairs on channel `c`, in order.
fn collect_channel(pairs: &Vec<(Wifi, Suggestion)>, c: u8) -> (r: Vec<(Wifi, Suggestion)>)
    ensures
        r@ == pairs@.filter(pair_on(c)),
{
    let mut r: Vec<(Wifi, Suggestion)> = Vec::new();
    let mut i: usize = 0;
    proof {
        assert(pairs@.subrange(0, 0) =~= Seq::<(Wifi, Suggestion)>::empty());
        reveal(Seq::filter);
    }
    while i < pairs.len()
        invariant
            i <= pairs.len(),
            r@ == pairs@.subrange(0, i as int).filter(pair_on(c)),
        decreases pairs.len() - i,
    {
        proof {
            assert(pairs@.subrange(0, i + 1) =~= pairs@.subrange(0, i as int).push(pairs@[i as int]));
            pairs@.subrange(0, i as int).lemma_filter_push(pairs@[i as int], pair_on(c));
        }
        if pairs[i].0.channel == c {
            r.push(copy_pair(&pairs[i]));
        }
        i += 1;
    }
    proof {
        assert(pairs@.subrange(0, i as int) =~= pairs@);
    }
    r
}

/// Whether some group has channel `c`.
fn has_channel(groups: &Vec<ChannelGroup>, c: u8) -> (r: bool)
    ensures
        r == exists|i: int| 0 <= i < groups@.len() && groups@[i].channel == c,
{
    let mut i: usize = 0;
    while i < groups.len()
        invariant
            i <= groups.len(),
            forall|j: int| 0 <= j < i ==> groups@[j].channel != c,
        decreases groups.len() - i,
    {
        if groups[i].channel == c {
            return true;
        }
        i += 1;
    }
    false
}

/// Some pair on channel `a` comes before every pair on channel `b`.
pub open spec fn occurs_before(pairs: Seq<(Wifi, Suggestion)>, a: u8, b: u8) -> bool {
    exists|k: int|
        0 <= k < pairs.len() && pairs[k].0.channel == a && forall|l: int|
            0 <= l <= k ==> pairs[l].0.channel != b
}

/// Groups pairs by their access point's channel; channels come in the order in
/// which they first occur, and each group keeps its pairs in order.
pub fn group_by_channel(pairs: &Vec<(Wifi, Suggestion)>) -> (r: Vec<ChannelGroup>)
    ensures
        distinct_channels(r@),
        band_map(r@) == group_map(pairs@),
        forall|i: int, j: int|
            0 <= i < j < r@.len() ==> occurs_before(pairs@, #[trigger] r@[i].channel, #[trigger] r@[j].channel),
{
    let mut groups: Vec<ChannelGroup> = Vec::new();
    let mut k: usize = 0;
    while k < pairs.len()
        invariant
            k <= pairs.len(),
            distinct_channels(groups@),
            forall|i: int| 0 <= i < groups@.len() ==>
                #[trigger] groups@[i].entries@ == pairs@.filter(pair_on(groups@[i].channel)),
            forall|i: int| 0 <= i < groups@.len() ==>
                exists|j: int| 0 <= j < k && pairs@[j].0.channel == #[trigger] groups@[i].channel,
            forall|j: int| 0 <= j < k ==>
                exists|i: int| 0 <= i < groups@.len() && groups@[i].channel == #[trigger] pairs@[j].0.channel,
            forall|i: int, j: int|
                0 <= i < j < groups@.len() ==> occurs_before(pairs@, #[trigger] groups@[i].channel, #[trigger] groups@[j].channel),
        decreases pairs.len() - k,
    {
        let c = pairs[k].0.channel;
        if !has_channel(&groups, c) {
            let entries = collect_channel(pairs, c);
            let ghost old_groups = groups@;
            groups.push(ChannelGroup { channel: c, entries });
            proof {
                let n = old_groups.len() as int;
                assert(groups@[n].channel == c);
                assert forall|i: int| 0 <= i < groups@.len() implies
                    exists|j: int| 0 <= j < k + 1 && pairs@[j].0.channel == #[trigger] groups@[i].channel by {
                    if i < n {
                        assert(groups@[i] == old_groups[i]);
                        let j = choose|j: int| 0 <= j < k && pairs@[j].0.channel == old_groups[i].channel;
                    } else {
                        assert(pairs@[k as int].0.channel == groups@[i].channel);
                    }
                }
                assert forall|i: int, i2: int| 0 <= i < i2 < groups@.len() implies occurs_before(
                    pairs@,
                    #[trigger] groups@[i].channel,
                    #[trigger] groups@[i2].channel,
                ) by {
                    assert(groups@[i] == old_groups[i]);
                    if i2 < n {
                        assert(groups@[i2] == old_groups[i2]);
                        assert(occurs_before(pairs@, old_groups[i].channel, old_groups[i2].channel));
                    } else {
                        let j = choose|j: int| 0 <= j < k && pairs@[j].0.channel == old_groups[i].channel;
                        assert forall|l: int| 0 <= l <= j implies pairs@[l].0.channel != c by {
                            let g = choose|g: int| 0 <= g < old_groups.len() && old_groups[g].channel == #[trigger] pairs@[l].0.channel;
                        }
                    }
                }
                assert forall|j: int| 0 <= j < k + 1 implies
                    exists|i: int| 0 <= i < groups@.len() && groups@[i].channel == #[trigger] pairs@[j].0.channel by {
                    if j < k {
                        let i = choose|i: int| 0 <= i < old_groups.len() && old_groups[i].channel == pairs@[j].0.channel;
                        assert(groups@[i] == old_groups[i]);
                    } else {
                        assert(groups@[old_groups.len() as int].channel == pairs@[j].0.channel);
                    }
                }
            }
        }
        k += 1;
    }
    proof {
        let bm = band_map(groups@);
        let gm = group_map(pairs@);
        assert forall|c: u8| bm.contains_key(c) <==> gm.contains_key(c) by {
            if bm.contains_key(c) {
                let i = choose|i: int| 0 <= i < groups@.len() && groups@[i].channel == c;
                assert(exists|j: int| 0 <= j < pairs@.len() && pairs@[j].0.channel == groups@[i].channel);
            }
            if gm.contains_key(c) {
                let j = choose|j: int| 0 <= j < pairs@.len() && pairs@[j].0.channel == c;
                assert(exists|i: int| 0 <= i < groups@.len() && groups@[i].channel == pairs@[j].0.channel);
            }
        }
        assert forall|c: u8| bm.contains_key(c) implies bm[c] == gm[c] by {
            let i = choose|i: int| 0 <= i < groups@.len() && groups@[i].channel == c;
            assert(groups@[i].entries@ == pairs@.filter(pair_on(groups@[i].channel)));
        }
        assert(bm =~= gm);
    }
    groups
}

} // verus!
