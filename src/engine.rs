//! The suggestion engine: turns a list of observed access points into a reading.

use vstd::prelude::*;
use rand::rngs::StdRng;
use crate::random::{sample_slice, sample_weighted, weight_sum};
use crate::reading::{group_by_channel, group_map, pair_on, Reading, ReadingView, Suggestion, Suggestions5G};
use crate::wifi::Wifi;

verus! {

/// Sampling over an empty set of candidates or of weights.
#[derive(Clone, Copy, Debug, PartialEq, Eq, Structural)]
pub enum DistributionError {
    EmptyCandidates,
}

/// One of the three non-overlapping 2.4GHz channels.
pub open spec fn is_anchor(c: u8) -> bool {
    c == 1 || c == 6 || c == 11
}

pub fn is_anchor_channel(c: u8) -> (r: bool)
    ensures
        r == is_anchor(c),
{
    c == 1 || c == 6 || c == 11
}

pub open spec fn in_band24() -> spec_fn(Wifi) -> bool {
    |w: Wifi| w.frequency is Freq2400MHz
}

pub open spec fn in_band5() -> spec_fn(Wifi) -> bool {
    |w: Wifi| !(w.frequency is Freq2400MHz)
}

pub open spec fn wifi_on(c: u8) -> spec_fn(Wifi) -> bool {
    |w: Wifi| w.channel == c
}

/// The 2.4GHz observations, in order.
pub open spec fn band24(obs: Seq<Wifi>) -> Seq<Wifi> {
    obs.filter(in_band24())
}

/// The 5GHz observations, in order.
pub open spec fn band5(obs: Seq<Wifi>) -> Seq<Wifi> {
    obs.filter(in_band5())
}

/// The crowding weight of anchor `c` among the 2.4GHz observations `ws`: how many of
/// them are not on `c`.
pub open spec fn anchor_weight(ws: Seq<Wifi>, c: u8) -> int {
    ws.len() - ws.filter(wifi_on(c)).len()
}

/// A 2.4GHz observation on an anchor keeps its channel; any other takes the drawn one.
pub open spec fn suggest_24(channel: u8, draw: u8) -> Suggestion {
    if is_anchor(channel) {
        Suggestion::Suggestion2g(channel)
    } else {
        Suggestion::Suggestion2g(draw)
    }
}

/// The 2.4GHz observations paired with their suggestions; the `k`-th one uses `draws[k]`.
pub open spec fn pairs_24(ws: Seq<Wifi>, draws: Seq<u8>) -> Seq<(Wifi, Suggestion)> {
    Seq::new(ws.len(), |k: int| (ws[k], suggest_24(ws[k].channel, draws[k])))
}

/// The 5GHz observations paired with their suggestions; the `k`-th one takes `picks[k]`.
pub open spec fn pairs_5(ws: Seq<Wifi>, picks: Seq<Suggestions5G>) -> Seq<(Wifi, Suggestion)> {
    Seq::new(ws.len(), |k: int| (ws[k], Suggestion::Suggestion5g(picks[k])))
}

/// The reading made from the observations with the given draws.
pub open spec fn reading_of(
    timestamp: u128,
    local: Seq<char>,
    obs: Seq<Wifi>,
    draws: Seq<u8>,
    picks: Seq<Suggestions5G>,
) -> ReadingView {
    ReadingView {
        timestamp,
        local,
        wifi_2_4_ghz: group_map(pairs_24(band24(obs), draws)),
        wifi_5_ghz: group_map(pairs_5(band5(obs), picks)),
    }
}

proof fn lemma_pairs_24_push(ws: Seq<Wifi>, w: Wifi, draws: Seq<u8>)
    ensures
        pairs_24(ws.push(w), draws) == pairs_24(ws, draws).push(
            (w, suggest_24(w.channel, draws[ws.len() as int])),
        ),
{
    assert(pairs_24(ws.push(w), draws) =~= pairs_24(ws, draws).push(
        (w, suggest_24(w.channel, draws[ws.len() as int])),
    ));
}

proof fn lemma_pairs_5_push(ws: Seq<Wifi>, w: Wifi, picks: Seq<Suggestions5G>)
    ensures
        pairs_5(ws.push(w), picks) == pairs_5(ws, picks).push(
            (w, Suggestion::Suggestion5g(picks[ws.len() as int])),
        ),
{
    assert(pairs_5(ws.push(w), picks) =~= pairs_5(ws, picks).push(
        (w, Suggestion::Suggestion5g(picks[ws.len() as int])),
    ));
}

/// Candidate channels for each 5GHz width and DFS class.
pub open spec fn ndfs_20_channels() -> Seq<u8> {
    seq![36u8, 40, 44, 48, 149, 153, 157, 161, 165]
}

pub open spec fn dfs_20_channels() -> Seq<u8> {
    seq![
        36u8, 40, 44, 48, 52, 56, 60, 64, 100, 104, 108, 112, 116, 120, 124, 128, 132, 136,
        140, 144, 149, 153, 157, 161, 165,
    ]
}

pub open spec fn ndfs_40_channels() -> Seq<u8> {
    seq![38u8, 46, 151, 159]
}

pub open spec fn dfs_40_channels() -> Seq<u8> {
    seq![38u8, 46, 54, 62, 102, 110, 118, 126, 134, 142, 151, 159]
}

pub open spec fn ndfs_80_channels() -> Seq<u8> {
    seq![42u8, 155]
}

pub open spec fn dfs_80_channels() -> Seq<u8> {
    seq![42u8, 58, 106, 122, 138, 155]
}

/// 160MHz channels are always DFS.
pub open spec fn dfs_160_channels() -> Seq<u8> {
    seq![50u8, 114]
}

/// Every field of the record lies in its class's candidate list.
pub open spec fn in_candidates(s: Suggestions5G) -> bool {
    &&& ndfs_20_channels().contains(s.ndfs_20)
    &&& dfs_20_channels().contains(s.dfs_20)
    &&& ndfs_40_channels().contains(s.ndfs_40)
    &&& dfs_40_channels().contains(s.dfs_40)
    &&& ndfs_80_channels().contains(s.ndfs_80)
    &&& dfs_80_channels().contains(s.dfs_80)
    &&& dfs_160_channels().contains(s.dfs_160)
}

/// Draws for the 2.4GHz observations `ws`: one per observation, and for each one off
/// the anchors, an anchor whose crowding weight is not zero.
pub open spec fn draws_fit(ws: Seq<Wifi>, draws: Seq<u8>) -> bool {
    &&& draws.len() == ws.len()
    &&& forall|k: int|
        0 <= k < ws.len() && !is_anchor(ws[k].channel) ==> is_anchor(#[trigger] draws[k])
            && anchor_weight(ws, draws[k]) > 0
}

/// One 5GHz record per 5GHz observation, each within the candidate lists.
pub open spec fn picks_fit(picks: Seq<Suggestions5G>, n: nat) -> bool {
    &&& picks.len() == n
    &&& forall|k: int| 0 <= k < n ==> in_candidates(#[trigger] picks[k])
}

/// The advice that a 2.4GHz pair may carry: an observation on an anchor keeps its
/// channel; any other is moved to an anchor whose crowding weight among `ws` is not zero.
pub open spec fn advice_24_ok(ws: Seq<Wifi>, p: (Wifi, Suggestion)) -> bool {
    if is_anchor(p.0.channel) {
        p.1 == Suggestion::Suggestion2g(p.0.channel)
    } else {
        &&& p.1 is Suggestion2g
        &&& is_anchor(p.1->Suggestion2g_0)
        &&& anchor_weight(ws, p.1->Suggestion2g_0) > 0
    }
}

/// The advice that a 5GHz pair may carry: a full record within the candidate lists.
pub open spec fn advice_5_ok(p: (Wifi, Suggestion)) -> bool {
    &&& p.1 is Suggestion5g
    &&& in_candidates(p.1->Suggestion5g_0)
}

proof fn lemma_advice(obs: Seq<Wifi>, draws: Seq<u8>, picks: Seq<Suggestions5G>)
    requires
        draws_fit(band24(obs), draws),
        picks_fit(picks, band5(obs).len()),
    ensures
        forall|c: u8, j: int|
            group_map(pairs_24(band24(obs), draws)).contains_key(c) && 0 <= j < group_map(
                pairs_24(band24(obs), draws),
            )[c].len() ==> advice_24_ok(
                band24(obs),
                #[trigger] group_map(pairs_24(band24(obs), draws))[c][j],
            ),
        forall|c: u8, j: int|
            group_map(pairs_5(band5(obs), picks)).contains_key(c) && 0 <= j < group_map(
                pairs_5(band5(obs), picks),
            )[c].len() ==> advice_5_ok(#[trigger] group_map(pairs_5(band5(obs), picks))[c][j]),
{
    let ws = band24(obs);
    let pairs24 = pairs_24(ws, draws);
    assert forall|c: u8, j: int|
        group_map(pairs24).contains_key(c) && 0 <= j < group_map(pairs24)[c].len() implies advice_24_ok(
        ws,
        #[trigger] group_map(pairs24)[c][j],
    ) by {
        let f = pairs24.filter(pair_on(c));
        assert(f.contains(f[j]));
        pairs24.lemma_filter_contains_rev(pair_on(c), f[j]);
        let k = choose|k: int| 0 <= k < pairs24.len() && pairs24[k] == f[j];
        assert(pairs24[k] == (ws[k], suggest_24(ws[k].channel, draws[k])));
    }
    let v5 = band5(obs);
    let pairs5 = pairs_5(v5, picks);
    assert forall|c: u8, j: int|
        group_map(pairs5).contains_key(c) && 0 <= j < group_map(pairs5)[c].len() implies advice_5_ok(
        #[trigger] group_map(pairs5)[c][j],
    ) by {
        let f = pairs5.filter(pair_on(c));
        assert(f.contains(f[j]));
        pairs5.lemma_filter_contains_rev(pair_on(c), f[j]);
        let k = choose|k: int| 0 <= k < pairs5.len() && pairs5[k] == f[j];
        assert(pairs5[k] == (v5[k], Suggestion::Suggestion5g(picks[k])));
    }
}

proof fn lemma_filter_len_lt<A>(s: Seq<A>, p: spec_fn(A) -> bool, k: int)
    requires
        0 <= k < s.len(),
        !p(s[k]),
    ensures
        s.filter(p).len() < s.len(),
    decreases s.len(),
{
    reveal(Seq::filter);
    if k == s.len() - 1 {
        s.drop_last().lemma_filter_len(p);
    } else {
        lemma_filter_len_lt(s.drop_last(), p, k);
    }
}

/// How many observations are on 2.4GHz, how many of those are on channels 1, 6 and
/// 11, and how many are on 5GHz.
fn band_counts(observations: &Vec<Wifi>) -> (r: (usize, usize, usize, usize, usize))
    ensures
        r.0 == band24(observations@).len(),
        r.1 == band24(observations@).filter(wifi_on(1)).len(),
        r.2 == band24(observations@).filter(wifi_on(6)).len(),
        r.3 == band24(observations@).filter(wifi_on(11)).len(),
        r.4 == band5(observations@).len(),
        r.0 + r.4 == observations@.len(),
{
    let ghost obs = observations@;
    let mut n24: usize = 0;
    let mut n1: usize = 0;
    let mut n6: usize = 0;
    let mut n11: usize = 0;
    let mut n5: usize = 0;
    let mut i: usize = 0;
    proof {
        reveal(Seq::filter);
        assert(obs.take(0) =~= Seq::<Wifi>::empty());
    }
    while i < observations.len()
        invariant
            i <= observations.len(),
            obs == observations@,
            n24 == obs.take(i as int).filter(in_band24()).len(),
            n1 == obs.take(i as int).filter(in_band24()).filter(wifi_on(1)).len(),
            n6 == obs.take(i as int).filter(in_band24()).filter(wifi_on(6)).len(),
            n11 == obs.take(i as int).filter(in_band24()).filter(wifi_on(11)).len(),
            n5 == obs.take(i as int).filter(in_band5()).len(),
            n24 + n5 == i,
            n1 <= n24 && n6 <= n24 && n11 <= n24,
        decreases observations.len() - i,
    {
        let w = &observations[i];
        let ghost pre = obs.take(i as int);
        let ghost pre24 = pre.filter(in_band24());
        proof {
            assert(obs.take(i + 1) =~= pre.push(*w));
            pre.lemma_filter_push(*w, in_band24());
            pre.lemma_filter_push(*w, in_band5());
            pre24.lemma_filter_push(*w, wifi_on(1));
            pre24.lemma_filter_push(*w, wifi_on(6));
            pre24.lemma_filter_push(*w, wifi_on(11));
        }
        if w.is_2_4g() {
            n24 += 1;
            if w.channel == 1 {
                n1 += 1;
            } else if w.channel == 6 {
                n6 += 1;
            } else if w.channel == 11 {
                n11 += 1;
            }
        } else {
            n5 += 1;
        }
        i += 1;
    }
    proof {
        assert(obs.take(i as int) =~= obs);
    }
    (n24, n1, n6, n11, n5)
}

/// The crowding weights of the anchors 1, 6 and 11, in that order: for each, how many
/// of the 2.4GHz observations are not on it. An observation off the anchors is moved
/// to an anchor drawn in proportion to these weights.
pub fn crowding_weights(observations: &Vec<Wifi>) -> (r: Vec<usize>)
    ensures
        r@.len() == 3,
        r@[0] == anchor_weight(band24(observations@), 1),
        r@[1] == anchor_weight(band24(observations@), 6),
        r@[2] == anchor_weight(band24(observations@), 11),
{
    let ghost ws = band24(observations@);
    let (n24, n1, n6, n11, _) = band_counts(observations);
    proof {
        ws.lemma_filter_len(wifi_on(1));
        ws.lemma_filter_len(wifi_on(6));
        ws.lemma_filter_len(wifi_on(11));
    }
    let mut weights: Vec<usize> = Vec::new();
    weights.push(n24 - n1);
    weights.push(n24 - n6);
    weights.push(n24 - n11);
    weights
}

/// The anchor channel at position `idx` of 1, 6, 11.
fn anchor_at(idx: usize) -> (r: u8)
    requires
        idx < 3,
    ensures
        r == (if idx == 0 {
            1u8
        } else if idx == 1 {
            6u8
        } else {
            11u8
        }),
{
    if idx == 0 {
        1
    } else if idx == 1 {
        6
    } else {
        11
    }
}

/// The access points of a list of pairs, in order.
pub open spec fn wifis_of(pairs: Seq<(Wifi, Suggestion)>) -> Seq<Wifi> {
    pairs.map_values(|p: (Wifi, Suggestion)| p.0)
}

proof fn lemma_wifis_filter(pairs: Seq<(Wifi, Suggestion)>, c: u8)
    ensures
        wifis_of(pairs.filter(pair_on(c))) == wifis_of(pairs).filter(wifi_on(c)),
    decreases pairs.len(),
{
    reveal(Seq::filter);
    if pairs.len() > 0 {
        let t = pairs.drop_last();
        lemma_wifis_filter(t, c);
        assert(wifis_of(pairs).drop_last() =~= wifis_of(t));
        if pair_on(c)(pairs.last()) {
            assert(wifis_of(t.filter(pair_on(c)).push(pairs.last())) =~= wifis_of(
                t.filter(pair_on(c)),
            ).push(pairs.last().0));
        }
    } else {
        assert(wifis_of(pairs.filter(pair_on(c))) =~= wifis_of(pairs).filter(wifi_on(c)));
    }
}

/// Grouping places each access point under its own channel: the channels of the map
/// are those of the access points, and under each channel stand exactly the access
/// points on it, in order.
pub proof fn lemma_group_placement(pairs: Seq<(Wifi, Suggestion)>, c: u8)
    ensures
        group_map(pairs).contains_key(c) <==> wifis_of(pairs).filter(wifi_on(c)).len() > 0,
        group_map(pairs).contains_key(c) ==> wifis_of(group_map(pairs)[c]) == wifis_of(pairs).filter(
            wifi_on(c),
        ),
{
    lemma_wifis_filter(pairs, c);
    let f = pairs.filter(pair_on(c));
    if group_map(pairs).contains_key(c) {
        let k = choose|k: int| 0 <= k < pairs.len() && pairs[k].0.channel == c;
        pairs.lemma_filter_contains(pair_on(c), k);
    }
    if f.len() > 0 {
        assert(f.contains(f[0]));
        pairs.lemma_filter_contains_rev(pair_on(c), f[0]);
        pairs.lemma_filter_pred(pair_on(c), 0);
    }
}

proof fn lemma_wifis_pairs(ws: Seq<Wifi>, draws: Seq<u8>, picks: Seq<Suggestions5G>)
    ensures
        wifis_of(pairs_24(ws, draws)) == ws,
        wifis_of(pairs_5(ws, picks)) == ws,
{
    assert(wifis_of(pairs_24(ws, draws)) =~= ws);
    assert(wifis_of(pairs_5(ws, picks)) =~= ws);
}

/// `count` independent draws, uniform over `values`; fails when `values` is empty.
pub fn get_distr_vec(values: &[u8], count: usize, rng: &mut StdRng) -> (r: Result<
    Vec<u8>,
    DistributionError,
>)
    ensures
        r is Err <==> values@.len() == 0,
        r is Ok ==> r->Ok_0@.len() == count,
        r is Ok ==> forall|k: int|
            0 <= k < count ==> values@.contains(#[trigger] r->Ok_0@[k]),
{
    if values.len() == 0 {
        return Err(DistributionError::EmptyCandidates);
    }
    let mut out: Vec<u8> = Vec::new();
    let mut i: usize = 0;
    while i < count
        invariant
            i <= count,
            values@.len() > 0,
            out@.len() == i,
            forall|k: int| 0 <= k < i ==> values@.contains(#[trigger] out@[k]),
        decreases count - i,
    {
        match sample_slice(values, rng) {
            Some(v) => out.push(v),
            None => return Err(DistributionError::EmptyCandidates),
        }
        i += 1;
    }
    Ok(out)
}

/// `count` draws from one candidate list, which is never empty.
fn draw_class(values: &Vec<u8>, count: usize, rng: &mut StdRng) -> (r: Vec<u8>)
    requires
        values@.len() > 0,
    ensures
        r@.len() == count,
        forall|k: int| 0 <= k < count ==> values@.contains(#[trigger] r@[k]),
{
    match get_distr_vec(values.as_slice(), count, rng) {
        Ok(v) => v,
        Err(_) => {
            proof {
                assert(false);
            }
            Vec::new()
        },
    }
}

/// `count` 5GHz records, each field drawn uniformly from its class's candidates.
fn draw_5g(count: usize, rng: &mut StdRng) -> (r: Vec<Suggestions5G>)
    ensures
        picks_fit(r@, count as nat),
{
    let ndfs_20: Vec<u8> = vec![36u8, 40, 44, 48, 149, 153, 157, 161, 165];
    let dfs_20: Vec<u8> = vec![
        36u8, 40, 44, 48, 52, 56, 60, 64, 100, 104, 108, 112, 116, 120, 124, 128, 132, 136,
        140, 144, 149, 153, 157, 161, 165,
    ];
    let ndfs_40: Vec<u8> = vec![38u8, 46, 151, 159];
    let dfs_40: Vec<u8> = vec![38u8, 46, 54, 62, 102, 110, 118, 126, 134, 142, 151, 159];
    let ndfs_80: Vec<u8> = vec![42u8, 155];
    let dfs_80: Vec<u8> = vec![42u8, 58, 106, 122, 138, 155];
    let dfs_160: Vec<u8> = vec![50u8, 114];
    proof {
        assert(ndfs_20@ =~= ndfs_20_channels());
        assert(dfs_20@ =~= dfs_20_channels());
        assert(ndfs_40@ =~= ndfs_40_channels());
        assert(dfs_40@ =~= dfs_40_channels());
        assert(ndfs_80@ =~= ndfs_80_channels());
        assert(dfs_80@ =~= dfs_80_channels());
        assert(dfs_160@ =~= dfs_160_channels());
    }
    let a = draw_class(&ndfs_20, count, rng);
    let b = draw_class(&dfs_20, count, rng);
    let c = draw_class(&ndfs_40, count, rng);
    let d = draw_class(&dfs_40, count, rng);
    let e = draw_class(&ndfs_80, count, rng);
    let f = draw_class(&dfs_80, count, rng);
    let g = draw_class(&dfs_160, count, rng);
    let mut out: Vec<Suggestions5G> = Vec::new();
    let mut k: usize = 0;
    while k < count
        invariant
            k <= count,
            a@.len() == count && b@.len() == count && c@.len() == count && d@.len() == count,
            e@.len() == count && f@.len() == count && g@.len() == count,
            forall|j: int| 0 <= j < count ==> ndfs_20_channels().contains(#[trigger] a@[j]),
            forall|j: int| 0 <= j < count ==> dfs_20_channels().contains(#[trigger] b@[j]),
            forall|j: int| 0 <= j < count ==> ndfs_40_channels().contains(#[trigger] c@[j]),
            forall|j: int| 0 <= j < count ==> dfs_40_channels().contains(#[trigger] d@[j]),
            forall|j: int| 0 <= j < count ==> ndfs_80_channels().contains(#[trigger] e@[j]),
            forall|j: int| 0 <= j < count ==> dfs_80_channels().contains(#[trigger] f@[j]),
            forall|j: int| 0 <= j < count ==> dfs_160_channels().contains(#[trigger] g@[j]),
            out@.len() == k,
            forall|j: int| 0 <= j < k ==> in_candidates(#[trigger] out@[j]),
        decreases count - k,
    {
        let s = Suggestions5G {
            ndfs_20: a[k],
            dfs_20: b[k],
            ndfs_40: c[k],
            dfs_40: d[k],
            ndfs_80: e[k],
            dfs_80: f[k],
            dfs_160: g[k],
        };
        out.push(s);
        k += 1;
    }
    out
}

impl Reading {
    /// Builds the reading for the observations, drawing from `rng`.
    ///
    /// A 2.4GHz observation on channel 1, 6 or 11 keeps its channel. Each other one is
    /// moved to an anchor drawn with probability proportional to the anchor's crowding
    /// weight: the number of 2.4GHz observations not on it. With no 2.4GHz observation
    /// nothing is drawn for that band. Each 5GHz observation gets a full record, each
    /// field drawn uniformly from its class's candidates.
    pub fn new(timestamp: u128, local: String, observations: &Vec<Wifi>, rng: &mut StdRng) -> (r:
        Reading)
        requires
            observations@.len() <= usize::MAX / 3,
        ensures
            r.wf(),
            r@.timestamp == timestamp,
            r@.local == local@,
            exists|d: Seq<u8>, p: Seq<Suggestions5G>|
                #![trigger reading_of(timestamp, local@, observations@, d, p)]
                draws_fit(band24(observations@), d) && picks_fit(p, band5(observations@).len())
                    && r@ == reading_of(timestamp, local@, observations@, d, p),
            forall|c: u8, j: int|
                r@.wifi_2_4_ghz.contains_key(c) && 0 <= j < r@.wifi_2_4_ghz[c].len()
                    ==> advice_24_ok(band24(observations@), #[trigger] r@.wifi_2_4_ghz[c][j]),
            forall|c: u8, j: int|
                r@.wifi_5_ghz.contains_key(c) && 0 <= j < r@.wifi_5_ghz[c].len() ==> advice_5_ok(
                    #[trigger] r@.wifi_5_ghz[c][j],
                ),
            forall|c: u8|
                #[trigger] r@.wifi_2_4_ghz.contains_key(c) <==> band24(observations@).filter(
                    wifi_on(c),
                ).len() > 0,
            forall|c: u8|
                #[trigger] r@.wifi_2_4_ghz.contains_key(c) ==> wifis_of(r@.wifi_2_4_ghz[c]) == band24(
                    observations@,
                ).filter(wifi_on(c)),
            forall|c: u8|
                #[trigger] r@.wifi_5_ghz.contains_key(c) <==> band5(observations@).filter(
                    wifi_on(c),
                ).len() > 0,
            forall|c: u8|
                #[trigger] r@.wifi_5_ghz.contains_key(c) ==> wifis_of(r@.wifi_5_ghz[c]) == band5(
                    observations@,
                ).filter(wifi_on(c)),
    {
        let ghost obs = observations@;
        let ghost ws = band24(obs);
        let (n24, _, _, _, n5) = band_counts(observations);
        proof {
            ws.lemma_filter_len(wifi_on(1));
            ws.lemma_filter_len(wifi_on(6));
            ws.lemma_filter_len(wifi_on(11));
        }
        let weights = crowding_weights(observations);
        proof {
            assert(weights@ =~= seq![
                anchor_weight(ws, 1) as usize,
                anchor_weight(ws, 6) as usize,
                anchor_weight(ws, 11) as usize,
            ]);
            reveal_with_fuel(weight_sum, 4);
            assert(weights@.drop_last().drop_last().drop_last() =~= Seq::<usize>::empty());
        }
        let mut draws: Vec<u8> = Vec::new();
        let mut i: usize = 0;
        proof {
            reveal(Seq::filter);
            assert(obs.take(0) =~= Seq::<Wifi>::empty());
        }
        while i < observations.len()
            invariant
                i <= observations.len(),
                obs == observations@,
                ws == band24(obs),
                n24 == ws.len(),
                n24 <= obs.len() <= usize::MAX / 3,
                weights@ == seq![
                    anchor_weight(ws, 1) as usize,
                    anchor_weight(ws, 6) as usize,
                    anchor_weight(ws, 11) as usize,
                ],
                weights@[0] <= n24 && weights@[1] <= n24 && weights@[2] <= n24,
                weight_sum(weights@) == weights@[0] + weights@[1] + weights@[2],
                draws@.len() == obs.take(i as int).filter(in_band24()).len(),
                forall|k: int|
                    0 <= k < draws@.len() && !is_anchor(
                        #[trigger] obs.take(i as int).filter(in_band24())[k].channel,
                    ) ==> is_anchor(draws@[k]) && anchor_weight(ws, draws@[k]) > 0,
            decreases observations.len() - i,
        {
            let w = &observations[i];
            let ghost pre = obs.take(i as int);
            proof {
                assert(obs.take(i + 1) =~= pre.push(*w));
                pre.lemma_filter_push(*w, in_band24());
                assert(forall|k: int| 0 <= k < draws@.len() ==>
                    #[trigger] obs.take(i + 1).filter(in_band24())[k] == pre.filter(in_band24())[k]);
            }
            if w.is_2_4g() {
                if is_anchor_channel(w.channel) {
                    draws.push(w.channel);
                } else {
                    proof {
                        obs.lemma_filter_contains(in_band24(), i as int);
                        let k = choose|k: int| 0 <= k < ws.len() && ws[k] == obs[i as int];
                        lemma_filter_len_lt(ws, wifi_on(1), k);
                    }
                    match sample_weighted(weights.as_slice(), rng) {
                        Ok(idx) => {
                            draws.push(anchor_at(idx));
                        },
                        Err(_) => {
                            proof {
                                assert(false);
                            }
                        },
                    }
                }
            }
            i += 1;
        }
        proof {
            assert(obs.take(i as int) =~= obs);
        }
        let picks = draw_5g(n5, rng);
        let r = Reading::from_draws(timestamp, local, observations, &draws, &picks);
        proof {
            lemma_advice(obs, draws@, picks@);
            assert(reading_of(timestamp, local@, obs, draws@, picks@) == r@);
            lemma_wifis_pairs(band24(obs), draws@, picks@);
            lemma_wifis_pairs(band5(obs), draws@, picks@);
            assert forall|c: u8| #![trigger r@.wifi_2_4_ghz.contains_key(c)] (
            r@.wifi_2_4_ghz.contains_key(c) <==> band24(obs).filter(wifi_on(c)).len() > 0) && (
            r@.wifi_2_4_ghz.contains_key(c) ==> wifis_of(r@.wifi_2_4_ghz[c]) == band24(obs).filter(
                wifi_on(c),
            )) by {
                lemma_group_placement(pairs_24(band24(obs), draws@), c);
            }
            assert forall|c: u8| #![trigger r@.wifi_5_ghz.contains_key(c)] (
            r@.wifi_5_ghz.contains_key(c) <==> band5(obs).filter(wifi_on(c)).len() > 0) && (
            r@.wifi_5_ghz.contains_key(c) ==> wifis_of(r@.wifi_5_ghz[c]) == band5(obs).filter(
                wifi_on(c),
            )) by {
                lemma_group_placement(pairs_5(band5(obs), picks@), c);
            }
        }
        r
    }

    /// Builds the reading from the observations and the draws already made: the
    /// `k`-th 2.4GHz observation, when it is not on an anchor, is moved to
    /// `draws_24[k]`, and the `k`-th 5GHz observation gets `picks_5[k]`.
    pub fn from_draws(
        timestamp: u128,
        local: String,
        observations: &Vec<Wifi>,
        draws_24: &Vec<u8>,
        picks_5: &Vec<Suggestions5G>,
    ) -> (r: Reading)
        requires
            draws_24@.len() >= band24(observations@).len(),
            picks_5@.len() >= band5(observations@).len(),
        ensures
            r.wf(),
            r@ == reading_of(timestamp, local@, observations@, draws_24@, picks_5@),
    {
        let ghost obs = observations@;
        let mut pairs24: Vec<(Wifi, Suggestion)> = Vec::new();
        let mut pairs5: Vec<(Wifi, Suggestion)> = Vec::new();
        let mut i: usize = 0;
        proof {
            reveal(Seq::filter);
            assert(obs.take(0) =~= Seq::<Wifi>::empty());
            obs.lemma_filter_take_len(in_band24(), 0);
            obs.lemma_filter_take_len(in_band5(), 0);
        }
        while i < observations.len()
            invariant
                i <= observations.len(),
                obs == observations@,
                draws_24@.len() >= band24(obs).len(),
                picks_5@.len() >= band5(obs).len(),
                pairs24@ == pairs_24(obs.take(i as int).filter(in_band24()), draws_24@),
                pairs5@ == pairs_5(obs.take(i as int).filter(in_band5()), picks_5@),
            decreases observations.len() - i,
        {
            let w = &observations[i];
            proof {
                assert(obs.take(i + 1) =~= obs.take(i as int).push(*w));
                obs.take(i as int).lemma_filter_push(*w, in_band24());
                obs.take(i as int).lemma_filter_push(*w, in_band5());
                obs.lemma_filter_take_len(in_band24(), i + 1);
                obs.lemma_filter_take_len(in_band5(), i + 1);
            }
            if w.is_2_4g() {
                let k = pairs24.len();
                let s = if is_anchor_channel(w.channel) {
                    Suggestion::Suggestion2g(w.channel)
                } else {
                    Suggestion::Suggestion2g(draws_24[k])
                };
                proof {
                    lemma_pairs_24_push(obs.take(i as int).filter(in_band24()), *w, draws_24@);
                }
                pairs24.push((w.clone(), s));
            } else {
                let k = pairs5.len();
                proof {
                    lemma_pairs_5_push(obs.take(i as int).filter(in_band5()), *w, picks_5@);
                }
                pairs5.push((w.clone(), Suggestion::Suggestion5g(picks_5[k])));
            }
            i += 1;
        }
        proof {
            assert(obs.take(i as int) =~= obs);
        }
        let wifi_2_4_ghz = group_by_channel(&pairs24);
        let wifi_5_ghz = group_by_channel(&pairs5);
        let r = Reading { timestamp, local, wifi_2_4_ghz, wifi_5_ghz };
        proof {
            assert(r@ =~= reading_of(timestamp, local@, obs, draws_24@, picks_5@));
        }
        r
    }
}

} // verus!
