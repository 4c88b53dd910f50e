//! The cache of the latest suggestion per device, keyed by MAC address.

use vstd::prelude::*;
use crate::reading::{flat, reading_pairs, ChannelGroup, Reading, Suggestion};
use crate::wifi::Wifi;

verus! {

/// What the cache keeps for one device.
pub struct CacheEntry {
    pub ssid: String,
    /// The stored reading that the suggestion came from.
    pub file: String,
    pub suggestion: Suggestion,
}

pub struct EntryView {
    pub ssid: Seq<char>,
    pub file: Seq<char>,
    pub suggestion: Suggestion,
}

impl View for CacheEntry {
    type V = EntryView;

    open spec fn view(&self) -> EntryView {
        EntryView { ssid: self.ssid@, file: self.file@, suggestion: self.suggestion }
    }
}

impl Clone for CacheEntry {
    fn clone(&self) -> (r: Self)
        ensures
            r == *self,
    {
        CacheEntry { ssid: self.ssid.clone(), file: self.file.clone(), suggestion: self.suggestion }
    }
}

/// The map that a list of (MAC, entry) pairs stands for; a later pair wins over an
/// earlier one with the same MAC.
pub open spec fn entries_map(s: Seq<(String, CacheEntry)>) -> Map<Seq<char>, EntryView>
    decreases s.len(),
{
    if s.len() == 0 {
        Map::empty()
    } else {
        entries_map(s.drop_last()).insert(s.last().0@, s.last().1@)
    }
}

/// No two pairs share a MAC.
pub open spec fn distinct_keys(s: Seq<(String, CacheEntry)>) -> bool {
    forall|i: int, j: int| 0 <= i < s.len() && 0 <= j < s.len() && i != j ==> s[i].0@ != s[j].0@
}

/// The suggestion stored for `mac`, if the stored SSID is `ssid`.
pub open spec fn lookup(m: Map<Seq<char>, EntryView>, ssid: Seq<char>, mac: Seq<char>) -> Option<
    Suggestion,
> {
    if m.contains_key(mac) && m[mac].ssid == ssid {
        Some(m[mac].suggestion)
    } else {
        None
    }
}

/// The map after recording each pair in turn under its access point's MAC.
pub open spec fn ingest_pairs(
    m: Map<Seq<char>, EntryView>,
    pairs: Seq<(Wifi, Suggestion)>,
    file: Seq<char>,
) -> Map<Seq<char>, EntryView>
    decreases pairs.len(),
{
    if pairs.len() == 0 {
        m
    } else {
        ingest_pairs(m, pairs.drop_last(), file).insert(
            pairs.last().0.mac@,
            EntryView { ssid: pairs.last().0.ssid@, file, suggestion: pairs.last().1 },
        )
    }
}

proof fn lemma_ingest_push(
    m: Map<Seq<char>, EntryView>,
    pairs: Seq<(Wifi, Suggestion)>,
    p: (Wifi, Suggestion),
    file: Seq<char>,
)
    ensures
        ingest_pairs(m, pairs.push(p), file) == ingest_pairs(m, pairs, file).insert(
            p.0.mac@,
            EntryView { ssid: p.0.ssid@, file, suggestion: p.1 },
        ),
{
    assert(pairs.push(p).drop_last() =~= pairs);
}

proof fn lemma_ingest_append(
    m: Map<Seq<char>, EntryView>,
    a: Seq<(Wifi, Suggestion)>,
    b: Seq<(Wifi, Suggestion)>,
    file: Seq<char>,
)
    ensures
        ingest_pairs(m, a + b, file) == ingest_pairs(ingest_pairs(m, a, file), b, file),
    decreases b.len(),
{
    if b.len() == 0 {
        assert(a + b =~= a);
    } else {
        assert((a + b).drop_last() =~= a + b.drop_last());
        lemma_ingest_append(m, a, b.drop_last(), file);
    }
}

/// Replacing the last pair with MAC `k` changes the map at `k` alone.
proof fn lemma_entries_update(s: Seq<(String, CacheEntry)>, i: int, p: (String, CacheEntry))
    requires
        0 <= i < s.len(),
        s[i].0@ == p.0@,
        forall|j: int| i < j < s.len() ==> s[j].0@ != p.0@,
    ensures
        entries_map(s.update(i, p)) == entries_map(s).insert(p.0@, p.1@),
    decreases s.len(),
{
    if i == s.len() - 1 {
        assert(s.update(i, p).drop_last() =~= s.drop_last());
        assert(entries_map(s.update(i, p)) =~= entries_map(s).insert(p.0@, p.1@));
    } else {
        assert(s.update(i, p).drop_last() =~= s.drop_last().update(i, p));
        lemma_entries_update(s.drop_last(), i, p);
        assert(entries_map(s.update(i, p)) =~= entries_map(s).insert(p.0@, p.1@));
    }
}

/// The map holds no MAC that no pair has.
proof fn lemma_entries_absent(s: Seq<(String, CacheEntry)>, k: Seq<char>)
    requires
        forall|j: int| 0 <= j < s.len() ==> s[j].0@ != k,
    ensures
        !entries_map(s).contains_key(k),
    decreases s.len(),
{
    if s.len() > 0 {
        lemma_entries_absent(s.drop_last(), k);
    }
}

/// The map gives a MAC the value of the last pair with it.
proof fn lemma_entries_last(s: Seq<(String, CacheEntry)>, j: int)
    requires
        0 <= j < s.len(),
        forall|l: int| j < l < s.len() ==> s[l].0@ != s[j].0@,
    ensures
        entries_map(s).contains_key(s[j].0@),
        entries_map(s)[s[j].0@] == s[j].1@,
    decreases s.len(),
{
    if j < s.len() - 1 {
        lemma_entries_last(s.drop_last(), j);
    }
}

/// A MAC that some pair has is in the map.
proof fn lemma_entries_has(s: Seq<(String, CacheEntry)>, j: int)
    requires
        0 <= j < s.len(),
    ensures
        entries_map(s).contains_key(s[j].0@),
    decreases s.len(),
{
    if j < s.len() - 1 {
        lemma_entries_has(s.drop_last(), j);
    }
}

/// What the map holds at a MAC is the entry of some pair with that MAC.
proof fn lemma_entries_value(s: Seq<(String, CacheEntry)>, k: Seq<char>)
    requires
        entries_map(s).contains_key(k),
    ensures
        exists|l: int| 0 <= l < s.len() && s[l].0@ == k && entries_map(s)[k] == s[l].1@,
    decreases s.len(),
{
    if s.last().0@ != k {
        lemma_entries_value(s.drop_last(), k);
        let l = choose|l: int|
            0 <= l < s.drop_last().len() && s.drop_last()[l].0@ == k && entries_map(s.drop_last())[k]
                == s.drop_last()[l].1@;
        assert(s[l] == s.drop_last()[l]);
    } else {
        assert(s[s.len() - 1] == s.last());
    }
}

/// The views of a list of (MAC, entry) pairs.
pub open spec fn pair_views(s: Seq<(String, CacheEntry)>) -> Seq<(Seq<char>, EntryView)> {
    s.map_values(|p: (String, CacheEntry)| (p.0@, p.1@))
}

proof fn lemma_ingest_key(
    m: Map<Seq<char>, EntryView>,
    pairs: Seq<(Wifi, Suggestion)>,
    file: Seq<char>,
    k: int,
)
    requires
        0 <= k < pairs.len(),
        forall|l: int|
            0 <= l < pairs.len() && #[trigger] pairs[l].0.mac@ == pairs[k].0.mac@ ==> pairs[l].0.ssid@
                == pairs[k].0.ssid@ && pairs[l].1 == pairs[k].1,
    ensures
        ingest_pairs(m, pairs, file).contains_key(pairs[k].0.mac@),
        ingest_pairs(m, pairs, file)[pairs[k].0.mac@].ssid == pairs[k].0.ssid@,
        ingest_pairs(m, pairs, file)[pairs[k].0.mac@].suggestion == pairs[k].1,
    decreases pairs.len(),
{
    let n = pairs.len() - 1;
    if pairs[n].0.mac@ != pairs[k].0.mac@ {
        let t = pairs.drop_last();
        assert forall|l: int|
            0 <= l < t.len() && #[trigger] t[l].0.mac@ == t[k].0.mac@ implies t[l].0.ssid@
                == t[k].0.ssid@ && t[l].1 == t[k].1 by {
            assert(t[l] == pairs[l]);
        }
        lemma_ingest_key(m, t, file, k);
    }
}

/// Ingesting a reading and then looking up one of its pairs by that pair's SSID and
/// MAC gives the pair's suggestion, and looking up the MAC under any other SSID gives
/// nothing; this holds whatever the cache held before, provided the reading gives
/// that MAC one SSID and one suggestion.
pub proof fn lemma_ingest_then_lookup(
    m: Map<Seq<char>, EntryView>,
    reading: Reading,
    file: Seq<char>,
    k: int,
    other_ssid: Seq<char>,
)
    requires
        0 <= k < reading_pairs(reading).len(),
        forall|l: int|
            0 <= l < reading_pairs(reading).len() && #[trigger] reading_pairs(reading)[l].0.mac@
                == reading_pairs(reading)[k].0.mac@ ==> reading_pairs(reading)[l].0.ssid@
                == reading_pairs(reading)[k].0.ssid@ && reading_pairs(reading)[l].1
                == reading_pairs(reading)[k].1,
        other_ssid != reading_pairs(reading)[k].0.ssid@,
    ensures
        lookup(
            ingest_pairs(m, reading_pairs(reading), file),
            reading_pairs(reading)[k].0.ssid@,
            reading_pairs(reading)[k].0.mac@,
        ) == Some(reading_pairs(reading)[k].1),
        lookup(
            ingest_pairs(m, reading_pairs(reading), file),
            other_ssid,
            reading_pairs(reading)[k].0.mac@,
        ) is None,
{
    lemma_ingest_key(m, reading_pairs(reading), file, k);
}

/// Ingesting one reading and then another leaves, for a pair of the second reading,
/// that pair's suggestion under its SSID and MAC, whatever the first reading held
/// for the MAC; provided the second reading gives that MAC one SSID and one suggestion.
pub proof fn lemma_overwrite(
    m: Map<Seq<char>, EntryView>,
    first: Reading,
    first_file: Seq<char>,
    second: Reading,
    second_file: Seq<char>,
    k: int,
)
    requires
        0 <= k < reading_pairs(second).len(),
        forall|l: int|
            0 <= l < reading_pairs(second).len() && #[trigger] reading_pairs(second)[l].0.mac@
                == reading_pairs(second)[k].0.mac@ ==> reading_pairs(second)[l].0.ssid@
                == reading_pairs(second)[k].0.ssid@ && reading_pairs(second)[l].1
                == reading_pairs(second)[k].1,
    ensures
        lookup(
            ingest_pairs(
                ingest_pairs(m, reading_pairs(first), first_file),
                reading_pairs(second),
                second_file,
            ),
            reading_pairs(second)[k].0.ssid@,
            reading_pairs(second)[k].0.mac@,
        ) == Some(reading_pairs(second)[k].1),
{
    lemma_ingest_key(
        ingest_pairs(m, reading_pairs(first), first_file),
        reading_pairs(second),
        second_file,
        k,
    );
}

/// Saving a cache and loading it back gives the same map: the saved pairs hold each
/// MAC once and stand for the cache's map, and pairs loaded with the same views, in
/// any order, stand for that map too.
pub proof fn lemma_save_load(
    c: Map<Seq<char>, EntryView>,
    saved: Seq<(String, CacheEntry)>,
    loaded: Seq<(String, CacheEntry)>,
)
    requires
        distinct_keys(saved),
        entries_map(saved) == c,
        forall|x: (Seq<char>, EntryView)|
            pair_views(saved).contains(x) <==> pair_views(loaded).contains(x),
    ensures
        entries_map(loaded) == c,
{
    let a = entries_map(saved);
    let b = entries_map(loaded);
    assert forall|k: Seq<char>| #[trigger] a.dom().contains(k) == b.dom().contains(k) by {
        if a.contains_key(k) {
            lemma_saved_key(saved, loaded, k);
        }
        if b.contains_key(k) {
            lemma_entries_value(loaded, k);
            let l = choose|l: int| 0 <= l < loaded.len() && loaded[l].0@ == k && b[k] == loaded[l].1@;
            assert(pair_views(loaded)[l] == (k, loaded[l].1@));
            assert(pair_views(loaded).contains((k, loaded[l].1@)));
            let j = choose|j: int| 0 <= j < saved.len() && pair_views(saved)[j] == (k, loaded[l].1@);
            lemma_entries_has(saved, j);
        }
    }
    assert(a.dom() =~= b.dom());
    assert forall|k: Seq<char>| #[trigger] a.dom().contains(k) implies a[k] == b[k] by {
        lemma_saved_key(saved, loaded, k);
    }
    assert(a =~= b);
}

proof fn lemma_saved_key(
    saved: Seq<(String, CacheEntry)>,
    loaded: Seq<(String, CacheEntry)>,
    k: Seq<char>,
)
    requires
        distinct_keys(saved),
        forall|x: (Seq<char>, EntryView)|
            pair_views(saved).contains(x) <==> pair_views(loaded).contains(x),
        entries_map(saved).contains_key(k),
    ensures
        entries_map(loaded).contains_key(k),
        entries_map(loaded)[k] == entries_map(saved)[k],
{
    let a = entries_map(saved);
    let b = entries_map(loaded);
    lemma_entries_value(saved, k);
    let j = choose|j: int| 0 <= j < saved.len() && saved[j].0@ == k && a[k] == saved[j].1@;
    assert(pair_views(saved)[j] == (k, saved[j].1@));
    assert(pair_views(saved).contains((k, saved[j].1@)));
    let l = choose|l: int| 0 <= l < loaded.len() && pair_views(loaded)[l] == (k, saved[j].1@);
    lemma_entries_has(loaded, l);
    lemma_entries_value(loaded, k);
    let l2 = choose|l2: int| 0 <= l2 < loaded.len() && loaded[l2].0@ == k && b[k] == loaded[l2].1@;
    assert(pair_views(loaded)[l2] == (k, loaded[l2].1@));
    assert(pair_views(loaded).contains((k, loaded[l2].1@)));
    let j2 = choose|j2: int| 0 <= j2 < saved.len() && pair_views(saved)[j2] == (k, loaded[l2].1@);
    assert(j2 == j);
}

/// The latest suggestion per device, keyed by MAC address.
pub struct Cache {
    entries: Vec<(String, CacheEntry)>,
}

impl View for Cache {
    type V = Map<Seq<char>, EntryView>;

    closed spec fn view(&self) -> Map<Seq<char>, EntryView> {
        entries_map(self.entries@)
    }
}

impl Cache {
    /// No MAC is stored twice.
    #[verifier::type_invariant]
    closed spec fn wf(&self) -> bool {
        distinct_keys(self.entries@)
    }

    /// An empty cache.
    pub fn new() -> (r: Cache)
        ensures
            r@ == Map::<Seq<char>, EntryView>::empty(),
    {
        Cache { entries: Vec::new() }
    }

    /// The index of the pair with MAC `key`, or the length when there is none.
    fn position_of(&self, key: &String) -> (r: usize)
        ensures
            r <= self.entries@.len(),
            r < self.entries@.len() ==> self.entries@[r as int].0@ == key@,
            forall|j: int| 0 <= j < r ==> self.entries@[j].0@ != key@,
    {
        let mut i: usize = 0;
        while i < self.entries.len()
            invariant
                i <= self.entries.len(),
                forall|j: int| 0 <= j < i ==> self.entries@[j].0@ != key@,
            decreases self.entries.len() - i,
        {
            if self.entries[i].0 == *key {
                return i;
            }
            i += 1;
        }
        i
    }

    /// Stores `entry` under `mac`, replacing what was stored there.
    pub fn upsert(&mut self, mac: String, entry: CacheEntry)
        ensures
            final(self)@ == old(self)@.insert(mac@, entry@),
    {
        proof {
            use_type_invariant(&*self);
        }
        let ghost s = self.entries@;
        let i = self.position_of(&mac);
        let mut v: Vec<(String, CacheEntry)> = Vec::new();
        std::mem::swap(&mut v, &mut self.entries);
        if i < v.len() {
            let ghost p = (mac, entry);
            v.set(i, (mac, entry));
            proof {
                lemma_entries_update(s, i as int, p);
                assert(distinct_keys(v@));
            }
        } else {
            v.push((mac, entry));
            proof {
                assert(v@.drop_last() =~= s);
            }
        }
        self.entries = v;
    }

    /// The suggestion stored for `mac`, if it was stored with this `ssid`; a MAC
    /// stored under another SSID counts as absent.
    pub fn get_suggestion(&self, ssid: &str, mac: &str) -> (r: Option<Suggestion>)
        ensures
            r == lookup(self@, ssid@, mac@),
    {
        let key = mac.to_owned();
        let name = ssid.to_owned();
        let ghost s = self.entries@;
        let mut i: usize = self.entries.len();
        while i > 0
            invariant
                i <= self.entries.len(),
                self.entries@ == s,
                key@ == mac@,
                name@ == ssid@,
                forall|j: int| i <= j < s.len() ==> s[j].0@ != mac@,
            decreases i,
        {
            i -= 1;
            if self.entries[i].0 == key {
                proof {
                    lemma_entries_last(s, i as int);
                }
                let e = &self.entries[i].1;
                if e.ssid == name {
                    return Some(e.suggestion);
                } else {
                    return None;
                }
            }
        }
        proof {
            lemma_entries_absent(s, mac@);
        }
        None
    }

    /// Records every pair of `groups`, group after group, under `file`.
    fn ingest_band(&mut self, groups: &Vec<ChannelGroup>, file: &String)
        ensures
            final(self)@ == ingest_pairs(old(self)@, flat(groups@), file@),
    {
        let ghost m0 = self@;
        let mut g: usize = 0;
        proof {
            assert(groups@.take(0) =~= Seq::<ChannelGroup>::empty());
        }
        while g < groups.len()
            invariant
                g <= groups.len(),
                self@ == ingest_pairs(m0, flat(groups@.take(g as int)), file@),
            decreases groups.len() - g,
        {
            let entries = &groups[g].entries;
            let ghost done = flat(groups@.take(g as int));
            let mut j: usize = 0;
            proof {
                assert(done + entries@.take(0) =~= done);
            }
            while j < entries.len()
                invariant
                    j <= entries.len(),
                        self@ == ingest_pairs(m0, done + entries@.take(j as int), file@),
                decreases entries.len() - j,
            {
                let w = &entries[j].0;
                let entry = CacheEntry { ssid: w.ssid.clone(), file: file.clone(), suggestion: entries[j].1 };
                proof {
                    assert(done + entries@.take(j + 1) =~= (done + entries@.take(j as int)).push(entries@[j as int]));
                    lemma_ingest_push(m0, done + entries@.take(j as int), entries@[j as int], file@);
                }
                self.upsert(w.mac.clone(), entry);
                j += 1;
            }
            proof {
                assert(entries@.take(j as int) =~= entries@);
                assert(groups@.take(g + 1).drop_last() =~= groups@.take(g as int));
            }
            g += 1;
        }
        proof {
            assert(groups@.take(g as int) =~= groups@);
        }
    }

    /// Records every pair of the reading under its access point's MAC, with the
    /// access point's SSID and `file`; the 2.4GHz band comes first, and a later pair
    /// wins over an earlier one with the same MAC.
    pub fn insert_into_cache(&mut self, reading: &Reading, file: &str)
        ensures
            final(self)@ == ingest_pairs(old(self)@, reading_pairs(*reading), file@),
    {
        let f = file.to_owned();
        let ghost m0 = self@;
        self.ingest_band(&reading.wifi_2_4_ghz, &f);
        self.ingest_band(&reading.wifi_5_ghz, &f);
        proof {
            lemma_ingest_append(m0, flat(reading.wifi_2_4_ghz@), flat(reading.wifi_5_ghz@), file@);
        }
    }

    /// Every stored pair, each MAC once, for saving.
    pub fn to_entries(&self) -> (r: Vec<(String, CacheEntry)>)
        ensures
            distinct_keys(r@),
            entries_map(r@) == self@,
    {
        proof {
            use_type_invariant(self);
        }
        let mut r: Vec<(String, CacheEntry)> = Vec::new();
        let mut i: usize = 0;
        while i < self.entries.len()
            invariant
                i <= self.entries.len(),
                r@ == self.entries@.take(i as int),
            decreases self.entries.len() - i,
        {
            let p = &self.entries[i];
            r.push((p.0.clone(), p.1.clone()));
            proof {
                assert(r@ =~= self.entries@.take(i + 1));
            }
            i += 1;
        }
        proof {
            assert(r@ =~= self.entries@);
        }
        r
    }

    /// A cache holding the given pairs; a later pair wins over an earlier one with
    /// the same MAC.
    pub fn from_entries(entries: &Vec<(String, CacheEntry)>) -> (r: Cache)
        ensures
            r@ == entries_map(entries@),
    {
        let mut c = Cache::new();
        let mut i: usize = 0;
        proof {
            assert(entries@.take(0) =~= Seq::<(String, CacheEntry)>::empty());
        }
        while i < entries.len()
            invariant
                i <= entries.len(),
                c@ == entries_map(entries@.take(i as int)),
            decreases entries.len() - i,
        {
            let p = &entries[i];
            c.upsert(p.0.clone(), p.1.clone());
            proof {
                assert(entries@.take(i + 1).drop_last() =~= entries@.take(i as int));
            }
            i += 1;
        }
        proof {
            assert(entries@.take(i as int) =~= entries@);
        }
        c
    }
}

} // verus!
