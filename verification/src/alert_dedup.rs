//! Alert deduplication and suppression.
//!
//! Repeated failures can generate alert storms where the same condition fires
//! dozens of times before an operator responds.  This module provides:
//!
//! - [`AlertDeduplicator`]: tracks recently fired alerts by a fingerprint key
//!   and suppresses duplicates within a configurable time window.
//! - [`AlertSuppressor`]: lets operators explicitly silence an alert
//!   fingerprint for a fixed duration (e.g. a planned maintenance window).
//! - [`AlertFilter`]: applies both in a single decision.

use vstd::prelude::*;

use crate::keyed_map::{represents, sorted_keys, KeyedMap};
use crate::text::{chars_of, key_lt, lemma_key_lt_irreflexive, lemma_key_lt_total};

verus! {

// ---------------------------------------------------------------------------
// DedupConfig
// ---------------------------------------------------------------------------

/// Configuration for [`AlertDeduplicator`].
#[derive(Clone, Copy, Debug, PartialEq, Eq, Structural)]
pub struct DedupConfig {
    /// How long (in seconds) to suppress duplicate alerts after one fires.
    /// Setting this to `0` disables deduplication (every event fires).
    pub window_seconds: u64,
    /// Maximum number of fingerprint keys tracked simultaneously.
    /// When the map is full the oldest entry is evicted before inserting a new
    /// one, so memory stays bounded.  Set to `0` for unlimited (use with care).
    pub max_keys: usize,
}

impl Default for DedupConfig {
    fn default() -> (c: Self)
        ensures
            c.window_seconds == 300,
            c.max_keys == 10_000,
    {
        DedupConfig { window_seconds: 300, max_keys: 10_000 }
    }
}

// ---------------------------------------------------------------------------
// The deduplication rule
// ---------------------------------------------------------------------------

/// `now - last`, or zero when `now` is before `last`.
pub open spec fn elapsed(now: u64, last: u64) -> int {
    if now >= last {
        now - last
    } else {
        0
    }
}

/// `fingerprint` fired within the window that ends at `now`.
pub open spec fn within_window(
    config: DedupConfig,
    last_fired: Map<Seq<char>, u64>,
    fingerprint: Seq<char>,
    now: u64,
) -> bool {
    last_fired.contains_key(fingerprint) && elapsed(now, last_fired[fingerprint])
        < config.window_seconds
}

/// An alert with `fingerprint` fires at `now`: deduplication is off, or the
/// fingerprint did not fire within the window.
pub open spec fn fires(
    config: DedupConfig,
    last_fired: Map<Seq<char>, u64>,
    fingerprint: Seq<char>,
    now: u64,
) -> bool {
    config.window_seconds == 0 || !within_window(config, last_fired, fingerprint, now)
}

/// The deduplicator tracks as many fingerprints as it may.
pub open spec fn is_full(config: DedupConfig, last_fired: Map<Seq<char>, u64>) -> bool {
    config.max_keys > 0 && last_fired.len() >= config.max_keys
}

/// `k` is tracked and fired no later than any other tracked fingerprint.
pub open spec fn is_oldest(last_fired: Map<Seq<char>, u64>, k: Seq<char>) -> bool {
    &&& last_fired.contains_key(k)
    &&& forall|j: Seq<char>| #[trigger] last_fired.contains_key(j) ==> last_fired[k] <= last_fired[j]
}

/// `after` is what the deduplicator tracks once an alert with `fingerprint`
/// is decided at `now` from `last_fired`.  A suppressed alert, or any alert
/// when deduplication is off, changes nothing.  A firing alert records `now`,
/// after evicting an oldest fingerprint when the deduplicator is full; which
/// one of several equally old fingerprints goes is left open.
pub open spec fn next_tracked(
    config: DedupConfig,
    last_fired: Map<Seq<char>, u64>,
    fingerprint: Seq<char>,
    now: u64,
    after: Map<Seq<char>, u64>,
) -> bool {
    if config.window_seconds == 0 || !fires(config, last_fired, fingerprint, now) {
        after == last_fired
    } else if is_full(config, last_fired) {
        exists|k: Seq<char>|
            #[trigger] is_oldest(last_fired, k) && after == last_fired.remove(k).insert(
                fingerprint,
                now,
            )
    } else {
        after == last_fired.insert(fingerprint, now)
    }
}

/// The position of an entry that fired no later than any other.
fn oldest_position(map: &KeyedMap<u64>) -> (pos: usize)
    requires
        map.wf(),
        map.entries_view().len() > 0,
    ensures
        pos < map.entries_view().len(),
        is_oldest(map.to_map(), map.entries_view()[pos as int].0),
{
    proof {
        map.lemma_wf();
    }
    let ghost s = map.entries_view();
    let ghost m = map.to_map();
    let n = map.len();
    let mut best: usize = 0;
    let mut i: usize = 1;
    while i < n
        invariant
            1 <= i <= n,
            best < n,
            n == s.len(),
            s == map.entries_view(),
            forall|j: int| 0 <= j < i ==> s[best as int].1 <= #[trigger] s[j].1,
        decreases n - i,
    {
        if *map.value_at(i) < *map.value_at(best) {
            best = i;
        }
        i = i + 1;
    }
    assert(m.contains_key(s[best as int].0));
    assert forall|j: Seq<char>| #[trigger] m.contains_key(j) implies m[s[best as int].0] <= m[j] by {
        let k = choose|k: int| 0 <= k < s.len() && s[k].0 == j;
        assert(m.contains_key(s[k].0));
    }
    best
}

// ---------------------------------------------------------------------------
// AlertDeduplicator
// ---------------------------------------------------------------------------

/// What an [`AlertDeduplicator`] holds: its configuration and, for each
/// tracked fingerprint, the time it last fired.
pub struct DedupState {
    pub config: DedupConfig,
    pub last_fired: Map<Seq<char>, u64>,
}

/// Suppresses duplicate alerts that fire within a rolling time window.
///
/// For each fingerprint key, the deduplicator records the Unix timestamp (in
/// seconds) of the last fired alert.  A subsequent alert with the same key is
/// suppressed unless `now - last_fired >= window_seconds`.
#[derive(Debug)]
pub struct AlertDeduplicator {
    config: DedupConfig,
    last_fired: KeyedMap<u64>,
}

impl View for AlertDeduplicator {
    type V = DedupState;

    closed spec fn view(&self) -> DedupState {
        DedupState { config: self.config, last_fired: self.last_fired.to_map() }
    }
}

impl AlertDeduplicator {
    #[verifier::type_invariant]
    closed spec fn inv(self) -> bool {
        &&& self.last_fired.wf()
        &&& self.config.max_keys > 0 ==> self.last_fired.to_map().len() <= self.config.max_keys
    }

    /// Create a deduplicator with the given configuration.
    pub fn new(config: DedupConfig) -> (d: Self)
        ensures
            d@.config == config,
            d@.last_fired == Map::<Seq<char>, u64>::empty(),
    {
        AlertDeduplicator { config, last_fired: KeyedMap::new() }
    }

    /// Decide whether an alert with `fingerprint` should fire at `now`.
    ///
    /// Returns `true` and records `now` as the last-fired timestamp when the
    /// alert should be delivered.  Returns `false` (and leaves the timestamp
    /// unchanged) when the alert is within its suppression window.
    /// When `window_seconds` is `0` every call returns `true` and nothing is
    /// recorded.
    pub fn should_fire(&mut self, fingerprint: &str, now: u64) -> (fired: bool)
        ensures
            final(self)@.config == old(self)@.config,
            fired == fires(old(self)@.config, old(self)@.last_fired, fingerprint@, now),
            next_tracked(
                old(self)@.config,
                old(self)@.last_fired,
                fingerprint@,
                now,
                final(self)@.last_fired,
            ),
    {
        proof {
            use_type_invariant(&*self);
        }
        if self.config.window_seconds == 0 {
            return true;
        }
        let key = chars_of(fingerprint);
        let recent = match self.last_fired.get(&key) {
            Some(last) => now.saturating_sub(*last) < self.config.window_seconds,
            None => false,
        };
        if recent {
            return false;
        }
        let ghost before = self.last_fired.to_map();
        let mut map = KeyedMap::new();
        std::mem::swap(&mut map, &mut self.last_fired);
        proof {
            map.lemma_wf();
        }
        if self.config.max_keys > 0 && map.len() >= self.config.max_keys {
            let pos = oldest_position(&map);
            let ghost evicted = map.entries_view()[pos as int].0;
            map.remove_at(pos);
            map.insert(key, now);
            assert(is_oldest(before, evicted));
            assert(map.to_map() == before.remove(evicted).insert(fingerprint@, now));
        } else {
            map.insert(key, now);
        }
        proof {
            map.lemma_wf();
        }
        self.last_fired = map;
        true
    }

    /// Forcibly clear the record for `fingerprint`, allowing the next
    /// occurrence to fire regardless of the window.
    pub fn reset(&mut self, fingerprint: &str)
        ensures
            final(self)@.config == old(self)@.config,
            final(self)@.last_fired == old(self)@.last_fired.remove(fingerprint@),
    {
        proof {
            use_type_invariant(&*self);
        }
        let key = chars_of(fingerprint);
        let mut map = KeyedMap::new();
        std::mem::swap(&mut map, &mut self.last_fired);
        proof {
            map.lemma_wf();
        }
        map.remove(&key);
        proof {
            map.lemma_wf();
        }
        self.last_fired = map;
    }

    /// Clear all tracked fingerprints.
    pub fn reset_all(&mut self)
        ensures
            final(self)@.config == old(self)@.config,
            final(self)@.last_fired == Map::<Seq<char>, u64>::empty(),
    {
        self.last_fired = KeyedMap::new();
    }

    /// Return the last-fired timestamp for `fingerprint`, if any.
    pub fn last_fired_at(&self, fingerprint: &str) -> (r: Option<u64>)
        ensures
            r == (if self@.last_fired.contains_key(fingerprint@) {
                Some(self@.last_fired[fingerprint@])
            } else {
                None
            }),
    {
        proof {
            use_type_invariant(self);
        }
        let key = chars_of(fingerprint);
        match self.last_fired.get(&key) {
            Some(t) => Some(*t),
            None => None,
        }
    }

    /// Number of fingerprints currently tracked; never more than `max_keys`
    /// when that is non-zero.
    pub fn tracked_count(&self) -> (n: usize)
        ensures
            n == self@.last_fired.len(),
            self@.config.max_keys > 0 ==> n <= self@.config.max_keys,
    {
        proof {
            use_type_invariant(self);
        }
        self.last_fired.len()
    }

    /// Reference to the active configuration.
    pub fn config(&self) -> (c: &DedupConfig)
        ensures
            *c == self@.config,
    {
        &self.config
    }
}

impl Default for AlertDeduplicator {
    fn default() -> (d: Self)
        ensures
            d@.config == (DedupConfig { window_seconds: 300, max_keys: 10_000 }),
            d@.last_fired == Map::<Seq<char>, u64>::empty(),
    {
        AlertDeduplicator::new(DedupConfig::default())
    }
}


// ---------------------------------------------------------------------------
// SuppressedEntry
// ---------------------------------------------------------------------------

/// One entry in the manual suppression list.
#[derive(Clone, Debug, PartialEq, Eq)]
pub struct SuppressedEntry {
    /// The fingerprint being suppressed.  Exact-string match only.
    pub fingerprint: String,
    /// Unix timestamp (seconds) when the suppression expires.
    pub expires_at: u64,
    /// Optional human-readable reason for the suppression.
    pub reason: String,
}

/// A field-by-field copy of `e`.
fn copy_entry(e: &SuppressedEntry) -> (r: SuppressedEntry)
    ensures
        r == *e,
{
    SuppressedEntry {
        fingerprint: e.fingerprint.clone(),
        expires_at: e.expires_at,
        reason: e.reason.clone(),
    }
}

/// The suppressions of `m` still in force at `now`.
pub open spec fn active_entries(m: Map<Seq<char>, SuppressedEntry>, now: u64) -> Map<
    Seq<char>,
    SuppressedEntry,
> {
    Map::new(|k: Seq<char>| m.contains_key(k) && m[k].expires_at > now, |k: Seq<char>| m[k])
}

/// `fingerprint` is suppressed at `now` under the suppressions `m`.
pub open spec fn suppressed_at(
    m: Map<Seq<char>, SuppressedEntry>,
    fingerprint: Seq<char>,
    now: u64,
) -> bool {
    m.contains_key(fingerprint) && m[fingerprint].expires_at > now
}

/// The suppressions after asking about `fingerprint` at `now`: an expired
/// entry for it is dropped.
pub open spec fn after_check(
    m: Map<Seq<char>, SuppressedEntry>,
    fingerprint: Seq<char>,
    now: u64,
) -> Map<Seq<char>, SuppressedEntry> {
    if m.contains_key(fingerprint) && m[fingerprint].expires_at <= now {
        m.remove(fingerprint)
    } else {
        m
    }
}

/// Key `k` comes before position `i` of the sorted entries `s`.
pub open spec fn comes_before<V>(s: Seq<(Seq<char>, V)>, k: Seq<char>, i: int) -> bool {
    i >= s.len() || key_lt(k, s[i].0)
}

proof fn lemma_comes_before_step<V>(s: Seq<(Seq<char>, V)>, j: int, i: int)
    requires
        sorted_keys(s),
        0 <= j < s.len(),
        0 <= i < s.len(),
    ensures
        comes_before(s, s[j].0, i + 1) <==> (comes_before(s, s[j].0, i) || s[j].0 == s[i].0),
        !comes_before(s, s[j].0, 0),
{
    lemma_key_lt_irreflexive(s[j].0);
    if j > 0 {
        assert(key_lt(s[0].0, s[j].0));
        lemma_key_lt_total(s[0].0, s[j].0);
    }
    if j < i {
        assert(key_lt(s[j].0, s[i].0));
        if i + 1 < s.len() {
            assert(key_lt(s[j].0, s[i + 1].0));
        }
    } else if j == i {
        if i + 1 < s.len() {
            assert(key_lt(s[j].0, s[i + 1].0));
        }
    } else {
        assert(key_lt(s[i].0, s[j].0));
        lemma_key_lt_total(s[i].0, s[j].0);
        if j > i + 1 {
            assert(key_lt(s[i + 1].0, s[j].0));
            lemma_key_lt_total(s[i + 1].0, s[j].0);
        }
    }
}

/// The active entries of `m` whose keys come before position `i` of `s`.
pub open spec fn active_prefix(
    m: Map<Seq<char>, SuppressedEntry>,
    s: Seq<(Seq<char>, SuppressedEntry)>,
    now: u64,
    i: int,
) -> Map<Seq<char>, SuppressedEntry> {
    Map::new(
        |k: Seq<char>| m.contains_key(k) && m[k].expires_at > now && comes_before(s, k, i),
        |k: Seq<char>| m[k],
    )
}

/// `v` lists the suppressions `m`: each entry of `v` is the one `m` holds
/// under that entry's fingerprint, fingerprints strictly increase along `v`,
/// and every fingerprint of `m` occurs in `v`.
pub open spec fn lists(m: Map<Seq<char>, SuppressedEntry>, v: Seq<SuppressedEntry>) -> bool {
    &&& forall|i: int| 0 <= i < v.len() ==> #[trigger] m.contains_key(v[i].fingerprint@)
        && m[v[i].fingerprint@] == v[i]
    &&& forall|i: int, j: int| #![trigger v[i], v[j]] 0 <= i < j < v.len() ==> key_lt(
        v[i].fingerprint@,
        v[j].fingerprint@,
    )
    &&& forall|k: Seq<char>| #[trigger] m.contains_key(k) ==> exists|i: int|
        0 <= i < v.len() && v[i].fingerprint@ == k
}

/// The suppressions of `m` whose entries satisfy `keep`.
pub open spec fn restrict(
    m: Map<Seq<char>, SuppressedEntry>,
    keep: spec_fn(SuppressedEntry) -> bool,
) -> Map<Seq<char>, SuppressedEntry> {
    Map::new(|k: Seq<char>| m.contains_key(k) && keep(m[k]), |k: Seq<char>| m[k])
}

/// Holds of an entry still in force at `now`.
pub open spec fn in_force_at(now: u64) -> spec_fn(SuppressedEntry) -> bool {
    |e: SuppressedEntry| e.expires_at > now
}

/// Holds of an entry for a fingerprint other than `fingerprint`.
pub open spec fn not_for(fingerprint: Seq<char>) -> spec_fn(SuppressedEntry) -> bool {
    |e: SuppressedEntry| e.fingerprint@ != fingerprint
}

/// The entries of `v` still in force at `now`, in their order.
pub open spec fn live(v: Seq<SuppressedEntry>, now: u64) -> Seq<SuppressedEntry> {
    v.filter(in_force_at(now))
}

/// The entries of `v` for fingerprints other than `fingerprint`, in their
/// order.
pub open spec fn without(v: Seq<SuppressedEntry>, fingerprint: Seq<char>) -> Seq<SuppressedEntry> {
    v.filter(not_for(fingerprint))
}

proof fn lemma_lists_empty(m: Map<Seq<char>, SuppressedEntry>, v: Seq<SuppressedEntry>)
    requires
        lists(m, v),
        v.len() == 0,
    ensures
        m == Map::<Seq<char>, SuppressedEntry>::empty(),
{
    assert forall|k: Seq<char>| !m.contains_key(k) by {
        if m.contains_key(k) {
            let i = choose|i: int| 0 <= i < v.len() && v[i].fingerprint@ == k;
        }
    }
    assert(m =~= Map::<Seq<char>, SuppressedEntry>::empty());
}

/// Each listed fingerprint keys its own entry.
proof fn lemma_lists_keys(m: Map<Seq<char>, SuppressedEntry>, v: Seq<SuppressedEntry>)
    requires
        lists(m, v),
    ensures
        forall|k: Seq<char>| #[trigger] m.contains_key(k) ==> m[k].fingerprint@ == k,
{
    assert forall|k: Seq<char>| #[trigger] m.contains_key(k) implies m[k].fingerprint@ == k by {
        let i = choose|i: int| 0 <= i < v.len() && v[i].fingerprint@ == k;
        assert(m.contains_key(v[i].fingerprint@));
    }
}

/// The last listed entry holds the greatest fingerprint; the rest lists
/// the other suppressions.
proof fn lemma_lists_drop_last(m: Map<Seq<char>, SuppressedEntry>, v: Seq<SuppressedEntry>)
    requires
        lists(m, v),
        v.len() > 0,
    ensures
        m.contains_key(v.last().fingerprint@),
        m[v.last().fingerprint@] == v.last(),
        lists(m.remove(v.last().fingerprint@), v.drop_last()),
        forall|i: int| 0 <= i < v.len() - 1 ==> key_lt(#[trigger] v[i].fingerprint@, v.last().fingerprint@),
{
    let n = v.len() - 1;
    let k = v[n].fingerprint@;
    let p = v.drop_last();
    let mp = m.remove(k);
    assert(m.contains_key(v[n].fingerprint@));
    lemma_key_lt_irreflexive(k);
    assert forall|i: int| 0 <= i < n implies key_lt(#[trigger] v[i].fingerprint@, k) by {
        assert(key_lt(v[i].fingerprint@, v[n].fingerprint@));
    }
    assert forall|i: int| 0 <= i < p.len() implies #[trigger] mp.contains_key(p[i].fingerprint@)
        && mp[p[i].fingerprint@] == p[i] by {
        assert(p[i] == v[i]);
        assert(m.contains_key(v[i].fingerprint@));
        assert(key_lt(v[i].fingerprint@, v[n].fingerprint@));
    }
    assert forall|i: int, j: int| #![trigger p[i], p[j]] 0 <= i < j < p.len() implies key_lt(
        p[i].fingerprint@,
        p[j].fingerprint@,
    ) by {
        assert(p[i] == v[i] && p[j] == v[j]);
        assert(key_lt(v[i].fingerprint@, v[j].fingerprint@));
    }
    assert forall|kk: Seq<char>| #[trigger] mp.contains_key(kk) implies exists|i: int|
        0 <= i < p.len() && p[i].fingerprint@ == kk by {
        assert(m.contains_key(kk));
        let i = choose|i: int| 0 <= i < v.len() && v[i].fingerprint@ == kk;
        assert(i != n);
        assert(p[i] == v[i]);
    }
}

/// Appending an entry whose fingerprint is above every listed one lists
/// the suppressions with that entry added.
proof fn lemma_lists_push(
    m: Map<Seq<char>, SuppressedEntry>,
    v: Seq<SuppressedEntry>,
    e: SuppressedEntry,
)
    requires
        lists(m, v),
        !m.contains_key(e.fingerprint@),
        forall|i: int| 0 <= i < v.len() ==> key_lt(#[trigger] v[i].fingerprint@, e.fingerprint@),
    ensures
        lists(m.insert(e.fingerprint@, e), v.push(e)),
{
    let k = e.fingerprint@;
    let m2 = m.insert(k, e);
    let v2 = v.push(e);
    let n = v.len();
    assert forall|i: int| 0 <= i < v2.len() implies #[trigger] m2.contains_key(v2[i].fingerprint@)
        && m2[v2[i].fingerprint@] == v2[i] by {
        if i < n {
            assert(v2[i] == v[i]);
            assert(m.contains_key(v[i].fingerprint@));
        }
    }
    assert forall|i: int, j: int| #![trigger v2[i], v2[j]] 0 <= i < j < v2.len() implies key_lt(
        v2[i].fingerprint@,
        v2[j].fingerprint@,
    ) by {
        assert(v2[i] == v[i]);
        if j < n {
            assert(v2[j] == v[j]);
            assert(key_lt(v[i].fingerprint@, v[j].fingerprint@));
        } else {
            assert(key_lt(v[i].fingerprint@, k));
        }
    }
    assert forall|kk: Seq<char>| #[trigger] m2.contains_key(kk) implies exists|i: int|
        0 <= i < v2.len() && v2[i].fingerprint@ == kk by {
        if kk == k {
            assert(v2[n as int].fingerprint@ == kk);
        } else {
            assert(m.contains_key(kk));
            let i = choose|i: int| 0 <= i < v.len() && v[i].fingerprint@ == kk;
            assert(v2[i] == v[i]);
        }
    }
}

/// Filtering a listing lists the suppressions whose entries pass the filter.
proof fn lemma_lists_filter(
    m: Map<Seq<char>, SuppressedEntry>,
    v: Seq<SuppressedEntry>,
    keep: spec_fn(SuppressedEntry) -> bool,
)
    requires
        lists(m, v),
    ensures
        lists(restrict(m, keep), v.filter(keep)),
    decreases v.len(),
{
    reveal(Seq::filter);
    if v.len() == 0 {
        lemma_lists_empty(m, v);
        assert(restrict(m, keep) =~= Map::<Seq<char>, SuppressedEntry>::empty());
    } else {
        let p = v.drop_last();
        let e = v.last();
        let k = e.fingerprint@;
        let mp = m.remove(k);
        lemma_lists_drop_last(m, v);
        lemma_lists_filter(mp, p, keep);
        let pf = p.filter(keep);
        let rp = restrict(mp, keep);
        assert(v.filter(keep) == if keep(e) {
            pf.push(e)
        } else {
            pf
        });
        if keep(e) {
            assert forall|i: int| 0 <= i < pf.len() implies key_lt(#[trigger] pf[i].fingerprint@, k) by {
                assert(rp.contains_key(pf[i].fingerprint@));
                assert(mp.contains_key(pf[i].fingerprint@));
                let j = choose|j: int| 0 <= j < p.len() && p[j].fingerprint@ == pf[i].fingerprint@;
                assert(p[j] == v[j]);
                assert(key_lt(v[j].fingerprint@, k));
            }
            lemma_lists_push(rp, pf, e);
            assert(restrict(m, keep) =~= rp.insert(k, e));
        } else {
            assert(restrict(m, keep) =~= rp);
        }
    }
}

/// There is only one listing of given suppressions.
proof fn lemma_lists_unique(
    m: Map<Seq<char>, SuppressedEntry>,
    v1: Seq<SuppressedEntry>,
    v2: Seq<SuppressedEntry>,
)
    requires
        lists(m, v1),
        lists(m, v2),
    ensures
        v1 == v2,
    decreases v1.len(),
{
    if v1.len() == 0 {
        lemma_lists_empty(m, v1);
        if v2.len() > 0 {
            assert(m.contains_key(v2[0].fingerprint@));
        }
        assert(v1 =~= v2);
    } else {
        if v2.len() == 0 {
            lemma_lists_empty(m, v2);
            assert(m.contains_key(v1[0].fingerprint@));
        }
        let a = v1.last();
        let b = v2.last();
        lemma_lists_drop_last(m, v1);
        lemma_lists_drop_last(m, v2);
        if a.fingerprint@ != b.fingerprint@ {
            let j1 = choose|j: int| 0 <= j < v1.len() && v1[j].fingerprint@ == b.fingerprint@;
            assert(key_lt(v1[j1].fingerprint@, a.fingerprint@));
            let j2 = choose|j: int| 0 <= j < v2.len() && v2[j].fingerprint@ == a.fingerprint@;
            assert(key_lt(v2[j2].fingerprint@, b.fingerprint@));
            lemma_key_lt_total(a.fingerprint@, b.fingerprint@);
        }
        lemma_lists_unique(m.remove(a.fingerprint@), v1.drop_last(), v2.drop_last());
        assert(v1 =~= v1.drop_last().push(a));
        assert(v2 =~= v2.drop_last().push(b));
    }
}

/// A listing is as long as the suppressions it lists are many.
proof fn lemma_lists_len(m: Map<Seq<char>, SuppressedEntry>, v: Seq<SuppressedEntry>)
    requires
        lists(m, v),
    ensures
        m.dom().finite(),
        m.len() == v.len(),
    decreases v.len(),
{
    if v.len() == 0 {
        lemma_lists_empty(m, v);
    } else {
        let k = v.last().fingerprint@;
        lemma_lists_drop_last(m, v);
        lemma_lists_len(m.remove(k), v.drop_last());
        assert(m =~= m.remove(k).insert(k, v.last()));
    }
}

// ---------------------------------------------------------------------------
// AlertSuppressor
// ---------------------------------------------------------------------------

/// Explicit, time-bounded suppression list.
///
/// Operators can suppress specific alert fingerprints for a fixed duration
/// (e.g. during planned maintenance).  Unlike [`AlertDeduplicator`], which
/// auto-suppresses based on recency, [`AlertSuppressor`] suppresses only when
/// an entry has been explicitly added.
#[derive(Debug)]
pub struct AlertSuppressor {
    entries: KeyedMap<SuppressedEntry>,
}

impl View for AlertSuppressor {
    type V = Map<Seq<char>, SuppressedEntry>;

    closed spec fn view(&self) -> Map<Seq<char>, SuppressedEntry> {
        self.entries.to_map()
    }
}

impl AlertSuppressor {
    #[verifier::type_invariant]
    closed spec fn inv(self) -> bool {
        &&& self.entries.wf()
        &&& forall|k: Seq<char>| #[trigger] self.entries.to_map().contains_key(k)
            ==> self.entries.to_map()[k].fingerprint@ == k
    }

    /// Create an empty suppressor.
    pub fn new() -> (s: Self)
        ensures
            s@ == Map::<Seq<char>, SuppressedEntry>::empty(),
    {
        AlertSuppressor { entries: KeyedMap::new() }
    }

    /// Suppress alerts matching `fingerprint` until `expires_at` (Unix seconds).
    ///
    /// If an entry already exists for the fingerprint it is overwritten so the
    /// operator can extend or shorten an active suppression.
    pub fn suppress(&mut self, fingerprint: &str, expires_at: u64, reason: &str)
        ensures
            final(self)@.contains_key(fingerprint@),
            final(self)@[fingerprint@].fingerprint@ == fingerprint@,
            final(self)@[fingerprint@].expires_at == expires_at,
            final(self)@[fingerprint@].reason@ == reason@,
            final(self)@.remove(fingerprint@) == old(self)@.remove(fingerprint@),
    {
        proof {
            use_type_invariant(&*self);
        }
        let key = chars_of(fingerprint);
        let entry = SuppressedEntry {
            fingerprint: fingerprint.to_owned(),
            expires_at,
            reason: reason.to_owned(),
        };
        let mut map = KeyedMap::new();
        std::mem::swap(&mut map, &mut self.entries);
        map.insert(key, entry);
        self.entries = map;
    }

    /// Returns `true` when `fingerprint` is actively suppressed at time `now`.
    ///
    /// An expired entry for `fingerprint` is removed on access.
    pub fn is_suppressed(&mut self, fingerprint: &str, now: u64) -> (r: bool)
        ensures
            r == suppressed_at(old(self)@, fingerprint@, now),
            final(self)@ == after_check(old(self)@, fingerprint@, now),
    {
        proof {
            use_type_invariant(&*self);
        }
        let key = chars_of(fingerprint);
        let expired = match self.entries.get(&key) {
            None => {
                return false;
            },
            Some(entry) => entry.expires_at <= now,
        };
        if expired {
            let mut map = KeyedMap::new();
            std::mem::swap(&mut map, &mut self.entries);
            map.remove(&key);
            self.entries = map;
            false
        } else {
            true
        }
    }

    /// Lift the suppression for `fingerprint` immediately.
    pub fn unsuppress(&mut self, fingerprint: &str)
        ensures
            final(self)@ == old(self)@.remove(fingerprint@),
    {
        proof {
            use_type_invariant(&*self);
        }
        let key = chars_of(fingerprint);
        let mut map = KeyedMap::new();
        std::mem::swap(&mut map, &mut self.entries);
        map.remove(&key);
        self.entries = map;
    }

    /// A fresh map holding the entries still in force at `now`.
    #[verifier::spinoff_prover]
    fn active_copy(&self, now: u64) -> (r: KeyedMap<SuppressedEntry>)
        ensures
            r.wf(),
            r.to_map() == active_entries(self@, now),
    {
        proof {
            use_type_invariant(self);
            self.entries.lemma_wf();
        }
        let ghost s = self.entries.entries_view();
        let ghost m = self.entries.to_map();
        let mut out: KeyedMap<SuppressedEntry> = KeyedMap::new();
        let n = self.entries.len();
        assert(out.to_map() =~= active_prefix(m, s, now, 0)) by {
            assert forall|k: Seq<char>| !(#[trigger] active_prefix(m, s, now, 0).contains_key(k)) by {
                if m.contains_key(k) {
                    let j = choose|j: int| 0 <= j < s.len() && s[j].0 == k;
                    lemma_comes_before_step(s, j, 0);
                }
            }
        }
        let mut i: usize = 0;
        while i < n
            invariant
                i <= n,
                n == s.len(),
                s == self.entries.entries_view(),
                m == self.entries.to_map(),
                sorted_keys(s),
                represents(s, m),
                forall|k: Seq<char>| #[trigger] m.contains_key(k) ==> m[k].fingerprint@ == k,
                out.wf(),
                out.to_map() == active_prefix(m, s, now, i as int),
            decreases n - i,
        {
            let e = self.entries.value_at(i);
            let ghost ki = s[i as int].0;
            assert(m.contains_key(ki));
            let ghost before = out.to_map();
            if e.expires_at > now {
                let key = chars_of(e.fingerprint.as_str());
                assert(key@ == ki);
                out.insert(key, copy_entry(e));
                assert(out.to_map() == before.insert(ki, m[ki]));
                assert(m[ki].expires_at > now);
                assert(out.to_map() =~= active_prefix(m, s, now, i + 1)) by {
                    assert forall|k: Seq<char>| #[trigger] active_prefix(m, s, now, i + 1).contains_key(k) <==> out.to_map().contains_key(k) by {
                        if m.contains_key(k) {
                            let j = choose|j: int| 0 <= j < s.len() && s[j].0 == k;
                            lemma_comes_before_step(s, j, i as int);
                            assert(comes_before(s, k, i + 1) <==> (comes_before(s, k, i as int) || k == ki));
                            assert(before == active_prefix(m, s, now, i as int));
                            assert(active_prefix(m, s, now, i as int).contains_key(k) <==> (m[k].expires_at > now && comes_before(s, k, i as int)));
                            assert(before.contains_key(k) <==> (m[k].expires_at > now && comes_before(s, k, i as int)));
                        } else {
                            assert(k != ki);
                            assert(!before.contains_key(k));
                        }
                    }
                }
            } else {
                assert(m[ki].expires_at <= now);
                assert(out.to_map() =~= active_prefix(m, s, now, i + 1)) by {
                    assert forall|k: Seq<char>| #[trigger] active_prefix(m, s, now, i + 1).contains_key(k) <==> out.to_map().contains_key(k) by {
                        assert(before == active_prefix(m, s, now, i as int));
                        if m.contains_key(k) {
                            let j = choose|j: int| 0 <= j < s.len() && s[j].0 == k;
                            lemma_comes_before_step(s, j, i as int);
                            assert(comes_before(s, k, i + 1) <==> (comes_before(s, k, i as int) || k == ki));
                            assert(active_prefix(m, s, now, i as int).contains_key(k) <==> (m[k].expires_at > now && comes_before(s, k, i as int)));
                        } else {
                            assert(!active_prefix(m, s, now, i as int).contains_key(k));
                        }
                    }
                    assert forall|k: Seq<char>| #[trigger] out.to_map().contains_key(k) implies out.to_map()[k] == active_prefix(m, s, now, i + 1)[k] by {
                        assert(before == active_prefix(m, s, now, i as int));
                        assert(active_prefix(m, s, now, i as int)[k] == m[k]);
                        assert(active_prefix(m, s, now, i + 1).contains_key(k));
                        assert(active_prefix(m, s, now, i + 1)[k] == m[k]);
                    }
                }
            }
            i = i + 1;
        }
        assert(active_prefix(m, s, now, n as int) =~= active_entries(self@, now));
        out
    }

    /// Remove all suppression entries that have already expired at `now`.
    pub fn purge_expired(&mut self, now: u64)
        ensures
            final(self)@ == active_entries(old(self)@, now),
    {
        proof {
            use_type_invariant(&*self);
        }
        let fresh = self.active_copy(now);
        self.entries = fresh;
    }

    /// Number of active (not-yet-expired) suppression entries at `now`.
    pub fn active_count(&self, now: u64) -> (n: usize)
        ensures
            n == active_entries(self@, now).len(),
    {
        let fresh = self.active_copy(now);
        fresh.len()
    }

    /// A snapshot of all current suppression entries (expired ones
    /// included), in increasing fingerprint order.
    pub fn entries(&self) -> (v: Vec<SuppressedEntry>)
        ensures
            v.len() == self@.len(),
            lists(self@, v@),
            forall|now: u64| #[trigger] live(v@, now).len() == active_entries(self@, now).len(),
    {
        proof {
            use_type_invariant(self);
            self.entries.lemma_wf();
        }
        let ghost s = self.entries.entries_view();
        let ghost m = self.entries.to_map();
        let n = self.entries.len();
        let mut v: Vec<SuppressedEntry> = Vec::new();
        let mut i: usize = 0;
        while i < n
            invariant
                i <= n,
                n == s.len(),
                s == self.entries.entries_view(),
                v.len() == i,
                forall|j: int| 0 <= j < i ==> #[trigger] v[j] == s[j].1,
            decreases n - i,
        {
            v.push(copy_entry(self.entries.value_at(i)));
            i = i + 1;
        }
        assert forall|i: int| 0 <= i < v.len() implies #[trigger] self@.contains_key(v[i].fingerprint@)
            && self@[v[i].fingerprint@] == v[i] by {
            assert(m.contains_key(s[i].0));
        }
        assert forall|i: int, j: int| #![trigger v[i], v[j]] 0 <= i < j < v.len() implies key_lt(v[i].fingerprint@, v[j].fingerprint@) by {
            assert(m.contains_key(s[i].0));
            assert(m.contains_key(s[j].0));
            assert(key_lt(s[i].0, s[j].0));
        }
        assert forall|k: Seq<char>| #[trigger] self@.contains_key(k) implies exists|i: int| 0 <= i < v.len() && v[i].fingerprint@ == k by {
            let j = choose|j: int| 0 <= j < s.len() && s[j].0 == k;
            assert(m.contains_key(s[j].0));
            assert(v@[j].fingerprint@ == k);
        }
        assert forall|now: u64| #[trigger] live(v@, now).len() == active_entries(self@, now).len() by {
            lemma_lists_filter(self@, v@, in_force_at(now));
            assert(restrict(self@, in_force_at(now)) =~= active_entries(self@, now));
            lemma_lists_len(active_entries(self@, now), live(v@, now));
        }
        v
    }
}

impl Default for AlertSuppressor {
    fn default() -> (s: Self)
        ensures
            s@ == Map::<Seq<char>, SuppressedEntry>::empty(),
    {
        AlertSuppressor::new()
    }
}

// ---------------------------------------------------------------------------
// AlertFilter: combines deduplication and suppression
// ---------------------------------------------------------------------------

/// What an [`AlertFilter`] holds.
pub struct FilterState {
    pub dedup: DedupState,
    pub suppressions: Map<Seq<char>, SuppressedEntry>,
}

/// Applies both deduplication and explicit suppression in a single
/// `should_deliver` call.
///
/// An alert is delivered only when:
/// 1. it is **not** covered by an active [`AlertSuppressor`] entry, **and**
/// 2. it is **not** within the [`AlertDeduplicator`]'s suppression window.
pub struct AlertFilter {
    dedup: AlertDeduplicator,
    suppressor: AlertSuppressor,
}

impl View for AlertFilter {
    type V = FilterState;

    closed spec fn view(&self) -> FilterState {
        FilterState { dedup: self.dedup@, suppressions: self.suppressor@ }
    }
}

impl AlertFilter {
    /// Create a filter with the given deduplication config and an empty
    /// suppression list.
    pub fn new(dedup_config: DedupConfig) -> (f: Self)
        ensures
            f@.dedup.config == dedup_config,
            f@.dedup.last_fired == Map::<Seq<char>, u64>::empty(),
            f@.suppressions == Map::<Seq<char>, SuppressedEntry>::empty(),
    {
        AlertFilter { dedup: AlertDeduplicator::new(dedup_config), suppressor: AlertSuppressor::new() }
    }

    /// Returns `true` when the alert should be delivered.
    ///
    /// A suppressed alert is refused without touching the deduplicator;
    /// any other alert is decided, and recorded, by the deduplicator.
    pub fn should_deliver(&mut self, fingerprint: &str, now: u64) -> (deliver: bool)
        ensures
            final(self)@.suppressions == after_check(old(self)@.suppressions, fingerprint@, now),
            final(self)@.dedup.config == old(self)@.dedup.config,
            suppressed_at(old(self)@.suppressions, fingerprint@, now) ==> {
                &&& !deliver
                &&& final(self)@.dedup == old(self)@.dedup
            },
            !suppressed_at(old(self)@.suppressions, fingerprint@, now) ==> {
                &&& deliver == fires(
                    old(self)@.dedup.config,
                    old(self)@.dedup.last_fired,
                    fingerprint@,
                    now,
                )
                &&& next_tracked(
                    old(self)@.dedup.config,
                    old(self)@.dedup.last_fired,
                    fingerprint@,
                    now,
                    final(self)@.dedup.last_fired,
                )
            },
    {
        if self.suppressor.is_suppressed(fingerprint, now) {
            return false;
        }
        self.dedup.should_fire(fingerprint, now)
    }

    /// Access the underlying suppressor to add or lift suppressions.
    pub fn suppressor(&mut self) -> (s: &mut AlertSuppressor)
        ensures
            s@ == old(self)@.suppressions,
            final(self)@.suppressions == final(s)@,
            final(self)@.dedup == old(self)@.dedup,
    {
        &mut self.suppressor
    }

    /// Access the underlying deduplicator to inspect state.
    pub fn dedup(&self) -> (d: &AlertDeduplicator)
        ensures
            d@ == self@.dedup,
    {
        &self.dedup
    }
}

// ---------------------------------------------------------------------------
// Laws
// ---------------------------------------------------------------------------

/// Every finite, non-empty map of fingerprints has an oldest one.
pub proof fn lemma_oldest_exists(m: Map<Seq<char>, u64>)
    requires
        m.dom().finite(),
        m.len() > 0,
    ensures
        exists|k: Seq<char>| #[trigger] is_oldest(m, k),
    decreases m.len(),
{
    let x = m.dom().choose();
    assert(m.contains_key(x));
    let rest = m.remove(x);
    if rest.len() == 0 {
        assert forall|j: Seq<char>| #[trigger] m.contains_key(j) implies m[x] <= m[j] by {
            if j != x {
                assert(rest.contains_key(j));
            }
        }
        assert(is_oldest(m, x));
    } else {
        lemma_oldest_exists(rest);
        let k = choose|k: Seq<char>| #[trigger] is_oldest(rest, k);
        if m[x] <= m[k] {
            assert forall|j: Seq<char>| #[trigger] m.contains_key(j) implies m[x] <= m[j] by {
                if j != x {
                    assert(rest.contains_key(j));
                }
            }
            assert(is_oldest(m, x));
        } else {
            assert forall|j: Seq<char>| #[trigger] m.contains_key(j) implies m[k] <= m[j] by {
                if j != x {
                    assert(rest.contains_key(j));
                }
            }
            assert(is_oldest(m, k));
        }
    }
}

/// Every decision can be carried out: some set of tracked fingerprints
/// follows it.
pub proof fn lemma_next_tracked_exists(
    config: DedupConfig,
    last_fired: Map<Seq<char>, u64>,
    fingerprint: Seq<char>,
    now: u64,
)
    requires
        last_fired.dom().finite(),
    ensures
        exists|after: Map<Seq<char>, u64>| next_tracked(config, last_fired, fingerprint, now, after),
{
    if config.window_seconds == 0 || !fires(config, last_fired, fingerprint, now) {
        assert(next_tracked(config, last_fired, fingerprint, now, last_fired));
    } else if is_full(config, last_fired) {
        lemma_oldest_exists(last_fired);
        let k = choose|k: Seq<char>| #[trigger] is_oldest(last_fired, k);
        let after = last_fired.remove(k).insert(fingerprint, now);
        assert(next_tracked(config, last_fired, fingerprint, now, after));
    } else {
        assert(next_tracked(config, last_fired, fingerprint, now, last_fired.insert(fingerprint, now)));
    }
}

/// After an alert fires (whatever was evicted to make room), `now` is what
/// is recorded for its fingerprint.
pub proof fn lemma_firing_records_now(
    config: DedupConfig,
    last_fired: Map<Seq<char>, u64>,
    fingerprint: Seq<char>,
    now: u64,
    after: Map<Seq<char>, u64>,
)
    requires
        config.window_seconds > 0,
        fires(config, last_fired, fingerprint, now),
        next_tracked(config, last_fired, fingerprint, now, after),
    ensures
        after.contains_key(fingerprint),
        after[fingerprint] == now,
{
    if is_full(config, last_fired) {
        let k = choose|k: Seq<char>| #[trigger] is_oldest(last_fired, k) && after == last_fired.remove(k).insert(fingerprint, now);
    }
}

/// Once an alert fires at `fired_at`, the same fingerprint asked again while
/// less than the window has elapsed is suppressed, and nothing changes.
pub proof fn lemma_repeat_within_window_is_suppressed(
    config: DedupConfig,
    last_fired: Map<Seq<char>, u64>,
    fingerprint: Seq<char>,
    fired_at: u64,
    after: Map<Seq<char>, u64>,
    now: u64,
)
    requires
        config.window_seconds > 0,
        fires(config, last_fired, fingerprint, fired_at),
        next_tracked(config, last_fired, fingerprint, fired_at, after),
        elapsed(now, fired_at) < config.window_seconds,
    ensures
        !fires(config, after, fingerprint, now),
        forall|again: Map<Seq<char>, u64>| next_tracked(config, after, fingerprint, now, again) <==> again == after,
{
    lemma_firing_records_now(config, last_fired, fingerprint, fired_at, after);
}

/// Once an alert fires at `fired_at`, the same fingerprint fires again as
/// soon as the whole window has elapsed, and `now` is recorded.
pub proof fn lemma_fires_again_after_window(
    config: DedupConfig,
    last_fired: Map<Seq<char>, u64>,
    fingerprint: Seq<char>,
    fired_at: u64,
    after: Map<Seq<char>, u64>,
    now: u64,
    again: Map<Seq<char>, u64>,
)
    requires
        config.window_seconds > 0,
        fires(config, last_fired, fingerprint, fired_at),
        next_tracked(config, last_fired, fingerprint, fired_at, after),
        now >= fired_at + config.window_seconds,
        next_tracked(config, after, fingerprint, now, again),
    ensures
        fires(config, after, fingerprint, now),
        again.contains_key(fingerprint),
        again[fingerprint] == now,
{
    lemma_firing_records_now(config, last_fired, fingerprint, fired_at, after);
    lemma_firing_records_now(config, after, fingerprint, now, again);
}

/// A fingerprint that is not tracked (never seen, evicted or reset) fires,
/// and its firing time is recorded.
pub proof fn lemma_untracked_fires(
    config: DedupConfig,
    last_fired: Map<Seq<char>, u64>,
    fingerprint: Seq<char>,
    now: u64,
    after: Map<Seq<char>, u64>,
)
    requires
        !last_fired.contains_key(fingerprint),
        next_tracked(config, last_fired, fingerprint, now, after),
    ensures
        fires(config, last_fired, fingerprint, now),
        config.window_seconds > 0 ==> after.contains_key(fingerprint) && after[fingerprint] == now,
{
    if config.window_seconds > 0 {
        lemma_firing_records_now(config, last_fired, fingerprint, now, after);
    }
}

/// With a zero window every alert fires and nothing is recorded.
pub proof fn lemma_zero_window_always_fires(
    config: DedupConfig,
    last_fired: Map<Seq<char>, u64>,
    fingerprint: Seq<char>,
    now: u64,
)
    requires
        config.window_seconds == 0,
    ensures
        fires(config, last_fired, fingerprint, now),
        forall|after: Map<Seq<char>, u64>| next_tracked(config, last_fired, fingerprint, now, after) <==> after == last_fired,
{
}

/// Whether an alert fires depends only on when that same fingerprint last
/// fired, not on any other fingerprint.
pub proof fn lemma_decision_is_per_fingerprint(
    config: DedupConfig,
    a: Map<Seq<char>, u64>,
    b: Map<Seq<char>, u64>,
    fingerprint: Seq<char>,
    now: u64,
)
    requires
        a.contains_key(fingerprint) == b.contains_key(fingerprint),
        a.contains_key(fingerprint) ==> a[fingerprint] == b[fingerprint],
    ensures
        fires(config, a, fingerprint, now) == fires(config, b, fingerprint, now),
{
}

/// Memory stays bounded: with a non-zero `max_keys`, a deduplicator that
/// tracks at most `max_keys` fingerprints still does after any decision.
pub proof fn lemma_tracking_stays_bounded(
    config: DedupConfig,
    last_fired: Map<Seq<char>, u64>,
    fingerprint: Seq<char>,
    now: u64,
    after: Map<Seq<char>, u64>,
)
    requires
        last_fired.dom().finite(),
        config.max_keys > 0,
        last_fired.len() <= config.max_keys,
        next_tracked(config, last_fired, fingerprint, now, after),
    ensures
        after.dom().finite(),
        after.len() <= config.max_keys,
{
    if config.window_seconds > 0 && fires(config, last_fired, fingerprint, now) {
        if is_full(config, last_fired) {
            let k = choose|k: Seq<char>| #[trigger] is_oldest(last_fired, k) && after == last_fired.remove(k).insert(fingerprint, now);
            assert(last_fired.remove(k).len() == last_fired.len() - 1);
        }
    }
}

/// When a full deduplicator fires a new fingerprint, the one evicted fired
/// no later than every fingerprint it keeps.
pub proof fn lemma_eviction_takes_oldest(
    config: DedupConfig,
    last_fired: Map<Seq<char>, u64>,
    fingerprint: Seq<char>,
    now: u64,
    after: Map<Seq<char>, u64>,
)
    requires
        config.window_seconds > 0,
        is_full(config, last_fired),
        !last_fired.contains_key(fingerprint),
        next_tracked(config, last_fired, fingerprint, now, after),
    ensures
        exists|k: Seq<char>|
            #![trigger last_fired.contains_key(k)]
            last_fired.contains_key(k) && !after.contains_key(k) && forall|j: Seq<char>|
                #[trigger] after.contains_key(j) && j != fingerprint ==> last_fired[k] <= last_fired[j],
{
    let k = choose|k: Seq<char>| #[trigger] is_oldest(last_fired, k) && after == last_fired.remove(k).insert(fingerprint, now);
    assert(last_fired.contains_key(k) && !after.contains_key(k));
}

/// After a suppression that expires at `expires_at` is recorded for a
/// fingerprint, it is suppressed exactly at the times before `expires_at`.
pub proof fn lemma_suppressed_until_expiry(
    suppressions: Map<Seq<char>, SuppressedEntry>,
    fingerprint: Seq<char>,
    expires_at: u64,
    now: u64,
)
    requires
        suppressions.contains_key(fingerprint),
        suppressions[fingerprint].expires_at == expires_at,
    ensures
        suppressed_at(suppressions, fingerprint, now) <==> now < expires_at,
{
}

/// Lifting a suppression makes its fingerprint unsuppressed at once.
pub proof fn lemma_unsuppress_lifts(
    suppressions: Map<Seq<char>, SuppressedEntry>,
    fingerprint: Seq<char>,
    now: u64,
)
    ensures
        !suppressed_at(suppressions.remove(fingerprint), fingerprint, now),
{
}

/// Dropping an expired entry while checking changes the answer for no
/// fingerprint at that time.
pub proof fn lemma_check_is_invisible(
    suppressions: Map<Seq<char>, SuppressedEntry>,
    fingerprint: Seq<char>,
    other: Seq<char>,
    now: u64,
)
    ensures
        suppressed_at(after_check(suppressions, fingerprint, now), other, now) == suppressed_at(
            suppressions,
            other,
            now,
        ),
{
}

/// Purging at `now` keeps exactly the suppressions in force at `now`:
/// purging twice is purging once, and the count of active entries is the
/// size of what a purge keeps.
pub proof fn lemma_purge_keeps_active(suppressions: Map<Seq<char>, SuppressedEntry>, now: u64)
    ensures
        active_entries(active_entries(suppressions, now), now) == active_entries(suppressions, now),
        forall|k: Seq<char>|
            suppressed_at(active_entries(suppressions, now), k, now) == suppressed_at(
                suppressions,
                k,
                now,
            ),
{
    assert(active_entries(active_entries(suppressions, now), now) =~= active_entries(
        suppressions,
        now,
    ));
}

/// Seen through [`AlertSuppressor::entries`], suppressing a fingerprint
/// replaces its entry and nothing else: the entries for other fingerprints
/// stay as they were and in their order, and the listing holds exactly one
/// entry for the fingerprint, carrying the new expiry and reason.
pub proof fn lemma_suppress_seen_in_entries(
    before: Map<Seq<char>, SuppressedEntry>,
    after: Map<Seq<char>, SuppressedEntry>,
    old_entries: Seq<SuppressedEntry>,
    new_entries: Seq<SuppressedEntry>,
    fingerprint: Seq<char>,
    expires_at: u64,
    reason: Seq<char>,
)
    requires
        lists(before, old_entries),
        lists(after, new_entries),
        after.contains_key(fingerprint),
        after[fingerprint].fingerprint@ == fingerprint,
        after[fingerprint].expires_at == expires_at,
        after[fingerprint].reason@ == reason,
        after.remove(fingerprint) == before.remove(fingerprint),
    ensures
        without(new_entries, fingerprint) == without(old_entries, fingerprint),
        exists|i: int|
            0 <= i < new_entries.len() && #[trigger] new_entries[i].fingerprint@ == fingerprint
                && new_entries[i].expires_at == expires_at && new_entries[i].reason@ == reason,
        forall|i: int, j: int|
            0 <= i < new_entries.len() && 0 <= j < new_entries.len()
                && #[trigger] new_entries[i].fingerprint@ == fingerprint
                && #[trigger] new_entries[j].fingerprint@ == fingerprint ==> i == j,
        new_entries.len() == without(old_entries, fingerprint).len() + 1,
{
    lemma_lists_keys(before, old_entries);
    lemma_lists_keys(after, new_entries);
    lemma_lists_filter(before, old_entries, not_for(fingerprint));
    lemma_lists_filter(after, new_entries, not_for(fingerprint));
    assert(restrict(before, not_for(fingerprint)) =~= before.remove(fingerprint));
    assert(restrict(after, not_for(fingerprint)) =~= after.remove(fingerprint));
    lemma_lists_unique(
        before.remove(fingerprint),
        without(old_entries, fingerprint),
        without(new_entries, fingerprint),
    );
    let w = choose|i: int| 0 <= i < new_entries.len() && new_entries[i].fingerprint@ == fingerprint;
    assert(after.contains_key(new_entries[w].fingerprint@));
    lemma_key_lt_irreflexive(fingerprint);
    assert forall|i: int, j: int|
        0 <= i < new_entries.len() && 0 <= j < new_entries.len()
            && #[trigger] new_entries[i].fingerprint@ == fingerprint
            && #[trigger] new_entries[j].fingerprint@ == fingerprint implies i == j by {
        if i < j {
            assert(key_lt(new_entries[i].fingerprint@, new_entries[j].fingerprint@));
        }
        if j < i {
            assert(key_lt(new_entries[j].fingerprint@, new_entries[i].fingerprint@));
        }
    }
    lemma_lists_len(after, new_entries);
    lemma_lists_len(after.remove(fingerprint), without(new_entries, fingerprint));
}

/// Seen through [`AlertSuppressor::entries`], asking whether a fingerprint
/// is suppressed at `now` answers whether the listing holds an entry for it
/// that expires after `now`; an entry for it that has expired leaves the
/// listing, and otherwise the listing stays exactly as it was.
pub proof fn lemma_check_seen_in_entries(
    before: Map<Seq<char>, SuppressedEntry>,
    after: Map<Seq<char>, SuppressedEntry>,
    old_entries: Seq<SuppressedEntry>,
    new_entries: Seq<SuppressedEntry>,
    fingerprint: Seq<char>,
    now: u64,
    answer: bool,
)
    requires
        lists(before, old_entries),
        lists(after, new_entries),
        answer == suppressed_at(before, fingerprint, now),
        after == after_check(before, fingerprint, now),
    ensures
        answer == exists|i: int|
            0 <= i < old_entries.len() && #[trigger] old_entries[i].fingerprint@ == fingerprint
                && old_entries[i].expires_at > now,
        (exists|i: int|
            0 <= i < old_entries.len() && #[trigger] old_entries[i].fingerprint@ == fingerprint
                && old_entries[i].expires_at <= now) ==> new_entries == without(
            old_entries,
            fingerprint,
        ),
        !(exists|i: int|
            0 <= i < old_entries.len() && #[trigger] old_entries[i].fingerprint@ == fingerprint
                && old_entries[i].expires_at <= now) ==> new_entries == old_entries,
{
    lemma_lists_keys(before, old_entries);
    if before.contains_key(fingerprint) {
        let i = choose|i: int| 0 <= i < old_entries.len() && old_entries[i].fingerprint@ == fingerprint;
        assert(before.contains_key(old_entries[i].fingerprint@));
        assert(old_entries[i] == before[fingerprint]);
        assert forall|j: int| 0 <= j < old_entries.len() && #[trigger] old_entries[j].fingerprint@ == fingerprint implies old_entries[j] == before[fingerprint] by {
            assert(before.contains_key(old_entries[j].fingerprint@));
        }
    } else {
        assert forall|j: int| 0 <= j < old_entries.len() implies #[trigger] old_entries[j].fingerprint@ != fingerprint by {
            assert(before.contains_key(old_entries[j].fingerprint@));
        }
    }
    if before.contains_key(fingerprint) && before[fingerprint].expires_at <= now {
        lemma_lists_filter(before, old_entries, not_for(fingerprint));
        assert(restrict(before, not_for(fingerprint)) =~= before.remove(fingerprint));
        lemma_lists_unique(after, new_entries, without(old_entries, fingerprint));
    } else {
        lemma_lists_unique(before, new_entries, old_entries);
    }
}

/// Seen through [`AlertSuppressor::entries`], purging at `now` keeps
/// exactly the entries still in force at `now`, in their order.  Afterwards
/// every listed entry is in force, so the active count at `now` is the
/// length of the listing.
pub proof fn lemma_purge_seen_in_entries(
    before: Map<Seq<char>, SuppressedEntry>,
    after: Map<Seq<char>, SuppressedEntry>,
    old_entries: Seq<SuppressedEntry>,
    new_entries: Seq<SuppressedEntry>,
    now: u64,
)
    requires
        lists(before, old_entries),
        lists(after, new_entries),
        after == active_entries(before, now),
    ensures
        new_entries == live(old_entries, now),
        live(new_entries, now) == new_entries,
        active_entries(after, now).len() == new_entries.len(),
{
    lemma_lists_filter(before, old_entries, in_force_at(now));
    assert(restrict(before, in_force_at(now)) =~= active_entries(before, now));
    lemma_lists_unique(after, new_entries, live(old_entries, now));
    lemma_lists_filter(after, new_entries, in_force_at(now));
    assert(restrict(after, in_force_at(now)) =~= after);
    lemma_lists_unique(after, live(new_entries, now), new_entries);
    assert(active_entries(after, now) =~= after);
    lemma_lists_len(after, new_entries);
}

} // verus!
