use anchorkit::alert_dedup::{AlertDeduplicator, AlertFilter, AlertSuppressor, DedupConfig};

// ── AlertDeduplicator ────────────────────────────────────────────────────

#[test]
fn first_occurrence_fires() {
    let mut d = AlertDeduplicator::new(DedupConfig::default());
    assert!(d.should_fire("k1", 1000));
}

#[test]
fn second_occurrence_within_window_is_suppressed() {
    let mut d = AlertDeduplicator::new(DedupConfig { window_seconds: 300, max_keys: 100 });
    d.should_fire("k1", 1000);
    assert!(!d.should_fire("k1", 1100));
}

#[test]
fn occurrence_after_window_fires_again() {
    let mut d = AlertDeduplicator::new(DedupConfig { window_seconds: 300, max_keys: 100 });
    d.should_fire("k1", 1000);
    assert!(d.should_fire("k1", 1000 + 300 + 1));
}

#[test]
fn alert_fires_exactly_at_ttl_boundary() {
    let mut d = AlertDeduplicator::new(DedupConfig { window_seconds: 300, max_keys: 100 });
    d.should_fire("k1", 1000);
    // now - last == window_seconds → expired, fires (inclusive boundary).
    assert!(d.should_fire("k1", 1000 + 300));
    // Just before boundary remains suppressed.
    let mut d2 = AlertDeduplicator::new(DedupConfig { window_seconds: 300, max_keys: 100 });
    d2.should_fire("k1", 1000);
    assert!(!d2.should_fire("k1", 1000 + 299));
}

#[test]
fn different_fingerprints_are_independent() {
    let mut d = AlertDeduplicator::new(DedupConfig::default());
    d.should_fire("k1", 1000);
    assert!(d.should_fire("k2", 1001));
}

#[test]
fn window_zero_disables_dedup() {
    let mut d = AlertDeduplicator::new(DedupConfig { window_seconds: 0, max_keys: 100 });
    d.should_fire("k1", 1000);
    assert!(d.should_fire("k1", 1001));
}

#[test]
fn reset_clears_suppression() {
    let mut d = AlertDeduplicator::new(DedupConfig::default());
    d.should_fire("k1", 1000);
    d.reset("k1");
    assert!(d.should_fire("k1", 1001));
}

#[test]
fn max_keys_evicts_oldest() {
    let mut d = AlertDeduplicator::new(DedupConfig { window_seconds: 9999, max_keys: 2 });
    d.should_fire("a", 1000);
    d.should_fire("b", 1001);
    // Adding "c" should evict "a" (the oldest)
    d.should_fire("c", 1002);
    assert_eq!(d.tracked_count(), 2);
    // "a" was evicted; it should fire again
    assert!(d.should_fire("a", 1003));
}

#[test]
fn last_fired_at_returns_correct_timestamp() {
    let mut d = AlertDeduplicator::new(DedupConfig::default());
    d.should_fire("k1", 5000);
    assert_eq!(d.last_fired_at("k1"), Some(5000));
    assert_eq!(d.last_fired_at("missing"), None);
}

// ── AlertSuppressor ──────────────────────────────────────────────────────

#[test]
fn suppressed_fingerprint_is_active() {
    let mut s = AlertSuppressor::new();
    s.suppress("maint:anchor.com", 2000, "planned maintenance");
    assert!(s.is_suppressed("maint:anchor.com", 1000));
}

#[test]
fn expired_suppression_is_not_active() {
    let mut s = AlertSuppressor::new();
    s.suppress("maint:anchor.com", 1500, "window ended");
    assert!(!s.is_suppressed("maint:anchor.com", 2000));
}

#[test]
fn unsuppress_lifts_immediately() {
    let mut s = AlertSuppressor::new();
    s.suppress("k", 9999, "test");
    s.unsuppress("k");
    assert!(!s.is_suppressed("k", 1000));
}

#[test]
fn purge_expired_removes_stale_entries() {
    let mut s = AlertSuppressor::new();
    s.suppress("old", 100, "expired");
    s.suppress("current", 9999, "active");
    s.purge_expired(500);
    assert_eq!(s.active_count(500), 1);
}

#[test]
fn active_count_excludes_expired() {
    let mut s = AlertSuppressor::new();
    s.suppress("a", 100, "expired");
    s.suppress("b", 9999, "active");
    assert_eq!(s.active_count(500), 1);
}

#[test]
fn overwriting_suppression_extends_expiry() {
    let mut s = AlertSuppressor::new();
    s.suppress("k", 1500, "short window");
    s.suppress("k", 9999, "extended");
    assert!(s.is_suppressed("k", 5000));
}

// ── AlertFilter ──────────────────────────────────────────────────────────

#[test]
fn filter_delivers_first_occurrence() {
    let mut f = AlertFilter::new(DedupConfig { window_seconds: 300, max_keys: 100 });
    assert!(f.should_deliver("critical:anchor.com", 1000));
}

#[test]
fn filter_deduplicates_rapid_repeats() {
    let mut f = AlertFilter::new(DedupConfig { window_seconds: 300, max_keys: 100 });
    f.should_deliver("critical:anchor.com", 1000);
    assert!(!f.should_deliver("critical:anchor.com", 1001));
}

#[test]
fn filter_respects_manual_suppression() {
    let mut f = AlertFilter::new(DedupConfig { window_seconds: 300, max_keys: 100 });
    f.suppressor().suppress("maint:anchor.com", 9999, "maintenance");
    // Would fire on first occurrence via dedup alone, but suppressor blocks it.
    assert!(!f.should_deliver("maint:anchor.com", 1000));
}

#[test]
fn filter_delivers_after_suppression_expires() {
    let mut f = AlertFilter::new(DedupConfig { window_seconds: 60, max_keys: 100 });
    f.suppressor().suppress("k", 1500, "short maintenance");
    // Suppressed within window.
    assert!(!f.should_deliver("k", 1000));
    // Suppression expired and dedup window also passed → fires.
    assert!(f.should_deliver("k", 2000));
}

// ── Further cases ────────────────────────────────────────────────────────

#[test]
fn doc_example_window_cycle() {
    let mut dedup = AlertDeduplicator::new(DedupConfig { window_seconds: 300, max_keys: 1000 });
    assert!(dedup.should_fire("anchor:example.com:critical", 1_000));
    assert!(!dedup.should_fire("anchor:example.com:critical", 1_100));
    assert!(dedup.should_fire("anchor:example.com:critical", 1_000 + 300 + 1));
}

#[test]
fn suppressed_repeat_keeps_first_timestamp() {
    let mut d = AlertDeduplicator::new(DedupConfig { window_seconds: 300, max_keys: 100 });
    assert!(d.should_fire("k", 1000));
    assert!(!d.should_fire("k", 1200));
    assert_eq!(d.last_fired_at("k"), Some(1000));
    assert!(d.should_fire("k", 1300));
    assert_eq!(d.last_fired_at("k"), Some(1300));
}

#[test]
fn clock_going_backwards_stays_suppressed() {
    let mut d = AlertDeduplicator::new(DedupConfig { window_seconds: 300, max_keys: 100 });
    assert!(d.should_fire("k", 1000));
    assert!(!d.should_fire("k", 10));
}

#[test]
fn zero_window_records_nothing() {
    let mut d = AlertDeduplicator::new(DedupConfig { window_seconds: 0, max_keys: 100 });
    assert!(d.should_fire("k", 1000));
    assert_eq!(d.tracked_count(), 0);
    assert_eq!(d.last_fired_at("k"), None);
}

#[test]
fn eviction_removes_the_oldest_not_the_smallest() {
    let mut d = AlertDeduplicator::new(DedupConfig { window_seconds: 9999, max_keys: 2 });
    assert!(d.should_fire("b", 1000));
    assert!(d.should_fire("a", 1001));
    // Full: "b" fired first, so it is the one evicted.
    assert!(d.should_fire("c", 1002));
    assert_eq!(d.tracked_count(), 2);
    assert_eq!(d.last_fired_at("b"), None);
    assert_eq!(d.last_fired_at("a"), Some(1001));
    assert_eq!(d.last_fired_at("c"), Some(1002));
}

#[test]
fn refiring_while_full_evicts_the_oldest() {
    let mut d = AlertDeduplicator::new(DedupConfig { window_seconds: 10, max_keys: 2 });
    assert!(d.should_fire("b", 100));
    assert!(d.should_fire("a", 150));
    // "b" re-fires after its window while full: "b" itself is the oldest.
    assert!(d.should_fire("b", 200));
    assert_eq!(d.tracked_count(), 2);
    assert_eq!(d.last_fired_at("a"), Some(150));
    assert_eq!(d.last_fired_at("b"), Some(200));
}

#[test]
fn tracked_count_never_exceeds_max_keys() {
    let mut d = AlertDeduplicator::new(DedupConfig { window_seconds: 1000, max_keys: 3 });
    for (i, key) in ["q", "w", "e", "r", "t", "y", "u"].iter().enumerate() {
        assert!(d.should_fire(key, 1000 + i as u64));
        assert!(d.tracked_count() <= 3);
    }
    assert_eq!(d.tracked_count(), 3);
}

#[test]
fn unlimited_max_keys_keeps_everything() {
    let mut d = AlertDeduplicator::new(DedupConfig { window_seconds: 1000, max_keys: 0 });
    for key in ["a", "b", "c", "d", "e"] {
        d.should_fire(key, 1);
    }
    assert_eq!(d.tracked_count(), 5);
}

#[test]
fn reset_all_forgets_every_fingerprint() {
    let mut d = AlertDeduplicator::new(DedupConfig::default());
    d.should_fire("a", 1);
    d.should_fire("b", 1);
    d.reset_all();
    assert_eq!(d.tracked_count(), 0);
    assert!(d.should_fire("a", 2));
}

#[test]
fn default_config_values() {
    let c = DedupConfig::default();
    assert_eq!(c.window_seconds, 300);
    assert_eq!(c.max_keys, 10_000);
    let d = AlertDeduplicator::default();
    assert_eq!(*d.config(), c);
}

#[test]
fn suppression_is_lazily_dropped_when_expired() {
    let mut s = AlertSuppressor::new();
    s.suppress("k", 100, "r");
    assert_eq!(s.entries().len(), 1);
    assert!(!s.is_suppressed("k", 100));
    assert_eq!(s.entries().len(), 0);
}

#[test]
fn entries_are_sorted_snapshot() {
    let mut s = AlertSuppressor::new();
    s.suppress("m", 10, "one");
    s.suppress("c", 20, "two");
    s.suppress("x", 30, "three");
    let entries = s.entries();
    let names: Vec<&str> = entries.iter().map(|e| e.fingerprint.as_str()).collect();
    assert_eq!(names, vec!["c", "m", "x"]);
    assert_eq!(entries[0].expires_at, 20);
    assert_eq!(entries[0].reason, "two");
}

#[test]
fn purge_keeps_only_active_entries() {
    let mut s = AlertSuppressor::new();
    s.suppress("a", 100, "");
    s.suppress("b", 500, "");
    s.suppress("c", 501, "");
    s.purge_expired(500);
    let names: Vec<String> = s.entries().into_iter().map(|e| e.fingerprint).collect();
    assert_eq!(names, vec!["c".to_string()]);
    s.purge_expired(500);
    assert_eq!(s.active_count(500), 1);
}

#[test]
fn suppressed_alert_does_not_touch_dedup() {
    let mut f = AlertFilter::new(DedupConfig { window_seconds: 300, max_keys: 100 });
    f.suppressor().suppress("k", 2000, "m");
    assert!(!f.should_deliver("k", 1000));
    assert_eq!(f.dedup().tracked_count(), 0);
    assert!(f.should_deliver("k", 2000));
    assert_eq!(f.dedup().last_fired_at("k"), Some(2000));
}

#[test]
fn entries_count_active_like_active_count() {
    let mut s = AlertSuppressor::new();
    s.suppress("a", 100, "");
    s.suppress("b", 300, "");
    s.suppress("c", 200, "");
    for now in [0u64, 100, 150, 200, 299, 300, 1000] {
        let listed = s.entries().iter().filter(|e| e.expires_at > now).count();
        assert_eq!(listed, s.active_count(now));
    }
    assert_eq!(s.entries().len(), 3);
}

#[test]
fn resuppressing_replaces_only_that_entry_in_the_listing() {
    let mut s = AlertSuppressor::new();
    s.suppress("c", 300, "third");
    s.suppress("a", 100, "first");
    s.suppress("b", 200, "second");
    let before = s.entries();
    s.suppress("b", 900, "extended");
    let after = s.entries();
    let names: Vec<&str> = after.iter().map(|e| e.fingerprint.as_str()).collect();
    assert_eq!(names, vec!["a", "b", "c"]);
    let others_before: Vec<_> = before.iter().filter(|e| e.fingerprint != "b").cloned().collect();
    let others_after: Vec<_> = after.iter().filter(|e| e.fingerprint != "b").cloned().collect();
    assert_eq!(others_before, others_after);
    let b: Vec<_> = after.iter().filter(|e| e.fingerprint == "b").collect();
    assert_eq!(b.len(), 1);
    assert_eq!(b[0].expires_at, 900);
    assert_eq!(b[0].reason, "extended");
}

#[test]
fn checking_drops_only_an_expired_entry_from_the_listing() {
    let mut s = AlertSuppressor::new();
    s.suppress("a", 100, "");
    s.suppress("b", 200, "");
    let before = s.entries();
    assert!(s.is_suppressed("b", 150));
    assert_eq!(s.entries(), before);
    assert!(!s.is_suppressed("zzz", 150));
    assert_eq!(s.entries(), before);
    assert!(!s.is_suppressed("a", 100));
    let names: Vec<String> = s.entries().into_iter().map(|e| e.fingerprint).collect();
    assert_eq!(names, vec!["b".to_string()]);
}

#[test]
fn purge_keeps_the_live_entries_in_order() {
    let mut s = AlertSuppressor::new();
    s.suppress("d", 400, "x");
    s.suppress("a", 100, "y");
    s.suppress("c", 300, "z");
    s.suppress("b", 250, "w");
    let before = s.entries();
    s.purge_expired(250);
    let kept: Vec<_> = before.into_iter().filter(|e| e.expires_at > 250).collect();
    assert_eq!(s.entries(), kept);
    assert_eq!(s.active_count(250), s.entries().len());
    assert_eq!(s.entries().len(), 2);
}
