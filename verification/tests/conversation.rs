use std::collections::hash_map::DefaultHasher;
use std::hash::{Hash, Hasher};

use primd::clock::{Duration, Instant};
use primd::predictor::Fraction;
use primd::{
    BinarySignature, ConversationState, DeltaCache, EmitDecision, EventId, StreamingQuery,
};

fn ev(id: u32) -> EventId {
    EventId(id)
}

fn make_sig(seed: u8) -> BinarySignature {
    BinarySignature([seed; 32])
}

fn flip_n_bits(sig: &BinarySignature, n: u32) -> BinarySignature {
    let mut out = *sig;
    for i in 0..n {
        let bit = (i * 7) as usize % 256;
        out.0[bit / 8] ^= 1 << (bit % 8);
    }
    out
}

#[test]
fn miss_when_empty() {
    let mut cache = DeltaCache::new(16, 64);
    let sh = DeltaCache::scope_hash(&[ev(1), ev(2)]);
    assert!(cache.lookup(sh, &make_sig(0xAA), 10).is_none());
    assert_eq!(cache.stats().misses, 1);
    assert_eq!(cache.stats().hits, 0);
}

#[test]
fn exact_query_hits() {
    let mut cache = DeltaCache::new(16, 64);
    let sh = DeltaCache::scope_hash(&[ev(1), ev(2)]);
    let q = make_sig(0xAA);
    let results = vec![(0, 42), (3, 17)];
    cache.insert(sh, q, 2, results.clone());

    let hit = cache.lookup(sh, &q, 2).expect("should hit");
    assert_eq!(hit, results);
    assert_eq!(cache.stats().hits, 1);
}

#[test]
fn nearby_query_hits_within_tolerance() {
    let mut cache = DeltaCache::new(16, 64);
    let sh = DeltaCache::scope_hash(&[ev(1), ev(2)]);
    let q = make_sig(0xAA);
    let results = vec![(0, 42)];
    cache.insert(sh, q, 1, results.clone());

    let nearby = flip_n_bits(&q, 8);
    let hit = cache.lookup(sh, &nearby, 1).expect("should hit");
    assert_eq!(hit, results);
}

#[test]
fn far_query_misses() {
    let mut cache = DeltaCache::new(16, 64);
    let sh = DeltaCache::scope_hash(&[ev(1), ev(2)]);
    let q = make_sig(0xAA);
    cache.insert(sh, q, 1, vec![(0, 42)]);

    let far = flip_n_bits(&q, 32);
    assert!(cache.lookup(sh, &far, 1).is_none());
}

#[test]
fn different_scope_misses() {
    let mut cache = DeltaCache::new(16, 64);
    let sh1 = DeltaCache::scope_hash(&[ev(1), ev(2)]);
    let sh2 = DeltaCache::scope_hash(&[ev(3), ev(4)]);
    let q = make_sig(0xAA);
    cache.insert(sh1, q, 1, vec![(0, 42)]);

    assert!(cache.lookup(sh2, &q, 1).is_none());
}

#[test]
fn scope_hash_is_order_independent() {
    let h1 = DeltaCache::scope_hash(&[ev(1), ev(2), ev(3)]);
    let h2 = DeltaCache::scope_hash(&[ev(3), ev(1), ev(2)]);
    assert_eq!(h1, h2);
}

#[test]
fn different_k_misses() {
    let mut cache = DeltaCache::new(16, 64);
    let sh = DeltaCache::scope_hash(&[ev(1)]);
    let q = make_sig(0xAA);
    cache.insert(sh, q, 5, vec![(0, 42)]);
    assert!(cache.lookup(sh, &q, 10).is_none());
}

#[test]
fn lru_evicts_oldest() {
    let mut cache = DeltaCache::new(16, 2); // capacity 2 per scope
    let sh = DeltaCache::scope_hash(&[ev(1)]);

    let a = make_sig(0x11);
    let b = make_sig(0x22);
    let c = make_sig(0x33);

    cache.insert(sh, a, 1, vec![(0, 1)]);
    cache.insert(sh, b, 1, vec![(0, 2)]);
    // Touch a so b becomes LRU
    let _ = cache.lookup(sh, &a, 1);
    cache.insert(sh, c, 1, vec![(0, 3)]); // should evict b

    assert!(cache.lookup(sh, &a, 1).is_some());
    assert!(cache.lookup(sh, &c, 1).is_some());
    // b should be gone (and far from a/c so won't fuzzy-match)
    let q_b_far = flip_n_bits(&b, 64);
    assert!(cache.lookup(sh, &q_b_far, 1).is_none());
    assert_eq!(cache.stats().evictions, 1);
}

#[test]
fn closest_match_wins_when_multiple_in_tolerance() {
    let mut cache = DeltaCache::new(32, 64);
    let sh = DeltaCache::scope_hash(&[ev(1)]);
    let q = make_sig(0xAA);
    let near = flip_n_bits(&q, 4);
    let far = flip_n_bits(&q, 24);

    cache.insert(sh, far, 1, vec![(99, 99)]);
    cache.insert(sh, near, 1, vec![(0, 42)]);

    let hit = cache.lookup(sh, &q, 1).unwrap();
    assert_eq!(hit, vec![(0, 42)]);
}

#[test]
fn slides_when_full() {
    let mut s = ConversationState::new(3, Duration::from_secs(60));
    for i in 0..5u32 {
        s.observe(EventId(i));
    }
    assert_eq!(s.len(), 3);
    assert_eq!(s.last(), Some(EventId(4)));
    assert_eq!(s.last_n(3), vec![EventId(2), EventId(3), EventId(4)]);
}

#[test]
fn evicts_stale() {
    let mut s = ConversationState::new(10, Duration::from_millis(100));
    let t0 = s.now();
    s.observe_at(EventId(1), t0);
    s.observe_at(EventId(2), t0.after(Duration::from_millis(50)));
    s.observe_at(EventId(3), t0.after(Duration::from_millis(300)));
    assert_eq!(s.len(), 1);
    assert_eq!(s.last(), Some(EventId(3)));
}

#[test]
fn last_n_returns_chronological_order() {
    let mut s = ConversationState::new(5, Duration::from_secs(60));
    s.observe(EventId(10));
    s.observe(EventId(20));
    s.observe(EventId(30));
    assert_eq!(s.last_n(2), vec![EventId(20), EventId(30)]);
    assert_eq!(s.last_n(5), vec![EventId(10), EventId(20), EventId(30)]);
}

#[test]
fn first_partial_always_emits() {
    let mut q = StreamingQuery::new(16);
    let s = make_sig(0xAA);
    match q.update(s) {
        EmitDecision::Emitted(sig) => assert_eq!(sig, s),
        EmitDecision::Suppressed => panic!("first partial should always emit"),
    }
    assert_eq!(q.stats().updates_emitted, 1);
}

#[test]
fn small_drift_is_suppressed() {
    let mut q = StreamingQuery::new(16);
    let base = make_sig(0xAA);
    q.update(base);
    // Flip 4 bits — well below threshold of 16
    let nudged = flip_n_bits(&base, 4);
    assert!(matches!(q.update(nudged), EmitDecision::Suppressed));
    assert_eq!(q.stats().updates_emitted, 1);
    assert_eq!(q.stats().updates_suppressed, 1);
}

#[test]
fn large_drift_emits() {
    let mut q = StreamingQuery::new(16);
    let base = make_sig(0xAA);
    q.update(base);
    let drifted = flip_n_bits(&base, 32);
    assert!(matches!(q.update(drifted), EmitDecision::Emitted(_)));
    assert_eq!(q.stats().updates_emitted, 2);
}

#[test]
fn drift_is_measured_from_last_emit_not_last_seen() {
    // Sequence: base (emit) -> +4 bits (suppress) -> +8 bits (suppress) ->
    // +20 bits cumulative (emit because dist(base, this) >= 16)
    let mut q = StreamingQuery::new(16);
    let base = make_sig(0xAA);
    q.update(base);

    let s4 = flip_n_bits(&base, 4);
    let s8 = flip_n_bits(&base, 8);
    let s20 = flip_n_bits(&base, 20);

    assert!(matches!(q.update(s4), EmitDecision::Suppressed));
    assert!(matches!(q.update(s8), EmitDecision::Suppressed));
    assert!(matches!(q.update(s20), EmitDecision::Emitted(_)));
}

#[test]
fn reset_makes_next_partial_emit() {
    let mut q = StreamingQuery::new(16);
    let s = make_sig(0x55);
    q.update(s);
    q.reset();
    assert!(matches!(q.update(s), EmitDecision::Emitted(_)));
}

#[test]
fn current_tracks_latest_regardless_of_emit() {
    let mut q = StreamingQuery::new(64);
    let a = make_sig(0x11);
    let b = flip_n_bits(&a, 4);
    q.update(a);
    q.update(b);
    assert_eq!(q.current(), Some(b));
    assert_eq!(q.last_emitted(), Some(a));
}

#[test]
fn scope_hash_is_that_of_the_sorted_ids() {
    let mut h = DefaultHasher::new();
    vec![1u32, 2, 3].hash(&mut h);
    assert_eq!(DeltaCache::scope_hash(&[ev(3), ev(1), ev(2)]), h.finish());
    let mut none = DefaultHasher::new();
    Vec::<u32>::new().hash(&mut none);
    assert_eq!(DeltaCache::scope_hash(&[]), none.finish());
}

#[test]
fn what_was_inserted_is_served() {
    let mut cache = DeltaCache::new(0, 1);
    cache.insert(7, make_sig(0x01), 3, vec![(1, 2)]);
    assert_eq!(cache.lookup(7, &make_sig(0x01), 3), Some(vec![(1, 2)]));
    cache.insert(7, make_sig(0x02), 3, vec![(3, 4)]);
    assert_eq!(cache.lookup(7, &make_sig(0x02), 3), Some(vec![(3, 4)]));
    assert!(cache.lookup(7, &make_sig(0x01), 3).is_none());
    assert_eq!(cache.len(), 1);
    assert_eq!(cache.stats().inserts, 2);
    assert_eq!(cache.stats().evictions, 1);
}

#[test]
fn cleared_cache_is_empty() {
    let mut cache = DeltaCache::new(16, 4);
    cache.insert(1, make_sig(0x01), 1, vec![(0, 0)]);
    assert!(!cache.is_empty());
    cache.clear();
    assert!(cache.is_empty());
    assert!(cache.lookup(1, &make_sig(0x01), 1).is_none());
}

#[test]
fn stale_observations_leave_at_the_given_moment() {
    let mut s = ConversationState::new(4, Duration::from_secs(1));
    let t0 = Instant { nanos: 5 };
    s.observe_at(ev(1), t0);
    s.observe_at(ev(2), t0.after(Duration::from_millis(600)));
    s.evict_stale(t0.after(Duration::from_secs(1)));
    assert_eq!(s.len(), 2);
    s.evict_stale(Instant { nanos: 1_000_000_006 });
    assert_eq!(s.last_n(9), vec![ev(2)]);
    let events: Vec<EventId> = s.iter().map(|o| o.event).collect();
    assert_eq!(events, vec![ev(2)]);
}

#[test]
fn moments_never_lie_before_each_other() {
    let early = Instant { nanos: 3 };
    let late = early.after(Duration::from_secs(2));
    assert_eq!(late.duration_since(early), Duration { nanos: 2_000_000_000 });
    assert_eq!(early.duration_since(late), Duration { nanos: 0 });
}

#[test]
fn the_threshold_itself_emits() {
    let mut q = StreamingQuery::new(4);
    let base = make_sig(0x00);
    q.update(base);
    assert_eq!(q.update(flip_n_bits(&base, 3)), EmitDecision::Suppressed);
    let drifted = flip_n_bits(&base, 4);
    assert_eq!(q.update(drifted), EmitDecision::Emitted(drifted));
    q.reset();
    assert_eq!(q.current(), None);
    assert_eq!(q.last_emitted(), None);
    assert_eq!(q.stats().updates_received, 3);
}

#[test]
fn rates_are_shares_of_all_uses() {
    let mut cache = DeltaCache::new(16, 4);
    assert_eq!(cache.stats().hit_rate(), Fraction { num: 0, den: 1 });
    cache.insert(1, make_sig(0x01), 1, vec![(0, 0)]);
    assert!(cache.lookup(1, &make_sig(0x01), 1).is_some());
    assert!(cache.lookup(1, &make_sig(0xFE), 1).is_none());
    assert!(cache.lookup(2, &make_sig(0x01), 1).is_none());
    assert_eq!(cache.stats().hit_rate(), Fraction { num: 1, den: 3 });

    let mut q = StreamingQuery::new(16);
    q.update(make_sig(0x01));
    q.update(make_sig(0x01));
    assert_eq!(q.stats().emit_rate(), Fraction { num: 1, den: 2 });
}

#[test]
fn clocks_count_from_their_first_reading() {
    let state = ConversationState::new(4, Duration::from_secs(60));
    let made = std::time::Instant::now();
    while made.elapsed() < std::time::Duration::from_millis(200) {}
    let first = state.now();
    assert!(first.nanos < Duration::from_millis(200).nanos);
    let second = state.now();
    assert!(second.nanos >= first.nanos);
}
