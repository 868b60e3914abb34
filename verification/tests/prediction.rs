use std::collections::HashMap;
use std::sync::Mutex;

use primd::clock::{Duration, Instant};
use primd::markov::{CountModel, TransitionRow, WeightModel};
use primd::predictor::{rank_predictions, Fraction};
use primd::prefetch::{PrefetchCoordinator, StreamingPrefetcher};
use primd::trainer::train_sequences;
use primd::{
    BinarySignature, ColdTier, ConversationState, DwmColdTier, EventCatalog, EventId,
    HierarchicalIndex, MarkovPredictor, NamedScope, NextTurnPredictor, Prediction, QueryContext,
    ServedBy, SignatureIndex,
};

fn hundredth() -> CountModel {
    CountModel { num: 1, den: 100 }
}

fn whole() -> CountModel {
    CountModel { num: 1, den: 1 }
}

fn tenth() -> Fraction {
    Fraction { num: 1, den: 10 }
}

fn share(p: Fraction) -> f32 {
    p.num as f32 / p.den as f32
}

fn ev(id: u32) -> EventId {
    EventId(id)
}

fn make_sig(seed: u8) -> BinarySignature {
    BinarySignature([seed; 32])
}

#[test]
fn predicts_dominant_transition() {
    let mut m = MarkovPredictor::with_smoothing(hundredth());
    for _ in 0..100 {
        m.observe(ev(1), ev(2));
    }
    m.observe(ev(1), ev(3));
    let preds = m.predict(ev(1), 2);
    assert_eq!(preds[0].event, ev(2));
    assert!(share(preds[0].probability) > 0.9);
}

#[test]
fn returns_topk_in_descending_order() {
    let mut m = MarkovPredictor::new();
    m.observe_sequence(&[ev(1), ev(2), ev(1), ev(3), ev(1), ev(2), ev(1), ev(4)]);
    let preds = m.predict(ev(1), 3);
    assert_eq!(preds.len(), 3);
    for w in preds.windows(2) {
        assert!(share(w[0].probability) >= share(w[1].probability));
    }
    assert_eq!(preds[0].event, ev(2));
}

#[test]
fn smoothing_assigns_nonzero_to_unseen() {
    let mut m = MarkovPredictor::with_smoothing(whole());
    m.observe(ev(1), ev(2));
    m.observe(ev(1), ev(2));
    m.observe(ev(5), ev(6));
    m.observe(ev(5), ev(6));
    let preds = m.predict(ev(1), 10);
    for p in &preds {
        assert!(share(p.probability) > 0.0);
    }
    let prob_seen = share(preds.iter().find(|p| p.event == ev(2)).unwrap().probability);
    let prob_unseen = share(preds.iter().find(|p| p.event == ev(6)).unwrap().probability);
    assert!(prob_seen > prob_unseen);
}

#[test]
fn unknown_prev_returns_uniform() {
    let mut m = MarkovPredictor::with_smoothing(whole());
    m.observe(ev(1), ev(2));
    m.observe(ev(1), ev(3));
    let preds = m.predict(ev(99), 10);
    let probs: Vec<f32> = preds.iter().map(|p| share(p.probability)).collect();
    let max = probs.iter().cloned().fold(f32::MIN, f32::max);
    let min = probs.iter().cloned().fold(f32::MAX, f32::min);
    assert!((max - min).abs() < 1e-5);
}

#[test]
fn higher_order_context_overrides_lower() {
    let mut m = MarkovPredictor::with_order_and_smoothing(2, hundredth());
    for _ in 0..50 {
        m.observe_sequence(&[ev(1), ev(2)]);
    }
    for _ in 0..20 {
        m.observe_sequence(&[ev(4), ev(1), ev(3)]);
    }

    let first_order = m.predict_with_context(&[ev(1)], 2);
    assert_eq!(first_order[0].event, ev(2));

    let second_order = m.predict_with_context(&[ev(4), ev(1)], 2);
    assert_eq!(second_order[0].event, ev(3));
}

#[test]
fn backs_off_when_higher_order_unseen() {
    let mut m = MarkovPredictor::with_order_and_smoothing(3, hundredth());
    for _ in 0..50 {
        m.observe_sequence(&[ev(1), ev(2)]);
    }
    let preds = m.predict_with_context(&[ev(99), ev(100), ev(1)], 1);
    assert_eq!(preds[0].event, ev(2));
}


/// Counts that lose half their weight every half-life.
struct Decaying {
    smoothing: f32,
    half_life: Duration,
}

impl Decaying {
    fn current(&self, w: (f32, Instant), at: Instant) -> f32 {
        let elapsed = at.duration_since(w.1).nanos as f64;
        let decay = (-elapsed * std::f64::consts::LN_2 / self.half_life.nanos as f64).exp();
        w.0 * decay as f32
    }
}

impl WeightModel for Decaying {
    type Weight = (f32, Instant);

    fn zero_at(&self, at: Instant) -> (f32, Instant) {
        (0.0, at)
    }

    fn observed_at(&self, w: (f32, Instant), at: Instant) -> (f32, Instant) {
        (self.current(w, at) + 1.0, at)
    }

    fn both(&self, a: (f32, Instant), b: (f32, Instant)) -> (f32, Instant) {
        (a.0 + b.0, b.1)
    }

    fn suffices_at(&self, w: (f32, Instant), at: Instant) -> bool {
        self.current(w, at) >= 2.0
    }

    fn share_at(
        &self,
        count: Option<(f32, Instant)>,
        total: (f32, Instant),
        vocab: usize,
        at: Instant,
    ) -> Fraction {
        let seen = count.map(|w| self.current(w, at)).unwrap_or(0.0);
        let all = self.current(total, at) + self.smoothing * vocab.max(1) as f32;
        let p = (seen + self.smoothing) / all;
        Fraction { num: (p * 16_777_216.0) as u64, den: 16_777_216 }
    }

    fn zero(&self, at: Instant) -> (f32, Instant) {
        self.zero_at(at)
    }

    fn observed(&self, w: (f32, Instant), at: Instant) -> (f32, Instant) {
        self.observed_at(w, at)
    }

    fn combined(&self, a: (f32, Instant), b: (f32, Instant)) -> (f32, Instant) {
        self.both(a, b)
    }

    fn suffices(&self, w: (f32, Instant), at: Instant) -> bool {
        self.suffices_at(w, at)
    }

    fn share(
        &self,
        count: Option<(f32, Instant)>,
        total: (f32, Instant),
        vocab: usize,
        at: Instant,
    ) -> Fraction {
        self.share_at(count, total, vocab, at)
    }
}

#[test]
fn time_decay_halves_weight_over_half_life() {
    let half_life = Duration::from_secs(10);
    let mut m = MarkovPredictor::with_model(1, Decaying { smoothing: 0.01, half_life });
    let t0 = m.now();

    for _ in 0..10 {
        m.observe_at(ev(1), ev(2), t0);
    }

    let total = m.observed_transitions(ev(1)).unwrap();
    let immediate = m.model().current(total, t0);
    let after_one_hl = m.model().current(total, t0.after(half_life));

    let ratio = after_one_hl / immediate;
    assert!((immediate - 10.0).abs() < 0.01);
    assert!(
        (ratio - 0.5).abs() < 0.01,
        "expected ~0.5 after one half-life, got {ratio}"
    );
}

#[test]
fn recent_pattern_overrides_stale_pattern() {
    let half_life = Duration::from_secs(5);
    let mut m = MarkovPredictor::with_model(1, Decaying { smoothing: 0.01, half_life });
    let t0 = m.now();

    // Old pattern: 1 to 2 (50 times, long ago)
    for i in 0..50 {
        m.observe_at(ev(1), ev(2), t0.after(Duration::from_millis(i)));
    }

    // New pattern: 1 to 3 (10 times, recent, many half-lives later)
    let recent = t0.after(Duration::from_secs(60));
    for i in 0..10 {
        m.observe_at(ev(1), ev(3), recent.after(Duration::from_millis(i)));
    }

    let at = recent.after(Duration::from_millis(50));
    let preds = m.predict_with_context_at(&[ev(1)], 2, at);
    assert_eq!(preds[0].event, ev(3));
}

#[test]
fn markov_save_and_load_round_trip() {
    let mut m = MarkovPredictor::with_order_and_smoothing(2, hundredth());
    m.observe_sequence(&[ev(1), ev(2), ev(3)]);
    m.observe_sequence(&[ev(1), ev(2), ev(3)]);
    let vocab: Vec<EventId> = m.vocab().iter().map(|e| EventId(*e as u32)).collect();
    let loaded = MarkovPredictor::from_rows(2, hundredth(), &vocab, &m.rows(), m.now());
    let preds = loaded.predict_with_context(&[ev(1), ev(2)], 1);
    assert_eq!(preds[0].event, ev(3));
    assert_eq!(
        loaded.predict_with_context(&[ev(1)], 5),
        m.predict_with_context(&[ev(1)], 5)
    );
    assert_eq!(loaded.vocab(), m.vocab());
}

#[test]
fn trains_from_multiple_sequences() {
    let predictor = train_sequences(
        &vec![vec![EventId(1), EventId(2)], vec![EventId(1), EventId(2)]],
        1,
        hundredth(),
    );
    let preds = predictor.predict(EventId(1), 1);
    assert_eq!(preds[0].event, EventId(2));
}

/// Minimal stub used in `query_context` tests — returns a fixed prediction
/// regardless of context. Confirms the trait is object-safe and callable
/// behind `Box<dyn NextTurnPredictor>`.
struct StubPredictor {
    next: EventId,
    last_observed: Option<(EventId, EventId)>,
}

impl NextTurnPredictor for StubPredictor {
    type Weights = CountModel;

    fn predict(&self, _context: &[EventId], k: usize) -> Vec<Prediction> {
        if k == 0 {
            return Vec::new();
        }
        vec![Prediction {
            event: self.next,
            probability: Fraction { num: 1, den: 1 },
        }]
    }

    fn observe(&mut self, prev: EventId, next: EventId) {
        self.last_observed = Some((prev, next));
    }
}

#[test]
fn trait_is_object_safe() {
    let mut p: Box<dyn NextTurnPredictor<Weights = CountModel>> = Box::new(StubPredictor {
        next: EventId(42),
        last_observed: None,
    });
    let preds = p.predict(&[EventId(1)], 1);
    assert_eq!(preds.len(), 1);
    assert_eq!(preds[0].event, EventId(42));
    p.observe(EventId(1), EventId(2));
}

#[test]
fn default_confidence_is_one() {
    let p = StubPredictor {
        next: EventId(0),
        last_observed: None,
    };
    assert!((share(p.confidence()) - 1.0).abs() < f32::EPSILON);
}

fn build_test_index() -> (SignatureIndex, HashMap<u32, Vec<usize>>) {
    // 4 events × 100 sigs each = 400 total. Each event's sigs share a byte pattern.
    let mut sigs = Vec::with_capacity(400);
    let mut scope: HashMap<u32, Vec<usize>> = HashMap::new();
    for event in 1..=4u32 {
        let base = (event * 16) as u8;
        let indices: Vec<usize> = (0..100).map(|i| ((event - 1) as usize * 100) + i).collect();
        for i in 0..100 {
            sigs.push(BinarySignature([base ^ ((i & 0x0F) as u8); 32]));
        }
        scope.insert(event, indices);
    }
    (SignatureIndex::new(sigs), scope)
}

#[test]
fn prefetch_returns_predicted_events() {
    let (idx, scope) = build_test_index();
    let mut predictor = MarkovPredictor::with_smoothing(hundredth());
    for _ in 0..20 {
        predictor.observe_sequence(&[ev(1), ev(2), ev(3)]);
    }

    let mut coord =
        PrefetchCoordinator::new(&idx, predictor, scope).with_confidence_threshold(tenth());

    let mut state = ConversationState::new(5, Duration::from_secs(60));
    state.observe(ev(1));

    let predicted = coord.prefetch(&state);
    assert!(predicted.contains(&ev(2)));
    assert!(coord.last_predicted_scope().len() >= 100);
}

#[test]
fn cold_fallback_when_state_empty() {
    let (idx, scope) = build_test_index();
    let predictor = MarkovPredictor::new();
    let mut coord = PrefetchCoordinator::new(&idx, predictor, scope);

    let state = ConversationState::new(5, Duration::from_secs(60));
    let predicted = coord.prefetch(&state);
    assert!(predicted.is_empty());

    let result = coord.query(&make_sig(0x00), 5);
    assert!(!result.from_warm_path);
    assert_eq!(coord.stats().cold_fallbacks, 1);
}

#[test]
fn warm_scan_narrows_scope_dramatically() {
    let (idx, scope) = build_test_index();
    let mut predictor = MarkovPredictor::with_smoothing(hundredth());
    for _ in 0..20 {
        predictor.observe_sequence(&[ev(1), ev(2)]);
    }
    let mut coord =
        PrefetchCoordinator::new(&idx, predictor, scope).with_confidence_threshold(tenth());

    let mut state = ConversationState::new(5, Duration::from_secs(60));
    state.observe(ev(1));
    coord.prefetch(&state);

    let result = coord.query(&make_sig(0x20), 5);
    assert!(result.from_warm_path);
    assert!(
        result.scope_size < idx.len(),
        "warm scope ({}) should be smaller than full corpus ({})",
        result.scope_size,
        idx.len()
    );
}

fn flip_n_bits(sig: &BinarySignature, n: u32) -> BinarySignature {
    let mut out = *sig;
    for i in 0..n {
        let bit = (i * 7) as usize % 256;
        out.0[bit / 8] ^= 1 << (bit % 8);
    }
    out
}

#[test]
fn streaming_serves_final_speculatively_when_close() {
    let (idx, scope) = build_test_index();
    let mut predictor = MarkovPredictor::with_smoothing(hundredth());
    for _ in 0..20 {
        predictor.observe_sequence(&[ev(1), ev(2)]);
    }
    let coord = PrefetchCoordinator::new(&idx, predictor, scope).with_confidence_threshold(tenth());
    let mut sp = StreamingPrefetcher::new(coord, 16);

    let mut state = ConversationState::new(5, Duration::from_secs(60));
    state.observe(ev(1));
    sp.prefetch(&state);

    let partial = make_sig(0x20);
    sp.on_partial(partial, 5);
    let nudged = flip_n_bits(&partial, 4); // well under accept_drift
    let result = sp.on_final(nudged, 5, 16);

    assert!(result.served_speculatively);
    assert_eq!(sp.stats().finals_served_speculatively, 1);
}

#[test]
fn streaming_rescans_when_final_diverges() {
    let (idx, scope) = build_test_index();
    let mut predictor = MarkovPredictor::with_smoothing(hundredth());
    for _ in 0..20 {
        predictor.observe_sequence(&[ev(1), ev(2)]);
    }
    let coord = PrefetchCoordinator::new(&idx, predictor, scope).with_confidence_threshold(tenth());
    let mut sp = StreamingPrefetcher::new(coord, 16);

    let mut state = ConversationState::new(5, Duration::from_secs(60));
    state.observe(ev(1));
    sp.prefetch(&state);

    let partial = make_sig(0x20);
    sp.on_partial(partial, 5);
    let very_different = flip_n_bits(&partial, 64);
    let result = sp.on_final(very_different, 5, 16);

    assert!(!result.served_speculatively);
    assert_eq!(sp.stats().finals_required_rescan, 1);
}

#[test]
fn streaming_suppresses_redundant_partials() {
    let (idx, scope) = build_test_index();
    let mut predictor = MarkovPredictor::with_smoothing(hundredth());
    for _ in 0..20 {
        predictor.observe_sequence(&[ev(1), ev(2)]);
    }
    let coord = PrefetchCoordinator::new(&idx, predictor, scope).with_confidence_threshold(tenth());
    let mut sp = StreamingPrefetcher::new(coord, 16);

    let mut state = ConversationState::new(5, Duration::from_secs(60));
    state.observe(ev(1));
    sp.prefetch(&state);

    let base = make_sig(0x20);
    sp.on_partial(base, 5);
    for n in 1..5 {
        sp.on_partial(flip_n_bits(&base, n), 5);
    }
    // Only the first partial should have triggered a speculative scan.
    assert_eq!(sp.stats().speculative_scans, 1);
    assert_eq!(sp.stats().partial_updates, 5);
}

fn sig(seed: u8) -> BinarySignature {
    BinarySignature([seed; 32])
}

#[test]
fn finalize_updates_state_and_predictions() {
    let signatures = SignatureIndex::new(vec![sig(0x10), sig(0x11), sig(0xF0), sig(0xF1)]);
    let mut named = NamedScope::new();
    named.insert("a".to_string(), vec![0, 1]);
    named.insert("b".to_string(), vec![2, 3]);
    let events = EventCatalog::from_named_scope(&named, 4);
    let index = HierarchicalIndex::new(signatures, events);
    let mut ctx = QueryContext::new();

    let out = ctx.finalize(&index, sig(0x10), 1);
    assert_eq!(out.top_event, Some(EventId(0)));
    assert_eq!(ctx.conversation().last(), Some(EventId(0)));
}

/// Custom predictor that records every observed transition and always
/// predicts a fixed event. Used to verify that `QueryContext` flows
/// through the trait surface, not the concrete Markov impl.
struct RecordingPredictor {
    always_predict: EventId,
    observed: Mutex<Vec<(EventId, EventId)>>,
}

impl NextTurnPredictor for RecordingPredictor {
    type Weights = CountModel;

    fn predict(&self, _context: &[EventId], k: usize) -> Vec<Prediction> {
        if k == 0 {
            return Vec::new();
        }
        vec![Prediction {
            event: self.always_predict,
            probability: Fraction { num: 1, den: 1 },
        }]
    }

    fn observe(&mut self, prev: EventId, next: EventId) {
        self.observed.lock().unwrap().push((prev, next));
    }
}

/// Stub cold tier: always returns the same fixed hit when searched.
/// Used to verify QueryContext wires `cold_results` through finalize.
struct StubColdTier {
    canned_hit: (u32, EventId, usize),
    is_empty: bool,
}

impl ColdTier for StubColdTier {
    fn size(&self) -> usize {
        self.len()
    }
    fn len(&self) -> usize {
        if self.is_empty { 0 } else { 1 }
    }
    fn add_evicted(&mut self, _sig: BinarySignature, _event: EventId, _doc_idx: usize) {}
    fn search(&self, _query: &BinarySignature, _top_k: usize) -> Vec<(u32, EventId, usize)> {
        if self.is_empty {
            Vec::new()
        } else {
            vec![self.canned_hit]
        }
    }
}

#[test]
fn finalize_populates_cold_results_when_cold_tier_attached() {
    let signatures = SignatureIndex::new(vec![sig(0x10), sig(0xF0)]);
    let mut named = NamedScope::new();
    named.insert("a".to_string(), vec![0]);
    named.insert("b".to_string(), vec![1]);
    let events = EventCatalog::from_named_scope(&named, 2);
    let index = HierarchicalIndex::new(signatures, events);

    let cold = StubColdTier {
        canned_hit: (42, EventId(99), 12345),
        is_empty: false,
    };
    let mut ctx = QueryContext::new().with_cold_tier(Box::new(cold));
    assert!(ctx.has_cold_tier());

    let out = ctx.finalize(&index, sig(0x10), 1);
    assert_eq!(out.cold_results, vec![(42, EventId(99), 12345)]);
}

#[test]
fn finalize_empty_cold_results_when_no_cold_tier() {
    let signatures = SignatureIndex::new(vec![sig(0x10), sig(0xF0)]);
    let mut named = NamedScope::new();
    named.insert("a".to_string(), vec![0]);
    named.insert("b".to_string(), vec![1]);
    let events = EventCatalog::from_named_scope(&named, 2);
    let index = HierarchicalIndex::new(signatures, events);

    let mut ctx = QueryContext::new();
    assert!(!ctx.has_cold_tier());

    let out = ctx.finalize(&index, sig(0x10), 1);
    assert!(out.cold_results.is_empty());
}

#[test]
fn finalize_empty_cold_results_when_cold_tier_empty() {
    let signatures = SignatureIndex::new(vec![sig(0x10), sig(0xF0)]);
    let mut named = NamedScope::new();
    named.insert("a".to_string(), vec![0]);
    named.insert("b".to_string(), vec![1]);
    let events = EventCatalog::from_named_scope(&named, 2);
    let index = HierarchicalIndex::new(signatures, events);

    let empty_cold = StubColdTier {
        canned_hit: (0, EventId(0), 0),
        is_empty: true,
    };
    let mut ctx = QueryContext::new().with_cold_tier(Box::new(empty_cold));

    let out = ctx.finalize(&index, sig(0x10), 1);
    assert!(out.cold_results.is_empty());
}

#[test]
fn warm_next_uses_injected_predictor() {
    let signatures = SignatureIndex::new(vec![sig(0x10), sig(0x11), sig(0xF0), sig(0xF1)]);
    let mut named = NamedScope::new();
    named.insert("a".to_string(), vec![0, 1]);
    named.insert("b".to_string(), vec![2, 3]);
    let events = EventCatalog::from_named_scope(&named, 4);
    let index = HierarchicalIndex::new(signatures, events);

    let mut ctx = QueryContext::with_predictor(RecordingPredictor {
        always_predict: EventId(1),
        observed: Mutex::new(Vec::new()),
    });

    // Seed conversation state so warm_next has context.
    ctx.finalize(&index, sig(0x10), 1);
    ctx.finalize(&index, sig(0xF0), 1);

    let predicted = ctx.warm_next(&index);
    assert_eq!(predicted, vec![EventId(1)]);
}

#[test]
fn probabilities_are_smoothed_counts() {
    let mut m = MarkovPredictor::with_smoothing(CountModel { num: 1, den: 2 });
    m.observe(ev(1), ev(2));
    m.observe(ev(1), ev(2));
    m.observe(ev(1), ev(3));
    let preds = m.predict(ev(1), 5);
    // (2 + 1/2) / (3 + 3/2), then (1 + 1/2) over the same, then 1/2.
    let shares: Vec<(u32, u64, u64)> = preds
        .iter()
        .map(|p| (p.event.0, p.probability.num, p.probability.den))
        .collect();
    assert_eq!(shares, vec![(2, 5, 9), (3, 3, 9), (1, 1, 9)]);
    assert_eq!(m.observed_transitions(ev(1)), Some(3));
    assert_eq!(m.observed_transitions(ev(2)), None);
    assert_eq!(m.vocab_size(), 3);
    assert_eq!(m.vocab(), &[1usize, 2, 3][..]);
}

#[test]
fn one_observation_is_not_enough_for_a_context() {
    let mut m = MarkovPredictor::new();
    m.observe(ev(4), ev(2));
    let preds = m.predict(ev(4), 1);
    assert_eq!(preds, vec![Prediction { event: ev(2), probability: Fraction { num: 1, den: 2 } }]);
    m.observe(ev(4), ev(2));
    let again = m.predict(ev(4), 1);
    assert_eq!(again[0].probability, Fraction { num: 3, den: 4 });
}

#[test]
fn nothing_is_predicted_from_nothing() {
    let m = MarkovPredictor::default();
    assert!(m.predict(ev(1), 3).is_empty());
    assert_eq!(m.max_order(), 1);
    assert_eq!(MarkovPredictor::with_max_order(3).max_order(), 3);
}

#[test]
fn every_sequence_adds_its_transitions() {
    let sequences = vec![vec![ev(1), ev(2), ev(1), ev(2)], vec![ev(1), ev(3)], vec![ev(9)]];
    let m = train_sequences(&sequences, 2, whole());
    assert_eq!(m.observed_transitions(ev(1)), Some(3));
    // A sequence of one event says nothing.
    assert_eq!(m.vocab(), &[1usize, 2, 3][..]);
    let rows = m.rows();
    let total: u32 = rows.iter().filter(|r| r.context == vec![ev(1)]).map(|r| r.weight).sum();
    assert_eq!(total, 3);
    assert!(rows.iter().any(|r| r.context == vec![ev(1), ev(2)] && r.next == ev(1)));
}

#[test]
fn fractions_are_told_apart_exactly() {
    assert!(Fraction { num: 1, den: 3 }.is_below(Fraction { num: 2, den: 5 }));
    assert!(!Fraction { num: 2, den: 6 }.is_below(Fraction { num: 1, den: 3 }));
}

#[test]
fn ranking_keeps_the_order_of_equals() {
    let p = |event: u32, num: u64, den: u64| Prediction {
        event: ev(event),
        probability: Fraction { num, den },
    };
    let ranked = rank_predictions(&vec![p(1, 1, 4), p(2, 1, 2), p(3, 2, 4), p(4, 3, 4)], 3);
    let events: Vec<u32> = ranked.iter().map(|p| p.event.0).collect();
    assert_eq!(events, vec![4, 2, 3]);
}

#[test]
fn unlikely_events_are_not_staged() {
    let (idx, scope) = build_test_index();
    let mut coord = PrefetchCoordinator::new(&idx, MarkovPredictor::new(), scope)
        .with_confidence_threshold(Fraction { num: 1, den: 2 })
        .with_top_n_events(4);
    let predictions = vec![
        Prediction { event: ev(3), probability: Fraction { num: 3, den: 4 } },
        Prediction { event: ev(2), probability: Fraction { num: 1, den: 4 } },
        Prediction { event: ev(9), probability: Fraction { num: 1, den: 2 } },
    ];
    assert_eq!(coord.stage(&predictions), vec![ev(3), ev(9)]);
    let docs: Vec<usize> = (200..300).collect();
    assert_eq!(coord.last_predicted_scope(), docs.as_slice());
    assert_eq!(coord.last_predicted_events(), &[ev(3), ev(9)][..]);
    let result = coord.query(&make_sig(0x10), 2);
    assert!(result.from_warm_path);
    assert_eq!(result.scope_size, 100);
    assert!(result.results.iter().all(|(_, i)| 200 <= *i && *i < 300));
    assert_eq!(coord.stats().warm_misses, 1);
    let at_home = coord.query(&make_sig(0x30), 2);
    assert_eq!(at_home.results[0].0, 0);
    assert_eq!(coord.stats().warm_hits, 1);
    assert_eq!(coord.stats().queries, 2);
    assert_eq!(coord.stats().hit_rate(), Fraction { num: 1, den: 2 });
}

#[test]
fn a_new_utterance_is_scanned_anew() {
    let (idx, scope) = build_test_index();
    let mut coord = PrefetchCoordinator::new(&idx, MarkovPredictor::new(), scope);
    coord.stage(&vec![Prediction { event: ev(2), probability: Fraction { num: 1, den: 1 } }]);
    let mut sp = StreamingPrefetcher::new(coord, 16);
    sp.on_partial(make_sig(0x20), 5);
    sp.end_utterance();
    let result = sp.on_final(make_sig(0x20), 5, 16);
    assert!(!result.served_speculatively);
    assert_eq!(result.results[0].0, 0);
    assert_eq!(sp.stats().utterances, 1);
    assert_eq!(sp.stats().finals_required_rescan, 1);
    assert_eq!(sp.stats().speculative_hit_rate(), Fraction { num: 0, den: 1 });
    assert_eq!(sp.coordinator().last_predicted_events(), &[ev(2)][..]);
}

fn two_events() -> HierarchicalIndex {
    let signatures = SignatureIndex::new(vec![sig(0x10), sig(0x11), sig(0xF0), sig(0xF1)]);
    let mut named = NamedScope::new();
    named.insert("a".to_string(), vec![0, 1]);
    named.insert("b".to_string(), vec![2, 3]);
    HierarchicalIndex::new(signatures, EventCatalog::from_named_scope(&named, 4))
}

#[test]
fn a_repeated_query_comes_from_the_cache() {
    let index = two_events();
    let mut ctx = QueryContext::default();
    let first = ctx.finalize(&index, sig(0x10), 2);
    assert_ne!(first.served_by, ServedBy::DeltaCache);
    let second = ctx.finalize(&index, sig(0x10), 2);
    assert_eq!(second.served_by, ServedBy::DeltaCache);
    assert_eq!(second.results, first.results);
}

#[test]
fn a_close_partial_serves_the_final() {
    let index = two_events();
    let mut ctx = QueryContext::new();
    ctx.observe_partial(&index, sig(0xF0), 2);
    let out = ctx.finalize(&index, sig(0xF0), 2);
    assert_eq!(out.served_by, ServedBy::Speculative);
    assert_eq!(out.results, vec![(0, 2), (32, 3)]);
    assert_eq!(out.top_event, Some(ev(1)));
}

#[test]
fn a_reset_forgets_the_partial() {
    let index = two_events();
    let mut ctx = QueryContext::new();
    ctx.observe_partial(&index, sig(0xF0), 2);
    ctx.reset_utterance();
    let out = ctx.finalize(&index, sig(0xF0), 2);
    assert_ne!(out.served_by, ServedBy::Speculative);
}

#[test]
fn predicted_documents_narrow_the_scan() {
    let index = two_events();
    let mut ctx = QueryContext::new();
    let staged = ctx.stage(
        &index,
        &vec![Prediction { event: ev(1), probability: Fraction { num: 1, den: 1 } }],
    );
    assert_eq!(staged, vec![ev(1)]);
    assert_eq!(ctx.predicted_scope_size(), 2);
    let out = ctx.finalize(&index, sig(0x10), 1);
    assert_eq!(out.served_by, ServedBy::ShardScan);
    assert_eq!(out.results, vec![(96, 2)]);
}

#[test]
fn the_transition_between_finals_is_observed() {
    let index = two_events();
    let mut ctx = QueryContext::with_predictor(RecordingPredictor {
        always_predict: EventId(1),
        observed: Mutex::new(Vec::new()),
    });
    ctx.finalize(&index, sig(0x10), 1);
    ctx.finalize(&index, sig(0xF0), 1);
    let seen = ctx.predictor().observed.lock().unwrap().clone();
    assert_eq!(seen, vec![(EventId(0), EventId(1))]);
}

#[test]
fn a_real_cold_tier_answers_beside_the_index() {
    let index = two_events();
    let mut cold = DwmColdTier::empty();
    cold.add_evicted(sig(0x12), EventId(7), 77);
    let mut ctx = QueryContext::new().with_cold_tier(Box::new(cold));
    let out = ctx.finalize(&index, sig(0x10), 1);
    assert_eq!(out.cold_results, vec![(32, EventId(7), 77)]);
    assert_eq!(ctx.cold_tier().map(|t| t.len()), Some(1));
}

#[test]
fn probabilities_add_up_to_one() {
    let sequences = vec![
        vec![ev(1), ev(2), ev(1), ev(3), ev(1), ev(2)],
        vec![ev(5), ev(1), ev(5)],
    ];
    let m = train_sequences(&sequences, 2, CountModel { num: 1, den: 3 });
    for context in [vec![ev(1)], vec![ev(1), ev(2)], vec![ev(77)]] {
        let preds = m.predict_with_context(&context, 10);
        assert_eq!(preds.len(), 4);
        let den = preds[0].probability.den;
        assert!(preds.iter().all(|p| p.probability.den == den));
        let sum: u64 = preds.iter().map(|p| p.probability.num).sum();
        assert_eq!(sum, den);
        for (i, p) in preds.iter().enumerate() {
            assert!(preds[..i].iter().all(|q| q.event != p.event));
        }
    }
}

#[test]
fn predictions_are_the_same_at_any_time() {
    let mut m = MarkovPredictor::with_smoothing(hundredth());
    for i in 0..5 {
        m.observe_at(ev(1), ev(2), Instant { nanos: i });
    }
    let soon = m.predict_with_context_at(&[ev(1)], 2, Instant { nanos: 5 });
    let late = m.predict_with_context_at(&[ev(1)], 2, Instant { nanos: u128::MAX });
    assert_eq!(soon, late);
}

#[test]
fn what_finalize_taught_shows_in_warm_next() {
    let index = two_events();
    let mut ctx = QueryContext::new();
    ctx.finalize(&index, sig(0x10), 1);
    // One event and no transition: nothing is known yet.
    assert!(ctx.warm_next(&index).is_empty());
    for _ in 0..3 {
        ctx.finalize(&index, sig(0xF0), 1);
        ctx.finalize(&index, sig(0x10), 1);
    }
    // The last event was the first one, which the second has always followed.
    assert_eq!(ctx.warm_next(&index)[0], ev(1));
    assert_eq!(ctx.predictor().observed_transitions(ev(0)), Some(3));
    ctx.finalize(&index, sig(0xF0), 1);
    assert_eq!(ctx.warm_next(&index)[0], ev(0));
}

#[test]
fn a_query_that_came_from_the_cache_comes_from_it_again() {
    let index = two_events();
    let mut ctx = QueryContext::new();
    let first = ctx.finalize(&index, sig(0xF0), 2);
    let second = ctx.finalize(&index, sig(0xF0), 2);
    let third = ctx.finalize(&index, sig(0xF0), 2);
    assert_eq!(second.served_by, ServedBy::DeltaCache);
    assert_eq!(third.served_by, ServedBy::DeltaCache);
    assert_eq!(third.results, first.results);
    assert_eq!(third.top_event, first.top_event);
}

fn row(next: u32, weight: u32) -> TransitionRow<u32> {
    TransitionRow { context: vec![ev(1)], next: ev(next), weight }
}

fn weighed(rows: &[TransitionRow<u32>]) -> MarkovPredictor<CountModel> {
    let vocab = [ev(1), ev(2), ev(3)];
    MarkovPredictor::from_rows(1, whole(), &vocab, rows, Instant { nanos: 0 })
}

#[test]
fn large_counts_are_kept_to_24_binary_digits() {
    for (a, b) in [
        (10_000_000u32, 10_000_000u32),
        (16_777_215, 1),
        (16_777_216, 1),
        (16_777_216, 3),
        (16_777_218, 1),
        (33_554_432, 2),
        (33_554_432, 6),
        (2_000_000_000, 1_999_999_999),
    ] {
        let p = weighed(&[row(2, a), row(3, b)]);
        assert_eq!(p.observed_transitions(ev(1)), Some((a as f32 + b as f32) as u32));
    }
    assert_eq!(
        weighed(&[row(2, 10_000_000), row(3, 10_000_000)]).observed_transitions(ev(1)),
        Some(20_000_000)
    );
    let mut most = weighed(&[row(2, u32::MAX), row(3, u32::MAX)]);
    assert_eq!(most.observed_transitions(ev(1)), Some(u32::MAX));
    most.observe(ev(1), ev(2));
    assert_eq!(most.observed_transitions(ev(1)), Some(u32::MAX));
    for (before, after) in
        [(16_777_215u32, 16_777_216u32), (16_777_216, 16_777_216), (20_000_000, 20_000_000)]
    {
        let mut p = weighed(&[row(2, before)]);
        p.observe(ev(1), ev(2));
        assert_eq!(p.observed_transitions(ev(1)), Some(after));
        assert_eq!(p.rows()[0].weight, after);
    }
}

#[test]
fn saved_counts_read_back_are_the_same() {
    let mut p = MarkovPredictor::with_max_order(2);
    p.observe_sequence(&[ev(1), ev(2), ev(3), ev(1), ev(2), ev(2)]);
    let q = MarkovPredictor::from_rows(
        2,
        whole(),
        &[ev(1), ev(2), ev(3)],
        &p.rows(),
        Instant { nanos: 0 },
    );
    for e in 1..4 {
        assert_eq!(q.observed_transitions(ev(e)), p.observed_transitions(ev(e)));
    }
    let context = [ev(1), ev(2)];
    assert_eq!(q.predict_with_context(&context, 3), p.predict_with_context(&context, 3));
    assert_eq!(p.clone().predict_with_context(&context, 3), p.predict_with_context(&context, 3));
}

#[test]
fn prefetching_again_stages_the_same() {
    let (index, scope) = build_test_index();
    let mut predictor = MarkovPredictor::with_smoothing(hundredth());
    predictor.observe_sequence(&[ev(0), ev(1), ev(0), ev(1), ev(2), ev(0)]);
    let mut coord = PrefetchCoordinator::new(&index, predictor, scope);
    let mut state = ConversationState::new(8, Duration::from_secs(60));
    state.observe(ev(0));
    let once = coord.prefetch(&state);
    let docs = coord.last_predicted_scope().to_vec();
    let twice = coord.prefetch(&state);
    assert!(!once.is_empty() && !docs.is_empty());
    assert_eq!(twice, once);
    assert_eq!(coord.last_predicted_scope(), docs.as_slice());
    assert_eq!(coord.stats().queries, 0);
}

#[test]
fn markov_predictors_can_be_got_at() {
    let mut m = MarkovPredictor::new();
    m.observe(ev(1), ev(2));
    let p: Box<dyn NextTurnPredictor<Weights = CountModel>> = Box::new(m);
    assert_eq!(p.as_markov().unwrap().observed_transitions(ev(1)), Some(1));
    let decaying = Decaying { smoothing: 1.0, half_life: Duration::from_secs(1) };
    let mut aging = MarkovPredictor::with_model(1, decaying);
    aging.observe(ev(1), ev(2));
    assert!(aging.as_markov().unwrap().observed_transitions(ev(1)).is_some());
    let stub = StubPredictor { next: ev(1), last_observed: None };
    assert!(stub.as_markov().is_none());
}
