use std::collections::HashMap;

use instant_distance::{Builder, HnswMap, Point, Search};
use primd::hnsw::{EventHnswCache, HnswBuildOptions, ShardStep};
use primd::hybrid::{trusted, HybridPredictor};
use primd::markov::CountModel;
use primd::predictor::Fraction;
use primd::successor::{strongest_others, SuccessorTable};
use primd::{BinarySignature, EventId, MarkovPredictor, NextTurnPredictor, Prediction};
use rand::rngs::StdRng;
use rand::{Rng, SeedableRng};

fn share(p: Fraction) -> f32 {
    p.num as f32 / p.den as f32
}

/// Successor representation by temporal differences.
struct SrPredictor {
    m: SuccessorTable<f32>,
    gamma: f32,
    eta_base: f32,
}

impl SrPredictor {
    fn new() -> Self {
        SrPredictor { m: SuccessorTable::new(), gamma: 0.9, eta_base: 0.1 }
    }

    fn with_gamma(mut self, gamma: f32) -> Self {
        self.gamma = gamma;
        self
    }

    fn with_eta_base(mut self, eta_base: f32) -> Self {
        self.eta_base = eta_base;
        self
    }

    fn with_warmup(mut self, warmup: u64) -> Self {
        self.m = self.m.with_warmup(warmup);
        self
    }

    fn get(&self, s: EventId, c: EventId) -> f32 {
        self.m.get(s, c).unwrap_or(0.0)
    }
}

impl NextTurnPredictor for SrPredictor {
    type Weights = CountModel;

    fn predict(&self, context: &[EventId], k: usize) -> Vec<Prediction> {
        let prev = match context.last() {
            Some(&e) => e,
            None => return Vec::new(),
        };
        let row: Vec<(EventId, u32)> = self
            .m
            .row(prev)
            .into_iter()
            .map(|(e, v)| (e, v.max(0.0).to_bits()))
            .collect();
        let strongest = strongest_others(&row, prev, k);
        let sum: f32 = strongest.iter().map(|(_, v)| f32::from_bits(*v)).sum();
        if sum <= 0.0 {
            return Vec::new();
        }
        strongest
            .into_iter()
            .map(|(event, v)| Prediction {
                event,
                probability: Fraction {
                    num: (f32::from_bits(v) / sum * 16_777_216.0) as u64,
                    den: 16_777_216,
                },
            })
            .collect()
    }

    fn observe(&mut self, prev: EventId, next: EventId) {
        let eta = self.eta_base / (1.0 + 0.01 * self.m.observations() as f32);
        let gamma = self.gamma;
        self.m.observe(prev, next, 1.0, |own: bool, ahead: Option<f32>, now: Option<f32>| {
            let indicator = if own { 1.0 } else { 0.0 };
            let target = indicator + gamma * ahead.unwrap_or(0.0);
            let current = now.unwrap_or(0.0);
            current + eta * (target - current)
        });
    }

    fn confidence(&self) -> Fraction {
        self.m.warmth()
    }
}

fn ev(id: u32) -> EventId {
    EventId(id)
}

/// Analytical SR for a 3-state cyclic chain A→B→C→A under deterministic
/// policy with discount γ. Every state visits every other state exactly
/// once per 3-step cycle, so:
///
///   M[A,A] = 1 + γ³ + γ⁶ + ... = 1 / (1 − γ³)
///   M[A,B] = γ + γ⁴ + γ⁷ + ... = γ / (1 − γ³)
///   M[A,C] = γ² + γ⁵ + γ⁸ + ... = γ² / (1 − γ³)
fn analytical_cyclic(gamma: f32) -> [[f32; 3]; 3] {
    let denom = 1.0 - gamma.powi(3);
    let row_a = [1.0 / denom, gamma / denom, gamma.powi(2) / denom];
    // Rotate one step for B's row, two for C's row.
    let row_b = [row_a[2], row_a[0], row_a[1]];
    let row_c = [row_a[1], row_a[2], row_a[0]];
    [row_a, row_b, row_c]
}

#[test]
fn self_visit_initialized_on_first_observation() {
    let mut sr = SrPredictor::new();
    sr.observe(ev(0), ev(1));
    assert!(
        (sr.get(ev(0), ev(0)) - 1.0).abs() < 0.01,
        "M[A,A] should be ~1.0 after init + first update; got {}",
        sr.get(ev(0), ev(0))
    );
    // M[B, B] is initialized on observe but never updated (B is not a source yet).
    assert!((sr.get(ev(1), ev(1)) - 1.0).abs() < 1e-6);
}

#[test]
fn converges_to_analytical_cyclic_chain() {
    let gamma = 0.5;
    let mut sr = SrPredictor::new()
        .with_gamma(gamma)
        .with_eta_base(0.05)
        .with_warmup(1);
    let expected = analytical_cyclic(gamma);

    // Train on many cycles of A → B → C → A.
    let chain = [ev(0), ev(1), ev(2)];
    for _ in 0..3000 {
        for i in 0..chain.len() {
            let prev = chain[i];
            let next = chain[(i + 1) % chain.len()];
            sr.observe(prev, next);
        }
    }

    let tol = 0.05;
    for (i, &src) in chain.iter().enumerate() {
        for (j, &tgt) in chain.iter().enumerate() {
            let got = sr.get(src, tgt);
            let want = expected[i][j];
            assert!(
                (got - want).abs() < tol,
                "M[{}][{}] = {got:.4}, expected {want:.4} (tol {tol})",
                src.0,
                tgt.0
            );
        }
    }
}

#[test]
fn predict_returns_topk_excluding_self() {
    let mut sr = SrPredictor::new()
        .with_gamma(0.5)
        .with_eta_base(0.1)
        .with_warmup(1);
    // Train A → B and A → C interleaved with a 4:1 ratio. TD(0) has
    // recency bias when observations arrive in blocks (later blocks
    // overwrite earlier ones), so interleaving is required to get the
    // long-run mixing-distribution ranking we want to test.
    for _ in 0..50 {
        for _ in 0..4 {
            sr.observe(ev(0), ev(1));
        }
        sr.observe(ev(0), ev(2));
    }

    let preds = sr.predict(&[ev(0)], 3);
    assert!(!preds.is_empty());
    // self (A=0) must not appear in predictions
    assert!(preds.iter().all(|p| p.event != ev(0)));
    // B (more frequent) should rank above C
    let rank_b = preds.iter().position(|p| p.event == ev(1));
    let rank_c = preds.iter().position(|p| p.event == ev(2));
    assert!(
        rank_b.is_some() && rank_c.is_some() && rank_b.unwrap() < rank_c.unwrap(),
        "expected B before C, got preds {:?}",
        preds
    );
}

#[test]
fn predict_empty_when_no_data() {
    let sr = SrPredictor::new();
    assert!(sr.predict(&[ev(0)], 5).is_empty());
    assert!(sr.predict(&[], 5).is_empty());
}

#[test]
fn predict_zero_k_is_empty() {
    let mut sr = SrPredictor::new().with_warmup(1);
    sr.observe(ev(0), ev(1));
    assert!(sr.predict(&[ev(0)], 0).is_empty());
}

#[test]
fn lib_confidence_grows_with_observations() {
    let mut sr = SrPredictor::new().with_warmup(10);
    assert!(share(sr.confidence()) < 0.01);
    for _ in 0..5 {
        sr.observe(ev(0), ev(1));
    }
    let mid = share(sr.confidence());
    assert!(mid > 0.4 && mid < 0.6, "expected ~0.5, got {mid}");
    for _ in 0..20 {
        sr.observe(ev(0), ev(1));
    }
    assert!((share(sr.confidence()) - 1.0).abs() < 1e-6);
}

#[test]
fn trait_object_dispatch() {
    let mut p: Box<dyn NextTurnPredictor<Weights = CountModel>> = Box::new(
        SrPredictor::new()
            .with_warmup(1)
            .with_eta_base(0.1)
            .with_gamma(0.5),
    );
    for _ in 0..30 {
        p.observe(ev(0), ev(1));
    }
    let preds = p.predict(&[ev(0)], 1);
    assert_eq!(preds.len(), 1);
    assert_eq!(preds[0].event, ev(1));
    assert!(share(p.confidence()) > 0.9);
}

#[test]
fn hybrid_uses_markov_when_sr_cold() {
    let mut hybrid =
        HybridPredictor::new(SrPredictor::new().with_warmup(1000), MarkovPredictor::new())
            .with_threshold(Fraction { num: 1, den: 2 });
    // SR is cold (confidence very small), but Markov is fed enough to predict.
    for _ in 0..20 {
        hybrid.observe(ev(0), ev(7));
    }
    let preds = hybrid.predict(&[ev(0)], 1);
    assert!(!preds.is_empty(), "hybrid should fall back to Markov");
    assert_eq!(preds[0].event, ev(7));
}

#[test]
fn hybrid_switches_to_sr_when_warm() {
    let mut hybrid = HybridPredictor::new(
        SrPredictor::new()
            .with_warmup(5)
            .with_eta_base(0.2)
            .with_gamma(0.5),
        MarkovPredictor::new(),
    )
    .with_threshold(Fraction { num: 1, den: 2 });
    for _ in 0..50 {
        hybrid.observe(ev(0), ev(7));
    }
    assert!(share(hybrid.sr().confidence()) >= 0.5);
    let preds = hybrid.predict(&[ev(0)], 1);
    assert!(!preds.is_empty());
    assert_eq!(preds[0].event, ev(7));
}


#[test]
fn save_and_load_roundtrip() {
    let mut sr = SrPredictor::new().with_gamma(0.7).with_eta_base(0.1).with_warmup(20);
    for _ in 0..30 {
        sr.observe(ev(0), ev(1));
        sr.observe(ev(1), ev(2));
    }
    let mut loaded = SrPredictor::new().with_gamma(0.7).with_warmup(20);
    for s in 0..3 {
        for (c, v) in sr.m.row(ev(s)) {
            loaded.m.set(ev(s), c, v);
        }
    }
    let vocab: Vec<EventId> = sr.m.vocab().iter().map(|e| EventId(*e as u32)).collect();
    loaded.m.restore(sr.m.observations(), &vocab);

    assert_eq!(loaded.m.observations(), 60);
    assert_eq!(loaded.m.vocab_size(), 3);
    for src in [ev(0), ev(1), ev(2)] {
        for tgt in [ev(0), ev(1), ev(2)] {
            let a = sr.get(src, tgt);
            let b = loaded.get(src, tgt);
            assert!((a - b).abs() < 1e-5, "M[{}][{}] {} vs {}", src.0, tgt.0, a, b);
        }
    }
}

#[test]
fn only_the_row_of_the_earlier_event_moves() {
    let mut t: SuccessorTable<i64> = SuccessorTable::new();
    let step = |own: bool, ahead: Option<i64>, now: Option<i64>| {
        100 * (own as i64) + 10 * ahead.unwrap_or(0) + now.unwrap_or(0)
    };
    t.observe(ev(4), ev(2), 1, step);
    assert_eq!(t.get(ev(4), ev(4)), Some(101));
    assert_eq!(t.get(ev(4), ev(2)), Some(10));
    assert_eq!(t.get(ev(2), ev(2)), Some(1));
    assert_eq!(t.get(ev(2), ev(4)), None);
    assert_eq!(t.row(ev(4)), vec![(ev(2), 10), (ev(4), 101)]);
    assert_eq!(t.vocab(), &[2usize, 4][..]);
    assert_eq!(t.warmup(), 50);
    assert_eq!(t.warmth(), Fraction { num: 1, den: 50 });
}

#[test]
fn strongest_events_come_first_without_the_last_one() {
    let row = vec![(ev(1), 5), (ev(2), 9), (ev(3), 5), (ev(4), 7)];
    assert_eq!(
        strongest_others(&row, ev(2), 2),
        vec![(ev(4), 7), (ev(1), 5)]
    );
    assert_eq!(strongest_others(&row, ev(9), 1), vec![(ev(2), 9)]);
}

#[test]
fn trust_decides_which_predictor_speaks() {
    let half = Fraction { num: 1, den: 2 };
    let p = Prediction { event: ev(1), probability: half };
    assert_eq!(trusted(half, half, vec![p]), Some(vec![p]));
    assert_eq!(trusted(Fraction { num: 1, den: 3 }, half, vec![p]), None);
    assert_eq!(trusted(half, half, vec![]), None);
}

#[test]
fn hybrids_train_both_predictors() {
    let mut h = HybridPredictor::new(SrPredictor::new(), MarkovPredictor::<CountModel>::new())
        .with_threshold(Fraction { num: 3, den: 2 });
    assert_eq!(h.threshold(), Fraction { num: 1, den: 1 });
    h.observe(ev(1), ev(2));
    assert_eq!(h.sr().m.observations(), 1);
    assert_eq!(h.markov().observed_transitions(ev(1)), Some(1));
    assert_eq!(h.confidence(), Fraction { num: 1, den: 1 });
    assert_eq!(h.as_markov().unwrap().observed_transitions(ev(1)), Some(1));
}

/// A signature as a point of a proximity graph.
#[derive(Clone)]
struct SignaturePoint(BinarySignature);

impl Point for SignaturePoint {
    fn distance(&self, other: &Self) -> f32 {
        self.0.hamming_distance(&other.0) as f32
    }
}

/// A cache with the graphs that were built for it.
struct Graphs {
    cache: EventHnswCache,
    built: HashMap<EventId, HnswMap<SignaturePoint, usize>>,
}

impl Graphs {
    fn search(&mut self, event: EventId, query: &BinarySignature, top_k: usize) -> Vec<(u32, usize)> {
        match self.cache.plan(event, top_k) {
            ShardStep::Nothing => return Vec::new(),
            ShardStep::Query => {}
            ShardStep::Build(contents) => {
                let options = self.cache.options();
                let graph = Builder::default()
                    .ef_construction(options.ef_construction)
                    .ef_search(options.ef_search)
                    .build(contents.points.into_iter().map(SignaturePoint).collect(), contents.docs);
                self.built.insert(event, graph);
                self.cache.note_built(event);
            }
        }
        let mut search = Search::default();
        self.built[&event]
            .search(&SignaturePoint(*query), &mut search)
            .take(top_k)
            .map(|item| (item.distance as u32, *item.value))
            .collect()
    }
}

fn random_sig(rng: &mut StdRng) -> BinarySignature {
    let mut b = [0u8; 32];
    rng.fill(&mut b);
    BinarySignature(b)
}

fn perturb(s: &BinarySignature, rng: &mut StdRng, n_bits: u32) -> BinarySignature {
    let mut out = *s;
    for _ in 0..n_bits {
        let bit: usize = rng.random_range(0..256);
        out.0[bit / 8] ^= 1 << (bit % 8);
    }
    out
}

fn build_cache(
    rng: &mut StdRng,
    n_events: u32,
    docs_per_event: usize,
    min_shard_size: usize,
) -> (Graphs, Vec<BinarySignature>) {
    let mut docs = Vec::new();
    let mut scopes: HashMap<u32, Vec<usize>> = HashMap::new();
    for e in 0..n_events {
        let centroid = random_sig(rng);
        let mut scope = Vec::with_capacity(docs_per_event);
        for _ in 0..docs_per_event {
            let idx = docs.len();
            docs.push(perturb(&centroid, rng, 10));
            scope.push(idx);
        }
        scopes.insert(e, scope);
    }
    let cache = EventHnswCache::new(docs.clone(), scopes, HnswBuildOptions::default())
        .with_min_shard_size(min_shard_size);
    (Graphs { cache, built: HashMap::new() }, docs)
}

#[test]
fn search_returns_nearest_for_centroid_query() {
    let mut rng = StdRng::seed_from_u64(0xDEAD);
    let (mut graphs, docs) = build_cache(&mut rng, 3, 200, 50);

    // Pick a doc from event 1; query with it; expect to find it
    // (distance 0) in the top-K.
    let query_doc_idx = 242;
    let query = docs[query_doc_idx];

    let hits = graphs.search(EventId(1), &query, 5);
    assert!(!hits.is_empty());
    assert_eq!(hits[0].1, query_doc_idx);
    assert_eq!(hits[0].0, 0);
}

#[test]
fn search_below_threshold_returns_empty() {
    let mut rng = StdRng::seed_from_u64(0xBEEF);
    let (mut graphs, _) = build_cache(&mut rng, 1, 200, 10_000);
    assert!(!graphs.cache.is_worth_hnsw(200));
    let q = random_sig(&mut rng);
    // A tiny shard is not built.
    assert!(graphs.search(EventId(0), &q, 5).is_empty());
}

#[test]
fn search_unknown_event_returns_empty() {
    let mut rng = StdRng::seed_from_u64(0xCAFE);
    let (mut graphs, _) = build_cache(&mut rng, 2, 200, 50);
    let q = random_sig(&mut rng);
    assert!(graphs.search(EventId(99), &q, 5).is_empty());
}

#[test]
fn shard_caches_after_first_build() {
    let mut rng = StdRng::seed_from_u64(0xFACE);
    let (mut graphs, _) = build_cache(&mut rng, 1, 200, 50);
    let q = random_sig(&mut rng);
    // First call triggers build.
    let h1 = graphs.search(EventId(0), &q, 3);
    assert!(matches!(graphs.cache.plan(EventId(0), 3), ShardStep::Query));
    let h2 = graphs.search(EventId(0), &q, 3);
    assert_eq!(h1, h2);
    assert_eq!(
        graphs.built.len(),
        1,
        "exactly one shard cached after two queries to the same event"
    );
}

#[test]
fn is_worth_hnsw_threshold() {
    let cache = EventHnswCache::new(Vec::new(), HashMap::new(), HnswBuildOptions::default());
    assert!(!cache.is_worth_hnsw(100));
    assert!(!cache.is_worth_hnsw(EventHnswCache::DEFAULT_MIN_SHARD_SIZE - 1));
    assert!(cache.is_worth_hnsw(EventHnswCache::DEFAULT_MIN_SHARD_SIZE));
    assert!(cache.is_worth_hnsw(50_000));
}

#[test]
fn shards_hold_the_documents_that_exist() {
    let docs = vec![BinarySignature([1; 32]), BinarySignature([2; 32])];
    let mut scopes: HashMap<u32, Vec<usize>> = HashMap::new();
    scopes.insert(3, vec![5, 1, 0]);
    let cache = EventHnswCache::new(docs, scopes, HnswBuildOptions::default())
        .with_min_shard_size(2);
    match cache.plan(EventId(3), 1) {
        ShardStep::Build(contents) => {
            assert_eq!(contents.docs, vec![1, 0]);
            assert_eq!(contents.points, vec![BinarySignature([2; 32]), BinarySignature([1; 32])]);
        }
        _ => panic!("the shard is large enough to be built"),
    }
    assert!(matches!(cache.plan(EventId(3), 0), ShardStep::Nothing));
}
