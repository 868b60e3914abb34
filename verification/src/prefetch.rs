//! Staging the documents of likely events ahead of the query.

use std::collections::HashMap;
use vstd::prelude::*;
use vstd::slice::slice_to_vec;

use crate::clock::{Clock, Instant};
use crate::heap::top_k;
use crate::markov::{
    lemma_counts_timeless, predicted, predicted_sometime, recorded_sometime, CountModel,
    MarkovPredictor, WeightModel,
};
use crate::predictor::{rate, rate_of, Fraction, Prediction};
use crate::signature::{hamming, BinarySignature};
use crate::signature_index::{scored, scored_scope, SignatureIndex};
use crate::sorting::{lemma_sorted_distinct, sort_distinct, sorted_distinct, strictly_ascending};
use crate::state::{events_of, last_of, ConversationState, EventId, Observation};
use crate::streaming::{emits, EmitDecision, StreamingQuery};

verus! {

#[derive(Clone, Copy, Debug)]
pub struct PrefetchStats {
    pub queries: u64,
    pub warm_hits: u64,
    pub warm_misses: u64,
    pub cold_fallbacks: u64,
}

impl PrefetchStats {
    /// Share of the queries for which the staged documents held the best match.
    pub fn hit_rate(&self) -> (r: Fraction)
        ensures
            r == rate_of(self.warm_hits, self.queries),
    {
        rate(self.warm_hits, self.queries)
    }
}

impl Default for PrefetchStats {
    fn default() -> (stats: Self)
        ensures
            stats == (PrefetchStats {
                queries: 0,
                warm_hits: 0,
                warm_misses: 0,
                cold_fallbacks: 0,
            }),
    {
        PrefetchStats { queries: 0, warm_hits: 0, warm_misses: 0, cold_fallbacks: 0 }
    }
}

pub struct WarmScanResult {
    pub results: Vec<(u32, usize)>,
    pub from_warm_path: bool,
    pub scope_size: usize,
}

/// The documents of the events, event after event.
pub open spec fn docs_of(scope: Map<u32, Vec<usize>>, events: Seq<EventId>) -> Seq<usize>
    decreases events.len(),
{
    if events.len() == 0 {
        Seq::empty()
    } else {
        let before = docs_of(scope, events.drop_last());
        if scope.contains_key(events.last().0) {
            before + scope[events.last().0]@
        } else {
            before
        }
    }
}

/// The events of the predictions that are likely enough.
pub open spec fn confident(predictions: Seq<Prediction>, threshold: Fraction) -> Seq<EventId>
    decreases predictions.len(),
{
    if predictions.len() == 0 {
        Seq::empty()
    } else {
        let before = confident(predictions.drop_last(), threshold);
        let p = predictions.last();
        if p.probability.below(threshold) {
            before
        } else {
            before.push(p.event)
        }
    }
}

/// The events that a prediction goes by: the last three, or as many as there
/// are different events when those are more.
pub open spec fn context_of(window: Seq<Observation>, vocab: nat) -> Seq<EventId> {
    last_of(
        events_of(window),
        if vocab >= 3 {
            vocab
        } else {
            3
        },
    )
}

/// The events are what a coordinator comes up with for a conversation: those
/// of its predictions that are likely enough, and none without a conversation.
pub open spec fn chosen<M: WeightModel>(
    c: PrefetchCoordinator<M>,
    window: Seq<Observation>,
    events: Seq<EventId>,
) -> bool {
    let p = c.forecaster();
    let context = context_of(window, p.table().vocab.len());
    if context.len() == 0 {
        events.len() == 0
    } else {
        exists|out: Seq<Prediction>|
            #[trigger] predicted_sometime(
                p.timer(),
                p.weighing(),
                p.order(),
                p.table(),
                context,
                c.top_n(),
                out,
            ) && events == confident(out, c.threshold())
    }
}

/// What holds after the next events of a conversation were predicted: they are
/// staged with their documents, and everything else is as it was.
pub open spec fn prefetched<M: WeightModel>(
    before: PrefetchCoordinator<M>,
    after: PrefetchCoordinator<M>,
    window: Seq<Observation>,
) -> bool {
    &&& chosen(before, window, after.staged_events())
    &&& after.staged_docs() == sorted_distinct(docs_of(before.scope(), after.staged_events()))
    &&& after.forecaster() == before.forecaster()
    &&& after.sigs() == before.sigs()
    &&& after.scope() == before.scope()
    &&& after.threshold() == before.threshold()
    &&& after.top_n() == before.top_n()
    &&& after.spec_stats() == before.spec_stats()
}

/// Prefetching is idempotent: done a second time for the same conversation, it
/// stages the same events and documents. This is so of predictors that count,
/// since what they predict does not depend on the time.
pub proof fn lemma_prefetch_idempotent(
    before: PrefetchCoordinator<CountModel>,
    once: PrefetchCoordinator<CountModel>,
    twice: PrefetchCoordinator<CountModel>,
    window: Seq<Observation>,
)
    requires
        prefetched(before, once, window),
        prefetched(once, twice, window),
    ensures
        twice.staged_events() == once.staged_events(),
        twice.staged_docs() == once.staged_docs(),
        twice.spec_stats() == once.spec_stats(),
{
    let p = before.forecaster();
    let (m, order, t) = (p.weighing(), p.order(), p.table());
    let context = context_of(window, t.vocab.len());
    if context.len() == 0 {
        assert(twice.staged_events() =~= once.staged_events());
    } else {
        let k = before.top_n();
        let first = choose|out: Seq<Prediction>|
            #[trigger] predicted_sometime(p.timer(), m, order, t, context, k, out)
                && once.staged_events() == confident(out, before.threshold());
        let second = choose|out: Seq<Prediction>|
            #[trigger] predicted_sometime(p.timer(), m, order, t, context, k, out)
                && twice.staged_events() == confident(out, before.threshold());
        let a = choose|at: Instant|
            p.timer().shows(at) && first == #[trigger] predicted(m, order, t, context, k, at);
        let b = choose|at: Instant|
            p.timer().shows(at) && second == #[trigger] predicted(m, order, t, context, k, at);
        lemma_counts_timeless(m, order, t, context, EventId(0), k, a, b);
    }
}

/// The distance of the best result, or the greatest number when there is none.
pub open spec fn best_distance(results: Seq<(u32, usize)>) -> u32 {
    if results.len() == 0 {
        u32::MAX
    } else {
        results[0].0
    }
}

/// Predicts the next events of a conversation and scans their documents.
pub struct PrefetchCoordinator<'a, M: WeightModel> {
    index: &'a SignatureIndex,
    predictor: MarkovPredictor<M>,
    event_scope: HashMap<u32, Vec<usize>>,
    confidence_threshold: Fraction,
    top_n_events: usize,
    last_predicted_scope: Vec<usize>,
    last_predicted_events: Vec<EventId>,
    stats: PrefetchStats,
}

impl<'a, M: WeightModel> PrefetchCoordinator<'a, M> {
    pub closed spec fn sigs(&self) -> Seq<BinarySignature> {
        self.index@
    }

    pub closed spec fn forecaster(&self) -> MarkovPredictor<M> {
        self.predictor
    }

    /// The documents of each event, by the number of the event.
    pub closed spec fn scope(&self) -> Map<u32, Vec<usize>> {
        self.event_scope@
    }

    pub closed spec fn threshold(&self) -> Fraction {
        self.confidence_threshold
    }

    /// How many events are predicted.
    pub closed spec fn top_n(&self) -> nat {
        self.top_n_events as nat
    }

    pub closed spec fn staged_events(&self) -> Seq<EventId> {
        self.last_predicted_events@
    }

    pub closed spec fn staged_docs(&self) -> Seq<usize> {
        self.last_predicted_scope@
    }

    pub closed spec fn spec_stats(&self) -> PrefetchStats {
        self.stats
    }

    /// Every query was a warm hit, a warm miss or a cold fallback.
    pub closed spec fn wf(&self) -> bool {
        let stats = self.stats;
        &&& self.predictor.wf()
        &&& strictly_ascending(self.last_predicted_scope@)
        &&& stats.queries == stats.warm_hits + stats.warm_misses + stats.cold_fallbacks
    }

    /// Every query was a warm hit, a warm miss or a cold fallback.
    pub proof fn lemma_wf(&self)
        requires
            self.wf(),
        ensures
            self.spec_stats().queries == self.spec_stats().warm_hits
                + self.spec_stats().warm_misses + self.spec_stats().cold_fallbacks,
            strictly_ascending(self.staged_docs()),
            self.forecaster().wf(),
    {
    }

    /// A coordinator that predicts three events and drops those that are less
    /// likely than one in twenty.
    pub fn new(
        index: &'a SignatureIndex,
        predictor: MarkovPredictor<M>,
        event_scope: HashMap<u32, Vec<usize>>,
    ) -> (c: Self)
        requires
            predictor.wf(),
        ensures
            c.wf(),
            c.sigs() == index@,
            c.forecaster() == predictor,
            c.scope() == event_scope@,
            c.threshold() == (Fraction { num: 1, den: 20 }),
            c.top_n() == 3,
            c.staged_events() == Seq::<EventId>::empty(),
            c.staged_docs() == Seq::<usize>::empty(),
            c.spec_stats() == (PrefetchStats {
                queries: 0,
                warm_hits: 0,
                warm_misses: 0,
                cold_fallbacks: 0,
            }),
    {
        PrefetchCoordinator {
            index,
            predictor,
            event_scope,
            confidence_threshold: Fraction { num: 1, den: 20 },
            top_n_events: 3,
            last_predicted_scope: Vec::new(),
            last_predicted_events: Vec::new(),
            stats: PrefetchStats::default(),
        }
    }

    pub fn with_confidence_threshold(self, threshold: Fraction) -> (c: Self)
        requires
            self.wf(),
        ensures
            c.wf(),
            c.threshold() == threshold,
            c.sigs() == self.sigs(),
            c.forecaster() == self.forecaster(),
            c.scope() == self.scope(),
            c.top_n() == self.top_n(),
            c.staged_events() == self.staged_events(),
            c.staged_docs() == self.staged_docs(),
            c.spec_stats() == self.spec_stats(),
    {
        let mut c = self;
        c.confidence_threshold = threshold;
        c
    }

    pub fn with_top_n_events(self, n: usize) -> (c: Self)
        requires
            self.wf(),
        ensures
            c.wf(),
            c.top_n() == n,
            c.threshold() == self.threshold(),
            c.sigs() == self.sigs(),
            c.forecaster() == self.forecaster(),
            c.scope() == self.scope(),
            c.staged_events() == self.staged_events(),
            c.staged_docs() == self.staged_docs(),
            c.spec_stats() == self.spec_stats(),
    {
        let mut c = self;
        c.top_n_events = n;
        c
    }

    /// Tell the predictor of a transition.
    pub fn observe_transition(&mut self, prev: EventId, next: EventId)
        requires
            old(self).wf(),
        ensures
            final(self).wf(),
            recorded_sometime(
                old(self).forecaster().timer(),
                old(self).forecaster().weighing(),
                old(self).forecaster().order(),
                old(self).forecaster().table(),
                seq![prev],
                next,
                final(self).forecaster().table(),
            ),
            final(self).forecaster().order() == old(self).forecaster().order(),
            final(self).forecaster().weighing() == old(self).forecaster().weighing(),
            final(self).forecaster().timer() == old(self).forecaster().timer(),
            final(self).sigs() == old(self).sigs(),
            final(self).scope() == old(self).scope(),
            final(self).threshold() == old(self).threshold(),
            final(self).top_n() == old(self).top_n(),
            final(self).staged_events() == old(self).staged_events(),
            final(self).staged_docs() == old(self).staged_docs(),
            final(self).spec_stats() == old(self).spec_stats(),
    {
        self.predictor.observe(prev, next);
    }

    pub fn predictor(&self) -> (p: &MarkovPredictor<M>)
        ensures
            *p == self.forecaster(),
    {
        &self.predictor
    }

    pub fn predictor_mut(&mut self) -> (p: &mut MarkovPredictor<M>)
        requires
            old(self).wf(),
        ensures
            *p == old(self).forecaster(),
            final(p).wf() ==> final(self).wf(),
            final(self).forecaster() == *final(p),
            final(self).sigs() == old(self).sigs(),
            final(self).scope() == old(self).scope(),
            final(self).threshold() == old(self).threshold(),
            final(self).top_n() == old(self).top_n(),
            final(self).staged_events() == old(self).staged_events(),
            final(self).staged_docs() == old(self).staged_docs(),
            final(self).spec_stats() == old(self).spec_stats(),
    {
        &mut self.predictor
    }

    pub fn index(&self) -> (index: &SignatureIndex)
        ensures
            index@ == self.sigs(),
    {
        self.index
    }

    /// Look at conversation state, predict next likely events, and stage the
    /// matching index slices for a warm scan. Idempotent; returns the predicted
    /// events for inspection.
    pub fn prefetch(&mut self, state: &ConversationState) -> (events: Vec<EventId>)
        requires
            old(self).wf(),
        ensures
            final(self).wf(),
            events@ == final(self).staged_events(),
            prefetched(*old(self), *final(self), state@),
    {
        let vocab: usize = self.predictor.vocab_size();
        let context = state.last_n(
            if vocab >= 3 {
                vocab
            } else {
                3
            },
        );
        if context.len() == 0 {
            self.last_predicted_scope.clear();
            self.last_predicted_events.clear();
            return Vec::new();
        }
        let predictions = self.predictor.predict_with_context(
            context.as_slice(),
            self.top_n_events,
        );
        self.stage(&predictions)
    }

    /// Stage the documents of the predictions that are likely enough.
    pub fn stage(&mut self, predictions: &Vec<Prediction>) -> (events: Vec<EventId>)
        requires
            old(self).wf(),
        ensures
            final(self).wf(),
            events@ == confident(predictions@, old(self).threshold()),
            final(self).staged_events() == events@,
            final(self).staged_docs() == sorted_distinct(docs_of(old(self).scope(), events@)),
            final(self).forecaster() == old(self).forecaster(),
            final(self).sigs() == old(self).sigs(),
            final(self).scope() == old(self).scope(),
            final(self).threshold() == old(self).threshold(),
            final(self).top_n() == old(self).top_n(),
            final(self).spec_stats() == old(self).spec_stats(),
    {
        let mut events: Vec<EventId> = Vec::new();
        let mut docs: Vec<usize> = Vec::new();
        let mut i: usize = 0;
        while i < predictions.len()
            invariant
                i <= predictions@.len(),
                events@ == confident(predictions@.take(i as int), self.confidence_threshold),
                docs@ == docs_of(self.event_scope@, events@),
            decreases predictions@.len() - i,
        {
            let p = predictions[i];
            assert(predictions@.take(i + 1).drop_last() =~= predictions@.take(i as int));
            if !p.probability.is_below(self.confidence_threshold) {
                let ghost before = events@;
                events.push(p.event);
                assert(events@.drop_last() =~= before);
                match self.event_scope.get(&p.event.0) {
                    Some(rows) => {
                        let mut more = slice_to_vec(rows.as_slice());
                        docs.append(&mut more);
                    },
                    None => {},
                }
            }
            i = i + 1;
        }
        assert(predictions@.take(i as int) =~= predictions@);
        proof {
            lemma_sorted_distinct(docs@);
        }
        self.last_predicted_scope = sort_distinct(docs);
        self.last_predicted_events = slice_to_vec(events.as_slice());
        events
    }

    /// Scan the prefetched scope only. If the prefetch is empty, falls back to a
    /// full cold scan. Returns the result plus telemetry about which path ran:
    /// a warm scan counts as a hit when it found a document as near as the
    /// nearest of all.
    pub fn query(&mut self, query: &BinarySignature, k: usize) -> (r: WarmScanResult)
        requires
            old(self).wf(),
            old(self).spec_stats().queries < u64::MAX,
        ensures
            final(self).wf(),
            ({
                let docs = old(self).staged_docs();
                let stats = old(self).spec_stats();
                let warm = top_k(scored_scope(*query, old(self).sigs(), docs), k as nat);
                let cold = top_k(scored(*query, old(self).sigs(), 0), 1);
                if docs.len() == 0 {
                    &&& r.results@ == top_k(scored(*query, old(self).sigs(), 0), k as nat)
                    &&& !r.from_warm_path
                    &&& r.scope_size == old(self).sigs().len()
                    &&& final(self).spec_stats() == PrefetchStats {
                        queries: (stats.queries + 1) as u64,
                        cold_fallbacks: (stats.cold_fallbacks + 1) as u64,
                        ..stats
                    }
                } else {
                    &&& r.results@ == warm
                    &&& r.from_warm_path
                    &&& r.scope_size == docs.len()
                    &&& final(self).spec_stats() == if best_distance(warm) == best_distance(cold) {
                        PrefetchStats {
                            queries: (stats.queries + 1) as u64,
                            warm_hits: (stats.warm_hits + 1) as u64,
                            ..stats
                        }
                    } else {
                        PrefetchStats {
                            queries: (stats.queries + 1) as u64,
                            warm_misses: (stats.warm_misses + 1) as u64,
                            ..stats
                        }
                    }
                }
            }),
            final(self).forecaster() == old(self).forecaster(),
            final(self).sigs() == old(self).sigs(),
            final(self).scope() == old(self).scope(),
            final(self).threshold() == old(self).threshold(),
            final(self).top_n() == old(self).top_n(),
            final(self).staged_events() == old(self).staged_events(),
            final(self).staged_docs() == old(self).staged_docs(),
    {
        self.stats.queries = self.stats.queries + 1;
        if self.last_predicted_scope.len() == 0 {
            self.stats.cold_fallbacks = self.stats.cold_fallbacks + 1;
            let results = self.index.scan_top_k_parallel(query, k);
            return WarmScanResult { results, from_warm_path: false, scope_size: self.index.len() };
        }
        let scope_size: usize = self.last_predicted_scope.len();
        let warm = self.index.scan_top_k_subset(query, self.last_predicted_scope.as_slice(), k);
        let cold = self.index.scan_top_k_parallel(query, 1);
        let warm_best: u32 = if warm.len() == 0 {
            u32::MAX
        } else {
            warm[0].0
        };
        let cold_best: u32 = if cold.len() == 0 {
            u32::MAX
        } else {
            cold[0].0
        };
        if warm_best == cold_best {
            self.stats.warm_hits = self.stats.warm_hits + 1;
        } else {
            self.stats.warm_misses = self.stats.warm_misses + 1;
        }
        WarmScanResult { results: warm, from_warm_path: true, scope_size }
    }

    pub fn stats(&self) -> (stats: PrefetchStats)
        ensures
            stats == self.spec_stats(),
    {
        self.stats
    }

    pub fn last_predicted_events(&self) -> (events: &[EventId])
        ensures
            events@ == self.staged_events(),
    {
        self.last_predicted_events.as_slice()
    }

    pub fn last_predicted_scope(&self) -> (docs: &[usize])
        ensures
            docs@ == self.staged_docs(),
    {
        self.last_predicted_scope.as_slice()
    }
}

/// Telemetry for `StreamingPrefetcher`: how often the speculative scan during
/// user speech beat us to the answer.
#[derive(Clone, Copy, Debug)]
pub struct StreamingPrefetchStats {
    pub utterances: u64,
    pub partial_updates: u64,
    pub speculative_scans: u64,
    pub finals_served_speculatively: u64,
    pub finals_required_rescan: u64,
    pub total_speculative_scan_ns: u128,
}

impl StreamingPrefetchStats {
    /// Share of the final queries that were answered by what a partial had found.
    pub fn speculative_hit_rate(&self) -> (r: Fraction)
        requires
            self.finals_served_speculatively + self.finals_required_rescan <= u64::MAX,
        ensures
            r == rate_of(
                self.finals_served_speculatively,
                (self.finals_served_speculatively + self.finals_required_rescan) as u64,
            ),
    {
        let finals: u64 = self.finals_served_speculatively + self.finals_required_rescan;
        rate(self.finals_served_speculatively, finals)
    }
}

impl Default for StreamingPrefetchStats {
    fn default() -> (stats: Self)
        ensures
            stats == (StreamingPrefetchStats {
                utterances: 0,
                partial_updates: 0,
                speculative_scans: 0,
                finals_served_speculatively: 0,
                finals_required_rescan: 0,
                total_speculative_scan_ns: 0,
            }),
    {
        StreamingPrefetchStats {
            utterances: 0,
            partial_updates: 0,
            speculative_scans: 0,
            finals_served_speculatively: 0,
            finals_required_rescan: 0,
            total_speculative_scan_ns: 0,
        }
    }
}

#[derive(Clone, Debug)]
pub struct FinalScanResult {
    pub results: Vec<(u32, usize)>,
    pub served_speculatively: bool,
}

/// A total of nanoseconds with some more, or the greatest number.
pub open spec fn raised_total(total: u128, ns: u128) -> u128 {
    if total + ns <= u128::MAX {
        (total + ns) as u128
    } else {
        u128::MAX
    }
}

/// Drives speculative retrieval during user speech.
///
/// Each partial transcript is embedded, and [`StreamingPrefetcher::on_partial`]
/// decides whether the partial has drifted enough to be worth a scan of the
/// predicted documents, whose result it keeps. When the transcript is final,
/// [`StreamingPrefetcher::on_final`] returns the kept result if the final
/// signature is close enough to the one that was scanned for.
pub struct StreamingPrefetcher<'a, M: WeightModel> {
    coord: PrefetchCoordinator<'a, M>,
    filter: StreamingQuery,
    cached: Option<(BinarySignature, Vec<(u32, usize)>)>,
    last_top_k: usize,
    stats: StreamingPrefetchStats,
    clock: Clock,
}

impl<'a, M: WeightModel> StreamingPrefetcher<'a, M> {
    pub closed spec fn prefetcher(&self) -> PrefetchCoordinator<'a, M> {
        self.coord
    }

    pub closed spec fn streaming(&self) -> StreamingQuery {
        self.filter
    }

    /// The clock that scans are timed by.
    pub closed spec fn timer(&self) -> Clock {
        self.clock
    }

    /// The partial that was scanned for last, with what was found.
    pub closed spec fn speculation(&self) -> Option<(BinarySignature, Seq<(u32, usize)>)> {
        match self.cached {
            Some((sig, results)) => Some((sig, results@)),
            None => None,
        }
    }

    pub closed spec fn spec_stats(&self) -> StreamingPrefetchStats {
        self.stats
    }

    /// Every partial reached the filter, and every one that was let through was
    /// scanned for.
    pub closed spec fn wf(&self) -> bool {
        &&& self.coord.wf()
        &&& self.filter.wf()
        &&& self.stats.partial_updates == self.filter.spec_stats().updates_received
        &&& self.stats.speculative_scans == self.filter.spec_stats().updates_emitted
    }

    /// Every partial reached the filter, and every one that was let through was
    /// scanned for.
    pub proof fn lemma_wf(&self)
        requires
            self.wf(),
        ensures
            self.prefetcher().wf(),
            self.spec_stats().partial_updates == self.streaming().spec_stats().updates_received,
            self.spec_stats().speculative_scans == self.streaming().spec_stats().updates_emitted,
    {
    }

    pub fn new(coord: PrefetchCoordinator<'a, M>, drift_threshold: u32) -> (s: Self)
        requires
            coord.wf(),
        ensures
            s.wf(),
            s.prefetcher() == coord,
            s.streaming().drift_threshold() == drift_threshold,
            s.streaming().spec_last_emitted() is None,
            s.streaming().spec_current() is None,
            s.timer().is_new(),
            s.speculation() is None,
            s.spec_stats() == (StreamingPrefetchStats {
                utterances: 0,
                partial_updates: 0,
                speculative_scans: 0,
                finals_served_speculatively: 0,
                finals_required_rescan: 0,
                total_speculative_scan_ns: 0,
            }),
    {
        StreamingPrefetcher {
            coord,
            filter: StreamingQuery::new(drift_threshold),
            cached: None,
            last_top_k: 10,
            stats: StreamingPrefetchStats::default(),
            clock: Clock::start(),
        }
    }

    /// Refresh the predicted scope. Call this whenever the conversation state
    /// changes (typically once per finalized turn).
    pub fn prefetch(&mut self, state: &ConversationState)
        requires
            old(self).wf(),
        ensures
            final(self).wf(),
            prefetched(old(self).prefetcher(), final(self).prefetcher(), state@),
            final(self).streaming() == old(self).streaming(),
            final(self).timer() == old(self).timer(),
            final(self).speculation() == old(self).speculation(),
            final(self).spec_stats() == old(self).spec_stats(),
    {
        self.coord.prefetch(state);
    }

    /// New partial. If the filter emits, runs a speculative warm scan and keeps
    /// the result.
    pub fn on_partial(&mut self, partial: BinarySignature, k: usize)
        requires
            old(self).wf(),
            old(self).spec_stats().partial_updates < u64::MAX,
        ensures
            final(self).wf(),
            final(self).prefetcher() == old(self).prefetcher(),
            final(self).streaming().spec_current() == Some(partial),
            final(self).streaming().drift_threshold() == old(self).streaming().drift_threshold(),
            final(self).timer() == old(self).timer(),
            ({
                let filter = old(self).streaming();
                let before = old(self).spec_stats();
                let after = final(self).spec_stats();
                let coord = old(self).prefetcher();
                &&& after.partial_updates == before.partial_updates + 1
                &&& after.utterances == before.utterances
                &&& after.finals_served_speculatively == before.finals_served_speculatively
                &&& after.finals_required_rescan == before.finals_required_rescan
                &&& if emits(filter.spec_last_emitted(), filter.drift_threshold(), partial) {
                    &&& after.speculative_scans == before.speculative_scans + 1
                    &&& exists|ns: u128| #[trigger]
                        old(self).timer().measures(ns) && after.total_speculative_scan_ns
                            == raised_total(before.total_speculative_scan_ns, ns)
                    &&& final(self).streaming().spec_last_emitted() == Some(partial)
                    &&& final(self).speculation() == Some(
                        (
                            partial,
                            top_k(
                                scored_scope(partial, coord.sigs(), coord.staged_docs()),
                                k as nat,
                            ),
                        ),
                    )
                } else {
                    &&& after.speculative_scans == before.speculative_scans
                    &&& after.total_speculative_scan_ns == before.total_speculative_scan_ns
                    &&& final(self).streaming().spec_last_emitted() == filter.spec_last_emitted()
                    &&& final(self).speculation() == old(self).speculation()
                }
            }),
    {
        self.stats.partial_updates = self.stats.partial_updates + 1;
        self.last_top_k = k;
        match self.filter.update(partial) {
            EmitDecision::Emitted(sig) => {
                let started = self.clock.now();
                let results = self.coord.index.scan_top_k_subset(
                    &sig,
                    self.coord.last_predicted_scope.as_slice(),
                    k,
                );
                let ended = self.clock.now();
                let elapsed = ended.duration_since(started);
                assert(self.timer().measures(elapsed.nanos)) by {
                    assert(self.timer().shows(started) && self.timer().shows(ended));
                }
                self.cached = Some((sig, results));
                self.stats.speculative_scans = self.stats.speculative_scans + 1;
                self.stats.total_speculative_scan_ns =
                self.stats.total_speculative_scan_ns.saturating_add(elapsed.nanos);
                assert(old(self).timer().measures(elapsed.nanos)
                    && self.stats.total_speculative_scan_ns == raised_total(
                    old(self).stats.total_speculative_scan_ns,
                    elapsed.nanos,
                ));
            },
            EmitDecision::Suppressed => {},
        }
    }

    /// The transcript is final. If the final signature is close enough to the
    /// last speculative one, the kept top-K is returned for free; otherwise a
    /// fresh warm scan runs against the final signature.
    ///
    /// `accept_drift` is the maximum Hamming distance between the final and
    /// the speculative signature for the kept result to be considered fresh.
    pub fn on_final(&mut self, final_sig: BinarySignature, k: usize, accept_drift: u32) -> (r:
        FinalScanResult)
        requires
            old(self).wf(),
            old(self).spec_stats().finals_served_speculatively < u64::MAX,
            old(self).spec_stats().finals_required_rescan < u64::MAX,
        ensures
            final(self).wf(),
            final(self).prefetcher() == old(self).prefetcher(),
            final(self).streaming() == old(self).streaming(),
            final(self).timer() == old(self).timer(),
            final(self).speculation() == old(self).speculation(),
            ({
                let before = old(self).spec_stats();
                let coord = old(self).prefetcher();
                let fresh = match old(self).speculation() {
                    Some((sig, results)) => hamming(sig, final_sig) <= accept_drift
                        && results.len() == k,
                    None => false,
                };
                &&& r.served_speculatively == fresh
                &&& if fresh {
                    &&& r.results@ == (old(self).speculation()->0).1
                    &&& final(self).spec_stats() == StreamingPrefetchStats {
                        finals_served_speculatively: (before.finals_served_speculatively
                            + 1) as u64,
                        ..before
                    }
                } else {
                    &&& r.results@ == top_k(
                        scored_scope(final_sig, coord.sigs(), coord.staged_docs()),
                        k as nat,
                    )
                    &&& final(self).spec_stats() == StreamingPrefetchStats {
                        finals_required_rescan: (before.finals_required_rescan + 1) as u64,
                        ..before
                    }
                }
            }),
    {
        let served: Option<Vec<(u32, usize)>> = match &self.cached {
            Some((sig, results)) => if sig.hamming_distance(&final_sig) <= accept_drift
                && results.len() == k {
                Some(slice_to_vec(results.as_slice()))
            } else {
                None
            },
            None => None,
        };
        match served {
            Some(results) => {
                self.stats.finals_served_speculatively = self.stats.finals_served_speculatively + 1;
                FinalScanResult { results, served_speculatively: true }
            },
            None => {
                self.stats.finals_required_rescan = self.stats.finals_required_rescan + 1;
                let results = self.coord.index.scan_top_k_subset(
                    &final_sig,
                    self.coord.last_predicted_scope.as_slice(),
                    k,
                );
                FinalScanResult { results, served_speculatively: false }
            },
        }
    }

    /// Call when the transcript is final (or the utterance ends without).
    pub fn end_utterance(&mut self)
        requires
            old(self).wf(),
            old(self).spec_stats().utterances < u64::MAX,
        ensures
            final(self).wf(),
            final(self).prefetcher() == old(self).prefetcher(),
            final(self).streaming().spec_current() is None,
            final(self).streaming().spec_last_emitted() is None,
            final(self).streaming().drift_threshold() == old(self).streaming().drift_threshold(),
            final(self).timer() == old(self).timer(),
            final(self).speculation() is None,
            final(self).spec_stats() == (StreamingPrefetchStats {
                utterances: (old(self).spec_stats().utterances + 1) as u64,
                ..old(self).spec_stats()
            }),
    {
        self.filter.reset();
        self.cached = None;
        self.stats.utterances = self.stats.utterances + 1;
    }

    pub fn stats(&self) -> (stats: StreamingPrefetchStats)
        ensures
            stats == self.spec_stats(),
    {
        self.stats
    }

    pub fn coordinator(&self) -> (c: &PrefetchCoordinator<'a, M>)
        ensures
            *c == self.prefetcher(),
    {
        &self.coord
    }

    pub fn coordinator_mut(&mut self) -> (c: &mut PrefetchCoordinator<'a, M>)
        requires
            old(self).wf(),
        ensures
            *c == old(self).prefetcher(),
            final(c).wf() ==> final(self).wf(),
            final(self).prefetcher() == *final(c),
            final(self).streaming() == old(self).streaming(),
            final(self).timer() == old(self).timer(),
            final(self).speculation() == old(self).speculation(),
            final(self).spec_stats() == old(self).spec_stats(),
    {
        &mut self.coord
    }
}

/// The events that are staged are those of the predictions that are not less likely than
/// the threshold, in their order.
pub proof fn lemma_confident(predictions: Seq<Prediction>, threshold: Fraction)
    ensures
        confident(predictions, threshold) == predictions.filter_map(
            |p: Prediction|
                if p.probability.num * threshold.den < threshold.num * p.probability.den {
                    None
                } else {
                    Some(p.event)
                },
        ),
    decreases predictions.len(),
{
    if predictions.len() > 0 {
        lemma_confident(predictions.drop_last(), threshold);
        let before = confident(predictions.drop_last(), threshold);
        let e = predictions.last().event;
        assert(before.push(e) =~= before + seq![e]);
    }
}

/// A prediction goes by the last three events of the conversation, or by as many as there
/// are different events when those are more.
pub proof fn lemma_context_of(window: Seq<Observation>, vocab: nat)
    ensures
        ({
            let context = context_of(window, vocab);
            let most = if vocab >= 3 {
                vocab
            } else {
                3
            };
            &&& context.len() == if window.len() <= most {
                window.len()
            } else {
                most
            }
            &&& forall|i: int|
                0 <= i < context.len() ==> #[trigger] context[i] == window[window.len()
                    - context.len() + i].event
        }),
{
}

/// The documents that are staged are exactly those that the scope lists for one of the
/// events, in ascending order and each once.
pub proof fn lemma_staged_documents(scope: Map<u32, Vec<usize>>, events: Seq<EventId>)
    ensures
        ({
            let docs = sorted_distinct(docs_of(scope, events));
            &&& forall|i: int, j: int|
                0 <= i < j < docs.len() ==> (#[trigger] docs[i]) < (#[trigger] docs[j])
            &&& forall|d: usize| #[trigger]
                docs.contains(d) <==> exists|i: int|
                    0 <= i < events.len() && scope.contains_key((#[trigger] events[i]).0)
                        && scope[events[i].0]@.contains(d)
        }),
{
    let all = docs_of(scope, events);
    lemma_sorted_distinct(all);
    assert forall|d: usize| #[trigger]
        sorted_distinct(all).contains(d) <==> exists|i: int|
            0 <= i < events.len() && scope.contains_key((#[trigger] events[i]).0)
                && scope[events[i].0]@.contains(d) by {
        lemma_docs_of(scope, events, d);
    }
}

proof fn lemma_docs_of(scope: Map<u32, Vec<usize>>, events: Seq<EventId>, d: usize)
    ensures
        docs_of(scope, events).contains(d) <==> exists|i: int|
            0 <= i < events.len() && scope.contains_key((#[trigger] events[i]).0)
                && scope[events[i].0]@.contains(d),
    decreases events.len(),
{
    let all = docs_of(scope, events);
    if events.len() > 0 {
        let init = events.drop_last();
        let before = docs_of(scope, init);
        let event = events.last();
        lemma_docs_of(scope, init, d);
        let here = if scope.contains_key(event.0) {
            scope[event.0]@
        } else {
            Seq::empty()
        };
        assert(all =~= before + here);
        assert(events[events.len() - 1] == event);
        if all.contains(d) {
            let k = choose|k: int| 0 <= k < all.len() && all[k] == d;
            if k < before.len() {
                assert(before[k] == d);
                assert(before.contains(d));
                let i = choose|i: int|
                    0 <= i < init.len() && scope.contains_key((#[trigger] init[i]).0)
                        && scope[init[i].0]@.contains(d);
                assert(events[i] == init[i]);
            } else {
                assert(here[k - before.len()] == d);
            }
        }
        if exists|i: int|
            0 <= i < events.len() && scope.contains_key((#[trigger] events[i]).0)
                && scope[events[i].0]@.contains(d) {
            let i = choose|i: int|
                0 <= i < events.len() && scope.contains_key((#[trigger] events[i]).0)
                    && scope[events[i].0]@.contains(d);
            if i < init.len() {
                assert(init[i] == events[i]);
                assert(before.contains(d));
                let k = choose|k: int| 0 <= k < before.len() && before[k] == d;
                assert(all[k] == d);
            } else {
                let k = choose|k: int| 0 <= k < here.len() && here[k] == d;
                assert(all[before.len() + k] == d);
            }
        }
    }
}

/// What prefetching stages: the events that the predictor finds likely enough after the
/// last events of the conversation, and none without a conversation.
pub proof fn lemma_prefetched<M: WeightModel>(
    before: PrefetchCoordinator<M>,
    after: PrefetchCoordinator<M>,
    window: Seq<Observation>,
)
    requires
        prefetched(before, after, window),
    ensures
        after.staged_docs() == sorted_distinct(docs_of(before.scope(), after.staged_events())),
        window.len() == 0 ==> after.staged_events().len() == 0,
        window.len() > 0 ==> exists|out: Seq<Prediction>|
            #[trigger] predicted_sometime(
                before.forecaster().timer(),
                before.forecaster().weighing(),
                before.forecaster().order(),
                before.forecaster().table(),
                context_of(window, before.forecaster().table().vocab.len()),
                before.top_n(),
                out,
            ) && after.staged_events() == confident(out, before.threshold()),
{
    lemma_context_of(window, before.forecaster().table().vocab.len());
}

/// The best distance of some results that come in order is that of one of them, and no
/// result is nearer. Without results it is the greatest number.
pub proof fn lemma_best_distance(results: Seq<(u32, usize)>)
    requires
        forall|i: int, j: int|
            0 <= i < j < results.len() ==> (#[trigger] results[i]).0 <= (#[trigger] results[j]).0,
    ensures
        results.len() == 0 ==> best_distance(results) == u32::MAX,
        results.len() > 0 ==> exists|i: int|
            0 <= i < results.len() && (#[trigger] results[i]).0 == best_distance(results),
        forall|i: int|
            0 <= i < results.len() ==> best_distance(results) <= (#[trigger] results[i]).0,
{
    if results.len() > 0 {
        assert(results[0].0 == best_distance(results));
    }
}

/// A total of nanoseconds grows by what is added to it, as long as there is room.
pub proof fn lemma_raised_total(total: u128, ns: u128)
    ensures
        total + ns <= u128::MAX ==> raised_total(total, ns) == total + ns,
        total + ns > u128::MAX ==> raised_total(total, ns) == u128::MAX,
{
}

} // verus!
