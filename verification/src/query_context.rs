//! One conversation: speculative scans while the user speaks, the final scan
//! when the utterance ends, and predictions for the next one.

use vstd::prelude::*;
use vstd::slice::slice_to_vec;

use crate::cache::{
    best_match, lemma_answer_added, lemma_best_match, lemma_cached_answer,
    lemma_inserted_is_served, scope_hash_of, serves, with_answer, Cached, DeltaCache,
};
use crate::clock::Duration;
use crate::cold_tier::ColdTier;
use crate::events::{lemma_event_of, lemma_no_event_outside, lemma_union_of, EventCatalog};
use crate::heap::top_k;
use crate::markov::{CountModel, MarkovPredictor, Table};
use crate::predictor::{
    descending, lemma_taught_nothing, lemma_taught_on, taught, NextTurnPredictor, Prediction,
};
use crate::shards::{search_of, HierarchicalIndex, Search, SearchOptions, SearchResult};
use crate::signature::{hamming, BinarySignature};
use crate::signature_index::{lemma_scope_scan_finds_the_nearest, scored_scope};
use crate::sorting::strictly_ascending;
use crate::state::{
    events_of, last_of, lemma_events_of, lemma_last_of, lemma_observed_last, observed,
    observed_sometime, ConversationState, EventId, Observation,
};
use crate::streaming::{emits, EmitDecision, StreamingQuery, StreamingStats};

verus! {

#[derive(Debug, Clone, Copy, PartialEq, Eq, Structural)]
pub enum ServedBy {
    FullScan,
    ShardScan,
    Speculative,
    DeltaCache,
}

#[derive(Clone, Debug)]
pub struct QueryOutput {
    pub results: Vec<(u32, usize)>,
    pub top_event: Option<EventId>,
    pub predicted_events: Vec<EventId>,
    pub shard_scope_size: usize,
    pub served_by: ServedBy,
    /// Cold-tier hits, if a cold tier was attached and contained
    /// relevant signatures. Empty when no cold tier is present, the
    /// cold tier is empty, or no cold-tier hits matched the query.
    /// Each tuple is `(hamming_distance, event_id, doc_idx)`.
    pub cold_results: Vec<(u32, EventId, usize)>,
}

/// What was found for a partial of the utterance.
struct Draft {
    sig: BinarySignature,
    results: Vec<(u32, usize)>,
}

/// How far the final signature may be from the speculative one.
pub const ACCEPTED_DRIFT: u32 = 16;

/// How many recent events a prediction looks at.
pub const CONTEXT_EVENTS: usize = 3;

/// What is scanned for a query: the predicted documents, or everything when
/// none are predicted.
pub open spec fn scan_of(
    index: HierarchicalIndex,
    predicted_events: Seq<EventId>,
    predicted_scope: Seq<usize>,
    query: BinarySignature,
    k: nat,
    options: SearchOptions,
) -> Search {
    if predicted_scope.len() == 0 {
        search_of(index.sigs(), index.catalog(), query, k, options)
    } else {
        Search {
            results: top_k(scored_scope(query, index.sigs(), predicted_scope), k),
            coarse_results: Seq::empty(),
            candidate_events: predicted_events,
            shard_scope_size: predicted_scope.len(),
            used_shards: true,
        }
    }
}

/// The event of the first of the results.
pub open spec fn event_of_first(
    catalog: EventCatalog,
    results: Seq<(u32, usize)>,
) -> Option<EventId> {
    if results.len() == 0 {
        None
    } else {
        catalog.event_of(results[0].1)
    }
}

/// The cache after answer `i` of a scope served a query.
pub open spec fn touched(before: DeltaCache, after: DeltaCache, hash: u64, i: int) -> bool {
    &&& after.tolerance() == before.tolerance()
    &&& after.bound() == before.bound()
    &&& after.uses() == before.uses() + 1
    &&& after.bucket(hash) == before.bucket(hash).update(
        i,
        Cached { last_used: after.uses(), ..before.bucket(hash)[i] },
    )
    &&& forall|h: u64| h != hash ==> #[trigger] after.bucket(h) == before.bucket(h)
}

/// The cache after it was asked in vain and then given an answer.
pub open spec fn added(
    before: DeltaCache,
    after: DeltaCache,
    hash: u64,
    query: BinarySignature,
    k: usize,
    results: Seq<(u32, usize)>,
) -> bool {
    &&& after.tolerance() == before.tolerance()
    &&& after.bound() == before.bound()
    &&& after.uses() == before.uses() + 2
    &&& after.bucket(hash) == with_answer(
        before.bucket(hash),
        before.bound(),
        Cached { query, results, k, last_used: after.uses() },
    )
    &&& forall|h: u64| h != hash ==> #[trigger] after.bucket(h) == before.bucket(h)
}

/// The events of the predictions.
fn events_of_predictions(predictions: &Vec<Prediction>) -> (events: Vec<EventId>)
    ensures
        events@ == predictions@.map_values(|p: Prediction| p.event),
{
    let ghost all = predictions@.map_values(|p: Prediction| p.event);
    let mut events: Vec<EventId> = Vec::new();
    let mut i: usize = 0;
    while i < predictions.len()
        invariant
            i <= predictions@.len(),
            all == predictions@.map_values(|p: Prediction| p.event),
            events@ == all.take(i as int),
        decreases predictions@.len() - i,
    {
        events.push(predictions[i].event);
        i = i + 1;
        assert(events@ =~= all.take(i as int));
    }
    assert(all.take(i as int) =~= all);
    events
}

/// The state of one conversation.
pub struct QueryContext<P: NextTurnPredictor + ?Sized> {
    state: ConversationState,
    predictor: Box<P>,
    filter: StreamingQuery,
    delta_cache: DeltaCache,
    search_options: SearchOptions,
    predicted_events: Vec<EventId>,
    predicted_scope: Vec<usize>,
    draft: Option<Draft>,
    cold_tier: Option<Box<dyn ColdTier>>,
}

impl<P: NextTurnPredictor + ?Sized> QueryContext<P> {
    /// The events of the conversation.
    pub closed spec fn window(&self) -> Seq<Observation> {
        self.state@
    }

    pub closed spec fn conversation_state(&self) -> ConversationState {
        self.state
    }

    /// The predictor.
    pub closed spec fn forecaster(&self) -> Box<P> {
        self.predictor
    }

    /// The events that a prediction goes by.
    pub open spec fn context(&self) -> Seq<EventId> {
        last_of(events_of(self.window()), CONTEXT_EVENTS as nat)
    }

    pub closed spec fn streaming(&self) -> StreamingQuery {
        self.filter
    }

    pub closed spec fn cache(&self) -> DeltaCache {
        self.delta_cache
    }

    pub closed spec fn options(&self) -> SearchOptions {
        self.search_options
    }

    pub closed spec fn predictions(&self) -> Seq<EventId> {
        self.predicted_events@
    }

    /// The documents of the predicted events.
    pub closed spec fn predicted_docs(&self) -> Seq<usize> {
        self.predicted_scope@
    }

    /// The partial that was scanned for last, with what was found.
    pub closed spec fn speculation(&self) -> Option<(BinarySignature, Seq<(u32, usize)>)> {
        match self.draft {
            Some(draft) => Some((draft.sig, draft.results@)),
            None => None,
        }
    }

    /// Whether what was found for a partial answers the final query: the
    /// partial is close to it, and as much was found as is asked for.
    pub open spec fn speculation_serves(&self, final_sig: BinarySignature, k: nat) -> bool {
        match self.speculation() {
            Some((sig, results)) => hamming(sig, final_sig) <= ACCEPTED_DRIFT && results.len() == k,
            None => false,
        }
    }

    pub closed spec fn tier(&self) -> Option<Box<dyn ColdTier>> {
        self.cold_tier
    }

    /// The predicted documents are in ascending order, each once.
    pub proof fn lemma_wf(&self)
        requires
            self.wf(),
        ensures
            forall|i: int, j: int|
                0 <= i < j < self.predicted_docs().len() ==> self.predicted_docs()[i]
                    < self.predicted_docs()[j],
    {
    }

    pub closed spec fn wf(&self) -> bool {
        &&& self.state.wf()
        &&& self.predictor.ready()
        &&& self.filter.wf()
        &&& self.delta_cache.wf()
        &&& strictly_ascending(self.predicted_scope@)
        &&& self.cold_tier matches Some(tier) ==> tier.ready()
    }

    /// The answers that are cached for the predicted events.
    pub open spec fn cached_answers(&self) -> Seq<Cached> {
        self.cache().bucket(scope_hash_of(self.predictions()))
    }

    /// What a scan for a query finds.
    pub open spec fn scan_for(
        &self,
        index: HierarchicalIndex,
        query: BinarySignature,
        top_k: usize,
    ) -> Search {
        scan_of(
            index,
            self.predictions(),
            self.predicted_docs(),
            query,
            top_k as nat,
            self.options(),
        )
    }

    /// The counters have room for one more utterance step.
    pub open spec fn has_room(&self) -> bool {
        &&& self.cache().uses() < u64::MAX - 1
        &&& self.streaming().spec_stats().updates_received < u64::MAX
    }

    /// Construct from an already-boxed predictor.
    pub fn with_boxed_predictor(predictor: Box<P>) -> (ctx: Self)
        requires
            predictor.ready(),
        ensures
            ctx.wf(),
            ctx.forecaster() == predictor,
            fresh(ctx),
    {
        QueryContext {
            state: ConversationState::new(8, Duration::from_secs(60)),
            predictor,
            filter: StreamingQuery::new(24),
            delta_cache: DeltaCache::new(16, 64),
            search_options: SearchOptions::default(),
            predicted_events: Vec::new(),
            predicted_scope: Vec::new(),
            draft: None,
            cold_tier: None,
        }
    }

    /// Attach a cold tier. After this, every [`QueryContext::finalize`] also
    /// queries the cold tier.
    pub fn with_cold_tier(self, cold: Box<dyn ColdTier>) -> (ctx: Self)
        requires
            self.wf(),
            cold.ready(),
        ensures
            ctx.wf(),
            ctx.tier() == Some(cold),
            ctx.forecaster() == self.forecaster(),
            ctx.conversation_state() == self.conversation_state(),
            ctx.window() == self.window(),
            ctx.streaming() == self.streaming(),
            ctx.cache() == self.cache(),
            ctx.options() == self.options(),
            ctx.predictions() == self.predictions(),
            ctx.predicted_docs() == self.predicted_docs(),
            ctx.speculation() == self.speculation(),
    {
        let tier = Some(cold);
        QueryContext { cold_tier: tier, ..self }
    }

    /// Whether a cold tier is attached.
    pub fn has_cold_tier(&self) -> (b: bool)
        ensures
            b == self.tier() is Some,
    {
        self.cold_tier.is_some()
    }

    /// Borrow the attached cold tier, if any.
    pub fn cold_tier(&self) -> (tier: Option<&Box<dyn ColdTier>>)
        ensures
            tier is Some <==> self.tier() is Some,
            tier matches Some(tier) ==> Some(*tier) == self.tier(),
    {
        self.cold_tier.as_ref()
    }

    pub fn with_search_options(self, options: SearchOptions) -> (ctx: Self)
        requires
            self.wf(),
        ensures
            ctx.wf(),
            ctx.options() == options,
            ctx.tier() == self.tier(),
            ctx.forecaster() == self.forecaster(),
            ctx.conversation_state() == self.conversation_state(),
            ctx.window() == self.window(),
            ctx.streaming() == self.streaming(),
            ctx.cache() == self.cache(),
            ctx.predictions() == self.predictions(),
            ctx.predicted_docs() == self.predicted_docs(),
            ctx.speculation() == self.speculation(),
    {
        let mut ctx = self;
        ctx.search_options = options;
        ctx
    }

    /// Scan for a query.
    fn scan(&self, index: &HierarchicalIndex, query: &BinarySignature, top_k: usize) -> (r:
        SearchResult)
        requires
            self.wf(),
            index.wf(),
        ensures
            r@ == scan_of(
                *index,
                self.predictions(),
                self.predicted_docs(),
                *query,
                top_k as nat,
                self.options(),
            ),
    {
        if self.predicted_scope.len() == 0 {
            return index.search(query, top_k, &self.search_options);
        }
        let scope = self.predicted_scope.as_slice();
        let results = if self.search_options.parallel {
            index.signatures().scan_top_k_subset_parallel(query, scope, top_k)
        } else {
            index.signatures().scan_top_k_subset(query, scope, top_k)
        };
        SearchResult {
            results,
            coarse_results: Vec::new(),
            candidate_events: slice_to_vec(self.predicted_events.as_slice()),
            shard_scope_size: self.predicted_scope.len(),
            used_shards: true,
        }
    }

    /// Predict the events of the next utterance and stage their documents.
    /// Meant to run while the answer is spoken, so that it does not add to the
    /// latency of the next query.
    pub fn warm_next(&mut self, index: &HierarchicalIndex) -> (events: Vec<EventId>)
        requires
            old(self).wf(),
        ensures
            final(self).wf(),
            events@ == final(self).predictions(),
            warmed(*old(self), *final(self), *index),
    {
        let context = self.state.last_n(CONTEXT_EVENTS);
        if context.len() == 0 {
            self.predicted_events.clear();
            self.predicted_scope.clear();
            assert(self.predicted_scope@ =~= index.catalog().union_of(Seq::empty()));
            return Vec::new();
        }
        let predictions = self.predictor.predict(
            context.as_slice(),
            self.search_options.max_candidate_events,
        );
        self.stage(index, &predictions)
    }

    /// Stage the documents of the events that a predictor came up with.
    pub fn stage(&mut self, index: &HierarchicalIndex, predictions: &Vec<Prediction>) -> (events:
        Vec<EventId>)
        requires
            old(self).wf(),
        ensures
            final(self).wf(),
            events@ == predictions@.map_values(|p: Prediction| p.event),
            final(self).predictions() == events@,
            final(self).predicted_docs() == index.catalog().union_of(events@),
            final(self).forecaster() == old(self).forecaster(),
            final(self).conversation_state() == old(self).conversation_state(),
            final(self).window() == old(self).window(),
            final(self).streaming() == old(self).streaming(),
            final(self).cache() == old(self).cache(),
            final(self).options() == old(self).options(),
            final(self).speculation() == old(self).speculation(),
            final(self).tier() == old(self).tier(),
    {
        let events = events_of_predictions(predictions);
        self.predicted_scope = index.events().union_scope(events.as_slice());
        self.predicted_events = slice_to_vec(events.as_slice());
        events
    }

    /// Feed the signature of a partial transcript. If it has drifted far enough
    /// from the last one that was scanned for, look it up in the cache or scan
    /// for it, and keep what was found for the end of the utterance.
    pub fn observe_partial(
        &mut self,
        index: &HierarchicalIndex,
        partial: BinarySignature,
        top_k: usize,
    )
        requires
            old(self).wf(),
            old(self).has_room(),
            index.wf(),
        ensures
            final(self).wf(),
            partial_taken(*old(self), *final(self), *index, partial, top_k),
    {
        let sig = match self.filter.update(partial) {
            EmitDecision::Emitted(sig) => sig,
            EmitDecision::Suppressed => {
                return;
            },
        };
        let scope_hash: u64 = DeltaCache::scope_hash(self.predicted_events.as_slice());
        if let Some(results) = self.delta_cache.lookup(scope_hash, &sig, top_k) {
            self.draft = Some(Draft { sig, results });
            return;
        }
        let search = self.scan(index, &sig, top_k);
        self.delta_cache.insert(
            scope_hash,
            sig,
            top_k,
            slice_to_vec(search.results.as_slice()),
        );
        self.draft = Some(Draft { sig, results: search.results });
    }

    /// End the utterance: answer from what was found for the last partial if
    /// the final signature is close to it, else from the cache, else from a
    /// scan. The event of the best result becomes part of the conversation.
    pub fn finalize(
        &mut self,
        index: &HierarchicalIndex,
        final_sig: BinarySignature,
        top_k: usize,
    ) -> (out: QueryOutput)
        requires
            old(self).wf(),
            old(self).has_room(),
            index.wf(),
        ensures
            final(self).wf(),
            finished(*old(self), *final(self), *index, final_sig, top_k as nat, out),
            out.results@ == served(*old(self), *index, final_sig, top_k).results,
            out.served_by == served(*old(self), *index, final_sig, top_k).served_by,
            out.shard_scope_size == served(*old(self), *index, final_sig, top_k).scope_size,
            cache_taken(*old(self), *final(self), *index, final_sig, top_k),
    {
        let scope_size: usize = self.predicted_scope.len();
        let served: Option<Vec<(u32, usize)>> = match &self.draft {
            Some(draft) => if draft.sig.hamming_distance(&final_sig) <= ACCEPTED_DRIFT
                && draft.results.len() == top_k {
                Some(slice_to_vec(draft.results.as_slice()))
            } else {
                None
            },
            None => None,
        };
        if let Some(results) = served {
            return self.finish(
                index,
                results,
                ServedBy::Speculative,
                scope_size,
                &final_sig,
                top_k,
            );
        }
        let scope_hash: u64 = DeltaCache::scope_hash(self.predicted_events.as_slice());
        if let Some(results) = self.delta_cache.lookup(scope_hash, &final_sig, top_k) {
            return self.finish(
                index,
                results,
                ServedBy::DeltaCache,
                scope_size,
                &final_sig,
                top_k,
            );
        }
        let search = self.scan(index, &final_sig, top_k);
        self.delta_cache.insert(
            scope_hash,
            final_sig,
            top_k,
            slice_to_vec(search.results.as_slice()),
        );
        let served_by = if search.used_shards {
            ServedBy::ShardScan
        } else {
            ServedBy::FullScan
        };
        self.finish(
            index,
            search.results,
            served_by,
            search.shard_scope_size,
            &final_sig,
            top_k,
        )
    }

    fn finish(
        &mut self,
        index: &HierarchicalIndex,
        results: Vec<(u32, usize)>,
        served_by: ServedBy,
        shard_scope_size: usize,
        final_sig: &BinarySignature,
        top_k: usize,
    ) -> (out: QueryOutput)
        requires
            old(self).wf(),
            index.wf(),
        ensures
            final(self).wf(),
            finished(*old(self), *final(self), *index, *final_sig, top_k as nat, out),
            final(self).cache() == old(self).cache(),
            out.results == results,
            out.served_by == served_by,
            out.shard_scope_size == shard_scope_size,
    {
        let top_event = if results.len() > 0 {
            index.events().doc_event(results[0].1)
        } else {
            None
        };
        if let Some(next) = top_event {
            if let Some(prev) = self.state.last() {
                self.predictor.observe(prev, next);
                assert(taught(&*old(self).predictor, &*self.predictor, seq![(prev, next)]));
            } else {
                proof {
                    lemma_taught_nothing(&*self.predictor);
                }
            }
            self.state.observe(next);
        }
        let cold_results: Vec<(u32, EventId, usize)> = match &self.cold_tier {
            Some(tier) => if tier.is_empty() {
                Vec::new()
            } else {
                tier.search(final_sig, top_k)
            },
            None => Vec::new(),
        };
        let predicted_events = slice_to_vec(self.predicted_events.as_slice());
        self.reset_utterance();
        QueryOutput {
            results,
            top_event,
            predicted_events,
            shard_scope_size,
            served_by,
            cold_results,
        }
    }

    /// End the utterance: forget what was found for its partials.
    pub fn reset_utterance(&mut self)
        requires
            old(self).wf(),
        ensures
            final(self).wf(),
            final(self).speculation() is None,
            final(self).streaming().spec_current() is None,
            final(self).streaming().spec_last_emitted() is None,
            final(self).streaming().drift_threshold() == old(self).streaming().drift_threshold(),
            final(self).streaming().spec_stats() == old(self).streaming().spec_stats(),
            final(self).forecaster() == old(self).forecaster(),
            final(self).conversation_state() == old(self).conversation_state(),
            final(self).window() == old(self).window(),
            final(self).cache() == old(self).cache(),
            final(self).options() == old(self).options(),
            final(self).predictions() == old(self).predictions(),
            final(self).predicted_docs() == old(self).predicted_docs(),
            final(self).tier() == old(self).tier(),
    {
        self.filter.reset();
        self.draft = None;
    }

    /// Whether the counters have room for one more utterance step.
    pub fn can_continue(&self) -> (b: bool)
        ensures
            b == self.has_room(),
    {
        self.delta_cache.use_count() < u64::MAX - 1 && self.filter.stats().updates_received
            < u64::MAX
    }

    pub fn conversation(&self) -> (state: &ConversationState)
        ensures
            *state == self.conversation_state(),
            state@ == self.window(),
    {
        &self.state
    }

    pub fn predictor(&self) -> (p: &P)
        ensures
            p == &*self.forecaster(),
    {
        &self.predictor
    }

    pub fn predicted_scope_size(&self) -> (n: usize)
        ensures
            n == self.predicted_docs().len(),
    {
        self.predicted_scope.len()
    }
}

/// A conversation that has not begun.
pub open spec fn fresh<P: NextTurnPredictor + ?Sized>(ctx: QueryContext<P>) -> bool {
    &&& ctx.window() == Seq::<Observation>::empty()
    &&& ctx.conversation_state().capacity() == 8
    &&& ctx.conversation_state().max_age().nanos == 60_000_000_000
    &&& ctx.conversation_state().timer().is_new()
    &&& ctx.predictions() == Seq::<EventId>::empty()
    &&& ctx.predicted_docs() == Seq::<usize>::empty()
    &&& ctx.speculation() is None
    &&& ctx.tier() is None
    &&& ctx.options() == SearchOptions { coarse_k: 64, max_candidate_events: 8, parallel: true }
    &&& ctx.streaming().drift_threshold() == 24
    &&& ctx.streaming().spec_last_emitted() is None
    &&& ctx.streaming().spec_current() is None
    &&& ctx.cache().tolerance() == 16
    &&& ctx.cache().bound() == 64
    &&& ctx.cache().buckets() == Map::<u64, Seq<Cached>>::empty()
    &&& ctx.cache().uses() == 0
    &&& ctx.streaming().spec_stats() == StreamingStats {
        updates_received: 0,
        updates_emitted: 0,
        updates_suppressed: 0,
    }
}

/// What holds after a partial. If it has drifted far enough from the last one
/// that was scanned for, the answer for it comes from the cache or a scan, and
/// is kept. Otherwise nothing but the filter takes notice.
pub open spec fn partial_taken<P: NextTurnPredictor + ?Sized>(
    before: QueryContext<P>,
    after: QueryContext<P>,
    index: HierarchicalIndex,
    partial: BinarySignature,
    top_k: usize,
) -> bool {
    let filter = before.streaming();
    let cache = before.cache();
    &&& after.forecaster() == before.forecaster()
    &&& after.conversation_state() == before.conversation_state()
    &&& after.window() == before.window()
    &&& after.options() == before.options()
    &&& after.predictions() == before.predictions()
    &&& after.predicted_docs() == before.predicted_docs()
    &&& after.tier() == before.tier()
    &&& after.streaming().spec_current() == Some(partial)
    &&& after.streaming().drift_threshold() == filter.drift_threshold()
    &&& if emits(filter.spec_last_emitted(), filter.drift_threshold(), partial) {
        &&& after.streaming().spec_last_emitted() == Some(partial)
        &&& after.streaming().spec_stats() == StreamingStats {
            updates_received: (filter.spec_stats().updates_received + 1) as u64,
            updates_emitted: (filter.spec_stats().updates_emitted + 1) as u64,
            ..filter.spec_stats()
        }
        &&& after.speculation() == Some(
            (
                partial,
                match cached_place(before, partial, top_k) {
                    Some(i) => before.cached_answers()[i].results,
                    None => before.scan_for(index, partial, top_k).results,
                },
            ),
        )
        &&& looked_up(before, after, index, partial, top_k)
    } else {
        &&& after.streaming().spec_last_emitted() == filter.spec_last_emitted()
        &&& after.streaming().spec_stats() == StreamingStats {
            updates_received: (filter.spec_stats().updates_received + 1) as u64,
            updates_suppressed: (filter.spec_stats().updates_suppressed + 1) as u64,
            ..filter.spec_stats()
        }
        &&& after.speculation() == before.speculation()
        &&& after.cache() == cache
    }
}

/// What holds after the events of the next utterance were predicted: their
/// documents are staged, and everything else is as it was. Without a
/// conversation nothing is predicted.
pub open spec fn warmed<P: NextTurnPredictor + ?Sized>(
    before: QueryContext<P>,
    after: QueryContext<P>,
    index: HierarchicalIndex,
) -> bool {
    &&& if before.context().len() == 0 {
        after.predictions().len() == 0
    } else {
        exists|predictions: Seq<Prediction>|
            #[trigger] before.forecaster().may_predict_told(
                Seq::empty(),
                before.context(),
                before.options().max_candidate_events as nat,
                predictions,
            ) && descending(predictions) && predictions.len()
                <= before.options().max_candidate_events && after.predictions()
                == predictions.map_values(|p: Prediction| p.event)
    }
    &&& after.predicted_docs() == index.catalog().union_of(after.predictions())
    &&& after.forecaster() == before.forecaster()
    &&& after.conversation_state() == before.conversation_state()
    &&& after.window() == before.window()
    &&& after.streaming() == before.streaming()
    &&& after.cache() == before.cache()
    &&& after.options() == before.options()
    &&& after.speculation() == before.speculation()
    &&& after.tier() == before.tier()
}

/// What the end of an utterance on `next` tells the predictor: the transition
/// from the event before, if there was one.
pub open spec fn transition_to(window: Seq<Observation>, next: EventId) -> Seq<
    (EventId, EventId),
> {
    if window.len() == 0 {
        Seq::empty()
    } else {
        seq![(window.last().event, next)]
    }
}

/// A counting predictor of the first order, smoothed by one, that has learned
/// nothing.
pub open spec fn untaught(p: MarkovPredictor<CountModel>) -> bool {
    &&& p.order() == 1
    &&& p.weighing() == (CountModel { num: 1, den: 1 })
    &&& p.table() == (Table::<u32> { rows: Seq::empty(), vocab: Seq::empty() })
}

/// The place of the cached answer that serves a query.
pub open spec fn cached_place<P: NextTurnPredictor + ?Sized>(
    ctx: QueryContext<P>,
    query: BinarySignature,
    top_k: usize,
) -> Option<int> {
    best_match(ctx.cached_answers(), query, top_k, ctx.cache().tolerance())
}

/// The cache was asked for a query, and given the result of a scan if it had
/// no answer.
pub open spec fn looked_up<P: NextTurnPredictor + ?Sized>(
    before: QueryContext<P>,
    after: QueryContext<P>,
    index: HierarchicalIndex,
    query: BinarySignature,
    top_k: usize,
) -> bool {
    let hash = scope_hash_of(before.predictions());
    match cached_place(before, query, top_k) {
        Some(i) => touched(before.cache(), after.cache(), hash, i),
        None => added(
            before.cache(),
            after.cache(),
            hash,
            query,
            top_k,
            before.scan_for(index, query, top_k).results,
        ),
    }
}

/// What the end of an utterance does to the cache.
pub open spec fn cache_taken<P: NextTurnPredictor + ?Sized>(
    before: QueryContext<P>,
    after: QueryContext<P>,
    index: HierarchicalIndex,
    query: BinarySignature,
    top_k: usize,
) -> bool {
    if before.speculation_serves(query, top_k as nat) {
        after.cache() == before.cache()
    } else {
        looked_up(before, after, index, query, top_k)
    }
}

/// An answer, and where it came from.
pub ghost struct Served {
    pub results: Seq<(u32, usize)>,
    pub served_by: ServedBy,
    pub scope_size: nat,
}

/// The answer to a final query: what was found for the last partial if the
/// query is close to it, else what is cached, else what a scan finds.
pub open spec fn served<P: NextTurnPredictor + ?Sized>(
    ctx: QueryContext<P>,
    index: HierarchicalIndex,
    query: BinarySignature,
    top_k: usize,
) -> Served {
    if ctx.speculation_serves(query, top_k as nat) {
        Served {
            results: (ctx.speculation()->0).1,
            served_by: ServedBy::Speculative,
            scope_size: ctx.predicted_docs().len(),
        }
    } else {
        match cached_place(ctx, query, top_k) {
            Some(i) => Served {
                results: ctx.cached_answers()[i].results,
                served_by: ServedBy::DeltaCache,
                scope_size: ctx.predicted_docs().len(),
            },
            None => served_by_scan(ctx.scan_for(index, query, top_k)),
        }
    }
}

/// The answer that a scan gives.
pub open spec fn served_by_scan(scan: Search) -> Served {
    Served {
        results: scan.results,
        served_by: if scan.used_shards {
            ServedBy::ShardScan
        } else {
            ServedBy::FullScan
        },
        scope_size: scan.shard_scope_size,
    }
}

/// What holds of the end of an utterance, whatever served it. The event of the
/// best result, if there is one, joins the conversation, and the predictor is
/// told of the transition to it. A cold tier that is not empty is searched.
/// The utterance is over.
pub open spec fn finished<P: NextTurnPredictor + ?Sized>(
    before: QueryContext<P>,
    after: QueryContext<P>,
    index: HierarchicalIndex,
    query: BinarySignature,
    k: nat,
    out: QueryOutput,
) -> bool {
    &&& out.top_event == event_of_first(index.catalog(), out.results@)
    &&& out.predicted_events@ == before.predictions()
    &&& match before.tier() {
        Some(tier) => if tier.size() == 0 {
            out.cold_results@ == Seq::<(u32, EventId, usize)>::empty()
        } else {
            tier.may_find(query, k, out.cold_results@)
        },
        None => out.cold_results@ == Seq::<(u32, EventId, usize)>::empty(),
    }
    &&& match out.top_event {
        Some(next) => {
            &&& observed_sometime(
                before.conversation_state().timer(),
                before.window(),
                before.conversation_state().capacity(),
                before.conversation_state().max_age(),
                next,
                after.window(),
            )
            &&& after.window().len() > 0 && after.window().last().event == next
            &&& before.window().len() == 0 ==> after.forecaster() == before.forecaster()
            &&& taught(
                &*before.forecaster(),
                &*after.forecaster(),
                transition_to(before.window(), next),
            )
        },
        None => {
            &&& after.conversation_state() == before.conversation_state()
            &&& after.window() == before.window()
            &&& after.forecaster() == before.forecaster()
        },
    }
    &&& after.conversation_state().capacity() == before.conversation_state().capacity()
    &&& after.conversation_state().max_age() == before.conversation_state().max_age()
    &&& after.conversation_state().timer() == before.conversation_state().timer()
    &&& after.options() == before.options()
    &&& after.predictions() == before.predictions()
    &&& after.predicted_docs() == before.predicted_docs()
    &&& after.tier() == before.tier()
    &&& after.speculation() is None
    &&& after.streaming().spec_current() is None
    &&& after.streaming().spec_last_emitted() is None
    &&& after.streaming().drift_threshold() == before.streaming().drift_threshold()
    &&& after.streaming().spec_stats() == before.streaming().spec_stats()
}

impl<P: NextTurnPredictor> QueryContext<P> {
    /// Construct with any concrete predictor.
    pub fn with_predictor(predictor: P) -> (ctx: Self)
        requires
            predictor.ready(),
        ensures
            ctx.wf(),
            ctx.forecaster() == Box::new(predictor),
            fresh(ctx),
    {
        Self::with_boxed_predictor(Box::new(predictor))
    }
}

impl QueryContext<MarkovPredictor<CountModel>> {
    /// Construct with a counting predictor of the first order.
    pub fn new() -> (ctx: Self)
        ensures
            ctx.wf(),
            untaught(*ctx.forecaster()),
            fresh(ctx),
    {
        Self::with_predictor(MarkovPredictor::new())
    }
}

impl Default for QueryContext<MarkovPredictor<CountModel>> {
    fn default() -> (ctx: Self)
        ensures
            ctx.wf(),
            untaught(*ctx.forecaster()),
            fresh(ctx),
    {
        Self::new()
    }
}

/// A conversation that nothing is predicted, kept or cached for is answered by
/// a search.
pub proof fn lemma_fresh_is_searched<P: NextTurnPredictor + ?Sized>(
    ctx: QueryContext<P>,
    index: HierarchicalIndex,
    query: BinarySignature,
    top_k: usize,
)
    requires
        ctx.predicted_docs().len() == 0,
        ctx.speculation() is None,
        ctx.cache().buckets() == Map::<u64, Seq<Cached>>::empty(),
    ensures
        served(ctx, index, query, top_k) == served_by_scan(
            search_of(index.sigs(), index.catalog(), query, top_k as nat, ctx.options()),
        ),
{
}

/// A repeated query is answered from the cache: a query that was not answered by
/// speculation, asked again right away, is answered by the same results, and is
/// about the same event.
pub proof fn lemma_repeated_query_is_cached<P: NextTurnPredictor + ?Sized>(
    before: QueryContext<P>,
    between: QueryContext<P>,
    after: QueryContext<P>,
    index: HierarchicalIndex,
    query: BinarySignature,
    top_k: usize,
    first: QueryOutput,
    second: QueryOutput,
)
    requires
        before.wf(),
        finished(before, between, index, query, top_k as nat, first),
        cache_taken(before, between, index, query, top_k),
        first.results@ == served(before, index, query, top_k).results,
        first.served_by == served(before, index, query, top_k).served_by,
        first.served_by != ServedBy::Speculative,
        finished(between, after, index, query, top_k as nat, second),
        second.results@ == served(between, index, query, top_k).results,
        second.served_by == served(between, index, query, top_k).served_by,
    ensures
        second.served_by == ServedBy::DeltaCache,
        second.results@ == first.results@,
        second.top_event == first.top_event,
{
    let answers = before.cached_answers();
    let tolerance = before.cache().tolerance();
    before.cache().lemma_wf();
    lemma_best_match(answers, query, top_k, tolerance);
    match cached_place(before, query, top_k) {
        Some(i) => {
            let kept = between.cached_answers();
            assert(kept == answers.update(
                i,
                Cached { last_used: between.cache().uses(), ..answers[i] },
            ));
            lemma_best_match(kept, query, top_k, tolerance);
            let j = best_match(kept, query, top_k, tolerance);
            assert(serves(kept[i], query, top_k, tolerance));
            let j = j->0;
            assert(serves(answers[j], query, top_k, tolerance));
            assert(i == j);
        },
        None => {
            let c = Cached {
                query,
                results: before.scan_for(index, query, top_k).results,
                k: top_k,
                last_used: between.cache().uses(),
            };
            lemma_inserted_is_served(answers, before.cache().bound(), c, tolerance);
            assert forall|i: int| 0 <= i < answers.len() implies (#[trigger] answers[i]).k != c.k
                || hamming(c.query, answers[i].query) != 0 by {
                assert(!serves(answers[i], query, top_k, tolerance));
            }
        },
    }
}

/// The end of an utterance teaches the predictor the transition that it made.
pub proof fn lemma_turn_teaches<P: NextTurnPredictor + ?Sized>(
    before: QueryContext<P>,
    after: QueryContext<P>,
    index: HierarchicalIndex,
    query: BinarySignature,
    k: nat,
    out: QueryOutput,
)
    requires
        finished(before, after, index, query, k, out),
    ensures
        taught(
            &*before.forecaster(),
            &*after.forecaster(),
            match out.top_event {
                Some(next) => transition_to(before.window(), next),
                None => Seq::empty(),
            },
        ),
{
    lemma_taught_nothing(&*before.forecaster());
}

/// Over several turns the predictor is taught all their transitions.
pub proof fn lemma_turns_teach<P: NextTurnPredictor + ?Sized>(
    turns: Seq<QueryContext<P>>,
    told: Seq<Seq<(EventId, EventId)>>,
)
    requires
        turns.len() == told.len() + 1,
        forall|i: int|
            0 <= i < told.len() ==> taught(
                &*(#[trigger] turns[i]).forecaster(),
                &*turns[i + 1].forecaster(),
                told[i],
            ),
    ensures
        taught(&*turns[0].forecaster(), &*turns.last().forecaster(), told.flatten()),
    decreases told.len(),
{
    if told.len() == 0 {
        lemma_taught_nothing(&*turns[0].forecaster());
        assert(told.flatten() =~= Seq::empty());
    } else {
        let rest = turns.drop_first();
        let later = told.drop_first();
        assert forall|i: int| 0 <= i < later.len() implies taught(
            &*(#[trigger] rest[i]).forecaster(),
            &*rest[i + 1].forecaster(),
            later[i],
        ) by {
            assert(rest[i] == turns[i + 1]);
            assert(rest[i + 1] == turns[i + 2]);
        }
        lemma_turns_teach(rest, later);
        assert(taught(&*turns[0].forecaster(), &*turns[1].forecaster(), told[0]));
        lemma_taught_on(
            &*turns[0].forecaster(),
            &*rest[0].forecaster(),
            &*rest.last().forecaster(),
            told[0],
            later.flatten(),
        );
        assert(told.flatten() == told[0] + later.flatten());
    }
}

/// What the turns of a conversation taught shows when the next one is predicted:
/// the events that are staged are those that the predictor, as it was before the
/// turns, may predict once told of all their transitions.
pub proof fn lemma_learning_shows<P: NextTurnPredictor + ?Sized>(
    turns: Seq<QueryContext<P>>,
    told: Seq<Seq<(EventId, EventId)>>,
    after: QueryContext<P>,
    index: HierarchicalIndex,
)
    requires
        turns.len() == told.len() + 1,
        forall|i: int|
            0 <= i < told.len() ==> taught(
                &*(#[trigger] turns[i]).forecaster(),
                &*turns[i + 1].forecaster(),
                told[i],
            ),
        warmed(turns.last(), after, index),
        turns.last().context().len() > 0,
    ensures
        exists|predictions: Seq<Prediction>|
            #[trigger] turns[0].forecaster().may_predict_told(
                told.flatten(),
                turns.last().context(),
                turns.last().options().max_candidate_events as nat,
                predictions,
            ) && after.predictions() == predictions.map_values(|p: Prediction| p.event),
{
    let last = turns.last();
    lemma_turns_teach(turns, told);
    let predictions = choose|predictions: Seq<Prediction>|
        #[trigger] last.forecaster().may_predict_told(
            Seq::empty(),
            last.context(),
            last.options().max_candidate_events as nat,
            predictions,
        ) && after.predictions() == predictions.map_values(|p: Prediction| p.event);
    assert(told.flatten() + Seq::empty() =~= told.flatten());
    assert(turns[0].forecaster().may_predict_told(
        told.flatten() + Seq::empty(),
        last.context(),
        last.options().max_candidate_events as nat,
        predictions,
    ));
}

/// A final query is answered by speculation exactly when a partial was scanned for
/// that is within the accepted drift of it, and as much was found for the partial
/// as is asked for. The answer is then what was found for the partial.
pub proof fn lemma_served_speculatively<P: NextTurnPredictor + ?Sized>(
    ctx: QueryContext<P>,
    index: HierarchicalIndex,
    query: BinarySignature,
    top_k: usize,
)
    ensures
        served(ctx, index, query, top_k).served_by == ServedBy::Speculative <==> {
            &&& ctx.speculation() is Some
            &&& hamming((ctx.speculation()->0).0, query) <= ACCEPTED_DRIFT
            &&& (ctx.speculation()->0).1.len() == top_k
        },
        served(ctx, index, query, top_k).served_by == ServedBy::Speculative ==> served(
            ctx,
            index,
            query,
            top_k,
        ).results == (ctx.speculation()->0).1,
{
}

/// Speculation pays off: once a partial was scanned for, a final query within
/// the accepted drift is answered by what was found for the partial, provided
/// that as much was found as is asked for.
pub proof fn lemma_speculation_serves_final<P: NextTurnPredictor + ?Sized>(
    before: QueryContext<P>,
    after: QueryContext<P>,
    index: HierarchicalIndex,
    partial: BinarySignature,
    query: BinarySignature,
    top_k: usize,
)
    requires
        partial_taken(before, after, index, partial, top_k),
        emits(
            before.streaming().spec_last_emitted(),
            before.streaming().drift_threshold(),
            partial,
        ),
        hamming(partial, query) <= ACCEPTED_DRIFT,
        (after.speculation()->0).1.len() == top_k,
    ensures
        served(after, index, query, top_k).served_by == ServedBy::Speculative,
        served(after, index, query, top_k).results == match cached_place(before, partial, top_k) {
            Some(i) => before.cached_answers()[i].results,
            None => before.scan_for(index, partial, top_k).results,
        },
{
}

/// A scan for which documents are predicted finds nothing but predicted
/// documents.
pub proof fn lemma_predicted_docs_only<P: NextTurnPredictor + ?Sized>(
    ctx: QueryContext<P>,
    index: HierarchicalIndex,
    query: BinarySignature,
    top_k: usize,
    i: int,
)
    requires
        ctx.predicted_docs().len() > 0,
        0 <= i < ctx.scan_for(index, query, top_k).results.len(),
    ensures
        ctx.predicted_docs().contains(ctx.scan_for(index, query, top_k).results[i].1),
{
    crate::signature_index::lemma_scope_results(
        query,
        index.sigs(),
        ctx.predicted_docs(),
        top_k as nat,
        i,
    );
}

/// The topic of a turn is the event of its best result: of the events that list the
/// document of the first result, the last. It is what joins the conversation, and the
/// predictor is told of the transition to it from the event before.
pub proof fn lemma_topic_is_that_of_the_best_result<P: NextTurnPredictor + ?Sized>(
    before: QueryContext<P>,
    after: QueryContext<P>,
    index: HierarchicalIndex,
    query: BinarySignature,
    k: nat,
    out: QueryOutput,
    e: int,
)
    requires
        index.wf(),
        finished(before, after, index, query, k, out),
        out.results@.len() > 0,
        out.results@[0].1 < index.catalog().corpus_len(),
        0 <= e < index.catalog()@.len(),
        index.catalog()@[e].1.contains(out.results@[0].1),
        forall|i: int|
            e < i < index.catalog()@.len() ==> !(#[trigger] index.catalog()@[i]).1.contains(
                out.results@[0].1,
            ),
    ensures
        out.top_event == Some(EventId(e as u32)),
        after.window().len() > 0,
        after.window().last().event == EventId(e as u32),
        before.window().len() == 0 ==> after.forecaster() == before.forecaster(),
        before.window().len() > 0 ==> taught(
            &*before.forecaster(),
            &*after.forecaster(),
            seq![(before.window()[before.window().len() - 1].event, EventId(e as u32))],
        ),
{
    lemma_event_of(index.catalog(), out.results@[0].1, e);
}

/// A turn without results, or whose best result no event lists, has no topic. The
/// conversation and the predictor are left as they were.
pub proof fn lemma_no_topic<P: NextTurnPredictor + ?Sized>(
    before: QueryContext<P>,
    after: QueryContext<P>,
    index: HierarchicalIndex,
    query: BinarySignature,
    k: nat,
    out: QueryOutput,
)
    requires
        index.wf(),
        finished(before, after, index, query, k, out),
        out.results@.len() == 0 || out.results@[0].1 >= index.catalog().corpus_len() || forall|
            i: int,
        |
            0 <= i < index.catalog()@.len() ==> !(#[trigger] index.catalog()@[i]).1.contains(
                out.results@[0].1,
            ),
    ensures
        out.top_event is None,
        after.window() == before.window(),
        after.forecaster() == before.forecaster(),
{
    if out.results@.len() > 0 {
        let doc = out.results@[0].1;
        if doc < index.catalog().corpus_len() {
            lemma_event_of(index.catalog(), doc, 0);
        } else {
            lemma_no_event_outside(index.catalog(), doc);
        }
    }
}

/// A turn keeps the conversation: behind the events that it had, but for those that
/// are too old or for which there is no room, comes the topic of the turn.
pub proof fn lemma_turn_joins_the_conversation<P: NextTurnPredictor + ?Sized>(
    before: QueryContext<P>,
    after: QueryContext<P>,
    index: HierarchicalIndex,
    query: BinarySignature,
    k: nat,
    out: QueryOutput,
)
    requires
        finished(before, after, index, query, k, out),
        out.top_event is Some,
    ensures
        ({
            let (was, now) = (before.window(), after.window());
            let gone = was.len() + 1 - now.len();
            &&& 0 <= gone <= was.len()
            &&& now == was.skip(gone).push(now.last())
            &&& Some(now.last().event) == out.top_event
            &&& before.conversation_state().timer().shows(now.last().at)
            &&& forall|i: int|
                0 <= i < gone ==> now.last().at.nanos > (#[trigger] was[i]).at.nanos
                    + before.conversation_state().max_age().nanos || (i == gone - 1 && was.len() - i
                    == before.conversation_state().capacity())
        }),
{
    let at = choose|at: crate::clock::Instant|
        before.conversation_state().timer().shows(at) && after.window() == #[trigger] observed(
            before.window(),
            before.conversation_state().capacity(),
            before.conversation_state().max_age(),
            Observation { event: out.top_event->0, at },
        );
    lemma_observed_last(
        before.window(),
        before.conversation_state().capacity(),
        before.conversation_state().max_age(),
        Observation { event: out.top_event->0, at },
    );
}

/// A turn ends the utterance: nothing is kept of its partials, and what is predicted
/// for the next one is as it was.
pub proof fn lemma_turn_ends_the_utterance<P: NextTurnPredictor + ?Sized>(
    before: QueryContext<P>,
    after: QueryContext<P>,
    index: HierarchicalIndex,
    query: BinarySignature,
    k: nat,
    out: QueryOutput,
)
    requires
        finished(before, after, index, query, k, out),
    ensures
        after.speculation() is None,
        after.streaming().spec_current() is None,
        after.streaming().spec_last_emitted() is None,
        out.predicted_events@ == before.predictions(),
        after.predictions() == before.predictions(),
        after.predicted_docs() == before.predicted_docs(),
        before.tier() is None ==> out.cold_results@.len() == 0,
        before.tier() matches Some(tier) ==> if tier.size() == 0 {
            out.cold_results@.len() == 0
        } else {
            tier.may_find(query, k, out.cold_results@)
        },
{
}

/// What a scan for a query finds: the nearest of the predicted documents, or what a
/// search finds where none are predicted.
pub proof fn lemma_scan_for<P: NextTurnPredictor + ?Sized>(
    ctx: QueryContext<P>,
    index: HierarchicalIndex,
    query: BinarySignature,
    top_k: usize,
)
    requires
        ctx.wf(),
    ensures
        ({
            let (found, scope, sigs) = (
                ctx.scan_for(index, query, top_k),
                ctx.predicted_docs(),
                index.sigs(),
            );
            let r = found.results;
            &&& scope.len() == 0 ==> found == search_of(
                sigs,
                index.catalog(),
                query,
                top_k as nat,
                ctx.options(),
            )
            &&& scope.len() > 0 ==> {
                &&& found.used_shards
                &&& found.shard_scope_size == scope.len()
                &&& found.candidate_events == ctx.predictions()
                &&& found.coarse_results.len() == 0
                &&& r.len() <= top_k
                &&& forall|i: int|
                    0 <= i < r.len() ==> scope.contains((#[trigger] r[i]).1) && r[i].1 < sigs.len()
                        && r[i].0 == hamming(query, sigs[r[i].1 as int])
                &&& forall|i: int, j: int|
                    0 <= i < j < r.len() ==> (#[trigger] r[i]).0 < (#[trigger] r[j]).0 || (r[i].0
                        == r[j].0 && r[i].1 < r[j].1)
                &&& forall|d: usize|
                    #[trigger] scope.contains(d) && d < sigs.len() ==> r.contains(
                        (hamming(query, sigs[d as int]) as u32, d),
                    ) || (r.len() == top_k && forall|i: int|
                        0 <= i < r.len() ==> (#[trigger] r[i]).0 < hamming(query, sigs[d as int])
                            || (r[i].0 == hamming(query, sigs[d as int]) && r[i].1 < d))
            }
        }),
{
    ctx.lemma_wf();
    lemma_scope_scan_finds_the_nearest(query, index.sigs(), ctx.predicted_docs(), top_k as nat);
}

/// Where an answer comes from. What was found for the last partial that was scanned for
/// is the answer if the partial differs from the query in at most 16 bits and as much
/// was found as is asked for. Otherwise it is a cached answer for as many results and
/// for a query within the tolerance, of those the one for the nearest query. Only where
/// there is none a scan is made.
pub proof fn lemma_where_answers_come_from<P: NextTurnPredictor + ?Sized>(
    ctx: QueryContext<P>,
    index: HierarchicalIndex,
    query: BinarySignature,
    top_k: usize,
)
    ensures
        ({
            let a = served(ctx, index, query, top_k);
            let cached = ctx.cache().bucket(scope_hash_of(ctx.predictions()));
            let tolerance = ctx.cache().tolerance();
            let scan = ctx.scan_for(index, query, top_k);
            if ctx.speculation() is Some && hamming((ctx.speculation()->0).0, query) <= 16 && (
            ctx.speculation()->0).1.len() == top_k {
                &&& a.served_by == ServedBy::Speculative
                &&& a.results == (ctx.speculation()->0).1
                &&& a.scope_size == ctx.predicted_docs().len()
            } else if exists|i: int|
                0 <= i < cached.len() && (#[trigger] cached[i]).k == top_k && hamming(
                    query,
                    cached[i].query,
                ) <= tolerance {
                &&& a.served_by == ServedBy::DeltaCache
                &&& a.scope_size == ctx.predicted_docs().len()
                &&& exists|i: int|
                    0 <= i < cached.len() && (#[trigger] cached[i]).k == top_k && hamming(
                        query,
                        cached[i].query,
                    ) <= tolerance && a.results == cached[i].results && forall|j: int|
                        0 <= j < cached.len() && (#[trigger] cached[j]).k == top_k ==> hamming(
                            query,
                            cached[i].query,
                        ) <= hamming(query, cached[j].query)
            } else {
                &&& a.results == scan.results
                &&& a.scope_size == scan.shard_scope_size
                &&& a.served_by == if scan.used_shards {
                    ServedBy::ShardScan
                } else {
                    ServedBy::FullScan
                }
            }
        }),
{
    lemma_cached_answer(ctx.cached_answers(), query, top_k, ctx.cache().tolerance());
}

/// What a partial leaves behind. If it is the first of its utterance, or differs from the
/// last one that was scanned for in at least as many bits as the threshold says, it is
/// kept with what is cached or what a scan finds for it. Otherwise what was kept stays.
pub proof fn lemma_partial_is_kept<P: NextTurnPredictor + ?Sized>(
    before: QueryContext<P>,
    after: QueryContext<P>,
    index: HierarchicalIndex,
    partial: BinarySignature,
    top_k: usize,
)
    requires
        partial_taken(before, after, index, partial, top_k),
    ensures
        ({
            let last = before.streaming().spec_last_emitted();
            let cached = before.cache().bucket(scope_hash_of(before.predictions()));
            let tolerance = before.cache().tolerance();
            &&& after.streaming().spec_current() == Some(partial)
            &&& after.window() == before.window()
            &&& after.forecaster() == before.forecaster()
            &&& after.predictions() == before.predictions()
            &&& after.predicted_docs() == before.predicted_docs()
            &&& if last is None || hamming(last->0, partial)
                >= before.streaming().drift_threshold() {
                &&& after.streaming().spec_last_emitted() == Some(partial)
                &&& after.speculation() is Some
                &&& (after.speculation()->0).0 == partial
                &&& if exists|i: int|
                    0 <= i < cached.len() && (#[trigger] cached[i]).k == top_k && hamming(
                        partial,
                        cached[i].query,
                    ) <= tolerance {
                    exists|i: int|
                        0 <= i < cached.len() && (#[trigger] cached[i]).k == top_k && hamming(
                            partial,
                            cached[i].query,
                        ) <= tolerance && (after.speculation()->0).1 == cached[i].results
                            && forall|j: int|
                            0 <= j < cached.len() && (#[trigger] cached[j]).k == top_k ==> hamming(
                                partial,
                                cached[i].query,
                            ) <= hamming(partial, cached[j].query)
                } else {
                    (after.speculation()->0).1 == before.scan_for(index, partial, top_k).results
                }
            } else {
                &&& after.streaming().spec_last_emitted() == last
                &&& after.speculation() == before.speculation()
            }
        }),
{
    lemma_cached_answer(before.cached_answers(), partial, top_k, before.cache().tolerance());
}

/// What is staged for the next utterance. The predictor is asked to go on from the last
/// three events of the conversation, or from as many as there are, and the events that
/// it comes up with are taken in its order. The documents that are staged are exactly
/// those that one of these events lists, in ascending order. Without a conversation
/// nothing is staged.
pub proof fn lemma_staged_for_the_next_utterance<P: NextTurnPredictor + ?Sized>(
    before: QueryContext<P>,
    after: QueryContext<P>,
    index: HierarchicalIndex,
)
    requires
        warmed(before, after, index),
    ensures
        ({
            let (window, context, events, docs) = (
                before.window(),
                before.context(),
                after.predictions(),
                after.predicted_docs(),
            );
            &&& context.len() == if window.len() <= 3 {
                window.len()
            } else {
                3
            }
            &&& forall|i: int|
                0 <= i < context.len() ==> #[trigger] context[i] == window[window.len()
                    - context.len() + i].event
            &&& window.len() == 0 ==> events.len() == 0
            &&& window.len() > 0 ==> exists|predictions: Seq<Prediction>|
                {
                    &&& #[trigger] before.forecaster().may_predict_told(
                        Seq::empty(),
                        context,
                        before.options().max_candidate_events as nat,
                        predictions,
                    )
                    &&& events.len() == predictions.len()
                    &&& forall|i: int|
                        0 <= i < events.len() ==> #[trigger] events[i] == predictions[i].event
                }
            &&& forall|i: int, j: int| 0 <= i < j < docs.len() ==> docs[i] < docs[j]
            &&& forall|d: usize| #[trigger]
                docs.contains(d) <==> exists|i: int|
                    0 <= i < events.len() && (#[trigger] events[i]).0 < index.catalog()@.len()
                        && index.catalog()@[events[i].0 as int].1.contains(d)
        }),
{
    let window = before.window();
    lemma_last_of(events_of(window), CONTEXT_EVENTS as nat);
    lemma_events_of(window);
    lemma_union_of(index.catalog(), after.predictions());
    if window.len() > 0 {
        let predictions = choose|predictions: Seq<Prediction>|
            #[trigger] before.forecaster().may_predict_told(
                Seq::empty(),
                before.context(),
                before.options().max_candidate_events as nat,
                predictions,
            ) && after.predictions() == predictions.map_values(|p: Prediction| p.event);
        assert(after.predictions().len() == predictions.len());
    }
}

/// What a conversation that has not begun goes by.
pub proof fn lemma_beginnings<P: NextTurnPredictor + ?Sized>(ctx: QueryContext<P>)
    requires
        fresh(ctx),
    ensures
        ctx.window().len() == 0,
        ctx.conversation_state().capacity() == 8,
        ctx.conversation_state().max_age().nanos == 60_000_000_000,
        ctx.predictions().len() == 0,
        ctx.predicted_docs().len() == 0,
        ctx.speculation() is None,
        ctx.streaming().spec_last_emitted() is None,
        ctx.streaming().spec_current() is None,
        ctx.streaming().drift_threshold() == 24,
        ctx.cache().tolerance() == 16,
        ctx.cache().bound() == 64,
        forall|h: u64| (#[trigger] ctx.cache().bucket(h)).len() == 0,
        ctx.options().coarse_k == 64,
        ctx.options().max_candidate_events == 8,
        ctx.options().parallel,
        ctx.tier() is None,
{
}

/// The predictor learns the step that the conversation took: from the last event before
/// the turn to the topic of the turn. The first turn teaches it nothing.
pub proof fn lemma_step_is_taught<P: NextTurnPredictor + ?Sized>(
    before: QueryContext<P>,
    after: QueryContext<P>,
    index: HierarchicalIndex,
    query: BinarySignature,
    k: nat,
    out: QueryOutput,
)
    requires
        finished(before, after, index, query, k, out),
        out.top_event is Some,
    ensures
        before.window().len() == 0 ==> after.forecaster() == before.forecaster(),
        before.window().len() > 0 ==> taught(
            &*before.forecaster(),
            &*after.forecaster(),
            seq![(before.window()[before.window().len() - 1].event, out.top_event->0)],
        ),
{
}

/// What a turn leaves in the cache. Where the last partial that was scanned for gave the
/// answer, nothing changes. Where a cached answer served, only its last use does. Where a
/// scan was made, what it found is the latest answer that is kept for the predicted
/// events. The answers for other predictions stay as they are.
pub proof fn lemma_answer_is_cached<P: NextTurnPredictor + ?Sized>(
    before: QueryContext<P>,
    after: QueryContext<P>,
    index: HierarchicalIndex,
    query: BinarySignature,
    top_k: usize,
)
    requires
        cache_taken(before, after, index, query, top_k),
        before.cache().bound() > 0,
        before.cache().bucket(scope_hash_of(before.predictions())).len()
            <= before.cache().bound(),
    ensures
        ({
            let hash = scope_hash_of(before.predictions());
            let was = before.cache().bucket(hash);
            let now = after.cache().bucket(hash);
            if before.speculation() is Some && hamming((before.speculation()->0).0, query) <= 16
                && (before.speculation()->0).1.len() == top_k {
                after.cache() == before.cache()
            } else if exists|i: int|
                0 <= i < was.len() && (#[trigger] was[i]).k == top_k && hamming(
                    query,
                    was[i].query,
                ) <= before.cache().tolerance() {
                &&& now.len() == was.len()
                &&& forall|i: int|
                    0 <= i < was.len() ==> (#[trigger] now[i]).query == was[i].query && now[i].k
                        == was[i].k && now[i].results == was[i].results
            } else {
                &&& now.last().query == query
                &&& now.last().k == top_k
                &&& now.last().results == before.scan_for(index, query, top_k).results
                &&& was.len() < before.cache().bound() ==> now.len() == was.len() + 1
                    && forall|i: int| 0 <= i < was.len() ==> #[trigger] now[i] == was[i]
            }
        }),
        forall|h: u64|
            h != scope_hash_of(before.predictions()) ==> #[trigger] after.cache().bucket(h)
                == before.cache().bucket(h),
{
    let hash = scope_hash_of(before.predictions());
    let was = before.cache().bucket(hash);
    lemma_cached_answer(was, query, top_k, before.cache().tolerance());
    lemma_answer_added(
        was,
        before.cache().bound(),
        Cached {
            query,
            results: before.scan_for(index, query, top_k).results,
            k: top_k,
            last_used: after.cache().uses(),
        },
    );
}

/// A warm-up changes what is staged and nothing else.
pub proof fn lemma_warm_up_keeps<P: NextTurnPredictor + ?Sized>(
    before: QueryContext<P>,
    after: QueryContext<P>,
    index: HierarchicalIndex,
)
    requires
        warmed(before, after, index),
    ensures
        after.window() == before.window(),
        after.forecaster() == before.forecaster(),
        after.streaming() == before.streaming(),
        after.cache() == before.cache(),
        after.options() == before.options(),
        after.speculation() == before.speculation(),
        after.tier() == before.tier(),
{
}

/// Every partial is counted, as one that was scanned for or as one that was not.
pub proof fn lemma_partials_are_counted<P: NextTurnPredictor + ?Sized>(
    before: QueryContext<P>,
    after: QueryContext<P>,
    index: HierarchicalIndex,
    partial: BinarySignature,
    top_k: usize,
)
    requires
        partial_taken(before, after, index, partial, top_k),
        before.has_room(),
        before.streaming().wf(),
    ensures
        ({
            let last = before.streaming().spec_last_emitted();
            let was = before.streaming().spec_stats();
            let now = after.streaming().spec_stats();
            let scanned = last is None || hamming(last->0, partial)
                >= before.streaming().drift_threshold();
            &&& now.updates_received == was.updates_received + 1
            &&& scanned ==> now.updates_emitted == was.updates_emitted + 1
                && now.updates_suppressed == was.updates_suppressed
            &&& !scanned ==> now.updates_suppressed == was.updates_suppressed + 1
                && now.updates_emitted == was.updates_emitted
        }),
{
}

} // verus!
