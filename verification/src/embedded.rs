//! An index with one session, for pages that embed the engine.
//!
//! Signatures come in as bytes, and results go out as plain values.

use vstd::prelude::*;
use vstd::slice::slice_to_vec;

use crate::events::EventCatalog;
use crate::markov::{CountModel, MarkovPredictor};
use crate::named_scope::{
    entry_of, lemma_with_entry, name_slot, names_ascending, with_entry, NamedScope,
};
use crate::query_context::{
    cache_taken, finished, fresh, partial_taken, served, untaught, warmed, QueryContext,
    QueryOutput,
};
use crate::server::{label_text, served_by_label};
use crate::shards::{search_of, HierarchicalIndex, SearchOptions};
use crate::signature::BinarySignature;
use crate::signature_index::{packed_bytes, read_signatures, SignatureIndex};

verus! {

/// The names with their scopes, the last of several for the same name.
pub open spec fn named(names: Seq<String>, scopes: Seq<Vec<usize>>) -> Seq<
    (Seq<char>, Seq<usize>),
>
    decreases names.len(),
{
    if names.len() == 0 {
        Seq::empty()
    } else {
        with_entry(
            named(names.drop_last(), scopes.drop_last()),
            names.last()@,
            scopes.last()@,
        )
    }
}

/// A result.
pub struct Hit {
    pub rank: usize,
    pub distance: u32,
    pub doc_idx: usize,
    pub event: String,
}

/// The name of a document's event, or nothing.
pub open spec fn event_text(catalog: EventCatalog, doc: usize) -> Seq<char> {
    match catalog.event_of(doc) {
        Some(event) => catalog@[event.0 as int].0,
        None => Seq::empty(),
    }
}

/// `hits` says what the results are.
pub open spec fn describes(
    hits: Seq<Hit>,
    catalog: EventCatalog,
    results: Seq<(u32, usize)>,
) -> bool {
    &&& hits.len() == results.len()
    &&& forall|i: int|
        #![trigger hits[i]]
        0 <= i < hits.len() ==> {
            &&& hits[i].rank == i + 1
            &&& hits[i].distance == results[i].0
            &&& hits[i].doc_idx == results[i].1
            &&& hits[i].event@ == event_text(catalog, results[i].1)
        }
}

/// What the results are.
fn describe(catalog: &EventCatalog, results: &Vec<(u32, usize)>) -> (hits: Vec<Hit>)
    requires
        catalog.wf(),
    ensures
        describes(hits@, *catalog, results@),
{
    let mut hits: Vec<Hit> = Vec::new();
    let mut i: usize = 0;
    while i < results.len()
        invariant
            i <= results@.len(),
            catalog.wf(),
            describes(hits@, *catalog, results@.take(i as int)),
        decreases results@.len() - i,
    {
        let (distance, doc_idx) = results[i];
        let event = match catalog.doc_event(doc_idx) {
            Some(event) => {
                proof {
                    catalog.lemma_wf();
                    crate::events::lemma_event_listing(catalog@, doc_idx);
                }
                match catalog.event_name(event) {
                    Some(name) => name.to_owned(),
                    None => String::new(),
                }
            },
            None => String::new(),
        };
        let ghost before = hits@;
        hits.push(Hit { rank: i + 1, distance, doc_idx, event });
        i = i + 1;
        proof {
            assert forall|j: int|
                #![trigger hits@[j]]
                0 <= j < hits@.len() implies {
                &&& hits@[j].rank == j + 1
                &&& hits@[j].distance == results@[j].0
                &&& hits@[j].doc_idx == results@[j].1
                &&& hits@[j].event@ == event_text(*catalog, results@[j].1)
            } by {
                if j < before.len() {
                    assert(hits@[j] == before[j]);
                }
            }
        }
    }
    assert(results@.take(i as int) =~= results@);
    hits
}

/// The signature of exactly 32 bytes.
pub fn parse_signature(bytes: &[u8]) -> (r: Result<BinarySignature, String>)
    ensures
        match r {
            Ok(sig) => bytes@.len() == 32 && sig.0@ == bytes@,
            Err(why) => bytes@.len() != 32 && why@ == "signature_bytes must be exactly 32 bytes"@,
        },
{
    if bytes.len() != 32 {
        return Err("signature_bytes must be exactly 32 bytes".to_owned());
    }
    let mut buf: [u8; 32] = [0; 32];
    let mut i: usize = 0;
    while i < 32
        invariant
            i <= 32,
            bytes@.len() == 32,
            forall|j: int| 0 <= j < i ==> buf@[j] == bytes@[j],
        decreases 32 - i,
    {
        buf[i] = bytes[i];
        i = i + 1;
    }
    assert(buf@ =~= bytes@);
    Ok(BinarySignature(buf))
}

/// The answer to the final query of an utterance.
pub struct FinalizeResp {
    pub served_by: &'static str,
    pub hits: Vec<Hit>,
}

/// An index with one session.
pub struct PrimdIndex {
    inner: HierarchicalIndex,
    session: Option<QueryContext<MarkovPredictor<CountModel>>>,
}

impl PrimdIndex {
    pub closed spec fn spec_index(&self) -> HierarchicalIndex {
        self.inner
    }

    /// The conversation, once there is one.
    pub closed spec fn spec_session(&self) -> Option<QueryContext<MarkovPredictor<CountModel>>> {
        self.session
    }

    pub open spec fn wf(&self) -> bool {
        &&& self.spec_index().wf()
        &&& self.spec_session() matches Some(ctx) ==> ctx.wf()
    }

    /// The counters of the session have room.
    pub open spec fn has_room(&self) -> bool {
        self.spec_session() matches Some(ctx) ==> ctx.has_room()
    }

    /// `ctx` is the conversation, or a fresh one if there is none.
    pub open spec fn opened(&self, ctx: QueryContext<MarkovPredictor<CountModel>>) -> bool {
        match self.spec_session() {
            Some(before) => ctx == before,
            None => fresh(ctx) && untaught(*ctx.forecaster()),
        }
    }

    /// Build an index from signatures packed contiguously, and from events,
    /// each a name and the indices of its documents.
    pub fn new(
        signatures_flat: &[u8],
        event_names: &Vec<String>,
        event_scopes: &Vec<Vec<usize>>,
    ) -> (r: Result<PrimdIndex, String>)
        requires
            event_names@.len() <= 0x1_0000_0000,
        ensures
            match r {
                Ok(index) => {
                    &&& signatures_flat@.len() % 32 == 0
                    &&& event_names@.len() == event_scopes@.len()
                    &&& index.wf()
                    &&& packed_bytes(index.spec_index().sigs()) == signatures_flat@
                    &&& index.spec_index().catalog()@ == named(event_names@, event_scopes@)
                    &&& index.spec_index().catalog().corpus_len() == signatures_flat@.len() / 32
                    &&& index.spec_session() is None
                },
                Err(why) => if signatures_flat@.len() % 32 != 0 {
                    why@ == "signatures_flat length must be a multiple of 32 bytes"@
                } else {
                    &&& event_names@.len() != event_scopes@.len()
                    &&& why@ == "event_names and event_scopes must have the same length"@
                },
            },
    {
        if signatures_flat.len() % 32 != 0 {
            return Err("signatures_flat length must be a multiple of 32 bytes".to_owned());
        }
        if event_names.len() != event_scopes.len() {
            return Err("event_names and event_scopes must have the same length".to_owned());
        }
        let n_docs: usize = signatures_flat.len() / 32;
        let sigs = read_signatures(signatures_flat);
        let mut scope = NamedScope::new();
        let mut i: usize = 0;
        while i < event_names.len()
            invariant
                i <= event_names@.len() == event_scopes@.len(),
                scope.wf(),
                scope@.len() <= i,
                scope@ == named(event_names@.take(i as int), event_scopes@.take(i as int)),
            decreases event_names@.len() - i,
        {
            assert(event_names@.take(i + 1).drop_last() =~= event_names@.take(i as int));
            assert(event_scopes@.take(i + 1).drop_last() =~= event_scopes@.take(i as int));
            scope.insert(event_names[i].clone(), slice_to_vec(event_scopes[i].as_slice()));
            i = i + 1;
        }
        assert(event_names@.take(i as int) =~= event_names@);
        assert(event_scopes@.take(i as int) =~= event_scopes@);
        let events = EventCatalog::from_named_scope(&scope, n_docs);
        let inner = HierarchicalIndex::new(SignatureIndex::new(sigs), events);
        Ok(PrimdIndex { inner, session: None })
    }

    /// Number of indexed documents.
    pub fn len(&self) -> (n: usize)
        ensures
            n == self.spec_index().sigs().len(),
    {
        self.inner.len()
    }

    /// Whether the index is empty.
    pub fn is_empty(&self) -> (b: bool)
        ensures
            b == (self.spec_index().sigs().len() == 0),
    {
        self.inner.is_empty()
    }

    /// Stateless query.
    pub fn query(&self, signature_bytes: &[u8], top_k: usize) -> (r: Result<Vec<Hit>, String>)
        requires
            self.wf(),
        ensures
            match r {
                Ok(hits) => {
                    &&& signature_bytes@.len() == 32
                    &&& exists|sig: BinarySignature|
                        sig.0@ == signature_bytes@ && describes(
                            hits@,
                            self.spec_index().catalog(),
                            (#[trigger] search_of(
                                self.spec_index().sigs(),
                                self.spec_index().catalog(),
                                sig,
                                top_k as nat,
                                SearchOptions {
                                    coarse_k: 64,
                                    max_candidate_events: 8,
                                    parallel: true,
                                },
                            )).results,
                        )
                },
                Err(why) => signature_bytes@.len() != 32 && why@
                    == "signature_bytes must be exactly 32 bytes"@,
            },
    {
        match parse_signature(signature_bytes) {
            Ok(sig) => {
                let result = self.inner.search(&sig, top_k, &SearchOptions::default());
                Ok(describe(self.inner.events(), &result.results))
            },
            Err(why) => Err(why),
        }
    }

    /// Reset (or create) the session. Subsequent `observe_partial` /
    /// `finalize` / `warm_next` calls share state through this session.
    pub fn session_start(&mut self)
        requires
            old(self).wf(),
        ensures
            final(self).wf(),
            final(self).spec_index() == old(self).spec_index(),
            final(self).spec_session() matches Some(ctx) && fresh(ctx) && untaught(
                *ctx.forecaster(),
            ),
    {
        self.session = Some(QueryContext::with_predictor(MarkovPredictor::new()));
    }

    /// Whether the counters of the session have room for one more step.
    pub fn can_continue(&self) -> (b: bool)
        ensures
            b == self.has_room(),
    {
        match &self.session {
            Some(ctx) => ctx.can_continue(),
            None => true,
        }
    }

    /// Take the conversation out, or a fresh one if there is none.
    fn take_session(&mut self) -> (ctx: QueryContext<MarkovPredictor<CountModel>>)
        requires
            old(self).wf(),
        ensures
            ctx.wf(),
            old(self).has_room() ==> ctx.has_room(),
            old(self).opened(ctx),
            final(self).spec_index() == old(self).spec_index(),
            final(self).spec_session() is None,
    {
        match self.session.take() {
            Some(ctx) => ctx,
            None => QueryContext::with_predictor(MarkovPredictor::new()),
        }
    }

    /// Feed the signature of a partial transcript.
    pub fn observe_partial(&mut self, signature_bytes: &[u8], top_k: usize) -> (r: Result<
        (),
        String,
    >)
        requires
            old(self).wf(),
            old(self).has_room(),
        ensures
            final(self).wf(),
            final(self).spec_index() == old(self).spec_index(),
            match r {
                Ok(()) => {
                    &&& signature_bytes@.len() == 32
                    &&& final(self).spec_session() matches Some(after) && partial_observed(
                        *old(self),
                        after,
                        signature_bytes@,
                        top_k,
                    )
                },
                Err(why) => {
                    &&& signature_bytes@.len() != 32
                    &&& why@ == "signature_bytes must be exactly 32 bytes"@
                    &&& final(self).spec_session() == old(self).spec_session()
                },
            },
    {
        let sig = match parse_signature(signature_bytes) {
            Ok(sig) => sig,
            Err(why) => {
                return Err(why);
            },
        };
        let mut ctx = self.take_session();
        let ghost before = ctx;
        ctx.observe_partial(&self.inner, sig, top_k);
        proof {
            assert(old(self).opened(before));
            assert(partial_taken(before, ctx, old(self).spec_index(), sig, top_k));
            assert(partial_observed(*old(self), ctx, signature_bytes@, top_k));
        }
        self.session = Some(ctx);
        Ok(())
    }

    /// End-of-utterance retrieval. Answers from what was found for the last
    /// partial if it converged on the final signature, otherwise from the
    /// cache or a scan.
    pub fn finalize(&mut self, signature_bytes: &[u8], top_k: usize) -> (r: Result<
        FinalizeResp,
        String,
    >)
        requires
            old(self).wf(),
            old(self).has_room(),
        ensures
            final(self).wf(),
            final(self).spec_index() == old(self).spec_index(),
            match r {
                Ok(resp) => {
                    &&& signature_bytes@.len() == 32
                    &&& final(self).spec_session() matches Some(after) && final_answered(
                        *old(self),
                        after,
                        signature_bytes@,
                        top_k,
                        resp,
                    )
                },
                Err(why) => {
                    &&& signature_bytes@.len() != 32
                    &&& why@ == "signature_bytes must be exactly 32 bytes"@
                    &&& final(self).spec_session() == old(self).spec_session()
                },
            },
    {
        let sig = match parse_signature(signature_bytes) {
            Ok(sig) => sig,
            Err(why) => {
                return Err(why);
            },
        };
        let mut ctx = self.take_session();
        let ghost before = ctx;
        let out = ctx.finalize(&self.inner, sig, top_k);
        let hits = describe(self.inner.events(), &out.results);
        let resp = FinalizeResp { served_by: served_by_label(out.served_by), hits };
        proof {
            assert(old(self).opened(before));
            assert(finished(before, ctx, old(self).spec_index(), sig, top_k as nat, out));
            assert(final_answered(*old(self), ctx, signature_bytes@, top_k, resp));
        }
        self.session = Some(ctx);
        Ok(resp)
    }

    /// Stage the documents of the predicted events. Call while the answer is
    /// spoken, so that the next `observe_partial` is already narrowed down.
    pub fn warm_next(&mut self)
        requires
            old(self).wf(),
        ensures
            final(self).wf(),
            final(self).spec_index() == old(self).spec_index(),
            final(self).spec_session() matches Some(now) && warmed_up(*old(self), now),
    {
        let mut ctx = self.take_session();
        let ghost before = ctx;
        ctx.warm_next(&self.inner);
        proof {
            assert(old(self).opened(before));
            assert(warmed(before, ctx, old(self).spec_index()));
        }
        self.session = Some(ctx);
    }
}

/// The conversation took a partial.
pub open spec fn partial_observed(
    before: PrimdIndex,
    now: QueryContext<MarkovPredictor<CountModel>>,
    bytes: Seq<u8>,
    top_k: usize,
) -> bool {
    exists|was: QueryContext<MarkovPredictor<CountModel>>, sig: BinarySignature|
        before.opened(was) && sig.0@ == bytes && #[trigger] partial_taken(
            was,
            now,
            before.spec_index(),
            sig,
            top_k,
        )
}

/// The events of the next utterance of the conversation were predicted.
pub open spec fn warmed_up(
    before: PrimdIndex,
    now: QueryContext<MarkovPredictor<CountModel>>,
) -> bool {
    exists|was: QueryContext<MarkovPredictor<CountModel>>|
        before.opened(was) && #[trigger] warmed(was, now, before.spec_index())
}

/// The conversation ended an utterance, and `resp` is the answer.
pub open spec fn final_answered(
    before: PrimdIndex,
    now: QueryContext<MarkovPredictor<CountModel>>,
    bytes: Seq<u8>,
    top_k: usize,
    resp: FinalizeResp,
) -> bool {
    exists|
        was: QueryContext<MarkovPredictor<CountModel>>,
        sig: BinarySignature,
        out: QueryOutput,
    |
        {
            let answer = served(was, before.spec_index(), sig, top_k);
            &&& before.opened(was)
            &&& sig.0@ == bytes
            &&& #[trigger] finished(was, now, before.spec_index(), sig, top_k as nat, out)
            &&& cache_taken(was, now, before.spec_index(), sig, top_k)
            &&& out.results@ == answer.results
            &&& resp.served_by@ == label_text(answer.served_by)
            &&& describes(resp.hits@, before.spec_index().catalog(), answer.results)
        }
}

/// A name has the last of the scopes that are given for it, and a name that is not given
/// has none. The names are in order.
pub proof fn lemma_named(names: Seq<String>, scopes: Seq<Vec<usize>>, name: Seq<char>)
    requires
        names.len() == scopes.len(),
    ensures
        names_ascending(named(names, scopes)),
        forall|i: int|
            0 <= i < names.len() && (#[trigger] names[i])@ == name && (forall|j: int|
                i < j < names.len() ==> (#[trigger] names[j])@ != name) ==> entry_of(
                named(names, scopes),
                name,
            ) == Some(scopes[i]@),
        (forall|i: int| 0 <= i < names.len() ==> (#[trigger] names[i])@ != name) ==> entry_of(
            named(names, scopes),
            name,
        ) is None,
    decreases names.len(),
{
    let all = named(names, scopes);
    if names.len() > 0 {
        let (init, others) = (names.drop_last(), scopes.drop_last());
        lemma_named(init, others, name);
        lemma_with_entry(named(init, others), names.last()@, scopes.last()@, name);
        assert forall|i: int|
            0 <= i < names.len() && (#[trigger] names[i])@ == name && (forall|j: int|
                i < j < names.len() ==> (#[trigger] names[j])@ != name) implies entry_of(
            all,
            name,
        ) == Some(scopes[i]@) by {
            if i < names.len() - 1 {
                assert(names[names.len() - 1]@ != name);
                assert(init[i] == names[i]);
                assert forall|j: int| i < j < init.len() implies (#[trigger] init[j])@ != name by {
                    assert(init[j] == names[j]);
                }
            }
        }
        if forall|i: int| 0 <= i < names.len() ==> (#[trigger] names[i])@ != name {
            assert(names[names.len() - 1]@ != name);
            assert forall|i: int| 0 <= i < init.len() implies (#[trigger] init[i])@ != name by {
                assert(init[i] == names[i]);
            }
        }
    } else {
        assert(name_slot(all, name) == 0);
    }
}

/// What is said of the results: all of them in their order, each with its rank, its
/// distance, its document and the name of the document's event.
pub proof fn lemma_described(hits: Seq<Hit>, catalog: EventCatalog, results: Seq<(u32, usize)>)
    requires
        describes(hits, catalog, results),
    ensures
        hits.len() == results.len(),
        forall|i: int|
            0 <= i < results.len() ==> (#[trigger] hits[i]).rank == i + 1 && hits[i].distance
                == results[i].0 && hits[i].doc_idx == results[i].1 && match catalog.event_of(
                results[i].1,
            ) {
                Some(event) => hits[i].event@ == catalog@[event.0 as int].0,
                None => hits[i].event@.len() == 0,
            },
{
}

/// What ends an utterance is answered with what serves it in the session that there is, or
/// in one that has not begun.
pub proof fn lemma_final_answer(
    before: PrimdIndex,
    now: QueryContext<MarkovPredictor<CountModel>>,
    bytes: Seq<u8>,
    top_k: usize,
    resp: FinalizeResp,
) -> (given: (QueryContext<MarkovPredictor<CountModel>>, BinarySignature, QueryOutput))
    requires
        final_answered(before, now, bytes, top_k, resp),
    ensures
        given.1.0@ == bytes,
        finished(given.0, now, before.spec_index(), given.1, top_k as nat, given.2),
        given.2.results@ == served(given.0, before.spec_index(), given.1, top_k).results,
        before.spec_session() matches Some(ctx) ==> given.0 == ctx,
        before.spec_session() is None ==> fresh(given.0) && untaught(*given.0.forecaster()),
        ({
            let results = served(given.0, before.spec_index(), given.1, top_k).results;
            &&& resp.hits@.len() == results.len()
            &&& forall|i: int|
                0 <= i < results.len() ==> (#[trigger] resp.hits@[i]).rank == i + 1
                    && resp.hits@[i].distance == results[i].0 && resp.hits@[i].doc_idx
                    == results[i].1
        }),
{
    let (was, sig, out) = choose|
        was: QueryContext<MarkovPredictor<CountModel>>,
        sig: BinarySignature,
        out: QueryOutput,
    |
        {
            let answer = served(was, before.spec_index(), sig, top_k);
            &&& before.opened(was)
            &&& sig.0@ == bytes
            &&& #[trigger] finished(was, now, before.spec_index(), sig, top_k as nat, out)
            &&& cache_taken(was, now, before.spec_index(), sig, top_k)
            &&& out.results@ == answer.results
            &&& resp.served_by@ == label_text(answer.served_by)
            &&& describes(resp.hits@, before.spec_index().catalog(), answer.results)
        };
    (was, sig, out)
}

/// A partial is taken in the session that there is, or in one that has not begun.
pub proof fn lemma_partial_goes_on(
    before: PrimdIndex,
    now: QueryContext<MarkovPredictor<CountModel>>,
    bytes: Seq<u8>,
    top_k: usize,
) -> (given: (QueryContext<MarkovPredictor<CountModel>>, BinarySignature))
    requires
        partial_observed(before, now, bytes, top_k),
    ensures
        given.1.0@ == bytes,
        before.spec_session() matches Some(ctx) ==> given.0 == ctx,
        before.spec_session() is None ==> fresh(given.0) && untaught(*given.0.forecaster()),
        partial_taken(given.0, now, before.spec_index(), given.1, top_k),
{
    let (was, sig) = choose|
        was: QueryContext<MarkovPredictor<CountModel>>,
        sig: BinarySignature,
    |
        before.opened(was) && sig.0@ == bytes && #[trigger] partial_taken(
            was,
            now,
            before.spec_index(),
            sig,
            top_k,
        );
    (was, sig)
}

/// A warm-up goes on from the session that there is, or from one that has not begun.
pub proof fn lemma_warm_up_goes_on(
    before: PrimdIndex,
    now: QueryContext<MarkovPredictor<CountModel>>,
) -> (was: QueryContext<MarkovPredictor<CountModel>>)
    requires
        warmed_up(before, now),
    ensures
        before.spec_session() matches Some(ctx) ==> was == ctx,
        before.spec_session() is None ==> fresh(was) && untaught(*was.forecaster()),
        warmed(was, now, before.spec_index()),
{
    choose|was: QueryContext<MarkovPredictor<CountModel>>|
        before.opened(was) && #[trigger] warmed(was, now, before.spec_index())
}

} // verus!
