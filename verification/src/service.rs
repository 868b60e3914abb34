//! The state of the server and how it answers each request.

use vstd::prelude::*;

use crate::clock::{epoch_reading, seconds_told, unix_seconds, Clock};
use crate::corpus::Manifest;
use crate::error::PrimdError;
use crate::events::EventCatalog;
use crate::hashed::{signs_of, words_in, HashedEmbedder};
use crate::markov::{CountModel, MarkovPredictor};
use crate::predictor::NextTurnPredictor;
use crate::quantize::holds_signs;
use crate::query_context::{
    cache_taken, finished, fresh, lemma_fresh_is_searched, partial_taken, served, served_by_scan,
    untaught, warmed, QueryContext, QueryOutput, Served,
};
use crate::server::{
    chat_k, chat_top_k, complete_chat, completes, event_names, extract_user_query, hits_of,
    hits_view, label_text, last_user, lemma_hits_of, lemma_names_of, map_hits, names_of,
    served_by_label, table_of, text_views, ChatCompletionsRequest, ChatCompletionsResponse,
    QueryHit, QueryRequest, QueryResponse, Reply, SessionWarmResponse, StatsResponse, TextTable,
};
use crate::shards::{search_of, HierarchicalIndex, SearchOptions};
use crate::signature::BinarySignature;
use crate::signature_index::SignatureIndex;
use crate::state::EventId;
use crate::text::{blank, decimal, decimal_text, is_blank, joined, same_text, texts_of};

verus! {

/// What the server needs of its surroundings: signatures of texts, and
/// predictors for new sessions.
pub trait Backend {
    type Predictor: NextTurnPredictor;

    /// Whether the backend can be used.
    open spec fn ready(&self) -> bool {
        true
    }

    /// Whether embedding a text may come out like this.
    open spec fn may_embed(
        &self,
        text: Seq<char>,
        embedded: Result<BinarySignature, PrimdError>,
    ) -> bool {
        true
    }

    /// The signature of a text.
    fn embed_query(&self, text: &str) -> (embedded: Result<BinarySignature, PrimdError>)
        requires
            self.ready(),
        ensures
            self.may_embed(text@, embedded),
    ;

    /// A predictor for a new session.
    fn new_predictor(&self) -> (p: Self::Predictor)
        requires
            self.ready(),
        ensures
            p.ready(),
    ;
}

impl Backend for HashedEmbedder {
    type Predictor = MarkovPredictor<CountModel>;

    open spec fn ready(&self) -> bool {
        self.spec_dim() > 0
    }

    open spec fn may_embed(
        &self,
        text: Seq<char>,
        embedded: Result<BinarySignature, PrimdError>,
    ) -> bool {
        match embedded {
            Ok(sig) => self.spec_dim() == 256 && holds_signs(
                sig,
                signs_of(self.vector(words_in(text))),
            ),
            Err(e) => self.spec_dim() != 256 && e == (PrimdError::InvalidDimension {
                expected: 256,
                got: self.spec_dim() as usize,
            }),
        }
    }

    fn embed_query(&self, text: &str) -> (embedded: Result<BinarySignature, PrimdError>) {
        self.embed_to_signature(text)
    }

    fn new_predictor(&self) -> (p: MarkovPredictor<CountModel>)
        ensures
            untaught(p),
    {
        MarkovPredictor::new()
    }
}

/// A conversation by its id.
struct Session<P: NextTurnPredictor> {
    id: String,
    context: QueryContext<P>,
}

/// The place of a session, or the number of sessions.
spec fn place_of<P: NextTurnPredictor>(sessions: Seq<Session<P>>, id: Seq<char>) -> int
    decreases sessions.len(),
{
    if sessions.len() == 0 {
        0
    } else if sessions[0].id@ == id {
        0
    } else {
        1 + place_of(sessions.drop_first(), id)
    }
}

proof fn lemma_place_of<P: NextTurnPredictor>(sessions: Seq<Session<P>>, id: Seq<char>)
    ensures
        0 <= place_of(sessions, id) <= sessions.len(),
        place_of(sessions, id) < sessions.len() ==> sessions[place_of(sessions, id)].id@ == id,
        forall|i: int|
            0 <= i < place_of(sessions, id) ==> (#[trigger] sessions[i]).id@ != id,
    decreases sessions.len(),
{
    if sessions.len() > 0 && sessions[0].id@ != id {
        let rest = sessions.drop_first();
        lemma_place_of(rest, id);
        assert forall|i: int| 0 <= i < place_of(sessions, id) implies (#[trigger] sessions[i]).id@
            != id by {
            if i > 0 {
                assert(sessions[i] == rest[i - 1]);
            }
        }
    }
}

/// Sessions with the same ids have the same places.
proof fn lemma_same_places<P: NextTurnPredictor>(
    a: Seq<Session<P>>,
    b: Seq<Session<P>>,
    id: Seq<char>,
)
    requires
        a.len() <= b.len(),
        forall|i: int| 0 <= i < a.len() ==> (#[trigger] a[i]).id@ == b[i].id@,
        place_of(a, id) < a.len() || a.len() == b.len(),
    ensures
        place_of(a, id) == place_of(b, id),
{
    lemma_place_of(a, id);
    lemma_place_of(b, id);
    let (p, q) = (place_of(a, id), place_of(b, id));
    if p < q && p < a.len() {
        assert(b[p].id@ == id);
    } else if q < p {
        assert(a[q].id@ == id);
    }
}

/// The state of the server.
pub struct ServeState<B: Backend> {
    backend: B,
    manifest: Manifest,
    index: HierarchicalIndex,
    texts: TextTable,
    sessions: Vec<Session<B::Predictor>>,
    queries_served: u64,
    total_embed_ns: u64,
    total_scan_ns: u64,
    clock: Clock,
}

/// Two to the 64th power.
pub open spec fn wrap() -> int {
    0x1_0000_0000_0000_0000
}

impl<B: Backend> ServeState<B> {
    pub closed spec fn spec_backend(&self) -> B {
        self.backend
    }

    pub closed spec fn spec_manifest(&self) -> Manifest {
        self.manifest
    }

    pub closed spec fn spec_index(&self) -> HierarchicalIndex {
        self.index
    }

    /// The texts of the documents, by id.
    pub closed spec fn table(&self) -> Map<Seq<char>, Seq<char>> {
        text_views(self.texts@)
    }

    /// The conversation of a session.
    pub closed spec fn session(&self, id: Seq<char>) -> Option<QueryContext<B::Predictor>> {
        let p = place_of(self.sessions@, id);
        if p < self.sessions@.len() {
            Some(self.sessions@[p].context)
        } else {
            None
        }
    }

    /// Number of sessions.
    pub closed spec fn session_count(&self) -> nat {
        self.sessions@.len()
    }

    pub closed spec fn served_count(&self) -> u64 {
        self.queries_served
    }

    /// Nanoseconds spent on embedding, modulo two to the 64th.
    pub closed spec fn embed_total(&self) -> u64 {
        self.total_embed_ns
    }

    /// Nanoseconds spent on scanning, modulo two to the 64th.
    pub closed spec fn scan_total(&self) -> u64 {
        self.total_scan_ns
    }

    /// The clock that requests are timed by.
    pub closed spec fn timer(&self) -> Clock {
        self.clock
    }

    /// The time between two readings of the clock.
    pub open spec fn measured(&self, ns: u128) -> bool {
        self.timer().measures(ns)
    }

    /// A query was counted that took so many nanoseconds to embed and to scan
    /// for, and that is reported to have taken so many microseconds.
    pub open spec fn timed(
        &self,
        before: Self,
        embed_ns: u128,
        scan_ns: u128,
        embed_us: u128,
        scan_us: u128,
    ) -> bool {
        &&& self.served_count() == (before.served_count() + 1) % wrap()
        &&& self.embed_total() == (before.embed_total() + embed_ns) % wrap()
        &&& self.scan_total() == (before.scan_total() + scan_ns) % wrap()
        &&& embed_us == embed_ns / 1000
        &&& scan_us == scan_ns / 1000
        &&& before.measured(scan_ns)
    }

    /// Number of sessions once a session is open.
    pub open spec fn count_with(&self, id: Seq<char>) -> nat {
        self.session_count() + if self.session(id) is None {
            1nat
        } else {
            0nat
        }
    }

    pub closed spec fn wf(&self) -> bool {
        &&& self.backend.ready()
        &&& self.index.wf()
        &&& forall|i: int|
            0 <= i < self.sessions@.len() ==> (#[trigger] self.sessions@[i]).context.wf()
        &&& forall|i: int, j: int|
            0 <= i < j < self.sessions@.len() ==> (#[trigger] self.sessions@[i]).id@ != (
            #[trigger] self.sessions@[j]).id@
    }

    /// The counters of a session have room.
    pub open spec fn has_room(&self, id: Seq<char>) -> bool {
        self.session(id) matches Some(ctx) ==> ctx.has_room()
    }

    /// `ctx` is the conversation of a session, or a fresh one with a predictor
    /// of the backend if there is no such session.
    pub open spec fn opened(&self, id: Seq<char>, ctx: QueryContext<B::Predictor>) -> bool {
        match self.session(id) {
            Some(before) => ctx == before,
            None => fresh(ctx) && call_ensures(
                B::new_predictor,
                (&self.spec_backend(),),
                *ctx.forecaster(),
            ),
        }
    }

    /// Nothing but the sessions and the counters can have changed.
    pub open spec fn same_service(&self, before: Self) -> bool {
        &&& self.spec_backend() == before.spec_backend()
        &&& self.spec_manifest() == before.spec_manifest()
        &&& self.spec_index() == before.spec_index()
        &&& self.table() == before.table()
        &&& self.timer() == before.timer()
    }

    /// The counters have not changed.
    pub open spec fn same_counters(&self, before: Self) -> bool {
        &&& self.served_count() == before.served_count()
        &&& self.embed_total() == before.embed_total()
        &&& self.scan_total() == before.scan_total()
    }

    /// No session but possibly one has changed.
    pub open spec fn same_sessions_but(&self, before: Self, id: Seq<char>) -> bool {
        forall|other: Seq<char>|
            other != id ==> #[trigger] self.session(other) == before.session(other)
    }

    /// The answer that a session gives to a final query.
    pub open spec fn final_answer(&self, id: Seq<char>, sig: BinarySignature, k: usize) -> Served {
        match self.session(id) {
            Some(ctx) => served(ctx, self.spec_index(), sig, k),
            None => served_by_scan(
                search_of(
                    self.spec_index().sigs(),
                    self.spec_index().catalog(),
                    sig,
                    k as nat,
                    SearchOptions { coarse_k: 64, max_candidate_events: 8, parallel: true },
                ),
            ),
        }
    }

    /// The events that were predicted for a session.
    pub open spec fn predicted_for(&self, id: Seq<char>) -> Seq<EventId> {
        match self.session(id) {
            Some(ctx) => ctx.predictions(),
            None => Seq::empty(),
        }
    }

    /// A server for an index. The manifest and the signatures must be of one
    /// index. The documents have texts only if the manifest has one for each.
    pub fn new(backend: B, manifest: Manifest, signatures: SignatureIndex) -> (r: Result<
        Self,
        String,
    >)
        requires
            backend.ready(),
            manifest.scope.wf(),
            manifest.scope@.len() <= 0x1_0000_0000,
        ensures
            match r {
                Ok(state) => {
                    &&& signatures@.len() == manifest.n_entries
                    &&& state.wf()
                    &&& state.spec_backend() == backend
                    &&& state.spec_manifest() == manifest
                    &&& state.spec_index().sigs() == signatures@
                    &&& state.spec_index().catalog()@ == manifest.scope@
                    &&& state.spec_index().catalog().corpus_len() == manifest.n_entries
                    &&& state.table() == if manifest.texts@.len() == manifest.ids@.len() {
                        table_of(manifest.ids@, manifest.texts@)
                    } else {
                        Map::empty()
                    }
                    &&& forall|id: Seq<char>| #[trigger] state.session(id) is None
                    &&& state.session_count() == 0
                    &&& state.served_count() == 0
                    &&& state.embed_total() == 0
                    &&& state.scan_total() == 0
                },
                Err(why) => {
                    &&& signatures@.len() != manifest.n_entries
                    &&& why@ == "manifest claims "@ + decimal_text(manifest.n_entries as nat)
                        + " entries; signatures file has "@ + decimal_text(signatures@.len())
                },
            },
    {
        if signatures.len() != manifest.n_entries {
            let mut why = joined("manifest claims ", decimal(manifest.n_entries as u64).as_str());
            why.append(" entries; signatures file has ");
            why.append(decimal(signatures.len() as u64).as_str());
            return Err(why);
        }
        let events = EventCatalog::from_named_scope(&manifest.scope, manifest.n_entries);
        let index = HierarchicalIndex::new(signatures, events);
        let texts = text_table(&manifest.ids, &manifest.texts);
        let sessions: Vec<Session<B::Predictor>> = Vec::new();
        Ok(
            ServeState {
                backend,
                manifest,
                index,
                texts,
                sessions,
                queries_served: 0,
                total_embed_ns: 0,
                total_scan_ns: 0,
                clock: Clock::start(),
            },
        )
    }
}

/// The texts by id, if there is one for each.
fn text_table(ids: &Vec<String>, texts: &Vec<String>) -> (table: TextTable)
    ensures
        text_views(table@) == if texts@.len() == ids@.len() {
            table_of(ids@, texts@)
        } else {
            Map::empty()
        },
{
    let mut table = TextTable::new();
    assert(text_views(table@) =~= Map::empty());
    if ids.len() != texts.len() {
        return table;
    }
    let mut i: usize = 0;
    while i < ids.len()
        invariant
            i <= ids@.len() == texts@.len(),
            text_views(table@) == table_of(ids@.take(i as int), texts@.take(i as int)),
        decreases ids@.len() - i,
    {
        let ghost before = table@;
        let text = texts[i].clone();
        table.insert(ids[i].clone(), text);
        proof {
            assert(ids@.take(i + 1).drop_last() =~= ids@.take(i as int));
            assert(texts@.take(i + 1).drop_last() =~= texts@.take(i as int));
            assert(text_views(table@) =~= text_views(before).insert(ids@[i as int]@, text@));
        }
        i = i + 1;
    }
    assert(ids@.take(i as int) =~= ids@);
    assert(texts@.take(i as int) =~= texts@);
    table
}

/// What a search by default options looks like, but for parallelism.
pub open spec fn default_options(parallel: bool) -> SearchOptions {
    SearchOptions { coarse_k: 64, max_candidate_events: 8, parallel }
}

impl<B: Backend> ServeState<B> {
    /// Number of documents.
    pub fn corpus_size(&self) -> (n: usize)
        ensures
            n == self.spec_index().sigs().len(),
    {
        self.index.len()
    }

    pub fn manifest(&self) -> (m: &Manifest)
        ensures
            *m == self.spec_manifest(),
    {
        &self.manifest
    }

    /// Count a query and the time that it took.
    fn record_latency(&mut self, embed_ns: u128, scan_ns: u128)
        requires
            old(self).wf(),
        ensures
            final(self).wf(),
            final(self).same_service(*old(self)),
            final(self).sessions == old(self).sessions,
            final(self).served_count() == (old(self).served_count() + 1) % wrap(),
            final(self).embed_total() == (old(self).embed_total() + embed_ns) % wrap(),
            final(self).scan_total() == (old(self).scan_total() + scan_ns) % wrap(),
    {
        let modulus: u128 = 0x1_0000_0000_0000_0000;
        self.queries_served = ((self.queries_served as u128 + 1) % modulus) as u64;
        self.total_embed_ns = ((self.total_embed_ns as u128 + embed_ns % modulus) % modulus) as u64;
        self.total_scan_ns = ((self.total_scan_ns as u128 + scan_ns % modulus) % modulus) as u64;
    }

    /// The place of a session, or the number of sessions.
    fn find_session(&self, id: &str) -> (place: usize)
        ensures
            place == place_of(self.sessions@, id@),
            place <= self.sessions@.len(),
    {
        let ghost all = self.sessions@;
        let mut i: usize = 0;
        assert(all.skip(0) =~= all);
        while i < self.sessions.len() && !same_text(self.sessions[i].id.as_str(), id)
            invariant
                i <= self.sessions@.len(),
                all == self.sessions@,
                place_of(all, id@) == i + place_of(all.skip(i as int), id@),
            decreases self.sessions@.len() - i,
        {
            assert(all.skip(i as int)[0] == all[i as int]);
            assert(all.skip(i as int).drop_first() =~= all.skip(i + 1));
            i = i + 1;
        }
        assert(i < all.len() ==> all.skip(i as int)[0] == all[i as int]);
        i
    }

    /// The place of a session, which is opened if need be.
    fn open_session(&mut self, id: &str) -> (place: usize)
        requires
            old(self).wf(),
        ensures
            final(self).wf(),
            final(self).same_service(*old(self)),
            final(self).same_counters(*old(self)),
            final(self).same_sessions_but(*old(self), id@),
            place == place_of(final(self).sessions@, id@),
            place < final(self).sessions@.len(),
            old(self).opened(id@, final(self).sessions@[place as int].context),
            old(self).has_room(id@) ==> final(self).sessions@[place as int].context.has_room(),
            final(self).session_count() == old(self).count_with(id@),
    {
        let ghost before = self.sessions@;
        let place: usize = self.find_session(id);
        proof {
            lemma_place_of(before, id@);
        }
        if place == self.sessions.len() {
            let predictor = self.backend.new_predictor();
            let context = QueryContext::with_predictor(predictor);
            self.sessions.push(Session { id: id.to_owned(), context });
            proof {
                let after = self.sessions@;
                lemma_place_of(after, id@);
                if place_of(after, id@) < place {
                    assert(after[place_of(after, id@)] == before[place_of(after, id@)]);
                }
                assert(place_of(after, id@) == place) by {
                    if place_of(after, id@) > place {
                        assert(after[place as int].id@ == id@);
                    }
                }
                assert forall|other: Seq<char>| other != id@ implies #[trigger] self.session(other)
                    == old(self).session(other) by {
                    lemma_place_of(before, other);
                    lemma_place_of(after, other);
                    let (p, q) = (place_of(before, other), place_of(after, other));
                    if p < before.len() {
                        assert(after[p] == before[p]);
                        if q < p {
                            assert(before[q] == after[q]);
                        }
                    } else if q < before.len() {
                        assert(before[q] == after[q]);
                    }
                }
                assert forall|i: int, j: int| 0 <= i < j < after.len() implies (
                #[trigger] after[i]).id@ != (#[trigger] after[j]).id@ by {
                    assert(after[i] == before[i]);
                    if j < before.len() {
                        assert(after[j] == before[j]);
                    }
                }
                assert forall|i: int| 0 <= i < after.len() implies (
                #[trigger] after[i]).context.wf() by {
                    if i < before.len() {
                        assert(after[i] == before[i]);
                    }
                }
            }
        }
        place
    }

    /// Replacing the conversation at a place leaves every other session alone.
    proof fn lemma_session_replaced(before: Self, after: Self, place: int)
        requires
            before.wf(),
            0 <= place < before.sessions@.len(),
            after.backend == before.backend,
            after.index == before.index,
            after.sessions@.len() == before.sessions@.len(),
            after.sessions@[place].id == before.sessions@[place].id,
            after.sessions@[place].context.wf(),
            forall|i: int|
                0 <= i < before.sessions@.len() && i != place ==> (#[trigger] after.sessions@[i])
                    == before.sessions@[i],
        ensures
            after.wf(),
            after.same_sessions_but(before, before.sessions@[place].id@),
            place_of(after.sessions@, before.sessions@[place].id@) == place,
            after.session(before.sessions@[place].id@) == Some(after.sessions@[place].context),
    {
        let (a, b) = (before.sessions@, after.sessions@);
        let id = a[place].id@;
        assert forall|i: int| 0 <= i < a.len() implies (#[trigger] a[i]).id@ == b[i].id@ by {
            if i != place {
                assert(b[i] == a[i]);
            }
        }
        lemma_same_places(a, b, id);
        lemma_place_of(a, id);
        assert(place_of(a, id) == place) by {
            let p = place_of(a, id);
            if p < place {
                assert(a[p].id@ != a[place].id@);
            }
        }
        assert forall|other: Seq<char>| other != id implies #[trigger] after.session(other)
            == before.session(other) by {
            lemma_same_places(a, b, other);
            lemma_place_of(a, other);
            let p = place_of(a, other);
            if p < a.len() {
                assert(b[p] == a[p]);
            }
        }
        assert forall|i: int| 0 <= i < b.len() implies (#[trigger] b[i]).context.wf() by {
            if i != place {
                assert(b[i] == a[i]);
            }
        }
        assert forall|i: int, j: int| 0 <= i < j < b.len() implies (#[trigger] b[i]).id@ != (
        #[trigger] b[j]).id@ by {
            assert(a[i].id@ == b[i].id@ && a[j].id@ == b[j].id@);
            assert(a[i].id@ != a[j].id@);
        }
    }

    /// The answer to a query outside of any session, given its signature and
    /// the time that embedding it took.
    pub fn answer_query(&mut self, req: &QueryRequest, sig: &BinarySignature, embed_ns: u128) -> (r:
        QueryResponse)
        requires
            old(self).wf(),
        ensures
            final(self).wf(),
            final(self).same_service(*old(self)),
            forall|id: Seq<char>| #[trigger] final(self).session(id) == old(self).session(id),
            final(self).session_count() == old(self).session_count(),
            exists|scan_ns: u128| #[trigger]
                final(self).timed(*old(self), embed_ns, scan_ns, r.embed_us, r.scan_us),
            query_answered(*old(self), *req, *sig, r),
    {
        let started = self.clock.now();
        let options = SearchOptions {
            coarse_k: 64,
            max_candidate_events: 8,
            parallel: req.parallel,
        };
        let search = self.index.search(sig, req.top_k, &options);
        let ended = self.clock.now();
        let scan_ns: u128 = ended.duration_since(started).nanos;
        self.record_latency(embed_ns, scan_ns);
        assert(old(self).measured(scan_ns)) by {
            assert(old(self).timer().shows(started) && old(self).timer().shows(ended));
        }
        let hits = map_hits(self.index.events(), &self.manifest.ids, &search.results);
        let predicted_events = event_names(self.index.events(), &search.candidate_events);
        let r = QueryResponse {
            embedder: self.manifest.embedder,
            embed_us: embed_ns / 1000,
            scan_us: scan_ns / 1000,
            corpus_size: self.index.len(),
            hits,
            served_by: if search.used_shards {
                "shard_scan"
            } else {
                "full_scan"
            },
            predicted_events,
            shard_scope_size: search.shard_scope_size,
        };
        assert(self.timed(*old(self), embed_ns, scan_ns, r.embed_us, r.scan_us));
        r
    }

    /// Answer a query outside of any session. It needs a text.
    pub fn handle_query(&mut self, req: &QueryRequest) -> (r: Result<QueryResponse, String>)
        requires
            old(self).wf(),
        ensures
            final(self).wf(),
            final(self).same_service(*old(self)),
            forall|id: Seq<char>| #[trigger] final(self).session(id) == old(self).session(id),
            final(self).session_count() == old(self).session_count(),
            if blank(req.text@) {
                &&& r matches Err(why) && why@ == "text is empty"@
                &&& final(self).same_counters(*old(self))
            } else {
                exists|embedded: Result<BinarySignature, PrimdError>|
                    #[trigger] old(self).spec_backend().may_embed(req.text@, embedded)
                        && match embedded {
                        Ok(sig) => r matches Ok(response) && query_answered(
                            *old(self),
                            *req,
                            sig,
                            response,
                        ) && exists|embed_ns: u128, scan_ns: u128|
                            old(self).measured(embed_ns) && #[trigger] final(self).timed(
                                *old(self),
                                embed_ns,
                                scan_ns,
                                response.embed_us,
                                response.scan_us,
                            ),
                        Err(e) => {
                            &&& r matches Err(why) && why@ == e.text()
                            &&& final(self).same_counters(*old(self))
                        },
                    }
            },
    {
        if is_blank(req.text.as_str()) {
            return Err("text is empty".to_owned());
        }
        let started = self.clock.now();
        let embedded = self.backend.embed_query(req.text.as_str());
        let ended = self.clock.now();
        let embed_ns: u128 = ended.duration_since(started).nanos;
        assert(old(self).measured(embed_ns)) by {
            assert(old(self).timer().shows(started) && old(self).timer().shows(ended));
        }
        assert(old(self).spec_backend().may_embed(req.text@, embedded));
        match embedded {
            Ok(sig) => {
                let r = self.answer_query(req, &sig, embed_ns);
                assert(query_answered(*old(self), *req, sig, r));
                Ok(r)
            },
            Err(e) => Err(e.message()),
        }
    }

    /// Whether the counters of a session have room for one more step.
    pub fn can_continue(&self, id: &str) -> (b: bool)
        ensures
            b == self.has_room(id@),
    {
        let place: usize = self.find_session(id);
        place == self.sessions.len() || self.sessions[place].context.can_continue()
    }

    /// Feed the signature of a partial transcript to a session.
    pub fn observe_session(&mut self, id: &str, sig: BinarySignature, top_k: usize)
        requires
            old(self).wf(),
            old(self).has_room(id@),
        ensures
            final(self).wf(),
            final(self).same_service(*old(self)),
            final(self).same_counters(*old(self)),
            final(self).same_sessions_but(*old(self), id@),
            final(self).session_count() == old(self).count_with(id@),
            partial_in_session(*old(self), *final(self), id@, sig, top_k),
    {
        let place: usize = self.open_session(id);
        let ghost opened = *self;
        proof {
            lemma_place_of(self.sessions@, id@);
        }
        self.sessions[place].context.observe_partial(&self.index, sig, top_k);
        proof {
            Self::lemma_session_replaced(opened, *self, place as int);
            assert forall|other: Seq<char>| other != id@ implies #[trigger] self.session(other)
                == old(self).session(other) by {
                assert(opened.session(other) == old(self).session(other));
            }
            let before = opened.sessions@[place as int].context;
            let after = self.sessions@[place as int].context;
            assert(old(self).opened(id@, before));
            lemma_partial_in_session(*old(self), *self, id@, sig, top_k, before, after);
        }
    }

    /// Feed a partial transcript to a session.
    pub fn handle_observe(&mut self, id: &str, req: &QueryRequest) -> (r: Result<(), String>)
        requires
            old(self).wf(),
            old(self).has_room(id@),
        ensures
            final(self).wf(),
            final(self).same_service(*old(self)),
            final(self).same_counters(*old(self)),
            final(self).same_sessions_but(*old(self), id@),
            exists|embedded: Result<BinarySignature, PrimdError>|
                #[trigger] old(self).spec_backend().may_embed(req.text@, embedded)
                    && match embedded {
                    Ok(sig) => r is Ok && partial_in_session(
                        *old(self),
                        *final(self),
                        id@,
                        sig,
                        req.top_k,
                    ) && final(self).session_count() == old(self).count_with(id@),
                    Err(e) => {
                        &&& r matches Err(why) && why@ == e.text()
                        &&& final(self).session(id@) == old(self).session(id@)
                        &&& final(self).session_count() == old(self).session_count()
                    },
                },
    {
        let embedded = self.backend.embed_query(req.text.as_str());
        assert(old(self).spec_backend().may_embed(req.text@, embedded));
        match embedded {
            Ok(sig) => {
                self.observe_session(id, sig, req.top_k);
                assert(partial_in_session(*old(self), *self, id@, sig, req.top_k));
                Ok(())
            },
            Err(e) => Err(e.message()),
        }
    }

    /// End an utterance of a session.
    fn finalize_session(&mut self, id: &str, sig: BinarySignature, top_k: usize) -> (out:
        QueryOutput)
        requires
            old(self).wf(),
            old(self).has_room(id@),
        ensures
            final(self).wf(),
            final(self).same_service(*old(self)),
            final(self).same_counters(*old(self)),
            final(self).same_sessions_but(*old(self), id@),
            out.results@ == old(self).final_answer(id@, sig, top_k).results,
            out.served_by == old(self).final_answer(id@, sig, top_k).served_by,
            out.shard_scope_size == old(self).final_answer(id@, sig, top_k).scope_size,
            out.predicted_events@ == old(self).predicted_for(id@),
            final(self).session_count() == old(self).count_with(id@),
            final_in_session(*old(self), *final(self), id@, sig, top_k),
    {
        let place: usize = self.open_session(id);
        let ghost opened = *self;
        proof {
            lemma_place_of(self.sessions@, id@);
        }
        let out = self.sessions[place].context.finalize(&self.index, sig, top_k);
        proof {
            Self::lemma_session_replaced(opened, *self, place as int);
            assert forall|other: Seq<char>| other != id@ implies #[trigger] self.session(other)
                == old(self).session(other) by {
                assert(opened.session(other) == old(self).session(other));
            }
            let before = opened.sessions@[place as int].context;
            assert(old(self).opened(id@, before));
            if old(self).session(id@) is None {
                lemma_fresh_is_searched(before, self.index, sig, top_k);
            }
            let after = self.sessions@[place as int].context;
            lemma_final_in_session(*old(self), *self, id@, sig, top_k, before, after, out);
        }
        out
    }

    /// The answer to a final query of a session, given its signature and the
    /// time that embedding it took.
    pub fn answer_final(
        &mut self,
        id: &str,
        sig: BinarySignature,
        top_k: usize,
        embed_ns: u128,
    ) -> (r: QueryResponse)
        requires
            old(self).wf(),
            old(self).has_room(id@),
        ensures
            final(self).wf(),
            final(self).same_service(*old(self)),
            final(self).same_sessions_but(*old(self), id@),
            final(self).session_count() == old(self).count_with(id@),
            exists|scan_ns: u128| #[trigger]
                final(self).timed(*old(self), embed_ns, scan_ns, r.embed_us, r.scan_us),
            final_in_session(*old(self), *final(self), id@, sig, top_k),
            final_answered(*old(self), id@, sig, top_k, r),
    {
        let started = self.clock.now();
        let out = self.finalize_session(id, sig, top_k);
        let ended = self.clock.now();
        let scan_ns: u128 = ended.duration_since(started).nanos;
        let ghost closed = *self;
        self.record_latency(embed_ns, scan_ns);
        assert(old(self).measured(scan_ns)) by {
            assert(old(self).timer().shows(started) && old(self).timer().shows(ended));
        }
        proof {
            assert forall|other: Seq<char>| #[trigger] self.session(other) == closed.session(
                other,
            ) by {}
            lemma_final_kept(*old(self), closed, *self, id@, sig, top_k);
        }
        let hits = map_hits(self.index.events(), &self.manifest.ids, &out.results);
        let predicted_events = event_names(self.index.events(), &out.predicted_events);
        let r = QueryResponse {
            embedder: self.manifest.embedder,
            embed_us: embed_ns / 1000,
            scan_us: scan_ns / 1000,
            corpus_size: self.index.len(),
            hits,
            served_by: served_by_label(out.served_by),
            predicted_events,
            shard_scope_size: out.shard_scope_size,
        };
        assert(self.timed(*old(self), embed_ns, scan_ns, r.embed_us, r.scan_us));
        r
    }

    /// Answer the final query of an utterance of a session.
    pub fn handle_finalize(&mut self, id: &str, req: &QueryRequest) -> (r: Result<
        QueryResponse,
        String,
    >)
        requires
            old(self).wf(),
            old(self).has_room(id@),
        ensures
            final(self).wf(),
            final(self).same_service(*old(self)),
            final(self).same_sessions_but(*old(self), id@),
            exists|embedded: Result<BinarySignature, PrimdError>|
                #[trigger] old(self).spec_backend().may_embed(req.text@, embedded)
                    && match embedded {
                    Ok(sig) => {
                        &&& r matches Ok(response) && final_answered(
                            *old(self),
                            id@,
                            sig,
                            req.top_k,
                            response,
                        )
                        &&& final_in_session(*old(self), *final(self), id@, sig, req.top_k)
                        &&& final(self).session_count() == old(self).count_with(id@)
                        &&& exists|embed_ns: u128, scan_ns: u128|
                            old(self).measured(embed_ns) && #[trigger] final(self).timed(
                                *old(self),
                                embed_ns,
                                scan_ns,
                                r->Ok_0.embed_us,
                                r->Ok_0.scan_us,
                            )
                    },
                    Err(e) => {
                        &&& r matches Err(why) && why@ == e.text()
                        &&& final(self).session(id@) == old(self).session(id@)
                        &&& final(self).session_count() == old(self).session_count()
                        &&& final(self).same_counters(*old(self))
                    },
                },
    {
        let started = self.clock.now();
        let embedded = self.backend.embed_query(req.text.as_str());
        let ended = self.clock.now();
        let embed_ns: u128 = ended.duration_since(started).nanos;
        assert(old(self).measured(embed_ns)) by {
            assert(old(self).timer().shows(started) && old(self).timer().shows(ended));
        }
        assert(old(self).spec_backend().may_embed(req.text@, embedded));
        match embedded {
            Ok(sig) => {
                let r = self.answer_final(id, sig, req.top_k, embed_ns);
                assert(final_answered(*old(self), id@, sig, req.top_k, r));
                Ok(r)
            },
            Err(e) => Err(e.message()),
        }
    }

    /// Predict the events of the next utterance of a session.
    pub fn handle_warm(&mut self, id: &str) -> (r: SessionWarmResponse)
        requires
            old(self).wf(),
        ensures
            final(self).wf(),
            final(self).same_service(*old(self)),
            final(self).same_counters(*old(self)),
            final(self).same_sessions_but(*old(self), id@),
            final(self).session_count() == old(self).count_with(id@),
            final(self).session(id@) matches Some(now) && {
                &&& warm_in_session(*old(self), now, id@)
                &&& texts_of(r.predicted_events@) == names_of(
                    old(self).spec_index().catalog(),
                    now.predictions(),
                )
                &&& r.shard_scope_size == now.predicted_docs().len()
            },
    {
        let place: usize = self.open_session(id);
        let ghost opened = *self;
        proof {
            lemma_place_of(self.sessions@, id@);
        }
        let predicted = self.sessions[place].context.warm_next(&self.index);
        let shard_scope_size: usize = self.sessions[place].context.predicted_scope_size();
        proof {
            Self::lemma_session_replaced(opened, *self, place as int);
            assert forall|other: Seq<char>| other != id@ implies #[trigger] self.session(other)
                == old(self).session(other) by {
                assert(opened.session(other) == old(self).session(other));
            }
            let before = opened.sessions@[place as int].context;
            let now = self.sessions@[place as int].context;
            assert(old(self).opened(id@, before));
            assert(warmed(before, now, old(self).spec_index()));
            assert(self.session(id@) == Some(now));
        }
        let predicted_events = event_names(self.index.events(), &predicted);
        SessionWarmResponse { predicted_events, shard_scope_size }
    }

    /// Forget a session.
    pub fn handle_reset(&mut self, id: &str)
        requires
            old(self).wf(),
        ensures
            final(self).wf(),
            final(self).same_service(*old(self)),
            final(self).same_counters(*old(self)),
            final(self).same_sessions_but(*old(self), id@),
            final(self).session(id@) is None,
            final(self).session_count() == old(self).session_count() - if old(self).session(
                id@,
            ) is Some {
                1int
            } else {
                0int
            },
    {
        let ghost before = self.sessions@;
        let place: usize = self.find_session(id);
        proof {
            lemma_place_of(before, id@);
        }
        if place < self.sessions.len() {
            self.sessions.remove(place);
            proof {
                let after = self.sessions@;
                lemma_place_of(after, id@);
                assert forall|i: int| 0 <= i < after.len() implies (#[trigger] after[i]).id@
                    != id@ by {
                    if i < place {
                        assert(after[i] == before[i]);
                    } else {
                        assert(after[i] == before[i + 1]);
                        assert(before[place as int].id@ != before[i + 1].id@);
                    }
                }
                assert forall|i: int| 0 <= i < after.len() implies (
                #[trigger] after[i]).context.wf() by {
                    assert(after[i] == if i < place {
                        before[i]
                    } else {
                        before[i + 1]
                    });
                }
                assert forall|i: int, j: int| 0 <= i < j < after.len() implies (
                #[trigger] after[i]).id@ != (#[trigger] after[j]).id@ by {
                    let p = if i < place {
                        i
                    } else {
                        i + 1
                    };
                    let q = if j < place {
                        j
                    } else {
                        j + 1
                    };
                    assert(after[i] == before[p] && after[j] == before[q]);
                }
                assert forall|other: Seq<char>| other != id@ implies #[trigger] self.session(other)
                    == old(self).session(other) by {
                    lemma_place_of(before, other);
                    lemma_place_of(after, other);
                    let p = place_of(before, other);
                    let q = place_of(after, other);
                    if p < before.len() {
                        let moved = if p < place {
                            p
                        } else {
                            p - 1
                        };
                        assert(after[moved] == before[p]);
                        if q < moved {
                            assert(after[q] == if q < place {
                                before[q]
                            } else {
                                before[q + 1]
                            });
                        }
                    } else if q < after.len() {
                        assert(after[q] == if q < place {
                            before[q]
                        } else {
                            before[q + 1]
                        });
                    }
                }
            }
        }
    }

    /// What the server has done so far.
    pub fn stats(&self) -> (r: StatsResponse)
        ensures
            r.corpus_size == self.spec_index().sigs().len(),
            r.embedder == self.spec_manifest().embedder,
            r.queries_served == self.served_count(),
            r.total_embed_us == self.embed_total() / 1000,
            r.total_scan_us == self.scan_total() / 1000,
            ({
                let n = if self.served_count() == 0 {
                    1
                } else {
                    self.served_count() as int
                };
                &&& r.mean_embed_us == (self.embed_total() as int / 1000) / n
                &&& r.mean_scan_us == (self.scan_total() as int / 1000) / n
            }),
            r.sessions == self.session_count(),
    {
        let n: u128 = if self.queries_served == 0 {
            1
        } else {
            self.queries_served as u128
        };
        let total_embed_us: u128 = self.total_embed_ns as u128 / 1000;
        let total_scan_us: u128 = self.total_scan_ns as u128 / 1000;
        StatsResponse {
            corpus_size: self.index.len(),
            embedder: self.manifest.embedder,
            queries_served: self.queries_served,
            total_embed_us,
            total_scan_us,
            mean_embed_us: total_embed_us / n,
            mean_scan_us: total_scan_us / n,
            sessions: self.sessions.len(),
        }
    }
}

impl<B: Backend> ServeState<B> {
    /// What a chat completion is made of: the answer of the user's session to a
    /// final query, or that to a query outside of any session.
    pub open spec fn reply(
        &self,
        user: Option<String>,
        sig: BinarySignature,
        k: usize,
    ) -> Reply {
        let catalog = self.spec_index().catalog();
        let ids = self.spec_manifest().ids@;
        match user {
            Some(id) => {
                let answer = self.final_answer(id@, sig, k);
                Reply {
                    hits: hits_of(catalog, ids, answer.results),
                    served_by: label_text(answer.served_by),
                    predicted: names_of(catalog, self.predicted_for(id@)),
                }
            },
            None => {
                let found = search_of(
                    self.spec_index().sigs(),
                    catalog,
                    sig,
                    k as nat,
                    default_options(true),
                );
                Reply {
                    hits: hits_of(catalog, ids, found.results),
                    served_by: label_text(served_by_scan(found).served_by),
                    predicted: names_of(catalog, found.candidate_events),
                }
            },
        }
    }

    /// The user's session has room.
    pub open spec fn user_has_room(&self, user: Option<String>) -> bool {
        user matches Some(id) ==> self.has_room(id@)
    }

    /// Complete a chat, given the query, its signature, and the time that
    /// embedding it took. With a user the query ends an utterance of the user's
    /// session.
    pub fn answer_chat(
        &mut self,
        req: &ChatCompletionsRequest,
        query: &str,
        sig: BinarySignature,
        embed_ns: u128,
    ) -> (r: ChatCompletionsResponse)
        requires
            old(self).wf(),
            old(self).user_has_room(req.user),
        ensures
            final(self).wf(),
            final(self).same_service(*old(self)),
            completes(
                r,
                old(self).reply(req.user, sig, chat_k(req.top_k)),
                old(self).table(),
                query@,
                req.model,
            ),
            match req.user {
                Some(id) => {
                    &&& final(self).session_count() == old(self).count_with(id@)
                    &&& final(self).same_sessions_but(*old(self), id@)
                    &&& final_in_session(*old(self), *final(self), id@, sig, chat_k(req.top_k))
                },
                None => final(self).session_count() == old(self).session_count() && forall|
                    id: Seq<char>,
                | #[trigger] final(self).session(id) == old(self).session(id),
            },
            exists|scan_ns: u128| #[trigger]
                final(self).timed(*old(self), embed_ns, scan_ns, r.embed_us, r.scan_us),
            is_dated(r),
    {
        let top_k: usize = chat_top_k(req.top_k);
        let answer = match &req.user {
            Some(id) => self.answer_final(id.as_str(), sig, top_k, embed_ns),
            None => {
                let plain = QueryRequest { text: query.to_owned(), top_k, parallel: true };
                self.answer_query(&plain, &sig, embed_ns)
            },
        };
        let model = match &req.model {
            Some(name) => Some(name.clone()),
            None => None,
        };
        let seconds: u64 = unix_seconds();
        let created: u64 = unix_seconds();
        let r = complete_chat(answer, &self.texts, query, model, seconds, created);
        proof {
            let a = choose|a: Option<u64>|
                #[trigger] epoch_reading(a) && seconds == seconds_told(a);
            let b = choose|b: Option<u64>|
                #[trigger] epoch_reading(b) && created == seconds_told(b);
            assert(epoch_reading(a) && epoch_reading(b));
        }
        r
    }

    /// Complete a chat. The latest message of a user is the query.
    pub fn handle_chat_completions(&mut self, req: &ChatCompletionsRequest) -> (r: Result<
        ChatCompletionsResponse,
        String,
    >)
        requires
            old(self).wf(),
            old(self).user_has_room(req.user),
        ensures
            final(self).wf(),
            final(self).same_service(*old(self)),
            match last_user(req.messages@) {
                Some(i) => {
                    let query = req.messages@[i].content@;
                    if blank(query) {
                        r matches Err(why) && why@ == "latest user message is empty"@
                    } else {
                        exists|embedded: Result<BinarySignature, PrimdError>|
                            #[trigger] old(self).spec_backend().may_embed(query, embedded)
                                && match embedded {
                                Ok(sig) => r matches Ok(response) && completes(
                                    response,
                                    old(self).reply(req.user, sig, chat_k(req.top_k)),
                                    old(self).table(),
                                    query,
                                    req.model,
                                ) && (req.user matches Some(id) ==> final_in_session(
                                    *old(self),
                                    *final(self),
                                    id@,
                                    sig,
                                    chat_k(req.top_k),
                                )) && final(self).session_count() == (match req.user {
                                    Some(id) => old(self).count_with(id@),
                                    None => old(self).session_count(),
                                }) && (exists|embed_ns: u128, scan_ns: u128|
                                    old(self).measured(embed_ns) && #[trigger] final(self).timed(
                                        *old(self),
                                        embed_ns,
                                        scan_ns,
                                        response.embed_us,
                                        response.scan_us,
                                    )) && is_dated(response),
                                Err(e) => r matches Err(why) && why@ == e.text(),
                            }
                    }
                },
                None => r matches Err(why) && why@
                    == "messages must contain at least one user message"@,
            },
            r is Err ==> final(self).same_counters(*old(self)) && final(self).session_count()
                == old(self).session_count() && forall|id: Seq<char>|
                #[trigger] final(self).session(id) == old(self).session(id),
            forall|id: Seq<char>|
                (req.user matches Some(user) ==> user@ != id) ==> #[trigger] final(self).session(id)
                    == old(self).session(id),
    {
        let query = match extract_user_query(req.messages.as_slice()) {
            Ok(query) => query,
            Err(why) => {
                return Err(why);
            },
        };
        let started = self.clock.now();
        let embedded = self.backend.embed_query(query);
        let ended = self.clock.now();
        let embed_ns: u128 = ended.duration_since(started).nanos;
        assert(old(self).measured(embed_ns)) by {
            assert(old(self).timer().shows(started) && old(self).timer().shows(ended));
        }
        assert(old(self).spec_backend().may_embed(query@, embedded));
        match embedded {
            Ok(sig) => Ok(self.answer_chat(req, query, sig, embed_ns)),
            Err(e) => Err(e.message()),
        }
    }
}

/// The id and the date of a completion tell the seconds since the Unix epoch.
pub open spec fn is_dated(r: ChatCompletionsResponse) -> bool {
    exists|a: Option<u64>, b: Option<u64>|
        #[trigger] epoch_reading(a) && #[trigger] epoch_reading(b) && r.id@ == "chatcmpl-primd-"@
            + decimal_text(seconds_told(a) as nat) && r.created == seconds_told(b)
}

/// `r` answers a query outside of any session.
pub open spec fn query_answered<B: Backend>(
    state: ServeState<B>,
    req: QueryRequest,
    sig: BinarySignature,
    r: QueryResponse,
) -> bool {
    let index = state.spec_index();
    let found = search_of(
        index.sigs(),
        index.catalog(),
        sig,
        req.top_k as nat,
        default_options(req.parallel),
    );
    &&& r.embedder == state.spec_manifest().embedder
    &&& r.corpus_size == index.sigs().len()
    &&& hits_view(r.hits@) == hits_of(
        index.catalog(),
        state.spec_manifest().ids@,
        found.results,
    )
    &&& r.served_by@ == label_text(served_by_scan(found).served_by)
    &&& texts_of(r.predicted_events@) == names_of(index.catalog(), found.candidate_events)
    &&& r.shard_scope_size == found.shard_scope_size
}

/// `r` answers the final query of a session.
pub open spec fn final_answered<B: Backend>(
    state: ServeState<B>,
    id: Seq<char>,
    sig: BinarySignature,
    top_k: usize,
    r: QueryResponse,
) -> bool {
    let index = state.spec_index();
    let answer = state.final_answer(id, sig, top_k);
    &&& r.embedder == state.spec_manifest().embedder
    &&& r.corpus_size == index.sigs().len()
    &&& hits_view(r.hits@) == hits_of(
        index.catalog(),
        state.spec_manifest().ids@,
        answer.results,
    )
    &&& r.served_by@ == label_text(answer.served_by)
    &&& texts_of(r.predicted_events@) == names_of(index.catalog(), state.predicted_for(id))
    &&& r.shard_scope_size == answer.scope_size
}

/// A session took a partial.
pub open spec fn partial_in_session<B: Backend>(
    before: ServeState<B>,
    after: ServeState<B>,
    id: Seq<char>,
    sig: BinarySignature,
    top_k: usize,
) -> bool {
    after.session(id) matches Some(now) && exists|was: QueryContext<B::Predictor>|
        before.opened(id, was) && #[trigger] partial_taken(
            was,
            now,
            before.spec_index(),
            sig,
            top_k,
        )
}

/// The events of the next utterance of a session were predicted.
pub open spec fn warm_in_session<B: Backend>(
    before: ServeState<B>,
    now: QueryContext<B::Predictor>,
    id: Seq<char>,
) -> bool {
    exists|was: QueryContext<B::Predictor>|
        before.opened(id, was) && #[trigger] warmed(was, now, before.spec_index())
}

/// A session ended an utterance.
pub open spec fn final_in_session<B: Backend>(
    before: ServeState<B>,
    after: ServeState<B>,
    id: Seq<char>,
    sig: BinarySignature,
    top_k: usize,
) -> bool {
    after.session(id) matches Some(now) && exists|
        was: QueryContext<B::Predictor>,
        out: QueryOutput,
    |
        before.opened(id, was) && out.results@ == before.final_answer(id, sig, top_k).results
            && #[trigger] finished(was, now, before.spec_index(), sig, top_k as nat, out)
            && cache_taken(was, now, before.spec_index(), sig, top_k)
}

proof fn lemma_partial_in_session<B: Backend>(
    before: ServeState<B>,
    after: ServeState<B>,
    id: Seq<char>,
    sig: BinarySignature,
    top_k: usize,
    was: QueryContext<B::Predictor>,
    now: QueryContext<B::Predictor>,
)
    requires
        before.opened(id, was),
        after.session(id) == Some(now),
        partial_taken(was, now, before.spec_index(), sig, top_k),
    ensures
        partial_in_session(before, after, id, sig, top_k),
{
    assert(after.session(id)->0 == now);
}

proof fn lemma_final_in_session<B: Backend>(
    before: ServeState<B>,
    after: ServeState<B>,
    id: Seq<char>,
    sig: BinarySignature,
    top_k: usize,
    was: QueryContext<B::Predictor>,
    now: QueryContext<B::Predictor>,
    out: QueryOutput,
)
    requires
        before.opened(id, was),
        after.session(id) == Some(now),
        out.results@ == before.final_answer(id, sig, top_k).results,
        finished(was, now, before.spec_index(), sig, top_k as nat, out),
        cache_taken(was, now, before.spec_index(), sig, top_k),
    ensures
        final_in_session(before, after, id, sig, top_k),
{
    assert(after.session(id)->0 == now);
}

/// What holds of a session does not depend on the counters.
proof fn lemma_final_kept<B: Backend>(
    before: ServeState<B>,
    closed: ServeState<B>,
    after: ServeState<B>,
    id: Seq<char>,
    sig: BinarySignature,
    top_k: usize,
)
    requires
        final_in_session(before, closed, id, sig, top_k),
        after.session(id) == closed.session(id),
    ensures
        final_in_session(before, after, id, sig, top_k),
{
}

/// What a query is answered. All results of a search that looks at 64 documents for up to
/// 8 candidate events are listed in their order, each with its rank, its distance, its id
/// and the name of its event.
pub proof fn lemma_query_answer<B: Backend>(
    state: ServeState<B>,
    req: QueryRequest,
    sig: BinarySignature,
    r: QueryResponse,
)
    requires
        query_answered(state, req, sig, r),
    ensures
        ({
            let index = state.spec_index();
            let ids = state.spec_manifest().ids@;
            let found = search_of(
                index.sigs(),
                index.catalog(),
                sig,
                req.top_k as nat,
                SearchOptions { coarse_k: 64, max_candidate_events: 8, parallel: req.parallel },
            );
            &&& r.corpus_size == index.sigs().len()
            &&& r.shard_scope_size == found.shard_scope_size
            &&& r.served_by@ == if found.used_shards {
                "shard_scan"@
            } else {
                "full_scan"@
            }
            &&& r.hits@.len() == found.results.len()
            &&& forall|i: int|
                0 <= i < r.hits@.len() ==> (#[trigger] r.hits@[i]).rank == i + 1
                    && r.hits@[i].distance == found.results[i].0
            &&& forall|i: int|
                0 <= i < r.hits@.len() ==> (#[trigger] r.hits@[i]).id@ == if found.results[i].1
                    < ids.len() {
                    ids[found.results[i].1 as int]@
                } else {
                    "?"@
                }
            &&& forall|i: int|
                0 <= i < r.hits@.len() ==> (#[trigger] r.hits@[i]).event@
                    == match index.catalog().event_of(found.results[i].1) {
                    Some(event) => index.catalog()@[event.0 as int].0,
                    None => "_default"@,
                }
        }),
{
    let index = state.spec_index();
    let found = search_of(
        index.sigs(),
        index.catalog(),
        sig,
        req.top_k as nat,
        default_options(req.parallel),
    );
    lemma_listed_hits(
        index.catalog(),
        state.spec_manifest().ids@,
        found.results,
        r.hits@,
    );
}

proof fn lemma_listed_hits(
    catalog: EventCatalog,
    ids: Seq<String>,
    results: Seq<(u32, usize)>,
    hits: Seq<QueryHit>,
)
    requires
        hits_view(hits) == hits_of(catalog, ids, results),
    ensures
        hits.len() == results.len(),
        forall|i: int|
            0 <= i < hits.len() ==> (#[trigger] hits[i]).rank == i + 1 && hits[i].distance
                == results[i].0,
        forall|i: int|
            0 <= i < hits.len() ==> (#[trigger] hits[i]).id@ == if results[i].1 < ids.len() {
                ids[results[i].1 as int]@
            } else {
                "?"@
            },
        forall|i: int|
            0 <= i < hits.len() ==> (#[trigger] hits[i]).event@ == match catalog.event_of(
                results[i].1,
            ) {
                Some(event) => catalog@[event.0 as int].0,
                None => "_default"@,
            },
{
    assert(hits_view(hits).len() == hits.len());
    assert forall|i: int| 0 <= i < hits.len() implies (#[trigger] hits[i])@ == hits_of(
        catalog,
        ids,
        results,
    )[i] by {
        assert(hits_view(hits)[i] == hits[i]@);
    }
    assert forall|i: int| 0 <= i < hits.len() implies (#[trigger] hits[i]).rank == i + 1
        && hits[i].distance == results[i].0 by {
        lemma_hits_of(catalog, ids, results, i);
        assert(hits[i]@.rank == hits[i].rank);
    }
    assert forall|i: int| 0 <= i < hits.len() implies (#[trigger] hits[i]).id@ == if results[i].1
        < ids.len() {
        ids[results[i].1 as int]@
    } else {
        "?"@
    } by {
        lemma_hits_of(catalog, ids, results, i);
        assert(hits[i]@.id == hits[i].id@);
    }
    assert forall|i: int| 0 <= i < hits.len() implies (#[trigger] hits[i]).event@
        == match catalog.event_of(results[i].1) {
        Some(event) => catalog@[event.0 as int].0,
        None => "_default"@,
    } by {
        lemma_hits_of(catalog, ids, results, i);
        assert(hits[i]@.event == hits[i].event@);
    }
}

/// What the end of an utterance is answered: all that serves it in its session, in order,
/// and the events that were predicted for it. Without a session a search answers, and
/// nothing was predicted.
pub proof fn lemma_final_is_answered<B: Backend>(
    state: ServeState<B>,
    id: Seq<char>,
    sig: BinarySignature,
    top_k: usize,
    r: QueryResponse,
)
    requires
        final_answered(state, id, sig, top_k, r),
    ensures
        ({
            let index = state.spec_index();
            let ids = state.spec_manifest().ids@;
            let results = match state.session(id) {
                Some(ctx) => served(ctx, index, sig, top_k).results,
                None => search_of(
                    index.sigs(),
                    index.catalog(),
                    sig,
                    top_k as nat,
                    SearchOptions { coarse_k: 64, max_candidate_events: 8, parallel: true },
                ).results,
            };
            &&& r.corpus_size == index.sigs().len()
            &&& state.session(id) is None ==> r.predicted_events@.len() == 0
            &&& state.session(id) matches Some(ctx) ==> texts_of(r.predicted_events@)
                == ctx.predictions().filter_map(
                |e: EventId|
                    if e.0 < index.catalog()@.len() {
                        Some(index.catalog()@[e.0 as int].0)
                    } else {
                        None
                    },
            )
            &&& r.hits@.len() == results.len()
            &&& forall|i: int|
                0 <= i < r.hits@.len() ==> (#[trigger] r.hits@[i]).rank == i + 1
                    && r.hits@[i].distance == results[i].0
            &&& forall|i: int|
                0 <= i < r.hits@.len() ==> (#[trigger] r.hits@[i]).id@ == if results[i].1
                    < ids.len() {
                    ids[results[i].1 as int]@
                } else {
                    "?"@
                }
            &&& forall|i: int|
                0 <= i < r.hits@.len() ==> (#[trigger] r.hits@[i]).event@
                    == match index.catalog().event_of(results[i].1) {
                    Some(event) => index.catalog()@[event.0 as int].0,
                    None => "_default"@,
                }
        }),
{
    let index = state.spec_index();
    lemma_listed_hits(
        index.catalog(),
        state.spec_manifest().ids@,
        state.final_answer(id, sig, top_k).results,
        r.hits@,
    );
    lemma_names_of(index.catalog(), state.predicted_for(id));
    assert(texts_of(r.predicted_events@).len() == r.predicted_events@.len());
}

/// What a chat is answered from: for a user whose session there is, what serves the query
/// there; for everyone else, a search.
pub proof fn lemma_reply<B: Backend>(
    state: ServeState<B>,
    user: Option<String>,
    sig: BinarySignature,
    k: usize,
)
    ensures
        ({
            let index = state.spec_index();
            let session = match user {
                Some(id) => state.session(id@),
                None => None,
            };
            let found = search_of(
                index.sigs(),
                index.catalog(),
                sig,
                k as nat,
                SearchOptions { coarse_k: 64, max_candidate_events: 8, parallel: true },
            );
            let reply = state.reply(user, sig, k);
            &&& session matches Some(ctx) ==> {
                let answer = served(ctx, index, sig, k);
                &&& reply.hits == hits_of(
                    index.catalog(),
                    state.spec_manifest().ids@,
                    answer.results,
                )
                &&& reply.served_by == label_text(answer.served_by)
                &&& reply.predicted == names_of(index.catalog(), ctx.predictions())
            }
            &&& session is None ==> {
                &&& reply.hits == hits_of(
                    index.catalog(),
                    state.spec_manifest().ids@,
                    found.results,
                )
                &&& reply.served_by == if found.used_shards {
                    "shard_scan"@
                } else {
                    "full_scan"@
                }
                &&& user is None ==> reply.predicted == names_of(
                    index.catalog(),
                    found.candidate_events,
                )
                &&& user is Some ==> reply.predicted.len() == 0
            }
        }),
{
}

/// Every answer is counted once, with the time that it took, all to sixty-four bits. What
/// is told of the time is in microseconds.
pub proof fn lemma_timed<B: Backend>(
    before: ServeState<B>,
    after: ServeState<B>,
    embed_ns: u128,
    scan_ns: u128,
    embed_us: u128,
    scan_us: u128,
)
    requires
        after.timed(before, embed_ns, scan_ns, embed_us, scan_us),
    ensures
        before.served_count() < u64::MAX ==> after.served_count() == before.served_count() + 1,
        before.embed_total() + embed_ns <= u64::MAX ==> after.embed_total()
            == before.embed_total() + embed_ns,
        before.scan_total() + scan_ns <= u64::MAX ==> after.scan_total() == before.scan_total()
            + scan_ns,
        1000 * embed_us <= embed_ns < 1000 * embed_us + 1000,
        1000 * scan_us <= scan_ns < 1000 * scan_us + 1000,
{
}

/// A completion is named after the second in which it is made, and dated by it.
pub proof fn lemma_dated(r: ChatCompletionsResponse) -> (readings: (Option<u64>, Option<u64>))
    requires
        is_dated(r),
    ensures
        epoch_reading(readings.0),
        epoch_reading(readings.1),
        readings.0 matches Some(secs) ==> r.id@ == "chatcmpl-primd-"@ + decimal_text(secs as nat),
        readings.0 is None ==> r.id@ == "chatcmpl-primd-"@ + decimal_text(0),
        readings.1 matches Some(secs) ==> r.created == secs,
        readings.1 is None ==> r.created == 0,
{
    let (a, b) = choose|a: Option<u64>, b: Option<u64>|
        #[trigger] epoch_reading(a) && #[trigger] epoch_reading(b) && r.id@ == "chatcmpl-primd-"@
            + decimal_text(seconds_told(a) as nat) && r.created == seconds_told(b);
    (a, b)
}

/// A partial is taken in its session, or in a new one, which is then kept.
pub proof fn lemma_partial_goes_on<B: Backend>(
    before: ServeState<B>,
    after: ServeState<B>,
    id: Seq<char>,
    sig: BinarySignature,
    top_k: usize,
) -> (was: QueryContext<B::Predictor>)
    requires
        partial_in_session(before, after, id, sig, top_k),
    ensures
        after.session(id) is Some,
        before.session(id) matches Some(ctx) ==> was == ctx,
        before.session(id) is None ==> fresh(was) && call_ensures(
            B::new_predictor,
            (&before.spec_backend(),),
            *was.forecaster(),
        ),
        partial_taken(was, after.session(id)->0, before.spec_index(), sig, top_k),
{
    let now = after.session(id)->0;
    choose|was: QueryContext<B::Predictor>|
        before.opened(id, was) && #[trigger] partial_taken(
            was,
            now,
            before.spec_index(),
            sig,
            top_k,
        )
}

/// A warm-up goes on from its session, or from a new one.
pub proof fn lemma_warm_up_goes_on<B: Backend>(
    before: ServeState<B>,
    now: QueryContext<B::Predictor>,
    id: Seq<char>,
) -> (was: QueryContext<B::Predictor>)
    requires
        warm_in_session(before, now, id),
    ensures
        before.session(id) matches Some(ctx) ==> was == ctx,
        before.session(id) is None ==> fresh(was) && call_ensures(
            B::new_predictor,
            (&before.spec_backend(),),
            *was.forecaster(),
        ),
        warmed(was, now, before.spec_index()),
{
    choose|was: QueryContext<B::Predictor>|
        before.opened(id, was) && #[trigger] warmed(was, now, before.spec_index())
}

/// The end of an utterance ends it in its session, or in a new one, which is then kept.
pub proof fn lemma_final_goes_on<B: Backend>(
    before: ServeState<B>,
    after: ServeState<B>,
    id: Seq<char>,
    sig: BinarySignature,
    top_k: usize,
) -> (given: (QueryContext<B::Predictor>, QueryOutput))
    requires
        final_in_session(before, after, id, sig, top_k),
    ensures
        after.session(id) is Some,
        before.session(id) matches Some(ctx) ==> given.0 == ctx && given.1.results@ == served(
            ctx,
            before.spec_index(),
            sig,
            top_k,
        ).results,
        before.session(id) is None ==> fresh(given.0) && call_ensures(
            B::new_predictor,
            (&before.spec_backend(),),
            *given.0.forecaster(),
        ),
        finished(
            given.0,
            after.session(id)->0,
            before.spec_index(),
            sig,
            top_k as nat,
            given.1,
        ),
        cache_taken(given.0, after.session(id)->0, before.spec_index(), sig, top_k),
{
    let now = after.session(id)->0;
    let (was, out) = choose|was: QueryContext<B::Predictor>, out: QueryOutput|
        before.opened(id, was) && out.results@ == before.final_answer(id, sig, top_k).results
            && #[trigger] finished(was, now, before.spec_index(), sig, top_k as nat, out)
            && cache_taken(was, now, before.spec_index(), sig, top_k);
    (was, out)
}

/// With a session that there is none are more, and with a new one there is one more.
pub proof fn lemma_count_with<B: Backend>(state: ServeState<B>, id: Seq<char>)
    ensures
        state.session(id) is Some ==> state.count_with(id) == state.session_count(),
        state.session(id) is None ==> state.count_with(id) == state.session_count() + 1,
{
}

/// The hashing embedder takes a text to the signs of its vector, eight to a byte and the
/// first of them the most significant bit, if the vector has 256 places. Otherwise it
/// says how many there are.
pub proof fn lemma_hashed_signature(
    e: HashedEmbedder,
    text: Seq<char>,
    embedded: Result<BinarySignature, PrimdError>,
    i: int,
    j: int,
)
    requires
        e.may_embed(text, embedded),
        0 <= i < 32,
        0 <= j < 8,
    ensures
        embedded is Ok <==> e.spec_dim() == 256,
        embedded matches Ok(sig) ==> (sig.bits()[8 * i + 7 - j] <==> signs_of(
            e.vector(words_in(text)),
        )[8 * i + j]),
        embedded matches Err(err) ==> err == (PrimdError::InvalidDimension {
            expected: 256,
            got: e.spec_dim() as usize,
        }),
{
    if embedded is Ok {
        let signs = signs_of(e.vector(words_in(text)));
        assert(crate::quantize::sign_place(8 * i + j) == 8 * i + 7 - j);
        assert(embedded->Ok_0.bits()[crate::quantize::sign_place(8 * i + j)] == signs[8 * i + j]);
    }
}

} // verus!
