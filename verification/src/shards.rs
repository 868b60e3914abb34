//! Search in two steps: a coarse scan that picks the events, then a scan of
//! the documents of those events.

use vstd::prelude::*;
use vstd::slice::{slice_subrange, slice_to_vec};

use crate::events::{
    first_events, lemma_event_of, lemma_events_in_order_of_documents, lemma_events_of_documents,
    lemma_no_event_outside, lemma_union_of, EventCatalog,
};
use crate::heap::{ascending, at_most, lemma_sorted_candidates, lemma_top_k_member, top_k};
use crate::signature::{hamming, lemma_hamming_bound, BinarySignature};
use crate::signature_index::{
    lemma_scan_finds_the_nearest, lemma_scope_of_the_nearest_is_enough, lemma_scope_results,
    lemma_scope_scan_finds_the_nearest, scored, scored_scope, SignatureIndex,
};
use crate::state::EventId;

verus! {

#[derive(Clone, Copy, Debug)]
pub struct SearchOptions {
    pub coarse_k: usize,
    pub max_candidate_events: usize,
    pub parallel: bool,
}

impl Default for SearchOptions {
    fn default() -> (options: Self)
        ensures
            options == (SearchOptions { coarse_k: 64, max_candidate_events: 8, parallel: true }),
    {
        SearchOptions { coarse_k: 64, max_candidate_events: 8, parallel: true }
    }
}

#[derive(Clone, Debug)]
pub struct SearchResult {
    pub results: Vec<(u32, usize)>,
    pub coarse_results: Vec<(u32, usize)>,
    pub candidate_events: Vec<EventId>,
    pub shard_scope_size: usize,
    pub used_shards: bool,
}

/// What a [`SearchResult`] says.
pub ghost struct Search {
    pub results: Seq<(u32, usize)>,
    pub coarse_results: Seq<(u32, usize)>,
    pub candidate_events: Seq<EventId>,
    pub shard_scope_size: nat,
    pub used_shards: bool,
}

impl View for SearchResult {
    type V = Search;

    open spec fn view(&self) -> Search {
        Search {
            results: self.results@,
            coarse_results: self.coarse_results@,
            candidate_events: self.candidate_events@,
            shard_scope_size: self.shard_scope_size as nat,
            used_shards: self.used_shards,
        }
    }
}

impl Default for SearchResult {
    fn default() -> (r: Self)
        ensures
            r@ == no_search(),
    {
        SearchResult {
            results: Vec::new(),
            coarse_results: Vec::new(),
            candidate_events: Vec::new(),
            shard_scope_size: 0,
            used_shards: false,
        }
    }
}

/// A search that found nothing and looked at nothing.
pub open spec fn no_search() -> Search {
    Search {
        results: Seq::empty(),
        coarse_results: Seq::empty(),
        candidate_events: Seq::empty(),
        shard_scope_size: 0,
        used_shards: false,
    }
}

/// The greater of two numbers.
pub open spec fn larger(a: nat, b: nat) -> nat {
    if a >= b {
        a
    } else {
        b
    }
}

/// The coarse scan: as many of the nearest documents as the options or the
/// caller ask for, whichever is more.
pub open spec fn coarse_scan(
    sigs: Seq<BinarySignature>,
    query: BinarySignature,
    k: nat,
    options: SearchOptions,
) -> Seq<(u32, usize)> {
    top_k(scored(query, sigs, 0), larger(options.coarse_k as nat, k))
}

/// The events that the nearest documents of the coarse scan belong to.
pub open spec fn candidates_of(
    catalog: EventCatalog,
    coarse: Seq<(u32, usize)>,
    k: nat,
    options: SearchOptions,
) -> Seq<EventId> {
    first_events(
        catalog,
        at_most(coarse, larger(4 * k, 1)),
        larger(options.max_candidate_events as nat, 1),
    )
}

/// What a search finds. With more than one event in the catalog, the result
/// is the nearest documents of the candidate events. It is the beginning of
/// the coarse scan when there is nothing to choose from, or the candidate
/// events have no documents.
pub open spec fn search_of(
    sigs: Seq<BinarySignature>,
    catalog: EventCatalog,
    query: BinarySignature,
    k: nat,
    options: SearchOptions,
) -> Search {
    let coarse = coarse_scan(sigs, query, k, options);
    let candidates = if catalog@.len() <= 1 {
        Seq::empty()
    } else {
        candidates_of(catalog, coarse, k, options)
    };
    let scope = catalog.union_of(candidates);
    if k == 0 || sigs.len() == 0 {
        no_search()
    } else if catalog@.len() <= 1 || scope.len() == 0 {
        Search {
            results: at_most(coarse, k),
            coarse_results: coarse,
            candidate_events: candidates,
            shard_scope_size: sigs.len(),
            used_shards: false,
        }
    } else {
        Search {
            results: top_k(scored_scope(query, sigs, scope), k),
            coarse_results: coarse,
            candidate_events: candidates,
            shard_scope_size: scope.len(),
            used_shards: true,
        }
    }
}

/// The beginning of a list of pairs.
pub(crate) fn first_pairs(pairs: &[(u32, usize)], k: usize) -> (r: Vec<(u32, usize)>)
    ensures
        r@ == at_most(pairs@, k as nat),
{
    let n: usize = if pairs.len() <= k {
        pairs.len()
    } else {
        k
    };
    assert(pairs@.subrange(0, n as int) =~= at_most(pairs@, k as nat));
    slice_to_vec(slice_subrange(pairs, 0, n))
}

/// Signatures together with the catalog of the events of their documents.
pub struct HierarchicalIndex {
    signatures: SignatureIndex,
    events: EventCatalog,
}

impl HierarchicalIndex {
    pub closed spec fn sigs(&self) -> Seq<BinarySignature> {
        self.signatures@
    }

    pub closed spec fn catalog(&self) -> EventCatalog {
        self.events
    }

    pub open spec fn wf(&self) -> bool {
        self.catalog().wf()
    }

    pub fn new(signatures: SignatureIndex, events: EventCatalog) -> (index: Self)
        requires
            events.wf(),
        ensures
            index.wf(),
            index.sigs() == signatures@,
            index.catalog() == events,
    {
        HierarchicalIndex { signatures, events }
    }

    pub fn signatures(&self) -> (signatures: &SignatureIndex)
        ensures
            signatures@ == self.sigs(),
    {
        &self.signatures
    }

    pub fn events(&self) -> (events: &EventCatalog)
        ensures
            *events == self.catalog(),
    {
        &self.events
    }

    /// Number of documents.
    pub fn len(&self) -> (n: usize)
        ensures
            n == self.sigs().len(),
    {
        self.signatures.len()
    }

    pub fn is_empty(&self) -> (b: bool)
        ensures
            b == (self.sigs().len() == 0),
    {
        self.signatures.is_empty()
    }

    /// Search for the `top_k` nearest documents.
    pub fn search(&self, query: &BinarySignature, top_k: usize, options: &SearchOptions) -> (r:
        SearchResult)
        requires
            self.wf(),
        ensures
            r@ == search_of(self.sigs(), self.catalog(), *query, top_k as nat, *options),
    {
        if top_k == 0 || self.signatures.is_empty() {
            return SearchResult::default();
        }
        let len: usize = self.signatures.len();
        let wanted: usize = if options.coarse_k >= top_k {
            options.coarse_k
        } else {
            top_k
        };
        let coarse_k: usize = if wanted <= len {
            wanted
        } else {
            len
        };
        let coarse_results = if options.parallel {
            self.signatures.scan_top_k_parallel(query, coarse_k)
        } else {
            self.signatures.scan_top_k(query, coarse_k)
        };
        proof {
            let all = scored(*query, self.sigs(), 0);
            lemma_sorted_candidates(all);
            assert(crate::heap::sorted_candidates(all).take(len as int)
                =~= crate::heap::sorted_candidates(all));
            assert(coarse_results@ == coarse_scan(self.sigs(), *query, top_k as nat, *options));
        }
        if self.events.len() <= 1 {
            let result = SearchResult {
                results: first_pairs(coarse_results.as_slice(), top_k),
                coarse_results,
                candidate_events: Vec::new(),
                shard_scope_size: len,
                used_shards: false,
            };
            return result;
        }
        let seed_limit: usize = if top_k <= usize::MAX / 4 {
            4 * top_k
        } else {
            usize::MAX
        };
        let seed = first_pairs(coarse_results.as_slice(), seed_limit);
        assert(seed@ == at_most(coarse_results@, crate::shards::larger(4 * top_k as nat, 1)));
        let candidate_events = self.events.candidate_events_from_docs(
            seed.as_slice(),
            options.max_candidate_events,
        );
        let scope = self.events.union_scope(candidate_events.as_slice());
        if scope.len() == 0 {
            let result = SearchResult {
                results: first_pairs(coarse_results.as_slice(), top_k),
                coarse_results,
                candidate_events,
                shard_scope_size: len,
                used_shards: false,
            };
            return result;
        }
        let results = if options.parallel {
            self.signatures.scan_top_k_subset_parallel(query, scope.as_slice(), top_k)
        } else {
            self.signatures.scan_top_k_subset(query, scope.as_slice(), top_k)
        };
        SearchResult {
            results,
            coarse_results,
            candidate_events,
            shard_scope_size: scope.len(),
            used_shards: true,
        }
    }
}

/// A search that does not narrow down to events finds the nearest documents
/// of the whole corpus, however many the coarse scan looks at.
pub proof fn lemma_unsharded_search_exact(
    sigs: Seq<BinarySignature>,
    catalog: EventCatalog,
    query: BinarySignature,
    k: nat,
    options: SearchOptions,
)
    ensures
        ({
            let found = search_of(sigs, catalog, query, k, options);
            !found.used_shards ==> found.results == top_k(scored(query, sigs, 0), k)
        }),
{
    let all = scored(query, sigs, 0);
    lemma_sorted_candidates(all);
    let sorted = crate::heap::sorted_candidates(all);
    let coarse = coarse_scan(sigs, query, k, options);
    assert(at_most(coarse, k) =~= at_most(sorted, k));
    assert(k == 0 || sigs.len() == 0 ==> at_most(sorted, k) =~= Seq::empty());
}

/// A search gives no more than was asked for, nearest first, and each document
/// with its own distance.
pub proof fn lemma_search_results(
    sigs: Seq<BinarySignature>,
    catalog: EventCatalog,
    query: BinarySignature,
    k: nat,
    options: SearchOptions,
)
    requires
        sigs.len() <= usize::MAX,
    ensures
        ({
            let results = search_of(sigs, catalog, query, k, options).results;
            &&& results.len() <= k
            &&& ascending(results)
            &&& forall|i: int|
                0 <= i < results.len() ==> (#[trigger] results[i]).1 < sigs.len() && results[i].0
                    == hamming(query, sigs[results[i].1 as int])
        }),
{
    let found = search_of(sigs, catalog, query, k, options);
    lemma_unsharded_search_exact(sigs, catalog, query, k, options);
    if found.used_shards {
        let coarse = coarse_scan(sigs, query, k, options);
        let scope = catalog.union_of(candidates_of(catalog, coarse, k, options));
        lemma_sorted_candidates(scored_scope(query, sigs, scope));
        assert forall|i: int| 0 <= i < found.results.len() implies (
        #[trigger] found.results[i]).1 < sigs.len() && found.results[i].0 == hamming(
            query,
            sigs[found.results[i].1 as int],
        ) by {
            lemma_scope_results(query, sigs, scope, k, i);
        }
    } else {
        let all = scored(query, sigs, 0);
        lemma_sorted_candidates(all);
        assert forall|i: int| 0 <= i < found.results.len() implies (
        #[trigger] found.results[i]).1 < sigs.len() && found.results[i].0 == hamming(
            query,
            sigs[found.results[i].1 as int],
        ) by {
            lemma_top_k_member(all, k, i);
            let j = choose|j: int| 0 <= j < all.len() && all[j] == found.results[i];
            lemma_hamming_bound(query, sigs[j]);
        }
    }
}

/// What a search looks at. The coarse scan finds as many of the nearest documents as
/// the options or the caller ask for, whichever is more. The candidates are events of
/// the first four times `k` of these. Such an event is left out only where there are
/// as many candidates as the options allow.
pub proof fn lemma_search_candidates(
    sigs: Seq<BinarySignature>,
    catalog: EventCatalog,
    query: BinarySignature,
    k: nat,
    options: SearchOptions,
)
    requires
        catalog.wf(),
        k > 0,
        sigs.len() > 0,
    ensures
        ({
            let found = search_of(sigs, catalog, query, k, options);
            let (coarse, events) = (found.coarse_results, found.candidate_events);
            let most = if options.max_candidate_events == 0 {
                1
            } else {
                options.max_candidate_events as nat
            };
            &&& coarse == top_k(
                scored(query, sigs, 0),
                if options.coarse_k >= k {
                    options.coarse_k as nat
                } else {
                    k
                },
            )
            &&& catalog@.len() <= 1 ==> events.len() == 0
            &&& events.len() <= most
            &&& forall|i: int, j: int|
                0 <= i < j < events.len() ==> #[trigger] events[i] != #[trigger] events[j]
            &&& forall|i: int|
                0 <= i < events.len() ==> exists|j: int|
                    0 <= j < 4 * k && j < coarse.len() && catalog.event_of((#[trigger] coarse[j]).1)
                        == Some(#[trigger] events[i])
            &&& catalog@.len() > 1 ==> forall|j: int, e: EventId|
                0 <= j < 4 * k && j < coarse.len() && catalog.event_of((#[trigger] coarse[j]).1)
                    == Some(e) ==> #[trigger] events.contains(e) || events.len() == most
        }),
{
    let found = search_of(sigs, catalog, query, k, options);
    let coarse = found.coarse_results;
    let docs = at_most(coarse, larger(4 * k, 1));
    let most = larger(options.max_candidate_events as nat, 1);
    lemma_events_of_documents(catalog, docs, most);
    assert(forall|j: int| 0 <= j < docs.len() ==> #[trigger] docs[j] == coarse[j]);
    if catalog@.len() > 1 {
        let events = found.candidate_events;
        assert forall|i: int| 0 <= i < events.len() implies exists|j: int|
            0 <= j < 4 * k && j < coarse.len() && catalog.event_of((#[trigger] coarse[j]).1)
                == Some(
                #[trigger] events[i],
            ) by {
            let j = choose|j: int|
                0 <= j < docs.len() && catalog.event_of((#[trigger] docs[j]).1) == Some(events[i]);
            assert(coarse[j] == docs[j]);
        }
        assert forall|j: int, e: EventId|
            0 <= j < 4 * k && j < coarse.len() && catalog.event_of((#[trigger] coarse[j]).1)
                == Some(e) implies #[trigger] events.contains(e) || events.len() == most by {
            assert(docs[j] == coarse[j]);
        }
    }
}

/// The candidates of a search come in the order of their nearest documents: the event
/// of a document of the coarse scan that is not among the first `i + 1` candidates has
/// a document of the candidate at place `i` before it.
pub proof fn lemma_candidates_nearest_first(
    sigs: Seq<BinarySignature>,
    catalog: EventCatalog,
    query: BinarySignature,
    k: nat,
    options: SearchOptions,
    i: int,
    j: int,
)
    requires
        k > 0,
        ({
            let found = search_of(sigs, catalog, query, k, options);
            let (coarse, events) = (found.coarse_results, found.candidate_events);
            &&& 0 <= i < events.len()
            &&& 0 <= j < 4 * k && j < coarse.len()
            &&& catalog.event_of(coarse[j].1) is Some
            &&& forall|p: int|
                0 <= p <= i ==> catalog.event_of(coarse[j].1) != Some(#[trigger] events[p])
        }),
    ensures
        ({
            let found = search_of(sigs, catalog, query, k, options);
            exists|h: int|
                0 <= h < j && catalog.event_of((#[trigger] found.coarse_results[h]).1) == Some(
                    found.candidate_events[i],
                )
        }),
{
    let found = search_of(sigs, catalog, query, k, options);
    let coarse = found.coarse_results;
    let docs = at_most(coarse, larger(4 * k, 1));
    let most = larger(options.max_candidate_events as nat, 1);
    assert(docs[j] == coarse[j]);
    lemma_events_in_order_of_documents(catalog, docs, most, i, j);
    let h = choose|h: int|
        0 <= h < j && catalog.event_of((#[trigger] docs[h]).1) == Some(found.candidate_events[i]);
    assert(coarse[h] == docs[h]);
}

/// What a search finds. Where a candidate event lists a document, the results are the
/// nearest of all the documents that the candidate events list, and none of these is
/// left out but for as many nearer ones as asked for. Otherwise they are the nearest
/// of all documents.
pub proof fn lemma_search_finds_the_nearest(
    sigs: Seq<BinarySignature>,
    catalog: EventCatalog,
    query: BinarySignature,
    k: nat,
    options: SearchOptions,
)
    requires
        k > 0,
        0 < sigs.len() <= usize::MAX,
    ensures
        ({
            let found = search_of(sigs, catalog, query, k, options);
            let (r, events) = (found.results, found.candidate_events);
            &&& found.used_shards <==> exists|i: int|
                0 <= i < events.len() && (#[trigger] events[i]).0 < catalog@.len()
                    && catalog@[events[i].0 as int].1.len() > 0
            &&& !found.used_shards ==> r == top_k(scored(query, sigs, 0), k)
                && found.shard_scope_size == sigs.len()
            &&& r.len() <= k
            &&& forall|i: int|
                0 <= i < r.len() ==> (#[trigger] r[i]).1 < sigs.len() && r[i].0 == hamming(
                    query,
                    sigs[r[i].1 as int],
                )
            &&& forall|i: int, j: int|
                0 <= i < j < r.len() ==> (#[trigger] r[i]).0 < (#[trigger] r[j]).0 || (r[i].0
                    == r[j].0 && r[i].1 < r[j].1)
            &&& found.used_shards ==> forall|i: int|
                0 <= i < r.len() ==> exists|h: int|
                    0 <= h < events.len() && (#[trigger] events[h]).0 < catalog@.len()
                        && catalog@[events[h].0 as int].1.contains((#[trigger] r[i]).1)
            &&& forall|h: int, d: usize|
                0 <= h < events.len() && (#[trigger] events[h]).0 < catalog@.len()
                    && #[trigger] catalog@[events[h].0 as int].1.contains(d) && d < sigs.len()
                    ==> r.contains((hamming(query, sigs[d as int]) as u32, d)) || (r.len() == k
                    && forall|i: int|
                    0 <= i < r.len() ==> (#[trigger] r[i]).0 < hamming(query, sigs[d as int]) || (
                    r[i].0 == hamming(query, sigs[d as int]) && r[i].1 < d))
        }),
{
    let found = search_of(sigs, catalog, query, k, options);
    let (r, events) = (found.results, found.candidate_events);
    let scope = catalog.union_of(events);
    lemma_union_of(catalog, events);
    lemma_unsharded_search_exact(sigs, catalog, query, k, options);
    lemma_search_results(sigs, catalog, query, k, options);
    if exists|i: int|
        0 <= i < events.len() && (#[trigger] events[i]).0 < catalog@.len()
            && catalog@[events[i].0 as int].1.len() > 0 {
        let i = choose|i: int|
            0 <= i < events.len() && (#[trigger] events[i]).0 < catalog@.len()
                && catalog@[events[i].0 as int].1.len() > 0;
        let d = catalog@[events[i].0 as int].1[0];
        assert(catalog@[events[i].0 as int].1.contains(d));
        assert(scope.contains(d));
    }
    if found.used_shards {
        assert(scope.contains(scope[0]));
        lemma_scope_scan_finds_the_nearest(query, sigs, scope, k);
        assert forall|i: int| 0 <= i < r.len() implies exists|h: int|
            0 <= h < events.len() && (#[trigger] events[h]).0 < catalog@.len()
                && catalog@[events[h].0 as int].1.contains((#[trigger] r[i]).1) by {
            assert(scope.contains(r[i].1));
        }
        assert forall|h: int, d: usize|
            0 <= h < events.len() && (#[trigger] events[h]).0 < catalog@.len()
                && #[trigger] catalog@[events[h].0 as int].1.contains(d) && d
                < sigs.len() implies r.contains((hamming(query, sigs[d as int]) as u32, d)) || (
        r.len() == k && forall|i: int|
            0 <= i < r.len() ==> (#[trigger] r[i]).0 < hamming(query, sigs[d as int]) || (r[i].0
                == hamming(query, sigs[d as int]) && r[i].1 < d)) by {
            assert(scope.contains(d));
        }
    } else {
        lemma_scan_finds_the_nearest(query, sigs, k);
    }
}

/// A search misses nothing: where the first four times `k` documents of the coarse
/// scan belong to no more events than the options allow, each of them that has an
/// event is searched.
pub proof fn lemma_search_covers_the_nearest(
    sigs: Seq<BinarySignature>,
    catalog: EventCatalog,
    query: BinarySignature,
    k: nat,
    options: SearchOptions,
    events: Seq<EventId>,
    j: int,
)
    requires
        catalog.wf(),
        catalog@.len() > 1,
        k > 0,
        sigs.len() > 0,
        events.len() <= options.max_candidate_events || events.len() <= 1,
        ({
            let coarse = search_of(sigs, catalog, query, k, options).coarse_results;
            &&& forall|h: int|
                0 <= h < 4 * k && h < coarse.len() ==> (catalog.event_of((#[trigger] coarse[h]).1)
                    matches Some(e) ==> events.contains(e))
            &&& 0 <= j < 4 * k && j < coarse.len()
            &&& catalog.event_of(coarse[j].1) is Some
        }),
    ensures
        ({
            let found = search_of(sigs, catalog, query, k, options);
            let doc = found.coarse_results[j].1;
            &&& found.used_shards
            &&& exists|i: int|
                0 <= i < found.candidate_events.len() && (#[trigger] found.candidate_events[i]).0
                    < catalog@.len()
                    && catalog@[found.candidate_events[i].0 as int].1.contains(doc)
        }),
{
    let found = search_of(sigs, catalog, query, k, options);
    let (coarse, r) = (found.coarse_results, found.candidate_events);
    let doc = coarse[j].1;
    let e = catalog.event_of(doc)->0;
    lemma_search_candidates(sigs, catalog, query, k, options);
    if !r.contains(e) {
        let more = r.push(e);
        assert(more.no_duplicates());
        more.unique_seq_to_set();
        vstd::seq_lib::seq_to_set_is_finite(events);
        events.lemma_cardinality_of_set();
        assert(more.to_set().subset_of(events.to_set())) by {
            assert forall|x: EventId| more.contains(x) implies events.contains(x) by {
                let i = choose|i: int| 0 <= i < more.len() && more[i] == x;
                if i < r.len() {
                    assert(r[i] == x);
                    let h = choose|h: int|
                        0 <= h < 4 * k && h < coarse.len() && catalog.event_of(
                            (#[trigger] coarse[h]).1,
                        ) == Some(r[i]);
                    assert(events.contains(x));
                } else {
                    assert(coarse[j].1 == doc);
                }
            }
        }
        vstd::set_lib::lemma_len_subset(more.to_set(), events.to_set());
    }
    let i = choose|i: int| 0 <= i < r.len() && r[i] == e;
    if doc >= catalog.corpus_len() {
        lemma_no_event_outside(catalog, doc);
    }
    lemma_event_of(catalog, doc, 0);
    assert(r[i].0 < catalog@.len() && catalog@[r[i].0 as int].1.contains(doc));
    lemma_union_of(catalog, r);
    assert(catalog.union_of(r).contains(doc));
}

/// A search is exact where, besides, the nearest documents all have an event: its
/// results are the nearest documents of the whole corpus.
pub proof fn lemma_search_is_exact(
    sigs: Seq<BinarySignature>,
    catalog: EventCatalog,
    query: BinarySignature,
    k: nat,
    options: SearchOptions,
    events: Seq<EventId>,
)
    requires
        catalog.wf(),
        sigs.len() <= usize::MAX,
        events.len() <= options.max_candidate_events || events.len() <= 1,
        ({
            let coarse = search_of(sigs, catalog, query, k, options).coarse_results;
            &&& forall|h: int|
                0 <= h < 4 * k && h < coarse.len() ==> (catalog.event_of((#[trigger] coarse[h]).1)
                    matches Some(e) ==> events.contains(e))
            &&& forall|h: int|
                0 <= h < k && h < coarse.len() ==> catalog.event_of(
                    (#[trigger] coarse[h]).1,
                ) is Some
        }),
    ensures
        search_of(sigs, catalog, query, k, options).results == top_k(scored(query, sigs, 0), k),
{
    let found = search_of(sigs, catalog, query, k, options);
    lemma_unsharded_search_exact(sigs, catalog, query, k, options);
    if found.used_shards {
        let all = scored(query, sigs, 0);
        let best = top_k(all, k);
        let coarse = found.coarse_results;
        let scope = catalog.union_of(found.candidate_events);
        lemma_search_candidates(sigs, catalog, query, k, options);
        lemma_union_of(catalog, found.candidate_events);
        lemma_sorted_candidates(all);
        assert forall|i: int| 0 <= i < best.len() implies scope.contains(
            (#[trigger] best[i]).1,
        ) by {
            assert(best[i] == coarse[i]);
            lemma_search_covers_the_nearest(sigs, catalog, query, k, options, events, i);
        }
        lemma_scope_of_the_nearest_is_enough(query, sigs, scope, k);
    }
}

/// How many documents a search looks at: those that its candidate events list, where it
/// goes by them; otherwise all, and none where nothing can be found.
pub proof fn lemma_scope_size(
    sigs: Seq<BinarySignature>,
    catalog: EventCatalog,
    query: BinarySignature,
    k: nat,
    options: SearchOptions,
)
    ensures
        ({
            let found = search_of(sigs, catalog, query, k, options);
            let listed = catalog.union_of(found.candidate_events).len();
            &&& k == 0 || sigs.len() == 0 ==> found.shard_scope_size == 0 && !found.used_shards
                && found.results.len() == 0 && found.candidate_events.len() == 0
            &&& k > 0 && sigs.len() > 0 ==> (found.used_shards <==> catalog@.len() > 1 && listed
                > 0)
            &&& found.used_shards ==> found.shard_scope_size == listed
            &&& k > 0 && sigs.len() > 0 && !found.used_shards ==> found.shard_scope_size
                == sigs.len()
        }),
{
}

} // verus!
