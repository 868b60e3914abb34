//! Named events and the documents that belong to them.

use vstd::prelude::*;
use vstd::slice::slice_to_vec;

use crate::named_scope::{names_ascending, NamedScope};
use crate::sorting::{lemma_sorted_distinct, sort_distinct, sorted_distinct, strictly_ascending};
use crate::state::EventId;

verus! {

/// The event of a document: the last one that lists it.
pub open spec fn event_listing(
    entries: Seq<(Seq<char>, Seq<usize>)>,
    doc: usize,
) -> Option<EventId>
    decreases entries.len(),
{
    if entries.len() == 0 {
        None
    } else if entries.last().1.contains(doc) {
        Some(EventId((entries.len() - 1) as u32))
    } else {
        event_listing(entries.drop_last(), doc)
    }
}

/// The documents of the events, event after event. An event that is not in
/// the catalog has none.
pub open spec fn listed_docs(
    entries: Seq<(Seq<char>, Seq<usize>)>,
    events: Seq<EventId>,
) -> Seq<usize>
    decreases events.len(),
{
    if events.len() == 0 {
        Seq::empty()
    } else {
        let before = listed_docs(entries, events.drop_last());
        let event = events.last();
        if event.0 < entries.len() {
            before + entries[event.0 as int].1
        } else {
            before
        }
    }
}

/// The events of the documents, each once, in the order in which they first
/// occur, and no more than `limit` of them.
pub open spec fn first_events(
    catalog: EventCatalog,
    docs: Seq<(u32, usize)>,
    limit: nat,
) -> Seq<EventId>
    decreases docs.len(),
{
    if docs.len() == 0 {
        Seq::empty()
    } else {
        let before = first_events(catalog, docs.drop_last(), limit);
        match catalog.event_of(docs.last().1) {
            Some(event) => if before.len() < limit && !before.contains(event) {
                before.push(event)
            } else {
                before
            },
            None => before,
        }
    }
}

/// A document's event lists it, and no later event does.
pub proof fn lemma_event_listing(entries: Seq<(Seq<char>, Seq<usize>)>, doc: usize)
    requires
        entries.len() <= 0x1_0000_0000,
    ensures
        event_listing(entries, doc) matches Some(event) ==> event.0 < entries.len()
            && entries[event.0 as int].1.contains(doc) && forall|i: int|
            event.0 < i < entries.len() ==> !(#[trigger] entries[i]).1.contains(doc),
        event_listing(entries, doc) is None ==> forall|i: int|
            0 <= i < entries.len() ==> !(#[trigger] entries[i]).1.contains(doc),
    decreases entries.len(),
{
    if entries.len() > 0 && !entries.last().1.contains(doc) {
        lemma_event_listing(entries.drop_last(), doc);
        assert forall|i: int|
            (event_listing(entries, doc) matches Some(event) ==> event.0 < i) && 0 <= i
                < entries.len() implies !(
        #[trigger] entries[i]).1.contains(doc) by {
            if i < entries.len() - 1 {
                assert(entries[i] == entries.drop_last()[i]);
            }
        }
    }
}

/// A document is in the union of the scopes of some events exactly when one
/// of the events lists it.
pub proof fn lemma_union_member(
    entries: Seq<(Seq<char>, Seq<usize>)>,
    events: Seq<EventId>,
    doc: usize,
)
    ensures
        sorted_distinct(listed_docs(entries, events)).contains(doc) <==> exists|i: int|
            0 <= i < events.len() && (#[trigger] events[i]).0 < entries.len()
                && entries[events[i].0 as int].1.contains(doc),
{
    lemma_sorted_distinct(listed_docs(entries, events));
    lemma_listed_member(entries, events, doc);
}

proof fn lemma_listed_member(
    entries: Seq<(Seq<char>, Seq<usize>)>,
    events: Seq<EventId>,
    doc: usize,
)
    ensures
        listed_docs(entries, events).contains(doc) <==> exists|i: int|
            0 <= i < events.len() && (#[trigger] events[i]).0 < entries.len()
                && entries[events[i].0 as int].1.contains(doc),
    decreases events.len(),
{
    let all = listed_docs(entries, events);
    if events.len() > 0 {
        let init = events.drop_last();
        let before = listed_docs(entries, init);
        let event = events.last();
        lemma_listed_member(entries, init, doc);
        let here = if event.0 < entries.len() {
            entries[event.0 as int].1
        } else {
            Seq::empty()
        };
        assert(all =~= before + here);
        if all.contains(doc) {
            let k = choose|k: int| 0 <= k < all.len() && all[k] == doc;
            if k < before.len() {
                assert(before[k] == doc);
                assert(before.contains(doc));
                let i = choose|i: int|
                    0 <= i < init.len() && (#[trigger] init[i]).0 < entries.len()
                        && entries[init[i].0 as int].1.contains(doc);
                assert(events[i] == init[i]);
            } else {
                assert(here[k - before.len()] == doc);
                assert(events[events.len() - 1] == event);
            }
        }
        if exists|i: int|
            0 <= i < events.len() && (#[trigger] events[i]).0 < entries.len()
                && entries[events[i].0 as int].1.contains(doc) {
            let i = choose|i: int|
                0 <= i < events.len() && (#[trigger] events[i]).0 < entries.len()
                    && entries[events[i].0 as int].1.contains(doc);
            if i < init.len() {
                assert(init[i] == events[i]);
                assert(before.contains(doc));
                let k = choose|k: int| 0 <= k < before.len() && before[k] == doc;
                assert(all[k] == doc);
            } else {
                let k = choose|k: int| 0 <= k < here.len() && here[k] == doc;
                assert(all[before.len() + k] == doc);
            }
        }
    }
}

/// Once the limit is reached nothing is added.
proof fn lemma_first_events_full(
    catalog: EventCatalog,
    docs: Seq<(u32, usize)>,
    limit: nat,
    i: int,
)
    requires
        0 <= i <= docs.len(),
        first_events(catalog, docs.take(i), limit).len() >= limit,
    ensures
        first_events(catalog, docs, limit) == first_events(catalog, docs.take(i), limit),
    decreases docs.len(),
{
    if i < docs.len() {
        assert(docs.drop_last().take(i) =~= docs.take(i));
        lemma_first_events_full(catalog, docs.drop_last(), limit, i);
    } else {
        assert(docs.take(i) =~= docs);
    }
}

/// The events that are found are distinct events of the catalog, and no more
/// than asked for.
pub proof fn lemma_first_events(catalog: EventCatalog, docs: Seq<(u32, usize)>, limit: nat)
    requires
        catalog.wf(),
    ensures
        first_events(catalog, docs, limit).len() <= limit,
        first_events(catalog, docs, limit).no_duplicates(),
        forall|i: int|
            0 <= i < first_events(catalog, docs, limit).len() ==> (#[trigger] first_events(
                catalog,
                docs,
                limit,
            )[i]).0 < catalog@.len(),
    decreases docs.len(),
{
    if docs.len() > 0 {
        lemma_first_events(catalog, docs.drop_last(), limit);
        lemma_event_listing(catalog@, docs.last().1);
    }
}

/// Events by name and by number, with the documents that belong to each. An
/// event's number is the place of its name in the order of the names.
#[derive(Debug)]
pub struct EventCatalog {
    scope: NamedScope,
    event_for_doc: Vec<Option<EventId>>,
}

impl View for EventCatalog {
    type V = Seq<(Seq<char>, Seq<usize>)>;

    closed spec fn view(&self) -> Seq<(Seq<char>, Seq<usize>)> {
        self.scope@
    }
}

impl EventCatalog {
    /// Number of documents in the corpus.
    pub closed spec fn corpus_len(&self) -> nat {
        self.event_for_doc@.len()
    }

    /// The event of a document of the corpus.
    pub open spec fn event_of(&self, doc: usize) -> Option<EventId> {
        if doc < self.corpus_len() {
            event_listing(self@, doc)
        } else {
            None
        }
    }

    /// The union of the scopes of the events.
    pub open spec fn union_of(&self, events: Seq<EventId>) -> Seq<usize> {
        sorted_distinct(listed_docs(self@, events))
    }

    /// Event numbers suffice, and every document knows its event.
    pub closed spec fn wf(&self) -> bool {
        &&& self.scope.wf()
        &&& self.scope@.len() <= 0x1_0000_0000
        &&& forall|i: int|
            0 <= i < self.event_for_doc@.len() ==> #[trigger] self.event_for_doc@[i]
                == event_listing(self.scope@, i as usize)
    }

    /// The names are in ascending order and can be numbered.
    pub proof fn lemma_wf(&self)
        requires
            self.wf(),
        ensures
            names_ascending(self@),
            self@.len() <= 0x1_0000_0000,
    {
    }

    pub fn from_named_scope(scope: &NamedScope, corpus_len: usize) -> (catalog: Self)
        requires
            scope.wf(),
            scope@.len() <= 0x1_0000_0000,
        ensures
            catalog.wf(),
            catalog@ == scope@,
            catalog.corpus_len() == corpus_len,
    {
        let mut event_for_doc: Vec<Option<EventId>> = Vec::new();
        let mut i: usize = 0;
        while i < corpus_len
            invariant
                i <= corpus_len,
                event_for_doc@.len() == i,
                forall|d: int| 0 <= d < i ==> event_for_doc@[d] == None::<EventId>,
            decreases corpus_len - i,
        {
            event_for_doc.push(None);
            i = i + 1;
        }
        let mut e: usize = 0;
        assert(scope@.take(0) =~= Seq::empty());
        while e < scope.len()
            invariant
                e <= scope@.len() <= 0x1_0000_0000,
                event_for_doc@.len() == corpus_len,
                forall|d: int|
                    0 <= d < corpus_len ==> #[trigger] event_for_doc@[d] == event_listing(
                        scope@.take(e as int),
                        d as usize,
                    ),
            decreases scope@.len() - e,
        {
            let indices = scope.indices(e);
            let ghost before = event_for_doc@;
            let mut k: usize = 0;
            while k < indices.len()
                invariant
                    k <= indices@.len(),
                    e < 0x1_0000_0000,
                    event_for_doc@.len() == before.len() == corpus_len,
                    forall|d: int|
                        0 <= d < corpus_len ==> #[trigger] event_for_doc@[d] == if indices@.take(
                            k as int,
                        ).contains(d as usize) {
                            Some(EventId(e as u32))
                        } else {
                            before[d]
                        },
                decreases indices@.len() - k,
            {
                let idx: usize = indices[k];
                let ghost done = indices@.take(k as int);
                let ghost seen = event_for_doc@;
                if idx < event_for_doc.len() {
                    event_for_doc[idx] = Some(EventId(e as u32));
                }
                k = k + 1;
                proof {
                    assert(indices@.take(k as int) =~= done.push(idx));
                    assert forall|d: int| 0 <= d < corpus_len implies #[trigger] event_for_doc@[d]
                        == if indices@.take(k as int).contains(d as usize) {
                        Some(EventId(e as u32))
                    } else {
                        before[d]
                    } by {
                        assert(seen[d] == if done.contains(d as usize) {
                            Some(EventId(e as u32))
                        } else {
                            before[d]
                        });
                        assert(done.push(idx)[done.len() as int] == idx);
                        if done.contains(d as usize) {
                            let j = choose|j: int| 0 <= j < done.len() && done[j] == d as usize;
                            assert(done.push(idx)[j] == d as usize);
                        }
                    }
                }
            }
            assert(indices@.take(k as int) =~= indices@);
            assert(scope@.take(e + 1).drop_last() =~= scope@.take(e as int));
            e = e + 1;
        }
        assert(scope@.take(e as int) =~= scope@);
        EventCatalog { scope: scope.clone(), event_for_doc }
    }

    pub fn is_empty(&self) -> (b: bool)
        ensures
            b == (self@.len() == 0),
    {
        self.scope.len() == 0
    }

    /// Number of events.
    pub fn len(&self) -> (n: usize)
        ensures
            n == self@.len(),
    {
        self.scope.len()
    }

    pub fn event_id(&self, name: &str) -> (event: Option<EventId>)
        requires
            self.wf(),
        ensures
            event matches Some(event) ==> event.0 < self@.len() && self@[event.0 as int].0
                == name@,
            event is None ==> forall|i: int| 0 <= i < self@.len() ==> #[trigger] self@[i].0
                != name@,
    {
        match self.scope.position(name) {
            Some(p) => Some(EventId(p as u32)),
            None => None,
        }
    }

    pub fn event_name(&self, event: EventId) -> (name: Option<&str>)
        ensures
            name is Some <==> event.0 < self@.len(),
            name matches Some(name) ==> name@ == self@[event.0 as int].0,
    {
        let i: usize = event.0 as usize;
        if i < self.scope.len() {
            Some(self.scope.name(i))
        } else {
            None
        }
    }

    pub fn doc_event(&self, idx: usize) -> (event: Option<EventId>)
        requires
            self.wf(),
        ensures
            event == self.event_of(idx),
    {
        if idx < self.event_for_doc.len() {
            self.event_for_doc[idx]
        } else {
            None
        }
    }

    pub fn indices_for(&self, event: EventId) -> (indices: Option<&[usize]>)
        ensures
            indices is Some <==> event.0 < self@.len(),
            indices matches Some(indices) ==> indices@ == self@[event.0 as int].1,
    {
        let i: usize = event.0 as usize;
        if i < self.scope.len() {
            Some(self.scope.indices(i))
        } else {
            None
        }
    }

    /// The scopes of all events, by number.
    pub fn scope_map(&self) -> (scope: &NamedScope)
        ensures
            scope@ == self@,
    {
        &self.scope
    }

    /// The events of the documents, in the order in which they first occur.
    /// At least one event is taken, and otherwise no more than `limit`.
    pub fn candidate_events_from_docs(
        &self,
        docs: &[(u32, usize)],
        limit: usize,
    ) -> (events: Vec<EventId>)
        requires
            self.wf(),
        ensures
            events@ == first_events(
                *self,
                docs@,
                if limit == 0 {
                    1
                } else {
                    limit as nat
                },
            ),
    {
        let ghost most: nat = if limit == 0 {
            1
        } else {
            limit as nat
        };
        let mut out: Vec<EventId> = Vec::new();
        let mut i: usize = 0;
        while i < docs.len()
            invariant
                self.wf(),
                most == if limit == 0 {
                    1
                } else {
                    limit as nat
                },
                i <= docs@.len(),
                out@ == first_events(*self, docs@.take(i as int), most),
                out@.len() < most || out@.len() == 0,
            decreases docs@.len() - i,
        {
            assert(docs@.take(i + 1).drop_last() =~= docs@.take(i as int));
            match self.doc_event(docs[i].1) {
                Some(event) => if !contains_event(&out, event) {
                    out.push(event);
                    if out.len() >= limit {
                        proof {
                            lemma_first_events_full(*self, docs@, most, i + 1);
                        }
                        return out;
                    }
                },
                None => {},
            }
            i = i + 1;
        }
        assert(docs@.take(i as int) =~= docs@);
        out
    }

    /// The documents of the events in ascending order, each once.
    pub fn union_scope(&self, events: &[EventId]) -> (scope: Vec<usize>)
        ensures
            scope@ == self.union_of(events@),
            strictly_ascending(scope@),
    {
        let mut all: Vec<usize> = Vec::new();
        let mut i: usize = 0;
        while i < events.len()
            invariant
                i <= events@.len(),
                all@ == listed_docs(self@, events@.take(i as int)),
            decreases events@.len() - i,
        {
            assert(events@.take(i + 1).drop_last() =~= events@.take(i as int));
            match self.indices_for(events[i]) {
                Some(indices) => {
                    let mut more = slice_to_vec(indices);
                    all.append(&mut more);
                },
                None => {},
            }
            i = i + 1;
        }
        assert(events@.take(i as int) =~= events@);
        proof {
            lemma_sorted_distinct(all@);
        }
        sort_distinct(all)
    }

    /// The scopes by name: what the catalog was made from.
    pub fn named_scope(&self) -> (scope: NamedScope)
        requires
            self.wf(),
        ensures
            scope.wf(),
            scope@ == self@,
    {
        self.scope.clone()
    }
}

impl Default for EventCatalog {
    fn default() -> (catalog: Self)
        ensures
            catalog.wf(),
            catalog@.len() == 0,
            catalog.corpus_len() == 0,
    {
        EventCatalog { scope: NamedScope::new(), event_for_doc: Vec::new() }
    }
}

impl Clone for EventCatalog {
    fn clone(&self) -> (copy: Self)
        ensures
            copy@ == self@,
            copy.corpus_len() == self.corpus_len(),
            self.wf() ==> copy.wf(),
    {
        EventCatalog {
            scope: self.scope.clone(),
            event_for_doc: slice_to_vec(self.event_for_doc.as_slice()),
        }
    }
}

/// Whether `event` is among `events`.
pub(crate) fn contains_event(events: &Vec<EventId>, event: EventId) -> (b: bool)
    ensures
        b == events@.contains(event),
{
    let mut i: usize = 0;
    while i < events.len()
        invariant
            i <= events@.len(),
            forall|j: int| 0 <= j < i ==> events@[j] != event,
        decreases events@.len() - i,
    {
        if events[i] == event {
            return true;
        }
        i = i + 1;
    }
    false
}

/// The event of a document of the corpus is the last one that lists it. A document
/// that no event lists has none.
pub proof fn lemma_event_of(catalog: EventCatalog, doc: usize, e: int)
    requires
        catalog.wf(),
        doc < catalog.corpus_len(),
    ensures
        0 <= e < catalog@.len() && catalog@[e].1.contains(doc) && (forall|i: int|
            e < i < catalog@.len() ==> !(#[trigger] catalog@[i]).1.contains(doc))
            ==> catalog.event_of(doc) == Some(EventId(e as u32)),
        (forall|i: int| 0 <= i < catalog@.len() ==> !(#[trigger] catalog@[i]).1.contains(doc))
            ==> catalog.event_of(doc) is None,
        catalog.event_of(doc) matches Some(event) ==> event.0 < catalog@.len()
            && catalog@[event.0 as int].1.contains(doc),
{
    lemma_event_listing(catalog@, doc);
    match event_listing(catalog@, doc) {
        Some(event) => {
            assert(catalog@[event.0 as int].1.contains(doc));
            if 0 <= e < catalog@.len() && catalog@[e].1.contains(doc) && e != event.0 {
                assert(e < event.0);
            }
        },
        None => {},
    }
}

/// A document outside of the corpus has no event.
pub proof fn lemma_no_event_outside(catalog: EventCatalog, doc: usize)
    requires
        doc >= catalog.corpus_len(),
    ensures
        catalog.event_of(doc) is None,
{
}

/// The union of the scopes of some events holds exactly the documents that one of
/// them lists, each once and in ascending order.
pub proof fn lemma_union_of(catalog: EventCatalog, events: Seq<EventId>)
    ensures
        forall|i: int, j: int|
            0 <= i < j < catalog.union_of(events).len() ==> (#[trigger] catalog.union_of(events)[i])
                < (#[trigger] catalog.union_of(events)[j]),
        forall|doc: usize| #[trigger]
            catalog.union_of(events).contains(doc) <==> exists|i: int|
                0 <= i < events.len() && (#[trigger] events[i]).0 < catalog@.len()
                    && catalog@[events[i].0 as int].1.contains(doc),
{
    lemma_sorted_distinct(listed_docs(catalog@, events));
    assert forall|doc: usize| #[trigger]
        catalog.union_of(events).contains(doc) <==> exists|i: int|
            0 <= i < events.len() && (#[trigger] events[i]).0 < catalog@.len()
                && catalog@[events[i].0 as int].1.contains(doc) by {
        lemma_union_member(catalog@, events, doc);
    }
}

/// Which events some documents lead to: each is the event of one of them, and none
/// comes twice. An event of one of the documents is left out only where there are as
/// many as asked for, and an event comes before all events whose documents come later.
pub proof fn lemma_events_of_documents(catalog: EventCatalog, docs: Seq<(u32, usize)>, limit: nat)
    ensures
        ({
            let r = first_events(catalog, docs, limit);
            &&& r.len() <= limit
            &&& forall|i: int, j: int| 0 <= i < j < r.len() ==> #[trigger] r[i] != #[trigger] r[j]
            &&& forall|i: int|
                0 <= i < r.len() ==> exists|j: int|
                    0 <= j < docs.len() && catalog.event_of((#[trigger] docs[j]).1) == Some(
                        #[trigger] r[i],
                    )
            &&& forall|j: int, e: EventId|
                0 <= j < docs.len() && catalog.event_of((#[trigger] docs[j]).1) == Some(e)
                    ==> #[trigger] r.contains(e) || r.len() == limit
        }),
    decreases docs.len(),
{
    let r = first_events(catalog, docs, limit);
    if docs.len() > 0 {
        let init = docs.drop_last();
        let n = init.len() as int;
        let before = first_events(catalog, init, limit);
        lemma_events_of_documents(catalog, init, limit);
        let event = catalog.event_of(docs.last().1);
        assert forall|i: int| 0 <= i < before.len() implies exists|h: int|
            0 <= h < n && catalog.event_of((#[trigger] docs[h]).1) == Some(
                #[trigger] before[i],
            ) by {
            let j = choose|j: int|
                0 <= j < init.len() && catalog.event_of((#[trigger] init[j]).1) == Some(before[i]);
            assert(docs[j] == init[j]);
        }
        assert forall|i: int| 0 <= i < r.len() implies exists|j: int|
            0 <= j < docs.len() && catalog.event_of((#[trigger] docs[j]).1) == Some(
                #[trigger] r[i],
            ) by {
            if i < before.len() {
                assert(r[i] == before[i]);
            } else {
                assert(docs[n] == docs.last());
            }
        }
        assert forall|j: int, e: EventId|
            0 <= j < docs.len() && catalog.event_of((#[trigger] docs[j]).1) == Some(
                e,
            ) implies #[trigger] r.contains(e) || r.len() == limit by {
            if j < n {
                assert(docs[j] == init[j]);
                if before.contains(e) {
                    let i = choose|i: int| 0 <= i < before.len() && before[i] == e;
                    assert(r[i] == e);
                }
            } else if before.contains(e) {
                let i = choose|i: int| 0 <= i < before.len() && before[i] == e;
                assert(r[i] == e);
            } else if before.len() < limit {
                assert(r[before.len() as int] == e);
            }
        }
    }
}

/// Events come in the order of their documents: a document of an event that is not
/// among the first `i + 1` stands behind a document of the event at place `i`.
pub proof fn lemma_events_in_order_of_documents(
    catalog: EventCatalog,
    docs: Seq<(u32, usize)>,
    limit: nat,
    i: int,
    j: int,
)
    requires
        0 <= i < first_events(catalog, docs, limit).len(),
        0 <= j < docs.len(),
        catalog.event_of(docs[j].1) is Some,
        forall|p: int|
            0 <= p <= i ==> catalog.event_of(docs[j].1) != Some(
                #[trigger] first_events(catalog, docs, limit)[p],
            ),
    ensures
        exists|h: int|
            0 <= h < j && catalog.event_of((#[trigger] docs[h]).1) == Some(
                first_events(catalog, docs, limit)[i],
            ),
    decreases docs.len(),
{
    let r = first_events(catalog, docs, limit);
    let e = catalog.event_of(docs[j].1)->0;
    let init = docs.drop_last();
    let n = init.len() as int;
    let before = first_events(catalog, init, limit);
    lemma_events_of_documents(catalog, init, limit);
    if i < before.len() {
        assert(forall|p: int| 0 <= p <= i ==> #[trigger] before[p] == r[p]);
        let h = if j < n {
            assert(docs[j] == init[j]);
            lemma_events_in_order_of_documents(catalog, init, limit, i, j);
            choose|h: int|
                0 <= h < j && catalog.event_of((#[trigger] init[h]).1) == Some(before[i])
        } else {
            choose|h: int|
                0 <= h < n && catalog.event_of((#[trigger] init[h]).1) == Some(before[i])
        };
        assert(docs[h] == init[h]);
    } else if j < n {
        assert(docs[j] == init[j]);
        assert(before.contains(e));
        let p = choose|p: int| 0 <= p < before.len() && before[p] == e;
        assert(r[p] == e);
    } else {
        assert(r[i] == e);
    }
}

} // verus!
