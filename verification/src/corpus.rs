//! What an index is made of: the entries of a corpus, the manifest beside the
//! signatures, and the rows that a query prints.

use vstd::prelude::*;
use vstd::slice::slice_to_vec;

use crate::error::PrimdError;
use crate::events::EventCatalog;
use crate::hashed::{hashed_vector, signs_of, words_in, HashedEmbedder};
use crate::models::{EmbedderKind, LocalModelKind};
use crate::named_scope::{
    entry_of, lemma_entry_of, lemma_name_slot, lemma_position, lemma_with_entry, name_slot,
    names_ascending, with_entry, NamedScope,
};
use crate::quantize::{check_dimension, holds_signs};
use crate::signature::BinarySignature;
use crate::state::EventId;
use crate::text::{
    decimal, decimal_text, flush_left, flush_right, joined, pad_left, pad_right, same_text,
    texts_of,
};

verus! {

/// The seed of the projection of local embeddings.
pub const LOCAL_PROJECTION_SEED: u64 = 0xA17F_C0DE_B007_5EED;

/// A document of a corpus.
pub struct CorpusEntry {
    pub id: String,
    pub text: String,
    pub event: Option<String>,
}

/// What an index was made with, and what its documents are.
pub struct Manifest {
    pub embedder: EmbedderKind,
    pub dim: usize,
    pub use_bigrams: bool,
    pub openai_model: Option<String>,
    pub local_model: Option<LocalModelKind>,
    pub projection_seed: Option<u64>,
    pub source_dim: Option<usize>,
    pub n_entries: usize,
    pub ids: Vec<String>,
    /// The text of every document, or nothing.
    pub texts: Vec<String>,
    pub scope: NamedScope,
}

/// How an index is to be made.
pub struct IndexSettings {
    pub embedder: EmbedderKind,
    pub dim: usize,
    pub no_bigrams: bool,
    pub openai_model: Option<String>,
    pub local_model: LocalModelKind,
}

/// The name of the event of a document: its own, or the default.
pub open spec fn event_key(entry: CorpusEntry) -> Seq<char> {
    match entry.event {
        Some(name) => name@,
        None => "_default"@,
    }
}

/// The documents by event.
pub open spec fn grouped(entries: Seq<CorpusEntry>) -> Seq<(Seq<char>, Seq<usize>)>
    decreases entries.len(),
{
    if entries.len() == 0 {
        Seq::empty()
    } else {
        let before = grouped(entries.drop_last());
        let name = event_key(entries.last());
        with_entry(
            before,
            name,
            (match entry_of(before, name) {
                Some(docs) => docs,
                None => Seq::empty(),
            }).push((entries.len() - 1) as usize),
        )
    }
}

/// A document is listed under its event and under no other.
pub proof fn lemma_grouped(entries: Seq<CorpusEntry>, name: Seq<char>, doc: usize)
    requires
        entries.len() <= usize::MAX,
    ensures
        names_ascending(grouped(entries)),
        (entry_of(grouped(entries), name) is Some && entry_of(grouped(entries), name)->0.contains(
            doc,
        )) <==> doc < entries.len() && event_key(entries[doc as int]) == name,
    decreases entries.len(),
{
    if entries.len() > 0 {
        let init = entries.drop_last();
        let before = grouped(init);
        let key = event_key(entries.last());
        let last = (entries.len() - 1) as usize;
        lemma_grouped(init, name, doc);
        let old_docs = match entry_of(before, key) {
            Some(docs) => docs,
            None => Seq::empty(),
        };
        lemma_with_entry(before, key, old_docs.push(last), name);
        if doc < init.len() {
            assert(entries[doc as int] == init[doc as int]);
        }
        if name == key {
            let docs = old_docs.push(last);
            assert(docs[old_docs.len() as int] == last);
            if old_docs.contains(doc) {
                let i = choose|i: int| 0 <= i < old_docs.len() && old_docs[i] == doc;
                assert(docs[i] == doc);
            }
            if docs.contains(doc) && doc != last {
                let i = choose|i: int| 0 <= i < docs.len() && docs[i] == doc;
                assert(old_docs[i] == doc);
            }
        }
    }
}

/// The documents by event. Those without an event are in the default one.
pub fn group_by_event(entries: &Vec<CorpusEntry>) -> (scope: NamedScope)
    ensures
        scope.wf(),
        scope@ == grouped(entries@),
{
    let mut scope = NamedScope::new();
    let mut i: usize = 0;
    while i < entries.len()
        invariant
            i <= entries@.len(),
            scope.wf(),
            scope@ == grouped(entries@.take(i as int)),
        decreases entries@.len() - i,
    {
        assert(entries@.take(i + 1).drop_last() =~= entries@.take(i as int));
        match &entries[i].event {
            Some(name) => scope.push_index(name.as_str(), i),
            None => scope.push_index("_default", i),
        }
        i = i + 1;
    }
    assert(entries@.take(i as int) =~= entries@);
    scope
}

/// Only the dimension that needs no projection is supported.
pub fn check_index_dim(dim: usize) -> (r: Result<(), String>)
    ensures
        r is Ok <==> dim == 256,
        r matches Err(why) ==> why@ == "dim="@ + decimal_text(dim as nat)
            + " not yet supported; only 256 (direct quantize) is wired up"@,
{
    if dim == 256 {
        return Ok(());
    }
    let mut why = joined("dim=", decimal(dim as u64).as_str());
    why.append(" not yet supported; only 256 (direct quantize) is wired up");
    Err(why)
}

/// A corpus must not be empty.
pub fn check_entries(entries: &Vec<CorpusEntry>) -> (r: Result<(), String>)
    ensures
        r is Ok <==> entries@.len() > 0,
        r matches Err(why) ==> why@ == "input contained no entries"@,
{
    if entries.len() == 0 {
        Err("input contained no entries".to_owned())
    } else {
        Ok(())
    }
}

/// The ids of the documents.
pub open spec fn ids_of(entries: Seq<CorpusEntry>) -> Seq<Seq<char>> {
    entries.map_values(|e: CorpusEntry| e.id@)
}

/// The texts of the documents.
pub open spec fn bodies_of(entries: Seq<CorpusEntry>) -> Seq<Seq<char>> {
    entries.map_values(|e: CorpusEntry| e.text@)
}

/// The manifest of a corpus.
pub fn build_manifest(settings: IndexSettings, entries: &Vec<CorpusEntry>) -> (m: Manifest)
    ensures
        m.embedder == settings.embedder,
        m.dim == settings.dim,
        m.use_bigrams == !settings.no_bigrams,
        m.openai_model == settings.openai_model,
        if settings.embedder == EmbedderKind::Local {
            &&& m.local_model == Some(settings.local_model)
            &&& m.projection_seed == Some(LOCAL_PROJECTION_SEED)
            &&& m.source_dim == Some(
                match settings.local_model {
                    LocalModelKind::AllMinilm => 384usize,
                    LocalModelKind::BgeSmallEn => 384,
                    LocalModelKind::BgeBaseEn => 768,
                },
            )
        } else {
            &&& m.local_model is None
            &&& m.projection_seed is None
            &&& m.source_dim is None
        },
        m.n_entries == entries@.len(),
        texts_of(m.ids@) == ids_of(entries@),
        texts_of(m.texts@) == bodies_of(entries@),
        m.scope.wf(),
        m.scope@ == grouped(entries@),
{
    let mut ids: Vec<String> = Vec::new();
    let mut texts: Vec<String> = Vec::new();
    let mut i: usize = 0;
    while i < entries.len()
        invariant
            i <= entries@.len(),
            texts_of(ids@) =~= ids_of(entries@.take(i as int)),
            texts_of(texts@) =~= bodies_of(entries@.take(i as int)),
        decreases entries@.len() - i,
    {
        let ghost (old_ids, old_texts) = (ids@, texts@);
        ids.push(entries[i].id.clone());
        texts.push(entries[i].text.clone());
        i = i + 1;
        proof {
            assert(entries@.take(i as int) =~= entries@.take(i - 1).push(entries@[i - 1]));
            assert(texts_of(ids@) =~= texts_of(old_ids).push(entries@[i - 1].id@));
            assert(texts_of(texts@) =~= texts_of(old_texts).push(entries@[i - 1].text@));
        }
    }
    assert(entries@.take(i as int) =~= entries@);
    let scope = group_by_event(entries);
    let local = match settings.embedder {
        EmbedderKind::Local => true,
        _ => false,
    };
    let local_model = if local {
        Some(settings.local_model)
    } else {
        None
    };
    let projection_seed = if local {
        Some(LOCAL_PROJECTION_SEED)
    } else {
        None
    };
    let source_dim = if local {
        Some(settings.local_model.into_local().dim())
    } else {
        None
    };
    Manifest {
        embedder: settings.embedder,
        dim: settings.dim,
        use_bigrams: !settings.no_bigrams,
        openai_model: settings.openai_model,
        local_model,
        projection_seed,
        source_dim,
        n_entries: entries.len(),
        ids,
        texts,
        scope,
    }
}

/// The embedder of a hashed index.
pub fn hashed_embedder(dim: usize, use_bigrams: bool) -> (r: Result<HashedEmbedder, PrimdError>)
    ensures
        match r {
            Ok(e) => {
                &&& dim == 256
                &&& e.spec_dim() == 256
                &&& e.bands() == 4
                &&& e.spec_seed() == 0xC0DE_FACE_F00D_BEEF
                &&& e.uses_bigrams() == use_bigrams
                &&& e.drops_stopwords()
            },
            Err(e) => dim != 256 && e == (PrimdError::InvalidDimension { expected: 256, got: dim }),
        },
{
    check_dimension(256, dim)?;
    let e = HashedEmbedder::new(dim);
    if use_bigrams {
        Ok(e)
    } else {
        Ok(e.without_bigrams())
    }
}

/// The signatures of the texts of a hashed index.
pub fn embed_hashed(dim: usize, use_bigrams: bool, texts: &Vec<String>) -> (r: Result<
    Vec<BinarySignature>,
    PrimdError,
>)
    ensures
        match r {
            Ok(sigs) => {
                &&& dim == 256
                &&& sigs@.len() == texts@.len()
                &&& forall|i: int|
                    0 <= i < sigs@.len() ==> holds_signs(
                        #[trigger] sigs@[i],
                        signs_of(
                            hashed_vector(
                                256,
                                0xC0DE_FACE_F00D_BEEF,
                                4,
                                use_bigrams,
                                true,
                                words_in(texts@[i]@),
                            ),
                        ),
                    )
            },
            Err(e) => dim != 256 && e == (PrimdError::InvalidDimension { expected: 256, got: dim }),
        },
{
    let e = hashed_embedder(dim, use_bigrams)?;
    let mut sigs: Vec<BinarySignature> = Vec::new();
    let mut i: usize = 0;
    while i < texts.len()
        invariant
            i <= texts@.len(),
            e.spec_dim() == 256,
            sigs@.len() == i,
            forall|j: int|
                0 <= j < i ==> holds_signs(
                    #[trigger] sigs@[j],
                    signs_of(e.vector(words_in(texts@[j]@))),
                ),
        decreases texts@.len() - i,
    {
        match e.embed_to_signature(texts[i].as_str()) {
            Ok(sig) => sigs.push(sig),
            Err(_) => {
                assert(false);
            },
        }
        i = i + 1;
    }
    Ok(sigs)
}

/// What is said of a document without an id.
pub open spec fn id_of(ids: Seq<String>, doc: usize) -> Seq<char> {
    if doc < ids.len() {
        ids[doc as int]@
    } else {
        "?"@
    }
}

/// The name of a document's event, or the default.
pub open spec fn label_of(catalog: EventCatalog, doc: usize) -> Seq<char> {
    match catalog.event_of(doc) {
        Some(event) => catalog@[event.0 as int].0,
        None => "_default"@,
    }
}

/// The id of a document.
pub fn doc_id(ids: &Vec<String>, doc: usize) -> (id: &str)
    ensures
        id@ == id_of(ids@, doc),
{
    if doc < ids.len() {
        ids[doc].as_str()
    } else {
        "?"
    }
}

/// The name of a document's event, or the default.
pub fn event_label(catalog: &EventCatalog, doc: usize) -> (name: &str)
    requires
        catalog.wf(),
    ensures
        name@ == label_of(*catalog, doc),
{
    match catalog.doc_event(doc) {
        Some(event) => {
            proof {
                catalog.lemma_wf();
                crate::events::lemma_event_listing(catalog@, doc);
            }
            match catalog.event_name(event) {
                Some(name) => name,
                None => "_default",
            }
        },
        None => "_default",
    }
}

/// Only hashed indexes can be queried from the command line.
pub fn check_query_embedder(name: &str) -> (r: Result<(), String>)
    ensures
        r is Ok <==> name@ == "hashed"@,
        r matches Err(why) ==> why@
            == "this build only knows how to load 'hashed' indexes; manifest says '"@ + name@
            + "'"@,
{
    if same_text(name, "hashed") {
        return Ok(());
    }
    let mut why = joined(
        "this build only knows how to load 'hashed' indexes; manifest says '",
        name,
    );
    why.append("'");
    Err(why)
}

/// The manifest and the signatures must be of one index.
pub fn check_query_count(claimed: usize, found: usize) -> (r: Result<(), String>)
    ensures
        r is Ok <==> claimed == found,
        r matches Err(why) ==> why@ == "manifest says "@ + decimal_text(claimed as nat)
            + " entries but signatures.bin has "@ + decimal_text(found as nat),
{
    if claimed == found {
        return Ok(());
    }
    let mut why = joined("manifest says ", decimal(claimed as u64).as_str());
    why.append(" entries but signatures.bin has ");
    why.append(decimal(found as u64).as_str());
    Err(why)
}

/// A query needs a text.
pub fn check_query_text(text: &str) -> (r: Result<(), String>)
    ensures
        r is Ok <==> text@.len() > 0,
        r matches Err(why) ==> why@
            == "no query text provided (use --text or pipe to stdin)"@,
{
    if text.is_empty() {
        Err("no query text provided (use --text or pipe to stdin)".to_owned())
    } else {
        Ok(())
    }
}

/// The row that is printed for a result.
pub open spec fn row_text(
    catalog: EventCatalog,
    ids: Seq<String>,
    rank: nat,
    result: (u32, usize),
) -> Seq<char> {
    flush_right(decimal_text(rank), 4) + "  "@ + flush_right(decimal_text(result.0 as nat), 4)
        + "  "@ + flush_left(id_of(ids, result.1), 20) + "  "@ + label_of(catalog, result.1)
}

/// The rows that are printed for the results of a query.
pub fn result_rows(
    catalog: &EventCatalog,
    ids: &Vec<String>,
    results: &Vec<(u32, usize)>,
) -> (rows: Vec<String>)
    requires
        catalog.wf(),
    ensures
        rows@.len() == results@.len(),
        forall|i: int|
            0 <= i < rows@.len() ==> (#[trigger] rows@[i])@ == row_text(
                *catalog,
                ids@,
                (i + 1) as nat,
                results@[i],
            ),
{
    let mut rows: Vec<String> = Vec::new();
    let mut i: usize = 0;
    while i < results.len()
        invariant
            i <= results@.len(),
            catalog.wf(),
            rows@.len() == i,
            forall|j: int|
                0 <= j < i ==> (#[trigger] rows@[j])@ == row_text(
                    *catalog,
                    ids@,
                    (j + 1) as nat,
                    results@[j],
                ),
        decreases results@.len() - i,
    {
        let (dist, doc) = results[i];
        let mut row = pad_left(decimal(i as u64 + 1).as_str(), 4);
        row.append("  ");
        row.append(pad_left(decimal(dist as u64).as_str(), 4).as_str());
        row.append("  ");
        row.append(pad_right(doc_id(ids, doc), 20).as_str());
        row.append("  ");
        row.append(event_label(catalog, doc));
        rows.push(row);
        i = i + 1;
    }
    rows
}

/// A line of a transcript: a whole sequence of events, or one turn of a
/// session.
pub enum TranscriptLine {
    Sequence { events: Vec<String> },
    Turn { session: String, event: String },
}

/// The number of the event of that name.
pub open spec fn event_named(
    entries: Seq<(Seq<char>, Seq<usize>)>,
    name: Seq<char>,
) -> Option<EventId> {
    let p = crate::named_scope::name_slot(entries, name);
    if p < entries.len() && entries[p].0 == name {
        Some(EventId(p as u32))
    } else {
        None
    }
}

/// The numbers of the events that there are.
pub open spec fn events_named(
    entries: Seq<(Seq<char>, Seq<usize>)>,
    names: Seq<String>,
) -> Seq<EventId>
    decreases names.len(),
{
    if names.len() == 0 {
        Seq::empty()
    } else {
        let before = events_named(entries, names.drop_last());
        match event_named(entries, names.last()@) {
            Some(event) => before.push(event),
            None => before,
        }
    }
}

/// The place of a session, or the number of sessions.
pub open spec fn session_place(
    sessions: Seq<(Seq<char>, Seq<EventId>)>,
    session: Seq<char>,
) -> int
    decreases sessions.len(),
{
    if sessions.len() == 0 {
        0
    } else if sessions[0].0 == session {
        0
    } else {
        1 + session_place(sessions.drop_first(), session)
    }
}

/// The sessions after one more turn.
pub open spec fn with_turn(
    sessions: Seq<(Seq<char>, Seq<EventId>)>,
    session: Seq<char>,
    event: EventId,
) -> Seq<(Seq<char>, Seq<EventId>)> {
    let i = session_place(sessions, session);
    if i < sessions.len() {
        sessions.update(i, (session, sessions[i].1.push(event)))
    } else {
        sessions.push((session, seq![event]))
    }
}

/// The turns of every session, in the order in which sessions first occur.
pub open spec fn turns_of(
    entries: Seq<(Seq<char>, Seq<usize>)>,
    lines: Seq<TranscriptLine>,
) -> Seq<(Seq<char>, Seq<EventId>)>
    decreases lines.len(),
{
    if lines.len() == 0 {
        Seq::empty()
    } else {
        let before = turns_of(entries, lines.drop_last());
        match lines.last() {
            TranscriptLine::Sequence { .. } => before,
            TranscriptLine::Turn { session, event } => match event_named(entries, event@) {
                Some(id) => with_turn(before, session@, id),
                None => before,
            },
        }
    }
}

/// The sequences that stand in one line and have a transition.
pub open spec fn sequences_in(
    entries: Seq<(Seq<char>, Seq<usize>)>,
    lines: Seq<TranscriptLine>,
) -> Seq<Seq<EventId>>
    decreases lines.len(),
{
    if lines.len() == 0 {
        Seq::empty()
    } else {
        let before = sequences_in(entries, lines.drop_last());
        match lines.last() {
            TranscriptLine::Sequence { events } => {
                let seq = events_named(entries, events@);
                if seq.len() >= 2 {
                    before.push(seq)
                } else {
                    before
                }
            },
            TranscriptLine::Turn { .. } => before,
        }
    }
}

/// The sessions that have a transition.
pub open spec fn long_sessions(sessions: Seq<(Seq<char>, Seq<EventId>)>) -> Seq<Seq<EventId>>
    decreases sessions.len(),
{
    if sessions.len() == 0 {
        Seq::empty()
    } else {
        let before = long_sessions(sessions.drop_last());
        if sessions.last().1.len() >= 2 {
            before.push(sessions.last().1)
        } else {
            before
        }
    }
}

/// The sequences to train on: those that stand in one line, then the sessions.
pub open spec fn training_of(
    entries: Seq<(Seq<char>, Seq<usize>)>,
    lines: Seq<TranscriptLine>,
) -> Seq<Seq<EventId>> {
    sequences_in(entries, lines) + long_sessions(turns_of(entries, lines))
}

/// The events of a session so far.
struct SessionTurns {
    session: String,
    events: Vec<EventId>,
}

spec fn turns_view(sessions: Seq<SessionTurns>) -> Seq<(Seq<char>, Seq<EventId>)> {
    sessions.map_values(|s: SessionTurns| (s.session@, s.events@))
}

/// The number of the event of that name.
fn find_event(scope: &NamedScope, name: &str) -> (event: Option<EventId>)
    requires
        scope.wf(),
    ensures
        event == event_named(scope@, name@),
{
    match scope.position(name) {
        Some(p) => {
            proof {
                crate::named_scope::lemma_position(scope@, name@, p as int);
            }
            Some(EventId(p as u32))
        },
        None => None,
    }
}

/// The numbers of the events that there are.
fn find_events(scope: &NamedScope, names: &Vec<String>) -> (events: Vec<EventId>)
    requires
        scope.wf(),
    ensures
        events@ == events_named(scope@, names@),
{
    let mut events: Vec<EventId> = Vec::new();
    let mut i: usize = 0;
    while i < names.len()
        invariant
            i <= names@.len(),
            scope.wf(),
            events@ == events_named(scope@, names@.take(i as int)),
        decreases names@.len() - i,
    {
        assert(names@.take(i + 1).drop_last() =~= names@.take(i as int));
        if let Some(event) = find_event(scope, names[i].as_str()) {
            events.push(event);
        }
        i = i + 1;
    }
    assert(names@.take(i as int) =~= names@);
    events
}

/// Add a turn to its session.
fn add_turn(sessions: &mut Vec<SessionTurns>, session: &str, event: EventId)
    ensures
        turns_view(final(sessions)@) == with_turn(turns_view(old(sessions)@), session@, event),
{
    let ghost all = turns_view(sessions@);
    let mut i: usize = 0;
    assert(all.skip(0) =~= all);
    while i < sessions.len() && !same_text(sessions[i].session.as_str(), session)
        invariant
            i <= sessions@.len(),
            all == turns_view(sessions@),
            sessions@ == old(sessions)@,
            session_place(all, session@) == i + session_place(all.skip(i as int), session@),
        decreases sessions@.len() - i,
    {
        assert(all.skip(i as int)[0] == all[i as int]);
        assert(all.skip(i as int).drop_first() =~= all.skip(i + 1));
        i = i + 1;
    }
    assert(i < sessions@.len() ==> all.skip(i as int)[0] == all[i as int]);
    if i < sessions.len() {
        sessions[i].events.push(event);
        assert(turns_view(sessions@) =~= with_turn(all, session@, event));
    } else {
        let mut events: Vec<EventId> = Vec::new();
        events.push(event);
        assert(events@ =~= seq![event]);
        sessions.push(SessionTurns { session: session.to_owned(), events });
        assert(turns_view(sessions@) =~= with_turn(all, session@, event));
    }
}

/// The sequences of event numbers that transcripts hold. Events that are not
/// in the scope are passed over, and so are sequences without a transition. It
/// is an error if nothing is left.
pub fn collect_sequences(scope: &NamedScope, lines: &Vec<TranscriptLine>) -> (r: Result<
    Vec<Vec<EventId>>,
    String,
>)
    requires
        scope.wf(),
    ensures
        match r {
            Ok(sequences) => {
                &&& sequences@.len() > 0
                &&& crate::trainer::sequences_of(sequences@) == training_of(scope@, lines@)
            },
            Err(why) => {
                &&& training_of(scope@, lines@).len() == 0
                &&& why@ == "no valid event sequences found in transcripts"@
            },
        },
{
    let mut sequences: Vec<Vec<EventId>> = Vec::new();
    let mut sessions: Vec<SessionTurns> = Vec::new();
    let mut i: usize = 0;
    assert(crate::trainer::sequences_of(sequences@) =~= Seq::empty());
    assert(turns_view(sessions@) =~= Seq::empty());
    while i < lines.len()
        invariant
            i <= lines@.len(),
            scope.wf(),
            crate::trainer::sequences_of(sequences@) == sequences_in(scope@, lines@.take(i as int)),
            turns_view(sessions@) == turns_of(scope@, lines@.take(i as int)),
        decreases lines@.len() - i,
    {
        assert(lines@.take(i + 1).drop_last() =~= lines@.take(i as int));
        match &lines[i] {
            TranscriptLine::Sequence { events } => {
                let seq = find_events(scope, events);
                if seq.len() >= 2 {
                    let ghost before = sequences@;
                    let ghost added = seq@;
                    sequences.push(seq);
                    assert(crate::trainer::sequences_of(sequences@)
                        =~= crate::trainer::sequences_of(before).push(added));
                }
            },
            TranscriptLine::Turn { session, event } => {
                if let Some(id) = find_event(scope, event.as_str()) {
                    add_turn(&mut sessions, session.as_str(), id);
                }
            },
        }
        i = i + 1;
    }
    assert(lines@.take(i as int) =~= lines@);
    let ghost direct = sequences_in(scope@, lines@);
    let ghost turns = turns_view(sessions@);
    let mut i: usize = 0;
    assert(direct + long_sessions(turns.take(0)) =~= direct);
    while i < sessions.len()
        invariant
            i <= sessions@.len(),
            turns == turns_view(sessions@),
            crate::trainer::sequences_of(sequences@) == direct + long_sessions(
                turns.take(i as int),
            ),
        decreases sessions@.len() - i,
    {
        assert(turns.take(i + 1).drop_last() =~= turns.take(i as int));
        assert(turns.take(i + 1).last() == (
            sessions@[i as int].session@,
            sessions@[i as int].events@,
        ));
        if sessions[i].events.len() >= 2 {
            let ghost before = sequences@;
            let seq = slice_to_vec(sessions[i].events.as_slice());
            let ghost added = seq@;
            sequences.push(seq);
            assert(crate::trainer::sequences_of(sequences@) =~= crate::trainer::sequences_of(
                before,
            ).push(added));
            assert(crate::trainer::sequences_of(sequences@) =~= direct + long_sessions(
                turns.take(i + 1),
            ));
        }
        i = i + 1;
    }
    assert(turns.take(i as int) =~= turns);
    assert(sequences@.len() == crate::trainer::sequences_of(sequences@).len());
    if sequences.len() == 0 {
        return Err("no valid event sequences found in transcripts".to_owned());
    }
    Ok(sequences)
}

/// The documents by event: under each name those whose event has that name, all of them
/// and in ascending order. A document without an event is under `_default`. No name
/// comes twice, and every document is under one.
pub proof fn lemma_documents_by_event(entries: Seq<CorpusEntry>)
    requires
        entries.len() <= usize::MAX,
    ensures
        ({
            let all = grouped(entries);
            &&& forall|i: int, j: int|
                0 <= i < j < all.len() ==> (#[trigger] all[i]).0 != (#[trigger] all[j]).0
            &&& forall|i: int, a: int, b: int|
                #![trigger all[i].1[a], all[i].1[b]]
                0 <= i < all.len() && 0 <= a < b < all[i].1.len() ==> all[i].1[a] < all[i].1[b]
            &&& forall|i: int, doc: usize|
                0 <= i < all.len() ==> (#[trigger] all[i].1.contains(doc) <==> doc < entries.len()
                    && (match entries[doc as int].event {
                    Some(name) => name@,
                    None => "_default"@,
                }) == all[i].0)
            &&& forall|doc: int|
                0 <= doc < entries.len() ==> exists|i: int|
                    0 <= i < all.len() && (#[trigger] all[i]).0 == (match (
                    #[trigger] entries[doc]).event {
                        Some(name) => name@,
                        None => "_default"@,
                    })
        }),
{
    let all = grouped(entries);
    lemma_grouped(entries, Seq::empty(), 0);
    assert forall|i: int, j: int| 0 <= i < j < all.len() implies (#[trigger] all[i]).0 != (
    #[trigger] all[j]).0 by {
        assert(crate::text::text_before(all[i].0, all[j].0));
        crate::text::lemma_text_before_irreflexive(all[i].0);
    }
    assert forall|i: int, doc: usize| 0 <= i < all.len() implies (#[trigger] all[i].1.contains(doc)
        <==> doc < entries.len() && event_key(entries[doc as int]) == all[i].0) by {
        lemma_grouped(entries, all[i].0, doc);
        lemma_entry_of(all, all[i].0, i);
    }
    lemma_grouped_ascending(entries);
    assert forall|doc: int| 0 <= doc < entries.len() implies exists|i: int|
        0 <= i < all.len() && (#[trigger] all[i]).0 == event_key(#[trigger] entries[doc]) by {
        let name = event_key(entries[doc]);
        lemma_grouped(entries, name, doc as usize);
        lemma_name_slot(all, name);
        assert(all[name_slot(all, name)].0 == name);
    }
}

proof fn lemma_grouped_ascending(entries: Seq<CorpusEntry>)
    requires
        entries.len() <= usize::MAX,
    ensures
        forall|i: int, a: int, b: int|
            #![trigger grouped(entries)[i].1[a], grouped(entries)[i].1[b]]
            0 <= i < grouped(entries).len() && 0 <= a < b < grouped(entries)[i].1.len()
                ==> grouped(entries)[i].1[a] < grouped(entries)[i].1[b],
    decreases entries.len(),
{
    if entries.len() > 0 {
        let all = grouped(entries);
        let init = entries.drop_last();
        let before = grouped(init);
        let name = event_key(entries.last());
        let last = (entries.len() - 1) as usize;
        lemma_grouped_ascending(init);
        lemma_grouped(init, name, 0);
        lemma_name_slot(before, name);
        let p = name_slot(before, name);
        let docs = match entry_of(before, name) {
            Some(docs) => docs,
            None => Seq::empty(),
        };
        assert forall|a: int, b: int| 0 <= a < b < docs.push(last).len() implies docs.push(last)[a]
            < docs.push(last)[b] by {
            if b < docs.len() {
                assert(before[p].1[a] < before[p].1[b]);
            } else {
                assert(docs.contains(docs[a]));
                lemma_grouped(init, name, docs[a]);
            }
        }
        assert forall|i: int, a: int, b: int|
            #![trigger all[i].1[a], all[i].1[b]]
            0 <= i < all.len() && 0 <= a < b < all[i].1.len() implies all[i].1[a]
            < all[i].1[b] by {
            let replaced = p < before.len() && before[p].0 == name;
            if i == p {
                assert(all[i].1 == docs.push(last));
                assert(docs.push(last)[a] < docs.push(last)[b]);
            } else {
                let h = if replaced || i < p {
                    i
                } else {
                    i - 1
                };
                assert(all[i] == before[h]);
                assert(before[h].1[a] < before[h].1[b]);
            }
        }
    }
}

/// The number of an event is the place of its name.
pub proof fn lemma_event_named(entries: Seq<(Seq<char>, Seq<usize>)>, name: Seq<char>, p: int)
    requires
        names_ascending(entries),
    ensures
        0 <= p < entries.len() && entries[p].0 == name ==> event_named(entries, name) == Some(
            EventId(p as u32),
        ),
        (forall|i: int| 0 <= i < entries.len() ==> (#[trigger] entries[i]).0 != name)
            ==> event_named(entries, name) is None,
{
    lemma_name_slot(entries, name);
    if 0 <= p < entries.len() && entries[p].0 == name {
        lemma_position(entries, name, p);
    }
}

/// The numbers of the events of some names, in order and without the names that are not
/// in the scope.
pub proof fn lemma_events_named(entries: Seq<(Seq<char>, Seq<usize>)>, names: Seq<String>)
    ensures
        events_named(entries, names) == names.filter_map(|n: String| event_named(entries, n@)),
    decreases names.len(),
{
    if names.len() > 0 {
        lemma_events_named(entries, names.drop_last());
        let before = events_named(entries, names.drop_last());
        match event_named(entries, names.last()@) {
            Some(e) => {
                assert(before.push(e) =~= before + seq![e]);
            },
            None => {},
        }
    }
}

/// The events of the turns of a session, in order.
pub open spec fn turns_in(
    entries: Seq<(Seq<char>, Seq<usize>)>,
    lines: Seq<TranscriptLine>,
    name: Seq<char>,
) -> Seq<EventId> {
    lines.filter_map(
        |l: TranscriptLine|
            match l {
                TranscriptLine::Sequence { .. } => None,
                TranscriptLine::Turn { session, event } => if session@ == name {
                    event_named(entries, event@)
                } else {
                    None
                },
            },
    )
}

proof fn lemma_session_place(sessions: Seq<(Seq<char>, Seq<EventId>)>, session: Seq<char>)
    ensures
        0 <= session_place(sessions, session) <= sessions.len(),
        session_place(sessions, session) < sessions.len() ==> sessions[session_place(
            sessions,
            session,
        )].0 == session,
        forall|i: int|
            0 <= i < session_place(sessions, session) ==> (#[trigger] sessions[i]).0 != session,
    decreases sessions.len(),
{
    if sessions.len() > 0 && sessions[0].0 != session {
        let rest = sessions.drop_first();
        lemma_session_place(rest, session);
        assert forall|i: int| 0 <= i < session_place(sessions, session) implies (
        #[trigger] sessions[i]).0 != session by {
            if i > 0 {
                assert(sessions[i] == rest[i - 1]);
            }
        }
    }
}

/// The turns by session: each session once, with the events of all its turns in order. A
/// session is left out only where none of its turns has an event of the scope.
pub proof fn lemma_turns_by_session(
    entries: Seq<(Seq<char>, Seq<usize>)>,
    lines: Seq<TranscriptLine>,
)
    ensures
        ({
            let all = turns_of(entries, lines);
            &&& forall|i: int, j: int|
                0 <= i < j < all.len() ==> (#[trigger] all[i]).0 != (#[trigger] all[j]).0
            &&& forall|i: int|
                0 <= i < all.len() ==> (#[trigger] all[i]).1 == turns_in(entries, lines, all[i].0)
            &&& forall|name: Seq<char>|
                (forall|i: int| 0 <= i < all.len() ==> (#[trigger] all[i]).0 != name)
                    ==> #[trigger] turns_in(entries, lines, name) == Seq::<EventId>::empty()
        }),
    decreases lines.len(),
{
    let all = turns_of(entries, lines);
    if lines.len() > 0 {
        let init = lines.drop_last();
        let before = turns_of(entries, init);
        lemma_turns_by_session(entries, init);
        let grown = match lines.last() {
            TranscriptLine::Sequence { .. } => None,
            TranscriptLine::Turn { session, event } => match event_named(entries, event@) {
                Some(id) => Some((session@, id)),
                None => None,
            },
        };
        assert forall|name: Seq<char>| #[trigger]
            turns_in(entries, lines, name) == turns_in(entries, init, name) + (match grown {
                Some((session, id)) => if session == name {
                    seq![id]
                } else {
                    Seq::empty()
                },
                None => Seq::empty(),
            }) by {
            assert(turns_in(entries, init, name) + Seq::<EventId>::empty() =~= turns_in(
                entries,
                init,
                name,
            ));
        }
        match grown {
            Some((session, id)) => {
                let p = session_place(before, session);
                lemma_session_place(before, session);
                assert(all == with_turn(before, session, id));
                assert(p == before.len() ==> turns_in(entries, init, session)
                    == Seq::<EventId>::empty());
                assert forall|i: int| 0 <= i < all.len() implies (#[trigger] all[i]).1 == turns_in(
                    entries,
                    lines,
                    all[i].0,
                ) by {
                    if i == p {
                        if p < before.len() {
                            assert(before[p].1.push(id) =~= before[p].1 + seq![id]);
                        } else {
                            assert(seq![id] =~= Seq::empty() + seq![id]);
                        }
                    } else {
                        assert(all[i] == before[i]);
                    }
                }
                assert forall|name: Seq<char>|
                    (forall|i: int|
                        0 <= i < all.len() ==> (#[trigger] all[i]).0
                            != name) implies #[trigger] turns_in(entries, lines, name) == Seq::<
                    EventId,
                >::empty() by {
                    assert(all[p].0 == session);
                    assert forall|i: int| 0 <= i < before.len() implies (#[trigger] before[i]).0
                        != name by {
                        assert(all[i].0 == before[i].0);
                    }
                }
            },
            None => {
                assert(all == before);
                assert forall|i: int| 0 <= i < all.len() implies (#[trigger] all[i]).1 == turns_in(
                    entries,
                    lines,
                    all[i].0,
                ) by {
                    assert(turns_in(entries, lines, all[i].0) == turns_in(entries, init, all[i].0)
                        + Seq::<EventId>::empty());
                }
            },
        }
    }
}

/// What transcripts teach: the sequences that are written out, then those of the sessions,
/// in order. A sequence without a transition is left out.
pub proof fn lemma_training_of(
    entries: Seq<(Seq<char>, Seq<usize>)>,
    lines: Seq<TranscriptLine>,
)
    ensures
        training_of(entries, lines) == lines.filter_map(
            |l: TranscriptLine|
                match l {
                    TranscriptLine::Sequence { events } => if events_named(
                        entries,
                        events@,
                    ).len() >= 2 {
                        Some(events_named(entries, events@))
                    } else {
                        None
                    },
                    TranscriptLine::Turn { .. } => None,
                },
        ) + turns_of(entries, lines).filter_map(
            |s: (Seq<char>, Seq<EventId>)|
                if s.1.len() >= 2 {
                    Some(s.1)
                } else {
                    None
                },
        ),
{
    lemma_sequences_in(entries, lines);
    lemma_long_sessions(turns_of(entries, lines));
}

proof fn lemma_sequences_in(
    entries: Seq<(Seq<char>, Seq<usize>)>,
    lines: Seq<TranscriptLine>,
)
    ensures
        sequences_in(entries, lines) == lines.filter_map(
            |l: TranscriptLine|
                match l {
                    TranscriptLine::Sequence { events } => if events_named(
                        entries,
                        events@,
                    ).len() >= 2 {
                        Some(events_named(entries, events@))
                    } else {
                        None
                    },
                    TranscriptLine::Turn { .. } => None,
                },
        ),
    decreases lines.len(),
{
    if lines.len() > 0 {
        lemma_sequences_in(entries, lines.drop_last());
        let before = sequences_in(entries, lines.drop_last());
        match lines.last() {
            TranscriptLine::Sequence { events } => {
                let seq = events_named(entries, events@);
                assert(before.push(seq) =~= before + seq![seq]);
            },
            TranscriptLine::Turn { .. } => {},
        }
    }
}

proof fn lemma_long_sessions(sessions: Seq<(Seq<char>, Seq<EventId>)>)
    ensures
        long_sessions(sessions) == sessions.filter_map(
            |s: (Seq<char>, Seq<EventId>)|
                if s.1.len() >= 2 {
                    Some(s.1)
                } else {
                    None
                },
        ),
    decreases sessions.len(),
{
    if sessions.len() > 0 {
        lemma_long_sessions(sessions.drop_last());
        let before = long_sessions(sessions.drop_last());
        let seq = sessions.last().1;
        assert(before.push(seq) =~= before + seq![seq]);
    }
}

/// A row of results: rank and distance flush right in four columns, the id flush left in
/// twenty, then the name of the event, with two spaces between.
pub proof fn lemma_row_text(
    catalog: EventCatalog,
    ids: Seq<String>,
    rank: nat,
    result: (u32, usize),
)
    ensures
        row_text(catalog, ids, rank, result) == flush_right(decimal_text(rank), 4) + "  "@
            + flush_right(decimal_text(result.0 as nat), 4) + "  "@ + flush_left(
            if result.1 < ids.len() {
                ids[result.1 as int]@
            } else {
                "?"@
            },
            20,
        ) + "  "@ + (match catalog.event_of(result.1) {
            Some(event) => catalog@[event.0 as int].0,
            None => "_default"@,
        }),
{
}

/// The turns of a session grow by the event of each line that names the session, where
/// the event is in the scope, and by no other line.
pub proof fn lemma_turns_in(
    entries: Seq<(Seq<char>, Seq<usize>)>,
    lines: Seq<TranscriptLine>,
    line: TranscriptLine,
    name: Seq<char>,
)
    ensures
        turns_in(entries, Seq::empty(), name).len() == 0,
        turns_in(entries, lines.push(line), name) == (match line {
            TranscriptLine::Turn { session, event } => if session@ != name {
                turns_in(entries, lines, name)
            } else {
                match event_named(entries, event@) {
                    Some(e) => turns_in(entries, lines, name).push(e),
                    None => turns_in(entries, lines, name),
                }
            },
            TranscriptLine::Sequence { .. } => turns_in(entries, lines, name),
        }),
{
    let longer = lines.push(line);
    let before = turns_in(entries, lines, name);
    assert(longer.drop_last() =~= lines);
    assert(longer.last() == line);
    match line {
        TranscriptLine::Sequence { .. } => {
            assert(turns_in(entries, longer, name) =~= before + Seq::<EventId>::empty());
        },
        TranscriptLine::Turn { session, event } => {
            let e = event_named(entries, event@);
            if session@ == name && e is Some {
                assert(turns_in(entries, longer, name) =~= before + seq![e->0]);
                assert(before + seq![e->0] =~= before.push(e->0));
            } else {
                assert(turns_in(entries, longer, name) =~= before + Seq::<EventId>::empty());
            }
        },
    }
}

/// A manifest has the ids and the texts of all entries, in their order.
pub proof fn lemma_ids_and_texts(entries: Seq<CorpusEntry>)
    ensures
        ids_of(entries).len() == entries.len(),
        bodies_of(entries).len() == entries.len(),
        forall|i: int|
            0 <= i < entries.len() ==> #[trigger] ids_of(entries)[i] == entries[i].id@,
        forall|i: int|
            0 <= i < entries.len() ==> #[trigger] bodies_of(entries)[i] == entries[i].text@,
{
}

} // verus!
