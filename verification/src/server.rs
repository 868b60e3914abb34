//! What the server answers: routes, queries, sessions and chat completions.
//!
//! Requests come in parsed, and answers go out as plain values.

use vstd::hash_map::StringHashMap;
use vstd::prelude::*;

use crate::corpus::{doc_id, event_label, id_of, label_of};
use crate::events::EventCatalog;
use crate::models::EmbedderKind;
use crate::query_context::ServedBy;
use crate::state::EventId;
use crate::text::{
    begins_with, blank, decimal, decimal_text, inner_parts, is_blank, joined, lemma_one_part,
    lemma_parts_break, lemma_trimmed_back, lemma_trimmed_front, runs, same_text, split_inner,
    starts_with, texts_of, trimmed_back, trimmed_front, visible, word_count,
};

verus! {

/// What a request is for.
#[derive(Debug, Clone, Copy, PartialEq, Eq, Structural)]
pub enum Route {
    Health,
    Stats,
    Query,
    Chat,
    Session,
    NotFound,
}

/// The method of a request.
#[derive(Debug, Clone, Copy, PartialEq, Eq, Structural)]
pub enum HttpMethod {
    Get,
    Post,
    Other,
}

/// What a request is for.
pub open spec fn route_of(method: HttpMethod, path: Seq<char>) -> Route {
    if method == HttpMethod::Get && path == "/health"@ {
        Route::Health
    } else if method == HttpMethod::Get && path == "/stats"@ {
        Route::Stats
    } else if method == HttpMethod::Post && path == "/query"@ {
        Route::Query
    } else if method == HttpMethod::Post && path == "/v1/chat/completions"@ {
        Route::Chat
    } else if method == HttpMethod::Post && begins_with(path, "/session/"@) {
        Route::Session
    } else {
        Route::NotFound
    }
}

/// What a request is for.
pub fn route(method: HttpMethod, path: &str) -> (r: Route)
    ensures
        r == route_of(method, path@),
{
    match method {
        HttpMethod::Get => if same_text(path, "/health") {
            Route::Health
        } else if same_text(path, "/stats") {
            Route::Stats
        } else {
            Route::NotFound
        },
        HttpMethod::Post => if same_text(path, "/query") {
            Route::Query
        } else if same_text(path, "/v1/chat/completions") {
            Route::Chat
        } else if starts_with(path, "/session/") {
            Route::Session
        } else {
            Route::NotFound
        },
        HttpMethod::Other => Route::NotFound,
    }
}

/// What is asked of a session.
#[derive(Debug, Clone, Copy, PartialEq, Eq, Structural)]
pub enum SessionAction {
    Observe,
    Finalize,
    Warm,
    Reset,
}

/// The action of that name.
pub open spec fn action_named(name: Seq<char>) -> Option<SessionAction> {
    if name == "observe"@ {
        Some(SessionAction::Observe)
    } else if name == "finalize"@ {
        Some(SessionAction::Finalize)
    } else if name == "warm"@ {
        Some(SessionAction::Warm)
    } else if name == "reset"@ {
        Some(SessionAction::Reset)
    } else {
        None
    }
}

/// The session and the action that a path names.
pub fn parse_session_path(path: &str) -> (r: Result<(String, SessionAction), String>)
    ensures
        ({
            let parts = inner_parts(path@, '/');
            match r {
                Ok((session, action)) => {
                    &&& parts.len() == 3 && parts[0] == "session"@
                    &&& session@ == parts[1]
                    &&& action_named(parts[2]) == Some(action)
                },
                Err(why) => if parts.len() == 3 && parts[0] == "session"@ {
                    action_named(parts[2]) is None && why@ == "unknown session action"@
                } else {
                    why@ == "expected /session/{id}/{action}"@
                },
            }
        }),
{
    let parts = split_inner(path, '/');
    proof {
        assert(parts@.len() == texts_of(parts@).len());
        assert(forall|i: int|
            0 <= i < parts@.len() ==> texts_of(parts@)[i] == (#[trigger] parts@[i])@);
    }
    if parts.len() != 3 || !same_text(parts[0].as_str(), "session") {
        return Err("expected /session/{id}/{action}".to_owned());
    }
    let session = parts[1].clone();
    let name = parts[2].as_str();
    if same_text(name, "observe") {
        Ok((session, SessionAction::Observe))
    } else if same_text(name, "finalize") {
        Ok((session, SessionAction::Finalize))
    } else if same_text(name, "warm") {
        Ok((session, SessionAction::Warm))
    } else if same_text(name, "reset") {
        Ok((session, SessionAction::Reset))
    } else {
        Err("unknown session action".to_owned())
    }
}

/// The body of a request that may be left out: a blank one stands for an empty
/// object.
pub fn body_or_object(body: &str) -> (r: &str)
    ensures
        r@ == if blank(body@) {
            "{}"@
        } else {
            body@
        },
{
    if is_blank(body) {
        "{}"
    } else {
        body
    }
}

/// The body of an answer to a request that failed.
pub fn error_body(why: &str) -> (body: String)
    ensures
        body@ == "{\"error\":\""@ + crate::text::escaped(why@) + "\"}"@,
{
    let mut body = joined("{\"error\":\"", crate::text::json_escape(why).as_str());
    body.append("\"}");
    body
}

/// A query.
pub struct QueryRequest {
    pub text: String,
    pub top_k: usize,
    pub parallel: bool,
}

/// How many results a query gives that does not say.
pub fn default_top_k() -> (n: usize)
    ensures
        n == 10,
{
    10
}

/// A result of a query.
pub struct QueryHit {
    pub rank: usize,
    pub distance: u32,
    pub id: String,
    pub event: String,
}

/// What a result says.
pub ghost struct Hit {
    pub rank: nat,
    pub distance: u32,
    pub id: Seq<char>,
    pub event: Seq<char>,
}

impl View for QueryHit {
    type V = Hit;

    open spec fn view(&self) -> Hit {
        Hit {
            rank: self.rank as nat,
            distance: self.distance,
            id: self.id@,
            event: self.event@,
        }
    }
}

/// The results as their views.
pub open spec fn hits_view(hits: Seq<QueryHit>) -> Seq<Hit> {
    hits.map_values(|h: QueryHit| h@)
}

/// What is said of results: their ranks and distances, and the ids and events
/// of their documents.
pub open spec fn hits_of(
    catalog: EventCatalog,
    ids: Seq<String>,
    results: Seq<(u32, usize)>,
) -> Seq<Hit> {
    Seq::new(
        results.len(),
        |i: int|
            Hit {
                rank: (i + 1) as nat,
                distance: results[i].0,
                id: id_of(ids, results[i].1),
                event: label_of(catalog, results[i].1),
            },
    )
}

/// What is said of results.
pub fn map_hits(
    catalog: &EventCatalog,
    ids: &Vec<String>,
    raw: &Vec<(u32, usize)>,
) -> (hits: Vec<QueryHit>)
    requires
        catalog.wf(),
    ensures
        hits_view(hits@) == hits_of(*catalog, ids@, raw@),
{
    let ghost all = hits_of(*catalog, ids@, raw@);
    let mut hits: Vec<QueryHit> = Vec::new();
    let mut i: usize = 0;
    while i < raw.len()
        invariant
            i <= raw@.len(),
            catalog.wf(),
            all == hits_of(*catalog, ids@, raw@),
            hits_view(hits@) =~= all.take(i as int),
        decreases raw@.len() - i,
    {
        let (distance, doc) = raw[i];
        let ghost before = hits@;
        hits.push(
            QueryHit {
                rank: i + 1,
                distance,
                id: doc_id(ids, doc).to_owned(),
                event: event_label(catalog, doc).to_owned(),
            },
        );
        i = i + 1;
        assert(hits_view(hits@) =~= hits_view(before).push(hits@.last()@));
    }
    assert(all.take(i as int) =~= all);
    hits
}

/// The names of the events that are in the catalog.
pub open spec fn names_of(catalog: EventCatalog, events: Seq<EventId>) -> Seq<Seq<char>>
    decreases events.len(),
{
    if events.len() == 0 {
        Seq::empty()
    } else {
        let before = names_of(catalog, events.drop_last());
        let event = events.last();
        if event.0 < catalog@.len() {
            before.push(catalog@[event.0 as int].0)
        } else {
            before
        }
    }
}

/// The names of the events that are in the catalog.
pub fn event_names(catalog: &EventCatalog, events: &Vec<EventId>) -> (names: Vec<String>)
    ensures
        texts_of(names@) == names_of(*catalog, events@),
{
    let mut names: Vec<String> = Vec::new();
    let mut i: usize = 0;
    assert(texts_of(names@) =~= Seq::empty());
    while i < events.len()
        invariant
            i <= events@.len(),
            texts_of(names@) == names_of(*catalog, events@.take(i as int)),
        decreases events@.len() - i,
    {
        assert(events@.take(i + 1).drop_last() =~= events@.take(i as int));
        if let Some(name) = catalog.event_name(events[i]) {
            let ghost before = names@;
            names.push(name.to_owned());
            assert(texts_of(names@) =~= texts_of(before).push(name@));
        }
        i = i + 1;
    }
    assert(events@.take(i as int) =~= events@);
    names
}

/// The label of where an answer came from.
pub open spec fn label_text(served_by: ServedBy) -> Seq<char> {
    match served_by {
        ServedBy::FullScan => "full_scan"@,
        ServedBy::ShardScan => "shard_scan"@,
        ServedBy::Speculative => "speculative"@,
        ServedBy::DeltaCache => "delta_cache"@,
    }
}

/// The label of where an answer came from.
pub fn served_by_label(served_by: ServedBy) -> (label: &'static str)
    ensures
        label@ == label_text(served_by),
{
    match served_by {
        ServedBy::FullScan => "full_scan",
        ServedBy::ShardScan => "shard_scan",
        ServedBy::Speculative => "speculative",
        ServedBy::DeltaCache => "delta_cache",
    }
}

/// The answer to a query.
pub struct QueryResponse {
    pub embedder: EmbedderKind,
    pub embed_us: u128,
    pub scan_us: u128,
    pub corpus_size: usize,
    pub hits: Vec<QueryHit>,
    pub served_by: &'static str,
    pub predicted_events: Vec<String>,
    pub shard_scope_size: usize,
}

/// The answer to a request for predictions.
pub struct SessionWarmResponse {
    pub predicted_events: Vec<String>,
    pub shard_scope_size: usize,
}

/// What the server has done so far.
pub struct StatsResponse {
    pub corpus_size: usize,
    pub embedder: EmbedderKind,
    pub queries_served: u64,
    pub total_embed_us: u128,
    pub total_scan_us: u128,
    pub mean_embed_us: u128,
    pub mean_scan_us: u128,
    pub sessions: usize,
}

/// Texts by document id.
pub struct TextTable {
    texts: StringHashMap<String>,
}

impl View for TextTable {
    type V = Map<Seq<char>, String>;

    closed spec fn view(&self) -> Map<Seq<char>, String> {
        self.texts@
    }
}

impl TextTable {
    pub fn new() -> (t: Self)
        ensures
            t@ == Map::<Seq<char>, String>::empty(),
    {
        TextTable { texts: StringHashMap::new() }
    }

    /// Give a document a text.
    pub fn insert(&mut self, id: String, text: String)
        ensures
            final(self)@ == old(self)@.insert(id@, text),
    {
        self.texts.insert(id, text);
    }

    /// The text of a document.
    pub fn get(&self, id: &str) -> (text: Option<&str>)
        ensures
            text is Some <==> self@.contains_key(id@),
            text matches Some(text) ==> text@ == self@[id@]@,
    {
        match self.texts.get(id) {
            Some(text) => Some(text.as_str()),
            None => None,
        }
    }
}

/// The texts by id, the last of several for the same id.
pub open spec fn table_of(ids: Seq<String>, texts: Seq<String>) -> Map<Seq<char>, Seq<char>>
    decreases ids.len(),
{
    if ids.len() == 0 {
        Map::empty()
    } else {
        table_of(ids.drop_last(), texts.drop_last()).insert(ids.last()@, texts.last()@)
    }
}

/// The body of a result: the text of its document, or else its id.
pub open spec fn body_of(hit: Hit, table: Map<Seq<char>, Seq<char>>) -> Seq<char> {
    if table.contains_key(hit.id) {
        table[hit.id]
    } else {
        hit.id
    }
}

/// The line of a result.
pub open spec fn context_line(i: nat, hit: Hit, table: Map<Seq<char>, Seq<char>>) -> Seq<char> {
    "["@ + decimal_text(i + 1) + "] ("@ + hit.event + ") "@ + body_of(hit, table)
}

/// The results as a numbered list.
pub open spec fn context_text(hits: Seq<Hit>, table: Map<Seq<char>, Seq<char>>) -> Seq<char>
    decreases hits.len(),
{
    if hits.len() == 0 {
        Seq::empty()
    } else if hits.len() == 1 {
        context_line(0, hits[0], table)
    } else {
        context_text(hits.drop_last(), table).push('\n') + context_line(
            (hits.len() - 1) as nat,
            hits.last(),
            table,
        )
    }
}

/// The texts of a table as their views.
pub open spec fn text_views(table: Map<Seq<char>, String>) -> Map<Seq<char>, Seq<char>> {
    table.map_values(|s: String| s@)
}

/// The results as a numbered list, each with the text of its document, or else
/// its id.
pub fn format_retrieved_context(hits: &Vec<QueryHit>, texts: &TextTable) -> (out: String)
    ensures
        out@ == context_text(hits_view(hits@), text_views(texts@)),
{
    let ghost all = hits_view(hits@);
    let ghost table = text_views(texts@);
    let mut out = String::new();
    let mut i: usize = 0;
    assert(all.take(0) =~= Seq::empty());
    while i < hits.len()
        invariant
            i <= hits@.len(),
            all == hits_view(hits@),
            table == text_views(texts@),
            out@ == context_text(all.take(i as int), table),
        decreases hits@.len() - i,
    {
        let ghost before = out@;
        let ghost more = all.take(i + 1);
        let ghost hit = hits@[i as int]@;
        proof {
            assert(more.drop_last() =~= all.take(i as int));
            assert(more.last() == hit);
        }
        if i > 0 {
            out.push('\n');
        }
        let ghost start = out@;
        let body = match texts.get(hits[i].id.as_str()) {
            Some(text) => text,
            None => hits[i].id.as_str(),
        };
        out.append("[");
        out.append(decimal(i as u64 + 1).as_str());
        out.append("] (");
        out.append(hits[i].event.as_str());
        out.append(") ");
        out.append(body);
        proof {
            assert(body@ == body_of(hit, table));
            assert(out@ =~= start + context_line(i as nat, hit, table));
            if i == 0 {
                assert(more[0] == hit);
                assert(start =~= Seq::empty());
                assert(out@ =~= context_line(0, hit, table));
            }
        }
        i = i + 1;
    }
    assert(all.take(i as int) =~= all);
    out
}

/// A message of a chat.
pub struct ChatMessage {
    pub role: String,
    pub content: String,
}

/// The last message of a user among the first `n`.
pub open spec fn last_user(messages: Seq<ChatMessage>) -> Option<int>
    decreases messages.len(),
{
    if messages.len() == 0 {
        None
    } else if messages.last().role@ == "user"@ {
        Some(messages.len() - 1)
    } else {
        last_user(messages.drop_last())
    }
}

/// Extract the most recent user message content. Returns `Err` with a
/// human-readable reason when the request doesn't contain a usable query.
pub fn extract_user_query(messages: &[ChatMessage]) -> (r: Result<&str, String>)
    ensures
        match last_user(messages@) {
            Some(i) => if blank(messages@[i].content@) {
                r matches Err(why) && why@ == "latest user message is empty"@
            } else {
                r matches Ok(query) && query@ == messages@[i].content@
            },
            None => r matches Err(why) && why@
                == "messages must contain at least one user message"@,
        },
{
    let mut n: usize = messages.len();
    assert(messages@.take(n as int) =~= messages@);
    while n > 0
        invariant
            n <= messages@.len(),
            last_user(messages@) == last_user(messages@.take(n as int)),
        decreases n,
    {
        assert(messages@.take(n as int).drop_last() =~= messages@.take(n - 1));
        if same_text(messages[n - 1].role.as_str(), "user") {
            let content = messages[n - 1].content.as_str();
            if is_blank(content) {
                return Err("latest user message is empty".to_owned());
            }
            return Ok(content);
        }
        n = n - 1;
    }
    Err("messages must contain at least one user message".to_owned())
}

/// A request for a chat completion.
pub struct ChatCompletionsRequest {
    pub messages: Vec<ChatMessage>,
    pub model: Option<String>,
    /// The session that the request belongs to.
    pub user: Option<String>,
    /// How many documents to retrieve.
    pub top_k: Option<usize>,
}

/// How many documents a chat completion retrieves that does not say.
pub const CHAT_DEFAULT_TOP_K: usize = 5;

/// How many documents a chat completion retrieves: at least one.
pub open spec fn chat_k(top_k: Option<usize>) -> usize {
    match top_k {
        Some(k) => if k == 0 {
            1
        } else {
            k
        },
        None => CHAT_DEFAULT_TOP_K,
    }
}

/// How many documents a chat completion retrieves: at least one.
pub fn chat_top_k(top_k: Option<usize>) -> (k: usize)
    ensures
        k == chat_k(top_k),
{
    match top_k {
        Some(k) => if k == 0 {
            1
        } else {
            k
        },
        None => CHAT_DEFAULT_TOP_K,
    }
}

/// A chat completion: the retrieved context as the words of an assistant, with
/// how it was found.
pub struct ChatCompletionsResponse {
    pub id: String,
    pub created: u64,
    pub model: String,
    pub content: String,
    pub prompt_tokens: usize,
    pub completion_tokens: usize,
    pub total_tokens: usize,
    pub served_by: &'static str,
    pub embed_us: u128,
    pub scan_us: u128,
    pub predicted_events: Vec<String>,
    pub hits: Vec<QueryHit>,
}

/// What a chat completion is made of.
pub ghost struct Reply {
    pub hits: Seq<Hit>,
    pub served_by: Seq<char>,
    pub predicted: Seq<Seq<char>>,
}

/// `r` completes a chat with the given reply.
pub open spec fn completes(
    r: ChatCompletionsResponse,
    reply: Reply,
    table: Map<Seq<char>, Seq<char>>,
    query: Seq<char>,
    model: Option<String>,
) -> bool {
    let prompt = runs(query, visible(query)).len();
    let completion = runs(r.content@, visible(r.content@)).len();
    &&& r.content@ == context_text(reply.hits, table)
    &&& hits_view(r.hits@) == reply.hits
    &&& r.served_by@ == reply.served_by
    &&& texts_of(r.predicted_events@) == reply.predicted
    &&& r.model@ == match model {
        Some(name) => name@,
        None => "primd"@,
    }
    &&& r.prompt_tokens == prompt
    &&& r.completion_tokens == completion
    &&& r.total_tokens == if prompt + completion <= usize::MAX {
        prompt + completion
    } else {
        usize::MAX as nat
    }
}

/// Make a chat completion of the answer to a query.
pub fn complete_chat(
    answer: QueryResponse,
    texts: &TextTable,
    query: &str,
    model: Option<String>,
    seconds: u64,
    created: u64,
) -> (r: ChatCompletionsResponse)
    ensures
        completes(
            r,
            (Reply {
                hits: hits_view(answer.hits@),
                served_by: answer.served_by@,
                predicted: texts_of(answer.predicted_events@),
            }),
            text_views(texts@),
            query@,
            model,
        ),
        r.id@ == "chatcmpl-primd-"@ + decimal_text(seconds as nat),
        r.created == created,
        r.embed_us == answer.embed_us,
        r.scan_us == answer.scan_us,
{
    let content = format_retrieved_context(&answer.hits, texts);
    let prompt_tokens: usize = word_count(query);
    let completion_tokens: usize = word_count(content.as_str());
    let model = match model {
        Some(name) => name,
        None => "primd".to_owned(),
    };
    ChatCompletionsResponse {
        id: joined("chatcmpl-primd-", decimal(seconds).as_str()),
        created,
        model,
        content,
        prompt_tokens,
        completion_tokens,
        total_tokens: prompt_tokens.saturating_add(completion_tokens),
        served_by: answer.served_by,
        embed_us: answer.embed_us,
        scan_us: answer.scan_us,
        predicted_events: answer.predicted_events,
        hits: answer.hits,
    }
}

/// The content lists every result: one line for each, in order and with a line break
/// between two. Line `i` is the number `i + 1` in brackets, the event of the result in
/// parentheses, and the text of its document or else its id.
pub proof fn lemma_context_lists_every_result(
    hits: Seq<Hit>,
    table: Map<Seq<char>, Seq<char>>,
)
    ensures
        context_text(hits, table) == Seq::new(
            hits.len(),
            |i: int|
                (if i == 0 {
                    Seq::<char>::empty()
                } else {
                    seq!['\n']
                }) + ("["@ + decimal_text((i + 1) as nat) + "] ("@ + hits[i].event + ") "@ + (
                if table.contains_key(hits[i].id) {
                    table[hits[i].id]
                } else {
                    hits[i].id
                })),
        ).flatten(),
    decreases hits.len(),
{
    let lines = Seq::new(
        hits.len(),
        |i: int|
            (if i == 0 {
                Seq::<char>::empty()
            } else {
                seq!['\n']
            }) + ("["@ + decimal_text((i + 1) as nat) + "] ("@ + hits[i].event + ") "@ + (
            if table.contains_key(hits[i].id) {
                table[hits[i].id]
            } else {
                hits[i].id
            })),
    );
    if hits.len() == 0 {
        assert(lines =~= Seq::empty());
    } else {
        let init = hits.drop_last();
        let n = init.len() as int;
        lemma_context_lists_every_result(init, table);
        let before = Seq::new(
            init.len(),
            |i: int|
                (if i == 0 {
                    Seq::<char>::empty()
                } else {
                    seq!['\n']
                }) + ("["@ + decimal_text((i + 1) as nat) + "] ("@ + init[i].event + ") "@ + (
                if table.contains_key(init[i].id) {
                    table[init[i].id]
                } else {
                    init[i].id
                })),
        );
        assert(lines =~= before.push(lines[n]));
        before.lemma_flatten_push(lines[n]);
        let line = context_line(n as nat, hits[n], table);
        if n == 0 {
            assert(before =~= Seq::empty());
            assert(lines[0] =~= line);
            assert(before.flatten() + lines[0] =~= line);
        } else {
            assert(lines[n] =~= seq!['\n'] + line);
            assert(context_text(init, table).push('\n') + line =~= context_text(init, table)
                + lines[n]);
        }
    }
}

/// The line of every result stands somewhere in the content.
pub proof fn lemma_every_result_has_its_line(
    hits: Seq<Hit>,
    table: Map<Seq<char>, Seq<char>>,
    i: int,
)
    requires
        0 <= i < hits.len(),
    ensures
        ({
            let line = "["@ + decimal_text((i + 1) as nat) + "] ("@ + hits[i].event + ") "@ + (
            if table.contains_key(hits[i].id) {
                table[hits[i].id]
            } else {
                hits[i].id
            });
            exists|at: int, end: int|
                {
                    &&& 0 <= at && end == at + line.len() && end <= context_text(hits, table).len()
                    &&& #[trigger] context_text(hits, table).subrange(at, end) == line
                }
        }),
    decreases hits.len(),
{
    let all = context_text(hits, table);
    let line = "["@ + decimal_text((i + 1) as nat) + "] ("@ + hits[i].event + ") "@ + (
    if table.contains_key(hits[i].id) {
        table[hits[i].id]
    } else {
        hits[i].id
    });
    if i == hits.len() - 1 {
        assert(all.subrange(all.len() - line.len(), all.len() as int) =~= line);
    } else {
        let init = hits.drop_last();
        let before = context_text(init, table);
        lemma_every_result_has_its_line(init, table, i);
        assert(init[i] == hits[i]);
        let (at, end) = choose|at: int, end: int|
            {
                &&& 0 <= at && end == at + line.len() && end <= before.len()
                &&& #[trigger] before.subrange(at, end) == line
            };
        assert(all.subrange(at, end) =~= line);
    }
}

/// A chat completion says what was retrieved: its content lists all of its results, and
/// these are the ones of the reply.
pub proof fn lemma_completion_lists_every_result(
    r: ChatCompletionsResponse,
    reply: Reply,
    table: Map<Seq<char>, Seq<char>>,
    query: Seq<char>,
    model: Option<String>,
    i: int,
)
    requires
        completes(r, reply, table, query, model),
        0 <= i < r.hits@.len(),
    ensures
        r.hits@.len() == reply.hits.len(),
        r.hits@[i]@ == reply.hits[i],
        ({
            let line = "["@ + decimal_text((i + 1) as nat) + "] ("@ + r.hits@[i].event@ + ") "@ + (
            if table.contains_key(r.hits@[i].id@) {
                table[r.hits@[i].id@]
            } else {
                r.hits@[i].id@
            });
            exists|at: int, end: int|
                {
                    &&& 0 <= at && end == at + line.len() && end <= r.content@.len()
                    &&& #[trigger] r.content@.subrange(at, end) == line
                }
        }),
{
    assert(hits_view(r.hits@).len() == r.hits@.len());
    assert(hits_view(r.hits@)[i] == r.hits@[i]@);
    lemma_every_result_has_its_line(reply.hits, table, i);
}

/// A chat completion counts its words, and names the model that was asked for.
pub proof fn lemma_completion_counts_words(
    r: ChatCompletionsResponse,
    reply: Reply,
    table: Map<Seq<char>, Seq<char>>,
    query: Seq<char>,
    model: Option<String>,
)
    requires
        completes(r, reply, table, query, model),
    ensures
        r.prompt_tokens == runs(
            query,
            query.map_values(|c: char| !crate::text::whitespace(c)),
        ).len(),
        r.completion_tokens == runs(
            r.content@,
            r.content@.map_values(|c: char| !crate::text::whitespace(c)),
        ).len(),
        r.prompt_tokens + r.completion_tokens <= usize::MAX ==> r.total_tokens == r.prompt_tokens
            + r.completion_tokens,
        model matches Some(name) ==> r.model@ == name@,
        model is None ==> r.model@ == "primd"@,
        r.served_by@ == reply.served_by,
        texts_of(r.predicted_events@) == reply.predicted,
{
}

/// What is said of results: as many hits as there are results, numbered from one, each
/// with the distance of its result, the id of the document, or a question mark where
/// there is none, and the name of its event, or `_default` where it has none.
pub proof fn lemma_hits_of(
    catalog: EventCatalog,
    ids: Seq<String>,
    results: Seq<(u32, usize)>,
    i: int,
)
    requires
        0 <= i < results.len(),
    ensures
        hits_of(catalog, ids, results).len() == results.len(),
        hits_of(catalog, ids, results)[i].rank == i + 1,
        hits_of(catalog, ids, results)[i].distance == results[i].0,
        hits_of(catalog, ids, results)[i].id == if results[i].1 < ids.len() {
            ids[results[i].1 as int]@
        } else {
            "?"@
        },
        hits_of(catalog, ids, results)[i].event == match catalog.event_of(results[i].1) {
            Some(event) => catalog@[event.0 as int].0,
            None => "_default"@,
        },
{
}

/// The names of some events: of each that is in the catalog its own, in order.
pub proof fn lemma_names_of(catalog: EventCatalog, events: Seq<EventId>)
    ensures
        names_of(catalog, events) == events.filter_map(
            |e: EventId|
                if e.0 < catalog@.len() {
                    Some(catalog@[e.0 as int].0)
                } else {
                    None
                },
        ),
    decreases events.len(),
{
    if events.len() > 0 {
        lemma_names_of(catalog, events.drop_last());
        let e = events.last();
        if e.0 < catalog@.len() {
            let before = names_of(catalog, events.drop_last());
            let name = catalog@[e.0 as int].0;
            assert(before.push(name) =~= before + seq![name]);
        }
    }
}

/// The texts by id: a document has the last of the texts that are given for its id.
pub proof fn lemma_table_of(ids: Seq<String>, texts: Seq<String>, i: int)
    requires
        ids.len() == texts.len(),
    ensures
        forall|id: Seq<char>| #[trigger]
            table_of(ids, texts).contains_key(id) <==> exists|j: int|
                0 <= j < ids.len() && (#[trigger] ids[j])@ == id,
        0 <= i < ids.len() && (forall|j: int|
            i < j < ids.len() ==> (#[trigger] ids[j])@ != ids[i]@) ==> table_of(
            ids,
            texts,
        )[ids[i]@] == texts[i]@,
    decreases ids.len(),
{
    if ids.len() > 0 {
        let (a, b) = (ids.drop_last(), texts.drop_last());
        lemma_table_of(a, b, i);
        assert forall|id: Seq<char>| #[trigger]
            table_of(ids, texts).contains_key(id) <==> exists|j: int|
                0 <= j < ids.len() && (#[trigger] ids[j])@ == id by {
            if table_of(a, b).contains_key(id) {
                let j = choose|j: int| 0 <= j < a.len() && (#[trigger] a[j])@ == id;
                assert(ids[j]@ == id);
            }
            assert(ids[ids.len() - 1] == ids.last());
            if exists|j: int| 0 <= j < ids.len() && (#[trigger] ids[j])@ == id {
                let j = choose|j: int| 0 <= j < ids.len() && (#[trigger] ids[j])@ == id;
                if j < a.len() {
                    assert(a[j]@ == id);
                }
            }
        }
        if 0 <= i < a.len() && (forall|j: int|
            i < j < ids.len() ==> (#[trigger] ids[j])@ != ids[i]@) {
            assert(a[i] == ids[i] && b[i] == texts[i]);
            assert(ids[ids.len() - 1]@ != ids[i]@);
            assert forall|j: int| i < j < a.len() implies (#[trigger] a[j])@ != a[i]@ by {
                assert(ids[j]@ != ids[i]@);
            }
        }
    }
}

/// The last message of a user is one of a user, and no message behind it is.
pub proof fn lemma_last_user(messages: Seq<ChatMessage>)
    ensures
        match last_user(messages) {
            Some(i) => 0 <= i < messages.len() && messages[i].role@ == "user"@ && forall|j: int|
                i < j < messages.len() ==> (#[trigger] messages[j]).role@ != "user"@,
            None => forall|j: int|
                0 <= j < messages.len() ==> (#[trigger] messages[j]).role@ != "user"@,
        },
    decreases messages.len(),
{
    if messages.len() > 0 && messages.last().role@ != "user"@ {
        let init = messages.drop_last();
        lemma_last_user(init);
        assert(forall|j: int| 0 <= j < init.len() ==> #[trigger] messages[j] == init[j]);
    }
}

/// Where requests go.
pub proof fn lemma_routes(path: Seq<char>)
    ensures
        route_of(HttpMethod::Get, "/health"@) == Route::Health,
        route_of(HttpMethod::Get, path) == Route::Health ==> path == "/health"@,
        path == "/stats"@ && "/stats"@ != "/health"@ ==> route_of(HttpMethod::Get, path)
            == Route::Stats,
        route_of(HttpMethod::Get, path) == Route::Stats ==> path == "/stats"@,
        path != "/health"@ && path != "/stats"@ ==> route_of(HttpMethod::Get, path)
            == Route::NotFound,
        route_of(HttpMethod::Post, "/query"@) == Route::Query,
        route_of(HttpMethod::Post, path) == Route::Query ==> path == "/query"@,
        path == "/v1/chat/completions"@ && path != "/query"@ ==> route_of(HttpMethod::Post, path)
            == Route::Chat,
        route_of(HttpMethod::Post, path) == Route::Chat ==> path == "/v1/chat/completions"@,
        path != "/query"@ && path != "/v1/chat/completions"@ ==> route_of(HttpMethod::Post, path)
            == if "/session/"@.len() <= path.len() && path.take("/session/"@.len() as int)
            == "/session/"@ {
            Route::Session
        } else {
            Route::NotFound
        },
        route_of(HttpMethod::Other, path) == Route::NotFound,
{
}

/// What a path with the name of a session and of an action asks for: that action of that
/// session.
pub proof fn lemma_session_path(session: Seq<char>, action: Seq<char>)
    requires
        !session.contains('/'),
        !action.contains('/'),
        action.len() > 0,
    ensures
        inner_parts("/session/"@ + session + "/"@ + action, '/') == seq![
            "session"@,
            session,
            action,
        ],
{
    reveal_strlit("/session/");
    reveal_strlit("session");
    reveal_strlit("/");
    let path = "/session/"@ + session + "/"@ + action;
    let word = "session"@;
    let inner = word.push('/') + (session.push('/') + action);
    lemma_trimmed_front(path, '/');
    let front = trimmed_front(path, '/');
    assert(path[0] == '/' && path[1] == 's');
    let n = path.len() - front.len();
    assert(n == 1) by {
        if n == 0 {
            assert(front[0] == path[0]);
        } else if n > 1 {
            assert(path[1] == '/');
        }
    }
    assert(front =~= inner);
    lemma_trimmed_back(inner, '/');
    let back = trimmed_back(inner, '/');
    assert(inner[inner.len() - 1] == action[action.len() - 1]);
    assert(action.contains(action[action.len() - 1]));
    assert(back.len() == inner.len()) by {
        if back.len() < inner.len() {
            assert(inner[inner.len() - 1] == '/');
        }
    }
    assert(back =~= inner);
    assert(!word.contains('/'));
    lemma_parts_break(word, '/', session.push('/') + action);
    lemma_parts_break(session, '/', action);
    lemma_one_part(word, '/');
    lemma_one_part(session, '/');
    lemma_one_part(action, '/');
    assert(seq![word] + (seq![session] + seq![action]) =~= seq![word, session, action]);
}

/// The names of the actions.
pub proof fn lemma_actions(name: Seq<char>)
    ensures
        action_named(name) == Some(SessionAction::Observe) <==> name == "observe"@,
        action_named(name) == Some(SessionAction::Finalize) <==> name == "finalize"@,
        action_named(name) == Some(SessionAction::Warm) <==> name == "warm"@,
        action_named(name) == Some(SessionAction::Reset) <==> name == "reset"@,
{
    reveal_strlit("observe");
    reveal_strlit("finalize");
    reveal_strlit("warm");
    reveal_strlit("reset");
    assert("observe"@.len() == 7 && "finalize"@.len() == 8 && "warm"@.len() == 4 && "reset"@.len()
        == 5);
}

/// The labels of where answers come from.
pub proof fn lemma_labels()
    ensures
        label_text(ServedBy::FullScan) == "full_scan"@,
        label_text(ServedBy::ShardScan) == "shard_scan"@,
        label_text(ServedBy::Speculative) == "speculative"@,
        label_text(ServedBy::DeltaCache) == "delta_cache"@,
{
}

/// A chat completion retrieves as many documents as asked for, at least one, and five
/// where it is not said.
pub proof fn lemma_chat_k(k: usize)
    ensures
        chat_k(None) == 5,
        k > 0 ==> chat_k(Some(k)) == k,
        chat_k(Some(0)) == 1,
{
}

} // verus!
