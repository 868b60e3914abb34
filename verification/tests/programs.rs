use primd::clock::unix_seconds;
use primd::corpus::{
    build_manifest, check_entries, check_index_dim, check_query_count, check_query_embedder,
    check_query_text, collect_sequences, doc_id, embed_hashed, event_label, group_by_event,
    hashed_embedder, result_rows, CorpusEntry, IndexSettings, Manifest, TranscriptLine,
};
use primd::embedded::{parse_signature, Hit, PrimdIndex};
use primd::models::{EmbedderKind, LocalModelKind};
use primd::server::{
    body_or_object, chat_top_k, complete_chat, default_top_k, error_body, extract_user_query,
    format_retrieved_context, parse_session_path, route, served_by_label, ChatCompletionsRequest,
    ChatMessage, HttpMethod, QueryHit, QueryRequest, QueryResponse, Route, SessionAction,
    TextTable,
};
use primd::service::ServeState;
use primd::text::is_blank;
use primd::{BinarySignature, EventCatalog, EventId, HashedEmbedder, ServedBy, SignatureIndex};

fn msg(role: &str, content: &str) -> ChatMessage {
    ChatMessage {
        role: role.to_string(),
        content: content.to_string(),
    }
}

#[test]
fn extract_user_query_returns_latest_user_message() {
    let messages = vec![
        msg("system", "you are a helpful assistant"),
        msg("user", "first question"),
        msg("assistant", "first answer"),
        msg("user", "what about pricing"),
    ];
    let q = extract_user_query(&messages).unwrap();
    assert_eq!(q, "what about pricing");
}

#[test]
fn extract_user_query_errors_on_no_user_messages() {
    let messages = vec![msg("system", "hi"), msg("assistant", "hi back")];
    assert!(extract_user_query(&messages).is_err());
}

#[test]
fn extract_user_query_errors_on_empty_user_message() {
    let messages = vec![msg("user", "   ")];
    assert!(extract_user_query(&messages).is_err());
}

#[test]
fn format_retrieved_context_uses_text_when_available() {
    let mut texts = TextTable::new();
    texts.insert("faq-1".to_string(), "We offer a 14-day free trial.".to_string());
    let hits = vec![QueryHit {
        rank: 1,
        distance: 12,
        id: "faq-1".to_string(),
        event: "trial".to_string(),
    }];
    let out = format_retrieved_context(&hits, &texts);
    assert_eq!(out, "[1] (trial) We offer a 14-day free trial.");
}

#[test]
fn format_retrieved_context_falls_back_to_id_when_text_absent() {
    let texts = TextTable::new();
    let hits = vec![QueryHit {
        rank: 1,
        distance: 12,
        id: "faq-unknown".to_string(),
        event: "x".to_string(),
    }];
    let out = format_retrieved_context(&hits, &texts);
    assert_eq!(out, "[1] (x) faq-unknown");
}

#[test]
fn format_retrieved_context_numbers_multiple_hits() {
    let texts = TextTable::new();
    let hits = vec![
        QueryHit {
            rank: 1,
            distance: 1,
            id: "a".to_string(),
            event: "e1".to_string(),
        },
        QueryHit {
            rank: 2,
            distance: 2,
            id: "b".to_string(),
            event: "e2".to_string(),
        },
    ];
    let out = format_retrieved_context(&hits, &texts);
    assert_eq!(out, "[1] (e1) a\n[2] (e2) b");
}

#[test]
fn requests_are_routed_by_method_and_path() {
    assert_eq!(route(HttpMethod::Get, "/health"), Route::Health);
    assert_eq!(route(HttpMethod::Get, "/stats"), Route::Stats);
    assert_eq!(route(HttpMethod::Post, "/query"), Route::Query);
    assert_eq!(route(HttpMethod::Get, "/query"), Route::NotFound);
    assert_eq!(route(HttpMethod::Post, "/v1/chat/completions"), Route::Chat);
    assert_eq!(route(HttpMethod::Post, "/session/a/warm"), Route::Session);
    assert_eq!(route(HttpMethod::Other, "/health"), Route::NotFound);
}

#[test]
fn session_paths_name_a_session_and_an_action() {
    assert_eq!(
        parse_session_path("/session/s-1/observe"),
        Ok(("s-1".to_string(), SessionAction::Observe))
    );
    assert_eq!(
        parse_session_path("/session/s-1/finalize"),
        Ok(("s-1".to_string(), SessionAction::Finalize))
    );
    assert_eq!(
        parse_session_path("/session/s-1/warm"),
        Ok(("s-1".to_string(), SessionAction::Warm))
    );
    assert_eq!(
        parse_session_path("/session/s-1/reset"),
        Ok(("s-1".to_string(), SessionAction::Reset))
    );
    assert_eq!(
        parse_session_path("/session/s-1/drop"),
        Err("unknown session action".to_string())
    );
    assert_eq!(
        parse_session_path("/session/s-1"),
        Err("expected /session/{id}/{action}".to_string())
    );
}

#[test]
fn error_bodies_are_escaped() {
    assert_eq!(error_body("no \"text\""), "{\"error\":\"no \\\"text\\\"\"}");
}

#[test]
fn labels_and_defaults() {
    assert_eq!(served_by_label(ServedBy::FullScan), "full_scan");
    assert_eq!(served_by_label(ServedBy::ShardScan), "shard_scan");
    assert_eq!(served_by_label(ServedBy::Speculative), "speculative");
    assert_eq!(served_by_label(ServedBy::DeltaCache), "delta_cache");
    assert_eq!(default_top_k(), 10);
    assert_eq!(chat_top_k(None), 5);
    assert_eq!(chat_top_k(Some(3)), 3);
}

fn entry(id: &str, text: &str, event: Option<&str>) -> CorpusEntry {
    CorpusEntry {
        id: id.to_string(),
        text: text.to_string(),
        event: event.map(|e| e.to_string()),
    }
}

fn corpus() -> Vec<CorpusEntry> {
    vec![
        entry("p1", "premium plan costs twenty dollars monthly", Some("pricing")),
        entry("t1", "free trial lasts fourteen days", Some("trial")),
        entry("p2", "enterprise pricing is negotiated annually", Some("pricing")),
        entry("x", "headquarters are located in Lisbon", None),
    ]
}

fn settings() -> IndexSettings {
    IndexSettings {
        embedder: EmbedderKind::Hashed,
        dim: 256,
        no_bigrams: false,
        openai_model: None,
        local_model: LocalModelKind::AllMinilm,
    }
}

fn manifest() -> Manifest {
    build_manifest(settings(), &corpus())
}

fn signatures() -> Vec<BinarySignature> {
    let texts: Vec<String> = corpus().into_iter().map(|e| e.text).collect();
    embed_hashed(256, true, &texts).unwrap()
}

fn service() -> ServeState<HashedEmbedder> {
    ServeState::new(HashedEmbedder::new(256), manifest(), SignatureIndex::new(signatures()))
        .unwrap()
}

fn ask(text: &str, top_k: usize) -> QueryRequest {
    QueryRequest { text: text.to_string(), top_k, parallel: false }
}

#[test]
fn entries_are_grouped_by_event() {
    let scope = group_by_event(&corpus());
    assert_eq!(scope.len(), 3);
    assert_eq!((scope.name(0), scope.indices(0)), ("_default", &[3usize][..]));
    assert_eq!((scope.name(1), scope.indices(1)), ("pricing", &[0usize, 2][..]));
    assert_eq!((scope.name(2), scope.indices(2)), ("trial", &[1usize][..]));
}

#[test]
fn manifests_describe_the_corpus() {
    let m = manifest();
    assert_eq!(m.n_entries, 4);
    assert_eq!(m.ids, vec!["p1", "t1", "p2", "x"]);
    assert_eq!(m.texts[1], "free trial lasts fourteen days");
    assert!(m.use_bigrams);
    assert_eq!(m.projection_seed, None);
    assert_eq!(m.scope.get("trial"), Some(&[1usize][..]));
}

#[test]
fn unusable_corpora_and_queries_are_refused() {
    assert_eq!(check_index_dim(256), Ok(()));
    assert_eq!(
        check_index_dim(128),
        Err("dim=128 not yet supported; only 256 (direct quantize) is wired up".to_string())
    );
    assert_eq!(check_entries(&vec![]), Err("input contained no entries".to_string()));
    assert_eq!(check_entries(&corpus()), Ok(()));
    assert_eq!(check_query_embedder("hashed"), Ok(()));
    assert_eq!(
        check_query_embedder("openai"),
        Err("this build only knows how to load 'hashed' indexes; manifest says 'openai'"
            .to_string())
    );
    assert_eq!(check_query_count(4, 4), Ok(()));
    assert_eq!(
        check_query_count(4, 3),
        Err("manifest says 4 entries but signatures.bin has 3".to_string())
    );
    assert_eq!(
        check_query_text(""),
        Err("no query text provided (use --text or pipe to stdin)".to_string())
    );
    assert_eq!(check_query_text("hi"), Ok(()));
}

#[test]
fn hashed_embedding_needs_256_components() {
    assert!(hashed_embedder(256, true).is_ok());
    assert!(hashed_embedder(64, true).is_err());
    let texts = vec!["dog bites man".to_string()];
    let plain = embed_hashed(256, false, &texts).unwrap();
    assert_eq!(
        plain[0],
        HashedEmbedder::new(256).without_bigrams().embed_to_signature("dog bites man").unwrap()
    );
}

#[test]
fn result_rows_are_aligned() {
    let catalog = EventCatalog::from_named_scope(&group_by_event(&corpus()), 4);
    let ids = manifest().ids;
    assert_eq!(
        result_rows(&catalog, &ids, &vec![(7, 1), (102, 9)]),
        vec![
            format!("   1     7  {:<20}  trial", "t1"),
            format!("   2   102  {:<20}  {}", doc_id(&ids, 9), event_label(&catalog, 9)),
        ]
    );
}

#[test]
fn transcripts_become_event_sequences() {
    let scope = group_by_event(&corpus());
    let turn = |session: &str, event: &str| TranscriptLine::Turn {
        session: session.to_string(),
        event: event.to_string(),
    };
    let lines = vec![
        turn("a", "trial"),
        TranscriptLine::Sequence {
            events: vec!["pricing".to_string(), "nowhere".to_string(), "trial".to_string()],
        },
        turn("b", "pricing"),
        turn("a", "pricing"),
    ];
    let sequences = collect_sequences(&scope, &lines).unwrap();
    assert!(sequences.contains(&vec![EventId(1), EventId(2)]));
    assert!(sequences.contains(&vec![EventId(2), EventId(1)]));
    assert_eq!(
        collect_sequences(&scope, &vec![turn("b", "pricing")]),
        Err("no valid event sequences found in transcripts".to_string())
    );
}

#[test]
fn queries_are_answered_and_counted() {
    let mut s = service();
    let r = s.handle_query(&ask("premium plan costs twenty dollars monthly", 2)).unwrap();
    assert_eq!(r.hits[0].id, "p1");
    assert_eq!(r.hits[0].rank, 1);
    assert_eq!(r.hits[0].distance, 0);
    assert_eq!(r.hits[0].event, "pricing");
    assert_eq!(r.hits.len(), 2);
    assert_eq!(r.corpus_size, 4);
    assert_eq!(s.stats().queries_served, 1);
    assert_eq!(s.stats().sessions, 0);
    assert_eq!(s.handle_query(&ask("   ", 2)).err(), Some("text is empty".to_string()));
    assert_eq!(s.stats().queries_served, 1);
}

#[test]
fn manifests_that_do_not_fit_are_refused() {
    let r = ServeState::new(
        HashedEmbedder::new(256),
        manifest(),
        SignatureIndex::new(signatures()[..3].to_vec()),
    );
    assert!(r.is_err());
}

#[test]
fn sessions_speculate_and_warm_up() {
    let mut s = service();
    let text = "free trial lasts fourteen days";
    s.handle_observe("u", &ask(text, 2)).unwrap();
    let r = s.handle_finalize("u", &ask(text, 2)).unwrap();
    assert_eq!(r.served_by, "speculative");
    assert_eq!(r.hits[0].id, "t1");
    s.handle_finalize("u", &ask("premium plan costs twenty dollars monthly", 2)).unwrap();
    assert!(s.can_continue("u"));
    let warm = s.handle_warm("u");
    assert!(!warm.predicted_events.is_empty());
    assert_eq!(s.stats().sessions, 1);
    s.handle_reset("u");
    // Sessions take blank texts.
    assert!(s.handle_observe("u", &ask(" ", 2)).is_ok());
    assert!(s.handle_finalize("u", &ask("", 2)).is_ok());
}

#[test]
fn embedders_that_fail_open_no_session() {
    let mut s = ServeState::new(
        HashedEmbedder::new(128),
        manifest(),
        SignatureIndex::new(signatures()),
    )
    .unwrap();
    let why = "invalid embedding dimension: expected 256, got 128".to_string();
    assert_eq!(s.handle_query(&ask("hi", 1)).err(), Some(why.clone()));
    assert_eq!(s.handle_observe("u", &ask("hi", 1)).err(), Some(why.clone()));
    assert_eq!(s.handle_finalize("u", &ask("hi", 1)).err(), Some(why));
    assert_eq!(s.stats().sessions, 0);
    assert_eq!(s.stats().queries_served, 0);
    assert_eq!(s.corpus_size(), 4);
    assert_eq!(s.manifest().n_entries, 4);
}

#[test]
fn chats_are_answered_with_the_retrieved_context() {
    let mut s = service();
    let req = ChatCompletionsRequest {
        messages: vec![msg("user", "free trial lasts fourteen days")],
        model: None,
        user: Some("u-7".to_string()),
        top_k: Some(1),
    };
    let before = unix_seconds();
    let r = s.handle_chat_completions(&req).unwrap();
    assert_eq!(r.content, "[1] (trial) free trial lasts fourteen days");
    assert_eq!(r.model, "primd");
    assert_eq!(r.prompt_tokens, 5);
    assert_eq!(r.completion_tokens, 7);
    assert_eq!(r.total_tokens, 12);
    assert!(r.created >= before);
    assert!(r.id.starts_with("chatcmpl-primd-"));
    assert_eq!(s.stats().sessions, 1);
    let silent = ChatCompletionsRequest {
        messages: vec![msg("system", "hi")],
        model: None,
        user: None,
        top_k: None,
    };
    assert_eq!(
        s.handle_chat_completions(&silent).err(),
        Some("messages must contain at least one user message".to_string())
    );
}

#[test]
fn completions_carry_the_answer() {
    let answer = QueryResponse {
        embedder: EmbedderKind::Hashed,
        embed_us: 3,
        scan_us: 4,
        corpus_size: 1,
        hits: vec![QueryHit {
            rank: 1,
            distance: 0,
            id: "a".to_string(),
            event: "e".to_string(),
        }],
        served_by: "full_scan",
        predicted_events: vec!["e".to_string()],
        shard_scope_size: 1,
    };
    let mut texts = TextTable::new();
    texts.insert("a".to_string(), "two words".to_string());
    assert_eq!(texts.get("b"), None);
    let r = complete_chat(answer, &texts, "what now", Some("m".to_string()), 12, 13);
    assert_eq!(r.id, "chatcmpl-primd-12");
    assert_eq!(r.created, 13);
    assert_eq!(r.model, "m");
    assert_eq!(r.content, "[1] (e) two words");
    assert_eq!((r.prompt_tokens, r.completion_tokens, r.total_tokens), (2, 4, 6));
    assert_eq!((r.embed_us, r.scan_us), (3, 4));
    assert_eq!(r.predicted_events, vec!["e".to_string()]);
}

#[test]
fn types_compile_on_host() {
    assert!(std::mem::size_of::<PrimdIndex>() > 0);
    let h = Hit { rank: 1, distance: 12, doc_idx: 42, event: "trial".to_string() };
    assert_eq!((h.rank, h.distance, h.doc_idx), (1, 12, 42));
    assert_eq!(h.event, "trial");
}

fn embedded() -> PrimdIndex {
    let flat: Vec<u8> = [0x10u8, 0x11, 0xF0, 0xF1].iter().flat_map(|b| [*b; 32]).collect();
    PrimdIndex::new(
        &flat,
        &vec!["b".to_string(), "a".to_string()],
        &vec![vec![2, 3], vec![0, 1]],
    )
    .unwrap()
}

#[test]
fn embedded_indexes_answer_raw_signatures() {
    let index = embedded();
    assert_eq!(index.len(), 4);
    let hits = index.query(&[0xF0; 32], 2).unwrap();
    assert_eq!((hits[0].rank, hits[0].distance, hits[0].doc_idx), (1, 0, 2));
    assert_eq!(hits[0].event, "b");
    assert_eq!((hits[1].rank, hits[1].distance, hits[1].doc_idx), (2, 32, 3));
    assert_eq!(
        index.query(&[0; 31], 2).err(),
        Some("signature_bytes must be exactly 32 bytes".to_string())
    );
}

#[test]
fn embedded_sessions_follow_the_utterance() {
    let mut index = embedded();
    index.session_start();
    index.observe_partial(&[0x10; 32], 1).unwrap();
    let r = index.finalize(&[0x10; 32], 1).unwrap();
    assert_eq!(r.served_by, "speculative");
    assert_eq!(r.hits[0].doc_idx, 0);
    assert!(index.can_continue());
    index.warm_next();
    assert!(index.observe_partial(&[1, 2], 1).is_err());
    assert!(index.finalize(&[1, 2], 1).is_err());
}

#[test]
fn embedded_indexes_check_their_parts() {
    let r = PrimdIndex::new(&[0; 33], &vec![], &vec![]);
    assert_eq!(
        r.err(),
        Some("signatures_flat length must be a multiple of 32 bytes".to_string())
    );
    let r = PrimdIndex::new(&[0; 32], &vec!["a".to_string()], &vec![]);
    assert_eq!(
        r.err(),
        Some("event_names and event_scopes must have the same length".to_string())
    );
    assert_eq!(parse_signature(&[7; 32]), Ok(BinarySignature([7; 32])));
    assert!(PrimdIndex::new(&[], &vec![], &vec![]).unwrap().is_empty());
}

#[test]
fn a_new_session_has_learned_nothing() {
    let mut index = embedded();
    for _ in 0..4 {
        index.finalize(&[0x10; 32], 1).unwrap();
        index.finalize(&[0xF0; 32], 1).unwrap();
    }
    index.warm_next();
    index.session_start();
    index.finalize(&[0x10; 32], 1).unwrap();
    index.warm_next();
    // Nothing is predicted, so that nothing narrows the scan.
    let r = index.finalize(&[0xF1; 32], 1).unwrap();
    assert_eq!((r.hits[0].doc_idx, r.hits[0].distance), (3, 0));
}

#[test]
fn sessions_are_counted() {
    let mut s = service();
    s.handle_observe("a", &ask("free trial", 1)).unwrap();
    s.handle_finalize("b", &ask("free trial", 1)).unwrap();
    s.handle_warm("a");
    s.handle_warm("c");
    assert_eq!(s.stats().sessions, 3);
    s.handle_reset("b");
    s.handle_reset("z");
    assert_eq!(s.stats().sessions, 2);
    assert_eq!(s.stats().queries_served, 1);
}

#[test]
fn blank_bodies_stand_for_an_empty_object() {
    assert_eq!(body_or_object(" \n"), "{}");
    assert_eq!(body_or_object("{\"a\":1}"), "{\"a\":1}");
}

#[test]
fn unicode_white_space_is_blank() {
    let spaces: Vec<u32> = (0x9..=0xd)
        .chain([0x20, 0x85, 0xa0, 0x1680])
        .chain(0x2000..=0x200a)
        .chain([0x2028, 0x2029, 0x202f, 0x205f, 0x3000])
        .collect();
    let mut found = Vec::new();
    for u in 0..=0x10_ffffu32 {
        if let Some(c) = char::from_u32(u) {
            if is_blank(&c.to_string()) {
                found.push(u);
            }
        }
    }
    assert_eq!(found, spaces);
}
