//! primd: predictive retrieval for real-time conversations.
//!
//! Documents are 256-bit signatures, and a query is answered by the signatures
//! at the smallest Hamming distance. Most of the work happens ahead of the
//! query: while the user speaks, partial transcripts are scanned for
//! ([`query_context::QueryContext::observe_partial`]); while the answer is
//! spoken, the next events are predicted and their documents staged
//! ([`query_context::QueryContext::warm_next`]); and answers to nearly the same
//! query are kept ([`cache::DeltaCache`]).
//!
//! - Signatures: [`signature`], [`quantize`], [`hashed`], [`random_indexing`].
//! - Search: [`heap`], [`signature_index`], [`events`], [`shards`], [`hnsw`].
//! - Conversations: [`state`], [`streaming`], [`cache`], [`prefetch`],
//!   [`query_context`].
//! - Prediction: [`predictor`], [`markov`], [`counting`], [`trainer`],
//!   [`successor`], [`hybrid`].
//! - Cold storage: [`bitvec`], [`signature_dwm`], [`dwm_cold_tier`].
//! - Programs: [`corpus`], [`models`], [`server`], [`service`], [`embedded`].

pub mod bits;
pub mod bitvec;
pub mod cache;
pub mod clock;
pub mod cold_tier;
pub mod corpus;
pub mod counting;
pub mod dwm_cold_tier;
pub mod embedded;
pub mod error;
pub mod events;
pub mod hashed;
pub mod heap;
pub mod hnsw;
pub mod hybrid;
pub mod markov;
pub mod models;
pub mod named_scope;
pub mod parallel;
pub mod predictor;
pub mod prefetch;
pub mod quantize;
pub mod query_context;
pub mod random_indexing;
pub mod server;
pub mod service;
pub mod shards;
pub mod signature;
pub mod signature_dwm;
pub mod signature_index;
pub mod single;
pub mod sorting;
pub mod state;
pub mod streaming;
pub mod successor;
pub mod text;
pub mod trainer;

pub use bitvec::BitVector;
pub use cache::{DeltaCache, DeltaCacheStats};
pub use cold_tier::ColdTier;
pub use dwm_cold_tier::DwmColdTier;
pub use error::PrimdError;
pub use events::EventCatalog;
pub use hashed::HashedEmbedder;
pub use heap::TopKHeap;
pub use markov::MarkovPredictor;
pub use named_scope::NamedScope;
pub use predictor::{NextTurnPredictor, Prediction};
pub use quantize::PcaProjector;
pub use query_context::{QueryContext, QueryOutput, ServedBy};
pub use random_indexing::RandomIndexer;
pub use shards::{HierarchicalIndex, SearchOptions, SearchResult};
pub use signature::BinarySignature;
pub use signature_dwm::SignatureDwm;
pub use signature_index::SignatureIndex;
pub use state::{ConversationState, EventId, Observation};
pub use streaming::{EmitDecision, StreamingQuery, StreamingStats};
