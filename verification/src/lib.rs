//! A vector space model search index.
//!
//! A corpus of documents is represented as sparse weighted vectors over a
//! global term dictionary. The crate builds such an index from tokenized
//! documents, persists it as a single self-describing artifact, loads it
//! back, and answers candidate-retrieval queries: given a query vector,
//! enumerate the stored document vectors that share at least one dimension
//! with it.
//!
//! Weights are IEEE 754 single-precision values. This crate never performs
//! floating-point arithmetic itself: every weight and every vector length
//! is carried as its raw bit pattern in a `u32`, and callers that need the
//! numeric value (cosine similarity, TF-IDF weighting) convert at the
//! boundary with `f32::from_bits` / `f32::to_bits`.

pub mod build;
pub mod document;
pub mod error;
pub mod index;
pub mod inv_index;
pub mod lex;
pub mod lock_step;
pub mod mem_file;
pub mod metadata;
pub mod term_store;
pub mod traits;
pub mod vector;
pub mod vector_store;

pub use document::DocumentVector;
pub use error::Error;
pub use index::Index;
pub use metadata::DefaultMetadata;
pub use vector::Vector;
pub use vector_store::VectorStore;
