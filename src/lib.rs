//! A document index over an ordered byte-keyed storage engine.
//!
//! Documents are flattened into primary cells (one per field) and reverse
//! index entries (one per indexed field value), all living in one sorted
//! keyspace. This crate holds the key codec and the decisions of each
//! operation: what to read back from a scan, and which writes and erasures
//! bring the keyspace to the state an operation asks for. Running the scans
//! and applying the changes is left to the caller that owns the engine; the
//! `laws` module states, over a model of the engine as a map, what the
//! operations guarantee together.
pub mod codec;
pub mod document;
pub mod laws;
pub mod store;

pub use document::{
    decode_text, document_from_parts, user_document, Document, Field, IndexError, Number,
    Scalar, User,
};
pub use store::{
    check_document, find_ids, list_documents, plan_delete, plan_put, read_document, Entry, Op,
};
