//! Core of a peer-to-peer collaboration node built on append-only signed
//! logs.
//!
//! Operations (signed headers with optional bodies) are organised into
//! per-author logs, validated and ordered by an ingestion pipeline, persisted
//! in an in-memory log store, and surfaced to the application through a
//! stream controller that tracks acknowledgements and supports replay.

pub mod bytes;
pub mod cbor;
pub mod crypto;
pub mod extensions;
pub mod hexfmt;
pub mod blobs;
pub mod messages;
pub mod node;
pub mod operation;
pub mod store;
pub mod stream;
pub mod topic;
