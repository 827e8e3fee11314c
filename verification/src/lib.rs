//! A cache-coordinated entry store for short-lived text pastes.
//!
//! Entries live in a durable store until they are deleted, consumed by a
//! burn-after-read fetch, or reclaimed by a purge sweep once expired. Rendered
//! views of an entry are kept in a bounded least-recently-used cache that is
//! held coherent with the store: no cached rendering may outlive its row.

pub mod cache;
pub mod clock;
pub mod entry;
pub mod error;
pub mod laws;
pub mod layer;
pub mod render;
pub mod seqfacts;
pub mod store;
