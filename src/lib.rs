//! A small vector similarity index over an ordered key-value store.
//!
//! The verified part of the library holds the decisions of the query path:
//! how similarity scores are ordered, where records live in the store's key
//! space and which key range one scan must cover, and the bounded best-k
//! selection that a scan feeds.
pub mod keys;
pub mod score;
pub mod selection;
