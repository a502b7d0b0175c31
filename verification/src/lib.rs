//! A personal media library: content ingestion (fingerprinting,
//! classification, attribute extraction, thumbnail generation) and a
//! typo-tolerant full-text search index over the ingested records.
//!
//! The [`content_manager::Library`] context object owns the metadata
//! store and the search index; every operation goes through it, and a
//! mutation is always visible to the very next search.

pub mod classify;
pub mod content_manager;
pub mod directory;
pub mod edit_distance;
pub mod fingerprint;
pub mod file_utils;
pub mod foc_error;
pub mod metadata;
pub mod preferences;
pub mod searcher;
pub mod store;
pub mod text;
pub mod thumbnail;
pub mod web_extension;
