//! A verified feed-ingestion and deduplication pipeline.
//!
//! The library fetches nothing itself: callers hand it the bytes of a
//! syndication feed and the text of the durable cache file, and it decides
//! which items are new, renders each new item as a standalone document, and
//! maintains the per-source record of identifiers already processed.
//!
//! - [`feed`] parses fetched bytes into items and classifies fetch errors;
//! - [`cache`] holds the per-source seen sets, with query and commit;
//! - [`ingest`] filters one source's items against the cache and renders
//!   the new ones, staging their identifiers;
//! - [`run`] folds every source's outcome into the cache, isolating
//!   failures, and proves the run-level laws;
//! - [`render`] builds each document's name and text;
//! - [`persist`] reads and writes the cache's durable JSON form;
//! - [`date`] names the run's output directory after its date.

use vstd::prelude::*;

pub mod cache;
pub mod date;
pub mod feed;
pub mod ingest;
pub mod persist;
pub mod render;
pub mod run;

verus! {

} // verus!
