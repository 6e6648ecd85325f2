//! An embedded full-text index: an analyzer that turns text into terms, a
//! writer that commits immutable segments under a generation-numbered
//! manifest, point-in-time searchers, a query language and a ranked top-k
//! collector; the file format and the crash-safe order of a commit's file
//! operations; and the reading of bookmarks and page text that feed it.

pub mod analyzer;
pub mod index;
pub mod search;
pub mod query;
pub mod laws;
pub mod storage;
pub mod codec;
pub mod bookmarks;
