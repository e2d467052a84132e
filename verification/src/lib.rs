//! A verified hierarchical clipboard-history store.
//!
//! Entries are (key, value) pairs of text strings, grouped into named
//! histories.  The library holds the store itself, its merge, search and
//! flatten operations, and the codecs for the persisted JSON document and
//! for the CSV interchange format.  File and clipboard access stay outside.

pub mod errors;
pub mod strutil;
pub mod store;
pub mod merge;
pub mod search;
pub mod csv_codec;
pub mod json_codec;
pub mod session;
