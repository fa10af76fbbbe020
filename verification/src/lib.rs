//! An offline dictionary engine for the StarDict on-disk format.
//!
//! A dictionary lives in a directory as three files: a textual metadata
//! file, a binary sorted index, and a (possibly gzip-compressed) payload
//! blob.  This crate parses those three parts from in-memory bytes, keeps
//! the index sorted under a case-insensitive order, and answers exact and
//! fuzzy (edit-distance) queries against it.  Reading the files from disk,
//! the online fallback, history persistence and terminal rendering are left
//! to the surrounding application.

pub mod cli;
pub mod dict;
pub mod dicts;
pub mod edit_distance;
pub mod error;
pub mod index;
pub mod metadata;
pub mod payload;
pub mod review_helper;
pub mod stardict;
pub mod text;

pub use text::lower_of;
