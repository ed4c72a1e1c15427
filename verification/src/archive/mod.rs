//! ZIP creation and reading.
//!
//! Reading walks the archive's own central directory, because a name-keyed reader
//! silently collapses entries that share a filename: a legal archive with two
//! `notes.txt` entries would be listed as one file, and the other one would be
//! gone with no signal. Every entry the directory records is listed and
//! extractable.

pub mod create;
pub mod directory;
pub mod entry;
pub mod extract;
pub mod laws;
pub mod list;
pub mod listing_laws;
pub mod names;
pub mod outside;
