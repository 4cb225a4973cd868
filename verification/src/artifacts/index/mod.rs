//! Index (staging area) entries and their modes.
pub mod entry_mode;
pub mod index_entry;
