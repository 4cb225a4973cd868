//! Entries of tree objects read from the object database.
pub mod database_entry;
