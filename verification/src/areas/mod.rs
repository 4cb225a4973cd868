//! Repository areas: the object database, references and the workspace.
pub mod database;
pub mod refs;
pub mod workspace;
