//! Verified core of a small Git implementation: object formats, index
//! entries, branch names and revisions, tree diffs, path filters, merge
//! classification and checkout planning.
pub mod areas;
pub mod artifacts;
pub mod commands;
pub mod external;
pub mod keyed;
pub mod path_order;
pub mod text;
