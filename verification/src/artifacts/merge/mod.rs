//! Merging: the inputs of a merge, their best common ancestor, and the
//! classification of the changed paths.
pub mod bca_finder;
pub mod inputs;
pub mod resolution;
