//! Branch names and revision expressions.
//!
//! Revision syntax: branch names (`main`, `feature/x`), the alias `@` for
//! `HEAD`, first parents (`main^`), ancestors (`main~3`) and object
//! identifiers in full or abbreviated.
pub mod branch_name;
pub mod revision;
