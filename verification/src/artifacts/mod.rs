//! Git data structures and algorithms.
pub mod branch;
pub mod checkout;
pub mod database;
pub mod diff;
pub mod index;
pub mod log;
pub mod merge;
pub mod objects;
pub mod status;
