//! What the commands decide, apart from their input and output.
pub mod add;
pub mod branch;
pub mod log;
pub mod merge;
