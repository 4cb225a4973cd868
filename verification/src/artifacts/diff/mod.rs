//! Tree diffs and the two sides of a file diff.
pub mod diff_target;
pub mod tree_diff;
