//! Commit history support: the traversal and path filters of `log`.
pub mod path_filter;
pub mod rev_list;
