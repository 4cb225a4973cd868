//! Status: the kinds of change it reports and how they are gathered.
pub mod file_change;
pub mod status_info;
