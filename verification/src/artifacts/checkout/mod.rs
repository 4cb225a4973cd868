//! Checkout: the conflicts that stop it and the plan of its changes.
pub mod conflict;
pub mod migration;
