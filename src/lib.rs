//! Resolution of language servers for project paths, with a rebase protocol that
//! keeps the identity of every server whose configuration did not change.
pub mod types;
pub mod adapters;
pub mod tree;
pub mod rebase;
pub mod laws;
pub mod agent_command;
