//! Compiles workflow definitions into a validated action graph and a
//! dependency-respecting execution order.
//!
//! The way from a workflow file to a run goes through these modules:
//!
//! - [`hir::parser`] decodes blocks of key/value pairs into typed definitions;
//! - [`hir::builder`] resolves the names in them into a [`hir::Hir`];
//! - [`hir::lint`] holds the result to a set of rules and reports every breach;
//! - [`scheduler`] orders the actions so that each comes after all it needs,
//!   or finds a cycle;
//! - [`execute`] computes the command line that runs one action.
//!
//! Every function states what it returns over the mathematical value of its
//! arguments, which `deep_view` gives for each type.

pub mod execute;
pub mod hir;
pub mod scheduler;
pub mod string_map;
pub mod text;
pub mod view;
