//! A declarative state-reconciliation engine.
//!
//! A desired-state tree names packages per package manager, files to place,
//! hooks and template variables. The library merges fragments of such a tree,
//! reconciles a new tree against a recorded one into prioritised changes, and
//! compiles each change into concrete actions.

pub mod action;
pub mod change;
pub mod config;
pub mod engine;
pub mod expand;
pub mod merge;
pub mod order;
pub mod paint;
pub mod reconcile;
pub mod render;
pub mod steps;
pub mod strmap;
pub mod strset;
pub mod template;
pub mod text;
pub mod variables;
