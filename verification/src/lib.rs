//! Navigation history store and resolution engine for a `cd` helper.
//!
//! The crate keeps a persistent, deduplicated history of visited
//! directories and resolves user requests (a literal path, a path-suffix
//! shortcut, a relative revision, or an interactive pick) into a validated
//! directory plus the history entry that records the visit.

pub mod cd;
pub mod cli;
pub mod codec;
pub mod config;
pub mod errors;
pub mod history;
pub mod opts;
pub mod path;
pub mod text;
pub mod theme;
