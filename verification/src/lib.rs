//! A static-site build pipeline: a declarative configuration names data
//! queries over a flat-file record store and the pages to render from them.
//! This crate holds the pipeline's logic — the query evaluator with its
//! filter, sort, limit and first/last reduction, the context composer, the
//! path templater, the page planner and the watch-loop decisions — each with
//! a proved contract. Reading the store, rendering templates and writing
//! files stay with the program around it.

use vstd::prelude::*;

pub mod compiler;
pub mod config;
pub mod paths;
pub mod query;
pub mod record;
pub mod store;
pub mod utils;
pub mod watch;

verus! {

/// The kinds of failure a build pass can surface. Each variant carries a
/// human-readable description of what went wrong.
#[derive(Debug, PartialEq, Eq)]
pub enum Error {
    /// The filesystem watcher or debouncer failed to initialize or attach.
    WatchSetup(String),
    /// The renderer failed to parse or render a template.
    Template(String),
    /// A read, write, or directory operation failed.
    Filesystem(String),
    /// The configuration text was malformed or missed a required field.
    ConfigParse(String),
    /// A `when_matches` predicate held an invalid regular expression.
    Pattern(String),
}

} // verus!
