//! UHPM: a user-space package manager core.
//!
//! The library holds the verified lifecycle engine: the expander for
//! activation-link targets, the activation-map parser, the archive engine,
//! the manifest codec, the relational catalog of installed packages, the
//! repository index logic, and the coordinator that drives install, switch,
//! update and remove as transitions over a model of the catalog and the
//! filesystem. Process entry, network and disk I/O live outside the library
//! and hand it plain values.

use vstd::prelude::*;

pub mod strutil;
pub mod version;
pub mod manifest;
pub mod catalog;
pub mod paths;
pub mod fsmodel;
pub mod symlist;
pub mod archive;
pub mod engine;
pub mod repo;
pub mod config;
pub mod locale;
pub mod cli;
pub mod fetcher;

verus! {

/// Unified error taxonomy of the package manager.
///
/// Each variant carries one diagnostic string.
#[derive(Debug, Clone, PartialEq, Eq)]
pub enum UhpmError {
    /// Package, version, or repository entry absent.
    NotFound(String),
    /// Malformed manifest, activation map, or repository configuration.
    Parse(String),
    /// Archive entry or URL-derived filename escapes its root.
    UnsafePath(String),
    /// Underlying filesystem or network I/O failure.
    Io(String),
    /// Catalog failure.
    Catalog(String),
    /// Switch target not unpacked.
    MissingPackageDir(String),
    /// Update found no strictly greater version.
    NoNewVersion(String),
    /// Version string unparseable; empty name; absolute-path violation.
    Validation(String),
}

} // verus!
