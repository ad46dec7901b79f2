//! Directory-scoped environment variable activation.
//!
//! A per-directory configuration tree selects a named profile whose
//! key/value pairs become the shell's exported environment; leaving the
//! directory reverts those exports.  The library resolves a profile
//! selector against a configuration tree, diffs the resolved variables
//! against the live environment, persists per-directory activation
//! records, and emits the export/unset directives that a shell renderer
//! turns into shell text.
//!
//! Every operation is a bounded, synchronous read-resolve-write sequence
//! over a store that one invocation loads whole and saves whole.  Two
//! shells racing on the same store are not arbitrated: the last writer
//! wins.

pub mod codec;
pub mod diff;
pub mod errors;
pub mod store;
pub mod transition;
mod text;
pub mod tree;
pub mod vars;

pub use diff::{Class, Directive};
pub use errors::{ProfileNotFoundError, StoreCorruptError};
pub use store::{Metadata, Profile};
pub use transition::{Activate, Clear, Get, Precmd, Show};
pub use tree::{Case, Node};
pub use vars::VarMap;
