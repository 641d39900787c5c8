//! Keeps a set of per-language string catalogs in sync with source code and
//! drives machine translation of entries that still lack a human translation.
//!
//! The crate holds the verified core of the pipeline: deterministic identifier
//! synthesis from literal text, extraction and in-place rewriting of marked
//! literals, the catalog data model with its on-disk text format, propagation
//! of template keys into per-language catalogs, and the translation batch
//! state machine.  File and network I/O live outside the library and hand it
//! plain values.

pub mod text;
pub mod quoted;
pub mod utils;
pub mod arb;
pub mod format;
pub mod project;
pub mod extractor;
pub mod syncer;
pub mod translator;
pub mod watcher;

use vstd::prelude::*;

verus! {

/// The sentinel character that marks a catalog value as not yet translated.
pub open spec fn sentinel() -> char {
    '#'
}

} // verus!
