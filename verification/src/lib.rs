//! Reports, for a set of requested executable names, whether each one is
//! reachable on the search path, which package manager appears to own it,
//! and what version it reports.
//!
//! The pipeline runs in four steps per name: the locator resolves the name
//! to a path and classifies its installer; the prober runs the binary with
//! candidate version flags until one yields output; the extractor pulls the
//! first version-looking token out of that output; and the normalizer
//! cleans the token into a strict `major.minor.patch[-pre][+build]` value.
//! An orchestrator fans those steps out over the whole list and assembles
//! one record per name, sorted by name.
use vstd::prelude::*;

pub mod binary;
pub mod chars;
pub mod cli;
pub mod discovery;
pub mod error;
pub mod extract;
pub mod io;
pub mod normalize;
pub mod parser;
pub mod probe;
pub mod version;
pub mod versions;

verus! {

} // verus!
