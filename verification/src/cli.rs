//! The run configuration handed in from the command line.
use vstd::prelude::*;

verus! {

/// What one run was asked to do: the names to check, or none to read them
/// from a needsfile; quiet mode; the verbosity level; whether to skip
/// version retrieval; and whether to render full version strings.
pub struct Cli {
    pub bins: Option<Vec<String>>,
    pub quiet: bool,
    pub verbosity: u8,
    pub no_versions: bool,
    pub full_versions: bool,
}

} // verus!
