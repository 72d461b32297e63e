//! The options every DPC backend takes.
use vstd::prelude::*;

verus! {

/// The main options of the tool.
#[derive(Clone, Copy, Debug, PartialEq, Eq, Structural)]
pub struct Options {
    /// No console output.
    pub is_quiet: bool,
    /// Overwrite existing outputs without asking.
    pub is_force: bool,
    /// Skip the version string check.
    pub is_unsafe: bool,
    /// Apply Asobo's LZ compression where appropriate.
    pub is_lz: bool,
    /// Optimize the DPC.
    pub is_optimization: bool,
    /// Extract the objects too.
    pub is_recursive: bool,
}

} // verus!
