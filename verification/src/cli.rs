//! The arguments a run of the converter needs. Reading them from the
//! command line, like all other process interaction, happens outside
//! the library; this type only carries the two paths.

use vstd::prelude::*;

verus! {

/// Where the reports are read from and where the canvas is written to.
pub struct Args {
    /// Path of the directory containing the issue reports.
    pub input_path: String,
    /// Path the canvas document is saved under.
    pub output_path: String,
}

impl Args {
    /// Builds the run's arguments from the two paths the command line
    /// handed over. Two well-typed paths are always accepted.
    pub fn new(input_path: String, output_path: String) -> (r: Result<Args, String>)
        ensures
            r is Ok,
            r->Ok_0.input_path@ == input_path@,
            r->Ok_0.output_path@ == output_path@,
    {
        Ok(Args { input_path, output_path })
    }
}

} // verus!
