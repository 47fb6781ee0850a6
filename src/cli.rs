//! The commands of the command-line tool, as plain values.

use vstd::prelude::*;

verus! {

/// A parsed command line.
#[derive(Clone, Debug)]
pub struct Cli {
    pub command: Commands,
}

/// What the tool is asked to do.
#[derive(Clone, Debug)]
pub enum Commands {
    /// Split `file_name` into fragments under `data_dir` following `pattern`
    /// (`<data>+<erasure>`).
    Create { file_name: String, data_dir: String, pattern: String },
    /// Rebuild the source from the fragments under `data_dir` into
    /// `output_file_name`; an existing output is replaced only with `force`.
    Rebuild { data_dir: String, output_file_name: String, force: bool },
}

impl Commands {
    /// Whether the command may write its output now: a rebuild into an
    /// existing file needs `force`.
    pub fn may_write_output(&self, output_exists: bool) -> (r: bool)
        ensures
            r == match self {
                Commands::Create { .. } => true,
                Commands::Rebuild { force, .. } => !output_exists || *force,
            },
    {
        match self {
            Commands::Create { .. } => true,
            Commands::Rebuild { force, .. } => !output_exists || *force,
        }
    }
}

} // verus!
