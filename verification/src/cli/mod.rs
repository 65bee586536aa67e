//! The settings a run of the interpreter takes.

use vstd::prelude::*;

verus! {

/// The settings of a run: the files to read, where to write, whether to load the standard
/// library of assignments, and how much to write.
#[derive(Debug, Clone)]
pub struct CLIArgs {
    pub files: Vec<String>,
    pub outfile: Option<String>,
    pub outdir: Option<String>,
    pub nostdlib: bool,
    pub stdout: bool,
    pub interactive: bool,
    pub loglevel: LogLevel,
}

/// How much a run writes out. Each level writes what the levels before it in this list write,
/// and more.
#[derive(Debug, Clone, Copy, PartialEq, Eq, Structural)]
pub enum LogLevel {
    /// Only the reductions of each expression.
    ReductionsOnly,
    /// Also the terms each expression becomes as assigned names are replaced.
    AssignmentReplacements,
    /// Also the assignments that were read.
    Assignment,
    /// Also each expression as it was read.
    All,
}

/// The position of a level in the order `ReductionsOnly < AssignmentReplacements < Assignment
/// < All`.
pub open spec fn level_rank(l: LogLevel) -> int {
    match l {
        LogLevel::ReductionsOnly => 0,
        LogLevel::AssignmentReplacements => 1,
        LogLevel::Assignment => 2,
        LogLevel::All => 3,
    }
}

impl LogLevel {
    /// The position of this level in the order of levels.
    pub fn rank(self) -> (r: u8)
        ensures
            r == level_rank(self),
    {
        match self {
            LogLevel::ReductionsOnly => 0,
            LogLevel::AssignmentReplacements => 1,
            LogLevel::Assignment => 2,
            LogLevel::All => 3,
        }
    }

    /// Whether this level writes at least what `other` writes.
    pub fn at_least(self, other: LogLevel) -> (r: bool)
        ensures
            r == (level_rank(self) >= level_rank(other)),
    {
        self.rank() >= other.rank()
    }
}

} // verus!
