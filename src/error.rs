//! What can go wrong while parsing or executing a line.
use vstd::prelude::*;

verus! {

/// The error kinds of the interpreter core.
#[derive(Debug, Clone, Copy, PartialEq, Eq, Structural)]
pub enum Error {
    /// A command span held no tokens.
    NoBinary,
    /// More than one `|` in a command run, or a pipe side that is not a plain command.
    UnsupportedPipeline,
    /// `&&` or `||` with no evaluated statement before it.
    DanglingOperator,
    /// The operating system could not create a child process.
    SpawnFailure,
    /// The `exit` builtin was given an argument that is not an integer.
    BuiltinArgumentError,
}

/// How the interpreter treats an error.
#[derive(Debug, Clone, Copy, PartialEq, Eq, Structural)]
pub enum Severity {
    /// Absorbed without a word.
    Silent,
    /// Reported; the interpreter carries on.
    Reported,
    /// Reported; the interpreter terminates.
    Fatal,
}

pub open spec fn severity_of(e: Error) -> Severity {
    match e {
        Error::NoBinary => Severity::Silent,
        Error::BuiltinArgumentError => Severity::Fatal,
        _ => Severity::Reported,
    }
}

impl Error {
    /// An empty command is absorbed silently, a bad argument to `exit` ends the
    /// interpreter, and every other error is reported.
    pub fn severity(&self) -> (r: Severity)
        ensures
            r == severity_of(*self),
    {
        match self {
            Error::NoBinary => Severity::Silent,
            Error::BuiltinArgumentError => Severity::Fatal,
            _ => Severity::Reported,
        }
    }
}

} // verus!
