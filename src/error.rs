use vstd::prelude::*;

verus! {

/// What can go wrong while reading or evaluating one line.
#[derive(Debug)]
pub enum ShellError {
    /// The line's quoting is unterminated, or it ends in a lone backslash.
    MalformedInput,
    /// A builtin's arguments have its shape but do not parse; holds the word.
    InvalidArgument(String),
    /// A `|` or `&` lacks the expression it needs on one side.
    DanglingPipe,
    /// The operating system could not duplicate the process.
    ForkFailure(String),
    /// An external program ended with a failure status; holds what it wrote
    /// to its standard error.
    ExternalFailure(String),
    /// Another operating-system failure.
    IoFailure(String),
    /// `cd` was given a directory that does not exist; holds the resolved path.
    PathNotFound(String),
}

} // verus!
