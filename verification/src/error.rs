//! The errors of the library.
use vstd::prelude::*;

verus! {

/// The error of a libgit2 call.
#[verifier::external_type_specification]
#[verifier::external_body]
pub struct ExGitError(git2::Error);

/// Why an operation failed. Each variant stands for the kind of I/O error that a program
/// reports, with its message.
#[derive(Debug)]
pub enum FatError {
    /// Something that has to be there is not.
    NotFound(String),
    /// The configuration asks for something that is not offered.
    Unsupported(String),
    /// Any other failure.
    Other(String),
    /// A failure that libgit2 reported.
    Git(git2::Error),
}

impl FatError {
    /// The error says that something is missing, in the words of `message`.
    pub open spec fn is_not_found(self, message: Seq<char>) -> bool {
        self matches FatError::NotFound(text) && text@ == message
    }

    /// The error says that something is not offered, in the words of `message`.
    pub open spec fn is_unsupported(self, message: Seq<char>) -> bool {
        self matches FatError::Unsupported(text) && text@ == message
    }

    /// The error is of no particular kind and reads `message`.
    pub open spec fn is_other(self, message: Seq<char>) -> bool {
        self matches FatError::Other(text) && text@ == message
    }
}

/// An error of no particular kind, with a message.
pub fn other_err(message: &str) -> (res: FatError)
    ensures
        res.is_other(message@),
{
    FatError::Other(message.to_owned())
}

/// An error is of a kind with a message exactly where it is of that kind and holds the very
/// message.
pub proof fn law_errors_tell_their_message(error: FatError, message: Seq<char>)
    ensures
        error.is_not_found(message) <==> (error is NotFound && error->NotFound_0@ == message),
        error.is_unsupported(message) <==> (error is Unsupported && error->Unsupported_0@
            == message),
        error.is_other(message) <==> (error is Other && error->Other_0@ == message),
{
}

} // verus!
