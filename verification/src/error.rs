//! The ways in which an operation on notebooks can fail.

use vstd::prelude::*;
use vstd::string::StringExecFns;

verus! {

/// Why an operation was not carried out.
#[derive(Debug, Clone, Copy, PartialEq, Eq, Structural)]
pub enum Error {
    /// The notebook that was asked for does not exist.
    NotFound,
    /// A notebook of that name exists already.
    AlreadyExists,
    /// The caller has not opened the notebook that it asks for.
    Forbidden,
    /// The store could not apply the change; nothing of it was applied.
    StoreError,
}

impl Error {
    /// The sentence shown to the user for this error.
    pub open spec fn spec_message(self) -> Seq<char> {
        match self {
            Error::NotFound => "That notebook doesn't exist!"@,
            Error::AlreadyExists => "That notebook already exists!"@,
            Error::Forbidden => "You don't have access to that notebook!"@,
            Error::StoreError => "The store could not apply the change!"@,
        }
    }

    /// The sentence shown to the user for this error.
    pub fn message(&self) -> (message: String)
        ensures
            message@ == self.spec_message(),
    {
        match self {
            Error::NotFound => String::from_str("That notebook doesn't exist!"),
            Error::AlreadyExists => String::from_str("That notebook already exists!"),
            Error::Forbidden => String::from_str("You don't have access to that notebook!"),
            Error::StoreError => String::from_str("The store could not apply the change!"),
        }
    }
}

/// The refusal that a reader of a notebook gets who has not opened it. It
/// travels as its message and is recognised again from it.
#[derive(Debug, Clone, Copy, PartialEq, Eq, Structural)]
pub struct NoAccessToNotebookError;

impl NoAccessToNotebookError {
    /// The message that stands for this refusal.
    pub open spec fn spec_message() -> Seq<char> {
        "Not authorised to access that notebook!"@
    }

    /// The message that stands for this refusal.
    pub fn message(&self) -> (message: String)
        ensures
            message@ == Self::spec_message(),
    {
        String::from_str("Not authorised to access that notebook!")
    }

    /// Recognises the refusal from its message: `Ok` for exactly that message.
    pub fn from_str(s: &str) -> (parsed: Result<Self, ()>)
        ensures
            parsed is Ok <==> s@ == Self::spec_message(),
    {
        let given = s.to_owned();
        let expected = NoAccessToNotebookError.message();
        if given == expected {
            Ok(NoAccessToNotebookError)
        } else {
            Err(())
        }
    }
}

impl std::str::FromStr for NoAccessToNotebookError {
    type Err = ();

    /// Recognises the refusal from its message, as the function of the same
    /// name on the type itself does: `Ok` for exactly that message.
    fn from_str(s: &str) -> (parsed: Result<Self, ()>)
        ensures
            parsed is Ok <==> s@ == NoAccessToNotebookError::spec_message(),
    {
        NoAccessToNotebookError::from_str(s)
    }
}

} // verus!
