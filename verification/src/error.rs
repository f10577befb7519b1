//! The ways an operation on a repository can fail.

use vstd::prelude::*;
use vstd::string::*;
use vstd::std_specs::convert::FromSpecImpl;

verus! {

/// `std::io::Error`, carried through unread.
#[verifier::external_type_specification]
#[verifier::external_body]
pub struct ExIoError(std::io::Error);

/// Why an operation failed. Every failure ends the operation; none is retried.
#[derive(Debug)]
pub enum Error {
    /// The file system refused to open, read, create or write something.
    IoError(std::io::Error),
    /// No directory from the starting point up to the root holds a repository.
    NoDirectory,
    /// A line of the index does not consist of exactly two tokens.
    InvalidIndex,
    /// A stored object cannot be read as what it should be.
    InvalidObjectStore,
    /// The commit to be written tracks no file.
    EmptyCommit,
}

/// Reads `std::fmt::Display` of a `std::io::Error` through `to_string`.
///
/// Trusted, with nothing claimed: the text comes from the operating system.
#[verifier::external_body]
fn io_error_text(err: &std::io::Error) -> (text: String) {
    err.to_string()
}

impl Error {
    /// The message of every kind of failure but `IoError`, whose message is
    /// the one the file system gave.
    pub open spec fn fixed_message(&self) -> Seq<char> {
        match self {
            Error::IoError(_) => Seq::empty(),
            Error::NoDirectory => "No Directory Found"@,
            Error::InvalidIndex => "Index is Corrupt"@,
            Error::InvalidObjectStore => "Blip Repository is Corrupt"@,
            Error::EmptyCommit => "No Files Staged for Commit"@,
        }
    }

    /// The message to show for this failure.
    pub fn message(&self) -> (text: String)
        ensures
            !(self is IoError) ==> text@ == self.fixed_message(),
    {
        match self {
            Error::IoError(err) => io_error_text(err),
            Error::NoDirectory => String::from_str("No Directory Found"),
            Error::InvalidIndex => String::from_str("Index is Corrupt"),
            Error::InvalidObjectStore => String::from_str("Blip Repository is Corrupt"),
            Error::EmptyCommit => String::from_str("No Files Staged for Commit"),
        }
    }
}

impl From<std::io::Error> for Error {
    fn from(err: std::io::Error) -> (error: Error) {
        Error::IoError(err)
    }
}

impl FromSpecImpl<std::io::Error> for Error {
    open spec fn obeys_from_spec() -> bool {
        true
    }

    open spec fn from_spec(err: std::io::Error) -> Error {
        Error::IoError(err)
    }
}

} // verus!
