//! The outcomes that reading or writing a tag can fail with.

use vstd::prelude::*;

verus! {

/// What went wrong.
#[derive(Clone, Copy, Debug, PartialEq, Eq, Structural)]
pub enum ErrorKind {
    /// The bytes are not a tag this library can make sense of.
    InvalidInput,
    /// The bytes use a feature of the format that is not handled.
    UnsupportedFeature,
    /// The underlying stream failed.
    Io,
    /// A text field is not valid in its declared encoding.
    StringDecoding,
}

/// An error, carrying its kind.
#[derive(Clone, Copy, Debug, PartialEq, Eq, Structural)]
pub struct TagError {
    pub kind: ErrorKind,
}

impl TagError {
    /// An error of the given kind.
    pub fn new(kind: ErrorKind) -> (e: TagError)
        ensures
            e.kind == kind,
    {
        TagError { kind }
    }

    /// A short human-readable name of the error's kind.
    pub fn description(&self) -> (s: &'static str)
        ensures
            s@ == match self.kind {
                ErrorKind::InvalidInput => "invalid input"@,
                ErrorKind::UnsupportedFeature => "unsupported feature"@,
                ErrorKind::Io => "i/o failure"@,
                ErrorKind::StringDecoding => "string decoding failure"@,
            },
    {
        match self.kind {
            ErrorKind::InvalidInput => "invalid input",
            ErrorKind::UnsupportedFeature => "unsupported feature",
            ErrorKind::Io => "i/o failure",
            ErrorKind::StringDecoding => "string decoding failure",
        }
    }
}

} // verus!
