use crate::filter::Filter;
use crate::schema::SchemaOne;
use crate::signature::Signature;
use vstd::prelude::*;

verus! {

/// Every way in which loading or querying can fail.
#[derive(Debug, PartialEq, Eq)]
pub enum Error {
    /// There is no file at the root path.
    FileNotFound { path: String },
    /// The root file could not be read.
    IoError { reason: String },
    /// A defect found in the input, with the place where it was found.
    ParseError { location: String, line: u32, reason: ParseError },
    /// A filter does not have the shape of its label's definition.
    FilterMismatch { expected: Box<SchemaOne>, got: Filter },
    /// A query names a label that has no definition.
    NoDefinition { label: String },
}

/// The defects that reading the input can find.
#[derive(Debug, PartialEq, Eq)]
pub enum ParseError {
    /// A directive lacks its argument.
    MissingArguments,
    /// A definition's label is reserved or holds whitespace.
    IllegalName { label: String },
    /// Two records of one label have equal fields.
    DuplicatedEntry { first_appear: String, line: u32, label: String },
    /// A label is defined twice.
    DuplicatedDefinition { first_appear: String, line: u32, label: String },
    /// A definition names a kind that does not exist.
    UnrecognisedType { got: String },
    /// A string is still open at the end of its line or of the input.
    UnclosedString,
    /// A block comment is still open at the end of the input.
    UnclosedMultiLineComment,
    /// A word is malformed: an escaped blank outside quotes, or text right after a
    /// closing quote.
    IllegalArgument,
    /// A directive has more arguments than it takes.
    TooManyArguments,
    /// A field's text is not a value of its kind.
    TypeError { target: Signature, value: String, reason: String },
    /// A record has another number of fields than its definition.
    ArgumentLengthMismatch { expected: usize, got: usize },
    /// A file named by a directive does not exist.
    FileNotFound { path: String },
    /// A record's label has no definition.
    NoDefinition { label: String },
    /// A file named by a directive could not be read.
    IoError { reason: String },
}

impl Error {
    /// The error for a file at `path` that does not exist: without a place for
    /// the root file, at the including line `line` of `source` for a file that
    /// a directive names.
    pub fn missing_file(root: bool, path: String, source: &str, line: u32) -> (r: Error)
        ensures
            root ==> r == (Error::FileNotFound { path }),
            !root ==> (match r {
                Error::ParseError { location, line: n, reason: ParseError::FileNotFound { path: q } } => location@ == source@ && n
                    == line && q == path,
                _ => false,
            }),
    {
        if root {
            Error::FileNotFound { path }
        } else {
            Error::ParseError { location: source.to_owned(), line, reason: ParseError::FileNotFound { path } }
        }
    }

    /// The error for a file that exists but could not be read, for the reason
    /// `reason`: without a place for the root file, at the including line
    /// `line` of `source` for a file that a directive names.
    pub fn unreadable_file(root: bool, reason: String, source: &str, line: u32) -> (r: Error)
        ensures
            root ==> r == (Error::IoError { reason }),
            !root ==> (match r {
                Error::ParseError { location, line: n, reason: ParseError::IoError { reason: q } } => location@ == source@ && n
                    == line && q == reason,
                _ => false,
            }),
    {
        if root {
            Error::IoError { reason }
        } else {
            Error::ParseError { location: source.to_owned(), line, reason: ParseError::IoError { reason } }
        }
    }
}

} // verus!
