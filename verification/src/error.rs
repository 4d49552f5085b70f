//! Error types and the result types that use them.

use vstd::prelude::*;
use vstd::string::StringExecFns;
use crate::text::{bytes_text, decimal_text, push_bytes, push_decimal};

verus! {

/// The error of the standard library's I/O, carried through unopened.
#[verifier::external_type_specification]
#[verifier::external_body]
pub struct ExIoError(std::io::Error);

/// The result of a parsing operation.
pub type ParserResult<T> = Result<T, ParserError>;

/// The result of an operation that accesses a sub-expression by name.
pub type NameResult<T> = Result<T, NameError>;

/// An error that occurred while parsing a calc-regular expression.
#[derive(Debug)]
pub enum ParserError {
    /// A regex could not be matched during parsing.
    Regex {
        /// The regex that was not matched.
        regex: String,
        /// The offending input.
        value: Vec<u8>,
    },
    /// Reached end of file before the expression could be matched.
    UnexpectedEof,
    /// Encountered conflicting bounds.
    ConflictingBounds {
        /// The existing bound.
        old: usize,
        /// The new bound.
        new: usize,
    },
    /// The function provided to read a counter failed.
    CannotReadCount {
        /// The bytes given to the provided function.
        raw_count: Vec<u8>,
    },
    /// An IO error occurred during parsing.
    IoError {
        /// The raised error.
        err: std::io::Error,
    },
    /// There are remaining characters in the input after parsing an
    /// expression.
    TrailingCharacters,
}

/// An error that occurred when trying to access a sub-expression by name.
#[derive(Debug)]
pub enum NameError {
    /// No node with the given name exists.
    NoSuchName {
        /// The name that couldn't be found.
        name: String,
    },
    /// A given index was out of bounds.
    OutOfBounds {
        /// The name the index was on.
        name: String,
        /// The offending index.
        index: usize,
        /// The number of elements being indexed.
        len: usize,
    },
    /// Tried to access a single capture but found repeated capture.
    MisplacedSingleAccess {
        /// The name of the capture.
        name: String,
    },
    /// Tried to access a repeat capture but found single capture.
    MisplacedRepeatAccess {
        /// The name of the capture.
        name: String,
    },
    /// The given capture name is invalid.
    InvalidCaptureName {
        /// An error message, describing the problem.
        message: &'static str,
    },
}

/// What a `ParserError` says, with texts and bytes as sequences. An I/O
/// error is told apart from the others and nothing more is said of it.
pub enum Failure {
    Regex { regex: Seq<char>, value: Seq<u8> },
    UnexpectedEof,
    ConflictingBounds { old: nat, new: nat },
    CannotReadCount { raw_count: Seq<u8> },
    IoError,
    TrailingCharacters,
}

/// What a `NameError` says, with texts as sequences.
pub enum NameFailure {
    NoSuchName { name: Seq<char> },
    OutOfBounds { name: Seq<char>, index: nat, len: nat },
    MisplacedSingleAccess { name: Seq<char> },
    MisplacedRepeatAccess { name: Seq<char> },
    InvalidCaptureName { message: Seq<char> },
}

impl View for ParserError {
    type V = Failure;

    open spec fn view(&self) -> Failure {
        match self {
            ParserError::Regex { regex, value } => Failure::Regex { regex: regex@, value: value@ },
            ParserError::UnexpectedEof => Failure::UnexpectedEof,
            ParserError::ConflictingBounds { old, new } => Failure::ConflictingBounds {
                old: *old as nat,
                new: *new as nat,
            },
            ParserError::CannotReadCount { raw_count } => Failure::CannotReadCount {
                raw_count: raw_count@,
            },
            ParserError::IoError { .. } => Failure::IoError,
            ParserError::TrailingCharacters => Failure::TrailingCharacters,
        }
    }
}

impl View for NameError {
    type V = NameFailure;

    open spec fn view(&self) -> NameFailure {
        match self {
            NameError::NoSuchName { name } => NameFailure::NoSuchName { name: name@ },
            NameError::OutOfBounds { name, index, len } => NameFailure::OutOfBounds {
                name: name@,
                index: *index as nat,
                len: *len as nat,
            },
            NameError::MisplacedSingleAccess { name } => NameFailure::MisplacedSingleAccess {
                name: name@,
            },
            NameError::MisplacedRepeatAccess { name } => NameFailure::MisplacedRepeatAccess {
                name: name@,
            },
            NameError::InvalidCaptureName { message } => NameFailure::InvalidCaptureName {
                message: message@,
            },
        }
    }
}

/// Writes out an I/O error of the standard library as `{:?}` does.
#[verifier::external_body]
fn io_error_text(err: &std::io::Error) -> String {
    format!("{:?}", err)
}

impl ParserError {
    /// What the error says, but for an I/O error, of which the standard
    /// library has the words.
    pub open spec fn message(&self) -> Seq<char> {
        match self {
            ParserError::Regex { regex, value } => "Could not match regex: Expected (a prefix of) "@
                + bytes_text(value@) + " to match "@ + regex@ + "."@,
            ParserError::ConflictingBounds { old, new } =>
                "Encountered conflicting bounds: The expression was already bounded to "@
                + decimal_text(*old as nat) + " bytes, but a later constraint expects "@
                + decimal_text(*new as nat) + " bytes."@,
            ParserError::CannotReadCount { raw_count } => "Count value could not be read: "@
                + bytes_text(raw_count@) + "."@,
            ParserError::UnexpectedEof => "Unexpected end of file."@,
            ParserError::IoError { .. } => "IO error: "@,
            ParserError::TrailingCharacters => "Characters left in input after parsing."@,
        }
    }

    /// The error written out for a reader. An I/O error is written as the
    /// standard library writes it, after `IO error: ` and before a full
    /// stop.
    pub fn to_string(&self) -> (r: String)
        ensures
            !(self@ is IoError) ==> r@ == self.message(),
            self@ is IoError ==> exists|words: Seq<char>| r@ == self.message() + words + "."@,
    {
        match self {
            ParserError::Regex { regex, value } => {
                let mut text = String::from_str("Could not match regex: Expected (a prefix of) ");
                push_bytes(&mut text, value);
                text.append(" to match ");
                text.append(regex.as_str());
                text.append(".");
                text
            },
            ParserError::ConflictingBounds { old, new } => {
                let mut text = String::from_str(
                    "Encountered conflicting bounds: The expression was already bounded to ",
                );
                push_decimal(&mut text, *old);
                text.append(" bytes, but a later constraint expects ");
                push_decimal(&mut text, *new);
                text.append(" bytes.");
                text
            },
            ParserError::CannotReadCount { raw_count } => {
                let mut text = String::from_str("Count value could not be read: ");
                push_bytes(&mut text, raw_count);
                text.append(".");
                text
            },
            ParserError::UnexpectedEof => String::from_str("Unexpected end of file."),
            ParserError::IoError { err } => {
                let mut text = String::from_str("IO error: ");
                let words = io_error_text(err);
                text.append(words.as_str());
                text.append(".");
                assert(text@ == self.message() + words@ + "."@);
                text
            },
            ParserError::TrailingCharacters => String::from_str(
                "Characters left in input after parsing.",
            ),
        }
    }

    /// The short description of each kind of error.
    pub open spec fn description_text(&self) -> Seq<char> {
        match self {
            ParserError::Regex { .. } => "a regex did not match"@,
            ParserError::UnexpectedEof => "unexpected end of file"@,
            ParserError::ConflictingBounds { .. } => "conflicting bounds"@,
            ParserError::CannotReadCount { .. } => "could not read count"@,
            ParserError::IoError { .. } => "encountered an IO error"@,
            ParserError::TrailingCharacters => "remaining characters after parsing"@,
        }
    }

    /// A short description of the error.
    pub fn description(&self) -> (r: &'static str)
        ensures
            r@ == self.description_text(),
    {
        match self {
            ParserError::Regex { .. } => "a regex did not match",
            ParserError::UnexpectedEof => "unexpected end of file",
            ParserError::ConflictingBounds { .. } => "conflicting bounds",
            ParserError::CannotReadCount { .. } => "could not read count",
            ParserError::IoError { .. } => "encountered an IO error",
            ParserError::TrailingCharacters => "remaining characters after parsing",
        }
    }

    /// The I/O error that caused this error, if one did.
    pub fn cause(&self) -> (r: Option<&std::io::Error>)
        ensures
            r is Some <==> self@ is IoError,
            r matches Some(e) ==> self matches ParserError::IoError { err } && *e == *err,
    {
        match self {
            ParserError::IoError { err } => Some(err),
            _ => None,
        }
    }
}

impl NameError {
    /// What the error says.
    pub open spec fn message(&self) -> Seq<char> {
        match self {
            NameError::NoSuchName { name } => "No node named \""@ + name@ + "\" exists."@,
            NameError::OutOfBounds { name, index, len } => "Tried to get element number "@
                + decimal_text(*index as nat) + " of \""@ + name@ + "\", but only "@ + decimal_text(
                *len as nat,
            ) + " elements exist."@,
            NameError::MisplacedSingleAccess { name } =>
                "Tried to access single capture on repeat capture \""@ + name@ + "\"."@,
            NameError::MisplacedRepeatAccess { name } =>
                "Tried to access repeat capture on single capture \""@ + name@ + "\"."@,
            NameError::InvalidCaptureName { message } => "The given capture name is invalid: "@
                + message@ + "."@,
        }
    }

    /// The error written out for a reader.
    pub fn to_string(&self) -> (r: String)
        ensures
            r@ == self.message(),
    {
        match self {
            NameError::NoSuchName { name } => {
                let mut text = String::from_str("No node named \"");
                text.append(name.as_str());
                text.append("\" exists.");
                text
            },
            NameError::OutOfBounds { name, index, len } => {
                let mut text = String::from_str("Tried to get element number ");
                push_decimal(&mut text, *index);
                text.append(" of \"");
                text.append(name.as_str());
                text.append("\", but only ");
                push_decimal(&mut text, *len);
                text.append(" elements exist.");
                text
            },
            NameError::MisplacedSingleAccess { name } => {
                let mut text = String::from_str(
                    "Tried to access single capture on repeat capture \"",
                );
                text.append(name.as_str());
                text.append("\".");
                text
            },
            NameError::MisplacedRepeatAccess { name } => {
                let mut text = String::from_str(
                    "Tried to access repeat capture on single capture \"",
                );
                text.append(name.as_str());
                text.append("\".");
                text
            },
            NameError::InvalidCaptureName { message } => {
                let mut text = String::from_str("The given capture name is invalid: ");
                text.append(message);
                text.append(".");
                text
            },
        }
    }

    /// The short description of each kind of error.
    pub open spec fn description_text(&self) -> Seq<char> {
        match self {
            NameError::NoSuchName { .. } => "given name doesn't exist"@,
            NameError::OutOfBounds { .. } => "given index is out of bounds"@,
            NameError::MisplacedSingleAccess { .. } => "falsely tried to access single capture"@,
            NameError::MisplacedRepeatAccess { .. } => "falsely tried to access repeat capture"@,
            NameError::InvalidCaptureName { .. } => "given name is invalid"@,
        }
    }

    /// A short description of the error.
    pub fn description(&self) -> (r: &'static str)
        ensures
            r@ == self.description_text(),
    {
        match self {
            NameError::NoSuchName { .. } => "given name doesn't exist",
            NameError::OutOfBounds { .. } => "given index is out of bounds",
            NameError::MisplacedSingleAccess { .. } => "falsely tried to access single capture",
            NameError::MisplacedRepeatAccess { .. } => "falsely tried to access repeat capture",
            NameError::InvalidCaptureName { .. } => "given name is invalid",
        }
    }
}

} // verus!
