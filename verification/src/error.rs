//! The failures that the runtime reports.

use vstd::prelude::*;
use vstd::string::*;

verus! {

/// What a descriptor was expected to hold where it went wrong.
#[derive(Debug, Clone, Copy, PartialEq, Eq, Structural)]
pub enum Expected {
    /// A parenthesis or a type keyword.
    Token,
    /// A rank: decimal digits that fit eight bits.
    Integer,
}

/// Why a decimal number could not be read from text.
#[derive(Debug, Clone, Copy, PartialEq, Eq, Structural)]
pub enum IntError {
    /// The text is empty.
    Empty,
    /// A byte that is no decimal digit, or a sign with nothing behind it.
    InvalidDigit,
    /// The digits stand for more than 64 bits hold.
    Overflow,
}

/// A failure of the runtime. None of them is recovered from inside the
/// runtime: each is handed to the caller as it is.
#[derive(Debug, Clone, Copy, PartialEq, Eq, Structural)]
pub enum ErrorKind {
    /// The descriptor does not follow the grammar at byte `offset`.
    MalformedDescriptor { offset: usize, expected: Expected },
    /// Bytes that should be text are not UTF-8.
    InvalidTextEncoding,
    /// A block of no bytes was asked for, or of more than can be addressed.
    AllocationError,
    /// The program argument at `index` is no unsigned decimal number.
    ArgumentParseError { index: usize, cause: IntError },
}

impl IntError {
    /// What is said of a number that could not be read.
    pub open spec fn text(self) -> Seq<char> {
        match self {
            IntError::Empty => "cannot parse integer from empty string"@,
            IntError::InvalidDigit => "invalid digit found in string"@,
            IntError::Overflow => "number too large to fit in target type"@,
        }
    }

    /// What is said of a number that could not be read.
    pub fn message(&self) -> (r: &'static str)
        ensures
            r@ == self.text(),
    {
        match self {
            IntError::Empty => "cannot parse integer from empty string",
            IntError::InvalidDigit => "invalid digit found in string",
            IntError::Overflow => "number too large to fit in target type",
        }
    }
}

impl ErrorKind {
    /// The operation that failed.
    pub open spec fn origin_text(self) -> Seq<char> {
        match self {
            ErrorKind::MalformedDescriptor { .. } => "parse_type_str"@,
            ErrorKind::InvalidTextEncoding => "to_str"@,
            ErrorKind::AllocationError => "jpl_alloc"@,
            ErrorKind::ArgumentParseError { .. } => "main"@,
        }
    }

    /// Why the operation failed.
    pub open spec fn cause_text(self) -> Seq<char> {
        match self {
            ErrorKind::MalformedDescriptor { expected: Expected::Token, .. } => "Invalid type string"@,
            ErrorKind::MalformedDescriptor {
                expected: Expected::Integer,
                ..
            } => "Invalid integer in type string"@,
            ErrorKind::InvalidTextEncoding => "Could not parse c strings"@,
            ErrorKind::AllocationError => "Could not allocate 0 or negative amount of memory"@,
            ErrorKind::ArgumentParseError {
                cause,
                ..
            } => "Could not parse command line arguments: "@ + cause.text(),
        }
    }

    /// The one line that reports the failure: the operation, then the cause.
    pub open spec fn diagnostic_text(self) -> Seq<char> {
        "[abort] "@ + self.origin_text() + ": "@ + self.cause_text()
    }

    /// The operation that failed.
    pub fn origin(&self) -> (r: &'static str)
        ensures
            r@ == self.origin_text(),
    {
        match self {
            ErrorKind::MalformedDescriptor { .. } => "parse_type_str",
            ErrorKind::InvalidTextEncoding => "to_str",
            ErrorKind::AllocationError => "jpl_alloc",
            ErrorKind::ArgumentParseError { .. } => "main",
        }
    }

    /// Why the operation failed.
    pub fn cause(&self) -> (r: String)
        ensures
            r@ == self.cause_text(),
    {
        match self {
            ErrorKind::MalformedDescriptor { expected: Expected::Token, .. } => {
                "Invalid type string".to_owned()
            },
            ErrorKind::MalformedDescriptor { expected: Expected::Integer, .. } => {
                "Invalid integer in type string".to_owned()
            },
            ErrorKind::InvalidTextEncoding => "Could not parse c strings".to_owned(),
            ErrorKind::AllocationError => {
                "Could not allocate 0 or negative amount of memory".to_owned()
            },
            ErrorKind::ArgumentParseError { cause, .. } => {
                let mut text = "Could not parse command line arguments: ".to_owned();
                text.append(cause.message());
                text
            },
        }
    }

    /// The one line that reports the failure.
    pub fn diagnostic(&self) -> (r: String)
        ensures
            r@ == self.diagnostic_text(),
    {
        let mut line = "[abort] ".to_owned();
        line.append(self.origin());
        line.append(": ");
        line.append(self.cause().as_str());
        line
    }
}

} // verus!
