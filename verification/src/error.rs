//! The failures of the pipeline, as plain data.

use vstd::prelude::*;

verus! {

/// The four families of failure.
#[derive(Clone, Copy, Debug, PartialEq, Eq, Structural)]
pub enum ErrorKind {
    /// The text or the token stream is not an expression.
    Syntax,
    /// A number was scanned that is not a decimal number.
    NumberFormat,
    /// The postfix stream does not fold into a single tree.
    Structure,
    /// There was nothing to evaluate.
    Input,
}

/// What exactly went wrong.
#[derive(Clone, Copy, Debug, PartialEq, Eq, Structural)]
pub enum Fault {
    /// A character that starts no token.
    UnrecognizedInput,
    /// A `-` directly followed by something that is neither a digit nor `(`.
    InvalidSequence,
    /// A bracket without its partner.
    UnmatchedBracket,
    /// A number with more than one decimal point.
    MalformedNumber,
    /// An operator with fewer than two operands before it.
    UnexpectedOperation,
    /// A postfix stream that leaves no tree, or more than one.
    MalformedExpression,
    /// No expression was given.
    MissingInput,
}

impl Fault {
    /// The family this fault belongs to.
    pub open spec fn kind_of(self) -> ErrorKind {
        match self {
            Fault::UnrecognizedInput | Fault::InvalidSequence | Fault::UnmatchedBracket => {
                ErrorKind::Syntax
            },
            Fault::MalformedNumber => ErrorKind::NumberFormat,
            Fault::UnexpectedOperation | Fault::MalformedExpression => ErrorKind::Structure,
            Fault::MissingInput => ErrorKind::Input,
        }
    }

    /// The fixed phrase that describes this fault.
    pub open spec fn phrase(self) -> Seq<char> {
        match self {
            Fault::UnrecognizedInput => "unrecognized input"@,
            Fault::InvalidSequence => "invalid operand sequence"@,
            Fault::UnmatchedBracket => "not found pair for bracket"@,
            Fault::MalformedNumber => "cannot parse digit"@,
            Fault::UnexpectedOperation => "unexpected operation"@,
            Fault::MalformedExpression => "error parsing expression"@,
            Fault::MissingInput => "where is string to parse"@,
        }
    }

    pub fn kind(&self) -> (k: ErrorKind)
        ensures
            k == self.kind_of(),
    {
        match self {
            Fault::UnrecognizedInput | Fault::InvalidSequence | Fault::UnmatchedBracket => {
                ErrorKind::Syntax
            },
            Fault::MalformedNumber => ErrorKind::NumberFormat,
            Fault::UnexpectedOperation | Fault::MalformedExpression => ErrorKind::Structure,
            Fault::MissingInput => ErrorKind::Input,
        }
    }

    pub fn message(&self) -> (m: &'static str)
        ensures
            m@ == self.phrase(),
    {
        match self {
            Fault::UnrecognizedInput => "unrecognized input",
            Fault::InvalidSequence => "invalid operand sequence",
            Fault::UnmatchedBracket => "not found pair for bracket",
            Fault::MalformedNumber => "cannot parse digit",
            Fault::UnexpectedOperation => "unexpected operation",
            Fault::MalformedExpression => "error parsing expression",
            Fault::MissingInput => "where is string to parse",
        }
    }
}

/// A failure: the fault, the character that caused it where there is one, and
/// where it was met.
///
/// `position` counts from 1 within the input of the stage that failed: bytes
/// of the text for the tokenizer, tokens for the later stages.
#[derive(Clone, Copy, Debug, PartialEq, Eq, Structural)]
pub struct Error {
    pub fault: Fault,
    pub character: Option<char>,
    pub position: Option<usize>,
}

impl Error {
    /// The failure of a caller that had no expression to hand over.
    pub fn missing_input() -> (e: Error)
        ensures
            e == (Error { fault: Fault::MissingInput, character: None, position: None }),
    {
        Error { fault: Fault::MissingInput, character: None, position: None }
    }

    pub fn kind(&self) -> (k: ErrorKind)
        ensures
            k == self.fault.kind_of(),
    {
        self.fault.kind()
    }

    pub fn message(&self) -> (m: &'static str)
        ensures
            m@ == self.fault.phrase(),
    {
        self.fault.message()
    }
}

} // verus!
