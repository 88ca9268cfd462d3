//! Errors the surrounding program reports to its user.

use vstd::prelude::*;
use vstd::string::*;

verus! {

/// What went wrong, with the text that describes it.
#[derive(Clone, Debug, PartialEq, Eq)]
pub enum ErrorKind {
    /// A piece of input data could not be understood.
    Parse(String),
    /// The system clipboard could not be reached or written.
    Clipboard(String),
}

impl ErrorKind {
    /// The words that introduce an error of this kind.
    pub open spec fn label(self) -> Seq<char> {
        match self {
            ErrorKind::Parse(_) => "Parse error: "@,
            ErrorKind::Clipboard(_) => "Clipboard error: "@,
        }
    }

    /// The text given when the error was made.
    pub open spec fn detail(self) -> Seq<char> {
        match self {
            ErrorKind::Parse(msg) => msg@,
            ErrorKind::Clipboard(msg) => msg@,
        }
    }

    /// The line shown to the user: the label followed by the detail.
    pub fn message(&self) -> (text: String)
        ensures
            text@ == self.label() + self.detail(),
    {
        match self {
            ErrorKind::Parse(msg) => {
                let mut text = String::from_str("Parse error: ");
                text.append(msg.as_str());
                text
            },
            ErrorKind::Clipboard(msg) => {
                let mut text = String::from_str("Clipboard error: ");
                text.append(msg.as_str());
                text
            },
        }
    }
}

/// An error of this library, carrying its kind.
#[derive(Debug)]
pub struct Error {
    kind: ErrorKind,
}

impl Error {
    /// The kind of this error.
    pub closed spec fn spec_kind(&self) -> ErrorKind {
        self.kind
    }

    /// A parse error with the given description.
    pub fn parse(msg: &str) -> (e: Error)
        ensures
            e.spec_kind() is Parse,
            e.spec_kind().detail() == msg@,
    {
        Error { kind: ErrorKind::Parse(String::from_str(msg)) }
    }

    /// A clipboard error with the given description.
    pub fn clipboard(msg: &str) -> (e: Error)
        ensures
            e.spec_kind() is Clipboard,
            e.spec_kind().detail() == msg@,
    {
        Error { kind: ErrorKind::Clipboard(String::from_str(msg)) }
    }

    /// An error of the given kind.
    pub fn from_kind(kind: ErrorKind) -> (e: Error)
        ensures
            e.spec_kind() == kind,
    {
        Error { kind }
    }

    /// The kind of this error.
    pub fn kind(&self) -> (k: &ErrorKind)
        ensures
            *k == self.spec_kind(),
    {
        &self.kind
    }

    /// The line shown to the user.
    pub fn message(&self) -> (text: String)
        ensures
            text@ == self.spec_kind().label() + self.spec_kind().detail(),
    {
        self.kind.message()
    }
}

} // verus!
