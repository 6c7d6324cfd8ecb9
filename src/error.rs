//! The error type of the library.
use vstd::prelude::*;

verus! {

/// What went wrong; each variant holds text for diagnosis.
#[derive(Debug)]
pub enum ErrorKind {
    /// The input or output stream failed.
    Io(String),
    /// A length field is not an unsigned 32-bit numeral; holds the numeral.
    Int(String),
    /// An identity field is not a decimal numeral; holds the numeral.
    Float(String),
    /// A record line has the wrong shape; holds a message with the line.
    ReadRecord(String),
}

/// The mathematical model of an `ErrorKind`.
pub enum ErrorModel {
    Io(Seq<char>),
    Int(Seq<char>),
    Float(Seq<char>),
    ReadRecord(Seq<char>),
}

impl View for ErrorKind {
    type V = ErrorModel;

    open spec fn view(&self) -> ErrorModel {
        match self {
            ErrorKind::Io(s) => ErrorModel::Io(s@),
            ErrorKind::Int(s) => ErrorModel::Int(s@),
            ErrorKind::Float(s) => ErrorModel::Float(s@),
            ErrorKind::ReadRecord(s) => ErrorModel::ReadRecord(s@),
        }
    }
}

/// The error type of this library.
#[derive(Debug)]
pub struct Error(pub Box<ErrorKind>);

impl View for Error {
    type V = ErrorModel;

    open spec fn view(&self) -> ErrorModel {
        (*self.0)@
    }
}

impl Error {
    pub fn new(kind: ErrorKind) -> (r: Error)
        ensures
            r@ == kind@,
    {
        Error(Box::new(kind))
    }

    pub fn kind(&self) -> (r: &ErrorKind)
        ensures
            r@ == self@,
    {
        &self.0
    }

    pub fn into_kind(self) -> (r: ErrorKind)
        ensures
            r@ == self@,
    {
        *self.0
    }

    /// A one-line description: what kind of failure, then its text.
    pub fn message(&self) -> (r: String)
        ensures
            r@ == message_of(self@),
    {
        let (prefix, text) = match &*self.0 {
            ErrorKind::Io(t) => ("I/O error - ", t),
            ErrorKind::Int(t) => ("parsing integer error - ", t),
            ErrorKind::Float(t) => ("parsing float error - ", t),
            ErrorKind::ReadRecord(t) => ("reading record - ", t),
        };
        let mut out = String::from_str(prefix);
        out.append(text.as_str());
        out
    }
}

pub open spec fn message_of(e: ErrorModel) -> Seq<char> {
    match e {
        ErrorModel::Io(t) => "I/O error - "@ + t,
        ErrorModel::Int(t) => "parsing integer error - "@ + t,
        ErrorModel::Float(t) => "parsing float error - "@ + t,
        ErrorModel::ReadRecord(t) => "reading record - "@ + t,
    }
}

} // verus!
