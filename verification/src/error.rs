//! What a request or an evaluation can fail with.

use vstd::prelude::*;
use vstd::string::StringExecFns;

use crate::text::{concat2, concat3, quote, quoted};

verus! {

/// Errors surfaced to callers of the library.
#[derive(Debug, PartialEq, Eq)]
pub enum Error {
    /// A request failed validation. `path` names the offending field.
    Invalid { path: String, message: String },
    /// The backend refused or failed the evaluation.
    Backend(String),
    /// A label could not be represented as a single token by this backend.
    LabelNotSingleToken(String),
}

/// An error as the text it carries.
pub enum ErrorView {
    Invalid { path: Seq<char>, message: Seq<char> },
    Backend(Seq<char>),
    LabelNotSingleToken(Seq<char>),
}

impl View for Error {
    type V = ErrorView;

    open spec fn view(&self) -> ErrorView {
        match self {
            Error::Invalid { path, message } => ErrorView::Invalid {
                path: path@,
                message: message@,
            },
            Error::Backend(m) => ErrorView::Backend(m@),
            Error::LabelNotSingleToken(l) => ErrorView::LabelNotSingleToken(l@),
        }
    }
}

impl Clone for Error {
    fn clone(&self) -> (r: Error)
        ensures
            r@ == self@,
    {
        match self {
            Error::Invalid { path, message } => Error::Invalid {
                path: path.clone(),
                message: message.clone(),
            },
            Error::Backend(m) => Error::Backend(m.clone()),
            Error::LabelNotSingleToken(l) => Error::LabelNotSingleToken(l.clone()),
        }
    }
}

/// The message of an error.
pub open spec fn error_text(e: ErrorView) -> Seq<char> {
    match e {
        ErrorView::Invalid { path, message } => "invalid request at "@ + path + ": "@ + message,
        ErrorView::Backend(m) => "backend: "@ + m,
        ErrorView::LabelNotSingleToken(l) => "label "@ + quoted(l) + " is not a single token"@,
    }
}

impl Error {
    /// The error's message.
    pub fn text(&self) -> (r: String)
        ensures
            r@ == error_text(self@),
    {
        match self {
            Error::Invalid { path, message } => {
                let mut m: String = concat3("invalid request at ", path.as_str(), ": ");
                m.append(message.as_str());
                m
            },
            Error::Backend(m) => concat2("backend: ", m.as_str()),
            Error::LabelNotSingleToken(l) => concat3(
                "label ",
                quote(l.as_str()).as_str(),
                " is not a single token",
            ),
        }
    }
}

impl Error {
    pub fn invalid(path: &str, message: &str) -> (e: Error)
        ensures
            e@ == (ErrorView::Invalid { path: path@, message: message@ }),
    {
        Error::Invalid { path: path.to_owned(), message: message.to_owned() }
    }
}

/// Why a checkpoint, a layout or an input cannot be used, in words.
#[derive(Debug, PartialEq, Eq)]
pub struct LoadError {
    pub message: String,
}

impl View for LoadError {
    type V = Seq<char>;

    open spec fn view(&self) -> Seq<char> {
        self.message@
    }
}

impl LoadError {
    pub fn new(message: String) -> (e: LoadError)
        ensures
            e@ == message@,
    {
        LoadError { message }
    }

    pub(crate) fn of(message: &str) -> (e: LoadError)
        ensures
            e@ == message@,
    {
        LoadError { message: message.to_owned() }
    }
}

/// What went wrong in an engine, as an error of its evaluation.
pub fn backend_err(e: LoadError) -> (r: Error)
    ensures
        r@ == ErrorView::Backend(e@),
{
    Error::Backend(e.message)
}

} // verus!
