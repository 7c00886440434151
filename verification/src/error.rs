//! The failures a run can end in.

use vstd::prelude::*;

verus! {

/// What went wrong, without the details.
#[derive(Clone, Copy, Debug, PartialEq, Eq, Structural)]
pub enum ErrorKind {
    /// The block identifier is malformed; nothing was sent.
    InvalidInput,
    /// No request address could be composed; nothing was sent.
    EndpointError,
    /// A request failed in transport.
    NetworkError,
    /// A response did not have the expected shape.
    DecodeError,
}

/// A failure of the pipeline: its kind and a description for the operator.
#[derive(Debug)]
pub struct AppError {
    pub kind: ErrorKind,
    pub detail: String,
}

impl View for AppError {
    type V = (ErrorKind, Seq<char>);

    open spec fn view(&self) -> (ErrorKind, Seq<char>) {
        (self.kind, self.detail@)
    }
}

impl Clone for AppError {
    fn clone(&self) -> (r: AppError)
        ensures
            r@ == self@,
    {
        AppError { kind: self.kind, detail: self.detail.clone() }
    }
}

impl AppError {
    /// An error of the given kind with the given description.
    pub fn new(kind: ErrorKind, detail: &str) -> (r: AppError)
        ensures
            r@ == (kind, detail@),
    {
        AppError { kind, detail: detail.to_owned() }
    }

    /// The error a failed request maps to: a response that arrived but could
    /// not be decoded is a `DecodeError`, every other failure a `NetworkError`.
    pub fn transport(undecodable: bool, detail: &str) -> (r: AppError)
        ensures
            r@ == (
                if undecodable {
                    ErrorKind::DecodeError
                } else {
                    ErrorKind::NetworkError
                },
                detail@,
            ),
    {
        if undecodable {
            AppError::new(ErrorKind::DecodeError, detail)
        } else {
            AppError::new(ErrorKind::NetworkError, detail)
        }
    }

    /// The kind of this error.
    pub fn kind(&self) -> (k: ErrorKind)
        ensures
            k == self.kind,
    {
        self.kind
    }

    /// The description, as it is shown to the operator.
    pub fn message(&self) -> (text: String)
        ensures
            text@ == self.detail@,
    {
        self.detail.clone()
    }

    /// Whether an error of this kind is raised before any request is sent.
    pub fn precedes_network(&self) -> (b: bool)
        ensures
            b == (self.kind == ErrorKind::InvalidInput || self.kind == ErrorKind::EndpointError),
    {
        match self.kind {
            ErrorKind::InvalidInput => true,
            ErrorKind::EndpointError => true,
            ErrorKind::NetworkError => false,
            ErrorKind::DecodeError => false,
        }
    }
}

} // verus!
