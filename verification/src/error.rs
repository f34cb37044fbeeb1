//! The error taxonomy shared by the engine and its collaborators.

use vstd::prelude::*;

verus! {

/// Why an operation failed. The engine itself only produces
/// `UnexpectedInput`; the other variants are raised by the network and
/// user-interface layers around it.
#[derive(Debug, Clone, PartialEq, Eq)]
pub enum Error {
    Network(String),
    UnexpectedInput(String),
    InvalidUI(String),
    Other(String),
}

impl Error {
    /// The message carried by the error, whatever its variant.
    pub open spec fn message(&self) -> Seq<char> {
        match self {
            Error::Network(m) => m@,
            Error::UnexpectedInput(m) => m@,
            Error::InvalidUI(m) => m@,
            Error::Other(m) => m@,
        }
    }
}

} // verus!
