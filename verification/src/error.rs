//! How a registry operation fails.
use vstd::prelude::*;
use vstd::string::*;

use crate::text::{cat, cat3, Text};

verus! {

/// A domain failure that can be mapped to a module error without knowing the
/// transport.
#[derive(Debug)]
pub enum RegistryError {
    /// The store could not be opened, read or written.
    Store(String),
    /// A statement broke a constraint of the schema.
    Database(String),
    /// A path could not be resolved.
    Path(String),
    /// A registry rule refused the request.
    Domain { code: String, message: String },
}

/// What a [`RegistryError`] says.
pub enum Failure {
    Store(Text),
    Database(Text),
    Path(Text),
    Domain { code: Text, message: Text },
}

impl View for RegistryError {
    type V = Failure;

    open spec fn view(&self) -> Failure {
        match self {
            RegistryError::Store(e) => Failure::Store(e@),
            RegistryError::Database(e) => Failure::Database(e@),
            RegistryError::Path(e) => Failure::Path(e@),
            RegistryError::Domain { code, message } => Failure::Domain {
                code: code@,
                message: message@,
            },
        }
    }
}

impl Failure {
    /// The failure as an operator reads it.
    pub open spec fn shown(self) -> Text {
        match self {
            Failure::Store(e) => e,
            Failure::Database(e) => "database: "@ + e,
            Failure::Path(e) => "path: "@ + e,
            Failure::Domain { code, message } => code + ": "@ + message,
        }
    }
}

/// A refusal with the given code.
pub open spec fn refusal(code: Text, message: Text) -> Failure {
    Failure::Domain { code, message }
}

impl RegistryError {
    /// The failure as an operator reads it.
    pub fn to_text(&self) -> (r: String)
        ensures
            r@ == self@.shown(),
    {
        match self {
            RegistryError::Store(e) => e.clone(),
            RegistryError::Database(e) => cat("database: ", e.as_str()),
            RegistryError::Path(e) => cat("path: ", e.as_str()),
            RegistryError::Domain { code, message } => cat3(code.as_str(), ": ", message.as_str()),
        }
    }
}

/// A refusal with the given code.
pub fn domain(code: &str, message: String) -> (r: RegistryError)
    ensures
        r@ == refusal(code@, message@),
{
    RegistryError::Domain { code: code.to_owned(), message }
}

} // verus!
