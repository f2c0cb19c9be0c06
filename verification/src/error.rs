//! Failures the identity core reports to a caller.
//!
//! Messages are specific enough to show to a person: a missing manifest is
//! distinct from a malformed one, and a malformed manifest is never described
//! as a successful write.
use vstd::prelude::*;

use crate::text::{decimal, push_decimal};

verus! {

/// A failure while resolving or creating a project identity.
#[derive(Debug)]
pub enum Error {
    /// The working directory has no identity manifest.
    NotInitialized,
    /// The manifest exists but this client cannot use it. The file is left as it was.
    InvalidIdentity(String),
    /// A local filesystem operation failed.
    Persistence(String),
}

/// What an [`Error`] holds, with its text as a sequence of characters.
pub enum ErrorView {
    NotInitialized,
    InvalidIdentity(Seq<char>),
    Persistence(Seq<char>),
}

impl View for Error {
    type V = ErrorView;

    open spec fn view(&self) -> ErrorView {
        match self {
            Error::NotInitialized => ErrorView::NotInitialized,
            Error::InvalidIdentity(detail) => ErrorView::InvalidIdentity(detail@),
            Error::Persistence(detail) => ErrorView::Persistence(detail@),
        }
    }
}

/// The outcome of `r` with its value and its error taken by their views.
pub open spec fn outcome_of<T: View>(r: Result<T, Error>) -> Result<T::V, ErrorView> {
    match r {
        Ok(v) => Ok(v@),
        Err(e) => Err(e@),
    }
}

/// The text shown for an error.
pub open spec fn error_text(e: ErrorView) -> Seq<char> {
    match e {
        ErrorView::NotInitialized => "project is not initialized"@,
        ErrorView::InvalidIdentity(detail) => detail,
        ErrorView::Persistence(detail) => detail,
    }
}

/// The error for a manifest that cannot be read as one, for `reason`.
pub open spec fn malformed_error(reason: Seq<char>) -> ErrorView {
    ErrorView::InvalidIdentity("identity manifest is malformed: "@ + reason)
}

/// The error for a manifest whose format version this client does not know.
pub open spec fn unsupported_version_error(version: nat) -> ErrorView {
    ErrorView::InvalidIdentity(
        "identity manifest version "@ + decimal(version)
            + " is not supported; leave the file unchanged and upgrade the client"@,
    )
}

/// The error for a failed filesystem operation described by `context`.
pub open spec fn persistence_error(context: Seq<char>, detail: Seq<char>) -> ErrorView {
    ErrorView::Persistence(context + ": "@ + detail)
}

impl Error {
    /// The text shown to a person for this error.
    pub fn to_string(&self) -> (r: String)
        ensures
            r@ == error_text(self@),
    {
        match self {
            Error::NotInitialized => String::from_str("project is not initialized"),
            Error::InvalidIdentity(detail) => detail.clone(),
            Error::Persistence(detail) => detail.clone(),
        }
    }
}

/// The error for a malformed manifest, saying what is wrong with it.
pub fn malformed(reason: &str) -> (e: Error)
    ensures
        e@ == malformed_error(reason@),
{
    let mut text = String::from_str("identity manifest is malformed: ");
    text.append(reason);
    Error::InvalidIdentity(text)
}

/// The error for a manifest whose `version` this client does not support.
pub fn unsupported_version(version: u64) -> (e: Error)
    ensures
        e@ == unsupported_version_error(version as nat),
{
    let mut text = String::from_str("identity manifest version ");
    push_decimal(&mut text, version);
    text.append(" is not supported; leave the file unchanged and upgrade the client");
    Error::InvalidIdentity(text)
}

/// The error for a failed filesystem operation: what was attempted, then
/// what the system reported.
pub fn persistence(context: &str, detail: &str) -> (e: Error)
    ensures
        e@ == persistence_error(context@, detail@),
{
    let mut text = String::from_str(context);
    text.append(": ");
    text.append(detail);
    Error::Persistence(text)
}

} // verus!
