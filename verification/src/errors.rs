//! The failure taxonomy of the pipeline.
//!
//! A resolution failure or an unknown account type is fatal to the whole run:
//! the set of repositories to scan is a precondition for everything after it.
//! A clone or extraction failure concerns one repository only; the caller
//! reports it as a warning and goes on with the rest.

use vstd::prelude::*;
use vstd::string::StringExecFns;

verus! {

/// What the standard library's `Debug` formatting makes of a string: the
/// text wrapped in double quotes, with quotes, backslashes, control and
/// other non-printable characters escaped. It depends on the characters
/// alone.
pub uninterp spec fn debug_quoted(s: Seq<char>) -> Seq<char>;

/// Relies on `str`'s `Debug` formatting: the result depends on the
/// characters alone.
#[verifier::external_body]
pub(crate) fn debug_quote(s: &str) -> (r: String)
    ensures
        r@ == debug_quoted(s@),
{
    format!("{:?}", s)
}

pub enum Error {
    /// An account could not be expanded into repositories (network or API
    /// failure); the field describes the cause.
    ResolutionFailed(String),
    /// The account-type lookup returned neither a user nor an organization;
    /// the field holds the type value that came back.
    UnknownAccountType(String),
    /// The clone of one repository failed; the fields hold its URL and the
    /// diagnostic output captured from the clone.
    CloneFailed { url: String, diagnostic: String },
    /// One repository's object store or commit graph could not be read; the
    /// field describes the cause.
    ExtractionFailed(String),
}

/// The characters of the diagnostic line that describes `e`.
pub open spec fn message_view(e: &Error) -> Seq<char> {
    match e {
        Error::ResolutionFailed(cause) => "resolution failed: "@ + cause@,
        Error::UnknownAccountType(kind) => "Unknown type "@ + debug_quoted(kind@),
        Error::CloneFailed { url, diagnostic } => "git clone failed for "@ + url@ + ": "@
            + diagnostic@,
        Error::ExtractionFailed(cause) => "extraction failed: "@ + cause@,
    }
}

impl Error {
    /// One diagnostic line describing this failure.
    pub fn message(&self) -> (r: String)
        ensures
            r@ == message_view(self),
    {
        let mut out = String::new();
        match self {
            Error::ResolutionFailed(cause) => {
                out.append("resolution failed: ");
                out.append(cause.as_str());
            },
            Error::UnknownAccountType(kind) => {
                out.append("Unknown type ");
                out.append(debug_quote(kind.as_str()).as_str());
            },
            Error::CloneFailed { url, diagnostic } => {
                out.append("git clone failed for ");
                out.append(url.as_str());
                out.append(": ");
                out.append(diagnostic.as_str());
            },
            Error::ExtractionFailed(cause) => {
                out.append("extraction failed: ");
                out.append(cause.as_str());
            },
        }
        out
    }
}

} // verus!
