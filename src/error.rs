//! Errors of the library.
use vstd::prelude::*;

verus! {

/// What can go wrong in the library's operations.
#[derive(Debug, PartialEq, Eq)]
pub enum XdevError {
    /// The URL is empty or blank.
    UrlEmpty,
    /// The URL does not start with `http://` or `https://`.
    UrlInvalidProtocol,
    /// Nothing follows the scheme.
    UrlMissingDomain,
    /// The host part is empty.
    UrlInvalidDomain,
    /// The host part is not a plausible host name; it is carried along.
    UrlInvalidDomainFormat(String),
    /// Downloaded content has no lines at all.
    HostsContentEmpty,
    /// Downloaded content has no line that is not blank or a comment.
    HostsContentInvalid,
    /// No backup is available.
    BackupNotFound,
    /// A configuration field of this name does not exist.
    UnknownField(String),
    /// The language code is not supported.
    UnsupportedLanguage(String),
}

} // verus!
