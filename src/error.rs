//! Errors of the library.
use vstd::prelude::*;

verus! {

/// The parse error of the `url` crate, carried inside [`Ut1Error::MalformedUrl`].
#[verifier::external_type_specification]
#[verifier::external_body]
pub struct ExParseError(url::ParseError);

/// What can go wrong while reading blocklists or normalizing an entry.
#[derive(Debug)]
pub enum Ut1Error {
    /// The given path is not a directory.
    NotADirectory(String),
    /// No blocklist of that name was found under the folder.
    BlocklistNotFound(String),
    /// The input could not be parsed as a URL, as is or behind `https://`.
    MalformedUrl(url::ParseError),
    /// The URL parsed but has no host; the field holds its serialization.
    NoHostname(String),
}

} // verus!
