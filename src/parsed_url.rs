//! A parsed absolute URL, held as the plain strings that the matching logic reads.
use vstd::prelude::*;

use crate::error::Ut1Error;
use url::Position;

verus! {

/// The mathematical view of a [`ParsedUrl`].
pub struct UrlView {
    /// The whole serialization of the URL.
    pub text: Seq<char>,
    /// The host, for URLs that have one.
    pub host: Option<Seq<char>>,
    /// The serialization from the scheme through the end of the path.
    pub through_path: Seq<char>,
    /// The serialization from the host through the end of the path.
    pub host_through_path: Seq<char>,
}

/// What the `url` crate makes of a string parsed as an absolute URL:
/// `None` where it refuses the string.
pub uninterp spec fn url_parse(input: Seq<char>) -> Option<UrlView>;

/// An absolute URL as the `url` crate parsed and canonicalized it.
///
/// Two URLs are equal exactly when their serializations are.
#[derive(Clone, Debug)]
pub struct ParsedUrl {
    text: String,
    host: Option<String>,
    through_path: String,
    host_through_path: String,
}

/// The view of an optional string.
pub open spec fn opt_view(o: Option<String>) -> Option<Seq<char>> {
    match o {
        Some(s) => Some(s@),
        None => None,
    }
}

impl View for ParsedUrl {
    type V = UrlView;

    closed spec fn view(&self) -> UrlView {
        UrlView {
            text: self.text@,
            host: opt_view(self.host),
            through_path: self.through_path@,
            host_through_path: self.host_through_path@,
        }
    }
}

/// Relies on `url::Url::parse`: it parses an absolute URL or refuses the input,
/// and what it yields depends on the input alone. The parts kept are read off
/// the result with `Url::as_str`, `Url::host_str` and slicing by `Position`.
#[verifier::external_body]
fn parse_absolute(input: &str) -> (r: Result<ParsedUrl, url::ParseError>)
    ensures
        match r {
            Ok(u) => url_parse(input@) == Some(u@),
            Err(_) => url_parse(input@) is None,
        },
{
    url::Url::parse(input).map(|u| ParsedUrl {
        host: u.host_str().map(String::from),
        through_path: u[Position::BeforeScheme..Position::AfterPath].to_string(),
        host_through_path: u[Position::BeforeHost..Position::AfterPath].to_string(),
        text: u.into(),
    })
}

impl ParsedUrl {
    /// Parses `input` as an absolute URL.
    pub fn parse(input: &str) -> (r: Result<ParsedUrl, Ut1Error>)
        ensures
            match r {
                Ok(u) => url_parse(input@) == Some(u@),
                Err(e) => url_parse(input@) is None && e is MalformedUrl,
            },
    {
        match parse_absolute(input) {
            Ok(u) => Ok(u),
            Err(e) => Err(Ut1Error::MalformedUrl(e)),
        }
    }

    /// The whole serialization of the URL.
    pub fn as_str(&self) -> (r: &str)
        ensures
            r@ == self@.text,
    {
        self.text.as_str()
    }

    /// The host, if the URL has one.
    pub fn host_str(&self) -> (r: Option<&str>)
        ensures
            match r {
                Some(h) => self@.host == Some(h@),
                None => self@.host is None,
            },
    {
        match &self.host {
            Some(h) => Some(h.as_str()),
            None => None,
        }
    }

    /// The serialization from the scheme through the end of the path: the
    /// query and the fragment are left out.
    pub fn through_path(&self) -> (r: &str)
        ensures
            r@ == self@.through_path,
    {
        self.through_path.as_str()
    }

    /// The serialization from the host through the end of the path.
    pub fn host_through_path(&self) -> (r: &str)
        ensures
            r@ == self@.host_through_path,
    {
        self.host_through_path.as_str()
    }
}

} // verus!
