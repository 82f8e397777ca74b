//! The `url` crate's file URLs.

use url::Url;
use vstd::prelude::*;

verus! {

/// The scheme of the URL that a text writes down, in lower case; a text that is
/// no URL has none.
pub uninterp spec fn uri_scheme(uri: Seq<char>) -> Option<Seq<char>>;

/// The path that the URL which a text writes down leads to, if it can lead to
/// one.
pub uninterp spec fn uri_path(uri: Seq<char>) -> Option<Seq<char>>;

/// The file URL of a path, if it has one.
pub uninterp spec fn path_uri(path: Seq<char>) -> Option<Seq<char>>;

/// What a string holds, where there is one.
pub open spec fn text_of(string: Option<String>) -> Option<Seq<char>> {
    match string {
        Some(s) => Some(s@),
        None => None,
    }
}

/// `Url::scheme` gives the scheme of the URL that `Url::parse` reads from the
/// text.
#[verifier::external_body]
pub(crate) fn scheme(uri: &str) -> (scheme: Option<String>)
    ensures
        text_of(scheme) == uri_scheme(uri@),
{
    match Url::parse(uri) {
        Ok(url) => Some(url.scheme().to_owned()),
        Err(_) => None,
    }
}

/// `Url::to_file_path` gives the Unix path of the URL that `Url::parse` reads
/// from the text, whatever its scheme, and fails where the URL has a host other
/// than `localhost` or no path of segments. Bytes of it that are no text are
/// replaced.
#[verifier::external_body]
pub(crate) fn to_file_path(uri: &str) -> (path: Option<String>)
    ensures
        text_of(path) == uri_path(uri@),
{
    match Url::parse(uri) {
        Ok(url) => match url.to_file_path() {
            Ok(path) => Some(path.to_string_lossy().into_owned()),
            Err(()) => None,
        },
        Err(_) => None,
    }
}

/// `Url::from_file_path` gives the file URL of a path, which on Unix is what
/// every absolute path has and no relative one.
#[verifier::external_body]
pub(crate) fn from_file_path(path: &str) -> (url: Option<String>)
    ensures
        text_of(url) == path_uri(path@),
        (url is Some) == (path@.len() > 0 && path@[0] == '/'),
{
    match Url::from_file_path(path) {
        Ok(url) => Some(url.as_str().to_owned()),
        Err(()) => None,
    }
}

} // verus!
