use vstd::prelude::*;

verus! {

/// The `file:` URI that `url::Url::from_file_path` makes of a path, if any.
pub uninterp spec fn spec_file_uri(path: Seq<char>) -> Option<Seq<char>>;

/// The path that `url::Url::parse` and `Url::to_file_path` read out of a URI, if any.
pub uninterp spec fn spec_uri_path(uri: Seq<char>) -> Option<Seq<char>>;

/// The `file:` URI of a path, as text.
///
/// Trusted: calls `url::Url::from_file_path` and renders the URL with `to_string`. The
/// contract only names the result as a function of the path (the crate percent-encodes
/// the path, and fails on a path that is not absolute).
#[verifier::external_body]
pub fn uri_for_path(path: &str) -> (r: Option<String>)
    ensures
        match r {
            Some(u) => spec_file_uri(path@) == Some(u@),
            None => spec_file_uri(path@) is None,
        },
{
    match url::Url::from_file_path(path) {
        Ok(u) => Some(u.to_string()),
        Err(_) => None,
    }
}

/// The file path that a `file:` URI names.
///
/// Trusted: calls `url::Url::parse` and then `Url::to_file_path`, and renders the path
/// with `to_string_lossy`. The contract only names the result as a function of the URI
/// text (it is absent when the text is no URL, or names no local file).
#[verifier::external_body]
pub fn parse_file_uri(value: &str) -> (r: Option<String>)
    ensures
        match r {
            Some(p) => spec_uri_path(value@) == Some(p@),
            None => spec_uri_path(value@) is None,
        },
{
    match url::Url::parse(value) {
        Ok(u) => match u.to_file_path() {
            Ok(p) => Some(p.to_string_lossy().into_owned()),
            Err(_) => None,
        },
        Err(_) => None,
    }
}

} // verus!
