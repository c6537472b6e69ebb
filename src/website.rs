//! Monitored endpoints and the check made before one is registered.
use vstd::prelude::*;
use crate::error::ApiError;

verus! {

/// A monitored endpoint: the URL that is probed and the alias it is known by.
#[derive(Clone, Debug, PartialEq, Eq)]
pub struct Website {
    pub url: String,
    pub alias: String,
}

/// Whether a string parses as an absolute URL.
pub uninterp spec fn is_url(s: Seq<char>) -> bool;

/// Relies on validator's `ValidateUrl::validate_url` for `str`, which answers
/// whether `url::Url::parse` accepts the string; the answer depends on the
/// string alone.
#[verifier::external_body]
fn parses_as_url(s: &str) -> (r: bool)
    ensures
        r == is_url(s@),
{
    validator::ValidateUrl::validate_url(s)
}

/// Accepts a new endpoint when its URL parses, and refuses it with
/// `InvalidUrl` carrying the URL otherwise.
pub fn validate_website(url: String, alias: String) -> (r: Result<Website, ApiError>)
    ensures
        is_url(url@) ==> r == Ok::<Website, ApiError>(Website { url, alias }),
        !is_url(url@) ==> r == Err::<Website, ApiError>(ApiError::InvalidUrl(url)),
{
    if parses_as_url(url.as_str()) {
        Ok(Website { url, alias })
    } else {
        Err(ApiError::InvalidUrl(url))
    }
}

} // verus!
