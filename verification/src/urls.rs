//! URLs, as the parts of a parsed URL that the library reads.
use vstd::prelude::*;

verus! {

/// The parts of a parsed URL.
#[derive(Debug, Clone, PartialEq, Eq)]
pub struct UrlParts {
    /// The scheme, lowercase (`https`).
    pub scheme: String,
    /// The host, when the URL has one.
    pub host: Option<String>,
    /// The `/`-separated path segments (empty ones included), when the URL has a hierarchical path.
    pub segments: Option<Vec<String>>,
    /// The decoded `key=value` pairs of the query, in order.
    pub query: Vec<(String, String)>,
    /// The serialized URL.
    pub href: String,
    /// The serialized URL without its fragment.
    pub href_without_fragment: String,
}

pub struct UrlView {
    pub scheme: Seq<char>,
    pub host: Option<Seq<char>>,
    pub segments: Option<Seq<Seq<char>>>,
    pub query: Seq<(Seq<char>, Seq<char>)>,
    pub href: Seq<char>,
    pub href_without_fragment: Seq<char>,
}

pub open spec fn strings_view(v: Seq<String>) -> Seq<Seq<char>> {
    v.map_values(|s: String| s@)
}

impl View for UrlParts {
    type V = UrlView;

    open spec fn view(&self) -> UrlView {
        UrlView {
            scheme: self.scheme@,
            host: match self.host {
                Some(h) => Some(h@),
                None => None,
            },
            segments: match self.segments {
                Some(s) => Some(strings_view(s@)),
                None => None,
            },
            query: self.query@.map_values(|kv: (String, String)| (kv.0@, kv.1@)),
            href: self.href@,
            href_without_fragment: self.href_without_fragment@,
        }
    }
}

pub open spec fn url_view(u: Result<UrlParts, String>) -> Result<UrlView, Seq<char>> {
    match u {
        Ok(p) => Ok(p@),
        Err(e) => Err(e@),
    }
}

/// What the `url` crate parses from a string: the URL, or the description of
/// the parse error when it rejects it.
pub uninterp spec fn parsed_url_of(input: Seq<char>) -> Result<UrlView, Seq<char>>;

/// `reqwest::Url::parse` (the `url` crate). Trusted: the result is the named
/// parse of the input, read through `scheme`, `host_str`, `path_segments`,
/// `query_pairs`, `as_str` and the serialization up to the query; a rejection
/// is read through the error's `Display`.
#[verifier::external_body]
pub(crate) fn parse_url(input: &str) -> (parts: Result<UrlParts, String>)
    ensures
        url_view(parts) == parsed_url_of(input@),
{
    let url = reqwest::Url::parse(input).map_err(|e| e.to_string())?;
    Ok(UrlParts {
        scheme: url.scheme().to_string(),
        host: url.host_str().map(str::to_string),
        segments: url.path_segments().map(|segments| segments.map(str::to_string).collect()),
        query: url.query_pairs().map(|(k, v)| (k.into_owned(), v.into_owned())).collect(),
        href: url.as_str().to_string(),
        href_without_fragment: { let mut bare = url.clone(); bare.set_fragment(None); bare.to_string() },
    })
}

/// The serialization of the URL that the `url` crate resolves a reference to
/// against a base URL (`None` when either is rejected).
pub uninterp spec fn joined_url_of(base: Seq<char>, reference: Seq<char>) -> Option<Seq<char>>;

/// `reqwest::Url::parse` of the base, then `Url::join`. Trusted: the result is
/// the named serialization of the resolved URL.
#[verifier::external_body]
pub(crate) fn join_url(base: &str, reference: &str) -> (joined: Option<String>)
    ensures
        match joined {
            Some(j) => joined_url_of(base@, reference@) == Some(j@),
            None => joined_url_of(base@, reference@) is None,
        },
{
    Some(reqwest::Url::parse(base).ok()?.join(reference).ok()?.to_string())
}

} // verus!
