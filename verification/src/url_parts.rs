//! What the logic reads of a parsed URL, and the URL rewrites it asks of the `url` crate.
use vstd::prelude::*;

verus! {

/// The parts of a parsed URL that the logic reads.
#[derive(Debug, Clone)]
pub struct UrlInfo {
    /// `Url::scheme`.
    pub scheme: String,
    /// `Url::host_str`.
    pub host: Option<String>,
    /// `Url::query_pairs`, decoded, in order.
    pub query: Vec<(String, String)>,
    /// `Url::fragment`.
    pub fragment: Option<String>,
}

pub struct UrlInfoView {
    pub scheme: Seq<char>,
    pub host: Option<Seq<char>>,
    pub query: Seq<(Seq<char>, Seq<char>)>,
    pub fragment: Option<Seq<char>>,
}

impl View for UrlInfo {
    type V = UrlInfoView;

    open spec fn view(&self) -> UrlInfoView {
        UrlInfoView {
            scheme: self.scheme@,
            host: self.host.deep_view(),
            query: self.query.deep_view(),
            fragment: self.fragment.deep_view(),
        }
    }
}

impl DeepView for UrlInfo {
    type V = UrlInfoView;

    open spec fn deep_view(&self) -> UrlInfoView {
        self@
    }
}

/// What `url::Url::parse` gives for a text, read through `scheme`, `host_str`,
/// `query_pairs` and `fragment`; `None` when it does not parse.
pub uninterp spec fn parsed_url(s: Seq<char>) -> Option<UrlInfoView>;

/// The serialization of the URL parsed from a text after `set_fragment(None)`; `None`
/// when it does not parse.
pub uninterp spec fn url_without_fragment(s: Seq<char>) -> Option<Seq<char>>;

/// The serialization of the URL parsed from a text after `set_query(None)`; `None` when it
/// does not parse.
pub uninterp spec fn url_without_query(s: Seq<char>) -> Option<Seq<char>>;

/// The serialization of the URL parsed from a text after `set_query(None)` and appending
/// the pairs in order with `query_pairs_mut().append_pair`; `None` when it does not parse.
pub uninterp spec fn url_with_query_pairs(s: Seq<char>, pairs: Seq<(Seq<char>, Seq<char>)>) -> Option<Seq<char>>;

/// Calls `url::Url::parse` and copies out `scheme()`, `host_str()`, the decoded
/// `query_pairs()` and `fragment()`. Claimed: the outcome depends on the text alone, named
/// `parsed_url`; nothing is stated of URL syntax.
#[verifier::external_body]
pub(crate) fn parse_url(s: &str) -> (r: Option<UrlInfo>)
    ensures
        r matches Some(u) ==> parsed_url(s@) == Some(u@),
        r is None ==> parsed_url(s@) is None,
{
    match url::Url::parse(s) {
        Ok(u) => Some(
            UrlInfo {
                scheme: u.scheme().to_string(),
                host: u.host_str().map(|h| h.to_string()),
                query: u.query_pairs().map(|(k, v)| (k.into_owned(), v.into_owned())).collect(),
                fragment: u.fragment().map(|f| f.to_string()),
            },
        ),
        Err(_) => None,
    }
}

/// Calls `url::Url::parse`, then `set_fragment(None)`, then `to_string`. Claimed: the
/// outcome depends on the text alone, named `url_without_fragment`.
#[verifier::external_body]
pub(crate) fn strip_url_fragment(s: &str) -> (r: Option<String>)
    ensures
        r.deep_view() == url_without_fragment(s@),
{
    match url::Url::parse(s) {
        Ok(mut u) => {
            u.set_fragment(None);
            Some(u.to_string())
        },
        Err(_) => None,
    }
}

/// Calls `url::Url::parse`, then `set_query(None)`, then `to_string`. Claimed: the outcome
/// depends on the text alone, named `url_without_query`.
#[verifier::external_body]
pub(crate) fn clear_url_query(s: &str) -> (r: Option<String>)
    ensures
        r.deep_view() == url_without_query(s@),
{
    match url::Url::parse(s) {
        Ok(mut u) => {
            u.set_query(None);
            Some(u.to_string())
        },
        Err(_) => None,
    }
}

/// Calls `url::Url::parse`, then `set_query(None)`, then `append_pair` for each pair in
/// order on one `query_pairs_mut()` serializer, then `to_string`. Claimed: the outcome
/// depends on the text and the pairs alone, named `url_with_query_pairs`.
#[verifier::external_body]
pub(crate) fn replace_url_query(s: &str, pairs: &Vec<(String, String)>) -> (r: Option<String>)
    ensures
        r.deep_view() == url_with_query_pairs(s@, pairs.deep_view()),
{
    match url::Url::parse(s) {
        Ok(mut u) => {
            u.set_query(None);
            {
                let mut q = u.query_pairs_mut();
                for (k, v) in pairs {
                    q.append_pair(k, v);
                }
            }
            Some(u.to_string())
        },
        Err(_) => None,
    }
}

} // verus!
