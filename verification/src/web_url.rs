//! URLs through the `url` crate. A `WebUrl` keeps the parsed `url::Url`
//! together with its serialization; the contracts speak of the
//! serialization, and what the `url` crate computes from it is named.
use crate::text::opt_view;
use vstd::prelude::*;

verus! {

#[verifier::external_type_specification]
#[verifier::external_body]
pub struct ExUrl(url::Url);

/// The serialization that `url::Url::parse` gives for `input`, or `None`
/// when it rejects `input`.
pub uninterp spec fn url_parse(input: Seq<char>) -> Option<Seq<char>>;

/// `Url::scheme` of the URL serialized as `url`.
pub uninterp spec fn url_scheme(url: Seq<char>) -> Seq<char>;

/// `Url::host_str` of the URL serialized as `url`.
pub uninterp spec fn url_host(url: Seq<char>) -> Option<Seq<char>>;

/// `Url::port` (the explicit, non-default port) of the URL serialized as `url`.
pub uninterp spec fn url_port(url: Seq<char>) -> Option<u16>;

/// `Url::query_pairs` (form-decoded) of the URL serialized as `url`.
pub uninterp spec fn url_query_pairs(url: Seq<char>) -> Seq<(Seq<char>, Seq<char>)>;

/// The serialization after `Url::set_path(path)`.
pub uninterp spec fn url_set_path(url: Seq<char>, path: Seq<char>) -> Seq<char>;

/// The serialization after `url.query_pairs_mut().clear()`.
pub uninterp spec fn url_clear_query(url: Seq<char>) -> Seq<char>;

/// The serialization after `url.query_pairs_mut().append_pair(key, value)`.
pub uninterp spec fn url_append_pair(url: Seq<char>, key: Seq<char>, value: Seq<char>) -> Seq<char>;

pub open spec fn pair_views(v: Seq<(String, String)>) -> Seq<(Seq<char>, Seq<char>)> {
    v.map_values(|p: (String, String)| (p.0@, p.1@))
}

/// A parsed URL and its serialization.
#[derive(Debug)]
pub struct WebUrl {
    url: url::Url,
    text: String,
}

impl View for WebUrl {
    type V = Seq<char>;

    closed spec fn view(&self) -> Seq<char> {
        self.text@
    }
}

impl WebUrl {
    /// `url::Url::parse`.
    #[verifier::external_body]
    pub(crate) fn parse(input: &str) -> (r: Option<WebUrl>)
        ensures
            r is Some <==> url_parse(input@) is Some,
            r matches Some(u) ==> url_parse(input@) == Some(u@),
    {
        let url = url::Url::parse(input).ok()?;
        let text = url.as_str().to_string();
        Some(WebUrl { url, text })
    }

    /// The serialization (`Url::as_str`).
    pub fn as_str(&self) -> (r: &str)
        ensures
            r@ == self@,
    {
        self.text.as_str()
    }

    /// `Url::scheme`.
    #[verifier::external_body]
    pub(crate) fn scheme(&self) -> (r: String)
        ensures
            r@ == url_scheme(self@),
    {
        self.url.scheme().to_string()
    }

    /// `Url::host_str`.
    #[verifier::external_body]
    pub(crate) fn host_str(&self) -> (r: Option<String>)
        ensures
            opt_view(r) == url_host(self@),
    {
        self.url.host_str().map(|h| h.to_string())
    }

    /// `Url::port`.
    #[verifier::external_body]
    pub(crate) fn port(&self) -> (r: Option<u16>)
        ensures
            r == url_port(self@),
    {
        self.url.port()
    }

    /// `Url::query_pairs`, each pair decoded into owned strings.
    #[verifier::external_body]
    pub(crate) fn query_pairs(&self) -> (r: Vec<(String, String)>)
        ensures
            pair_views(r@) == url_query_pairs(self@),
    {
        self.url.query_pairs().map(|(k, v)| (k.into_owned(), v.into_owned())).collect()
    }

    /// `Url::set_path`.
    #[verifier::external_body]
    pub(crate) fn set_path(&mut self, path: &str)
        ensures
            final(self)@ == url_set_path(old(self)@, path@),
    {
        self.url.set_path(path);
        self.text = self.url.as_str().to_string();
    }

    /// `url.query_pairs_mut().clear()`: an empty query, as
    /// `set_query(Some(""))`, so no name/value pair is left.
    #[verifier::external_body]
    pub(crate) fn clear_query(&mut self)
        ensures
            final(self)@ == url_clear_query(old(self)@),
            url_query_pairs(final(self)@) == Seq::<(Seq<char>, Seq<char>)>::empty(),
    {
        self.url.query_pairs_mut().clear();
        self.text = self.url.as_str().to_string();
    }

    /// `url.query_pairs_mut().append_pair(key, value)`: the query, read as
    /// a sequence of name/value pairs, gets `(key, value)` appended and
    /// keeps the pairs it had.
    #[verifier::external_body]
    pub(crate) fn append_pair(&mut self, key: &str, value: &str)
        ensures
            final(self)@ == url_append_pair(old(self)@, key@, value@),
            url_query_pairs(final(self)@) == url_query_pairs(old(self)@).push((key@, value@)),
    {
        self.url.query_pairs_mut().append_pair(key, value);
        self.text = self.url.as_str().to_string();
    }

    /// A copy of this URL.
    #[verifier::external_body]
    pub(crate) fn duplicate(&self) -> (r: WebUrl)
        ensures
            r@ == self@,
    {
        WebUrl { url: self.url.clone(), text: self.text.clone() }
    }
}

} // verus!
