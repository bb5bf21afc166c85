//! Shortened URLs.
use vstd::prelude::*;
use vstd::string::*;

use crate::entity::{hex_of, id_of_text, text_id, HashID};
use crate::error::Error;
use crate::hex_codec::hex_lower;
use crate::index::{Index, Item, ItemView};
use crate::text::{chars_of, is_blank, is_blank_str, string_from_chars};
use crate::Indexable;

verus! {

/// A target URL with its short slug; identified by the hash of the URL text.
pub struct Url {
    pub hash: HashID,
    pub slug: String,
    pub url: String,
}

/// A URL as shown to users.
pub struct UrlView {
    pub hash: String,
    pub slug: String,
    pub url: String,
}

/// The serialization of a URL as the `url` crate parses it, if it parses.
pub uninterp spec fn url_parse(input: Seq<char>) -> Option<Seq<char>>;

/// Parses and serializes a URL, by `url::Url::parse`; the error is the
/// parser's message.
#[verifier::external_body]
pub(crate) fn parse_url(input: &str) -> (r: Result<String, String>)
    ensures
        match r {
            Ok(u) => url_parse(input@) == Some(u@),
            Err(_) => url_parse(input@) is None,
        },
{
    match url::Url::parse(input) {
        Ok(u) => Ok(u.as_str().to_string()),
        Err(e) => Err(e.to_string()),
    }
}

/// The text whose hash identifies the URL `url`.
pub open spec fn url_key(url: Seq<char>) -> Seq<char> {
    url + "|"@
}

impl Url {
    /// A URL entry for `url`. The text must not be blank and must parse as a
    /// URL; the identifier is the hash of the text followed by `|`, and the
    /// slug is the first 8 hexadecimal digits of the identifier.
    pub fn new(url: &str) -> (r: Result<Self, Error>)
        ensures
            is_blank(url@) ==> r matches Err(Error::EmptyUrl),
            !is_blank(url@) && url_parse(url@) is None ==> (r matches Err(
                Error::InvalidUrl { url: u, .. },
            ) && u@ == url@),
            !is_blank(url@) && url_parse(url@) is Some ==> (r matches Ok(x) && x.url@
                == url_parse(url@)->0 && x.hash@ == text_id(url_key(url@)) && x.slug@ == hex_of(
                x.hash,
            ).take(8)),
    {
        if is_blank_str(url) {
            return Err(Error::EmptyUrl);
        }
        let parsed = match parse_url(url) {
            Ok(p) => p,
            Err(reason) => return Err(Error::InvalidUrl { url: url.to_string(), reason }),
        };
        let mut key = url.to_string();
        key.append("|");
        let hash = id_of_text(key.as_str());
        let slug = hash.short_hash();
        Ok(Url { hash, slug, url: parsed })
    }

    /// The target URL.
    pub fn url(&self) -> (r: String)
        ensures
            r@ == self.url@,
    {
        self.url.clone()
    }

    /// The short URL under the service's `domain`: `<domain>/<slug>`.
    pub fn short_url(&self, domain: &str) -> (r: String)
        ensures
            r@ == domain@ + "/"@ + self.slug@,
    {
        let mut s = domain.to_string();
        s.append("/");
        s.append(self.slug.as_str());
        s
    }
}

impl Indexable for Url {
    fn index(&self) -> (r: Result<Index, Error>)
        ensures
            r matches Ok(ix) && ix@ == seq![
                ItemView { kind: "slug"@, key: self.slug@, values: seq![self.hash] },
            ],
    {
        let mut index = Index::new();
        match Item::new("slug", self.slug.as_str(), &self.hash) {
            Ok(item) => index.push(item),
            Err(e) => return Err(e),
        }
        Ok(index)
    }
}

impl UrlView {
    /// The text form of a URL entry.
    pub fn from_url(u: &Url) -> (r: Self)
        ensures
            r.hash@ == hex_of(u.hash),
            r.slug@ == u.slug@,
            r.url@ == u.url@,
    {
        UrlView { hash: u.hash.as_hex(), slug: u.slug.clone(), url: u.url.clone() }
    }
}

} // verus!
