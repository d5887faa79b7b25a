//! The TaPeer client: the server's base URL and the endpoints under it.
//!
//! The base URL is kept without trailing `'/'`, so that every endpoint is the base URL
//! followed by exactly one `'/'` and the endpoint's path.
use vstd::prelude::*;
use crate::text::{ends_with_char, strip_trailing_slashes, strip_trailing_slashes_text};

verus! {

/// A client of one TaPeer server.
pub struct TaPeerClient {
    base_url: String,
}

impl View for TaPeerClient {
    type V = Seq<char>;

    /// The normalized base URL of the server.
    closed spec fn view(&self) -> Seq<char> {
        self.base_url@
    }
}

impl TaPeerClient {
    /// A client of the server at `base_url`, with every trailing `'/'` removed from it so that
    /// joining endpoint paths never doubles a `'/'`.
    pub fn new(base_url: String) -> (client: TaPeerClient)
        ensures
            client@ == strip_trailing_slashes(base_url@),
    {
        TaPeerClient { base_url: strip_trailing_slashes_text(base_url.as_str()) }
    }

    /// The configured (normalized) base URL.
    pub fn base_url(&self) -> (url: &str)
        ensures
            url@ == self@,
    {
        self.base_url.as_str()
    }

    /// The base URL followed by `path`.
    pub fn url_for(&self, path: &str) -> (url: String)
        ensures
            url@ == self@ + path@,
    {
        let mut url = self.base_url.clone();
        url.append(path);
        url
    }

    /// `GET /items`: the list of active shared items.
    pub fn items_url(&self) -> (url: String)
        ensures
            url@ == self@ + "/items"@,
    {
        self.url_for("/items")
    }

    /// `POST /text`: shares a text.
    pub fn text_url(&self) -> (url: String)
        ensures
            url@ == self@ + "/text"@,
    {
        self.url_for("/text")
    }

    /// `POST /upload`: uploads a file.
    pub fn upload_url(&self) -> (url: String)
        ensures
            url@ == self@ + "/upload"@,
    {
        self.url_for("/upload")
    }

    /// `GET /download/:id`: the bytes of a shared file.
    pub fn download_url(&self, id: &str) -> (url: String)
        ensures
            url@ == self@ + "/download/"@ + id@,
    {
        let mut url = self.url_for("/download/");
        url.append(id);
        url
    }

    /// `GET /snippet/:id`: the text of a shared snippet.
    pub fn snippet_url(&self, id: &str) -> (url: String)
        ensures
            url@ == self@ + "/snippet/"@ + id@,
    {
        let mut url = self.url_for("/snippet/");
        url.append(id);
        url
    }
}

/// `k` slashes.
pub open spec fn slashes(k: nat) -> Seq<char> {
    Seq::new(k, |i: int| '/')
}

/// Normalizing a base URL leaves no trailing `'/'`, removes nothing but trailing `'/'`, and
/// changes nothing when applied again.
pub proof fn lemma_normalized_base_url(s: Seq<char>)
    ensures
        !ends_with_char(strip_trailing_slashes(s), '/'),
        strip_trailing_slashes(s).len() <= s.len(),
        s == strip_trailing_slashes(s) + slashes(
            (s.len() - strip_trailing_slashes(s).len()) as nat,
        ),
        strip_trailing_slashes(strip_trailing_slashes(s)) == strip_trailing_slashes(s),
    decreases s.len(),
{
    if s.len() > 0 && s.last() == '/' {
        lemma_normalized_base_url(s.drop_last());
        let t = strip_trailing_slashes(s);
        let k = (s.drop_last().len() - t.len()) as nat;
        assert(s =~= t + slashes(k + 1)) by {
            assert(s.drop_last() == t + slashes(k));
            assert forall|i: int| 0 <= i < s.len() implies s[i] == (t + slashes(k + 1))[i] by {
                if i < s.len() - 1 {
                    assert(s[i] == s.drop_last()[i]);
                }
            }
        }
    } else {
        assert(s =~= s + slashes(0));
    }
}

/// Base URLs that differ only in trailing slashes give the same client URL, so the same
/// endpoints.
pub proof fn lemma_trailing_slashes_ignored(s: Seq<char>, k: nat)
    ensures
        strip_trailing_slashes(s + slashes(k)) == strip_trailing_slashes(s),
    decreases k,
{
    if k > 0 {
        let t = s + slashes(k);
        assert(t.len() > 0 && t.last() == '/');
        assert(t.drop_last() =~= s + slashes((k - 1) as nat));
        lemma_trailing_slashes_ignored(s, (k - 1) as nat);
    } else {
        assert(s + slashes(0) =~= s);
    }
}

} // verus!
