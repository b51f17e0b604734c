//! What an HTTP request of the downloader carries: its URL, its headers and its body.
//! Sending it is the caller's part.

use vstd::prelude::*;
use crate::strings::{push_str, starts_with, str_eq, has_prefix};
use crate::twitch::{API_URL, CLIENT_ID, GQL_CLIENT_ID, GQL_URL, USER_AGENT};

verus! {

/// A request to make: its URL, extra headers, and a body (a `POST` when not empty).
pub struct Fetch {
    url: String,
    pub header: Vec<(String, String)>,
    post: String,
}

/// The abstract value of a request.
pub struct FetchView {
    pub url: Seq<char>,
    pub header: Seq<(Seq<char>, Seq<char>)>,
    pub post: Seq<char>,
}

/// The views of a list of headers.
pub open spec fn headers_view(h: Seq<(String, String)>) -> Seq<(Seq<char>, Seq<char>)> {
    h.map_values(|p: (String, String)| (p.0@, p.1@))
}

impl View for Fetch {
    type V = FetchView;

    closed spec fn view(&self) -> FetchView {
        FetchView { url: self.url@, header: headers_view(self.header@), post: self.post@ }
    }
}

/// The `client-id` headers that the Twitch endpoints want: the API's for URLs under
/// the API, the GraphQL one for the GraphQL endpoint.
pub open spec fn client_id_headers_for(url: Seq<char>) -> Seq<(Seq<char>, Seq<char>)> {
    let api: Seq<(Seq<char>, Seq<char>)> = if has_prefix(url, API_URL@) {
        seq![("client-id"@, CLIENT_ID@)]
    } else {
        Seq::empty()
    };
    let gql: Seq<(Seq<char>, Seq<char>)> = if url == GQL_URL@ {
        seq![("client-id"@, GQL_CLIENT_ID@)]
    } else {
        Seq::empty()
    };
    api + gql
}

/// All headers sent with a request: the extra ones, the `client-id` ones, then the user agent.
pub open spec fn request_headers_for(f: FetchView) -> Seq<(Seq<char>, Seq<char>)> {
    f.header + client_id_headers_for(f.url) + seq![("User-Agent"@, USER_AGENT@)]
}

fn header_pair(name: &str, value: &str) -> (r: (String, String))
    ensures
        r.0@ == name@,
        r.1@ == value@,
{
    (name.to_string(), value.to_string())
}

/// The `client-id` headers for a URL.
pub fn client_id_headers(url: &str) -> (r: Vec<(String, String)>)
    ensures
        headers_view(r@) == client_id_headers_for(url@),
{
    let mut r: Vec<(String, String)> = Vec::new();
    if starts_with(url, API_URL) {
        r.push(header_pair("client-id", CLIENT_ID));
    }
    if str_eq(url, GQL_URL) {
        r.push(header_pair("client-id", GQL_CLIENT_ID));
    }
    assert(headers_view(r@) =~= client_id_headers_for(url@));
    r
}

impl Fetch {
    /// A request with no URL, no extra header and no body.
    pub fn new() -> (r: Fetch)
        ensures
            r@.url.len() == 0,
            r@.header.len() == 0,
            r@.post.len() == 0,
    {
        let r = Fetch { url: String::new(), header: Vec::new(), post: String::new() };
        assert(r@.header =~= Seq::<(Seq<char>, Seq<char>)>::empty());
        r
    }

    /// Sets the URL.
    pub fn set_url(&mut self, url: String)
        ensures
            final(self)@ == (FetchView { url: url@, ..old(self)@ }),
    {
        self.url = url;
    }

    /// Sets the body; a non-empty body makes the request a `POST`.
    pub fn set_post(&mut self, post: String)
        ensures
            final(self)@ == (FetchView { post: post@, ..old(self)@ }),
    {
        self.post = post;
    }

    /// The URL.
    pub fn url(&self) -> (r: &str)
        ensures
            r@ == self@.url,
    {
        self.url.as_str()
    }

    /// The body.
    pub fn post(&self) -> (r: &str)
        ensures
            r@ == self@.post,
    {
        self.post.as_str()
    }

    /// Whether the request is a `POST` (it has a body) rather than a `GET`.
    pub fn is_post(&self) -> (r: bool)
        ensures
            r == (self@.post.len() > 0),
    {
        !self.post.as_str().is_empty()
    }

    /// Every header to send, in order.
    pub fn request_headers(&self) -> (r: Vec<(String, String)>)
        ensures
            headers_view(r@) == request_headers_for(self@),
    {
        let mut r: Vec<(String, String)> = Vec::new();
        let mut i: usize = 0;
        while i < self.header.len()
            invariant
                i <= self.header@.len(),
                headers_view(r@) == headers_view(self.header@).take(i as int),
            decreases self.header.len() - i,
        {
            let a = self.header[i].0.clone();
            let b = self.header[i].1.clone();
            let ghost before = r@;
            r.push((a, b));
            proof {
                assert(r@ == before.push((a, b)));
                assert(a@ == self.header@[i as int].0@);
                assert(b@ == self.header@[i as int].1@);
                assert(headers_view(r@) =~= headers_view(before).push((a@, b@)));
                assert(headers_view(self.header@).take(i + 1) =~= headers_view(self.header@).take(i as int).push(
                    headers_view(self.header@)[i as int],
                ));
            }
            i = i + 1;
        }
        assert(headers_view(self.header@).take(self.header@.len() as int) == headers_view(self.header@));
        let mut ids = client_id_headers(&self.url);
        r.append(&mut ids);
        r.push(header_pair("User-Agent", USER_AGENT));
        assert(headers_view(r@) =~= request_headers_for(self@));
        r
    }
}

/// A `name: value` header line.
pub fn header_line(name: &str, value: &str) -> (r: String)
    ensures
        r@ == name@ + ": "@ + value@,
{
    let mut r = String::new();
    push_str(&mut r, name);
    push_str(&mut r, ": ");
    push_str(&mut r, value);
    r
}

/// Whether a URL is fetched over TLS (it starts with `https`).
pub fn uses_tls(url: &str) -> (r: bool)
    ensures
        r == has_prefix(url@, "https"@),
{
    starts_with(url, "https")
}

} // verus!
