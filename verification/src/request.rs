//! Request descriptors: method, target URL, optional headers, optional body.
//!
//! A descriptor is validated once, is immutable after that, and says exactly
//! what goes on the wire; the transport that carries it lives outside the
//! library.

use crate::json::{spec_encode, JsonMap};
use vstd::prelude::*;

verus! {

/// The HTTP method of a request; only GET and POST are issued here.
#[derive(Debug, Clone, Copy, PartialEq, Eq)]
pub enum Method {
    Get,
    Post,
}

/// The body of a request: opaque UTF-8 text, or a JSON object.
#[derive(Debug, Clone, PartialEq, Eq)]
pub enum RequestBody {
    Text(String),
    Json(JsonMap),
}

/// Why a request cannot be built.
#[derive(Debug, Clone, Copy, PartialEq, Eq)]
pub enum RequestError {
    /// The URL has no characters.
    EmptyUrl,
    /// The URL does not name a scheme followed by `://`.
    NotAbsolute,
}

/// An absolute URL: at least one character of scheme, then `://`.
pub open spec fn is_absolute_url(s: Seq<char>) -> bool {
    exists|i: int|
        1 <= i && i + 3 <= s.len() && (#[trigger] s[i]) == ':' && s[i + 1] == '/' && s[i + 2]
            == '/'
}

/// Decides whether a URL is absolute.
pub fn url_is_absolute(url: &str) -> (r: bool)
    ensures
        r == is_absolute_url(url@),
{
    let n = url.unicode_len();
    if n < 4 {
        return false;
    }
    let mut i: usize = 1;
    while i <= n - 3
        invariant
            n == url@.len(),
            4 <= n,
            1 <= i <= n - 2,
            forall|j: int|
                1 <= j < i ==> !((#[trigger] url@[j]) == ':' && url@[j + 1] == '/' && url@[j + 2]
                    == '/'),
        decreases n - i,
    {
        if url.get_char(i) == ':' && url.get_char(i + 1) == '/' && url.get_char(i + 2) == '/' {
            proof {
                assert(1 <= i as int && i as int + 3 <= url@.len() && url@[i as int] == ':'
                    && url@[i as int + 1] == '/' && url@[i as int + 2] == '/');
            }
            return true;
        }
        i += 1;
    }
    false
}

/// One request, immutable once built.
#[derive(Debug, PartialEq, Eq)]
pub struct Request {
    pub method: Method,
    pub url: String,
    pub headers: Vec<(String, String)>,
    pub body: Option<RequestBody>,
}

impl Request {
    /// What `build` guarantees of every request it hands out.
    pub open spec fn wf(&self) -> bool {
        self.url@.len() > 0 && is_absolute_url(self.url@)
    }

    /// Validates the inputs and builds the descriptor: an empty URL and a
    /// relative URL are rejected, anything else passes through unchanged.
    pub fn build(
        method: Method,
        url: String,
        headers: Vec<(String, String)>,
        body: Option<RequestBody>,
    ) -> (r: Result<Request, RequestError>)
        ensures
            url@.len() == 0 ==> r == Err::<Request, RequestError>(RequestError::EmptyUrl),
            url@.len() > 0 && !is_absolute_url(url@) ==> r == Err::<Request, RequestError>(
                RequestError::NotAbsolute,
            ),
            url@.len() > 0 && is_absolute_url(url@) ==> (r matches Ok(q) && q.method == method
                && q.url == url && q.headers == headers && q.body == body && q.wf()),
    {
        if url.unicode_len() == 0 {
            return Err(RequestError::EmptyUrl);
        }
        if !url_is_absolute(url.as_str()) {
            return Err(RequestError::NotAbsolute);
        }
        Ok(Request { method, url, headers, body })
    }

    /// The text that goes on the wire for the body: the raw text as it is,
    /// or the object's canonical JSON encoding.
    pub fn wire_body(&self) -> (r: Option<String>)
        ensures
            match self.body {
                Option::None => r is None,
                Option::Some(RequestBody::Text(t)) => r matches Some(s) && s@ == t@,
                Option::Some(RequestBody::Json(m)) => r matches Some(s) && s@ == spec_encode(m@),
            },
    {
        match &self.body {
            None => None,
            Some(RequestBody::Text(t)) => Some(t.clone()),
            Some(RequestBody::Json(m)) => Some(m.encode()),
        }
    }
}

} // verus!
