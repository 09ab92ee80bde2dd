//! Request descriptors: one side of a comparison (`PartRequestConfig`), a
//! named left/right pair (`RequestsConfig`), and a whole run (`Config`).
//! All of them are plain data; the invariant that at most one authentication
//! scheme is present is carried by the `Auth` enum itself.

use vstd::prelude::*;

verus! {

/// Credentials for HTTP basic authentication.
#[derive(Debug, Clone, PartialEq, Eq)]
pub struct BasicAuth {
    pub username: String,
    pub password: Option<String>,
}

/// Authentication for one request: at most one of basic or bearer.
#[derive(Debug, Clone, PartialEq, Eq)]
pub enum Auth {
    Anonymous,
    Basic(BasicAuth),
    Bearer(String),
}

/// One side (left or right) of a comparison: where to send the request and
/// how to treat its response.
pub struct PartRequestConfig {
    pub url: String,
    /// HTTP method; `None` means GET.
    pub method: Option<String>,
    /// Whether the normalized response may be served from and stored into the cache.
    pub cached: bool,
    pub auth: Auth,
    /// Redaction terms: any normalized body line containing one is dropped.
    pub ignore_lines: Vec<String>,
    pub headers: Vec<(String, String)>,
    pub query: Vec<(String, String)>,
}

impl PartRequestConfig {
    pub fn with_cache(self) -> (r: Self)
        ensures
            r == (PartRequestConfig { cached: true, ..self }),
    {
        Self { cached: true, ..self }
    }

    pub fn without_cache(self) -> (r: Self)
        ensures
            r == (PartRequestConfig { cached: false, ..self }),
    {
        Self { cached: false, ..self }
    }

    pub fn no_ignores(self) -> (r: Self)
        ensures
            r.url == self.url,
            r.method == self.method,
            r.cached == self.cached,
            r.auth == self.auth,
            r.ignore_lines@ =~= Seq::<String>::empty(),
            r.headers == self.headers,
            r.query == self.query,
    {
        Self { ignore_lines: Vec::new(), ..self }
    }
}

/// A named comparison: the same logical endpoint in two environments.
pub struct RequestsConfig {
    pub name: String,
    pub left: PartRequestConfig,
    pub right: PartRequestConfig,
}

impl RequestsConfig {
    /// True when either side wants the cache.
    pub fn requires_cache(&self) -> (r: bool)
        ensures
            r == (self.left.cached || self.right.cached),
    {
        self.left.cached || self.right.cached
    }

    pub fn with_cache(self) -> (r: Self)
        ensures
            r.name == self.name,
            r.left == (PartRequestConfig { cached: true, ..self.left }),
            r.right == (PartRequestConfig { cached: true, ..self.right }),
    {
        Self { left: self.left.with_cache(), right: self.right.with_cache(), name: self.name }
    }

    pub fn without_cache(self) -> (r: Self)
        ensures
            r.name == self.name,
            r.left == (PartRequestConfig { cached: false, ..self.left }),
            r.right == (PartRequestConfig { cached: false, ..self.right }),
    {
        Self { left: self.left.without_cache(), right: self.right.without_cache(), name: self.name }
    }

    pub fn without_ignores(self) -> (r: Self)
        ensures
            r.name == self.name,
            r.left.ignore_lines@ =~= Seq::<String>::empty(),
            r.right.ignore_lines@ =~= Seq::<String>::empty(),
            r.left == (PartRequestConfig { ignore_lines: r.left.ignore_lines, ..self.left }),
            r.right == (PartRequestConfig { ignore_lines: r.right.ignore_lines, ..self.right }),
    {
        Self { left: self.left.no_ignores(), right: self.right.no_ignores(), name: self.name }
    }
}

/// A whole run: shared redaction terms and the list of comparisons.
pub struct Config {
    pub ignore_lines: Vec<String>,
    pub requests: Vec<RequestsConfig>,
}

/// True when any request in the sequence wants the cache.
pub open spec fn spec_requires_cache(rs: Seq<RequestsConfig>) -> bool {
    exists|i: int| 0 <= i < rs.len() && (rs[i].left.cached || rs[i].right.cached)
}

/// Every comparison carries a nonempty name and two nonempty URLs.
pub open spec fn spec_config_valid(rs: Seq<RequestsConfig>) -> bool {
    forall|i: int|
        0 <= i < rs.len() ==> (#[trigger] rs[i]).name@.len() > 0 && rs[i].left.url@.len() > 0
            && rs[i].right.url@.len() > 0
}

impl Config {
    /// True when any comparison in the run wants the cache; deciding this up
    /// front lets the engine skip loading the store entirely.
    pub fn requires_cache(&self) -> (r: bool)
        ensures
            r == spec_requires_cache(self.requests@),
    {
        let mut i: usize = 0;
        while i < self.requests.len()
            invariant
                i <= self.requests.len(),
                forall|j: int|
                    0 <= j < i ==> !(self.requests@[j].left.cached
                        || self.requests@[j].right.cached),
            decreases self.requests.len() - i,
        {
            if self.requests[i].left.cached || self.requests[i].right.cached {
                return true;
            }
            i += 1;
        }
        false
    }

    /// No comparison has an empty name or an empty URL: anything else is a
    /// configuration error that aborts the run before any fetch.
    pub fn is_valid(&self) -> (r: bool)
        ensures
            r == spec_config_valid(self.requests@),
    {
        let mut i: usize = 0;
        while i < self.requests.len()
            invariant
                i <= self.requests@.len(),
                forall|j: int|
                    0 <= j < i ==> (#[trigger] self.requests@[j]).name@.len() > 0
                        && self.requests@[j].left.url@.len() > 0
                        && self.requests@[j].right.url@.len() > 0,
            decreases self.requests@.len() - i,
        {
            if self.requests[i].name.as_str().is_empty() {
                return false;
            }
            if self.requests[i].left.url.as_str().is_empty() {
                return false;
            }
            if self.requests[i].right.url.as_str().is_empty() {
                return false;
            }
            i += 1;
        }
        true
    }

    /// A run built from a bare list of comparisons, with no shared redactions.
    pub fn from_requests(requests: Vec<RequestsConfig>) -> (r: Self)
        ensures
            r.ignore_lines@ =~= Seq::<String>::empty(),
            r.requests == requests,
    {
        Config { ignore_lines: Vec::new(), requests }
    }
}

} // verus!
