//! The engine facade: one `Client` owns the (optional) cache store and the
//! decisions around it. It plans each side (serve from cache or go to the
//! wire), records completed cache-eligible responses, resolves a comparison
//! from its two sides, collects a whole batch, and tears down with a single
//! explicit `close` that yields what to persist.
//!
//! The facade does no I/O itself: the caller performs the planned requests
//! and the file writes, and hands the raw results back.

use vstd::prelude::*;

use crate::cache::{spec_lookup, unique_urls, Cache};
use crate::codec::{encode_cache, encode_cache_text, parse_cache, parse_cache_text};
use crate::fetch::{
    expanded_url, headers_valid, is_http_method, prepare_request, query_views, spec_method_of,
    spec_wire_url, FetchError, PreparedRequest,
};
use crate::request::PartRequestConfig;
use crate::response::{PartResponse, PartResponseView, Response};

verus! {

/// Why the cache store could not be loaded: its contents are not valid
/// serialized cache data. A corrupt store is a configuration error, never
/// silently discarded.
#[derive(Debug, Clone, Copy, PartialEq, Eq, Structural)]
pub enum CacheError {
    Corrupt,
}

/// What the dispatcher should do for one side.
pub enum FetchPlan {
    /// Serve this stored response: no network call, no normalization.
    Cached(PartResponse),
    /// Send this request on the wire.
    Fetch(PreparedRequest),
}

/// Which side of a comparison failed.
#[derive(Debug, Clone, Copy, PartialEq, Eq, Structural)]
pub enum Side {
    Left,
    Right,
}

/// A failed comparison: the name, the side and the URL that failed, so the
/// operator can locate the problem without re-running.
pub struct FetchFailure {
    pub name: String,
    pub side: Side,
    pub url: String,
    pub error: FetchError,
}

/// What loading yields for given storage contents: absent storage is an
/// empty cache (a first run); present contents must parse and hold no
/// duplicate URL.
pub open spec fn spec_loaded(contents: Option<Seq<char>>) -> Option<Seq<PartResponseView>> {
    match contents {
        None => Some(Seq::<PartResponseView>::empty()),
        Some(t) => match parse_cache_text(t) {
            Some(es) => if unique_urls(es) {
                Some(es)
            } else {
                None
            },
            None => None,
        },
    }
}

/// The view of optional storage contents.
pub open spec fn contents_view(contents: Option<&str>) -> Option<Seq<char>> {
    match contents {
        Some(t) => Some(t@),
        None => None,
    }
}

/// What recording one side does to the stored responses: nothing unless the
/// side is cache-eligible.
pub open spec fn spec_record(
    s: Seq<PartResponseView>,
    cached: bool,
    e: PartResponseView,
) -> Seq<PartResponseView> {
    if cached {
        crate::cache::spec_insert(s, e)
    } else {
        s
    }
}

/// The engine: an optional cache store behind a single owner, and a
/// single-shot teardown.
pub struct Client {
    cache: Option<Cache>,
    cache_location: Option<String>,
    closed: bool,
}

impl Client {
    /// A cache store is attached.
    pub closed spec fn caching(&self) -> bool {
        self.cache is Some
    }

    /// The stored responses.
    pub closed spec fn cache_view(&self) -> Seq<PartResponseView>
        recommends
            self.caching(),
    {
        self.cache->0@
    }

    /// Where the cache persists.
    pub closed spec fn location(&self) -> Seq<char>
        recommends
            self.caching(),
    {
        self.cache_location->0@
    }

    /// `close` has been called.
    pub closed spec fn is_closed(&self) -> bool {
        self.closed
    }

    /// The engine's invariant: a location exactly when a cache is attached,
    /// and no two cached entries for one URL.
    pub closed spec fn wf(&self) -> bool {
        (self.cache is Some <==> self.cache_location is Some) && (self.cache is Some
            ==> self.cache->0.wf())
    }

    /// A fresh engine with no cache attached.
    pub fn new() -> (r: Self)
        ensures
            r.wf(),
            !r.caching(),
            !r.is_closed(),
    {
        Client { cache: None, cache_location: None, closed: false }
    }

    /// Attach the cache store from its persisted contents. Absent storage is
    /// an empty but valid cache; contents that do not parse, or that repeat a
    /// URL, are corrupt and refused, leaving the engine unchanged.
    pub fn load_cache(&mut self, cache_location: String, contents: Option<&str>) -> (r: Result<
        (),
        CacheError,
    >)
        requires
            old(self).wf(),
        ensures
            final(self).wf(),
            final(self).is_closed() == old(self).is_closed(),
            r is Ok <==> spec_loaded(contents_view(contents)) is Some,
            r is Ok ==> final(self).caching() && final(self).cache_view() == spec_loaded(
                contents_view(contents),
            )->0 && final(self).location() == cache_location@,
            r is Err ==> *final(self) == *old(self) && r == Err::<(), CacheError>(
                CacheError::Corrupt,
            ),
    {
        match contents {
            None => {
                let c = Cache::new();
                self.cache = Some(c);
                self.cache_location = Some(cache_location);
                Ok(())
            },
            Some(text) => match parse_cache(text) {
                None => Err(CacheError::Corrupt),
                Some(entries) => match Cache::from_entries(entries) {
                    None => Err(CacheError::Corrupt),
                    Some(c) => {
                        self.cache = Some(c);
                        self.cache_location = Some(cache_location);
                        Ok(())
                    },
                },
            },
        }
    }

    /// Decide one side. A cache-eligible request whose wire URL has a stored
    /// response is served from the cache — no network call, no
    /// re-normalization. Anything else is validated and prepared for the
    /// wire, failing fast on an unknown method or invalid header.
    pub fn plan(&self, part: &PartRequestConfig) -> (r: Result<FetchPlan, FetchError>)
        requires
            self.wf(),
        ensures
            ({
                let wurl = spec_wire_url(part.url@, query_views(part.query@));
                let hit = self.caching() && part.cached && spec_lookup(self.cache_view(), wurl)
                    is Some;
                &&& hit ==> r is Ok && r->Ok_0 is Cached && (r->Ok_0)->Cached_0@ == spec_lookup(
                    self.cache_view(),
                    wurl,
                )->0
                &&& !hit ==> {
                    &&& r is Ok <==> is_http_method(spec_method_of(part.method)) && headers_valid(
                        part.headers@,
                    )
                    &&& !is_http_method(spec_method_of(part.method)) ==> r == Err::<
                        FetchPlan,
                        FetchError,
                    >(FetchError::InvalidMethod)
                    &&& is_http_method(spec_method_of(part.method)) && !headers_valid(
                        part.headers@,
                    ) ==> r == Err::<FetchPlan, FetchError>(FetchError::InvalidHeader)
                    &&& r is Ok ==> r->Ok_0 is Fetch && {
                        let p = (r->Ok_0)->Fetch_0;
                        &&& p.method@ == spec_method_of(part.method)
                        &&& p.url@ == wurl
                        &&& p.auth == part.auth
                        &&& p.headers@ == part.headers@
                    }
                }
            }),
    {
        if part.cached {
            let url = expanded_url(part.url.as_str(), &part.query);
            match &self.cache {
                Some(c) => match c.lookup(url.as_str()) {
                    Some(rsp) => {
                        return Ok(FetchPlan::Cached(rsp));
                    },
                    None => {},
                },
                None => {},
            }
        }
        match prepare_request(part) {
            Ok(p) => Ok(FetchPlan::Fetch(p)),
            Err(e) => Err(e),
        }
    }

    /// Store one side, if it is cache-eligible and a cache is attached: under
    /// its wire URL, replacing any earlier entry for that URL. Otherwise
    /// nothing changes.
    fn record(&mut self, part: &PartRequestConfig, resp: PartResponse)
        requires
            old(self).wf(),
        ensures
            final(self).wf(),
            final(self).is_closed() == old(self).is_closed(),
            final(self).caching() == old(self).caching(),
            old(self).caching() ==> final(self).location() == old(self).location(),
            !(part.cached && old(self).caching()) ==> *final(self) == *old(self),
            old(self).caching() ==> final(self).cache_view() == spec_record(
                old(self).cache_view(),
                part.cached,
                resp@,
            ),
            part.cached && old(self).caching() ==> spec_lookup(
                final(self).cache_view(),
                resp.url@,
            ) == Some(resp@),
    {
        if part.cached {
            match &mut self.cache {
                Some(c) => {
                    c.insert(resp);
                },
                None => {},
            }
        }
    }

    /// Record a confirmed successful comparison: each cache-eligible side is
    /// stored under its wire URL. This is the only write path into the cache,
    /// and the caller invokes it only after both sides succeeded — a failed
    /// comparison contributes no cache writes for the run.
    pub fn record_comparison(&mut self, request: &crate::request::RequestsConfig, resp: &Response)
        requires
            old(self).wf(),
        ensures
            final(self).wf(),
            final(self).is_closed() == old(self).is_closed(),
            final(self).caching() == old(self).caching(),
            old(self).caching() ==> final(self).location() == old(self).location(),
            !old(self).caching() ==> *final(self) == *old(self),
            old(self).caching() ==> final(self).cache_view() == spec_record(
                spec_record(old(self).cache_view(), request.left.cached, resp.left@),
                request.right.cached,
                resp.right@,
            ),
    {
        self.record(&request.left, resp.left.duplicate());
        self.record(&request.right, resp.right.duplicate());
    }

    /// Tear the engine down, exactly once, after every dispatched fetch has
    /// completed: the cache is quiescent and this single owner persists it
    /// one time. Returns the storage location and the serialized cache, or
    /// nothing when no cache was attached.
    pub fn close(&mut self) -> (r: Option<(String, String)>)
        requires
            old(self).wf(),
            !old(self).is_closed(),
        ensures
            final(self).wf(),
            final(self).is_closed(),
            r is Some <==> old(self).caching(),
            r is Some ==> (r->0).0@ == old(self).location() && (r->0).1@ == encode_cache_text(
                old(self).cache_view(),
            ),
    {
        self.closed = true;
        match (&self.cache, &self.cache_location) {
            (Some(c), Some(l)) => Some((l.clone(), encode_cache(c.entries()))),
            _ => None,
        }
    }
}

/// Law: the cache round-trips through the engine. What `close` hands out for
/// a well-formed cache is exactly what `load_cache` accepts, and loading it
/// reproduces every stored response.
pub proof fn lemma_persist_load_round_trip(es: Seq<PartResponseView>)
    requires
        unique_urls(es),
    ensures
        spec_loaded(Some(encode_cache_text(es))) == Some(es),
{
    crate::codec::lemma_cache_round_trip(es);
}

/// Resolve one comparison from its two sides. Either side failing fails the
/// whole comparison — the name, the failing side and its URL are attached,
/// and the other side's success, if any, is discarded: no partial result
/// ever surfaces.
pub fn pair_outcome(
    name: String,
    left_url: String,
    left: Result<PartResponse, FetchError>,
    right_url: String,
    right: Result<PartResponse, FetchError>,
) -> (r: Result<Response, FetchFailure>)
    ensures
        r is Ok <==> left is Ok && right is Ok,
        left is Err ==> r is Err && (r->Err_0).name == name && (r->Err_0).side == Side::Left && (
        r->Err_0).url == left_url && (r->Err_0).error == left->Err_0,
        left is Ok && right is Err ==> r is Err && (r->Err_0).name == name && (r->Err_0).side
            == Side::Right && (r->Err_0).url == right_url && (r->Err_0).error == right->Err_0,
        left is Ok && right is Ok ==> r is Ok && (r->Ok_0).name == name && (r->Ok_0).left
            == left->Ok_0 && (r->Ok_0).right == right->Ok_0,
{
    match left {
        Err(e) => Err(FetchFailure { name, side: Side::Left, url: left_url, error: e }),
        Ok(l) => match right {
            Err(e) => Err(FetchFailure { name, side: Side::Right, url: right_url, error: e }),
            Ok(rg) => Ok(Response { name, left: l, right: rg }),
        },
    }
}

/// The successful comparisons, in arrival order.
pub open spec fn successes(s: Seq<Result<Response, FetchFailure>>) -> Seq<Response>
    decreases s.len(),
{
    if s.len() == 0 {
        Seq::empty()
    } else {
        let rest = successes(s.drop_first());
        if s[0] is Ok {
            seq![s[0]->Ok_0] + rest
        } else {
            rest
        }
    }
}

/// The failed comparisons, in arrival order.
pub open spec fn failures(s: Seq<Result<Response, FetchFailure>>) -> Seq<FetchFailure>
    decreases s.len(),
{
    if s.len() == 0 {
        Seq::empty()
    } else {
        let rest = failures(s.drop_first());
        if s[0] is Err {
            seq![s[0]->Err_0] + rest
        } else {
            rest
        }
    }
}

/// Split a batch of comparison outcomes into the successes and the reported
/// failures, each in arrival order. Every outcome lands in exactly one list:
/// one comparison's failure never discards another's result and never aborts
/// the batch.
pub fn collect_results(outcomes: Vec<Result<Response, FetchFailure>>) -> (r: (
    Vec<Response>,
    Vec<FetchFailure>,
))
    ensures
        r.0@ == successes(outcomes@),
        r.1@ == failures(outcomes@),
{
    let ghost full = outcomes@;
    let mut rest = outcomes;
    let mut oks: Vec<Response> = Vec::new();
    let mut errs: Vec<FetchFailure> = Vec::new();
    while rest.len() > 0
        invariant
            oks@ + successes(rest@) =~= successes(full),
            errs@ + failures(rest@) =~= failures(full),
        decreases rest@.len(),
    {
        let ghost r0 = rest@;
        let x = rest.remove(0);
        proof {
            assert(rest@ =~= r0.drop_first());
        }
        match x {
            Ok(v) => {
                let ghost o0 = oks@;
                oks.push(v);
                proof {
                    assert(oks@ + successes(rest@) =~= o0 + successes(r0));
                    assert(errs@ + failures(rest@) =~= errs@ + failures(r0));
                }
            },
            Err(e) => {
                let ghost e0 = errs@;
                errs.push(e);
                proof {
                    assert(errs@ + failures(rest@) =~= e0 + failures(r0));
                    assert(oks@ + successes(rest@) =~= oks@ + successes(r0));
                }
            },
        }
    }
    proof {
        assert(successes(rest@) =~= Seq::<Response>::empty());
        assert(failures(rest@) =~= Seq::<FetchFailure>::empty());
        assert(oks@ =~= successes(full));
        assert(errs@ =~= failures(full));
    }
    (oks, errs)
}

/// The comparisons whose two sides differ, in order: what a narrowed config
/// should keep.
pub open spec fn differing(s: Seq<(crate::request::RequestsConfig, Response)>) -> Seq<
    crate::request::RequestsConfig,
>
    decreases s.len(),
{
    if s.len() == 0 {
        Seq::empty()
    } else {
        let rest = differing(s.drop_first());
        if s[0].1.left.text@ != s[0].1.right.text@ {
            seq![s[0].0] + rest
        } else {
            rest
        }
    }
}

/// Keep the request of every comparison whose sides differ: the narrowed
/// configuration written back for re-running only what disagreed.
pub fn requests_with_differences(pairs: Vec<(crate::request::RequestsConfig, Response)>) -> (r: Vec<
    crate::request::RequestsConfig,
>)
    ensures
        r@ == differing(pairs@),
{
    let ghost full = pairs@;
    let mut rest = pairs;
    let mut out: Vec<crate::request::RequestsConfig> = Vec::new();
    while rest.len() > 0
        invariant
            out@ + differing(rest@) =~= differing(full),
        decreases rest@.len(),
    {
        let ghost r0 = rest@;
        let x = rest.remove(0);
        proof {
            assert(rest@ =~= r0.drop_first());
        }
        let (req, resp) = x;
        if !resp.texts_match() {
            let ghost o0 = out@;
            out.push(req);
            proof {
                assert(out@ + differing(rest@) =~= o0 + differing(r0));
            }
        } else {
            proof {
                assert(out@ + differing(rest@) =~= out@ + differing(r0));
            }
        }
    }
    proof {
        assert(differing(rest@) =~= Seq::<crate::request::RequestsConfig>::empty());
        assert(out@ =~= differing(full));
    }
    out
}

} // verus!
