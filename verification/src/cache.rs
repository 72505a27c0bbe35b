//! The load-or-fetch cache's decisions: what to do once the cache probe
//! is known, and what to do with the remote response. Reading the file
//! and issuing the request are the surroundings' work; the decisions
//! and the payload handling are fixed here.

use vstd::prelude::*;
use crate::error::FatalError;
use crate::text::opt_str_view;

verus! {

/// What a load-or-fetch does once it knows whether the cache file
/// exists: use the cached payload as it stands, or go to the network.
#[derive(Debug)]
pub enum CacheRoute {
    UseCached(String),
    FetchRemote,
}

/// The mathematical value of a `CacheRoute`.
pub ghost enum CacheRouteView {
    UseCached(Seq<char>),
    FetchRemote,
}

impl View for CacheRoute {
    type V = CacheRouteView;

    open spec fn view(&self) -> CacheRouteView {
        match self {
            CacheRoute::UseCached(s) => CacheRouteView::UseCached(s@),
            CacheRoute::FetchRemote => CacheRouteView::FetchRemote,
        }
    }
}

/// The route a probe result determines: a present payload is used as it
/// stands, and only a missing file sends the load to the network.
pub open spec fn route_spec(probe: Option<Seq<char>>) -> CacheRouteView {
    match probe {
        Some(s) => CacheRouteView::UseCached(s),
        None => CacheRouteView::FetchRemote,
    }
}

/// Decide between the cached payload and a remote fetch.
pub fn cache_route(probe: Option<String>) -> (r: CacheRoute)
    ensures
        r@ == route_spec(opt_str_view(probe)),
{
    match probe {
        Some(s) => CacheRoute::UseCached(s),
        None => CacheRoute::FetchRemote,
    }
}

/// Accept the remote response's payload for caching, or abort the run:
/// any non-success status on a cache-populating fetch is fatal.
pub fn accept_fetched(status: u16, body: String) -> (r: Result<String, FatalError>)
    ensures
        200 <= status < 300 ==> (r matches Ok(b) && b@ == body@),
        !(200 <= status < 300) ==> (r matches Err(e) && e == FatalError::HttpFailure),
{
    if 200 <= status && status < 300 {
        Ok(body)
    } else {
        Err(FatalError::HttpFailure)
    }
}

/// A load that finds a cached payload finishes with exactly that
/// payload and never goes to the network; so a second load over the
/// same cache file returns a value equal to the first load's.
pub proof fn lemma_cache_hit_idempotent(s1: Seq<char>, s2: Seq<char>)
    requires
        s1 == s2,
    ensures
        route_spec(Some(s1)) == route_spec(Some(s2)),
        route_spec(Some(s1)) == CacheRouteView::UseCached(s1),
        route_spec(Some(s1)) != CacheRouteView::FetchRemote,
{
}

} // verus!
