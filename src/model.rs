//! The immutable demand model: videos, endpoints with their cache links,
//! cache capacity, and deduplicated request volumes.

use vstd::prelude::*;
use crate::demand::{aggregate_requests, aggregated_from, volumes_fit};

verus! {

/// A link from an endpoint to a cache, with its latency.
#[derive(Clone, Copy, Debug, PartialEq, Eq, Structural)]
pub struct Connection {
    pub cache: usize,
    pub latency: u32,
}

/// A client access point: its datacenter latency and its cache links, in
/// ascending order of latency.
#[derive(Debug)]
pub struct Endpoint {
    pub latency: u32,
    pub connections: Vec<Connection>,
}

/// The aggregated request volume for one (video, endpoint) pair.
#[derive(Clone, Copy, Debug, PartialEq, Eq, Structural)]
pub struct Request {
    pub video: usize,
    pub endpoint: usize,
    pub amount: u32,
}

/// Everything the optimizer reads; built once and never changed.
#[derive(Debug)]
pub struct DemandModel {
    /// Size of each video, indexed by video id.
    pub sizes: Vec<u32>,
    /// Capacity shared by every cache.
    pub capacity: u32,
    /// Number of caches; cache ids are `0..cache_count`.
    pub cache_count: usize,
    pub endpoints: Vec<Endpoint>,
    /// At most one entry per (video, endpoint) pair.
    pub requests: Vec<Request>,
}

/// Why a demand model could not be built.
#[derive(Clone, Copy, Debug, PartialEq, Eq, Structural)]
pub enum LoadError {
    /// The text is not a problem description: a stray byte, a number too
    /// large, a missing or surplus number.
    Malformed,
    /// A video has size zero.
    EmptyVideo,
    /// An endpoint links to an unknown cache, has a link slower than its
    /// datacenter, or lists its links out of latency order.
    InvalidEndpoint,
    /// A request names an unknown video or endpoint.
    UnknownId,
    /// The total volume of some (video, endpoint) pair exceeds `u32`.
    AmountOverflow,
}

/// Relies on `slice::sort_by_key` of std: afterwards the vector holds the same
/// links, in ascending order of latency.
#[verifier::external_body]
fn sort_by_latency(v: &mut Vec<Connection>)
    ensures
        final(v)@.to_multiset() == old(v)@.to_multiset(),
        forall|j: int, k: int|
            0 <= j < k < final(v)@.len() ==> (#[trigger] final(v)@[j]).latency <= (
            #[trigger] final(v)@[k]).latency,
{
    v.sort_by_key(|c| c.latency)
}

/// Every video has a positive size.
pub open spec fn sizes_ok(sizes: Seq<u32>) -> bool {
    forall|v: int| 0 <= v < sizes.len() ==> #[trigger] sizes[v] > 0
}

/// Every endpoint is well formed for `cache_count` caches.
pub open spec fn endpoints_ok(eps: Seq<Endpoint>, cache_count: nat) -> bool {
    forall|e: int| 0 <= e < eps.len() ==> (#[trigger] eps[e]).wf(cache_count)
}

/// Every request names a video below `videos` and an endpoint below
/// `endpoints`.
pub open spec fn ids_ok(raw: Seq<Request>, videos: nat, endpoints: nat) -> bool {
    forall|i: int|
        0 <= i < raw.len() ==> (#[trigger] raw[i]).video < videos && raw[i].endpoint < endpoints
}

impl Endpoint {
    /// An endpoint with the given links, sorted by latency.
    pub fn new(latency: u32, connections: Vec<Connection>) -> (r: Endpoint)
        ensures
            r.latency == latency,
            r.connections@.to_multiset() == connections@.to_multiset(),
            forall|j: int, k: int|
                0 <= j < k < r.connections@.len() ==> (#[trigger] r.connections@[j]).latency
                    <= (#[trigger] r.connections@[k]).latency,
    {
        let mut connections = connections;
        sort_by_latency(&mut connections);
        Endpoint { latency, connections }
    }

    /// Whether the endpoint is well formed for `cache_count` caches.
    pub fn is_valid(&self, cache_count: usize) -> (r: bool)
        ensures
            r == self.wf(cache_count as nat),
    {
        let mut k: usize = 0;
        while k < self.connections.len()
            invariant
                k <= self.connections@.len(),
                forall|i: int|
                    0 <= i < k ==> {
                        &&& (#[trigger] self.connections@[i]).cache < cache_count
                        &&& self.connections@[i].latency <= self.latency
                    },
                forall|i: int, j: int|
                    0 <= i < j < k ==> (#[trigger] self.connections@[i]).latency
                        <= (#[trigger] self.connections@[j]).latency,
            decreases self.connections.len() - k,
        {
            let c = self.connections[k];
            if c.cache >= cache_count || c.latency > self.latency {
                return false;
            }
            if k > 0 && self.connections[k - 1].latency > c.latency {
                proof {
                    assert(!self.wf(cache_count as nat)) by {
                        assert(self.connections@[k - 1].latency > self.connections@[k as int].latency);
                    }
                }
                return false;
            }
            proof {
                assert forall|i: int, j: int|
                    0 <= i < j < k + 1 implies (#[trigger] self.connections@[i]).latency
                    <= (#[trigger] self.connections@[j]).latency by {
                    if j == k && i < k - 1 {
                        assert(self.connections@[i].latency <= self.connections@[k - 1].latency);
                    }
                }
            }
            k += 1;
        }
        true
    }

    /// Every link names an existing cache, is no slower than the datacenter,
    /// and the links are sorted by latency.
    pub open spec fn wf(&self, cache_count: nat) -> bool {
        &&& forall|k: int|
            0 <= k < self.connections@.len() ==> {
                &&& (#[trigger] self.connections@[k]).cache < cache_count
                &&& self.connections@[k].latency <= self.latency
            }
        &&& forall|j: int, k: int|
            0 <= j < k < self.connections@.len() ==> (#[trigger] self.connections@[j]).latency
                <= (#[trigger] self.connections@[k]).latency
    }
}

impl DemandModel {
    /// Builds the model from videos' sizes, the caches, the endpoints and the
    /// raw request lines, merging lines of the same (video, endpoint) pair.
    pub fn new(
        sizes: Vec<u32>,
        capacity: u32,
        cache_count: usize,
        endpoints: Vec<Endpoint>,
        raw: Vec<Request>,
    ) -> (r: Result<DemandModel, LoadError>)
        ensures
            r == Err::<DemandModel, LoadError>(LoadError::EmptyVideo) <==> !sizes_ok(sizes@),
            r == Err::<DemandModel, LoadError>(LoadError::InvalidEndpoint) <==> sizes_ok(sizes@)
                && !endpoints_ok(endpoints@, cache_count as nat),
            r == Err::<DemandModel, LoadError>(LoadError::UnknownId) <==> sizes_ok(sizes@)
                && endpoints_ok(endpoints@, cache_count as nat) && !ids_ok(
                raw@,
                sizes@.len(),
                endpoints@.len(),
            ),
            r == Err::<DemandModel, LoadError>(LoadError::AmountOverflow) <==> sizes_ok(sizes@)
                && endpoints_ok(endpoints@, cache_count as nat) && ids_ok(
                raw@,
                sizes@.len(),
                endpoints@.len(),
            ) && !volumes_fit(raw@),
            r is Ok <==> sizes_ok(sizes@) && endpoints_ok(endpoints@, cache_count as nat) && ids_ok(
                raw@,
                sizes@.len(),
                endpoints@.len(),
            ) && volumes_fit(raw@),
            r matches Ok(m) ==> {
                &&& m.wf()
                &&& m.sizes@ == sizes@
                &&& m.capacity == capacity
                &&& m.cache_count == cache_count
                &&& m.endpoints@ == endpoints@
                &&& aggregated_from(m.requests@, raw@)
            },
    {
        let mut v: usize = 0;
        while v < sizes.len()
            invariant
                v <= sizes@.len(),
                forall|i: int| 0 <= i < v ==> #[trigger] sizes@[i] > 0,
            decreases sizes.len() - v,
        {
            if sizes[v] == 0 {
                return Err(LoadError::EmptyVideo);
            }
            v += 1;
        }
        let mut e: usize = 0;
        while e < endpoints.len()
            invariant
                sizes_ok(sizes@),
                e <= endpoints@.len(),
                forall|i: int| 0 <= i < e ==> (#[trigger] endpoints@[i]).wf(cache_count as nat),
            decreases endpoints.len() - e,
        {
            if !endpoints[e].is_valid(cache_count) {
                return Err(LoadError::InvalidEndpoint);
            }
            e += 1;
        }
        let mut i: usize = 0;
        while i < raw.len()
            invariant
                sizes_ok(sizes@),
                endpoints_ok(endpoints@, cache_count as nat),
                i <= raw@.len(),
                forall|k: int|
                    0 <= k < i ==> (#[trigger] raw@[k]).video < sizes@.len() && raw@[k].endpoint
                        < endpoints@.len(),
            decreases raw.len() - i,
        {
            if raw[i].video >= sizes.len() || raw[i].endpoint >= endpoints.len() {
                return Err(LoadError::UnknownId);
            }
            i += 1;
        }
        match aggregate_requests(&raw, sizes.len()) {
            None => Err(LoadError::AmountOverflow),
            Some(requests) => {
                let m = DemandModel { sizes, capacity, cache_count, endpoints, requests };
                proof {
                    assert forall|j: int| 0 <= j < m.requests@.len() implies m.request_ok(
                        #[trigger] m.requests@[j],
                    ) by {
                        let x = m.requests@[j];
                        let k = choose|k: int|
                            0 <= k < raw@.len() && (#[trigger] raw@[k]).video == x.video
                                && raw@[k].endpoint == x.endpoint;
                    }
                }
                Ok(m)
            },
        }
    }

    pub open spec fn video_count(&self) -> nat {
        self.sizes@.len()
    }

    pub open spec fn endpoint_count(&self) -> nat {
        self.endpoints@.len()
    }

    pub open spec fn size_of(&self, v: int) -> int {
        self.sizes@[v] as int
    }

    /// The request names an existing video and endpoint.
    pub open spec fn request_ok(&self, r: Request) -> bool {
        r.video < self.video_count() && r.endpoint < self.endpoint_count()
    }

    pub open spec fn wf(&self) -> bool {
        &&& forall|v: int| 0 <= v < self.sizes@.len() ==> #[trigger] self.sizes@[v] > 0
        &&& forall|e: int|
            0 <= e < self.endpoints@.len() ==> (#[trigger] self.endpoints@[e]).wf(
                self.cache_count as nat,
            )
        &&& forall|i: int|
            0 <= i < self.requests@.len() ==> self.request_ok(#[trigger] self.requests@[i])
        &&& forall|i: int, j: int|
            0 <= i < j < self.requests@.len() ==> !((#[trigger] self.requests@[i]).video
                == (#[trigger] self.requests@[j]).video && self.requests@[i].endpoint
                == self.requests@[j].endpoint)
    }
}

} // verus!
