//! Reading the numbers of a problem description: unsigned decimal integers
//! separated by whitespace.

use vstd::prelude::*;
use crate::output::is_digit;
use crate::model::{
    Connection,
    DemandModel,
    Endpoint,
    LoadError,
    Request,
    endpoints_ok,
    ids_ok,
    sizes_ok,
};
use crate::demand::{aggregated_from, volumes_fit};

verus! {

/// Space, tab, carriage return or line feed.
pub open spec fn is_space(b: u8) -> bool {
    b == 32 || b == 10 || b == 13 || b == 9
}

/// The numbers of `t` from `pos` on, where `acc` is the value of the digits
/// just before `pos` (if `pos` is inside a number). `None` when some byte is
/// neither a digit nor whitespace.
pub open spec fn numbers_from(t: Seq<u8>, pos: int, acc: Option<nat>) -> Option<Seq<nat>>
    decreases t.len() - pos,
{
    if pos < 0 || pos >= t.len() {
        match acc {
            Some(v) => Some(seq![v]),
            None => Some(Seq::empty()),
        }
    } else if is_digit(t[pos]) {
        let a = match acc {
            Some(v) => v,
            None => 0,
        };
        numbers_from(t, pos + 1, Some(a * 10 + (t[pos] - 48) as nat))
    } else if is_space(t[pos]) {
        match acc {
            Some(v) => match numbers_from(t, pos + 1, None) {
                Some(rest) => Some(seq![v] + rest),
                None => None,
            },
            None => numbers_from(t, pos + 1, None),
        }
    } else {
        None
    }
}

/// The numbers of the whole text.
pub open spec fn numbers_of(t: Seq<u8>) -> Option<Seq<nat>> {
    numbers_from(t, 0, None)
}

/// `p` followed by the numbers in `o`, if any.
pub open spec fn prepend(p: Seq<nat>, o: Option<Seq<nat>>) -> Option<Seq<nat>> {
    match o {
        Some(r) => Some(p + r),
        None => None,
    }
}

/// A number being read ends no smaller than its digits so far.
proof fn lemma_first_at_least(t: Seq<u8>, pos: int, a: nat)
    requires
        pos >= 0,
    ensures
        numbers_from(t, pos, Some(a)) matches Some(r) ==> r.len() > 0 && r[0] >= a,
    decreases t.len() - pos,
{
    if pos < t.len() {
        if is_digit(t[pos]) {
            lemma_first_at_least(t, pos + 1, a * 10 + (t[pos] - 48) as nat);
        }
    }
}

/// The numbers of `text`, or `None` when a byte is neither a digit nor
/// whitespace or a number does not fit in `usize`.
pub fn read_numbers(text: &Vec<u8>) -> (r: Option<Vec<usize>>)
    ensures
        r matches Some(v) ==> numbers_of(text@) == Some(v@.map_values(|x: usize| x as nat)),
        r is None ==> match numbers_of(text@) {
            None => true,
            Some(all) => exists|i: int| 0 <= i < all.len() && #[trigger] all[i] > usize::MAX,
        },
{
    let mut out: Vec<usize> = Vec::new();
    let mut acc: Option<usize> = None;
    let mut pos: usize = 0;
    while pos < text.len()
        invariant
            pos <= text@.len(),
            numbers_of(text@) == prepend(
                out@.map_values(|x: usize| x as nat),
                numbers_from(
                    text@,
                    pos as int,
                    match acc {
                        Some(v) => Some(v as nat),
                        None => None::<nat>,
                    },
                ),
            ),
        decreases text.len() - pos,
    {
        let b = text[pos];
        if 48 <= b && b <= 57 {
            let d = (b - 48) as usize;
            let a: usize = match acc {
                Some(v) => v,
                None => 0,
            };
            if a > (usize::MAX - d) / 10 {
                proof {
                    let big = a * 10 + d;
                    assert(big > usize::MAX) by (nonlinear_arith)
                        requires
                            big == a * 10 + d,
                            a > (usize::MAX - d) / 10,
                            d <= 9,
                    ;
                    lemma_first_at_least(text@, pos + 1, big as nat);
                    let p = out@.map_values(|x: usize| x as nat);
                    if numbers_of(text@) is Some {
                        let all = numbers_of(text@)->0;
                        let rest = numbers_from(text@, pos + 1, Some(big as nat))->0;
                        assert(all == p + rest);
                        assert(all[p.len() as int] == rest[0]);
                    }
                }
                return None;
            }
            proof {
                assert(a * 10 + d <= usize::MAX) by (nonlinear_arith)
                    requires
                        a <= (usize::MAX - d) / 10,
                        d <= 9,
                ;
            }
            acc = Some(a * 10 + d);
        } else if b == 32 || b == 10 || b == 13 || b == 9 {
            match acc {
                Some(v) => {
                    let ghost before = out@.map_values(|x: usize| x as nat);
                    out.push(v);
                    proof {
                        assert(out@.map_values(|x: usize| x as nat) =~= before.push(v as nat));
                        match numbers_from(text@, pos + 1, None) {
                            Some(rest) => {
                                assert(before + (seq![v as nat] + rest) =~= before.push(v as nat)
                                    + rest);
                            },
                            None => {},
                        }
                    }
                    acc = None;
                },
                None => {},
            }
        } else {
            return None;
        }
        pos += 1;
    }
    match acc {
        Some(v) => {
            let ghost before = out@.map_values(|x: usize| x as nat);
            out.push(v);
            proof {
                assert(out@.map_values(|x: usize| x as nat) =~= before + seq![v as nat]);
            }
        },
        None => {
            proof {
                assert(out@.map_values(|x: usize| x as nat) + Seq::<nat>::empty() =~= out@.map_values(
                    |x: usize| x as nat,
                ));
            }
        },
    }
    Some(out)
}

/// The problem read off its numbers, links in the order given.
#[derive(Debug)]
pub struct Description {
    pub sizes: Vec<u32>,
    pub capacity: u32,
    pub cache_count: usize,
    pub endpoints: Vec<Endpoint>,
    pub requests: Vec<Request>,
}

/// The `i`-th link of a list whose pairs start at `q`.
pub open spec fn link_at(nums: Seq<usize>, q: int, i: int) -> Connection {
    Connection { cache: nums[q + 2 * i], latency: nums[q + 2 * i + 1] as u32 }
}

/// `k` links start at `q`, and every latency fits in `u32`.
pub open spec fn links_fit(nums: Seq<usize>, q: int, k: int) -> bool {
    &&& q + 2 * k <= nums.len()
    &&& forall|i: int| 0 <= i < k ==> #[trigger] nums[q + 2 * i + 1] <= u32::MAX
}

/// Where the first `n` endpoint records that start at `p` end, if they are
/// complete and their latencies fit in `u32`.
pub open spec fn endpoints_end(nums: Seq<usize>, p: int, n: nat) -> Option<int>
    decreases n,
{
    if n == 0 {
        Some(p)
    } else {
        match endpoints_end(nums, p, (n - 1) as nat) {
            None => None,
            Some(q) => if q + 2 <= nums.len() && nums[q] <= u32::MAX && links_fit(
                nums,
                q + 2,
                nums[q + 1] as int,
            ) {
                Some(q + 2 + 2 * nums[q + 1])
            } else {
                None
            },
        }
    }
}

/// Where the endpoint records start.
pub open spec fn endpoints_start(nums: Seq<usize>) -> int {
    5 + nums[0]
}

/// Where the request records start.
pub open spec fn requests_start(nums: Seq<usize>) -> int {
    endpoints_end(nums, endpoints_start(nums), nums[1] as nat)->0
}

/// The numbers lay out a problem: a header of five, the sizes, the
/// endpoint records, and exactly as many request triples as announced, with
/// sizes, capacity, latencies and amounts within `u32`.
pub open spec fn well_laid(nums: Seq<usize>) -> bool {
    &&& nums.len() >= 5
    &&& nums[4] <= u32::MAX
    &&& 5 + nums[0] <= nums.len()
    &&& forall|v: int| 0 <= v < nums[0] ==> #[trigger] nums[5 + v] <= u32::MAX
    &&& endpoints_end(nums, endpoints_start(nums), nums[1] as nat) is Some
    &&& requests_start(nums) + 3 * nums[2] == nums.len()
    &&& forall|i: int|
        0 <= i < nums[2] ==> #[trigger] nums[requests_start(nums) + 3 * i + 2] <= u32::MAX
}

/// Reads the problem off its numbers: `None` exactly when they do not lay
/// one out. Each endpoint's links are sorted by latency.
pub fn describe(nums: &Vec<usize>) -> (r: Option<Description>)
    ensures
        r is Some <==> well_laid(nums@),
        r matches Some(d) ==> {
            let n = nums@;
            &&& d.cache_count == n[3]
            &&& d.capacity == n[4]
            &&& d.sizes@.len() == n[0]
            &&& forall|v: int| 0 <= v < n[0] ==> #[trigger] d.sizes@[v] == n[5 + v]
            &&& d.endpoints@.len() == n[1]
            &&& forall|e: int|
                0 <= e < n[1] ==> {
                    let q = endpoints_end(n, endpoints_start(n), e as nat)->0;
                    let k = n[q + 1] as int;
                    &&& (#[trigger] d.endpoints@[e]).latency == n[q]
                    &&& d.endpoints@[e].connections@.to_multiset() == Seq::new(
                        k as nat,
                        |i: int| link_at(n, q + 2, i),
                    ).to_multiset()
                    &&& forall|i: int, j: int|
                        0 <= i < j < d.endpoints@[e].connections@.len() ==> (
                        #[trigger] d.endpoints@[e].connections@[i]).latency <= (
                        #[trigger] d.endpoints@[e].connections@[j]).latency
                }
            &&& d.requests@.len() == n[2]
            &&& forall|i: int|
                0 <= i < n[2] ==> {
                    let b = requests_start(n) + 3 * i;
                    &&& (#[trigger] d.requests@[i]).video == n[b]
                    &&& d.requests@[i].endpoint == n[b + 1]
                    &&& d.requests@[i].amount == n[b + 2]
                }
        },
{
    let len = nums.len();
    if len < 5 || nums[4] > u32::MAX as usize || nums[0] > len - 5 {
        return None;
    }
    let ghost n = nums@;
    let n_videos = nums[0];
    let mut sizes: Vec<u32> = Vec::new();
    let mut v: usize = 0;
    while v < n_videos
        invariant
            n == nums@,
            len == n.len(),
            n.len() >= 5,
            n[4] <= u32::MAX,
            5 + n[0] <= n.len(),
            n_videos == n[0],
            5 + n_videos <= n.len(),
            v <= n_videos,
            sizes@.len() == v,
            forall|w: int| 0 <= w < v ==> #[trigger] sizes@[w] == n[5 + w] && n[5 + w] <= u32::MAX,
        decreases n_videos - v,
    {
        let x = nums[5 + v];
        if x > u32::MAX as usize {
            proof {
                assert(!well_laid(n));
            }
            return None;
        }
        sizes.push(x as u32);
        v += 1;
    }
    proof {
        assert forall|w: int| 0 <= w < n[0] implies #[trigger] n[5 + w] <= u32::MAX by {
            assert(sizes@[w] == n[5 + w]);
        }
    }
    let n_endpoints = nums[1];
    let mut endpoints: Vec<Endpoint> = Vec::new();
    let mut q: usize = 5 + n_videos;
    let mut e: usize = 0;
    while e < n_endpoints
        invariant
            n == nums@,
            len == n.len(),
            n.len() >= 5,
            n[4] <= u32::MAX,
            5 + n[0] <= n.len(),
            forall|w: int| 0 <= w < n[0] ==> #[trigger] n[5 + w] <= u32::MAX,
            n_endpoints == n[1],
            e <= n_endpoints,
            q <= len,
            endpoints_end(n, endpoints_start(n), e as nat) == Some(q as int),
            endpoints@.len() == e,
            forall|f: int|
                0 <= f < e ==> {
                    let q = endpoints_end(n, endpoints_start(n), f as nat)->0;
                    let k = n[q + 1] as int;
                    &&& (#[trigger] endpoints@[f]).latency == n[q]
                    &&& endpoints@[f].connections@.to_multiset() == Seq::new(
                        k as nat,
                        |i: int| link_at(n, q + 2, i),
                    ).to_multiset()
                    &&& forall|i: int, j: int|
                        0 <= i < j < endpoints@[f].connections@.len() ==> (
                        #[trigger] endpoints@[f].connections@[i]).latency <= (
                        #[trigger] endpoints@[f].connections@[j]).latency
                },
        decreases n_endpoints - e,
    {
        if len - q < 2 || nums[q] > u32::MAX as usize || nums[q + 1] > (len - q - 2) / 2 {
            proof {
                lemma_endpoints_end_none(n, endpoints_start(n), e as nat, n[1] as nat);
            }
            return None;
        }
        let latency = nums[q] as u32;
        let k = nums[q + 1];
        let mut links: Vec<Connection> = Vec::new();
        let mut i: usize = 0;
        while i < k
            invariant
                n == nums@,
                len == n.len(),
                e < n_endpoints,
                n_endpoints == n[1],
                q + 2 <= len,
                endpoints_end(n, endpoints_start(n), e as nat) == Some(q as int),
                q + 2 + 2 * k <= len,
                k == n[q + 1],
                i <= k,
                links@ == Seq::new(i as nat, |j: int| link_at(n, q + 2, j)),
                forall|j: int| 0 <= j < i ==> #[trigger] n[q + 2 + 2 * j + 1] <= u32::MAX,
            decreases k - i,
        {
            let cache = nums[q + 2 + 2 * i];
            let lat = nums[q + 2 + 2 * i + 1];
            if lat > u32::MAX as usize {
                proof {
                    assert(!links_fit(n, q + 2, k as int)) by {
                        assert(n[q + 2 + 2 * i + 1] > u32::MAX);
                    }
                    lemma_endpoints_end_none(n, endpoints_start(n), e as nat, n[1] as nat);
                }
                return None;
            }
            links.push(Connection { cache, latency: lat as u32 });
            proof {
                assert(links@ =~= Seq::new((i + 1) as nat, |j: int| link_at(n, q + 2, j)));
            }
            i += 1;
        }
        let ghost given = links@;
        endpoints.push(Endpoint::new(latency, links));
        proof {
            assert(links_fit(n, q + 2, k as int));
            assert(endpoints_end(n, endpoints_start(n), (e + 1) as nat) == Some(
                (q + 2 + 2 * k) as int,
            ));
        }
        q = q + 2 + 2 * k;
        e += 1;
    }
    let n_requests = nums[2];
    if (len - q) / 3 != n_requests || (len - q) % 3 != 0 {
        return None;
    }
    let mut requests: Vec<Request> = Vec::new();
    let mut i: usize = 0;
    while i < n_requests
        invariant
            n == nums@,
            len == n.len(),
            n.len() >= 5,
            n[4] <= u32::MAX,
            5 + n[0] <= n.len(),
            forall|w: int| 0 <= w < n[0] ==> #[trigger] n[5 + w] <= u32::MAX,
            endpoints_end(n, endpoints_start(n), n[1] as nat) is Some,
            q == requests_start(n),
            q + 3 * n_requests == len,
            n_requests == n[2],
            i <= n_requests,
            requests@.len() == i,
            forall|j: int|
                0 <= j < i ==> {
                    let b = q + 3 * j;
                    &&& (#[trigger] requests@[j]).video == n[b]
                    &&& requests@[j].endpoint == n[b + 1]
                    &&& requests@[j].amount == n[b + 2]
                    &&& n[b + 2] <= u32::MAX
                },
        decreases n_requests - i,
    {
        let b = q + 3 * i;
        let amount = nums[b + 2];
        if amount > u32::MAX as usize {
            proof {
                assert(n[requests_start(n) + 3 * i + 2] > u32::MAX);
            }
            return None;
        }
        requests.push(Request { video: nums[b], endpoint: nums[b + 1], amount: amount as u32 });
        i += 1;
    }
    proof {
        assert forall|j: int| 0 <= j < n[2] implies #[trigger] n[requests_start(n) + 3 * j + 2]
            <= u32::MAX by {
            let b = q + 3 * j;
            assert(requests@[j].amount == n[b + 2]);
        }
    }
    Some(Description { sizes, capacity: nums[4] as u32, cache_count: nums[3], endpoints, requests })
}

/// The line (counting from zero) of each number of `t` from `pos` on, where
/// `inside` tells whether `pos` is inside a number and `line` is the line of
/// `pos`.
pub open spec fn lines_from(t: Seq<u8>, pos: int, inside: bool, line: nat) -> Seq<nat>
    decreases t.len() - pos,
{
    if pos < 0 || pos >= t.len() {
        if inside {
            seq![line]
        } else {
            Seq::empty()
        }
    } else if is_digit(t[pos]) {
        lines_from(t, pos + 1, true, line)
    } else {
        (if inside {
            seq![line]
        } else {
            Seq::empty()
        }) + lines_from(t, pos + 1, false, if t[pos] == 10 { line + 1 } else { line })
    }
}

/// The line of each number of the text.
pub open spec fn token_lines(t: Seq<u8>) -> Seq<nat> {
    lines_from(t, 0, false, 0)
}

/// The line on which the `x`-th number of a problem belongs: the header on
/// the first, the sizes on the second, then two numbers per line for the
/// endpoint records and three per line for the requests.
pub open spec fn expected_line(n: Seq<usize>, x: int) -> int {
    let p = endpoints_start(n);
    let rs = requests_start(n);
    if x < 5 {
        0
    } else if x < p {
        1
    } else if x < rs {
        2 + (x - p) / 2
    } else {
        2 + (rs - p) / 2 + (x - rs) / 3
    }
}

/// The text's numbers all fit in `usize`, lay out a problem, and each
/// stands on the line where it belongs.
pub open spec fn laid_out(t: Seq<u8>) -> bool {
    &&& numbers_of(t) is Some
    &&& forall|i: int|
        0 <= i < numbers_of(t)->0.len() ==> #[trigger] numbers_of(t)->0[i] <= usize::MAX
    &&& well_laid(numbers_of(t)->0.map_values(|x: nat| x as usize))
    &&& token_lines(t).len() == numbers_of(t)->0.len()
    &&& forall|x: int|
        0 <= x < token_lines(t).len() ==> #[trigger] token_lines(t)[x] == expected_line(
            laid_numbers(t),
            x,
        )
}

/// The line of each number of `text`.
pub fn number_lines(text: &Vec<u8>) -> (r: Vec<usize>)
    ensures
        r@.map_values(|x: usize| x as nat) == token_lines(text@),
{
    let mut out: Vec<usize> = Vec::new();
    let mut inside = false;
    let mut line: usize = 0;
    let mut pos: usize = 0;
    while pos < text.len()
        invariant
            pos <= text@.len(),
            line <= pos,
            token_lines(text@) == out@.map_values(|x: usize| x as nat) + lines_from(
                text@,
                pos as int,
                inside,
                line as nat,
            ),
        decreases text.len() - pos,
    {
        let b = text[pos];
        let ghost before = out@.map_values(|x: usize| x as nat);
        if 48 <= b && b <= 57 {
            inside = true;
        } else {
            if inside {
                out.push(line);
                proof {
                    assert(out@.map_values(|x: usize| x as nat) =~= before + seq![line as nat]);
                }
            }
            let ghost rest = lines_from(
                text@,
                pos + 1,
                false,
                if b == 10 { line as nat + 1 } else { line as nat },
            );
            proof {
                if inside {
                    assert(before + (seq![line as nat] + rest) =~= (before + seq![line as nat])
                        + rest);
                } else {
                    assert(before + (Seq::<nat>::empty() + rest) =~= before + rest);
                }
            }
            if b == 10 {
                line = line + 1;
            }
            inside = false;
        }
        pos += 1;
    }
    if inside {
        let ghost before = out@.map_values(|x: usize| x as nat);
        out.push(line);
        proof {
            assert(out@.map_values(|x: usize| x as nat) =~= before + seq![line as nat]);
        }
    } else {
        proof {
            assert(out@.map_values(|x: usize| x as nat) + Seq::<nat>::empty() =~= out@.map_values(
                |x: usize| x as nat,
            ));
        }
    }
    out
}

/// The text's numbers, as machine integers.
pub open spec fn laid_numbers(t: Seq<u8>) -> Seq<usize> {
    numbers_of(t)->0.map_values(|x: nat| x as usize)
}

/// The video sizes that the numbers list.
pub open spec fn laid_sizes(n: Seq<usize>) -> Seq<u32> {
    Seq::new(n[0] as nat, |v: int| n[5 + v] as u32)
}

/// Where the record of endpoint `e` starts.
pub open spec fn endpoint_at(n: Seq<usize>, e: int) -> int {
    endpoints_end(n, endpoints_start(n), e as nat)->0
}

/// The links that the record of endpoint `e` lists, in the order given.
pub open spec fn laid_links(n: Seq<usize>, e: int) -> Seq<Connection> {
    Seq::new(n[endpoint_at(n, e) + 1] as nat, |i: int| link_at(n, endpoint_at(n, e) + 2, i))
}

/// Every listed link names a cache below the cache count and is no slower
/// than its endpoint's datacenter.
pub open spec fn laid_links_ok(n: Seq<usize>) -> bool {
    forall|e: int, i: int|
        0 <= e < n[1] && 0 <= i < laid_links(n, e).len() ==> {
            &&& (#[trigger] laid_links(n, e)[i]).cache < n[3]
            &&& laid_links(n, e)[i].latency <= n[endpoint_at(n, e)]
        }
}

/// The request lines that the numbers list.
pub open spec fn laid_requests(n: Seq<usize>) -> Seq<Request> {
    Seq::new(
        n[2] as nat,
        |i: int|
            Request {
                video: n[requests_start(n) + 3 * i],
                endpoint: n[requests_start(n) + 3 * i + 1],
                amount: n[requests_start(n) + 3 * i + 2] as u32,
            },
    )
}

/// A sorted copy of some links is well formed exactly when each listed link
/// is in range and no slower than the datacenter.
proof fn lemma_endpoint_ok(ep: Endpoint, listed: Seq<Connection>, cache_count: nat)
    requires
        ep.connections@.to_multiset() == listed.to_multiset(),
        forall|i: int, j: int|
            0 <= i < j < ep.connections@.len() ==> (#[trigger] ep.connections@[i]).latency <= (
            #[trigger] ep.connections@[j]).latency,
    ensures
        ep.wf(cache_count) <==> forall|i: int|
            0 <= i < listed.len() ==> (#[trigger] listed[i]).cache < cache_count
                && listed[i].latency <= ep.latency,
{
    broadcast use vstd::seq_lib::group_to_multiset_ensures;

    let cs = ep.connections@;
    if ep.wf(cache_count) {
        assert forall|i: int| 0 <= i < listed.len() implies (#[trigger] listed[i]).cache
            < cache_count && listed[i].latency <= ep.latency by {
            assert(listed.contains(listed[i]));
            assert(listed.to_multiset().count(listed[i]) > 0);
            assert(cs.contains(listed[i]));
        }
    }
    if forall|i: int|
        0 <= i < listed.len() ==> (#[trigger] listed[i]).cache < cache_count && listed[i].latency
            <= ep.latency {
        assert forall|k: int| 0 <= k < cs.len() implies (#[trigger] cs[k]).cache < cache_count
            && cs[k].latency <= ep.latency by {
            assert(cs.contains(cs[k]));
            assert(cs.to_multiset().count(cs[k]) > 0);
            assert(listed.contains(cs[k]));
        }
    }
}

/// Builds the demand model described by a problem text: `Malformed` when
/// the text lays out no problem, else exactly what `DemandModel::new` makes
/// of the sizes, endpoints and request lines it lists.
pub fn load(text: &Vec<u8>) -> (r: Result<DemandModel, LoadError>)
    ensures
        r == Err::<DemandModel, LoadError>(LoadError::Malformed) <==> !laid_out(text@),
        r == Err::<DemandModel, LoadError>(LoadError::EmptyVideo) <==> laid_out(text@) && !sizes_ok(
            laid_sizes(laid_numbers(text@)),
        ),
        r == Err::<DemandModel, LoadError>(LoadError::InvalidEndpoint) <==> laid_out(text@)
            && sizes_ok(laid_sizes(laid_numbers(text@))) && !laid_links_ok(laid_numbers(text@)),
        r == Err::<DemandModel, LoadError>(LoadError::UnknownId) <==> laid_out(text@) && sizes_ok(
            laid_sizes(laid_numbers(text@)),
        ) && laid_links_ok(laid_numbers(text@)) && !ids_ok(
            laid_requests(laid_numbers(text@)),
            laid_numbers(text@)[0] as nat,
            laid_numbers(text@)[1] as nat,
        ),
        r == Err::<DemandModel, LoadError>(LoadError::AmountOverflow) <==> laid_out(text@)
            && sizes_ok(laid_sizes(laid_numbers(text@))) && laid_links_ok(laid_numbers(text@))
            && ids_ok(
            laid_requests(laid_numbers(text@)),
            laid_numbers(text@)[0] as nat,
            laid_numbers(text@)[1] as nat,
        ) && !volumes_fit(laid_requests(laid_numbers(text@))),
        r is Ok <==> laid_out(text@) && sizes_ok(laid_sizes(laid_numbers(text@))) && laid_links_ok(
            laid_numbers(text@),
        ) && ids_ok(
            laid_requests(laid_numbers(text@)),
            laid_numbers(text@)[0] as nat,
            laid_numbers(text@)[1] as nat,
        ) && volumes_fit(laid_requests(laid_numbers(text@))),
        r matches Ok(m) ==> {
            let n = laid_numbers(text@);
            &&& m.wf()
            &&& m.sizes@ == laid_sizes(n)
            &&& m.cache_count == n[3]
            &&& m.capacity == n[4]
            &&& m.endpoints@.len() == n[1]
            &&& forall|e: int|
                0 <= e < n[1] ==> {
                    &&& (#[trigger] m.endpoints@[e]).latency == n[endpoint_at(n, e)]
                    &&& m.endpoints@[e].connections@.to_multiset() == laid_links(
                        n,
                        e,
                    ).to_multiset()
                }
            &&& aggregated_from(m.requests@, laid_requests(n))
        },
{
    let nums = match read_numbers(text) {
        None => {
            proof {
                if numbers_of(text@) is Some {
                    let all = numbers_of(text@)->0;
                    let i = choose|i: int| 0 <= i < all.len() && #[trigger] all[i] > usize::MAX;
                }
            }
            return Err(LoadError::Malformed);
        },
        Some(v) => v,
    };
    proof {
        let all = numbers_of(text@)->0;
        assert(all.map_values(|x: nat| x as usize) =~= nums@);
    }
    match describe(&nums) {
        None => Err(LoadError::Malformed),
        Some(d) => {
            let ghost n = nums@;
            let lines = number_lines(text);
            proof {
                assert(well_laid(n));
                assert(laid_numbers(text@) == n);
                assert(token_lines(text@).len() == lines@.len());
                assert(numbers_of(text@)->0.len() == n.len());
                lemma_endpoints_end_grows(n, endpoints_start(n), n[1] as nat);
            }
            if lines.len() != nums.len() {
                return Err(LoadError::Malformed);
            }
            let p = 5 + nums[0];
            let rs = nums.len() - 3 * nums[2];
            let mut x: usize = 0;
            while x < lines.len()
                invariant
                    n == nums@,
                    well_laid(n),
                    laid_numbers(text@) == n,
                    lines@.len() == n.len(),
                    p == endpoints_start(n),
                    rs == requests_start(n),
                    p <= rs <= n.len(),
                    lines@.map_values(|x: usize| x as nat) == token_lines(text@),
                    x <= lines@.len(),
                    forall|y: int| 0 <= y < x ==> #[trigger] lines@[y] == expected_line(n, y),
                decreases lines.len() - x,
            {
                let want: usize = if x < 5 {
                    0
                } else if x < p {
                    1
                } else if x < rs {
                    2 + (x - p) / 2
                } else {
                    2 + (rs - p) / 2 + (x - rs) / 3
                };
                if lines[x] != want {
                    proof {
                        assert(want == expected_line(n, x as int));
                        assert(token_lines(text@)[x as int] == lines@[x as int]);
                        assert(laid_numbers(text@) =~= n);
                        assert(!laid_out(text@));
                    }
                    return Err(LoadError::Malformed);
                }
                x += 1;
            }
            proof {
                assert forall|y: int| 0 <= y < token_lines(text@).len() implies #[trigger] token_lines(
                    text@,
                )[y] == expected_line(laid_numbers(text@), y) by {
                    assert(token_lines(text@)[y] == lines@[y]);
                }
            }
            proof {
                assert(d.sizes@ =~= laid_sizes(n));
                assert(d.requests@ =~= laid_requests(n));
                assert forall|e: int| 0 <= e < n[1] implies (#[trigger] d.endpoints@[e]).wf(
                    d.cache_count as nat,
                ) == (forall|i: int|
                    0 <= i < laid_links(n, e).len() ==> (#[trigger] laid_links(n, e)[i]).cache
                        < n[3] && laid_links(n, e)[i].latency <= d.endpoints@[e].latency) by {
                    assert(laid_links(n, e) =~= Seq::new(
                        n[endpoint_at(n, e) + 1] as nat,
                        |i: int| link_at(n, endpoint_at(n, e) + 2, i),
                    ));
                    lemma_endpoint_ok(d.endpoints@[e], laid_links(n, e), d.cache_count as nat);
                }
                if endpoints_ok(d.endpoints@, d.cache_count as nat) {
                    assert forall|e: int, i: int|
                        0 <= e < n[1] && 0 <= i < laid_links(n, e).len() implies {
                        &&& (#[trigger] laid_links(n, e)[i]).cache < n[3]
                        &&& laid_links(n, e)[i].latency <= n[endpoint_at(n, e)]
                    } by {
                        assert(d.endpoints@[e].wf(d.cache_count as nat));
                    }
                }
                if laid_links_ok(n) {
                    assert forall|e: int| 0 <= e < d.endpoints@.len() implies (
                    #[trigger] d.endpoints@[e]).wf(d.cache_count as nat) by {
                        assert forall|i: int| 0 <= i < laid_links(n, e).len() implies (
                        #[trigger] laid_links(n, e)[i]).cache < n[3] && laid_links(
                            n,
                            e,
                        )[i].latency <= d.endpoints@[e].latency by {}
                    }
                }
            }
            DemandModel::new(d.sizes, d.capacity, d.cache_count, d.endpoints, d.requests)
        },
    }
}

/// Records only move the position forward.
proof fn lemma_endpoints_end_grows(nums: Seq<usize>, p: int, n: nat)
    requires
        endpoints_end(nums, p, n) is Some,
    ensures
        endpoints_end(nums, p, n)->0 >= p,
    decreases n,
{
    if n > 0 {
        lemma_endpoints_end_grows(nums, p, (n - 1) as nat);
    }
}

/// Once the records break off, no longer run of them is complete.
proof fn lemma_endpoints_end_none(nums: Seq<usize>, p: int, e: nat, n: nat)
    requires
        e < n,
        endpoints_end(nums, p, e) is Some,
        endpoints_end(nums, p, e + 1) is None,
    ensures
        endpoints_end(nums, p, n) is None,
    decreases n - e,
{
    if e + 1 < n {
        lemma_endpoints_end_none(nums, p, e, (n - 1) as nat);
    }
}

} // verus!
