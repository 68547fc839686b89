use cache_placement::allocation::Allocation;
use cache_placement::demand::aggregate_requests;
use cache_placement::evaluate::{score, serving_link};
use cache_placement::model::{Connection, DemandModel, Endpoint, LoadError, Request};
use cache_placement::optimizer::{optimize, Optimizer, Strategy};
use cache_placement::scoring::{is_served, step_candidate_for, unit_candidates_for, Candidate};
use cache_placement::aggregate::sum_by_key;
use cache_placement::parallel::rank_key;
use cache_placement::output::{parse_listing, render};
use cache_placement::input::{describe, load, number_lines, read_numbers};

fn link(cache: usize, latency: u32) -> Connection {
    Connection { cache, latency }
}

fn req(video: usize, endpoint: usize, amount: u32) -> Request {
    Request { video, endpoint, amount }
}

fn single_link_model(sizes: Vec<u32>, capacity: u32, raw: Vec<Request>) -> DemandModel {
    let e = Endpoint::new(1000, vec![link(0, 100)]);
    DemandModel::new(sizes, capacity, 1, vec![e], raw).unwrap()
}

fn contention_model() -> DemandModel {
    let e0 = Endpoint::new(1000, vec![link(0, 100)]);
    let e1 = Endpoint::new(1000, vec![link(0, 100)]);
    let raw = vec![req(0, 0, 10), req(0, 1, 10), req(1, 0, 10)];
    DemandModel::new(vec![60, 60], 100, 1, vec![e0, e1], raw).unwrap()
}

fn check_capacity(m: &DemandModel, a: &Allocation) {
    for c in 0..m.cache_count {
        let listed: u32 = a.stored[c].iter().map(|&v| m.sizes[v]).sum();
        assert_eq!(a.usage[c], listed);
        assert!(a.usage[c] <= m.capacity);
    }
}

#[test]
fn no_caching_possible() {
    for strategy in [Strategy::RecomputeEachStep, Strategy::ScoreOnce] {
        let m = single_link_model(vec![1000], 10, vec![req(0, 0, 5)]);
        let a = optimize(&m, strategy);
        assert!(a.stored[0].is_empty());
        assert_eq!(a.usage[0], 0);
        let s = score(&m, &a);
        assert_eq!(s.saved, 0);
        assert_eq!(s.normalized, 0);
        assert_eq!(s.requests, 5);
    }
}

#[test]
fn trivial_fit() {
    for strategy in [Strategy::RecomputeEachStep, Strategy::ScoreOnce] {
        let m = single_link_model(vec![50], 100, vec![req(0, 0, 10)]);
        let a = optimize(&m, strategy);
        assert_eq!(a.stored[0], vec![0]);
        assert_eq!(a.usage[0], 50);
        let s = score(&m, &a);
        assert_eq!(s.saved, 9000);
        assert_eq!(s.normalized, 900000);
    }
}

#[test]
fn capacity_contention_score_once() {
    let m = contention_model();
    let a = optimize(&m, Strategy::ScoreOnce);
    assert_eq!(a.stored[0], vec![0]);
    assert_eq!(a.usage[0], 60);
    check_capacity(&m, &a);
}

#[test]
fn capacity_contention_recompute() {
    let m = contention_model();
    let a = optimize(&m, Strategy::RecomputeEachStep);
    assert_eq!(a.stored[0].len(), 1);
    assert_eq!(a.usage[0], 60);
    check_capacity(&m, &a);
}

#[test]
fn aggregation_sums_duplicates() {
    let raw = vec![req(1, 0, 3), req(0, 1, 4), req(1, 0, 5)];
    let out = aggregate_requests(&raw, 2).unwrap();
    assert_eq!(out, vec![req(1, 0, 8), req(0, 1, 4)]);
}

#[test]
fn aggregation_ignores_order() {
    let raw1 = vec![req(1, 0, 3), req(0, 1, 4), req(1, 0, 5), req(0, 0, 1)];
    let raw2 = vec![req(0, 0, 1), req(1, 0, 5), req(0, 1, 4), req(1, 0, 3)];
    let mut a = aggregate_requests(&raw1, 2).unwrap();
    let mut b = aggregate_requests(&raw2, 2).unwrap();
    a.sort_by_key(|r| (r.video, r.endpoint));
    b.sort_by_key(|r| (r.video, r.endpoint));
    assert_eq!(a, b);
}

#[test]
fn aggregation_overflow_is_reported() {
    let raw = vec![req(0, 0, u32::MAX), req(0, 0, 1)];
    assert_eq!(aggregate_requests(&raw, 1), None);
    let e = Endpoint::new(1000, vec![]);
    let r = DemandModel::new(vec![5], 10, 1, vec![e], raw);
    assert_eq!(r.err(), Some(LoadError::AmountOverflow));
}

#[test]
fn aggregation_at_the_limit() {
    let raw = vec![req(0, 0, u32::MAX - 1), req(0, 0, 1)];
    assert_eq!(aggregate_requests(&raw, 1), Some(vec![req(0, 0, u32::MAX)]));
}

#[test]
fn load_errors() {
    let ok_ep = || Endpoint::new(1000, vec![link(0, 10)]);
    let r = DemandModel::new(vec![5, 0], 10, 1, vec![ok_ep()], vec![]);
    assert_eq!(r.err(), Some(LoadError::EmptyVideo));
    let bad_cache = Endpoint::new(1000, vec![link(3, 10)]);
    let r = DemandModel::new(vec![5], 10, 1, vec![bad_cache], vec![]);
    assert_eq!(r.err(), Some(LoadError::InvalidEndpoint));
    let slow = Endpoint::new(100, vec![link(0, 200)]);
    let r = DemandModel::new(vec![5], 10, 1, vec![slow], vec![]);
    assert_eq!(r.err(), Some(LoadError::InvalidEndpoint));
    let unsorted = Endpoint { latency: 1000, connections: vec![link(0, 50), link(1, 10)] };
    let r = DemandModel::new(vec![5], 10, 2, vec![unsorted], vec![]);
    assert_eq!(r.err(), Some(LoadError::InvalidEndpoint));
    let r = DemandModel::new(vec![5], 10, 1, vec![ok_ep()], vec![req(1, 0, 1)]);
    assert_eq!(r.err(), Some(LoadError::UnknownId));
    let r = DemandModel::new(vec![5], 10, 1, vec![ok_ep()], vec![req(0, 1, 1)]);
    assert_eq!(r.err(), Some(LoadError::UnknownId));
}

#[test]
fn endpoint_links_are_sorted() {
    let e = Endpoint::new(500, vec![link(2, 300), link(0, 100), link(1, 200)]);
    let lat: Vec<u32> = e.connections.iter().map(|c| c.latency).collect();
    assert_eq!(lat, vec![100, 200, 300]);
    assert!(e.is_valid(3));
    assert!(!e.is_valid(2));
}

#[test]
fn zero_volume_scores_zero() {
    let m = single_link_model(vec![50], 100, vec![]);
    let a = optimize(&m, Strategy::ScoreOnce);
    let s = score(&m, &a);
    assert_eq!((s.saved, s.requests, s.normalized), (0, 0, 0));
}

#[test]
fn score_uses_fastest_storing_cache() {
    let e = Endpoint::new(1000, vec![link(0, 300), link(1, 100)]);
    let m = DemandModel::new(vec![10], 100, 2, vec![e], vec![req(0, 0, 3)]).unwrap();
    let mut a = Allocation::empty(&m);
    a.insert(&m, 0, 0);
    assert_eq!(serving_link(&m, &a, &m.requests[0]), Some(300));
    assert_eq!(score(&m, &a).saved, 2100);
    a.insert(&m, 1, 0);
    assert_eq!(serving_link(&m, &a, &m.requests[0]), Some(100));
    let s = score(&m, &a);
    assert_eq!(s.saved, 2700);
    assert_eq!(s.normalized, 900000);
}

#[test]
fn normalized_score_floors() {
    let e = Endpoint::new(10, vec![link(0, 9)]);
    let m = DemandModel::new(vec![1, 1], 100, 1, vec![e], vec![req(0, 0, 1), req(1, 0, 2)]).unwrap();
    let mut a = Allocation::empty(&m);
    a.insert(&m, 0, 0);
    let s = score(&m, &a);
    assert_eq!((s.saved, s.requests), (1, 3));
    assert_eq!(s.normalized, 333);
}

#[test]
fn saved_latency_grows_with_placements() {
    let m = contention_model();
    let mut a = Allocation::empty(&m);
    let before = score(&m, &a).saved;
    a.insert(&m, 0, 1);
    let after = score(&m, &a).saved;
    assert_eq!(before, 0);
    assert_eq!(after, 9000);
    assert!(before <= after);
}

#[test]
fn allocation_queries() {
    let m = single_link_model(vec![60, 50], 100, vec![req(0, 0, 1)]);
    let mut a = Allocation::empty(&m);
    assert!(a.fits(&m, 0, 0));
    assert!(a.is_admissible(&m, 0, 0));
    a.insert(&m, 0, 0);
    assert!(a.is_stored(0, 0));
    assert!(!a.is_stored(0, 1));
    assert_eq!(a.cache_usage(0), 60);
    assert!(!a.is_admissible(&m, 0, 0));
    assert!(!a.fits(&m, 0, 1));
    assert!(is_served(&m, &a, &m.requests[0]));
}

#[test]
fn recompute_candidate_uses_raw_formula() {
    let e = Endpoint::new(1000, vec![link(0, 100), link(1, 400)]);
    let m = DemandModel::new(vec![80], 100, 2, vec![e], vec![req(0, 0, 2)]).unwrap();
    let mut a = Allocation::empty(&m);
    let c = step_candidate_for(&m, &a, &m.requests[0]);
    assert_eq!(c, Some(Candidate { cache: 0, video: 0, benefit: 1800 }));
    a.insert(&m, 0, 0);
    assert_eq!(step_candidate_for(&m, &a, &m.requests[0]), None);
}

#[test]
fn recompute_candidate_skips_full_cache() {
    let e = Endpoint::new(1000, vec![link(0, 100), link(1, 400)]);
    let m = DemandModel::new(vec![80, 30], 100, 2, vec![e], vec![req(0, 0, 2), req(1, 0, 1)])
        .unwrap();
    let mut a = Allocation::empty(&m);
    a.insert(&m, 0, 1);
    let c = step_candidate_for(&m, &a, &m.requests[0]);
    assert_eq!(c, Some(Candidate { cache: 1, video: 0, benefit: 1200 }));
}

#[test]
fn unit_candidates_divide_by_size() {
    let e = Endpoint::new(1000, vec![link(0, 100), link(1, 400)]);
    let m = DemandModel::new(vec![7, 500], 100, 2, vec![e], vec![req(0, 0, 2), req(1, 0, 1)])
        .unwrap();
    let cs = unit_candidates_for(&m, &m.requests[0]);
    assert_eq!(
        cs,
        vec![
            Candidate { cache: 0, video: 0, benefit: 257 },
            Candidate { cache: 1, video: 0, benefit: 171 },
        ]
    );
    assert!(unit_candidates_for(&m, &m.requests[1]).is_empty());
}

#[test]
fn sums_share_keys_in_first_seen_order() {
    let items = vec![
        Candidate { cache: 1, video: 0, benefit: 5 },
        Candidate { cache: 0, video: 1, benefit: 2 },
        Candidate { cache: 1, video: 0, benefit: 7 },
        Candidate { cache: 0, video: 1, benefit: u64::MAX },
    ];
    let out = sum_by_key(&items, 2);
    assert_eq!(
        out,
        vec![
            Candidate { cache: 1, video: 0, benefit: 12 },
            Candidate { cache: 0, video: 1, benefit: u64::MAX },
        ]
    );
}

#[test]
fn rank_keys_order_by_benefit_then_position() {
    let a = Candidate { cache: 0, video: 0, benefit: 10 };
    let b = Candidate { cache: 0, video: 1, benefit: 3 };
    assert!(rank_key(&a, 5) < rank_key(&b, 0));
    assert!(rank_key(&a, 1) < rank_key(&a, 2));
    assert_eq!(rank_key(&b, 4), (u64::MAX - 3, 4));
}

#[test]
fn score_once_prefers_per_unit_benefit() {
    // A large video with the larger raw benefit loses to two small ones.
    let e = Endpoint::new(1000, vec![link(0, 0)]);
    let raw = vec![req(0, 0, 10), req(1, 0, 6), req(2, 0, 6)];
    let m = DemandModel::new(vec![100, 50, 50], 100, 1, vec![e], raw).unwrap();
    let a = optimize(&m, Strategy::ScoreOnce);
    let mut got = a.stored[0].clone();
    got.sort();
    assert_eq!(got, vec![1, 2]);
    let b = optimize(&m, Strategy::RecomputeEachStep);
    assert_eq!(b.stored[0], vec![0]);
}

#[test]
fn steps_never_evict_and_stop() {
    let e0 = Endpoint::new(1000, vec![link(0, 100), link(1, 200)]);
    let e1 = Endpoint::new(900, vec![link(1, 50)]);
    let raw = vec![req(0, 0, 5), req(1, 0, 3), req(2, 1, 7), req(1, 1, 2)];
    let m = DemandModel::new(vec![40, 30, 50], 80, 2, vec![e0, e1], raw).unwrap();
    for strategy in [Strategy::RecomputeEachStep, Strategy::ScoreOnce] {
        let opt = Optimizer::new(&m, strategy);
        let mut a = Allocation::empty(&m);
        let mut placed: Vec<(usize, usize)> = Vec::new();
        let mut steps = 0u32;
        while let Some(c) = opt.step(&m, &mut a) {
            placed.push((c.cache, c.video));
            for &(cache, video) in &placed {
                assert!(a.is_stored(cache, video));
            }
            check_capacity(&m, &a);
            steps += 1;
            assert!(steps <= 2 * 80 / 30);
        }
        let mut b = Allocation::empty(&m);
        let n = opt.run(&m, &mut b);
        assert_eq!(n, steps as u128);
        let total: usize = b.stored.iter().map(|r| r.len()).sum();
        assert_eq!(total as u128, n);
        assert_eq!(a.stored, b.stored);
    }
}

#[test]
fn listing_round_trip() {
    let e0 = Endpoint::new(1000, vec![link(0, 100), link(2, 50)]);
    let e1 = Endpoint::new(900, vec![link(1, 50)]);
    let raw = vec![req(0, 0, 5), req(11, 0, 3), req(2, 1, 7), req(11, 1, 2)];
    let sizes = vec![40, 1, 50, 1, 1, 1, 1, 1, 1, 1, 1, 30];
    let m = DemandModel::new(sizes, 80, 3, vec![e0, e1], raw).unwrap();
    let a = optimize(&m, Strategy::ScoreOnce);
    let text = render(&a);
    let rows = parse_listing(&text).unwrap();
    assert_eq!(rows, a.stored);
    let mut pairs: Vec<(usize, usize)> = Vec::new();
    for (c, row) in rows.iter().enumerate() {
        for &v in row {
            pairs.push((c, v));
        }
    }
    for c in 0..3 {
        for v in 0..12 {
            assert_eq!(a.is_stored(c, v), pairs.contains(&(c, v)));
        }
    }
}

#[test]
fn listing_text() {
    let m = single_link_model(vec![50, 20, 10], 100, vec![req(0, 0, 10), req(2, 0, 1)]);
    let mut a = Allocation::empty(&m);
    a.insert(&m, 0, 2);
    a.insert(&m, 0, 0);
    let text = render(&a);
    assert_eq!(String::from_utf8(text.clone()).unwrap(), "1\n0 2 0\n");
    assert_eq!(parse_listing(&text), Some(vec![vec![2, 0]]));
    assert_eq!(parse_listing(&b"1\n0 2 0".to_vec()), None);
    assert_eq!(parse_listing(&b"2\n0\n".to_vec()), None);
    assert_eq!(parse_listing(&b"1\n1 3\n".to_vec()), None);
    assert_eq!(parse_listing(&b"1\n0 12 345\n".to_vec()), Some(vec![vec![12, 345]]));
}

#[test]
fn numbers_are_read() {
    assert_eq!(read_numbers(&b"5 2 4\n3 1\t\r\n 7".to_vec()), Some(vec![5, 2, 4, 3, 1, 7]));
    assert_eq!(read_numbers(&b"".to_vec()), Some(vec![]));
    assert_eq!(read_numbers(&b"12 x".to_vec()), None);
    assert_eq!(read_numbers(&b"99999999999999999999999".to_vec()), None);
    assert_eq!(read_numbers(&b"0012\n".to_vec()), Some(vec![12]));
}

const EXAMPLE: &str = "5 2 4 3 100
50 50 80 30 110
1000 3
0 100
2 200
1 300
500 0
3 0 1500
0 1 1000
4 0 500
1 0 1000
";

#[test]
fn example_loads_and_optimizes() {
    let m = load(&EXAMPLE.as_bytes().to_vec()).unwrap();
    assert_eq!(m.sizes, vec![50, 50, 80, 30, 110]);
    assert_eq!(m.cache_count, 3);
    assert_eq!(m.capacity, 100);
    assert_eq!(m.endpoints.len(), 2);
    assert_eq!(m.endpoints[0].latency, 1000);
    let lats: Vec<u32> = m.endpoints[0].connections.iter().map(|c| c.latency).collect();
    assert_eq!(lats, vec![100, 200, 300]);
    assert!(m.endpoints[1].connections.is_empty());
    assert_eq!(m.requests.len(), 4);
    for strategy in [Strategy::RecomputeEachStep, Strategy::ScoreOnce] {
        let a = optimize(&m, strategy);
        check_capacity(&m, &a);
        let s = score(&m, &a);
        assert!(s.saved > 0);
        assert_eq!(s.requests, 4000);
    }
}

#[test]
fn describe_lays_out_records() {
    let nums: Vec<usize> = vec![2, 1, 1, 2, 10, 3, 4, 100, 2, 1, 20, 0, 10, 1, 0, 7];
    let d = describe(&nums).unwrap();
    assert_eq!(d.sizes, vec![3, 4]);
    assert_eq!(d.capacity, 10);
    assert_eq!(d.cache_count, 2);
    assert_eq!(d.endpoints[0].latency, 100);
    assert_eq!(d.endpoints[0].connections, vec![link(0, 10), link(1, 20)]);
    assert_eq!(d.requests, vec![req(1, 0, 7)]);
    let mut short = nums.clone();
    short.pop();
    assert!(describe(&short).is_none());
    let mut long = nums.clone();
    long.push(1);
    assert!(describe(&long).is_none());
    let mut big = nums.clone();
    big[4] = u32::MAX as usize + 1;
    assert!(describe(&big).is_none());
}

#[test]
fn malformed_text_is_rejected() {
    assert_eq!(load(&b"1 1 0 1".to_vec()).err(), Some(LoadError::Malformed));
    assert_eq!(load(&b"1 1 0 1 10\n5\n100 0\n#".to_vec()).err(), Some(LoadError::Malformed));
    assert_eq!(load(&b"1 1 1 1 10\n5\n100 0\n0 3 1\n".to_vec()).err(), Some(LoadError::UnknownId));
    assert!(load(&b"1 1 1 1 10\n5\n100 0\n0 0 1\n".to_vec()).is_ok());
}

#[test]
fn line_layout_is_enforced() {
    let shifted = b"1 1 1 1 100\n50\n1000 1\n0\n100 0 0 10\n".to_vec();
    assert_eq!(load(&shifted).err(), Some(LoadError::Malformed));
    let joined = b"1 1 1 1 100 50\n\n1000 1\n0 100\n0 0 10\n".to_vec();
    assert_eq!(load(&joined).err(), Some(LoadError::Malformed));
    let blank = b"1 1 1 1 100\n50\n\n1000 1\n0 100\n0 0 10\n".to_vec();
    assert_eq!(load(&blank).err(), Some(LoadError::Malformed));
    let crlf = b"1 1 1 1 100\r\n50\r\n1000 1\r\n0 100\r\n0 0 10\r\n\n".to_vec();
    assert!(load(&crlf).is_ok());
    assert_eq!(number_lines(&b"1 2\n\n3\n4 5".to_vec()), vec![0, 0, 2, 3, 3]);
}

#[test]
fn single_request_text_loads() {
    let m = load(&b"1 1 1 1 100\n50\n1000 1\n0 100\n0 0 10\n".to_vec()).unwrap();
    assert_eq!(m.sizes, vec![50]);
    assert_eq!(m.cache_count, 1);
    assert_eq!(m.capacity, 100);
    assert_eq!(m.endpoints[0].latency, 1000);
    assert_eq!(m.endpoints[0].connections, vec![link(0, 100)]);
    assert_eq!(m.requests, vec![req(0, 0, 10)]);
}

#[test]
fn duplicate_request_lines_merge_on_load() {
    let m = load(&b"1 1 2 1 100\n50\n1000 1\n0 100\n0 0 3\n0 0 7\n".to_vec()).unwrap();
    assert_eq!(m.requests, vec![req(0, 0, 10)]);
}

#[test]
fn load_reports_model_errors() {
    let unknown_cache = b"1 1 0 1 100\n50\n1000 1\n4 100\n".to_vec();
    assert_eq!(load(&unknown_cache).err(), Some(LoadError::InvalidEndpoint));
    let overflow = b"1 1 2 1 100\n50\n1000 0\n0 0 4294967295\n0 0 1\n".to_vec();
    assert_eq!(load(&overflow).err(), Some(LoadError::AmountOverflow));
    let empty = b"1 1 0 1 100\n0\n1000 0\n".to_vec();
    assert_eq!(load(&empty).err(), Some(LoadError::EmptyVideo));
}
