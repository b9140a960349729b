use rand_core::SeedableRng;
use rand_xoshiro::SplitMix64;
use routing::{get_records_from_next_buckets, get_records_from_previous_buckets, Bucket};
use std::borrow::BorrowMut;

#[test]
fn test_empty_prev_buckets() {
    assert!(get_records_from_previous_buckets(
        SplitMix64::seed_from_u64(0).borrow_mut(),
        0,
        &vec![Bucket::new()]
    )
    .is_empty());
}

#[test]
fn test_empty_next_buckets() {
    assert!(get_records_from_next_buckets(
        SplitMix64::seed_from_u64(0).borrow_mut(),
        0,
        &vec![Bucket::new()],
        2
    )
    .is_empty());
}

#[test]
fn test_prev_buckets_small_pool_taken_whole() {
    let buckets = vec![
        Bucket::new().add("0010", "a"),
        Bucket::new().add("0001", "b").add("0000", "c"),
    ];
    let out = get_records_from_previous_buckets(
        SplitMix64::seed_from_u64(0).borrow_mut(),
        5,
        &buckets,
    );
    let cids: Vec<&str> = out.iter().map(|r| r.cid.as_str()).collect();
    assert_eq!(cids, vec!["0010", "0001", "0000"]);
}

#[test]
fn test_next_buckets_whole_bucket_then_subbuckets() {
    // The first bucket fits whole; the second is over-full, so it is sorted
    // by distance to the own node 0011 and chunked into sub-buckets of 2.
    let buckets = vec![
        Bucket::new().add("1000", "a"),
        Bucket::new().add("0101", "b").add("0110", "c").add("0111", "d"),
    ];
    let out = get_records_from_next_buckets(
        SplitMix64::seed_from_u64(0).borrow_mut(),
        3,
        &buckets,
        2,
    );
    let cids: Vec<&str> = out.iter().map(|r| r.cid.as_str()).collect();
    // distances to 0011: 0111 -> 4, 0110 -> 5, 0101 -> 6; the first
    // sub-bucket [0111, 0110] fits the remaining need of 2 whole.
    assert_eq!(cids, vec!["1000", "0111", "0110"]);
}
