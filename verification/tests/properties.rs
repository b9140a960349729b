use rand_core::SeedableRng;
use rand_xoshiro::SplitMix64;
use routing::{BorrowPolicy, Record, RoutingTable, TableError, K};
use std::borrow::BorrowMut;

fn cids_of(t: &RoutingTable, bucket: usize) -> Vec<String> {
    t.buckets[bucket].records.iter().map(|r| r.cid.clone()).collect()
}

fn same_tables(a: &RoutingTable, b: &RoutingTable) -> bool {
    a.buckets.len() == b.buckets.len()
        && (0..a.buckets.len()).all(|i| {
            a.buckets[i].records.len() == b.buckets[i].records.len()
                && (0..a.buckets[i].records.len()).all(|j| {
                    a.buckets[i].records[j].cid == b.buckets[i].records[j].cid
                        && a.buckets[i].records[j].multiaddr == b.buckets[i].records[j].multiaddr
                })
        })
}

fn sample_table() -> RoutingTable {
    RoutingTable::new()
        .add_record(0, "0010", "RE")
        .add_record(1, "0000", "RE")
        .add_record(1, "0001", "RE")
        .add_record(2, "0101", "RE")
        .add_record(2, "0111", "RE")
        .add_record(2, "0110", "RE")
        .add_record(3, "1010", "RE")
}

#[test]
fn test_determinism_same_seed() {
    let a = sample_table().normalize(SplitMix64::seed_from_u64(7).borrow_mut());
    let b = sample_table().normalize(SplitMix64::seed_from_u64(7).borrow_mut());
    assert!(same_tables(&a, &b));
}

#[test]
fn test_exhaustive_pools_ignore_seed() {
    // Every borrowing step here finds a pool no larger than its need, so no
    // randomness is consumed and the seed cannot matter.
    let build = || {
        RoutingTable::new()
            .add_record(0, "0010", "RE")
            .add_record(1, "0000", "RE")
            .add_record(1, "0001", "RE")
    };
    let a = build().normalize(SplitMix64::seed_from_u64(0).borrow_mut());
    let b = build().normalize(SplitMix64::seed_from_u64(999).borrow_mut());
    assert!(same_tables(&a, &b));
    assert_eq!(cids_of(&a, 0), vec!["0010", "0000", "0001"]);
    assert_eq!(cids_of(&a, 1), vec!["0000", "0001", "0010"]);
}

#[test]
fn test_full_buckets_pass_through_unchanged() {
    let rt = RoutingTable::new()
        .add_record(0, "0001", "a")
        .add_record(0, "0010", "b")
        .add_record(0, "0100", "c")
        .add_record(0, "1000", "d")
        .add_record(0, "1001", "e")
        .add_record(1, "0000", "f");
    let out = rt.normalize(SplitMix64::seed_from_u64(3).borrow_mut());
    // bucket 0 held five records, more than K = 4: unchanged, same order.
    assert_eq!(cids_of(&out, 0), vec!["0001", "0010", "0100", "1000", "1001"]);
}

#[test]
fn test_idempotent_when_every_bucket_full() {
    let build = || {
        RoutingTable::new()
            .add_record(0, "0001", "a")
            .add_record(0, "0010", "b")
            .add_record(0, "0100", "c")
            .add_record(0, "1000", "d")
            .add_record(1, "0000", "e")
            .add_record(1, "0011", "f")
            .add_record(1, "0101", "g")
            .add_record(1, "0110", "h")
    };
    assert_eq!(K, 4);
    let once = build().normalize(SplitMix64::seed_from_u64(0).borrow_mut());
    assert!(same_tables(&once, &build()));
    let twice_input = build().normalize(SplitMix64::seed_from_u64(0).borrow_mut());
    let twice = twice_input.normalize(SplitMix64::seed_from_u64(0).borrow_mut());
    assert!(same_tables(&twice, &once));
}

#[test]
fn test_capacity_bounded_by_available_records() {
    // Only two records exist in the whole table: each bucket ends with both.
    let rt = RoutingTable::new().add_record(0, "0001", "a").add_record(1, "1000", "b");
    let out = rt.normalize(SplitMix64::seed_from_u64(0).borrow_mut());
    assert_eq!(out.buckets[0].records.len(), 2);
    assert_eq!(out.buckets[1].records.len(), 2);
    assert_eq!(cids_of(&out, 0), vec!["0001", "1000"]);
    assert_eq!(cids_of(&out, 1), vec!["1000", "0001"]);
}

#[test]
fn test_closest_first_policy() {
    let rt = RoutingTable::new()
        .add_record(0, "0111", "a")
        .add_record(0, "0010", "b")
        .add_record(0, "0110", "c")
        .add_record(1, "0000", "d")
        .add_record(1, "0001", "e");
    let out = rt.normalize_with(
        SplitMix64::seed_from_u64(0).borrow_mut(),
        BorrowPolicy::ClosestFirst,
        4,
        3,
    );
    // bucket 1 needs 2 of 3 candidates: distances to 0011 are 0111 -> 4,
    // 0010 -> 1, 0110 -> 5, so the two closest are taken, closest first.
    assert_eq!(cids_of(&out, 1), vec!["0000", "0001", "0010", "0111"]);
    // bucket 0 needs 1 from the next bucket, sub-bucket size 2^0 = 1:
    // 0001 (distance 2) is closer than 0000 (distance 3).
    assert_eq!(cids_of(&out, 0), vec!["0111", "0010", "0110", "0001"]);
}

#[test]
fn test_uniform_policy_matches_normalize() {
    let a = sample_table().normalize(SplitMix64::seed_from_u64(11).borrow_mut());
    let b = sample_table().normalize_with(
        SplitMix64::seed_from_u64(11).borrow_mut(),
        BorrowPolicy::UniformRandom,
        4,
        3,
    );
    assert!(same_tables(&a, &b));
}

#[test]
fn test_try_add_record_out_of_bounds() {
    let r = RoutingTable::new().try_add_record(1, "0001", "a");
    assert!(matches!(r, Err(TableError::OutOfBounds)));
    let ok = RoutingTable::new().try_add_record(0, "0001", "a");
    assert!(ok.is_ok());
}

#[test]
fn test_try_normalize_malformed_identifier() {
    let bad = RoutingTable::new().add_record(0, "01x1", "a").add_record(1, "0001", "b");
    let r = bad.try_normalize(SplitMix64::seed_from_u64(0).borrow_mut());
    assert!(matches!(r, Err(TableError::MalformedIdentifier)));

    let good = RoutingTable::new().add_record(0, "0010", "a").add_record(1, "0001", "b");
    let out = good.try_normalize(SplitMix64::seed_from_u64(0).borrow_mut()).ok().unwrap();
    assert_eq!(cids_of(&out, 0), vec!["0010", "0001"]);
}

#[test]
fn test_distance_metric() {
    assert_eq!(Record::new("0010", "x").dist(), 1);
    assert_eq!(Record::new("0111", "x").dist(), 4);
    assert_eq!(Record::new("1010", "x").dist_to(3), 9);
    assert_eq!(Record::new("1111", "x").dist_to(0), 15);
}

#[test]
fn test_record_and_builder_fields() {
    let r = Record::new("0101", "addr one");
    assert_eq!(r.cid, "0101");
    assert_eq!(r.multiaddr, "addr one");
    let rt = RoutingTable::new().add_record(0, "0101", "p").add_record(0, "0110", "q");
    assert_eq!(rt.buckets.len(), 1);
    assert_eq!(rt.buckets[0].records[0].cid, "0101");
    assert_eq!(rt.buckets[0].records[1].cid, "0110");
    assert_eq!(rt.buckets[0].records[1].multiaddr, "q");
}

#[test]
fn test_identifier_validity() {
    assert!(routing::bits::is_valid_id("0"));
    assert!(routing::bits::is_valid_id("010101"));
    assert!(!routing::bits::is_valid_id(""));
    assert!(!routing::bits::is_valid_id("01a1"));
    assert!(!routing::bits::is_valid_id("+101"));
    assert_eq!(routing::bits::bit_string_value("1010"), 10);
    assert_eq!(routing::bits::bit_string_value("0011"), 3);
}
