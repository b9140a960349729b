//! A Kademlia-style routing table with a verified k-bucket normalization
//! algorithm: under-full buckets borrow records from their neighbours,
//! deterministically where the candidate pool is small enough and by seeded
//! random selection where it is not.

pub mod bits;
pub mod record;
pub mod rng;
pub mod sampling;
pub mod sorting;
pub mod table;

pub use record::{Record, TableError};
pub use table::{
    get_records_from_next_buckets, get_records_from_previous_buckets, BorrowPolicy, Bucket,
    RoutingTable, K,
};
