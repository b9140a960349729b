//! The routing table: buckets of records, the append-only builder, and the
//! k-bucket normalization algorithm.

use vstd::prelude::*;
use vstd::arithmetic::power2::{lemma_pow2_pos, pow2};
use vstd::arithmetic::power::lemma_pow_increases;
use crate::bits::{bit_string_value, is_valid_id};
use crate::record::{
    lemma_local_id_wf, local_id_value, own_node_id, rec_dist, rec_matches, wf_record, Record,
    TableError,
};
use crate::sampling::{pick_at_random_from_records, picks_without_replacement};
use crate::sorting::{sort_by_dist_spec, sort_records_by_dist};
use rand_xoshiro::SplitMix64;

verus! {

/// The target bucket capacity normalization fills towards.
pub const K: usize = 4;

/// An ordered collection of records at one distance class.
pub struct Bucket {
    pub records: Vec<Record>,
}

impl Bucket {
    /// An empty bucket.
    pub fn new() -> (b: Bucket)
        ensures
            b.records@ == Seq::<Record>::empty(),
    {
        Bucket { records: Vec::new() }
    }

    /// Appends one record, built from its identifier and address text.
    pub fn add(self, cid: &str, multiaddr: &str) -> (b: Bucket)
        ensures
            b.records@.len() == self.records@.len() + 1,
            b.records@.drop_last() == self.records@,
            rec_matches(b.records@.last(), cid@, multiaddr@),
    {
        let mut b = self;
        b.records.push(Record::new(cid, multiaddr));
        proof {
            assert(b.records@.drop_last() =~= self.records@);
        }
        b
    }
}

impl Clone for Bucket {
    /// A cloned bucket holds the same records in the same order.
    fn clone(&self) -> (b: Self)
        ensures
            b.records@ == self.records@,
    {
        Bucket { records: clone_records(&self.records) }
    }
}

/// An ordered collection of buckets, indexed by distance-prefix length.
pub struct RoutingTable {
    pub buckets: Vec<Bucket>,
}

/// Every record in every bucket has a well-formed identifier.
pub open spec fn wf_buckets(bs: Seq<Bucket>) -> bool {
    forall|i: int, j: int|
        0 <= i < bs.len() && 0 <= j < bs[i].records@.len() ==> wf_record(
            #[trigger] bs[i].records@[j],
        )
}

/// Two tables hold the same records in the same order, bucket for bucket.
pub open spec fn tables_match(a: RoutingTable, b: RoutingTable) -> bool {
    &&& a.buckets@.len() == b.buckets@.len()
    &&& forall|i: int|
        0 <= i < a.buckets@.len() ==> #[trigger] a.buckets@[i].records@ == b.buckets@[i].records@
}

/// All records of the first `end` buckets, in bucket order then record order:
/// the candidate pool the previous buckets donate.
pub open spec fn pool_of(bs: Seq<Bucket>, end: int) -> Seq<Record>
    decreases end,
{
    if end <= 0 {
        Seq::<Record>::empty()
    } else {
        pool_of(bs, end - 1) + bs[end - 1].records@
    }
}

/// All records of the buckets from `start` on, in order: the candidate pool
/// the next buckets donate.
pub open spec fn suffix_pool(bs: Seq<Bucket>, start: int) -> Seq<Record>
    decreases bs.len() - start,
{
    if start < 0 || start >= bs.len() {
        Seq::<Record>::empty()
    } else {
        bs[start].records@ + suffix_pool(bs, start + 1)
    }
}

/// The whole pool splits at `j` into a previous pool and a suffix pool.
proof fn lemma_pool_prefix_suffix(bs: Seq<Bucket>, j: int)
    requires
        0 <= j <= bs.len(),
    ensures
        pool_of(bs, bs.len() as int) == pool_of(bs, j) + suffix_pool(bs, j),
    decreases bs.len() - j,
{
    if j == bs.len() {
        assert(pool_of(bs, j) + suffix_pool(bs, j) =~= pool_of(bs, j));
    } else {
        lemma_pool_prefix_suffix(bs, j + 1);
        assert((pool_of(bs, j) + bs[j].records@) + suffix_pool(bs, j + 1) =~= pool_of(bs, j) + (
        bs[j].records@ + suffix_pool(bs, j + 1)));
    }
}

/// The whole table's records split at bucket `i` into the previous pool, the
/// bucket itself, and the suffix pool.
pub proof fn lemma_pool_split(bs: Seq<Bucket>, i: int)
    requires
        0 <= i < bs.len(),
    ensures
        pool_of(bs, bs.len() as int) == pool_of(bs, i) + bs[i].records@ + suffix_pool(bs, i + 1),
{
    lemma_pool_prefix_suffix(bs, i);
    assert(pool_of(bs, i) + (bs[i].records@ + suffix_pool(bs, i + 1)) =~= pool_of(bs, i)
        + bs[i].records@ + suffix_pool(bs, i + 1));
}

/// In a well-formed table, every record of a previous-buckets pool is well
/// formed.
proof fn lemma_pool_of_wf(bs: Seq<Bucket>, end: int)
    requires
        wf_buckets(bs),
        end <= bs.len(),
    ensures
        forall|p: int| 0 <= p < pool_of(bs, end).len() ==> wf_record(#[trigger] pool_of(bs, end)[p]),
    decreases end,
{
    if end > 0 {
        lemma_pool_of_wf(bs, end - 1);
        assert forall|p: int| 0 <= p < pool_of(bs, end).len() implies wf_record(
            #[trigger] pool_of(bs, end)[p],
        ) by {
            if p < pool_of(bs, end - 1).len() {
                assert(pool_of(bs, end)[p] == pool_of(bs, end - 1)[p]);
            } else {
                assert(pool_of(bs, end)[p] == bs[end - 1].records@[p - pool_of(bs, end - 1).len()]);
            }
        }
    }
}

/// Clones a vector of records; the copy holds the same records.
pub(crate) fn clone_records(v: &Vec<Record>) -> (out: Vec<Record>)
    ensures
        out@ == v@,
{
    let mut out: Vec<Record> = Vec::new();
    let mut j: usize = 0;
    while j < v.len()
        invariant
            0 <= j <= v@.len(),
            out@ == v@.take(j as int),
        decreases v@.len() - j,
    {
        out.push(v[j].clone());
        proof {
            assert(out@ =~= v@.take(j + 1));
        }
        j = j + 1;
    }
    proof {
        assert(v@.take(v@.len() as int) =~= v@);
    }
    out
}

/// Clones the records of `v` between `lo` and `hi`.
pub(crate) fn copy_range(v: &Vec<Record>, lo: usize, hi: usize) -> (out: Vec<Record>)
    requires
        lo <= hi <= v@.len(),
    ensures
        out@ == v@.subrange(lo as int, hi as int),
{
    let mut out: Vec<Record> = Vec::new();
    let mut j: usize = lo;
    while j < hi
        invariant
            lo <= j <= hi <= v@.len(),
            out@ == v@.subrange(lo as int, j as int),
        decreases hi - j,
    {
        out.push(v[j].clone());
        proof {
            assert(out@ =~= v@.subrange(lo as int, j + 1));
        }
        j = j + 1;
    }
    out
}

/// Flattens the records of the first `end` buckets into one pool, in order.
pub(crate) fn collect_pool(buckets: &Vec<Bucket>, end: usize) -> (out: Vec<Record>)
    requires
        end <= buckets@.len(),
    ensures
        out@ == pool_of(buckets@, end as int),
{
    let mut out: Vec<Record> = Vec::new();
    let mut j: usize = 0;
    while j < end
        invariant
            0 <= j <= end,
            end <= buckets@.len(),
            out@ == pool_of(buckets@, j as int),
        decreases end - j,
    {
        let mut cloned = clone_records(&buckets[j].records);
        out.append(&mut cloned);
        j = j + 1;
    }
    out
}

/// Sub-bucket capacity for the bucket at index `i`: `2^i`, saturated at the
/// machine word. A saturated value never changes the partition, since no
/// bucket holds more records than the machine word counts.
pub open spec fn sub_bucket_capacity_spec(i: int) -> int {
    if pow2(i as nat) > usize::MAX as int {
        usize::MAX as int
    } else {
        pow2(i as nat) as int
    }
}

/// Computes the sub-bucket capacity `2^i`, saturating at the machine word.
pub(crate) fn sub_bucket_capacity(i: usize) -> (c: usize)
    ensures
        c as int == sub_bucket_capacity_spec(i as int),
        c >= 1,
{
    proof {
        lemma_pow2_pos(i as nat);
        vstd::arithmetic::power2::lemma2_to64();
    }
    let mut c: usize = 1;
    let mut j: usize = 0;
    while j < i
        invariant
            0 <= j <= i,
            c as nat == pow2(j as nat),
            c >= 1,
        decreases i - j,
    {
        proof {
            lemma_pow2_pos(j as nat);
            vstd::arithmetic::power2::lemma_pow2(j as nat);
            vstd::arithmetic::power2::lemma_pow2((j + 1) as nat);
            vstd::arithmetic::power2::lemma_pow2(i as nat);
        }
        if c > usize::MAX / 2 {
            proof {
                lemma_pow_increases(2, (j + 1) as nat, i as nat);
                assert(pow2((j + 1) as nat) == 2 * pow2(j as nat)) by {
                    vstd::arithmetic::power2::lemma_pow2_adds(1, j as nat);
                    vstd::arithmetic::power2::lemma2_to64();
                }
                assert(pow2(i as nat) > usize::MAX as nat);
            }
            return usize::MAX;
        }
        proof {
            assert(pow2((j + 1) as nat) == 2 * pow2(j as nat)) by {
                vstd::arithmetic::power2::lemma_pow2_adds(1, j as nat);
                vstd::arithmetic::power2::lemma2_to64();
            }
        }
        c = c * 2;
        j = j + 1;
    }
    c
}

impl RoutingTable {
    /// An empty table, with no buckets.
    pub fn new() -> (t: RoutingTable)
        ensures
            t.buckets@.len() == 0,
    {
        RoutingTable { buckets: Vec::new() }
    }

    /// Appends a record to bucket `bucket_id`, creating that bucket when it is
    /// the next sequential index. Buckets must be added in order: an index
    /// further ahead is a contract violation, ruled out by the precondition.
    pub fn add_record(self, bucket_id: usize, cid: &str, multiaddr: &str) -> (t: RoutingTable)
        requires
            bucket_id <= self.buckets@.len(),
        ensures
            t.buckets@.len() == if bucket_id < self.buckets@.len() {
                self.buckets@.len()
            } else {
                self.buckets@.len() + 1
            },
            forall|q: int|
                0 <= q < self.buckets@.len() && q != bucket_id ==> #[trigger] t.buckets@[q]
                    == self.buckets@[q],
            t.buckets@[bucket_id as int].records@.len() == if bucket_id < self.buckets@.len() {
                self.buckets@[bucket_id as int].records@.len() + 1
            } else {
                1nat
            },
            bucket_id < self.buckets@.len() ==> t.buckets@[bucket_id as int].records@.drop_last()
                == self.buckets@[bucket_id as int].records@,
            rec_matches(t.buckets@[bucket_id as int].records@.last(), cid@, multiaddr@),
    {
        let mut bs = self.buckets;
        if bucket_id < bs.len() {
            let ghost before = bs@;
            let mut b = bs.remove(bucket_id);
            b.records.push(Record::new(cid, multiaddr));
            proof {
                assert(b.records@.drop_last() =~= before[bucket_id as int].records@);
            }
            bs.insert(bucket_id, b);
            proof {
                assert forall|q: int|
                    0 <= q < before.len() && q != bucket_id implies #[trigger] bs@[q] == before[q] by {
                    if q < bucket_id {
                        assert(bs@[q] == before.remove(bucket_id as int).insert(bucket_id as int, b)[q]);
                    }
                }
            }
        } else {
            bs.push(Bucket::new().add(cid, multiaddr));
        }
        RoutingTable { buckets: bs }
    }

    /// Appends a record as `add_record` does, returning an `OutOfBounds`
    /// error exactly when `bucket_id` lies more than one past the last
    /// bucket.
    pub fn try_add_record(self, bucket_id: usize, cid: &str, multiaddr: &str) -> (r: Result<
        RoutingTable,
        TableError,
    >)
        ensures
            bucket_id <= self.buckets@.len() ==> r is Ok,
            bucket_id > self.buckets@.len() ==> r == Result::<RoutingTable, TableError>::Err(
                TableError::OutOfBounds,
            ),
            r is Ok ==> {
                let t = r->Ok_0;
                &&& t.buckets@.len() == if bucket_id < self.buckets@.len() {
                    self.buckets@.len()
                } else {
                    self.buckets@.len() + 1
                }
                &&& forall|q: int|
                    0 <= q < self.buckets@.len() && q != bucket_id ==> #[trigger] t.buckets@[q]
                        == self.buckets@[q]
                &&& t.buckets@[bucket_id as int].records@.len() == if bucket_id
                    < self.buckets@.len() {
                    self.buckets@[bucket_id as int].records@.len() + 1
                } else {
                    1nat
                }
                &&& (bucket_id < self.buckets@.len()
                    ==> t.buckets@[bucket_id as int].records@.drop_last()
                    == self.buckets@[bucket_id as int].records@)
                &&& rec_matches(t.buckets@[bucket_id as int].records@.last(), cid@, multiaddr@)
            },
    {
        if bucket_id > self.buckets.len() {
            Err(TableError::OutOfBounds)
        } else {
            Ok(self.add_record(bucket_id, cid, multiaddr))
        }
    }
}

/// What the sub-bucketing step yields from an over-full donor bucket `recs`
/// when `need` more records are wanted (`0 < need < recs.len()`): the records
/// sorted by ascending distance, whole sub-buckets of `chunk` records taken
/// in order, and the remainder drawn without replacement from the first
/// sub-bucket that does not fit whole.
pub open spec fn closest_taken(
    out: Seq<Record>,
    recs: Seq<Record>,
    need: int,
    chunk: int,
    local: usize,
) -> bool {
    let sorted = sort_by_dist_spec(recs, local);
    let full = need - (need % chunk);
    let hi = if full + chunk <= sorted.len() {
        full + chunk
    } else {
        sorted.len() as int
    };
    &&& out.len() == need
    &&& out.subrange(0, full) == sorted.subrange(0, full)
    &&& (need % chunk == 0 ==> out == sorted.subrange(0, need))
    &&& (need % chunk != 0 ==> picks_without_replacement(
        out.subrange(full, need),
        sorted.subrange(full, hi),
    ))
}

/// Takes `need` records from an over-full donor bucket: sorts it by ascending
/// distance, takes whole sub-buckets of `chunk` records while they fit, and
/// samples the remainder from the next sub-bucket. When the need is a whole
/// number of sub-buckets the result is deterministic and the random source is
/// left untouched.
pub(crate) fn take_closest(
    rand: &mut SplitMix64,
    need: usize,
    records: &Vec<Record>,
    chunk: usize,
    local: usize,
) -> (out: Vec<Record>)
    requires
        1 <= need < records@.len(),
        chunk >= 1,
        forall|j: int| 0 <= j < records@.len() ==> wf_record(#[trigger] records@[j]),
    ensures
        closest_taken(out@, records@, need as int, chunk as int, local),
        out@.len() == need,
        need % chunk == 0 ==> *final(rand) == *old(rand),
{
    let sorted = sort_records_by_dist(records, local);
    let mut out: Vec<Record> = Vec::new();
    let mut taken: usize = 0;
    while chunk <= need - taken
        invariant
            0 <= taken <= need,
            taken % chunk == 0,
            chunk >= 1,
            need < records@.len(),
            sorted@ == sort_by_dist_spec(records@, local),
            sorted@.len() == records@.len(),
            out@ == sorted@.subrange(0, taken as int),
            out@.len() == taken,
        decreases need - taken,
    {
        let mut j: usize = taken;
        let hi = taken + chunk;
        while j < hi
            invariant
                taken <= j <= hi,
                hi == taken + chunk,
                hi <= need,
                need < sorted@.len(),
                out@ == sorted@.subrange(0, j as int),
                out@.len() == j,
            decreases hi - j,
        {
            out.push(sorted[j].clone());
            proof {
                assert(out@ =~= sorted@.subrange(0, j + 1));
            }
            j = j + 1;
        }
        proof {
            vstd::arithmetic::div_mod::lemma_mod_adds(taken as int, chunk as int, chunk as int);
            vstd::arithmetic::div_mod::lemma_mod_self_0(chunk as int);
        }
        taken = taken + chunk;
    }
    proof {
        vstd::arithmetic::div_mod::lemma_fundamental_div_mod(taken as int, chunk as int);
        vstd::arithmetic::div_mod::lemma_fundamental_div_mod_converse(
            need as int,
            chunk as int,
            taken as int / chunk as int,
            need - taken,
        );
        assert(need as int % chunk as int == need - taken);
    }
    if taken < need {
        let rem = need - taken;
        let hi2 = if sorted.len() - taken <= chunk {
            sorted.len()
        } else {
            taken + chunk
        };
        let boundary = copy_range(&sorted, taken, hi2);
        let picked = pick_at_random_from_records(rand, rem, boundary);
        let ghost picked_view = picked@;
        let ghost out_before = out@;
        let mut picked_mut = picked;
        out.append(&mut picked_mut);
        proof {
            assert(out@.subrange(0, taken as int) =~= out_before);
            assert(out@.subrange(taken as int, need as int) =~= picked_view);
        }
        proof {
            assert(out@.subrange(0, need as int) =~= out@);
        }
        out
    } else {
        proof {
            assert(out@ =~= sorted@.subrange(0, need as int));
            assert(out@.subrange(0, need as int) =~= out@);
        }
        out
    }
}

/// How the borrow-from-next step fills a remaining need of `n` from the
/// buckets at `start` and beyond: each donor bucket that fits whole is taken
/// whole, in index order, and the first one that does not fit whole is
/// sub-bucketed by `closest_taken`.
pub open spec fn next_ok(
    part: Seq<Record>,
    bs: Seq<Bucket>,
    start: int,
    n: int,
    chunk: int,
    local: usize,
) -> bool
    decreases bs.len() - start,
{
    if n <= 0 || start < 0 || start >= bs.len() {
        part == Seq::<Record>::empty()
    } else if bs[start].records@.len() <= n {
        let blen = bs[start].records@.len() as int;
        &&& part.len() >= blen
        &&& part.take(blen) == bs[start].records@
        &&& next_ok(part.skip(blen), bs, start + 1, n - blen, chunk, local)
    } else {
        closest_taken(part, bs[start].records@, n, chunk, local)
    }
}

/// One unfolding step of `next_ok`: a donor bucket that fits whole, followed
/// by a valid remainder, is a valid borrow-from-next result.
proof fn lemma_next_ok_step(
    part: Seq<Record>,
    bs: Seq<Bucket>,
    start: int,
    n: int,
    chunk: int,
    local: usize,
    rest: Seq<Record>,
)
    requires
        0 <= start < bs.len(),
        n > 0,
        bs[start].records@.len() <= n,
        part == bs[start].records@ + rest,
        next_ok(rest, bs, start + 1, n - bs[start].records@.len(), chunk, local),
    ensures
        next_ok(part, bs, start, n, chunk, local),
{
    let blen = bs[start].records@.len() as int;
    assert(part.take(blen) =~= bs[start].records@);
    assert(part.skip(blen) =~= rest);
}

/// Borrows up to `n` records from the buckets at `start` and beyond. Where
/// those buckets together hold no more than `n` records, the whole suffix
/// pool is taken in order and the random source is left untouched.
pub(crate) fn borrow_from_next(
    rand: &mut SplitMix64,
    n: usize,
    buckets: &Vec<Bucket>,
    start: usize,
    chunk: usize,
    local: usize,
) -> (out: Vec<Record>)
    requires
        chunk >= 1,
        wf_buckets(buckets@),
    ensures
        next_ok(out@, buckets@, start as int, n as int, chunk as int, local),
        out@.len() == vstd::math::min(n as int, suffix_pool(buckets@, start as int).len() as int),
        n == 0 ==> *final(rand) == *old(rand),
        suffix_pool(buckets@, start as int).len() <= n ==> *final(rand) == *old(rand) && out@
            == suffix_pool(buckets@, start as int),
    decreases buckets@.len() - start,
{
    if n == 0 || start >= buckets.len() {
        let out: Vec<Record> = Vec::new();
        proof {
            assert(out@ =~= Seq::<Record>::empty());
        }
        out
    } else {
        let blen = buckets[start].records.len();
        if blen <= n {
            let mut out = clone_records(&buckets[start].records);
            let mut rest = borrow_from_next(rand, n - blen, buckets, start + 1, chunk, local);
            let ghost rest_view = rest@;
            out.append(&mut rest);
            proof {
                assert(out@ == buckets@[start as int].records@ + rest_view);
                lemma_next_ok_step(
                    out@,
                    buckets@,
                    start as int,
                    n as int,
                    chunk as int,
                    local,
                    rest_view,
                );
                if suffix_pool(buckets@, start as int).len() <= n {
                    assert(out@ =~= suffix_pool(buckets@, start as int));
                }
            }
            out
        } else {
            proof {
                assert forall|jj: int|
                    0 <= jj < buckets@[start as int].records@.len() implies wf_record(
                    #[trigger] buckets@[start as int].records@[jj],
                ) by {}
            }
            let out = take_closest(rand, n, &buckets[start].records, chunk, local);
            proof {
                assert(suffix_pool(buckets@, start as int).len() >= blen);
            }
            out
        }
    }
}

/// A valid borrow-from-next result has exactly `min(n, suffix pool)` records.
pub proof fn lemma_next_ok_len(
    part: Seq<Record>,
    bs: Seq<Bucket>,
    start: int,
    n: int,
    chunk: int,
    local: usize,
)
    requires
        next_ok(part, bs, start, n, chunk, local),
        n >= 0,
        chunk >= 1,
    ensures
        part.len() == vstd::math::min(n, suffix_pool(bs, start).len() as int),
    decreases bs.len() - start,
{
    if n <= 0 || start < 0 || start >= bs.len() {
    } else if bs[start].records@.len() <= n {
        let blen = bs[start].records@.len() as int;
        lemma_next_ok_len(part.skip(blen), bs, start + 1, n - blen, chunk, local);
    } else {
        assert(suffix_pool(bs, start).len() >= bs[start].records@.len());
    }
}

/// Borrows up to `n` records from a candidate pool: the whole pool, in order,
/// where it is no larger than the need (no randomness consumed), else `n`
/// records chosen uniformly at random without replacement.
pub(crate) fn borrow_from_pool(rand: &mut SplitMix64, n: usize, pool: Vec<Record>) -> (out: Vec<
    Record>)
    ensures
        out@.len() == vstd::math::min(n as int, pool@.len() as int),
        n == 0 ==> *final(rand) == *old(rand) && out@ == Seq::<Record>::empty(),
        n > 0 && pool@.len() <= n ==> *final(rand) == *old(rand) && out@ == pool@,
        pool@.len() > n ==> picks_without_replacement(out@, pool@),
{
    broadcast use vstd::seq_lib::group_to_multiset_ensures;

    if n == 0 {
        let out: Vec<Record> = Vec::new();
        proof {
            assert(out@ =~= Seq::<Record>::empty());
            assert(out@.to_multiset().subset_of(pool@.to_multiset()));
        }
        out
    } else if pool.len() <= n {
        pool
    } else {
        pick_at_random_from_records(rand, n, pool)
    }
}

/// Collects all records of the previous buckets, in index order, and borrows
/// up to `n` of them: all of them where the pool is no larger than the need,
/// else `n` chosen uniformly at random without replacement.
pub fn get_records_from_previous_buckets(
    rand: &mut SplitMix64,
    n: usize,
    previous_buckets: &Vec<Bucket>,
) -> (out: Vec<Record>)
    ensures
        out@.len() == vstd::math::min(
            n as int,
            pool_of(previous_buckets@, previous_buckets@.len() as int).len() as int,
        ),
        n == 0 ==> *final(rand) == *old(rand) && out@ == Seq::<Record>::empty(),
        n > 0 && pool_of(previous_buckets@, previous_buckets@.len() as int).len() <= n
            ==> *final(rand) == *old(rand) && out@ == pool_of(
            previous_buckets@,
            previous_buckets@.len() as int,
        ),
        pool_of(previous_buckets@, previous_buckets@.len() as int).len() > n
            ==> picks_without_replacement(
            out@,
            pool_of(previous_buckets@, previous_buckets@.len() as int),
        ),
{
    let pool = collect_pool(previous_buckets, previous_buckets.len());
    borrow_from_pool(rand, n, pool)
}

/// Borrows up to `n` records from the given buckets in index order: a bucket
/// that fits whole within the remaining need is taken whole; the first that
/// does not is sorted by ascending distance to the own node and sub-bucketed
/// into chunks of `own_bucket_max_size` records.
pub fn get_records_from_next_buckets(
    rand: &mut SplitMix64,
    n: usize,
    next_buckets: &Vec<Bucket>,
    own_bucket_max_size: usize,
) -> (out: Vec<Record>)
    requires
        own_bucket_max_size >= 1,
        wf_buckets(next_buckets@),
    ensures
        next_ok(out@, next_buckets@, 0, n as int, own_bucket_max_size as int, local_id_value()),
        out@.len() == vstd::math::min(n as int, suffix_pool(next_buckets@, 0).len() as int),
        n == 0 ==> *final(rand) == *old(rand),
        suffix_pool(next_buckets@, 0).len() <= n ==> *final(rand) == *old(rand) && out@
            == suffix_pool(next_buckets@, 0),
{
    proof {
        lemma_local_id_wf();
    }
    let local = bit_string_value(own_node_id());
    borrow_from_next(rand, n, next_buckets, 0, own_bucket_max_size, local)
}

/// How records are chosen from an over-full previous-buckets pool.
pub enum BorrowPolicy {
    /// Uniformly at random without replacement, via the random source.
    UniformRandom,
    /// Closest by XOR distance first, sub-bucketed as next-bucket overflow is.
    ClosestFirst,
}

/// The contract of one normalized bucket `i`: a bucket already at the target
/// capacity `k` is passed through unchanged; otherwise its own records come
/// first, then records borrowed from the previous buckets' pool (whole where
/// it fits the need, else per the policy), then records borrowed from the
/// next buckets.
pub open spec fn bucket_normalized(
    bs: Seq<Bucket>,
    i: int,
    out: Seq<Record>,
    policy: BorrowPolicy,
    k: int,
    local: usize,
) -> bool {
    let own = bs[i].records@;
    let chunk = sub_bucket_capacity_spec(i);
    if own.len() >= k {
        out == own
    } else {
        let need = k - own.len();
        let prev = pool_of(bs, i);
        if prev.len() <= need {
            let head = own + prev;
            &&& out.len() >= head.len()
            &&& out.take(head.len() as int) == head
            &&& next_ok(out.skip(head.len() as int), bs, i + 1, need - prev.len(), chunk, local)
        } else {
            &&& out.len() == k
            &&& out.take(own.len() as int) == own
            &&& match policy {
                BorrowPolicy::UniformRandom => picks_without_replacement(
                    out.skip(own.len() as int),
                    prev,
                ),
                BorrowPolicy::ClosestFirst => closest_taken(
                    out.skip(own.len() as int),
                    prev,
                    need,
                    chunk,
                    local,
                ),
            }
        }
    }
}

/// Capacity law: a normalized bucket that started under the target `k` holds
/// exactly `min(k, all records of the table)`; one at or above `k` is
/// unchanged; none that started at or under `k` ends above it.
pub proof fn lemma_bucket_normalized_len(
    bs: Seq<Bucket>,
    i: int,
    out: Seq<Record>,
    policy: BorrowPolicy,
    k: int,
    local: usize,
)
    requires
        0 <= i < bs.len(),
        bucket_normalized(bs, i, out, policy, k, local),
    ensures
        bs[i].records@.len() < k ==> out.len() == vstd::math::min(
            k,
            pool_of(bs, bs.len() as int).len() as int,
        ),
        bs[i].records@.len() >= k ==> out == bs[i].records@,
        bs[i].records@.len() <= k ==> out.len() <= k,
{
    lemma_pow2_pos(i as nat);
    lemma_pool_split(bs, i);
    let own = bs[i].records@;
    let total = pool_of(bs, bs.len() as int);
    assert(total.len() == pool_of(bs, i).len() + own.len() + suffix_pool(bs, i + 1).len());
    if own.len() < k {
        let need = k - own.len();
        let prev = pool_of(bs, i);
        if prev.len() <= need {
            let head = own + prev;
            lemma_next_ok_len(
                out.skip(head.len() as int),
                bs,
                i + 1,
                need - prev.len(),
                sub_bucket_capacity_spec(i),
                local,
            );
        }
    }
}

/// The full normalization contract against a source table `bs`: the same
/// number of buckets, each normalized per `bucket_normalized`; every bucket
/// that was at or above the target capacity is unchanged; every bucket that
/// was under it now holds `min(k, all records of the table)`.
pub open spec fn normalized_from(
    t: RoutingTable,
    bs: Seq<Bucket>,
    policy: BorrowPolicy,
    k: int,
    local: usize,
) -> bool {
    &&& t.buckets@.len() == bs.len()
    &&& forall|i: int|
        0 <= i < bs.len() ==> bucket_normalized(
            bs,
            i,
            #[trigger] t.buckets@[i].records@,
            policy,
            k,
            local,
        )
    &&& forall|i: int|
        0 <= i < bs.len() && bs[i].records@.len() < k ==> #[trigger] t.buckets@[i].records@.len()
            == vstd::math::min(k, pool_of(bs, bs.len() as int).len() as int)
    &&& forall|i: int|
        0 <= i < bs.len() && bs[i].records@.len() >= k ==> #[trigger] t.buckets@[i].records@
            == bs[i].records@
    &&& forall|i: int|
        0 <= i < bs.len() && bs[i].records@.len() <= k ==> #[trigger] t.buckets@[i].records@.len()
            <= k
}

impl RoutingTable {
    /// Normalizes every bucket against this table's contents, with the given
    /// borrow policy, target capacity `k`, and local identifier value. All
    /// borrowing reads the original table, never an already-normalized
    /// bucket; the input is not mutated. A table whose buckets were all at or
    /// above capacity comes back unchanged.
    pub fn normalize_with(
        self,
        rand: &mut SplitMix64,
        policy: BorrowPolicy,
        k: usize,
        local: usize,
    ) -> (t: RoutingTable)
        requires
            wf_buckets(self.buckets@),
        ensures
            normalized_from(t, self.buckets@, policy, k as int, local),
            (forall|i: int|
                0 <= i < self.buckets@.len() ==> #[trigger] self.buckets@[i].records@.len()
                    >= k) ==> tables_match(t, self),
    {
        let ghost bs = self.buckets@;
        let n = self.buckets.len();
        let mut out: Vec<Bucket> = Vec::new();
        let mut idx: usize = 0;
        while idx < n
            invariant
                n == bs.len(),
                bs == self.buckets@,
                wf_buckets(bs),
                0 <= idx <= n,
                out@.len() == idx,
                forall|t: int|
                    0 <= t < idx ==> bucket_normalized(
                        bs,
                        t,
                        #[trigger] out@[t].records@,
                        policy,
                        k as int,
                        local,
                    ),
            decreases n - idx,
        {
            let ghost out_prev = out@;
            let own_len = self.buckets[idx].records.len();
            let ghost own = bs[idx as int].records@;
            if own_len >= k {
                let cloned = clone_records(&self.buckets[idx].records);
                out.push(Bucket { records: cloned });
            } else {
                let need = k - own_len;
                let chunk = sub_bucket_capacity(idx);
                let pool = collect_pool(&self.buckets, idx);
                let ghost pool_view = pool@;
                let mut recs = clone_records(&self.buckets[idx].records);
                if pool.len() <= need {
                    let pl = pool.len();
                    let mut pool_mut = pool;
                    recs.append(&mut pool_mut);
                    let mut rest = borrow_from_next(
                        rand,
                        need - pl,
                        &self.buckets,
                        idx + 1,
                        chunk,
                        local,
                    );
                    let ghost rest_view = rest@;
                    recs.append(&mut rest);
                    proof {
                        let head = own + pool_view;
                        assert(recs@.take(head.len() as int) =~= head);
                        assert(recs@.skip(head.len() as int) =~= rest_view);
                        assert(bucket_normalized(bs, idx as int, recs@, policy, k as int, local));
                    }
                    out.push(Bucket { records: recs });
                } else {
                    match policy {
                        BorrowPolicy::UniformRandom => {
                            let picked = pick_at_random_from_records(rand, need, pool);
                            let ghost picked_view = picked@;
                            let mut picked_mut = picked;
                            recs.append(&mut picked_mut);
                            proof {
                                assert(recs@.take(own.len() as int) =~= own);
                                assert(recs@.skip(own.len() as int) =~= picked_view);
                                assert(bucket_normalized(
                                    bs,
                                    idx as int,
                                    recs@,
                                    policy,
                                    k as int,
                                    local,
                                ));
                            }
                        },
                        BorrowPolicy::ClosestFirst => {
                            proof {
                                lemma_pool_of_wf(bs, idx as int);
                            }
                            let picked = take_closest(rand, need, &pool, chunk, local);
                            let ghost picked_view = picked@;
                            let mut picked_mut = picked;
                            recs.append(&mut picked_mut);
                            proof {
                                assert(recs@.take(own.len() as int) =~= own);
                                assert(recs@.skip(own.len() as int) =~= picked_view);
                                assert(bucket_normalized(
                                    bs,
                                    idx as int,
                                    recs@,
                                    policy,
                                    k as int,
                                    local,
                                ));
                            }
                        },
                    }
                    out.push(Bucket { records: recs });
                }
            }
            proof {
                assert forall|t: int| 0 <= t < idx + 1 implies bucket_normalized(
                    bs,
                    t,
                    #[trigger] out@[t].records@,
                    policy,
                    k as int,
                    local,
                ) by {
                    if t < idx {
                        assert(out@[t] == out_prev[t]);
                    }
                }
            }
            idx = idx + 1;
        }
        proof {
            assert forall|i: int| 0 <= i < n implies {
                &&& (bs[i].records@.len() < k as int ==> #[trigger] out@[i].records@.len()
                    == vstd::math::min(k as int, pool_of(bs, bs.len() as int).len() as int))
                &&& (bs[i].records@.len() >= k as int ==> out@[i].records@ == bs[i].records@)
                &&& (bs[i].records@.len() <= k as int ==> out@[i].records@.len() <= k as int)
            } by {
                lemma_bucket_normalized_len(bs, i, out@[i].records@, policy, k as int, local);
            }
        }
        RoutingTable { buckets: out }
    }

    /// Normalizes with the uniform-random borrow policy, the default target
    /// capacity `K`, and the own node identifier: every bucket short of `K`
    /// records is filled from the previous buckets' pool and then from the
    /// next buckets, as the bucket-normalization rules say.
    pub fn normalize(self, rand: &mut SplitMix64) -> (t: RoutingTable)
        requires
            wf_buckets(self.buckets@),
        ensures
            normalized_from(
                t,
                self.buckets@,
                BorrowPolicy::UniformRandom,
                K as int,
                local_id_value(),
            ),
            (forall|i: int|
                0 <= i < self.buckets@.len() ==> #[trigger] self.buckets@[i].records@.len()
                    >= K) ==> tables_match(t, self),
    {
        proof {
            lemma_local_id_wf();
        }
        let local = bit_string_value(own_node_id());
        self.normalize_with(rand, BorrowPolicy::UniformRandom, K, local)
    }

    /// Normalizes exactly as `normalize` does.
    pub fn normalize2(self, rand: &mut SplitMix64) -> (t: RoutingTable)
        requires
            wf_buckets(self.buckets@),
        ensures
            normalized_from(
                t,
                self.buckets@,
                BorrowPolicy::UniformRandom,
                K as int,
                local_id_value(),
            ),
            (forall|i: int|
                0 <= i < self.buckets@.len() ==> #[trigger] self.buckets@[i].records@.len()
                    >= K) ==> tables_match(t, self),
    {
        self.normalize(rand)
    }

    /// Normalizes as `normalize` does after checking every identifier, and
    /// returns a `MalformedIdentifier` error, touching nothing, exactly when
    /// some record's identifier does not parse as a bit string.
    pub fn try_normalize(self, rand: &mut SplitMix64) -> (r: Result<RoutingTable, TableError>)
        ensures
            wf_buckets(self.buckets@) ==> r is Ok,
            !wf_buckets(self.buckets@) ==> r == Result::<RoutingTable, TableError>::Err(
                TableError::MalformedIdentifier,
            ) && *final(rand) == *old(rand),
            r is Ok ==> normalized_from(
                r->Ok_0,
                self.buckets@,
                BorrowPolicy::UniformRandom,
                K as int,
                local_id_value(),
            ),
    {
        if buckets_are_wf(&self.buckets) {
            Ok(self.normalize(rand))
        } else {
            Err(TableError::MalformedIdentifier)
        }
    }
}

/// Decides whether every record of every bucket has a well-formed identifier.
fn buckets_are_wf(buckets: &Vec<Bucket>) -> (b: bool)
    ensures
        b == wf_buckets(buckets@),
{
    let mut i: usize = 0;
    while i < buckets.len()
        invariant
            0 <= i <= buckets@.len(),
            forall|p: int, q: int|
                0 <= p < i && 0 <= q < buckets@[p].records@.len() ==> wf_record(
                    #[trigger] buckets@[p].records@[q],
                ),
        decreases buckets@.len() - i,
    {
        let mut j: usize = 0;
        while j < buckets[i].records.len()
            invariant
                i < buckets@.len(),
                0 <= j <= buckets@[i as int].records@.len(),
                forall|q: int|
                    0 <= q < j ==> wf_record(#[trigger] buckets@[i as int].records@[q]),
            decreases buckets@[i as int].records@.len() - j,
        {
            if !is_valid_id(buckets[i].records[j].cid.as_str()) {
                assert(!wf_record(buckets@[i as int].records@[j as int]));
                return false;
            }
            j = j + 1;
        }
        i = i + 1;
    }
    true
}


/// Closest-first law: under `closest_taken`, the records taken as whole
/// sub-buckets form the deterministic prefix, stand in ascending distance
/// order, and lie no further from the own node than anything the boundary
/// sub-bucket, where random sampling may occur, could contribute.
pub proof fn lemma_closest_taken_prefix_sorted(
    out: Seq<Record>,
    recs: Seq<Record>,
    need: int,
    chunk: int,
    local: usize,
)
    requires
        closest_taken(out, recs, need, chunk, local),
        0 < need < recs.len(),
        chunk >= 1,
    ensures
        forall|p: int, q: int|
            0 <= p < q < need - need % chunk ==> rec_dist(#[trigger] out[p], local) <= rec_dist(
                #[trigger] out[q],
                local,
            ),
        forall|p: int, q: int|
            0 <= p < need - need % chunk && need - need % chunk <= q < sort_by_dist_spec(
                recs,
                local,
            ).len() ==> rec_dist(#[trigger] out[p], local) <= rec_dist(
                #[trigger] sort_by_dist_spec(recs, local)[q],
                local,
            ),
{
    let sorted = sort_by_dist_spec(recs, local);
    let full = need - need % chunk;
    crate::sorting::lemma_sort_by_dist_len(recs, local);
    crate::sorting::lemma_sort_by_dist_sorted(recs, local);
    assert(0 <= need % chunk);
    assert(full <= need);
    assert forall|p: int| 0 <= p < full implies #[trigger] out[p] == sorted[p] by {
        assert(out.subrange(0, full)[p] == out[p]);
        assert(sorted.subrange(0, full)[p] == sorted[p]);
    }
}

} // verus!
