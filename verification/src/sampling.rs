//! Uniform random sampling without replacement from a pool of records.

use vstd::prelude::*;
use crate::record::Record;
use crate::rng::draw_index;
use vstd::multiset::Multiset;
use rand_xoshiro::SplitMix64;

verus! {

/// `out` draws each of its elements from `pool` without replacement: no
/// record is taken more often than the pool holds it.
pub open spec fn picks_without_replacement(out: Seq<Record>, pool: Seq<Record>) -> bool {
    out.to_multiset().subset_of(pool.to_multiset())
}

/// Chooses `n` records from `records` uniformly at random without
/// replacement, in the order drawn. With `n == 0` the random source is left
/// untouched.
pub(crate) fn pick_at_random_from_records(rand: &mut SplitMix64, n: usize, records: Vec<Record>) -> (out: Vec<
    Record>)
    requires
        n <= records@.len(),
    ensures
        out@.len() == n,
        picks_without_replacement(out@, records@),
        n == 0 ==> *final(rand) == *old(rand) && out@ == Seq::<Record>::empty(),
{
    broadcast use vstd::seq_lib::group_to_multiset_ensures;

    let mut pool = records;
    let mut out: Vec<Record> = Vec::new();
    if n == 0 {
        proof {
            assert(out@.to_multiset() =~= Multiset::<Record>::empty());
            assert(out@ =~= Seq::<Record>::empty());
        }
        return out;
    }
    let ghost all = pool@;
    while out.len() < n
        invariant
            out@.len() <= n,
            n <= all.len(),
            out@.len() + pool@.len() == all.len(),
            out@.to_multiset().add(pool@.to_multiset()) == all.to_multiset(),
        decreases n - out@.len(),
    {
        let i = draw_index(rand, pool.len());
        let ghost pool_before = pool@;
        let ghost out_before = out@;
        let r = pool.remove(i);
        out.push(r);
        proof {
            broadcast use vstd::seq_lib::group_to_multiset_ensures;

            assert(pool@ == pool_before.remove(i as int));
            assert(pool_before.remove(i as int).to_multiset() =~= pool_before.to_multiset().remove(
                r,
            ));
            assert(out@ == out_before.push(r));
            assert(out_before.push(r).to_multiset() =~= out_before.to_multiset().insert(r));
            assert(pool_before.to_multiset().count(r) >= 1) by {
                assert(pool_before.contains(r));
            }
            assert(out@.to_multiset().add(pool@.to_multiset()) =~= all.to_multiset());
        }
    }
    proof {
        assert forall|x: Record| out@.to_multiset().count(x) <= records@.to_multiset().count(
            x,
        ) by {
            assert(all.to_multiset().count(x) == out@.to_multiset().count(x)
                + pool@.to_multiset().count(x));
        }
    }
    out
}

} // verus!
