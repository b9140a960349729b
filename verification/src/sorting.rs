//! Ordering a donor bucket's records by ascending XOR distance to the local
//! node, as the sub-bucketing step requires.

use vstd::prelude::*;
use crate::record::{rec_dist, wf_record, Record};

verus! {

/// Inserts `r` into `s` before the first record at a strictly greater
/// distance, so after any records at an equal distance: a stable insertion.
pub open spec fn insert_by_dist(s: Seq<Record>, r: Record, local: usize) -> Seq<Record>
    decreases s.len(),
{
    if s.len() == 0 {
        seq![r]
    } else if rec_dist(r, local) < rec_dist(s[0], local) {
        seq![r] + s
    } else {
        seq![s[0]] + insert_by_dist(s.drop_first(), r, local)
    }
}

/// Stable insertion sort of records by ascending XOR distance to `local`.
pub open spec fn sort_by_dist_spec(s: Seq<Record>, local: usize) -> Seq<Record>
    decreases s.len(),
{
    if s.len() == 0 {
        Seq::<Record>::empty()
    } else {
        insert_by_dist(sort_by_dist_spec(s.drop_last(), local), s.last(), local)
    }
}

/// A stable insertion adds exactly one record.
pub proof fn lemma_insert_by_dist_len(s: Seq<Record>, r: Record, local: usize)
    ensures
        insert_by_dist(s, r, local).len() == s.len() + 1,
    decreases s.len(),
{
    if s.len() > 0 && !(rec_dist(r, local) < rec_dist(s[0], local)) {
        lemma_insert_by_dist_len(s.drop_first(), r, local);
    }
}

/// Sorting keeps the number of records.
pub proof fn lemma_sort_by_dist_len(s: Seq<Record>, local: usize)
    ensures
        sort_by_dist_spec(s, local).len() == s.len(),
    decreases s.len(),
{
    if s.len() > 0 {
        lemma_sort_by_dist_len(s.drop_last(), local);
        lemma_insert_by_dist_len(sort_by_dist_spec(s.drop_last(), local), s.last(), local);
    }
}

/// Where a scan finds the first position `j` whose record lies strictly
/// further than `r`, the stable insertion is exactly an insertion at `j`.
proof fn lemma_insert_by_dist_at(s: Seq<Record>, r: Record, local: usize, j: int)
    requires
        0 <= j <= s.len(),
        forall|p: int| 0 <= p < j ==> rec_dist(#[trigger] s[p], local) <= rec_dist(r, local),
        j == s.len() || rec_dist(s[j], local) > rec_dist(r, local),
    ensures
        insert_by_dist(s, r, local) == s.insert(j, r),
    decreases s.len(),
{
    if s.len() == 0 {
        assert(insert_by_dist(s, r, local) =~= s.insert(0, r));
    } else if rec_dist(r, local) < rec_dist(s[0], local) {
        assert(j == 0);
        assert(seq![r] + s =~= s.insert(0, r));
    } else {
        assert(j >= 1);
        lemma_insert_by_dist_at(s.drop_first(), r, local, j - 1);
        assert(seq![s[0]] + s.drop_first().insert(j - 1, r) =~= s.insert(j, r));
    }
}

/// The sorted sequence is ascending by distance.
pub proof fn lemma_sort_by_dist_sorted(s: Seq<Record>, local: usize)
    ensures
        forall|p: int, q: int|
            0 <= p < q < sort_by_dist_spec(s, local).len() ==> rec_dist(
                #[trigger] sort_by_dist_spec(s, local)[p],
                local,
            ) <= rec_dist(#[trigger] sort_by_dist_spec(s, local)[q], local),
    decreases s.len(),
{
    if s.len() > 0 {
        lemma_sort_by_dist_sorted(s.drop_last(), local);
        lemma_insert_sorted(sort_by_dist_spec(s.drop_last(), local), s.last(), local);
    }
}

/// A stable insertion into an ascending sequence stays ascending.
proof fn lemma_insert_sorted(s: Seq<Record>, r: Record, local: usize)
    requires
        forall|p: int, q: int|
            0 <= p < q < s.len() ==> rec_dist(#[trigger] s[p], local) <= rec_dist(
                #[trigger] s[q],
                local,
            ),
    ensures
        forall|p: int, q: int|
            0 <= p < q < insert_by_dist(s, r, local).len() ==> rec_dist(
                #[trigger] insert_by_dist(s, r, local)[p],
                local,
            ) <= rec_dist(#[trigger] insert_by_dist(s, r, local)[q], local),
    decreases s.len(),
{
    lemma_insert_by_dist_len(s, r, local);
    if s.len() == 0 {
    } else if rec_dist(r, local) < rec_dist(s[0], local) {
        let t = seq![r] + s;
        assert forall|p: int, q: int| 0 <= p < q < t.len() implies rec_dist(
            #[trigger] t[p],
            local,
        ) <= rec_dist(#[trigger] t[q], local) by {
            if p == 0 && q >= 1 {
                assert(t[q] == s[q - 1]);
                if q >= 2 {
                    assert(rec_dist(s[0], local) <= rec_dist(s[q - 1], local));
                }
            }
        }
    } else {
        let tail = s.drop_first();
        assert forall|p: int, q: int|
            0 <= p < q < tail.len() implies rec_dist(#[trigger] tail[p], local) <= rec_dist(
            #[trigger] tail[q],
            local,
        ) by {
            assert(tail[p] == s[p + 1]);
            assert(tail[q] == s[q + 1]);
        }
        lemma_insert_sorted(tail, r, local);
        let it = insert_by_dist(tail, r, local);
        let t = seq![s[0]] + it;
        lemma_insert_by_dist_len(tail, r, local);
        assert forall|p: int, q: int| 0 <= p < q < t.len() implies rec_dist(
            #[trigger] t[p],
            local,
        ) <= rec_dist(#[trigger] t[q], local) by {
            if p == 0 {
                assert(t[q] == it[q - 1]);
                lemma_insert_head_ge(tail, r, local, s, q - 1);
            } else {
                assert(t[p] == it[p - 1]);
                assert(t[q] == it[q - 1]);
            }
        }
    }
}

/// Every element of `insert_by_dist(s.drop_first(), r)` lies at least as far
/// as `s`'s head, when the head is no further than `r` and `s` is ascending.
proof fn lemma_insert_head_ge(tail: Seq<Record>, r: Record, local: usize, s: Seq<Record>, q: int)
    requires
        tail == s.drop_first(),
        s.len() >= 1,
        rec_dist(s[0], local) <= rec_dist(r, local),
        forall|p: int, qq: int|
            0 <= p < qq < s.len() ==> rec_dist(#[trigger] s[p], local) <= rec_dist(
                #[trigger] s[qq],
                local,
            ),
        0 <= q < insert_by_dist(tail, r, local).len(),
    ensures
        rec_dist(s[0], local) <= rec_dist(insert_by_dist(tail, r, local)[q], local),
    decreases tail.len(),
{
    lemma_insert_by_dist_len(tail, r, local);
    if tail.len() == 0 {
        assert(insert_by_dist(tail, r, local) == seq![r]);
    } else if rec_dist(r, local) < rec_dist(tail[0], local) {
        let t = seq![r] + tail;
        if q == 0 {
        } else {
            assert(t[q] == tail[q - 1]);
            assert(tail[q - 1] == s[q]);
        }
    } else {
        let t = seq![tail[0]] + insert_by_dist(tail.drop_first(), r, local);
        if q == 0 {
            assert(t[0] == tail[0]);
            assert(tail[0] == s[1]);
        } else {
            assert(t[q] == insert_by_dist(tail.drop_first(), r, local)[q - 1]);
            assert forall|p: int, qq: int|
                0 <= p < qq < tail.len() implies rec_dist(#[trigger] tail[p], local) <= rec_dist(
                #[trigger] tail[qq],
                local,
            ) by {
                assert(tail[p] == s[p + 1]);
                assert(tail[qq] == s[qq + 1]);
            }
            assert(tail.drop_first() =~= tail.drop_first());
            lemma_insert_head_ge(tail.drop_first(), r, local, tail, q - 1);
            assert(rec_dist(tail[0], local) <= rec_dist(
                insert_by_dist(tail.drop_first(), r, local)[q - 1],
                local,
            ));
            assert(tail[0] == s[1]);
        }
    }
}

/// Sorting permutes the records: the multiset of records is unchanged.
pub proof fn lemma_sort_by_dist_permutes(s: Seq<Record>, local: usize)
    ensures
        sort_by_dist_spec(s, local).to_multiset() == s.to_multiset(),
    decreases s.len(),
{
    broadcast use vstd::seq_lib::group_to_multiset_ensures;

    if s.len() == 0 {
        assert(sort_by_dist_spec(s, local).to_multiset() =~= s.to_multiset());
    } else {
        lemma_sort_by_dist_permutes(s.drop_last(), local);
        lemma_insert_permutes(sort_by_dist_spec(s.drop_last(), local), s.last(), local);
        assert(s.drop_last().push(s.last()) =~= s);
    }
}

/// A stable insertion only adds the inserted record to the multiset.
proof fn lemma_insert_permutes(s: Seq<Record>, r: Record, local: usize)
    ensures
        insert_by_dist(s, r, local).to_multiset() == s.to_multiset().insert(r),
    decreases s.len(),
{
    broadcast use vstd::seq_lib::group_to_multiset_ensures;

    if s.len() == 0 {
        assert(seq![r] =~= Seq::<Record>::empty().push(r));
        assert(insert_by_dist(s, r, local).to_multiset() =~= s.to_multiset().insert(r));
    } else if rec_dist(r, local) < rec_dist(s[0], local) {
        vstd::seq_lib::lemma_multiset_commutative(seq![r], s);
        assert(seq![r].to_multiset() =~= Seq::<Record>::empty().push(r).to_multiset());
        assert((seq![r] + s).to_multiset() =~= s.to_multiset().insert(r));
    } else {
        lemma_insert_permutes(s.drop_first(), r, local);
        vstd::seq_lib::lemma_multiset_commutative(
            seq![s[0]],
            insert_by_dist(s.drop_first(), r, local),
        );
        vstd::seq_lib::lemma_multiset_commutative(seq![s[0]], s.drop_first());
        assert(seq![s[0]] + s.drop_first() =~= s);
        assert(seq![s[0]].to_multiset() =~= Seq::<Record>::empty().push(s[0]).to_multiset());
        assert((seq![s[0]] + insert_by_dist(s.drop_first(), r, local)).to_multiset()
            =~= s.to_multiset().insert(r));
    }
}

/// Sorts the records by ascending XOR distance to `local`, stably.
pub(crate) fn sort_records_by_dist(records: &Vec<Record>, local: usize) -> (out: Vec<Record>)
    requires
        forall|i: int| 0 <= i < records@.len() ==> wf_record(#[trigger] records@[i]),
    ensures
        out@ == sort_by_dist_spec(records@, local),
        out@.len() == records@.len(),
{
    let mut out: Vec<Record> = Vec::new();
    let mut i: usize = 0;
    while i < records.len()
        invariant
            0 <= i <= records@.len(),
            forall|p: int| 0 <= p < records@.len() ==> wf_record(#[trigger] records@[p]),
            out@ == sort_by_dist_spec(records@.take(i as int), local),
            out@.len() == i,
            forall|p: int| 0 <= p < out@.len() ==> wf_record(#[trigger] out@[p]),
        decreases records@.len() - i,
    {
        let r = records[i].clone();
        let d = r.dist_to(local);
        let mut j: usize = 0;
        while j < out.len() && out[j].dist_to(local) <= d
            invariant
                0 <= j <= out@.len(),
                d == rec_dist(r, local),
                forall|p: int| 0 <= p < out@.len() ==> wf_record(#[trigger] out@[p]),
                forall|p: int| 0 <= p < j ==> rec_dist(#[trigger] out@[p], local) <= d,
            decreases out@.len() - j,
        {
            j = j + 1;
        }
        let ghost out_before = out@;
        out.insert(j, r);
        proof {
            lemma_insert_by_dist_at(out_before, r, local, j as int);
            assert(records@.take(i + 1).drop_last() =~= records@.take(i as int));
            assert(records@.take(i + 1).last() == records@[i as int]);
            lemma_insert_by_dist_len(out_before, r, local);
            assert forall|p: int| 0 <= p < out@.len() implies wf_record(#[trigger] out@[p]) by {
                if p < j {
                    assert(out@[p] == out_before[p]);
                } else if p == j {
                    assert(out@[p] == r);
                } else {
                    assert(out@[p] == out_before[p - 1]);
                }
            }
        }
        i = i + 1;
    }
    proof {
        assert(records@.take(records@.len() as int) =~= records@);
    }
    out
}

} // verus!
