//! Peer records: an identifier bit string plus an opaque reachable address,
//! and the XOR distance metric between identifiers.

use vstd::prelude::*;
use crate::bits::{bit_string_value, bit_val, bits_value, wf_id};
use vstd::string::StringExecFns;

verus! {

/// The bit-string identifier of the local node, which all distances are
/// measured from.
pub fn own_node_id() -> (s: &'static str)
    ensures
        s@ == local_id(),
{
    "0011"
}

/// The local node identifier as a sequence of characters.
pub open spec fn local_id() -> Seq<char> {
    "0011"@
}

/// The local node identifier's integer value.
pub open spec fn local_id_value() -> usize {
    bits_value(local_id()) as usize
}

/// The local identifier is itself a well-formed bit string, of value 3.
pub proof fn lemma_local_id_wf()
    ensures
        wf_id(local_id()),
        local_id_value() == 3,
{
    reveal_strlit("0011");
    let s = local_id();
    let s3 = s.drop_last();
    let s2 = s3.drop_last();
    let s1 = s2.drop_last();
    let s0 = s1.drop_last();
    assert(s0.len() == 0);
    assert(s1.last() == s[0]);
    assert(s2.last() == s[1]);
    assert(s3.last() == s[2]);
    assert(s.last() == s[3]);
    assert(bits_value(s0) == 0);
    assert(bits_value(s1) == bits_value(s0) * 2 + bit_val(s1.last()));
    assert(bits_value(s2) == bits_value(s1) * 2 + bit_val(s2.last()));
    assert(bits_value(s3) == bits_value(s2) * 2 + bit_val(s3.last()));
    assert(bits_value(s) == bits_value(s3) * 2 + bit_val(s.last()));
    assert(bits_value(s1) == 0);
    assert(bits_value(s2) == 0);
    assert(bits_value(s3) == 1);
    assert(bits_value(s) == 3);
}

/// One remote peer: its identifier and a reachable address.
pub struct Record {
    pub cid: String,
    pub multiaddr: String,
}

/// A record is well formed when its identifier parses as a bit string.
pub open spec fn wf_record(r: Record) -> bool {
    wf_id(r.cid@)
}

/// XOR distance from `r`'s identifier to a local identifier of value `local`.
pub open spec fn rec_dist(r: Record, local: usize) -> usize {
    (bits_value(r.cid@) as usize) ^ local
}

/// A record's fields hold the given identifier and address text.
pub open spec fn rec_matches(r: Record, cid: Seq<char>, multiaddr: Seq<char>) -> bool {
    r.cid@ == cid && r.multiaddr@ == multiaddr
}

impl Record {
    /// Builds a record from its identifier and address text.
    pub fn new(cid: &str, multiaddr: &str) -> (r: Record)
        ensures
            rec_matches(r, cid@, multiaddr@),
    {
        Record { cid: String::from_str(cid), multiaddr: String::from_str(multiaddr) }
    }

    /// XOR distance between this record's identifier and an arbitrary local
    /// identifier value.
    pub fn dist_to(&self, local: usize) -> (d: usize)
        requires
            wf_record(*self),
        ensures
            d == rec_dist(*self, local),
    {
        bit_string_value(self.cid.as_str()) ^ local
    }

    /// XOR distance between this record's identifier and the own node's.
    pub fn dist(&self) -> (d: usize)
        requires
            wf_record(*self),
        ensures
            d == rec_dist(*self, local_id_value()),
    {
        proof {
            lemma_local_id_wf();
        }
        let own = bit_string_value(own_node_id());
        bit_string_value(self.cid.as_str()) ^ own
    }
}

impl Clone for Record {
    /// A cloned record equals the original.
    fn clone(&self) -> (r: Self)
        ensures
            r == *self,
    {
        Record { cid: self.cid.clone(), multiaddr: self.multiaddr.clone() }
    }
}

/// Failures of the table-building and sampling contracts.
pub enum TableError {
    /// A bucket index more than one past the end, or a sample request larger
    /// than its pool.
    OutOfBounds,
    /// An identifier that does not parse as a fixed-width bit string.
    MalformedIdentifier,
}

} // verus!
