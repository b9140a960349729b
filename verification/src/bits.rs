//! Fixed-width bit-string identifiers: the characters '0' and '1', most
//! significant bit first, valued as an unsigned integer.

use vstd::prelude::*;

verus! {

/// Every character of `s` is a binary digit.
pub open spec fn is_bit_string(s: Seq<char>) -> bool {
    forall|i: int| 0 <= i < s.len() ==> s[i] == '0' || s[i] == '1'
}

/// The numeric value a single binary digit contributes.
pub open spec fn bit_val(c: char) -> nat {
    if c == '1' {
        1nat
    } else {
        0nat
    }
}

/// The unsigned integer value of a bit string, most significant bit first.
pub open spec fn bits_value(s: Seq<char>) -> nat
    decreases s.len(),
{
    if s.len() == 0 {
        0nat
    } else {
        bits_value(s.drop_last()) * 2 + bit_val(s.last())
    }
}

/// An identifier is well formed when it is a non-empty bit string whose value
/// fits the machine word that distances are computed in.
pub open spec fn wf_id(s: Seq<char>) -> bool {
    &&& s.len() >= 1
    &&& is_bit_string(s)
    &&& bits_value(s) <= usize::MAX as nat
}

/// The value of a prefix of a bit string never exceeds the value of the whole.
proof fn lemma_bits_value_take_le(s: Seq<char>, i: int)
    requires
        0 <= i <= s.len(),
    ensures
        bits_value(s.take(i)) <= bits_value(s),
    decreases s.len() - i,
{
    if i == s.len() {
        assert(s.take(i) =~= s);
    } else {
        lemma_bits_value_take_le(s, i + 1);
        assert(s.take(i + 1).drop_last() =~= s.take(i));
    }
}

/// Parses a well-formed bit string into its integer value.
pub fn bit_string_value(s: &str) -> (v: usize)
    requires
        wf_id(s@),
    ensures
        v as nat == bits_value(s@),
{
    let n = s.unicode_len();
    let mut v: usize = 0;
    let mut i: usize = 0;
    while i < n
        invariant
            wf_id(s@),
            n == s@.len(),
            0 <= i <= n,
            v as nat == bits_value(s@.take(i as int)),
        decreases n - i,
    {
        let c = s.get_char(i);
        let b: usize = if c == '1' {
            1
        } else {
            0
        };
        proof {
            lemma_bits_value_take_le(s@, i + 1);
            assert(s@.take(i + 1).drop_last() =~= s@.take(i as int));
            assert(s@.take(i + 1).last() == s@[i as int]);
        }
        v = v * 2 + b;
        i = i + 1;
    }
    proof {
        assert(s@.take(n as int) =~= s@);
    }
    v
}

/// Decides whether a string is a well-formed identifier.
pub fn is_valid_id(s: &str) -> (b: bool)
    ensures
        b == wf_id(s@),
{
    let n = s.unicode_len();
    if n == 0 {
        return false;
    }
    let mut v: usize = 0;
    let mut i: usize = 0;
    while i < n
        invariant
            n == s@.len(),
            1 <= n,
            0 <= i <= n,
            is_bit_string(s@.take(i as int)),
            v as nat == bits_value(s@.take(i as int)),
        decreases n - i,
    {
        let c = s.get_char(i);
        if c != '0' && c != '1' {
            assert(!is_bit_string(s@));
            return false;
        }
        let b: usize = if c == '1' {
            1
        } else {
            0
        };
        proof {
            assert(s@.take(i + 1).drop_last() =~= s@.take(i as int));
            assert(s@.take(i + 1).last() == s@[i as int]);
        }
        if v > (usize::MAX - b) / 2 {
            proof {
                lemma_bits_value_take_le(s@, i + 1);
            }
            return false;
        }
        v = v * 2 + b;
        proof {
            assert forall|p: int| 0 <= p < i + 1 implies {
                let t = #[trigger] s@.take(i + 1)[p];
                t == '0' || t == '1'
            } by {
                if p < i {
                    assert(s@.take(i as int)[p] == '0' || s@.take(i as int)[p] == '1');
                }
            }
        }
        i = i + 1;
    }
    proof {
        assert(s@.take(n as int) =~= s@);
    }
    true
}

} // verus!
