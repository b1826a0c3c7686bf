use vstd::prelude::*;
use crate::bits::{seq_leading_zeros, lemma_leading_zeros_bound, lemma_leading_zeros_skip};

verus! {

broadcast use vstd::std_specs::bits::axiom_u8_leading_zeros;

/// Byte-wise exclusive or of two 20-byte strings.
pub open spec fn spec_xor(a: Seq<u8>, b: Seq<u8>) -> Seq<u8> {
    Seq::new(a.len(), |i: int| a[i] ^ b[i])
}

/// The XOR metric of Kademlia: the distance between two identifiers.
pub fn xor_bytes(lhs: &[u8; 20], rhs: &[u8; 20]) -> (result: [u8; 20])
    ensures
        result@ == spec_xor(lhs@, rhs@),
{
    let mut result = [0u8; 20];
    let mut i: usize = 0;
    while i < 20
        invariant
            i <= 20,
            forall|j: int| 0 <= j < i ==> result@[j] == lhs@[j] ^ rhs@[j],
        decreases 20 - i,
    {
        result[i] = lhs[i] ^ rhs[i];
        i = i + 1;
    }
    assert(result@ =~= spec_xor(lhs@, rhs@));
    result
}

/// The bucket a distance falls into: 160 minus its leading zero bits, so that
/// a distance in `[2^(i-1), 2^i)` lands in bucket `i` and distance zero in
/// bucket 0.
pub open spec fn spec_bucket(distance: Seq<u8>) -> int {
    160 - seq_leading_zeros(distance)
}

pub fn bucket(distance: &[u8; 20]) -> (b: u8)
    ensures
        b == spec_bucket(distance@),
        b <= 160,
{
    let result = get_leading_zeros(distance);
    160 - result
}

/// Leading zero bits of a 20-byte string.
pub fn get_leading_zeros(array: &[u8; 20]) -> (r: u8)
    ensures
        r == seq_leading_zeros(array@),
        r <= 160,
{
    let mut result: u8 = 0;
    let mut i: usize = 0;
    proof {
        lemma_leading_zeros_bound(array@);
        assert(array@.skip(0) =~= array@);
    }
    while i < 20
        invariant
            i <= 20,
            result == 8 * i,
            seq_leading_zeros(array@) == result + seq_leading_zeros(array@.skip(i as int)),
        decreases 20 - i,
    {
        let u = array[i];
        if u == 0 {
            proof { lemma_leading_zeros_skip(array@, i as int); }
            result = result + 8;
        } else {
            let temp = u.leading_zeros() as u8;
            assert(array@.skip(i as int)[0] == u);
            result = result + temp;
            proof { lemma_leading_zeros_bound(array@); }
            return result;
        }
        i = i + 1;
    }
    assert(array@.skip(20).len() == 0);
    result
}

} // verus!
