//! Hashing and bit-counting helpers shared by the chain and the DHT.
use vstd::prelude::*;
use crate::bits::{seq_leading_zeros, lemma_leading_zeros_bound, lemma_leading_zeros_skip};
use crate::outside::{sha1, sha1_digest, random_bytes_20};

verus! {

broadcast use vstd::std_specs::bits::axiom_u8_leading_zeros;

/// Appends `bytes` to `out`.
pub fn append_bytes(out: &mut Vec<u8>, bytes: &[u8])
    ensures
        final(out)@ == old(out)@ + bytes@,
{
    let mut i: usize = 0;
    while i < bytes.len()
        invariant
            i <= bytes@.len(),
            out@ == old(out)@ + bytes@.subrange(0, i as int),
        decreases bytes@.len() - i,
    {
        out.push(bytes[i]);
        i = i + 1;
        assert(out@ =~= old(out)@ + bytes@.subrange(0, i as int));
    }
    assert(bytes@.subrange(0, bytes@.len() as int) =~= bytes@);
}

/// The concatenation of byte strings.
pub open spec fn concat_all(parts: Seq<Seq<u8>>) -> Seq<u8> {
    parts.flatten()
}

/// The byte strings of a list of byte vectors.
pub open spec fn byte_strings(v: Seq<Vec<u8>>) -> Seq<Seq<u8>> {
    v.map_values(|b: Vec<u8>| b@)
}

/// The SHA-1 digest of the encodings of a list of items, fed to one hasher
/// in order: the digest of their concatenation.
pub fn get_hash(encoded: &Vec<Vec<u8>>) -> (digest: [u8; 20])
    ensures
        digest@ == sha1(concat_all(byte_strings(encoded@))),
{
    let mut all: Vec<u8> = Vec::new();
    let mut i: usize = 0;
    while i < encoded.len()
        invariant
            i <= encoded@.len(),
            all@ == concat_all(byte_strings(encoded@).subrange(0, i as int)),
        decreases encoded@.len() - i,
    {
        proof {
            let parts = byte_strings(encoded@);
            vstd::seq_lib::lemma_flatten_concat(parts.subrange(0, i as int), seq![parts[i as int]]);
            assert(parts.subrange(0, i as int) + seq![parts[i as int]] =~= parts.subrange(0, i + 1));
            seq![parts[i as int]].lemma_flatten_one_element();
        }
        append_bytes(&mut all, encoded[i].as_slice());
        i = i + 1;
    }
    assert(byte_strings(encoded@).subrange(0, encoded@.len() as int) =~= byte_strings(encoded@));
    sha1_digest(all.as_slice())
}

/// Leading zero bits of a byte string. The count must fit in a byte.
pub fn get_leading_zeros(array: &Vec<u8>) -> (r: u8)
    requires
        seq_leading_zeros(array@) <= 255,
    ensures
        r == seq_leading_zeros(array@),
{
    let mut result: u8 = 0;
    let mut i: usize = 0;
    proof {
        assert(array@.skip(0) =~= array@);
    }
    while i < array.len()
        invariant
            i <= array@.len(),
            result == 8 * i,
            seq_leading_zeros(array@) == result + seq_leading_zeros(array@.skip(i as int)),
            seq_leading_zeros(array@) <= 255,
        decreases array@.len() - i,
    {
        let u = array[i];
        if u == 0 {
            proof {
                lemma_leading_zeros_skip(array@, i as int);
            }
            result = result + 8;
        } else {
            let temp = u.leading_zeros() as u8;
            assert(array@.skip(i as int)[0] == u);
            result = result + temp;
            return result;
        }
        i = i + 1;
    }
    assert(array@.skip(i as int).len() == 0);
    result
}

/// Twenty random bytes.
pub fn random() -> (v: Vec<u8>)
    ensures
        v@.len() == 20,
{
    let bytes = random_bytes_20();
    let mut v: Vec<u8> = Vec::new();
    append_bytes(&mut v, bytes.as_slice());
    v
}

} // verus!
