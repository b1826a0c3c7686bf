use vstd::prelude::*;

verus! {

broadcast use vstd::std_specs::bits::axiom_u8_leading_zeros;

/// Number of leading zero bits of a byte string read most significant bit
/// first: every zero byte counts 8, the first non-zero byte counts its own
/// leading zeros, and nothing after it counts.
pub open spec fn seq_leading_zeros(s: Seq<u8>) -> nat
    decreases s.len(),
{
    if s.len() == 0 {
        0
    } else if s[0] == 0 {
        8 + seq_leading_zeros(s.drop_first())
    } else {
        vstd::std_specs::bits::u8_leading_zeros(s[0]) as nat
    }
}

/// The leading-zero count never exceeds the number of bits.
pub proof fn lemma_leading_zeros_bound(s: Seq<u8>)
    ensures
        seq_leading_zeros(s) <= 8 * s.len(),
        seq_leading_zeros(s) == 8 * s.len() <==> (forall|i: int| 0 <= i < s.len() ==> s[i] == 0),
    decreases s.len(),
{
    if s.len() > 0 {
        lemma_leading_zeros_bound(s.drop_first());
        if s[0] == 0 {
            assert forall|i: int| 0 <= i < s.len() && (forall|j: int| 0 <= j < s.drop_first().len() ==> s.drop_first()[j] == 0) implies s[i] == 0 by {
                if i > 0 {
                    assert(s[i] == s.drop_first()[i - 1]);
                }
            }
            assert forall|j: int| 0 <= j < s.drop_first().len() && (forall|i: int| 0 <= i < s.len() ==> s[i] == 0) implies s.drop_first()[j] == 0 by {
                assert(s[j + 1] == s.drop_first()[j]);
            }
        }
    }
}

/// Skipping `i` leading zero bytes takes exactly `8 * i` off the count.
pub proof fn lemma_leading_zeros_skip(s: Seq<u8>, i: int)
    requires
        0 <= i < s.len(),
        s[i] == 0,
    ensures
        seq_leading_zeros(s.skip(i)) == 8 + seq_leading_zeros(s.skip(i + 1)),
{
    assert(s.skip(i).drop_first() =~= s.skip(i + 1));
}

/// Bit `k` of a byte string read most significant bit first: bit 0 is the
/// top bit of the first byte.
pub open spec fn hash_bit(h: Seq<u8>, k: int) -> u8 {
    (h[k / 8] >> ((7 - k % 8) as u8)) & 1u8
}

/// A byte has at least `d` leading zero bits exactly when its top `d` bits
/// are zero.
proof fn lemma_byte_leading_zeros_bits(x: u8, d: int)
    requires
        0 <= d <= 8,
    ensures
        vstd::std_specs::bits::u8_leading_zeros(x) >= d <==> forall|i: int|
            0 <= i < d ==> #[trigger] ((x >> ((7 - i) as u8)) & 1u8) == 0u8,
{
    let lz = vstd::std_specs::bits::u8_leading_zeros(x);
    if lz >= d {
        assert forall|i: int| 0 <= i < d implies #[trigger] ((x >> ((7 - i) as u8)) & 1u8) == 0u8 by {
            let j = (7 - i) as u8;
            assert(8 - lz <= j < 8);
        }
    } else {
        assert(lz < 8);
        let i = lz as int;
        assert((x >> ((7 - i) as u8)) & 1u8 != 0u8);
    }
}

/// A byte string has at least `d` leading zero bits, for `d` up to its
/// number of bits, exactly when its first `d` bits are all zero.
pub proof fn lemma_leading_zeros_bits(h: Seq<u8>, d: int)
    requires
        0 <= d <= 8 * h.len(),
    ensures
        seq_leading_zeros(h) >= d <==> forall|k: int| 0 <= k < d ==> #[trigger] hash_bit(h, k) == 0u8,
    decreases h.len(),
{
    if h.len() == 0 {
    } else if h[0] == 0 {
        let rest = h.drop_first();
        assert forall|k: int| 0 <= k < 8 implies #[trigger] hash_bit(h, k) == 0u8 by {
            assert(k / 8 == 0);
            let j = (7 - k % 8) as u8;
            assert((0u8 >> j) & 1u8 == 0u8) by (bit_vector);
        }
        if d > 8 {
            lemma_leading_zeros_bits(rest, d - 8);
            assert forall|k: int| 8 <= k < 8 * h.len() implies #[trigger] hash_bit(h, k) == hash_bit(rest, k - 8) by {
                assert(k / 8 == (k - 8) / 8 + 1);
                assert(k % 8 == (k - 8) % 8);
            }
            if seq_leading_zeros(h) >= d {
                assert forall|k: int| 0 <= k < d implies #[trigger] hash_bit(h, k) == 0u8 by {
                    if k >= 8 {
                        assert(hash_bit(rest, k - 8) == 0u8);
                    }
                }
            }
            if forall|k: int| 0 <= k < d ==> #[trigger] hash_bit(h, k) == 0u8 {
                assert forall|k: int| 0 <= k < d - 8 implies #[trigger] hash_bit(rest, k) == 0u8 by {
                    assert(hash_bit(h, k + 8) == 0u8);
                }
            }
        }
    } else {
        let x = h[0];
        let lz = vstd::std_specs::bits::u8_leading_zeros(x);
        assert(lz < 8);
        let dd = if d <= 8 { d } else { 8 };
        lemma_byte_leading_zeros_bits(x, dd);
        assert forall|k: int| 0 <= k < 8 implies #[trigger] hash_bit(h, k) == ((x >> ((7 - k) as u8)) & 1u8) by {
            assert(k / 8 == 0);
            assert(k % 8 == k);
        }
        if d > 8 {
            lemma_byte_leading_zeros_bits(x, lz + 1);
            assert(hash_bit(h, lz as int) != 0u8);
        } else {
            if forall|k: int| 0 <= k < d ==> #[trigger] hash_bit(h, k) == 0u8 {
                assert forall|i: int| 0 <= i < d implies #[trigger] ((x >> ((7 - i) as u8)) & 1u8) == 0u8 by {
                    assert(hash_bit(h, i) == 0u8);
                }
            }
        }
    }
}

} // verus!
