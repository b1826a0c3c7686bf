use vstd::prelude::*;
use vstd::string::StringSliceAdditionalSpecFns;
use vstd::string::StringExecFns;
use crate::bits::seq_leading_zeros;
use crate::kademlia::util::{spec_xor, spec_bucket, xor_bytes};
use crate::outside::{random_bytes_20, hex_decode_20, hex_encode_upper, spec_hex_decode_20, spec_hex_upper, HexError};

verus! {

broadcast use vstd::std_specs::bits::axiom_u8_leading_zeros;

/// A 160-bit node or key identifier of the DHT.
#[derive(Debug, Clone, Copy, Hash, PartialEq, Eq)]
pub struct KadID(pub [u8; 20]);

impl View for KadID {
    type V = Seq<u8>;

    open spec fn view(&self) -> Seq<u8> {
        self.0@
    }
}

/// A lower-case hex digit for a value below 16.
pub open spec fn hex_digit_lower(n: int) -> char {
    if n < 10 {
        (48 + n) as char
    } else {
        (97 + n - 10) as char
    }
}

/// A byte as `{:0<2x}` writes it: its lower-case hex digits, padded on the
/// right with `0` to two characters (so a byte below 16 gets its zero after
/// the digit).
pub open spec fn spec_byte_lower_padded(b: u8) -> Seq<char> {
    if b < 16 {
        seq![hex_digit_lower(b as int), '0']
    } else {
        seq![hex_digit_lower((b / 16) as int), hex_digit_lower((b % 16) as int)]
    }
}

/// The bytes written one after the other as `spec_byte_lower_padded`.
pub open spec fn spec_lower_hex_padded(data: Seq<u8>) -> Seq<char>
    decreases data.len(),
{
    if data.len() == 0 {
        Seq::empty()
    } else {
        spec_lower_hex_padded(data.drop_last()) + spec_byte_lower_padded(data.last())
    }
}

/// The lower-case hex digit of a value below 16.
fn lower_digit(n: u8) -> (s: &'static str)
    requires
        n < 16,
    ensures
        s@ == seq![hex_digit_lower(n as int)],
{
    match n {
        0 => { proof { reveal_strlit("0"); } "0" },
        1 => { proof { reveal_strlit("1"); } "1" },
        2 => { proof { reveal_strlit("2"); } "2" },
        3 => { proof { reveal_strlit("3"); } "3" },
        4 => { proof { reveal_strlit("4"); } "4" },
        5 => { proof { reveal_strlit("5"); } "5" },
        6 => { proof { reveal_strlit("6"); } "6" },
        7 => { proof { reveal_strlit("7"); } "7" },
        8 => { proof { reveal_strlit("8"); } "8" },
        9 => { proof { reveal_strlit("9"); } "9" },
        10 => { proof { reveal_strlit("a"); } "a" },
        11 => { proof { reveal_strlit("b"); } "b" },
        12 => { proof { reveal_strlit("c"); } "c" },
        13 => { proof { reveal_strlit("d"); } "d" },
        14 => { proof { reveal_strlit("e"); } "e" },
        _ => { proof { reveal_strlit("f"); } "f" },
    }
}

/// The `j`-th byte of an identifier drawn in bucket `160 - z` around `origin`
/// when the first `z` bits are to agree with `origin`: the byte where the
/// agreement ends keeps the top `k` bits of `origin`, flips the next bit, and
/// keeps the random low bits.
pub open spec fn spec_range_byte(o: u8, r: u8, k: u8) -> u8 {
    let mask: u8 = 0xffu8 >> k;
    let select: u8 = 0x80u8 >> k;
    let res: u8 = (r & mask) | (o & !mask);
    let bit: u8 = 1u8 << ((7 - k) as u8);
    if o & select == 0 {
        res | bit
    } else {
        res & !bit
    }
}

/// The identifier that `random_in_range` builds from `origin`, the bucket
/// index `i` and the twenty random bytes `r`.
pub open spec fn spec_random_in_range(origin: Seq<u8>, i: nat, r: Seq<u8>) -> Seq<u8> {
    let z: int = 160 - i;
    Seq::new(
        20,
        |j: int|
            if 8 * j + 8 <= z {
                origin[j]
            } else if 8 * j <= z {
                spec_range_byte(origin[j], r[j], (z - 8 * j) as u8)
            } else {
                r[j]
            },
    )
}

impl KadID {
    /// The all-zero identifier.
    pub fn zeroes() -> (id: KadID)
        ensures
            id@ == Seq::new(20, |i: int| 0u8),
    {
        let id = KadID([0u8; 20]);
        assert(id@ =~= Seq::new(20, |i: int| 0u8));
        id
    }

    /// A uniformly drawn identifier; nothing is known of its bytes.
    pub fn random() -> (id: KadID)
        ensures
            id@.len() == 20,
    {
        KadID(random_bytes_20())
    }

    pub fn from_array(bytes: [u8; 20]) -> (id: KadID)
        ensures
            id@ == bytes@,
    {
        KadID(bytes)
    }

    pub fn into_array(self) -> (bytes: [u8; 20])
        ensures
            bytes@ == self@,
    {
        self.0
    }

    pub fn as_ref(&self) -> (bytes: &[u8; 20])
        ensures
            bytes@ == self@,
    {
        &self.0
    }

    /// The XOR distance between two identifiers.
    pub fn xor(&self, rhs: &KadID) -> (d: [u8; 20])
        ensures
            d@ == spec_xor(self@, rhs@),
    {
        xor_bytes(&self.0, &rhs.0)
    }

    /// Builds, from the random bytes `rand`, an identifier whose distance to
    /// `origin` falls in bucket `i`: its first `160 - i` bits are those of
    /// `origin`, the next bit differs, the rest are those of `rand`.
    pub fn random_in_range_from(origin: &KadID, i: usize, rand: [u8; 20]) -> (id: KadID)
        requires
            i <= 160,
        ensures
            id@ == spec_random_in_range(origin@, i as nat, rand@),
            spec_bucket(spec_xor(origin@, id@)) == i,
    {
        let z: u8 = (160 - i) as u8;
        let mut res = rand;
        let mut bit_count: u8 = 0;
        let mut j: usize = 0;
        let ghost target = spec_random_in_range(origin@, i as nat, rand@);
        while j < 20
            invariant_except_break
                j <= 20,
                bit_count == 8 * j,
                8 * j <= z,
                z == 160 - i,
                i <= 160,
                target == spec_random_in_range(origin@, i as nat, rand@),
                forall|t: int| 0 <= t < j ==> res@[t] == target[t],
                forall|t: int| j <= t < 20 ==> res@[t] == rand@[t],
            ensures
                forall|t: int| 0 <= t < 20 ==> res@[t] == target[t],
            decreases 20 - j,
        {
            if bit_count + 8 <= z {
                res[j] = origin.0[j];
                bit_count = bit_count + 8;
            } else {
                let k: u8 = z - bit_count;
                let o_byte = origin.0[j];
                let r_byte = res[j];
                let mut mask: u8 = 0b1111_1111;
                let mut select: u8 = 0b1000_0000;
                mask = mask >> k;
                select = select >> k;
                let mut b: u8 = 0;
                b = b | (r_byte & mask);
                b = b | (o_byte & !mask);
                b = if (o_byte & select) == 0 {
                    b | (1u8 << (7 - k))
                } else {
                    b & !(1u8 << (7 - k))
                };
                assert(b == spec_range_byte(o_byte, r_byte, k)) by (bit_vector)
                    requires
                        k < 8,
                        mask == 0xffu8 >> k,
                        select == 0x80u8 >> k,
                        b == (if (o_byte & select) == 0 {
                            ((0u8 | (r_byte & mask)) | (o_byte & !mask)) | (1u8 << ((7 - k) as u8))
                        } else {
                            ((0u8 | (r_byte & mask)) | (o_byte & !mask)) & !(1u8 << ((7 - k) as u8))
                        }),
                ;
                res[j] = b;
                proof {
                    assert forall|t: int| j < t < 20 implies res@[t] == target[t] by {
                        assert(8 * t > z);
                    }
                }
                break;
            }
            j = j + 1;
        }
        let id = KadID(res);
        assert(id@ =~= target);
        proof {
            lemma_random_in_range_bucket(origin@, i as nat, rand@);
        }
        id
    }

    /// Parses an identifier from 40 hex digits.
    pub fn try_from(value: &str) -> (res: Result<KadID, HexError>)
        ensures
            match res {
                Ok(id) => spec_hex_decode_20(value.spec_bytes()) == Ok::<Seq<u8>, HexError>(id@),
                Err(e) => spec_hex_decode_20(value.spec_bytes()) == Err::<Seq<u8>, HexError>(e),
            },
    {
        match hex_decode_20(value.as_bytes()) {
            Ok(bytes) => Ok(KadID(bytes)),
            Err(e) => Err(e),
        }
    }

    /// The identifier in upper-case hex, as it is displayed.
    pub fn to_hex_upper(&self) -> (s: String)
        ensures
            s@ == spec_hex_upper(self@),
    {
        hex_encode_upper(self.0.as_slice())
    }

    /// The identifier in lower-case hex as its `LowerHex` rendering writes
    /// it: each byte formatted with `{:0<2x}`.
    pub fn to_lower_hex(&self) -> (s: String)
        ensures
            s@ == spec_lower_hex_padded(self@),
    {
        let mut s = String::new();
        let mut i: usize = 0;
        while i < 20
            invariant
                i <= 20,
                s@ == spec_lower_hex_padded(self@.subrange(0, i as int)),
            decreases 20 - i,
        {
            let b = self.0[i];
            if b < 16 {
                s.append(lower_digit(b));
                proof { reveal_strlit("0"); }
                s.append("0");
            } else {
                s.append(lower_digit(b / 16));
                s.append(lower_digit(b % 16));
            }
            proof {
                let t = self@.subrange(0, i + 1);
                assert(t.drop_last() =~= self@.subrange(0, i as int));
                assert(t.last() == b);
                assert(s@ =~= spec_lower_hex_padded(t));
            }
            i = i + 1;
        }
        assert(self@.subrange(0, 20) =~= self@);
        s
    }

    /// A random identifier whose distance to `origin` falls in bucket `i`.
    pub fn random_in_range(origin: &KadID, i: usize) -> (id: KadID)
        requires
            i <= 160,
        ensures
            exists|r: Seq<u8>| r.len() == 20 && id@ == spec_random_in_range(origin@, i as nat, r),
            spec_bucket(spec_xor(origin@, id@)) == i,
    {
        let r = random_bytes_20();
        let id = Self::random_in_range_from(origin, i, r);
        assert(r@.len() == 20 && id@ == spec_random_in_range(origin@, i as nat, r@));
        id
    }
}

/// The bucket a distance falls into: 160 minus its leading zero bits.
pub fn bucket(distance: &[u8; 20]) -> (b: u8)
    ensures
        b == spec_bucket(distance@),
        b <= 160,
{
    crate::kademlia::util::bucket(distance)
}

/// A byte whose top `k` bits are zero and whose next bit is one has exactly
/// `k` leading zeros.
proof fn lemma_byte_leading_zeros(x: u8, k: u8)
    requires
        k < 8,
        forall|j: u8| 8 - k <= j < 8 ==> #[trigger] ((x >> j) & 1u8) == 0u8,
        (x >> ((7 - k) as u8)) & 1u8 == 1u8,
    ensures
        vstd::std_specs::bits::u8_leading_zeros(x) == k,
{
    let lz = vstd::std_specs::bits::u8_leading_zeros(x);
    assert(0 <= lz <= 8);
    if lz < k {
        let j: u8 = (7 - lz) as u8;
        assert((x >> j) & 1u8 == 0u8);
    } else if lz > k {
        assert(8 - lz <= ((7 - k) as u8) < 8);
        assert((x >> ((7 - k) as u8)) & 1u8 == 0u8);
    }
}

/// The distance between a byte of `origin` and the byte that
/// `spec_range_byte` builds from it has exactly `k` leading zeros.
proof fn lemma_range_byte_distance(o: u8, r: u8, k: u8)
    requires
        k < 8,
    ensures
        vstd::std_specs::bits::u8_leading_zeros(o ^ spec_range_byte(o, r, k)) == k,
{
    let x = o ^ spec_range_byte(o, r, k);
    assert forall|j: u8| 8 - k <= j < 8 implies #[trigger] ((x >> j) & 1u8) == 0u8 by {
        assert(((o ^ spec_range_byte(o, r, k)) >> j) & 1u8 == 0u8) by (bit_vector)
            requires
                k < 8,
                8 - k <= j < 8,
        ;
    }
    assert((x >> ((7 - k) as u8)) & 1u8 == 1u8) by (bit_vector)
        requires
            k < 8,
            x == o ^ spec_range_byte(o, r, k),
    ;
    lemma_byte_leading_zeros(x, k);
}

/// Leading zeros of a string that starts with `n` zero bytes.
proof fn lemma_leading_zeros_prefix(s: Seq<u8>, n: int)
    requires
        0 <= n <= s.len(),
        forall|t: int| 0 <= t < n ==> s[t] == 0,
    ensures
        seq_leading_zeros(s) == 8 * n + seq_leading_zeros(s.skip(n)),
    decreases n,
{
    if n > 0 {
        lemma_leading_zeros_prefix(s.drop_first(), n - 1);
        assert(s.drop_first().skip(n - 1) =~= s.skip(n));
    } else {
        assert(s.skip(0) =~= s);
    }
}

/// The identifier built by `random_in_range` lies in the requested bucket.
pub proof fn lemma_random_in_range_bucket(origin: Seq<u8>, i: nat, r: Seq<u8>)
    requires
        origin.len() == 20,
        r.len() == 20,
        i <= 160,
    ensures
        spec_bucket(spec_xor(origin, spec_random_in_range(origin, i, r))) == i,
{
    let id = spec_random_in_range(origin, i, r);
    let d = spec_xor(origin, id);
    let z: int = 160 - i;
    let n: int = z / 8;
    assert forall|t: int| 0 <= t < n implies d[t] == 0 by {
        assert(8 * t + 8 <= z);
        assert(origin[t] ^ origin[t] == 0) by (bit_vector);
    }
    lemma_leading_zeros_prefix(d, n);
    if n < 20 {
        let k: u8 = (z - 8 * n) as u8;
        assert(d.skip(n)[0] == d[n]);
        assert(d[n] == origin[n] ^ spec_range_byte(origin[n], r[n], k));
        lemma_range_byte_distance(origin[n], r[n], k);
        assert(d[n] != 0);
    } else {
        assert(d.skip(n).len() == 0);
    }
}

} // verus!
