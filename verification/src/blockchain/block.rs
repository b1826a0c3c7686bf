use vstd::prelude::*;
use crate::auction_common::Transaction;
use crate::bits::{seq_leading_zeros, hash_bit, lemma_leading_zeros_bits, lemma_leading_zeros_bound};
use crate::blockchain::merkle::{MerkleTree, merkle_node, pow2, sort_by_time, zero_hash_bytes, zero_hash};
use crate::kademlia::util::get_leading_zeros;
use crate::outside::{sha1, sha1_digest, datetime_in_range, ed25519_verifies, verify_signature, bincode_hash, ed25519_sign, sign_bytes, keypair_consistent};

verus! {

/// Why a block was refused.
#[derive(Debug, Clone, Copy, PartialEq, Eq)]
pub enum BlockError {
    DeserializeError,
    InvalidBlock,
}

/// A block: its place in the chain, when it was made, the hash of the block
/// before it, the proof-of-work nonce, its transactions with their Merkle
/// root, and the work it demands.
#[derive(Debug, Clone)]
pub struct Block {
    pub index: u32,
    pub timestamp: u128,
    pub prev_hash: [u8; 20],
    pub nonce: u64,
    pub transactions: Vec<Transaction>,
    pub merkle: [u8; 20],
    pub difficulty: u64,
}

/// A block sealed by proof of work: its hash has at least `difficulty`
/// leading zero bits.
#[derive(Debug, Clone)]
pub struct BlockCompletePoW {
    pub hash: [u8; 20],
    pub block_inner: Block,
}

/// A block sealed by proof of stake: its hash signed by a staker.
#[derive(Debug, Clone)]
pub struct BlockCompletePoS {
    pub signature: [u8; 64],
    pub signing_id: [u8; 32],
    pub hash: [u8; 20],
    pub block_inner: Block,
}

/// A sealed block of either kind.
#[derive(Debug, Clone)]
pub enum BlockComplete {
    POW(BlockCompletePoW),
    POS(BlockCompletePoS),
}

/// The fields of a transaction as its encoding reads them.
pub open spec fn tx_fields(t: Transaction) -> (Seq<u8>, Seq<u8>, i128, i32, u64) {
    (t@.sender, t@.receiver, t@.timestamp, t@.offset, t@.amount)
}

/// The bincode encoding of a block with these fields (the transactions
/// given by their fields), as `bincode::serialize` writes a `Block`.
pub uninterp spec fn bincode_block(
    index: u32,
    timestamp: u128,
    prev_hash: Seq<u8>,
    nonce: u64,
    transactions: Seq<(Seq<u8>, Seq<u8>, i128, i32, u64)>,
    merkle: Seq<u8>,
    difficulty: u64,
) -> Seq<u8>;

/// The hash of a block: SHA-1 of its bincode encoding.
pub open spec fn spec_block_hash(b: Block) -> Seq<u8> {
    sha1(
        bincode_block(
            b.index,
            b.timestamp,
            b.prev_hash@,
            b.nonce,
            b.transactions@.map_values(|t: Transaction| tx_fields(t)),
            b.merkle@,
            b.difficulty,
        ),
    )
}

/// The block with its nonce replaced.
pub open spec fn with_nonce(b: Block, nonce: u64) -> Block {
    Block {
        index: b.index,
        timestamp: b.timestamp,
        prev_hash: b.prev_hash,
        nonce,
        transactions: b.transactions,
        merkle: b.merkle,
        difficulty: b.difficulty,
    }
}

/// Whether a hash meets a block's difficulty.
pub open spec fn spec_meets_difficulty(b: Block, hash: Seq<u8>) -> bool {
    seq_leading_zeros(hash) >= b.difficulty
}

/// A hash meets a block's difficulty `d` exactly when its first `d` bits (of
/// its 160, most significant first, across byte boundaries) are all zero;
/// no hash meets a difficulty above 160.
pub proof fn lemma_difficulty_is_leading_zero_bits(b: Block, hash: Seq<u8>)
    requires
        hash.len() == 20,
    ensures
        b.difficulty <= 160 ==> (spec_meets_difficulty(b, hash) <==> forall|k: int|
            0 <= k < b.difficulty ==> #[trigger] hash_bit(hash, k) == 0u8),
        b.difficulty > 160 ==> !spec_meets_difficulty(b, hash),
{
    lemma_leading_zeros_bound(hash);
    if b.difficulty <= 160 {
        lemma_leading_zeros_bits(hash, b.difficulty as int);
    }
}

/// Whether the nonce `n` seals the block by proof of work.
pub open spec fn spec_pow_nonce(b: Block, n: u64) -> bool {
    spec_meets_difficulty(b, spec_block_hash(with_nonce(b, n)))
}

/// `bincode::serialize` of the block's fields in order, each transaction
/// as its fields. Claimed: the result is `bincode_block` of the fields.
#[verifier::external_body]
fn encode_block(b: &Block) -> (v: Vec<u8>)
    requires
        forall|i: int| 0 <= i < b.transactions@.len() ==> datetime_in_range(
            #[trigger] b.transactions@[i]@.timestamp,
            b.transactions@[i]@.offset,
        ),
    ensures
        v@ == bincode_block(
            b.index,
            b.timestamp,
            b.prev_hash@,
            b.nonce,
            b.transactions@.map_values(|t: Transaction| tx_fields(t)),
            b.merkle@,
            b.difficulty,
        ),
{
    let txs: Vec<(&[u8], &[u8], time::OffsetDateTime, u64)> = b.transactions.iter().map(
        |t| (
            &t.sender[..],
            &t.receiver[..],
            time::OffsetDateTime::from_unix_timestamp_nanos(t.timestamp).unwrap().to_offset(
                time::UtcOffset::from_whole_seconds(t.offset).unwrap(),
            ),
            t.amount,
        ),
    ).collect();
    bincode::serialize(&(b.index, b.timestamp, &b.prev_hash, b.nonce, txs, &b.merkle, b.difficulty)).unwrap()
}

/// Whether `hash` has at least the block's difficulty in leading zero bits.
pub fn verify_block_difficulty(block: &Block, hash: &[u8; 20]) -> (ok: bool)
    ensures
        ok == spec_meets_difficulty(*block, hash@),
        block.difficulty <= 160 ==> (ok <==> forall|k: int| 0 <= k < block.difficulty ==> #[trigger] hash_bit(hash@, k) == 0u8),
        block.difficulty > 160 ==> !ok,
{
    proof {
        lemma_difficulty_is_leading_zero_bits(*block, hash@);
    }
    let zeros = get_leading_zeros(hash);
    zeros as u64 >= block.difficulty
}

impl Block {
    /// A block over `transactions`, which it sorts by time, with their Merkle
    /// root and nonce zero.
    pub fn new(index: u32, timestamp: u128, prev_hash: [u8; 20], transactions: Vec<Transaction>, difficulty: u64) -> (b: Block)
        requires
            transactions@.len() <= 0x8000_0000,
        ensures
            b.index == index,
            b.timestamp == timestamp,
            b.prev_hash == prev_hash,
            b.nonce == 0,
            b.difficulty == difficulty,
            b.transactions@ == sort_by_time(transactions@),
            exists|d: nat|
                #[trigger] pow2(d) >= transactions@.len() && (d == 0 || pow2((d - 1) as nat) < transactions@.len())
                    && b.merkle@ == merkle_node(b.transactions@, pow2(d) - 1, 0),
    {
        let mut transactions = transactions;
        let tree = MerkleTree::from_transactions(&mut transactions);
        match tree.get_root_hash() {
            None => {
                assert(false);
                Block { index, timestamp, prev_hash, nonce: 0, transactions, merkle: zero_hash_bytes(), difficulty }
            },
            Some(merkle) => {
                assert(merkle@ == merkle_node(tree.transactions@, pow2(tree.depth as nat) - 1, 0));
                Block { index, timestamp, prev_hash, nonce: 0, transactions, merkle, difficulty }
            },
        }
    }

    /// The block's hash.
    pub fn block_digest(&self) -> (h: [u8; 20])
        ensures
            h@ == spec_block_hash(*self),
    {
        Transaction::all_timestamps_ok(&self.transactions);
        let bytes = encode_block(self);
        sha1_digest(bytes.as_slice())
    }

    /// Seals the block by proof of work: tries the nonces from the current
    /// one upwards and keeps the first whose hash meets the difficulty;
    /// `None` when no nonce up to the largest one does.
    pub fn complete_pow(self) -> (r: Option<BlockCompletePoW>)
        ensures
            match r {
                Some(p) => {
                    &&& self.nonce <= p.block_inner.nonce
                    &&& p.block_inner == with_nonce(self, p.block_inner.nonce)
                    &&& spec_pow_nonce(self, p.block_inner.nonce)
                    &&& forall|m: u64| self.nonce <= m < p.block_inner.nonce ==> !spec_pow_nonce(self, m)
                    &&& p.hash@ == spec_block_hash(p.block_inner)
                    &&& p.spec_is_valid()
                },
                None => forall|m: u64| self.nonce <= m ==> !spec_pow_nonce(self, m),
            },
    {
        let ghost start = self;
        let mut block = self;
        loop
            invariant
                start == self,
                start.nonce <= block.nonce,
                block == with_nonce(start, block.nonce),
                forall|m: u64| start.nonce <= m < block.nonce ==> !spec_pow_nonce(start, m),
            decreases u64::MAX - block.nonce,
        {
            let digest = block.block_digest();
            let ok = verify_block_difficulty(&block, &digest);
            assert(ok == spec_pow_nonce(start, block.nonce));
            if ok {
                return Some(BlockCompletePoW { hash: digest, block_inner: block });
            }
            if block.nonce == u64::MAX {
                assert forall|m: u64| start.nonce <= m implies !spec_pow_nonce(start, m) by {
                    if m < block.nonce {
                    }
                }
                return None;
            }
            block.nonce = block.nonce + 1;
        }
    }

    /// Seals the block by proof of stake with a staker's key and signature.
    pub fn complete_pos(self, signing_id: [u8; 32], signature: [u8; 64]) -> (b: BlockCompletePoS)
        ensures
            b.signing_id == signing_id,
            b.signature == signature,
            b.hash@ == spec_block_hash(self),
            b.block_inner == self,
    {
        let hash = self.block_digest();
        BlockCompletePoS { signing_id, signature, hash, block_inner: self }
    }
}

impl Block {
    /// Stakes the block: signs its hash (as bincode writes it, its twenty
    /// bytes) with the staker's 64-byte keypair and seals it by proof of
    /// stake under the keypair's public half; `None` when the keypair bytes
    /// cannot sign. A block staked with a consistent keypair is valid.
    pub fn stake(self, keypair: &[u8; 64]) -> (r: Option<BlockCompletePoS>)
        ensures
            match r {
                Some(p) => {
                    &&& p.block_inner == self
                    &&& p.hash@ == spec_block_hash(self)
                    &&& p.signing_id@ == keypair@.subrange(32, 64)
                    &&& ed25519_sign(keypair@, p.hash@) == Some(p.signature@)
                },
                None => ed25519_sign(keypair@, spec_block_hash(self)) is None,
            },
            keypair_consistent(keypair@) ==> (r matches Some(p) && p.spec_is_valid()),
    {
        let hash = self.block_digest();
        let bytes = bincode_hash(&hash);
        match sign_bytes(keypair, bytes.as_slice()) {
            None => None,
            Some(sig) => {
                let mut id = [0u8; 32];
                let mut i: usize = 0;
                while i < 32
                    invariant
                        i <= 32,
                        forall|j: int| 0 <= j < i ==> id@[j] == keypair@[j + 32],
                    decreases 32 - i,
                {
                    id[i] = keypair[i + 32];
                    i = i + 1;
                }
                assert(id@ =~= keypair@.subrange(32, 64));
                Some(self.complete_pos(id, sig))
            },
        }
    }
}

impl BlockCompletePoW {
    /// A proof-of-work block is valid when its hash is the block's and meets
    /// the difficulty.
    pub open spec fn spec_is_valid(&self) -> bool {
        &&& spec_block_hash(self.block_inner) == self.hash@
        &&& spec_meets_difficulty(self.block_inner, self.hash@)
    }

    pub fn block_hash(&self) -> (h: &[u8; 20])
        ensures
            *h == self.hash,
    {
        &self.hash
    }

    pub fn is_valid(&self) -> (ok: bool)
        ensures
            ok == self.spec_is_valid(),
    {
        let h = self.block_inner.block_digest();
        if !crate::blockchain::merkle::array_eq_20(&h, &self.hash) {
            return false;
        }
        verify_block_difficulty(&self.block_inner, &self.hash)
    }

    /// Accepts a decoded block only if it is valid.
    pub fn checked(block: BlockCompletePoW) -> (res: Result<BlockCompletePoW, BlockError>)
        ensures
            match res {
                Ok(b) => b.spec_is_valid() && b.hash == block.hash && b.block_inner == block.block_inner,
                Err(e) => !block.spec_is_valid() && e == BlockError::InvalidBlock,
            },
    {
        if !block.is_valid() {
            Err(BlockError::InvalidBlock)
        } else {
            Ok(block)
        }
    }

    pub fn get_prev_hash(&self) -> (h: &[u8; 20])
        ensures
            *h == self.block_inner.prev_hash,
    {
        &self.block_inner.prev_hash
    }

    pub fn get_index(&self) -> (i: &u32)
        ensures
            *i == self.block_inner.index,
    {
        &self.block_inner.index
    }

    pub fn get_difficulty(&self) -> (d: &u64)
        ensures
            *d == self.block_inner.difficulty,
    {
        &self.block_inner.difficulty
    }
}

impl BlockCompletePoS {
    /// A proof-of-stake block is valid when its signature verifies, under
    /// its staker's key, over the bincode encoding of its hash.
    pub open spec fn spec_is_valid(&self) -> bool {
        ed25519_verifies(self.signing_id@, self.hash@, self.signature@)
    }

    pub fn is_valid(&self) -> (ok: bool)
        ensures
            ok == self.spec_is_valid(),
    {
        let bytes = bincode_hash(&self.hash);
        verify_signature(&self.signing_id, bytes.as_slice(), &self.signature)
    }

    pub fn block_sig(&self) -> (s: &[u8; 64])
        ensures
            *s == self.signature,
    {
        &self.signature
    }

    pub fn block_hash(&self) -> (h: &[u8; 20])
        ensures
            *h == self.hash,
    {
        &self.hash
    }

    pub fn get_prev_hash(&self) -> (h: &[u8; 20])
        ensures
            *h == self.block_inner.prev_hash,
    {
        &self.block_inner.prev_hash
    }

    pub fn get_index(&self) -> (i: &u32)
        ensures
            *i == self.block_inner.index,
    {
        &self.block_inner.index
    }

    pub fn get_difficulty(&self) -> (d: &u64)
        ensures
            *d == self.block_inner.difficulty,
    {
        &self.block_inner.difficulty
    }
}

impl BlockComplete {
    pub open spec fn spec_hash(&self) -> [u8; 20] {
        match self {
            BlockComplete::POW(b) => b.hash,
            BlockComplete::POS(b) => b.hash,
        }
    }

    pub open spec fn spec_prev_hash(&self) -> [u8; 20] {
        match self {
            BlockComplete::POW(b) => b.block_inner.prev_hash,
            BlockComplete::POS(b) => b.block_inner.prev_hash,
        }
    }

    pub open spec fn spec_inner(&self) -> Block {
        match self {
            BlockComplete::POW(b) => b.block_inner,
            BlockComplete::POS(b) => b.block_inner,
        }
    }

    pub open spec fn spec_is_valid(&self) -> bool {
        match self {
            BlockComplete::POW(b) => b.spec_is_valid(),
            BlockComplete::POS(b) => b.spec_is_valid(),
        }
    }

    pub fn block_hash(&self) -> (h: &[u8; 20])
        ensures
            *h == self.spec_hash(),
    {
        match self {
            BlockComplete::POW(block) => block.block_hash(),
            BlockComplete::POS(block) => block.block_hash(),
        }
    }

    pub fn is_valid(&self) -> (ok: bool)
        ensures
            ok == self.spec_is_valid(),
    {
        match self {
            BlockComplete::POW(block) => block.is_valid(),
            BlockComplete::POS(block) => block.is_valid(),
        }
    }

    pub fn get_prev_hash(&self) -> (h: &[u8; 20])
        ensures
            *h == self.spec_prev_hash(),
    {
        match self {
            BlockComplete::POW(block) => block.get_prev_hash(),
            BlockComplete::POS(block) => block.get_prev_hash(),
        }
    }

    pub fn get_index(&self) -> (i: &u32)
        ensures
            *i == self.spec_inner().index,
    {
        match self {
            BlockComplete::POW(block) => block.get_index(),
            BlockComplete::POS(block) => block.get_index(),
        }
    }

    pub fn get_difficulty(&self) -> (d: &u64)
        ensures
            *d == self.spec_inner().difficulty,
    {
        match self {
            BlockComplete::POW(block) => block.get_difficulty(),
            BlockComplete::POS(block) => block.get_difficulty(),
        }
    }
}

} // verus!
