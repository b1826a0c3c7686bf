use vstd::prelude::*;
use std::cmp::Ordering;
use vstd::std_specs::iter::IteratorSpec;
use crate::blockchain::block::BlockComplete;
use crate::blockchain::merkle::array_eq_20;

verus! {

/// Why a block was not appended.
#[derive(Debug, Clone, Copy, PartialEq, Eq)]
pub enum ChainError {
    NotNextBlock,
    NotValidBlock,
}

/// A chain of sealed blocks, oldest first.
#[derive(Debug, Clone)]
pub struct Chain {
    chain: Vec<BlockComplete>,
}

impl View for Chain {
    type V = Seq<BlockComplete>;

    closed spec fn view(&self) -> Seq<BlockComplete> {
        self.chain@
    }
}

/// Each block names the hash of the block before it.
pub open spec fn spec_linked(blocks: Seq<BlockComplete>) -> bool {
    forall|i: int| 0 < i < blocks.len() ==> #[trigger] blocks[i].spec_prev_hash() == blocks[i - 1].spec_hash()
}

/// Every block is valid.
pub open spec fn spec_all_valid(blocks: Seq<BlockComplete>) -> bool {
    forall|i: int| 0 <= i < blocks.len() ==> #[trigger] blocks[i].spec_is_valid()
}

/// Whether `block` may follow the blocks: it names the last block's hash
/// (any block may start an empty chain).
pub open spec fn spec_follows(blocks: Seq<BlockComplete>, block: BlockComplete) -> bool {
    blocks.len() > 0 ==> block.spec_prev_hash() == blocks.last().spec_hash()
}

impl Chain {
    /// An empty chain.
    pub fn new() -> (c: Chain)
        ensures
            c@ == Seq::<BlockComplete>::empty(),
            spec_linked(c@),
            spec_all_valid(c@),
    {
        Chain { chain: Vec::new() }
    }

    /// Appends `block` if it names the last block's hash and is valid.
    pub fn add(&mut self, block: BlockComplete) -> (res: Result<(), ChainError>)
        ensures
            !spec_follows(old(self)@, block) ==> res == Err::<(), ChainError>(ChainError::NotNextBlock)
                && final(self)@ == old(self)@,
            spec_follows(old(self)@, block) && !block.spec_is_valid() ==> res == Err::<(), ChainError>(
                ChainError::NotValidBlock,
            ) && final(self)@ == old(self)@,
            spec_follows(old(self)@, block) && block.spec_is_valid() ==> res is Ok && final(self)@ == old(
                self,
            )@.push(block),
            spec_linked(old(self)@) && spec_all_valid(old(self)@) ==> spec_linked(final(self)@)
                && spec_all_valid(final(self)@),
    {
        proof {
            if spec_follows(self@, block) && block.spec_is_valid() && spec_linked(self@) && spec_all_valid(self@) {
                lemma_add_keeps_chain(self@, block);
            }
        }
        let n = self.chain.len();
        if n > 0 {
            let prev = self.chain[n - 1].block_hash();
            let same = array_eq_20(block.get_prev_hash(), prev);
            proof {
                assert(self@.last() == self.chain@[n - 1]);
                if same {
                    assert(block.spec_prev_hash() =~= self@.last().spec_hash());
                }
            }
            if !same {
                return Err(ChainError::NotNextBlock);
            }
        }
        if !block.is_valid() {
            return Err(ChainError::NotValidBlock);
        }
        self.chain.push(block);
        Ok(())
    }

    /// The blocks, oldest first.
    pub fn iter(&self) -> (it: std::slice::Iter<'_, BlockComplete>)
        ensures
            it.remaining() == self@.map_values(|b: BlockComplete| &b),
    {
        proof {
            broadcast use vstd::std_specs::slice::axiom_spec_slice_iter;
        }
        let it = self.chain.as_slice().iter();
        assert(it.remaining() =~= self@.map_values(|b: BlockComplete| &b));
        it
    }

    /// The first block whose hash is `hash`.
    pub fn find(&self, hash: &[u8]) -> (r: Option<&BlockComplete>)
        ensures
            match r {
                Some(b) => exists|i: int|
                    0 <= i < self@.len() && self@[i] == *b && b.spec_hash()@ == hash@ && forall|j: int|
                        0 <= j < i ==> #[trigger] self@[j].spec_hash()@ != hash@,
                None => forall|i: int| 0 <= i < self@.len() ==> #[trigger] self@[i].spec_hash()@ != hash@,
            },
    {
        let mut i: usize = 0;
        while i < self.chain.len()
            invariant
                i <= self.chain@.len(),
                forall|j: int| 0 <= j < i ==> #[trigger] self.chain@[j].spec_hash()@ != hash@,
            decreases self.chain@.len() - i,
        {
            let h = self.chain[i].block_hash();
            if slice_eq_array(hash, h) {
                assert(self@[i as int] == self.chain@[i as int]);
                return Some(&self.chain[i]);
            }
            i = i + 1;
        }
        None
    }

    /// The newest block, if any.
    pub fn get_last(&self) -> (r: Option<&BlockComplete>)
        ensures
            self@.len() == 0 ==> r is None,
            self@.len() > 0 ==> r == Some(&self@.last()),
    {
        self.chain.last()
    }

    /// The block at `index`, if there is one.
    pub fn get(&self, index: usize) -> (r: Option<&BlockComplete>)
        ensures
            index >= self@.len() ==> r is None,
            index < self@.len() ==> r == Some(&self@[index as int]),
    {
        if index >= self.chain.len() {
            return None;
        }
        Some(&self.chain[index])
    }

    /// How many blocks the chain holds.
    pub fn get_number_of_blocks(&self) -> (n: usize)
        ensures
            n == self@.len(),
    {
        self.chain.len()
    }
}

/// Whether a byte slice equals a 20-byte hash.
fn slice_eq_array(a: &[u8], b: &[u8; 20]) -> (eq: bool)
    ensures
        eq == (a@ == b@),
{
    if a.len() != 20 {
        return false;
    }
    let mut i: usize = 0;
    while i < 20
        invariant
            a@.len() == 20,
            b@.len() == 20,
            forall|j: int| 0 <= j < i ==> a@[j] == b@[j],
        decreases 20 - i,
    {
        if a[i] != b[i] {
            return false;
        }
        i = i + 1;
    }
    assert(a@ =~= b@);
    true
}

/// Orders chains longest first: the longer chain comes before the shorter.
pub fn compare_chains(ch1: &Chain, ch2: &Chain) -> (o: Ordering)
    ensures
        ch1@.len() > ch2@.len() ==> o == Ordering::Less,
        ch1@.len() < ch2@.len() ==> o == Ordering::Greater,
        ch1@.len() == ch2@.len() ==> o == Ordering::Equal,
{
    let n1 = ch1.get_number_of_blocks();
    let n2 = ch2.get_number_of_blocks();
    if n1 < n2 {
        Ordering::Greater
    } else if n1 > n2 {
        Ordering::Less
    } else {
        Ordering::Equal
    }
}

/// Appending keeps a chain linked and valid: whatever `add` accepts extends
/// a linked chain of valid blocks to a longer one.
pub proof fn lemma_add_keeps_chain(before: Seq<BlockComplete>, block: BlockComplete)
    requires
        spec_linked(before),
        spec_all_valid(before),
        spec_follows(before, block),
        block.spec_is_valid(),
    ensures
        spec_linked(before.push(block)),
        spec_all_valid(before.push(block)),
{
    let after = before.push(block);
    assert forall|i: int| 0 < i < after.len() implies #[trigger] after[i].spec_prev_hash() == after[i
        - 1].spec_hash() by {
        if i < before.len() {
            assert(after[i] == before[i]);
            assert(after[i - 1] == before[i - 1]);
        }
    }
    assert forall|i: int| 0 <= i < after.len() implies #[trigger] after[i].spec_is_valid() by {
        if i < before.len() {
            assert(after[i] == before[i]);
        }
    }
}

} // verus!
