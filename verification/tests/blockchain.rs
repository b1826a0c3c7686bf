use ed25519_dalek_fiat::{Keypair, PublicKey, SecretKey, Signer};
use kadchain::auction_common::Transaction;
use kadchain::blockchain::block::{verify_block_difficulty, Block, BlockComplete, BlockCompletePoW, BlockError};
use kadchain::blockchain::chain::{compare_chains, Chain, ChainError};
use kadchain::blockchain::merkle::{hash_pair, id_left, id_right, transaction_hash, valid_rec, MerkleTree};
use kadchain::kademlia::rpc::keypair_from_secret;
use kadchain::utils::get_hash;
use std::cmp::Ordering;
use std::time::SystemTime;

fn now_nanos() -> u128 {
    SystemTime::now().duration_since(SystemTime::UNIX_EPOCH).unwrap().as_nanos()
}

fn sixteen_transactions() -> Vec<Transaction> {
    let mut transactions = Vec::new();
    for i in 0..16u64 {
        transactions.push(Transaction::new([1u8; 32], [2u8; 32], i));
    }
    transactions
}

/// A keypair made from a fixed secret.
fn keypair(seed: u8) -> Keypair {
    let secret = SecretKey::from_bytes(&[seed; 32]).unwrap();
    let public: PublicKey = (&secret).into();
    Keypair { secret, public }
}

/// Stakes the block with the keypair made from a fixed secret.
fn stake(block: Block) -> kadchain::blockchain::block::BlockCompletePoS {
    let kp = keypair_from_secret([block.index as u8 + 1; 32]);
    block.stake(&kp).unwrap()
}

#[test]
fn verify_block_diff() {
    let block = Block::new(1, 0, [0; 20], vec![], 1);
    assert!(verify_block_difficulty(&block, &[0u8, 5u8, 5u8, 5u8, 5u8, 5u8, 5u8, 5u8, 5u8, 5u8, 5u8, 5u8, 5u8, 5u8, 5u8, 5u8, 5u8, 5u8, 5u8, 5u8]));
    assert!(!verify_block_difficulty(&block, &[255u8, 5u8, 5u8, 5u8, 5u8, 5u8, 5u8, 5u8, 5u8, 5u8, 5u8, 5u8, 5u8, 5u8, 5u8, 5u8, 5u8, 5u8, 5u8, 5u8]));
    assert!(verify_block_difficulty(&block, &[127u8, 5u8, 5u8, 5u8, 5u8, 5u8, 5u8, 5u8, 5u8, 5u8, 5u8, 5u8, 5u8, 5u8, 5u8, 5u8, 5u8, 5u8, 5u8, 255u8]));
    assert!(!verify_block_difficulty(&block, &[128u8, 5u8, 5u8, 5u8, 5u8, 5u8, 5u8, 5u8, 5u8, 5u8, 5u8, 5u8, 5u8, 5u8, 5u8, 5u8, 5u8, 5u8, 5u8, 5u8]));
}

#[test]
fn chain_test_blockchain_pos() {
    let block = Block::new(1, now_nanos(), [5; 20], vec![], 1);
    let block_complete1 = stake(block);

    let block = Block::new(block_complete1.get_index() + 1, now_nanos(), *block_complete1.block_hash(), vec![], 1);
    let block_complete2 = stake(block);

    let mut chain = Chain::new();
    chain.add(BlockComplete::POS(block_complete1)).expect("Error Adding first block");
    chain.add(BlockComplete::POS(block_complete2)).expect("Error Adding second block");
    assert_eq!(chain.get_number_of_blocks(), 2);
}

#[test]
fn chain_test_blockchain_pow() {
    let block = Block::new(1, now_nanos(), [255; 20], vec![], 1);
    let block = block.complete_pow().unwrap();
    let mut chain = Chain::new();
    chain.add(BlockComplete::POW(block)).expect("Error Adding first block");

    let blk = chain.get_last().unwrap();
    let new_block = Block::new(blk.get_index() + 1, now_nanos(), *blk.block_hash(), vec![], blk.get_difficulty().clone());
    let new_block = new_block.complete_pow().unwrap();
    chain.add(BlockComplete::POW(new_block)).expect("Error Adding second block");
    assert_eq!(chain.get_number_of_blocks(), 2);
}

#[test]
fn main_test_merkle_tree() {
    let mut transactions = sixteen_transactions();
    let tree = MerkleTree::from_transactions(&mut transactions);
    assert!(tree.valid())
}

#[test]
fn main_test_blockchain_pos() {
    let block = Block::new(1, now_nanos(), [5; 20], vec![], 1);
    let block = stake(block);
    let mut chain = Chain::new();
    chain.add(BlockComplete::POS(block)).expect("Error Adding first block");
    assert_eq!(chain.get_number_of_blocks(), 1);
}

#[test]
fn main_test_blockchain_pow() {
    let block = Block::new(1, now_nanos(), [255; 20], vec![], 2);
    let block = block.complete_pow().unwrap();
    let mut chain = Chain::new();
    chain.add(BlockComplete::POW(block)).expect("Error Adding first block");

    let blk = chain.get_last().unwrap();
    let new_block = Block::new(blk.get_index() + 1, now_nanos(), *blk.block_hash(), vec![], blk.get_difficulty().clone());
    let new_block = new_block.complete_pow().unwrap();
    chain.add(BlockComplete::POW(new_block)).expect("Error Adding second block");
    assert_eq!(chain.get_number_of_blocks(), 2);
}

#[test]
fn merkle_test_merkle_tree() {
    let mut transactions = sixteen_transactions();
    let tree = MerkleTree::from_transactions(&mut transactions);
    assert!(tree.valid())
}

#[test]
fn merkle_shape_and_root() {
    let mut transactions = Vec::new();
    for i in 0..3u64 {
        transactions.push(Transaction::new([1u8; 32], [2u8; 32], i));
    }
    let tree = MerkleTree::from_transactions(&mut transactions);
    assert_eq!(*tree.get_depth(), 2);
    assert_eq!(tree.get_number_nodes(), 7);
    assert_eq!(tree.tree.len(), 7);
    let leaf0 = transaction_hash(&transactions[0]);
    let leaf1 = transaction_hash(&transactions[1]);
    let leaf2 = transaction_hash(&transactions[2]);
    assert_eq!(*tree.index(3), leaf0);
    assert_eq!(*tree.index(6), [0u8; 20]);
    let left = hash_pair(&leaf0, &leaf1);
    let right = hash_pair(&leaf2, &[0u8; 20]);
    assert_eq!(tree.get_root_hash(), Some(hash_pair(&left, &right)));
}

#[test]
fn merkle_of_no_transactions() {
    let mut transactions = Vec::new();
    let tree = MerkleTree::from_transactions(&mut transactions);
    assert_eq!(*tree.get_depth(), 0);
    assert_eq!(tree.get_root_hash(), Some([0u8; 20]));
    let block = Block::new(3, 9, [1; 20], vec![], 4);
    assert_eq!(block.merkle, [0u8; 20]);
    assert_eq!(block.nonce, 0);
}

#[test]
fn merkle_sorts_by_time() {
    let a = Transaction::new_at([1u8; 32], [2u8; 32], 5, 300).unwrap();
    let b = Transaction::new_at([1u8; 32], [2u8; 32], 6, 100).unwrap();
    let c = Transaction::new_at([1u8; 32], [2u8; 32], 7, 200).unwrap();
    let mut transactions = vec![a, b, c];
    let _ = MerkleTree::from_transactions(&mut transactions);
    assert_eq!(transactions, vec![b, c, a]);
}

#[test]
fn hash_pair_is_sha1_of_both() {
    let left = [1u8; 20];
    let right = [2u8; 20];
    let mut both = left.to_vec();
    both.extend_from_slice(&right);
    let expected: [u8; 20] = sha1_smol::Sha1::from(&both[..]).digest().bytes();
    assert_eq!(hash_pair(&left, &right), expected);
    assert_eq!(get_hash(&vec![left.to_vec(), right.to_vec()]), expected);
}

#[test]
fn pow_block_meets_difficulty() {
    let block = Block::new(1, 42, [9; 20], vec![], 8);
    let sealed = block.complete_pow().unwrap();
    assert!(sealed.block_hash()[0] == 0);
    assert!(sealed.is_valid());
    assert_eq!(sealed.block_inner.block_digest(), *sealed.block_hash());
    assert_eq!(*sealed.get_prev_hash(), [9; 20]);
    assert_eq!(*sealed.get_difficulty(), 8);
}

#[test]
fn tampered_pow_block_is_refused() {
    let block = Block::new(1, 42, [9; 20], vec![], 4);
    let mut sealed = block.complete_pow().unwrap();
    sealed.hash[19] ^= 1;
    assert!(!sealed.is_valid());
    assert!(matches!(BlockCompletePoW::checked(sealed), Err(BlockError::InvalidBlock)));
}

#[test]
fn chain_refuses_unlinked_block() {
    let first = Block::new(1, 1, [0; 20], vec![], 1).complete_pow().unwrap();
    let first_hash = *first.block_hash();
    let mut chain = Chain::new();
    assert!(chain.add(BlockComplete::POW(first)).is_ok());
    let stray = Block::new(2, 2, [7; 20], vec![], 1).complete_pow().unwrap();
    assert_eq!(chain.add(BlockComplete::POW(stray)), Err(ChainError::NotNextBlock));
    assert_eq!(chain.get_number_of_blocks(), 1);
    assert!(chain.find(&first_hash).is_some());
    assert!(chain.find(&[3u8; 20]).is_none());
    assert!(chain.get(0).is_some());
    assert!(chain.get(1).is_none());
    assert_eq!(chain.iter().count(), 1);
}

#[test]
fn chain_refuses_invalid_block() {
    let mut sealed = Block::new(1, 1, [0; 20], vec![], 2).complete_pow().unwrap();
    sealed.hash[0] ^= 0xFF;
    let mut chain = Chain::new();
    assert_eq!(chain.add(BlockComplete::POW(sealed)), Err(ChainError::NotValidBlock));
    assert_eq!(chain.get_number_of_blocks(), 0);
    assert!(chain.get_last().is_none());
}

#[test]
fn chain_refuses_forged_stake() {
    let block = Block::new(1, 1, [0; 20], vec![], 1);
    let mut staked = stake(block);
    staked.signature[0] ^= 1;
    assert!(!staked.is_valid());
    let mut chain = Chain::new();
    assert_eq!(chain.add(BlockComplete::POS(staked)), Err(ChainError::NotValidBlock));
}

#[test]
fn longer_chain_orders_first() {
    let mut long = Chain::new();
    let first = Block::new(1, 1, [0; 20], vec![], 1).complete_pow().unwrap();
    long.add(BlockComplete::POW(first)).unwrap();
    let short = Chain::new();
    assert_eq!(compare_chains(&long, &short), Ordering::Less);
    assert_eq!(compare_chains(&short, &long), Ordering::Greater);
    assert_eq!(compare_chains(&short, &Chain::new()), Ordering::Equal);
}

#[test]
fn block_hash_is_sha1_of_bincode() {
    let sender = keypair(1).public;
    let receiver = keypair(2).public;
    let nanos: i128 = 1_650_000_000_000_000_042;
    let t = Transaction::new_at(sender.to_bytes(), receiver.to_bytes(), 12, nanos).unwrap();
    let block = Block::new(4, 99, [3; 20], vec![t], 2);
    let ts = time::OffsetDateTime::from_unix_timestamp_nanos(nanos).unwrap();
    let encoded = bincode::serialize(&(
        4u32,
        99u128,
        [3u8; 20],
        0u64,
        vec![(sender, receiver, ts, 12u64)],
        block.merkle,
        2u64,
    ))
    .unwrap();
    let expected: [u8; 20] = sha1_smol::Sha1::from(&encoded[..]).digest().bytes();
    assert_eq!(block.block_digest(), expected);
    assert_eq!(block.merkle, transaction_hash(&t));
}

#[test]
fn child_positions() {
    assert_eq!(id_left(0), 1);
    assert_eq!(id_right(0), 2);
    assert_eq!(id_left(6), 13);
    assert_eq!(id_right(6), 14);
}

#[test]
fn staking_signs_the_hash_bytes() {
    let block = Block::new(1, 5, [5; 20], vec![], 1);
    let hash = block.block_digest();
    let kp = keypair(7);
    let staked = block.stake(&kp.to_bytes()).unwrap();
    assert_eq!(*staked.block_hash(), hash);
    assert_eq!(staked.signing_id, kp.public.to_bytes());
    let bytes = bincode::serialize(&hash).unwrap();
    assert_eq!(*staked.block_sig(), kp.sign(&bytes[..]).to_bytes());
    assert!(staked.is_valid());
}

#[test]
fn staking_with_mismatched_halves_is_refused() {
    let mut kp = keypair(7).to_bytes();
    let other = keypair(8).to_bytes();
    kp[32..].copy_from_slice(&other[32..]);
    let staked = Block::new(1, 5, [5; 20], vec![], 1).stake(&kp).unwrap();
    assert!(!staked.is_valid());
}

#[test]
fn subtree_check_with_own_leaf_check() {
    let mut transactions = Vec::new();
    for i in 0..4u64 {
        transactions.push(Transaction::new([1u8; 32], [2u8; 32], i));
    }
    let tree = MerkleTree::from_transactions(&mut transactions);
    assert!(valid_rec(&tree, 0, 7, |_, _| true));
    assert!(!valid_rec(&tree, 0, 7, |i, _| i != 2));
    assert!(valid_rec(&tree, 1, 7, |i, _| i < 2));
    let mut broken = tree.clone();
    broken.tree[1][0] ^= 1;
    assert!(!valid_rec(&broken, 0, 7, |_, _| true));
}
