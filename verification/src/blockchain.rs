//! A chain of blocks of transactions, each block sealed by proof of work or
//! proof of stake and carrying the Merkle root of its transactions.
pub mod block;
pub mod chain;
pub mod merkle;
