//! A small distributed-ledger toolkit: a Kademlia-style routing table and
//! lookup engine, a proof-of-work / proof-of-stake block chain with Merkle
//! trees of transactions, and signed auction records.

pub mod auction_common;
pub mod bits;
pub mod blockchain;
pub mod outside;
pub mod utils;
pub mod kademlia;
