# kadchain

A verified core for a small distributed ledger:

- `src/kademlia`: identifiers and the XOR metric, routing-table buckets,
  the closest-peer search, request answering, and the iterative lookup as a
  state machine driven by its caller.
- `src/blockchain`: Merkle trees over transactions, blocks sealed by proof
  of work or proof of stake, and the chain that links them.
- `src/auction_common`: transactions and auctions.
- `src/outside.rs`: the calls into outside crates (SHA-1, SHA-256, hex,
  Ed25519, bincode, postcard, time, rand), each behind a stated contract.

`app/` holds what Verus does not check: the UDP node with its tokio tasks,
the serde wire formats, and text renderings.
