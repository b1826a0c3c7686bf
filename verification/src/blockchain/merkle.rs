use vstd::prelude::*;
use crate::auction_common::{Transaction, bincode_transaction};
use crate::outside::{sha1, bincode_hash};
use crate::utils::{get_hash, concat_all, byte_strings};

verus! {

/// `2^d`.
pub open spec fn pow2(d: nat) -> nat
    decreases d,
{
    if d == 0 {
        1
    } else {
        2 * pow2((d - 1) as nat)
    }
}

/// The SHA-1 digest of a transaction's bincode encoding: its leaf hash.
pub open spec fn tx_hash(t: Transaction) -> Seq<u8> {
    sha1(bincode_transaction(t@.sender, t@.receiver, t@.timestamp, t@.offset, t@.amount))
}

/// Twenty zero bytes: the hash of an empty leaf.
pub open spec fn zero_hash() -> Seq<u8> {
    Seq::new(20, |i: int| 0u8)
}

/// Node `i` of the tree over `txs` with `n_internal` inner nodes: inner node
/// `i` hashes its children `2i + 1` and `2i + 2`; leaf `j` (node
/// `n_internal + j`) is the hash of transaction `j`, or zero past the last.
pub open spec fn merkle_node(txs: Seq<Transaction>, n_internal: int, i: int) -> Seq<u8>
    decreases 2 * n_internal + 2 - i,
{
    if i < 0 || n_internal < 0 {
        zero_hash()
    } else if i >= n_internal {
        if i - n_internal < txs.len() {
            tx_hash(txs[i - n_internal])
        } else {
            zero_hash()
        }
    } else {
        sha1(merkle_node(txs, n_internal, 2 * i + 1) + merkle_node(txs, n_internal, 2 * i + 2))
    }
}

/// Inserts `x` after every transaction made no later than it.
pub open spec fn insert_by_time(s: Seq<Transaction>, x: Transaction) -> Seq<Transaction>
    decreases s.len(),
{
    if s.len() == 0 {
        seq![x]
    } else if s.last()@.timestamp <= x@.timestamp {
        s.push(x)
    } else {
        insert_by_time(s.drop_last(), x).push(s.last())
    }
}

/// `s` stably sorted by time, earliest first.
pub open spec fn sort_by_time(s: Seq<Transaction>) -> Seq<Transaction>
    decreases s.len(),
{
    if s.len() == 0 {
        s
    } else {
        insert_by_time(sort_by_time(s.drop_last()), s.last())
    }
}

/// The check `valid_rec` makes of the subtree at `curr` of a tree with `max`
/// nodes: each inner node hashes its children, each leaf is the hash of its
/// transaction.
pub open spec fn spec_valid_rec(tree: Seq<[u8; 20]>, txs: Seq<Transaction>, curr: int, max: int) -> bool
    decreases max - curr,
{
    if curr < 0 || curr >= max {
        true
    } else if curr >= max / 2 {
        tx_hash(txs[curr - max / 2]) == tree[curr]@
    } else {
        &&& tree[curr]@ == sha1(tree[2 * curr + 1]@ + tree[2 * curr + 2]@)
        &&& spec_valid_rec(tree, txs, 2 * curr + 1, max)
        &&& spec_valid_rec(tree, txs, 2 * curr + 2, max)
    }
}

/// A binary hash tree over the transactions of a block, stored level by
/// level: node 0 is the root, the children of node `i` are `2i + 1` and
/// `2i + 2`, and the leaves come last.
#[derive(Debug, Clone)]
pub struct MerkleTree {
    pub tree: Vec<[u8; 20]>,
    pub transactions: Vec<Transaction>,
    pub depth: u32,
}

/// The hash of an inner node from its two children, fed to SHA-1 as their
/// bincode encodings.
pub fn hash_pair(left: &[u8; 20], right: &[u8; 20]) -> (h: [u8; 20])
    ensures
        h@ == sha1(left@ + right@),
{
    let mut parts: Vec<Vec<u8>> = Vec::new();
    parts.push(bincode_hash(left));
    parts.push(bincode_hash(right));
    let h = get_hash(&parts);
    proof {
        let d = byte_strings(parts@);
        assert(d =~= seq![left@, right@]);
        assert(d.drop_first() =~= seq![right@]);
        assert(d.drop_first().drop_first() =~= Seq::<Seq<u8>>::empty());
        assert(concat_all(d) =~= left@ + right@) by {
            reveal_with_fuel(Seq::flatten, 3);
        }
    }
    h
}

/// The leaf hash of a transaction.
pub fn transaction_hash(t: &Transaction) -> (h: [u8; 20])
    ensures
        h@ == tx_hash(*t),
{
    let mut parts: Vec<Vec<u8>> = Vec::new();
    parts.push(t.bincode_bytes());
    let h = get_hash(&parts);
    proof {
        let d = byte_strings(parts@);
        assert(d.drop_first() =~= Seq::<Seq<u8>>::empty());
        assert(concat_all(d) =~= d[0]) by {
            reveal_with_fuel(Seq::flatten, 2);
        }
    }
    h
}

/// Where `insert_by_time` puts `x`: after the last transaction made no
/// later.
proof fn lemma_insert_time_at(s: Seq<Transaction>, x: Transaction, p: int)
    requires
        0 <= p <= s.len(),
        p == 0 || s[p - 1]@.timestamp <= x@.timestamp,
        forall|j: int| p <= j < s.len() ==> (#[trigger] s[j])@.timestamp > x@.timestamp,
    ensures
        insert_by_time(s, x) == s.subrange(0, p).push(x) + s.subrange(p, s.len() as int),
    decreases s.len() - p,
{
    if s.len() == 0 {
        assert(seq![x] =~= s.subrange(0, p).push(x) + s.subrange(p, s.len() as int));
    } else if p == s.len() {
        assert(s.push(x) =~= s.subrange(0, p).push(x) + s.subrange(p, s.len() as int));
    } else {
        let d = s.drop_last();
        assert(s[s.len() - 1]@.timestamp > x@.timestamp);
        lemma_insert_time_at(d, x, p);
        assert(d.subrange(0, p) =~= s.subrange(0, p));
        assert(insert_by_time(s, x) =~= s.subrange(0, p).push(x) + s.subrange(p, s.len() as int));
    }
}

/// Stably sorts transactions by the time they were made.
pub fn sort_transactions_by_time(txs: &Vec<Transaction>) -> (sorted: Vec<Transaction>)
    ensures
        sorted@ == sort_by_time(txs@),
{
    let mut sorted: Vec<Transaction> = Vec::new();
    let mut i: usize = 0;
    while i < txs.len()
        invariant
            i <= txs@.len(),
            sorted@ == sort_by_time(txs@.subrange(0, i as int)),
        decreases txs@.len() - i,
    {
        let x = txs[i];
        let tx = x.timestamp();
        let mut p: usize = sorted.len();
        while p > 0
            invariant
                p <= sorted@.len(),
                tx == x@.timestamp,
                forall|j: int| p <= j < sorted@.len() ==> (#[trigger] sorted@[j])@.timestamp > x@.timestamp,
            ensures
                p == 0 || sorted@[p - 1]@.timestamp <= x@.timestamp,
            decreases p,
        {
            if sorted[p - 1].timestamp() <= tx {
                break;
            }
            p = p - 1;
        }
        proof {
            lemma_insert_time_at(sorted@, x, p as int);
            let pre = txs@.subrange(0, i + 1);
            assert(pre.drop_last() =~= txs@.subrange(0, i as int));
            assert(pre.last() == x);
        }
        let ghost before = sorted@;
        sorted.insert(p, x);
        assert(sorted@ =~= before.subrange(0, p as int).push(x) + before.subrange(p as int, before.len() as int));
        i = i + 1;
    }
    assert(txs@.subrange(0, txs@.len() as int) =~= txs@);
    sorted
}

/// Twenty zero bytes.
pub fn zero_hash_bytes() -> (h: [u8; 20])
    ensures
        h@ == zero_hash(),
{
    let h = [0u8; 20];
    assert(h@ =~= zero_hash());
    h
}

impl MerkleTree {
    /// The tree over `transactions`, which it first sorts by time: its depth
    /// is the least `d` with `2^d` leaves for them all, the unused leaves are
    /// zero, and every inner node hashes its two children.
    pub fn from_transactions(transactions: &mut Vec<Transaction>) -> (t: MerkleTree)
        requires
            old(transactions)@.len() <= 0x8000_0000,
        ensures
            final(transactions)@ == sort_by_time(old(transactions)@),
            t.transactions@ == final(transactions)@,
            t.depth <= 31,
            pow2(t.depth as nat) >= old(transactions)@.len(),
            t.depth == 0 || pow2((t.depth - 1) as nat) < old(transactions)@.len(),
            t.tree@.len() == 2 * pow2(t.depth as nat) - 1,
            forall|i: int| 0 <= i < t.tree@.len() ==> (#[trigger] t.tree@[i])@ == merkle_node(
                t.transactions@,
                pow2(t.depth as nat) - 1,
                i,
            ),
    {
        let len = transactions.len();
        let mut depth: u32 = 0;
        let mut max_leafs: usize = 1;
        while max_leafs < len
            invariant
                len <= 0x8000_0000,
                max_leafs == pow2(depth as nat),
                1 <= max_leafs <= 0x8000_0000,
                depth <= 31,
                depth == 0 || pow2((depth - 1) as nat) < len,
            decreases 0x8000_0000 - max_leafs,
        {
            proof {
                if depth == 31 {
                    reveal_with_fuel(pow2, 32);
                }
                lemma_pow2_bound(depth as nat, 30);
            }
            max_leafs = max_leafs * 2;
            depth = depth + 1;
        }
        let sorted = sort_transactions_by_time(transactions);
        proof {
            lemma_sort_by_time_len(transactions@);
        }
        *transactions = sorted;
        let n_internal_nodes: usize = max_leafs - 1;
        let total: usize = n_internal_nodes + max_leafs;
        let mut tree: Vec<[u8; 20]> = Vec::new();
        let mut k: usize = 0;
        while k < total
            invariant
                k <= total,
                tree@.len() == k,
                forall|j: int| 0 <= j < k ==> (#[trigger] tree@[j])@ == zero_hash(),
            decreases total - k,
        {
            tree.push(zero_hash_bytes());
            k = k + 1;
        }
        let ghost txs = transactions@;
        let mut i: usize = 0;
        while i < transactions.len()
            invariant
                transactions@ == txs,
                txs.len() == len,
                len <= max_leafs,
                n_internal_nodes == max_leafs - 1,
                total == n_internal_nodes + max_leafs,
                i <= len,
                tree@.len() == total,
                forall|j: int| 0 <= j < total ==> (#[trigger] tree@[j])@ == (if n_internal_nodes <= j < n_internal_nodes + i {
                    tx_hash(txs[j - n_internal_nodes])
                } else {
                    zero_hash()
                }),
            decreases len - i,
        {
            let h = transaction_hash(&transactions[i]);
            tree[n_internal_nodes + i] = h;
            i = i + 1;
        }
        assert forall|j: int| n_internal_nodes <= j < total implies (#[trigger] tree@[j])@ == merkle_node(txs, n_internal_nodes as int, j) by {
        }
        let mut m: usize = n_internal_nodes;
        while m > 0
            invariant
                m <= n_internal_nodes,
                total == n_internal_nodes + max_leafs,
                n_internal_nodes == max_leafs - 1,
                tree@.len() == total,
                forall|j: int| m <= j < total ==> (#[trigger] tree@[j])@ == merkle_node(txs, n_internal_nodes as int, j),
            decreases m,
        {
            let km = m - 1;
            let h = hash_pair(&tree[id_left(km)], &tree[id_right(km)]);
            tree[km] = h;
            m = km;
        }
        MerkleTree { tree, transactions: transactions.clone(), depth }
    }

    pub fn get_depth(&self) -> (d: &u32)
        ensures
            *d == self.depth,
    {
        &self.depth
    }

    /// The number of nodes of a full tree of this depth.
    pub fn get_number_nodes(&self) -> (n: usize)
        requires
            self.depth <= 30,
        ensures
            n == 2 * pow2(self.depth as nat) - 1,
    {
        let mut p: u32 = 1;
        let mut d: u32 = 0;
        while d < self.depth + 1
            invariant
                d <= self.depth + 1,
                self.depth <= 30,
                p == pow2(d as nat),
                1 <= p <= 0x8000_0000,
            decreases self.depth + 1 - d,
        {
            proof {
                lemma_pow2_bound(d as nat, self.depth as nat);
            }
            p = p * 2;
            d = d + 1;
        }
        (p - 1) as usize
    }

    /// The root hash, unless the tree is empty.
    pub fn get_root_hash(&self) -> (h: Option<[u8; 20]>)
        ensures
            match h {
                Some(r) => self.tree@.len() > 0 && r == self.tree@[0],
                None => self.tree@.len() == 0,
            },
    {
        if self.tree.len() == 0 {
            return None;
        }
        Some(self.tree[0])
    }

    /// Node `index` of the tree.
    pub fn index(&self, index: usize) -> (h: &[u8; 20])
        requires
            index < self.tree@.len(),
        ensures
            *h == self.tree@[index as int],
    {
        &self.tree[index]
    }

    /// Checks the whole tree against its transactions.
    pub fn valid(&self) -> (ok: bool)
        requires
            self.depth <= 30,
            self.tree@.len() == 2 * pow2(self.depth as nat) - 1,
            self.transactions@.len() == pow2(self.depth as nat),
        ensures
            ok == spec_valid_rec(self.tree@, self.transactions@, 0, self.tree@.len() as int),
            ok <==> ((forall|i: int|
                0 <= i < self.tree@.len() / 2 ==> #[trigger] self.tree@[i]@ == sha1(
                    self.tree@[2 * i + 1]@ + self.tree@[2 * i + 2]@,
                )) && (forall|l: int|
                self.tree@.len() / 2 <= l < self.tree@.len() ==> #[trigger] self.tree@[l]@ == tx_hash(
                    self.transactions@[l - self.tree@.len() / 2],
                ))),
    {
        let max = self.get_number_nodes();
        let txs = &self.transactions;
        let check = |i: usize, hash: &[u8; 20]| -> (r: bool)
            requires
                i < txs@.len(),
            ensures
                r == (tx_hash(txs@[i as int]) == hash@),
            {
                let h = transaction_hash(&txs[i]);
                array_eq_20(&h, hash)
            };
        let ghost tree = self.tree@;
        let ghost m = max as int;
        assert forall|l: int| m / 2 <= l < m implies call_requires(check, ((l - m / 2) as usize, #[trigger] &tree[l])) by {
        }
        let ok = valid_rec(self, 0, max, check);
        proof {
            let p = verifier_accepts(check, tree, m);
            let q = verifier_never_refuses(check, tree, m);
            assert forall|l: int| m / 2 <= l < m && #[trigger] p(l) implies tx_hash(self.transactions@[l - m / 2]) == tree[l]@ by {
            }
            assert forall|l: int| m / 2 <= l < m && tx_hash(self.transactions@[l - m / 2]) == tree[l]@ implies #[trigger] q(l) by {
            }
            lemma_valid_with_rec(tree, self.transactions@, 0, m, p, q);
        }
        assert(ok == spec_valid_rec(tree, self.transactions@, 0, m));
        proof {
            lemma_valid_rec_all_nodes(tree, self.transactions@, m);
        }
        ok
    }
}

/// Sorting keeps the number of transactions.
proof fn lemma_sort_by_time_len(s: Seq<Transaction>)
    ensures
        sort_by_time(s).len() == s.len(),
    decreases s.len(),
{
    if s.len() > 0 {
        lemma_sort_by_time_len(s.drop_last());
        lemma_insert_by_time_len(sort_by_time(s.drop_last()), s.last());
    }
}

proof fn lemma_insert_by_time_len(s: Seq<Transaction>, x: Transaction)
    ensures
        insert_by_time(s, x).len() == s.len() + 1,
    decreases s.len(),
{
    if s.len() > 0 {
        lemma_insert_by_time_len(s.drop_last(), x);
    }
}

/// `2^d` stays at most `2^30` up to `d = 30`.
proof fn lemma_pow2_bound(d: nat, e: nat)
    requires
        d <= e,
        e <= 30,
    ensures
        pow2(d) <= pow2(30),
        pow2(30) == 0x4000_0000,
    decreases e - d,
{
    assert(pow2(30) == 0x4000_0000) by {
        reveal_with_fuel(pow2, 31);
    }
    if d < e {
        lemma_pow2_bound(d + 1, e);
        assert(pow2(d + 1) == 2 * pow2(d));
    } else {
        lemma_pow2_mono(d, 30);
    }
}

proof fn lemma_pow2_mono(a: nat, b: nat)
    requires
        a <= b,
    ensures
        pow2(a) <= pow2(b),
    decreases b - a,
{
    if a < b {
        lemma_pow2_mono(a + 1, b);
        assert(pow2(a + 1) == 2 * pow2(a));
    }
}

/// The position of a node's left child.
pub fn id_left(parent: usize) -> (c: usize)
    requires
        parent < usize::MAX / 2,
    ensures
        c == 2 * parent + 1,
{
    2 * parent + 1
}

/// The position of a node's right child.
pub fn id_right(parent: usize) -> (c: usize)
    requires
        parent < usize::MAX / 2,
    ensures
        c == 2 * parent + 2,
{
    2 * parent + 2
}

/// The check of the subtree at `curr` of a tree with `max` nodes, with a
/// leaf `l` accepted when `leaf_ok(l)`: each inner node hashes its children,
/// each leaf is accepted.
pub open spec fn spec_valid_with(tree: Seq<[u8; 20]>, curr: int, max: int, leaf_ok: spec_fn(int) -> bool) -> bool
    decreases max - curr,
{
    if curr < 0 || curr >= max {
        true
    } else if curr >= max / 2 {
        leaf_ok(curr)
    } else {
        &&& tree[curr]@ == sha1(tree[2 * curr + 1]@ + tree[2 * curr + 2]@)
        &&& spec_valid_with(tree, 2 * curr + 1, max, leaf_ok)
        &&& spec_valid_with(tree, 2 * curr + 2, max, leaf_ok)
    }
}

/// The leaves the checker answered `true` for could have been accepted.
pub open spec fn verifier_accepts<F: Fn(usize, &[u8; 20]) -> bool>(f: F, tree: Seq<[u8; 20]>, max: int) -> spec_fn(int) -> bool {
    |l: int| call_ensures(f, ((l - max / 2) as usize, &tree[l]), true)
}

/// The leaves the checker could not have answered `false` for.
pub open spec fn verifier_never_refuses<F: Fn(usize, &[u8; 20]) -> bool>(f: F, tree: Seq<[u8; 20]>, max: int) -> spec_fn(int) -> bool {
    |l: int| !call_ensures(f, ((l - max / 2) as usize, &tree[l]), false)
}

/// Checks the subtree at `curr` of a tree with `max` nodes: a leaf with
/// `leaf_verifier` (given its position among the leaves and its hash), an
/// inner node against the hash of its children, then both children. A
/// `true` answer means every leaf reached was accepted by the checker; a
/// `false` one means an inner node was wrong or the checker refused a leaf.
pub fn valid_rec<F>(tree: &MerkleTree, curr: usize, max: usize, leaf_verifier: F) -> (ok: bool)
    where
        F: Fn(usize, &[u8; 20]) -> bool,
    requires
        max == tree.tree@.len(),
        max % 2 == 1,
        curr < max,
        forall|l: int| max / 2 <= l < max ==> call_requires(leaf_verifier, ((l - max / 2) as usize, #[trigger] &tree.tree@[l])),
    ensures
        ok ==> spec_valid_with(tree.tree@, curr as int, max as int, verifier_accepts(leaf_verifier, tree.tree@, max as int)),
        !ok ==> !spec_valid_with(tree.tree@, curr as int, max as int, verifier_never_refuses(leaf_verifier, tree.tree@, max as int)),
{
    valid_rec_by(tree, curr, max, &leaf_verifier)
}

/// The walk of `valid_rec`, sharing one checker.
fn valid_rec_by<F>(tree: &MerkleTree, curr: usize, max: usize, leaf_verifier: &F) -> (ok: bool)
    where
        F: Fn(usize, &[u8; 20]) -> bool,
    requires
        max == tree.tree@.len(),
        max % 2 == 1,
        curr < max,
        forall|l: int| max / 2 <= l < max ==> call_requires(*leaf_verifier, ((l - max / 2) as usize, #[trigger] &tree.tree@[l])),
    ensures
        ok ==> spec_valid_with(tree.tree@, curr as int, max as int, verifier_accepts(*leaf_verifier, tree.tree@, max as int)),
        !ok ==> !spec_valid_with(tree.tree@, curr as int, max as int, verifier_never_refuses(*leaf_verifier, tree.tree@, max as int)),
    decreases max - curr,
{
    if curr >= max / 2 {
        let ok = leaf_verifier(curr - max / 2, &tree.tree[curr]);
        return ok;
    }
    let left = id_left(curr);
    let right = id_right(curr);
    let h = hash_pair(&tree.tree[left], &tree.tree[right]);
    array_eq_20(&tree.tree[curr], &h) && valid_rec_by(tree, left, max, leaf_verifier) && valid_rec_by(
        tree,
        right,
        max,
        leaf_verifier,
    )
}

/// A check whose accepted leaves all match their transaction's hash passes
/// only a tree that `spec_valid_rec` accepts; one that accepts every leaf
/// matching its transaction's hash passes every tree `spec_valid_rec`
/// accepts.
proof fn lemma_valid_with_rec(
    tree: Seq<[u8; 20]>,
    txs: Seq<Transaction>,
    curr: int,
    max: int,
    p: spec_fn(int) -> bool,
    q: spec_fn(int) -> bool,
)
    requires
        forall|l: int| max / 2 <= l < max && #[trigger] p(l) ==> tx_hash(txs[l - max / 2]) == tree[l]@,
        forall|l: int| max / 2 <= l < max && tx_hash(txs[l - max / 2]) == tree[l]@ ==> #[trigger] q(l),
    ensures
        spec_valid_with(tree, curr, max, p) ==> spec_valid_rec(tree, txs, curr, max),
        spec_valid_rec(tree, txs, curr, max) ==> spec_valid_with(tree, curr, max, q),
    decreases max - curr,
{
    if 0 <= curr < max / 2 {
        lemma_valid_with_rec(tree, txs, 2 * curr + 1, max, p, q);
        lemma_valid_with_rec(tree, txs, 2 * curr + 2, max, p, q);
    }
}

/// Every node of a checked tree is checked: the check of the root reaches
/// node `i`.
proof fn lemma_valid_with_descend(tree: Seq<[u8; 20]>, max: int, leaf_ok: spec_fn(int) -> bool, i: int)
    requires
        spec_valid_with(tree, 0, max, leaf_ok),
        0 <= i < max,
    ensures
        spec_valid_with(tree, i, max, leaf_ok),
    decreases i,
{
    if i > 0 {
        let p = (i - 1) / 2;
        lemma_valid_with_descend(tree, max, leaf_ok, p);
        assert(p < max / 2);
    }
}

/// When every inner node at or below `curr` hashes its children and every
/// leaf is accepted, the check of `curr` passes.
proof fn lemma_valid_with_from_nodes(tree: Seq<[u8; 20]>, max: int, leaf_ok: spec_fn(int) -> bool, curr: int)
    requires
        forall|i: int| 0 <= i < max / 2 ==> #[trigger] tree[i]@ == sha1(tree[2 * i + 1]@ + tree[2 * i + 2]@),
        forall|l: int| max / 2 <= l < max ==> #[trigger] leaf_ok(l),
        0 <= curr,
    ensures
        spec_valid_with(tree, curr, max, leaf_ok),
    decreases max - curr,
{
    if curr < max / 2 {
        assert(tree[curr]@ == sha1(tree[2 * curr + 1]@ + tree[2 * curr + 2]@));
        lemma_valid_with_from_nodes(tree, max, leaf_ok, 2 * curr + 1);
        lemma_valid_with_from_nodes(tree, max, leaf_ok, 2 * curr + 2);
    } else if curr < max {
        assert(leaf_ok(curr));
    }
}

/// A tree of `max` nodes passes the check from its root exactly when every
/// inner node, the root included, is SHA-1 of its two children and every
/// leaf is accepted.
pub proof fn lemma_valid_with_all_nodes(tree: Seq<[u8; 20]>, max: int, leaf_ok: spec_fn(int) -> bool)
    requires
        max == tree.len(),
        max % 2 == 1,
    ensures
        spec_valid_with(tree, 0, max, leaf_ok) <==> ((forall|i: int|
            0 <= i < max / 2 ==> #[trigger] tree[i]@ == sha1(tree[2 * i + 1]@ + tree[2 * i + 2]@)) && (forall|l: int|
            max / 2 <= l < max ==> #[trigger] leaf_ok(l))),
{
    if spec_valid_with(tree, 0, max, leaf_ok) {
        assert forall|i: int| 0 <= i < max / 2 implies #[trigger] tree[i]@ == sha1(
            tree[2 * i + 1]@ + tree[2 * i + 2]@,
        ) by {
            lemma_valid_with_descend(tree, max, leaf_ok, i);
        }
        assert forall|l: int| max / 2 <= l < max implies #[trigger] leaf_ok(l) by {
            lemma_valid_with_descend(tree, max, leaf_ok, l);
        }
    }
    if (forall|i: int| 0 <= i < max / 2 ==> #[trigger] tree[i]@ == sha1(tree[2 * i + 1]@ + tree[2 * i + 2]@))
        && (forall|l: int| max / 2 <= l < max ==> #[trigger] leaf_ok(l)) {
        lemma_valid_with_from_nodes(tree, max, leaf_ok, 0);
    }
}

/// A tree of `max` nodes is valid over its transactions exactly when every
/// inner node, the root included, is SHA-1 of its two children and every
/// leaf is the hash of its transaction.
pub proof fn lemma_valid_rec_all_nodes(tree: Seq<[u8; 20]>, txs: Seq<Transaction>, max: int)
    requires
        max == tree.len(),
        max % 2 == 1,
    ensures
        spec_valid_rec(tree, txs, 0, max) <==> ((forall|i: int|
            0 <= i < max / 2 ==> #[trigger] tree[i]@ == sha1(tree[2 * i + 1]@ + tree[2 * i + 2]@)) && (forall|l: int|
            max / 2 <= l < max ==> #[trigger] tree[l]@ == tx_hash(txs[l - max / 2]))),
{
    let p = |l: int| tx_hash(txs[l - max / 2]) == tree[l]@;
    lemma_valid_with_rec(tree, txs, 0, max, p, p);
    lemma_valid_with_all_nodes(tree, max, p);
    if (forall|l: int| max / 2 <= l < max ==> #[trigger] tree[l]@ == tx_hash(txs[l - max / 2])) {
        assert forall|l: int| max / 2 <= l < max implies #[trigger] p(l) by {
            assert(tree[l]@ == tx_hash(txs[l - max / 2]));
        }
    }
    if (forall|l: int| max / 2 <= l < max ==> #[trigger] p(l)) {
        assert forall|l: int| max / 2 <= l < max implies #[trigger] tree[l]@ == tx_hash(txs[l - max / 2]) by {
            assert(p(l));
        }
    }
}

/// Byte-wise equality of two hashes.
pub fn array_eq_20(a: &[u8; 20], b: &[u8; 20]) -> (r: bool)
    ensures
        r == (a@ == b@),
{
    let r = crate::kademlia::node::array_eq(a, b);
    proof {
        if a@ == b@ {
            assert(*a =~= *b);
        }
    }
    r
}

/// A tree built from its transactions checks as valid when their number is
/// a power of two, that is when no leaf is left empty.
pub proof fn lemma_built_tree_valid(tree: Seq<[u8; 20]>, txs: Seq<Transaction>, depth: nat, curr: int)
    requires
        tree.len() == 2 * pow2(depth) - 1,
        txs.len() == pow2(depth),
        forall|i: int| 0 <= i < tree.len() ==> (#[trigger] tree[i])@ == merkle_node(txs, pow2(depth) - 1, i),
        0 <= curr,
    ensures
        spec_valid_rec(tree, txs, curr, tree.len() as int),
    decreases tree.len() - curr,
{
    let max = tree.len() as int;
    let n = pow2(depth) - 1;
    assert(max / 2 == n);
    if curr < max {
        if curr >= max / 2 {
            assert(tree[curr]@ == merkle_node(txs, n, curr));
        } else {
            assert(tree[curr]@ == merkle_node(txs, n, curr));
            assert(tree[2 * curr + 1]@ == merkle_node(txs, n, 2 * curr + 1));
            assert(tree[2 * curr + 2]@ == merkle_node(txs, n, 2 * curr + 2));
            lemma_built_tree_valid(tree, txs, depth, 2 * curr + 1);
            lemma_built_tree_valid(tree, txs, depth, 2 * curr + 2);
        }
    }
}

} // verus!
