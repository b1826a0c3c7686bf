use vstd::prelude::*;
use crate::kademlia::{K, BUCKET_REFRESH_INTERVAL, NANOS_PER_SEC};
use crate::kademlia::node::NodeInfo;
use crate::outside::{now_utc_nanos, timestamp_in_range};

verus! {

/// One bucket of the routing table: the peers at one distance range, least
/// recently seen first, and when the bucket last changed (Unix time in
/// nanoseconds).
#[derive(Debug, Clone)]
pub struct KadBucket {
    pub nodes: Vec<NodeInfo>,
    pub last_update: i128,
}

/// The bucket after `n` was seen: `n` moves to (or enters at) the back, and
/// when that makes the bucket hold more than `K` peers the front one leaves.
pub open spec fn spec_bucket_update(s: Seq<NodeInfo>, n: NodeInfo) -> Seq<NodeInfo> {
    let t = s.remove_value(n).push(n);
    if t.len() > K {
        t.drop_first()
    } else {
        t
    }
}

/// Whether a bucket last updated at `last_update` is stale at `now`: more
/// than the refresh interval has passed.
pub open spec fn spec_is_stale(last_update: i128, now: i128) -> bool {
    now - last_update > BUCKET_REFRESH_INTERVAL * NANOS_PER_SEC
}

/// Finds the first position of `node` in `nodes`, if any.
pub fn position_of(nodes: &Vec<NodeInfo>, node: &NodeInfo) -> (res: Option<usize>)
    ensures
        match res {
            Some(i) => i < nodes@.len() && nodes@[i as int] == *node
                && nodes@.index_of_first(*node) == Some(i as int),
            None => nodes@.index_of_first(*node) is None,
        },
{
    proof {
        nodes@.index_of_first_ensures(*node);
    }
    let mut i: usize = 0;
    while i < nodes.len()
        invariant
            i <= nodes@.len(),
            forall|j: int| 0 <= j < i ==> nodes@[j] != *node,
        decreases nodes@.len() - i,
    {
        if nodes[i].equals(node) {
            proof {
                nodes@.index_of_first_ensures(*node);
                assert(nodes@[i as int] == *node);
                assert(nodes@.contains(*node));
                match nodes@.index_of_first(*node) {
                    Some(k) => {
                        if k < i {
                        } else if k > i {
                        }
                    },
                    None => {
                        assert(nodes@.contains(*node));
                    },
                }
            }
            return Some(i);
        }
        i = i + 1;
    }
    proof {
        nodes@.index_of_first_ensures(*node);
        if nodes@.contains(*node) {
            let k = choose|k: int| 0 <= k < nodes@.len() && nodes@[k] == *node;
            assert(nodes@[k] != *node);
        }
    }
    None
}

impl KadBucket {
    /// An empty bucket, updated at `now`.
    pub fn new_at(now: i128) -> (b: KadBucket)
        ensures
            b.nodes@ == Seq::<NodeInfo>::empty(),
            b.last_update == now,
    {
        KadBucket { nodes: Vec::new(), last_update: now }
    }

    /// An empty bucket, updated now: its update time is the clock's reading,
    /// an instant `time` can represent.
    pub fn new() -> (b: KadBucket)
        ensures
            b.nodes@ == Seq::<NodeInfo>::empty(),
            timestamp_in_range(b.last_update),
    {
        Self::new_at(now_utc_nanos())
    }

    pub fn nodes(&self) -> (s: &[NodeInfo])
        ensures
            s@ == self.nodes@,
    {
        self.nodes.as_slice()
    }

    /// Records that `node_data` was seen at `now`.
    pub fn update_node_at(&mut self, node_data: NodeInfo, now: i128)
        ensures
            final(self).nodes@ == spec_bucket_update(old(self).nodes@, node_data),
            final(self).last_update == now,
    {
        self.last_update = now;
        let ghost s = self.nodes@;
        if let Some(index) = position_of(&self.nodes, &node_data) {
            self.nodes.remove(index);
        }
        assert(self.nodes@ == s.remove_value(node_data));
        self.nodes.push(node_data);
        if self.nodes.len() > K as usize {
            self.nodes.remove(0);
            assert(self.nodes@ =~= s.remove_value(node_data).push(node_data).drop_first());
        }
    }

    /// Records that `node_data` was seen now.
    pub fn update_node(&mut self, node_data: NodeInfo)
        ensures
            final(self).nodes@ == spec_bucket_update(old(self).nodes@, node_data),
            timestamp_in_range(final(self).last_update),
    {
        let now = now_utc_nanos();
        self.update_node_at(node_data, now);
    }

    /// Whether the bucket is stale at `now`.
    pub fn is_stale_at(&self, now: i128) -> (r: bool)
        ensures
            r == spec_is_stale(self.last_update, now),
    {
        let limit: i128 = BUCKET_REFRESH_INTERVAL as i128 * NANOS_PER_SEC;
        if self.last_update > i128::MAX - limit {
            false
        } else {
            now > self.last_update + limit
        }
    }

    /// Whether the bucket is stale now: its staleness at the clock's
    /// reading, an instant `time` can represent.
    pub fn is_stale(&self) -> (r: bool)
        ensures
            exists|t: i128| #[trigger] timestamp_in_range(t) && r == spec_is_stale(self.last_update, t),
    {
        let now = now_utc_nanos();
        let r = self.is_stale_at(now);
        assert(timestamp_in_range(now) && r == spec_is_stale(self.last_update, now));
        r
    }

    /// Forgets `node`, if the bucket holds it.
    pub fn delete_node(&mut self, node: &NodeInfo)
        ensures
            final(self).nodes@ == old(self).nodes@.remove_value(*node),
            final(self).last_update == old(self).last_update,
    {
        if let Some(idx) = position_of(&self.nodes, node) {
            self.nodes.remove(idx);
        }
    }
}

impl Default for KadBucket {
    /// An empty bucket, updated now.
    fn default() -> (b: KadBucket)
        ensures
            b.nodes@ == Seq::<NodeInfo>::empty(),
    {
        KadBucket::new()
    }
}

/// A bucket without repeated peers and with at most `K` of them stays so
/// when a peer is seen; the peer is then the most recent one, and held once.
pub proof fn lemma_update_node_keeps_bucket_wf(s: Seq<NodeInfo>, n: NodeInfo)
    requires
        s.no_duplicates(),
        s.len() <= K,
    ensures
        spec_bucket_update(s, n).no_duplicates(),
        spec_bucket_update(s, n).len() <= K,
        spec_bucket_update(s, n).len() > 0,
        spec_bucket_update(s, n).last() == n,
        spec_bucket_update(s, n).contains(n),
{
    lemma_delete_node_forgets(s, n);
    let r = s.remove_value(n);
    let t = r.push(n);
    assert(t.no_duplicates()) by {
        assert forall|a: int, b: int| 0 <= a < t.len() && 0 <= b < t.len() && a != b implies t[a] != t[b] by {
            if a == r.len() {
                assert(t[b] == r[b]);
            } else if b == r.len() {
                assert(t[a] == r[a]);
            }
        }
    }
    assert(r.len() <= s.len());
    if t.len() > K {
        let u = t.drop_first();
        assert(u.last() == n);
        assert(u.no_duplicates()) by {
            assert forall|a: int, b: int| 0 <= a < u.len() && 0 <= b < u.len() && a != b implies u[a] != u[b] by {
                assert(u[a] == t[a + 1]);
                assert(u[b] == t[b + 1]);
            }
        }
        assert(u[u.len() - 1] == n);
    } else {
        assert(t[t.len() - 1] == n);
    }
}

/// Seeing a peer the bucket already holds only moves it to the back: the
/// bucket keeps its length and every other peer. A peer it does not hold is
/// added at the back, and the front peer is evicted only when the bucket was
/// already full.
pub proof fn lemma_update_node_moves_or_evicts(s: Seq<NodeInfo>, n: NodeInfo)
    requires
        s.len() <= K,
    ensures
        s.contains(n) ==> spec_bucket_update(s, n) == s.remove_value(n).push(n),
        s.contains(n) ==> spec_bucket_update(s, n).len() == s.len(),
        s.contains(n) ==> forall|m: NodeInfo| #[trigger] s.contains(m) ==> spec_bucket_update(s, n).contains(m),
        !s.contains(n) && s.len() < K ==> spec_bucket_update(s, n) == s.push(n),
        !s.contains(n) && s.len() == K ==> spec_bucket_update(s, n) == s.push(n).drop_first(),
{
    s.index_of_first_ensures(n);
    let r = s.remove_value(n);
    if s.contains(n) {
        let i = s.index_of_first(n)->0;
        assert(r == s.remove(i));
        assert(r.len() == s.len() - 1);
        let t = r.push(n);
        assert forall|m: NodeInfo| #[trigger] s.contains(m) implies spec_bucket_update(s, n).contains(m) by {
            let k = choose|k: int| 0 <= k < s.len() && s[k] == m;
            if m == n {
                assert(t[t.len() - 1] == n);
            } else if k < i {
                assert(t[k] == m);
            } else {
                assert(k != i);
                assert(t[k - 1] == m);
            }
        }
    } else {
        assert(r == s);
    }
}

/// A bucket without repeated peers no longer holds a peer once it is deleted.
pub proof fn lemma_delete_node_forgets(s: Seq<NodeInfo>, n: NodeInfo)
    requires
        s.no_duplicates(),
    ensures
        !s.remove_value(n).contains(n),
        s.remove_value(n).no_duplicates(),
        s.remove_value(n).len() <= s.len(),
{
    s.index_of_first_ensures(n);
    let r = s.remove_value(n);
    match s.index_of_first(n) {
        Some(i) => {
            assert(r =~= s.subrange(0, i) + s.subrange(i + 1, s.len() as int));
            assert forall|j: int| 0 <= j < r.len() implies r[j] != n by {
                if j < i {
                    assert(r[j] == s[j]);
                } else {
                    assert(r[j] == s[j + 1]);
                }
            }
            assert forall|a: int, b: int| 0 <= a < r.len() && 0 <= b < r.len() && a != b implies r[a] != r[b] by {
                let a2 = if a < i { a } else { a + 1 };
                let b2 = if b < i { b } else { b + 1 };
                assert(r[a] == s[a2]);
                assert(r[b] == s[b2]);
            }
        },
        None => {},
    }
}

} // verus!
