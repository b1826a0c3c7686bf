//! A node's own state: its routing table of 161 buckets and the values it
//! stores, and how it answers requests from them.
use vstd::prelude::*;
use crate::kademlia::{ALPHA, BROADCAST_AGE_LIMIT_SECS, NANOS_PER_SEC};
use crate::kademlia::buckets::{KadBucket, spec_bucket_update, spec_is_stale};
use crate::kademlia::distance::{sort_by_distance, sort_nodes_by_distance, sorted_by_distance, lex_le, node_distance, lemma_sort_by_distance};
use crate::kademlia::lookup::lex_lt;
use crate::bits::lemma_leading_zeros_bound;
use crate::kademlia::kadid::KadID;
use crate::kademlia::node::{NodeInfo, array_eq};
use crate::kademlia::rpc::{KadRequest, KadRequestFunction, KadResponse, KadResponseFunction, KadFindValueResponse};
use crate::kademlia::util::{spec_xor, spec_bucket, bucket};
use crate::outside::{now_utc_nanos, timestamp_in_range};
use crate::utils::append_bytes;

verus! {

/// Number of buckets in a routing table: one per possible bucket index.
pub const NUM_BUCKETS: usize = 161;

/// Everything a node keeps: its key pair (secret then public half), its
/// identifier, its buckets, and the values stored at it (one entry per key).
#[derive(Debug, Clone)]
pub struct LocalNodeData {
    pub local_keypair: [u8; 64],
    pub local_id: KadID,
    pub buckets: Vec<KadBucket>,
    pub storage: Vec<(KadID, Vec<u8>)>,
}

/// The peers of each bucket.
pub open spec fn buckets_view(b: Seq<KadBucket>) -> Seq<Seq<NodeInfo>> {
    b.map_values(|x: KadBucket| x.nodes@)
}

/// The value stored under `key`: the first entry with that key.
pub open spec fn storage_get(st: Seq<(KadID, Vec<u8>)>, key: Seq<u8>) -> Option<Seq<u8>>
    decreases st.len(),
{
    if st.len() == 0 {
        None
    } else if st[0].0@ == key {
        Some(st[0].1@)
    } else {
        storage_get(st.drop_first(), key)
    }
}

/// The rounds of the search for peers around bucket `index`: round `t` adds
/// bucket `index - t` then bucket `index + t` (those that exist), and the
/// search stops once `count` peers are gathered or no bucket is left.
pub open spec fn gather_rounds(
    bs: Seq<Seq<NodeInfo>>,
    index: int,
    count: int,
    t: int,
    acc: Seq<NodeInfo>,
) -> Seq<NodeInfo>
    decreases bs.len() - t,
{
    if t < 1 || index < 0 || index >= bs.len() || !(index - t >= 0 || index + t < bs.len()) {
        acc
    } else {
        let down = if index - t >= 0 { bs[index - t] } else { Seq::empty() };
        let up = if index + t < bs.len() { bs[index + t] } else { Seq::empty() };
        let acc2 = acc + down + up;
        if acc2.len() >= count {
            acc2
        } else {
            gather_rounds(bs, index, count, t + 1, acc2)
        }
    }
}

/// The peers gathered for a search around bucket `index`: that bucket, then
/// rounds outwards while fewer than `count` are known.
pub open spec fn gather(bs: Seq<Seq<NodeInfo>>, index: int, count: int) -> Seq<NodeInfo> {
    let start = bs[index];
    if start.len() >= count {
        start
    } else {
        gather_rounds(bs, index, count, 1, start)
    }
}

/// The `count` peers a routing table offers for `key`: those gathered around
/// the bucket of `key`, nearest to `key` first.
pub open spec fn spec_closest(bs: Seq<Seq<NodeInfo>>, key: Seq<u8>, count: nat) -> Seq<NodeInfo> {
    let s = sort_by_distance(gather(bs, spec_bucket(key), count as int), key);
    if count < s.len() {
        s.take(count as int)
    } else {
        s
    }
}

/// Whether a broadcast sent at `sent` is still accepted at `now`, given
/// whether it was seen before.
pub open spec fn spec_accept_broadcast(now: i128, sent: i128, seen: bool) -> bool {
    now - sent <= BROADCAST_AGE_LIMIT_SECS * NANOS_PER_SEC && !seen
}

/// Appends copies of `items` to `out`.
pub fn extend_nodes(out: &mut Vec<NodeInfo>, items: &[NodeInfo])
    ensures
        final(out)@ == old(out)@ + items@,
{
    let mut i: usize = 0;
    while i < items.len()
        invariant
            i <= items@.len(),
            out@ == old(out)@ + items@.subrange(0, i as int),
        decreases items@.len() - i,
    {
        out.push(items[i]);
        i = i + 1;
        assert(out@ =~= old(out)@ + items@.subrange(0, i as int));
    }
    assert(items@.subrange(0, items@.len() as int) =~= items@);
}

/// A copy of a byte vector.
pub fn copy_bytes(v: &Vec<u8>) -> (c: Vec<u8>)
    ensures
        c@ == v@,
{
    let mut c: Vec<u8> = Vec::new();
    append_bytes(&mut c, v.as_slice());
    c
}

/// Whether a broadcast sent at `sent` is accepted at `now`: it is at most
/// the age limit old and was not seen before.
pub fn accept_broadcast(now: i128, sent: i128, seen: bool) -> (ok: bool)
    ensures
        ok == spec_accept_broadcast(now, sent, seen),
{
    let limit: i128 = BROADCAST_AGE_LIMIT_SECS as i128 * NANOS_PER_SEC;
    if seen {
        false
    } else if sent > i128::MAX - limit {
        true
    } else {
        now <= sent + limit
    }
}

impl LocalNodeData {
    /// The routing table has one bucket per bucket index.
    pub open spec fn wf(&self) -> bool {
        self.buckets@.len() == NUM_BUCKETS
    }

    /// A node with an empty routing table and nothing stored, its buckets
    /// updated at `now`.
    pub fn new_at(local_id: KadID, local_keypair: [u8; 64], now: i128) -> (d: LocalNodeData)
        ensures
            d.wf(),
            d.local_id == local_id,
            d.local_keypair == local_keypair,
            forall|i: int| 0 <= i < NUM_BUCKETS ==> (#[trigger] d.buckets@[i]).nodes@.len() == 0,
            d.storage@.len() == 0,
    {
        let mut buckets: Vec<KadBucket> = Vec::new();
        let mut i: usize = 0;
        while i < NUM_BUCKETS
            invariant
                i <= NUM_BUCKETS,
                buckets@.len() == i,
                forall|j: int| 0 <= j < i ==> (#[trigger] buckets@[j]).nodes@.len() == 0,
            decreases NUM_BUCKETS - i,
        {
            buckets.push(KadBucket::new_at(now));
            i = i + 1;
        }
        LocalNodeData { local_keypair, local_id, buckets, storage: Vec::new() }
    }

    /// A node with an empty routing table and nothing stored.
    pub fn new(local_id: KadID, local_keypair: [u8; 64]) -> (d: LocalNodeData)
        ensures
            d.wf(),
            d.local_id == local_id,
            d.local_keypair == local_keypair,
            forall|i: int| 0 <= i < NUM_BUCKETS ==> (#[trigger] d.buckets@[i]).nodes@.len() == 0,
            d.storage@.len() == 0,
    {
        Self::new_at(local_id, local_keypair, now_utc_nanos())
    }

    /// The bucket index a peer belongs to: that of its distance to this node.
    pub open spec fn bucket_of(&self, id: Seq<u8>) -> int {
        spec_bucket(spec_xor(self.local_id@, id))
    }

    /// Records that `node_data` was seen at `now`, in the bucket of its
    /// distance.
    pub fn update_node_at(&mut self, node_data: NodeInfo, now: i128)
        requires
            old(self).wf(),
        ensures
            final(self).wf(),
            final(self).local_id == old(self).local_id,
            final(self).local_keypair == old(self).local_keypair,
            final(self).storage@ == old(self).storage@,
            ({
                let b = old(self).bucket_of(node_data.id@);
                &&& final(self).buckets@[b].nodes@ == spec_bucket_update(old(self).buckets@[b].nodes@, node_data)
                &&& final(self).buckets@[b].last_update == now
                &&& forall|i: int| 0 <= i < NUM_BUCKETS && i != b ==> #[trigger] final(self).buckets@[i] == old(self).buckets@[i]
            }),
    {
        let distance = self.local_id.xor(&node_data.id);
        let target = bucket(&distance) as usize;
        let mut b = self.buckets.remove(target);
        b.update_node_at(node_data, now);
        self.buckets.insert(target, b);
        proof {
            let o = old(self).buckets@;
            assert forall|i: int| 0 <= i < NUM_BUCKETS && i != target implies #[trigger] self.buckets@[i] == o[i] by {
                if i < target {
                } else {
                }
            }
        }
    }

    /// Records that `node_data` was seen now.
    pub fn update_node(&mut self, node_data: NodeInfo)
        requires
            old(self).wf(),
        ensures
            final(self).wf(),
            final(self).local_id == old(self).local_id,
            final(self).local_keypair == old(self).local_keypair,
            final(self).storage@ == old(self).storage@,
            ({
                let b = old(self).bucket_of(node_data.id@);
                &&& final(self).buckets@[b].nodes@ == spec_bucket_update(old(self).buckets@[b].nodes@, node_data)
                &&& timestamp_in_range(final(self).buckets@[b].last_update)
                &&& forall|i: int| 0 <= i < NUM_BUCKETS && i != b ==> #[trigger] final(self).buckets@[i] == old(self).buckets@[i]
            }),
    {
        self.update_node_at(node_data, now_utc_nanos());
    }

    /// Forgets `node` in the bucket of its distance.
    pub fn delete_node(&mut self, node: &NodeInfo)
        requires
            old(self).wf(),
        ensures
            final(self).wf(),
            final(self).local_id == old(self).local_id,
            final(self).storage@ == old(self).storage@,
            ({
                let b = old(self).bucket_of(node.id@);
                &&& final(self).buckets@[b].nodes@ == old(self).buckets@[b].nodes@.remove_value(*node)
                &&& final(self).buckets@[b].last_update == old(self).buckets@[b].last_update
                &&& forall|i: int| 0 <= i < NUM_BUCKETS && i != b ==> #[trigger] final(self).buckets@[i] == old(self).buckets@[i]
            }),
    {
        let distance = node.id.xor(&self.local_id);
        proof {
            assert(spec_xor(node.id@, self.local_id@) =~= spec_xor(self.local_id@, node.id@)) by {
                assert forall|i: int| 0 <= i < 20 implies node.id@[i] ^ self.local_id@[i] == self.local_id@[i] ^ node.id@[i] by {
                    let a = node.id@[i];
                    let c = self.local_id@[i];
                    assert(a ^ c == c ^ a) by (bit_vector);
                }
            }
        }
        let target = bucket(&distance) as usize;
        let mut b = self.buckets.remove(target);
        b.delete_node(node);
        self.buckets.insert(target, b);
        proof {
            let o = old(self).buckets@;
            assert forall|i: int| 0 <= i < NUM_BUCKETS && i != target implies #[trigger] self.buckets@[i] == o[i] by {
                if i < target {
                } else {
                }
            }
        }
    }

    /// The indices of the buckets that are stale at `now`, in increasing
    /// order.
    pub fn get_stale_indexes_at(&self, now: i128) -> (res: Vec<usize>)
        ensures
            forall|a: int, b: int| 0 <= a < b < res@.len() ==> res@[a] < res@[b],
            forall|k: int| 0 <= k < res@.len() ==> res@[k] < self.buckets@.len(),
            forall|i: int|
                0 <= i < self.buckets@.len() ==> (res@.contains(i as usize) <==> spec_is_stale(
                    #[trigger] self.buckets@[i].last_update,
                    now,
                )),
    {
        let mut res: Vec<usize> = Vec::new();
        let mut i: usize = 0;
        while i < self.buckets.len()
            invariant
                i <= self.buckets@.len(),
                forall|a: int, b: int| 0 <= a < b < res@.len() ==> res@[a] < res@[b],
                forall|k: int| 0 <= k < res@.len() ==> res@[k] < i,
                forall|j: int|
                    0 <= j < i ==> (res@.contains(j as usize) <==> spec_is_stale(
                        #[trigger] self.buckets@[j].last_update,
                        now,
                    )),
            decreases self.buckets@.len() - i,
        {
            let ghost prev = res@;
            if self.buckets[i].is_stale_at(now) {
                res.push(i);
            }
            proof {
                assert forall|j: int| 0 <= j <= i implies (res@.contains(j as usize) <==> spec_is_stale(
                    #[trigger] self.buckets@[j].last_update,
                    now,
                )) by {
                    if j < i {
                        if res@.contains(j as usize) {
                            let k = choose|k: int| 0 <= k < res@.len() && res@[k] == j as usize;
                            if k < prev.len() {
                                assert(prev[k] == j as usize);
                            }
                        }
                        if prev.contains(j as usize) {
                            let k = choose|k: int| 0 <= k < prev.len() && prev[k] == j as usize;
                            assert(res@[k] == j as usize);
                        }
                    } else {
                        if res@.contains(j as usize) {
                            let k = choose|k: int| 0 <= k < res@.len() && res@[k] == j as usize;
                            if k < prev.len() {
                                assert(prev[k] < i);
                            }
                        }
                        if spec_is_stale(self.buckets@[j].last_update, now) {
                            assert(res@[res@.len() - 1] == j as usize);
                        }
                    }
                }
            }
            i = i + 1;
        }
        res
    }

    /// The indices of the buckets that are stale now, in increasing order:
    /// staleness is judged at the clock's reading, an instant `time` can
    /// represent.
    pub fn get_stale_indexes(&self) -> (res: Vec<usize>)
        ensures
            forall|k: int| 0 <= k < res@.len() ==> res@[k] < self.buckets@.len(),
            forall|a: int, b: int| 0 <= a < b < res@.len() ==> res@[a] < res@[b],
            exists|t: i128|
                #[trigger] timestamp_in_range(t) && forall|i: int|
                    0 <= i < self.buckets@.len() ==> (res@.contains(i as usize) <==> spec_is_stale(
                        #[trigger] self.buckets@[i].last_update,
                        t,
                    )),
    {
        let now = now_utc_nanos();
        let res = self.get_stale_indexes_at(now);
        assert(timestamp_in_range(now));
        res
    }

    /// Up to `count` peers for `key`: those of the bucket of `key`, then of
    /// the buckets around it, alternately below and above, until `count` are
    /// gathered; nearest to `key` first.
    pub fn get_closest_nodes(&self, key: &KadID, count: usize) -> (res: Vec<NodeInfo>)
        requires
            self.wf(),
        ensures
            res@ == spec_closest(buckets_view(self.buckets@), key@, count as nat),
            ({
                let g = gather(buckets_view(self.buckets@), spec_bucket(key@), count as int);
                &&& res@.len() == (if g.len() < count { g.len() as int } else { count as int })
                &&& sorted_by_distance(res@, key@)
                &&& forall|i: int| 0 <= i < res@.len() ==> g.contains(#[trigger] res@[i])
                &&& forall|i: int, j: int|
                    #![trigger res@[i], g[j]]
                    0 <= i < res@.len() && 0 <= j < g.len() && !res@.contains(g[j]) ==> !lex_lt(
                        node_distance(g[j], key@),
                        node_distance(res@[i], key@),
                    )
            }),
    {
        let ghost bs = buckets_view(self.buckets@);
        let index = bucket(key.as_ref()) as usize;
        let mut res: Vec<NodeInfo> = Vec::new();
        extend_nodes(&mut res, self.buckets[index].nodes());
        assert(res@ =~= bs[index as int]);
        if res.len() < count {
            let mut t: usize = 1;
            while t <= index || index + t < NUM_BUCKETS
                invariant_except_break
                    1 <= t <= NUM_BUCKETS,
                    index < NUM_BUCKETS,
                    self.wf(),
                    bs == buckets_view(self.buckets@),
                    res@.len() < count,
                    gather(bs, index as int, count as int) == gather_rounds(bs, index as int, count as int, t as int, res@),
                ensures
                    gather(bs, index as int, count as int) == res@,
                decreases NUM_BUCKETS - t,
            {
                let ghost before = res@;
                if t <= index {
                    extend_nodes(&mut res, self.buckets[index - t].nodes());
                }
                let ghost mid = res@;
                if index + t < NUM_BUCKETS {
                    extend_nodes(&mut res, self.buckets[index + t].nodes());
                }
                proof {
                    let down = if index - t >= 0 { bs[index - t] } else { Seq::empty() };
                    let up = if index + t < bs.len() { bs[index + t] } else { Seq::empty() };
                    assert(mid =~= before + down);
                    assert(res@ =~= before + down + up);
                }
                if res.len() >= count {
                    break;
                }
                t = t + 1;
            }
        }
        let mut sorted = sort_nodes_by_distance(&res, key);
        sorted.truncate(count);
        proof {
            let s2 = sort_by_distance(gather(bs, index as int, count as int), key@);
            if (count as nat) < s2.len() {
                assert(sorted@ =~= s2.take(count as int));
            }
        }
        proof {
            lemma_closest_nodes_sound(bs, key@, count as nat);
            assert(bs.len() == NUM_BUCKETS);
        }
        sorted
    }

    /// The value stored under `key`, if any.
    pub fn get_value(&self, key: &KadID) -> (v: Option<Vec<u8>>)
        ensures
            match v {
                Some(v) => storage_get(self.storage@, key@) == Some(v@),
                None => storage_get(self.storage@, key@) is None,
            },
    {
        let mut i: usize = 0;
        assert(self.storage@.skip(0) =~= self.storage@);
        while i < self.storage.len()
            invariant
                i <= self.storage@.len(),
                storage_get(self.storage@, key@) == storage_get(self.storage@.skip(i as int), key@),
            decreases self.storage@.len() - i,
        {
            assert(self.storage@.skip(i as int)[0] == self.storage@[i as int]);
            proof {
                if self.storage@[i as int].0@ == key@ {
                    assert(self.storage@[i as int].0.0 =~= key.0);
                }
            }
            if array_eq(&self.storage[i].0.0, &key.0) {
                return Some(copy_bytes(&self.storage[i].1));
            }
            assert(self.storage@.skip(i as int).drop_first() =~= self.storage@.skip(i + 1));
            i = i + 1;
        }
        None
    }

    /// Stores `value` under `key`, replacing what was stored there.
    pub fn store_value(&mut self, key: KadID, value: Vec<u8>)
        ensures
            final(self).local_id == old(self).local_id,
            final(self).local_keypair == old(self).local_keypair,
            final(self).buckets@ == old(self).buckets@,
            storage_get(final(self).storage@, key@) == Some(value@),
            forall|k: Seq<u8>| k != key@ ==> storage_get(final(self).storage@, k) == storage_get(old(self).storage@, k),
    {
        let ghost st = self.storage@;
        let mut i: usize = 0;
        assert(st.skip(0) =~= st);
        while i < self.storage.len()
            invariant
                i <= st.len(),
                self.storage@ == st,
                st == old(self).storage@,
                self.local_id == old(self).local_id,
                self.local_keypair == old(self).local_keypair,
                self.buckets@ == old(self).buckets@,
                forall|j: int| 0 <= j < i ==> st[j].0@ != key@,
            decreases st.len() - i,
        {
            proof {
                if st[i as int].0@ == key@ {
                    assert(st[i as int].0.0 =~= key.0);
                }
            }
            if array_eq(&self.storage[i].0.0, &key.0) {
                let ghost e = (key, value);
                self.storage.remove(i);
                self.storage.insert(i, (key, value));
                proof {
                    assert(self.storage@ =~= st.update(i as int, e));
                    lemma_storage_replace(st, i as int, e);
                    assert(st == old(self).storage@);
                    assert(e.0@ == key@);
                    assert forall|k: Seq<u8>| k != key@ implies storage_get(self.storage@, k) == storage_get(st, k) by {
                        assert(storage_get(st.update(i as int, e), k) == storage_get(st, k));
                    }
                }
                return;
            }
            i = i + 1;
        }
        let ghost e = (key, value);
        self.storage.push((key, value));
        proof {
            lemma_storage_append(st, e);
        }
    }

    /// How the node answers a request: pings and broadcasts are acknowledged,
    /// a store is kept, a node search gets the `ALPHA` closest peers, and a
    /// value search gets the value or else the `ALPHA` closest peers.
    pub fn answer_request(&mut self, function: KadRequestFunction) -> (res: KadResponseFunction)
        requires
            old(self).wf(),
        ensures
            final(self).wf(),
            final(self).local_id == old(self).local_id,
            final(self).local_keypair == old(self).local_keypair,
            final(self).buckets@ == old(self).buckets@,
            match function {
                KadRequestFunction::Store { key, value } => {
                    &&& res is Ping
                    &&& storage_get(final(self).storage@, key@) == Some(value@)
                    &&& forall|k: Seq<u8>| k != key@ ==> storage_get(final(self).storage@, k) == storage_get(old(self).storage@, k)
                },
                _ => final(self).storage@ == old(self).storage@,
            },
            match function {
                KadRequestFunction::Ping => res is Ping,
                KadRequestFunction::Store { .. } => res is Ping,
                KadRequestFunction::Broadcast(_) => res is Ping,
                KadRequestFunction::FindNode { id } => res matches KadResponseFunction::FindNode { nodes }
                    && nodes@ == spec_closest(buckets_view(old(self).buckets@), id@, ALPHA as nat),
                KadRequestFunction::FindValue { key } => match storage_get(old(self).storage@, key@) {
                    Some(v) => res matches KadResponseFunction::FindValue(KadFindValueResponse::Found(w)) && w@ == v,
                    None => res matches KadResponseFunction::FindValue(KadFindValueResponse::Next(nodes))
                        && nodes@ == spec_closest(buckets_view(old(self).buckets@), key@, ALPHA as nat),
                },
            },
    {
        match function {
            KadRequestFunction::Ping => KadResponseFunction::Ping,
            KadRequestFunction::Store { key, value } => {
                self.store_value(key, value);
                KadResponseFunction::Ping
            },
            KadRequestFunction::FindNode { id } => {
                let nodes = self.get_closest_nodes(&id, ALPHA as usize);
                KadResponseFunction::FindNode { nodes }
            },
            KadRequestFunction::FindValue { key } => {
                let fv_result = if let Some(value) = self.get_value(&key) {
                    KadFindValueResponse::Found(value)
                } else {
                    let nodes = self.get_closest_nodes(&key, ALPHA as usize);
                    KadFindValueResponse::Next(nodes)
                };
                KadResponseFunction::FindValue(fv_result)
            },
            KadRequestFunction::Broadcast(_) => KadResponseFunction::Ping,
        }
    }

    /// Handles a request from `origin` received at `now`: the sender enters
    /// the routing table, then the request is answered under its own uid.
    pub fn handle_request_at(&mut self, request: KadRequest, origin: NodeInfo, now: i128) -> (res: KadResponse)
        requires
            old(self).wf(),
        ensures
            final(self).wf(),
            final(self).local_id == old(self).local_id,
            final(self).local_keypair == old(self).local_keypair,
            res.uid == request.uid,
            ({
                let b = old(self).bucket_of(origin.id@);
                &&& final(self).buckets@[b].nodes@ == spec_bucket_update(old(self).buckets@[b].nodes@, origin)
                &&& final(self).buckets@[b].last_update == now
                &&& forall|i: int| 0 <= i < NUM_BUCKETS && i != b ==> #[trigger] final(self).buckets@[i] == old(self).buckets@[i]
            }),
            match request.function {
                KadRequestFunction::Store { key, value } => {
                    &&& storage_get(final(self).storage@, key@) == Some(value@)
                    &&& forall|k: Seq<u8>| k != key@ ==> storage_get(final(self).storage@, k) == storage_get(old(self).storage@, k)
                },
                _ => final(self).storage@ == old(self).storage@,
            },
            match request.function {
                KadRequestFunction::Store { .. } => res.function is Ping,
                KadRequestFunction::FindValue { key } => match storage_get(old(self).storage@, key@) {
                    Some(v) => res.function matches KadResponseFunction::FindValue(KadFindValueResponse::Found(w)) && w@ == v,
                    None => res.function matches KadResponseFunction::FindValue(KadFindValueResponse::Next(nodes))
                        && nodes@ == spec_closest(buckets_view(final(self).buckets@), key@, ALPHA as nat),
                },
                KadRequestFunction::FindNode { id } => res.function matches KadResponseFunction::FindNode { nodes }
                    && nodes@ == spec_closest(buckets_view(final(self).buckets@), id@, ALPHA as nat),
                _ => res.function is Ping,
            },
    {
        self.update_node_at(origin, now);
        let uid = request.uid;
        let function = self.answer_request(request.function);
        KadResponse { uid, function }
    }
}

/// Whether some bucket of the table holds the peer `n`.
pub open spec fn in_table(bs: Seq<Seq<NodeInfo>>, n: NodeInfo) -> bool {
    exists|b: int| 0 <= b < bs.len() && #[trigger] bs[b].contains(n)
}

/// Every peer gathered in the rounds of a search sits in some bucket, when
/// the peers it started from do.
proof fn lemma_gather_rounds_from_table(
    bs: Seq<Seq<NodeInfo>>,
    index: int,
    count: int,
    t: int,
    acc: Seq<NodeInfo>,
)
    requires
        forall|n: NodeInfo| acc.contains(n) ==> in_table(bs, n),
    ensures
        forall|n: NodeInfo| gather_rounds(bs, index, count, t, acc).contains(n) ==> in_table(bs, n),
    decreases bs.len() - t,
{
    if t < 1 || index < 0 || index >= bs.len() || !(index - t >= 0 || index + t < bs.len()) {
    } else {
        let down = if index - t >= 0 { bs[index - t] } else { Seq::empty() };
        let up = if index + t < bs.len() { bs[index + t] } else { Seq::empty() };
        let acc2 = acc + down + up;
        assert forall|n: NodeInfo| acc2.contains(n) implies in_table(bs, n) by {
            let k = choose|k: int| 0 <= k < acc2.len() && acc2[k] == n;
            if k < acc.len() {
                assert(acc[k] == n);
            } else if k < acc.len() + down.len() {
                assert(down[k - acc.len()] == n);
                assert(bs[index - t].contains(n));
            } else {
                assert(up[k - acc.len() - down.len()] == n);
                assert(bs[index + t].contains(n));
            }
        }
        if acc2.len() < count {
            lemma_gather_rounds_from_table(bs, index, count, t + 1, acc2);
        }
    }
}

/// The peers a routing table offers for a key are ordered nearest to the
/// key first, number at most `count`, and are each held by some bucket of
/// the table.
pub proof fn lemma_closest_nodes_sound(bs: Seq<Seq<NodeInfo>>, key: Seq<u8>, count: nat)
    requires
        key.len() == 20,
        bs.len() == NUM_BUCKETS,
    ensures
        sorted_by_distance(spec_closest(bs, key, count), key),
        spec_closest(bs, key, count).len() <= count,
        forall|i: int| 0 <= i < spec_closest(bs, key, count).len() ==> in_table(
            bs,
            #[trigger] spec_closest(bs, key, count)[i],
        ),
        ({
            let g = gather(bs, spec_bucket(key), count as int);
            let r = spec_closest(bs, key, count);
            &&& r.len() == (if g.len() < count { g.len() as int } else { count as int })
            &&& forall|i: int| 0 <= i < r.len() ==> g.contains(#[trigger] r[i])
            &&& forall|i: int, j: int|
                #![trigger r[i], g[j]]
                0 <= i < r.len() && 0 <= j < g.len() && !r.contains(g[j]) ==> !lex_lt(
                    node_distance(g[j], key),
                    node_distance(r[i], key),
                )
        }),
{
    let index = spec_bucket(key);
    lemma_leading_zeros_bound(key);
    let g = gather(bs, index, count as int);
    assert forall|n: NodeInfo| bs[index].contains(n) implies in_table(bs, n) by {}
    if bs[index].len() < count {
        lemma_gather_rounds_from_table(bs, index, count as int, 1, bs[index]);
    }
    lemma_sort_by_distance(g, key);
    let s = sort_by_distance(g, key);
    let r = spec_closest(bs, key, count);
    if count < s.len() {
        assert forall|i: int, j: int| 0 <= i < j < r.len() implies lex_le(
            #[trigger] node_distance(r[i], key),
            #[trigger] node_distance(r[j], key),
        ) by {
            assert(r[i] == s[i] && r[j] == s[j]);
        }
        assert forall|i: int| 0 <= i < r.len() implies in_table(bs, #[trigger] r[i]) by {
            assert(r[i] == s[i]);
            assert(g.contains(s[i]));
        }
    } else {
        assert forall|i: int| 0 <= i < r.len() implies in_table(bs, #[trigger] r[i]) by {
            assert(g.contains(s[i]));
        }
    }
    assert forall|i: int| 0 <= i < r.len() implies g.contains(#[trigger] r[i]) by {
        assert(r[i] == s[i]);
    }
    assert forall|i: int, j: int|
        #![trigger r[i], g[j]]
        0 <= i < r.len() && 0 <= j < g.len() && !r.contains(g[j]) implies !lex_lt(
            node_distance(g[j], key),
            node_distance(r[i], key),
        ) by {
        let x = g[j];
        assert(g.contains(x));
        assert(s.contains(x));
        let p = choose|p: int| 0 <= p < s.len() && s[p] == x;
        if p < r.len() {
            assert(r[p] == x);
        }
        assert(r[i] == s[i]);
        assert(lex_le(node_distance(s[i], key), node_distance(s[p], key)));
    }
}

/// Replacing the first entry of a key by a new one with the same key gives
/// the new value for that key and changes nothing for the others.
proof fn lemma_storage_replace(st: Seq<(KadID, Vec<u8>)>, i: int, e: (KadID, Vec<u8>))
    requires
        0 <= i < st.len(),
        st[i].0@ == e.0@,
        forall|j: int| 0 <= j < i ==> st[j].0@ != e.0@,
    ensures
        storage_get(st.update(i, e), e.0@) == Some(e.1@),
        forall|k: Seq<u8>| k != e.0@ ==> storage_get(st.update(i, e), k) == storage_get(st, k),
    decreases i,
{
    let u = st.update(i, e);
    if i == 0 {
        assert(u.drop_first() =~= st.drop_first());
        assert forall|k: Seq<u8>| k != e.0@ implies storage_get(u, k) == storage_get(st, k) by {
            assert(storage_get(u, k) == storage_get(u.drop_first(), k));
            assert(storage_get(st, k) == storage_get(st.drop_first(), k));
        }
    } else {
        let d = st.drop_first();
        assert forall|j: int| 0 <= j < i - 1 implies d[j].0@ != e.0@ by {
            assert(d[j] == st[j + 1]);
        }
        lemma_storage_replace(d, i - 1, e);
        assert(u.drop_first() =~= d.update(i - 1, e));
        assert(u[0] == st[0]);
        assert(st[0].0@ != e.0@);
        assert forall|k: Seq<u8>| k != e.0@ implies storage_get(u, k) == storage_get(st, k) by {
            if st[0].0@ != k {
                assert(storage_get(u, k) == storage_get(d.update(i - 1, e), k));
                assert(storage_get(st, k) == storage_get(d, k));
            }
        }
        assert(storage_get(u, e.0@) == storage_get(d.update(i - 1, e), e.0@));
    }
}

/// Appending an entry for a key that is not stored gives its value for it
/// and changes nothing for the others.
proof fn lemma_storage_append(st: Seq<(KadID, Vec<u8>)>, e: (KadID, Vec<u8>))
    requires
        forall|j: int| 0 <= j < st.len() ==> st[j].0@ != e.0@,
    ensures
        storage_get(st.push(e), e.0@) == Some(e.1@),
        forall|k: Seq<u8>| k != e.0@ ==> storage_get(st.push(e), k) == storage_get(st, k),
    decreases st.len(),
{
    let u = st.push(e);
    if st.len() == 0 {
        assert(u.drop_first() =~= Seq::<(KadID, Vec<u8>)>::empty());
        assert forall|k: Seq<u8>| k != e.0@ implies storage_get(u, k) == storage_get(st, k) by {
            assert(storage_get(u, k) == storage_get(u.drop_first(), k));
        }
    } else {
        let d = st.drop_first();
        assert forall|j: int| 0 <= j < d.len() implies d[j].0@ != e.0@ by {
            assert(d[j] == st[j + 1]);
        }
        lemma_storage_append(d, e);
        assert(u.drop_first() =~= d.push(e));
        assert(u[0] == st[0]);
        assert(st[0].0@ != e.0@);
        assert forall|k: Seq<u8>| k != e.0@ implies storage_get(u, k) == storage_get(st, k) by {
            if st[0].0@ != k {
                assert(storage_get(u, k) == storage_get(d.push(e), k));
                assert(storage_get(st, k) == storage_get(d, k));
            }
        }
        assert(storage_get(u, e.0@) == storage_get(d.push(e), e.0@));
    }
}

} // verus!
