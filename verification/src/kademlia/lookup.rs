//! The iterative node lookup, as a state machine: the caller sends the
//! requests an action names, hands back each reply as it comes, and gets the
//! next action, until the lookup is finished.
use vstd::prelude::*;
use vstd::multiset::Multiset;
use crate::kademlia::{ALPHA, K};
use crate::kademlia::distance::{lex_le, node_distance, sort_by_distance, sorted_by_distance, sort_nodes_by_distance, distance_le, lemma_sort_by_distance, lemma_lex_total};
use crate::kademlia::kadid::KadID;
use crate::kademlia::util::{spec_bucket, spec_xor};
use crate::kademlia::node::NodeInfo;
use crate::kademlia::rpc::{KadRequestFunction, KadResponseFunction, KadFindValueResponse};
use crate::kademlia::buckets::position_of;

verus! {

/// A peer waiting to be queried, with its distance to the key.
#[derive(Debug, Clone, Copy)]
pub struct LookupQElement {
    pub node: NodeInfo,
    pub distance: [u8; 20],
}

/// Where a lookup is: converging on the key while replies bring nearer
/// peers, then exhausting the queue until `K` peers answered, then done.
#[derive(Debug, Clone, Copy, PartialEq, Eq, Structural)]
pub enum LookupStage {
    Converging,
    Exhausting,
    Done,
}

/// What a lookup found: the value searched for, or the nearest peers.
#[derive(Debug, Clone)]
pub enum LookupResult {
    Nodes(Vec<NodeInfo>),
    Value(Vec<u8>),
}

/// The part of a reply a lookup reads.
#[derive(Debug, Clone)]
pub enum LookupReply {
    Ping,
    Nodes(Vec<NodeInfo>),
    Value(Vec<u8>),
}

/// What the caller does next: send a search request to each peer named and
/// wait for one reply, or stop with the result.
#[derive(Debug, Clone)]
pub enum LookupAction {
    Query(Vec<NodeInfo>),
    Finished(LookupResult),
}

/// The state of one lookup.
#[derive(Debug, Clone)]
pub struct NodeLookup {
    pub key: KadID,
    pub get_value: bool,
    pub distance_cutoff: [u8; 20],
    pub query_queue: Vec<LookupQElement>,
    pub queried_nodes: Vec<NodeInfo>,
    pub found_nodes: Vec<NodeInfo>,
    pub concurrency_count: u8,
    pub terminate: bool,
    pub stage: LookupStage,
}

/// `a` is strictly nearer than `b`.
pub open spec fn lex_lt(a: Seq<u8>, b: Seq<u8>) -> bool {
    !lex_le(b, a)
}

/// The nodes of a queue.
pub open spec fn queue_nodes(q: Seq<LookupQElement>) -> Seq<NodeInfo> {
    q.map_values(|e: LookupQElement| e.node)
}

/// The peers of `nodes` not yet in `found`, in order, each once: the ones a
/// search reply adds.
pub open spec fn spec_newly_found(found: Seq<NodeInfo>, nodes: Seq<NodeInfo>) -> Seq<NodeInfo>
    decreases nodes.len(),
{
    if nodes.len() == 0 {
        Seq::empty()
    } else {
        let rest = nodes.drop_last();
        let prior = spec_newly_found(found, rest);
        let n = nodes.last();
        if found.contains(n) || prior.contains(n) {
            prior
        } else {
            prior.push(n)
        }
    }
}

/// `s` with `n` added unless it is there already.
pub open spec fn set_insert(s: Seq<NodeInfo>, n: NodeInfo) -> Seq<NodeInfo> {
    if s.contains(n) {
        s
    } else {
        s.push(n)
    }
}

/// The nearest `K` of the peers that answered, nearest first: the result of
/// a lookup that found no value.
pub open spec fn spec_lookup_nodes(queried: Seq<NodeInfo>, key: Seq<u8>) -> Seq<NodeInfo> {
    let s = sort_by_distance(queried, key);
    if K < s.len() {
        s.take(K as int)
    } else {
        s
    }
}

/// The cutoff after the peers `newly` were found: the nearest distance seen.
pub open spec fn spec_cutoff(cutoff: Seq<u8>, newly: Seq<NodeInfo>, key: Seq<u8>) -> Seq<u8>
    decreases newly.len(),
{
    if newly.len() == 0 {
        cutoff
    } else {
        let c = spec_cutoff(cutoff, newly.drop_last(), key);
        let d = node_distance(newly.last(), key);
        if lex_lt(d, c) {
            d
        } else {
            c
        }
    }
}

/// Whether some peer of `newly` is strictly nearer than `cutoff`.
pub open spec fn spec_improves(cutoff: Seq<u8>, newly: Seq<NodeInfo>, key: Seq<u8>) -> bool {
    exists|i: int| 0 <= i < newly.len() && lex_lt(#[trigger] node_distance(newly[i], key), cutoff)
}

/// The peers a finished lookup returns are ordered nearest to the key
/// first, number at most `K`, and each of them answered the lookup.
pub proof fn lemma_lookup_result_sound(queried: Seq<NodeInfo>, key: Seq<u8>)
    requires
        key.len() == 20,
    ensures
        sorted_by_distance(spec_lookup_nodes(queried, key), key),
        spec_lookup_nodes(queried, key).len() <= K,
        forall|i: int| 0 <= i < spec_lookup_nodes(queried, key).len() ==> queried.contains(
            #[trigger] spec_lookup_nodes(queried, key)[i],
        ),
        spec_lookup_nodes(queried, key).len() == (if queried.len() < K { queried.len() as int } else { K as int }),
        forall|i: int, j: int|
            #![trigger spec_lookup_nodes(queried, key)[i], queried[j]]
            0 <= i < spec_lookup_nodes(queried, key).len() && 0 <= j < queried.len() && !spec_lookup_nodes(
                queried,
                key,
            ).contains(queried[j]) ==> !lex_lt(
                node_distance(queried[j], key),
                node_distance(spec_lookup_nodes(queried, key)[i], key),
            ),
{
    lemma_sort_by_distance(queried, key);
    let s = sort_by_distance(queried, key);
    let r = spec_lookup_nodes(queried, key);
    if K < s.len() {
        assert forall|i: int, j: int| 0 <= i < j < r.len() implies lex_le(
            #[trigger] node_distance(r[i], key),
            #[trigger] node_distance(r[j], key),
        ) by {
            assert(r[i] == s[i] && r[j] == s[j]);
        }
        assert forall|i: int| 0 <= i < r.len() implies queried.contains(#[trigger] r[i]) by {
            assert(r[i] == s[i]);
        }
    }
    assert forall|i: int, j: int|
        #![trigger r[i], queried[j]]
        0 <= i < r.len() && 0 <= j < queried.len() && !r.contains(queried[j]) implies !lex_lt(
            node_distance(queried[j], key),
            node_distance(r[i], key),
        ) by {
        let x = queried[j];
        assert(queried.contains(x));
        assert(s.contains(x));
        let p = choose|p: int| 0 <= p < s.len() && s[p] == x;
        if p < r.len() {
            assert(r[p] == x);
        }
        assert(r[i] == s[i]);
        assert(lex_le(node_distance(s[i], key), node_distance(s[p], key)));
    }
}

/// What a lookup reads of a response: a ping, the peers of a node search or
/// of an unsuccessful value search, or the value found.
pub open spec fn spec_lookup_reply(function: KadResponseFunction) -> LookupReply {
    match function {
        KadResponseFunction::Ping => LookupReply::Ping,
        KadResponseFunction::FindNode { nodes } => LookupReply::Nodes(nodes),
        KadResponseFunction::FindValue(KadFindValueResponse::Next(nodes)) => LookupReply::Nodes(nodes),
        KadResponseFunction::FindValue(KadFindValueResponse::Found(value)) => LookupReply::Value(value),
    }
}

/// Reads a response as a lookup reply.
pub fn lookup_reply(function: KadResponseFunction) -> (r: LookupReply)
    ensures
        r == spec_lookup_reply(function),
{
    match function {
        KadResponseFunction::Ping => LookupReply::Ping,
        KadResponseFunction::FindNode { nodes } => LookupReply::Nodes(nodes),
        KadResponseFunction::FindValue(KadFindValueResponse::Next(nodes)) => LookupReply::Nodes(nodes),
        KadResponseFunction::FindValue(KadFindValueResponse::Found(value)) => LookupReply::Value(value),
    }
}

/// The peers a reply brings that the lookup had not found yet (none, for a
/// reply that carries no peers).
pub open spec fn reply_newly(found: Seq<NodeInfo>, reply: Option<(LookupReply, NodeInfo)>) -> Seq<NodeInfo> {
    match reply {
        Some((LookupReply::Nodes(nodes), _)) => spec_newly_found(found, nodes@),
        _ => Seq::empty(),
    }
}

/// Whether a converging lookup is told to stop after a reply: a ping clears
/// the flag, a reply with peers keeps it only when none of its new peers is
/// nearer than the cutoff, and a missing reply leaves it as it was.
pub open spec fn reply_stop(
    terminate: bool,
    cutoff: Seq<u8>,
    found: Seq<NodeInfo>,
    reply: Option<(LookupReply, NodeInfo)>,
    key: Seq<u8>,
) -> bool {
    match reply {
        Some((LookupReply::Ping, _)) => false,
        Some((LookupReply::Nodes(nodes), _)) => terminate && !spec_improves(cutoff, spec_newly_found(found, nodes@), key),
        _ => terminate,
    }
}

/// The peers known to have answered after a reply: a reply carrying peers
/// adds its sender.
pub open spec fn reply_queried(queried: Seq<NodeInfo>, reply: Option<(LookupReply, NodeInfo)>) -> Seq<NodeInfo> {
    match reply {
        Some((LookupReply::Nodes(_), sender)) => set_insert(queried, sender),
        _ => queried,
    }
}

/// The peers an action sends requests to.
pub open spec fn action_queries(action: LookupAction) -> Seq<NodeInfo> {
    match action {
        LookupAction::Query(ns) => ns@,
        _ => Seq::empty(),
    }
}

/// An empty sequence holds nothing.
proof fn lemma_empty_multiset(s: Seq<NodeInfo>)
    requires
        s.len() == 0,
    ensures
        s.to_multiset() == Multiset::<NodeInfo>::empty(),
{
    vstd::seq_lib::to_multiset_len(s);
    vstd::multiset::lemma_multiset_empty_len(s.to_multiset());
}

/// The peers a reply adds are peers of the reply.
proof fn lemma_newly_found_from_reply(found: Seq<NodeInfo>, nodes: Seq<NodeInfo>)
    ensures
        forall|x: NodeInfo| #[trigger] spec_newly_found(found, nodes).contains(x) ==> nodes.contains(x),
    decreases nodes.len(),
{
    if nodes.len() > 0 {
        let rest = nodes.drop_last();
        lemma_newly_found_from_reply(found, rest);
        let prior = spec_newly_found(found, rest);
        assert forall|x: NodeInfo| #[trigger] spec_newly_found(found, nodes).contains(x) implies nodes.contains(x) by {
            if prior.contains(x) {
                let k = choose|k: int| 0 <= k < rest.len() && rest[k] == x;
                assert(nodes[k] == x);
            } else {
                let r = spec_newly_found(found, nodes);
                let k = choose|k: int| 0 <= k < r.len() && r[k] == x;
                if k < prior.len() {
                    assert(prior[k] == x);
                } else {
                    assert(nodes[nodes.len() - 1] == x);
                }
            }
        }
    }
}

/// Adding to a set keeps what it held and holds the new element.
pub proof fn lemma_set_insert_grows(s: Seq<NodeInfo>, n: NodeInfo)
    ensures
        set_insert(s, n).contains(n),
        s.len() <= set_insert(s, n).len(),
        forall|m: NodeInfo| s.contains(m) ==> #[trigger] set_insert(s, n).contains(m),
{
    if !s.contains(n) {
        assert(s.push(n)[s.len() as int] == n);
        assert forall|m: NodeInfo| s.contains(m) implies #[trigger] s.push(n).contains(m) by {
            let k = choose|k: int| 0 <= k < s.len() && s[k] == m;
            assert(s.push(n)[k] == m);
        }
    }
}

/// Whether `v` holds `n`.
pub fn contains_node(v: &Vec<NodeInfo>, n: &NodeInfo) -> (r: bool)
    ensures
        r == v@.contains(*n),
{
    proof {
        v@.index_of_first_ensures(*n);
    }
    match position_of(v, n) {
        Some(_) => true,
        None => false,
    }
}

/// The newly found peers of a longer reply extend those of its prefix.
proof fn lemma_newly_found_step(found: Seq<NodeInfo>, nodes: Seq<NodeInfo>, i: int)
    requires
        0 <= i < nodes.len(),
    ensures
        ({
            let prior = spec_newly_found(found, nodes.subrange(0, i));
            let n = nodes[i];
            spec_newly_found(found, nodes.subrange(0, i + 1)) == if found.contains(n) || prior.contains(n) {
                prior
            } else {
                prior.push(n)
            }
        }),
{
    let p = nodes.subrange(0, i + 1);
    assert(p.drop_last() =~= nodes.subrange(0, i));
    assert(p.last() == nodes[i]);
}

impl NodeLookup {
    /// The invariant of a lookup.
    pub open spec fn wf(&self) -> bool {
        &&& self.concurrency_count <= ALPHA
        &&& self.queried_nodes@.no_duplicates()
        &&& self.found_nodes@.no_duplicates()
        &&& forall|i: int| 0 <= i < self.query_queue@.len() ==>
            (#[trigger] self.query_queue@[i]).distance@ == node_distance(self.query_queue@[i].node, self.key@)
    }

    /// The request the lookup sends to each peer it queries: a value search
    /// for its key when it looks for a value, a node search otherwise.
    pub fn request_function(&self) -> (f: KadRequestFunction)
        ensures
            self.get_value ==> f == (KadRequestFunction::FindValue { key: self.key }),
            !self.get_value ==> f == (KadRequestFunction::FindNode { id: self.key }),
    {
        if self.get_value {
            KadRequestFunction::FindValue { key: self.key }
        } else {
            KadRequestFunction::FindNode { id: self.key }
        }
    }

    /// Removes and returns the nearest queued peer (the first one, if
    /// several are equally near).
    pub fn pop_nearest(&mut self) -> (e: LookupQElement)
        requires
            old(self).query_queue@.len() > 0,
        ensures
            ({
                let q = old(self).query_queue@;
                exists|i: int|
                    0 <= i < q.len() && q[i] == e && final(self).query_queue@ == q.remove(i)
                        && (forall|j: int| 0 <= j < q.len() ==> lex_le(e.distance@, #[trigger] q[j].distance@))
                        && (forall|j: int| 0 <= j < i ==> !lex_le(#[trigger] q[j].distance@, e.distance@))
            }),
            final(self).key == old(self).key,
            final(self).get_value == old(self).get_value,
            final(self).distance_cutoff == old(self).distance_cutoff,
            final(self).queried_nodes == old(self).queried_nodes,
            final(self).found_nodes == old(self).found_nodes,
            final(self).concurrency_count == old(self).concurrency_count,
            final(self).terminate == old(self).terminate,
            final(self).stage == old(self).stage,
    {
        let ghost q = self.query_queue@;
        let mut best: usize = 0;
        let mut i: usize = 1;
        proof {
            crate::kademlia::distance::lemma_lex_refl(q[0].distance@);
        }
        while i < self.query_queue.len()
            invariant
                self.query_queue@ == q,
                q.len() > 0,
                best < i <= q.len(),
                forall|j: int| 0 <= j < i ==> lex_le(q[best as int].distance@, #[trigger] q[j].distance@),
                forall|j: int| 0 <= j < best ==> !lex_le(#[trigger] q[j].distance@, q[best as int].distance@),
            decreases q.len() - i,
        {
            if !distance_le(&self.query_queue[best].distance, &self.query_queue[i].distance) {
                proof {
                    lemma_lex_total(q[best as int].distance@, q[i as int].distance@);
                    assert forall|j: int| 0 <= j <= i implies lex_le(q[i as int].distance@, #[trigger] q[j].distance@) by {
                        if j < i {
                            crate::kademlia::distance::lemma_lex_trans(q[i as int].distance@, q[best as int].distance@, q[j].distance@);
                        } else {
                            crate::kademlia::distance::lemma_lex_refl(q[j].distance@);
                        }
                    }
                    assert forall|j: int| 0 <= j < i implies !lex_le(#[trigger] q[j].distance@, q[i as int].distance@) by {
                        if lex_le(q[j].distance@, q[i as int].distance@) {
                            crate::kademlia::distance::lemma_lex_trans(q[best as int].distance@, q[j].distance@, q[i as int].distance@);
                        }
                    }
                }
                best = i;
            }
            i = i + 1;
        }
        let e = self.query_queue.remove(best);
        assert(q[best as int] == e);
        e
    }

    /// Records a search reply from `node_info` while converging: the sender
    /// counts as queried, and each peer of `nodes` not found before is found
    /// and queued; a peer nearer than the cutoff lowers it and keeps the
    /// lookup converging.
    pub fn on_find_node_stage1(&mut self, node_info: NodeInfo, nodes: Vec<NodeInfo>)
        requires
            old(self).wf(),
        ensures
            final(self).wf(),
            ({
                let newly = spec_newly_found(old(self).found_nodes@, nodes@);
                &&& final(self).found_nodes@ == old(self).found_nodes@ + newly
                &&& queue_nodes(final(self).query_queue@) == queue_nodes(old(self).query_queue@) + newly
                &&& final(self).distance_cutoff@ == spec_cutoff(old(self).distance_cutoff@, newly, old(self).key@)
                &&& final(self).terminate == (old(self).terminate && !spec_improves(old(self).distance_cutoff@, newly, old(self).key@))
            }),
            final(self).queried_nodes@ == set_insert(old(self).queried_nodes@, node_info),
            final(self).key == old(self).key,
            final(self).get_value == old(self).get_value,
            final(self).concurrency_count == old(self).concurrency_count,
            final(self).stage == old(self).stage,
    {
        self.on_reply_nodes(node_info, nodes, true);
    }

    /// Records a search reply from `node_info` while exhausting the queue:
    /// the sender counts as queried, and each peer of `nodes` not found
    /// before is found and queued.
    pub fn on_find_node_stage2(&mut self, node_info: NodeInfo, nodes: Vec<NodeInfo>)
        requires
            old(self).wf(),
        ensures
            final(self).wf(),
            ({
                let newly = spec_newly_found(old(self).found_nodes@, nodes@);
                &&& final(self).found_nodes@ == old(self).found_nodes@ + newly
                &&& queue_nodes(final(self).query_queue@) == queue_nodes(old(self).query_queue@) + newly
            }),
            final(self).distance_cutoff == old(self).distance_cutoff,
            final(self).terminate == old(self).terminate,
            final(self).queried_nodes@ == set_insert(old(self).queried_nodes@, node_info),
            final(self).key == old(self).key,
            final(self).get_value == old(self).get_value,
            final(self).concurrency_count == old(self).concurrency_count,
            final(self).stage == old(self).stage,
    {
        self.on_reply_nodes(node_info, nodes, false);
    }

    fn on_reply_nodes(&mut self, node_info: NodeInfo, nodes: Vec<NodeInfo>, track_cutoff: bool)
        requires
            old(self).wf(),
        ensures
            final(self).wf(),
            ({
                let newly = spec_newly_found(old(self).found_nodes@, nodes@);
                &&& final(self).found_nodes@ == old(self).found_nodes@ + newly
                &&& queue_nodes(final(self).query_queue@) == queue_nodes(old(self).query_queue@) + newly
                &&& track_cutoff ==> final(self).distance_cutoff@ == spec_cutoff(old(self).distance_cutoff@, newly, old(self).key@)
                &&& track_cutoff ==> final(self).terminate == (old(self).terminate && !spec_improves(old(self).distance_cutoff@, newly, old(self).key@))
            }),
            !track_cutoff ==> final(self).distance_cutoff == old(self).distance_cutoff,
            !track_cutoff ==> final(self).terminate == old(self).terminate,
            final(self).queried_nodes@ == set_insert(old(self).queried_nodes@, node_info),
            final(self).key == old(self).key,
            final(self).get_value == old(self).get_value,
            final(self).concurrency_count == old(self).concurrency_count,
            final(self).stage == old(self).stage,
    {
        if !contains_node(&self.queried_nodes, &node_info) {
            self.queried_nodes.push(node_info);
            proof {
                let q = self.queried_nodes@;
                assert forall|a: int, b: int| 0 <= a < q.len() && 0 <= b < q.len() && a != b implies q[a] != q[b] by {
                    if a == q.len() - 1 {
                        assert(old(self).queried_nodes@.contains(q[b]) ==> q[b] != node_info);
                        assert(old(self).queried_nodes@[b] == q[b]);
                    } else if b == q.len() - 1 {
                        assert(old(self).queried_nodes@[a] == q[a]);
                    }
                }
            }
        }
        let ghost found0 = self.found_nodes@;
        let ghost queue0 = queue_nodes(self.query_queue@);
        let ghost cutoff0 = self.distance_cutoff@;
        let ghost term0 = self.terminate;
        let mut i: usize = 0;
        assert(nodes@.subrange(0, 0) =~= Seq::<NodeInfo>::empty());
        assert(queue_nodes(self.query_queue@) =~= queue0 + Seq::<NodeInfo>::empty());
        while i < nodes.len()
            invariant
                i <= nodes@.len(),
                self.wf(),
                self.key == old(self).key,
                self.get_value == old(self).get_value,
                self.concurrency_count == old(self).concurrency_count,
                self.stage == old(self).stage,
                self.queried_nodes@ == set_insert(old(self).queried_nodes@, node_info),
                found0 == old(self).found_nodes@,
                queue0 == queue_nodes(old(self).query_queue@),
                cutoff0 == old(self).distance_cutoff@,
                term0 == old(self).terminate,
                self.found_nodes@ == found0 + spec_newly_found(found0, nodes@.subrange(0, i as int)),
                queue_nodes(self.query_queue@) == queue0 + spec_newly_found(found0, nodes@.subrange(0, i as int)),
                track_cutoff ==> self.distance_cutoff@ == spec_cutoff(cutoff0, spec_newly_found(found0, nodes@.subrange(0, i as int)), self.key@),
                track_cutoff ==> self.terminate == (term0 && !spec_improves(cutoff0, spec_newly_found(found0, nodes@.subrange(0, i as int)), self.key@)),
                !track_cutoff ==> self.distance_cutoff == old(self).distance_cutoff,
                !track_cutoff ==> self.terminate == old(self).terminate,
            decreases nodes@.len() - i,
        {
            let info = nodes[i];
            let ghost prior = spec_newly_found(found0, nodes@.subrange(0, i as int));
            proof {
                lemma_newly_found_step(found0, nodes@, i as int);
                assert((found0 + prior).contains(info) <==> (found0.contains(info) || prior.contains(info))) by {
                    if (found0 + prior).contains(info) {
                        let k = choose|k: int| 0 <= k < (found0 + prior).len() && (found0 + prior)[k] == info;
                        if k >= found0.len() {
                            assert(prior[k - found0.len()] == info);
                        }
                    }
                    if prior.contains(info) {
                        let k = choose|k: int| 0 <= k < prior.len() && prior[k] == info;
                        assert((found0 + prior)[found0.len() + k] == info);
                    }
                    if found0.contains(info) {
                        let k = choose|k: int| 0 <= k < found0.len() && found0[k] == info;
                        assert((found0 + prior)[k] == info);
                    }
                }
            }
            let info_distance = info.id.xor(&self.key);
            if !contains_node(&self.found_nodes, &info) {
                if track_cutoff {
                    if !distance_le(&self.distance_cutoff, &info_distance) {
                        self.distance_cutoff = info_distance;
                        self.terminate = false;
                    }
                }
                let ghost fprev = self.found_nodes@;
                self.found_nodes.push(info);
                let ghost qprev = self.query_queue@;
                self.query_queue.push(LookupQElement { distance: info_distance, node: info });
                proof {
                    let newp = prior.push(info);
                    assert(self.found_nodes@ =~= found0 + newp);
                    assert(queue_nodes(self.query_queue@) =~= queue_nodes(qprev).push(info));
                    assert(queue_nodes(self.query_queue@) =~= queue0 + newp);
                    let f = self.found_nodes@;
                    assert forall|a: int, b: int| 0 <= a < f.len() && 0 <= b < f.len() && a != b implies f[a] != f[b] by {
                        if a == f.len() - 1 {
                            assert(fprev[b] == f[b]);
                        } else if b == f.len() - 1 {
                            assert(fprev[a] == f[a]);
                        } else {
                            assert(fprev[a] == f[a] && fprev[b] == f[b]);
                        }
                    }
                    assert forall|k: int| 0 <= k < self.query_queue@.len() implies
                        (#[trigger] self.query_queue@[k]).distance@ == node_distance(self.query_queue@[k].node, self.key@) by {
                        if k < qprev.len() {
                            assert(self.query_queue@[k] == qprev[k]);
                        }
                    }
                    if track_cutoff {
                        assert(newp.drop_last() =~= prior);
                        assert(newp.last() == info);
                        assert(spec_improves(cutoff0, newp, self.key@) <==> (spec_improves(cutoff0, prior, self.key@) || lex_lt(node_distance(info, self.key@), cutoff0))) by {
                            if spec_improves(cutoff0, prior, self.key@) {
                                let k = choose|k: int| 0 <= k < prior.len() && lex_lt(#[trigger] node_distance(prior[k], self.key@), cutoff0);
                                assert(newp[k] == prior[k]);
                            }
                            if lex_lt(node_distance(info, self.key@), cutoff0) {
                                assert(newp[prior.len() as int] == info);
                            }
                            if spec_improves(cutoff0, newp, self.key@) {
                                let k = choose|k: int| 0 <= k < newp.len() && lex_lt(#[trigger] node_distance(newp[k], self.key@), cutoff0);
                                if k < prior.len() {
                                    assert(newp[k] == prior[k]);
                                }
                            }
                        }
                        lemma_cutoff_bound(cutoff0, prior, self.key@);
                    }
                }
            } else {
                proof {
                    assert(spec_newly_found(found0, nodes@.subrange(0, i + 1)) == prior);
                }
            }
            i = i + 1;
        }
        assert(nodes@.subrange(0, nodes@.len() as int) =~= nodes@);
    }

    /// Names the nearest queued peer for a request and counts it in flight.
    /// A lookup keeps at most `ALPHA` requests in flight (its invariant), so
    /// it names a peer only while fewer than `ALPHA` are.
    pub fn spawn_request(&mut self, out: &mut Vec<NodeInfo>)
        requires
            old(self).wf(),
            old(self).query_queue@.len() > 0,
            old(self).concurrency_count < ALPHA,
        ensures
            final(self).wf(),
            final(self).concurrency_count == old(self).concurrency_count + 1,
            final(out)@.len() == old(out)@.len() + 1,
            final(out)@.drop_last() == old(out)@,
            queue_nodes(old(self).query_queue@).contains(final(out)@.last()),
            final(self).query_queue@.len() == old(self).query_queue@.len() - 1,
            exists|i: int|
                0 <= i < old(self).query_queue@.len() && (#[trigger] old(self).query_queue@[i]).node == final(out)@.last()
                    && final(self).query_queue@ == old(self).query_queue@.remove(i),
            queue_nodes(old(self).query_queue@).to_multiset() == queue_nodes(final(self).query_queue@).to_multiset().insert(
                final(out)@.last(),
            ),
            forall|j: int| 0 <= j < final(self).query_queue@.len() ==>
                lex_le(node_distance(final(out)@.last(), final(self).key@), #[trigger] node_distance(final(self).query_queue@[j].node, final(self).key@)),
            forall|j: int| 0 <= j < final(self).query_queue@.len() ==>
                queue_nodes(old(self).query_queue@).contains(#[trigger] final(self).query_queue@[j].node),
            final(self).key == old(self).key,
            final(self).get_value == old(self).get_value,
            final(self).distance_cutoff == old(self).distance_cutoff,
            final(self).queried_nodes == old(self).queried_nodes,
            final(self).found_nodes == old(self).found_nodes,
            final(self).terminate == old(self).terminate,
            final(self).stage == old(self).stage,
    {
        let ghost q = self.query_queue@;
        let info = self.pop_nearest();
        proof {
            let i = choose|i: int|
                0 <= i < q.len() && q[i] == info && self.query_queue@ == q.remove(i)
                    && (forall|j: int| 0 <= j < q.len() ==> lex_le(info.distance@, #[trigger] q[j].distance@))
                    && (forall|j: int| 0 <= j < i ==> !lex_le(#[trigger] q[j].distance@, info.distance@));
            assert(queue_nodes(q)[i] == info.node);
            assert(queue_nodes(self.query_queue@) =~= queue_nodes(q).remove(i));
            vstd::seq_lib::to_multiset_remove(queue_nodes(q), i);
            vstd::seq_lib::to_multiset_contains(queue_nodes(q), info.node);
            assert(queue_nodes(q).to_multiset() =~= queue_nodes(self.query_queue@).to_multiset().insert(info.node));
            assert forall|j: int| 0 <= j < self.query_queue@.len() implies
                queue_nodes(q).contains(#[trigger] self.query_queue@[j].node) by {
                let j2 = if j < i { j } else { j + 1 };
                assert(self.query_queue@[j] == q[j2]);
                assert(queue_nodes(q)[j2] == q[j2].node);
            }
            assert forall|j: int| 0 <= j < self.query_queue@.len() implies
                lex_le(node_distance(info.node, self.key@), #[trigger] node_distance(self.query_queue@[j].node, self.key@)) by {
                let j2 = if j < i { j } else { j + 1 };
                assert(self.query_queue@[j] == q[j2]);
            }
            assert forall|k: int| 0 <= k < self.query_queue@.len() implies
                (#[trigger] self.query_queue@[k]).distance@ == node_distance(self.query_queue@[k].node, self.key@) by {
                let k2 = if k < i { k } else { k + 1 };
                assert(self.query_queue@[k] == q[k2]);
            }
        }
        out.push(info.node);
        self.concurrency_count = self.concurrency_count + 1;
        assert(out@.drop_last() =~= old(out)@);
    }

    /// Names queued peers, nearest first, until `ALPHA` requests are in
    /// flight or the queue is empty.
    pub fn fill_requests(&mut self, out: &mut Vec<NodeInfo>)
        requires
            old(self).wf(),
        ensures
            final(self).wf(),
            final(self).concurrency_count == ALPHA || final(self).query_queue@.len() == 0,
            final(self).concurrency_count >= old(self).concurrency_count,
            final(out)@.len() == old(out)@.len() + (final(self).concurrency_count - old(self).concurrency_count),
            final(out)@.subrange(0, old(out)@.len() as int) == old(out)@,
            final(self).query_queue@.len() == old(self).query_queue@.len() - (final(self).concurrency_count - old(self).concurrency_count),
            forall|j: int| old(out)@.len() <= j < final(out)@.len() ==> queue_nodes(old(self).query_queue@).contains(#[trigger] final(out)@[j]),
            forall|j: int| 0 <= j < final(self).query_queue@.len() ==> queue_nodes(old(self).query_queue@).contains(
                #[trigger] final(self).query_queue@[j].node,
            ),
            queue_nodes(old(self).query_queue@).to_multiset() == queue_nodes(final(self).query_queue@).to_multiset().add(
                final(out)@.skip(old(out)@.len() as int).to_multiset(),
            ),
            forall|j: int, k: int|
                old(out)@.len() <= j < final(out)@.len() && 0 <= k < final(self).query_queue@.len() ==> lex_le(
                    #[trigger] node_distance(final(out)@[j], final(self).key@),
                    #[trigger] node_distance(final(self).query_queue@[k].node, final(self).key@),
                ),
            final(self).key == old(self).key,
            final(self).get_value == old(self).get_value,
            final(self).distance_cutoff == old(self).distance_cutoff,
            final(self).queried_nodes == old(self).queried_nodes,
            final(self).found_nodes == old(self).found_nodes,
            final(self).terminate == old(self).terminate,
            final(self).stage == old(self).stage,
    {
        let ghost q0 = queue_nodes(self.query_queue@);
        proof {
            assert forall|j: int| 0 <= j < self.query_queue@.len() implies q0.contains(#[trigger] self.query_queue@[j].node) by {
                assert(q0[j] == self.query_queue@[j].node);
            }
            assert(out@.subrange(0, old(out)@.len() as int) =~= old(out)@);
            lemma_empty_multiset(out@.skip(old(out)@.len() as int));
            broadcast use vstd::multiset::group_multiset_axioms;
            assert(q0.to_multiset() =~= queue_nodes(self.query_queue@).to_multiset().add(Multiset::empty()));
        }
        while self.concurrency_count < ALPHA && self.query_queue.len() > 0
            invariant
                self.wf(),
                self.concurrency_count >= old(self).concurrency_count,
                out@.len() == old(out)@.len() + (self.concurrency_count - old(self).concurrency_count),
                out@.subrange(0, old(out)@.len() as int) == old(out)@,
                self.query_queue@.len() == old(self).query_queue@.len() - (self.concurrency_count - old(self).concurrency_count),
                q0 == queue_nodes(old(self).query_queue@),
                forall|j: int| old(out)@.len() <= j < out@.len() ==> q0.contains(#[trigger] out@[j]),
                forall|j: int| 0 <= j < self.query_queue@.len() ==> q0.contains(#[trigger] self.query_queue@[j].node),
                q0.to_multiset() == queue_nodes(self.query_queue@).to_multiset().add(
                    out@.skip(old(out)@.len() as int).to_multiset(),
                ),
                forall|j: int, k: int|
                    old(out)@.len() <= j < out@.len() && 0 <= k < self.query_queue@.len() ==> lex_le(
                        #[trigger] node_distance(out@[j], self.key@),
                        #[trigger] node_distance(self.query_queue@[k].node, self.key@),
                    ),
                self.key == old(self).key,
                self.get_value == old(self).get_value,
                self.distance_cutoff == old(self).distance_cutoff,
                self.queried_nodes == old(self).queried_nodes,
                self.found_nodes == old(self).found_nodes,
                self.terminate == old(self).terminate,
                self.stage == old(self).stage,
            decreases self.query_queue@.len(),
        {
            let ghost qprev = self.query_queue@;
            let ghost oprev = out@;
            self.spawn_request(out);
            proof {
                let x = out@.last();
                let k = choose|k: int| 0 <= k < queue_nodes(qprev).len() && queue_nodes(qprev)[k] == x;
                assert(qprev[k].node == x);
                assert(q0.contains(qprev[k].node));
                assert forall|j: int| old(out)@.len() <= j < out@.len() implies q0.contains(#[trigger] out@[j]) by {
                    if j < out@.len() - 1 {
                        assert(out@[j] == oprev[j]);
                    }
                }
                assert forall|j: int| 0 <= j < self.query_queue@.len() implies q0.contains(#[trigger] self.query_queue@[j].node) by {
                    let y = self.query_queue@[j].node;
                    assert(queue_nodes(qprev).contains(y));
                    let m = choose|m: int| 0 <= m < queue_nodes(qprev).len() && queue_nodes(qprev)[m] == y;
                    assert(qprev[m].node == y);
                }
                assert(out@.subrange(0, old(out)@.len() as int) =~= oprev.subrange(0, old(out)@.len() as int));
                let skp = oprev.skip(old(out)@.len() as int);
                assert(out@.skip(old(out)@.len() as int) =~= skp.push(x));
                vstd::seq_lib::to_multiset_build(skp, x);
                assert(q0.to_multiset() =~= queue_nodes(self.query_queue@).to_multiset().add(
                    out@.skip(old(out)@.len() as int).to_multiset(),
                ));
                let i = choose|i: int|
                    0 <= i < qprev.len() && (#[trigger] qprev[i]).node == x && self.query_queue@ == qprev.remove(i);
                assert forall|j: int, k: int|
                    old(out)@.len() <= j < out@.len() && 0 <= k < self.query_queue@.len() implies lex_le(
                        #[trigger] node_distance(out@[j], self.key@),
                        #[trigger] node_distance(self.query_queue@[k].node, self.key@),
                    ) by {
                    if j < out@.len() - 1 {
                        let k2 = if k < i { k } else { k + 1 };
                        assert(out@[j] == oprev[j]);
                        assert(self.query_queue@[k] == qprev[k2]);
                        assert(lex_le(node_distance(oprev[j], self.key@), node_distance(qprev[k2].node, self.key@)));
                    }
                }
            }
        }
    }

    /// The nearest `K` peers that answered, nearest first.
    pub fn result_nodes(&self) -> (r: Vec<NodeInfo>)
        ensures
            r@ == spec_lookup_nodes(self.queried_nodes@, self.key@),
            r@.len() == (if self.queried_nodes@.len() < K { self.queried_nodes@.len() as int } else { K as int }),
            sorted_by_distance(r@, self.key@),
            forall|i: int| 0 <= i < r@.len() ==> self.queried_nodes@.contains(#[trigger] r@[i]),
            forall|i: int, j: int|
                #![trigger r@[i], self.queried_nodes@[j]]
                0 <= i < r@.len() && 0 <= j < self.queried_nodes@.len() && !r@.contains(self.queried_nodes@[j])
                    ==> !lex_lt(node_distance(self.queried_nodes@[j], self.key@), node_distance(r@[i], self.key@)),
    {
        proof {
            lemma_lookup_result_sound(self.queried_nodes@, self.key@);
        }
        let mut r = sort_nodes_by_distance(&self.queried_nodes, &self.key);
        r.truncate(K as usize);
        proof {
            let s2 = sort_by_distance(self.queried_nodes@, self.key@);
            if K < s2.len() {
                assert(r@ =~= s2.take(K as int));
            }
        }
        r
    }

    /// Runs the lookup from the head of its current loop until it must wait
    /// for a reply or is finished; `out` holds the requests already named.
    pub fn advance(&mut self, out: Vec<NodeInfo>) -> (action: LookupAction)
        requires
            old(self).wf(),
            old(self).stage != LookupStage::Done,
        ensures
            final(self).wf(),
            final(self).key == old(self).key,
            final(self).get_value == old(self).get_value,
            final(self).distance_cutoff == old(self).distance_cutoff,
            final(self).queried_nodes == old(self).queried_nodes,
            final(self).found_nodes == old(self).found_nodes,
            final(self).concurrency_count >= old(self).concurrency_count,
            match action {
                LookupAction::Query(ns) => {
                    &&& final(self).stage != LookupStage::Done
                    &&& final(self).stage == (if old(self).stage == LookupStage::Converging
                        && old(self).concurrency_count > 0 && !old(self).terminate {
                        LookupStage::Converging
                    } else {
                        LookupStage::Exhausting
                    })
                    &&& final(self).concurrency_count > 0
                    &&& ns@.len() == out@.len() + (final(self).concurrency_count - old(self).concurrency_count)
                    &&& ns@.subrange(0, out@.len() as int) == out@
                    &&& forall|j: int| out@.len() <= j < ns@.len() ==> queue_nodes(old(self).query_queue@).contains(
                        #[trigger] ns@[j],
                    )
                    &&& queue_nodes(old(self).query_queue@).to_multiset() == queue_nodes(
                        final(self).query_queue@,
                    ).to_multiset().add(ns@.skip(out@.len() as int).to_multiset())
                    &&& (final(self).concurrency_count == ALPHA || final(self).query_queue@.len() == 0)
                    &&& forall|j: int, k: int|
                        out@.len() <= j < ns@.len() && 0 <= k < final(self).query_queue@.len() ==> lex_le(
                            #[trigger] node_distance(ns@[j], final(self).key@),
                            #[trigger] node_distance(final(self).query_queue@[k].node, final(self).key@),
                        )
                },
                LookupAction::Finished(LookupResult::Nodes(r)) => {
                    &&& final(self).stage == LookupStage::Done
                    &&& queue_nodes(final(self).query_queue@).to_multiset() == queue_nodes(
                        old(self).query_queue@,
                    ).to_multiset()
                    &&& r@ == spec_lookup_nodes(final(self).queried_nodes@, final(self).key@)
                    &&& (final(self).queried_nodes@.len() >= K
                        || (final(self).concurrency_count == 0 && final(self).query_queue@.len() == 0))
                },
                LookupAction::Finished(LookupResult::Value(_)) => false,
            },
            old(self).stage == LookupStage::Converging && old(self).concurrency_count > 0 && !old(self).terminate
                ==> action is Query && final(self).stage == LookupStage::Converging && final(self).terminate,
    {
        let mut out = out;
        if self.stage == LookupStage::Converging {
            if self.concurrency_count > 0 && !self.terminate {
                self.terminate = true;
                self.fill_requests(&mut out);
                return LookupAction::Query(out);
            }
            self.stage = LookupStage::Exhausting;
        }
        if self.queried_nodes.len() < K as usize {
            let ghost out0 = out@;
            self.fill_requests(&mut out);
            if self.concurrency_count > 0 {
                return LookupAction::Query(out);
            }
            proof {
                lemma_empty_multiset(out@.skip(out0.len() as int));
                broadcast use vstd::multiset::group_multiset_axioms;
                assert(queue_nodes(self.query_queue@).to_multiset() =~= queue_nodes(self.query_queue@).to_multiset().add(
                    Multiset::empty(),
                ));
            }
        }
        self.stage = LookupStage::Done;
        LookupAction::Finished(LookupResult::Nodes(self.result_nodes()))
    }

    /// Starts a lookup of `key` from the peers of `start_list`: they are
    /// queued, the local node counts as found and queried, the cutoff is the
    /// nearest start distance, and the first requests are named.
    pub fn start(local_info: NodeInfo, key: KadID, get_value: bool, start_list: Vec<NodeInfo>) -> (res: (NodeLookup, LookupAction))
        requires
            start_list@.len() > 0,
        ensures
            res.0.wf(),
            res.0.key == key,
            res.0.get_value == get_value,
            res.0.queried_nodes@ == seq![local_info],
            res.0.found_nodes@ == seq![local_info],
            res.0.stage == LookupStage::Converging,
            res.0.terminate,
            forall|i: int| 0 <= i < start_list@.len() ==> lex_le(res.0.distance_cutoff@, #[trigger] node_distance(start_list@[i], key@)),
            exists|i: int| 0 <= i < start_list@.len() && res.0.distance_cutoff@ == #[trigger] node_distance(start_list@[i], key@),
            res.1 matches LookupAction::Query(ns) && ns@.len() == res.0.concurrency_count && ns@.len() > 0
                && (forall|j: int| 0 <= j < ns@.len() ==> start_list@.contains(#[trigger] ns@[j]))
                && (queue_nodes(res.0.query_queue@) + ns@).to_multiset() == start_list@.to_multiset()
                && ns@.len() == (if start_list@.len() < ALPHA { start_list@.len() as int } else { ALPHA as int })
                && forall|j: int, k: int|
                    0 <= j < ns@.len() && 0 <= k < res.0.query_queue@.len() ==> lex_le(
                        #[trigger] node_distance(ns@[j], key@),
                        #[trigger] node_distance(res.0.query_queue@[k].node, key@),
                    ),
    {
        let mut cutoff = start_list[0].id.xor(&key);
        let mut queue: Vec<LookupQElement> = Vec::new();
        let mut i: usize = 0;
        proof {
            crate::kademlia::distance::lemma_lex_refl(cutoff@);
            assert(cutoff@ == node_distance(start_list@[0], key@));
        }
        while i < start_list.len()
            invariant
                1 <= start_list@.len(),
                i <= start_list@.len(),
                queue@.len() == i,
                forall|k: int| 0 <= k < i ==> (#[trigger] queue@[k]).node == start_list@[k],
                forall|k: int| 0 <= k < i ==> (#[trigger] queue@[k]).distance@ == node_distance(queue@[k].node, key@),
                forall|k: int| 0 <= k < i ==> lex_le(cutoff@, #[trigger] node_distance(start_list@[k], key@)),
                exists|k: int| 0 <= k < start_list@.len() && cutoff@ == #[trigger] node_distance(start_list@[k], key@),
            decreases start_list@.len() - i,
        {
            let node = start_list[i];
            let d = node.id.xor(&key);
            if !distance_le(&cutoff, &d) {
                proof {
                    lemma_lex_total(cutoff@, d@);
                    assert forall|k: int| 0 <= k < i implies lex_le(d@, #[trigger] node_distance(start_list@[k], key@)) by {
                        crate::kademlia::distance::lemma_lex_trans(d@, cutoff@, node_distance(start_list@[k], key@));
                    }
                    crate::kademlia::distance::lemma_lex_refl(d@);
                    assert(d@ == node_distance(start_list@[i as int], key@));
                }
                cutoff = d;
            } else {
                proof {
                    crate::kademlia::distance::lemma_lex_refl(d@);
                }
            }
            queue.push(LookupQElement { distance: d, node });
            i = i + 1;
        }
        let mut queried: Vec<NodeInfo> = Vec::new();
        queried.push(local_info);
        let mut found: Vec<NodeInfo> = Vec::new();
        found.push(local_info);
        let mut lookup = NodeLookup {
            key,
            get_value,
            distance_cutoff: cutoff,
            query_queue: queue,
            queried_nodes: queried,
            found_nodes: found,
            concurrency_count: 0,
            terminate: false,
            stage: LookupStage::Converging,
        };
        let mut out: Vec<NodeInfo> = Vec::new();
        proof {
            assert(queue_nodes(lookup.query_queue@) =~= start_list@);
        }
        lookup.fill_requests(&mut out);
        let ghost out1 = out@;
        let ghost q1 = queue_nodes(lookup.query_queue@);
        let ghost qq1 = lookup.query_queue@;
        proof {
            assert forall|x: NodeInfo| q1.contains(x) implies start_list@.contains(x) by {
                let k = choose|k: int| 0 <= k < q1.len() && q1[k] == x;
                assert(lookup.query_queue@[k].node == x);
            }
        }
        let action = lookup.advance(out);
        proof {
            if let LookupAction::Query(ns) = &action {
                let rest = ns@.skip(out1.len() as int);
                assert(ns@ =~= out1 + rest) by {
                    assert(ns@.subrange(0, out1.len() as int) == out1);
                }
                assert(out1.skip(0) =~= out1);
                vstd::seq_lib::lemma_multiset_commutative(out1, rest);
                vstd::seq_lib::lemma_multiset_commutative(queue_nodes(lookup.query_queue@), ns@);
                broadcast use vstd::multiset::group_multiset_axioms;
                assert((queue_nodes(lookup.query_queue@) + ns@).to_multiset() =~= start_list@.to_multiset());
                vstd::seq_lib::to_multiset_len(queue_nodes(lookup.query_queue@) + ns@);
                vstd::seq_lib::to_multiset_len(start_list@);
                assert((queue_nodes(lookup.query_queue@) + ns@).len() == start_list@.len());
                let qf = lookup.query_queue@;
                assert forall|j: int, k: int|
                    0 <= j < ns@.len() && 0 <= k < qf.len() implies lex_le(
                        #[trigger] node_distance(ns@[j], key@),
                        #[trigger] node_distance(qf[k].node, key@),
                    ) by {
                    if j < out1.len() {
                        assert(ns@.subrange(0, out1.len() as int)[j] == ns@[j]);
                        let x = qf[k].node;
                        assert(queue_nodes(qf)[k] == x);
                        vstd::seq_lib::to_multiset_contains(queue_nodes(qf), x);
                        vstd::seq_lib::to_multiset_contains(queue_nodes(qq1), x);
                        let k2 = choose|k2: int| 0 <= k2 < queue_nodes(qq1).len() && queue_nodes(qq1)[k2] == x;
                        assert(qq1[k2].node == x);
                        assert(lex_le(node_distance(out1[j], key@), node_distance(qq1[k2].node, key@)));
                    }
                }
                assert forall|j: int| 0 <= j < ns@.len() implies start_list@.contains(#[trigger] ns@[j]) by {
                    if j < out1.len() {
                        assert(ns@.subrange(0, out1.len() as int)[j] == ns@[j]);
                        assert(out1[j] == ns@[j]);
                    } else {
                        assert(q1.contains(ns@[j]));
                    }
                }
            }
        }
        (lookup, action)
    }

    /// Takes one reply (or `None` when a request went unanswered) and gives
    /// the next action. A found value ends the lookup with that value.
    pub fn step(&mut self, reply: Option<(LookupReply, NodeInfo)>) -> (action: LookupAction)
        requires
            old(self).wf(),
            old(self).stage != LookupStage::Done,
            old(self).concurrency_count > 0,
        ensures
            final(self).wf(),
            final(self).key == old(self).key,
            lex_le(final(self).distance_cutoff@, old(self).distance_cutoff@),
            old(self).queried_nodes@.len() <= final(self).queried_nodes@.len(),
            forall|n: NodeInfo| old(self).queried_nodes@.contains(n) ==> #[trigger] final(self).queried_nodes@.contains(n),
            forall|n: NodeInfo| old(self).found_nodes@.contains(n) ==> #[trigger] final(self).found_nodes@.contains(n),
            match reply {
                Some((LookupReply::Value(v), _)) => action matches LookupAction::Finished(LookupResult::Value(w)) && w@ == v@
                    && final(self).stage == LookupStage::Done,
                _ => true,
            },
            final(self).queried_nodes@ == reply_queried(old(self).queried_nodes@, reply),
            final(self).found_nodes@ == old(self).found_nodes@ + reply_newly(old(self).found_nodes@, reply),
            final(self).distance_cutoff@ == if old(self).stage == LookupStage::Converging {
                spec_cutoff(old(self).distance_cutoff@, reply_newly(old(self).found_nodes@, reply), old(self).key@)
            } else {
                old(self).distance_cutoff@
            },
            queue_nodes(old(self).query_queue@).to_multiset().add(reply_newly(old(self).found_nodes@, reply).to_multiset())
                == queue_nodes(final(self).query_queue@).to_multiset().add(action_queries(action).to_multiset()),
            match action {
                LookupAction::Query(ns) => {
                    &&& final(self).stage != LookupStage::Done
                    &&& final(self).stage == (if old(self).stage == LookupStage::Converging
                        && old(self).concurrency_count > 1 && !reply_stop(
                        old(self).terminate,
                        old(self).distance_cutoff@,
                        old(self).found_nodes@,
                        reply,
                        old(self).key@,
                    ) {
                        LookupStage::Converging
                    } else {
                        LookupStage::Exhausting
                    })
                    &&& final(self).concurrency_count > 0
                    &&& ns@.len() + old(self).concurrency_count == final(self).concurrency_count + 1
                    &&& (final(self).concurrency_count == ALPHA || final(self).query_queue@.len() == 0)
                    &&& forall|j: int, k: int|
                        0 <= j < ns@.len() && 0 <= k < final(self).query_queue@.len() ==> lex_le(
                            #[trigger] node_distance(ns@[j], final(self).key@),
                            #[trigger] node_distance(final(self).query_queue@[k].node, final(self).key@),
                        )
                },
                LookupAction::Finished(LookupResult::Nodes(r)) => {
                    &&& final(self).stage == LookupStage::Done
                    &&& r@ == spec_lookup_nodes(final(self).queried_nodes@, final(self).key@)
                    &&& (final(self).queried_nodes@.len() >= K
                        || (final(self).concurrency_count == 0 && final(self).query_queue@.len() == 0))
                },
                LookupAction::Finished(LookupResult::Value(_)) => final(self).stage == LookupStage::Done,
            },
            old(self).stage == LookupStage::Converging && old(self).concurrency_count > 1
                && !(reply matches Some((LookupReply::Value(_), _))) && !reply_stop(
                old(self).terminate,
                old(self).distance_cutoff@,
                old(self).found_nodes@,
                reply,
                old(self).key@,
            ) ==> action is Query && final(self).stage == LookupStage::Converging && final(self).terminate,
            action matches LookupAction::Query(ns) ==> forall|j: int| 0 <= j < ns@.len() ==> (queue_nodes(
                old(self).query_queue@,
            ).contains(#[trigger] ns@[j]) || (reply matches Some((LookupReply::Nodes(nodes), _))
                && nodes@.contains(ns@[j]))),
    {
        let ghost qn0 = queue_nodes(self.query_queue@);
        let ghost reply0 = reply;
        self.concurrency_count = self.concurrency_count - 1;
        proof {
            crate::kademlia::distance::lemma_lex_refl(self.distance_cutoff@);
        }
        let ghost q0 = self.queried_nodes@;
        let ghost f0 = self.found_nodes@;
        match reply {
            None => {},
            Some((LookupReply::Ping, sender)) => {
                if self.stage == LookupStage::Converging {
                    self.terminate = false;
                }
            },
            Some((LookupReply::Nodes(nodes), sender)) => {
                let ghost reply_nodes = nodes@;
                if self.stage == LookupStage::Converging {
                    self.on_find_node_stage1(sender, nodes);
                    proof {
                        let newly = spec_newly_found(f0, nodes@);
                        lemma_cutoff_bound(old(self).distance_cutoff@, newly, self.key@);
                    }
                } else {
                    self.on_find_node_stage2(sender, nodes);
                }
                proof {
                    lemma_set_insert_grows(q0, sender);
                    let newly = spec_newly_found(f0, reply_nodes);
                    lemma_newly_found_from_reply(f0, reply_nodes);
                    assert forall|x: NodeInfo| queue_nodes(self.query_queue@).contains(x) implies qn0.contains(x)
                        || reply_nodes.contains(x) by {
                        let k = choose|k: int| 0 <= k < (qn0 + newly).len() && (qn0 + newly)[k] == x;
                        if k < qn0.len() {
                            assert(qn0[k] == x);
                        } else {
                            assert(newly[k - qn0.len()] == x);
                            assert(newly.contains(x));
                        }
                    }
                    assert forall|n: NodeInfo| f0.contains(n) implies #[trigger] self.found_nodes@.contains(n) by {
                        let k = choose|k: int| 0 <= k < f0.len() && f0[k] == n;
                        assert(self.found_nodes@[k] == n);
                    }
                }
            },
            Some((LookupReply::Value(value), _)) => {
                self.stage = LookupStage::Done;
                proof {
                    assert(f0 + Seq::<NodeInfo>::empty() =~= f0);
                    lemma_empty_multiset(Seq::<NodeInfo>::empty());
                    broadcast use vstd::multiset::group_multiset_axioms;
                    assert(qn0.to_multiset().add(Multiset::empty()) =~= qn0.to_multiset());
                }
                return LookupAction::Finished(LookupResult::Value(value));
            },
        }
        proof {
            if self.stage == LookupStage::Converging {
                assert(self.terminate == reply_stop(old(self).terminate, old(self).distance_cutoff@, f0, reply0, self.key@));
            }
        }
        let ghost newly = reply_newly(f0, reply0);
        proof {
            if !(reply0 matches Some((LookupReply::Nodes(_), _))) {
                assert(f0 + newly =~= f0);
                assert(qn0 + newly =~= qn0);
            }
            assert(queue_nodes(self.query_queue@) == qn0 + newly);
            vstd::seq_lib::lemma_multiset_commutative(qn0, newly);
        }
        let out: Vec<NodeInfo> = Vec::new();
        let action = self.advance(out);
        proof {
            broadcast use vstd::multiset::group_multiset_axioms;
            let qf = queue_nodes(self.query_queue@).to_multiset();
            match &action {
                LookupAction::Query(ns) => {
                    assert(ns@.skip(0) =~= ns@);
                },
                _ => {
                    lemma_empty_multiset(Seq::<NodeInfo>::empty());
                    assert(qf.add(Multiset::empty()) =~= qf);
                },
            }
        }
        action
    }

}

/// The keys a joining node looks up, in order: its own identifier, then one
/// random identifier in each of the buckets `0..count`.
pub fn bootstrap_targets(local_id: &KadID, count: usize) -> (keys: Vec<KadID>)
    requires
        count <= 161,
    ensures
        keys@.len() == count + 1,
        keys@[0] == *local_id,
        forall|b: int| 0 <= b < count ==> spec_bucket(spec_xor(local_id@, (#[trigger] keys@[b + 1])@)) == b,
{
    let mut keys: Vec<KadID> = Vec::new();
    keys.push(*local_id);
    let mut b: usize = 0;
    while b < count
        invariant
            b <= count <= 161,
            keys@.len() == b + 1,
            keys@[0] == *local_id,
            forall|j: int| 0 <= j < b ==> spec_bucket(spec_xor(local_id@, (#[trigger] keys@[j + 1])@)) == j,
        decreases count - b,
    {
        let k = KadID::random_in_range(local_id, b);
        keys.push(k);
        b = b + 1;
    }
    keys
}

/// The cutoff is never farther than the starting one, and a peer nearer
/// than the starting one brings it below that.
proof fn lemma_cutoff_bound(cutoff: Seq<u8>, newly: Seq<NodeInfo>, key: Seq<u8>)
    requires
        cutoff.len() == 20,
        key.len() == 20,
    ensures
        spec_cutoff(cutoff, newly, key).len() == 20,
        lex_le(spec_cutoff(cutoff, newly, key), cutoff),
        spec_improves(cutoff, newly, key) ==> lex_lt(spec_cutoff(cutoff, newly, key), cutoff),
        !spec_improves(cutoff, newly, key) ==> spec_cutoff(cutoff, newly, key) == cutoff,
    decreases newly.len(),
{
    crate::kademlia::distance::lemma_lex_refl(cutoff);
    if newly.len() > 0 {
        let rest = newly.drop_last();
        lemma_cutoff_bound(cutoff, rest, key);
        let c = spec_cutoff(cutoff, rest, key);
        let d = node_distance(newly.last(), key);
        lemma_lex_total(d, c);
        lemma_lex_total(c, cutoff);
        if spec_improves(cutoff, rest, key) {
            let k = choose|k: int| 0 <= k < rest.len() && lex_lt(#[trigger] node_distance(rest[k], key), cutoff);
            assert(newly[k] == rest[k]);
        }
        if lex_lt(d, c) {
            crate::kademlia::distance::lemma_lex_trans(d, c, cutoff);
            if lex_le(cutoff, d) {
                crate::kademlia::distance::lemma_lex_trans(c, cutoff, d);
            }
            assert(newly[newly.len() - 1] == newly.last());
        }
        if spec_improves(cutoff, newly, key) {
            let k = choose|k: int| 0 <= k < newly.len() && lex_lt(#[trigger] node_distance(newly[k], key), cutoff);
            if k < rest.len() {
                assert(newly[k] == rest[k]);
            } else {
                if !lex_lt(d, c) && lex_le(cutoff, c) {
                    crate::kademlia::distance::lemma_lex_trans(cutoff, c, d);
                }
            }
        } else {
            assert(!spec_improves(cutoff, rest, key)) by {
                if spec_improves(cutoff, rest, key) {
                    let k = choose|k: int| 0 <= k < rest.len() && lex_lt(#[trigger] node_distance(rest[k], key), cutoff);
                    assert(newly[k] == rest[k]);
                }
            }
            assert(!lex_lt(d, cutoff)) by {
                assert(newly[newly.len() - 1] == newly.last());
            }
        }
    }
}

} // verus!
