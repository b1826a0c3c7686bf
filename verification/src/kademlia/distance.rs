//! Ordering peers by their XOR distance to a key.
use vstd::prelude::*;
use crate::kademlia::kadid::KadID;
use crate::kademlia::node::NodeInfo;
use crate::kademlia::util::spec_xor;

verus! {

/// Lexicographic `<=` on byte strings of one length: the order of
/// `[u8; 20]`, and so of distances read as 160-bit numbers.
pub open spec fn lex_le(a: Seq<u8>, b: Seq<u8>) -> bool
    decreases a.len(),
{
    if a.len() == 0 || b.len() == 0 {
        true
    } else if a[0] < b[0] {
        true
    } else if a[0] > b[0] {
        false
    } else {
        lex_le(a.drop_first(), b.drop_first())
    }
}

/// The distance of a peer to `key`.
pub open spec fn node_distance(n: NodeInfo, key: Seq<u8>) -> Seq<u8> {
    spec_xor(n.id@, key)
}

/// `s` is ordered by distance to `key`, nearest first.
pub open spec fn sorted_by_distance(s: Seq<NodeInfo>, key: Seq<u8>) -> bool {
    forall|i: int, j: int|
        0 <= i < j < s.len() ==> lex_le(#[trigger] node_distance(s[i], key), #[trigger] node_distance(s[j], key))
}

/// Inserts `x` into `s` after every peer that is not farther than `x`.
pub open spec fn insert_by_distance(s: Seq<NodeInfo>, x: NodeInfo, key: Seq<u8>) -> Seq<NodeInfo>
    decreases s.len(),
{
    if s.len() == 0 {
        seq![x]
    } else if lex_le(node_distance(s.last(), key), node_distance(x, key)) {
        s.push(x)
    } else {
        insert_by_distance(s.drop_last(), x, key).push(s.last())
    }
}

/// `s` stably sorted by distance to `key`: peers at equal distance keep their
/// order.
pub open spec fn sort_by_distance(s: Seq<NodeInfo>, key: Seq<u8>) -> Seq<NodeInfo>
    decreases s.len(),
{
    if s.len() == 0 {
        s
    } else {
        insert_by_distance(sort_by_distance(s.drop_last(), key), s.last(), key)
    }
}

/// Lexicographic comparison of two 20-byte strings.
pub fn distance_le(a: &[u8; 20], b: &[u8; 20]) -> (r: bool)
    ensures
        r == lex_le(a@, b@),
{
    let mut i: usize = 0;
    assert(a@.skip(0) =~= a@);
    assert(b@.skip(0) =~= b@);
    while i < 20
        invariant
            i <= 20,
            lex_le(a@, b@) == lex_le(a@.skip(i as int), b@.skip(i as int)),
        decreases 20 - i,
    {
        assert(a@.skip(i as int)[0] == a@[i as int]);
        assert(b@.skip(i as int)[0] == b@[i as int]);
        if a[i] < b[i] {
            return true;
        }
        if a[i] > b[i] {
            return false;
        }
        assert(a@.skip(i as int).drop_first() =~= a@.skip(i + 1));
        assert(b@.skip(i as int).drop_first() =~= b@.skip(i + 1));
        i = i + 1;
    }
    true
}

/// Where `insert_by_distance` puts `x`: after the last peer not farther.
proof fn lemma_insert_at(s: Seq<NodeInfo>, x: NodeInfo, key: Seq<u8>, p: int)
    requires
        0 <= p <= s.len(),
        p == 0 || lex_le(node_distance(s[p - 1], key), node_distance(x, key)),
        forall|j: int| p <= j < s.len() ==> !lex_le(#[trigger] node_distance(s[j], key), node_distance(x, key)),
    ensures
        insert_by_distance(s, x, key) == s.subrange(0, p).push(x) + s.subrange(p, s.len() as int),
    decreases s.len() - p,
{
    if s.len() == 0 {
        assert(seq![x] =~= s.subrange(0, p).push(x) + s.subrange(p, s.len() as int));
    } else if p == s.len() {
        assert(s.push(x) =~= s.subrange(0, p).push(x) + s.subrange(p, s.len() as int));
    } else {
        let d = s.drop_last();
        assert(!lex_le(node_distance(s[s.len() - 1], key), node_distance(x, key)));
        lemma_insert_at(d, x, key, p);
        assert(d.subrange(0, p) =~= s.subrange(0, p));
        assert(insert_by_distance(s, x, key) =~= s.subrange(0, p).push(x) + s.subrange(p, s.len() as int));
    }
}

/// Inserts `x` into a list in the place `insert_by_distance` gives it.
pub fn insert_node_by_distance(v: &mut Vec<NodeInfo>, x: NodeInfo, key: &KadID)
    ensures
        final(v)@ == insert_by_distance(old(v)@, x, key@),
{
    let dx = x.id.xor(key);
    let mut p: usize = v.len();
    while p > 0
        invariant
            p <= v@.len(),
            v@ == old(v)@,
            dx@ == node_distance(x, key@),
            forall|j: int| p <= j < v@.len() ==> !lex_le(#[trigger] node_distance(v@[j], key@), node_distance(x, key@)),
        ensures
            p == 0 || lex_le(node_distance(v@[p - 1], key@), node_distance(x, key@)),
        decreases p,
    {
        let dp = v[p - 1].id.xor(key);
        if distance_le(&dp, &dx) {
            break;
        }
        p = p - 1;
    }
    proof {
        lemma_insert_at(v@, x, key@, p as int);
    }
    v.insert(p, x);
    assert(v@ =~= old(v)@.subrange(0, p as int).push(x) + old(v)@.subrange(p as int, old(v)@.len() as int));
}

/// Stably sorts a list of peers by distance to `key`, nearest first.
pub fn sort_nodes_by_distance(nodes: &Vec<NodeInfo>, key: &KadID) -> (sorted: Vec<NodeInfo>)
    ensures
        sorted@ == sort_by_distance(nodes@, key@),
{
    let mut sorted: Vec<NodeInfo> = Vec::new();
    let mut i: usize = 0;
    while i < nodes.len()
        invariant
            i <= nodes@.len(),
            sorted@ == sort_by_distance(nodes@.subrange(0, i as int), key@),
        decreases nodes@.len() - i,
    {
        proof {
            let pre = nodes@.subrange(0, i + 1);
            assert(pre.drop_last() =~= nodes@.subrange(0, i as int));
            assert(pre.last() == nodes@[i as int]);
        }
        insert_node_by_distance(&mut sorted, nodes[i], key);
        i = i + 1;
    }
    assert(nodes@.subrange(0, nodes@.len() as int) =~= nodes@);
    sorted
}

/// Every string is `<=` itself.
pub proof fn lemma_lex_refl(a: Seq<u8>)
    ensures
        lex_le(a, a),
    decreases a.len(),
{
    if a.len() > 0 {
        lemma_lex_refl(a.drop_first());
    }
}

/// Any two strings are ordered one way or the other.
pub proof fn lemma_lex_total(a: Seq<u8>, b: Seq<u8>)
    ensures
        lex_le(a, b) || lex_le(b, a),
    decreases a.len(),
{
    if a.len() > 0 && b.len() > 0 && a[0] == b[0] {
        lemma_lex_total(a.drop_first(), b.drop_first());
    }
}

/// The order is transitive on strings of one length.
pub proof fn lemma_lex_trans(a: Seq<u8>, b: Seq<u8>, c: Seq<u8>)
    requires
        a.len() == b.len(),
        b.len() == c.len(),
        lex_le(a, b),
        lex_le(b, c),
    ensures
        lex_le(a, c),
    decreases a.len(),
{
    if a.len() > 0 && a[0] == b[0] && b[0] == c[0] {
        lemma_lex_trans(a.drop_first(), b.drop_first(), c.drop_first());
    }
}

/// What `insert_by_distance` returns holds `x` and the peers of `s`, and
/// nothing else.
pub proof fn lemma_insert_contents(s: Seq<NodeInfo>, x: NodeInfo, key: Seq<u8>)
    ensures
        insert_by_distance(s, x, key).len() == s.len() + 1,
        insert_by_distance(s, x, key).contains(x),
        forall|i: int| 0 <= i < insert_by_distance(s, x, key).len() ==>
            #[trigger] insert_by_distance(s, x, key)[i] == x || s.contains(insert_by_distance(s, x, key)[i]),
        forall|y: NodeInfo| s.contains(y) ==> #[trigger] insert_by_distance(s, x, key).contains(y),
    decreases s.len(),
{
    let r = insert_by_distance(s, x, key);
    if s.len() == 0 {
        assert(r[0] == x);
    } else if lex_le(node_distance(s.last(), key), node_distance(x, key)) {
        assert(r[s.len() as int] == x);
        assert forall|y: NodeInfo| s.contains(y) implies r.contains(y) by {
            let k = choose|k: int| 0 <= k < s.len() && s[k] == y;
            assert(r[k] == y);
        }
    } else {
        let d = s.drop_last();
        let q = insert_by_distance(d, x, key);
        lemma_insert_contents(d, x, key);
        assert(r == q.push(s.last()));
        let kx = choose|k: int| 0 <= k < q.len() && q[k] == x;
        assert(r[kx] == x);
        assert forall|i: int| 0 <= i < r.len() implies #[trigger] r[i] == x || s.contains(r[i]) by {
            if i < q.len() {
                assert(r[i] == q[i]);
                if q[i] != x {
                    let k = choose|k: int| 0 <= k < d.len() && d[k] == q[i];
                    assert(s[k] == d[k]);
                }
            } else {
                assert(s[s.len() - 1] == r[i]);
            }
        }
        assert forall|y: NodeInfo| s.contains(y) implies r.contains(y) by {
            let k = choose|k: int| 0 <= k < s.len() && s[k] == y;
            if k == s.len() - 1 {
                assert(r[q.len() as int] == y);
            } else {
                assert(d[k] == y);
                assert(d.contains(y));
                assert(insert_by_distance(d, x, key).contains(y));
                let j = choose|j: int| 0 <= j < q.len() && q[j] == y;
                assert(r[j] == y);
            }
        }
    }
}

/// Inserting into a sorted list keeps it sorted.
pub proof fn lemma_insert_sorted(s: Seq<NodeInfo>, x: NodeInfo, key: Seq<u8>)
    requires
        key.len() == 20,
        sorted_by_distance(s, key),
    ensures
        sorted_by_distance(insert_by_distance(s, x, key), key),
    decreases s.len(),
{
    let r = insert_by_distance(s, x, key);
    lemma_insert_contents(s, x, key);
    if s.len() == 0 {
    } else if lex_le(node_distance(s.last(), key), node_distance(x, key)) {
        assert forall|i: int, j: int| 0 <= i < j < r.len() implies lex_le(#[trigger] node_distance(r[i], key), #[trigger] node_distance(r[j], key)) by {
            if j == s.len() {
                if i < s.len() - 1 {
                    lemma_lex_trans(node_distance(s[i], key), node_distance(s.last(), key), node_distance(x, key));
                }
            } else {
                assert(r[i] == s[i] && r[j] == s[j]);
            }
        }
    } else {
        let d = s.drop_last();
        let q = insert_by_distance(d, x, key);
        lemma_insert_contents(d, x, key);
        assert(sorted_by_distance(d, key)) by {
            assert forall|i: int, j: int| 0 <= i < j < d.len() implies lex_le(#[trigger] node_distance(d[i], key), #[trigger] node_distance(d[j], key)) by {
                assert(d[i] == s[i] && d[j] == s[j]);
            }
        }
        lemma_insert_sorted(d, x, key);
        lemma_lex_total(node_distance(s.last(), key), node_distance(x, key));
        assert forall|i: int, j: int| 0 <= i < j < r.len() implies lex_le(#[trigger] node_distance(r[i], key), #[trigger] node_distance(r[j], key)) by {
            if j == q.len() {
                assert(r[j] == s.last());
                assert(r[i] == q[i]);
                if q[i] != x {
                    let k = choose|k: int| 0 <= k < d.len() && d[k] == q[i];
                    assert(s[k] == q[i]);
                    assert(lex_le(node_distance(s[k], key), node_distance(s[s.len() - 1], key)));
                }
            } else {
                assert(r[i] == q[i] && r[j] == q[j]);
            }
        }
    }
}

/// Sorting by distance gives a list ordered by distance, as long as the
/// input, made of the same peers.
pub proof fn lemma_sort_by_distance(s: Seq<NodeInfo>, key: Seq<u8>)
    requires
        key.len() == 20,
    ensures
        sorted_by_distance(sort_by_distance(s, key), key),
        sort_by_distance(s, key).len() == s.len(),
        forall|i: int| 0 <= i < s.len() ==> s.contains(#[trigger] sort_by_distance(s, key)[i]),
        forall|y: NodeInfo| s.contains(y) ==> #[trigger] sort_by_distance(s, key).contains(y),
    decreases s.len(),
{
    if s.len() > 0 {
        let d = s.drop_last();
        lemma_sort_by_distance(d, key);
        let q = sort_by_distance(d, key);
        lemma_insert_sorted(q, s.last(), key);
        lemma_insert_contents(q, s.last(), key);
        let r = sort_by_distance(s, key);
        assert forall|i: int| 0 <= i < s.len() implies s.contains(#[trigger] r[i]) by {
            if r[i] == s.last() {
                assert(s[s.len() - 1] == r[i]);
            } else {
                let k = choose|k: int| 0 <= k < q.len() && q[k] == r[i];
                assert(d.contains(q[k]));
                let m = choose|m: int| 0 <= m < d.len() && d[m] == q[k];
                assert(s[m] == d[m]);
            }
        }
        assert forall|y: NodeInfo| s.contains(y) implies #[trigger] r.contains(y) by {
            let k = choose|k: int| 0 <= k < s.len() && s[k] == y;
            if k == s.len() - 1 {
            } else {
                assert(d[k] == y);
                assert(d.contains(y));
                assert(q.contains(y));
            }
        }
    }
}

} // verus!
