use vstd::prelude::*;
use crate::kademlia::kadid::KadID;

verus! {

/// A UDP endpoint, as its parts: an IPv4 or IPv6 address and a port.
#[derive(Debug, Clone, Copy, PartialEq, Eq)]
pub enum NodeAddr {
    V4 { octets: [u8; 4], port: u16 },
    V6 { segments: [u8; 16], port: u16, flowinfo: u32, scope_id: u32 },
}

/// What a node knows of a peer: where to reach it, its identifier, and its
/// public key once it has learned it.
#[derive(Debug, Clone, Copy, PartialEq, Eq)]
pub struct NodeInfo {
    pub socket_addr: NodeAddr,
    pub id: KadID,
    pub pubkey: Option<[u8; 32]>,
}

/// Compares two byte arrays element by element.
pub fn array_eq<const N: usize>(a: &[u8; N], b: &[u8; N]) -> (r: bool)
    ensures
        r == (*a == *b),
{
    let mut i: usize = 0;
    while i < N
        invariant
            i <= N,
            forall|j: int| 0 <= j < i ==> a@[j] == b@[j],
        decreases N - i,
    {
        if a[i] != b[i] {
            return false;
        }
        i = i + 1;
    }
    assert(*a =~= *b);
    true
}

impl NodeAddr {
    pub fn equals(&self, other: &NodeAddr) -> (r: bool)
        ensures
            r == (*self == *other),
    {
        match (self, other) {
            (NodeAddr::V4 { octets: a, port: p }, NodeAddr::V4 { octets: b, port: q }) => array_eq(a, b) && *p == *q,
            (
                NodeAddr::V6 { segments: a, port: p, flowinfo: f, scope_id: s },
                NodeAddr::V6 { segments: b, port: q, flowinfo: g, scope_id: t },
            ) => array_eq(a, b) && *p == *q && *f == *g && *s == *t,
            _ => false,
        }
    }
}

impl NodeInfo {
    pub fn socket_addr(&self) -> (a: NodeAddr)
        ensures
            a == self.socket_addr,
    {
        self.socket_addr
    }

    pub fn id(&self) -> (id: &KadID)
        ensures
            *id == self.id,
    {
        &self.id
    }

    pub fn pub_key(&self) -> (k: &Option<[u8; 32]>)
        ensures
            *k == self.pubkey,
    {
        &self.pubkey
    }

    /// Field-by-field equality.
    pub fn equals(&self, other: &NodeInfo) -> (r: bool)
        ensures
            r == (*self == *other),
    {
        let same_key = match (&self.pubkey, &other.pubkey) {
            (Some(a), Some(b)) => array_eq(a, b),
            (None, None) => true,
            _ => false,
        };
        self.socket_addr.equals(&other.socket_addr) && array_eq(&self.id.0, &other.id.0) && same_key
    }
}

} // verus!
