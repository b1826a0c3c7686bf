//! The messages nodes exchange, and the checks made on their senders.
use vstd::prelude::*;
use crate::bits::seq_leading_zeros;
use crate::kademlia::kadid::KadID;
use crate::kademlia::node::NodeInfo;
use crate::kademlia::util::{spec_xor, xor_bytes, get_leading_zeros};
use crate::outside::{sha1, sha1_digest, ed25519_sign, sign_bytes, ed25519_verifies, verify_signature, ed25519_public, keypair_consistent, public_key_of};

verus! {

/// Leading zero bits that the puzzle hash of a message must exceed.
pub const SECURE_KEY_C2: usize = 2;

/// What a request asks of the receiving node.
#[derive(Debug, Clone)]
pub enum KadRequestFunction {
    Ping,
    Store { key: KadID, value: Vec<u8> },
    FindNode { id: KadID },
    FindValue { key: KadID },
    Broadcast(Vec<u8>),
}

#[derive(Debug, Clone)]
pub struct KadRequest {
    pub uid: [u8; 20],
    pub function: KadRequestFunction,
}

/// The answer to a `FindValue` request: the value, or the peers closest to
/// the key.
#[derive(Debug, Clone)]
pub enum KadFindValueResponse {
    Found(Vec<u8>),
    Next(Vec<NodeInfo>),
}

#[derive(Debug, Clone)]
pub enum KadResponseFunction {
    Ping,
    FindNode { nodes: Vec<NodeInfo> },
    FindValue(KadFindValueResponse),
}

#[derive(Debug, Clone)]
pub struct KadResponse {
    pub uid: [u8; 20],
    pub function: KadResponseFunction,
}

/// Why a signed message was refused.
#[derive(Debug, Clone, Copy, PartialEq, Eq)]
pub enum SignedMessageError {
    /// The node identifier does not belong to the public key (a check no
    /// rule is defined for here, so this is never given).
    C1VerifyError,
    /// The puzzle solution is wrong.
    C2VerifyError,
}

/// The dynamic crypto puzzle: `x` solves it for `id` when the SHA-1 digest of
/// `id XOR x` has more than `SECURE_KEY_C2` leading zero bits.
pub open spec fn spec_puzzle_solved(x: Seq<u8>, id: Seq<u8>) -> bool {
    seq_leading_zeros(sha1(spec_xor(id, x))) > SECURE_KEY_C2
}

/// Checks a solution of the dynamic crypto puzzle.
pub fn dynamic_cryptopuzzle_verify(x: &[u8; 20], id: &KadID) -> (ok: bool)
    ensures
        ok == spec_puzzle_solved(x@, id@),
{
    let d = xor_bytes(id.as_ref(), x);
    let p = sha1_digest(d.as_slice());
    get_leading_zeros(&p) > SECURE_KEY_C2 as u8
}

/// Draws random candidates until one solves the puzzle for `id`, and returns
/// it; gives up, with `None`, only after `u64::MAX` failed draws.
pub fn dynamic_cryptopuzzle_generate(id: &KadID) -> (r: Option<[u8; 20]>)
    ensures
        r matches Some(x) ==> spec_puzzle_solved(x@, id@),
{
    let mut tries: u64 = 0;
    loop
        decreases u64::MAX - tries,
    {
        let x = KadID::random().into_array();
        if dynamic_cryptopuzzle_verify(&x, id) {
            return Some(x);
        }
        if tries == u64::MAX {
            return None;
        }
        tries = tries + 1;
    }
}

/// Why a received message was refused.
#[derive(Debug, Clone, Copy, PartialEq, Eq)]
pub enum MessageRejection {
    /// The signature does not verify under the sender's key.
    BadSignature,
    /// The sender failed one of the identity checks.
    Insecure(SignedMessageError),
}

/// The 64-byte keypair of a secret key: the secret, then its public key.
pub fn keypair_from_secret(secret: [u8; 32]) -> (kp: [u8; 64])
    ensures
        kp@ == secret@ + ed25519_public(secret@),
        keypair_consistent(kp@),
{
    let public = public_key_of(&secret);
    let mut kp = [0u8; 64];
    let mut i: usize = 0;
    while i < 32
        invariant
            i <= 32,
            forall|j: int| 0 <= j < i ==> kp@[j] == secret@[j] && kp@[j + 32] == public@[j],
        decreases 32 - i,
    {
        kp[i] = secret[i];
        kp[i + 32] = public[i];
        i = i + 1;
    }
    assert(kp@ =~= secret@ + public@);
    assert(kp@.subrange(0, 32) =~= secret@);
    assert(kp@.subrange(32, 64) =~= public@);
    kp
}

/// Signs the text of an outgoing message with the node's keypair and solves
/// the puzzle for the node's identifier: the signature and the solution, or
/// `None` when the keypair bytes do not form a keypair (or no solution was
/// drawn).
pub fn sign_message(keypair: &[u8; 64], message: &[u8], id: &KadID) -> (r: Option<([u8; 64], [u8; 20])>)
    ensures
        r matches Some((sig, x)) ==> ed25519_sign(keypair@, message@) == Some(sig@) && spec_puzzle_solved(
            x@,
            id@,
        ),
        ed25519_sign(keypair@, message@) is None ==> r is None,
        keypair_consistent(keypair@) ==> (r matches Some((sig, x)) ==> ed25519_verifies(
            keypair@.subrange(32, 64),
            message@,
            sig@,
        )),
{
    let sig = match sign_bytes(keypair, message) {
        Some(s) => s,
        None => return None,
    };
    match dynamic_cryptopuzzle_generate(id) {
        Some(x) => Some((sig, x)),
        None => None,
    }
}

/// The checks made on a received message from a sender that carries a
/// public key: the signature over the message text, then the puzzle. The
/// static identity check (that a node identifier belongs to its public
/// key) is not made: no rule for it is defined, so `C1VerifyError` is never
/// given.
pub fn verify_message(message: &[u8], signature: &[u8; 64], puzzle_x: &[u8; 20], sender: &NodeInfo) -> (res: Result<
    (),
    MessageRejection,
>)
    requires
        sender.pubkey is Some,
    ensures
        !ed25519_verifies(sender.pubkey->0@, message@, signature@) ==> res == Err::<(), MessageRejection>(
            MessageRejection::BadSignature,
        ),
        ed25519_verifies(sender.pubkey->0@, message@, signature@) && !spec_puzzle_solved(puzzle_x@, sender.id@)
            ==> res == Err::<(), MessageRejection>(MessageRejection::Insecure(SignedMessageError::C2VerifyError)),
        ed25519_verifies(sender.pubkey->0@, message@, signature@) && spec_puzzle_solved(puzzle_x@, sender.id@)
            ==> res is Ok,
{
    let pk = sender.pubkey.as_ref().unwrap();
    if !verify_signature(pk, message, signature) {
        return Err(MessageRejection::BadSignature);
    }
    match check_puzzle(puzzle_x, &sender.id) {
        Ok(()) => Ok(()),
        Err(e) => Err(MessageRejection::Insecure(e)),
    }
}

/// The puzzle check made on every received message.
pub fn check_puzzle(x: &[u8; 20], id: &KadID) -> (res: Result<(), SignedMessageError>)
    ensures
        res is Ok <==> spec_puzzle_solved(x@, id@),
        res is Err ==> res == Err::<(), SignedMessageError>(SignedMessageError::C2VerifyError),
{
    if dynamic_cryptopuzzle_verify(x, id) {
        Ok(())
    } else {
        Err(SignedMessageError::C2VerifyError)
    }
}

} // verus!
