//! Transactions between two parties, signed by the sender and then by the
//! receiver.
pub mod auction;

use vstd::prelude::*;
use crate::outside::{
    timestamp_in_range, datetime_in_range, datetime_valid, now_utc_nanos, sha256_hex, sha256_digest_hex,
};

verus! {

/// Why a transaction could not be signed.
#[derive(Debug, Clone, Copy, PartialEq, Eq)]
pub enum TransactionError {
    SigningError,
}

/// Why a transaction body could not be encoded.
#[derive(Debug, Clone, Copy, PartialEq, Eq)]
pub enum EncodeError {
    Postcard,
}

/// A transfer of `amount` from `sender` to `receiver` (their public keys),
/// made at `timestamp` (Unix nanoseconds, UTC).
#[derive(Debug, Clone, Copy, PartialEq, Eq)]
pub struct Transaction {
    pub(crate) sender: [u8; 32],
    pub(crate) receiver: [u8; 32],
    pub(crate) timestamp: i128,
    pub(crate) offset: i32,
    pub(crate) amount: u64,
}

/// A transaction signed by its sender.
#[derive(Debug, Clone, Copy, PartialEq, Eq)]
pub struct TransactionSemiSigned {
    pub transaction: Transaction,
    pub sender_signature: [u8; 64],
}

/// A transaction signed by both parties.
#[derive(Debug, Clone, Copy, PartialEq, Eq)]
pub struct TransactionSigned {
    pub transaction: Transaction,
    pub sender_signature: [u8; 64],
    pub receiver_signature: [u8; 64],
}

/// The plain values of a transaction.
pub struct TransactionView {
    pub sender: Seq<u8>,
    pub receiver: Seq<u8>,
    pub timestamp: i128,
    pub offset: i32,
    pub amount: u64,
}

impl View for Transaction {
    type V = TransactionView;

    closed spec fn view(&self) -> TransactionView {
        TransactionView {
            sender: self.sender@,
            receiver: self.receiver@,
            timestamp: self.timestamp,
            offset: self.offset,
            amount: self.amount,
        }
    }
}

/// The postcard encoding of a transaction, as `postcard::to_allocvec` writes
/// the fields: both keys as byte strings, the timestamp as `time` serializes
/// an `OffsetDateTime`, then the amount.
pub uninterp spec fn postcard_transaction(sender: Seq<u8>, receiver: Seq<u8>, timestamp: i128, offset: i32, amount: u64) -> Seq<u8>;

/// The bincode encoding of a transaction, field after field in the same way.
pub uninterp spec fn bincode_transaction(sender: Seq<u8>, receiver: Seq<u8>, timestamp: i128, offset: i32, amount: u64) -> Seq<u8>;

/// The bincode encoding of a transaction's view.
pub open spec fn transaction_bytes(t: TransactionView) -> Seq<u8> {
    bincode_transaction(t.sender, t.receiver, t.timestamp, t.offset, t.amount)
}

#[verifier::external_type_specification]
#[verifier::external_body]
pub struct ExPostcardError(postcard::Error);

/// `postcard::to_allocvec` of the transaction's fields (keys as byte
/// strings, the time as an `OffsetDateTime` at the transaction's offset).
/// Claimed: it succeeds, and
/// returns `postcard_transaction` of the fields. Postcard's `AllocVec` output
/// only grows a `Vec`, its serializer fails only on sequences of unknown
/// length and on `collect_str`, and neither occurs here: byte slices give
/// their length, and `time` writes an `OffsetDateTime` to a serializer that
/// is not human-readable as a tuple of integers.
#[verifier::external_body]
fn postcard_encode_transaction(tx: &Transaction) -> (res: Result<Vec<u8>, postcard::Error>)
    requires
        datetime_in_range(tx@.timestamp, tx@.offset),
    ensures
        res is Ok,
        res matches Ok(v) ==> v@ == postcard_transaction(tx@.sender, tx@.receiver, tx@.timestamp, tx@.offset, tx@.amount),
{
    let offset = time::UtcOffset::from_whole_seconds(tx.offset).unwrap();
    let ts = time::OffsetDateTime::from_unix_timestamp_nanos(tx.timestamp).unwrap().to_offset(offset);
    postcard::to_allocvec(&(&tx.sender[..], &tx.receiver[..], ts, tx.amount))
}

/// `bincode::serialize` of the transaction's fields, laid out as the
/// transaction struct is. Claimed: the result is `bincode_transaction` of
/// the fields.
#[verifier::external_body]
fn bincode_encode_transaction(tx: &Transaction) -> (v: Vec<u8>)
    requires
        datetime_in_range(tx@.timestamp, tx@.offset),
    ensures
        v@ == bincode_transaction(tx@.sender, tx@.receiver, tx@.timestamp, tx@.offset, tx@.amount),
{
    let offset = time::UtcOffset::from_whole_seconds(tx.offset).unwrap();
    let ts = time::OffsetDateTime::from_unix_timestamp_nanos(tx.timestamp).unwrap().to_offset(offset);
    bincode::serialize(&(&tx.sender[..], &tx.receiver[..], ts, tx.amount)).unwrap()
}

impl Transaction {
    /// A transaction's time, at its offset, is one `time` can represent.
    #[verifier::type_invariant]
    closed spec fn inv(self) -> bool {
        datetime_in_range(self.timestamp, self.offset)
    }

    /// Every transaction of a list has a representable time.
    pub fn all_timestamps_ok(txs: &Vec<Transaction>)
        ensures
            forall|i: int| 0 <= i < txs@.len() ==> datetime_in_range(#[trigger] txs@[i]@.timestamp, txs@[i]@.offset),
    {
        let mut i: usize = 0;
        while i < txs.len()
            invariant
                i <= txs@.len(),
                forall|j: int| 0 <= j < i ==> datetime_in_range(#[trigger] txs@[j]@.timestamp, txs@[j]@.offset),
            decreases txs@.len() - i,
        {
            let t = &txs[i];
            proof {
                use_type_invariant(t);
            }
            i = i + 1;
        }
    }

    /// A transaction made at the instant `timestamp` and recorded at the UTC
    /// offset `offset` (seconds east of UTC), or `None` when `time` cannot
    /// represent that time.
    pub fn new_at_offset(
        sender: [u8; 32],
        receiver: [u8; 32],
        amount: u64,
        timestamp: i128,
        offset: i32,
    ) -> (t: Option<Transaction>)
        ensures
            match t {
                Some(t) => datetime_in_range(timestamp, offset) && t@ == (TransactionView {
                    sender: sender@,
                    receiver: receiver@,
                    timestamp,
                    offset,
                    amount,
                }),
                None => !datetime_in_range(timestamp, offset),
            },
    {
        if datetime_valid(timestamp, offset) {
            Some(Transaction { sender, receiver, timestamp, offset, amount })
        } else {
            None
        }
    }

    /// A transaction made at `timestamp`, recorded in UTC, or `None` when
    /// `time` cannot represent that instant.
    pub fn new_at(sender: [u8; 32], receiver: [u8; 32], amount: u64, timestamp: i128) -> (t: Option<Transaction>)
        ensures
            match t {
                Some(t) => timestamp_in_range(timestamp) && t@ == (TransactionView {
                    sender: sender@,
                    receiver: receiver@,
                    timestamp,
                    offset: 0,
                    amount,
                }),
                None => !timestamp_in_range(timestamp),
            },
    {
        if datetime_valid(timestamp, 0) {
            Some(Transaction { sender, receiver, timestamp, offset: 0, amount })
        } else {
            None
        }
    }

    /// A transaction made now, recorded in UTC.
    pub fn new(sender: [u8; 32], receiver: [u8; 32], amount: u64) -> (t: Transaction)
        ensures
            t@.sender == sender@,
            t@.receiver == receiver@,
            t@.amount == amount,
            t@.offset == 0,
            timestamp_in_range(t@.timestamp),
    {
        let timestamp = now_utc_nanos();
        Self::new_at(sender, receiver, amount, timestamp).unwrap()
    }

    pub fn sender(&self) -> (k: [u8; 32])
        ensures
            k@ == self@.sender,
    {
        self.sender
    }

    pub fn receiver(&self) -> (k: [u8; 32])
        ensures
            k@ == self@.receiver,
    {
        self.receiver
    }

    pub fn timestamp(&self) -> (t: i128)
        ensures
            t == self@.timestamp,
    {
        self.timestamp
    }

    /// The UTC offset, in seconds east of UTC, the time was recorded at.
    pub fn offset(&self) -> (o: i32)
        ensures
            o == self@.offset,
    {
        self.offset
    }

    pub fn amount(&self) -> (a: u64)
        ensures
            a == self@.amount,
    {
        self.amount
    }

    /// Signs the transaction as its sender.
    pub fn sign(self, signature: [u8; 64]) -> (s: TransactionSemiSigned)
        ensures
            s.transaction == self,
            s.sender_signature == signature,
    {
        TransactionSemiSigned { transaction: self, sender_signature: signature }
    }

    /// The bincode encoding of the transaction, as it is hashed into blocks.
    pub fn bincode_bytes(&self) -> (v: Vec<u8>)
        ensures
            v@ == bincode_transaction(self@.sender, self@.receiver, self@.timestamp, self@.offset, self@.amount),
    {
        proof {
            use_type_invariant(self);
        }
        bincode_encode_transaction(self)
    }

    /// The postcard encoding of the transaction.
    pub fn body_serialize(&self) -> (res: Result<Vec<u8>, EncodeError>)
        ensures
            res matches Ok(v) && v@ == postcard_transaction(self@.sender, self@.receiver, self@.timestamp, self@.offset, self@.amount),
    {
        proof {
            use_type_invariant(self);
        }
        match postcard_encode_transaction(self) {
            Ok(v) => Ok(v),
            Err(_) => Err(EncodeError::Postcard),
        }
    }

    /// The hex SHA-256 digest of the postcard encoding.
    pub fn body_digest(&self) -> (res: Result<String, EncodeError>)
        ensures
            res matches Ok(s) && s@ == sha256_hex(postcard_transaction(self@.sender, self@.receiver, self@.timestamp, self@.offset, self@.amount)),
    {
        match self.body_serialize() {
            Ok(v) => Ok(sha256_digest_hex(v.as_slice())),
            Err(e) => Err(e),
        }
    }
}

impl TransactionSemiSigned {
    /// Adds the receiver's signature.
    pub fn sign(self, signature: [u8; 64]) -> (res: Result<TransactionSigned, TransactionError>)
        ensures
            res matches Ok(s) && s.transaction == self.transaction && s.sender_signature == self.sender_signature
                && s.receiver_signature == signature,
    {
        Ok(TransactionSigned {
            transaction: self.transaction,
            sender_signature: self.sender_signature,
            receiver_signature: signature,
        })
    }

    /// The postcard encoding of the signed transaction's body.
    pub fn body_serialize(&self) -> (res: Result<Vec<u8>, EncodeError>)
        ensures
            res matches Ok(v) && v@ == postcard_transaction(
                self.transaction@.sender,
                self.transaction@.receiver,
                self.transaction@.timestamp,
                self.transaction@.offset,
                self.transaction@.amount,
            ),
    {
        self.transaction.body_serialize()
    }

    /// The hex SHA-256 digest of the body's postcard encoding.
    pub fn body_digest(&self) -> (res: Result<String, EncodeError>)
        ensures
            res matches Ok(s) && s@ == sha256_hex(postcard_transaction(
                self.transaction@.sender,
                self.transaction@.receiver,
                self.transaction@.timestamp,
                self.transaction@.offset,
                self.transaction@.amount,
            )),
    {
        self.transaction.body_digest()
    }
}

impl TransactionSigned {
    /// The postcard encoding of the signed transaction's body.
    pub fn body_serialize(&self) -> (res: Result<Vec<u8>, EncodeError>)
        ensures
            res matches Ok(v) && v@ == postcard_transaction(
                self.transaction@.sender,
                self.transaction@.receiver,
                self.transaction@.timestamp,
                self.transaction@.offset,
                self.transaction@.amount,
            ),
    {
        self.transaction.body_serialize()
    }

    /// The hex SHA-256 digest of the body's postcard encoding.
    pub fn body_digest(&self) -> (res: Result<String, EncodeError>)
        ensures
            res matches Ok(s) && s@ == sha256_hex(postcard_transaction(
                self.transaction@.sender,
                self.transaction@.receiver,
                self.transaction@.timestamp,
                self.transaction@.offset,
                self.transaction@.amount,
            )),
    {
        self.transaction.body_digest()
    }

    /// Signed transactions are ordered by when they were made.
    pub fn cmp_by_time(&self, other: &TransactionSigned) -> (c: core::cmp::Ordering)
        ensures
            c == core::cmp::Ordering::Less <==> self.transaction@.timestamp < other.transaction@.timestamp,
            c == core::cmp::Ordering::Equal <==> self.transaction@.timestamp == other.transaction@.timestamp,
            c == core::cmp::Ordering::Greater <==> self.transaction@.timestamp > other.transaction@.timestamp,
    {
        let a = self.transaction.timestamp;
        let b = other.transaction.timestamp;
        if a < b {
            core::cmp::Ordering::Less
        } else if a == b {
            core::cmp::Ordering::Equal
        } else {
            core::cmp::Ordering::Greater
        }
    }
}

} // verus!
