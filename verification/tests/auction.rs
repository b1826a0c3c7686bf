use ed25519_dalek_fiat::{PublicKey, SecretKey};
use kadchain::auction_common::auction::{Auction, Bid, AUCTION_EXTENSION_NANOS};
use kadchain::auction_common::{Transaction, TransactionError};
use kadchain::utils::{get_hash, get_leading_zeros, random};
use time::OffsetDateTime;

fn public_key(seed: u8) -> PublicKey {
    let secret = SecretKey::from_bytes(&[seed; 32]).unwrap();
    (&secret).into()
}

#[test]
fn transaction_fields_and_signatures() {
    let t = Transaction::new_at([1u8; 32], [2u8; 32], 50, 1_000).unwrap();
    assert_eq!(t.sender(), [1u8; 32]);
    assert_eq!(t.receiver(), [2u8; 32]);
    assert_eq!(t.amount(), 50);
    assert_eq!(t.timestamp(), 1_000);
    let semi = t.sign([3u8; 64]);
    assert_eq!(semi.transaction, t);
    assert_eq!(semi.sender_signature, [3u8; 64]);
    let signed = semi.sign([4u8; 64]).unwrap();
    assert_eq!(signed.transaction, t);
    assert_eq!(signed.receiver_signature, [4u8; 64]);
    let err: Result<(), TransactionError> = Err(TransactionError::SigningError);
    assert!(err.is_err());
}

#[test]
fn transaction_time_out_of_range() {
    assert!(Transaction::new_at([1u8; 32], [2u8; 32], 1, i128::MAX).is_none());
}

#[test]
fn transaction_encodings_match_serde() {
    let sender = public_key(1);
    let receiver = public_key(2);
    let ts = OffsetDateTime::from_unix_timestamp_nanos(1_700_000_000_123_456_789).unwrap();
    let t = Transaction::new_at(sender.to_bytes(), receiver.to_bytes(), 77, 1_700_000_000_123_456_789).unwrap();
    let expected_bincode = bincode::serialize(&(sender, receiver, ts, 77u64)).unwrap();
    assert_eq!(t.bincode_bytes(), expected_bincode);
    let expected_postcard = postcard::to_allocvec(&(sender, receiver, ts, 77u64)).unwrap();
    assert_eq!(t.body_serialize().unwrap(), expected_postcard);
    assert_eq!(t.body_digest().unwrap(), sha256::digest(&expected_postcard[..]));
    let signed = t.sign([0u8; 64]).sign([0u8; 64]).unwrap();
    assert_eq!(signed.body_digest().unwrap(), sha256::digest(&expected_postcard[..]));
}

#[test]
fn signed_transactions_order_by_time() {
    let early = Transaction::new_at([1u8; 32], [2u8; 32], 1, 10).unwrap().sign([0; 64]).sign([0; 64]).unwrap();
    let late = Transaction::new_at([1u8; 32], [2u8; 32], 1, 20).unwrap().sign([0; 64]).sign([0; 64]).unwrap();
    assert_eq!(early.cmp_by_time(&late), std::cmp::Ordering::Less);
    assert_eq!(late.cmp_by_time(&early), std::cmp::Ordering::Greater);
    assert_eq!(early.cmp_by_time(&early), std::cmp::Ordering::Equal);
}

#[test]
fn auction_bidding() {
    let auction = Auction::new([9u8; 32], "lamp".to_string(), "a brass lamp".to_string(), 100);
    assert_eq!(auction.id.len(), 20);
    let mut signed = auction.sign_at([1u8; 64], 5_000);
    assert_eq!(signed.end_time, 5_000 + AUCTION_EXTENSION_NANOS);
    assert_eq!(signed.get_name(), "lamp");
    assert_eq!(signed.get_product(), "a brass lamp");
    assert_eq!(signed.get_minimum(), 100);
    assert_eq!(signed.get_last_bid_or_minimum_bid(), 100);
    assert!(!signed.ended_at(5_000 + AUCTION_EXTENSION_NANOS));
    assert!(signed.ended_at(5_001 + AUCTION_EXTENSION_NANOS));

    let bid = Bid::new_at(150, 6_000).sign([8u8; 32], [2u8; 64]);
    signed.bid_at(bid, 7_000);
    assert_eq!(signed.get_last_bid_or_minimum_bid(), 150);
    assert_eq!(signed.end_time, 7_000 + AUCTION_EXTENSION_NANOS);
    assert_eq!(signed.get_bids().len(), 1);
    assert_eq!(signed.get_bids()[0].bid.value, 150);
    signed.bid(Bid::new(160).sign([8u8; 32], [2u8; 64]));
    assert_eq!(signed.get_last_bid_or_minimum_bid(), 160);
    assert!(!signed.ended());
}

#[test]
fn leading_zeros_of_vectors() {
    assert_eq!(get_leading_zeros(&vec![0u8, 0, 0x10]), 19);
    assert_eq!(get_leading_zeros(&vec![]), 0);
    assert_eq!(get_leading_zeros(&vec![0u8; 3]), 24);
    assert_eq!(get_leading_zeros(&vec![0xFFu8, 0]), 0);
}

#[test]
fn hash_of_parts_is_hash_of_concatenation() {
    let expected: [u8; 20] = sha1_smol::Sha1::from(&b"abcdef"[..]).digest().bytes();
    assert_eq!(get_hash(&vec![b"abc".to_vec(), b"def".to_vec()]), expected);
    assert_eq!(get_hash(&vec![b"abcdef".to_vec()]), expected);
}

#[test]
fn random_gives_twenty_bytes() {
    assert_eq!(random().len(), 20);
}

#[test]
fn transaction_offset_is_encoded() {
    let sender = public_key(1);
    let receiver = public_key(2);
    let nanos: i128 = 1_700_000_000_123_456_789;
    let offset = time::UtcOffset::from_whole_seconds(3600 + 1800).unwrap();
    let ts = OffsetDateTime::from_unix_timestamp_nanos(nanos).unwrap().to_offset(offset);
    let t = Transaction::new_at_offset(sender.to_bytes(), receiver.to_bytes(), 9, nanos, 5400).unwrap();
    assert_eq!(t.offset(), 5400);
    assert_eq!(t.bincode_bytes(), bincode::serialize(&(sender, receiver, ts, 9u64)).unwrap());
    assert_eq!(t.body_serialize().unwrap(), postcard::to_allocvec(&(sender, receiver, ts, 9u64)).unwrap());
    let utc = Transaction::new_at(sender.to_bytes(), receiver.to_bytes(), 9, nanos).unwrap();
    assert_ne!(utc.bincode_bytes(), t.bincode_bytes());
    assert!(Transaction::new_at_offset(sender.to_bytes(), receiver.to_bytes(), 9, nanos, 100_000).is_none());
}
