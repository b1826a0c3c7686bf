//! Auctions: an owner offers a product from a minimum price, bidders raise,
//! and every bid extends the auction by five minutes.
use vstd::prelude::*;
use crate::outside::{now_utc_nanos, timestamp_in_range};
use crate::utils::random;

verus! {

/// How long an auction runs after it is signed or last bid on, in
/// nanoseconds (five minutes).
pub const AUCTION_EXTENSION_NANOS: i128 = 300_000_000_000;

#[derive(Debug, Clone)]
pub struct Auction {
    pub id: Vec<u8>,
    pub name: String,
    pub owner: [u8; 32],
    pub product: String,
    pub minimum: u64,
}

#[derive(Debug, Clone)]
pub struct AuctionSigned {
    pub auction: Auction,
    pub signature: [u8; 64],
    pub end_time: i128,
    pub bids: Vec<BidSigned>,
}

/// An offer of `value`, made at `timestamp` (Unix nanoseconds).
#[derive(Debug, Clone, Copy, PartialEq, Eq)]
pub struct Bid {
    pub value: u64,
    pub timestamp: i128,
}

#[derive(Debug, Clone, Copy, PartialEq, Eq)]
pub struct BidSigned {
    pub owner: [u8; 32],
    pub bid: Bid,
    pub signature: [u8; 64],
}

impl Bid {
    /// A bid of `value` made at `timestamp`.
    pub fn new_at(value: u64, timestamp: i128) -> (b: Bid)
        ensures
            b.value == value,
            b.timestamp == timestamp,
    {
        Bid { value, timestamp }
    }

    /// A bid of `value` made now.
    pub fn new(value: u64) -> (b: Bid)
        ensures
            b.value == value,
            timestamp_in_range(b.timestamp),
    {
        Bid { value, timestamp: now_utc_nanos() }
    }

    pub fn sign(self, owner: [u8; 32], signature: [u8; 64]) -> (s: BidSigned)
        ensures
            s.owner == owner,
            s.bid == self,
            s.signature == signature,
    {
        BidSigned { owner, bid: self, signature }
    }
}

impl Auction {
    /// A new auction with a fresh random 20-byte identifier.
    pub fn new(owner: [u8; 32], name: String, product: String, minimum: u64) -> (a: Auction)
        ensures
            a.id@.len() == 20,
            a.owner == owner,
            a.name@ == name@,
            a.product@ == product@,
            a.minimum == minimum,
    {
        Auction { id: random(), owner, name, product, minimum }
    }

    /// Signs the auction at `now`: it runs for five minutes, without bids.
    pub fn sign_at(self, signature: [u8; 64], now: i128) -> (s: AuctionSigned)
        requires
            now <= i128::MAX - AUCTION_EXTENSION_NANOS,
        ensures
            s.auction.id@ == self.id@,
            s.auction.name@ == self.name@,
            s.auction.product@ == self.product@,
            s.auction.owner == self.owner,
            s.auction.minimum == self.minimum,
            s.signature == signature,
            s.end_time == now + AUCTION_EXTENSION_NANOS,
            s.bids@.len() == 0,
    {
        AuctionSigned { auction: self, signature, end_time: now + AUCTION_EXTENSION_NANOS, bids: Vec::new() }
    }

    /// Signs the auction now.
    pub fn sign(self, signature: [u8; 64]) -> (s: AuctionSigned)
        ensures
            s.auction.id@ == self.id@,
            s.auction.name@ == self.name@,
            s.auction.product@ == self.product@,
            s.auction.owner == self.owner,
            s.auction.minimum == self.minimum,
            s.signature == signature,
            s.bids@.len() == 0,
            exists|t: i128| #[trigger] timestamp_in_range(t) && s.end_time == t + AUCTION_EXTENSION_NANOS,
    {
        let now = now_utc_nanos();
        let s = self.sign_at(signature, now);
        assert(timestamp_in_range(now) && s.end_time == now + AUCTION_EXTENSION_NANOS);
        s
    }
}

impl AuctionSigned {
    pub fn get_id(&self) -> (id: &[u8])
        ensures
            id@ == self.auction.id@,
    {
        self.auction.id.as_slice()
    }

    pub fn get_name(&self) -> (n: String)
        ensures
            n@ == self.auction.name@,
    {
        self.auction.name.clone()
    }

    pub fn get_product(&self) -> (p: String)
        ensures
            p@ == self.auction.product@,
    {
        self.auction.product.clone()
    }

    pub fn get_minimum(&self) -> (m: u64)
        ensures
            m == self.auction.minimum,
    {
        self.auction.minimum
    }

    /// The current price: the last bid's value, or the minimum if nobody bid.
    pub fn get_last_bid_or_minimum_bid(&self) -> (v: u64)
        ensures
            v == if self.bids@.len() == 0 {
                self.auction.minimum
            } else {
                self.bids@.last().bid.value
            },
    {
        if self.bids.len() == 0 {
            self.get_minimum()
        } else {
            self.bids[self.bids.len() - 1].bid.value
        }
    }

    /// Records a bid at `now`; the auction then runs five more minutes.
    pub fn bid_at(&mut self, bid: BidSigned, now: i128)
        requires
            now <= i128::MAX - AUCTION_EXTENSION_NANOS,
        ensures
            final(self).bids@ == old(self).bids@.push(bid),
            final(self).end_time == now + AUCTION_EXTENSION_NANOS,
            final(self).auction.id@ == old(self).auction.id@,
            final(self).auction.name@ == old(self).auction.name@,
            final(self).auction.product@ == old(self).auction.product@,
            final(self).auction.owner == old(self).auction.owner,
            final(self).auction.minimum == old(self).auction.minimum,
            final(self).signature == old(self).signature,
    {
        self.bids.push(bid);
        self.end_time = now + AUCTION_EXTENSION_NANOS;
    }

    /// Records a bid now.
    pub fn bid(&mut self, bid: BidSigned)
        ensures
            final(self).bids@ == old(self).bids@.push(bid),
            final(self).auction.id@ == old(self).auction.id@,
            final(self).auction.minimum == old(self).auction.minimum,
            final(self).signature == old(self).signature,
            final(self).auction.name@ == old(self).auction.name@,
            final(self).auction.product@ == old(self).auction.product@,
            final(self).auction.owner == old(self).auction.owner,
            exists|t: i128| #[trigger] timestamp_in_range(t) && final(self).end_time == t + AUCTION_EXTENSION_NANOS,
    {
        let now = now_utc_nanos();
        self.bid_at(bid, now);
        assert(timestamp_in_range(now) && self.end_time == now + AUCTION_EXTENSION_NANOS);
    }

    pub fn get_bids(&self) -> (b: &Vec<BidSigned>)
        ensures
            b@ == self.bids@,
    {
        &self.bids
    }

    /// Whether the auction is over at `now`.
    pub fn ended_at(&self, now: i128) -> (e: bool)
        ensures
            e == (now > self.end_time),
    {
        now > self.end_time
    }

    /// Whether the auction is over now: whether the clock's reading, an
    /// instant `time` can represent, is past its end.
    pub fn ended(&self) -> (e: bool)
        ensures
            exists|t: i128| #[trigger] timestamp_in_range(t) && e == (t > self.end_time),
    {
        let now = now_utc_nanos();
        let e = self.ended_at(now);
        assert(timestamp_in_range(now) && e == (now > self.end_time));
        e
    }
}

} // verus!
