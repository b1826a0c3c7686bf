pub mod buckets;
pub mod distance;
pub mod kadid;
pub mod lookup;
pub mod node;
pub mod routing;
pub mod rpc;
pub mod util;

use vstd::prelude::*;

verus! {

/// The most nodes a bucket keeps.
pub const K: u8 = 10;

/// How many requests a lookup keeps in flight.
pub const ALPHA: u8 = 2;

/// How long, in seconds, a bucket stays fresh after its last update.
pub const BUCKET_REFRESH_INTERVAL: i64 = 3600;

/// How long, in seconds, a broadcast is accepted after it was sent.
pub const BROADCAST_AGE_LIMIT_SECS: u64 = 300;

/// Nanoseconds in a second.
pub const NANOS_PER_SEC: i128 = 1_000_000_000;

} // verus!
