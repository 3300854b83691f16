//! The state-commitment subsystem of a matching engine: canonical leaf
//! hashing for price levels, orders and accounts; domain-separated tree key
//! derivation; a sparse Merkle commitment tree; and a snapshot codec that
//! persists the full aggregate of order books and accounts.

pub mod codec;
pub mod compress;
pub mod decimal;
pub mod hashing;
pub mod keys;
pub mod smt_decl;
pub mod snapshot;
pub mod tree;
pub mod values;

use vstd::prelude::*;

verus! {

pub type Base = u32;

pub type Quote = u32;

pub type Price = crate::decimal::Dec;

pub type Amount = crate::decimal::Dec;

pub type Vol = crate::decimal::Dec;

pub type Currency = u32;

pub type UserId = u64;

pub type Symbol = (Base, Quote);

pub type EventId = u64;

pub type OrderId = u64;

pub type Fee = crate::decimal::Dec;

pub type Scale = u32;

pub type Timestamp = u64;

pub const SYSTEM: u64 = 0;

/// The canonical zero hash: thirty-two zero bytes, the sparse tree's
/// sentinel for an empty leaf.
pub open spec fn zero_hash_seq() -> Seq<u8> {
    Seq::new(32, |i: int| 0u8)
}

/// Builds the canonical zero hash as a byte vector.
pub fn zero_hash_bytes() -> (r: Vec<u8>)
    ensures
        r@ == zero_hash_seq(),
{
    let mut v: Vec<u8> = Vec::new();
    let mut i: usize = 0;
    while i < 32
        invariant
            i <= 32,
            v@ =~= zero_hash_seq().take(i as int),
        decreases 32 - i,
    {
        v.push(0u8);
        i = i + 1;
    }
    proof {
        assert(v@ =~= zero_hash_seq());
    }
    v
}

} // verus!
