use vstd::prelude::*;

use crate::hashing::{blake2b_256, blake2b_of, Hash256};
use crate::{Currency, OrderId, Symbol};
use vstd::bytes::{spec_u32_to_le_bytes, spec_u64_to_le_bytes, u32_to_le_bytes, u64_to_le_bytes};

verus! {

/// The side of an order book an order rests on.
#[derive(Clone, Copy, Debug, PartialEq, Eq, Structural)]
pub enum AskOrBid {
    Ask,
    Bid,
}

impl AskOrBid {
    /// The numeric tag of the side: asks are 0, bids are 1.
    pub open spec fn tag_spec(self) -> u32 {
        match self {
            AskOrBid::Ask => 0u32,
            AskOrBid::Bid => 1u32,
        }
    }

    pub fn tag(&self) -> (r: u32)
        ensures
            r == self.tag_spec(),
    {
        match self {
            AskOrBid::Ask => 0,
            AskOrBid::Bid => 1,
        }
    }
}

/// The key of one (symbol, side) price-level slot: the per-symbol hash of the
/// two little-endian currency ids, hashed again with the side tag offset by
/// two. The double hash and the offset keep this key domain apart from the
/// single-hash domains even when raw bytes coincide.
pub open spec fn spec_symbol_key(symbol: Symbol, side: AskOrBid) -> Seq<u8> {
    blake2b_of(
        blake2b_of(spec_u32_to_le_bytes(symbol.0) + spec_u32_to_le_bytes(symbol.1))
            + spec_u32_to_le_bytes((side.tag_spec() + 2) as u32),
    )
}

/// The key of one (address, currency) account slot: a single hash of the
/// 32 owner bytes followed by the little-endian currency id.
pub open spec fn spec_account_key(address: Seq<u8>, currency: Currency) -> Seq<u8> {
    blake2b_of(address + spec_u32_to_le_bytes(currency))
}

/// The key of one order: a single hash of the little-endian order id.
pub open spec fn spec_order_id_key(id: OrderId) -> Seq<u8> {
    blake2b_of(spec_u64_to_le_bytes(id))
}

/// Derives the tree key of a (symbol, side) price-level slot.
pub fn gen_symbol_key(symbol: Symbol, ask_or_bid: AskOrBid) -> (r: Hash256)
    ensures
        r@ == spec_symbol_key(symbol, ask_or_bid),
{
    let mut buf = u32_to_le_bytes(symbol.0);
    let mut quote = u32_to_le_bytes(symbol.1);
    buf.append(&mut quote);
    let symbol_hash = blake2b_256(&buf);
    let mut buf2 = symbol_hash.to_vec();
    let mut tag = u32_to_le_bytes(ask_or_bid.tag() + 2);
    buf2.append(&mut tag);
    blake2b_256(&buf2)
}

/// Derives the tree key of an (address, currency) account slot.
pub fn gen_account_key(address: Hash256, currency: Currency) -> (r: Hash256)
    ensures
        r@ == spec_account_key(address@, currency),
{
    let mut buf = address.to_vec();
    let mut cur = u32_to_le_bytes(currency);
    buf.append(&mut cur);
    blake2b_256(&buf)
}

/// Derives the tree key of an order.
pub fn gen_order_id_key(id: OrderId) -> (r: Hash256)
    ensures
        r@ == spec_order_id_key(id),
{
    let buf = u64_to_le_bytes(id);
    blake2b_256(&buf)
}

} // verus!
