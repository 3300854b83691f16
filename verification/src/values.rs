use vstd::prelude::*;

use crate::decimal::{canon, eq_value, lemma_canon_eq_value, lemma_eq_value_zero, Dec};
use crate::hashing::{blake2b_256, blake2b_of, Hash256};
use crate::zero_hash_seq;
use crate::{Amount, Price};
use vstd::bytes::{spec_u32_to_le_bytes, u32_to_le_bytes};

verus! {

/// The committed hash of one price-level aggregate: the canonical zero hash
/// when the aggregate size is zero, else the domain hash of the canonical
/// texts of size and best price.
pub open spec fn spec_tape_hash(size: Dec, best: Dec) -> Seq<u8> {
    if size.is_zero_spec() {
        zero_hash_seq()
    } else {
        blake2b_of(canon(size) + canon(best))
    }
}

/// The committed hash of one order: the domain hash of the 32 owner bytes,
/// the canonical texts of amount and price, and the little-endian side tag.
/// Orders perform no zero elision: a default order still hashes to the
/// digest of its encoding, never to the zero sentinel by construction.
pub open spec fn spec_order_hash(owner: Seq<u8>, amount: Dec, price: Dec, side_tag: u32) -> Seq<
    u8,
> {
    blake2b_of(owner + canon(amount) + canon(price) + spec_u32_to_le_bytes(side_tag))
}

/// The committed hash of one account: the canonical zero hash when both
/// balances are zero, else the domain hash of their canonical texts.
pub open spec fn spec_account_hash(tradable: Dec, frozen: Dec) -> Seq<u8> {
    if tradable.is_zero_spec() && frozen.is_zero_spec() {
        zero_hash_seq()
    } else {
        blake2b_of(canon(tradable) + canon(frozen))
    }
}

/// One (symbol, side) price-level aggregate: total resting size and best
/// price on that side.
#[derive(Clone, Copy, Debug, PartialEq, Eq, Structural)]
pub struct TapeValue {
    pub size: Amount,
    pub best: Price,
}

impl TapeValue {
    pub open spec fn valid(self) -> bool {
        self.size.valid() && self.best.valid()
    }

    pub fn new(size: Amount, best: Price) -> (r: TapeValue)
        ensures
            r == (TapeValue { size, best }),
    {
        TapeValue { size, best }
    }

    /// The leaf hash of this aggregate, with zero elision on the size.
    pub fn to_h256(&self) -> (r: Hash256)
        requires
            self.valid(),
        ensures
            r@ == spec_tape_hash(self.size, self.best),
    {
        if self.size.is_zero() {
            Hash256::zero()
        } else {
            let mut buf = self.size.to_canon_bytes();
            let mut best = self.best.to_canon_bytes();
            buf.append(&mut best);
            blake2b_256(&buf)
        }
    }

    /// The empty aggregate, which hashes to the canonical zero hash.
    pub fn zero() -> (r: TapeValue)
        ensures
            r == (TapeValue { size: Dec { neg: false, mantissa: 0, scale: 0 }, best: Dec {
                neg: false,
                mantissa: 0,
                scale: 0,
            } }),
            r.valid(),
            spec_tape_hash(r.size, r.best) == zero_hash_seq(),
    {
        TapeValue { size: Dec::zero(), best: Dec::zero() }
    }
}

/// One resting order: owner identity, unfilled amount, price and side tag.
#[derive(Clone, Copy, Debug, PartialEq, Eq)]
pub struct OrderValue {
    pub owner: Hash256,
    pub amount: Amount,
    pub price: Price,
    pub ask_or_bid: u32,
}

impl OrderValue {
    pub open spec fn valid(self) -> bool {
        self.amount.valid() && self.price.valid()
    }

    pub fn new(owner: Hash256, amount: Amount, price: Price, ask_or_bid: u32) -> (r: OrderValue)
        ensures
            r == (OrderValue { owner, amount, price, ask_or_bid }),
    {
        OrderValue { owner, amount, price, ask_or_bid }
    }

    /// The leaf hash of this order. Deliberately no zero elision: this
    /// asymmetry with price levels and accounts is part of the format.
    pub fn to_h256(&self) -> (r: Hash256)
        requires
            self.valid(),
        ensures
            r@ == spec_order_hash(self.owner@, self.amount, self.price, self.ask_or_bid),
    {
        let mut buf = self.owner.to_vec();
        let mut amount = self.amount.to_canon_bytes();
        buf.append(&mut amount);
        let mut price = self.price.to_canon_bytes();
        buf.append(&mut price);
        let mut tag = u32_to_le_bytes(self.ask_or_bid);
        buf.append(&mut tag);
        blake2b_256(&buf)
    }

    /// The default order value: zero owner, zero balances, ask tag.
    pub fn zero() -> (r: OrderValue)
        ensures
            r.owner@ == zero_hash_seq(),
            r.amount == (Dec { neg: false, mantissa: 0, scale: 0 }),
            r.price == (Dec { neg: false, mantissa: 0, scale: 0 }),
            r.ask_or_bid == 0u32,
            r.valid(),
    {
        OrderValue {
            owner: Hash256::zero(),
            amount: Dec::zero(),
            price: Dec::zero(),
            ask_or_bid: 0,
        }
    }
}

/// One (user, currency) account: tradable and frozen balance.
#[derive(Clone, Copy, Debug, PartialEq, Eq, Structural)]
pub struct AccountValue {
    pub tradable: Dec,
    pub frozen: Dec,
}

impl AccountValue {
    pub open spec fn valid(self) -> bool {
        self.tradable.valid() && self.frozen.valid()
    }

    pub fn new(tradable: Dec, frozen: Dec) -> (r: AccountValue)
        ensures
            r == (AccountValue { tradable, frozen }),
    {
        AccountValue { tradable, frozen }
    }

    /// The leaf hash of this account, with zero elision when both balances
    /// are zero.
    pub fn to_h256(&self) -> (r: Hash256)
        requires
            self.valid(),
        ensures
            r@ == spec_account_hash(self.tradable, self.frozen),
    {
        if self.tradable.is_zero() && self.frozen.is_zero() {
            Hash256::zero()
        } else {
            let mut buf = self.tradable.to_canon_bytes();
            let mut frozen = self.frozen.to_canon_bytes();
            buf.append(&mut frozen);
            blake2b_256(&buf)
        }
    }

    /// The empty account, which hashes to the canonical zero hash.
    pub fn zero() -> (r: AccountValue)
        ensures
            r == (AccountValue { tradable: Dec { neg: false, mantissa: 0, scale: 0 }, frozen: Dec {
                neg: false,
                mantissa: 0,
                scale: 0,
            } }),
            r.valid(),
            spec_account_hash(r.tradable, r.frozen) == zero_hash_seq(),
    {
        AccountValue { tradable: Dec::zero(), frozen: Dec::zero() }
    }
}

/// Zero elision for price levels: a zero-size aggregate hashes to the
/// canonical zero hash whatever its best price.
pub proof fn lemma_zero_elision_tape(size: Dec, best: Dec)
    requires
        size.is_zero_spec(),
    ensures
        spec_tape_hash(size, best) == zero_hash_seq(),
{
}

/// Zero elision for accounts: an account with both balances zero hashes to
/// the canonical zero hash, whatever scales the zeros carry.
pub proof fn lemma_zero_elision_account(tradable: Dec, frozen: Dec)
    requires
        tradable.is_zero_spec(),
        frozen.is_zero_spec(),
    ensures
        spec_account_hash(tradable, frozen) == zero_hash_seq(),
{
}

/// Scale determinism for price-level hashes: aggregates equal in magnitude
/// hash identically whatever scales they are written at.
pub proof fn lemma_tape_hash_scale_invariant(a: TapeValue, b: TapeValue)
    requires
        eq_value(a.size, b.size),
        eq_value(a.best, b.best),
    ensures
        spec_tape_hash(a.size, a.best) == spec_tape_hash(b.size, b.best),
{
    lemma_eq_value_zero(a.size, b.size);
    lemma_canon_eq_value(a.size, b.size);
    lemma_canon_eq_value(a.best, b.best);
}

/// Scale determinism for account hashes: balances equal in magnitude hash
/// identically whatever scales they are written at.
pub proof fn lemma_account_hash_scale_invariant(a: AccountValue, b: AccountValue)
    requires
        eq_value(a.tradable, b.tradable),
        eq_value(a.frozen, b.frozen),
    ensures
        spec_account_hash(a.tradable, a.frozen) == spec_account_hash(b.tradable, b.frozen),
{
    lemma_eq_value_zero(a.tradable, b.tradable);
    lemma_eq_value_zero(a.frozen, b.frozen);
    lemma_canon_eq_value(a.tradable, b.tradable);
    lemma_canon_eq_value(a.frozen, b.frozen);
}

/// Scale determinism for order hashes: amounts and prices equal in magnitude
/// hash identically whatever scales they are written at.
pub proof fn lemma_order_hash_scale_invariant(a: OrderValue, b: OrderValue)
    requires
        a.owner@ == b.owner@,
        eq_value(a.amount, b.amount),
        eq_value(a.price, b.price),
        a.ask_or_bid == b.ask_or_bid,
    ensures
        spec_order_hash(a.owner@, a.amount, a.price, a.ask_or_bid) == spec_order_hash(
            b.owner@,
            b.amount,
            b.price,
            b.ask_or_bid,
        ),
{
    lemma_canon_eq_value(a.amount, b.amount);
    lemma_canon_eq_value(a.price, b.price);
}

} // verus!
