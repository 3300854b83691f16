use vstd::prelude::*;

use crate::decimal::{Dec, MAX_SCALE};
use crate::hashing::Hash256;
use crate::snapshot::{
    books_view, currencies_valid, orders_valid, orders_view, users_view, Account, Data, DataV,
    OrderBook, OrderBookV, OrderValueV,
};
use crate::values::OrderValue;
use vstd::bytes::{
    lemma_auto_spec_u128_to_from_le_bytes, lemma_auto_spec_u32_to_from_le_bytes,
    lemma_auto_spec_u64_to_from_le_bytes, spec_u128_to_le_bytes, spec_u32_to_le_bytes,
    spec_u64_to_le_bytes, u128_from_le_bytes, u128_to_le_bytes, u32_from_le_bytes, u32_to_le_bytes,
    u64_from_le_bytes, u64_to_le_bytes,
};
use vstd::slice::slice_subrange;

verus! {

// The snapshot byte form. Every number is little endian; every list is its
// entry count as eight bytes followed by its entries in key order. A valid
// aggregate has exactly one byte form, and the decoder accepts exactly the
// byte forms of valid aggregates.

/// One byte: 1 for true, 0 for false.
pub open spec fn enc_bool(b: bool) -> Seq<u8> {
    if b {
        seq![1u8]
    } else {
        seq![0u8]
    }
}

/// A decimal: sign byte, four scale bytes, sixteen mantissa bytes.
pub open spec fn enc_dec(d: Dec) -> Seq<u8> {
    enc_bool(d.neg) + spec_u32_to_le_bytes(d.scale) + spec_u128_to_le_bytes(d.mantissa)
}

/// An account: its tradable then its frozen balance.
pub open spec fn enc_account(a: Account) -> Seq<u8> {
    enc_dec(a.tradable) + enc_dec(a.frozen)
}

/// An order: owner bytes, amount, price, side tag.
pub open spec fn enc_order_value(o: OrderValueV) -> Seq<u8> {
    o.owner + enc_dec(o.amount) + enc_dec(o.price) + spec_u32_to_le_bytes(o.ask_or_bid)
}

/// One order book entry of the id-sorted order list.
pub open spec fn enc_order_entry(e: (u64, OrderValueV)) -> Seq<u8> {
    spec_u64_to_le_bytes(e.0) + enc_order_value(e.1)
}

/// The concatenated encodings of a list's entries.
pub open spec fn enc_items<T>(s: Seq<T>, f: spec_fn(T) -> Seq<u8>) -> Seq<u8>
    decreases s.len(),
{
    if s.len() == 0 {
        Seq::empty()
    } else {
        f(s[0]) + enc_items(s.drop_first(), f)
    }
}

/// A counted list: the entry count as eight bytes, then the entries.
pub open spec fn enc_list<T>(s: Seq<T>, f: spec_fn(T) -> Seq<u8>) -> Seq<u8> {
    spec_u64_to_le_bytes(s.len() as u64) + enc_items(s, f)
}

/// The entry encoder of the order list, as one shared value.
pub open spec fn f_order_entry() -> spec_fn((u64, OrderValueV)) -> Seq<u8> {
    |e: (u64, OrderValueV)| enc_order_entry(e)
}

/// An order book: the trading parameters, then the order list.
pub open spec fn enc_book(b: OrderBookV) -> Seq<u8> {
    spec_u32_to_le_bytes(b.base_scale) + spec_u32_to_le_bytes(b.quote_scale) + enc_dec(b.taker_fee)
        + enc_dec(b.maker_fee) + enc_dec(b.min_amount) + enc_dec(b.min_vol) + enc_bool(
        b.enable_market_order,
    ) + enc_list(b.orders, f_order_entry())
}

/// One entry of the symbol-sorted book list.
pub open spec fn enc_book_entry(e: ((u32, u32), OrderBookV)) -> Seq<u8> {
    spec_u32_to_le_bytes(e.0.0) + spec_u32_to_le_bytes(e.0.1) + enc_book(e.1)
}

/// The entry encoder of the book list, as one shared value.
pub open spec fn f_book_entry() -> spec_fn(((u32, u32), OrderBookV)) -> Seq<u8> {
    |e: ((u32, u32), OrderBookV)| enc_book_entry(e)
}

/// One entry of a user's currency-sorted account list.
pub open spec fn enc_currency_entry(e: (u32, Account)) -> Seq<u8> {
    spec_u32_to_le_bytes(e.0) + enc_account(e.1)
}

/// The entry encoder of a currency list, as one shared value.
pub open spec fn f_currency_entry() -> spec_fn((u32, Account)) -> Seq<u8> {
    |e: (u32, Account)| enc_currency_entry(e)
}

/// One entry of the user-sorted account map.
pub open spec fn enc_user_entry(e: (u64, Seq<(u32, Account)>)) -> Seq<u8> {
    spec_u64_to_le_bytes(e.0) + enc_list(e.1, f_currency_entry())
}

/// The entry encoder of the user list, as one shared value.
pub open spec fn f_user_entry() -> spec_fn((u64, Seq<(u32, Account)>)) -> Seq<u8> {
    |e: (u64, Seq<(u32, Account)>)| enc_user_entry(e)
}

/// The snapshot byte form of the whole aggregate: the book list, then the
/// account map.
pub open spec fn enc_data(d: DataV) -> Seq<u8> {
    enc_list(d.books, f_book_entry()) + enc_list(d.accounts, f_user_entry())
}

/// Splitting a list keeps the encoding: the entries of `a + b` encode as the
/// entries of `a` then the entries of `b`.
pub proof fn lemma_enc_items_app<T>(a: Seq<T>, b: Seq<T>, f: spec_fn(T) -> Seq<u8>)
    ensures
        enc_items(a + b, f) == enc_items(a, f) + enc_items(b, f),
    decreases a.len(),
{
    if a.len() == 0 {
        assert(a + b =~= b);
        assert(enc_items(a, f) + enc_items(b, f) =~= enc_items(b, f));
    } else {
        assert((a + b).drop_first() =~= a.drop_first() + b);
        assert((a + b)[0] == a[0]);
        assert((a + b).len() > 0);
        lemma_enc_items_app(a.drop_first(), b, f);
        assert((f(a[0]) + enc_items(a.drop_first(), f)) + enc_items(b, f) =~= f(a[0]) + (enc_items(
            a.drop_first(),
            f,
        ) + enc_items(b, f)));
    }
}

/// One more entry extends the encoding by that entry's bytes.
pub proof fn lemma_enc_items_snoc<T>(s: Seq<T>, i: int, f: spec_fn(T) -> Seq<u8>)
    requires
        0 <= i < s.len(),
    ensures
        enc_items(s.take(i + 1), f) == enc_items(s.take(i), f) + f(s[i]),
{
    assert(s.take(i + 1) =~= s.take(i) + seq![s[i]]);
    lemma_enc_items_app(s.take(i), seq![s[i]], f);
    let t = seq![s[i]];
    assert(t.drop_first().len() == 0);
    assert(enc_items(t.drop_first(), f) == Seq::<u8>::empty());
    assert(enc_items(t, f) == f(t[0]) + enc_items(t.drop_first(), f));
    assert(t[0] == s[i]);
    assert(enc_items(t, f) =~= f(s[i]));
}

// ---------- encoders ----------

fn put_bool(out: &mut Vec<u8>, b: bool)
    ensures
        final(out)@ == old(out)@ + enc_bool(b),
{
    if b {
        out.push(1u8);
    } else {
        out.push(0u8);
    }
    proof {
        assert(out@ =~= old(out)@ + enc_bool(b));
    }
}

fn put_u32(out: &mut Vec<u8>, x: u32)
    ensures
        final(out)@ == old(out)@ + spec_u32_to_le_bytes(x),
{
    let mut s = u32_to_le_bytes(x);
    out.append(&mut s);
}

fn put_u64(out: &mut Vec<u8>, x: u64)
    ensures
        final(out)@ == old(out)@ + spec_u64_to_le_bytes(x),
{
    let mut s = u64_to_le_bytes(x);
    out.append(&mut s);
}

fn put_u128(out: &mut Vec<u8>, x: u128)
    ensures
        final(out)@ == old(out)@ + spec_u128_to_le_bytes(x),
{
    let mut s = u128_to_le_bytes(x);
    out.append(&mut s);
}

fn put_dec(out: &mut Vec<u8>, d: &Dec)
    ensures
        final(out)@ == old(out)@ + enc_dec(*d),
{
    put_bool(out, d.neg);
    put_u32(out, d.scale);
    put_u128(out, d.mantissa);
    proof {
        assert(out@ =~= old(out)@ + enc_dec(*d));
    }
}

fn put_account(out: &mut Vec<u8>, a: &Account)
    ensures
        final(out)@ == old(out)@ + enc_account(*a),
{
    put_dec(out, &a.tradable);
    put_dec(out, &a.frozen);
    proof {
        assert(out@ =~= old(out)@ + enc_account(*a));
    }
}

fn put_order_value(out: &mut Vec<u8>, o: &OrderValue)
    ensures
        final(out)@ == old(out)@ + enc_order_value(o@),
{
    let mut owner = o.owner.to_vec();
    out.append(&mut owner);
    put_dec(out, &o.amount);
    put_dec(out, &o.price);
    put_u32(out, o.ask_or_bid);
    proof {
        assert(out@ =~= old(out)@ + enc_order_value(o@));
    }
}

fn put_book(out: &mut Vec<u8>, b: &OrderBook)
    requires
        b@.orders.len() < 0x1_0000_0000_0000_0000,
    ensures
        final(out)@ == old(out)@ + enc_book(b@),
{
    put_u32(out, b.base_scale);
    put_u32(out, b.quote_scale);
    put_dec(out, &b.taker_fee);
    put_dec(out, &b.maker_fee);
    put_dec(out, &b.min_amount);
    put_dec(out, &b.min_vol);
    put_bool(out, b.enable_market_order);
    put_u64(out, b.orders.len() as u64);
    let ghost base = out@;
    let n = b.orders.len();
    let mut i: usize = 0;
    while i < n
        invariant
            i <= n,
            n == b.orders.len(),
            b@.orders.len() == n,
            out@ == base + enc_items(b@.orders.take(i as int), f_order_entry()),
        decreases n - i,
    {
        put_u64(out, b.orders[i].0);
        put_order_value(out, &b.orders[i].1);
        proof {
            lemma_enc_items_snoc(b@.orders, i as int, f_order_entry());
            assert(b@.orders[i as int] == (b.orders@[i as int].0, b.orders@[i as int].1@));
            assert(f_order_entry()(b@.orders[i as int]) == enc_order_entry(b@.orders[i as int]));
            assert(out@ =~= base + enc_items(b@.orders.take(i + 1 as int), f_order_entry()));
        }
        i = i + 1;
    }
    proof {
        assert(b@.orders.take(n as int) =~= b@.orders);
        assert(out@ =~= old(out)@ + enc_book(b@));
    }
}

fn put_currencies(out: &mut Vec<u8>, s: &Vec<(u32, Account)>)
    ensures
        final(out)@ == old(out)@ + enc_list(
            Seq::new(s@.len(), |j: int| s@[j]),
            f_currency_entry(),
        ),
{
    let ghost view = Seq::new(s@.len(), |j: int| s@[j]);
    put_u64(out, s.len() as u64);
    let ghost base = out@;
    let n = s.len();
    let mut i: usize = 0;
    while i < n
        invariant
            i <= n,
            n == s.len(),
            view == Seq::new(s@.len(), |j: int| s@[j]),
            out@ == base + enc_items(view.take(i as int), f_currency_entry()),
        decreases n - i,
    {
        put_u32(out, s[i].0);
        put_account(out, &s[i].1);
        proof {
            lemma_enc_items_snoc(view, i as int, f_currency_entry());
            assert(view[i as int] == s@[i as int]);
            assert(out@ =~= base + enc_items(view.take(i + 1 as int), f_currency_entry()));
        }
        i = i + 1;
    }
    proof {
        assert(view.take(n as int) =~= view);
        assert(view.len() == n);
        assert(out@ =~= old(out)@ + enc_list(view, f_currency_entry()));
    }
}

/// Renders the snapshot byte form of a valid aggregate.
#[verifier::rlimit(50)]
pub fn encode_data(d: &Data) -> (r: Vec<u8>)
    requires
        d@.valid(),
    ensures
        r@ == enc_data(d@),
{
    let mut out: Vec<u8> = Vec::new();
    put_u64(&mut out, d.orderbooks.len() as u64);
    let ghost books = d@.books;
    let ghost base = out@;
    let n = d.orderbooks.len();
    let mut i: usize = 0;
    while i < n
        invariant
            i <= n,
            n == d.orderbooks.len(),
            books == d@.books,
            books.len() == n,
            forall|k: int| 0 <= k < n ==> (#[trigger] books[k]).1.valid(),
            out@ == base + enc_items(books.take(i as int), f_book_entry()),
        decreases n - i,
    {
        proof {
            assert(books[i as int] == (d.orderbooks@[i as int].0, d.orderbooks@[i as int].1@));
            assert(books[i as int].1.valid());
        }
        put_u32(&mut out, d.orderbooks[i].0.0);
        put_u32(&mut out, d.orderbooks[i].0.1);
        put_book(&mut out, &d.orderbooks[i].1);
        proof {
            lemma_enc_items_snoc(books, i as int, f_book_entry());
            assert(books[i as int] == (d.orderbooks@[i as int].0, d.orderbooks@[i as int].1@));
            assert(out@ =~= base + enc_items(books.take(i + 1 as int), f_book_entry()));
        }
        i = i + 1;
    }
    proof {
        assert(books.take(n as int) =~= books);
        assert(out@ =~= enc_list(books, f_book_entry()));
    }
    let ghost books_bytes = out@;
    let ghost users = d@.accounts;
    put_u64(&mut out, d.accounts.len() as u64);
    let ghost base2 = out@;
    let m = d.accounts.len();
    let mut j: usize = 0;
    while j < m
        invariant
            j <= m,
            m == d.accounts.len(),
            users == d@.accounts,
            users.len() == m,
            base2 == books_bytes + spec_u64_to_le_bytes(m as u64),
            books_bytes == enc_list(d@.books, f_book_entry()),
            out@ == base2 + enc_items(users.take(j as int), f_user_entry()),
        decreases m - j,
    {
        put_u64(&mut out, d.accounts[j].0);
        put_currencies(&mut out, &d.accounts[j].1);
        proof {
            lemma_enc_items_snoc(users, j as int, f_user_entry());
            assert(users[j as int].0 == d.accounts@[j as int].0);
            assert(users[j as int].1 =~= Seq::new(
                d.accounts@[j as int].1@.len(),
                |k: int| d.accounts@[j as int].1@[k],
            ));
            assert(out@ =~= base2 + enc_items(users.take(j + 1 as int), f_user_entry()));
        }
        j = j + 1;
    }
    proof {
        assert(users.take(m as int) =~= users);
        assert(out@ =~= enc_data(d@));
    }
    out
}

// ---------- decoders ----------

/// `s` occurs in `b` at position `pos`.
pub open spec fn is_prefix_at(b: Seq<u8>, pos: int, s: Seq<u8>) -> bool {
    &&& 0 <= pos
    &&& pos + s.len() <= b.len()
    &&& b.subrange(pos, pos + s.len()) == s
}

/// A concatenation at a position splits into its two halves.
pub proof fn lemma_prefix_split(b: Seq<u8>, pos: int, s: Seq<u8>, t: Seq<u8>)
    requires
        is_prefix_at(b, pos, s + t),
    ensures
        is_prefix_at(b, pos, s),
        is_prefix_at(b, pos + s.len(), t),
{
    let whole = b.subrange(pos, pos + (s + t).len() as int);
    assert forall|k: int| 0 <= k < s.len() implies b.subrange(pos, pos + s.len() as int)[k]
        == s[k] by {
        assert(whole[k] == (s + t)[k]);
        assert(b[pos + k] == s[k]);
    }
    assert(b.subrange(pos, pos + s.len() as int) =~= s);
    assert forall|k: int|
        0 <= k < t.len() implies b.subrange(
        pos + s.len(),
        pos + s.len() + t.len() as int,
    )[k] == t[k] by {
        assert(whole[s.len() + k] == (s + t)[s.len() + k]);
        assert(b[pos + s.len() + k] == t[k]);
    }
    assert(b.subrange(pos + s.len(), pos + s.len() + t.len() as int) =~= t);
}

/// Two adjacent slices of a buffer glue into one.
pub proof fn lemma_subrange_glue(b: Seq<u8>, pos: int, mid: int, end: int)
    requires
        0 <= pos <= mid <= end <= b.len(),
    ensures
        b.subrange(pos, end) == b.subrange(pos, mid) + b.subrange(mid, end),
{
    assert(b.subrange(pos, end) =~= b.subrange(pos, mid) + b.subrange(mid, end));
}

/// Peeling one entry off a list encoding that sits at `pos`: after the
/// already-consumed prefix of `i` entries, entry `i` sits at `cur`.
pub proof fn lemma_peel_entry<T>(b: Seq<u8>, pos: int, cur: int, w: Seq<T>, i: int, f: spec_fn(T) -> Seq<u8>)
    requires
        0 <= i < w.len(),
        is_prefix_at(b, pos, enc_items(w, f)),
        cur == pos + enc_items(w.take(i), f).len(),
    ensures
        is_prefix_at(b, cur, f(w[i])),
        cur + f(w[i]).len() == pos + enc_items(w.take(i + 1), f).len(),
{
    assert(w =~= w.take(i) + w.skip(i));
    lemma_enc_items_app(w.take(i), w.skip(i), f);
    lemma_prefix_split(b, pos, enc_items(w.take(i), f), enc_items(w.skip(i), f));
    assert(w.skip(i).len() > 0);
    assert(w.skip(i)[0] == w[i]);
    assert(w.skip(i).drop_first() =~= w.skip(i + 1));
    assert(enc_items(w.skip(i), f) == f(w[i]) + enc_items(w.skip(i + 1), f));
    lemma_prefix_split(b, cur, f(w[i]), enc_items(w.skip(i + 1), f));
    lemma_enc_items_snoc(w, i, f);
}

fn take_bool(b: &Vec<u8>, pos: usize) -> (r: Option<(bool, usize)>)
    requires
        pos <= b@.len(),
    ensures
        r matches Some((v, np)) ==> np == pos + 1 && np <= b@.len() && b@.subrange(
            pos as int,
            np as int,
        ) == enc_bool(v),
        r is None <==> (pos == b@.len() || (b@[pos as int] != 0 && b@[pos as int] != 1)),
{
    if pos < b.len() {
        let c = b[pos];
        if c == 0 {
            proof {
                assert(b@.subrange(pos as int, pos + 1 as int) =~= enc_bool(false));
            }
            Some((false, pos + 1))
        } else if c == 1 {
            proof {
                assert(b@.subrange(pos as int, pos + 1 as int) =~= enc_bool(true));
            }
            Some((true, pos + 1))
        } else {
            None
        }
    } else {
        None
    }
}

fn take_u32(b: &Vec<u8>, pos: usize) -> (r: Option<(u32, usize)>)
    requires
        pos <= b@.len(),
    ensures
        r matches Some((x, np)) ==> np == pos + 4 && np <= b@.len() && b@.subrange(
            pos as int,
            np as int,
        ) == spec_u32_to_le_bytes(x),
        r is Some <==> pos + 4 <= b@.len(),
{
    proof {
        lemma_auto_spec_u32_to_from_le_bytes();
    }
    if b.len() - pos >= 4 {
        let s = slice_subrange(b.as_slice(), pos, pos + 4);
        let x = u32_from_le_bytes(s);
        Some((x, pos + 4))
    } else {
        None
    }
}

fn take_u64(b: &Vec<u8>, pos: usize) -> (r: Option<(u64, usize)>)
    requires
        pos <= b@.len(),
    ensures
        r matches Some((x, np)) ==> np == pos + 8 && np <= b@.len() && b@.subrange(
            pos as int,
            np as int,
        ) == spec_u64_to_le_bytes(x),
        r is Some <==> pos + 8 <= b@.len(),
{
    proof {
        lemma_auto_spec_u64_to_from_le_bytes();
    }
    if b.len() - pos >= 8 {
        let s = slice_subrange(b.as_slice(), pos, pos + 8);
        let x = u64_from_le_bytes(s);
        Some((x, pos + 8))
    } else {
        None
    }
}

fn take_u128(b: &Vec<u8>, pos: usize) -> (r: Option<(u128, usize)>)
    requires
        pos <= b@.len(),
    ensures
        r matches Some((x, np)) ==> np == pos + 16 && np <= b@.len() && b@.subrange(
            pos as int,
            np as int,
        ) == spec_u128_to_le_bytes(x),
        r is Some <==> pos + 16 <= b@.len(),
{
    proof {
        lemma_auto_spec_u128_to_from_le_bytes();
    }
    if b.len() - pos >= 16 {
        let s = slice_subrange(b.as_slice(), pos, pos + 16);
        let x = u128_from_le_bytes(s);
        Some((x, pos + 16))
    } else {
        None
    }
}

fn take_hash(b: &Vec<u8>, pos: usize) -> (r: Option<(Hash256, usize)>)
    requires
        pos <= b@.len(),
    ensures
        r matches Some((h, np)) ==> np == pos + 32 && np <= b@.len() && b@.subrange(
            pos as int,
            np as int,
        ) == h@,
        r is Some <==> pos + 32 <= b@.len(),
{
    if b.len() - pos >= 32 {
        let blen = b.len();
        let mut bytes = [0u8; 32];
        let mut i: usize = 0;
        while i < 32
            invariant
                i <= 32,
                pos + 32 <= blen,
                blen == b@.len(),
                forall|k: int| 0 <= k < i ==> bytes@[k] == b@[pos + k],
            decreases 32 - i,
        {
            bytes[i] = b[pos + i];
            i = i + 1;
        }
        proof {
            assert(bytes@ =~= b@.subrange(pos as int, pos + 32 as int));
        }
        Some((Hash256 { bytes }, pos + 32))
    } else {
        None
    }
}

fn take_dec(b: &Vec<u8>, pos: usize) -> (r: Option<(Dec, usize)>)
    requires
        pos <= b@.len(),
    ensures
        r matches Some((v, np)) ==> np == pos + 21 && np <= b@.len() && b@.subrange(
            pos as int,
            np as int,
        ) == enc_dec(v) && v.valid(),
        forall|w: Dec|
            w.valid() && is_prefix_at(b@, pos as int, enc_dec(w)) ==> (r matches Some((v, np))
                && v == w && np == pos + 21),
{
    proof {
        lemma_auto_spec_u32_to_from_le_bytes();
        lemma_auto_spec_u128_to_from_le_bytes();
    }
    let res = take_dec_inner(b, pos);
    proof {
        assert forall|w: Dec|
            w.valid() && is_prefix_at(b@, pos as int, enc_dec(w)) implies (res matches Some((
            v,
            np,
        )) && v == w && np == pos + 21) by {
            lemma_auto_spec_u32_to_from_le_bytes();
            lemma_auto_spec_u128_to_from_le_bytes();
            lemma_dec_parts(b@, pos as int, w);
            assert(b@[pos as int] == enc_bool(w.neg)[0]);
            assert(b@[pos as int] == 0 || b@[pos as int] == 1);
            assert(vstd::bytes::spec_u32_from_le_bytes(b@.subrange(pos + 1, pos + 5))
                == w.scale);
            assert(res is Some);
            let v = res->Some_0.0;
            assert(is_prefix_at(b@, pos as int, enc_dec(v)));
            lemma_dec_parts(b@, pos as int, v);
            assert(enc_bool(v.neg)[0] == enc_bool(w.neg)[0]);
            assert(v.neg == w.neg);
            assert(spec_u32_to_le_bytes(v.scale) == spec_u32_to_le_bytes(w.scale));
            assert(v.scale == w.scale);
            assert(spec_u128_to_le_bytes(v.mantissa) == spec_u128_to_le_bytes(w.mantissa));
            assert(v.mantissa == w.mantissa);
            assert(v == w);
        }
    }
    res
}

/// The three fields of an encoded decimal sit at their fixed offsets.
proof fn lemma_dec_parts(b: Seq<u8>, pos: int, w: Dec)
    requires
        is_prefix_at(b, pos, enc_dec(w)),
    ensures
        pos + 21 <= b.len(),
        b.subrange(pos, pos + 1) == enc_bool(w.neg),
        b.subrange(pos + 1, pos + 5) == spec_u32_to_le_bytes(w.scale),
        b.subrange(pos + 5, pos + 21) == spec_u128_to_le_bytes(w.mantissa),
{
    lemma_auto_spec_u32_to_from_le_bytes();
    lemma_auto_spec_u128_to_from_le_bytes();
    assert(enc_bool(w.neg).len() == 1);
    assert(enc_dec(w) == (enc_bool(w.neg) + spec_u32_to_le_bytes(w.scale)) + spec_u128_to_le_bytes(
        w.mantissa,
    ));
    lemma_prefix_split(
        b,
        pos,
        enc_bool(w.neg) + spec_u32_to_le_bytes(w.scale),
        spec_u128_to_le_bytes(w.mantissa),
    );
    lemma_prefix_split(b, pos, enc_bool(w.neg), spec_u32_to_le_bytes(w.scale));
}

fn take_dec_inner(b: &Vec<u8>, pos: usize) -> (r: Option<(Dec, usize)>)
    requires
        pos <= b@.len(),
    ensures
        r matches Some((v, np)) ==> np == pos + 21 && np <= b@.len() && b@.subrange(
            pos as int,
            np as int,
        ) == enc_dec(v) && v.valid(),
        (pos + 21 <= b@.len() && (b@[pos as int] == 0 || b@[pos as int] == 1)
            && vstd::bytes::spec_u32_from_le_bytes(b@.subrange(pos + 1, pos + 5)) <= MAX_SCALE)
            ==> r is Some,
{
    proof {
        lemma_auto_spec_u32_to_from_le_bytes();
        lemma_auto_spec_u128_to_from_le_bytes();
    }
    let (neg, p1) = match take_bool(b, pos) {
        Some(t) => t,
        None => {
            return None;
        },
    };
    let (scale, p2) = match take_u32(b, p1) {
        Some(t) => t,
        None => {
            return None;
        },
    };
    if scale > MAX_SCALE {
        proof {
            assert(b@.subrange(pos + 1, pos + 5) == spec_u32_to_le_bytes(scale));
            assert(spec_u32_to_le_bytes(scale).len() == 4);
            assert(vstd::bytes::spec_u32_from_le_bytes(spec_u32_to_le_bytes(scale)) == scale) by {
                lemma_auto_spec_u32_to_from_le_bytes();
                assert(spec_u32_to_le_bytes(scale).len() == 4);
            }
            assert(vstd::bytes::spec_u32_from_le_bytes(b@.subrange(pos + 1, pos + 5)) == scale);
        }
        return None;
    }
    let (mantissa, p3) = match take_u128(b, p2) {
        Some(t) => t,
        None => {
            return None;
        },
    };
    let v = Dec { neg, mantissa, scale };
    proof {
        lemma_subrange_glue(b@, pos as int, p1 as int, p2 as int);
        lemma_subrange_glue(b@, pos as int, p2 as int, p3 as int);
        assert(b@.subrange(pos as int, p3 as int) =~= enc_dec(v));
    }
    Some((v, p3))
}

/// An encoded decimal is 21 bytes.
proof fn lemma_enc_dec_len(d: Dec)
    ensures
        enc_dec(d).len() == 21,
{
    lemma_auto_spec_u32_to_from_le_bytes();
    lemma_auto_spec_u128_to_from_le_bytes();
    assert(enc_bool(d.neg).len() == 1);
}

fn take_account(b: &Vec<u8>, pos: usize) -> (r: Option<(Account, usize)>)
    requires
        pos <= b@.len(),
    ensures
        r matches Some((v, np)) ==> np == pos + 42 && np <= b@.len() && b@.subrange(
            pos as int,
            np as int,
        ) == enc_account(v) && v.valid(),
        forall|w: Account|
            w.valid() && is_prefix_at(b@, pos as int, enc_account(w)) ==> (r matches Some((v, np))
                && v == w && np == pos + 42),
{
    let (tradable, p1) = match take_dec(b, pos) {
        Some(t) => t,
        None => {
            proof {
                assert forall|w: Account|
                    w.valid() && is_prefix_at(b@, pos as int, enc_account(w)) implies false by {
                    lemma_enc_dec_len(w.tradable);
                    lemma_prefix_split(b@, pos as int, enc_dec(w.tradable), enc_dec(w.frozen));
                }
            }
            return None;
        },
    };
    let (frozen, p2) = match take_dec(b, p1) {
        Some(t) => t,
        None => {
            proof {
                assert forall|w: Account|
                    w.valid() && is_prefix_at(b@, pos as int, enc_account(w)) implies false by {
                    lemma_enc_dec_len(w.tradable);
                    lemma_prefix_split(b@, pos as int, enc_dec(w.tradable), enc_dec(w.frozen));
                }
            }
            return None;
        },
    };
    let v = Account { tradable, frozen };
    proof {
        lemma_subrange_glue(b@, pos as int, p1 as int, p2 as int);
        assert(b@.subrange(pos as int, p2 as int) =~= enc_account(v));
        assert forall|w: Account|
            w.valid() && is_prefix_at(b@, pos as int, enc_account(w)) implies (v == w && p2 == pos
            + 42) by {
            lemma_enc_dec_len(w.tradable);
            lemma_prefix_split(b@, pos as int, enc_dec(w.tradable), enc_dec(w.frozen));
        }
    }
    Some((v, p2))
}

fn take_order_value(b: &Vec<u8>, pos: usize) -> (r: Option<(OrderValue, usize)>)
    requires
        pos <= b@.len(),
    ensures
        r matches Some((v, np)) ==> np == pos + 78 && np <= b@.len() && b@.subrange(
            pos as int,
            np as int,
        ) == enc_order_value(v@) && v@.valid(),
        forall|w: OrderValueV|
            w.valid() && is_prefix_at(b@, pos as int, enc_order_value(w)) ==> (r matches Some((
                v,
                np,
            )) && v@ == w && np == pos + 78),
{
    let (owner, p1) = match take_hash(b, pos) {
        Some(t) => t,
        None => {
            proof {
                assert forall|w: OrderValueV|
                    w.valid() && is_prefix_at(b@, pos as int, enc_order_value(w)) implies false by {
                    lemma_order_value_parts(b@, pos as int, w);
                }
            }
            return None;
        },
    };
    let (amount, p2) = match take_dec(b, p1) {
        Some(t) => t,
        None => {
            proof {
                assert forall|w: OrderValueV|
                    w.valid() && is_prefix_at(b@, pos as int, enc_order_value(w)) implies false by {
                    lemma_order_value_parts(b@, pos as int, w);
                }
            }
            return None;
        },
    };
    let (price, p3) = match take_dec(b, p2) {
        Some(t) => t,
        None => {
            proof {
                assert forall|w: OrderValueV|
                    w.valid() && is_prefix_at(b@, pos as int, enc_order_value(w)) implies false by {
                    lemma_order_value_parts(b@, pos as int, w);
                }
            }
            return None;
        },
    };
    let (ask_or_bid, p4) = match take_u32(b, p3) {
        Some(t) => t,
        None => {
            proof {
                assert forall|w: OrderValueV|
                    w.valid() && is_prefix_at(b@, pos as int, enc_order_value(w)) implies false by {
                    lemma_order_value_parts(b@, pos as int, w);
                }
            }
            return None;
        },
    };
    let v = OrderValue { owner, amount, price, ask_or_bid };
    proof {
        lemma_subrange_glue(b@, pos as int, p1 as int, p2 as int);
        lemma_subrange_glue(b@, pos as int, p2 as int, p3 as int);
        lemma_subrange_glue(b@, pos as int, p3 as int, p4 as int);
        assert(b@.subrange(pos as int, p4 as int) =~= enc_order_value(v@));
        assert forall|w: OrderValueV|
            w.valid() && is_prefix_at(b@, pos as int, enc_order_value(w)) implies (v@ == w && p4
            == pos + 78) by {
            lemma_auto_spec_u32_to_from_le_bytes();
            lemma_order_value_parts(b@, pos as int, w);
            assert(owner@ == w.owner);
            assert(spec_u32_to_le_bytes(ask_or_bid) == spec_u32_to_le_bytes(w.ask_or_bid));
            assert(v@ =~= w);
        }
    }
    Some((v, p4))
}

/// The four fields of an encoded order sit at their fixed offsets.
proof fn lemma_order_value_parts(b: Seq<u8>, pos: int, w: OrderValueV)
    requires
        w.valid(),
        is_prefix_at(b, pos, enc_order_value(w)),
    ensures
        pos + 78 <= b.len(),
        b.subrange(pos, pos + 32) == w.owner,
        is_prefix_at(b, pos + 32, enc_dec(w.amount)),
        is_prefix_at(b, pos + 53, enc_dec(w.price)),
        b.subrange(pos + 74, pos + 78) == spec_u32_to_le_bytes(w.ask_or_bid),
{
    lemma_auto_spec_u32_to_from_le_bytes();
    lemma_enc_dec_len(w.amount);
    lemma_enc_dec_len(w.price);
    assert(enc_order_value(w) == ((w.owner + enc_dec(w.amount)) + enc_dec(w.price))
        + spec_u32_to_le_bytes(w.ask_or_bid));
    lemma_prefix_split(
        b,
        pos,
        (w.owner + enc_dec(w.amount)) + enc_dec(w.price),
        spec_u32_to_le_bytes(w.ask_or_bid),
    );
    lemma_prefix_split(b, pos, w.owner + enc_dec(w.amount), enc_dec(w.price));
    lemma_prefix_split(b, pos, w.owner, enc_dec(w.amount));
}

/// A canonical order list is encoded at `pos`.
pub open spec fn orders_hyp(b: Seq<u8>, pos: int, w: Seq<(u64, OrderValueV)>) -> bool {
    orders_valid(w) && is_prefix_at(b, pos, enc_list(w, f_order_entry()))
}

#[verifier::rlimit(80)]
fn take_orders(b: &Vec<u8>, pos: usize) -> (r: Option<(Vec<(u64, OrderValue)>, usize)>)
    requires
        pos <= b@.len(),
    ensures
        r matches Some((v, np)) ==> pos <= np <= b@.len() && b@.subrange(pos as int, np as int)
            == enc_list(orders_view(v@), f_order_entry()) && orders_valid(orders_view(v@)),
        forall|w: Seq<(u64, OrderValueV)>|
            orders_hyp(b@, pos as int, w) ==> (r matches Some((v, np)) && orders_view(v@) == w
                && np == pos + enc_list(w, f_order_entry()).len()),
{
    proof {
        lemma_auto_spec_u64_to_from_le_bytes();
    }
    let (n, p0) = match take_u64(b, pos) {
        Some(t) => t,
        None => {
            proof {
                assert forall|w: Seq<(u64, OrderValueV)>|
                    orders_hyp(b@, pos as int, w) implies false by {
                    lemma_auto_spec_u64_to_from_le_bytes();
                    lemma_prefix_split(
                        b@,
                        pos as int,
                        spec_u64_to_le_bytes(w.len() as u64),
                        enc_items(w, f_order_entry()),
                    );
                }
            }
            return None;
        },
    };
    proof {
        assert forall|w: Seq<(u64, OrderValueV)>|
            orders_hyp(b@, pos as int, w) implies w.len() == n && is_prefix_at(
            b@,
            p0 as int,
            enc_items(w, f_order_entry()),
        ) by {
            lemma_auto_spec_u64_to_from_le_bytes();
            lemma_prefix_split(
                b@,
                pos as int,
                spec_u64_to_le_bytes(w.len() as u64),
                enc_items(w, f_order_entry()),
            );
        }
    }
    let mut v: Vec<(u64, OrderValue)> = Vec::new();
    let mut cur = p0;
    let mut i: u64 = 0;
    proof {
        assert(orders_view(v@) =~= Seq::<(u64, OrderValueV)>::empty());
    }
    while i < n
        invariant
            pos <= b@.len(),
            p0 == pos + 8,
            p0 <= cur <= b@.len(),
            i <= n,
            v@.len() == i,
            b@.subrange(pos as int, p0 as int) == spec_u64_to_le_bytes(n),
            b@.subrange(p0 as int, cur as int) == enc_items(orders_view(v@), f_order_entry()),
            orders_valid(orders_view(v@)),
            forall|w: Seq<(u64, OrderValueV)>|
                #[trigger] orders_hyp(b@, pos as int, w) ==> (w.len() == n && orders_view(v@) == w.take(
                    i as int,
                ) && cur == p0 + enc_items(w.take(i as int), f_order_entry()).len()),
        decreases n - i,
    {
        let ghost old_v = v@;
        let ghost old_cur = cur;
        let (id, p1) = match take_u64(b, cur) {
            Some(t) => t,
            None => {
                proof {
                    assert forall|w: Seq<(u64, OrderValueV)>|
                        orders_hyp(b@, pos as int, w) implies false by {
                        lemma_auto_spec_u64_to_from_le_bytes();
                        lemma_prefix_split(
                            b@,
                            pos as int,
                            spec_u64_to_le_bytes(w.len() as u64),
                            enc_items(w, f_order_entry()),
                        );
                        lemma_peel_entry(b@, p0 as int, cur as int, w, i as int, f_order_entry());
                        lemma_prefix_split(
                            b@,
                            cur as int,
                            spec_u64_to_le_bytes(w[i as int].0),
                            enc_order_value(w[i as int].1),
                        );
                    }
                }
                return None;
            },
        };
        let (ov, p2) = match take_order_value(b, p1) {
            Some(t) => t,
            None => {
                proof {
                    assert forall|w: Seq<(u64, OrderValueV)>|
                        orders_hyp(b@, pos as int, w) implies false by {
                        lemma_auto_spec_u64_to_from_le_bytes();
                        lemma_prefix_split(
                            b@,
                            pos as int,
                            spec_u64_to_le_bytes(w.len() as u64),
                            enc_items(w, f_order_entry()),
                        );
                        lemma_peel_entry(b@, p0 as int, cur as int, w, i as int, f_order_entry());
                        lemma_prefix_split(
                            b@,
                            cur as int,
                            spec_u64_to_le_bytes(w[i as int].0),
                            enc_order_value(w[i as int].1),
                        );
                        assert(w[i as int].1.valid());
                    }
                }
                return None;
            },
        };
        proof {
            assert forall|w: Seq<(u64, OrderValueV)>|
                orders_hyp(b@, pos as int, w) implies id == w[i as int].0 && ov@ == w[i as int].1
                && p2 == p0 + enc_items(w.take(i + 1 as int), f_order_entry()).len() by {
                lemma_auto_spec_u64_to_from_le_bytes();
                lemma_prefix_split(
                    b@,
                    pos as int,
                    spec_u64_to_le_bytes(w.len() as u64),
                    enc_items(w, f_order_entry()),
                );
                lemma_peel_entry(b@, p0 as int, cur as int, w, i as int, f_order_entry());
                lemma_prefix_split(
                    b@,
                    cur as int,
                    spec_u64_to_le_bytes(w[i as int].0),
                    enc_order_value(w[i as int].1),
                );
                assert(w[i as int].1.valid());
                assert(spec_u64_to_le_bytes(id) == spec_u64_to_le_bytes(w[i as int].0));
            }
        }
        if v.len() > 0 && v[v.len() - 1].0 >= id {
            proof {
                assert forall|w: Seq<(u64, OrderValueV)>|
                    orders_hyp(b@, pos as int, w) implies false by {
                    assert(orders_view(v@)[i - 1 as int] == w.take(i as int)[i - 1 as int]);
                    assert(w[i - 1 as int].0 < w[i as int].0);
                }
            }
            return None;
        }
        v.push((id, ov));
        cur = p2;
        i = i + 1;
        proof {
            assert(orders_view(v@) =~= orders_view(old_v).push((id, ov@)));
            lemma_enc_items_snoc(orders_view(v@), i - 1 as int, f_order_entry());
            assert(orders_view(v@).take(i - 1 as int) =~= orders_view(old_v));
            assert(orders_view(v@) =~= orders_view(v@).take(i as int));
            lemma_subrange_glue(b@, p0 as int, old_cur as int, cur as int);
            assert(b@.subrange(p0 as int, cur as int) == enc_items(
                orders_view(v@),
                f_order_entry(),
            ));
            assert forall|w: Seq<(u64, OrderValueV)>|
                orders_hyp(b@, pos as int, w) implies (w.len() == n && orders_view(v@) == w.take(
                i as int,
            ) && cur == p0 + enc_items(w.take(i as int), f_order_entry()).len()) by {
                assert(w.take(i as int) =~= w.take(i - 1 as int).push(w[i - 1 as int]));
                assert((id, ov@) == w[i - 1 as int]);
                assert(orders_view(v@) =~= w.take(i as int));
            }
        }
    }
    proof {
        lemma_subrange_glue(b@, pos as int, p0 as int, cur as int);
        assert(orders_view(v@).len() == n);
        assert(b@.subrange(pos as int, cur as int) =~= enc_list(orders_view(v@), f_order_entry()));
        assert forall|w: Seq<(u64, OrderValueV)>|
            orders_hyp(b@, pos as int, w) implies (orders_view(v@) == w && cur == pos + enc_list(
            w,
            f_order_entry(),
        ).len()) by {
            lemma_auto_spec_u64_to_from_le_bytes();
            assert(w.take(n as int) =~= w);
        }
    }
    Some((v, cur))
}

/// A canonical currency list is encoded at `pos`.
pub open spec fn currencies_hyp(b: Seq<u8>, pos: int, w: Seq<(u32, Account)>) -> bool {
    currencies_valid(w) && is_prefix_at(b, pos, enc_list(w, f_currency_entry()))
}

#[verifier::rlimit(80)]
fn take_currencies(b: &Vec<u8>, pos: usize) -> (r: Option<(Vec<(u32, Account)>, usize)>)
    requires
        pos <= b@.len(),
    ensures
        r matches Some((v, np)) ==> pos <= np <= b@.len() && b@.subrange(pos as int, np as int)
            == enc_list(v@, f_currency_entry()) && currencies_valid(v@),
        forall|w: Seq<(u32, Account)>|
            currencies_hyp(b@, pos as int, w) ==> (r matches Some((v, np)) && v@ == w && np == pos
                + enc_list(w, f_currency_entry()).len()),
{
    proof {
        lemma_auto_spec_u64_to_from_le_bytes();
    }
    let (n, p0) = match take_u64(b, pos) {
        Some(t) => t,
        None => {
            proof {
                assert forall|w: Seq<(u32, Account)>|
                    currencies_hyp(b@, pos as int, w) implies false by {
                    lemma_auto_spec_u64_to_from_le_bytes();
                    lemma_prefix_split(
                        b@,
                        pos as int,
                        spec_u64_to_le_bytes(w.len() as u64),
                        enc_items(w, f_currency_entry()),
                    );
                }
            }
            return None;
        },
    };
    proof {
        assert forall|w: Seq<(u32, Account)>|
            currencies_hyp(b@, pos as int, w) implies w.len() == n && is_prefix_at(
            b@,
            p0 as int,
            enc_items(w, f_currency_entry()),
        ) by {
            lemma_auto_spec_u64_to_from_le_bytes();
            lemma_prefix_split(
                b@,
                pos as int,
                spec_u64_to_le_bytes(w.len() as u64),
                enc_items(w, f_currency_entry()),
            );
        }
    }
    let mut v: Vec<(u32, Account)> = Vec::new();
    let mut cur = p0;
    let mut i: u64 = 0;
    proof {
        assert(v@ =~= Seq::<(u32, Account)>::empty());
    }
    while i < n
        invariant
            pos <= b@.len(),
            p0 == pos + 8,
            p0 <= cur <= b@.len(),
            i <= n,
            v@.len() == i,
            b@.subrange(pos as int, p0 as int) == spec_u64_to_le_bytes(n),
            b@.subrange(p0 as int, cur as int) == enc_items(v@, f_currency_entry()),
            currencies_valid(v@),
            forall|w: Seq<(u32, Account)>|
                #[trigger] currencies_hyp(b@, pos as int, w) ==> (w.len() == n && v@ == w.take(i as int)
                    && cur == p0 + enc_items(w.take(i as int), f_currency_entry()).len()),
        decreases n - i,
    {
        let ghost old_v = v@;
        let ghost old_cur = cur;
        let (cid, p1) = match take_u32(b, cur) {
            Some(t) => t,
            None => {
                proof {
                    assert forall|w: Seq<(u32, Account)>|
                        currencies_hyp(b@, pos as int, w) implies false by {
                        lemma_auto_spec_u32_to_from_le_bytes();
                        lemma_auto_spec_u64_to_from_le_bytes();
                        lemma_prefix_split(
                            b@,
                            pos as int,
                            spec_u64_to_le_bytes(w.len() as u64),
                            enc_items(w, f_currency_entry()),
                        );
                        lemma_peel_entry(
                            b@,
                            p0 as int,
                            cur as int,
                            w,
                            i as int,
                            f_currency_entry(),
                        );
                        lemma_prefix_split(
                            b@,
                            cur as int,
                            spec_u32_to_le_bytes(w[i as int].0),
                            enc_account(w[i as int].1),
                        );
                    }
                }
                return None;
            },
        };
        let (acct, p2) = match take_account(b, p1) {
            Some(t) => t,
            None => {
                proof {
                    assert forall|w: Seq<(u32, Account)>|
                        currencies_hyp(b@, pos as int, w) implies false by {
                        lemma_auto_spec_u32_to_from_le_bytes();
                        lemma_auto_spec_u64_to_from_le_bytes();
                        lemma_prefix_split(
                            b@,
                            pos as int,
                            spec_u64_to_le_bytes(w.len() as u64),
                            enc_items(w, f_currency_entry()),
                        );
                        lemma_peel_entry(
                            b@,
                            p0 as int,
                            cur as int,
                            w,
                            i as int,
                            f_currency_entry(),
                        );
                        lemma_prefix_split(
                            b@,
                            cur as int,
                            spec_u32_to_le_bytes(w[i as int].0),
                            enc_account(w[i as int].1),
                        );
                        assert(w[i as int].1.valid());
                    }
                }
                return None;
            },
        };
        proof {
            assert forall|w: Seq<(u32, Account)>|
                currencies_hyp(b@, pos as int, w) implies cid == w[i as int].0 && acct == w[i
                as int].1 && p2 == p0 + enc_items(w.take(i + 1 as int), f_currency_entry()).len()
                by {
                lemma_auto_spec_u32_to_from_le_bytes();
                lemma_auto_spec_u64_to_from_le_bytes();
                lemma_prefix_split(
                    b@,
                    pos as int,
                    spec_u64_to_le_bytes(w.len() as u64),
                    enc_items(w, f_currency_entry()),
                );
                lemma_peel_entry(b@, p0 as int, cur as int, w, i as int, f_currency_entry());
                lemma_prefix_split(
                    b@,
                    cur as int,
                    spec_u32_to_le_bytes(w[i as int].0),
                    enc_account(w[i as int].1),
                );
                assert(w[i as int].1.valid());
                assert(spec_u32_to_le_bytes(cid) == spec_u32_to_le_bytes(w[i as int].0));
            }
        }
        if v.len() > 0 && v[v.len() - 1].0 >= cid {
            proof {
                assert forall|w: Seq<(u32, Account)>|
                    currencies_hyp(b@, pos as int, w) implies false by {
                    assert(v@[i - 1 as int] == w.take(i as int)[i - 1 as int]);
                    assert(w[i - 1 as int].0 < w[i as int].0);
                }
            }
            return None;
        }
        v.push((cid, acct));
        cur = p2;
        i = i + 1;
        proof {
            lemma_enc_items_snoc(v@, i - 1 as int, f_currency_entry());
            assert(v@.take(i - 1 as int) =~= old_v);
            assert(v@ =~= v@.take(i as int));
            lemma_subrange_glue(b@, p0 as int, old_cur as int, cur as int);
            assert(b@.subrange(p0 as int, cur as int) == enc_items(v@, f_currency_entry()));
            assert forall|w: Seq<(u32, Account)>|
                currencies_hyp(b@, pos as int, w) implies (w.len() == n && v@ == w.take(i as int)
                && cur == p0 + enc_items(w.take(i as int), f_currency_entry()).len()) by {
                assert(w.take(i as int) =~= w.take(i - 1 as int).push(w[i - 1 as int]));
                assert((cid, acct) == w[i - 1 as int]);
                assert(v@ =~= w.take(i as int));
            }
        }
    }
    proof {
        lemma_subrange_glue(b@, pos as int, p0 as int, cur as int);
        assert(v@.len() == n);
        assert(b@.subrange(pos as int, cur as int) =~= enc_list(v@, f_currency_entry()));
        assert forall|w: Seq<(u32, Account)>|
            currencies_hyp(b@, pos as int, w) implies (v@ == w && cur == pos + enc_list(
            w,
            f_currency_entry(),
        ).len()) by {
            lemma_auto_spec_u64_to_from_le_bytes();
            assert(w.take(n as int) =~= w);
        }
    }
    Some((v, cur))
}

/// The eight fields of an encoded order book sit at their fixed offsets,
/// with the order list last.
proof fn lemma_book_parts(b: Seq<u8>, pos: int, w: OrderBookV)
    requires
        w.valid(),
        is_prefix_at(b, pos, enc_book(w)),
    ensures
        pos + 93 <= b.len(),
        b.subrange(pos, pos + 4) == spec_u32_to_le_bytes(w.base_scale),
        b.subrange(pos + 4, pos + 8) == spec_u32_to_le_bytes(w.quote_scale),
        is_prefix_at(b, pos + 8, enc_dec(w.taker_fee)),
        is_prefix_at(b, pos + 29, enc_dec(w.maker_fee)),
        is_prefix_at(b, pos + 50, enc_dec(w.min_amount)),
        is_prefix_at(b, pos + 71, enc_dec(w.min_vol)),
        b.subrange(pos + 92, pos + 93) == enc_bool(w.enable_market_order),
        orders_hyp(b, pos + 93, w.orders),
        enc_book(w).len() == 93 + enc_list(w.orders, f_order_entry()).len(),
{
    lemma_auto_spec_u32_to_from_le_bytes();
    lemma_enc_dec_len(w.taker_fee);
    lemma_enc_dec_len(w.maker_fee);
    lemma_enc_dec_len(w.min_amount);
    lemma_enc_dec_len(w.min_vol);
    assert(spec_u32_to_le_bytes(w.base_scale).len() == 4);
    assert(spec_u32_to_le_bytes(w.quote_scale).len() == 4);
    assert(enc_bool(w.enable_market_order).len() == 1);
    let a1 = spec_u32_to_le_bytes(w.base_scale);
    let a2 = spec_u32_to_le_bytes(w.quote_scale);
    let a3 = enc_dec(w.taker_fee);
    let a4 = enc_dec(w.maker_fee);
    let a5 = enc_dec(w.min_amount);
    let a6 = enc_dec(w.min_vol);
    let a7 = enc_bool(w.enable_market_order);
    let a8 = enc_list(w.orders, f_order_entry());
    assert(enc_book(w) == ((((((a1 + a2) + a3) + a4) + a5) + a6) + a7) + a8);
    lemma_prefix_split(b, pos, (((((a1 + a2) + a3) + a4) + a5) + a6) + a7, a8);
    lemma_prefix_split(b, pos, ((((a1 + a2) + a3) + a4) + a5) + a6, a7);
    lemma_prefix_split(b, pos, (((a1 + a2) + a3) + a4) + a5, a6);
    lemma_prefix_split(b, pos, ((a1 + a2) + a3) + a4, a5);
    lemma_prefix_split(b, pos, (a1 + a2) + a3, a4);
    lemma_prefix_split(b, pos, a1 + a2, a3);
    lemma_prefix_split(b, pos, a1, a2);
}

#[verifier::rlimit(80)]
fn take_book(b: &Vec<u8>, pos: usize) -> (r: Option<(OrderBook, usize)>)
    requires
        pos <= b@.len(),
    ensures
        r matches Some((v, np)) ==> pos <= np <= b@.len() && b@.subrange(pos as int, np as int)
            == enc_book(v@) && v@.valid(),
        forall|w: OrderBookV|
            w.valid() && is_prefix_at(b@, pos as int, enc_book(w)) ==> (r matches Some((v, np))
                && v@ == w && np == pos + enc_book(w).len()),
{
    let (base_scale, p1) = match take_u32(b, pos) {
        Some(t) => t,
        None => {
            proof {
                assert forall|w: OrderBookV|
                    w.valid() && is_prefix_at(b@, pos as int, enc_book(w)) implies false by {
                    lemma_book_parts(b@, pos as int, w);
                }
            }
            return None;
        },
    };
    let (quote_scale, p2) = match take_u32(b, p1) {
        Some(t) => t,
        None => {
            proof {
                assert forall|w: OrderBookV|
                    w.valid() && is_prefix_at(b@, pos as int, enc_book(w)) implies false by {
                    lemma_book_parts(b@, pos as int, w);
                }
            }
            return None;
        },
    };
    let (taker_fee, p3) = match take_dec(b, p2) {
        Some(t) => t,
        None => {
            proof {
                assert forall|w: OrderBookV|
                    w.valid() && is_prefix_at(b@, pos as int, enc_book(w)) implies false by {
                    lemma_book_parts(b@, pos as int, w);
                }
            }
            return None;
        },
    };
    let (maker_fee, p4) = match take_dec(b, p3) {
        Some(t) => t,
        None => {
            proof {
                assert forall|w: OrderBookV|
                    w.valid() && is_prefix_at(b@, pos as int, enc_book(w)) implies false by {
                    lemma_book_parts(b@, pos as int, w);
                }
            }
            return None;
        },
    };
    let (min_amount, p5) = match take_dec(b, p4) {
        Some(t) => t,
        None => {
            proof {
                assert forall|w: OrderBookV|
                    w.valid() && is_prefix_at(b@, pos as int, enc_book(w)) implies false by {
                    lemma_book_parts(b@, pos as int, w);
                }
            }
            return None;
        },
    };
    let (min_vol, p6) = match take_dec(b, p5) {
        Some(t) => t,
        None => {
            proof {
                assert forall|w: OrderBookV|
                    w.valid() && is_prefix_at(b@, pos as int, enc_book(w)) implies false by {
                    lemma_book_parts(b@, pos as int, w);
                }
            }
            return None;
        },
    };
    let (enable_market_order, p7) = match take_bool(b, p6) {
        Some(t) => t,
        None => {
            proof {
                assert forall|w: OrderBookV|
                    w.valid() && is_prefix_at(b@, pos as int, enc_book(w)) implies false by {
                    lemma_book_parts(b@, pos as int, w);
                    assert(b@[pos + 92] == enc_bool(w.enable_market_order)[0]);
                }
            }
            return None;
        },
    };
    let (orders, p8) = match take_orders(b, p7) {
        Some(t) => t,
        None => {
            proof {
                assert forall|w: OrderBookV|
                    w.valid() && is_prefix_at(b@, pos as int, enc_book(w)) implies false by {
                    lemma_book_parts(b@, pos as int, w);
                }
            }
            return None;
        },
    };
    let v = OrderBook {
        base_scale,
        quote_scale,
        taker_fee,
        maker_fee,
        min_amount,
        min_vol,
        enable_market_order,
        orders,
    };
    proof {
        lemma_subrange_glue(b@, pos as int, p1 as int, p2 as int);
        lemma_subrange_glue(b@, pos as int, p2 as int, p3 as int);
        lemma_subrange_glue(b@, pos as int, p3 as int, p4 as int);
        lemma_subrange_glue(b@, pos as int, p4 as int, p5 as int);
        lemma_subrange_glue(b@, pos as int, p5 as int, p6 as int);
        lemma_subrange_glue(b@, pos as int, p6 as int, p7 as int);
        lemma_subrange_glue(b@, pos as int, p7 as int, p8 as int);
        assert(b@.subrange(pos as int, p8 as int) =~= enc_book(v@));
        assert forall|w: OrderBookV|
            w.valid() && is_prefix_at(b@, pos as int, enc_book(w)) implies (v@ == w && p8 == pos
            + enc_book(w).len()) by {
            lemma_auto_spec_u32_to_from_le_bytes();
            lemma_book_parts(b@, pos as int, w);
            assert(spec_u32_to_le_bytes(base_scale) == spec_u32_to_le_bytes(w.base_scale));
            assert(spec_u32_to_le_bytes(quote_scale) == spec_u32_to_le_bytes(w.quote_scale));
            assert(b@[pos + 92] == enc_bool(w.enable_market_order)[0]);
            assert(enable_market_order == w.enable_market_order);
            assert(orders_view(orders@) == w.orders);
            assert(v@ =~= w);
        }
    }
    Some((v, p8))
}

/// A canonical book list is encoded at `pos`.
pub open spec fn books_hyp(b: Seq<u8>, pos: int, w: Seq<((u32, u32), OrderBookV)>) -> bool {
    crate::snapshot::books_valid(w) && is_prefix_at(b, pos, enc_list(w, f_book_entry()))
}

#[verifier::rlimit(100)]
#[verifier::spinoff_prover]
fn take_books(b: &Vec<u8>, pos: usize) -> (r: Option<(Vec<((u32, u32), OrderBook)>, usize)>)
    requires
        pos <= b@.len(),
    ensures
        r matches Some((v, np)) ==> pos <= np <= b@.len() && b@.subrange(pos as int, np as int)
            == enc_list(books_view(v@), f_book_entry()) && crate::snapshot::books_valid(
            books_view(v@),
        ),
        forall|w: Seq<((u32, u32), OrderBookV)>|
            books_hyp(b@, pos as int, w) ==> (r matches Some((v, np)) && books_view(v@) == w && np
                == pos + enc_list(w, f_book_entry()).len()),
{
    proof {
        lemma_auto_spec_u64_to_from_le_bytes();
    }
    let (n, p0) = match take_u64(b, pos) {
        Some(t) => t,
        None => {
            proof {
                assert forall|w: Seq<((u32, u32), OrderBookV)>|
                    books_hyp(b@, pos as int, w) implies false by {
                    lemma_auto_spec_u64_to_from_le_bytes();
                    lemma_prefix_split(
                        b@,
                        pos as int,
                        spec_u64_to_le_bytes(w.len() as u64),
                        enc_items(w, f_book_entry()),
                    );
                }
            }
            return None;
        },
    };
    proof {
        assert forall|w: Seq<((u32, u32), OrderBookV)>|
            books_hyp(b@, pos as int, w) implies w.len() == n && is_prefix_at(
            b@,
            p0 as int,
            enc_items(w, f_book_entry()),
        ) by {
            lemma_auto_spec_u64_to_from_le_bytes();
            lemma_prefix_split(
                b@,
                pos as int,
                spec_u64_to_le_bytes(w.len() as u64),
                enc_items(w, f_book_entry()),
            );
        }
    }
    let mut v: Vec<((u32, u32), OrderBook)> = Vec::new();
    let mut cur = p0;
    let mut i: u64 = 0;
    proof {
        assert(books_view(v@) =~= Seq::<((u32, u32), OrderBookV)>::empty());
    }
    while i < n
        invariant
            pos <= b@.len(),
            p0 == pos + 8,
            p0 <= cur <= b@.len(),
            i <= n,
            v@.len() == i,
            b@.subrange(pos as int, p0 as int) == spec_u64_to_le_bytes(n),
            b@.subrange(p0 as int, cur as int) == enc_items(books_view(v@), f_book_entry()),
            crate::snapshot::books_valid(books_view(v@)),
            forall|w: Seq<((u32, u32), OrderBookV)>|
                #[trigger] books_hyp(b@, pos as int, w) ==> (w.len() == n && books_view(v@) == w.take(
                    i as int,
                ) && cur == p0 + enc_items(w.take(i as int), f_book_entry()).len()),
        decreases n - i,
    {
        let ghost old_v = v@;
        let ghost old_cur = cur;
        let (s0, q1) = match take_u32(b, cur) {
            Some(t) => t,
            None => {
                proof {
                    assert forall|w: Seq<((u32, u32), OrderBookV)>|
                        books_hyp(b@, pos as int, w) implies false by {
                        lemma_auto_spec_u64_to_from_le_bytes();
                        lemma_prefix_split(
                            b@,
                            pos as int,
                            spec_u64_to_le_bytes(w.len() as u64),
                            enc_items(w, f_book_entry()),
                        );
                        lemma_books_entry_parts(b@, p0 as int, cur as int, w, i as int);
                    }
                }
                return None;
            },
        };
        let (s1, q2) = match take_u32(b, q1) {
            Some(t) => t,
            None => {
                proof {
                    assert forall|w: Seq<((u32, u32), OrderBookV)>|
                        books_hyp(b@, pos as int, w) implies false by {
                        lemma_auto_spec_u64_to_from_le_bytes();
                        lemma_prefix_split(
                            b@,
                            pos as int,
                            spec_u64_to_le_bytes(w.len() as u64),
                            enc_items(w, f_book_entry()),
                        );
                        lemma_books_entry_parts(b@, p0 as int, cur as int, w, i as int);
                    }
                }
                return None;
            },
        };
        let (book, q3) = match take_book(b, q2) {
            Some(t) => t,
            None => {
                proof {
                    assert forall|w: Seq<((u32, u32), OrderBookV)>|
                        books_hyp(b@, pos as int, w) implies false by {
                        lemma_auto_spec_u64_to_from_le_bytes();
                        lemma_prefix_split(
                            b@,
                            pos as int,
                            spec_u64_to_le_bytes(w.len() as u64),
                            enc_items(w, f_book_entry()),
                        );
                        lemma_books_entry_parts(b@, p0 as int, cur as int, w, i as int);
                    }
                }
                return None;
            },
        };
        proof {
            assert forall|w: Seq<((u32, u32), OrderBookV)>|
                books_hyp(b@, pos as int, w) implies s0 == w[i as int].0.0 && s1 == w[i as int].0.1
                && book@ == w[i as int].1 && q3 == p0 + enc_items(
                w.take(i + 1 as int),
                f_book_entry(),
            ).len() by {
                lemma_auto_spec_u32_to_from_le_bytes();
                lemma_auto_spec_u64_to_from_le_bytes();
                lemma_prefix_split(
                    b@,
                    pos as int,
                    spec_u64_to_le_bytes(w.len() as u64),
                    enc_items(w, f_book_entry()),
                );
                lemma_books_entry_parts(b@, p0 as int, cur as int, w, i as int);
                assert(spec_u32_to_le_bytes(s0).len() == 4);
                assert(spec_u32_to_le_bytes(s1).len() == 4);
                assert(spec_u32_to_le_bytes(w[i as int].0.0).len() == 4);
                assert(spec_u32_to_le_bytes(w[i as int].0.1).len() == 4);
                assert(spec_u32_to_le_bytes(s0) == spec_u32_to_le_bytes(w[i as int].0.0));
                assert(spec_u32_to_le_bytes(s1) == spec_u32_to_le_bytes(w[i as int].0.1));
            }
        }
        if v.len() > 0 {
            let last = v[v.len() - 1].0;
            if !(last.0 < s0 || (last.0 == s0 && last.1 < s1)) {
                proof {
                    assert forall|w: Seq<((u32, u32), OrderBookV)>|
                        books_hyp(b@, pos as int, w) implies false by {
                        assert(books_view(v@)[i - 1 as int] == w.take(i as int)[i - 1 as int]);
                        assert(crate::snapshot::sym_lt(w[i - 1 as int].0, w[i as int].0));
                    }
                }
                return None;
            }
        }
        v.push(((s0, s1), book));
        cur = q3;
        i = i + 1;
        proof {
            assert(books_view(v@) =~= books_view(old_v).push(((s0, s1), book@)));
            lemma_enc_items_snoc(books_view(v@), i - 1 as int, f_book_entry());
            assert(books_view(v@).take(i - 1 as int) =~= books_view(old_v));
            assert(books_view(v@) =~= books_view(v@).take(i as int));
            lemma_subrange_glue(b@, p0 as int, old_cur as int, cur as int);
            assert(b@.subrange(p0 as int, cur as int) == enc_items(
                books_view(v@),
                f_book_entry(),
            ));
            assert forall|w: Seq<((u32, u32), OrderBookV)>|
                books_hyp(b@, pos as int, w) implies (w.len() == n && books_view(v@) == w.take(
                i as int,
            ) && cur == p0 + enc_items(w.take(i as int), f_book_entry()).len()) by {
                assert(w.take(i as int) =~= w.take(i - 1 as int).push(w[i - 1 as int]));
                assert(((s0, s1), book@) == w[i - 1 as int]);
                assert(books_view(v@) =~= w.take(i as int));
            }
        }
    }
    proof {
        lemma_subrange_glue(b@, pos as int, p0 as int, cur as int);
        assert(books_view(v@).len() == n);
        assert(b@.subrange(pos as int, cur as int) =~= enc_list(books_view(v@), f_book_entry()));
        assert forall|w: Seq<((u32, u32), OrderBookV)>|
            books_hyp(b@, pos as int, w) implies (books_view(v@) == w && cur == pos + enc_list(
            w,
            f_book_entry(),
        ).len()) by {
            lemma_auto_spec_u64_to_from_le_bytes();
            assert(w.take(n as int) =~= w);
        }
    }
    Some((v, cur))
}

/// Entry `i` of an encoded book list splits into symbol halves and book.
proof fn lemma_books_entry_parts(
    b: Seq<u8>,
    p0: int,
    cur: int,
    w: Seq<((u32, u32), OrderBookV)>,
    i: int,
)
    requires
        crate::snapshot::books_valid(w),
        0 <= i < w.len(),
        is_prefix_at(b, p0, enc_items(w, f_book_entry())),
        cur == p0 + enc_items(w.take(i), f_book_entry()).len(),
    ensures
        cur + 8 <= b.len(),
        b.subrange(cur, cur + 4) == spec_u32_to_le_bytes(w[i].0.0),
        b.subrange(cur + 4, cur + 8) == spec_u32_to_le_bytes(w[i].0.1),
        w[i].1.valid(),
        is_prefix_at(b, cur + 8, enc_book(w[i].1)),
        cur + 8 + enc_book(w[i].1).len() == p0 + enc_items(w.take(i + 1), f_book_entry()).len(),
{
    lemma_auto_spec_u32_to_from_le_bytes();
    lemma_peel_entry(b, p0, cur, w, i, f_book_entry());
    assert(spec_u32_to_le_bytes(w[i].0.0).len() == 4);
    assert(spec_u32_to_le_bytes(w[i].0.1).len() == 4);
    assert(enc_book_entry(w[i]) == (spec_u32_to_le_bytes(w[i].0.0) + spec_u32_to_le_bytes(
        w[i].0.1,
    )) + enc_book(w[i].1));
    lemma_prefix_split(
        b,
        cur,
        spec_u32_to_le_bytes(w[i].0.0) + spec_u32_to_le_bytes(w[i].0.1),
        enc_book(w[i].1),
    );
    lemma_prefix_split(b, cur, spec_u32_to_le_bytes(w[i].0.0), spec_u32_to_le_bytes(w[i].0.1));
    assert(w[i].1.valid());
}

/// A canonical user map is encoded at `pos`.
pub open spec fn users_hyp(b: Seq<u8>, pos: int, w: Seq<(u64, Seq<(u32, Account)>)>) -> bool {
    crate::snapshot::users_valid(w) && is_prefix_at(b, pos, enc_list(w, f_user_entry()))
}

#[verifier::rlimit(100)]
#[verifier::spinoff_prover]
fn take_users(b: &Vec<u8>, pos: usize) -> (r: Option<(Vec<(u64, Vec<(u32, Account)>)>, usize)>)
    requires
        pos <= b@.len(),
    ensures
        r matches Some((v, np)) ==> pos <= np <= b@.len() && b@.subrange(pos as int, np as int)
            == enc_list(users_view(v@), f_user_entry()) && crate::snapshot::users_valid(
            users_view(v@),
        ),
        forall|w: Seq<(u64, Seq<(u32, Account)>)>|
            users_hyp(b@, pos as int, w) ==> (r matches Some((v, np)) && users_view(v@) == w && np
                == pos + enc_list(w, f_user_entry()).len()),
{
    proof {
        lemma_auto_spec_u64_to_from_le_bytes();
    }
    let (n, p0) = match take_u64(b, pos) {
        Some(t) => t,
        None => {
            proof {
                assert forall|w: Seq<(u64, Seq<(u32, Account)>)>|
                    users_hyp(b@, pos as int, w) implies false by {
                    lemma_auto_spec_u64_to_from_le_bytes();
                    lemma_prefix_split(
                        b@,
                        pos as int,
                        spec_u64_to_le_bytes(w.len() as u64),
                        enc_items(w, f_user_entry()),
                    );
                }
            }
            return None;
        },
    };
    proof {
        assert forall|w: Seq<(u64, Seq<(u32, Account)>)>|
            users_hyp(b@, pos as int, w) implies w.len() == n && is_prefix_at(
            b@,
            p0 as int,
            enc_items(w, f_user_entry()),
        ) by {
            lemma_auto_spec_u64_to_from_le_bytes();
            lemma_prefix_split(
                b@,
                pos as int,
                spec_u64_to_le_bytes(w.len() as u64),
                enc_items(w, f_user_entry()),
            );
        }
    }
    let mut v: Vec<(u64, Vec<(u32, Account)>)> = Vec::new();
    let mut cur = p0;
    let mut i: u64 = 0;
    proof {
        assert(users_view(v@) =~= Seq::<(u64, Seq<(u32, Account)>)>::empty());
    }
    while i < n
        invariant
            pos <= b@.len(),
            p0 == pos + 8,
            p0 <= cur <= b@.len(),
            i <= n,
            v@.len() == i,
            b@.subrange(pos as int, p0 as int) == spec_u64_to_le_bytes(n),
            b@.subrange(p0 as int, cur as int) == enc_items(users_view(v@), f_user_entry()),
            crate::snapshot::users_valid(users_view(v@)),
            forall|w: Seq<(u64, Seq<(u32, Account)>)>|
                #[trigger] users_hyp(b@, pos as int, w) ==> (w.len() == n && users_view(v@) == w.take(
                    i as int,
                ) && cur == p0 + enc_items(w.take(i as int), f_user_entry()).len()),
        decreases n - i,
    {
        let ghost old_v = v@;
        let ghost old_cur = cur;
        let (uid, q1) = match take_u64(b, cur) {
            Some(t) => t,
            None => {
                proof {
                    assert forall|w: Seq<(u64, Seq<(u32, Account)>)>|
                        users_hyp(b@, pos as int, w) implies false by {
                        lemma_auto_spec_u64_to_from_le_bytes();
                        lemma_prefix_split(
                            b@,
                            pos as int,
                            spec_u64_to_le_bytes(w.len() as u64),
                            enc_items(w, f_user_entry()),
                        );
                        lemma_users_entry_parts(b@, p0 as int, cur as int, w, i as int);
                    }
                }
                return None;
            },
        };
        let (currencies, q2) = match take_currencies(b, q1) {
            Some(t) => t,
            None => {
                proof {
                    assert forall|w: Seq<(u64, Seq<(u32, Account)>)>|
                        users_hyp(b@, pos as int, w) implies false by {
                        lemma_auto_spec_u64_to_from_le_bytes();
                        lemma_prefix_split(
                            b@,
                            pos as int,
                            spec_u64_to_le_bytes(w.len() as u64),
                            enc_items(w, f_user_entry()),
                        );
                        lemma_users_entry_parts(b@, p0 as int, cur as int, w, i as int);
                    }
                }
                return None;
            },
        };
        proof {
            assert forall|w: Seq<(u64, Seq<(u32, Account)>)>|
                users_hyp(b@, pos as int, w) implies uid == w[i as int].0 && currencies@ == w[i
                as int].1 && q2 == p0 + enc_items(w.take(i + 1 as int), f_user_entry()).len() by {
                lemma_auto_spec_u64_to_from_le_bytes();
                lemma_prefix_split(
                    b@,
                    pos as int,
                    spec_u64_to_le_bytes(w.len() as u64),
                    enc_items(w, f_user_entry()),
                );
                lemma_users_entry_parts(b@, p0 as int, cur as int, w, i as int);
                assert(spec_u64_to_le_bytes(uid) == spec_u64_to_le_bytes(w[i as int].0));
            }
        }
        if v.len() > 0 && v[v.len() - 1].0 >= uid {
            proof {
                assert forall|w: Seq<(u64, Seq<(u32, Account)>)>|
                    users_hyp(b@, pos as int, w) implies false by {
                    assert(users_view(v@)[i - 1 as int] == w.take(i as int)[i - 1 as int]);
                    assert(w[i - 1 as int].0 < w[i as int].0);
                }
            }
            return None;
        }
        v.push((uid, currencies));
        cur = q2;
        i = i + 1;
        proof {
            assert(users_view(v@) =~= users_view(old_v).push((uid, v@[i - 1 as int].1@)));
            lemma_enc_items_snoc(users_view(v@), i - 1 as int, f_user_entry());
            assert(users_view(v@).take(i - 1 as int) =~= users_view(old_v));
            assert(users_view(v@) =~= users_view(v@).take(i as int));
            lemma_subrange_glue(b@, p0 as int, old_cur as int, cur as int);
            assert(b@.subrange(p0 as int, cur as int) == enc_items(
                users_view(v@),
                f_user_entry(),
            ));
            assert forall|w: Seq<(u64, Seq<(u32, Account)>)>|
                users_hyp(b@, pos as int, w) implies (w.len() == n && users_view(v@) == w.take(
                i as int,
            ) && cur == p0 + enc_items(w.take(i as int), f_user_entry()).len()) by {
                assert(w.take(i as int) =~= w.take(i - 1 as int).push(w[i - 1 as int]));
                assert((uid, v@[i - 1 as int].1@) == w[i - 1 as int]);
                assert(users_view(v@) =~= w.take(i as int));
            }
        }
    }
    proof {
        lemma_subrange_glue(b@, pos as int, p0 as int, cur as int);
        assert(users_view(v@).len() == n);
        assert(b@.subrange(pos as int, cur as int) =~= enc_list(users_view(v@), f_user_entry()));
        assert forall|w: Seq<(u64, Seq<(u32, Account)>)>|
            users_hyp(b@, pos as int, w) implies (users_view(v@) == w && cur == pos + enc_list(
            w,
            f_user_entry(),
        ).len()) by {
            lemma_auto_spec_u64_to_from_le_bytes();
            assert(w.take(n as int) =~= w);
        }
    }
    Some((v, cur))
}

/// Entry `i` of an encoded user map splits into user id and currency list.
proof fn lemma_users_entry_parts(
    b: Seq<u8>,
    p0: int,
    cur: int,
    w: Seq<(u64, Seq<(u32, Account)>)>,
    i: int,
)
    requires
        crate::snapshot::users_valid(w),
        0 <= i < w.len(),
        is_prefix_at(b, p0, enc_items(w, f_user_entry())),
        cur == p0 + enc_items(w.take(i), f_user_entry()).len(),
    ensures
        cur + 8 <= b.len(),
        b.subrange(cur, cur + 8) == spec_u64_to_le_bytes(w[i].0),
        currencies_hyp(b, cur + 8, w[i].1),
        cur + 8 + enc_list(w[i].1, f_currency_entry()).len() == p0 + enc_items(
            w.take(i + 1),
            f_user_entry(),
        ).len(),
{
    lemma_auto_spec_u64_to_from_le_bytes();
    lemma_peel_entry(b, p0, cur, w, i, f_user_entry());
    assert(spec_u64_to_le_bytes(w[i].0).len() == 8);
    assert(enc_user_entry(w[i]) == spec_u64_to_le_bytes(w[i].0) + enc_list(
        w[i].1,
        f_currency_entry(),
    ));
    lemma_prefix_split(b, cur, spec_u64_to_le_bytes(w[i].0), enc_list(w[i].1, f_currency_entry()));
    assert(currencies_valid(w[i].1));
}

/// Parses a snapshot byte form back into the aggregate it encodes. Returns
/// nothing unless the whole input is exactly the byte form of one valid
/// aggregate; that aggregate is then returned.
pub fn decode_data(b: &Vec<u8>) -> (r: Option<Data>)
    ensures
        r matches Some(v) ==> v@.valid() && b@ == enc_data(v@),
        forall|w: DataV|
            w.valid() && b@ == enc_data(w) ==> (r matches Some(v) && v@ == w),
{
    let (orderbooks, p1) = match take_books(b, 0) {
        Some(t) => t,
        None => {
            proof {
                assert forall|w: DataV| w.valid() && b@ == enc_data(w) implies false by {
                    lemma_data_parts(b@, w);
                }
            }
            return None;
        },
    };
    let (accounts, p2) = match take_users(b, p1) {
        Some(t) => t,
        None => {
            proof {
                assert forall|w: DataV| w.valid() && b@ == enc_data(w) implies false by {
                    lemma_data_parts(b@, w);
                }
            }
            return None;
        },
    };
    if p2 != b.len() {
        proof {
            assert forall|w: DataV| w.valid() && b@ == enc_data(w) implies false by {
                lemma_data_parts(b@, w);
            }
        }
        return None;
    }
    let v = Data { orderbooks, accounts };
    proof {
        lemma_subrange_glue(b@, 0, p1 as int, p2 as int);
        assert(b@.subrange(0, b@.len() as int) =~= b@);
        assert(b@ == enc_data(v@));
        assert forall|w: DataV| w.valid() && b@ == enc_data(w) implies v@ == w by {
            lemma_data_parts(b@, w);
            assert(books_view(orderbooks@) == w.books);
            assert(users_view(accounts@) == w.accounts);
            assert(v@ =~= w);
        }
    }
    Some(v)
}

/// The two lists of an encoded aggregate sit one after the other.
proof fn lemma_data_parts(b: Seq<u8>, w: DataV)
    requires
        w.valid(),
        b == enc_data(w),
    ensures
        books_hyp(b, 0, w.books),
        users_hyp(b, enc_list(w.books, f_book_entry()).len() as int, w.accounts),
        b.len() == enc_list(w.books, f_book_entry()).len() + enc_list(
            w.accounts,
            f_user_entry(),
        ).len(),
{
    assert(is_prefix_at(b, 0, enc_list(w.books, f_book_entry()) + enc_list(
        w.accounts,
        f_user_entry(),
    ))) by {
        assert(b.subrange(0, b.len() as int) =~= b);
    }
    lemma_prefix_split(
        b,
        0,
        enc_list(w.books, f_book_entry()),
        enc_list(w.accounts, f_user_entry()),
    );
}

} // verus!
