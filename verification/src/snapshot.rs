use vstd::prelude::*;

use crate::decimal::Dec;
use crate::values::OrderValue;
use crate::{Amount, Currency, Fee, OrderId, Symbol, UserId, Vol};

verus! {

/// One user's balance in one currency: the tradable and the frozen part.
#[derive(Clone, Copy, Debug, PartialEq, Eq, Structural)]
pub struct Account {
    pub tradable: Amount,
    pub frozen: Amount,
}

impl Account {
    pub open spec fn valid(self) -> bool {
        self.tradable.valid() && self.frozen.valid()
    }

    pub fn new(tradable: Amount, frozen: Amount) -> (r: Account)
        ensures
            r == (Account { tradable, frozen }),
    {
        Account { tradable, frozen }
    }
}

/// The plain-value view of one resting order.
#[verifier::ext_equal]
pub ghost struct OrderValueV {
    pub owner: Seq<u8>,
    pub amount: Dec,
    pub price: Dec,
    pub ask_or_bid: u32,
}

impl OrderValueV {
    pub open spec fn valid(self) -> bool {
        self.owner.len() == 32 && self.amount.valid() && self.price.valid()
    }
}

impl View for OrderValue {
    type V = OrderValueV;

    open spec fn view(&self) -> OrderValueV {
        OrderValueV {
            owner: self.owner@,
            amount: self.amount,
            price: self.price,
            ask_or_bid: self.ask_or_bid,
        }
    }
}

/// One order book: its trading parameters and its resting orders, kept
/// sorted by order id so that a snapshot has exactly one byte form.
#[derive(Clone, Debug, PartialEq, Eq)]
pub struct OrderBook {
    pub base_scale: u32,
    pub quote_scale: u32,
    pub taker_fee: Fee,
    pub maker_fee: Fee,
    pub min_amount: Amount,
    pub min_vol: Vol,
    pub enable_market_order: bool,
    pub orders: Vec<(OrderId, OrderValue)>,
}

/// The plain-value view of one order book.
#[verifier::ext_equal]
pub ghost struct OrderBookV {
    pub base_scale: u32,
    pub quote_scale: u32,
    pub taker_fee: Dec,
    pub maker_fee: Dec,
    pub min_amount: Dec,
    pub min_vol: Dec,
    pub enable_market_order: bool,
    pub orders: Seq<(u64, OrderValueV)>,
}

/// An order list is canonical: bounded length, well-formed entries, ids
/// strictly ascending.
pub open spec fn orders_valid(s: Seq<(u64, OrderValueV)>) -> bool {
    &&& s.len() < 0x1_0000_0000_0000_0000
    &&& forall|i: int| 0 <= i < s.len() ==> (#[trigger] s[i]).1.valid()
    &&& forall|i: int| 0 <= i < s.len() - 1 ==> (#[trigger] s[i]).0 < s[i + 1].0
}

impl OrderBookV {
    pub open spec fn valid(self) -> bool {
        &&& self.taker_fee.valid()
        &&& self.maker_fee.valid()
        &&& self.min_amount.valid()
        &&& self.min_vol.valid()
        &&& orders_valid(self.orders)
    }
}

impl View for OrderBook {
    type V = OrderBookV;

    open spec fn view(&self) -> OrderBookV {
        OrderBookV {
            base_scale: self.base_scale,
            quote_scale: self.quote_scale,
            taker_fee: self.taker_fee,
            maker_fee: self.maker_fee,
            min_amount: self.min_amount,
            min_vol: self.min_vol,
            enable_market_order: self.enable_market_order,
            orders: orders_view(self.orders@),
        }
    }
}

impl OrderBook {
    pub fn new(
        base_scale: u32,
        quote_scale: u32,
        taker_fee: Fee,
        maker_fee: Fee,
        min_amount: Amount,
        min_vol: Vol,
        enable_market_order: bool,
    ) -> (r: OrderBook)
        ensures
            r@.base_scale == base_scale,
            r@.quote_scale == quote_scale,
            r@.taker_fee == taker_fee,
            r@.maker_fee == maker_fee,
            r@.min_amount == min_amount,
            r@.min_vol == min_vol,
            r@.enable_market_order == enable_market_order,
            r@.orders == Seq::<(u64, OrderValueV)>::empty(),
            taker_fee.valid() && maker_fee.valid() && min_amount.valid() && min_vol.valid()
                ==> r@.valid(),
    {
        let r = OrderBook {
            base_scale,
            quote_scale,
            taker_fee,
            maker_fee,
            min_amount,
            min_vol,
            enable_market_order,
            orders: Vec::new(),
        };
        proof {
            assert(r@.orders =~= Seq::<(u64, OrderValueV)>::empty());
        }
        r
    }

    /// Inserts one resting order at its id. The id must be new and larger
    /// than every id already in the book; the book stays sorted.
    pub fn push_order(&mut self, id: OrderId, order: OrderValue) -> (r: bool)
        ensures
            r ==> final(self)@.orders == old(self)@.orders.push((id, order@)),
            !r ==> *final(self) == *old(self),
            r == (old(self)@.orders.len() == 0 || old(self)@.orders.last().0 < id),
    {
        let n = self.orders.len();
        if n == 0 || self.orders[n - 1].0 < id {
            self.orders.push((id, order));
            proof {
                assert(self@.orders =~= old(self)@.orders.push((id, order@)));
            }
            true
        } else {
            false
        }
    }
}

/// Symbols ordered lexicographically: by base currency, then quote currency.
pub open spec fn sym_lt(a: (u32, u32), b: (u32, u32)) -> bool {
    a.0 < b.0 || (a.0 == b.0 && a.1 < b.1)
}

/// The plain-value view of the full aggregate.
#[verifier::ext_equal]
pub ghost struct DataV {
    pub books: Seq<((u32, u32), OrderBookV)>,
    pub accounts: Seq<(u64, Seq<(u32, Account)>)>,
}

/// A currency list is canonical: bounded length, bounded decimals, currency
/// ids strictly ascending.
pub open spec fn currencies_valid(s: Seq<(u32, Account)>) -> bool {
    &&& s.len() < 0x1_0000_0000_0000_0000
    &&& forall|i: int| 0 <= i < s.len() ==> (#[trigger] s[i]).1.valid()
    &&& forall|i: int| 0 <= i < s.len() - 1 ==> (#[trigger] s[i]).0 < s[i + 1].0
}

/// The book list is canonical: bounded length, well-formed books, symbols
/// strictly ascending.
pub open spec fn books_valid(s: Seq<((u32, u32), OrderBookV)>) -> bool {
    &&& s.len() < 0x1_0000_0000_0000_0000
    &&& forall|i: int| 0 <= i < s.len() ==> (#[trigger] s[i]).1.valid()
    &&& forall|i: int| 0 <= i < s.len() - 1 ==> sym_lt((#[trigger] s[i]).0, s[i + 1].0)
}

/// The account map is canonical: bounded length, canonical currency lists,
/// user ids strictly ascending.
pub open spec fn users_valid(s: Seq<(u64, Seq<(u32, Account)>)>) -> bool {
    &&& s.len() < 0x1_0000_0000_0000_0000
    &&& forall|i: int| 0 <= i < s.len() ==> currencies_valid((#[trigger] s[i]).1)
    &&& forall|i: int| 0 <= i < s.len() - 1 ==> (#[trigger] s[i]).0 < s[i + 1].0
}

impl DataV {
    /// The whole aggregate is canonical: order books sorted by symbol, user
    /// entries sorted by user id, and every nested entry well formed.
    pub open spec fn valid(self) -> bool {
        books_valid(self.books) && users_valid(self.accounts)
    }
}

/// The in-memory aggregate the engine commits and snapshots: every order
/// book keyed by symbol, and every account keyed by user then currency.
/// Both maps are kept sorted by key, so equal aggregates have equal
/// representations and one snapshot byte form.
#[derive(Clone, Debug, PartialEq, Eq)]
pub struct Data {
    pub orderbooks: Vec<(Symbol, OrderBook)>,
    pub accounts: Vec<(UserId, Vec<(Currency, Account)>)>,
}

/// The plain-value view of a book vector.
pub open spec fn books_view(s: Seq<((u32, u32), OrderBook)>) -> Seq<((u32, u32), OrderBookV)> {
    Seq::new(s.len(), |i: int| (s[i].0, s[i].1@))
}

/// The plain-value view of a user vector.
pub open spec fn users_view(s: Seq<(u64, Vec<(u32, Account)>)>) -> Seq<
    (u64, Seq<(u32, Account)>),
> {
    Seq::new(s.len(), |i: int| (s[i].0, s[i].1@))
}

/// The plain-value view of an order vector.
pub open spec fn orders_view(s: Seq<(u64, OrderValue)>) -> Seq<(u64, OrderValueV)> {
    Seq::new(s.len(), |i: int| (s[i].0, s[i].1@))
}

impl View for Data {
    type V = DataV;

    open spec fn view(&self) -> DataV {
        DataV { books: books_view(self.orderbooks@), accounts: users_view(self.accounts@) }
    }
}

impl OrderBook {
    /// Tests whether this book is canonical: bounded decimals and an
    /// id-sorted order list.
    pub fn check_valid(&self) -> (r: bool)
        ensures
            r == self@.valid(),
    {
        if !(self.taker_fee.check_valid() && self.maker_fee.check_valid()
            && self.min_amount.check_valid() && self.min_vol.check_valid()) {
            return false;
        }
        let n = self.orders.len();
        let mut i: usize = 0;
        while i < n
            invariant
                i <= n,
                n == self.orders.len(),
                forall|k: int| 0 <= k < i ==> (#[trigger] self@.orders[k]).1.valid(),
                forall|k: int| 0 <= k < i && k < n - 1 ==> (#[trigger] self@.orders[k]).0
                    < self@.orders[k + 1].0,
            decreases n - i,
        {
            if !(self.orders[i].1.amount.check_valid() && self.orders[i].1.price.check_valid()) {
                proof {
                    assert(!self@.orders[i as int].1.valid());
                }
                return false;
            }
            if i + 1 < n && self.orders[i].0 >= self.orders[i + 1].0 {
                proof {
                    assert(!(self@.orders[i as int].0 < self@.orders[i as int + 1].0));
                }
                return false;
            }
            i = i + 1;
        }
        proof {
            assert(orders_valid(self@.orders));
        }
        true
    }
}

/// Tests whether a currency list is canonical.
fn check_currencies(s: &Vec<(Currency, Account)>) -> (r: bool)
    ensures
        r == currencies_valid(s@),
{
    let n = s.len();
    let mut i: usize = 0;
    while i < n
        invariant
            i <= n,
            n == s@.len(),
            forall|k: int| 0 <= k < i ==> (#[trigger] s@[k]).1.valid(),
            forall|k: int| 0 <= k < i && k < n - 1 ==> (#[trigger] s@[k]).0 < s@[k + 1].0,
        decreases n - i,
    {
        if !(s[i].1.tradable.check_valid() && s[i].1.frozen.check_valid()) {
            proof {
                assert(!s@[i as int].1.valid());
            }
            return false;
        }
        if i + 1 < n && s[i].0 >= s[i + 1].0 {
            proof {
                assert(!(s@[i as int].0 < s@[i as int + 1].0));
            }
            return false;
        }
        i = i + 1;
    }
    true
}

impl Data {
    /// Tests whether the whole aggregate is canonical: this is exactly the
    /// condition under which `into_raw` may be called.
    pub fn check_valid(&self) -> (r: bool)
        ensures
            r == self@.valid(),
    {
        let n = self.orderbooks.len();
        let mut i: usize = 0;
        while i < n
            invariant
                i <= n,
                n == self.orderbooks.len(),
                forall|k: int| 0 <= k < i ==> (#[trigger] self@.books[k]).1.valid(),
                forall|k: int| 0 <= k < i && k < n - 1 ==> sym_lt(
                    (#[trigger] self@.books[k]).0,
                    self@.books[k + 1].0,
                ),
            decreases n - i,
        {
            if !self.orderbooks[i].1.check_valid() {
                proof {
                    assert(!self@.books[i as int].1.valid());
                }
                return false;
            }
            if i + 1 < n {
                let a = self.orderbooks[i].0;
                let b = self.orderbooks[i + 1].0;
                if !(a.0 < b.0 || (a.0 == b.0 && a.1 < b.1)) {
                    proof {
                        assert(!sym_lt(self@.books[i as int].0, self@.books[i as int + 1].0));
                    }
                    return false;
                }
            }
            i = i + 1;
        }
        let m = self.accounts.len();
        let mut j: usize = 0;
        while j < m
            invariant
                j <= m,
                m == self.accounts.len(),
                books_valid(self@.books),
                forall|k: int| 0 <= k < j ==> currencies_valid((#[trigger] self@.accounts[k]).1),
                forall|k: int| 0 <= k < j && k < m - 1 ==> (#[trigger] self@.accounts[k]).0
                    < self@.accounts[k + 1].0,
            decreases m - j,
        {
            if !check_currencies(&self.accounts[j].1) {
                proof {
                    assert(!currencies_valid(self@.accounts[j as int].1));
                }
                return false;
            }
            if j + 1 < m && self.accounts[j].0 >= self.accounts[j + 1].0 {
                proof {
                    assert(!(self@.accounts[j as int].0 < self@.accounts[j as int + 1].0));
                }
                return false;
            }
            j = j + 1;
        }
        proof {
            assert(users_valid(self@.accounts));
        }
        true
    }

    /// Adds one order book under its symbol. The symbol must be larger than
    /// every symbol already present; the book list stays sorted.
    pub fn push_orderbook(&mut self, symbol: Symbol, book: OrderBook) -> (r: bool)
        ensures
            r ==> final(self)@.books == old(self)@.books.push((symbol, book@)),
            r ==> final(self)@.accounts == old(self)@.accounts,
            !r ==> *final(self) == *old(self),
            r == (old(self)@.books.len() == 0 || sym_lt(old(self)@.books.last().0, symbol)),
    {
        let n = self.orderbooks.len();
        let fits = if n == 0 {
            true
        } else {
            let last = self.orderbooks[n - 1].0;
            last.0 < symbol.0 || (last.0 == symbol.0 && last.1 < symbol.1)
        };
        if fits {
            self.orderbooks.push((symbol, book));
            proof {
                assert(self@.books =~= old(self)@.books.push((symbol, self.orderbooks@.last().1@)));
                assert(self@.accounts =~= old(self)@.accounts);
            }
            true
        } else {
            false
        }
    }

    /// Adds one user's currency list under the user id. The id must be larger
    /// than every id already present; the account map stays sorted.
    pub fn push_user(&mut self, user: UserId, currencies: Vec<(Currency, Account)>) -> (r: bool)
        ensures
            r ==> final(self)@.accounts == old(self)@.accounts.push((user, currencies@)),
            r ==> final(self)@.books == old(self)@.books,
            !r ==> *final(self) == *old(self),
            r == (old(self)@.accounts.len() == 0 || old(self)@.accounts.last().0 < user),
    {
        let n = self.accounts.len();
        if n == 0 || self.accounts[n - 1].0 < user {
            self.accounts.push((user, currencies));
            proof {
                assert(self@.accounts =~= old(self)@.accounts.push(
                    (user, self.accounts@.last().1@),
                ));
                assert(self@.books =~= old(self)@.books);
            }
            true
        } else {
            false
        }
    }

    /// The empty aggregate: no order books, no accounts.
    pub fn new() -> (r: Data)
        ensures
            r@.books == Seq::<((u32, u32), OrderBookV)>::empty(),
            r@.accounts == Seq::<(u64, Seq<(u32, Account)>)>::empty(),
            r@.valid(),
    {
        let r = Data { orderbooks: Vec::new(), accounts: Vec::new() };
        proof {
            assert(r@.books =~= Seq::<((u32, u32), OrderBookV)>::empty());
            assert(r@.accounts =~= Seq::<(u64, Seq<(u32, Account)>)>::empty());
        }
        r
    }
}

} // verus!
