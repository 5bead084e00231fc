//! The dispatcher: one book per symbol, and the events each command gives.
use vstd::prelude::*;

use crate::book::{bbo_of, records, snapshot_of, OrderBook};
use crate::market_data::{bbo_due, snapshot_due, BboUpdate, OrderBookSnapshot};
use crate::matching::{add_order_outcome, levels_total, side_of, BookView};
use crate::order::{Order, OrderStatus, Trade};

verus! {

/// How many levels per side a published snapshot holds.
pub const SNAPSHOT_DEPTH: usize = 5;

/// The final state of a submitted order, as published.
#[derive(Clone, Copy, Debug, PartialEq, Eq, Structural)]
pub struct OrderUpdate {
    pub id: u128,
    pub status: OrderStatus,
    /// Zero for a filled order, unset otherwise.
    pub remaining_quantity: Option<u64>,
}

/// The update published for a taker with final status `status`.
pub open spec fn update_for(id: u128, status: OrderStatus) -> OrderUpdate {
    OrderUpdate {
        id: id,
        status: status,
        remaining_quantity: if status == OrderStatus::Filled {
            Some(0)
        } else {
            None
        },
    }
}

/// What submitting one order gives to publish.
pub struct SubmitEvents {
    /// The new best bid and offer, where it changed.
    pub bbo: Option<BboUpdate>,
    /// The new depth snapshot, where it changed.
    pub snapshot: Option<OrderBookSnapshot>,
    /// The trades, in the order they happened.
    pub trades: Vec<Trade>,
    pub update: OrderUpdate,
}

/// Where the book for `symbol` stands among `books`: the first that is for it, or
/// `books.len()` where none is.
pub open spec fn position(books: Seq<OrderBook>, symbol: Seq<char>) -> nat
    decreases books.len(),
{
    if books.len() == 0 {
        0
    } else if books[0]@.symbol == symbol {
        0
    } else {
        1 + position(books.drop_first(), symbol)
    }
}

proof fn lemma_position(books: Seq<OrderBook>, symbol: Seq<char>)
    ensures
        position(books, symbol) <= books.len(),
        position(books, symbol) < books.len() ==> books[position(books, symbol) as int]@.symbol
            == symbol,
        forall|j: int| 0 <= j < position(books, symbol) ==> (#[trigger] books[j])@.symbol != symbol,
    decreases books.len(),
{
    if books.len() > 0 && books[0]@.symbol != symbol {
        lemma_position(books.drop_first(), symbol);
        assert forall|j: int| 0 <= j < position(books, symbol) implies (#[trigger] books[j])@.symbol
            != symbol by {
            if j > 0 {
                assert(books[j] == books.drop_first()[j - 1]);
            }
        }
    }
}

/// The book `symbol` has before a command: its own where it has one, else an empty one.
pub open spec fn book_before(books: Seq<OrderBook>, symbol: Seq<char>) -> BookView {
    let p = position(books, symbol);
    if p < books.len() {
        books[p as int]@
    } else {
        BookView { symbol: symbol, bids: Seq::empty(), asks: Seq::empty() }
    }
}

/// The best bid and offer last published for `symbol`.
pub open spec fn bbo_before(books: Seq<OrderBook>, symbol: Seq<char>) -> Option<BboUpdate> {
    let p = position(books, symbol);
    if p < books.len() {
        books[p as int].cached_bbo()
    } else {
        None
    }
}

/// The snapshot last published for `symbol`.
pub open spec fn snapshot_before(books: Seq<OrderBook>, symbol: Seq<char>) -> Option<OrderBookSnapshot> {
    let p = position(books, symbol);
    if p < books.len() {
        books[p as int].cached_snapshot()
    } else {
        None
    }
}

/// The books of all symbols seen since the last reset.
pub struct MatchingEngine {
    books: Vec<OrderBook>,
}

impl MatchingEngine {
    pub closed spec fn books(&self) -> Seq<OrderBook> {
        self.books@
    }

    pub open spec fn wf(&self) -> bool {
        forall|i: int| 0 <= i < self.books().len() ==> (#[trigger] self.books()[i]).wf()
    }

    /// Whether the book for the order's symbol can take the order in: its side's total
    /// quantity must stay within `u64`.
    pub open spec fn room_for(&self, order: Order) -> bool {
        levels_total(side_of(book_before(self.books(), order.symbol@), order.side)) + order.quantity
            <= u64::MAX
    }

    pub fn new() -> (r: MatchingEngine)
        ensures
            r.books().len() == 0,
            r.wf(),
    {
        MatchingEngine { books: Vec::new() }
    }

    fn find(&self, symbol: &String) -> (r: usize)
        ensures
            r == position(self.books(), symbol@),
    {
        let mut i: usize = 0;
        proof {
            lemma_position(self.books(), symbol@);
        }
        while i < self.books.len()
            invariant
                i <= self.books@.len(),
                position(self.books(), symbol@) <= self.books@.len(),
                position(self.books(), symbol@) < self.books@.len() ==> self.books@[position(
                    self.books(),
                    symbol@,
                ) as int]@.symbol == symbol@,
                forall|j: int| 0 <= j < position(self.books(), symbol@) ==> (#[trigger] self.books@[j])@.symbol != symbol@,
                i <= position(self.books(), symbol@),
            decreases self.books@.len() - i,
        {
            if self.books[i].is_for(symbol) {
                return i;
            }
            i = i + 1;
        }
        i
    }

    /// The book for `symbol`, where there is one.
    pub fn book(&self, symbol: &String) -> (r: Option<&OrderBook>)
        ensures
            position(self.books(), symbol@) < self.books().len() ==> r == Some(
                &self.books()[position(self.books(), symbol@) as int],
            ),
            position(self.books(), symbol@) == self.books().len() ==> r.is_none(),
    {
        proof {
            lemma_position(self.books(), symbol@);
        }
        let p = self.find(symbol);
        if p < self.books.len() {
            Some(&self.books[p])
        } else {
            None
        }
    }

    /// Whether `room_for(order)` holds.
    pub fn has_room(&self, order: &Order) -> (r: bool)
        requires
            self.wf(),
        ensures
            r == self.room_for(*order),
    {
        proof {
            lemma_position(self.books(), order.symbol@);
        }
        let p = self.find(&order.symbol);
        if p < self.books.len() {
            let q = self.books[p].side_quantity(order.side);
            q <= u64::MAX - order.quantity
        } else {
            proof {
                assert(levels_total(Seq::empty()) == 0);
            }
            true
        }
    }

    /// Submits `order` to the book for its symbol, made where there is none yet, and
    /// gives what is to be published: the best bid and offer and the depth snapshot where
    /// they changed, the trades in order, and the taker's update.
    pub fn submit_order(&mut self, order: Order) -> (r: SubmitEvents)
        requires
            old(self).wf(),
            order.price.wf(),
            old(self).room_for(order),
        ensures
            final(self).wf(),
            ({
                let books = old(self).books();
                let p = position(books, order.symbol@);
                let out = add_order_outcome(book_before(books, order.symbol@), order);
                &&& final(self).books().len() == (if p < books.len() {
                    books.len()
                } else {
                    books.len() + 1
                })
                &&& forall|j: int| 0 <= j < books.len() && j != p ==> final(self).books()[j] == books[j]
                &&& final(self).books()[p as int]@ == out.book
                &&& r.update == update_for(order.id, out.status)
                &&& r.trades@.len() == out.fills.len()
                &&& forall|i: int|
                    0 <= i < out.fills.len() ==> records(#[trigger] r.trades@[i], out.fills[i], order.id, order.symbol@)
                &&& r.bbo.is_some() == bbo_due(bbo_before(books, order.symbol@), bbo_of(out.book))
                &&& r.bbo.is_some() ==> r.bbo.unwrap()@ == bbo_of(out.book)
                &&& r.snapshot.is_some() == snapshot_due(
                    snapshot_before(books, order.symbol@),
                    snapshot_of(out.book, SNAPSHOT_DEPTH as nat),
                )
                &&& r.snapshot.is_some() ==> r.snapshot.unwrap()@ == snapshot_of(out.book, SNAPSHOT_DEPTH as nat)
            }),
    {
        proof {
            lemma_position(self.books(), order.symbol@);
        }
        let p = self.find(&order.symbol);
        if p == self.books.len() {
            let b = OrderBook::new(order.symbol.clone());
            self.books.push(b);
        }
        let id = order.id;
        let (status, trades) = self.books[p].add_order(order);
        let bbo = self.books[p].bbo_if_changed();
        let snapshot = self.books[p].snapshot_if_changed(SNAPSHOT_DEPTH);
        let remaining_quantity = match status {
            OrderStatus::Filled => Some(0u64),
            _ => None,
        };
        SubmitEvents { bbo, snapshot, trades, update: OrderUpdate { id, status, remaining_quantity } }
    }

    /// Clears the book for `symbol`, where there is one, and gives the cleared best bid and
    /// offer and the empty snapshot to publish.
    pub fn market_event(&mut self, symbol: &String) -> (r: Option<(BboUpdate, OrderBookSnapshot)>)
        requires
            old(self).wf(),
        ensures
            final(self).wf(),
            ({
                let books = old(self).books();
                let p = position(books, symbol@);
                &&& r.is_some() == (p < books.len())
                &&& final(self).books().len() == books.len()
                &&& forall|j: int| 0 <= j < books.len() && j != p ==> final(self).books()[j] == books[j]
                &&& p < books.len() ==> {
                    &&& final(self).books()[p as int]@ == (BookView {
                        symbol: symbol@,
                        bids: Seq::empty(),
                        asks: Seq::empty(),
                    })
                    &&& final(self).books()[p as int].cached_bbo().is_none()
                    &&& final(self).books()[p as int].cached_snapshot().is_none()
                    &&& r.unwrap().0@ == bbo_of(final(self).books()[p as int]@)
                    &&& r.unwrap().1@ == snapshot_of(final(self).books()[p as int]@, SNAPSHOT_DEPTH as nat)
                }
            }),
    {
        proof {
            lemma_position(self.books(), symbol@);
        }
        let p = self.find(symbol);
        if p == self.books.len() {
            return None;
        }
        self.books[p].clear_book();
        let bbo = BboUpdate::new(symbol.clone(), None, None, None, None);
        let snapshot = OrderBookSnapshot::new(symbol.clone(), Vec::new(), Vec::new());
        assert(snapshot@.bids =~= Seq::empty());
        assert(snapshot@.asks =~= Seq::empty());
        assert(snapshot@ == snapshot_of(self.books()[p as int]@, SNAPSHOT_DEPTH as nat)) by {
            assert(snapshot_of(self.books()[p as int]@, SNAPSHOT_DEPTH as nat).bids =~= Seq::empty());
            assert(snapshot_of(self.books()[p as int]@, SNAPSHOT_DEPTH as nat).asks =~= Seq::empty());
        }
        Some((bbo, snapshot))
    }

    /// Drops every book.
    pub fn reset(&mut self)
        ensures
            final(self).books().len() == 0,
            final(self).wf(),
    {
        self.books.clear();
    }
}

} // verus!
