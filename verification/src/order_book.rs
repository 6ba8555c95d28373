//! The per-resource matching engine.
//!
//! An incoming buy is matched against the resting sells in the order they
//! were placed (and an incoming sell against the resting buys).  Two orders
//! match when their price signals agree or either is `Zero`.  Each match
//! trades the smaller of the two open quantities; a resting order that is
//! only partly filled keeps its place with the rest of its quantity, and
//! what is left of the incoming order rests on its own side of the book.

use vstd::prelude::*;

use crate::order::{Order, OrderSide, OrderView, Trade, TradeView, orders_view, trades_view, with_quantity};
use crate::book_laws::{book_wf, lemma_submit_preserves_wf};
use crate::ternary::Ternary;

verus! {

/// Whether orders with these two price signals may trade with each other.
pub open spec fn compatible(a: Ternary, b: Ternary) -> bool {
    a == b || a == Ternary::Zero || b == Ternary::Zero
}

/// What an order book holds.
pub struct BookView {
    pub resource: Seq<char>,
    pub buys: Seq<OrderView>,
    pub sells: Seq<OrderView>,
    pub next_id: u64,
    pub trades: Seq<TradeView>,
}

/// The progress of matching one incoming order against resting orders:
/// the resting orders kept so far, the trades made so far, and the
/// quantity of the incoming order still open.
pub struct MatchState {
    pub kept: Seq<OrderView>,
    pub fills: Seq<TradeView>,
    pub remaining: nat,
}

/// The trade of `quantity` units between `incoming` and `resting`.
pub open spec fn fill_of(incoming: OrderView, resting: OrderView, quantity: nat) -> TradeView {
    TradeView {
        buy_order_id: if incoming.side == OrderSide::Buy {
            incoming.id
        } else {
            resting.id
        },
        sell_order_id: if incoming.side == OrderSide::Buy {
            resting.id
        } else {
            incoming.id
        },
        resource: incoming.resource,
        quantity: quantity as u32,
        price_signal: incoming.price_signal,
    }
}

/// The smaller of the open quantity and the resting order's quantity.
pub open spec fn fill_quantity(remaining: nat, resting: OrderView) -> nat {
    if remaining < resting.quantity {
        remaining
    } else {
        resting.quantity as nat
    }
}

/// One resting order meets the incoming order.
pub open spec fn match_step(st: MatchState, resting: OrderView, incoming: OrderView) -> MatchState {
    if st.remaining > 0 && compatible(resting.price_signal, incoming.price_signal) {
        let m = fill_quantity(st.remaining, resting);
        MatchState {
            kept: if m < resting.quantity {
                st.kept.push(with_quantity(resting, (resting.quantity - m) as u32))
            } else {
                st.kept
            },
            fills: st.fills.push(fill_of(incoming, resting, m)),
            remaining: (st.remaining - m) as nat,
        }
    } else {
        MatchState { kept: st.kept.push(resting), fills: st.fills, remaining: st.remaining }
    }
}

/// The state after the first `n` resting orders have met the incoming order.
pub open spec fn match_prefix(resting: Seq<OrderView>, n: nat, incoming: OrderView) -> MatchState
    decreases n,
{
    if n == 0 {
        MatchState { kept: seq![], fills: seq![], remaining: incoming.quantity as nat }
    } else {
        match_step(match_prefix(resting, (n - 1) as nat, incoming), resting[n - 1], incoming)
    }
}

/// The outcome of matching `incoming` against all of `resting`, in order.
pub open spec fn match_incoming(resting: Seq<OrderView>, incoming: OrderView) -> MatchState {
    match_prefix(resting, resting.len(), incoming)
}

/// The order that a submission to `book` creates.
pub open spec fn incoming_order(
    book: BookView,
    side: OrderSide,
    quantity: u32,
    signal: Ternary,
    trader: Seq<char>,
) -> OrderView {
    OrderView {
        id: book.next_id,
        side: side,
        resource: book.resource,
        quantity: quantity,
        price_signal: signal,
        trader: trader,
    }
}

/// The book after an order is submitted to it.
pub open spec fn spec_submit(
    book: BookView,
    side: OrderSide,
    quantity: u32,
    signal: Ternary,
    trader: Seq<char>,
) -> BookView {
    let incoming = incoming_order(book, side, quantity, signal, trader);
    let next = (book.next_id + 1) as u64;
    if side == OrderSide::Buy {
        let st = match_incoming(book.sells, incoming);
        BookView {
            resource: book.resource,
            buys: if st.remaining > 0 {
                book.buys.push(with_quantity(incoming, st.remaining as u32))
            } else {
                book.buys
            },
            sells: st.kept,
            next_id: next,
            trades: book.trades + st.fills,
        }
    } else if side == OrderSide::Sell {
        let st = match_incoming(book.buys, incoming);
        BookView {
            resource: book.resource,
            buys: st.kept,
            sells: if st.remaining > 0 {
                book.sells.push(with_quantity(incoming, st.remaining as u32))
            } else {
                book.sells
            },
            next_id: next,
            trades: book.trades + st.fills,
        }
    } else {
        BookView {
            resource: book.resource,
            buys: book.buys,
            sells: book.sells,
            next_id: next,
            trades: book.trades,
        }
    }
}

/// A book for `resource` that holds no orders and no trades.
pub open spec fn empty_book(resource: Seq<char>) -> BookView {
    BookView { resource: resource, buys: seq![], sells: seq![], next_id: 1, trades: seq![] }
}

/// Order book matching engine.
#[derive(Debug)]
pub struct OrderBook {
    resource: String,
    buys: Vec<Order>,
    sells: Vec<Order>,
    next_order_id: u64,
    trades: Vec<Trade>,
}

impl View for OrderBook {
    type V = BookView;

    closed spec fn view(&self) -> BookView {
        BookView {
            resource: self.resource@,
            buys: orders_view(self.buys@),
            sells: orders_view(self.sells@),
            next_id: self.next_order_id,
            trades: trades_view(self.trades@),
        }
    }
}

/// Matches `incoming` against `resting` in order, appending the trades made
/// to `trades`; returns the resting orders that remain and the open quantity.
fn match_resting(resting: &Vec<Order>, incoming: &Order, trades: &mut Vec<Trade>) -> (res: (
    Vec<Order>,
    u32,
))
    ensures
        orders_view(res.0@) == match_incoming(orders_view(resting@), incoming@).kept,
        trades_view(final(trades)@) == trades_view(old(trades)@) + match_incoming(
            orders_view(resting@),
            incoming@,
        ).fills,
        res.1 == match_incoming(orders_view(resting@), incoming@).remaining,
{
    let ghost rv = orders_view(resting@);
    let ghost base = trades_view(trades@);
    let mut kept: Vec<Order> = Vec::new();
    let mut remaining: u32 = incoming.quantity;
    let mut i: usize = 0;
    assert(orders_view(kept@) =~= seq![]);
    assert(base + seq![] =~= base);
    while i < resting.len()
        invariant
            i <= resting.len(),
            rv == orders_view(resting@),
            orders_view(kept@) == match_prefix(rv, i as nat, incoming@).kept,
            trades_view(trades@) == base + match_prefix(rv, i as nat, incoming@).fills,
            remaining == match_prefix(rv, i as nat, incoming@).remaining,
        decreases resting.len() - i,
    {
        let ghost st = match_prefix(rv, i as nat, incoming@);
        let o = &resting[i];
        assert(rv[i as int] == o@);
        if remaining > 0 && (o.price_signal == incoming.price_signal || o.price_signal
            == Ternary::Zero || incoming.price_signal == Ternary::Zero) {
            let m: u32 = if remaining < o.quantity {
                remaining
            } else {
                o.quantity
            };
            let (buy_id, sell_id) = if incoming.side == OrderSide::Buy {
                (incoming.id, o.id)
            } else {
                (o.id, incoming.id)
            };
            let t = Trade {
                buy_order_id: buy_id,
                sell_order_id: sell_id,
                resource: incoming.resource.clone(),
                quantity: m,
                price_signal: incoming.price_signal,
            };
            assert(t@ == fill_of(incoming@, o@, m as nat));
            let ghost before = trades@;
            trades.push(t);
            assert(trades_view(trades@) =~= trades_view(before).push(t@));
            assert(trades_view(trades@) =~= base + st.fills.push(fill_of(incoming@, o@, m as nat)));
            remaining = remaining - m;
            if m < o.quantity {
                let mut c = o.clone();
                c.quantity = o.quantity - m;
                assert(c@ == with_quantity(o@, (o.quantity - m) as u32));
                kept.push(c);
                assert(orders_view(kept@) =~= st.kept.push(
                    with_quantity(o@, (o.quantity - m) as u32),
                ));
            }
        } else {
            let c = o.clone();
            kept.push(c);
            assert(orders_view(kept@) =~= st.kept.push(o@));
        }
        i = i + 1;
    }
    (kept, remaining)
}

impl OrderBook {
    pub fn new(resource: &str) -> (book: Self)
        ensures
            book@ == empty_book(resource@),
            book_wf(book@),
    {
        let book = OrderBook {
            resource: resource.to_owned(),
            buys: Vec::new(),
            sells: Vec::new(),
            next_order_id: 1,
            trades: Vec::new(),
        };
        assert(book@.buys =~= seq![]);
        assert(book@.sells =~= seq![]);
        assert(book@.trades =~= seq![]);
        book
    }

    /// Submit an order. Returns the order ID. Matches immediately if possible.
    pub fn submit(&mut self, side: OrderSide, quantity: u32, price_signal: Ternary, trader: &str) -> (id: u64)
        requires
            old(self)@.next_id < u64::MAX,
        ensures
            id == old(self)@.next_id,
            final(self)@ == spec_submit(old(self)@, side, quantity, price_signal, trader@),
            book_wf(old(self)@) ==> book_wf(final(self)@),
    {
        proof {
            if book_wf(self@) {
                lemma_submit_preserves_wf(self@, side, quantity, price_signal, trader@);
            }
        }
        let id = self.next_order_id;
        self.next_order_id = id + 1;
        let order = Order::new(id, side, self.resource.as_str(), quantity, price_signal, trader);
        if side == OrderSide::Buy {
            let (kept, remaining) = match_resting(&self.sells, &order, &mut self.trades);
            self.sells = kept;
            if remaining > 0 {
                let mut leftover = order;
                leftover.quantity = remaining;
                self.buys.push(leftover);
                proof {
                    assert(orders_view(self.buys@) =~= orders_view(old(self).buys@).push(leftover@));
                }
            }
        } else if side == OrderSide::Sell {
            let (kept, remaining) = match_resting(&self.buys, &order, &mut self.trades);
            self.buys = kept;
            if remaining > 0 {
                let mut leftover = order;
                leftover.quantity = remaining;
                self.sells.push(leftover);
                proof {
                    assert(orders_view(self.sells@) =~= orders_view(old(self).sells@).push(leftover@));
                }
            }
        }
        id
    }
}


impl OrderBook {
    pub fn open_buys(&self) -> (r: &[Order])
        ensures
            orders_view(r@) == self@.buys,
    {
        self.buys.as_slice()
    }

    pub fn open_sells(&self) -> (r: &[Order])
        ensures
            orders_view(r@) == self@.sells,
    {
        self.sells.as_slice()
    }

    pub fn trades(&self) -> (r: &[Trade])
        ensures
            trades_view(r@) == self@.trades,
    {
        self.trades.as_slice()
    }

    pub fn trade_count(&self) -> (r: usize)
        ensures
            r == self@.trades.len(),
    {
        self.trades.len()
    }

    pub fn resource(&self) -> (r: &str)
        ensures
            r@ == self@.resource,
    {
        self.resource.as_str()
    }
}

impl Clone for OrderBook {
    fn clone(&self) -> (r: Self)
        ensures
            r@ == self@,
    {
        let r = OrderBook {
            resource: self.resource.clone(),
            buys: self.buys.clone(),
            sells: self.sells.clone(),
            next_order_id: self.next_order_id,
            trades: self.trades.clone(),
        };
        assert(orders_view(r.buys@) =~= orders_view(self.buys@));
        assert(orders_view(r.sells@) =~= orders_view(self.sells@));
        assert(trades_view(r.trades@) =~= trades_view(self.trades@));
        r
    }
}

} // verus!
