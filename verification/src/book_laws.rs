//! What matching keeps: quantities are conserved, no resting buy can trade
//! with a resting sell, and the book's well-formedness survives every
//! submission.

use vstd::prelude::*;

use crate::order::{OrderSide, OrderView, TradeView, with_quantity};
use crate::order_book::{
    BookView,
    compatible,
    fill_of,
    fill_quantity,
    incoming_order,
    match_incoming,
    match_prefix,
    match_step,
    MatchState,
    spec_submit,
};
use crate::ternary::Ternary;

verus! {

/// The total quantity of a sequence of orders.
pub open spec fn order_total(s: Seq<OrderView>) -> nat
    decreases s.len(),
{
    if s.len() == 0 {
        0
    } else {
        order_total(s.drop_last()) + s.last().quantity as nat
    }
}

/// The total quantity of a sequence of trades.
pub open spec fn fill_total(s: Seq<TradeView>) -> nat
    decreases s.len(),
{
    if s.len() == 0 {
        0
    } else {
        fill_total(s.drop_last()) + s.last().quantity as nat
    }
}

/// `a` is what is left of resting order `b`: the same order, with at most
/// its quantity, and a positive quantity wherever `b` had one.
pub open spec fn remnant_of(a: OrderView, b: OrderView) -> bool {
    &&& a == with_quantity(b, a.quantity)
    &&& a.quantity <= b.quantity
    &&& b.quantity > 0 ==> a.quantity > 0
}

/// An order resting on one side of a book.
pub open spec fn resting_ok(o: OrderView, next_id: u64, resource: Seq<char>, side: OrderSide) -> bool {
    &&& o.side == side
    &&& o.quantity > 0
    &&& 0 < o.id < next_id
    &&& o.resource == resource
}

/// No two open orders of the book, on either side, share an id.
pub open spec fn open_ids_distinct(book: BookView) -> bool {
    &&& ids_distinct(book.buys)
    &&& ids_distinct(book.sells)
    &&& forall|i: int, j: int|
        0 <= i < book.buys.len() && 0 <= j < book.sells.len() ==> #[trigger] book.buys[i].id
            != #[trigger] book.sells[j].id
}

/// The invariant of an order book: each resting order sits on its own side
/// with a positive quantity and an id already handed out, no two open orders
/// share an id, every trade is for a positive quantity of the book's
/// resource, and no resting buy could trade with a resting sell.
pub open spec fn book_wf(book: BookView) -> bool {
    &&& book.next_id > 0
    &&& open_ids_distinct(book)
    &&& forall|i: int|
        0 <= i < book.buys.len() ==> #[trigger] resting_ok(book.buys[i], book.next_id, book.resource, OrderSide::Buy)
    &&& forall|i: int|
        0 <= i < book.sells.len() ==> #[trigger] resting_ok(book.sells[i], book.next_id, book.resource, OrderSide::Sell)
    &&& forall|k: int|
        0 <= k < book.trades.len() ==> #[trigger] book.trades[k].quantity > 0
            && book.trades[k].resource == book.resource
    &&& forall|i: int, j: int|
        0 <= i < book.buys.len() && 0 <= j < book.sells.len() ==> !compatible(
            #[trigger] book.buys[i].price_signal,
            #[trigger] book.sells[j].price_signal,
        )
}

proof fn lemma_order_total_push(s: Seq<OrderView>, o: OrderView)
    ensures
        order_total(s.push(o)) == order_total(s) + o.quantity,
{
    assert(s.push(o).drop_last() =~= s);
}

proof fn lemma_fill_total_push(s: Seq<TradeView>, t: TradeView)
    ensures
        fill_total(s.push(t)) == fill_total(s) + t.quantity,
{
    assert(s.push(t).drop_last() =~= s);
}

proof fn lemma_fill_total_append(a: Seq<TradeView>, b: Seq<TradeView>)
    ensures
        fill_total(a + b) == fill_total(a) + fill_total(b),
    decreases b.len(),
{
    if b.len() == 0 {
        assert(a + b =~= a);
    } else {
        lemma_fill_total_append(a, b.drop_last());
        assert((a + b).drop_last() =~= a + b.drop_last());
    }
}

/// A trade made for `incoming`: of its resource, at its signal, naming it.
pub open spec fn fill_names(f: TradeView, incoming: OrderView) -> bool {
    &&& f.resource == incoming.resource
    &&& f.price_signal == incoming.price_signal
    &&& incoming.side == OrderSide::Buy ==> f.buy_order_id == incoming.id
    &&& incoming.side != OrderSide::Buy ==> f.sell_order_id == incoming.id
}

/// `o` is what is left of one of the first `n` orders of `resting`.
pub open spec fn has_origin(o: OrderView, resting: Seq<OrderView>, n: int) -> bool {
    exists|j: int| 0 <= j < n && #[trigger] remnant_of(o, resting[j])
}

/// The first `n` resting orders all have a positive quantity.
pub open spec fn positive_prefix(resting: Seq<OrderView>, n: int) -> bool {
    forall|j: int| 0 <= j < n ==> #[trigger] resting[j].quantity > 0
}

/// Facts about matching the first `n` resting orders against `incoming`.
proof fn lemma_match_prefix(resting: Seq<OrderView>, n: nat, incoming: OrderView)
    requires
        n <= resting.len(),
    ensures
        ({
            let st = match_prefix(resting, n, incoming);
            &&& st.remaining <= incoming.quantity
            &&& order_total(st.kept) + fill_total(st.fills) == order_total(resting.take(n as int))
            &&& fill_total(st.fills) + st.remaining == incoming.quantity
            &&& forall|k: int|
                0 <= k < st.kept.len() ==> #[trigger] has_origin(st.kept[k], resting, n as int)
            &&& st.remaining > 0 ==> forall|k: int|
                0 <= k < st.kept.len() ==> !compatible(
                    #[trigger] st.kept[k].price_signal,
                    incoming.price_signal,
                )
            &&& forall|k: int|
                0 <= k < st.fills.len() ==> #[trigger] fill_names(st.fills[k], incoming)
            &&& positive_prefix(resting, n as int) ==> forall|k: int|
                0 <= k < st.fills.len() ==> #[trigger] st.fills[k].quantity > 0
        }),
    decreases n,
{
    if n == 0 {
        assert(resting.take(0) =~= seq![]);
    } else {
        let prev = match_prefix(resting, (n - 1) as nat, incoming);
        let o = resting[n - 1];
        let st = match_prefix(resting, n, incoming);
        lemma_match_prefix(resting, (n - 1) as nat, incoming);
        assert(st == match_step(prev, o, incoming));
        assert(resting.take(n as int) =~= resting.take(n - 1).push(o));
        lemma_order_total_push(resting.take(n - 1), o);
        if positive_prefix(resting, n as int) {
            assert(positive_prefix(resting, n - 1));
        }
        if prev.remaining > 0 && compatible(o.price_signal, incoming.price_signal) {
            let m = fill_quantity(prev.remaining, o);
            let f = fill_of(incoming, o, m);
            lemma_fill_total_push(prev.fills, f);
            assert(f.quantity == m);
            assert(fill_names(f, incoming));
            if m < o.quantity {
                let r = with_quantity(o, (o.quantity - m) as u32);
                lemma_order_total_push(prev.kept, r);
                assert(remnant_of(r, resting[n - 1]));
                assert forall|k: int| 0 <= k < st.kept.len() implies #[trigger] has_origin(st.kept[k], resting, n as int) by {
                    if k < prev.kept.len() {
                        assert(st.kept[k] == prev.kept[k]);
                        assert(has_origin(prev.kept[k], resting, n - 1));
                    } else {
                        assert(st.kept[k] == r);
                    }
                }
            } else {
                assert forall|k: int| 0 <= k < st.kept.len() implies #[trigger] has_origin(st.kept[k], resting, n as int) by {
                    assert(st.kept[k] == prev.kept[k]);
                    assert(has_origin(prev.kept[k], resting, n - 1));
                }
            }
            assert forall|k: int| 0 <= k < st.fills.len() implies #[trigger] fill_names(
                st.fills[k],
                incoming,
            ) by {
                if k < prev.fills.len() {
                    assert(st.fills[k] == prev.fills[k]);
                }
            }
            if st.remaining > 0 {
                assert(st.kept == prev.kept);
            }
            if positive_prefix(resting, n as int) {
                assert(o.quantity > 0);
                assert forall|k: int| 0 <= k < st.fills.len() implies #[trigger] st.fills[k].quantity
                    > 0 by {
                    if k < prev.fills.len() {
                        assert(st.fills[k] == prev.fills[k]);
                    }
                }
            }
        } else {
            lemma_order_total_push(prev.kept, o);
            assert(remnant_of(o, resting[n - 1]));
            assert forall|k: int| 0 <= k < st.kept.len() implies #[trigger] has_origin(st.kept[k], resting, n as int) by {
                if k < prev.kept.len() {
                    assert(st.kept[k] == prev.kept[k]);
                    assert(has_origin(prev.kept[k], resting, n - 1));
                } else {
                    assert(st.kept[k] == o);
                }
            }
            if st.remaining > 0 {
                assert forall|k: int| 0 <= k < st.kept.len() implies !compatible(
                    #[trigger] st.kept[k].price_signal,
                    incoming.price_signal,
                ) by {
                    if k < prev.kept.len() {
                        assert(st.kept[k] == prev.kept[k]);
                    }
                }
            }
            assert(st.fills == prev.fills);
        }
    }
}

/// No two of the orders share an id.
pub open spec fn ids_distinct(s: Seq<OrderView>) -> bool {
    forall|i: int, j: int| 0 <= i < j < s.len() ==> #[trigger] s[i].id != #[trigger] s[j].id
}

/// Trade `f`, made for `incoming`, is against resting order `o`: their
/// signals are compatible, `f` takes no more than `o` offered, and `f`
/// names `o` on the other side.
pub open spec fn fills_order(f: TradeView, incoming: OrderView, o: OrderView) -> bool {
    &&& compatible(o.price_signal, incoming.price_signal)
    &&& f.quantity <= o.quantity
    &&& incoming.side == OrderSide::Buy ==> f.sell_order_id == o.id
    &&& incoming.side != OrderSide::Buy ==> f.buy_order_id == o.id
}

/// Trade `f` is against one of the first `n` orders of `resting`.
pub open spec fn fill_against(f: TradeView, incoming: OrderView, resting: Seq<OrderView>, n: int) -> bool {
    exists|j: int| 0 <= j < n && #[trigger] fills_order(f, incoming, resting[j])
}

/// The total quantity of the orders of `s` that may trade with `signal`.
pub open spec fn compatible_total(s: Seq<OrderView>, signal: Ternary) -> nat
    decreases s.len(),
{
    if s.len() == 0 {
        0
    } else {
        compatible_total(s.drop_last(), signal) + if compatible(s.last().price_signal, signal) {
            s.last().quantity as nat
        } else {
            0nat
        }
    }
}

/// The smaller of two natural numbers.
pub open spec fn min_nat(a: nat, b: nat) -> nat {
    if a < b {
        a
    } else {
        b
    }
}

/// More facts about matching the first `n` resting orders: the orders kept
/// keep distinct ids, every trade is against a compatible resting order, the
/// quantity traded is the smaller of the incoming quantity and what the
/// compatible resting orders offer, and an incoming order of quantity 0
/// changes nothing.
proof fn lemma_match_prefix_more(resting: Seq<OrderView>, n: nat, incoming: OrderView)
    requires
        n <= resting.len(),
    ensures
        ({
            let st = match_prefix(resting, n, incoming);
            &&& ids_distinct(resting) ==> ids_distinct(st.kept)
            &&& forall|k: int|
                0 <= k < st.fills.len() ==> #[trigger] fill_against(
                    st.fills[k],
                    incoming,
                    resting,
                    n as int,
                )
            &&& fill_total(st.fills) == min_nat(
                incoming.quantity as nat,
                compatible_total(resting.take(n as int), incoming.price_signal),
            )
            &&& incoming.quantity == 0 ==> st.kept == resting.take(n as int) && st.fills.len() == 0
        }),
    decreases n,
{
    if n == 0 {
        assert(resting.take(0) =~= seq![]);
    } else {
        let prev = match_prefix(resting, (n - 1) as nat, incoming);
        let o = resting[n - 1];
        let st = match_prefix(resting, n, incoming);
        lemma_match_prefix_more(resting, (n - 1) as nat, incoming);
        lemma_match_prefix(resting, (n - 1) as nat, incoming);
        assert(st == match_step(prev, o, incoming));
        assert(resting.take(n as int) =~= resting.take(n - 1).push(o));
        assert(resting.take(n as int).drop_last() =~= resting.take(n - 1));
        let c = compatible_total(resting.take(n - 1), incoming.price_signal);
        assert(compatible_total(resting.take(n as int), incoming.price_signal) == c + if compatible(
            o.price_signal,
            incoming.price_signal,
        ) {
            o.quantity as nat
        } else {
            0nat
        });
        if ids_distinct(resting) {
            assert forall|i: int, j: int| 0 <= i < j < st.kept.len() implies #[trigger] st.kept[i].id
                != #[trigger] st.kept[j].id by {
                if j >= prev.kept.len() {
                    assert(has_origin(prev.kept[i], resting, n - 1));
                    let w = choose|w: int|
                        0 <= w < n - 1 && #[trigger] remnant_of(prev.kept[i], resting[w]);
                    assert(resting[w].id != resting[n - 1].id);
                    assert(st.kept[i] == prev.kept[i]);
                } else {
                    assert(st.kept[i] == prev.kept[i] && st.kept[j] == prev.kept[j]);
                }
            }
        }
        if prev.remaining > 0 && compatible(o.price_signal, incoming.price_signal) {
            let m = fill_quantity(prev.remaining, o);
            let f = fill_of(incoming, o, m);
            lemma_fill_total_push(prev.fills, f);
            assert(fills_order(f, incoming, resting[n - 1]));
            assert forall|k: int| 0 <= k < st.fills.len() implies #[trigger] fill_against(
                st.fills[k],
                incoming,
                resting,
                n as int,
            ) by {
                if k < prev.fills.len() {
                    assert(fill_against(prev.fills[k], incoming, resting, n - 1));
                    let w = choose|w: int|
                        0 <= w < n - 1 && #[trigger] fills_order(prev.fills[k], incoming, resting[w]);
                    assert(st.fills[k] == prev.fills[k]);
                    assert(fills_order(st.fills[k], incoming, resting[w]));
                } else {
                    assert(st.fills[k] == f);
                }
            }
        } else {
            assert(st.fills == prev.fills);
            assert forall|k: int| 0 <= k < st.fills.len() implies #[trigger] fill_against(
                st.fills[k],
                incoming,
                resting,
                n as int,
            ) by {
                assert(fill_against(prev.fills[k], incoming, resting, n - 1));
                let w = choose|w: int|
                    0 <= w < n - 1 && #[trigger] fills_order(prev.fills[k], incoming, resting[w]);
                assert(fills_order(st.fills[k], incoming, resting[w]));
            }
            if incoming.quantity == 0 {
                assert(st.kept =~= resting.take(n as int));
            }
        }
    }
}

/// Facts about matching `incoming` against all of `resting`.
proof fn lemma_match_incoming(resting: Seq<OrderView>, incoming: OrderView)
    ensures
        ({
            let st = match_incoming(resting, incoming);
            &&& st.remaining <= incoming.quantity
            &&& order_total(st.kept) + fill_total(st.fills) == order_total(resting)
            &&& fill_total(st.fills) + st.remaining == incoming.quantity
            &&& forall|k: int|
                0 <= k < st.kept.len() ==> #[trigger] has_origin(
                    st.kept[k],
                    resting,
                    resting.len() as int,
                )
            &&& st.remaining > 0 ==> forall|k: int|
                0 <= k < st.kept.len() ==> !compatible(
                    #[trigger] st.kept[k].price_signal,
                    incoming.price_signal,
                )
            &&& forall|k: int|
                0 <= k < st.fills.len() ==> #[trigger] fill_names(st.fills[k], incoming)
            &&& positive_prefix(resting, resting.len() as int) ==> forall|k: int|
                0 <= k < st.fills.len() ==> #[trigger] st.fills[k].quantity > 0
            &&& ids_distinct(resting) ==> ids_distinct(st.kept)
            &&& forall|k: int|
                0 <= k < st.fills.len() ==> #[trigger] fill_against(
                    st.fills[k],
                    incoming,
                    resting,
                    resting.len() as int,
                )
            &&& fill_total(st.fills) == min_nat(
                incoming.quantity as nat,
                compatible_total(resting, incoming.price_signal),
            )
            &&& incoming.quantity == 0 ==> st.kept == resting && st.fills.len() == 0
        }),
{
    lemma_match_prefix(resting, resting.len(), incoming);
    lemma_match_prefix_more(resting, resting.len(), incoming);
    assert(resting.take(resting.len() as int) =~= resting);
}

/// The side of the book an incoming order rests on, after matching.
proof fn lemma_own_side(
    own: Seq<OrderView>,
    after: Seq<OrderView>,
    incoming: OrderView,
    remaining: nat,
    next_id: u64,
    resource: Seq<char>,
    side: OrderSide,
)
    requires
        0 < incoming.id < next_id,
        incoming.side == side,
        incoming.resource == resource,
        forall|i: int| 0 <= i < own.len() ==> #[trigger] resting_ok(own[i], incoming.id, resource, side),
        remaining <= incoming.quantity,
        after == (if remaining > 0 {
            own.push(with_quantity(incoming, remaining as u32))
        } else {
            own
        }),
    ensures
        forall|i: int| 0 <= i < after.len() ==> #[trigger] resting_ok(after[i], next_id, resource, side),
{
    assert forall|i: int| 0 <= i < after.len() implies #[trigger] resting_ok(after[i], next_id, resource, side) by {
        if i < own.len() {
            assert(resting_ok(own[i], incoming.id, resource, side));
        }
    }
}

/// The opposite side of the book, after an incoming order matched against it.
proof fn lemma_other_side(
    other: Seq<OrderView>,
    incoming: OrderView,
    next_id: u64,
    resource: Seq<char>,
    side: OrderSide,
)
    requires
        incoming.id < next_id,
        forall|i: int| 0 <= i < other.len() ==> #[trigger] resting_ok(other[i], incoming.id, resource, side),
    ensures
        forall|i: int| 0 <= i < match_incoming(other, incoming).kept.len() ==> #[trigger] resting_ok(match_incoming(other, incoming).kept[i], next_id, resource, side),
        forall|k: int| 0 <= k < match_incoming(other, incoming).fills.len() ==> #[trigger] match_incoming(other, incoming).fills[k].quantity > 0,
{
    let st = match_incoming(other, incoming);
    lemma_match_incoming(other, incoming);
    assert forall|i: int| 0 <= i < st.kept.len() implies #[trigger] resting_ok(st.kept[i], next_id, resource, side) by {
        assert(has_origin(st.kept[i], other, other.len() as int));
        let j = choose|j: int| 0 <= j < other.len() && #[trigger] remnant_of(st.kept[i], other[j]);
        assert(resting_ok(other[j], incoming.id, resource, side));
    }
    assert(positive_prefix(other, other.len() as int)) by {
        assert forall|j: int| 0 <= j < other.len() implies #[trigger] other[j].quantity > 0 by {
            assert(resting_ok(other[j], incoming.id, resource, side));
        }
    }
}

/// The ids on the side an incoming order rests on stay distinct: the new
/// order's id is above every id already there.
proof fn lemma_own_side_ids(own: Seq<OrderView>, after: Seq<OrderView>, incoming: OrderView, remaining: nat)
    requires
        ids_distinct(own),
        forall|i: int| 0 <= i < own.len() ==> #[trigger] own[i].id < incoming.id,
        after == (if remaining > 0 {
            own.push(with_quantity(incoming, remaining as u32))
        } else {
            own
        }),
    ensures
        ids_distinct(after),
{
    assert forall|i: int, j: int| 0 <= i < j < after.len() implies #[trigger] after[i].id
        != #[trigger] after[j].id by {
        if j >= own.len() {
            assert(own[i].id < incoming.id);
        } else {
            assert(own[i].id != own[j].id);
        }
    }
}

/// Open ids stay distinct across the two sides: an order kept on the side
/// matched against has the id of an order that rested there before, and the
/// new order's id is above all of those.
proof fn lemma_cross_ids(
    own: Seq<OrderView>,
    own_after: Seq<OrderView>,
    other: Seq<OrderView>,
    kept: Seq<OrderView>,
    incoming: OrderView,
    remaining: nat,
)
    requires
        forall|i: int, j: int|
            0 <= i < own.len() && 0 <= j < other.len() ==> #[trigger] own[i].id
                != #[trigger] other[j].id,
        forall|j: int| 0 <= j < other.len() ==> #[trigger] other[j].id < incoming.id,
        forall|k: int| 0 <= k < kept.len() ==> #[trigger] has_origin(kept[k], other, other.len() as int),
        own_after == (if remaining > 0 {
            own.push(with_quantity(incoming, remaining as u32))
        } else {
            own
        }),
    ensures
        forall|i: int, j: int|
            0 <= i < own_after.len() && 0 <= j < kept.len() ==> #[trigger] own_after[i].id
                != #[trigger] kept[j].id,
{
    assert forall|i: int, j: int| 0 <= i < own_after.len() && 0 <= j < kept.len() implies #[trigger] own_after[i].id
        != #[trigger] kept[j].id by {
        assert(has_origin(kept[j], other, other.len() as int));
        let w = choose|w: int| 0 <= w < other.len() && #[trigger] remnant_of(kept[j], other[w]);
        if i < own.len() {
            assert(own[i].id != other[w].id);
        } else {
            assert(other[w].id < incoming.id);
        }
    }
}

/// Every submission to a well-formed book leaves it well-formed; in
/// particular no resting buy can ever trade with a resting sell.
pub proof fn lemma_submit_preserves_wf(
    book: BookView,
    side: OrderSide,
    quantity: u32,
    signal: Ternary,
    trader: Seq<char>,
)
    requires
        book_wf(book),
        book.next_id < u64::MAX,
    ensures
        book_wf(spec_submit(book, side, quantity, signal, trader)),
{
    let incoming = incoming_order(book, side, quantity, signal, trader);
    let after = spec_submit(book, side, quantity, signal, trader);
    if side == OrderSide::Buy {
        let st = match_incoming(book.sells, incoming);
        lemma_match_incoming(book.sells, incoming);
        lemma_other_side(book.sells, incoming, after.next_id, book.resource, OrderSide::Sell);
        lemma_own_side(book.buys, after.buys, incoming, st.remaining, after.next_id, book.resource, OrderSide::Buy);
        assert forall|i: int| 0 <= i < book.buys.len() implies #[trigger] book.buys[i].id < incoming.id by {
            assert(resting_ok(book.buys[i], book.next_id, book.resource, OrderSide::Buy));
        }
        assert forall|j: int| 0 <= j < book.sells.len() implies #[trigger] book.sells[j].id < incoming.id by {
            assert(resting_ok(book.sells[j], book.next_id, book.resource, OrderSide::Sell));
        }
        lemma_own_side_ids(book.buys, after.buys, incoming, st.remaining);
        lemma_cross_ids(book.buys, after.buys, book.sells, st.kept, incoming, st.remaining);
        assert forall|k: int| 0 <= k < after.trades.len() implies #[trigger] after.trades[k].quantity
            > 0 && after.trades[k].resource == after.resource by {
            if k >= book.trades.len() {
                assert(after.trades[k] == st.fills[k - book.trades.len()]);
                assert(fill_names(st.fills[k - book.trades.len()], incoming));
            }
        }
        assert forall|i: int, j: int|
            0 <= i < after.buys.len() && 0 <= j < after.sells.len() implies !compatible(
            #[trigger] after.buys[i].price_signal,
            #[trigger] after.sells[j].price_signal,
        ) by {
            assert(has_origin(st.kept[j], book.sells, book.sells.len() as int));
            let o = choose|o: int|
                0 <= o < book.sells.len() && #[trigger] remnant_of(st.kept[j], book.sells[o]);
            if i < book.buys.len() {
                assert(!compatible(book.buys[i].price_signal, book.sells[o].price_signal));
            } else {
                assert(!compatible(st.kept[j].price_signal, incoming.price_signal));
            }
        }
    } else if side == OrderSide::Sell {
        let st = match_incoming(book.buys, incoming);
        lemma_match_incoming(book.buys, incoming);
        lemma_other_side(book.buys, incoming, after.next_id, book.resource, OrderSide::Buy);
        lemma_own_side(book.sells, after.sells, incoming, st.remaining, after.next_id, book.resource, OrderSide::Sell);
        assert forall|i: int| 0 <= i < book.buys.len() implies #[trigger] book.buys[i].id < incoming.id by {
            assert(resting_ok(book.buys[i], book.next_id, book.resource, OrderSide::Buy));
        }
        assert forall|j: int| 0 <= j < book.sells.len() implies #[trigger] book.sells[j].id < incoming.id by {
            assert(resting_ok(book.sells[j], book.next_id, book.resource, OrderSide::Sell));
        }
        lemma_own_side_ids(book.sells, after.sells, incoming, st.remaining);
        lemma_cross_ids(book.sells, after.sells, book.buys, st.kept, incoming, st.remaining);
        assert forall|i: int, j: int|
            0 <= i < after.buys.len() && 0 <= j < after.sells.len() implies #[trigger] after.buys[i].id
                != #[trigger] after.sells[j].id by {
            assert(after.sells[j].id != st.kept[i].id);
        }
        assert forall|k: int| 0 <= k < after.trades.len() implies #[trigger] after.trades[k].quantity
            > 0 && after.trades[k].resource == after.resource by {
            if k >= book.trades.len() {
                assert(after.trades[k] == st.fills[k - book.trades.len()]);
                assert(fill_names(st.fills[k - book.trades.len()], incoming));
            }
        }
        assert forall|i: int, j: int|
            0 <= i < after.buys.len() && 0 <= j < after.sells.len() implies !compatible(
            #[trigger] after.buys[i].price_signal,
            #[trigger] after.sells[j].price_signal,
        ) by {
            assert(has_origin(st.kept[i], book.buys, book.buys.len() as int));
            let o = choose|o: int|
                0 <= o < book.buys.len() && #[trigger] remnant_of(st.kept[i], book.buys[o]);
            if j < book.sells.len() {
                assert(!compatible(book.buys[o].price_signal, book.sells[j].price_signal));
            } else {
                assert(!compatible(st.kept[i].price_signal, incoming.price_signal));
            }
        }
    } else {
        assert forall|i: int| 0 <= i < after.buys.len() implies #[trigger] resting_ok(
            after.buys[i],
            after.next_id,
            after.resource,
            OrderSide::Buy,
        ) by {
            assert(resting_ok(book.buys[i], book.next_id, book.resource, OrderSide::Buy));
        }
        assert forall|i: int| 0 <= i < after.sells.len() implies #[trigger] resting_ok(
            after.sells[i],
            after.next_id,
            after.resource,
            OrderSide::Sell,
        ) by {
            assert(resting_ok(book.sells[i], book.next_id, book.resource, OrderSide::Sell));
        }
    }
}

/// Matching conserves quantity: what the new trades carry is taken, unit
/// for unit, from the resting orders on the other side, and the incoming
/// quantity is split between those trades and the part of it that rests.
/// The quantity traded is the smaller of the incoming quantity and what the
/// compatible resting orders offer, and whatever is left of the incoming
/// order rests after the orders already on its side, which stay untouched.
pub proof fn lemma_submit_conserves_quantity(
    book: BookView,
    side: OrderSide,
    quantity: u32,
    signal: Ternary,
    trader: Seq<char>,
)
    ensures
        ({
            let after = spec_submit(book, side, quantity, signal, trader);
            let traded = fill_total(after.trades) - fill_total(book.trades);
            let incoming = incoming_order(book, side, quantity, signal, trader);
            &&& fill_total(book.trades) <= fill_total(after.trades)
            &&& side == OrderSide::Buy ==> {
                &&& order_total(after.sells) + traded == order_total(book.sells)
                &&& order_total(after.buys) + traded == order_total(book.buys) + quantity
                &&& traded == min_nat(quantity as nat, compatible_total(book.sells, signal))
                &&& after.buys == if traded < quantity {
                    book.buys.push(with_quantity(incoming, (quantity - traded) as u32))
                } else {
                    book.buys
                }
            }
            &&& side == OrderSide::Sell ==> {
                &&& order_total(after.buys) + traded == order_total(book.buys)
                &&& order_total(after.sells) + traded == order_total(book.sells) + quantity
                &&& traded == min_nat(quantity as nat, compatible_total(book.buys, signal))
                &&& after.sells == if traded < quantity {
                    book.sells.push(with_quantity(incoming, (quantity - traded) as u32))
                } else {
                    book.sells
                }
            }
            &&& side == OrderSide::Hold ==> after.buys == book.buys && after.sells == book.sells
                && after.trades == book.trades
        }),
{
    let incoming = incoming_order(book, side, quantity, signal, trader);
    let after = spec_submit(book, side, quantity, signal, trader);
    if side == OrderSide::Buy {
        let st = match_incoming(book.sells, incoming);
        lemma_match_incoming(book.sells, incoming);
        lemma_fill_total_append(book.trades, st.fills);
        if st.remaining > 0 {
            lemma_order_total_push(book.buys, with_quantity(incoming, st.remaining as u32));
        }
    } else if side == OrderSide::Sell {
        let st = match_incoming(book.buys, incoming);
        lemma_match_incoming(book.buys, incoming);
        lemma_fill_total_append(book.trades, st.fills);
        if st.remaining > 0 {
            lemma_order_total_push(book.sells, with_quantity(incoming, st.remaining as u32));
        }
    }
}

/// A submission only appends trades, and every trade it appends is of the
/// book's resource, at the new order's signal, names the new order on its
/// side, and names on the other side an order that rested there before,
/// with a compatible signal and at least the quantity traded.
pub proof fn lemma_submit_trades_name_order(
    book: BookView,
    side: OrderSide,
    quantity: u32,
    signal: Ternary,
    trader: Seq<char>,
)
    ensures
        ({
            let after = spec_submit(book, side, quantity, signal, trader);
            let incoming = incoming_order(book, side, quantity, signal, trader);
            &&& book.trades.len() <= after.trades.len()
            &&& after.trades.subrange(0, book.trades.len() as int) == book.trades
            &&& forall|k: int|
                book.trades.len() <= k < after.trades.len() ==> #[trigger] fill_names(
                    after.trades[k],
                    incoming,
                )
            &&& side == OrderSide::Buy ==> forall|k: int|
                book.trades.len() <= k < after.trades.len() ==> #[trigger] fill_against(
                    after.trades[k],
                    incoming,
                    book.sells,
                    book.sells.len() as int,
                )
            &&& side == OrderSide::Sell ==> forall|k: int|
                book.trades.len() <= k < after.trades.len() ==> #[trigger] fill_against(
                    after.trades[k],
                    incoming,
                    book.buys,
                    book.buys.len() as int,
                )
        }),
{
    let incoming = incoming_order(book, side, quantity, signal, trader);
    let after = spec_submit(book, side, quantity, signal, trader);
    if side == OrderSide::Buy {
        let st = match_incoming(book.sells, incoming);
        lemma_match_incoming(book.sells, incoming);
        assert(after.trades.subrange(0, book.trades.len() as int) =~= book.trades);
        assert forall|k: int| book.trades.len() <= k < after.trades.len() implies #[trigger] fill_names(
            after.trades[k],
            incoming,
        ) && #[trigger] fill_against(
            after.trades[k],
            incoming,
            book.sells,
            book.sells.len() as int,
        ) by {
            assert(after.trades[k] == st.fills[k - book.trades.len()]);
        }
    } else if side == OrderSide::Sell {
        let st = match_incoming(book.buys, incoming);
        lemma_match_incoming(book.buys, incoming);
        assert(after.trades.subrange(0, book.trades.len() as int) =~= book.trades);
        assert forall|k: int| book.trades.len() <= k < after.trades.len() implies #[trigger] fill_names(
            after.trades[k],
            incoming,
        ) && #[trigger] fill_against(
            after.trades[k],
            incoming,
            book.buys,
            book.buys.len() as int,
        ) by {
            assert(after.trades[k] == st.fills[k - book.trades.len()]);
        }
    } else {
        assert(after.trades.subrange(0, book.trades.len() as int) =~= book.trades);
    }
}

/// Orders leave the book only by trading: after a submission, every order
/// on the side it matched against is what is left of an order that rested
/// there before, with no more quantity than it had, and a resting order on
/// the new order's own side is either one that rested there before or the
/// rest of the new order.
pub proof fn lemma_submit_keeps_orders(
    book: BookView,
    side: OrderSide,
    quantity: u32,
    signal: Ternary,
    trader: Seq<char>,
)
    ensures
        ({
            let after = spec_submit(book, side, quantity, signal, trader);
            let incoming = incoming_order(book, side, quantity, signal, trader);
            &&& side == OrderSide::Buy ==> {
                &&& forall|k: int|
                    0 <= k < after.sells.len() ==> #[trigger] has_origin(
                        after.sells[k],
                        book.sells,
                        book.sells.len() as int,
                    )
                &&& after.buys.subrange(0, book.buys.len() as int) == book.buys
                &&& after.buys.len() <= book.buys.len() + 1
                &&& after.buys.len() == book.buys.len() + 1 ==> remnant_of(
                    after.buys.last(),
                    incoming,
                )
            }
            &&& side == OrderSide::Sell ==> {
                &&& forall|k: int|
                    0 <= k < after.buys.len() ==> #[trigger] has_origin(
                        after.buys[k],
                        book.buys,
                        book.buys.len() as int,
                    )
                &&& after.sells.subrange(0, book.sells.len() as int) == book.sells
                &&& after.sells.len() <= book.sells.len() + 1
                &&& after.sells.len() == book.sells.len() + 1 ==> remnant_of(
                    after.sells.last(),
                    incoming,
                )
            }
        }),
{
    let incoming = incoming_order(book, side, quantity, signal, trader);
    let after = spec_submit(book, side, quantity, signal, trader);
    if side == OrderSide::Buy {
        lemma_match_incoming(book.sells, incoming);
        assert(after.buys.subrange(0, book.buys.len() as int) =~= book.buys);
    } else if side == OrderSide::Sell {
        lemma_match_incoming(book.buys, incoming);
        assert(after.sells.subrange(0, book.sells.len() as int) =~= book.sells);
    }
}

/// An order that holds nothing, or of quantity 0, changes no list of the
/// book: it only takes the next id.
pub proof fn lemma_submit_idle(
    book: BookView,
    side: OrderSide,
    quantity: u32,
    signal: Ternary,
    trader: Seq<char>,
)
    requires
        side == OrderSide::Hold || quantity == 0,
    ensures
        ({
            let after = spec_submit(book, side, quantity, signal, trader);
            &&& after.buys == book.buys
            &&& after.sells == book.sells
            &&& after.trades == book.trades
            &&& after.resource == book.resource
            &&& after.next_id == (book.next_id + 1) as u64
        }),
{
    let incoming = incoming_order(book, side, quantity, signal, trader);
    if side == OrderSide::Buy {
        lemma_match_incoming(book.sells, incoming);
        assert(book.trades + match_incoming(book.sells, incoming).fills =~= book.trades);
    } else if side == OrderSide::Sell {
        lemma_match_incoming(book.buys, incoming);
        assert(book.trades + match_incoming(book.buys, incoming).fills =~= book.trades);
    }
}

/// One submission to an order book: its side, quantity, signal and trader.
pub struct Submission {
    pub side: OrderSide,
    pub quantity: u32,
    pub signal: Ternary,
    pub trader: Seq<char>,
}

/// The book after the submissions `subs`, in order.
pub open spec fn spec_submit_all(book: BookView, subs: Seq<Submission>) -> BookView
    decreases subs.len(),
{
    if subs.len() == 0 {
        book
    } else {
        let before = spec_submit_all(book, subs.drop_last());
        let s = subs.last();
        spec_submit(before, s.side, s.quantity, s.signal, s.trader)
    }
}

/// Ids are handed out in submission order: the `i`-th submission (counting
/// from 0) gets the book's next id plus `i`, Hold and quantity-0 orders
/// included; a new book hands out 1, 2, 3, ...  so the ids one book returns
/// are distinct and increasing.
pub proof fn lemma_submit_ids(book: BookView, subs: Seq<Submission>, i: int)
    requires
        book.next_id + subs.len() <= u64::MAX,
        0 <= i <= subs.len(),
    ensures
        spec_submit_all(book, subs.take(i)).next_id == book.next_id + i,
        spec_submit_all(book, subs).next_id == book.next_id + subs.len(),
        spec_submit_all(book, subs).resource == book.resource,
    decreases subs.len(),
{
    if subs.len() > 0 {
        let pre = subs.drop_last();
        if i < subs.len() {
            assert(subs.take(i) =~= pre.take(i));
            lemma_submit_ids(book, pre, i);
        } else {
            assert(subs.take(i) =~= subs);
        }
        lemma_submit_ids(book, pre, pre.len() as int);
    } else {
        assert(subs.take(i) =~= subs);
    }
}

/// When two orders may trade: an order matches any order with the same
/// signal, a `Zero` signal ("any price") matches every signal, and only
/// `Pos` against `Neg` does not match.
pub proof fn lemma_compatible_table()
    ensures
        forall|s: Ternary| #[trigger] compatible(s, s),
        forall|s: Ternary| #[trigger] compatible(Ternary::Zero, s) && compatible(s, Ternary::Zero),
        !compatible(Ternary::Pos, Ternary::Neg),
        !compatible(Ternary::Neg, Ternary::Pos),
{
}

/// An incoming order that meets a first resting order it may trade with,
/// and asks for no more than that order offers, fills completely against it
/// alone: one fill, and the rest of the resting orders kept untouched.
proof fn lemma_match_first_fills(resting: Seq<OrderView>, incoming: OrderView, n: nat)
    requires
        1 <= n <= resting.len(),
        resting[0].price_signal == incoming.price_signal || resting[0].price_signal
            == Ternary::Zero || incoming.price_signal == Ternary::Zero,
        0 < incoming.quantity <= resting[0].quantity,
    ensures
        ({
            let st = match_prefix(resting, n, incoming);
            let q = incoming.quantity;
            let o = resting[0];
            let first = if q == o.quantity {
                Seq::<OrderView>::empty()
            } else {
                seq![with_quantity(o, (o.quantity - q) as u32)]
            };
            &&& st.kept == first + resting.subrange(1, n as int)
            &&& st.fills == seq![fill_of(incoming, o, q as nat)]
            &&& st.remaining == 0
        }),
    decreases n,
{
    let q = incoming.quantity;
    let o = resting[0];
    let first = if q == o.quantity {
        Seq::<OrderView>::empty()
    } else {
        seq![with_quantity(o, (o.quantity - q) as u32)]
    };
    if n == 1 {
        let init = match_prefix(resting, 0, incoming);
        assert(match_prefix(resting, 1, incoming) == match_step(init, o, incoming));
        assert(resting.subrange(1, 1) =~= Seq::<OrderView>::empty());
        assert(init.kept =~= Seq::<OrderView>::empty());
        assert(match_prefix(resting, 1, incoming).kept =~= first + resting.subrange(1, 1));
        assert(match_prefix(resting, 1, incoming).fills =~= seq![fill_of(incoming, o, q as nat)]);
    } else {
        lemma_match_first_fills(resting, incoming, (n - 1) as nat);
        let prev = match_prefix(resting, (n - 1) as nat, incoming);
        assert(match_prefix(resting, n, incoming) == match_step(prev, resting[n - 1], incoming));
        assert(first + resting.subrange(1, n as int) =~= (first + resting.subrange(1, n - 1)).push(
            resting[n - 1],
        ));
    }
}

/// Nothing rests that an incoming order may trade with: it trades nothing,
/// every resting order stays, and all of its quantity stays open.
proof fn lemma_match_none_compatible(resting: Seq<OrderView>, incoming: OrderView, n: nat)
    requires
        n <= resting.len(),
        forall|i: int|
            0 <= i < resting.len() ==> #[trigger] resting[i].price_signal != incoming.price_signal
                && resting[i].price_signal != Ternary::Zero,
        incoming.price_signal != Ternary::Zero,
    ensures
        match_prefix(resting, n, incoming) == (MatchState {
            kept: resting.take(n as int),
            fills: seq![],
            remaining: incoming.quantity as nat,
        }),
    decreases n,
{
    if n == 0 {
        assert(resting.take(0) =~= Seq::<OrderView>::empty());
    } else {
        lemma_match_none_compatible(resting, incoming, (n - 1) as nat);
        let prev = match_prefix(resting, (n - 1) as nat, incoming);
        assert(match_prefix(resting, n, incoming) == match_step(prev, resting[n - 1], incoming));
        assert(resting.take(n as int) =~= resting.take(n - 1).push(resting[n - 1]));
    }
}

/// A buy meets the first resting sell: when their signals are equal or
/// either is `Zero`, and the buy asks for no more than that sell offers, the
/// two trade the buy's whole quantity at the buy's signal, nothing of the
/// buy rests, the sell is removed when emptied and otherwise keeps its place
/// with the rest of its quantity, and every other order stays as it was.
pub proof fn lemma_buy_meets_first_sell(book: BookView, quantity: u32, signal: Ternary, trader: Seq<char>)
    requires
        book.sells.len() > 0,
        book.sells[0].price_signal == signal || book.sells[0].price_signal == Ternary::Zero
            || signal == Ternary::Zero,
        0 < quantity <= book.sells[0].quantity,
    ensures
        ({
            let after = spec_submit(book, OrderSide::Buy, quantity, signal, trader);
            let o = book.sells[0];
            &&& after.trades == book.trades.push(
                TradeView {
                    buy_order_id: book.next_id,
                    sell_order_id: o.id,
                    resource: book.resource,
                    quantity: quantity,
                    price_signal: signal,
                },
            )
            &&& after.buys == book.buys
            &&& after.sells == if quantity == o.quantity {
                book.sells.drop_first()
            } else {
                book.sells.update(0, with_quantity(o, (o.quantity - quantity) as u32))
            }
        }),
{
    let incoming = incoming_order(book, OrderSide::Buy, quantity, signal, trader);
    let o = book.sells[0];
    lemma_match_first_fills(book.sells, incoming, book.sells.len());
    let after = spec_submit(book, OrderSide::Buy, quantity, signal, trader);
    assert(book.sells.subrange(1, book.sells.len() as int) =~= book.sells.drop_first());
    assert(after.trades =~= book.trades.push(fill_of(incoming, o, quantity as nat)));
    if quantity < o.quantity {
        assert(seq![with_quantity(o, (o.quantity - quantity) as u32)] + book.sells.drop_first()
            =~= book.sells.update(0, with_quantity(o, (o.quantity - quantity) as u32)));
    } else {
        assert(Seq::<OrderView>::empty() + book.sells.drop_first() =~= book.sells.drop_first());
    }
}

/// A sell meets the first resting buy: when their signals are equal or
/// either is `Zero`, and the sell offers no more than that buy asks for, the
/// two trade the sell's whole quantity at the sell's signal, nothing of the
/// sell rests, the buy is removed when filled and otherwise keeps its place
/// with the rest of its quantity, and every other order stays as it was.
pub proof fn lemma_sell_meets_first_buy(book: BookView, quantity: u32, signal: Ternary, trader: Seq<char>)
    requires
        book.buys.len() > 0,
        book.buys[0].price_signal == signal || book.buys[0].price_signal == Ternary::Zero
            || signal == Ternary::Zero,
        0 < quantity <= book.buys[0].quantity,
    ensures
        ({
            let after = spec_submit(book, OrderSide::Sell, quantity, signal, trader);
            let o = book.buys[0];
            &&& after.trades == book.trades.push(
                TradeView {
                    buy_order_id: o.id,
                    sell_order_id: book.next_id,
                    resource: book.resource,
                    quantity: quantity,
                    price_signal: signal,
                },
            )
            &&& after.sells == book.sells
            &&& after.buys == if quantity == o.quantity {
                book.buys.drop_first()
            } else {
                book.buys.update(0, with_quantity(o, (o.quantity - quantity) as u32))
            }
        }),
{
    let incoming = incoming_order(book, OrderSide::Sell, quantity, signal, trader);
    let o = book.buys[0];
    lemma_match_first_fills(book.buys, incoming, book.buys.len());
    let after = spec_submit(book, OrderSide::Sell, quantity, signal, trader);
    assert(book.buys.subrange(1, book.buys.len() as int) =~= book.buys.drop_first());
    assert(after.trades =~= book.trades.push(fill_of(incoming, o, quantity as nat)));
    if quantity < o.quantity {
        assert(seq![with_quantity(o, (o.quantity - quantity) as u32)] + book.buys.drop_first()
            =~= book.buys.update(0, with_quantity(o, (o.quantity - quantity) as u32)));
    } else {
        assert(Seq::<OrderView>::empty() + book.buys.drop_first() =~= book.buys.drop_first());
    }
}

/// `Pos` and `Neg` never trade: a buy whose signal is not `Zero`, facing
/// only sells with the other non-`Zero` signal, makes no trade, leaves every
/// sell in place, and rests with its whole quantity (when it has any).
pub proof fn lemma_opposite_signals_never_trade(
    book: BookView,
    quantity: u32,
    signal: Ternary,
    trader: Seq<char>,
)
    requires
        signal != Ternary::Zero,
        forall|i: int|
            0 <= i < book.sells.len() ==> #[trigger] book.sells[i].price_signal != signal
                && book.sells[i].price_signal != Ternary::Zero,
    ensures
        ({
            let after = spec_submit(book, OrderSide::Buy, quantity, signal, trader);
            &&& after.trades == book.trades
            &&& after.sells == book.sells
            &&& after.buys == if quantity > 0 {
                book.buys.push(
                    OrderView {
                        id: book.next_id,
                        side: OrderSide::Buy,
                        resource: book.resource,
                        quantity: quantity,
                        price_signal: signal,
                        trader: trader,
                    },
                )
            } else {
                book.buys
            }
        }),
{
    let incoming = incoming_order(book, OrderSide::Buy, quantity, signal, trader);
    lemma_match_none_compatible(book.sells, incoming, book.sells.len());
    assert(book.sells.take(book.sells.len() as int) =~= book.sells);
    assert(book.trades + Seq::<TradeView>::empty() =~= book.trades);
}

} // verus!
