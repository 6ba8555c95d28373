//! Orders, trades, and their mathematical views.

use vstd::prelude::*;

use crate::ternary::Ternary;

verus! {

/// Order direction: buy (want), sell (offer), or hold (no action).
#[derive(Debug, Clone, Copy, PartialEq, Eq, Hash, Structural)]
pub enum OrderSide {
    Buy,
    Sell,
    Hold,
}

/// A single order in the market.
#[derive(Debug)]
pub struct Order {
    pub id: u64,
    pub side: OrderSide,
    pub resource: String,
    pub quantity: u32,
    pub price_signal: Ternary,
    pub trader: String,
}

/// What an order holds, with its strings as character sequences.
pub struct OrderView {
    pub id: u64,
    pub side: OrderSide,
    pub resource: Seq<char>,
    pub quantity: u32,
    pub price_signal: Ternary,
    pub trader: Seq<char>,
}

impl View for Order {
    type V = OrderView;

    open spec fn view(&self) -> OrderView {
        OrderView {
            id: self.id,
            side: self.side,
            resource: self.resource@,
            quantity: self.quantity,
            price_signal: self.price_signal,
            trader: self.trader@,
        }
    }
}

/// The same order with another quantity.
pub open spec fn with_quantity(o: OrderView, quantity: u32) -> OrderView {
    OrderView {
        id: o.id,
        side: o.side,
        resource: o.resource,
        quantity: quantity,
        price_signal: o.price_signal,
        trader: o.trader,
    }
}

/// The views of a sequence of orders.
pub open spec fn orders_view(s: Seq<Order>) -> Seq<OrderView> {
    s.map_values(|o: Order| o@)
}

impl Order {
    pub fn new(
        id: u64,
        side: OrderSide,
        resource: &str,
        quantity: u32,
        price_signal: Ternary,
        trader: &str,
    ) -> (o: Self)
        ensures
            o@ == (OrderView {
                id: id,
                side: side,
                resource: resource@,
                quantity: quantity,
                price_signal: price_signal,
                trader: trader@,
            }),
    {
        Order {
            id,
            side,
            resource: resource.to_owned(),
            quantity,
            price_signal,
            trader: trader.to_owned(),
        }
    }

    pub fn is_buy(&self) -> (r: bool)
        ensures
            r == (self.side == OrderSide::Buy),
    {
        self.side == OrderSide::Buy
    }

    pub fn is_sell(&self) -> (r: bool)
        ensures
            r == (self.side == OrderSide::Sell),
    {
        self.side == OrderSide::Sell
    }
}

impl Clone for Order {
    fn clone(&self) -> (r: Self)
        ensures
            r@ == self@,
    {
        Order {
            id: self.id,
            side: self.side,
            resource: self.resource.clone(),
            quantity: self.quantity,
            price_signal: self.price_signal,
            trader: self.trader.clone(),
        }
    }
}

/// A matched trade between a buy and sell order.
#[derive(Debug)]
pub struct Trade {
    pub buy_order_id: u64,
    pub sell_order_id: u64,
    pub resource: String,
    pub quantity: u32,
    pub price_signal: Ternary,
}

/// What a trade holds, with its resource as a character sequence.
pub struct TradeView {
    pub buy_order_id: u64,
    pub sell_order_id: u64,
    pub resource: Seq<char>,
    pub quantity: u32,
    pub price_signal: Ternary,
}

impl View for Trade {
    type V = TradeView;

    open spec fn view(&self) -> TradeView {
        TradeView {
            buy_order_id: self.buy_order_id,
            sell_order_id: self.sell_order_id,
            resource: self.resource@,
            quantity: self.quantity,
            price_signal: self.price_signal,
        }
    }
}

impl Clone for Trade {
    fn clone(&self) -> (r: Self)
        ensures
            r@ == self@,
    {
        Trade {
            buy_order_id: self.buy_order_id,
            sell_order_id: self.sell_order_id,
            resource: self.resource.clone(),
            quantity: self.quantity,
            price_signal: self.price_signal,
        }
    }
}

/// The views of a sequence of trades.
pub open spec fn trades_view(s: Seq<Trade>) -> Seq<TradeView> {
    s.map_values(|t: Trade| t@)
}

} // verus!
