use ternary_market::{Auction, AuctionType, Market, MarketMaker, Order, OrderBook, OrderSide, Portfolio, PriceDiscovery, Ternary};

#[test]
fn ternary_rejects_out_of_range() {
    assert_eq!(Ternary::from_i8(2), None);
    assert_eq!(Ternary::from_i8(-2), None);
    assert_eq!(Ternary::Neg.to_i8(), -1);
    assert_eq!(Ternary::Zero.to_i8(), 0);
    assert_eq!(Ternary::Pos.to_i8(), 1);
}

#[test]
fn partial_fill_across_resting_orders_keeps_remainder_in_place() {
    let mut book = OrderBook::new("energy");
    let a = book.submit(OrderSide::Sell, 5, Ternary::Pos, "a");
    let b = book.submit(OrderSide::Sell, 10, Ternary::Pos, "b");
    let c = book.submit(OrderSide::Sell, 4, Ternary::Pos, "c");
    let buy = book.submit(OrderSide::Buy, 8, Ternary::Pos, "buyer");
    assert_eq!(book.trade_count(), 2);
    assert_eq!(book.trades()[0].sell_order_id, a);
    assert_eq!(book.trades()[0].buy_order_id, buy);
    assert_eq!(book.trades()[0].quantity, 5);
    assert_eq!(book.trades()[1].sell_order_id, b);
    assert_eq!(book.trades()[1].quantity, 3);
    assert_eq!(book.open_sells().len(), 2);
    assert_eq!(book.open_sells()[0].id, b);
    assert_eq!(book.open_sells()[0].quantity, 7);
    assert_eq!(book.open_sells()[1].id, c);
    assert_eq!(book.open_sells()[1].quantity, 4);
    assert_eq!(book.open_buys().len(), 0);
}

#[test]
fn zero_signal_matches_any_signal() {
    let mut book = OrderBook::new("energy");
    book.submit(OrderSide::Sell, 4, Ternary::Neg, "s");
    book.submit(OrderSide::Buy, 4, Ternary::Zero, "b");
    assert_eq!(book.trade_count(), 1);
    assert_eq!(book.trades()[0].price_signal, Ternary::Zero);
    assert_eq!(book.trades()[0].resource, "energy");
    let mut book2 = OrderBook::new("energy");
    book2.submit(OrderSide::Buy, 4, Ternary::Zero, "b");
    book2.submit(OrderSide::Sell, 4, Ternary::Neg, "s");
    assert_eq!(book2.trade_count(), 1);
    assert_eq!(book2.trades()[0].price_signal, Ternary::Neg);
}

#[test]
fn incoming_sell_matches_buys_in_order() {
    let mut book = OrderBook::new("ore");
    let b1 = book.submit(OrderSide::Buy, 2, Ternary::Pos, "x");
    let b2 = book.submit(OrderSide::Buy, 3, Ternary::Pos, "y");
    let s = book.submit(OrderSide::Sell, 4, Ternary::Pos, "z");
    assert_eq!(book.trade_count(), 2);
    assert_eq!((book.trades()[0].buy_order_id, book.trades()[0].sell_order_id), (b1, s));
    assert_eq!(book.trades()[0].quantity, 2);
    assert_eq!((book.trades()[1].buy_order_id, book.trades()[1].sell_order_id), (b2, s));
    assert_eq!(book.trades()[1].quantity, 2);
    assert_eq!(book.open_buys().len(), 1);
    assert_eq!(book.open_buys()[0].id, b2);
    assert_eq!(book.open_buys()[0].quantity, 1);
    assert_eq!(book.open_sells().len(), 0);
}

#[test]
fn unmatched_remainder_rests_on_own_side() {
    let mut book = OrderBook::new("ore");
    book.submit(OrderSide::Sell, 3, Ternary::Pos, "s");
    let id = book.submit(OrderSide::Buy, 5, Ternary::Pos, "alice");
    assert_eq!(book.trades()[0].quantity, 3);
    assert_eq!(book.open_buys().len(), 1);
    let rest = &book.open_buys()[0];
    assert_eq!(rest.id, id);
    assert_eq!(rest.quantity, 2);
    assert_eq!(rest.trader, "alice");
    assert_eq!(rest.resource, "ore");
    assert!(rest.is_buy());
    assert_eq!(book.open_sells().len(), 0);
}

#[test]
fn incompatible_resting_orders_are_skipped() {
    let mut book = OrderBook::new("ore");
    let neg = book.submit(OrderSide::Sell, 5, Ternary::Neg, "s1");
    let pos = book.submit(OrderSide::Sell, 5, Ternary::Pos, "s2");
    book.submit(OrderSide::Buy, 5, Ternary::Pos, "b");
    assert_eq!(book.trade_count(), 1);
    assert_eq!(book.trades()[0].sell_order_id, pos);
    assert_eq!(book.open_sells().len(), 1);
    assert_eq!(book.open_sells()[0].id, neg);
}

#[test]
fn hold_and_zero_quantity_only_take_an_id() {
    let mut book = OrderBook::new("ore");
    assert_eq!(book.submit(OrderSide::Hold, 5, Ternary::Pos, "h"), 1);
    book.submit(OrderSide::Sell, 5, Ternary::Pos, "s");
    assert_eq!(book.submit(OrderSide::Buy, 0, Ternary::Pos, "b"), 3);
    assert_eq!(book.trade_count(), 0);
    assert_eq!(book.open_buys().len(), 0);
    assert_eq!(book.open_sells().len(), 1);
    assert_eq!(book.submit(OrderSide::Hold, 1, Ternary::Zero, "h"), 4);
}

#[test]
fn matching_conserves_quantity() {
    let mut book = OrderBook::new("ore");
    book.submit(OrderSide::Sell, 4, Ternary::Pos, "s1");
    book.submit(OrderSide::Sell, 6, Ternary::Zero, "s2");
    book.submit(OrderSide::Sell, 9, Ternary::Neg, "s3");
    book.submit(OrderSide::Buy, 7, Ternary::Pos, "b");
    let traded: u32 = book.trades().iter().map(|t| t.quantity).sum();
    let resting_sells: u32 = book.open_sells().iter().map(|o| o.quantity).sum();
    let resting_buys: u32 = book.open_buys().iter().map(|o| o.quantity).sum();
    assert_eq!(traded, 7);
    assert_eq!(resting_sells + traded, 4 + 6 + 9);
    assert_eq!(resting_buys + traded, 7);
}

#[test]
fn book_never_left_crossed() {
    let mut book = OrderBook::new("ore");
    book.submit(OrderSide::Buy, 3, Ternary::Neg, "b1");
    book.submit(OrderSide::Sell, 2, Ternary::Pos, "s1");
    book.submit(OrderSide::Buy, 10, Ternary::Zero, "b2");
    for b in book.open_buys() {
        for s in book.open_sells() {
            let compatible = b.price_signal == s.price_signal
                || b.price_signal == Ternary::Zero
                || s.price_signal == Ternary::Zero;
            assert!(!compatible);
        }
    }
    assert_eq!(book.open_sells().len(), 0);
    assert_eq!(book.open_buys().len(), 2);
    assert_eq!(book.open_buys()[1].quantity, 8);
}

#[test]
fn order_and_book_clones_match() {
    let o = Order::new(7, OrderSide::Sell, "gold", 3, Ternary::Neg, "zed");
    let c = o.clone();
    assert_eq!((c.id, c.side, c.quantity, c.price_signal), (7, OrderSide::Sell, 3, Ternary::Neg));
    assert_eq!(c.resource, "gold");
    assert_eq!(c.trader, "zed");
    let mut book = OrderBook::new("gold");
    book.submit(OrderSide::Sell, 3, Ternary::Pos, "s");
    let copy = book.clone();
    book.submit(OrderSide::Buy, 3, Ternary::Pos, "b");
    assert_eq!(copy.open_sells().len(), 1);
    assert_eq!(copy.trade_count(), 0);
    assert_eq!(book.trade_count(), 1);
    assert_eq!(book.trades()[0].clone().quantity, 3);
}

#[test]
fn price_discovery_counts_each_signal_equally() {
    let mut a = PriceDiscovery::new();
    a.push(Ternary::Neg);
    a.push(Ternary::Pos);
    a.push(Ternary::Pos);
    let mut b = PriceDiscovery::default();
    b.push(Ternary::Pos);
    b.push(Ternary::Pos);
    b.push(Ternary::Neg);
    assert_eq!(a.current_signal(), Ternary::Pos);
    assert_eq!(b.current_signal(), Ternary::Pos);
    assert_eq!(a.signal_count(), 3);
    b.push(Ternary::Neg);
    b.push(Ternary::Zero);
    assert_eq!(b.current_signal(), Ternary::Zero);
    let c = b.clone();
    assert_eq!(c.signal_count(), 5);
}

#[test]
fn market_maker_negative_spread() {
    let mm = MarketMaker::new("mm2", Ternary::Neg);
    assert_eq!(mm.quote_buy(), Ternary::Neg);
    assert_eq!(mm.quote_sell(), Ternary::Zero);
    assert_eq!(mm.profit_margin(), 1);
    assert_eq!(mm.name, "mm2");
    assert_eq!(mm.spread, Ternary::Neg);
    let z = MarketMaker::new("z", Ternary::Zero).clone();
    assert_eq!((z.quote_buy(), z.quote_sell()), (Ternary::Zero, Ternary::Zero));
}

#[test]
fn auction_tie_goes_to_last_highest_bid() {
    let mut a = Auction::new(AuctionType::Dutch, "x", 0);
    a.bid("alice", 20, Ternary::Pos);
    a.bid("bob", 20, Ternary::Neg);
    a.bid("carol", 10, Ternary::Zero);
    a.close();
    assert_eq!(a.winner().unwrap().bidder, "bob");
}

#[test]
fn auction_has_no_winner_until_closed() {
    let mut a = Auction::new(AuctionType::English, "x", 0);
    a.bid("alice", 20, Ternary::Pos);
    assert!(a.winner().is_none());
    assert!(!a.is_closed());
    a.close();
    assert!(a.is_closed());
    assert_eq!(a.winner().unwrap().amount, 20);
    let empty = {
        let mut e = Auction::new(AuctionType::English, "y", 0);
        e.close();
        e
    };
    assert!(empty.winner().is_none());
}

#[test]
fn vickrey_price_cases() {
    let mut english = Auction::new(AuctionType::English, "x", 0);
    english.bid("a", 5, Ternary::Pos);
    english.bid("b", 6, Ternary::Pos);
    assert_eq!(english.vickrey_price(), None);

    let mut one_eligible = Auction::new(AuctionType::Vickrey, "x", 10);
    one_eligible.bid("a", 5, Ternary::Pos);
    one_eligible.bid("b", 16, Ternary::Pos);
    assert_eq!(one_eligible.vickrey_price(), None);

    let mut tie = Auction::new(AuctionType::Vickrey, "x", 0);
    tie.bid("a", 30, Ternary::Pos);
    tie.bid("b", 12, Ternary::Pos);
    tie.bid("c", 30, Ternary::Pos);
    assert_eq!(tie.vickrey_price(), Some(30));
    assert_eq!(tie.bid_count(), 3);

    let mut single = Auction::new(AuctionType::Vickrey, "x", 0);
    single.bid("a", 30, Ternary::Pos);
    assert_eq!(single.vickrey_price(), None);

    let mut later_second = Auction::new(AuctionType::Vickrey, "x", 0);
    later_second.bid("a", 1, Ternary::Pos);
    later_second.bid("b", 50, Ternary::Pos);
    later_second.bid("c", 7, Ternary::Pos);
    later_second.bid("d", 3, Ternary::Pos);
    assert_eq!(later_second.vickrey_price(), Some(7));
    let copy = later_second.clone();
    assert_eq!(copy.bid_count(), 4);
}

#[test]
fn portfolio_allocate_adds_and_replaces_signal() {
    let mut p = Portfolio::default();
    p.allocate("energy", 10, Ternary::Pos);
    p.allocate("ore", 5, Ternary::Neg);
    p.allocate("energy", 15, Ternary::Neg);
    assert_eq!(p.holding("energy"), 25);
    assert_eq!(p.signal("energy"), Some(Ternary::Neg));
    assert_eq!(p.holding("ore"), 5);
    assert_eq!(p.resource_count(), 2);
    assert_eq!(p.total_holdings(), 30);
    assert_eq!(p.net_signal(), Ternary::Neg);
    assert_eq!(p.holding("gold"), 0);
    assert_eq!(p.signal("gold"), None);
}

#[test]
fn portfolio_deallocate_cases() {
    let mut p = Portfolio::new();
    assert!(!p.deallocate("ghost", 0));
    p.allocate("energy", 10, Ternary::Pos);
    p.allocate("ore", 4, Ternary::Zero);
    assert!(p.deallocate("energy", 0));
    assert_eq!(p.holding("energy"), 10);
    assert!(p.deallocate("energy", 10));
    assert_eq!(p.resource_count(), 1);
    assert_eq!(p.holding("ore"), 4);
    assert_eq!(p.signal("ore"), Some(Ternary::Zero));
    p.allocate("energy", 3, Ternary::Neg);
    assert_eq!(p.holding("energy"), 3);
    assert_eq!(p.signal("energy"), Some(Ternary::Neg));
    let copy = p.clone();
    assert_eq!(copy.total_holdings(), 7);
}

#[test]
fn market_keeps_one_book_per_resource() {
    let mut m = Market::default();
    m.submit_order("energy", OrderSide::Sell, 5, Ternary::Pos, "s");
    m.submit_order("gold", OrderSide::Buy, 5, Ternary::Pos, "b");
    assert_eq!(m.total_trades(), 0);
    let id = m.submit_order("energy", OrderSide::Buy, 2, Ternary::Neg, "b2");
    assert_eq!(id, 2);
    assert_eq!(m.resources(), vec!["energy", "gold"]);
    assert_eq!(m.book("energy").open_sells().len(), 1);
    assert_eq!(m.book("energy").open_buys().len(), 1);
    assert_eq!(m.book("silver").resource(), "silver");
    assert_eq!(m.resources().len(), 3);
    m.submit_order("gold", OrderSide::Sell, 3, Ternary::Zero, "s2");
    assert_eq!(m.total_trades(), 1);
    assert_eq!(m.current_signal(), Ternary::Pos);
    let copy = m.clone();
    assert_eq!(copy.total_trades(), 1);
}

#[test]
fn market_portfolio_access() {
    let mut m = Market::new();
    m.portfolio_mut().allocate("energy", 9, Ternary::Pos);
    assert_eq!(m.portfolio().holding("energy"), 9);
    assert_eq!(m.current_signal(), Ternary::Zero);
}

#[test]
fn market_keys_stay_unique_whatever_is_done_with_a_book() {
    let mut m = Market::new();
    *m.book("x") = OrderBook::new("y");
    assert_eq!(m.resources(), vec!["x"]);
    m.book("y");
    m.book("x");
    assert_eq!(m.resources(), vec!["x", "y"]);
}

#[test]
fn traded_total_is_smaller_of_quantity_and_compatible_offer() {
    let mut book = OrderBook::new("ore");
    book.submit(OrderSide::Sell, 2, Ternary::Pos, "s1");
    book.submit(OrderSide::Sell, 5, Ternary::Neg, "s2");
    book.submit(OrderSide::Sell, 1, Ternary::Zero, "s3");
    let id = book.submit(OrderSide::Buy, 10, Ternary::Pos, "b");
    let traded: u32 = book.trades().iter().map(|t| t.quantity).sum();
    assert_eq!(traded, 3);
    assert_eq!(book.open_buys().len(), 1);
    assert_eq!(book.open_buys()[0].id, id);
    assert_eq!(book.open_buys()[0].quantity, 7);
    let mut ids: Vec<u64> = book.open_buys().iter().chain(book.open_sells().iter()).map(|o| o.id).collect();
    ids.sort();
    ids.dedup();
    assert_eq!(ids.len(), book.open_buys().len() + book.open_sells().len());
}
