use ternary_market::{Auction, AuctionType, Market, MarketMaker, Order, OrderBook, OrderSide, Portfolio, PriceDiscovery, Ternary};

#[test]
fn test_ternary_roundtrip() {
    assert_eq!(Ternary::from_i8(-1), Some(Ternary::Neg));
    assert_eq!(Ternary::from_i8(0), Some(Ternary::Zero));
    assert_eq!(Ternary::from_i8(1), Some(Ternary::Pos));
}

#[test]
fn test_order_creation() {
    let o = Order::new(1, OrderSide::Buy, "energy", 10, Ternary::Pos, "alice");
    assert!(o.is_buy());
    assert!(!o.is_sell());
    assert_eq!(o.quantity, 10);
}

#[test]
fn test_order_book_match() {
    let mut book = OrderBook::new("energy");
    let _sell_id = book.submit(OrderSide::Sell, 5, Ternary::Pos, "bob");
    let _buy_id = book.submit(OrderSide::Buy, 5, Ternary::Pos, "alice");
    assert_eq!(book.trade_count(), 1);
    assert_eq!(book.trades()[0].quantity, 5);
    assert_eq!(book.open_buys().len(), 0);
    assert_eq!(book.open_sells().len(), 0);
}

#[test]
fn test_order_book_partial_fill() {
    let mut book = OrderBook::new("energy");
    book.submit(OrderSide::Sell, 10, Ternary::Pos, "bob");
    book.submit(OrderSide::Buy, 3, Ternary::Pos, "alice");
    assert_eq!(book.trade_count(), 1);
    assert_eq!(book.trades()[0].quantity, 3);
    assert_eq!(book.open_sells().len(), 1);
    assert_eq!(book.open_sells()[0].quantity, 7);
}

#[test]
fn test_order_book_no_match_wrong_price() {
    let mut book = OrderBook::new("energy");
    book.submit(OrderSide::Sell, 5, Ternary::Pos, "bob");
    book.submit(OrderSide::Buy, 5, Ternary::Neg, "alice");
    assert_eq!(book.trade_count(), 0);
    assert_eq!(book.open_buys().len(), 1);
    assert_eq!(book.open_sells().len(), 1);
}

#[test]
fn test_order_book_resource() {
    let book = OrderBook::new("gold");
    assert_eq!(book.resource(), "gold");
}

#[test]
fn test_price_discovery_bullish() {
    let mut pd = PriceDiscovery::new();
    pd.push(Ternary::Pos);
    pd.push(Ternary::Pos);
    pd.push(Ternary::Zero);
    assert_eq!(pd.current_signal(), Ternary::Pos);
}

#[test]
fn test_price_discovery_bearish() {
    let mut pd = PriceDiscovery::new();
    pd.push(Ternary::Neg);
    pd.push(Ternary::Neg);
    assert_eq!(pd.current_signal(), Ternary::Neg);
}

#[test]
fn test_price_discovery_neutral() {
    let mut pd = PriceDiscovery::new();
    pd.push(Ternary::Pos);
    pd.push(Ternary::Neg);
    assert_eq!(pd.current_signal(), Ternary::Zero);
}

#[test]
fn test_price_discovery_reset() {
    let mut pd = PriceDiscovery::new();
    pd.push(Ternary::Pos);
    pd.reset();
    assert_eq!(pd.signal_count(), 0);
    assert_eq!(pd.current_signal(), Ternary::Zero);
}

#[test]
fn test_market_maker_spread() {
    let mm = MarketMaker::new("mm1", Ternary::Pos);
    assert_eq!(mm.quote_buy(), Ternary::Zero);
    assert_eq!(mm.quote_sell(), Ternary::Pos);
    assert_eq!(mm.profit_margin(), 1);
}

#[test]
fn test_market_maker_zero_spread() {
    let mm = MarketMaker::new("mm1", Ternary::Zero);
    assert_eq!(mm.profit_margin(), 0);
}

#[test]
fn test_auction_english() {
    let mut a = Auction::new(AuctionType::English, "artifact", 10);
    a.bid("alice", 15, Ternary::Pos);
    a.bid("bob", 20, Ternary::Pos);
    a.bid("carol", 18, Ternary::Zero);
    a.close();
    let winner = a.winner().unwrap();
    assert_eq!(winner.bidder, "bob");
    assert_eq!(winner.amount, 20);
}

#[test]
fn test_auction_reserve_not_met() {
    let mut a = Auction::new(AuctionType::English, "artifact", 100);
    a.bid("alice", 50, Ternary::Pos);
    a.close();
    assert!(a.winner().is_none());
}

#[test]
fn test_auction_vickrey() {
    let mut a = Auction::new(AuctionType::Vickrey, "slot", 5);
    a.bid("alice", 30, Ternary::Pos);
    a.bid("bob", 25, Ternary::Zero);
    a.bid("carol", 20, Ternary::Neg);
    a.close();
    assert_eq!(a.winner().unwrap().bidder, "alice");
    assert_eq!(a.vickrey_price(), Some(25)); // second price
}

#[test]
fn test_auction_cannot_bid_after_close() {
    let mut a = Auction::new(AuctionType::Dutch, "x", 0);
    a.close();
    assert!(!a.bid("alice", 10, Ternary::Pos));
}

#[test]
fn test_portfolio_allocate() {
    let mut p = Portfolio::new();
    p.allocate("energy", 100, Ternary::Pos);
    assert_eq!(p.holding("energy"), 100);
    assert_eq!(p.signal("energy"), Some(Ternary::Pos));
}

#[test]
fn test_portfolio_deallocate() {
    let mut p = Portfolio::new();
    p.allocate("energy", 100, Ternary::Pos);
    assert!(p.deallocate("energy", 30));
    assert_eq!(p.holding("energy"), 70);
}

#[test]
fn test_portfolio_deallocate_full() {
    let mut p = Portfolio::new();
    p.allocate("energy", 100, Ternary::Pos);
    assert!(p.deallocate("energy", 100));
    assert_eq!(p.holding("energy"), 0);
    assert_eq!(p.signal("energy"), None);
}

#[test]
fn test_portfolio_deallocate_too_much() {
    let mut p = Portfolio::new();
    p.allocate("energy", 50, Ternary::Pos);
    assert!(!p.deallocate("energy", 100));
}

#[test]
fn test_portfolio_net_signal() {
    let mut p = Portfolio::new();
    p.allocate("a", 10, Ternary::Pos);
    p.allocate("b", 10, Ternary::Neg);
    assert_eq!(p.net_signal(), Ternary::Zero);
    p.allocate("c", 10, Ternary::Pos);
    assert_eq!(p.net_signal(), Ternary::Pos);
}

#[test]
fn test_market_submit_and_trade() {
    let mut m = Market::new();
    m.submit_order("energy", OrderSide::Sell, 10, Ternary::Pos, "bob");
    m.submit_order("energy", OrderSide::Buy, 10, Ternary::Pos, "alice");
    assert_eq!(m.total_trades(), 1);
    assert_eq!(m.current_signal(), Ternary::Pos);
}

#[test]
fn test_market_multiple_resources() {
    let mut m = Market::new();
    m.submit_order("energy", OrderSide::Buy, 5, Ternary::Pos, "a");
    m.submit_order("gold", OrderSide::Buy, 3, Ternary::Neg, "b");
    assert_eq!(m.resources().len(), 2);
}
