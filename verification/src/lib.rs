//! Economic exchange and resource allocation in balanced ternary {-1, 0, +1} systems.
//!
//! Order books, price discovery, market makers, auctions and portfolios, all
//! driven by ternary price signals, with their behaviour stated as contracts
//! over mathematical models and proved.

pub mod auction;
pub mod book_laws;
pub mod market;
pub mod market_maker;
pub mod order;
pub mod order_book;
pub mod portfolio;
pub mod price_discovery;
pub mod ternary;

pub use auction::{Auction, AuctionType, Bid};
pub use market::Market;
pub use market_maker::MarketMaker;
pub use order::{Order, OrderSide, Trade};
pub use order_book::OrderBook;
pub use portfolio::Portfolio;
pub use price_discovery::PriceDiscovery;
pub use ternary::Ternary;
