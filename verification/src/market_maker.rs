//! A liquidity provider that quotes a buy and a sell signal a spread apart.

use vstd::prelude::*;

use crate::ternary::Ternary;

verus! {

/// The buy and sell quotes that a spread stands for: a `Pos` spread buys at
/// `Zero` and sells at `Pos`, a `Neg` spread buys at `Neg` and sells at
/// `Zero`, and a `Zero` spread quotes `Zero` on both sides.
pub open spec fn spread_quotes(spread: Ternary) -> (Ternary, Ternary) {
    match spread {
        Ternary::Pos => (Ternary::Zero, Ternary::Pos),
        Ternary::Zero => (Ternary::Zero, Ternary::Zero),
        Ternary::Neg => (Ternary::Neg, Ternary::Zero),
    }
}

/// Provides liquidity by maintaining standing buy/sell orders.
#[derive(Debug)]
pub struct MarketMaker {
    pub name: String,
    pub spread: Ternary,
    buy_signal: Ternary,
    sell_signal: Ternary,
}

/// What a market maker holds: its name, its spread, and its two quotes.
pub struct MarketMakerView {
    pub name: Seq<char>,
    pub spread: Ternary,
    pub buy_quote: Ternary,
    pub sell_quote: Ternary,
}

impl View for MarketMaker {
    type V = MarketMakerView;

    closed spec fn view(&self) -> MarketMakerView {
        MarketMakerView {
            name: self.name@,
            spread: self.spread,
            buy_quote: self.buy_signal,
            sell_quote: self.sell_signal,
        }
    }
}

impl MarketMaker {
    pub fn new(name: &str, spread: Ternary) -> (mm: Self)
        ensures
            mm@.name == name@,
            mm@.spread == spread,
            (mm@.buy_quote, mm@.sell_quote) == spread_quotes(spread),
    {
        let (buy, sell) = match spread {
            Ternary::Pos => (Ternary::Zero, Ternary::Pos),
            Ternary::Zero => (Ternary::Zero, Ternary::Zero),
            Ternary::Neg => (Ternary::Neg, Ternary::Zero),
        };
        MarketMaker { name: name.to_owned(), spread, buy_signal: buy, sell_signal: sell }
    }

    pub fn quote_buy(&self) -> (r: Ternary)
        ensures
            r == self@.buy_quote,
    {
        self.buy_signal
    }

    pub fn quote_sell(&self) -> (r: Ternary)
        ensures
            r == self@.sell_quote,
    {
        self.sell_signal
    }

    pub fn profit_margin(&self) -> (r: i8)
        ensures
            r == self@.sell_quote.value() - self@.buy_quote.value(),
    {
        self.sell_signal.to_i8() - self.buy_signal.to_i8()
    }
}

/// The quotes of every spread are never crossed, and the margin between
/// them is the size of the spread: 1 for `Pos` and `Neg`, 0 for `Zero`.
pub proof fn lemma_spread_margin(spread: Ternary)
    ensures
        spread_quotes(spread).0.value() <= spread_quotes(spread).1.value(),
        spread_quotes(spread).1.value() - spread_quotes(spread).0.value() == if spread.value()
            < 0 {
            -spread.value()
        } else {
            spread.value()
        },
{
}

impl Clone for MarketMaker {
    fn clone(&self) -> (r: Self)
        ensures
            r@ == self@,
    {
        MarketMaker {
            name: self.name.clone(),
            spread: self.spread,
            buy_signal: self.buy_signal,
            sell_signal: self.sell_signal,
        }
    }
}

} // verus!
