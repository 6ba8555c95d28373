//! Aggregation of ternary signals into a market direction.

use vstd::multiset::Multiset;
use vstd::prelude::*;

use crate::ternary::{Ternary, net_direction, sign_of, signal_sum};

verus! {

broadcast use vstd::seq_lib::group_to_multiset_ensures;

/// Ternary price signal discovery.
#[derive(Debug)]
pub struct PriceDiscovery {
    signals: Vec<Ternary>,
}

impl View for PriceDiscovery {
    type V = Seq<Ternary>;

    closed spec fn view(&self) -> Seq<Ternary> {
        self.signals@
    }
}

impl PriceDiscovery {
    pub fn new() -> (pd: Self)
        ensures
            pd@ == Seq::<Ternary>::empty(),
    {
        PriceDiscovery { signals: Vec::new() }
    }

    pub fn push(&mut self, signal: Ternary)
        ensures
            final(self)@ == old(self)@.push(signal),
    {
        self.signals.push(signal);
    }

    /// Current price signal: the sum tendency of all signals.
    /// Returns Pos if bullish, Neg if bearish, Zero if neutral.
    pub fn current_signal(&self) -> (r: Ternary)
        ensures
            r == sign_of(signal_sum(self@)),
    {
        net_direction(&self.signals)
    }

    pub fn signal_count(&self) -> (r: usize)
        ensures
            r == self@.len(),
    {
        self.signals.len()
    }

    /// Clear all signals.
    pub fn reset(&mut self)
        ensures
            final(self)@ == Seq::<Ternary>::empty(),
    {
        self.signals.clear();
    }
}

impl Default for PriceDiscovery {
    fn default() -> (pd: Self)
        ensures
            pd@ == Seq::<Ternary>::empty(),
    {
        Self::new()
    }
}

/// Every signal counts equally: the sum of a sequence of signals is the
/// number of `Pos` signals less the number of `Neg` signals, whatever their
/// order.
pub proof fn lemma_signal_sum_counts(s: Seq<Ternary>)
    ensures
        signal_sum(s) == s.to_multiset().count(Ternary::Pos) as int - s.to_multiset().count(
            Ternary::Neg,
        ) as int,
    decreases s.len(),
{
    if s.len() == 0 {
        assert(s.to_multiset() =~= Multiset::empty());
    } else {
        lemma_signal_sum_counts(s.drop_last());
        assert(s.drop_last().push(s.last()) =~= s);
    }
}

/// Two sequences that hold the same signals, in any order, give the same
/// direction.
pub proof fn lemma_direction_ignores_order(a: Seq<Ternary>, b: Seq<Ternary>)
    requires
        a.to_multiset() == b.to_multiset(),
    ensures
        sign_of(signal_sum(a)) == sign_of(signal_sum(b)),
{
    lemma_signal_sum_counts(a);
    lemma_signal_sum_counts(b);
}

impl Clone for PriceDiscovery {
    fn clone(&self) -> (r: Self)
        ensures
            r@ == self@,
    {
        let r = PriceDiscovery { signals: self.signals.clone() };
        assert(r.signals@ =~= self.signals@);
        r
    }
}

} // verus!
