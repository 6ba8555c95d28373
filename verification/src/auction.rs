//! One-off allocation of a resource by auction.
//!
//! English and Dutch auctions award the resource to the highest bid at or
//! above the reserve price; a Vickrey auction awards it the same way and
//! charges the second-highest such bid.

use vstd::prelude::*;

use crate::ternary::Ternary;

verus! {

/// Auction type.
#[derive(Debug, Clone, Copy, PartialEq, Eq, Structural)]
pub enum AuctionType {
    /// Ascending price.
    English,
    /// Descending price.
    Dutch,
    /// Sealed second-price.
    Vickrey,
}

/// A bid in an auction.
#[derive(Debug)]
pub struct Bid {
    pub bidder: String,
    pub amount: u32,
    pub signal: Ternary,
}

/// What a bid holds, with the bidder's name as a character sequence.
pub struct BidView {
    pub bidder: Seq<char>,
    pub amount: u32,
    pub signal: Ternary,
}

impl View for Bid {
    type V = BidView;

    open spec fn view(&self) -> BidView {
        BidView { bidder: self.bidder@, amount: self.amount, signal: self.signal }
    }
}

impl Clone for Bid {
    fn clone(&self) -> (r: Self)
        ensures
            r@ == self@,
    {
        Bid { bidder: self.bidder.clone(), amount: self.amount, signal: self.signal }
    }
}

/// The views of a sequence of bids.
pub open spec fn bids_view(s: Seq<Bid>) -> Seq<BidView> {
    s.map_values(|b: Bid| b@)
}

/// What an auction holds.
pub struct AuctionView {
    pub auction_type: AuctionType,
    pub resource: Seq<char>,
    pub bids: Seq<BidView>,
    pub reserve_price: u32,
    pub closed: bool,
}

/// The bid at index `i` meets the reserve price.
pub open spec fn eligible(bids: Seq<BidView>, reserve: u32, i: int) -> bool {
    0 <= i < bids.len() && bids[i].amount >= reserve
}

/// Some bid meets the reserve price.
pub open spec fn has_eligible(bids: Seq<BidView>, reserve: u32) -> bool {
    exists|i: int| #[trigger] eligible(bids, reserve, i)
}

/// The bid at index `i` wins: it meets the reserve, no eligible bid is
/// higher, and every eligible bid placed after it is lower (of equally high
/// bids, the last one placed wins).
pub open spec fn is_winner(bids: Seq<BidView>, reserve: u32, i: int) -> bool {
    &&& eligible(bids, reserve, i)
    &&& forall|j: int| #[trigger] eligible(bids, reserve, j) ==> bids[j].amount <= bids[i].amount
    &&& forall|j: int| i < j && #[trigger] eligible(bids, reserve, j) ==> bids[j].amount < bids[i].amount
}

/// The number of bids that meet the reserve and are at least `p`.
pub open spec fn count_at_least(bids: Seq<BidView>, reserve: u32, p: int) -> nat
    decreases bids.len(),
{
    if bids.len() == 0 {
        0
    } else {
        count_at_least(bids.drop_last(), reserve, p) + if bids.last().amount >= reserve
            && bids.last().amount >= p {
            1nat
        } else {
            0nat
        }
    }
}

/// The number of bids that meet the reserve and are above `p`.
pub open spec fn count_above(bids: Seq<BidView>, reserve: u32, p: int) -> nat
    decreases bids.len(),
{
    if bids.len() == 0 {
        0
    } else {
        count_above(bids.drop_last(), reserve, p) + if bids.last().amount >= reserve
            && bids.last().amount > p {
            1nat
        } else {
            0nat
        }
    }
}

/// `p` is the second-highest of the bids that meet the reserve: at least two
/// of them are `p` or more, and at most one is above `p`.
pub open spec fn is_second_price(bids: Seq<BidView>, reserve: u32, p: int) -> bool {
    count_at_least(bids, reserve, p) >= 2 && count_above(bids, reserve, p) <= 1
}

/// An auction for resource allocation.
#[derive(Debug)]
pub struct Auction {
    pub auction_type: AuctionType,
    pub resource: String,
    bids: Vec<Bid>,
    reserve_price: u32,
    closed: bool,
}

impl View for Auction {
    type V = AuctionView;

    closed spec fn view(&self) -> AuctionView {
        AuctionView {
            auction_type: self.auction_type,
            resource: self.resource@,
            bids: bids_view(self.bids@),
            reserve_price: self.reserve_price,
            closed: self.closed,
        }
    }
}

impl Auction {
    pub fn new(auction_type: AuctionType, resource: &str, reserve_price: u32) -> (a: Self)
        ensures
            a@ == (AuctionView {
                auction_type: auction_type,
                resource: resource@,
                bids: seq![],
                reserve_price: reserve_price,
                closed: false,
            }),
    {
        let a = Auction {
            auction_type,
            resource: resource.to_owned(),
            bids: Vec::new(),
            reserve_price,
            closed: false,
        };
        assert(a@.bids =~= seq![]);
        a
    }

    /// Places a bid; refused, leaving the auction unchanged, once it is closed.
    pub fn bid(&mut self, bidder: &str, amount: u32, signal: Ternary) -> (accepted: bool)
        ensures
            accepted == !old(self)@.closed,
            final(self)@ == if accepted {
                AuctionView {
                    bids: old(self)@.bids.push(
                        BidView { bidder: bidder@, amount: amount, signal: signal },
                    ),
                    ..old(self)@
                }
            } else {
                old(self)@
            },
    {
        if self.closed {
            return false;
        }
        let b = Bid { bidder: bidder.to_owned(), amount, signal };
        self.bids.push(b);
        proof {
            assert(bids_view(self.bids@) =~= bids_view(old(self).bids@).push(b@));
        }
        true
    }

    pub fn close(&mut self)
        ensures
            final(self)@ == (AuctionView { closed: true, ..old(self)@ }),
    {
        self.closed = true;
    }

    /// Determine the winner based on auction type.
    pub fn winner(&self) -> (r: Option<&Bid>)
        ensures
            r is None <==> !self@.closed || !has_eligible(self@.bids, self@.reserve_price),
            r matches Some(b) ==> exists|i: int|
                #[trigger] is_winner(self@.bids, self@.reserve_price, i) && b@ == self@.bids[i],
    {
        if !self.closed || self.bids.len() == 0 {
            return None;
        }
        let ghost bids = self@.bids;
        let reserve = self.reserve_price;
        let mut best: usize = 0;
        let mut found = false;
        let mut i: usize = 0;
        while i < self.bids.len()
            invariant
                i <= self.bids.len(),
                bids == self@.bids,
                reserve == self@.reserve_price,
                !found ==> forall|j: int| 0 <= j < i ==> !#[trigger] eligible(bids, reserve, j),
                found ==> best < i,
                found ==> eligible(bids, reserve, best as int),
                found ==> forall|j: int|
                    0 <= j < i && #[trigger] eligible(bids, reserve, j) ==> bids[j].amount
                        <= bids[best as int].amount,
                found ==> forall|j: int|
                    best < j < i && #[trigger] eligible(bids, reserve, j) ==> bids[j].amount
                        < bids[best as int].amount,
            decreases self.bids.len() - i,
        {
            assert(bids[i as int] == self.bids[i as int]@);
            if self.bids[i].amount >= reserve && (!found || self.bids[i].amount
                >= self.bids[best].amount) {
                assert(found ==> bids[best as int] == self.bids[best as int]@);
                best = i;
                found = true;
            }
            i = i + 1;
        }
        if found {
            assert(is_winner(bids, reserve, best as int));
            Some(&self.bids[best])
        } else {
            None
        }
    }

    /// For Vickrey: the price the winner pays (second-highest bid).
    pub fn vickrey_price(&self) -> (r: Option<u32>)
        ensures
            self@.auction_type != AuctionType::Vickrey || self@.bids.len() < 2 ==> r is None,
            self@.auction_type == AuctionType::Vickrey && self@.bids.len() >= 2 ==> {
                &&& r is None <==> count_at_least(self@.bids, self@.reserve_price, 0) < 2
                &&& r matches Some(p) ==> is_second_price(self@.bids, self@.reserve_price, p as int)
            },
    {
        if self.auction_type != AuctionType::Vickrey || self.bids.len() < 2 {
            return None;
        }
        let ghost bids = self@.bids;
        let reserve = self.reserve_price;
        let mut top: u32 = 0;
        let mut second: u32 = 0;
        let mut count: usize = 0;
        let mut i: usize = 0;
        while i < self.bids.len()
            invariant
                i <= self.bids.len(),
                bids == self@.bids,
                reserve == self@.reserve_price,
                count == count_at_least(bids.take(i as int), reserve, 0),
                count <= i,
                count >= 1 ==> count_above(bids.take(i as int), reserve, top as int) == 0
                    && count_at_least(bids.take(i as int), reserve, top as int) >= 1,
                count >= 2 ==> is_second_price(bids.take(i as int), reserve, second as int)
                    && second <= top,
            decreases self.bids.len() - i,
        {
            let ghost prev = bids.take(i as int);
            let x = self.bids[i].amount;
            proof {
                assert(bids.take(i + 1) =~= prev.push(bids[i as int]));
                assert(bids.take(i + 1).drop_last() =~= prev);
                lemma_counts_bounded(prev, reserve, top as int);
                lemma_counts_bounded(prev, reserve, second as int);
                lemma_counts_bounded(prev, reserve, x as int);
                lemma_counts_monotone(prev, reserve, x as int, top as int);
                lemma_counts_monotone(prev, reserve, top as int, x as int);
                lemma_counts_monotone(prev, reserve, second as int, x as int);
                lemma_counts_monotone(prev, reserve, x as int, second as int);
                lemma_counts_monotone(prev, reserve, 0, x as int);
            }
            if x >= reserve {
                if count == 0 {
                    top = x;
                } else if x >= top {
                    second = top;
                    top = x;
                } else if count == 1 || x > second {
                    second = x;
                }
                count = count + 1;
            }
            i = i + 1;
        }
        assert(bids.take(i as int) =~= bids);
        if count >= 2 {
            Some(second)
        } else {
            None
        }
    }

    pub fn bid_count(&self) -> (r: usize)
        ensures
            r == self@.bids.len(),
    {
        self.bids.len()
    }

    pub fn is_closed(&self) -> (r: bool)
        ensures
            r == self@.closed,
    {
        self.closed
    }
}

/// Counting bids at or above a threshold never finds more than counting
/// those above a lower one, or than counting every eligible bid.
proof fn lemma_counts_monotone(bids: Seq<BidView>, reserve: u32, p: int, q: int)
    ensures
        p <= q ==> count_at_least(bids, reserve, q) <= count_at_least(bids, reserve, p),
        p <= q ==> count_above(bids, reserve, q) <= count_above(bids, reserve, p),
        p < q ==> count_at_least(bids, reserve, q) <= count_above(bids, reserve, p),
    decreases bids.len(),
{
    if bids.len() > 0 {
        lemma_counts_monotone(bids.drop_last(), reserve, p, q);
    }
}

/// Bids above `p` are among those at or above it, and these among all
/// eligible bids when `p` is not negative.
proof fn lemma_counts_bounded(bids: Seq<BidView>, reserve: u32, p: int)
    ensures
        count_above(bids, reserve, p) <= count_at_least(bids, reserve, p),
        p >= 0 ==> count_at_least(bids, reserve, p) <= count_at_least(bids, reserve, 0),
        count_at_least(bids, reserve, p) <= bids.len(),
    decreases bids.len(),
{
    if bids.len() > 0 {
        lemma_counts_bounded(bids.drop_last(), reserve, p);
    }
}

/// At most one bid wins.
pub proof fn lemma_winner_unique(bids: Seq<BidView>, reserve: u32, i: int, j: int)
    requires
        is_winner(bids, reserve, i),
        is_winner(bids, reserve, j),
    ensures
        i == j,
{
    assert(eligible(bids, reserve, i) && eligible(bids, reserve, j));
}

/// Whenever some bid meets the reserve, a bid wins.
pub proof fn lemma_winner_exists(bids: Seq<BidView>, reserve: u32)
    ensures
        has_eligible(bids, reserve) ==> exists|i: int| #[trigger] is_winner(bids, reserve, i),
    decreases bids.len(),
{
    if bids.len() > 0 {
        let pre = bids.drop_last();
        let n = bids.len() - 1;
        lemma_winner_exists(pre, reserve);
        assert forall|j: int| #[trigger] eligible(pre, reserve, j) implies eligible(bids, reserve, j)
            && pre[j] == bids[j] by {}
        assert forall|j: int| #[trigger] eligible(bids, reserve, j) && j != n implies eligible(
            pre,
            reserve,
            j,
        ) by {}
        if has_eligible(pre, reserve) {
            let w = choose|w: int| #[trigger] is_winner(pre, reserve, w);
            if bids[n].amount >= reserve && bids[n].amount >= bids[w].amount {
                assert forall|j: int| #[trigger] eligible(bids, reserve, j) implies bids[j].amount
                    <= bids[n].amount by {
                    if j != n {
                        assert(eligible(pre, reserve, j));
                    }
                }
                assert(is_winner(bids, reserve, n));
            } else {
                assert forall|j: int| #[trigger] eligible(bids, reserve, j) implies bids[j].amount
                    <= bids[w].amount by {
                    if j != n {
                        assert(eligible(pre, reserve, j));
                    }
                }
                assert forall|j: int| w < j && #[trigger] eligible(bids, reserve, j) implies bids[j].amount
                    < bids[w].amount by {
                    if j != n {
                        assert(eligible(pre, reserve, j));
                    }
                }
                assert(is_winner(bids, reserve, w));
            }
        } else if has_eligible(bids, reserve) {
            let e = choose|e: int| #[trigger] eligible(bids, reserve, e);
            if e != n {
                assert(eligible(pre, reserve, e));
            }
            assert forall|j: int| #[trigger] eligible(bids, reserve, j) implies j == n by {
                if j != n {
                    assert(eligible(pre, reserve, j));
                }
            }
            assert(is_winner(bids, reserve, n));
        }
    }
}

/// At most one amount is the second price.
pub proof fn lemma_second_price_unique(bids: Seq<BidView>, reserve: u32, p: int, q: int)
    requires
        is_second_price(bids, reserve, p),
        is_second_price(bids, reserve, q),
    ensures
        p == q,
{
    lemma_counts_monotone(bids, reserve, p, q);
    lemma_counts_monotone(bids, reserve, q, p);
}

/// If no eligible bid exceeds `a`, no eligible bid reaches a threshold above `a`.
proof fn lemma_none_reach_above(bids: Seq<BidView>, reserve: u32, a: int, p: int)
    requires
        forall|j: int| #[trigger] eligible(bids, reserve, j) ==> bids[j].amount <= a,
        p > a,
    ensures
        count_at_least(bids, reserve, p) == 0,
    decreases bids.len(),
{
    if bids.len() > 0 {
        let pre = bids.drop_last();
        assert forall|j: int| #[trigger] eligible(pre, reserve, j) implies pre[j].amount <= a by {
            assert(eligible(bids, reserve, j));
        }
        lemma_none_reach_above(pre, reserve, a, p);
        assert(eligible(bids, reserve, bids.len() - 1) ==> bids.last().amount <= a);
    }
}

/// In a second-price auction the winner never pays more than it bid.
pub proof fn lemma_second_price_within_winning_bid(
    bids: Seq<BidView>,
    reserve: u32,
    i: int,
    p: int,
)
    requires
        is_winner(bids, reserve, i),
        is_second_price(bids, reserve, p),
    ensures
        p <= bids[i].amount,
{
    if p > bids[i].amount {
        lemma_none_reach_above(bids, reserve, bids[i].amount as int, p);
    }
}

impl Clone for Auction {
    fn clone(&self) -> (r: Self)
        ensures
            r@ == self@,
    {
        let r = Auction {
            auction_type: self.auction_type,
            resource: self.resource.clone(),
            bids: self.bids.clone(),
            reserve_price: self.reserve_price,
            closed: self.closed,
        };
        assert(bids_view(r.bids@) =~= bids_view(self.bids@));
        r
    }
}

} // verus!
