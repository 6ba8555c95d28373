//! Holdings of several resources, each with the ternary signal it was
//! last allocated with.

use vstd::prelude::*;

use crate::ternary::{Ternary, net_direction, sign_of, signal_sum};

verus! {

/// One resource held: how much of it, and its signal.
pub struct Position {
    pub resource: Seq<char>,
    pub amount: u32,
    pub signal: Ternary,
}

/// The index of the first position in `s` for resource `r`, or -1.
pub open spec fn position_index(s: Seq<Position>, r: Seq<char>) -> int
    decreases s.len(),
{
    if s.len() == 0 {
        -1
    } else {
        let k = position_index(s.drop_last(), r);
        if k >= 0 {
            k
        } else if s.last().resource == r {
            s.len() - 1
        } else {
            -1
        }
    }
}

/// `r` is held nowhere in `s`.
pub open spec fn absent(s: Seq<Position>, r: Seq<char>) -> bool {
    forall|j: int| 0 <= j < s.len() ==> #[trigger] s[j].resource != r
}

/// Position `k` is the first one in `s` for `r`.
pub open spec fn first_at(s: Seq<Position>, r: Seq<char>, k: int) -> bool {
    &&& 0 <= k < s.len()
    &&& s[k].resource == r
    &&& forall|j: int| 0 <= j < k ==> #[trigger] s[j].resource != r
}

/// How much of `r` is held (0 when it is not held).
pub open spec fn holding_of(s: Seq<Position>, r: Seq<char>) -> u32 {
    let k = position_index(s, r);
    if k >= 0 {
        s[k].amount
    } else {
        0
    }
}

/// The signal that `r` is held with, if it is held.
pub open spec fn signal_of(s: Seq<Position>, r: Seq<char>) -> Option<Ternary> {
    let k = position_index(s, r);
    if k >= 0 {
        Some(s[k].signal)
    } else {
        None
    }
}

/// The holdings after `amount` of `r` is allocated with `signal`: the amount
/// is added to what is held of `r`, and `signal` replaces its signal.
pub open spec fn spec_allocate(s: Seq<Position>, r: Seq<char>, amount: u32, signal: Ternary) -> Seq<
    Position,
> {
    let k = position_index(s, r);
    if k >= 0 {
        s.update(
            k,
            Position { resource: r, amount: (s[k].amount + amount) as u32, signal: signal },
        )
    } else {
        s.push(Position { resource: r, amount: amount, signal: signal })
    }
}

/// A deallocation of `amount` of `r` succeeds: `r` is held, and at least
/// `amount` of it.
pub open spec fn deallocate_succeeds(s: Seq<Position>, r: Seq<char>, amount: u32) -> bool {
    position_index(s, r) >= 0 && s[position_index(s, r)].amount >= amount
}

/// The holdings after a deallocation: when it succeeds the amount is taken
/// from `r`, and a resource whose holding reaches 0 is dropped with its
/// signal; otherwise nothing changes.
pub open spec fn spec_deallocate(s: Seq<Position>, r: Seq<char>, amount: u32) -> Seq<Position> {
    let k = position_index(s, r);
    if deallocate_succeeds(s, r, amount) {
        if s[k].amount == amount {
            s.remove(k)
        } else {
            s.update(
                k,
                Position {
                    resource: s[k].resource,
                    amount: (s[k].amount - amount) as u32,
                    signal: s[k].signal,
                },
            )
        }
    } else {
        s
    }
}

/// No resource is held in two positions.
pub open spec fn distinct_resources(s: Seq<Position>) -> bool {
    forall|i: int, j: int|
        0 <= i < j < s.len() ==> #[trigger] s[i].resource != #[trigger] s[j].resource
}

/// The total amount held over all resources.
pub open spec fn total_amount(s: Seq<Position>) -> nat
    decreases s.len(),
{
    if s.len() == 0 {
        0
    } else {
        total_amount(s.drop_last()) + s.last().amount as nat
    }
}

/// The signals of all positions.
pub open spec fn position_signals(s: Seq<Position>) -> Seq<Ternary> {
    s.map_values(|p: Position| p.signal)
}

/// `position_index` finds the first position for `r`, or reports that there
/// is none.
pub proof fn lemma_position_index(s: Seq<Position>, r: Seq<char>)
    ensures
        position_index(s, r) == -1 && absent(s, r) || first_at(s, r, position_index(s, r)),
    decreases s.len(),
{
    if s.len() > 0 {
        let pre = s.drop_last();
        lemma_position_index(pre, r);
        let k = position_index(pre, r);
        if k >= 0 {
            assert(first_at(pre, r, k));
            assert forall|j: int| 0 <= j < k implies #[trigger] s[j].resource != r by {
                assert(s[j] == pre[j]);
            }
        } else {
            assert forall|j: int| 0 <= j < pre.len() implies #[trigger] s[j].resource != r by {
                assert(s[j] == pre[j]);
            }
        }
    }
}

/// Whatever is the first position for `r` is the one `position_index` finds.
pub proof fn lemma_first_at_is_index(s: Seq<Position>, r: Seq<char>, k: int)
    requires
        first_at(s, r, k),
    ensures
        position_index(s, r) == k,
{
    lemma_position_index(s, r);
    let p = position_index(s, r);
    if p != k {
        if p == -1 {
            assert(s[k].resource != r);
        } else if p < k {
            assert(s[p].resource != r);
        } else {
            assert(s[k].resource != r);
        }
    }
}

/// A resource held nowhere has no index.
pub proof fn lemma_absent_has_no_index(s: Seq<Position>, r: Seq<char>)
    requires
        absent(s, r),
    ensures
        position_index(s, r) == -1,
{
    lemma_position_index(s, r);
    if position_index(s, r) != -1 {
        assert(s[position_index(s, r)].resource != r);
    }
}

/// A position: one resource held, its amount and its signal.
#[derive(Debug)]
struct Holding {
    resource: String,
    amount: u32,
    signal: Ternary,
}

impl View for Holding {
    type V = Position;

    closed spec fn view(&self) -> Position {
        Position { resource: self.resource@, amount: self.amount, signal: self.signal }
    }
}

impl Clone for Holding {
    fn clone(&self) -> (r: Self)
        ensures
            r@ == self@,
    {
        Holding { resource: self.resource.clone(), amount: self.amount, signal: self.signal }
    }
}

spec fn holdings_view(s: Seq<Holding>) -> Seq<Position> {
    s.map_values(|h: Holding| h@)
}

/// Resource allocation across multiple resources.
#[derive(Debug)]
pub struct Portfolio {
    holdings: Vec<Holding>,
}

impl View for Portfolio {
    type V = Seq<Position>;

    closed spec fn view(&self) -> Seq<Position> {
        holdings_view(self.holdings@)
    }
}

impl Portfolio {
    /// No resource is held in two positions.
    #[verifier::type_invariant]
    spec fn one_position_per_resource(self) -> bool {
        distinct_resources(self@)
    }

    pub fn new() -> (p: Self)
        ensures
            p@ == Seq::<Position>::empty(),
    {
        let p = Portfolio { holdings: Vec::new() };
        assert(p@ =~= Seq::<Position>::empty());
        p
    }

    /// The index of the position for `resource`, if there is one.
    fn find(&self, resource: &String) -> (r: Option<usize>)
        ensures
            match r {
                Some(k) => k == position_index(self@, resource@) && first_at(self@, resource@, k as int),
                None => position_index(self@, resource@) == -1,
            },
    {
        let mut i: usize = 0;
        while i < self.holdings.len()
            invariant
                i <= self.holdings.len(),
                forall|j: int| 0 <= j < i ==> #[trigger] self@[j].resource != resource@,
            decreases self.holdings.len() - i,
        {
            assert(self@[i as int] == self.holdings@[i as int]@);
            if self.holdings[i].resource == *resource {
                proof {
                    lemma_first_at_is_index(self@, resource@, i as int);
                }
                return Some(i);
            }
            i = i + 1;
        }
        proof {
            lemma_absent_has_no_index(self@, resource@);
        }
        None
    }

    pub fn allocate(&mut self, resource: &str, amount: u32, signal: Ternary)
        requires
            holding_of(old(self)@, resource@) + amount <= u32::MAX,
        ensures
            final(self)@ == spec_allocate(old(self)@, resource@, amount, signal),
            distinct_resources(old(self)@),
            distinct_resources(final(self)@),
    {
        proof {
            use_type_invariant(&*self);
            lemma_updates_keep_distinct(self@, resource@, amount, signal);
        }
        let key = resource.to_owned();
        let found = self.find(&key);
        let mut hs: Vec<Holding> = Vec::new();
        std::mem::swap(&mut hs, &mut self.holdings);
        let ghost before = hs@;
        assert(holdings_view(before) == old(self)@);
        match found {
            Some(k) => {
                proof {
                    lemma_position_index(old(self)@, resource@);
                }
                assert(old(self)@[k as int] == hs@[k as int]@);
                let held = hs[k].amount;
                let h = Holding { resource: key, amount: held + amount, signal };
                hs.set(k, h);
                proof {
                    assert(holdings_view(hs@) =~= holdings_view(before).update(k as int, h@));
                }
            },
            None => {
                let h = Holding { resource: key, amount, signal };
                hs.push(h);
                proof {
                    assert(holdings_view(hs@) =~= holdings_view(before).push(h@));
                }
            },
        }
        self.holdings = hs;
    }

    pub fn deallocate(&mut self, resource: &str, amount: u32) -> (r: bool)
        ensures
            r == deallocate_succeeds(old(self)@, resource@, amount),
            final(self)@ == spec_deallocate(old(self)@, resource@, amount),
            distinct_resources(old(self)@),
            distinct_resources(final(self)@),
    {
        proof {
            use_type_invariant(&*self);
            lemma_updates_keep_distinct(self@, resource@, amount, Ternary::Zero);
        }
        let key = resource.to_owned();
        match self.find(&key) {
            Some(k) => {
                assert(self@[k as int] == self.holdings@[k as int]@);
                let held = self.holdings[k].amount;
                if held >= amount {
                    let mut hs: Vec<Holding> = Vec::new();
                    std::mem::swap(&mut hs, &mut self.holdings);
                    let ghost before = hs@;
                    assert(holdings_view(before) == old(self)@);
                    if held - amount == 0 {
                        hs.remove(k);
                        proof {
                            assert(holdings_view(hs@) =~= holdings_view(before).remove(k as int));
                        }
                    } else {
                        let h = Holding {
                            resource: hs[k].resource.clone(),
                            amount: held - amount,
                            signal: hs[k].signal,
                        };
                        hs.set(k, h);
                        proof {
                            assert(holdings_view(hs@) =~= holdings_view(before).update(k as int, h@));
                        }
                    }
                    self.holdings = hs;
                    return true;
                }
                false
            },
            None => false,
        }
    }

    pub fn holding(&self, resource: &str) -> (r: u32)
        ensures
            r == holding_of(self@, resource@),
            distinct_resources(self@),
    {
        proof {
            use_type_invariant(self);
        }
        let key = resource.to_owned();
        match self.find(&key) {
            Some(k) => {
                assert(self@[k as int] == self.holdings@[k as int]@);
                self.holdings[k].amount
            },
            None => 0,
        }
    }

    pub fn signal(&self, resource: &str) -> (r: Option<Ternary>)
        ensures
            r == signal_of(self@, resource@),
            distinct_resources(self@),
    {
        proof {
            use_type_invariant(self);
        }
        let key = resource.to_owned();
        match self.find(&key) {
            Some(k) => {
                assert(self@[k as int] == self.holdings@[k as int]@);
                Some(self.holdings[k].signal)
            },
            None => None,
        }
    }

    /// Net ternary signal across all holdings (sum of signals).
    pub fn net_signal(&self) -> (r: Ternary)
        ensures
            r == sign_of(signal_sum(position_signals(self@))),
            distinct_resources(self@),
    {
        proof {
            use_type_invariant(self);
        }
        let mut signals: Vec<Ternary> = Vec::new();
        let mut i: usize = 0;
        while i < self.holdings.len()
            invariant
                i <= self.holdings.len(),
                signals@ == position_signals(self@.take(i as int)),
            decreases self.holdings.len() - i,
        {
            assert(self@[i as int] == self.holdings@[i as int]@);
            signals.push(self.holdings[i].signal);
            assert(position_signals(self@.take(i + 1)) =~= position_signals(self@.take(i as int)).push(
                self@[i as int].signal,
            ));
            i = i + 1;
        }
        assert(self@.take(i as int) =~= self@);
        net_direction(&signals)
    }

    pub fn resource_count(&self) -> (r: usize)
        ensures
            r == self@.len(),
            distinct_resources(self@),
    {
        proof {
            use_type_invariant(self);
        }
        self.holdings.len()
    }

    pub fn total_holdings(&self) -> (r: u32)
        requires
            total_amount(self@) <= u32::MAX,
        ensures
            r == total_amount(self@),
            distinct_resources(self@),
    {
        proof {
            use_type_invariant(self);
        }
        let mut sum: u32 = 0;
        let mut i: usize = 0;
        while i < self.holdings.len()
            invariant
                i <= self.holdings.len(),
                total_amount(self@) <= u32::MAX,
                sum == total_amount(self@.take(i as int)),
            decreases self.holdings.len() - i,
        {
            assert(self@[i as int] == self.holdings@[i as int]@);
            assert(self@.take(i + 1).drop_last() =~= self@.take(i as int));
            proof {
                lemma_total_prefix(self@, i + 1);
            }
            sum = sum + self.holdings[i].amount;
            i = i + 1;
        }
        assert(self@.take(i as int) =~= self@);
        sum
    }
}

impl Default for Portfolio {
    fn default() -> (p: Self)
        ensures
            p@ == Seq::<Position>::empty(),
    {
        Self::new()
    }
}

/// A prefix of the positions holds no more than all of them.
proof fn lemma_total_prefix(s: Seq<Position>, n: int)
    requires
        0 <= n <= s.len(),
    ensures
        total_amount(s.take(n)) <= total_amount(s),
    decreases s.len(),
{
    if n == s.len() {
        assert(s.take(n) =~= s);
    } else {
        assert(s.drop_last().take(n) =~= s.take(n));
        lemma_total_prefix(s.drop_last(), n);
    }
}

/// Replacing a position by one for the same resource moves no index.
proof fn lemma_index_after_update(s: Seq<Position>, k: int, p: Position, r: Seq<char>)
    requires
        0 <= k < s.len(),
        p.resource == s[k].resource,
    ensures
        position_index(s.update(k, p), r) == position_index(s, r),
{
    let t = s.update(k, p);
    lemma_position_index(s, r);
    let i = position_index(s, r);
    if i >= 0 {
        assert forall|j: int| 0 <= j < i implies #[trigger] t[j].resource != r by {
            assert(s[j].resource != r);
        }
        assert(first_at(t, r, i));
        lemma_first_at_is_index(t, r, i);
    } else {
        assert forall|j: int| 0 <= j < t.len() implies #[trigger] t[j].resource != r by {
            assert(s[j].resource != r);
        }
        lemma_absent_has_no_index(t, r);
    }
}

/// Appending a position moves no index, and gives an unheld resource one.
proof fn lemma_index_after_push(s: Seq<Position>, p: Position, r: Seq<char>)
    ensures
        position_index(s, r) >= 0 ==> position_index(s.push(p), r) == position_index(s, r),
        position_index(s, r) < 0 && p.resource == r ==> position_index(s.push(p), r) == s.len(),
        position_index(s, r) < 0 && p.resource != r ==> position_index(s.push(p), r) == -1,
{
    assert(s.push(p).drop_last() =~= s);
}

/// Removing the only position of a resource leaves that resource unheld and
/// shifts the later positions of other resources down by one.
proof fn lemma_index_after_remove(s: Seq<Position>, k: int, r: Seq<char>)
    requires
        0 <= k < s.len(),
        distinct_resources(s),
    ensures
        r == s[k].resource ==> position_index(s.remove(k), r) == -1,
        r != s[k].resource ==> {
            let i = position_index(s, r);
            position_index(s.remove(k), r) == if i < 0 {
                -1
            } else if i < k {
                i
            } else {
                i - 1
            }
        },
{
    let t = s.remove(k);
    lemma_position_index(s, r);
    let i = position_index(s, r);
    if r == s[k].resource {
        assert forall|j: int| 0 <= j < t.len() implies #[trigger] t[j].resource != r by {
            if j < k {
                assert(s[j].resource != s[k].resource);
            } else {
                assert(s[j + 1].resource != s[k].resource);
            }
        }
        lemma_absent_has_no_index(t, r);
    } else if i < 0 {
        assert forall|j: int| 0 <= j < t.len() implies #[trigger] t[j].resource != r by {
            if j >= k {
                assert(t[j] == s[j + 1]);
            }
        }
        lemma_absent_has_no_index(t, r);
    } else if i < k {
        assert forall|j: int| 0 <= j < i implies #[trigger] t[j].resource != r by {
            assert(s[j].resource != r);
        }
        assert(first_at(t, r, i));
        lemma_first_at_is_index(t, r, i);
    } else {
        assert(i != k);
        assert forall|j: int| 0 <= j < i - 1 implies #[trigger] t[j].resource != r by {
            if j >= k {
                assert(t[j] == s[j + 1]);
            }
        }
        assert(t[i - 1] == s[i]);
        assert(first_at(t, r, i - 1));
        lemma_first_at_is_index(t, r, i - 1);
    }
}

proof fn lemma_total_update(s: Seq<Position>, k: int, p: Position)
    requires
        0 <= k < s.len(),
    ensures
        total_amount(s.update(k, p)) + s[k].amount == total_amount(s) + p.amount,
    decreases s.len(),
{
    let t = s.update(k, p);
    if k == s.len() - 1 {
        assert(t.drop_last() =~= s.drop_last());
    } else {
        assert(t.drop_last() =~= s.drop_last().update(k, p));
        lemma_total_update(s.drop_last(), k, p);
    }
}

proof fn lemma_total_remove(s: Seq<Position>, k: int)
    requires
        0 <= k < s.len(),
    ensures
        total_amount(s.remove(k)) + s[k].amount == total_amount(s),
    decreases s.len(),
{
    let t = s.remove(k);
    if k == s.len() - 1 {
        assert(t =~= s.drop_last());
    } else {
        assert(t.drop_last() =~= s.drop_last().remove(k));
        lemma_total_remove(s.drop_last(), k);
    }
}

/// Allocating adds the amount to the resource and gives it the new signal;
/// every other resource keeps its holding and signal; and the total held
/// grows by the amount.
pub proof fn lemma_allocate_effect(
    s: Seq<Position>,
    r: Seq<char>,
    amount: u32,
    signal: Ternary,
    other: Seq<char>,
)
    requires
        holding_of(s, r) + amount <= u32::MAX,
    ensures
        holding_of(spec_allocate(s, r, amount, signal), r) == holding_of(s, r) + amount,
        signal_of(spec_allocate(s, r, amount, signal), r) == Some(signal),
        other != r ==> holding_of(spec_allocate(s, r, amount, signal), other) == holding_of(
            s,
            other,
        ),
        other != r ==> signal_of(spec_allocate(s, r, amount, signal), other) == signal_of(
            s,
            other,
        ),
        total_amount(spec_allocate(s, r, amount, signal)) == total_amount(s) + amount,
{
    lemma_position_index(s, r);
    lemma_position_index(s, other);
    let k = position_index(s, r);
    let i = position_index(s, other);
    if k >= 0 {
        let p = Position { resource: r, amount: (s[k].amount + amount) as u32, signal: signal };
        if other != r && i >= 0 {
            assert(i != k);
        }
        lemma_index_after_update(s, k, p, r);
        lemma_index_after_update(s, k, p, other);
        lemma_total_update(s, k, p);
    } else {
        let p = Position { resource: r, amount: amount, signal: signal };
        lemma_index_after_push(s, p, r);
        lemma_index_after_push(s, p, other);
        assert(s.push(p).drop_last() =~= s);
    }
}

/// Portfolios cannot go short: a deallocation succeeds exactly when the
/// resource is held, and at least the amount of it.  When it succeeds the
/// amount is taken from the resource, which is dropped with its signal when
/// nothing of it is left, and the total held shrinks by the amount; every
/// other resource keeps its holding and signal.
pub proof fn lemma_deallocate_effect(s: Seq<Position>, r: Seq<char>, amount: u32, other: Seq<char>)
    requires
        distinct_resources(s),
    ensures
        deallocate_succeeds(s, r, amount) <==> signal_of(s, r) is Some && amount <= holding_of(
            s,
            r,
        ),
        deallocate_succeeds(s, r, amount) ==> holding_of(spec_deallocate(s, r, amount), r)
            == holding_of(s, r) - amount,
        deallocate_succeeds(s, r, amount) ==> total_amount(spec_deallocate(s, r, amount)) + amount
            == total_amount(s),
        deallocate_succeeds(s, r, amount) && holding_of(s, r) == amount ==> signal_of(
            spec_deallocate(s, r, amount),
            r,
        ) is None,
        deallocate_succeeds(s, r, amount) && holding_of(s, r) > amount ==> signal_of(
            spec_deallocate(s, r, amount),
            r,
        ) == signal_of(s, r),
        deallocate_succeeds(s, r, amount) && holding_of(s, r) == amount ==> spec_deallocate(
            s,
            r,
            amount,
        ).len() + 1 == s.len(),
        deallocate_succeeds(s, r, amount) && holding_of(s, r) > amount ==> spec_deallocate(
            s,
            r,
            amount,
        ).len() == s.len(),
        !deallocate_succeeds(s, r, amount) ==> spec_deallocate(s, r, amount) == s,
        other != r ==> holding_of(spec_deallocate(s, r, amount), other) == holding_of(s, other),
        other != r ==> signal_of(spec_deallocate(s, r, amount), other) == signal_of(s, other),
{
    lemma_position_index(s, r);
    lemma_position_index(s, other);
    let k = position_index(s, r);
    if deallocate_succeeds(s, r, amount) {
        if s[k].amount == amount {
            lemma_index_after_remove(s, k, r);
            lemma_index_after_remove(s, k, other);
            lemma_total_remove(s, k);
            let i = position_index(s, other);
            if other != r && i >= 0 {
                if i < k {
                    assert(s.remove(k)[i] == s[i]);
                } else {
                    assert(s.remove(k)[i - 1] == s[i]);
                }
            }
        } else {
            let p = Position {
                resource: s[k].resource,
                amount: (s[k].amount - amount) as u32,
                signal: s[k].signal,
            };
            lemma_index_after_update(s, k, p, r);
            lemma_index_after_update(s, k, p, other);
            lemma_total_update(s, k, p);
        }
    }
}

/// Allocation and deallocation keep every resource in a single position.
pub proof fn lemma_updates_keep_distinct(
    s: Seq<Position>,
    r: Seq<char>,
    amount: u32,
    signal: Ternary,
)
    requires
        distinct_resources(s),
    ensures
        distinct_resources(spec_allocate(s, r, amount, signal)),
        distinct_resources(spec_deallocate(s, r, amount)),
{
    lemma_position_index(s, r);
    let k = position_index(s, r);
    let a = spec_allocate(s, r, amount, signal);
    assert forall|i: int, j: int| 0 <= i < j < a.len() implies #[trigger] a[i].resource
        != #[trigger] a[j].resource by {
        if k < 0 && j == s.len() {
            assert(s[i].resource != r);
        } else {
            assert(s[i].resource != s[j].resource);
        }
    }
    let d = spec_deallocate(s, r, amount);
    if deallocate_succeeds(s, r, amount) && s[k].amount == amount {
        assert forall|i: int, j: int| 0 <= i < j < d.len() implies #[trigger] d[i].resource
            != #[trigger] d[j].resource by {
            let i2 = if i < k { i } else { i + 1 };
            let j2 = if j < k { j } else { j + 1 };
            assert(d[i] == s[i2] && d[j] == s[j2]);
            assert(s[i2].resource != s[j2].resource);
        }
    } else {
        assert forall|i: int, j: int| 0 <= i < j < d.len() implies #[trigger] d[i].resource
            != #[trigger] d[j].resource by {
            assert(s[i].resource != s[j].resource);
        }
    }
}

impl Clone for Portfolio {
    fn clone(&self) -> (r: Self)
        ensures
            r@ == self@,
    {
        proof {
            use_type_invariant(self);
        }
        let hs = self.holdings.clone();
        assert(holdings_view(hs@) =~= holdings_view(self.holdings@));
        Portfolio { holdings: hs }
    }
}

/// The resources held in `s`.
pub open spec fn held_resources(s: Seq<Position>) -> Set<Seq<char>> {
    s.map_values(|p: Position| p.resource).to_set()
}

/// With one position per resource, positions and held resources match one
/// for one: each position's amount and signal are its resource's holding and
/// signal, a resource has a signal exactly when it is held, one with a
/// positive holding has a signal and one without a signal holds 0, and
/// there are as many positions as held resources.  So the total held, the
/// net signal and the resource count, taken over positions, are taken over
/// the held resources, each counted once.
pub proof fn lemma_positions_are_resources(s: Seq<Position>)
    requires
        distinct_resources(s),
    ensures
        forall|i: int|
            0 <= i < s.len() ==> holding_of(s, #[trigger] s[i].resource) == s[i].amount
                && signal_of(s, s[i].resource) == Some(s[i].signal),
        forall|r: Seq<char>| #[trigger] held_resources(s).contains(r) <==> signal_of(s, r) is Some,
        forall|r: Seq<char>| #[trigger] holding_of(s, r) > 0 ==> signal_of(s, r) is Some,
        forall|r: Seq<char>| #[trigger] signal_of(s, r) is None ==> holding_of(s, r) == 0,
        s.len() == held_resources(s).len(),
{
    let keys = s.map_values(|p: Position| p.resource);
    assert forall|i: int| 0 <= i < s.len() implies holding_of(s, #[trigger] s[i].resource)
        == s[i].amount && signal_of(s, s[i].resource) == Some(s[i].signal) by {
        assert forall|j: int| 0 <= j < i implies #[trigger] s[j].resource != s[i].resource by {
            assert(s[j].resource != s[i].resource);
        }
        lemma_first_at_is_index(s, s[i].resource, i);
    }
    assert forall|r: Seq<char>| #[trigger] held_resources(s).contains(r) <==> signal_of(s, r) is Some by {
        lemma_position_index(s, r);
        if held_resources(s).contains(r) {
            let i = choose|i: int| 0 <= i < keys.len() && keys[i] == r;
            assert(s[i].resource == r);
        }
        if signal_of(s, r) is Some {
            let k = position_index(s, r);
            assert(keys[k] == r);
        }
    }
    assert forall|r: Seq<char>| #[trigger] holding_of(s, r) > 0 ==> signal_of(s, r) is Some by {}
    assert forall|r: Seq<char>| #[trigger] signal_of(s, r) is None ==> holding_of(s, r) == 0 by {}
    assert(keys.no_duplicates()) by {
        assert forall|i: int, j: int| 0 <= i < keys.len() && 0 <= j < keys.len() && i != j implies keys[i]
            != keys[j] by {
            if i < j {
                assert(s[i].resource != s[j].resource);
            } else {
                assert(s[j].resource != s[i].resource);
            }
        }
    }
    keys.unique_seq_to_set();
}

/// Each position gives one signal, its own, whatever amount it holds.
pub proof fn lemma_position_signals(s: Seq<Position>)
    ensures
        position_signals(s).len() == s.len(),
        forall|i: int| 0 <= i < s.len() ==> #[trigger] position_signals(s)[i] == s[i].signal,
{
}

/// The net signal does not depend on amounts: two portfolios holding the
/// same resources in the same order with the same signals have the same net
/// signal, whatever amounts they hold.
pub proof fn lemma_net_signal_ignores_amounts(a: Seq<Position>, b: Seq<Position>)
    requires
        a.len() == b.len(),
        forall|i: int|
            #![trigger a[i]]
            0 <= i < a.len() ==> a[i].resource == b[i].resource && a[i].signal == b[i].signal,
    ensures
        signal_sum(position_signals(a)) == signal_sum(position_signals(b)),
        sign_of(signal_sum(position_signals(a))) == sign_of(signal_sum(position_signals(b))),
{
    assert(position_signals(a) =~= position_signals(b)) by {
        assert forall|i: int| 0 <= i < a.len() implies position_signals(a)[i] == position_signals(b)[i] by {
            assert(a[i].signal == b[i].signal);
        }
    }
}

} // verus!
