//! Balanced ternary values and the aggregate direction of a list of signals.

use vstd::prelude::*;

verus! {

/// A ternary value: -1, 0 or +1.
#[derive(Debug, Clone, Copy, PartialEq, Eq, Hash, Structural)]
pub enum Ternary {
    Neg,
    Zero,
    Pos,
}

impl Ternary {
    /// The integer this value stands for.
    pub open spec fn value(self) -> int {
        match self {
            Ternary::Neg => -1,
            Ternary::Zero => 0,
            Ternary::Pos => 1,
        }
    }

    /// The value that stands for `v`, if `v` is -1, 0 or 1.
    pub open spec fn spec_from_int(v: int) -> Option<Ternary> {
        if v == -1 {
            Some(Ternary::Neg)
        } else if v == 0 {
            Some(Ternary::Zero)
        } else if v == 1 {
            Some(Ternary::Pos)
        } else {
            None
        }
    }

    pub fn from_i8(v: i8) -> (r: Option<Self>)
        ensures
            r == Self::spec_from_int(v as int),
    {
        if v == -1 {
            Some(Ternary::Neg)
        } else if v == 0 {
            Some(Ternary::Zero)
        } else if v == 1 {
            Some(Ternary::Pos)
        } else {
            None
        }
    }

    pub fn to_i8(self) -> (r: i8)
        ensures
            r == self.value(),
    {
        match self {
            Ternary::Neg => -1,
            Ternary::Zero => 0,
            Ternary::Pos => 1,
        }
    }
}

/// The ternary sign of an integer.
pub open spec fn sign_of(x: int) -> Ternary {
    if x > 0 {
        Ternary::Pos
    } else if x < 0 {
        Ternary::Neg
    } else {
        Ternary::Zero
    }
}

/// The sum of the values of a sequence of signals.
pub open spec fn signal_sum(s: Seq<Ternary>) -> int
    decreases s.len(),
{
    if s.len() == 0 {
        0
    } else {
        signal_sum(s.drop_last()) + s.last().value()
    }
}

/// Extending a sequence by one signal adds that signal's value to the sum.
pub proof fn lemma_signal_sum_push(s: Seq<Ternary>, t: Ternary)
    ensures
        signal_sum(s.push(t)) == signal_sum(s) + t.value(),
{
    assert(s.push(t).drop_last() =~= s);
}

/// The direction of a sequence of signals: the sign of their sum.
pub fn net_direction(signals: &Vec<Ternary>) -> (r: Ternary)
    ensures
        r == sign_of(signal_sum(signals@)),
{
    let mut pos: usize = 0;
    let mut neg: usize = 0;
    let mut i: usize = 0;
    while i < signals.len()
        invariant
            i <= signals.len(),
            pos + neg <= i,
            pos - neg == signal_sum(signals@.take(i as int)),
        decreases signals.len() - i,
    {
        proof {
            assert(signals@.take(i as int + 1) =~= signals@.take(i as int).push(signals@[i as int]));
            lemma_signal_sum_push(signals@.take(i as int), signals@[i as int]);
        }
        match signals[i] {
            Ternary::Pos => {
                pos = pos + 1;
            },
            Ternary::Neg => {
                neg = neg + 1;
            },
            Ternary::Zero => {},
        }
        i = i + 1;
    }
    assert(signals@.take(i as int) =~= signals@);
    if pos > neg {
        Ternary::Pos
    } else if pos < neg {
        Ternary::Neg
    } else {
        Ternary::Zero
    }
}

/// The values of the three signals: -1, 0 and 1.
pub proof fn lemma_value_table()
    ensures
        Ternary::Neg.value() == -1,
        Ternary::Zero.value() == 0,
        Ternary::Pos.value() == 1,
{
}

/// The sign of an integer: `Pos` above 0, `Neg` below 0, `Zero` at 0.
pub proof fn lemma_sign_of_table(x: int)
    ensures
        x > 0 ==> sign_of(x) == Ternary::Pos,
        x < 0 ==> sign_of(x) == Ternary::Neg,
        x == 0 ==> sign_of(x) == Ternary::Zero,
{
}

/// The opposite signal.
pub open spec fn negate(t: Ternary) -> Ternary {
    match t {
        Ternary::Neg => Ternary::Pos,
        Ternary::Zero => Ternary::Zero,
        Ternary::Pos => Ternary::Neg,
    }
}

/// Every signal of a sequence turned to its opposite.
pub open spec fn negate_all(s: Seq<Ternary>) -> Seq<Ternary> {
    s.map_values(|t: Ternary| negate(t))
}

/// The direction is symmetric: turning every signal to its opposite turns
/// the sum and the direction to their opposites; a single signal's sum is
/// its value.
pub proof fn lemma_direction_symmetric(s: Seq<Ternary>)
    ensures
        signal_sum(negate_all(s)) == -signal_sum(s),
        sign_of(signal_sum(negate_all(s))) == negate(sign_of(signal_sum(s))),
        forall|t: Ternary| #[trigger] signal_sum(seq![t]) == t.value(),
    decreases s.len(),
{
    if s.len() > 0 {
        lemma_direction_symmetric(s.drop_last());
        assert(negate_all(s).drop_last() =~= negate_all(s.drop_last()));
    }
    assert forall|t: Ternary| #[trigger] signal_sum(seq![t]) == t.value() by {
        assert(seq![t].drop_last() =~= Seq::<Ternary>::empty());
        assert(signal_sum(Seq::<Ternary>::empty()) == 0);
        assert(seq![t].last() == t);
    }
}

} // verus!
