//! The value of a five-card hand and the order in which hands are compared.

use crate::card::Rank;
use core::cmp::Ordering;
use vstd::prelude::*;
use vstd::std_specs::cmp::{PartialEqSpecImpl, PartialOrdSpecImpl};

verus! {

/// The nine hand types, weakest first.
#[derive(Copy, Clone, Debug, PartialEq, Eq, PartialOrd, Ord, Structural)]
pub enum HandCategory {
    HighCard,
    OnePair,
    TwoPair,
    ThreeOfAKind,
    Straight,
    Flush,
    FullHouse,
    FourOfAKind,
    StraightFlush,
}

impl HandCategory {
    /// Strength of the category: 0 for a high card up to 8 for a straight flush.
    pub open spec fn strength_of(self) -> int {
        match self {
            HandCategory::HighCard => 0,
            HandCategory::OnePair => 1,
            HandCategory::TwoPair => 2,
            HandCategory::ThreeOfAKind => 3,
            HandCategory::Straight => 4,
            HandCategory::Flush => 5,
            HandCategory::FullHouse => 6,
            HandCategory::FourOfAKind => 7,
            HandCategory::StraightFlush => 8,
        }
    }

    /// Strength of the category, between 0 and 8.
    pub fn strength(self) -> (s: u8)
        ensures
            s == self.strength_of(),
    {
        match self {
            HandCategory::HighCard => 0,
            HandCategory::OnePair => 1,
            HandCategory::TwoPair => 2,
            HandCategory::ThreeOfAKind => 3,
            HandCategory::Straight => 4,
            HandCategory::Flush => 5,
            HandCategory::FullHouse => 6,
            HandCategory::FourOfAKind => 7,
            HandCategory::StraightFlush => 8,
        }
    }
}

/// Number that stands for one kicker slot: the rank's value, or 0 for a slot
/// that the category leaves unused, which is below every rank.
pub open spec fn slot_value(slot: Option<Rank>) -> int {
    match slot {
        None => 0,
        Some(r) => r.value_of(),
    }
}

/// Computes `slot_value`.
pub fn slot_number(slot: Option<Rank>) -> (n: u8)
    ensures
        n == slot_value(slot),
{
    match slot {
        None => 0,
        Some(r) => r.value(),
    }
}

/// First place at or after `from` where two sequences differ decides; equal
/// sequences compare equal.
pub open spec fn compare_from(a: Seq<int>, b: Seq<int>, from: int) -> Ordering
    decreases a.len() - from,
{
    if from < 0 || from >= a.len() || from >= b.len() {
        Ordering::Equal
    } else if a[from] < b[from] {
        Ordering::Less
    } else if a[from] > b[from] {
        Ordering::Greater
    } else {
        compare_from(a, b, from + 1)
    }
}

/// The key `a` comes strictly before the key `b`.
pub open spec fn key_less(a: Seq<int>, b: Seq<int>) -> bool {
    compare_from(a, b, 0) == Ordering::Less
}

/// A fully ordered score of a five-card hand: the category, then up to five
/// tie-breaking ranks, most significant first.
#[derive(Copy, Clone, Debug, Eq, Ord)]
pub struct HandRank {
    pub category: HandCategory,
    /// `None` marks a slot that the category leaves unused.
    pub kickers: [Option<Rank>; 5],
}

impl HandRank {
    /// The five kicker slots as numbers, most significant first.
    pub open spec fn kicker_values(self) -> Seq<int> {
        Seq::new(5, |i: int| slot_value(self.kickers[i]))
    }

    /// What two ranks are compared by: the category's strength followed by the
    /// kicker values.
    pub open spec fn key(self) -> Seq<int> {
        seq![self.category.strength_of()] + self.kicker_values()
    }

    /// The order of two ranks: by category first, then by kickers from the
    /// most significant on.
    pub open spec fn compare(self, other: HandRank) -> Ordering {
        compare_from(self.key(), other.key(), 0)
    }
}

impl PartialOrd for HandRank {
    fn partial_cmp(&self, other: &HandRank) -> (r: Option<Ordering>) {
        let a: u8 = self.category.strength();
        let b: u8 = other.category.strength();
        if a < b {
            return Some(Ordering::Less);
        }
        if a > b {
            return Some(Ordering::Greater);
        }
        let mut i: usize = 0;
        while i < 5
            invariant
                i <= 5,
                self.key().len() == 6,
                other.key().len() == 6,
                compare_from(self.key(), other.key(), 0) == compare_from(
                    self.key(),
                    other.key(),
                    i + 1,
                ),
            decreases 5 - i,
        {
            let x: u8 = slot_number(self.kickers[i]);
            let y: u8 = slot_number(other.kickers[i]);
            assert(self.key()[i + 1] == x);
            assert(other.key()[i + 1] == y);
            if x < y {
                return Some(Ordering::Less);
            }
            if x > y {
                return Some(Ordering::Greater);
            }
            i += 1;
        }
        Some(Ordering::Equal)
    }
}

impl PartialEq for HandRank {
    fn eq(&self, other: &HandRank) -> (r: bool) {
        proof {
            lemma_compare_equal(*self, *other);
        }
        match self.partial_cmp(other) {
            Some(Ordering::Equal) => true,
            _ => false,
        }
    }
}

impl PartialEqSpecImpl for HandRank {
    open spec fn obeys_eq_spec() -> bool {
        true
    }

    open spec fn eq_spec(&self, other: &HandRank) -> bool {
        self.category == other.category && self.kicker_values() == other.kicker_values()
    }
}

impl PartialOrdSpecImpl for HandRank {
    open spec fn obeys_partial_cmp_spec() -> bool {
        true
    }

    open spec fn partial_cmp_spec(&self, other: &HandRank) -> Option<Ordering> {
        Some(self.compare(*other))
    }
}

/// Two ranks compare equal exactly when they have the same category and the
/// same kickers, and then they are the same value.
pub proof fn lemma_compare_equal(a: HandRank, b: HandRank)
    ensures
        a.compare(b) == Ordering::Equal <==> (a.category == b.category && a.kicker_values()
            == b.kicker_values()),
        a.compare(b) == Ordering::Equal <==> a == b,
{
    reveal_with_fuel(compare_from, 7);
    let x = a.key();
    let y = b.key();
    if a.compare(b) == Ordering::Equal {
        assert(a.kicker_values() =~= b.kicker_values()) by {
            assert forall|i: int| 0 <= i < 5 implies a.kicker_values()[i] == b.kicker_values()[i] by {
                assert(x[i + 1] == a.kicker_values()[i]);
                assert(y[i + 1] == b.kicker_values()[i]);
            }
        }
        assert(x[0] == y[0]);
        assert(a.kickers@ =~= b.kickers@) by {
            assert forall|i: int| 0 <= i < 5 implies a.kickers@[i] == b.kickers@[i] by {
                assert(a.kicker_values()[i] == b.kicker_values()[i]);
            }
        }
        assert(a.kickers == b.kickers);
    }
    if a.category == b.category && a.kicker_values() == b.kicker_values() {
        assert(x =~= y);
    }
}

/// On keys of six entries `key_less` is a strict total order: irreflexive,
/// transitive, and two keys of which neither comes first are the same.
pub proof fn lemma_key_order(a: Seq<int>, b: Seq<int>, c: Seq<int>)
    requires
        a.len() == 6,
        b.len() == 6,
        c.len() == 6,
    ensures
        !key_less(a, a),
        key_less(a, b) && key_less(b, c) ==> key_less(a, c),
        !key_less(a, b) && !key_less(b, a) ==> a == b,
        key_less(a, b) ==> !key_less(b, a),
        !key_less(b, a) && !key_less(c, b) ==> !key_less(c, a),
{
    reveal_with_fuel(compare_from, 7);
    if !key_less(a, b) && !key_less(b, a) {
        assert(a =~= b);
    }
}

/// The order of hand ranks is total: of `a < b`, `a == b` and `a > b`
/// exactly one holds, the middle one only for identical ranks, and `a < b`
/// says the same as `b > a`.
pub proof fn lemma_order_total(a: HandRank, b: HandRank)
    ensures
        a.compare(b) == Ordering::Equal <==> a == b,
        a.compare(b) == Ordering::Less <==> b.compare(a) == Ordering::Greater,
        a.compare(b) == Ordering::Greater <==> b.compare(a) == Ordering::Less,
        a != b ==> (a.compare(b) == Ordering::Less) != (a.compare(b) == Ordering::Greater),
{
    reveal_with_fuel(compare_from, 7);
    lemma_compare_equal(a, b);
    lemma_compare_equal(b, a);
}

/// The order of hand ranks is transitive.
pub proof fn lemma_order_transitive(a: HandRank, b: HandRank, c: HandRank)
    requires
        a.compare(b) == Ordering::Less,
        b.compare(c) == Ordering::Less,
    ensures
        a.compare(c) == Ordering::Less,
{
    reveal_with_fuel(compare_from, 7);
}

/// The order of hand ranks is strict: no rank comes before itself.
pub proof fn lemma_order_irreflexive(a: HandRank)
    ensures
        a.compare(a) == Ordering::Equal,
        a.compare(a) != Ordering::Less,
{
    lemma_compare_equal(a, a);
}

} // verus!
