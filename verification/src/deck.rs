//! The deck of 52 cards: built in a fixed order, shuffled, dealt from the top.

use crate::card::{rank_with_value, suit_at, Card, Rank, Suit};
use rand::seq::SliceRandom;
use rand::thread_rng;
use vstd::prelude::*;

verus! {

/// The 52 cards in the order in which a deck is built: suit by suit, clubs
/// first, and within a suit from the deuce up to the ace.
pub open spec fn standard_deck() -> Seq<Card> {
    Seq::new(52, |i: int| Card { rank: rank_with_value(2 + i % 13), suit: suit_at(i / 13) })
}

/// Where a card stands in `standard_deck`.
pub open spec fn standard_position(c: Card) -> int {
    c.suit.index_of() * 13 + c.rank.value_of() - 2
}

/// The standard deck holds every card, each once.
pub proof fn lemma_standard_deck_complete()
    ensures
        standard_deck().len() == 52,
        standard_deck().no_duplicates(),
        forall|c: Card| #[trigger] standard_deck().contains(c),
        forall|c: Card|
            0 <= #[trigger] standard_position(c) < 52 && standard_deck()[standard_position(c)] == c,
{
    let d = standard_deck();
    assert forall|c: Card|
        0 <= #[trigger] standard_position(c) < 52 && d[standard_position(c)] == c by {
        let p = standard_position(c);
        assert(0 <= c.suit.index_of() < 4);
        assert(2 <= c.rank.value_of() <= 14);
        assert(p / 13 == c.suit.index_of());
        assert(p % 13 == c.rank.value_of() - 2);
    }
    assert forall|c: Card| #[trigger] d.contains(c) by {
        assert(d[standard_position(c)] == c);
    }
    assert forall|i: int, j: int| 0 <= i < d.len() && 0 <= j < d.len() && i != j implies d[i]
        != d[j] by {
        assert(0 <= i / 13 < 4 && 0 <= i % 13 < 13);
        assert(0 <= j / 13 < 4 && 0 <= j % 13 < 13);
        assert(i == 13 * (i / 13) + i % 13);
        assert(j == 13 * (j / 13) + j % 13);
        if d[i] == d[j] {
            assert(suit_at(i / 13).index_of() == i / 13);
            assert(suit_at(j / 13).index_of() == j / 13);
            assert(rank_with_value(2 + i % 13).value_of() == 2 + i % 13);
            assert(rank_with_value(2 + j % 13).value_of() == 2 + j % 13);
        }
    }
}

/// A sequence with the same cards as the standard deck, in whatever order,
/// has 52 cards, none twice, and every card.
pub proof fn lemma_rearranged_deck(cards: Seq<Card>)
    requires
        cards.to_multiset() == standard_deck().to_multiset(),
    ensures
        cards.len() == 52,
        cards.no_duplicates(),
        forall|c: Card| #[trigger] cards.contains(c),
{
    let d = standard_deck();
    lemma_standard_deck_complete();
    cards.to_multiset_ensures();
    d.to_multiset_ensures();
    d.lemma_multiset_has_no_duplicates();
    cards.lemma_multiset_has_no_duplicates_conv();
    assert forall|c: Card| #[trigger] cards.contains(c) by {
        assert(d.contains(c));
        assert(d.to_multiset().count(c) > 0);
        assert(cards.to_multiset().count(c) > 0);
    }
}

/// A deck of cards; the top card is the last one.
pub struct Deck {
    cards: Vec<Card>,
}

impl View for Deck {
    type V = Seq<Card>;

    /// The cards from the bottom of the deck to its top.
    closed spec fn view(&self) -> Seq<Card> {
        self.cards@
    }
}

/// Calls `SliceRandom::shuffle` of the rand crate with the generator that
/// its `thread_rng` hands out. Believed, not proved: the shuffle only swaps
/// entries, so afterwards the vector holds the same cards as before, each as
/// often. Which order comes out is left open.
#[verifier::external_body]
fn shuffle_cards(cards: &mut Vec<Card>)
    ensures
        final(cards)@.to_multiset() == old(cards)@.to_multiset(),
{
    cards.shuffle(&mut thread_rng());
}

/// Builds the 52 cards in the order of `standard_deck`.
fn standard_cards() -> (cards: Vec<Card>)
    ensures
        cards@ == standard_deck(),
{
    let mut cards: Vec<Card> = Vec::with_capacity(52);
    let mut s: usize = 0;
    while s < 4
        invariant
            s <= 4,
            cards@ == standard_deck().take(13 * s),
        decreases 4 - s,
    {
        let suit = match Suit::from_index(s) {
            Some(x) => x,
            None => Suit::Clubs,
        };
        let mut v: u8 = 2;
        while v <= 14
            invariant
                s < 4,
                2 <= v <= 15,
                suit == suit_at(s as int),
                cards@ == standard_deck().take(13 * s + v - 2),
            decreases 15 - v,
        {
            let rank = match Rank::from_value(v) {
                Some(x) => x,
                None => Rank::Two,
            };
            let ghost before = cards@;
            let ghost at = 13 * s + v - 2;
            cards.push(Card { rank, suit });
            proof {
                assert(at / 13 == s as int);
                assert(at % 13 == v - 2);
                assert(rank == rank_with_value(v as int));
                assert(standard_deck()[at] == Card { rank, suit });
                assert(cards@ =~= standard_deck().take(at + 1));
            }
            v += 1;
        }
        s += 1;
    }
    assert(cards@ =~= standard_deck());
    cards
}

impl Deck {
    /// A deck that holds the given cards, the last of them on top.
    pub fn from_cards(cards: Vec<Card>) -> (d: Deck)
        ensures
            d@ == cards@,
    {
        Deck { cards }
    }

    /// The 52 cards in the order of `standard_deck`, not shuffled.
    pub fn standard() -> (d: Deck)
        ensures
            d@ == standard_deck(),
    {
        Deck { cards: standard_cards() }
    }

    /// A full deck in random order: 52 cards, every card once.
    pub fn new_shuffled() -> (d: Deck)
        ensures
            d@.to_multiset() == standard_deck().to_multiset(),
            d@.len() == 52,
            d@.no_duplicates(),
            forall|c: Card| #[trigger] d@.contains(c),
    {
        let mut cards = standard_cards();
        shuffle_cards(&mut cards);
        proof {
            lemma_rearranged_deck(cards@);
        }
        Deck { cards }
    }

    /// Takes the top card off the deck; `None` when the deck is empty.
    pub fn deal(&mut self) -> (c: Option<Card>)
        ensures
            old(self)@.len() > 0 ==> c == Some(old(self)@.last())
                && final(self)@ == old(self)@.drop_last(),
            old(self)@.len() == 0 ==> c is None && final(self)@ == old(self)@,
    {
        self.cards.pop()
    }

    /// How many cards are left in the deck.
    pub fn remaining(&self) -> (n: usize)
        ensures
            n == self@.len(),
    {
        self.cards.len()
    }
}

} // verus!
