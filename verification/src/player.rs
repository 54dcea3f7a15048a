//! A player at the table, and the actions a player can take.

use crate::card::Card;
use vstd::prelude::*;
use vstd::std_specs::convert::IntoSpec;

verus! {

/// A seated player: the stack, the two hole cards and the state in the hand.
#[derive(Clone, Debug)]
pub struct Player {
    pub id: usize,
    pub name: String,
    pub chips: u32,
    /// The first card dealt fills the first slot.
    pub hole_cards: [Option<Card>; 2],
    pub folded: bool,
    pub all_in: bool,
}

/// A no-limit action, in chips.
#[derive(Copy, Clone, Debug)]
pub enum Action {
    Fold,
    Check,
    Call,
    /// Bet up to the given total for this street.
    Bet(u32),
    /// Raise the current bet by the given amount.
    Raise(u32),
    Allin,
}

/// The two card slots after a card went into the first empty one; unchanged
/// where both are taken.
pub open spec fn fill_first_empty(slots: Seq<Option<Card>>, card: Card) -> Seq<Option<Card>> {
    if slots[0] is None {
        slots.update(0, Some(card))
    } else if slots[1] is None {
        slots.update(1, Some(card))
    } else {
        slots
    }
}

impl Player {
    /// `after` is this player once `card` was handed over: the card lies in
    /// the first empty slot, and nothing else differs.
    pub open spec fn gave_card(self, after: Player, card: Card) -> bool {
        &&& after.same_person(self)
        &&& after.folded == self.folded
        &&& after.all_in == self.all_in
        &&& after.hole_cards@ == fill_first_empty(self.hole_cards@, card)
    }

    /// The player keeps everything but the cards and the state in the hand.
    pub open spec fn same_person(self, other: Player) -> bool {
        &&& self.id == other.id
        &&& self.name == other.name
        &&& self.chips == other.chips
    }

    /// A player with a stack and no cards, neither folded nor all-in.
    pub fn new<N: Into<String>>(id: usize, name: N, chips: u32) -> (p: Player)
        ensures
            p.id == id,
            p.chips == chips,
            N::obeys_into_spec() ==> p.name == name.into_spec(),
            p.hole_cards[0] is None,
            p.hole_cards[1] is None,
            !p.folded,
            !p.all_in,
    {
        Player {
            id,
            name: name.into(),
            chips,
            hole_cards: [None, None],
            folded: false,
            all_in: false,
        }
    }

    /// Gives the player one card, into the first empty slot. Returns `false`,
    /// and changes nothing, if the player already has two.
    pub fn receive_card(&mut self, card: Card) -> (taken: bool)
        ensures
            old(self).gave_card(*final(self), card),
            taken == (old(self).hole_cards[0] is None || old(self).hole_cards[1] is None),
    {
        if self.hole_cards[0].is_none() {
            self.hole_cards[0] = Some(card);
            true
        } else if self.hole_cards[1].is_none() {
            self.hole_cards[1] = Some(card);
            true
        } else {
            false
        }
    }

    /// Takes the cards away and resets the state in the hand.
    pub fn clear_hand(&mut self)
        ensures
            final(self).same_person(*old(self)),
            final(self).hole_cards[0] is None,
            final(self).hole_cards[1] is None,
            !final(self).folded,
            !final(self).all_in,
    {
        self.hole_cards = [None, None];
        self.folded = false;
        self.all_in = false;
    }

    /// Both hole cards, once the player has two.
    pub fn hole_cards(&self) -> (cards: Option<(Card, Card)>)
        ensures
            cards is Some <==> self.hole_cards[0] is Some && self.hole_cards[1] is Some,
            cards matches Some((a, b)) ==> self.hole_cards[0] == Some(a) && self.hole_cards[1]
                == Some(b),
    {
        match (self.hole_cards[0], self.hole_cards[1]) {
            (Some(a), Some(b)) => Some((a, b)),
            _ => None,
        }
    }
}

} // verus!
