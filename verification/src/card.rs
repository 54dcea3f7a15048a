//! Playing cards: suits, ranks and their numeric values.

use vstd::prelude::*;
use vstd::string::StringExecFns;

verus! {

/// The four suits. They carry no order of their own.
#[derive(Copy, Clone, Debug, PartialEq, Eq, Hash, Structural)]
pub enum Suit {
    Clubs,
    Diamonds,
    Hearts,
    Spades,
}

/// The thirteen ranks, weakest first; the ace is high.
#[derive(Copy, Clone, Debug, PartialEq, Eq, PartialOrd, Ord, Hash, Structural)]
pub enum Rank {
    Two,
    Three,
    Four,
    Five,
    Six,
    Seven,
    Eight,
    Nine,
    Ten,
    Jack,
    Queen,
    King,
    Ace,
}

/// One card of the deck.
#[derive(Copy, Clone, Debug, PartialEq, Eq, Hash, Structural)]
pub struct Card {
    pub rank: Rank,
    pub suit: Suit,
}

impl Suit {
    /// Position of the suit in the order clubs, diamonds, hearts, spades.
    pub open spec fn index_of(self) -> int {
        match self {
            Suit::Clubs => 0,
            Suit::Diamonds => 1,
            Suit::Hearts => 2,
            Suit::Spades => 3,
        }
    }

    /// Position of the suit, from 0 for clubs to 3 for spades.
    pub fn index(self) -> (i: usize)
        ensures
            i == self.index_of(),
            i < 4,
    {
        match self {
            Suit::Clubs => 0,
            Suit::Diamonds => 1,
            Suit::Hearts => 2,
            Suit::Spades => 3,
        }
    }

    /// The suit at a position; `None` unless the position is below 4.
    pub fn from_index(i: usize) -> (s: Option<Suit>)
        ensures
            i < 4 <==> s is Some,
            s matches Some(x) ==> x.index_of() == i,
    {
        match i {
            0 => Some(Suit::Clubs),
            1 => Some(Suit::Diamonds),
            2 => Some(Suit::Hearts),
            3 => Some(Suit::Spades),
            _ => None,
        }
    }
}

impl Rank {
    /// Numeric value of the rank: 2 for the deuce up to 14 for the ace.
    pub open spec fn value_of(self) -> int {
        match self {
            Rank::Two => 2,
            Rank::Three => 3,
            Rank::Four => 4,
            Rank::Five => 5,
            Rank::Six => 6,
            Rank::Seven => 7,
            Rank::Eight => 8,
            Rank::Nine => 9,
            Rank::Ten => 10,
            Rank::Jack => 11,
            Rank::Queen => 12,
            Rank::King => 13,
            Rank::Ace => 14,
        }
    }

    /// Numeric value of the rank, between 2 and 14.
    pub fn value(self) -> (v: u8)
        ensures
            v == self.value_of(),
            2 <= v <= 14,
    {
        match self {
            Rank::Two => 2,
            Rank::Three => 3,
            Rank::Four => 4,
            Rank::Five => 5,
            Rank::Six => 6,
            Rank::Seven => 7,
            Rank::Eight => 8,
            Rank::Nine => 9,
            Rank::Ten => 10,
            Rank::Jack => 11,
            Rank::Queen => 12,
            Rank::King => 13,
            Rank::Ace => 14,
        }
    }

    /// The rank with a given numeric value; `None` outside 2 to 14.
    pub fn from_value(n: u8) -> (r: Option<Rank>)
        ensures
            2 <= n <= 14 <==> r is Some,
            r matches Some(x) ==> x.value_of() == n,
    {
        match n {
            2 => Some(Rank::Two),
            3 => Some(Rank::Three),
            4 => Some(Rank::Four),
            5 => Some(Rank::Five),
            6 => Some(Rank::Six),
            7 => Some(Rank::Seven),
            8 => Some(Rank::Eight),
            9 => Some(Rank::Nine),
            10 => Some(Rank::Ten),
            11 => Some(Rank::Jack),
            12 => Some(Rank::Queen),
            13 => Some(Rank::King),
            14 => Some(Rank::Ace),
            _ => None,
        }
    }
}

/// The name a rank is written with.
pub open spec fn rank_name(r: Rank) -> Seq<char> {
    match r {
        Rank::Two => "Two"@,
        Rank::Three => "Three"@,
        Rank::Four => "Four"@,
        Rank::Five => "Five"@,
        Rank::Six => "Six"@,
        Rank::Seven => "Seven"@,
        Rank::Eight => "Eight"@,
        Rank::Nine => "Nine"@,
        Rank::Ten => "Ten"@,
        Rank::Jack => "Jack"@,
        Rank::Queen => "Queen"@,
        Rank::King => "King"@,
        Rank::Ace => "Ace"@,
    }
}

/// The symbol a suit is written with.
pub open spec fn suit_symbol(s: Suit) -> Seq<char> {
    match s {
        Suit::Clubs => "♣"@,
        Suit::Diamonds => "♦"@,
        Suit::Hearts => "♥"@,
        Suit::Spades => "♠"@,
    }
}

impl Card {
    /// The card in writing: the rank's name followed by the suit's symbol.
    pub fn to_text(&self) -> (text: String)
        ensures
            text@ == rank_name(self.rank) + suit_symbol(self.suit),
    {
        let name = match self.rank {
            Rank::Two => "Two",
            Rank::Three => "Three",
            Rank::Four => "Four",
            Rank::Five => "Five",
            Rank::Six => "Six",
            Rank::Seven => "Seven",
            Rank::Eight => "Eight",
            Rank::Nine => "Nine",
            Rank::Ten => "Ten",
            Rank::Jack => "Jack",
            Rank::Queen => "Queen",
            Rank::King => "King",
            Rank::Ace => "Ace",
        };
        let symbol = match self.suit {
            Suit::Clubs => "♣",
            Suit::Diamonds => "♦",
            Suit::Hearts => "♥",
            Suit::Spades => "♠",
        };
        String::from_str(name).concat(symbol)
    }
}

/// The rank with numeric value `v`, for `v` from 2 to 14.
pub open spec fn rank_with_value(v: int) -> Rank {
    if v <= 2 {
        Rank::Two
    } else if v == 3 {
        Rank::Three
    } else if v == 4 {
        Rank::Four
    } else if v == 5 {
        Rank::Five
    } else if v == 6 {
        Rank::Six
    } else if v == 7 {
        Rank::Seven
    } else if v == 8 {
        Rank::Eight
    } else if v == 9 {
        Rank::Nine
    } else if v == 10 {
        Rank::Ten
    } else if v == 11 {
        Rank::Jack
    } else if v == 12 {
        Rank::Queen
    } else if v == 13 {
        Rank::King
    } else {
        Rank::Ace
    }
}

/// The suit at position `i`, for `i` from 0 to 3.
pub open spec fn suit_at(i: int) -> Suit {
    if i <= 0 {
        Suit::Clubs
    } else if i == 1 {
        Suit::Diamonds
    } else if i == 2 {
        Suit::Hearts
    } else {
        Suit::Spades
    }
}

} // verus!
