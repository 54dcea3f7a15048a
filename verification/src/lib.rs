//! A single hand of no-limit Texas Hold'em: cards, seats, per-street betting
//! with side pots, and the ranking of the best five cards out of seven.

pub mod accounting;
pub mod betting;
pub mod card;
pub mod deck;
pub mod evaluator;
pub mod game;
pub mod hand_rank;
pub mod player;
pub mod side_pots;
pub mod table;

pub use betting::BetRound;
pub use card::{Card, Rank, Suit};
pub use deck::Deck;
pub use evaluator::{evaluate_five, evaluate_seven};
pub use game::{GameState, Street};
pub use hand_rank::{HandCategory, HandRank};
pub use player::{Action, Player};
pub use table::Table;
