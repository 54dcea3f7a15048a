//! The flow of one hand: starting it, dealing the streets, and routing the
//! players' actions into the betting round.

use crate::betting::{next_to_act, round_fits, seats_after, state_after, BetRound};
use crate::card::Card;
use crate::deck::Deck;
use crate::player::{fill_first_empty, Action, Player};
use crate::side_pots::{live_total, lemma_pots_total_prefix, pots_total};
use crate::table::{
    any_player, dealt_two, has_player, lemma_next_seat_same, lemma_occupied_count_same, next_seat,
    occupied_count, same_occupancy, Table,
};
use vstd::prelude::*;

verus! {

/// The five phases of a hand.
#[derive(Copy, Clone, Debug, PartialEq, Eq, Structural)]
pub enum Street {
    Preflop,
    Flop,
    Turn,
    River,
    Showdown,
}

/// A running hand of poker.
pub struct GameState {
    pub table: Table,
    pub deck: Deck,
    pub street: Street,
    pub board: Vec<Card>,
    pub bet_round: Option<BetRound>,
    pub pot: u32,
    /// Seat of the player whose turn it is.
    pub to_act: usize,
    /// Size of the small blind; the big blind is twice as much.
    pub small_blind: u32,
}

/// How many cards dealing the street after `street` takes off the deck: a
/// burnt card and three for the flop, a burnt card and one for turn and
/// river, none after that.
pub open spec fn cards_needed(street: Street) -> int {
    match street {
        Street::Preflop => 4,
        Street::Flop => 2,
        Street::Turn => 2,
        Street::River => 0,
        Street::Showdown => 0,
    }
}

/// The street that follows `street`; the showdown is the last.
pub open spec fn street_after(street: Street) -> Street {
    match street {
        Street::Preflop => Street::Flop,
        Street::Flop => Street::Turn,
        Street::Turn => Street::River,
        Street::River => Street::Showdown,
        Street::Showdown => Street::Showdown,
    }
}

/// The board after the street following `street` was dealt from `deck`: the
/// top card is burnt, and the cards below it come onto the board, the upper
/// ones first.
pub open spec fn board_after(street: Street, deck: Seq<Card>, board: Seq<Card>) -> Seq<Card> {
    let top = deck.len() - 1;
    match street {
        Street::Preflop => board.push(deck[top - 1]).push(deck[top - 2]).push(deck[top - 3]),
        Street::Flop => board.push(deck[top - 1]),
        Street::Turn => board.push(deck[top - 1]),
        Street::River => board,
        Street::Showdown => board,
    }
}

/// `after` is the player `before` with the cards taken away and the state in
/// the hand reset.
pub open spec fn is_reset(before: Player, after: Player) -> bool {
    &&& after.same_person(before)
    &&& after.hole_cards[0] is None
    &&& after.hole_cards[1] is None
    &&& !after.folded
    &&& !after.all_in
}

/// The round is new: nothing is put in, nobody has opened, and it closes at
/// the first taken seat after the button.
pub open spec fn is_fresh_round(round: BetRound, seats: Seq<Option<Player>>, button: int) -> bool {
    &&& round@.contributed == Seq::new(seats.len(), |i: int| 0u32)
    &&& round@.current_bet == 0
    &&& round@.opener is None
    &&& round@.last_to_act == next_seat(seats, button)
}

/// The cards of the street following `street` went from `deck` to `board`,
/// and the street advanced.
pub open spec fn cards_dealt(
    street: Street,
    deck: Seq<Card>,
    board: Seq<Card>,
    after: GameState,
) -> bool {
    &&& after.street == street_after(street)
    &&& after.deck@ == deck.take(deck.len() - cards_needed(street))
    &&& after.board@ == board_after(street, deck, board)
}

/// `after` is the player `before` at the start of a hand: the same person,
/// neither folded nor all-in, holding the two cards.
pub open spec fn holds_new_hand(before: Player, after: Player, first: Card, second: Card) -> bool {
    &&& after.same_person(before)
    &&& !after.folded
    &&& !after.all_in
    &&& after.hole_cards@ == seq![Some(first), Some(second)]
}

/// `after` is the game `before` once a hand was started. The button moved to
/// the next taken seat. Board and pot are empty. Every player is reset and
/// holds two cards from the top of the deck: dealt one each, seat by seat,
/// and then a second round. The first to act is the third taken seat after
/// the button, behind the two blinds, and a new betting round is set up.
pub open spec fn hand_started(before: GameState, after: GameState) -> bool {
    let seats = before.table@;
    let deck = before.deck@;
    let players = occupied_count(seats);
    let button = next_seat(seats, before.table.dealer_button as int);
    &&& after.table.dealer_button == button
    &&& same_occupancy(seats, after.table@)
    &&& forall|i: int|
        0 <= i < seats.len() && seats[i] is Some ==> holds_new_hand(
            seats[i].unwrap(),
            (#[trigger] after.table@[i]).unwrap(),
            deck[deck.len() - 1 - occupied_count(seats.take(i))],
            deck[deck.len() - 1 - players - occupied_count(seats.take(i))],
        )
    &&& after.deck@ == deck.take(deck.len() - 2 * players)
    &&& after.board@.len() == 0
    &&& after.pot == 0
    &&& after.street == Street::Preflop
    &&& after.small_blind == before.small_blind
    &&& after.to_act == next_seat(seats, next_seat(seats, next_seat(seats, button)))
    &&& after.bet_round matches Some(r) && is_fresh_round(r, seats, button)
}

/// The game can take the action of the player at `seat` in the round `r`:
/// the seat holds a player, the round fits the table, and where the action
/// closes the round, the pot can take the chips and the deck has the cards
/// for the next street.
pub open spec fn action_allowed(g: GameState, r: BetRound, seat: int, action: Action) -> bool {
    let s = state_after(r@, g.table@, seat, action);
    let t = seats_after(g.table@, r@, seat, action);
    &&& g.table.wf()
    &&& has_player(g.table@, seat)
    &&& round_fits(r@, g.table@)
    &&& next_to_act(t, s, seat) is None ==> {
        &&& g.pot + live_total(t, s.contributed, s.contributed.len() as int) <= u32::MAX
        &&& g.street != Street::River ==> g.deck@.len() >= cards_needed(g.street)
    }
}

/// `after` is the game `before` once the player at `seat` took an action in
/// the round `r`. The action went into the round and the table. While
/// somebody still has to act, that seat is next. Else the round is closed:
/// its side pots go into the pot, and the next street is dealt; after the
/// river the showdown follows with nothing dealt.
pub open spec fn action_taken(
    before: GameState,
    r: BetRound,
    after: GameState,
    seat: int,
    action: Action,
) -> bool {
    let s = state_after(r@, before.table@, seat, action);
    let t = seats_after(before.table@, r@, seat, action);
    let button = before.table.dealer_button;
    &&& after.table@ == t
    &&& after.table.dealer_button == button
    &&& after.small_blind == before.small_blind
    &&& match next_to_act(t, s, seat) {
        Some(next) => {
            &&& after.to_act == next
            &&& after.pot == before.pot
            &&& after.street == before.street
            &&& after.deck@ == before.deck@
            &&& after.board@ == before.board@
            &&& after.bet_round matches Some(r2) && r2@ == s
        },
        None => {
            &&& after.pot == before.pot + live_total(t, s.contributed, s.contributed.len() as int)
            &&& if before.street == Street::River {
                &&& after.street == Street::Showdown
                &&& after.to_act == before.to_act
                &&& after.deck@ == before.deck@
                &&& after.board@ == before.board@
                &&& after.bet_round matches Some(r2) && r2@ == s
            } else {
                &&& cards_dealt(before.street, before.deck@, before.board@, after)
                &&& after.to_act == next_seat(t, button as int)
                &&& if before.street == Street::Showdown {
                    after.bet_round matches Some(r2) && is_fresh_round(r2, t, button as int)
                } else {
                    after.bet_round matches Some(r2) && r2@ == s
                }
            }
        },
    }
}

/// `after` is the game `before` once the next street was dealt: the cards
/// moved from the deck to the board, the street advanced, and the first
/// taken seat after the button is to act. At the showdown a new betting
/// round is set up instead. Table, pot and blind stay.
pub open spec fn next_street_dealt(before: GameState, after: GameState) -> bool {
    &&& after.table == before.table
    &&& after.pot == before.pot
    &&& after.small_blind == before.small_blind
    &&& cards_dealt(before.street, before.deck@, before.board@, after)
    &&& after.to_act == next_seat(before.table@, before.table.dealer_button as int)
    &&& if before.street == Street::Showdown {
        after.bet_round matches Some(r) && is_fresh_round(
            r,
            before.table@,
            before.table.dealer_button as int,
        )
    } else {
        after.bet_round == before.bet_round
    }
}

/// Adds up the sizes of the pots.
fn pots_sum(pots: &Vec<(u32, Vec<usize>)>) -> (sum: u32)
    requires
        pots_total(pots@) <= u32::MAX,
    ensures
        sum == pots_total(pots@),
{
    let mut sum: u32 = 0;
    let mut i: usize = 0;
    assert(pots@.take(0) =~= Seq::<(u32, Vec<usize>)>::empty());
    while i < pots.len()
        invariant
            i <= pots@.len(),
            sum == pots_total(pots@.take(i as int)),
            pots_total(pots@) <= u32::MAX,
        decreases pots@.len() - i,
    {
        proof {
            assert(pots@.take(i + 1).drop_last() =~= pots@.take(i as int));
            lemma_pots_total_prefix(pots@, i + 1);
        }
        sum = sum + pots[i].0;
        i += 1;
    }
    assert(pots@.take(i as int) =~= pots@);
    sum
}

impl GameState {
    /// A game around a table, with a freshly shuffled deck and nothing
    /// running yet.
    pub fn new(table: Table, small_blind: u32) -> (g: GameState)
        ensures
            g.table == table,
            g.deck@.to_multiset() == crate::deck::standard_deck().to_multiset(),
            g.deck@.len() == 52,
            g.deck@.no_duplicates(),
            g.street == Street::Preflop,
            g.board@.len() == 0,
            g.bet_round is None,
            g.pot == 0,
            g.to_act == 0,
            g.small_blind == small_blind,
    {
        GameState {
            table,
            deck: Deck::new_shuffled(),
            street: Street::Preflop,
            board: Vec::with_capacity(5),
            pot: 0,
            bet_round: None,
            to_act: 0,
            small_blind,
        }
    }

    /// Starts a hand: moves the button, clears board and pot, resets the
    /// players, deals the hole cards and sets up the first betting round.
    pub fn start_hand(&mut self)
        requires
            old(self).table.wf(),
            any_player(old(self).table@),
            old(self).deck@.len() >= 2 * occupied_count(old(self).table@),
        ensures
            hand_started(*old(self), *final(self)),
    {
        let ghost seats = self.table@;
        let ghost deck = self.deck@;
        self.table.advance_button();
        self.board.clear();
        self.pot = 0;
        let n = self.table.seat_count();
        let mut i: usize = 0;
        while i < n
            invariant
                i <= n,
                n == seats.len(),
                self.table@.len() == n,
                self.deck@ == deck,
                self.small_blind == old(self).small_blind,
                self.pot == 0,
                self.board@.len() == 0,
                self.table.dealer_button == next_seat(seats, old(self).table.dealer_button as int),
                same_occupancy(seats, self.table@),
                forall|j: int| i <= j < n ==> self.table@[j] == seats[j],
                forall|j: int|
                    0 <= j < i && seats[j] is Some ==> is_reset(
                        seats[j].unwrap(),
                        (#[trigger] self.table@[j]).unwrap(),
                    ),
            decreases n - i,
        {
            match self.table.seat_mut(i) {
                Some(p) => {
                    p.clear_hand();
                },
                None => {},
            }
            i += 1;
        }
        let ghost cleared = self.table@;
        proof {
            lemma_occupied_count_same(seats, cleared);
            assert forall|j: int| has_player(seats, j) == has_player(cleared, j) by {}
        }
        self.table.deal_hole_cards(&mut self.deck);
        let ghost dealt = self.table@;
        proof {
            assert forall|j: int| has_player(seats, j) == has_player(dealt, j) by {}
            let button = self.table.dealer_button as int;
            lemma_next_seat_same(seats, dealt, button);
            lemma_next_seat_same(seats, dealt, next_seat(seats, button));
            lemma_next_seat_same(seats, dealt, next_seat(seats, next_seat(seats, button)));
            let w = choose|w: int| has_player(seats, w);
            assert(has_player(dealt, w));
        }
        let sb_idx = self.table.next_occupied(self.table.dealer_button);
        let bb_idx = self.table.next_occupied(sb_idx);
        self.to_act = self.table.next_occupied(bb_idx);
        self.street = Street::Preflop;
        self.bet_round = Some(BetRound::new(&self.table, self.table.dealer_button));
        proof {
            let players = occupied_count(seats);
            assert forall|j: int| 0 <= j < seats.len() && seats[j] is Some implies holds_new_hand(
                seats[j].unwrap(),
                (#[trigger] self.table@[j]).unwrap(),
                deck[deck.len() - 1 - occupied_count(seats.take(j))],
                deck[deck.len() - 1 - players - occupied_count(seats.take(j))],
            ) by {
                assert(is_reset(seats[j].unwrap(), cleared[j].unwrap()));
                assert(cleared[j] is Some);
                assert(same_occupancy(seats.take(j), cleared.take(j)));
                lemma_occupied_count_same(seats.take(j), cleared.take(j));
                let first = deck[deck.len() - 1 - occupied_count(seats.take(j))];
                let second = deck[deck.len() - 1 - players - occupied_count(seats.take(j))];
                assert(dealt_two(cleared[j].unwrap(), dealt[j].unwrap(), first, second));
                let empty = cleared[j].unwrap().hole_cards@;
                assert(fill_first_empty(fill_first_empty(empty, first), second) =~= seq![
                    Some(first),
                    Some(second),
                ]);
            }
        }
    }

    /// Takes the action of the player at `seat_idx` in the running betting
    /// round; without a round nothing happens. When the action closes the
    /// round, the side pots go into the pot and the next street is dealt.
    pub fn player_action(&mut self, seat_idx: usize, action: Action)
        requires
            old(self).bet_round matches Some(r) ==> action_allowed(
                *old(self),
                r,
                seat_idx as int,
                action,
            ),
        ensures
            match old(self).bet_round {
                Some(r) => action_taken(*old(self), r, *final(self), seat_idx as int, action),
                None => *final(self) == *old(self),
            },
    {
        if let Some(round) = &mut self.bet_round {
            let next = round.act(&mut self.table, seat_idx, action);
            match next {
                Some(idx) => {
                    self.to_act = idx;
                },
                None => {
                    let sidepots = round.into_sidepots(&self.table);
                    let won = pots_sum(&sidepots);
                    self.pot += won;
                    if self.street != Street::River {
                        assert(has_player(self.table@, seat_idx as int));
                        self.deal_next_street();
                    } else {
                        self.street = Street::Showdown;
                    }
                },
            }
        }
    }

    /// Tells whether `player_action` can take the action: always without a
    /// betting round, else as `action_allowed` says.
    pub fn allows(&self, seat_idx: usize, action: Action) -> (ok: bool)
        ensures
            ok == (self.bet_round matches Some(r) ==> action_allowed(
                *self,
                r,
                seat_idx as int,
                action,
            )),
    {
        match &self.bet_round {
            None => true,
            Some(round) => {
                let n = self.table.seat_count();
                if n < 2 || n > 10 {
                    return false;
                }
                if self.table.seat(seat_idx).is_none() {
                    return false;
                }
                if !round.fits(&self.table) {
                    return false;
                }
                if !round.would_close(&self.table, seat_idx, action) {
                    return true;
                }
                let needed: usize = match self.street {
                    Street::Preflop => 4,
                    Street::Flop => 2,
                    Street::Turn => 2,
                    Street::River => 0,
                    Street::Showdown => 0,
                };
                match round.stake_after(&self.table, seat_idx, action) {
                    Some(total) => total <= u32::MAX - self.pot && self.deck.remaining()
                        >= needed,
                    None => false,
                }
            },
        }
    }

    /// Deals the next street: preflop to flop, turn, river and showdown.
    pub fn deal_next_street(&mut self)
        requires
            old(self).table.wf(),
            any_player(old(self).table@),
            old(self).deck@.len() >= cards_needed(old(self).street),
        ensures
            next_street_dealt(*old(self), *final(self)),
    {
        let ghost deck = self.deck@;
        let ghost board = self.board@;
        match self.street {
            Street::Preflop => {
                self.deck.deal();
                let mut i: usize = 0;
                assert(self.board@ =~= board + Seq::new(0, |j: int| deck[deck.len() - 2 - j]));
                while i < 3
                    invariant
                        i <= 3,
                        deck.len() >= 4,
                        self.deck@ == deck.take(deck.len() - 1 - i),
                        self.board@ == board + Seq::new(i as nat, |j: int| deck[deck.len() - 2 - j]),
                        self.table == old(self).table,
                        self.pot == old(self).pot,
                        self.small_blind == old(self).small_blind,
                        self.street == old(self).street,
                        self.bet_round == old(self).bet_round,
                    decreases 3 - i,
                {
                    let card = self.deck.deal().unwrap();
                    self.board.push(card);
                    assert(self.deck@ =~= deck.take(deck.len() - 2 - i));
                    assert(self.board@ =~= board + Seq::new(
                        (i + 1) as nat,
                        |j: int| deck[deck.len() - 2 - j],
                    ));
                    i += 1;
                }
                assert(self.board@ =~= board_after(Street::Preflop, deck, board));
                self.street = Street::Flop;
            },
            Street::Flop => {
                self.deck.deal();
                let card = self.deck.deal().unwrap();
                self.board.push(card);
                assert(self.deck@ =~= deck.take(deck.len() - 2));
                self.street = Street::Turn;
            },
            Street::Turn => {
                self.deck.deal();
                let card = self.deck.deal().unwrap();
                self.board.push(card);
                assert(self.deck@ =~= deck.take(deck.len() - 2));
                self.street = Street::River;
            },
            Street::River => {
                assert(self.deck@ =~= deck.take(deck.len() - 0));
                self.street = Street::Showdown;
            },
            Street::Showdown => {
                assert(self.deck@ =~= deck.take(deck.len() - 0));
                self.bet_round = Some(BetRound::new(&self.table, self.table.dealer_button));
            },
        }
        self.to_act = self.table.next_occupied(self.table.dealer_button);
    }

    /// Pulls a blind from the player at a seat into the pot; a player who
    /// cannot pay it in full puts in what is left. Nothing happens at a seat
    /// without a player.
    pub fn collect_blind(&mut self, seat_idx: usize, amount: u32)
        requires
            has_player(old(self).table@, seat_idx as int) ==> old(self).pot + vstd::math::min(
                amount as int,
                old(self).table@[seat_idx as int].unwrap().chips as int,
            ) <= u32::MAX,
        ensures
            final(self).deck == old(self).deck,
            final(self).street == old(self).street,
            final(self).board == old(self).board,
            final(self).bet_round == old(self).bet_round,
            final(self).to_act == old(self).to_act,
            final(self).small_blind == old(self).small_blind,
            final(self).table.dealer_button == old(self).table.dealer_button,
            !has_player(old(self).table@, seat_idx as int) ==> final(self).table@
                == old(self).table@ && final(self).pot == old(self).pot,
            has_player(old(self).table@, seat_idx as int) ==> ({
                let p = old(self).table@[seat_idx as int].unwrap();
                let paid = vstd::math::min(amount as int, p.chips as int);
                &&& final(self).pot == old(self).pot + paid
                &&& final(self).table@ == old(self).table@.update(
                    seat_idx as int,
                    Some(Player { chips: (p.chips - paid) as u32, ..p }),
                )
            }),
    {
        match self.table.seat_mut(seat_idx) {
            Some(player) => {
                let paid = if amount < player.chips {
                    amount
                } else {
                    player.chips
                };
                player.chips -= paid;
                self.pot += paid;
            },
            None => {},
        }
    }

    /// Moves the turn to the next taken seat.
    pub fn advance_action(&mut self)
        requires
            old(self).table.wf(),
            any_player(old(self).table@),
        ensures
            final(self).to_act == next_seat(old(self).table@, old(self).to_act as int),
            final(self).table == old(self).table,
            final(self).deck == old(self).deck,
            final(self).street == old(self).street,
            final(self).board == old(self).board,
            final(self).bet_round == old(self).bet_round,
            final(self).pot == old(self).pot,
            final(self).small_blind == old(self).small_blind,
    {
        self.to_act = self.table.next_occupied(self.to_act);
    }
}

} // verus!
