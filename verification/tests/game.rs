use poker_engine::{Action, Card, Deck, GameState, Player, Rank, Street, Suit, Table};

fn three_handed() -> Table {
    let mut table = Table::new(3);
    table.add_player(Player::new(1, "Alice", 100));
    table.add_player(Player::new(2, "Bob", 100));
    table.add_player(Player::new(3, "Carol", 50));
    table
}

fn spade(rank: Rank) -> Card {
    Card { rank, suit: Suit::Spades }
}

#[test]
fn new_game_has_a_full_deck_and_nothing_running() {
    let game = GameState::new(three_handed(), 2);
    assert_eq!(game.deck.remaining(), 52);
    assert_eq!(game.street, Street::Preflop);
    assert!(game.board.is_empty());
    assert!(game.bet_round.is_none());
    assert_eq!(game.pot, 0);
    assert_eq!(game.to_act, 0);
    assert_eq!(game.small_blind, 2);
    assert_eq!(game.table.active_player_count(), 3);
}

#[test]
fn starting_a_hand_deals_and_sets_up_the_round() {
    let mut game = GameState::new(three_handed(), 2);
    game.deck = Deck::standard();
    game.pot = 17;
    game.board.push(spade(Rank::Two));
    game.table.seat_mut(0).unwrap().folded = true;
    game.table.seat_mut(2).unwrap().all_in = true;
    game.start_hand();
    assert_eq!(game.table.dealer_button, 1);
    assert_eq!(game.to_act, 1);
    assert_eq!(game.street, Street::Preflop);
    assert!(game.board.is_empty());
    assert_eq!(game.pot, 0);
    assert_eq!(game.deck.remaining(), 46);
    let alice = game.table.seat(0).unwrap();
    assert!(!alice.folded);
    assert_eq!(alice.chips, 100);
    assert_eq!(alice.hole_cards(), Some((spade(Rank::Ace), spade(Rank::Jack))));
    let bob = game.table.seat(1).unwrap();
    assert_eq!(bob.hole_cards(), Some((spade(Rank::King), spade(Rank::Ten))));
    let carol = game.table.seat(2).unwrap();
    assert!(!carol.all_in);
    assert_eq!(carol.hole_cards(), Some((spade(Rank::Queen), spade(Rank::Nine))));
    let round = game.bet_round.as_ref().unwrap();
    assert_eq!(round.current_bet(), 0);
    assert_eq!(round.opener(), None);
    assert_eq!(round.last_to_act(), 2);
    assert_eq!(round.contribution(0), Some(0));
    assert_eq!(round.contribution(2), Some(0));
    assert_eq!(round.contribution(3), None);
}

#[test]
fn streets_are_dealt_with_a_burnt_card_each() {
    let mut game = GameState::new(three_handed(), 2);
    game.deck = Deck::standard();
    game.table.dealer_button = 2;
    game.deal_next_street();
    assert_eq!(game.street, Street::Flop);
    assert_eq!(game.board, vec![spade(Rank::King), spade(Rank::Queen), spade(Rank::Jack)]);
    assert_eq!(game.deck.remaining(), 48);
    assert_eq!(game.to_act, 0);
    game.deal_next_street();
    assert_eq!(game.street, Street::Turn);
    assert_eq!(game.board.len(), 4);
    assert_eq!(game.board[3], spade(Rank::Nine));
    assert_eq!(game.deck.remaining(), 46);
    game.deal_next_street();
    assert_eq!(game.street, Street::River);
    assert_eq!(game.board.len(), 5);
    assert_eq!(game.board[4], spade(Rank::Seven));
    assert_eq!(game.deck.remaining(), 44);
    assert!(game.bet_round.is_none());
    game.deal_next_street();
    assert_eq!(game.street, Street::Showdown);
    assert_eq!(game.board.len(), 5);
    assert_eq!(game.deck.remaining(), 44);
    assert!(game.bet_round.is_none());
    game.to_act = 2;
    game.deal_next_street();
    assert_eq!(game.street, Street::Showdown);
    assert_eq!(game.deck.remaining(), 44);
    assert_eq!(game.to_act, 0);
    assert_eq!(game.bet_round.as_ref().unwrap().last_to_act(), 0);
    assert_eq!(game.pot, 0);
}

#[test]
fn blinds_are_capped_by_the_stack() {
    let mut game = GameState::new(three_handed(), 2);
    game.collect_blind(0, 2);
    assert_eq!(game.pot, 2);
    assert_eq!(game.table.seat(0).unwrap().chips, 98);
    game.collect_blind(2, 60);
    assert_eq!(game.pot, 52);
    assert_eq!(game.table.seat(2).unwrap().chips, 0);
    game.collect_blind(2, 60);
    assert_eq!(game.pot, 52);
    game.collect_blind(3, 60);
    assert_eq!(game.pot, 52);
    game.table.remove_player(1);
    game.collect_blind(1, 4);
    assert_eq!(game.pot, 52);
}

#[test]
fn the_turn_moves_to_the_next_player() {
    let mut game = GameState::new(three_handed(), 2);
    game.table.remove_player(1);
    game.advance_action();
    assert_eq!(game.to_act, 2);
    game.advance_action();
    assert_eq!(game.to_act, 0);
}

#[test]
fn actions_without_a_round_do_nothing() {
    let mut game = GameState::new(three_handed(), 2);
    game.player_action(0, Action::Allin);
    assert_eq!(game.pot, 0);
    assert_eq!(game.table.seat(0).unwrap().chips, 100);
    assert_eq!(game.street, Street::Preflop);
    assert_eq!(game.deck.remaining(), 52);
    assert!(game.bet_round.is_none());
}

#[test]
fn a_hand_is_played_through_two_rounds() {
    let mut game = GameState::new(three_handed(), 2);
    game.start_hand();
    assert_eq!(game.to_act, 1);
    // the first to act limps for nothing, which closes the untouched round
    game.player_action(game.to_act, Action::Call);
    assert_eq!(game.street, Street::Flop);
    assert_eq!(game.board.len(), 3);
    assert_eq!(game.pot, 0);
    assert_eq!(game.to_act, 2);
    game.player_action(game.to_act, Action::Raise(6));
    assert_eq!(game.to_act, 0);
    assert_eq!(game.pot, 0);
    game.player_action(game.to_act, Action::Allin);
    assert_eq!(game.to_act, 1);
    game.player_action(game.to_act, Action::Call);
    assert_eq!(game.to_act, 2);
    assert_eq!(game.street, Street::Flop);
    game.player_action(game.to_act, Action::Call);
    assert_eq!(game.street, Street::Turn);
    assert_eq!(game.board.len(), 4);
    assert_eq!(game.pot, 250);
    assert_eq!(game.to_act, 2);
    assert_eq!(game.deck.remaining(), 52 - 6 - 4 - 2);
    for seat in 0..3 {
        assert_eq!(game.table.seat(seat).unwrap().chips, 0);
    }
    let round = game.bet_round.as_ref().unwrap();
    assert_eq!(round.current_bet(), 100);
    assert_eq!(round.contribution(2), Some(50));
}

#[test]
fn closing_the_river_round_leads_to_the_showdown() {
    let mut game = GameState::new(three_handed(), 2);
    game.start_hand();
    game.street = Street::River;
    game.to_act = 0;
    game.player_action(0, Action::Bet(10));
    assert_eq!(game.to_act, 1);
    game.player_action(1, Action::Fold);
    assert_eq!(game.to_act, 2);
    game.player_action(2, Action::Call);
    assert_eq!(game.street, Street::Showdown);
    assert_eq!(game.pot, 20);
    assert_eq!(game.to_act, 2);
    assert!(game.board.is_empty());
    assert_eq!(game.deck.remaining(), 46);
}
