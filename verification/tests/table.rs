use poker_engine::{Card, Deck, Player, Rank, Suit, Table};

fn three_handed() -> Table {
    let mut table = Table::new(3);
    table.add_player(Player::new(1, "Alice", 100));
    table.add_player(Player::new(2, "Bob", 100));
    table.add_player(Player::new(3, "Carol", 50));
    table
}

#[test]
fn new_table_is_empty() {
    let table = Table::new(6);
    assert_eq!(table.seat_count(), 6);
    assert_eq!(table.active_player_count(), 0);
    assert_eq!(table.dealer_button, 0);
    for i in 0..6 {
        assert!(table.seat(i).is_none());
    }
    assert!(table.seat(6).is_none());
    assert_eq!(Table::new(2).seat_count(), 2);
    assert_eq!(Table::new(10).seat_count(), 10);
}

#[test]
fn players_sit_at_the_first_free_seat() {
    let mut table = Table::new(3);
    assert_eq!(table.add_player(Player::new(1, "Alice", 100)), Some(0));
    assert_eq!(table.add_player(Player::new(2, "Bob", 100)), Some(1));
    assert_eq!(table.active_player_count(), 2);
    let gone = table.remove_player(0);
    assert_eq!(gone.unwrap().name, "Alice");
    assert_eq!(table.active_player_count(), 1);
    assert_eq!(table.add_player(Player::new(3, "Carol", 50)), Some(0));
    assert_eq!(table.add_player(Player::new(4, "Dave", 50)), Some(2));
    assert_eq!(table.add_player(Player::new(5, "Eve", 50)), None);
    assert_eq!(table.active_player_count(), 3);
    assert_eq!(table.seat(0).unwrap().name, "Carol");
    assert_eq!(table.seat(1).unwrap().name, "Bob");
    assert_eq!(table.seat(2).unwrap().name, "Dave");
}

#[test]
fn removing_from_an_empty_or_missing_seat_gives_nothing() {
    let mut table = Table::new(3);
    assert!(table.remove_player(1).is_none());
    assert!(table.remove_player(3).is_none());
    assert!(table.remove_player(usize::MAX).is_none());
    assert_eq!(table.seat_count(), 3);
}

#[test]
fn next_occupied_goes_round_and_skips_empty_seats() {
    let mut table = Table::new(5);
    for i in 0..5 {
        table.add_player(Player::new(i, "p", 10));
    }
    table.remove_player(1);
    table.remove_player(2);
    assert_eq!(table.next_occupied(0), 3);
    assert_eq!(table.next_occupied(1), 3);
    assert_eq!(table.next_occupied(3), 4);
    assert_eq!(table.next_occupied(4), 0);
    assert_eq!(table.next_occupied(9), 0);
    assert_eq!(table.next_occupied(7), 3);
    assert_eq!(table.next_occupied(usize::MAX), (usize::MAX % 5 + 1..).map(|i| i % 5).find(|i| *i != 1 && *i != 2).unwrap());
    table.remove_player(0);
    table.remove_player(4);
    assert_eq!(table.next_occupied(3), 3);
    assert_eq!(table.next_occupied(0), 3);
}

#[test]
fn button_moves_to_the_next_player() {
    let mut table = Table::new(4);
    table.advance_button();
    assert_eq!(table.dealer_button, 0);
    for i in 0..4 {
        table.add_player(Player::new(i, "p", 10));
    }
    table.remove_player(1);
    table.advance_button();
    assert_eq!(table.dealer_button, 2);
    table.advance_button();
    assert_eq!(table.dealer_button, 3);
    table.advance_button();
    assert_eq!(table.dealer_button, 0);
    table.advance_button();
    assert_eq!(table.dealer_button, 2);
}

#[test]
fn hole_cards_are_dealt_one_each_in_two_rounds() {
    let mut table = Table::new(4);
    for i in 0..4 {
        table.add_player(Player::new(i, "p", 10));
    }
    table.remove_player(1);
    let mut deck = Deck::standard();
    table.deal_hole_cards(&mut deck);
    assert_eq!(deck.remaining(), 46);
    let spade = |rank| Card { rank, suit: Suit::Spades };
    assert_eq!(table.seat(0).unwrap().hole_cards(), Some((spade(Rank::Ace), spade(Rank::Jack))));
    assert!(table.seat(1).is_none());
    assert_eq!(table.seat(2).unwrap().hole_cards(), Some((spade(Rank::King), spade(Rank::Ten))));
    assert_eq!(table.seat(3).unwrap().hole_cards(), Some((spade(Rank::Queen), spade(Rank::Nine))));
    assert_eq!(deck.deal(), Some(spade(Rank::Eight)));
}

#[test]
fn seats_can_be_changed_in_place() {
    let mut table = three_handed();
    table.seat_mut(1).unwrap().chips = 7;
    assert_eq!(table.seat(1).unwrap().chips, 7);
    assert!(table.seat_mut(3).is_none());
    let seats = table.seats_mut();
    assert_eq!(seats.len(), 3);
    seats[2] = None;
    if let Some(p) = &mut seats[0] {
        p.folded = true;
    }
    assert_eq!(table.active_player_count(), 2);
    assert!(table.seat(0).unwrap().folded);
    assert!(table.seat_mut(2).is_none());
}
