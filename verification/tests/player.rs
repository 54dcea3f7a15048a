use poker_engine::{Card, Player, Rank, Suit};

#[test]
fn new_player_has_no_cards() {
    let p = Player::new(7, "Alice", 100);
    assert_eq!(p.id, 7);
    assert_eq!(p.name, "Alice");
    assert_eq!(p.chips, 100);
    assert!(!p.folded);
    assert!(!p.all_in);
    assert_eq!(p.hole_cards(), None);
    let q = Player::new(8, String::from("Bob"), 0);
    assert_eq!(q.name, "Bob");
    assert_eq!(q.chips, 0);
}

#[test]
fn player_takes_two_cards_and_no_third() {
    let a = Card { rank: Rank::Ace, suit: Suit::Spades };
    let b = Card { rank: Rank::Two, suit: Suit::Hearts };
    let d = Card { rank: Rank::Nine, suit: Suit::Clubs };
    let mut p = Player::new(1, "Carol", 50);
    assert!(p.receive_card(a));
    assert_eq!(p.hole_cards(), None);
    assert_eq!(p.hole_cards, [Some(a), None]);
    assert!(p.receive_card(b));
    assert_eq!(p.hole_cards(), Some((a, b)));
    assert!(!p.receive_card(d));
    assert_eq!(p.hole_cards(), Some((a, b)));
    assert_eq!(p.chips, 50);
}

#[test]
fn clear_hand_resets_cards_and_flags() {
    let a = Card { rank: Rank::Ace, suit: Suit::Spades };
    let mut p = Player::new(1, "Carol", 50);
    p.receive_card(a);
    p.receive_card(a);
    p.folded = true;
    p.all_in = true;
    p.clear_hand();
    assert_eq!(p.hole_cards(), None);
    assert_eq!(p.hole_cards, [None, None]);
    assert!(!p.folded);
    assert!(!p.all_in);
    assert_eq!(p.chips, 50);
    assert_eq!(p.name, "Carol");
    assert_eq!(p.id, 1);
}
