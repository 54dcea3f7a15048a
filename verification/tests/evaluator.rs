use poker_engine::{evaluate_five, evaluate_seven, Card, HandCategory, HandRank, Rank, Suit};
use std::cmp::Ordering;

fn c(rank: Rank, suit: Suit) -> Card {
    Card { rank, suit }
}

fn five(cards: [(Rank, Suit); 5]) -> HandRank {
    let hand: Vec<Card> = cards.iter().map(|&(r, s)| c(r, s)).collect();
    evaluate_five(&hand)
}

use Rank::{Ace, Eight, Five, Four, Jack, King, Nine, Queen, Seven, Six, Ten, Three, Two};
use Suit::{Clubs, Diamonds, Hearts, Spades};

#[test]
fn royal_flush_is_an_ace_high_straight_flush() {
    let r = five([(Ace, Spades), (King, Spades), (Queen, Spades), (Jack, Spades), (Ten, Spades)]);
    assert_eq!(r.category, HandCategory::StraightFlush);
    assert_eq!(r.kickers, [Some(Ace), None, None, None, None]);
}

#[test]
fn wheel_is_a_five_high_straight_below_the_six_high() {
    let wheel =
        five([(Five, Diamonds), (Four, Clubs), (Three, Hearts), (Two, Spades), (Ace, Clubs)]);
    assert_eq!(wheel.category, HandCategory::Straight);
    assert_eq!(wheel.kickers, [Some(Five), None, None, None, None]);
    let six_high =
        five([(Six, Diamonds), (Five, Clubs), (Four, Hearts), (Three, Spades), (Two, Clubs)]);
    assert_eq!(six_high.category, HandCategory::Straight);
    assert_eq!(six_high.kickers, [Some(Six), None, None, None, None]);
    assert!(wheel < six_high);
    assert!(six_high > wheel);
    assert!(wheel != six_high);
}

#[test]
fn steel_wheel_is_the_weakest_straight_flush() {
    let wheel = five([(Five, Hearts), (Four, Hearts), (Three, Hearts), (Two, Hearts), (Ace, Hearts)]);
    assert_eq!(wheel.category, HandCategory::StraightFlush);
    assert_eq!(wheel.kickers, [Some(Five), None, None, None, None]);
    let six = five([(Six, Hearts), (Five, Hearts), (Four, Hearts), (Three, Hearts), (Two, Hearts)]);
    assert!(wheel < six);
}

#[test]
fn four_of_a_kind_keeps_its_kicker() {
    let r = five([(Ace, Spades), (Ace, Hearts), (King, Spades), (Ace, Diamonds), (Ace, Clubs)]);
    assert_eq!(r.category, HandCategory::FourOfAKind);
    assert_eq!(r.kickers, [Some(Ace), Some(King), None, None, None]);
    let lower = five([(Ace, Spades), (Ace, Hearts), (Queen, Spades), (Ace, Diamonds), (Ace, Clubs)]);
    assert!(lower < r);
    let deuces = five([(Two, Spades), (Two, Hearts), (Ace, Spades), (Two, Diamonds), (Two, Clubs)]);
    assert_eq!(deuces.kickers, [Some(Two), Some(Ace), None, None, None]);
    assert!(deuces < lower);
}

#[test]
fn full_house_ranks_trips_before_pair() {
    let r = five([(Two, Spades), (King, Hearts), (King, Spades), (Two, Diamonds), (King, Clubs)]);
    assert_eq!(r.category, HandCategory::FullHouse);
    assert_eq!(r.kickers, [Some(King), Some(Two), None, None, None]);
    let other = five([(Two, Spades), (Two, Hearts), (Ace, Spades), (Two, Diamonds), (Ace, Clubs)]);
    assert_eq!(other.kickers, [Some(Two), Some(Ace), None, None, None]);
    assert!(other < r);
}

#[test]
fn flush_lists_all_five_ranks_highest_first() {
    let r = five([(Six, Spades), (Ace, Spades), (Three, Spades), (Jack, Spades), (Nine, Spades)]);
    assert_eq!(r.category, HandCategory::Flush);
    assert_eq!(r.kickers, [Some(Ace), Some(Jack), Some(Nine), Some(Six), Some(Three)]);
}

#[test]
fn straight_is_valued_by_its_top_card() {
    let r = five([(Six, Spades), (Nine, Hearts), (Five, Spades), (Eight, Clubs), (Seven, Spades)]);
    assert_eq!(r.category, HandCategory::Straight);
    assert_eq!(r.kickers, [Some(Nine), None, None, None, None]);
    let broadway =
        five([(Ace, Spades), (King, Hearts), (Queen, Spades), (Jack, Clubs), (Ten, Spades)]);
    assert_eq!(broadway.category, HandCategory::Straight);
    assert_eq!(broadway.kickers, [Some(Ace), None, None, None, None]);
}

#[test]
fn ace_does_not_wrap_around_the_king() {
    let r = five([(Queen, Spades), (King, Hearts), (Ace, Spades), (Two, Clubs), (Three, Spades)]);
    assert_eq!(r.category, HandCategory::HighCard);
    assert_eq!(r.kickers, [Some(Ace), Some(King), Some(Queen), Some(Three), Some(Two)]);
}

#[test]
fn three_of_a_kind_is_followed_by_two_kickers() {
    let r = five([(Seven, Spades), (Two, Hearts), (Seven, Hearts), (King, Clubs), (Seven, Clubs)]);
    assert_eq!(r.category, HandCategory::ThreeOfAKind);
    assert_eq!(r.kickers, [Some(Seven), Some(King), Some(Two), None, None]);
}

#[test]
fn two_pair_keeps_its_kicker() {
    let r = five([(Four, Spades), (Jack, Hearts), (Ace, Hearts), (Jack, Clubs), (Four, Clubs)]);
    assert_eq!(r.category, HandCategory::TwoPair);
    assert_eq!(r.kickers, [Some(Jack), Some(Four), Some(Ace), None, None]);
    let lower = five([(Four, Spades), (Jack, Hearts), (King, Hearts), (Jack, Clubs), (Four, Clubs)]);
    assert_eq!(lower.kickers, [Some(Jack), Some(Four), Some(King), None, None]);
    assert!(lower < r);
}

#[test]
fn one_pair_is_followed_by_three_kickers() {
    let r = five([(Nine, Spades), (Three, Hearts), (Ace, Hearts), (Nine, Clubs), (King, Clubs)]);
    assert_eq!(r.category, HandCategory::OnePair);
    assert_eq!(r.kickers, [Some(Nine), Some(Ace), Some(King), Some(Three), None]);
}

#[test]
fn high_card_lists_all_five_ranks() {
    let r = five([(Nine, Spades), (Three, Hearts), (Ace, Hearts), (Six, Clubs), (Queen, Clubs)]);
    assert_eq!(r.category, HandCategory::HighCard);
    assert_eq!(r.kickers, [Some(Ace), Some(Queen), Some(Nine), Some(Six), Some(Three)]);
}

#[test]
fn categories_rank_from_high_card_up_to_straight_flush() {
    let hands = [
        five([(Nine, Spades), (Three, Hearts), (Ace, Hearts), (Six, Clubs), (Queen, Clubs)]),
        five([(Two, Spades), (Two, Hearts), (Three, Hearts), (Four, Clubs), (Five, Clubs)]),
        five([(Two, Spades), (Two, Hearts), (Three, Hearts), (Three, Clubs), (Five, Clubs)]),
        five([(Two, Spades), (Two, Hearts), (Two, Diamonds), (Three, Clubs), (Five, Clubs)]),
        five([(Five, Diamonds), (Four, Clubs), (Three, Hearts), (Two, Spades), (Ace, Clubs)]),
        five([(Two, Spades), (Three, Spades), (Four, Spades), (Five, Spades), (Seven, Spades)]),
        five([(Two, Spades), (Two, Hearts), (Two, Diamonds), (Three, Clubs), (Three, Spades)]),
        five([(Two, Spades), (Two, Hearts), (Two, Diamonds), (Two, Clubs), (Three, Spades)]),
        five([(Five, Hearts), (Four, Hearts), (Three, Hearts), (Two, Hearts), (Ace, Hearts)]),
    ];
    let categories = [
        HandCategory::HighCard,
        HandCategory::OnePair,
        HandCategory::TwoPair,
        HandCategory::ThreeOfAKind,
        HandCategory::Straight,
        HandCategory::Flush,
        HandCategory::FullHouse,
        HandCategory::FourOfAKind,
        HandCategory::StraightFlush,
    ];
    for i in 0..9 {
        assert_eq!(hands[i].category, categories[i]);
        assert_eq!(hands[i].category.strength(), i as u8);
        for j in 0..9 {
            assert_eq!(hands[i] < hands[j], i < j);
            assert_eq!(hands[i] == hands[j], i == j);
            assert_eq!(hands[i] > hands[j], i > j);
            assert_eq!(hands[i].partial_cmp(&hands[j]), Some(i.cmp(&j)));
            assert_eq!(hands[i].cmp(&hands[j]), i.cmp(&j));
        }
    }
}

#[test]
fn exactly_one_of_less_equal_greater_holds() {
    let hands = [
        five([(Nine, Spades), (Three, Hearts), (Ace, Hearts), (Six, Clubs), (Queen, Clubs)]),
        five([(Nine, Hearts), (Three, Spades), (Ace, Clubs), (Six, Hearts), (Queen, Spades)]),
        five([(Nine, Spades), (Three, Hearts), (Ace, Hearts), (Six, Clubs), (King, Clubs)]),
        five([(Four, Spades), (Jack, Hearts), (Ace, Hearts), (Jack, Clubs), (Four, Clubs)]),
        five([(Four, Spades), (Jack, Hearts), (King, Hearts), (Jack, Clubs), (Four, Clubs)]),
        five([(Two, Spades), (Two, Hearts), (Three, Hearts), (Four, Clubs), (Five, Clubs)]),
    ];
    for a in hands.iter() {
        for b in hands.iter() {
            let less = a < b;
            let equal = a == b;
            let greater = a > b;
            assert_eq!(1, less as u8 + equal as u8 + greater as u8);
            assert_eq!(equal, a.category == b.category && a.kickers == b.kickers);
            assert_eq!(less, b > a);
            assert_eq!(a.cmp(b), a.partial_cmp(b).unwrap());
            for d in hands.iter() {
                if a < b && b < d {
                    assert!(a < d);
                }
            }
        }
    }
    assert!(hands[0] == hands[1]);
    assert_eq!(hands[0].cmp(&hands[1]), Ordering::Equal);
}

#[test]
fn unused_slots_rank_below_every_card() {
    let pair = HandRank {
        category: HandCategory::OnePair,
        kickers: [Some(Two), Some(Five), Some(Four), Some(Three), None],
    };
    let longer = HandRank {
        category: HandCategory::OnePair,
        kickers: [Some(Two), Some(Five), Some(Four), Some(Three), Some(Two)],
    };
    assert!(pair < longer);
    assert_eq!(pair.cmp(&longer), Ordering::Less);
    let same = HandRank {
        category: HandCategory::OnePair,
        kickers: [Some(Two), Some(Five), Some(Four), Some(Three), None],
    };
    assert!(pair == same);
}

#[test]
fn best_of_seven_takes_the_higher_of_two_straight_flushes() {
    let cards = [
        c(Five, Spades),
        c(Six, Spades),
        c(King, Diamonds),
        c(Seven, Spades),
        c(Eight, Spades),
        c(Nine, Spades),
        c(Ten, Spades),
    ];
    let best = evaluate_seven(&cards);
    assert_eq!(best.category, HandCategory::StraightFlush);
    assert_eq!(best.kickers, [Some(Ten), None, None, None, None]);
    let lower = five([(Five, Spades), (Six, Spades), (Seven, Spades), (Eight, Spades), (Nine, Spades)]);
    let upper = five([(Six, Spades), (Seven, Spades), (Eight, Spades), (Nine, Spades), (Ten, Spades)]);
    assert!(best >= lower);
    assert!(best >= upper);
    assert!(best == upper);
    assert!(lower < upper);
}

#[test]
fn best_of_seven_is_the_best_of_all_twenty_one_hands() {
    let cards = [
        c(Two, Clubs),
        c(Nine, Hearts),
        c(Nine, Spades),
        c(King, Diamonds),
        c(Four, Clubs),
        c(King, Clubs),
        c(Seven, Hearts),
    ];
    let best = evaluate_seven(&cards);
    assert_eq!(best.category, HandCategory::TwoPair);
    assert_eq!(best.kickers, [Some(King), Some(Nine), Some(Seven), None, None]);
    let mut count = 0;
    let mut reached = false;
    for a in 0..7 {
        for b in (a + 1)..7 {
            let hand: Vec<Card> =
                (0..7).filter(|&i| i != a && i != b).map(|i| cards[i]).collect();
            let r = evaluate_five(&hand);
            assert!(r <= best);
            if r == best {
                reached = true;
            }
            count += 1;
        }
    }
    assert_eq!(count, 21);
    assert!(reached);
}

#[test]
fn best_of_seven_uses_the_kicker_beside_quads_on_the_board() {
    let board = [c(Ace, Spades), c(Ace, Hearts), c(Ace, Diamonds), c(Ace, Clubs), c(Three, Hearts)];
    let with_king = evaluate_seven(&[
        c(King, Spades),
        c(Two, Diamonds),
        board[0],
        board[1],
        board[2],
        board[3],
        board[4],
    ]);
    let with_queen = evaluate_seven(&[
        c(Queen, Spades),
        c(Two, Clubs),
        board[0],
        board[1],
        board[2],
        board[3],
        board[4],
    ]);
    assert_eq!(with_king.category, HandCategory::FourOfAKind);
    assert_eq!(with_king.kickers, [Some(Ace), Some(King), None, None, None]);
    assert_eq!(with_queen.kickers, [Some(Ace), Some(Queen), None, None, None]);
    assert!(with_queen < with_king);
}

#[test]
fn best_of_seven_finds_a_hand_in_the_last_cards() {
    let cards = [
        c(Two, Clubs),
        c(Three, Diamonds),
        c(Ten, Hearts),
        c(Jack, Hearts),
        c(Queen, Hearts),
        c(King, Hearts),
        c(Ace, Hearts),
    ];
    let best = evaluate_seven(&cards);
    assert_eq!(best.category, HandCategory::StraightFlush);
    assert_eq!(best.kickers, [Some(Ace), None, None, None, None]);
}
