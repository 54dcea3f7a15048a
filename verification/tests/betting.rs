use poker_engine::{Action, BetRound, Player, Table};

fn table_with(stacks: &[u32]) -> Table {
    let mut table = Table::new(stacks.len());
    for (i, chips) in stacks.iter().enumerate() {
        table.add_player(Player::new(i, "p", *chips));
    }
    table
}

fn chips(table: &Table, seat: usize) -> u32 {
    table.seat(seat).unwrap().chips
}

#[test]
fn fresh_round_closes_after_the_button() {
    let mut table = table_with(&[100, 100, 50, 10]);
    table.remove_player(2);
    let round = BetRound::new(&table, 1);
    assert_eq!(round.current_bet(), 0);
    assert_eq!(round.opener(), None);
    assert_eq!(round.last_to_act(), 3);
    for i in 0..4 {
        assert_eq!(round.contribution(i), Some(0));
    }
    assert_eq!(round.contribution(4), None);
    assert!(round.fits(&table));
    assert_eq!(round.stake(&table), Some(0));
    assert!(round.into_sidepots(&table).is_empty());
    assert_eq!(BetRound::new(&table, 3).last_to_act(), 0);
}

#[test]
fn round_closure_three_seats() {
    // seat 0 is the small blind, seat 1 the big blind with the short stack,
    // seat 2 under the gun and on the button
    let mut table = table_with(&[100, 50, 100]);
    let mut round = BetRound::new(&table, 2);
    assert_eq!(round.last_to_act(), 0);
    assert_eq!(round.act(&mut table, 0, Action::Bet(1)), Some(1));
    assert_eq!(round.act(&mut table, 1, Action::Bet(2)), Some(2));
    assert_eq!(round.current_bet(), 2);
    // under the gun calls the big blind
    assert_eq!(round.act(&mut table, 2, Action::Call), Some(0));
    assert_eq!(chips(&table, 2), 98);
    // the small blind raises to 10
    assert_eq!(round.act(&mut table, 0, Action::Raise(8)), Some(1));
    assert_eq!(round.current_bet(), 10);
    assert_eq!(round.opener(), Some(0));
    assert_eq!(round.last_to_act(), 1);
    assert_eq!(chips(&table, 0), 90);
    // the big blind shoves its 50
    assert_eq!(round.act(&mut table, 1, Action::Allin), Some(2));
    assert_eq!(round.current_bet(), 50);
    assert_eq!(round.opener(), Some(1));
    assert_eq!(round.last_to_act(), 2);
    assert_eq!(chips(&table, 1), 0);
    // both others call in full
    assert_eq!(round.act(&mut table, 2, Action::Call), Some(0));
    assert_eq!(round.act(&mut table, 0, Action::Call), None);
    assert_eq!(chips(&table, 0), 50);
    assert_eq!(chips(&table, 1), 0);
    assert_eq!(chips(&table, 2), 50);
    let pots = round.into_sidepots(&table);
    assert_eq!(pots, vec![(150, vec![0, 1, 2])]);
    let moved = (100 - 50) + (50 - 0) + (100 - 50);
    assert_eq!(pots.iter().map(|p| p.0).sum::<u32>(), moved);
    assert_eq!(round.stake(&table), Some(150));
    assert_eq!(pots.iter().filter(|p| p.1.contains(&1)).count(), 1);
    assert_eq!(pots[0].0, 50 * 3);
}

#[test]
fn short_stack_is_capped_by_a_side_pot() {
    let mut table = table_with(&[100, 100, 50]);
    let mut round = BetRound::new(&table, 1);
    // a call of nothing closes the untouched round at once
    assert_eq!(round.act(&mut table, 1, Action::Call), None);
    assert!(round.into_sidepots(&table).is_empty());
    assert_eq!(round.act(&mut table, 2, Action::Raise(6)), Some(0));
    assert_eq!(round.act(&mut table, 0, Action::Allin), Some(1));
    assert_eq!(round.act(&mut table, 1, Action::Call), Some(2));
    // the short stack calls for less and is all-in
    assert_eq!(round.act(&mut table, 2, Action::Call), None);
    assert_eq!(round.contribution(0), Some(100));
    assert_eq!(round.contribution(1), Some(100));
    assert_eq!(round.contribution(2), Some(50));
    assert_eq!(chips(&table, 0), 0);
    assert_eq!(chips(&table, 1), 0);
    assert_eq!(chips(&table, 2), 0);
    let pots = round.into_sidepots(&table);
    assert_eq!(pots, vec![(150, vec![2, 0, 1]), (100, vec![0, 1])]);
    assert_eq!(pots.iter().map(|p| p.0).sum::<u32>(), 250);
    assert_eq!(round.stake(&table), Some(250));
}

#[test]
fn actions_move_the_chips_they_ask_for() {
    let mut table = table_with(&[100, 100, 100, 100]);
    let mut round = BetRound::new(&table, 3);
    // check: nothing moves
    assert_eq!(round.act(&mut table, 0, Action::Check), None);
    assert_eq!(chips(&table, 0), 100);
    assert_eq!(round.contribution(0), Some(0));
    // bet: up to the amount
    assert_eq!(round.act(&mut table, 0, Action::Bet(10)), Some(1));
    assert_eq!(chips(&table, 0), 90);
    assert_eq!(round.contribution(0), Some(10));
    assert_eq!(round.current_bet(), 10);
    assert_eq!(round.opener(), Some(0));
    assert_eq!(round.last_to_act(), 1);
    // call: up to the current bet
    assert_eq!(round.act(&mut table, 1, Action::Call), Some(2));
    assert_eq!(chips(&table, 1), 90);
    // raise: the current bet and the increment
    assert_eq!(round.act(&mut table, 2, Action::Raise(15)), Some(3));
    assert_eq!(chips(&table, 2), 75);
    assert_eq!(round.contribution(2), Some(25));
    assert_eq!(round.current_bet(), 25);
    assert_eq!(round.opener(), Some(2));
    assert_eq!(round.last_to_act(), 3);
    // a bet below what is in already moves nothing
    assert_eq!(round.act(&mut table, 2, Action::Bet(5)), Some(3));
    assert_eq!(chips(&table, 2), 75);
    assert_eq!(round.contribution(2), Some(25));
    // a bet below the current bet raises nothing
    assert_eq!(round.act(&mut table, 3, Action::Bet(20)), Some(0));
    assert_eq!(round.contribution(3), Some(20));
    assert_eq!(round.current_bet(), 25);
    assert_eq!(round.opener(), Some(2));
    // a second call only pays the difference
    assert_eq!(round.act(&mut table, 0, Action::Call), Some(1));
    assert_eq!(chips(&table, 0), 75);
    assert_eq!(round.contribution(0), Some(25));
    // all-in: the whole stack
    assert_eq!(round.act(&mut table, 1, Action::Allin), Some(2));
    assert_eq!(chips(&table, 1), 0);
    assert_eq!(round.contribution(1), Some(100));
    assert_eq!(round.current_bet(), 100);
    assert!(!table.seat(1).unwrap().all_in);
    assert!(round.fits(&table));
}

#[test]
fn payments_are_capped_by_the_stack() {
    let mut table = table_with(&[30, 100, 5]);
    let mut round = BetRound::new(&table, 2);
    assert_eq!(round.act(&mut table, 1, Action::Bet(60)), Some(2));
    // calling for less than the bet
    assert_eq!(round.act(&mut table, 2, Action::Call), Some(0));
    assert_eq!(chips(&table, 2), 0);
    assert_eq!(round.contribution(2), Some(5));
    assert_eq!(round.current_bet(), 60);
    // raising beyond the stack is an all-in for less
    assert_eq!(round.act(&mut table, 0, Action::Raise(u32::MAX)), None);
    assert_eq!(chips(&table, 0), 0);
    assert_eq!(round.contribution(0), Some(30));
    assert_eq!(round.current_bet(), 60);
    assert_eq!(round.opener(), Some(1));
    let pots = round.into_sidepots(&table);
    assert_eq!(pots, vec![(15, vec![2, 0, 1]), (50, vec![0, 1]), (30, vec![1])]);
    // betting more than the stack
    let mut table = table_with(&[30, 100]);
    let mut round = BetRound::new(&table, 0);
    assert_eq!(round.act(&mut table, 0, Action::Bet(u32::MAX)), Some(1));
    assert_eq!(round.contribution(0), Some(30));
    assert_eq!(round.current_bet(), 30);
}

#[test]
fn fold_marks_the_player_and_moves_nothing() {
    let mut table = table_with(&[100, 100, 100]);
    let mut round = BetRound::new(&table, 2);
    assert_eq!(round.act(&mut table, 0, Action::Bet(10)), Some(1));
    assert_eq!(round.act(&mut table, 1, Action::Fold), Some(2));
    assert!(table.seat(1).unwrap().folded);
    assert_eq!(chips(&table, 1), 100);
    assert_eq!(round.contribution(1), Some(0));
    assert_eq!(round.current_bet(), 10);
    assert_eq!(round.opener(), Some(0));
    assert_eq!(round.act(&mut table, 2, Action::Call), None);
    assert_eq!(round.into_sidepots(&table), vec![(20, vec![0, 2])]);
}

#[test]
fn folded_chips_are_in_no_pot_and_folded_seats_win_none() {
    let mut table = table_with(&[100, 100, 100]);
    let mut round = BetRound::new(&table, 2);
    assert_eq!(round.act(&mut table, 0, Action::Bet(30)), Some(1));
    assert_eq!(round.act(&mut table, 1, Action::Raise(20)), Some(2));
    assert_eq!(round.act(&mut table, 2, Action::Call), Some(0));
    assert_eq!(round.act(&mut table, 0, Action::Fold), None);
    let pots = round.into_sidepots(&table);
    assert_eq!(pots, vec![(100, vec![1, 2])]);
    for pot in pots.iter() {
        assert!(!pot.1.contains(&0));
    }
    assert_eq!(round.stake(&table), Some(100));
    assert_eq!(round.contribution(0), Some(30));
}

#[test]
fn the_next_to_act_is_the_first_seat_that_owes() {
    let mut table = table_with(&[100, 100, 100, 100, 100]);
    table.remove_player(3);
    let mut round = BetRound::new(&table, 0);
    assert_eq!(round.act(&mut table, 1, Action::Bet(10)), Some(2));
    assert_eq!(round.act(&mut table, 2, Action::Fold), Some(4));
    assert_eq!(round.act(&mut table, 4, Action::Call), Some(0));
    // a check leaves the round open while the seat itself is short
    assert_eq!(round.act(&mut table, 4, Action::Check), Some(0));
    assert_eq!(round.act(&mut table, 0, Action::Raise(10)), Some(1));
    assert_eq!(round.last_to_act(), 1);
    assert_eq!(round.act(&mut table, 1, Action::Call), Some(4));
    assert_eq!(round.act(&mut table, 4, Action::Call), None);
    assert_eq!(round.into_sidepots(&table), vec![(60, vec![0, 1, 4])]);
}

#[test]
fn a_seat_without_chips_owes_nothing() {
    let mut table = table_with(&[100, 20, 100]);
    let mut round = BetRound::new(&table, 2);
    assert_eq!(round.act(&mut table, 1, Action::Allin), Some(2));
    assert_eq!(round.act(&mut table, 2, Action::Raise(30)), Some(0));
    // seat 1 is short of the bet of 50 but has nothing left to put in
    assert_eq!(round.act(&mut table, 0, Action::Call), None);
    assert_eq!(round.into_sidepots(&table), vec![(60, vec![1, 0, 2]), (60, vec![0, 2])]);
}

#[test]
fn equal_contributions_share_one_level() {
    let mut table = table_with(&[50, 50, 100, 100]);
    let mut round = BetRound::new(&table, 3);
    assert_eq!(round.act(&mut table, 0, Action::Allin), Some(1));
    assert_eq!(round.act(&mut table, 1, Action::Allin), Some(2));
    assert_eq!(round.act(&mut table, 2, Action::Allin), Some(3));
    assert_eq!(round.act(&mut table, 3, Action::Call), None);
    let pots = round.into_sidepots(&table);
    assert_eq!(pots, vec![(200, vec![0, 1, 2, 3]), (100, vec![2, 3])]);
    assert_eq!(pots.iter().map(|p| p.0).sum::<u32>(), 300);
}

#[test]
fn a_seat_that_put_in_nothing_joins_no_pot() {
    let mut table = table_with(&[0, 40, 40]);
    let mut round = BetRound::new(&table, 2);
    assert_eq!(round.act(&mut table, 1, Action::Bet(40)), Some(2));
    assert_eq!(round.act(&mut table, 2, Action::Call), None);
    assert_eq!(round.into_sidepots(&table), vec![(80, vec![1, 2])]);
}

#[test]
fn no_chips_are_made_or_lost() {
    let stacks = [100u32, 35, 80, 60];
    let mut table = table_with(&stacks);
    let mut round = BetRound::new(&table, 0);
    let moves = [
        (1, Action::Bet(5)),
        (2, Action::Raise(10)),
        (3, Action::Call),
        (0, Action::Raise(40)),
        (1, Action::Allin),
        (2, Action::Fold),
        (3, Action::Call),
        (0, Action::Check),
    ];
    for (seat, action) in moves {
        round.act(&mut table, seat, action);
        let put_in: u32 = (0..4).map(|i| round.contribution(i).unwrap()).sum();
        let taken: u32 = (0..4).map(|i| stacks[i] - chips(&table, i)).sum();
        assert_eq!(put_in, taken);
        for i in 0..4 {
            assert_eq!(round.contribution(i).unwrap() + chips(&table, i), stacks[i]);
        }
        assert!(round.fits(&table));
    }
    assert_eq!(round.contribution(0), Some(55));
    assert_eq!(round.contribution(1), Some(35));
    assert_eq!(round.contribution(2), Some(15));
    assert_eq!(round.contribution(3), Some(55));
    let pots = round.into_sidepots(&table);
    assert_eq!(pots, vec![(105, vec![1, 0, 3]), (40, vec![0, 3])]);
    let live: u32 = 55 + 35 + 55;
    assert_eq!(pots.iter().map(|p| p.0).sum::<u32>(), live);
    assert_eq!(round.stake(&table), Some(live));
}

#[test]
fn a_round_of_another_table_does_not_fit() {
    let table = table_with(&[10, 10, 10]);
    let other = table_with(&[10, 10]);
    let round = BetRound::new(&table, 0);
    assert!(round.fits(&table));
    assert!(!round.fits(&other));
    let mut rich = table_with(&[u32::MAX, 10]);
    let mut round = BetRound::new(&rich, 0);
    round.act(&mut rich, 1, Action::Bet(10));
    assert!(round.fits(&rich));
    rich.seat_mut(1).unwrap().chips = u32::MAX;
    assert!(!round.fits(&rich));
    let mut round = BetRound::new(&rich, 0);
    round.act(&mut rich, 0, Action::Allin);
    round.act(&mut rich, 1, Action::Allin);
    assert_eq!(round.stake(&rich), None);
}
