//! One street of betting: what each seat has put in, who acts next, and the
//! side pots the street closes into.

use crate::player::{Action, Player};
use crate::side_pots::{
    are_side_pots, charged, in_pots, lemma_charged_ends, lemma_cut_push, lemma_cut_skip,
    lemma_live_total_grows, lemma_pairs_total_insert, lemma_pots_from_pairs, lemma_rising,
    lemma_step, last_level, level_below, levels_cut, live_total, pairs_listed, pairs_total,
    pots_cut, pots_total, rising, seat_before, seats_from,
};
use crate::table::{any_player, has_player, lemma_next_seat_same, next_seat, Table};
use vstd::arithmetic::div_mod::{lemma_mod_add_multiples_vanish, lemma_small_mod};
use vstd::prelude::*;

verus! {

/// What a betting round holds, as plain values.
pub struct RoundState {
    /// Chips that each seat has put in on this street.
    pub contributed: Seq<u32>,
    /// The highest contribution so far, which every live seat has to match.
    pub current_bet: u32,
    /// The seat that last raised the current bet.
    pub opener: Option<usize>,
    /// The seat whose turn closes the round unless a raise re-opens it.
    pub last_to_act: usize,
}

/// The contribution that a seat aims at with an action, given the current
/// bet, the chips it has left and what it has put in already.
pub open spec fn wanted(action: Action, current_bet: u32, chips: u32, already: u32) -> int {
    match action {
        Action::Fold => already as int,
        Action::Check => already as int,
        Action::Call => current_bet as int,
        Action::Bet(amount) => amount as int,
        Action::Raise(increment) => current_bet + increment,
        Action::Allin => chips + already,
    }
}

/// The chips that an action moves from the stack: what is missing up to the
/// wanted contribution, but no more than the stack holds.
pub open spec fn payment(action: Action, current_bet: u32, chips: u32, already: u32) -> int {
    let want = wanted(action, current_bet, chips, already);
    let missing = if want > already {
        want - already
    } else {
        0
    };
    if missing < chips {
        missing
    } else {
        chips as int
    }
}

/// The action may raise the current bet; folding and checking never do.
pub open spec fn may_raise(action: Action) -> bool {
    !(action is Fold || action is Check)
}

/// The player after an action: the payment has left the stack, and a fold is
/// marked.
pub open spec fn player_after(p: Player, action: Action, current_bet: u32, already: u32) -> Player {
    Player {
        chips: (p.chips - payment(action, current_bet, p.chips, already)) as u32,
        folded: p.folded || action is Fold,
        ..p
    }
}

/// The seats after the player at `seat` took an action.
pub open spec fn seats_after(
    seats: Seq<Option<Player>>,
    state: RoundState,
    seat: int,
    action: Action,
) -> Seq<Option<Player>> {
    seats.update(
        seat,
        Some(player_after(seats[seat].unwrap(), action, state.current_bet, state.contributed[seat])),
    )
}

/// The round after the player at `seat` took an action: the payment is added
/// to the seat's contribution, and a contribution above the current bet
/// makes the seat the opener, its contribution the current bet, and the next
/// taken seat the one that closes the round.
pub open spec fn state_after(
    state: RoundState,
    seats: Seq<Option<Player>>,
    seat: int,
    action: Action,
) -> RoundState {
    let already = state.contributed[seat];
    let paid = (already + payment(action, state.current_bet, seats[seat].unwrap().chips, already)) as u32;
    let contributed = state.contributed.update(seat, paid);
    if may_raise(action) && paid > state.current_bet {
        RoundState {
            contributed,
            current_bet: paid,
            opener: Some(seat as usize),
            last_to_act: next_seat(seats, seat) as usize,
        }
    } else {
        RoundState { contributed, ..state }
    }
}

/// The seat still has to act: its player has not folded, has chips left, and
/// has not put in the current bet.
pub open spec fn owes(seats: Seq<Option<Player>>, state: RoundState, i: int) -> bool {
    &&& has_player(seats, i)
    &&& !seats[i].unwrap().folded
    &&& seats[i].unwrap().chips > 0
    &&& state.contributed[i] != state.current_bet
}

/// The number of steps, counted from `step` on, that lead from seat `from`
/// round the table to the first seat that owes; the number of seats where
/// none does before the round is back at `from`.
pub open spec fn steps_to_debtor(
    seats: Seq<Option<Player>>,
    state: RoundState,
    from: int,
    step: int,
) -> int
    decreases seats.len() - step,
{
    if step >= seats.len() || owes(seats, state, (from + step) % (seats.len() as int)) {
        step
    } else {
        steps_to_debtor(seats, state, from, step + 1)
    }
}

/// The first seat after `from` that still has to act; `None` when the round
/// is closed.
pub open spec fn next_to_act(seats: Seq<Option<Player>>, state: RoundState, from: int) -> Option<
    usize,
> {
    let steps = steps_to_debtor(seats, state, from, 1);
    if steps >= seats.len() {
        None
    } else {
        Some(((from + steps) % (seats.len() as int)) as usize)
    }
}

/// The round belongs to the seats: it tracks every seat, and no stack
/// together with its contribution exceeds what a `u32` holds.
pub open spec fn round_fits(state: RoundState, seats: Seq<Option<Player>>) -> bool {
    &&& state.contributed.len() == seats.len()
    &&& forall|i: int|
        has_player(seats, i) ==> state.contributed[i] + (#[trigger] seats[i]).unwrap().chips
            <= u32::MAX
}

/// Computes `payment`.
fn amount_due(action: Action, current_bet: u32, chips: u32, already: u32) -> (pay: u32)
    ensures
        pay == payment(action, current_bet, chips, already),
{
    let want: u64 = match action {
        Action::Fold => already as u64,
        Action::Check => already as u64,
        Action::Call => current_bet as u64,
        Action::Allin => chips as u64 + already as u64,
        Action::Bet(amount) => amount as u64,
        Action::Raise(increment) => current_bet as u64 + increment as u64,
    };
    let missing: u64 = if want > already as u64 {
        want - already as u64
    } else {
        0
    };
    if missing < chips as u64 {
        missing as u32
    } else {
        chips
    }
}

/// Fewer steps than the table has seats never lead back to the seat they
/// start from.
pub proof fn lemma_step_leaves(from: int, step: int, n: int)
    requires
        0 <= from < n,
        0 < step < n,
    ensures
        0 <= (from + step) % n < n,
        (from + step) % n != from,
{
    if from + step < n {
        lemma_small_mod((from + step) as nat, n as nat);
    } else {
        lemma_mod_add_multiples_vanish(from + step - n, n);
        lemma_small_mod((from + step - n) as nat, n as nat);
    }
}

/// Who owes next after a seat does not depend on that seat itself: rounds
/// and tables that agree on the bet and on all other seats find the same.
pub proof fn lemma_debtor_elsewhere(
    seats: Seq<Option<Player>>,
    state: RoundState,
    seats2: Seq<Option<Player>>,
    state2: RoundState,
    from: int,
    step: int,
)
    requires
        seats.len() == seats2.len(),
        state.contributed.len() == seats.len(),
        state2.contributed.len() == seats.len(),
        state.current_bet == state2.current_bet,
        0 <= from < seats.len(),
        1 <= step,
        forall|i: int|
            0 <= i < seats.len() && i != from ==> seats[i] == seats2[i] && state.contributed[i]
                == state2.contributed[i],
    ensures
        steps_to_debtor(seats, state, from, step) == steps_to_debtor(seats2, state2, from, step),
    decreases seats.len() - step,
{
    if step < seats.len() {
        lemma_step_leaves(from, step, seats.len() as int);
        let i = (from + step) % (seats.len() as int);
        assert(owes(seats, state, i) == owes(seats2, state2, i));
        lemma_debtor_elsewhere(seats, state, seats2, state2, from, step + 1);
    }
}

/// Per-street betting state.
pub struct BetRound {
    contributed: Vec<u32>,
    current_bet: u32,
    opener: Option<usize>,
    last_to_act: usize,
}

impl View for BetRound {
    type V = RoundState;

    closed spec fn view(&self) -> RoundState {
        RoundState {
            contributed: self.contributed@,
            current_bet: self.current_bet,
            opener: self.opener,
            last_to_act: self.last_to_act,
        }
    }
}

impl BetRound {
    /// A fresh round for a street: nothing is put in, nobody has opened, and
    /// the round closes at the first taken seat after the dealer button.
    pub fn new(table: &Table, dealer_button: usize) -> (r: BetRound)
        requires
            table.wf(),
            any_player(table@),
        ensures
            r@.contributed == Seq::new(table@.len(), |i: int| 0u32),
            r@.current_bet == 0,
            r@.opener is None,
            r@.last_to_act == next_seat(table@, dealer_button as int),
            round_fits(r@, table@),
    {
        let seats = table.seat_count();
        let last = table.next_occupied(dealer_button);
        let mut contributed: Vec<u32> = Vec::new();
        let mut i: usize = 0;
        while i < seats
            invariant
                i <= seats,
                contributed@ == Seq::new(i as nat, |j: int| 0u32),
            decreases seats - i,
        {
            contributed.push(0);
            assert(contributed@ =~= Seq::new((i + 1) as nat, |j: int| 0u32));
            i += 1;
        }
        BetRound { contributed, current_bet: 0, opener: None, last_to_act: last }
    }

    /// The highest contribution so far on this street.
    pub fn current_bet(&self) -> (bet: u32)
        ensures
            bet == self@.current_bet,
    {
        self.current_bet
    }

    /// The seat that last raised the current bet, if any did.
    pub fn opener(&self) -> (seat: Option<usize>)
        ensures
            seat == self@.opener,
    {
        self.opener
    }

    /// The seat whose turn closes the round.
    pub fn last_to_act(&self) -> (seat: usize)
        ensures
            seat == self@.last_to_act,
    {
        self.last_to_act
    }

    /// What a seat has put in on this street; `None` for a seat that the
    /// round does not track.
    pub fn contribution(&self, seat_idx: usize) -> (chips: Option<u32>)
        ensures
            seat_idx < self@.contributed.len() ==> chips == Some(self@.contributed[seat_idx as int]),
            seat_idx >= self@.contributed.len() ==> chips is None,
    {
        if seat_idx < self.contributed.len() {
            Some(self.contributed[seat_idx])
        } else {
            None
        }
    }

    /// Tells whether the round fits the table: it tracks every seat, and no
    /// stack together with its contribution exceeds what a `u32` holds.
    pub fn fits(&self, table: &Table) -> (ok: bool)
        ensures
            ok == round_fits(self@, table@),
    {
        let n = table.seat_count();
        if self.contributed.len() != n {
            return false;
        }
        let mut i: usize = 0;
        while i < n
            invariant
                i <= n,
                n == table@.len(),
                self@.contributed.len() == n,
                forall|j: int|
                    0 <= j < i && has_player(table@, j) ==> self@.contributed[j] + (
                    #[trigger] table@[j]).unwrap().chips <= u32::MAX,
            decreases n - i,
        {
            match table.seat(i) {
                Some(p) => {
                    if p.chips > u32::MAX - self.contributed[i] {
                        assert(has_player(table@, i as int));
                        assert(self@.contributed[i as int] + table@[i as int].unwrap().chips
                            > u32::MAX);
                        return false;
                    }
                },
                None => {},
            }
            i += 1;
        }
        true
    }

    /// What the players that have not folded have contributed together, as
    /// far as a `u32` holds it; `None` when it is more.
    pub fn stake(&self, table: &Table) -> (total: Option<u32>)
        ensures
            match total {
                Some(t) => t == live_total(table@, self@.contributed, self@.contributed.len() as int),
                None => live_total(table@, self@.contributed, self@.contributed.len() as int)
                    > u32::MAX,
            },
    {
        let n = self.contributed.len();
        let mut sum: u32 = 0;
        let mut i: usize = 0;
        while i < n
            invariant
                i <= n,
                n == self@.contributed.len(),
                sum == live_total(table@, self@.contributed, i as int),
            decreases n - i,
        {
            let live = match table.seat(i) {
                Some(p) => !p.folded,
                None => false,
            };
            assert(live == in_pots(table@, self@.contributed, i as int));
            if live {
                if self.contributed[i] > u32::MAX - sum {
                    proof {
                        lemma_live_total_grows(table@, self@.contributed, i + 1, n as int);
                    }
                    return None;
                }
                sum = sum + self.contributed[i];
            }
            i += 1;
        }
        Some(sum)
    }

    /// Applies an action of the player at `seat_idx`: moves the chips, marks
    /// a fold, raises the current bet where the seat's contribution now
    /// exceeds it, and returns the seat that has to act next, or `None` when
    /// the round is closed.
    pub fn act(&mut self, table: &mut Table, seat_idx: usize, action: Action) -> (next: Option<
        usize,
    >)
        requires
            old(table).wf(),
            has_player(old(table)@, seat_idx as int),
            round_fits(old(self)@, old(table)@),
        ensures
            final(table).dealer_button == old(table).dealer_button,
            final(table)@ == seats_after(old(table)@, old(self)@, seat_idx as int, action),
            final(self)@ == state_after(old(self)@, old(table)@, seat_idx as int, action),
            next == next_to_act(final(table)@, final(self)@, seat_idx as int),
            round_fits(final(self)@, final(table)@),
            final(table).wf(),
    {
        let ghost seats = table@;
        let ghost state = self@;
        let already = self.contributed[seat_idx];
        let current_bet = self.current_bet;
        let player = table.seat_mut(seat_idx).expect("empty seat cannot act");
        let chips = player.chips;
        let mut paid: u32 = already;
        match action {
            Action::Fold => {
                player.folded = true;
            },
            Action::Check => {},
            Action::Call | Action::Allin | Action::Bet(_) | Action::Raise(_) => {
                let pay = amount_due(action, current_bet, chips, already);
                player.chips = chips - pay;
                paid = already + pay;
            },
        }
        assert(table@ =~= seats_after(seats, state, seat_idx as int, action));
        self.contributed[seat_idx] = paid;
        let raised = match action {
            Action::Fold | Action::Check => false,
            _ => paid > current_bet,
        };
        if raised {
            self.current_bet = paid;
            self.opener = Some(seat_idx);
            proof {
                assert forall|i: int| has_player(seats, i) == has_player(table@, i) by {}
                lemma_next_seat_same(seats, table@, seat_idx as int);
            }
            self.last_to_act = table.next_occupied(seat_idx);
        }
        assert(self@.contributed =~= state_after(state, seats, seat_idx as int, action).contributed);
        assert(self@ == state_after(state, seats, seat_idx as int, action));
        assert(self@ == RoundState { current_bet: self.current_bet, ..self@ });
        self.first_debtor(table, seat_idx, self.current_bet)
    }

    /// The seat's contribution and the current bet as they would stand after
    /// an action of its player.
    fn preview(&self, table: &Table, seat_idx: usize, action: Action) -> (r: (u32, u32))
        requires
            has_player(table@, seat_idx as int),
            round_fits(self@, table@),
        ensures
            r.0 == state_after(self@, table@, seat_idx as int, action).contributed[seat_idx as int],
            r.1 == state_after(self@, table@, seat_idx as int, action).current_bet,
    {
        let already = self.contributed[seat_idx];
        let chips = match table.seat(seat_idx) {
            Some(p) => p.chips,
            None => 0,
        };
        let paid = already + amount_due(action, self.current_bet, chips, already);
        let raised = match action {
            Action::Fold | Action::Check => false,
            _ => paid > self.current_bet,
        };
        if raised {
            (paid, paid)
        } else {
            (paid, self.current_bet)
        }
    }

    /// Tells whether an action of the player at `seat_idx` would close the
    /// round; nothing is changed.
    pub fn would_close(&self, table: &Table, seat_idx: usize, action: Action) -> (closes: bool)
        requires
            table.wf(),
            has_player(table@, seat_idx as int),
            round_fits(self@, table@),
        ensures
            closes == (next_to_act(
                seats_after(table@, self@, seat_idx as int, action),
                state_after(self@, table@, seat_idx as int, action),
                seat_idx as int,
            ) is None),
    {
        let (paid, bet) = self.preview(table, seat_idx, action);
        let next = self.first_debtor(table, seat_idx, bet);
        proof {
            lemma_debtor_elsewhere(
                table@,
                RoundState { current_bet: bet, ..self@ },
                seats_after(table@, self@, seat_idx as int, action),
                state_after(self@, table@, seat_idx as int, action),
                seat_idx as int,
                1,
            );
        }
        next.is_none()
    }

    /// What the players that have not folded would have contributed together
    /// after an action of the player at `seat_idx`, as far as a `u32` holds
    /// it; `None` when it is more. Nothing is changed.
    pub fn stake_after(&self, table: &Table, seat_idx: usize, action: Action) -> (total: Option<
        u32,
    >)
        requires
            has_player(table@, seat_idx as int),
            round_fits(self@, table@),
        ensures
            match total {
                Some(t) => t == live_total(
                    seats_after(table@, self@, seat_idx as int, action),
                    state_after(self@, table@, seat_idx as int, action).contributed,
                    self@.contributed.len() as int,
                ),
                None => live_total(
                    seats_after(table@, self@, seat_idx as int, action),
                    state_after(self@, table@, seat_idx as int, action).contributed,
                    self@.contributed.len() as int,
                ) > u32::MAX,
            },
    {
        let ghost t = seats_after(table@, self@, seat_idx as int, action);
        let ghost s = state_after(self@, table@, seat_idx as int, action);
        let (paid, bet) = self.preview(table, seat_idx, action);
        let folds = match action {
            Action::Fold => true,
            _ => false,
        };
        let n = self.contributed.len();
        let mut sum: u32 = 0;
        let mut i: usize = 0;
        while i < n
            invariant
                i <= n,
                n == self@.contributed.len(),
                n == table@.len(),
                has_player(table@, seat_idx as int),
                t == seats_after(table@, self@, seat_idx as int, action),
                s == state_after(self@, table@, seat_idx as int, action),
                paid == s.contributed[seat_idx as int],
                folds == (action is Fold),
                sum == live_total(t, s.contributed, i as int),
            decreases n - i,
        {
            let live = match table.seat(i) {
                Some(p) => !p.folded && !(i == seat_idx && folds),
                None => false,
            };
            let put_in = if i == seat_idx {
                paid
            } else {
                self.contributed[i]
            };
            proof {
                assert(s.contributed.len() == n);
                assert(t.len() == n);
                if i == seat_idx {
                    assert(t[i as int].unwrap().folded == (table@[i as int].unwrap().folded
                        || folds));
                } else {
                    assert(t[i as int] == table@[i as int]);
                }
            }
            assert(live == in_pots(t, s.contributed, i as int));
            assert(put_in == s.contributed[i as int]);
            if live {
                if put_in > u32::MAX - sum {
                    proof {
                        lemma_live_total_grows(t, s.contributed, i + 1, n as int);
                    }
                    return None;
                }
                sum = sum + put_in;
            }
            i += 1;
        }
        Some(sum)
    }

    /// Scans the seats after `from`, once round the table, for the first one
    /// that still has to act when `bet` is the bet to match.
    fn first_debtor(&self, table: &Table, from: usize, bet: u32) -> (next: Option<usize>)
        requires
            table.wf(),
            from < table@.len(),
            self@.contributed.len() == table@.len(),
        ensures
            next == next_to_act(table@, RoundState { current_bet: bet, ..self@ }, from as int),
    {
        let ghost state = RoundState { current_bet: bet, ..self@ };
        let n = table.seat_count();
        let mut step: usize = 1;
        while step < n
            invariant
                1 <= step <= n,
                n == table@.len(),
                2 <= n <= 10,
                from < n,
                self@.contributed.len() == n,
                state == (RoundState { current_bet: bet, ..self@ }),
                steps_to_debtor(table@, state, from as int, 1) == steps_to_debtor(
                    table@,
                    state,
                    from as int,
                    step as int,
                ),
            decreases n - step,
        {
            let idx = (from + step) % n;
            match table.seat(idx) {
                Some(p) => {
                    if !p.folded && p.chips > 0 && self.contributed[idx] != bet {
                        assert(owes(table@, state, idx as int));
                        return Some(idx);
                    }
                },
                None => {},
            }
            assert(!owes(table@, state, idx as int));
            step += 1;
        }
        None
    }

    /// Lists the seats that take part in the pots with their contributions,
    /// lowest contribution first and, among equal ones, lowest seat first.
    fn live_pairs(&self, table: &Table) -> (pairs: Vec<(usize, u32)>)
        ensures
            pairs_listed(pairs@, table@, self@.contributed, self@.contributed.len() as int),
    {
        let ghost seats = table@;
        let ghost contributed = self@.contributed;
        let n = self.contributed.len();
        let mut pairs: Vec<(usize, u32)> = Vec::new();
        let mut i: usize = 0;
        while i < n
            invariant
                i <= n,
                n == contributed.len(),
                contributed == self@.contributed,
                seats == table@,
                pairs_listed(pairs@, seats, contributed, i as int),
            decreases n - i,
        {
            let live = match table.seat(i) {
                Some(p) => !p.folded,
                None => false,
            };
            assert(live == in_pots(seats, contributed, i as int));
            if live {
                let c = self.contributed[i];
                let mut pos: usize = 0;
                while pos < pairs.len() && pairs[pos].1 <= c
                    invariant
                        pos <= pairs@.len(),
                        forall|a: int| 0 <= a < pos ==> (#[trigger] pairs@[a]).1 <= c,
                    decreases pairs@.len() - pos,
                {
                    pos += 1;
                }
                let ghost before = pairs@;
                pairs.insert(pos, (i, c));
                proof {
                    let after = pairs@;
                    assert(after.len() == before.len() + 1);
                    assert forall|a: int| 0 <= a < after.len() implies #[trigger] after[a] == (if a
                        < pos {
                        before[a]
                    } else if a == pos {
                        (i, c)
                    } else {
                        before[a - 1]
                    }) by {}
                    lemma_pairs_total_insert(before, pos as int, (i, c));
                    assert forall|a: int, b: int| 0 <= a < b < after.len() implies seat_before(
                        contributed,
                        #[trigger] after[a].0 as int,
                        #[trigger] after[b].0 as int,
                    ) by {
                        if b == pos {
                            assert(before[a].1 <= c);
                        } else if a == pos {
                            assert(before[pos as int].1 > c);
                            if b - 1 > pos {
                                assert(seat_before(
                                    contributed,
                                    before[pos as int].0 as int,
                                    before[b - 1].0 as int,
                                ));
                            }
                        } else {
                            let x = if a < pos {
                                a
                            } else {
                                a - 1
                            };
                            let y = if b < pos {
                                b
                            } else {
                                b - 1
                            };
                            assert(seat_before(contributed, before[x].0 as int, before[y].0 as int));
                        }
                    }
                    assert forall|t: int| 0 <= t < i + 1 && in_pots(seats, contributed, t) implies exists|
                        a: int,
                    |
                        0 <= a < after.len() && (#[trigger] after[a]).0 == t by {
                        if t == i {
                            assert(after[pos as int].0 == t);
                        } else {
                            let a = choose|a: int| 0 <= a < before.len() && (#[trigger] before[a]).0 == t;
                            if a < pos {
                                assert(after[a].0 == t);
                            } else {
                                assert(after[a + 1].0 == t);
                            }
                        }
                    }
                }
            }
            i += 1;
        }
        pairs
    }

    /// Closes the street into side pots, lowest level first. There is one
    /// pot for each distinct contribution above zero among the players that
    /// have not folded. It holds, for every such player that contributed at
    /// least that much, the part of the contribution between the level below
    /// and this one, and exactly those players are eligible to win it.
    pub fn into_sidepots(&self, table: &Table) -> (pots: Vec<(u32, Vec<usize>)>)
        requires
            live_total(table@, self@.contributed, self@.contributed.len() as int) <= u32::MAX,
        ensures
            are_side_pots(pots@, table@, self@.contributed),
            pots_total(pots@) == live_total(
                table@,
                self@.contributed,
                self@.contributed.len() as int,
            ),
    {
        let ghost seats = table@;
        let ghost contributed = self@.contributed;
        let pairs = self.live_pairs(table);
        let m = pairs.len();
        let mut pots: Vec<(u32, Vec<usize>)> = Vec::new();
        let mut running: u32 = 0;
        let mut k: usize = 0;
        let ghost mut starts: Seq<int> = Seq::empty();
        proof {
            assert(pairs@.take(0) =~= Seq::<(usize, u32)>::empty());
            reveal(pots_cut);
            reveal(levels_cut);
            lemma_rising(pairs@, seats, contributed);
            lemma_charged_ends(pairs@);
        }
        while k < m
            invariant
                k <= m,
                m == pairs@.len(),
                rising(pairs@),
                pairs_total(pairs@) <= u32::MAX,
                running == level_below(pairs@, k as int),
                running == last_level(pairs@, starts),
                starts.len() > 0 ==> 0 <= starts.last() < k,
                pots_cut(pots@, starts, pairs@),
                levels_cut(starts, pairs@, k as int),
                pots_total(pots@) == charged(pairs@, k as int),
            decreases m - k,
        {
            let level = pairs[k].1;
            let ghost step = (level - running) * (m - k);
            proof {
                lemma_step(pairs@, k as int, level as int, running as int, (m - k) as int, step);
            }
            if level > running {
                let contestants = seats_from(&pairs, k);
                let count: u32 = (m - k) as u32;
                assert((level - running) * count == step) by (nonlinear_arith)
                    requires
                        count == m - k,
                        step == (level - running) * (m - k),
                ;
                let size: u32 = (level - running) * count;
                proof {
                    lemma_cut_push(pots@, starts, pairs@, (size, contestants), k as int);
                    starts = starts.push(k as int);
                }
                let ghost before = pots@;
                pots.push((size, contestants));
                assert(pots@.drop_last() =~= before);
                running = level;
            } else {
                proof {
                    lemma_cut_skip(starts, pairs@, k as int);
                }
            }
            k += 1;
        }
        proof {
            lemma_charged_ends(pairs@);
            lemma_pots_from_pairs(pots@, starts, pairs@, seats, contributed);
        }
        pots
    }
}

} // verus!
