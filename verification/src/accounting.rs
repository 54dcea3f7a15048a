//! Chip accounting over a street: what leaves the stacks is what the round
//! holds as contributions.

use crate::betting::{payment, round_fits, seats_after, state_after, RoundState};
use crate::player::{Action, Player};
use crate::table::has_player;
use vstd::prelude::*;

verus! {

/// The chips in the stacks of the seats below `upto`.
pub open spec fn stacks_total(seats: Seq<Option<Player>>, upto: int) -> int
    decreases upto,
{
    if upto <= 0 {
        0
    } else {
        stacks_total(seats, upto - 1) + if has_player(seats, upto - 1) {
            seats[upto - 1].unwrap().chips as int
        } else {
            0
        }
    }
}

/// What the seats below `upto` have contributed together.
pub open spec fn contributed_total(contributed: Seq<u32>, upto: int) -> int
    decreases upto,
{
    if upto <= 0 {
        0
    } else {
        contributed_total(contributed, upto - 1) + contributed[upto - 1]
    }
}

/// The round and the seats after a sequence of moves, each a seat and the
/// action its player takes.
pub open spec fn play(
    state: RoundState,
    seats: Seq<Option<Player>>,
    moves: Seq<(int, Action)>,
) -> (RoundState, Seq<Option<Player>>)
    decreases moves.len(),
{
    if moves.len() == 0 {
        (state, seats)
    } else {
        let (s, t) = play(state, seats, moves.drop_last());
        let (seat, action) = moves.last();
        (state_after(s, t, seat, action), seats_after(t, s, seat, action))
    }
}

/// Every move is made from a taken seat.
pub open spec fn moves_seated(seats: Seq<Option<Player>>, moves: Seq<(int, Action)>) -> bool {
    forall|k: int| 0 <= k < moves.len() ==> has_player(seats, (#[trigger] moves[k]).0)
}

/// Replacing the player of one seat changes the stacks' total by the change
/// of that seat's stack.
pub proof fn lemma_stacks_total_update(
    seats: Seq<Option<Player>>,
    seat: int,
    p: Player,
    upto: int,
)
    requires
        has_player(seats, seat),
        0 <= upto <= seats.len(),
    ensures
        stacks_total(seats.update(seat, Some(p)), upto) == stacks_total(seats, upto) + if seat
            < upto {
            p.chips - seats[seat].unwrap().chips
        } else {
            0
        },
    decreases upto,
{
    if upto > 0 {
        lemma_stacks_total_update(seats, seat, p, upto - 1);
    }
}

/// Replacing one contribution changes the total by the change of that
/// contribution.
pub proof fn lemma_contributed_total_update(
    contributed: Seq<u32>,
    seat: int,
    c: u32,
    upto: int,
)
    requires
        0 <= seat < contributed.len(),
        0 <= upto <= contributed.len(),
    ensures
        contributed_total(contributed.update(seat, c), upto) == contributed_total(
            contributed,
            upto,
        ) + if seat < upto {
            c - contributed[seat]
        } else {
            0
        },
    decreases upto,
{
    if upto > 0 {
        lemma_contributed_total_update(contributed, seat, c, upto - 1);
    }
}

/// One action moves chips from a stack into the round and neither makes nor
/// loses any: stacks and contributions together stay what they were. The
/// same seats stay taken, and the round still fits them.
pub proof fn lemma_action_conserves(
    state: RoundState,
    seats: Seq<Option<Player>>,
    seat: int,
    action: Action,
)
    requires
        round_fits(state, seats),
        has_player(seats, seat),
    ensures
        ({
            let s = state_after(state, seats, seat, action);
            let t = seats_after(seats, state, seat, action);
            &&& round_fits(s, t)
            &&& forall|i: int| has_player(t, i) == has_player(seats, i)
            &&& contributed_total(s.contributed, seats.len() as int) + stacks_total(
                t,
                seats.len() as int,
            ) == contributed_total(state.contributed, seats.len() as int) + stacks_total(
                seats,
                seats.len() as int,
            )
        }),
{
    let n = seats.len() as int;
    let s = state_after(state, seats, seat, action);
    let t = seats_after(seats, state, seat, action);
    let p = seats[seat].unwrap();
    let already = state.contributed[seat];
    let pay = payment(action, state.current_bet, p.chips, already);
    assert(0 <= pay <= p.chips);
    assert(already + p.chips <= u32::MAX);
    lemma_stacks_total_update(seats, seat, t[seat].unwrap(), n);
    lemma_contributed_total_update(state.contributed, seat, (already + pay) as u32, n);
    assert(s.contributed == state.contributed.update(seat, (already + pay) as u32));
    assert forall|i: int| has_player(t, i) implies s.contributed[i] + (#[trigger] t[i]).unwrap().chips
        <= u32::MAX by {
        assert(has_player(seats, i));
        if i != seat {
            assert(t[i] == seats[i]);
        }
    }
}

/// Over any sequence of actions, each taken from a seat that holds a player,
/// the chips that the round gained as contributions are the chips that left
/// the stacks: none are made and none are lost.
pub proof fn lemma_chips_conserved(
    state: RoundState,
    seats: Seq<Option<Player>>,
    moves: Seq<(int, Action)>,
)
    requires
        round_fits(state, seats),
        moves_seated(seats, moves),
    ensures
        ({
            let (s, t) = play(state, seats, moves);
            &&& round_fits(s, t)
            &&& t.len() == seats.len()
            &&& forall|i: int| has_player(t, i) == has_player(seats, i)
            &&& contributed_total(s.contributed, seats.len() as int) - contributed_total(
                state.contributed,
                seats.len() as int,
            ) == stacks_total(seats, seats.len() as int) - stacks_total(t, seats.len() as int)
        }),
    decreases moves.len(),
{
    if moves.len() > 0 {
        let earlier = moves.drop_last();
        assert forall|k: int| 0 <= k < earlier.len() implies has_player(
            seats,
            (#[trigger] earlier[k]).0,
        ) by {
            assert(earlier[k] == moves[k]);
        }
        lemma_chips_conserved(state, seats, earlier);
        let (s, t) = play(state, seats, earlier);
        let (seat, action) = moves.last();
        assert(has_player(seats, moves[moves.len() - 1].0));
        assert(has_player(t, seat));
        lemma_action_conserves(s, t, seat, action);
    }
}

/// A street that starts with nothing contributed holds, after any sequence
/// of actions, exactly the chips that were taken from the stacks.
pub proof fn lemma_fresh_round_conserved(
    state: RoundState,
    seats: Seq<Option<Player>>,
    moves: Seq<(int, Action)>,
)
    requires
        round_fits(state, seats),
        moves_seated(seats, moves),
        forall|i: int| 0 <= i < state.contributed.len() ==> state.contributed[i] == 0,
    ensures
        ({
            let (s, t) = play(state, seats, moves);
            contributed_total(s.contributed, seats.len() as int) == stacks_total(
                seats,
                seats.len() as int,
            ) - stacks_total(t, seats.len() as int)
        }),
{
    lemma_chips_conserved(state, seats, moves);
    lemma_nothing_contributed(state.contributed, seats.len() as int);
}

/// Contributions that are all zero add up to zero.
pub proof fn lemma_nothing_contributed(contributed: Seq<u32>, upto: int)
    requires
        0 <= upto <= contributed.len(),
        forall|i: int| 0 <= i < contributed.len() ==> contributed[i] == 0,
    ensures
        contributed_total(contributed, upto) == 0,
    decreases upto,
{
    if upto > 0 {
        lemma_nothing_contributed(contributed, upto - 1);
    }
}

} // verus!
