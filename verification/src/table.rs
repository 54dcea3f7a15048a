//! The table: a fixed row of seats, some of them taken, and the dealer button.

use crate::card::Card;
use crate::deck::Deck;
use crate::player::{fill_first_empty, Player};
use vstd::arithmetic::div_mod::{
    lemma_add_mod_noop, lemma_mod_add_multiples_vanish, lemma_mod_bound, lemma_small_mod,
};
use vstd::prelude::*;

verus! {

/// A table with a fixed number of seats.
pub struct Table {
    /// A seat is `None` while it is empty.
    pub seats: Vec<Option<Player>>,
    pub dealer_button: usize,
}

/// Seat `i` exists and is taken.
pub open spec fn has_player(seats: Seq<Option<Player>>, i: int) -> bool {
    0 <= i < seats.len() && seats[i] is Some
}

/// Some seat is taken.
pub open spec fn any_player(seats: Seq<Option<Player>>) -> bool {
    exists|i: int| has_player(seats, i)
}

/// How many seats are taken.
pub open spec fn occupied_count(seats: Seq<Option<Player>>) -> nat
    decreases seats.len(),
{
    if seats.len() == 0 {
        0
    } else {
        occupied_count(seats.drop_last()) + if seats.last() is Some {
            1nat
        } else {
            0nat
        }
    }
}

/// The number of steps, counted from `step` on, that lead from seat `from`
/// round the table to the first taken seat; the number of seats where a
/// whole round finds none.
pub open spec fn steps_to_player(seats: Seq<Option<Player>>, from: int, step: int) -> int
    decreases seats.len() - step,
{
    if step >= seats.len() || seats[(from + step) % (seats.len() as int)] is Some {
        step
    } else {
        steps_to_player(seats, from, step + 1)
    }
}

/// The first taken seat after `from`, going round the table; `from` itself
/// comes last.
pub open spec fn next_seat(seats: Seq<Option<Player>>, from: int) -> int {
    (from + steps_to_player(seats, from, 1)) % (seats.len() as int)
}

/// `after` is the player `before` once it was dealt `first` and then `second`.
pub open spec fn dealt_two(before: Player, after: Player, first: Card, second: Card) -> bool {
    &&& after.same_person(before)
    &&& after.folded == before.folded
    &&& after.all_in == before.all_in
    &&& after.hole_cards@ == fill_first_empty(
        fill_first_empty(before.hole_cards@, first),
        second,
    )
}

/// The seats `a` and `b` are taken at the same places.
pub open spec fn same_occupancy(a: Seq<Option<Player>>, b: Seq<Option<Player>>) -> bool {
    a.len() == b.len() && forall|i: int| 0 <= i < a.len() ==> ((#[trigger] a[i]) is Some <==> b[i] is Some)
}

/// From any seat every seat of the table is reached in fewer steps than the
/// table has seats, and in no steps only from itself.
pub proof fn lemma_seat_reached(from: int, i: int, n: int) -> (s: int)
    requires
        n > 0,
        0 <= i < n,
        0 <= from,
    ensures
        0 <= s < n,
        (from + s) % n == i,
        s == 0 <==> from % n == i,
{
    let b = from % n;
    let s = if i >= b {
        i - b
    } else {
        i - b + n
    };
    lemma_add_mod_noop(from, s, n);
    lemma_small_mod(s as nat, n as nat);
    lemma_small_mod(i as nat, n as nat);
    if i < b {
        lemma_mod_add_multiples_vanish(i, n);
    }
    s
}

/// Prefixes of a row of seats hold no more players than the whole row, and
/// one more than the prefix before where the next seat is taken.
pub proof fn lemma_occupied_count_prefix(seats: Seq<Option<Player>>, i: int)
    requires
        0 <= i <= seats.len(),
    ensures
        occupied_count(seats.take(i)) <= occupied_count(seats),
        i < seats.len() ==> occupied_count(seats.take(i + 1)) == occupied_count(seats.take(i)) + if seats[i] is Some {
            1nat
        } else {
            0nat
        },
        i < seats.len() ==> occupied_count(seats.take(i + 1)) <= occupied_count(seats),
    decreases seats.len() - i,
{
    if i == seats.len() {
        assert(seats.take(i) =~= seats);
    } else {
        assert(seats.take(i + 1).drop_last() =~= seats.take(i));
        lemma_occupied_count_prefix(seats, i + 1);
    }
}

/// Some seat is taken exactly when the number of taken seats is not zero.
pub proof fn lemma_players_counted(seats: Seq<Option<Player>>)
    ensures
        occupied_count(seats) > 0 <==> any_player(seats),
    decreases seats.len(),
{
    if seats.len() > 0 {
        let shorter = seats.drop_last();
        lemma_players_counted(shorter);
        if any_player(shorter) {
            let i = choose|i: int| has_player(shorter, i);
            assert(has_player(seats, i));
        }
        if seats.last() is Some {
            assert(has_player(seats, seats.len() - 1));
        }
        if any_player(seats) {
            let i = choose|i: int| has_player(seats, i);
            if i < seats.len() - 1 {
                assert(has_player(shorter, i));
            }
        }
    }
}

/// Rows of seats that are taken at the same places hold as many players.
pub proof fn lemma_occupied_count_same(a: Seq<Option<Player>>, b: Seq<Option<Player>>)
    requires
        same_occupancy(a, b),
    ensures
        occupied_count(a) == occupied_count(b),
    decreases a.len(),
{
    if a.len() > 0 {
        lemma_occupied_count_same(a.drop_last(), b.drop_last());
    }
}

/// Seats that are taken at the same places have the same next taken seat.
pub proof fn lemma_next_seat_same(a: Seq<Option<Player>>, b: Seq<Option<Player>>, from: int)
    requires
        a.len() == b.len(),
        forall|i: int| has_player(a, i) == has_player(b, i),
    ensures
        next_seat(a, from) == next_seat(b, from),
{
    lemma_steps_same(a, b, from, 1);
}

/// Seats that are taken at the same places are as many steps away from the
/// next taken seat.
pub proof fn lemma_steps_same(
    a: Seq<Option<Player>>,
    b: Seq<Option<Player>>,
    from: int,
    step: int,
)
    requires
        a.len() == b.len(),
        forall|i: int| has_player(a, i) == has_player(b, i),
        0 <= step,
    ensures
        steps_to_player(a, from, step) == steps_to_player(
            b,
            from,
            step,
        ),
    decreases a.len() - step,
{
    if step < a.len() {
        let i = (from + step) % (a.len() as int);
        lemma_mod_bound(from + step, a.len() as int);
        assert(has_player(a, i) == has_player(b, i));
        if !(a[i] is Some) {
            lemma_steps_same(a, b, from, step + 1);
        }
    }
}

impl View for Table {
    type V = Seq<Option<Player>>;

    /// The seats in order.
    open spec fn view(&self) -> Seq<Option<Player>> {
        self.seats@
    }
}

impl Table {
    /// A table has between 2 and 10 seats.
    pub open spec fn wf(&self) -> bool {
        2 <= self@.len() <= 10
    }

    /// A table with `seat_count` empty seats and the button at seat 0.
    pub fn new(seat_count: usize) -> (t: Table)
        requires
            2 <= seat_count <= 10,
        ensures
            t.wf(),
            t@.len() == seat_count,
            forall|i: int| 0 <= i < seat_count ==> (#[trigger] t@[i]) is None,
            t.dealer_button == 0,
    {
        let mut seats: Vec<Option<Player>> = Vec::new();
        let mut i: usize = 0;
        while i < seat_count
            invariant
                i <= seat_count,
                seats@.len() == i,
                forall|j: int| 0 <= j < i ==> (#[trigger] seats@[j]) is None,
            decreases seat_count - i,
        {
            seats.push(None);
            i += 1;
        }
        Table { seats, dealer_button: 0 }
    }

    /// The number of seats, taken or not.
    pub fn seat_count(&self) -> (n: usize)
        ensures
            n == self@.len(),
    {
        self.seats.len()
    }

    /// The player at a seat, if the seat exists and is taken.
    pub fn seat(&self, idx: usize) -> (p: Option<&Player>)
        ensures
            match p {
                Some(x) => idx < self@.len() && self@[idx as int] == Some(*x),
                None => idx >= self@.len() || self@[idx as int] is None,
            },
    {
        if idx < self.seats.len() {
            self.seats[idx].as_ref()
        } else {
            None
        }
    }

    /// Seats a player at the first empty seat and returns the seat; `None`,
    /// with nothing changed, when the table is full.
    pub fn add_player(&mut self, player: Player) -> (seat: Option<usize>)
        ensures
            final(self).dealer_button == old(self).dealer_button,
            match seat {
                Some(i) => {
                    &&& i < old(self)@.len()
                    &&& old(self)@[i as int] is None
                    &&& forall|j: int| 0 <= j < i ==> (#[trigger] old(self)@[j]) is Some
                    &&& final(self)@ == old(self)@.update(i as int, Some(player))
                },
                None => {
                    &&& forall|j: int|
                        0 <= j < old(self)@.len() ==> (#[trigger] old(self)@[j]) is Some
                    &&& final(self)@ == old(self)@
                },
            },
    {
        let mut i: usize = 0;
        while i < self.seats.len()
            invariant
                i <= self.seats@.len(),
                *self == *old(self),
                forall|j: int| 0 <= j < i ==> (#[trigger] self.seats@[j]) is Some,
            decreases self.seats@.len() - i,
        {
            if self.seats[i].is_none() {
                self.seats[i] = Some(player);
                return Some(i);
            }
            i += 1;
        }
        None
    }

    /// Removes the player at a seat and hands it out.
    pub fn remove_player(&mut self, seat_idx: usize) -> (p: Option<Player>)
        ensures
            final(self).dealer_button == old(self).dealer_button,
            seat_idx < old(self)@.len() ==> p == old(self)@[seat_idx as int]
                && final(self)@ == old(self)@.update(seat_idx as int, None),
            seat_idx >= old(self)@.len() ==> p is None && final(self)@ == old(self)@,
    {
        if seat_idx < self.seats.len() {
            self.seats[seat_idx].take()
        } else {
            None
        }
    }

    /// Counts the seats that are taken.
    pub fn active_player_count(&self) -> (n: usize)
        ensures
            n == occupied_count(self@),
            n > 0 <==> any_player(self@),
    {
        proof {
            lemma_players_counted(self@);
        }
        let mut n: usize = 0;
        let mut i: usize = 0;
        while i < self.seats.len()
            invariant
                i <= self.seats@.len(),
                n == occupied_count(self.seats@.take(i as int)),
                n <= i,
            decreases self.seats@.len() - i,
        {
            proof {
                lemma_occupied_count_prefix(self.seats@, i as int);
            }
            if self.seats[i].is_some() {
                n += 1;
            }
            i += 1;
        }
        assert(self.seats@.take(i as int) =~= self.seats@);
        n
    }

    /// Looks for the first taken seat after `from`, going once round the
    /// table; `None` when no seat is taken.
    fn find_next(&self, from: usize) -> (r: Option<usize>)
        requires
            self.wf(),
        ensures
            r is Some <==> any_player(self@),
            r matches Some(i) ==> i == next_seat(self@, from as int) && has_player(self@, i as int),
    {
        let n = self.seats.len();
        let base = from % n;
        let mut step: usize = 1;
        while step <= n
            invariant
                1 <= step <= n + 1,
                n == self.seats@.len(),
                2 <= n <= 10,
                base == from % n,
                steps_to_player(self@, from as int, 1) == steps_to_player(
                    self@,
                    from as int,
                    step as int,
                ) || step == n + 1,
                forall|s: int| 1 <= s < step ==> !has_player(self@, #[trigger] ((from + s) % (n as int))),
            decreases n + 1 - step,
        {
            let idx = (base + step) % n;
            proof {
                lemma_add_mod_noop(from as int, step as int, n as int);
                if step < n {
                    lemma_small_mod(step as nat, n as nat);
                } else {
                    lemma_mod_add_multiples_vanish(from as int, n as int);
                    lemma_mod_add_multiples_vanish(base as int, n as int);
                    lemma_small_mod(base as nat, n as nat);
                }
                assert(idx == (from + step) % (n as int));
            }
            if self.seats[idx].is_some() {
                assert(has_player(self@, idx as int));
                return Some(idx);
            }
            step += 1;
        }
        proof {
            assert forall|i: int| !has_player(self@, i) by {
                if 0 <= i < n {
                    let s = lemma_seat_reached(from as int, i, n as int);
                    if s == 0 {
                        lemma_mod_add_multiples_vanish(from as int, n as int);
                        assert(!has_player(self@, (from + n) % (n as int)));
                    } else {
                        assert(!has_player(self@, (from + s) % (n as int)));
                    }
                }
            }
        }
        None
    }

    /// The first taken seat after `from`, going round the table and skipping
    /// empty seats; `from` itself comes last.
    pub fn next_occupied(&self, from: usize) -> (r: usize)
        requires
            self.wf(),
            any_player(self@),
        ensures
            r == next_seat(self@, from as int),
            has_player(self@, r as int),
    {
        match self.find_next(from) {
            Some(r) => r,
            None => from % self.seats.len(),
        }
    }

    /// Deals one card to every seated player, seat by seat, from the top of
    /// the deck.
    fn deal_round(&mut self, deck: &mut Deck)
        requires
            old(deck)@.len() >= occupied_count(old(self)@),
        ensures
            final(self).dealer_button == old(self).dealer_button,
            same_occupancy(old(self)@, final(self)@),
            final(deck)@ == old(deck)@.take(old(deck)@.len() - occupied_count(old(self)@)),
            forall|i: int|
                0 <= i < old(self)@.len() && (#[trigger] old(self)@[i]) is Some ==> old(self)@[i].unwrap().gave_card(
                    final(self)@[i].unwrap(),
                    old(deck)@[old(deck)@.len() - 1 - occupied_count(old(self)@.take(i))],
                ),
    {
        let ghost seats = self@;
        let ghost cards = deck@;
        let n = self.seats.len();
        let mut i: usize = 0;
        assert(seats.take(0) =~= Seq::<Option<Player>>::empty());
        assert(cards.take(cards.len() as int) =~= cards);
        while i < n
            invariant
                i <= n,
                n == seats.len(),
                self.seats@.len() == n,
                self.dealer_button == old(self).dealer_button,
                cards.len() >= occupied_count(seats),
                deck@ == cards.take(cards.len() - occupied_count(seats.take(i as int))),
                same_occupancy(seats, self@),
                forall|j: int| i <= j < n ==> self@[j] == seats[j],
                forall|j: int|
                    0 <= j < i && (#[trigger] seats[j]) is Some ==> seats[j].unwrap().gave_card(
                        self@[j].unwrap(),
                        cards[cards.len() - 1 - occupied_count(seats.take(j))],
                    ),
            decreases n - i,
        {
            proof {
                lemma_occupied_count_prefix(seats, i as int);
            }
            let ghost before = self@;
            match self.seat_mut(i) {
                Some(p) => {
                    match deck.deal() {
                        Some(card) => {
                            p.receive_card(card);
                        },
                        None => {},
                    }
                },
                None => {},
            }
            proof {
                let k = occupied_count(seats.take(i as int));
                if seats[i as int] is Some {
                    assert(deck@ =~= cards.take(cards.len() - k - 1));
                }
                assert forall|j: int| 0 <= j < i + 1 && (#[trigger] seats[j]) is Some implies seats[j].unwrap().gave_card(
                    self@[j].unwrap(),
                    cards[cards.len() - 1 - occupied_count(seats.take(j))],
                ) by {
                    if j < i {
                        assert(self@[j] == before[j]);
                    }
                }
            }
            i += 1;
        }
        assert(seats.take(n as int) =~= seats);
    }

    /// Deals two hole cards to every seated player: one card each, seat by
    /// seat, and then a second round.
    pub fn deal_hole_cards(&mut self, deck: &mut Deck)
        requires
            old(deck)@.len() >= 2 * occupied_count(old(self)@),
        ensures
            final(self).dealer_button == old(self).dealer_button,
            same_occupancy(old(self)@, final(self)@),
            final(deck)@ == old(deck)@.take(old(deck)@.len() - 2 * occupied_count(old(self)@)),
            forall|i: int|
                0 <= i < old(self)@.len() && (#[trigger] old(self)@[i]) is Some ==> dealt_two(
                    old(self)@[i].unwrap(),
                    final(self)@[i].unwrap(),
                    old(deck)@[old(deck)@.len() - 1 - occupied_count(old(self)@.take(i))],
                    old(deck)@[old(deck)@.len() - 1 - occupied_count(old(self)@) - occupied_count(
                        old(self)@.take(i),
                    )],
                ),
    {
        let ghost seats = self@;
        let ghost cards = deck@;
        let ghost m = occupied_count(seats);
        self.deal_round(deck);
        let ghost between = self@;
        let ghost left = deck@;
        proof {
            lemma_occupied_count_same(seats, between);
        }
        self.deal_round(deck);
        proof {
            assert(deck@ =~= cards.take(cards.len() - 2 * m));
            assert forall|i: int| 0 <= i < seats.len() && (#[trigger] seats[i]) is Some implies dealt_two(
                seats[i].unwrap(),
                self@[i].unwrap(),
                cards[cards.len() - 1 - occupied_count(seats.take(i))],
                cards[cards.len() - 1 - m - occupied_count(seats.take(i))],
            ) by {
                lemma_occupied_count_prefix(seats, i);
                assert(same_occupancy(seats.take(i), between.take(i)));
                lemma_occupied_count_same(seats.take(i), between.take(i));
                assert(between[i] is Some);
                let k = occupied_count(seats.take(i));
                assert(left[left.len() - 1 - k] == cards[cards.len() - 1 - m - k]);
            }
        }
    }

    /// Moves the dealer button to the next taken seat; it stays where it is
    /// while no seat is taken.
    pub fn advance_button(&mut self)
        requires
            old(self).wf(),
        ensures
            final(self).seats == old(self).seats,
            any_player(old(self)@) ==> final(self).dealer_button == next_seat(
                old(self)@,
                old(self).dealer_button as int,
            ),
            !any_player(old(self)@) ==> final(self).dealer_button == old(self).dealer_button,
    {
        match self.find_next(self.dealer_button) {
            Some(r) => {
                self.dealer_button = r;
            },
            None => {},
        }
    }

    /// All seats, open to change; their number stays.
    pub fn seats_mut(&mut self) -> (s: &mut [Option<Player>])
        ensures
            s@ == old(self)@,
            final(self)@ == final(s)@,
            final(self).dealer_button == old(self).dealer_button,
    {
        self.seats.as_mut_slice()
    }

    /// The player at a seat, open to change, if the seat exists and is taken.
    pub fn seat_mut(&mut self, idx: usize) -> (p: Option<&mut Player>)
        ensures
            final(self).dealer_button == old(self).dealer_button,
            match p {
                Some(x) => idx < old(self)@.len() && old(self)@[idx as int] == Some(*x)
                    && final(self)@ == old(self)@.update(idx as int, Some(*final(x))),
                None => (idx >= old(self)@.len() || old(self)@[idx as int] is None)
                    && final(self)@ == old(self)@,
            },
    {
        if idx < self.seats.len() {
            self.seats[idx].as_mut()
        } else {
            None
        }
    }
}

} // verus!
