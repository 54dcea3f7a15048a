//! Side pots: which pots a street closes into, who is eligible for each, and
//! why they hold exactly what the players still in the hand have put in.

use crate::player::Player;
use crate::table::has_player;
use vstd::prelude::*;

verus! {

/// The seat takes part in the pots: the round tracks it, and its player has
/// not folded.
pub open spec fn in_pots(seats: Seq<Option<Player>>, contributed: Seq<u32>, i: int) -> bool {
    &&& 0 <= i < contributed.len()
    &&& has_player(seats, i)
    &&& !seats[i].unwrap().folded
}

/// What the seats below `upto` that take part in the pots have contributed
/// together.
pub open spec fn live_total(seats: Seq<Option<Player>>, contributed: Seq<u32>, upto: int) -> int
    decreases upto,
{
    if upto <= 0 {
        0
    } else {
        live_total(seats, contributed, upto - 1) + if in_pots(seats, contributed, upto - 1) {
            contributed[upto - 1] as int
        } else {
            0
        }
    }
}

/// The total over more seats is no less than over fewer.
pub proof fn lemma_live_total_grows(
    seats: Seq<Option<Player>>,
    contributed: Seq<u32>,
    fewer: int,
    more: int,
)
    requires
        0 <= fewer <= more,
    ensures
        0 <= live_total(seats, contributed, fewer) <= live_total(seats, contributed, more),
    decreases more,
{
    if fewer < more {
        lemma_live_total_grows(seats, contributed, fewer, more - 1);
    } else if fewer > 0 {
        lemma_live_total_grows(seats, contributed, fewer - 1, more - 1);
    }
}

/// The sizes of the pots together.
pub open spec fn pots_total(pots: Seq<(u32, Vec<usize>)>) -> int
    decreases pots.len(),
{
    if pots.len() == 0 {
        0
    } else {
        pots_total(pots.drop_last()) + pots.last().0
    }
}

/// Seat `a` comes before seat `b` in a pot: it contributed less, or as much
/// and has the lower number.
pub open spec fn seat_before(contributed: Seq<u32>, a: int, b: int) -> bool {
    contributed[a] < contributed[b] || (contributed[a] == contributed[b] && a < b)
}

/// The level of a pot: the contribution of its first eligible seat, which is
/// the lowest among the eligible ones.
pub open spec fn pot_level(pot: (u32, Vec<usize>), contributed: Seq<u32>) -> int {
    contributed[pot.1@[0] as int] as int
}

/// The level of the pot before pot `j`, and 0 for the first pot.
pub open spec fn level_under(pots: Seq<(u32, Vec<usize>)>, contributed: Seq<u32>, j: int) -> int {
    if j <= 0 {
        0
    } else {
        pot_level(pots[j - 1], contributed)
    }
}

/// `eligible` lists, in the order of `seat_before`, exactly the seats that
/// take part in the pots and have contributed `level` or more; there is at
/// least one.
pub open spec fn lists_eligible(
    eligible: Seq<usize>,
    seats: Seq<Option<Player>>,
    contributed: Seq<u32>,
    level: int,
) -> bool {
    &&& eligible.len() > 0
    &&& forall|a: int|
        0 <= a < eligible.len() ==> in_pots(seats, contributed, #[trigger] eligible[a] as int)
            && contributed[eligible[a] as int] >= level
    &&& forall|i: int|
        #[trigger] in_pots(seats, contributed, i) && contributed[i] >= level ==> eligible.contains(
            i as usize,
        )
    &&& forall|a: int, b: int|
        0 <= a < b < eligible.len() ==> seat_before(
            contributed,
            #[trigger] eligible[a] as int,
            #[trigger] eligible[b] as int,
        )
}

/// Pot `j` is as it should be: its eligible seats are those at or above its
/// level, the level lies above that of the pot before, and the size is the
/// step between the two levels, once for each eligible seat.
pub open spec fn pot_in_order(
    pots: Seq<(u32, Vec<usize>)>,
    seats: Seq<Option<Player>>,
    contributed: Seq<u32>,
    j: int,
) -> bool {
    &&& lists_eligible(pots[j].1@, seats, contributed, pot_level(pots[j], contributed))
    &&& level_under(pots, contributed, j) < pot_level(pots[j], contributed)
    &&& pots[j].0 == (pot_level(pots[j], contributed) - level_under(pots, contributed, j))
        * pots[j].1@.len()
}

/// Some pot has the given level.
pub open spec fn level_has_pot(pots: Seq<(u32, Vec<usize>)>, contributed: Seq<u32>, level: int) -> bool {
    exists|j: int| 0 <= j < pots.len() && pot_level(#[trigger] pots[j], contributed) == level
}

/// `pots` are the side pots of a street: every pot is in order, which makes
/// the levels rise from pot to pot, and every contribution above zero of a
/// seat that takes part is the level of a pot.
pub open spec fn are_side_pots(
    pots: Seq<(u32, Vec<usize>)>,
    seats: Seq<Option<Player>>,
    contributed: Seq<u32>,
) -> bool {
    &&& forall|j: int| 0 <= j < pots.len() ==> #[trigger] pot_in_order(pots, seats, contributed, j)
    &&& forall|i: int|
        #[trigger] in_pots(seats, contributed, i) && contributed[i] > 0 ==> level_has_pot(
            pots,
            contributed,
            contributed[i] as int,
        )
}

/// The contributions of the pairs together.
pub open spec fn pairs_total(pairs: Seq<(usize, u32)>) -> int
    decreases pairs.len(),
{
    if pairs.len() == 0 {
        0
    } else {
        pairs_total(pairs.drop_last()) + pairs.last().1
    }
}

/// `pairs` lists the seats below `upto` that take part in the pots, each with
/// its contribution, in the order of `seat_before`.
pub open spec fn pairs_listed(
    pairs: Seq<(usize, u32)>,
    seats: Seq<Option<Player>>,
    contributed: Seq<u32>,
    upto: int,
) -> bool {
    &&& forall|a: int|
        0 <= a < pairs.len() ==> (#[trigger] pairs[a]).0 < upto && in_pots(
            seats,
            contributed,
            pairs[a].0 as int,
        ) && pairs[a].1 == contributed[pairs[a].0 as int]
    &&& forall|a: int, b: int|
        0 <= a < b < pairs.len() ==> seat_before(
            contributed,
            #[trigger] pairs[a].0 as int,
            #[trigger] pairs[b].0 as int,
        )
    &&& forall|t: int|
        0 <= t < upto && in_pots(seats, contributed, t) ==> exists|a: int|
            0 <= a < pairs.len() && (#[trigger] pairs[a]).0 == t
    &&& pairs_total(pairs) == live_total(seats, contributed, upto)
}

/// The contributions of the pairs never fall from one pair to the next.
pub open spec fn rising(pairs: Seq<(usize, u32)>) -> bool {
    forall|a: int, b: int| 0 <= a <= b < pairs.len() ==> (#[trigger] pairs[a]).1 <= (#[trigger] pairs[b]).1
}

/// The contribution listed just before position `start`, and 0 at the front.
pub open spec fn level_below(pairs: Seq<(usize, u32)>, start: int) -> int {
    if start <= 0 {
        0
    } else {
        pairs[start - 1].1 as int
    }
}

/// The contribution at the last position where a pot was cut, and 0 while
/// none was.
pub open spec fn last_level(pairs: Seq<(usize, u32)>, starts: Seq<int>) -> int {
    if starts.len() == 0 {
        0
    } else {
        pairs[starts.last()].1 as int
    }
}

/// `pot` is the pot that starts at position `start` of the pairs: the seats
/// from there on are eligible, and each adds the step from the contribution
/// listed before up to the one at `start`.
pub open spec fn pot_from(pot: (u32, Vec<usize>), pairs: Seq<(usize, u32)>, start: int) -> bool {
    &&& 0 <= start < pairs.len()
    &&& pot.1@ == Seq::new((pairs.len() - start) as nat, |a: int| pairs[start + a].0)
    &&& level_below(pairs, start) < pairs[start].1
    &&& pot.0 == (pairs[start].1 - level_below(pairs, start)) * (pairs.len() - start)
}

/// Pot `j` was cut at position `starts[j]`, where the contribution rises
/// above the level of the pot before.
pub open spec fn cut_at(
    pots: Seq<(u32, Vec<usize>)>,
    starts: Seq<int>,
    pairs: Seq<(usize, u32)>,
    j: int,
) -> bool {
    &&& pot_from(pots[j], pairs, starts[j])
    &&& level_below(pairs, starts[j]) == last_level(pairs, starts.take(j))
}

/// Every pot was cut from the pairs at its position in `starts`.
#[verifier::opaque]
pub open spec fn pots_cut(
    pots: Seq<(u32, Vec<usize>)>,
    starts: Seq<int>,
    pairs: Seq<(usize, u32)>,
) -> bool {
    &&& starts.len() == pots.len()
    &&& forall|j: int| 0 <= j < pots.len() ==> #[trigger] cut_at(pots, starts, pairs, j)
}

/// The contribution at position `a` is zero or the level of a cut.
pub open spec fn level_cut(starts: Seq<int>, pairs: Seq<(usize, u32)>, a: int) -> bool {
    pairs[a].1 > 0 ==> exists|j: int|
        0 <= j < starts.len() && 0 <= #[trigger] starts[j] < pairs.len() && pairs[starts[j]].1
            == pairs[a].1
}

/// Every contribution above zero before position `k` is the level of a cut.
#[verifier::opaque]
pub open spec fn levels_cut(starts: Seq<int>, pairs: Seq<(usize, u32)>, k: int) -> bool {
    forall|a: int| 0 <= a < k ==> #[trigger] level_cut(starts, pairs, a)
}

/// Copies the seats of the pairs from position `k` on.
pub(crate) fn seats_from(pairs: &Vec<(usize, u32)>, k: usize) -> (out: Vec<usize>)
    requires
        k <= pairs@.len(),
    ensures
        out@ == Seq::new((pairs@.len() - k) as nat, |a: int| pairs@[k + a].0),
{
    let mut out: Vec<usize> = Vec::new();
    let mut a: usize = k;
    while a < pairs.len()
        invariant
            k <= a <= pairs@.len(),
            out@ == Seq::new((a - k) as nat, |b: int| pairs@[k + b].0),
        decreases pairs@.len() - a,
    {
        out.push(pairs[a].0);
        assert(out@ =~= Seq::new((a + 1 - k) as nat, |b: int| pairs@[k + b].0));
        a += 1;
    }
    out
}

/// Putting one pair into a list adds its contribution to the total.
pub proof fn lemma_pairs_total_insert(pairs: Seq<(usize, u32)>, pos: int, x: (usize, u32))
    requires
        0 <= pos <= pairs.len(),
    ensures
        pairs_total(pairs.insert(pos, x)) == pairs_total(pairs) + x.1,
    decreases pairs.len(),
{
    let after = pairs.insert(pos, x);
    if pos == pairs.len() {
        assert(after.drop_last() =~= pairs);
    } else {
        assert(after.drop_last() =~= pairs.drop_last().insert(pos, x));
        assert(after.last() == pairs.last());
        lemma_pairs_total_insert(pairs.drop_last(), pos, x);
    }
}

/// Pairs listed in the order of `seat_before` rise in their contributions.
pub proof fn lemma_rising(
    pairs: Seq<(usize, u32)>,
    seats: Seq<Option<Player>>,
    contributed: Seq<u32>,
)
    requires
        pairs_listed(pairs, seats, contributed, contributed.len() as int),
    ensures
        rising(pairs),
{
    assert forall|a: int, b: int| 0 <= a <= b < pairs.len() implies (#[trigger] pairs[a]).1 <= (
    #[trigger] pairs[b]).1 by {
        if a < b {
            assert(seat_before(contributed, pairs[a].0 as int, pairs[b].0 as int));
        }
    }
}

/// In rising pairs the first `upto`, for `upto` above `k`, hold together at
/// least the first `k` and, for each pair from `k` on, the contribution at
/// `k`.
pub proof fn lemma_pairs_total_floor(pairs: Seq<(usize, u32)>, k: int, upto: int)
    requires
        0 <= k < upto <= pairs.len(),
        rising(pairs),
    ensures
        pairs_total(pairs.take(k)) + pairs[k].1 * (upto - k) <= pairs_total(pairs.take(upto)),
    decreases upto - k,
{
    assert(pairs.take(upto).drop_last() =~= pairs.take(upto - 1));
    if upto == k + 1 {
        assert(pairs[k].1 * (upto - k) == pairs[k].1) by (nonlinear_arith)
            requires
                upto - k == 1,
        ;
    } else {
        lemma_pairs_total_floor(pairs, k, upto - 1);
        assert(pairs[k].1 <= pairs[upto - 1].1);
        assert(pairs[k].1 * (upto - k) == pairs[k].1 * (upto - 1 - k) + pairs[k].1)
            by (nonlinear_arith);
    }
}

/// What the pots hold once the pairs before position `k` are dealt with:
/// the contributions of those pairs, and for every pair from `k` on the
/// contribution listed just before `k`.
pub open spec fn charged(pairs: Seq<(usize, u32)>, k: int) -> int {
    pairs_total(pairs.take(k)) + level_below(pairs, k) * (pairs.len() - k)
}

/// Nothing is charged before the first pair, and after the last pair all
/// contributions are.
pub proof fn lemma_charged_ends(pairs: Seq<(usize, u32)>)
    ensures
        charged(pairs, 0) == 0,
        charged(pairs, pairs.len() as int) == pairs_total(pairs),
{
    assert(pairs.take(0) =~= Seq::<(usize, u32)>::empty());
    assert(pairs.take(pairs.len() as int) =~= pairs);
    assert(level_below(pairs, 0) * (pairs.len() - 0) == 0) by (nonlinear_arith)
        requires
            level_below(pairs, 0) == 0,
    ;
    let m = pairs.len() as int;
    assert(level_below(pairs, m) * (m - m) == 0) by (nonlinear_arith);
}

/// What one step of cutting pots adds. With `running` the contribution listed
/// before position `k`, `level` the one at `k` and `rest` the number of pairs
/// from `k` on, `step` is the rise from `running` to `level`, once for each of
/// those pairs: it is what dealing with position `k` charges, it fits with
/// what was charged before into the total of all pairs, and where the
/// contribution rises it is at least `rest`.
pub proof fn lemma_step(
    pairs: Seq<(usize, u32)>,
    k: int,
    level: int,
    running: int,
    rest: int,
    step: int,
)
    requires
        0 <= k < pairs.len(),
        rising(pairs),
        running == level_below(pairs, k),
        level == pairs[k].1,
        rest == pairs.len() - k,
        step == (level - running) * rest,
    ensures
        running <= level,
        0 <= step,
        level == running ==> step == 0,
        level > running ==> rest <= step,
        charged(pairs, k + 1) == charged(pairs, k) + step,
        0 <= charged(pairs, k),
        charged(pairs, k) + step <= pairs_total(pairs),
{
    let m = pairs.len() as int;
    if k > 0 {
        assert(pairs[k - 1].1 <= pairs[k].1);
    }
    assert(pairs.take(k + 1).drop_last() =~= pairs.take(k));
    assert(pairs.take(m) =~= pairs);
    lemma_pairs_total_floor(pairs, k, m);
    lemma_pairs_total_positive(pairs.take(k));
    assert(level_below(pairs, k + 1) == level);
    assert(running * rest + (level - running) * rest == level * (rest - 1) + level)
        by (nonlinear_arith);
    assert(level * rest == level * (rest - 1) + level) by (nonlinear_arith);
    assert((level - running) * rest >= 0) by (nonlinear_arith)
        requires
            level - running >= 0,
            rest >= 0,
    ;
    assert(level > running ==> (level - running) * rest >= rest) by (nonlinear_arith)
        requires
            rest >= 0,
    ;
    assert(level == running ==> (level - running) * rest == 0) by (nonlinear_arith);
    assert(running * rest >= 0) by (nonlinear_arith)
        requires
            running >= 0,
            rest >= 0,
    ;
    assert(level_below(pairs, k + 1) * (m - (k + 1)) == level * (rest - 1));
    assert(level_below(pairs, k) * (m - k) == running * rest);
}

/// A total of contributions is never negative.
pub proof fn lemma_pairs_total_positive(pairs: Seq<(usize, u32)>)
    ensures
        pairs_total(pairs) >= 0,
    decreases pairs.len(),
{
    if pairs.len() > 0 {
        lemma_pairs_total_positive(pairs.drop_last());
    }
}

/// Cutting a pot at position `k`, where the contribution rises, keeps the
/// pots cut and covers the contribution at `k`.
pub proof fn lemma_cut_push(
    pots: Seq<(u32, Vec<usize>)>,
    starts: Seq<int>,
    pairs: Seq<(usize, u32)>,
    pot: (u32, Vec<usize>),
    k: int,
)
    requires
        pots_cut(pots, starts, pairs),
        levels_cut(starts, pairs, k),
        pot_from(pot, pairs, k),
        level_below(pairs, k) == last_level(pairs, starts),
    ensures
        pots_cut(pots.push(pot), starts.push(k), pairs),
        levels_cut(starts.push(k), pairs, k + 1),
        last_level(pairs, starts.push(k)) == pairs[k].1,
{
    reveal(pots_cut);
    reveal(levels_cut);
    let pots2 = pots.push(pot);
    let starts2 = starts.push(k);
    assert forall|j: int| 0 <= j < pots2.len() implies #[trigger] cut_at(pots2, starts2, pairs, j) by {
        if j < pots.len() {
            assert(cut_at(pots, starts, pairs, j));
            assert(starts2.take(j) =~= starts.take(j));
        } else {
            assert(starts2.take(j) =~= starts);
        }
    }
    assert forall|a: int| 0 <= a < k + 1 implies #[trigger] level_cut(starts2, pairs, a) by {
        if a < k {
            assert(level_cut(starts, pairs, a));
            if pairs[a].1 > 0 {
                let j = choose|j: int|
                    0 <= j < starts.len() && 0 <= #[trigger] starts[j] < pairs.len()
                        && pairs[starts[j]].1 == pairs[a].1;
                assert(starts2[j] == starts[j]);
            }
        } else {
            assert(starts2[starts.len() as int] == k);
        }
    }
}

/// Passing position `k` without a cut, where the contribution is that of the
/// last cut or zero, keeps the contributions covered.
pub proof fn lemma_cut_skip(starts: Seq<int>, pairs: Seq<(usize, u32)>, k: int)
    requires
        0 <= k < pairs.len(),
        levels_cut(starts, pairs, k),
        pairs[k].1 == last_level(pairs, starts),
        starts.len() > 0 ==> 0 <= starts.last() < pairs.len(),
    ensures
        levels_cut(starts, pairs, k + 1),
{
    reveal(levels_cut);
    assert forall|a: int| 0 <= a < k + 1 implies #[trigger] level_cut(starts, pairs, a) by {
        if a < k {
            assert(level_cut(starts, pairs, a));
        } else if pairs[k].1 > 0 {
            assert(starts[starts.len() - 1] == starts.last());
        }
    }
}

/// A pot cut from the listed pairs names its level at its position.
pub proof fn lemma_pot_level(
    pot: (u32, Vec<usize>),
    pairs: Seq<(usize, u32)>,
    seats: Seq<Option<Player>>,
    contributed: Seq<u32>,
    start: int,
)
    requires
        pairs_listed(pairs, seats, contributed, contributed.len() as int),
        pot_from(pot, pairs, start),
    ensures
        pot_level(pot, contributed) == pairs[start].1,
        pot.1@.len() == pairs.len() - start,
{
    assert(pot.1@[0] == pairs[start + 0].0);
}

/// The seats of a pot cut from the listed pairs are the eligible ones.
pub proof fn lemma_cut_lists_eligible(
    pot: (u32, Vec<usize>),
    pairs: Seq<(usize, u32)>,
    seats: Seq<Option<Player>>,
    contributed: Seq<u32>,
    start: int,
)
    requires
        pairs_listed(pairs, seats, contributed, contributed.len() as int),
        pot_from(pot, pairs, start),
    ensures
        lists_eligible(pot.1@, seats, contributed, pot_level(pot, contributed)),
{
    lemma_pot_level(pot, pairs, seats, contributed, start);
    lemma_rising(pairs, seats, contributed);
    let eligible = pot.1@;
    let level = pot_level(pot, contributed);
    assert forall|a: int| 0 <= a < eligible.len() implies in_pots(
        seats,
        contributed,
        #[trigger] eligible[a] as int,
    ) && contributed[eligible[a] as int] >= level by {
        assert(eligible[a] == pairs[start + a].0);
        assert(pairs[start].1 <= pairs[start + a].1);
    }
    assert forall|i: int| #[trigger]
        in_pots(seats, contributed, i) && contributed[i] >= level implies eligible.contains(
        i as usize,
    ) by {
        let at = choose|a: int| 0 <= a < pairs.len() && (#[trigger] pairs[a]).0 == i;
        if at < start {
            assert(pairs[at].1 <= pairs[start - 1].1);
        }
        assert(eligible[at - start] == i as usize);
    }
    assert forall|a: int, b: int| 0 <= a < b < eligible.len() implies seat_before(
        contributed,
        #[trigger] eligible[a] as int,
        #[trigger] eligible[b] as int,
    ) by {
        assert(eligible[a] == pairs[start + a].0);
        assert(eligible[b] == pairs[start + b].0);
        assert(seat_before(contributed, pairs[start + a].0 as int, pairs[start + b].0 as int));
    }
}

/// Pots cut from the listed pairs, one at every rise of the contribution,
/// are the side pots of the street.
pub proof fn lemma_pots_from_pairs(
    pots: Seq<(u32, Vec<usize>)>,
    starts: Seq<int>,
    pairs: Seq<(usize, u32)>,
    seats: Seq<Option<Player>>,
    contributed: Seq<u32>,
)
    requires
        pairs_listed(pairs, seats, contributed, contributed.len() as int),
        pots_cut(pots, starts, pairs),
        levels_cut(starts, pairs, pairs.len() as int),
    ensures
        are_side_pots(pots, seats, contributed),
{
    reveal(pots_cut);
    reveal(levels_cut);
    assert forall|j: int| 0 <= j < pots.len() implies #[trigger] pot_in_order(
        pots,
        seats,
        contributed,
        j,
    ) by {
        assert(cut_at(pots, starts, pairs, j));
        lemma_pot_level(pots[j], pairs, seats, contributed, starts[j]);
        lemma_cut_lists_eligible(pots[j], pairs, seats, contributed, starts[j]);
        if j > 0 {
            assert(cut_at(pots, starts, pairs, j - 1));
            lemma_pot_level(pots[j - 1], pairs, seats, contributed, starts[j - 1]);
            assert(starts.take(j).last() == starts[j - 1]);
        }
    }
    assert forall|i: int| #[trigger]
        in_pots(seats, contributed, i) && contributed[i] > 0 implies level_has_pot(
        pots,
        contributed,
        contributed[i] as int,
    ) by {
        let at = choose|a: int| 0 <= a < pairs.len() && (#[trigger] pairs[a]).0 == i;
        assert(level_cut(starts, pairs, at));
        let j = choose|j: int|
            0 <= j < starts.len() && 0 <= #[trigger] starts[j] < pairs.len() && pairs[starts[j]].1
                == pairs[at].1;
        assert(cut_at(pots, starts, pairs, j));
        lemma_pot_level(pots[j], pairs, seats, contributed, starts[j]);
        assert(pot_level(pots[j], contributed) == contributed[i]);
    }
}

/// A seat whose player has folded is eligible for no side pot.
pub proof fn lemma_folded_never_eligible(
    pots: Seq<(u32, Vec<usize>)>,
    seats: Seq<Option<Player>>,
    contributed: Seq<u32>,
    j: int,
    seat: int,
)
    requires
        are_side_pots(pots, seats, contributed),
        0 <= j < pots.len(),
        0 <= seat <= usize::MAX,
        has_player(seats, seat),
        seats[seat].unwrap().folded,
    ensures
        !pots[j].1@.contains(seat as usize),
{
    assert(pot_in_order(pots, seats, contributed, j));
    let eligible = pots[j].1@;
    if eligible.contains(seat as usize) {
        let a = choose|a: int| 0 <= a < eligible.len() && eligible[a] == seat as usize;
        assert(in_pots(seats, contributed, eligible[a] as int));
    }
}

/// A seat that takes part in the pots is eligible for exactly the side pots
/// whose level is at most its own contribution.
pub proof fn lemma_eligible_up_to_contribution(
    pots: Seq<(u32, Vec<usize>)>,
    seats: Seq<Option<Player>>,
    contributed: Seq<u32>,
    j: int,
    seat: int,
)
    requires
        are_side_pots(pots, seats, contributed),
        0 <= j < pots.len(),
        in_pots(seats, contributed, seat),
        seat <= usize::MAX,
    ensures
        pots[j].1@.contains(seat as usize) <==> pot_level(pots[j], contributed)
            <= contributed[seat],
{
    assert(pot_in_order(pots, seats, contributed, j));
    let eligible = pots[j].1@;
    if eligible.contains(seat as usize) {
        let a = choose|a: int| 0 <= a < eligible.len() && eligible[a] == seat as usize;
        assert(in_pots(seats, contributed, eligible[a] as int));
    }
}

/// The levels of the side pots rise from each pot to every later one, so the
/// pots come lowest level first.
pub proof fn lemma_pot_levels_rise(
    pots: Seq<(u32, Vec<usize>)>,
    seats: Seq<Option<Player>>,
    contributed: Seq<u32>,
    j: int,
    l: int,
)
    requires
        are_side_pots(pots, seats, contributed),
        0 <= j < l < pots.len(),
    ensures
        0 < pot_level(pots[j], contributed) < pot_level(pots[l], contributed),
    decreases l - j,
{
    assert(pot_in_order(pots, seats, contributed, j));
    assert(pot_in_order(pots, seats, contributed, l));
    if j + 1 < l {
        lemma_pot_levels_rise(pots, seats, contributed, j, l - 1);
    }
}

/// The first pots hold together no more than all of them.
pub proof fn lemma_pots_total_prefix(pots: Seq<(u32, Vec<usize>)>, upto: int)
    requires
        0 <= upto <= pots.len(),
    ensures
        0 <= pots_total(pots.take(upto)) <= pots_total(pots),
    decreases pots.len() - upto,
{
    if upto == pots.len() {
        assert(pots.take(upto) =~= pots);
        lemma_pots_total_positive(pots);
    } else {
        assert(pots.take(upto + 1).drop_last() =~= pots.take(upto));
        lemma_pots_total_prefix(pots, upto + 1);
        lemma_pots_total_positive(pots.take(upto));
    }
}

/// Pots never hold less than nothing.
pub proof fn lemma_pots_total_positive(pots: Seq<(u32, Vec<usize>)>)
    ensures
        0 <= pots_total(pots),
    decreases pots.len(),
{
    if pots.len() > 0 {
        lemma_pots_total_positive(pots.drop_last());
    }
}

} // verus!
