//! Ranking of poker hands: the value of five cards, and the best five out of
//! seven.

use crate::card::{Card, Rank};
use crate::hand_rank::{key_less, lemma_key_order, slot_value, HandCategory, HandRank};
use itertools::Itertools;
use vstd::prelude::*;

verus! {

/// How many cards of the hand have the rank with value `v`.
pub open spec fn rank_count(hand: Seq<Card>, v: int) -> nat
    decreases hand.len(),
{
    if hand.len() == 0 {
        0
    } else {
        rank_count(hand.drop_last(), v) + if hand.last().rank.value_of() == v {
            1nat
        } else {
            0nat
        }
    }
}

/// All cards of the hand share one suit.
pub open spec fn is_flush(hand: Seq<Card>) -> bool {
    forall|i: int| 0 <= i < hand.len() ==> (#[trigger] hand[i]).suit == hand[0].suit
}

/// The five ranks from `hi` downwards all occur in the hand.
pub open spec fn is_run(hand: Seq<Card>, hi: int) -> bool {
    forall|d: int| 0 <= d < 5 ==> rank_count(hand, #[trigger] (hi - d)) > 0
}

/// The hand holds ace, two, three, four and five.
pub open spec fn is_wheel(hand: Seq<Card>) -> bool {
    &&& rank_count(hand, 14) > 0
    &&& rank_count(hand, 2) > 0
    &&& rank_count(hand, 3) > 0
    &&& rank_count(hand, 4) > 0
    &&& rank_count(hand, 5) > 0
}

/// The highest rank from `hi` down to the six that tops a run of five.
pub open spec fn run_top_from(hand: Seq<Card>, hi: int) -> Option<int>
    decreases hi,
{
    if hi < 6 {
        None
    } else if is_run(hand, hi) {
        Some(hi)
    } else {
        run_top_from(hand, hi - 1)
    }
}

/// The rank a straight is valued by, if the hand is one: its highest card,
/// but the five for ace to five, which makes that the weakest straight.
pub open spec fn straight_top(hand: Seq<Card>) -> Option<int> {
    match run_top_from(hand, 14) {
        Some(hi) => Some(hi),
        None => if is_wheel(hand) {
            Some(5)
        } else {
            None
        },
    }
}

/// The rank values from `lo` up to the ace that occur exactly `n` times in
/// the hand, highest first.
pub open spec fn ranks_with_count(hand: Seq<Card>, n: nat, lo: int) -> Seq<int>
    decreases 15 - lo,
{
    if lo > 14 {
        Seq::empty()
    } else if rank_count(hand, lo) == n {
        ranks_with_count(hand, n, lo + 1).push(lo)
    } else {
        ranks_with_count(hand, n, lo + 1)
    }
}

/// The distinct ranks of the hand: those held four times first, then three
/// times, twice, once; within each group the highest first.
pub open spec fn grouped_ranks(hand: Seq<Card>) -> Seq<int> {
    ranks_with_count(hand, 4, 2) + ranks_with_count(hand, 3, 2) + ranks_with_count(hand, 2, 2)
        + ranks_with_count(hand, 1, 2)
}

/// The rank values of the cards from `lo` up to the ace, highest first, each
/// as often as it occurs.
pub open spec fn ranks_descending(hand: Seq<Card>, lo: int) -> Seq<int>
    decreases 15 - lo,
{
    if lo > 14 {
        Seq::empty()
    } else {
        ranks_descending(hand, lo + 1) + Seq::new(rank_count(hand, lo), |i: int| lo)
    }
}

/// The category of a hand; the first that applies, from the strongest down.
pub open spec fn category_of(hand: Seq<Card>) -> HandCategory {
    let quads = ranks_with_count(hand, 4, 2).len();
    let trips = ranks_with_count(hand, 3, 2).len();
    let pairs = ranks_with_count(hand, 2, 2).len();
    if is_flush(hand) && straight_top(hand) is Some {
        HandCategory::StraightFlush
    } else if quads >= 1 {
        HandCategory::FourOfAKind
    } else if trips >= 1 && pairs >= 1 {
        HandCategory::FullHouse
    } else if is_flush(hand) {
        HandCategory::Flush
    } else if straight_top(hand) is Some {
        HandCategory::Straight
    } else if trips >= 1 {
        HandCategory::ThreeOfAKind
    } else if pairs >= 2 {
        HandCategory::TwoPair
    } else if pairs >= 1 {
        HandCategory::OnePair
    } else {
        HandCategory::HighCard
    }
}

/// The ranks that break ties within the hand's category, most significant
/// first: the straight's top for straights, all five cards for a flush or a
/// high card, else the distinct ranks by group.
pub open spec fn tie_breakers(hand: Seq<Card>) -> Seq<int> {
    match category_of(hand) {
        HandCategory::StraightFlush | HandCategory::Straight => seq![straight_top(hand).unwrap()],
        HandCategory::Flush | HandCategory::HighCard => ranks_descending(hand, 2),
        _ => grouped_ranks(hand),
    }
}

/// The first five entries of `s`, filled up with 0 where `s` is shorter.
pub open spec fn padded(s: Seq<int>) -> Seq<int> {
    Seq::new(5, |i: int| if i < s.len() { s[i] } else { 0 })
}

/// The five kicker values of a hand.
pub open spec fn kickers_of(hand: Seq<Card>) -> Seq<int> {
    padded(tie_breakers(hand))
}

/// What a hand is compared by: the strength of its category, then its kickers.
pub open spec fn hand_key(hand: Seq<Card>) -> Seq<int> {
    seq![category_of(hand).strength_of()] + kickers_of(hand)
}

/// Counts the cards of each rank: entry `v` of the result is `rank_count` of `v`.
fn tally_ranks(cards: &[Card]) -> (counts: [u8; 15])
    requires
        cards@.len() == 5,
    ensures
        forall|v: int| 0 <= v < 15 ==> counts[v] == #[trigger] rank_count(cards@, v),
{
    let mut counts: [u8; 15] = [0u8; 15];
    let mut i: usize = 0;
    while i < 5
        invariant
            i <= 5,
            cards@.len() == 5,
            forall|v: int| 0 <= v < 15 ==> counts[v] == #[trigger] rank_count(cards@.take(i as int), v),
            forall|v: int| 0 <= v < 15 ==> counts[v] <= i,
        decreases 5 - i,
    {
        let v: usize = cards[i].rank.value() as usize;
        let ghost before = counts;
        counts[v] = counts[v] + 1;
        proof {
            let shorter = cards@.take(i as int);
            let longer = cards@.take(i + 1);
            assert(longer.drop_last() =~= shorter);
            assert(longer.last() == cards@[i as int]);
            assert forall|w: int| 0 <= w < 15 implies counts[w] == #[trigger] rank_count(
                longer,
                w,
            ) by {
                assert(before[w] == rank_count(shorter, w));
            }
        }
        i += 1;
    }
    proof {
        assert(cards@.take(5) =~= cards@);
    }
    counts
}

/// Tells whether all five cards have the suit of the first.
fn same_suit(cards: &[Card]) -> (b: bool)
    requires
        cards@.len() == 5,
    ensures
        b == is_flush(cards@),
{
    let first = cards[0].suit;
    let mut i: usize = 1;
    while i < 5
        invariant
            1 <= i <= 5,
            cards@.len() == 5,
            first == cards@[0].suit,
            forall|j: int| 0 <= j < i ==> (#[trigger] cards@[j]).suit == first,
        decreases 5 - i,
    {
        if cards[i].suit != first {
            return false;
        }
        i += 1;
    }
    true
}

/// Finds the rank a straight is valued by, scanning the runs from the ace
/// down and then the wheel.
fn straight_high(counts: &[u8; 15], Ghost(hand): Ghost<Seq<Card>>) -> (top: Option<u8>)
    requires
        forall|v: int| 0 <= v < 15 ==> counts[v] == #[trigger] rank_count(hand, v),
    ensures
        match top {
            Some(t) => straight_top(hand) == Some(t as int) && 5 <= t <= 14,
            None => straight_top(hand) is None,
        },
{
    let mut hi: usize = 14;
    while hi >= 6
        invariant
            5 <= hi <= 14,
            forall|v: int| 0 <= v < 15 ==> counts[v] == #[trigger] rank_count(hand, v),
            run_top_from(hand, 14) == run_top_from(hand, hi as int),
        decreases hi,
    {
        if counts[hi] > 0 && counts[hi - 1] > 0 && counts[hi - 2] > 0 && counts[hi - 3] > 0
            && counts[hi - 4] > 0 {
            proof {
                assert forall|d: int| 0 <= d < 5 implies rank_count(hand, #[trigger] (hi - d))
                    > 0 by {
                    assert(counts[hi - d] == rank_count(hand, hi - d));
                }
            }
            return Some(hi as u8);
        }
        proof {
            assert(!is_run(hand, hi as int)) by {
                if is_run(hand, hi as int) {
                    assert(rank_count(hand, hi - 0) > 0);
                    assert(rank_count(hand, hi - 1) > 0);
                    assert(rank_count(hand, hi - 2) > 0);
                    assert(rank_count(hand, hi - 3) > 0);
                    assert(rank_count(hand, hi - 4) > 0);
                }
            }
        }
        hi -= 1;
    }
    if counts[14] > 0 && counts[2] > 0 && counts[3] > 0 && counts[4] > 0 && counts[5] > 0 {
        Some(5)
    } else {
        None
    }
}

/// The entries of `v` as mathematical integers.
pub open spec fn as_ints(v: Seq<u8>) -> Seq<int> {
    v.map_values(|x: u8| x as int)
}

/// Every entry of `v` is the value of a rank.
pub open spec fn all_rank_values(v: Seq<u8>) -> bool {
    forall|i: int| 0 <= i < v.len() ==> 2 <= #[trigger] v[i] <= 14
}

/// Lists the ranks that occur exactly `n` times, highest first.
fn ranks_held(counts: &[u8; 15], n: u8, Ghost(hand): Ghost<Seq<Card>>) -> (out: Vec<u8>)
    requires
        forall|v: int| 0 <= v < 15 ==> counts[v] == #[trigger] rank_count(hand, v),
    ensures
        as_ints(out@) == ranks_with_count(hand, n as nat, 2),
        all_rank_values(out@),
{
    let mut out: Vec<u8> = Vec::new();
    let mut v: usize = 14;
    assert(as_ints(out@) =~= ranks_with_count(hand, n as nat, 15));
    while v >= 2
        invariant
            1 <= v <= 14,
            forall|w: int| 0 <= w < 15 ==> counts[w] == #[trigger] rank_count(hand, w),
            as_ints(out@) == ranks_with_count(hand, n as nat, v + 1),
            all_rank_values(out@),
        decreases v,
    {
        if counts[v] == n {
            let ghost before = out@;
            out.push(v as u8);
            assert(as_ints(out@) =~= as_ints(before).push(v as int));
        }
        assert(counts[v as int] == rank_count(hand, v as int));
        v -= 1;
    }
    out
}

/// Lists the ranks of all five cards, highest first.
fn ranks_high_to_low(counts: &[u8; 15], Ghost(hand): Ghost<Seq<Card>>) -> (out: Vec<u8>)
    requires
        forall|v: int| 0 <= v < 15 ==> counts[v] == #[trigger] rank_count(hand, v),
    ensures
        as_ints(out@) == ranks_descending(hand, 2),
        all_rank_values(out@),
{
    let mut out: Vec<u8> = Vec::new();
    let mut v: usize = 14;
    assert(as_ints(out@) =~= ranks_descending(hand, 15));
    while v >= 2
        invariant
            1 <= v <= 14,
            forall|w: int| 0 <= w < 15 ==> counts[w] == #[trigger] rank_count(hand, w),
            as_ints(out@) == ranks_descending(hand, v + 1),
            all_rank_values(out@),
        decreases v,
    {
        let ghost base = as_ints(out@);
        let mut k: u8 = 0;
        assert(counts[v as int] == rank_count(hand, v as int));
        while k < counts[v]
            invariant
                2 <= v <= 14,
                k <= counts[v as int],
                as_ints(out@) == base + Seq::new(k as nat, |i: int| v as int),
                all_rank_values(out@),
            decreases counts[v as int] - k,
        {
            let ghost before = out@;
            out.push(v as u8);
            assert(as_ints(out@) =~= as_ints(before).push(v as int));
            k += 1;
            assert(as_ints(out@) =~= base + Seq::new(k as nat, |i: int| v as int));
        }
        v -= 1;
    }
    out
}

/// Turns up to five rank values into kicker slots, leaving the rest unused.
fn kicker_slots(ties: &Vec<u8>) -> (k: [Option<Rank>; 5])
    requires
        all_rank_values(ties@),
    ensures
        Seq::new(5, |i: int| slot_value(k[i])) == padded(as_ints(ties@)),
{
    let mut k: [Option<Rank>; 5] = [None; 5];
    let mut i: usize = 0;
    while i < 5
        invariant
            i <= 5,
            all_rank_values(ties@),
            forall|j: int| 0 <= j < i ==> slot_value(#[trigger] k[j]) == padded(as_ints(ties@))[j],
            forall|j: int| i <= j < 5 ==> (#[trigger] k[j]) is None,
        decreases 5 - i,
    {
        if i < ties.len() {
            k[i] = Rank::from_value(ties[i]);
        }
        i += 1;
    }
    assert(Seq::new(5, |i: int| slot_value(k[i])) =~= padded(as_ints(ties@)));
    k
}

/// Ranks a hand of exactly five cards: the strongest category that applies,
/// and the ranks that break ties within it.
pub fn evaluate_five(cards: &[Card]) -> (r: HandRank)
    requires
        cards@.len() == 5,
    ensures
        r.category == category_of(cards@),
        r.kicker_values() == kickers_of(cards@),
        r.key() == hand_key(cards@),
{
    let ghost hand = cards@;
    let counts = tally_ranks(cards);
    let flush = same_suit(cards);
    let top = straight_high(&counts, Ghost(hand));
    let mut quads = ranks_held(&counts, 4, Ghost(hand));
    let mut trips = ranks_held(&counts, 3, Ghost(hand));
    let mut pairs = ranks_held(&counts, 2, Ghost(hand));
    let mut singles = ranks_held(&counts, 1, Ghost(hand));
    let category = if flush && top.is_some() {
        HandCategory::StraightFlush
    } else if quads.len() >= 1 {
        HandCategory::FourOfAKind
    } else if trips.len() >= 1 && pairs.len() >= 1 {
        HandCategory::FullHouse
    } else if flush {
        HandCategory::Flush
    } else if top.is_some() {
        HandCategory::Straight
    } else if trips.len() >= 1 {
        HandCategory::ThreeOfAKind
    } else if pairs.len() >= 2 {
        HandCategory::TwoPair
    } else if pairs.len() >= 1 {
        HandCategory::OnePair
    } else {
        HandCategory::HighCard
    };
    assert(category == category_of(hand));
    let ties: Vec<u8> = match category {
        HandCategory::StraightFlush | HandCategory::Straight => {
            let mut t: Vec<u8> = Vec::new();
            t.push(top.unwrap());
            assert(as_ints(t@) =~= seq![straight_top(hand).unwrap()]);
            t
        },
        HandCategory::Flush | HandCategory::HighCard => ranks_high_to_low(&counts, Ghost(hand)),
        _ => {
            let ghost q = quads@;
            let ghost t = trips@;
            let ghost p = pairs@;
            let ghost s = singles@;
            quads.append(&mut trips);
            quads.append(&mut pairs);
            quads.append(&mut singles);
            assert(as_ints(quads@) =~= as_ints(q) + as_ints(t) + as_ints(p) + as_ints(s));
            quads
        },
    };
    assert(as_ints(ties@) == tie_breakers(hand));
    let kickers = kicker_slots(&ties);
    let r = HandRank { category, kickers };
    assert(r.kicker_values() =~= kickers_of(hand));
    r
}

/// The selections of `k` cards out of `pool` that keep the pool's order,
/// listed in lexicographic order of the positions taken: first those that
/// start with the pool's first card, then those that leave it out.
pub open spec fn combinations_of(pool: Seq<Card>, k: nat) -> Seq<Seq<Card>>
    decreases pool.len(),
{
    if k == 0 {
        seq![Seq::<Card>::empty()]
    } else if pool.len() < k {
        Seq::empty()
    } else {
        combinations_of(pool.drop_first(), (k - 1) as nat).map_values(
            |c: Seq<Card>| seq![pool[0]] + c,
        ) + combinations_of(pool.drop_first(), k)
    }
}

/// `pick` lists positions below `n` in strictly increasing order.
pub open spec fn is_pick(pick: Seq<int>, n: int) -> bool {
    &&& forall|i: int| 0 <= i < pick.len() ==> 0 <= #[trigger] pick[i] < n
    &&& forall|i: int, j: int| 0 <= i < j < pick.len() ==> pick[i] < pick[j]
}

/// The cards of `pool` at the positions that `pick` lists.
pub open spec fn select(pool: Seq<Card>, pick: Seq<int>) -> Seq<Card> {
    Seq::new(pick.len(), |j: int| pool[pick[j]])
}

/// The positions of `pick`, each moved down by one.
pub open spec fn shifted_down(pick: Seq<int>) -> Seq<int> {
    Seq::new(pick.len(), |j: int| pick[j] - 1)
}

/// Every selection of cards that keeps the pool's order is listed by
/// `combinations_of`.
pub proof fn lemma_combinations_complete(pool: Seq<Card>, pick: Seq<int>) -> (j: int)
    requires
        is_pick(pick, pool.len() as int),
    ensures
        0 <= j < combinations_of(pool, pick.len()).len(),
        combinations_of(pool, pick.len())[j] == select(pool, pick),
    decreases pool.len(),
{
    let k = pick.len();
    if k == 0 {
        assert(select(pool, pick) =~= Seq::<Card>::empty());
        0
    } else {
        assert(pick[0] >= 0);
        assert(pool.len() >= k) by {
            lemma_pick_bound(pick, pool.len() as int, k - 1);
        }
        let rest = pool.drop_first();
        let with_first = combinations_of(rest, (k - 1) as nat).map_values(
            |c: Seq<Card>| seq![pool[0]] + c,
        );
        if pick[0] == 0 {
            let tail = shifted_down(pick.drop_first());
            assert(is_pick(tail, rest.len() as int)) by {
                assert forall|i: int| 0 <= i < tail.len() implies 0 <= #[trigger] tail[i]
                    < rest.len() by {
                    assert(pick[0] < pick[i + 1]);
                    assert(pick[i + 1] < pool.len());
                }
                assert forall|i: int, l: int| 0 <= i < l < tail.len() implies tail[i]
                    < tail[l] by {
                    assert(pick[i + 1] < pick[l + 1]);
                }
            }
            let j = lemma_combinations_complete(rest, tail);
            assert(seq![pool[0]] + select(rest, tail) =~= select(pool, pick));
            assert(with_first[j] == select(pool, pick));
            j
        } else {
            let lower = shifted_down(pick);
            assert(is_pick(lower, rest.len() as int)) by {
                assert forall|i: int| 0 <= i < lower.len() implies 0 <= #[trigger] lower[i]
                    < rest.len() by {
                    if i > 0 {
                        assert(pick[0] < pick[i]);
                    }
                    assert(pick[i] < pool.len());
                }
                assert forall|i: int, l: int| 0 <= i < l < lower.len() implies lower[i]
                    < lower[l] by {
                    assert(pick[i] < pick[l]);
                }
            }
            let j = lemma_combinations_complete(rest, lower);
            assert(select(rest, lower) =~= select(pool, pick));
            with_first.len() + j
        }
    }
}

/// A pick's entry at position `i` is at least `i`, so a pick is no longer
/// than the pool.
pub proof fn lemma_pick_bound(pick: Seq<int>, n: int, i: int)
    requires
        is_pick(pick, n),
        0 <= i < pick.len(),
    ensures
        i <= pick[i] < n,
    decreases i,
{
    if i > 0 {
        lemma_pick_bound(pick, n, i - 1);
        assert(pick[i - 1] < pick[i]);
    }
}

/// Every entry of `combinations_of` is a selection of `k` cards that keeps the
/// pool's order.
pub proof fn lemma_combinations_sound(pool: Seq<Card>, k: nat, j: int) -> (pick: Seq<int>)
    requires
        0 <= j < combinations_of(pool, k).len(),
    ensures
        is_pick(pick, pool.len() as int),
        pick.len() == k,
        combinations_of(pool, k)[j] == select(pool, pick),
    decreases pool.len(),
{
    if k == 0 {
        let pick = Seq::<int>::empty();
        assert(select(pool, pick) =~= Seq::<Card>::empty());
        pick
    } else {
        let rest = pool.drop_first();
        let shorter = combinations_of(rest, (k - 1) as nat);
        let with_first = shorter.map_values(|c: Seq<Card>| seq![pool[0]] + c);
        if j < with_first.len() {
            let tail = lemma_combinations_sound(rest, (k - 1) as nat, j);
            let pick = seq![0int] + Seq::new(tail.len(), |i: int| tail[i] + 1);
            assert(is_pick(pick, pool.len() as int)) by {
                assert forall|i: int| 0 <= i < pick.len() implies 0 <= #[trigger] pick[i]
                    < pool.len() by {
                    if i > 0 {
                        assert(0 <= tail[i - 1] < rest.len());
                    }
                }
                assert forall|i: int, l: int| 0 <= i < l < pick.len() implies pick[i]
                    < pick[l] by {
                    assert(0 <= tail[l - 1]);
                    if i > 0 {
                        assert(tail[i - 1] < tail[l - 1]);
                    }
                }
            }
            assert(seq![pool[0]] + select(rest, tail) =~= select(pool, pick));
            pick
        } else {
            let lower = lemma_combinations_sound(rest, k, j - with_first.len());
            let pick = Seq::new(lower.len(), |i: int| lower[i] + 1);
            assert(is_pick(pick, pool.len() as int)) by {
                assert forall|i: int| 0 <= i < pick.len() implies 0 <= #[trigger] pick[i]
                    < pool.len() by {
                    assert(0 <= lower[i] < rest.len());
                }
                assert forall|i: int, l: int| 0 <= i < l < pick.len() implies pick[i]
                    < pick[l] by {
                    assert(lower[i] < lower[l]);
                }
            }
            assert(select(rest, lower) =~= select(pool, pick));
            pick
        }
    }
}

/// Calls `Itertools::combinations` of the itertools crate on the seven cards
/// and collects what it yields. Believed, not proved: it yields each
/// selection of `k` cards as a new vector, in the cards' order, and the
/// selections in lexicographic order of the positions taken, as the crate
/// documents it.
#[verifier::external_body]
fn card_combinations(cards: &[Card; 7], k: usize) -> (out: Vec<Vec<Card>>)
    requires
        k <= 7,
    ensures
        out@.len() == combinations_of(cards@, k as nat).len(),
        forall|j: int|
            0 <= j < out@.len() ==> (#[trigger] out@[j])@ == combinations_of(cards@, k as nat)[j],
{
    cards.iter().copied().combinations(k).collect()
}

/// Ranks the best five-card hand out of seven cards: the result is the rank
/// of one selection of five of them, and no selection of five ranks higher.
pub fn evaluate_seven(cards: &[Card; 7]) -> (r: HandRank)
    ensures
        exists|pick: Seq<int>|
            is_pick(pick, 7) && pick.len() == 5 && r.key() == hand_key(
                #[trigger] select(cards@, pick),
            ),
        forall|pick: Seq<int>|
            is_pick(pick, 7) && pick.len() == 5 ==> !key_less(
                r.key(),
                hand_key(#[trigger] select(cards@, pick)),
            ),
{
    let hands = card_combinations(cards, 5);
    let ghost listed = combinations_of(cards@, 5);
    proof {
        let first = seq![0int, 1, 2, 3, 4];
        let j = lemma_combinations_complete(cards@, first);
        assert forall|j: int| 0 <= j < listed.len() implies (#[trigger] listed[j]).len() == 5 by {
            let pick = lemma_combinations_sound(cards@, 5, j);
        }
    }
    let mut best = evaluate_five(hands[0].as_slice());
    let mut i: usize = 1;
    proof {
        lemma_key_order(best.key(), best.key(), best.key());
    }
    while i < hands.len()
        invariant
            1 <= i <= hands@.len(),
            hands@.len() == listed.len(),
            listed == combinations_of(cards@, 5),
            forall|j: int| 0 <= j < hands@.len() ==> (#[trigger] hands@[j])@ == listed[j],
            forall|j: int| 0 <= j < listed.len() ==> (#[trigger] listed[j]).len() == 5,
            exists|j: int| 0 <= j < i && best.key() == hand_key(#[trigger] listed[j]),
            forall|j: int| 0 <= j < i ==> !key_less(best.key(), hand_key(#[trigger] listed[j])),
        decreases hands@.len() - i,
    {
        let r = evaluate_five(hands[i].as_slice());
        assert(r.key() == hand_key(listed[i as int]));
        if best < r {
            proof {
                assert forall|j: int| 0 <= j < i + 1 implies !key_less(
                    r.key(),
                    hand_key(#[trigger] listed[j]),
                ) by {
                    lemma_key_order(best.key(), r.key(), r.key());
                    lemma_key_order(hand_key(listed[j]), best.key(), r.key());
                }
            }
            best = r;
        } else {
            proof {
                lemma_key_order(best.key(), r.key(), r.key());
            }
        }
        i += 1;
    }
    proof {
        let j = choose|j: int| 0 <= j < i && best.key() == hand_key(#[trigger] listed[j]);
        let pick = lemma_combinations_sound(cards@, 5, j);
        assert(best.key() == hand_key(select(cards@, pick)));
        assert forall|pick: Seq<int>| is_pick(pick, 7) && pick.len() == 5 implies !key_less(
            best.key(),
            hand_key(#[trigger] select(cards@, pick)),
        ) by {
            let j = lemma_combinations_complete(cards@, pick);
        }
    }
    best
}

} // verus!
