//! The seven-card hand evaluator: the best five-card category reachable from
//! two hole cards and the five board cards, with the cards that form it.
//!
//! Category order: High Card < Pair < Two Pair < Three of a Kind < Straight
//! < Flush < Full House < Four of a Kind < Straight Flush. No kickers are
//! compared; hands of one category are exact ties. Straights are ace-high
//! only (no wheel). Where several rank groups qualify for one slot, the
//! numerically highest group is taken, so the choice is deterministic.

use vstd::prelude::*;
use vstd::string::StringExecFns;
use crate::cards::{Card, Rank, Suit, rank_value_of, suit_value_of, suit_of_index, index_of_suit};

verus! {

#[derive(Clone, Debug, PartialEq, Eq, Structural)]
pub enum HandRank {
    HighCard,
    Pair,
    TwoPair,
    ThreeOfAKind,
    Straight,
    Flush,
    FullHouse,
    FourOfAKind,
    StraightFlush,
    RoyalFlush,
}

#[derive(Clone, Debug)]
pub struct HandEvaluation {
    pub rank: HandRank,
    pub cards: Vec<Card>,
    pub kickers: Vec<Rank>,
    pub highlighted_cards: Vec<Card>,
    pub combination_type: String,
}

/// How many of the cards have rank value `v`.
pub open spec fn count_rank(s: Seq<Card>, v: int) -> nat {
    s.filter(|c: Card| rank_value_of(c.rank) as int == v).len()
}

/// How many of the cards wear suit `u`.
pub open spec fn count_suit(s: Seq<Card>, u: Suit) -> nat {
    s.filter(|c: Card| c.suit == u).len()
}

/// The cards of rank value `v`, in input order.
pub open spec fn group_of_rank(s: Seq<Card>, v: int) -> Seq<Card> {
    s.filter(|c: Card| rank_value_of(c.rank) as int == v)
}

/// The cards of suit `u`, in input order.
pub open spec fn group_of_suit(s: Seq<Card>, u: Suit) -> Seq<Card> {
    s.filter(|c: Card| c.suit == u)
}

/// The highest rank value in 2..=v whose group has exactly `n` members,
/// or 0 if there is none.
pub open spec fn top_with_count_from(s: Seq<Card>, n: nat, v: int) -> int
    decreases v,
{
    if v < 2 {
        0
    } else if count_rank(s, v) == n {
        v
    } else {
        top_with_count_from(s, n, v - 1)
    }
}

pub open spec fn top_with_count(s: Seq<Card>, n: nat) -> int {
    top_with_count_from(s, n, 14)
}

/// A run of five consecutive rank values starting at `lo`, each present.
pub open spec fn run_at(s: Seq<Card>, lo: int) -> bool {
    &&& count_rank(s, lo) > 0
    &&& count_rank(s, lo + 1) > 0
    &&& count_rank(s, lo + 2) > 0
    &&& count_rank(s, lo + 3) > 0
    &&& count_rank(s, lo + 4) > 0
}

/// The lowest straight start in lo..=10, or 0 if none. The search is
/// ascending, as the scan over the sorted distinct ranks is.
pub open spec fn straight_low_from(s: Seq<Card>, lo: int) -> int
    decreases 11 - lo,
{
    if lo > 10 {
        0
    } else if run_at(s, lo) {
        lo
    } else {
        straight_low_from(s, lo + 1)
    }
}

pub open spec fn straight_low(s: Seq<Card>) -> int {
    straight_low_from(s, 2)
}

/// The first index at or after `i` holding a card of rank value `v`, or the
/// length if there is none.
pub open spec fn first_index_with(s: Seq<Card>, v: int, i: int) -> int
    decreases s.len() - i,
{
    if i < 0 || i >= s.len() {
        s.len() as int
    } else if rank_value_of(s[i].rank) as int == v {
        i
    } else {
        first_index_with(s, v, i + 1)
    }
}

/// The five cards reported for a straight: for each rank value of the run,
/// the first card of that value in input order.
pub open spec fn straight_cards(s: Seq<Card>) -> Seq<Card> {
    Seq::new(5, |k: int| s[first_index_with(s, straight_low(s) + k, 0)])
}

/// The first suit, in deck-building order (Hearts, Diamonds, Clubs, Spades),
/// with five or more cards, if any.
pub open spec fn flush_suit_from(s: Seq<Card>, i: int) -> Option<Suit>
    decreases 4 - i,
{
    if i >= 4 {
        None
    } else if count_suit(s, suit_of_index(i)) >= 5 {
        Some(suit_of_index(i))
    } else {
        flush_suit_from(s, i + 1)
    }
}

pub open spec fn flush_suit(s: Seq<Card>) -> Option<Suit> {
    flush_suit_from(s, 0)
}

pub open spec fn all_same_suit(cs: Seq<Card>) -> bool {
    forall|i: int| 0 <= i < cs.len() ==> (#[trigger] cs[i]).suit == cs[0].suit
}

/// True when `a` beats or equals `b` as a single high card: by rank value,
/// ties broken by suit (Spades > Hearts > Diamonds > Clubs).
pub open spec fn card_beats(a: Card, b: Card) -> bool {
    ||| rank_value_of(a.rank) > rank_value_of(b.rank)
    ||| (rank_value_of(a.rank) == rank_value_of(b.rank) && suit_value_of(a.suit)
        >= suit_value_of(b.suit))
}

/// The best single card from index `i` on, given the best seen so far.
pub open spec fn top_card_from(s: Seq<Card>, i: int, best: Card) -> Card
    decreases s.len() - i,
{
    if i < 0 || i >= s.len() {
        best
    } else if !card_beats(best, s[i]) {
        top_card_from(s, i + 1, s[i])
    } else {
        top_card_from(s, i + 1, best)
    }
}

/// The single highest card by rank, ties broken by suit.
pub open spec fn top_card(s: Seq<Card>) -> Card
    recommends
        s.len() > 0,
{
    top_card_from(s, 1, s[0])
}

/// The category the evaluator reports for the seven cards, in priority order.
pub open spec fn spec_eval_rank(s: Seq<Card>) -> HandRank {
    if flush_suit(s) is Some && straight_low(s) != 0 && all_same_suit(straight_cards(s)) {
        HandRank::StraightFlush
    } else if top_with_count(s, 4) != 0 {
        HandRank::FourOfAKind
    } else if top_with_count(s, 3) != 0 && top_with_count(s, 2) != 0 {
        HandRank::FullHouse
    } else if flush_suit(s) is Some {
        HandRank::Flush
    } else if straight_low(s) != 0 {
        HandRank::Straight
    } else if top_with_count(s, 3) != 0 {
        HandRank::ThreeOfAKind
    } else if top_with_count(s, 2) != 0 && top_with_count_from(s, 2, top_with_count(s, 2) - 1)
        != 0 {
        HandRank::TwoPair
    } else if top_with_count(s, 2) != 0 {
        HandRank::Pair
    } else {
        HandRank::HighCard
    }
}

/// The cards the evaluator highlights for each category.
pub open spec fn spec_highlighted(s: Seq<Card>) -> Seq<Card> {
    match spec_eval_rank(s) {
        HandRank::StraightFlush => straight_cards(s),
        HandRank::FourOfAKind => group_of_rank(s, top_with_count(s, 4)),
        HandRank::FullHouse => group_of_rank(s, top_with_count(s, 3)) + group_of_rank(
            s,
            top_with_count(s, 2),
        ),
        HandRank::Flush => group_of_suit(s, flush_suit(s)->Some_0),
        HandRank::Straight => straight_cards(s),
        HandRank::ThreeOfAKind => group_of_rank(s, top_with_count(s, 3)),
        HandRank::TwoPair => group_of_rank(s, top_with_count(s, 2)) + group_of_rank(
            s,
            top_with_count_from(s, 2, top_with_count(s, 2) - 1),
        ),
        HandRank::Pair => group_of_rank(s, top_with_count(s, 2)),
        _ => seq![top_card(s)],
    }
}

/// The human-readable label of a category.
pub open spec fn spec_label(r: HandRank) -> Seq<char> {
    match r {
        HandRank::HighCard => "High Card"@,
        HandRank::Pair => "Pair"@,
        HandRank::TwoPair => "Two Pair"@,
        HandRank::ThreeOfAKind => "Three of a Kind"@,
        HandRank::Straight => "Straight"@,
        HandRank::Flush => "Flush"@,
        HandRank::FullHouse => "Full House"@,
        HandRank::FourOfAKind => "Four of a Kind"@,
        HandRank::StraightFlush => "Straight Flush"@,
        HandRank::RoyalFlush => "Royal Flush"@,
    }
}

/// One unfolding of `Seq::filter`, phrased over the last element.
pub(crate) proof fn lemma_filter_step<A>(s: Seq<A>, pred: spec_fn(A) -> bool)
    requires
        s.len() > 0,
    ensures
        s.filter(pred) == if pred(s.last()) {
            s.drop_last().filter(pred).push(s.last())
        } else {
            s.drop_last().filter(pred)
        },
    decreases s.len(),
{
    reveal_with_fuel(Seq::filter, 2);
}

/// Extending a prefix by one element extends its filtered view accordingly.
pub(crate) proof fn lemma_filter_take_step<A>(s: Seq<A>, pred: spec_fn(A) -> bool, i: int)
    requires
        0 <= i < s.len(),
    ensures
        s.take(i + 1).filter(pred) == if pred(s[i]) {
            s.take(i).filter(pred).push(s[i])
        } else {
            s.take(i).filter(pred)
        },
{
    assert(s.take(i + 1).drop_last() =~= s.take(i));
    assert(s.take(i + 1).last() == s[i]);
    lemma_filter_step(s.take(i + 1), pred);
}

/// The empty prefix filters to the empty sequence.
pub(crate) proof fn lemma_filter_empty<A>(pred: spec_fn(A) -> bool)
    ensures
        Seq::<A>::empty().filter(pred) == Seq::<A>::empty(),
{
    reveal_with_fuel(Seq::filter, 1);
}

/// A nonempty filtered view means some element satisfies the predicate.
pub(crate) proof fn lemma_filter_pos_exists<A>(s: Seq<A>, pred: spec_fn(A) -> bool)
    requires
        s.filter(pred).len() > 0,
    ensures
        exists|i: int| 0 <= i < s.len() && pred(s[i]),
    decreases s.len(),
{
    if s.len() == 0 {
        assert(s =~= Seq::<A>::empty());
        lemma_filter_empty(pred);
    } else {
        lemma_filter_step(s, pred);
        if pred(s.last()) {
            assert(0 <= s.len() - 1 < s.len() && pred(s[s.len() - 1]));
        } else {
            lemma_filter_pos_exists(s.drop_last(), pred);
            let i = choose|i: int| 0 <= i < s.drop_last().len() && pred(s.drop_last()[i]);
            assert(0 <= i < s.len() && pred(s[i]));
        }
    }
}

/// Characterisation of `first_index_with` started at 0: either no card has
/// the value, or the index points at the first one.
proof fn lemma_first_index_with(s: Seq<Card>, v: int, i: int)
    requires
        0 <= i <= s.len(),
    ensures
        first_index_with(s, v, i) == s.len() ==> forall|j: int|
            i <= j < s.len() ==> rank_value_of(s[j].rank) as int != v,
        first_index_with(s, v, i) < s.len() ==> {
            let fi = first_index_with(s, v, i);
            &&& i <= fi < s.len()
            &&& rank_value_of(s[fi].rank) as int == v
            &&& forall|j: int| i <= j < fi ==> rank_value_of(s[j].rank) as int != v
        },
        i <= first_index_with(s, v, i) <= s.len(),
    decreases s.len() - i,
{
    if i < s.len() && rank_value_of(s[i].rank) as int != v {
        lemma_first_index_with(s, v, i + 1);
    }
}

/// A positive rank count yields a card of that value, and so a first index.
proof fn lemma_count_pos_first_index(s: Seq<Card>, v: int)
    requires
        count_rank(s, v) > 0,
    ensures
        first_index_with(s, v, 0) < s.len(),
{
    lemma_filter_pos_exists(s, |c: Card| rank_value_of(c.rank) as int == v);
    lemma_first_index_with(s, v, 0);
    let i = choose|i: int| 0 <= i < s.len() && rank_value_of(s[i].rank) as int == v;
    if first_index_with(s, v, 0) == s.len() {
        assert(rank_value_of(s[i].rank) as int != v);
    }
}

/// A found straight start lies in 2..=10 and its run is really present.
proof fn lemma_straight_low_run(s: Seq<Card>, lo: int)
    requires
        2 <= lo <= 11,
        straight_low_from(s, lo) != 0,
    ensures
        lo <= straight_low_from(s, lo) <= 10,
        run_at(s, straight_low_from(s, lo)),
    decreases 11 - lo,
{
    if lo <= 10 && !run_at(s, lo) {
        lemma_straight_low_run(s, lo + 1);
    }
}

/// The cards a seven-card array holds, as plain values in input order.
pub open spec fn cards_of(cs: Seq<&Card>) -> Seq<Card> {
    Seq::new(cs.len(), |i: int| *cs[i])
}

/// What the evaluator promises of its result for the seven input cards.
pub open spec fn eval_ok(s: Seq<Card>, ev: HandEvaluation) -> bool {
    &&& ev.rank == spec_eval_rank(s)
    &&& ev.highlighted_cards@ == spec_highlighted(s)
    &&& ev.cards@ == spec_highlighted(s)
    &&& ev.kickers@ == Seq::<Rank>::empty()
    &&& ev.combination_type@ == spec_label(spec_eval_rank(s))
}

fn suit_ix(u: Suit) -> (i: usize)
    ensures
        i == index_of_suit(u),
{
    match u {
        Suit::Hearts => 0,
        Suit::Diamonds => 1,
        Suit::Clubs => 2,
        Suit::Spades => 3,
    }
}

/// Per-rank-value card counts, indexed 0..15 (only 2..=14 are ever nonzero).
fn rank_counts7(cards: &[&Card; 7]) -> (counts: Vec<u8>)
    ensures
        counts@.len() == 15,
        forall|v: int|
            0 <= v < 15 ==> #[trigger] counts@[v] as nat == count_rank(cards_of(cards@), v),
{
    let ghost s = cards_of(cards@);
    let mut counts: Vec<u8> = vec![0u8; 15];
    proof {
        assert(s.take(0) =~= Seq::<Card>::empty());
        assert forall|v: int| 0 <= v < 15 implies #[trigger] counts@[v] as nat == count_rank(
            s.take(0),
            v,
        ) by {
            lemma_filter_empty(|c: Card| rank_value_of(c.rank) as int == v);
        }
    }
    let mut i: usize = 0;
    while i < 7
        invariant
            i <= 7,
            counts@.len() == 15,
            s == cards_of(cards@),
            forall|v: int|
                0 <= v < 15 ==> #[trigger] counts@[v] as nat == count_rank(s.take(i as int), v),
        decreases 7 - i,
    {
        let c: &Card = cards[i];
        proof {
            assert(*c == s[i as int]);
        }
        let v = c.rank_value();
        proof {
            assert forall|w: int| 0 <= w < 15 implies count_rank(s.take(i + 1), w) == count_rank(
                s.take(i as int),
                w,
            ) + (if rank_value_of(s[i as int].rank) as int == w {
                1nat
            } else {
                0nat
            }) by {
                lemma_filter_take_step(s, |c: Card| rank_value_of(c.rank) as int == w, i as int);
            }
            assert(counts@[v as int] as nat == count_rank(s.take(i as int), v as int));
            assert(count_rank(s.take(i as int), v as int) <= s.take(i as int).len()) by {
                s.take(i as int).lemma_filter_len(|c: Card| rank_value_of(c.rank) as int == v as int);
            }
        }
        let cur = counts[v as usize];
        counts[v as usize] = cur + 1;
        i = i + 1;
    }
    proof {
        assert(s.take(7) =~= s);
    }
    counts
}

/// Per-suit card counts, indexed by deck-building suit order.
fn suit_counts7(cards: &[&Card; 7]) -> (counts: Vec<u8>)
    ensures
        counts@.len() == 4,
        forall|u: int|
            0 <= u < 4 ==> #[trigger] counts@[u] as nat == count_suit(
                cards_of(cards@),
                suit_of_index(u),
            ),
{
    let ghost s = cards_of(cards@);
    let mut counts: Vec<u8> = vec![0u8; 4];
    proof {
        assert(s.take(0) =~= Seq::<Card>::empty());
        assert forall|u: int| 0 <= u < 4 implies #[trigger] counts@[u] as nat == count_suit(
            s.take(0),
            suit_of_index(u),
        ) by {
            lemma_filter_empty(|c: Card| c.suit == suit_of_index(u));
        }
    }
    let mut i: usize = 0;
    while i < 7
        invariant
            i <= 7,
            counts@.len() == 4,
            s == cards_of(cards@),
            forall|u: int|
                0 <= u < 4 ==> #[trigger] counts@[u] as nat == count_suit(
                    s.take(i as int),
                    suit_of_index(u),
                ),
        decreases 7 - i,
    {
        let c: &Card = cards[i];
        proof {
            assert(*c == s[i as int]);
        }
        let ui = suit_ix(c.suit);
        proof {
            assert forall|u: int| 0 <= u < 4 implies count_suit(s.take(i + 1), suit_of_index(u))
                == count_suit(s.take(i as int), suit_of_index(u)) + (if s[i as int].suit
                == suit_of_index(u) {
                1nat
            } else {
                0nat
            }) by {
                lemma_filter_take_step(s, |c: Card| c.suit == suit_of_index(u), i as int);
            }
            assert(suit_of_index(ui as int) == c.suit);
            assert(count_suit(s.take(i as int), suit_of_index(ui as int)) <= s.take(
                i as int,
            ).len()) by {
                s.take(i as int).lemma_filter_len(|c: Card| c.suit == suit_of_index(ui as int));
            }
        }
        let cur = counts[ui];
        counts[ui] = cur + 1;
        i = i + 1;
    }
    proof {
        assert(s.take(7) =~= s);
    }
    counts
}

/// The highest rank value whose group has exactly `n` members, or 0.
fn top_with(counts: &Vec<u8>, n: u8, Ghost(s): Ghost<Seq<Card>>) -> (r: u8)
    requires
        counts@.len() == 15,
        forall|v: int| 0 <= v < 15 ==> #[trigger] counts@[v] as nat == count_rank(s, v),
    ensures
        r as int == top_with_count(s, n as nat),
        r == 0 || 2 <= r <= 14,
{
    let mut v: u8 = 14;
    while v >= 2
        invariant
            1 <= v <= 14,
            counts@.len() == 15,
            forall|w: int| 0 <= w < 15 ==> #[trigger] counts@[w] as nat == count_rank(s, w),
            top_with_count(s, n as nat) == top_with_count_from(s, n as nat, v as int),
        decreases v,
    {
        if counts[v as usize] == n {
            return v;
        }
        v = v - 1;
    }
    0
}

/// The lowest straight start, or 0 if the seven cards hold no straight.
fn straight_start(counts: &Vec<u8>, Ghost(s): Ghost<Seq<Card>>) -> (r: u8)
    requires
        counts@.len() == 15,
        forall|v: int| 0 <= v < 15 ==> #[trigger] counts@[v] as nat == count_rank(s, v),
    ensures
        r as int == straight_low(s),
        r == 0 || 2 <= r <= 10,
{
    let mut lo: u8 = 2;
    while lo <= 10
        invariant
            2 <= lo <= 11,
            counts@.len() == 15,
            forall|v: int| 0 <= v < 15 ==> #[trigger] counts@[v] as nat == count_rank(s, v),
            straight_low(s) == straight_low_from(s, lo as int),
        decreases 11 - lo,
    {
        if counts[lo as usize] > 0 && counts[(lo + 1) as usize] > 0 && counts[(lo + 2) as usize]
            > 0 && counts[(lo + 3) as usize] > 0 && counts[(lo + 4) as usize] > 0 {
            return lo;
        }
        lo = lo + 1;
    }
    0
}

/// The first input position holding a card of rank value `v`.
fn first_card_with(cards: &[&Card; 7], v: u8) -> (idx: usize)
    requires
        count_rank(cards_of(cards@), v as int) > 0,
    ensures
        idx < 7,
        idx as int == first_index_with(cards_of(cards@), v as int, 0),
{
    let ghost s = cards_of(cards@);
    proof {
        lemma_count_pos_first_index(s, v as int);
        lemma_first_index_with(s, v as int, 0);
    }
    let ghost fi = first_index_with(s, v as int, 0);
    let mut i: usize = 0;
    while i < 7
        invariant
            s == cards_of(cards@),
            fi == first_index_with(s, v as int, 0),
            0 <= fi < 7,
            rank_value_of(s[fi].rank) as int == v as int,
            forall|j: int| 0 <= j < fi ==> rank_value_of(s[j].rank) as int != v as int,
            i <= fi,
        decreases 7 - i,
    {
        let c: &Card = cards[i];
        proof {
            assert(*c == s[i as int]);
        }
        if c.rank_value() == v {
            proof {
                assert(i as int == fi);
            }
            return i;
        }
        proof {
            assert(i as int != fi);
        }
        i = i + 1;
    }
    proof {
        assert(false);
    }
    0
}

/// The five cards of the straight starting at `lo`: for each value of the
/// run, the first card of that value in input order.
fn find_straight(cards: &[&Card; 7]) -> (r: Option<Vec<Card>>)
    ensures
        match r {
            Some(v) => straight_low(cards_of(cards@)) != 0 && v@ == straight_cards(
                cards_of(cards@),
            ) && v@.len() == 5,
            None => straight_low(cards_of(cards@)) == 0,
        },
{
    let ghost s = cards_of(cards@);
    let counts = rank_counts7(cards);
    let lo = straight_start(&counts, Ghost(s));
    if lo == 0 {
        return None;
    }
    proof {
        lemma_straight_low_run(s, 2);
    }
    let mut out: Vec<Card> = Vec::new();
    let mut k: u8 = 0;
    while k < 5
        invariant
            s == cards_of(cards@),
            lo as int == straight_low(s),
            2 <= lo <= 10,
            run_at(s, lo as int),
            k <= 5,
            out@.len() == k as nat,
            forall|m: int|
                0 <= m < k as int ==> #[trigger] out@[m] == s[first_index_with(s, lo + m, 0)],
        decreases 5 - k,
    {
        let idx = first_card_with(cards, lo + k);
        let c: &Card = cards[idx];
        proof {
            assert(*c == s[idx as int]);
        }
        out.push(*c);
        k = k + 1;
    }
    proof {
        assert(out@ =~= straight_cards(s));
    }
    Some(out)
}

/// Whether at least five cards are given and they all wear one suit.
fn cards_are_flush(cs: &Vec<Card>) -> (b: bool)
    ensures
        b == (cs@.len() >= 5 && all_same_suit(cs@)),
{
    if cs.len() < 5 {
        return false;
    }
    let first = cs[0];
    let mut i: usize = 1;
    while i < cs.len()
        invariant
            cs@.len() >= 5,
            1 <= i <= cs@.len(),
            first == cs@[0],
            forall|j: int| 0 <= j < i ==> (#[trigger] cs@[j]).suit == cs@[0].suit,
        decreases cs@.len() - i,
    {
        if cs[i].suit != first.suit {
            return false;
        }
        i = i + 1;
    }
    true
}

/// The cards of rank value `v`, in input order.
fn collect_rank_group(cards: &[&Card; 7], v: u8) -> (out: Vec<Card>)
    ensures
        out@ == group_of_rank(cards_of(cards@), v as int),
{
    let ghost s = cards_of(cards@);
    let mut out: Vec<Card> = Vec::new();
    proof {
        assert(s.take(0) =~= Seq::<Card>::empty());
        lemma_filter_empty(|c: Card| rank_value_of(c.rank) as int == v as int);
    }
    let mut i: usize = 0;
    while i < 7
        invariant
            i <= 7,
            s == cards_of(cards@),
            out@ == s.take(i as int).filter(|c: Card| rank_value_of(c.rank) as int == v as int),
        decreases 7 - i,
    {
        let c: &Card = cards[i];
        proof {
            assert(*c == s[i as int]);
            lemma_filter_take_step(s, |c: Card| rank_value_of(c.rank) as int == v as int, i as int);
        }
        if c.rank_value() == v {
            out.push(*c);
        }
        i = i + 1;
    }
    proof {
        assert(s.take(7) =~= s);
    }
    out
}

/// The cards of suit `u`, in input order.
fn collect_suit_group(cards: &[&Card; 7], u: Suit) -> (out: Vec<Card>)
    ensures
        out@ == group_of_suit(cards_of(cards@), u),
{
    let ghost s = cards_of(cards@);
    let mut out: Vec<Card> = Vec::new();
    proof {
        assert(s.take(0) =~= Seq::<Card>::empty());
        lemma_filter_empty(|c: Card| c.suit == u);
    }
    let mut i: usize = 0;
    while i < 7
        invariant
            i <= 7,
            s == cards_of(cards@),
            out@ == s.take(i as int).filter(|c: Card| c.suit == u),
        decreases 7 - i,
    {
        let c: &Card = cards[i];
        proof {
            assert(*c == s[i as int]);
            lemma_filter_take_step(s, |c: Card| c.suit == u, i as int);
        }
        if c.suit == u {
            out.push(*c);
        }
        i = i + 1;
    }
    proof {
        assert(s.take(7) =~= s);
    }
    out
}

/// A plain element-by-element copy of a card vector.
fn copy_cards(v: &Vec<Card>) -> (out: Vec<Card>)
    ensures
        out@ == v@,
{
    let mut out: Vec<Card> = Vec::new();
    let mut i: usize = 0;
    while i < v.len()
        invariant
            i <= v@.len(),
            out@ == v@.take(i as int),
        decreases v@.len() - i,
    {
        out.push(v[i]);
        proof {
            assert(out@ =~= v@.take(i + 1));
        }
        i = i + 1;
    }
    proof {
        assert(v@.take(v@.len() as int) =~= v@);
    }
    out
}

/// The first suit with five or more cards, in deck-building order.
fn flush_pick(scounts: &Vec<u8>, Ghost(s): Ghost<Seq<Card>>) -> (r: Option<Suit>)
    requires
        scounts@.len() == 4,
        forall|u: int|
            0 <= u < 4 ==> #[trigger] scounts@[u] as nat == count_suit(s, suit_of_index(u)),
    ensures
        r == flush_suit(s),
{
    proof {
        reveal_with_fuel(flush_suit_from, 5);
    }
    if scounts[0] >= 5 {
        Some(Suit::Hearts)
    } else if scounts[1] >= 5 {
        Some(Suit::Diamonds)
    } else if scounts[2] >= 5 {
        Some(Suit::Clubs)
    } else if scounts[3] >= 5 {
        Some(Suit::Spades)
    } else {
        None
    }
}

/// The single best card by rank value, ties broken by suit.
fn best_single_card(cards: &[&Card; 7]) -> (best: Card)
    ensures
        best == top_card(cards_of(cards@)),
{
    let ghost s = cards_of(cards@);
    let mut best: Card = *cards[0];
    proof {
        assert(best == s[0]);
    }
    let mut i: usize = 1;
    while i < 7
        invariant
            1 <= i <= 7,
            s == cards_of(cards@),
            top_card_from(s, i as int, best) == top_card(s),
        decreases 7 - i,
    {
        let c: &Card = cards[i];
        proof {
            assert(*c == s[i as int]);
        }
        let cv = c.rank_value();
        let bv = best.rank_value();
        if cv > bv || (cv == bv && c.suit_value() > best.suit_value()) {
            proof {
                assert(!card_beats(best, s[i as int]));
            }
            best = *c;
        } else {
            proof {
                assert(card_beats(best, s[i as int]));
            }
        }
        i = i + 1;
    }
    best
}

/// Evaluate the best five-card hand reachable from the seven cards.
pub(crate) fn evaluate_best_hand(cards: &[&Card; 7]) -> (ev: HandEvaluation)
    ensures
        eval_ok(cards_of(cards@), ev),
{
    let ghost s = cards_of(cards@);
    let counts = rank_counts7(cards);
    let scounts = suit_counts7(cards);
    let fsuit = flush_pick(&scounts, Ghost(s));
    let straight_opt = find_straight(cards);

    if let Some(sv) = &straight_opt {
        if fsuit.is_some() && cards_are_flush(sv) {
            let highlighted = copy_cards(sv);
            let cs = copy_cards(sv);
            return HandEvaluation {
                rank: HandRank::StraightFlush,
                cards: cs,
                kickers: Vec::new(),
                highlighted_cards: highlighted,
                combination_type: String::from_str("Straight Flush"),
            };
        }
    }
    proof {
        assert(spec_eval_rank(s) != HandRank::StraightFlush);
    }

    let top4 = top_with(&counts, 4, Ghost(s));
    if top4 != 0 {
        let group = collect_rank_group(cards, top4);
        let cs = copy_cards(&group);
        return HandEvaluation {
            rank: HandRank::FourOfAKind,
            cards: cs,
            kickers: Vec::new(),
            highlighted_cards: group,
            combination_type: String::from_str("Four of a Kind"),
        };
    }

    let top3 = top_with(&counts, 3, Ghost(s));
    let top2 = top_with(&counts, 2, Ghost(s));
    if top3 != 0 && top2 != 0 {
        let mut highlighted = collect_rank_group(cards, top3);
        let mut pair_group = collect_rank_group(cards, top2);
        highlighted.append(&mut pair_group);
        let cs = copy_cards(&highlighted);
        return HandEvaluation {
            rank: HandRank::FullHouse,
            cards: cs,
            kickers: Vec::new(),
            highlighted_cards: highlighted,
            combination_type: String::from_str("Full House"),
        };
    }

    if let Some(u) = fsuit {
        let group = collect_suit_group(cards, u);
        let cs = copy_cards(&group);
        return HandEvaluation {
            rank: HandRank::Flush,
            cards: cs,
            kickers: Vec::new(),
            highlighted_cards: group,
            combination_type: String::from_str("Flush"),
        };
    }

    if let Some(sv) = straight_opt {
        let cs = copy_cards(&sv);
        return HandEvaluation {
            rank: HandRank::Straight,
            cards: cs,
            kickers: Vec::new(),
            highlighted_cards: sv,
            combination_type: String::from_str("Straight"),
        };
    }

    if top3 != 0 {
        let group = collect_rank_group(cards, top3);
        let cs = copy_cards(&group);
        return HandEvaluation {
            rank: HandRank::ThreeOfAKind,
            cards: cs,
            kickers: Vec::new(),
            highlighted_cards: group,
            combination_type: String::from_str("Three of a Kind"),
        };
    }

    if top2 != 0 {
        let second = top_with_below(&counts, 2, top2, Ghost(s));
        if second != 0 {
            let mut highlighted = collect_rank_group(cards, top2);
            let mut second_group = collect_rank_group(cards, second);
            highlighted.append(&mut second_group);
            let cs = copy_cards(&highlighted);
            return HandEvaluation {
                rank: HandRank::TwoPair,
                cards: cs,
                kickers: Vec::new(),
                highlighted_cards: highlighted,
                combination_type: String::from_str("Two Pair"),
            };
        }
        let group = collect_rank_group(cards, top2);
        let cs = copy_cards(&group);
        return HandEvaluation {
            rank: HandRank::Pair,
            cards: cs,
            kickers: Vec::new(),
            highlighted_cards: group,
            combination_type: String::from_str("Pair"),
        };
    }

    let best = best_single_card(cards);
    let mut highlighted: Vec<Card> = Vec::new();
    highlighted.push(best);
    let mut cs: Vec<Card> = Vec::new();
    cs.push(best);
    proof {
        assert(highlighted@ =~= seq![top_card(s)]);
        assert(cs@ =~= seq![top_card(s)]);
    }
    HandEvaluation {
        rank: HandRank::HighCard,
        cards: cs,
        kickers: Vec::new(),
        highlighted_cards: highlighted,
        combination_type: String::from_str("High Card"),
    }
}

/// The highest rank value strictly below `bound` whose group has exactly
/// `n` members, or 0.
fn top_with_below(counts: &Vec<u8>, n: u8, bound: u8, Ghost(s): Ghost<Seq<Card>>) -> (r: u8)
    requires
        counts@.len() == 15,
        2 <= bound <= 14,
        forall|v: int| 0 <= v < 15 ==> #[trigger] counts@[v] as nat == count_rank(s, v),
    ensures
        r as int == top_with_count_from(s, n as nat, bound - 1),
        r == 0 || 2 <= r < bound,
{
    if bound == 2 {
        return 0;
    }
    let mut v: u8 = bound - 1;
    while v >= 2
        invariant
            2 < bound <= 14,
            1 <= v <= bound - 1,
            counts@.len() == 15,
            forall|w: int| 0 <= w < 15 ==> #[trigger] counts@[w] as nat == count_rank(s, w),
            top_with_count_from(s, n as nat, bound - 1) == top_with_count_from(
                s,
                n as nat,
                v as int,
            ),
        decreases v,
    {
        if counts[v as usize] == n {
            return v;
        }
        v = v - 1;
    }
    0
}

/// Some element of `rs` equals `v`.
pub open spec fn has_val(rs: Seq<u8>, v: int) -> bool {
    exists|i: int| 0 <= i < rs.len() && (#[trigger] rs[i]) as int == v
}

/// Five consecutive values starting at `lo`, each present in `rs`.
pub open spec fn run_vals(rs: Seq<u8>, lo: int) -> bool {
    &&& has_val(rs, lo)
    &&& has_val(rs, lo + 1)
    &&& has_val(rs, lo + 2)
    &&& has_val(rs, lo + 3)
    &&& has_val(rs, lo + 4)
}

/// What the wheel-aware straight test recognises: an ace-high-style run, or
/// the ace-low wheel A-2-3-4-5.
pub open spec fn spec_is_straight(rs: Seq<u8>) -> bool {
    ||| exists|lo: int| 2 <= lo <= 10 && #[trigger] run_vals(rs, lo)
    ||| (has_val(rs, 14) && has_val(rs, 2) && has_val(rs, 3) && has_val(rs, 4) && has_val(rs, 5))
}

/// Whether the rank values form one unbroken ascending run of five or more.
pub fn is_consecutive(ranks: &Vec<u8>) -> (b: bool)
    ensures
        b == (ranks@.len() >= 5 && forall|i: int|
            1 <= i < ranks@.len() ==> (#[trigger] ranks@[i]) as int == ranks@[i - 1] as int + 1),
{
    if ranks.len() < 5 {
        return false;
    }
    let mut i: usize = 1;
    while i < ranks.len()
        invariant
            1 <= i <= ranks@.len(),
            ranks@.len() >= 5,
            forall|j: int| 1 <= j < i ==> (#[trigger] ranks@[j]) as int == ranks@[j - 1] as int + 1,
        decreases ranks@.len() - i,
    {
        let prev = ranks[i - 1];
        let cur = ranks[i];
        if prev == 255 || cur != prev + 1 {
            return false;
        }
        i = i + 1;
    }
    true
}

/// Whether the rank values hold any straight, counting the ace-low wheel.
/// This sits beside the evaluator's own ace-high-only straight search and is
/// deliberately not used by it.
pub fn is_straight(ranks: &Vec<u8>) -> (b: bool)
    requires
        forall|i: int| 0 <= i < ranks@.len() ==> 2 <= (#[trigger] ranks@[i]) <= 14,
    ensures
        b == spec_is_straight(ranks@),
{
    let mut flags: Vec<bool> = vec![false; 15];
    let mut i: usize = 0;
    while i < ranks.len()
        invariant
            i <= ranks@.len(),
            flags@.len() == 15,
            forall|j: int| 0 <= j < ranks@.len() ==> 2 <= (#[trigger] ranks@[j]) <= 14,
            forall|v: int|
                0 <= v < 15 ==> (#[trigger] flags@[v] == exists|j: int|
                    0 <= j < i && (#[trigger] ranks@[j]) as int == v),
        decreases ranks@.len() - i,
    {
        let v = ranks[i];
        flags[v as usize] = true;
        proof {
            assert(ranks@[i as int] as int == v as int);
            assert forall|w: int|
                0 <= w < 15 implies (#[trigger] flags@[w] == exists|j: int|
                0 <= j < i + 1 && (#[trigger] ranks@[j]) as int == w) by {
                if w == v as int {
                    assert(ranks@[i as int] as int == w);
                } else {
                    assert((exists|j: int| 0 <= j < i + 1 && (#[trigger] ranks@[j]) as int == w)
                        == (exists|j: int| 0 <= j < i && (#[trigger] ranks@[j]) as int == w));
                }
            }
        }
        i = i + 1;
    }
    proof {
        assert forall|v: int| 0 <= v < 15 implies (#[trigger] flags@[v] == has_val(ranks@, v)) by {
        }
        assert forall|v: int| !(0 <= v < 15) implies !has_val(ranks@, v) by {
        }
    }
    let mut lo: usize = 2;
    while lo <= 10
        invariant
            2 <= lo <= 11,
            flags@.len() == 15,
            forall|v: int| 0 <= v < 15 ==> (#[trigger] flags@[v] == has_val(ranks@, v)),
            forall|m: int| 2 <= m < lo ==> !(#[trigger] run_vals(ranks@, m)),
        decreases 11 - lo,
    {
        if flags[lo] && flags[lo + 1] && flags[lo + 2] && flags[lo + 3] && flags[lo + 4] {
            proof {
                assert(run_vals(ranks@, lo as int));
            }
            return true;
        }
        lo = lo + 1;
    }
    if flags[14] && flags[2] && flags[3] && flags[4] && flags[5] {
        return true;
    }
    proof {
        assert(!spec_is_straight(ranks@));
    }
    false
}

} // verus!
