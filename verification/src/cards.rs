//! The card model: suits, ranks with their numeric values, cards, and the
//! 52-card deck in its creation order.

use vstd::prelude::*;

verus! {

#[derive(Clone, Copy, Debug, PartialEq, Eq, Hash, Structural)]
pub enum Suit {
    Hearts,
    Diamonds,
    Clubs,
    Spades,
}

#[derive(Clone, Copy, Debug, PartialEq, Eq, Hash, PartialOrd, Ord, Structural)]
pub enum Rank {
    R2,
    R3,
    R4,
    R5,
    R6,
    R7,
    R8,
    R9,
    R10,
    J,
    Q,
    K,
    A,
}

#[derive(Clone, Copy, Debug, PartialEq, Eq, Hash, Structural)]
pub struct Card {
    pub suit: Suit,
    pub rank: Rank,
}

/// The numeric value of a rank: 2 through 10 for the number cards, then
/// 11 (Jack), 12 (Queen), 13 (King), 14 (Ace). Ace is high only.
pub open spec fn rank_value_of(r: Rank) -> u8 {
    match r {
        Rank::R2 => 2,
        Rank::R3 => 3,
        Rank::R4 => 4,
        Rank::R5 => 5,
        Rank::R6 => 6,
        Rank::R7 => 7,
        Rank::R8 => 8,
        Rank::R9 => 9,
        Rank::R10 => 10,
        Rank::J => 11,
        Rank::Q => 12,
        Rank::K => 13,
        Rank::A => 14,
    }
}

/// Suit order used only to break rank ties when picking the single high card:
/// Spades > Hearts > Diamonds > Clubs.
pub open spec fn suit_value_of(s: Suit) -> u8 {
    match s {
        Suit::Spades => 4,
        Suit::Hearts => 3,
        Suit::Diamonds => 2,
        Suit::Clubs => 1,
    }
}

impl Card {
    pub fn new(suit: Suit, rank: Rank) -> (c: Self)
        ensures
            c == (Card { suit, rank }),
    {
        Self { suit, rank }
    }

    pub fn rank_value(&self) -> (v: u8)
        ensures
            v == rank_value_of(self.rank),
    {
        match self.rank {
            Rank::R2 => 2,
            Rank::R3 => 3,
            Rank::R4 => 4,
            Rank::R5 => 5,
            Rank::R6 => 6,
            Rank::R7 => 7,
            Rank::R8 => 8,
            Rank::R9 => 9,
            Rank::R10 => 10,
            Rank::J => 11,
            Rank::Q => 12,
            Rank::K => 13,
            Rank::A => 14,
        }
    }

    pub fn suit_value(&self) -> (v: u8)
        ensures
            v == suit_value_of(self.suit),
    {
        match self.suit {
            Suit::Spades => 4,
            Suit::Hearts => 3,
            Suit::Diamonds => 2,
            Suit::Clubs => 1,
        }
    }
}

/// Suits in the order the deck is built: Hearts, Diamonds, Clubs, Spades.
pub open spec fn suit_of_index(i: int) -> Suit {
    if i == 0 {
        Suit::Hearts
    } else if i == 1 {
        Suit::Diamonds
    } else if i == 2 {
        Suit::Clubs
    } else {
        Suit::Spades
    }
}

/// Ranks in the order the deck is built: Ace first, then 2 through King.
pub open spec fn rank_of_index(i: int) -> Rank {
    if i == 0 {
        Rank::A
    } else if i == 1 {
        Rank::R2
    } else if i == 2 {
        Rank::R3
    } else if i == 3 {
        Rank::R4
    } else if i == 4 {
        Rank::R5
    } else if i == 5 {
        Rank::R6
    } else if i == 6 {
        Rank::R7
    } else if i == 7 {
        Rank::R8
    } else if i == 8 {
        Rank::R9
    } else if i == 9 {
        Rank::R10
    } else if i == 10 {
        Rank::J
    } else if i == 11 {
        Rank::Q
    } else {
        Rank::K
    }
}

pub open spec fn index_of_suit(s: Suit) -> int {
    match s {
        Suit::Hearts => 0,
        Suit::Diamonds => 1,
        Suit::Clubs => 2,
        Suit::Spades => 3,
    }
}

pub open spec fn index_of_rank(r: Rank) -> int {
    match r {
        Rank::A => 0,
        Rank::R2 => 1,
        Rank::R3 => 2,
        Rank::R4 => 3,
        Rank::R5 => 4,
        Rank::R6 => 5,
        Rank::R7 => 6,
        Rank::R8 => 7,
        Rank::R9 => 8,
        Rank::R10 => 9,
        Rank::J => 10,
        Rank::Q => 11,
        Rank::K => 12,
    }
}

/// The full 52-card deck in creation order: suit-major, each suit holding
/// Ace, 2, ..., 10, Jack, Queen, King.
pub open spec fn full_deck() -> Seq<Card> {
    Seq::new(52, |i: int| Card { suit: suit_of_index(i / 13), rank: rank_of_index(i % 13) })
}

/// Every card appears in the full deck, at the index its suit and rank determine.
pub proof fn lemma_full_deck_contains(c: Card)
    ensures
        full_deck().contains(c),
{
    let i = index_of_suit(c.suit) * 13 + index_of_rank(c.rank);
    assert(full_deck()[i] == c);
}

/// The full deck holds no card twice.
pub proof fn lemma_full_deck_no_duplicates()
    ensures
        full_deck().no_duplicates(),
{
    assert forall|i: int, j: int|
        0 <= i < full_deck().len() && 0 <= j < full_deck().len() && i != j implies full_deck()[i]
        != full_deck()[j] by {
        if i / 13 == j / 13 {
            assert(i % 13 != j % 13);
            assert(rank_of_index(i % 13) != rank_of_index(j % 13));
        } else {
            assert(suit_of_index(i / 13) != suit_of_index(j / 13));
        }
    }
}

/// The full deck is exactly the 52-card set: 52 cards, each (suit, rank)
/// pair occurring exactly once.
pub proof fn lemma_full_deck_each_card_once()
    ensures
        full_deck().len() == 52,
        full_deck().to_multiset().len() == 52,
        forall|c: Card| #[trigger] full_deck().to_multiset().count(c) == 1,
{
    broadcast use vstd::seq_lib::group_to_multiset_ensures;

    lemma_full_deck_no_duplicates();
    full_deck().lemma_multiset_has_no_duplicates();
    assert forall|c: Card| #[trigger] full_deck().to_multiset().count(c) == 1 by {
        lemma_full_deck_contains(c);
        assert(full_deck().to_multiset().count(c) > 0);
    }
}

/// Overwriting one position exchanges the old element for the new one in the
/// multiset view.
pub proof fn lemma_update_multiset<A>(s: Seq<A>, i: int, x: A)
    requires
        0 <= i < s.len(),
    ensures
        s.update(i, x).to_multiset() =~= s.to_multiset().remove(s[i]).insert(x),
{
    broadcast use vstd::seq_lib::group_to_multiset_ensures;
    broadcast use vstd::multiset::group_multiset_axioms;

    let t = s.update(i, x);
    assert(t.remove(i) =~= s.remove(i));
    assert(t.remove(i).to_multiset() == t.to_multiset().remove(x));
    assert(s.remove(i).to_multiset() == s.to_multiset().remove(s[i]));
    assert(t.contains(x)) by {
        assert(t[i] == x);
    }
    assert(t.to_multiset().count(x) > 0);
    assert forall|y: A|
        t.to_multiset().count(y) == s.to_multiset().remove(s[i]).insert(x).count(y) by {
        if y == x {
            assert(t.to_multiset().remove(x).count(x) == t.to_multiset().count(x) - 1);
        } else {
            assert(t.to_multiset().remove(x).count(y) == t.to_multiset().count(y));
        }
    }
}

/// Swapping two positions leaves the multiset of elements unchanged.
pub proof fn lemma_swap_multiset<A>(s: Seq<A>, i: int, j: int)
    requires
        0 <= i < s.len(),
        0 <= j < s.len(),
    ensures
        s.update(i, s[j]).update(j, s[i]).to_multiset() =~= s.to_multiset(),
{
    broadcast use vstd::seq_lib::group_to_multiset_ensures;
    broadcast use vstd::multiset::group_multiset_axioms;

    if i == j {
        assert(s.update(i, s[j]).update(j, s[i]) =~= s);
    } else {
        let s1 = s.update(i, s[j]);
        let t = s1.update(j, s[i]);
        lemma_update_multiset(s, i, s[j]);
        lemma_update_multiset(s1, j, s[i]);
        assert(s1[j] == s[j]);
        assert(s.contains(s[i])) by {
            assert(s[i] == s[i]);
        }
        assert(s.to_multiset().count(s[i]) > 0);
        assert forall|y: A| t.to_multiset().count(y) == s.to_multiset().count(y) by {
            assert(t.to_multiset() =~= s1.to_multiset().remove(s[j]).insert(s[i]));
            assert(s1.to_multiset() =~= s.to_multiset().remove(s[i]).insert(s[j]));
        }
    }
}

} // verus!
