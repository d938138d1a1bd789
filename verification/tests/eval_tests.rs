use holdem::cards::{Card, Rank, Suit};
use holdem::engine::GameState;
use holdem::eval::{is_consecutive, is_straight, HandRank};

fn c(suit: Suit, rank: Rank) -> Card {
    Card::new(suit, rank)
}

fn eval7(cards: [Card; 7]) -> holdem::eval::HandEvaluation {
    GameState::evaluate_best_hand_public([
        &cards[0], &cards[1], &cards[2], &cards[3], &cards[4], &cards[5], &cards[6],
    ])
}

#[test]
fn royal_cards_make_a_straight_flush() {
    let ev = eval7([
        c(Suit::Spades, Rank::A),
        c(Suit::Spades, Rank::K),
        c(Suit::Spades, Rank::Q),
        c(Suit::Spades, Rank::J),
        c(Suit::Spades, Rank::R10),
        c(Suit::Hearts, Rank::R2),
        c(Suit::Diamonds, Rank::R3),
    ]);
    assert_eq!(ev.rank, HandRank::StraightFlush);
    assert_eq!(ev.combination_type, "Straight Flush");
    assert_eq!(ev.highlighted_cards.len(), 5);
    for rank in [Rank::A, Rank::K, Rank::Q, Rank::J, Rank::R10] {
        assert!(ev
            .highlighted_cards
            .iter()
            .any(|x| x.rank == rank && x.suit == Suit::Spades));
    }
}

#[test]
fn four_twos_make_four_of_a_kind() {
    let ev = eval7([
        c(Suit::Hearts, Rank::R2),
        c(Suit::Diamonds, Rank::R2),
        c(Suit::Clubs, Rank::R2),
        c(Suit::Spades, Rank::R2),
        c(Suit::Hearts, Rank::R5),
        c(Suit::Diamonds, Rank::R6),
        c(Suit::Clubs, Rank::R7),
    ]);
    assert_eq!(ev.rank, HandRank::FourOfAKind);
    assert_eq!(ev.combination_type, "Four of a Kind");
    assert_eq!(ev.highlighted_cards.len(), 4);
    assert!(ev.highlighted_cards.iter().all(|x| x.rank == Rank::R2));
}

#[test]
fn nines_over_fours_make_a_full_house() {
    let ev = eval7([
        c(Suit::Hearts, Rank::R4),
        c(Suit::Diamonds, Rank::R4),
        c(Suit::Clubs, Rank::R9),
        c(Suit::Spades, Rank::R9),
        c(Suit::Hearts, Rank::R9),
        c(Suit::Diamonds, Rank::K),
        c(Suit::Clubs, Rank::R2),
    ]);
    assert_eq!(ev.rank, HandRank::FullHouse);
    assert_eq!(ev.combination_type, "Full House");
    assert_eq!(ev.highlighted_cards.len(), 5);
    assert_eq!(
        ev.highlighted_cards.iter().filter(|x| x.rank == Rank::R9).count(),
        3
    );
    assert_eq!(
        ev.highlighted_cards.iter().filter(|x| x.rank == Rank::R4).count(),
        2
    );
}

#[test]
fn jack_high_is_a_high_card_with_the_jack_highlighted() {
    let ev = eval7([
        c(Suit::Hearts, Rank::R2),
        c(Suit::Diamonds, Rank::R3),
        c(Suit::Clubs, Rank::R4),
        c(Suit::Spades, Rank::R5),
        c(Suit::Hearts, Rank::R7),
        c(Suit::Diamonds, Rank::R9),
        c(Suit::Clubs, Rank::J),
    ]);
    assert_eq!(ev.rank, HandRank::HighCard);
    assert_eq!(ev.combination_type, "High Card");
    assert_eq!(ev.highlighted_cards.len(), 1);
    assert_eq!(ev.highlighted_cards[0].rank, Rank::J);
    assert_eq!(ev.highlighted_cards[0].suit, Suit::Clubs);
}

#[test]
fn flush_beats_straight_detection_order() {
    let ev = eval7([
        c(Suit::Hearts, Rank::R2),
        c(Suit::Hearts, Rank::R5),
        c(Suit::Hearts, Rank::R7),
        c(Suit::Hearts, Rank::R9),
        c(Suit::Hearts, Rank::J),
        c(Suit::Diamonds, Rank::K),
        c(Suit::Clubs, Rank::A),
    ]);
    assert_eq!(ev.rank, HandRank::Flush);
    assert_eq!(ev.highlighted_cards.len(), 5);
    assert!(ev.highlighted_cards.iter().all(|x| x.suit == Suit::Hearts));
}

#[test]
fn mixed_suit_run_is_a_straight() {
    let ev = eval7([
        c(Suit::Hearts, Rank::R5),
        c(Suit::Diamonds, Rank::R6),
        c(Suit::Clubs, Rank::R7),
        c(Suit::Spades, Rank::R8),
        c(Suit::Hearts, Rank::R9),
        c(Suit::Diamonds, Rank::R2),
        c(Suit::Clubs, Rank::K),
    ]);
    assert_eq!(ev.rank, HandRank::Straight);
    assert_eq!(ev.combination_type, "Straight");
    let mut vals: Vec<u8> = ev.highlighted_cards.iter().map(|x| x.rank_value()).collect();
    vals.sort();
    assert_eq!(vals, vec![5, 6, 7, 8, 9]);
}

#[test]
fn two_pair_takes_the_two_highest_pairs() {
    let ev = eval7([
        c(Suit::Hearts, Rank::R3),
        c(Suit::Diamonds, Rank::R3),
        c(Suit::Clubs, Rank::R8),
        c(Suit::Spades, Rank::R8),
        c(Suit::Hearts, Rank::Q),
        c(Suit::Diamonds, Rank::Q),
        c(Suit::Clubs, Rank::R2),
    ]);
    assert_eq!(ev.rank, HandRank::TwoPair);
    assert_eq!(ev.highlighted_cards.len(), 4);
    assert_eq!(
        ev.highlighted_cards.iter().filter(|x| x.rank == Rank::Q).count(),
        2
    );
    assert_eq!(
        ev.highlighted_cards.iter().filter(|x| x.rank == Rank::R8).count(),
        2
    );
}

#[test]
fn single_pair_is_found() {
    let ev = eval7([
        c(Suit::Hearts, Rank::R6),
        c(Suit::Diamonds, Rank::R6),
        c(Suit::Clubs, Rank::R2),
        c(Suit::Spades, Rank::R9),
        c(Suit::Hearts, Rank::J),
        c(Suit::Diamonds, Rank::K),
        c(Suit::Clubs, Rank::A),
    ]);
    assert_eq!(ev.rank, HandRank::Pair);
    assert_eq!(ev.highlighted_cards.len(), 2);
    assert!(ev.highlighted_cards.iter().all(|x| x.rank == Rank::R6));
}

#[test]
fn three_of_a_kind_is_found() {
    let ev = eval7([
        c(Suit::Hearts, Rank::R7),
        c(Suit::Diamonds, Rank::R7),
        c(Suit::Clubs, Rank::R7),
        c(Suit::Spades, Rank::R2),
        c(Suit::Hearts, Rank::R9),
        c(Suit::Diamonds, Rank::J),
        c(Suit::Clubs, Rank::A),
    ]);
    assert_eq!(ev.rank, HandRank::ThreeOfAKind);
    assert_eq!(ev.highlighted_cards.len(), 3);
    assert!(ev.highlighted_cards.iter().all(|x| x.rank == Rank::R7));
}

#[test]
fn the_evaluator_does_not_count_the_wheel() {
    let ev = eval7([
        c(Suit::Hearts, Rank::A),
        c(Suit::Diamonds, Rank::R2),
        c(Suit::Clubs, Rank::R3),
        c(Suit::Spades, Rank::R4),
        c(Suit::Hearts, Rank::R5),
        c(Suit::Diamonds, Rank::R9),
        c(Suit::Clubs, Rank::K),
    ]);
    assert_eq!(ev.rank, HandRank::HighCard);
}

#[test]
fn the_side_helper_does_count_the_wheel() {
    let vals: Vec<u8> = vec![14, 2, 3, 4, 5, 9, 13];
    assert!(is_straight(&vals));
    let no_straight: Vec<u8> = vec![14, 2, 3, 4, 9, 10, 13];
    assert!(!is_straight(&no_straight));
    let ace_high: Vec<u8> = vec![10, 11, 12, 13, 14];
    assert!(is_straight(&ace_high));
}

#[test]
fn consecutive_check_needs_five_and_no_gaps() {
    assert!(is_consecutive(&vec![4, 5, 6, 7, 8]));
    assert!(!is_consecutive(&vec![4, 5, 6, 7]));
    assert!(!is_consecutive(&vec![4, 5, 6, 8, 9]));
}
