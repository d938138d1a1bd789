use holdem::cards::{Card, Rank, Suit};
use holdem::engine::{GameStage, GameState, LogKind, PlayerAction};
use holdem::text::u32_string;

#[test]
fn a_fresh_deck_has_fifty_two_cards_in_creation_order() {
    let deck = GameState::create_deck();
    assert_eq!(deck.len(), 52);
    assert_eq!(deck[0], Card::new(Suit::Hearts, Rank::A));
    assert_eq!(deck[1], Card::new(Suit::Hearts, Rank::R2));
    assert_eq!(deck[13], Card::new(Suit::Diamonds, Rank::A));
    assert_eq!(deck[51], Card::new(Suit::Spades, Rank::K));
}

#[test]
fn shuffling_keeps_every_card() {
    let mut deck = GameState::create_deck();
    GameState::shuffle_deck(&mut deck);
    assert_eq!(deck.len(), 52);
    for suit in [Suit::Hearts, Suit::Diamonds, Suit::Clubs, Suit::Spades] {
        for rank in [
            Rank::A,
            Rank::R2,
            Rank::R3,
            Rank::R4,
            Rank::R5,
            Rank::R6,
            Rank::R7,
            Rank::R8,
            Rank::R9,
            Rank::R10,
            Rank::J,
            Rank::Q,
            Rank::K,
        ] {
            assert_eq!(
                deck.iter().filter(|c| c.suit == suit && c.rank == rank).count(),
                1
            );
        }
    }
}

#[test]
fn a_new_game_is_dealt_to_preflop() {
    let g = GameState::new();
    assert_eq!(g.stage, GameStage::PreFlop);
    assert_eq!(g.hole_cards.len(), 2);
    assert_eq!(g.deck.len(), 50);
    assert_eq!(g.board.len(), 0);
    assert_eq!(g.burned_cards.len(), 0);
    assert_eq!(g.pot, 0);
    assert!(g.hand_evaluation.is_none());
    assert_eq!(g.game_id.len(), 36);
}

#[test]
fn dealing_hole_cards_takes_the_top_two() {
    let mut g = GameState::new();
    g.hole_cards.clear();
    g.stage = GameStage::Deal;
    let n = g.deck.len();
    let top = g.deck[n - 1];
    let under = g.deck[n - 2];
    g.deal_hole_cards().unwrap();
    assert_eq!(g.hole_cards, vec![top, under]);
    assert_eq!(g.deck.len(), n - 2);
    assert_eq!(g.stage, GameStage::PreFlop);
    let last = g.logs.last().unwrap();
    assert!(matches!(last.kind, LogKind::Tip));
}

#[test]
fn dealing_from_a_short_deck_fails_without_changes() {
    let mut g = GameState::new();
    g.deck.truncate(1);
    let before_len = g.hole_cards.len();
    assert!(g.deal_hole_cards().is_err());
    assert_eq!(g.hole_cards.len(), before_len);
    assert_eq!(g.deck.len(), 1);
}

#[test]
fn a_call_at_preflop_runs_the_board_out() {
    let mut g = GameState::new();
    let deck_before = g.deck.clone();
    let n = deck_before.len();
    g.player_action(PlayerAction::Call).unwrap();
    assert_eq!(g.stage, GameStage::Showdown);
    assert_eq!(g.board.len(), 5);
    assert_eq!(g.burned_cards.len(), 3);
    assert_eq!(g.deck.len(), n - 8);
    assert_eq!(g.board[0], deck_before[3]);
    assert_eq!(g.board[1], deck_before[4]);
    assert_eq!(g.board[2], deck_before[5]);
    assert_eq!(g.board[3], deck_before[6]);
    assert_eq!(g.board[4], deck_before[7]);
    assert_eq!(&g.burned_cards[..], &deck_before[0..3]);
    assert!(g.hand_evaluation.is_some());
}

#[test]
fn a_call_after_preflop_is_rejected() {
    let mut g = GameState::new();
    g.stage = GameStage::Showdown;
    assert!(g.player_action(PlayerAction::Call).is_err());
    assert!(g.player_action(PlayerAction::Raise).is_err());
}

#[test]
fn folding_ends_the_hand() {
    let mut g = GameState::new();
    g.player_action(PlayerAction::Fold).unwrap();
    assert_eq!(g.stage, GameStage::Folded);
}

#[test]
fn folding_on_the_flop_burns_the_rest_of_the_hand() {
    let mut g = GameState::new();
    g.stage = GameStage::Flop;
    let n = g.deck.len();
    g.player_action(PlayerAction::Fold).unwrap();
    assert_eq!(g.stage, GameStage::Folded);
    assert_eq!(g.deck.len(), n - 5);
    assert_eq!(g.burned_cards.len(), 5);
}

#[test]
fn reset_rebuilds_a_shuffled_full_deck() {
    let mut g = GameState::new();
    g.player_action(PlayerAction::Call).unwrap();
    g.reset_game();
    assert_eq!(g.stage, GameStage::PreFlop);
    assert_eq!(g.hole_cards.len(), 2);
    assert_eq!(g.deck.len(), 50);
    assert_eq!(g.board.len(), 0);
    assert_eq!(g.burned_cards.len(), 0);
    let mut all: Vec<Card> = g.deck.clone();
    all.extend(g.hole_cards.iter().cloned());
    assert_eq!(all.len(), 52);
    for suit in [Suit::Hearts, Suit::Diamonds, Suit::Clubs, Suit::Spades] {
        assert_eq!(all.iter().filter(|c| c.suit == suit).count(), 13);
    }
}

#[test]
fn decimal_rendering_is_exact() {
    assert_eq!(u32_string(0), "0");
    assert_eq!(u32_string(7), "7");
    assert_eq!(u32_string(10), "10");
    assert_eq!(u32_string(33), "33");
    assert_eq!(u32_string(100), "100");
    assert_eq!(u32_string(4294967295), "4294967295");
}
