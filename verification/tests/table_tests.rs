use holdem::bot::{decide, BotDecisionRequest, BotDecisionResponse};
use holdem::cards::{Card, Rank, Suit};
use holdem::engine::{GameStage, PlayerAction};
use holdem::eval::HandRank;
use holdem::table::{
    compute_bot_delay_ms, do_showdown_award, hand_rank_value, new_table_from_cfg,
    simple_bot_decision, Difficulty, TableAction, TableConfigRequest, TableStage,
    TableStateServer,
};

fn cfg(num_bots: u32) -> TableConfigRequest {
    TableConfigRequest {
        small_blind: 10,
        big_blind: 20,
        num_bots,
        starting_chips: 1000,
        difficulty: Some(Difficulty::Easy),
        time_limit_seconds: Some(15),
    }
}

fn chips_sum(t: &TableStateServer) -> u64 {
    t.players.iter().map(|p| p.chips as u64).sum()
}

#[test]
fn a_fresh_table_waits_at_the_dealer_draw() {
    let t = new_table_from_cfg(&cfg(3));
    assert_eq!(t.players.len(), 4);
    assert_eq!(t.stage, TableStage::DealerDraw);
    assert_eq!(t.deck.len(), 52);
    assert_eq!(t.pot, 0);
    assert_eq!(t.dealer_index, -1);
    assert_eq!(t.small_blind_index, -1);
    assert_eq!(t.big_blind_index, -1);
    assert_eq!(t.hand_number, 1);
    assert!(t.players[0].is_hero);
    assert_eq!(t.players[0].name, "You");
    assert_eq!(t.players[1].name, "Bot 1");
    assert_eq!(t.players[3].name, "Bot 3");
    for (i, p) in t.players.iter().enumerate() {
        assert_eq!(p.chips, 1000);
        assert_eq!(p.seat_index, i as i32);
        assert!(p.hole_cards.is_empty());
    }
}

#[test]
fn more_than_ten_bots_are_clamped() {
    let t = new_table_from_cfg(&cfg(25));
    assert_eq!(t.players.len(), 11);
}

#[test]
fn leaving_the_dealer_draw_posts_blinds_and_deals() {
    let mut t = new_table_from_cfg(&cfg(3));
    t.advance_street();
    assert_eq!(t.stage, TableStage::PreFlop);
    assert_eq!(t.dealer_index, 0);
    assert_eq!(t.small_blind_index, 1);
    assert_eq!(t.big_blind_index, 2);
    assert_eq!(t.current_player_index, 3);
    assert_eq!(t.players[1].bet, 10);
    assert_eq!(t.players[1].chips, 990);
    assert_eq!(t.players[2].bet, 20);
    assert_eq!(t.players[2].chips, 980);
    assert_eq!(t.pot, 30);
    assert_eq!(t.current_bet, 20);
    assert_eq!(t.deck.len(), 52 - 8);
    for p in &t.players {
        assert_eq!(p.hole_cards.len(), 2);
    }
    assert_eq!(chips_sum(&t) + t.pot as u64, 4000);
}

#[test]
fn out_of_turn_actions_are_ignored() {
    let mut t = new_table_from_cfg(&cfg(3));
    t.advance_street();
    let pot = t.pot;
    let chips = t.players[1].chips;
    let sched = t.apply_action(1, TableAction::Call, None);
    assert!(!sched);
    assert_eq!(t.pot, pot);
    assert_eq!(t.players[1].chips, chips);
    assert_eq!(t.current_player_index, 3);
}

#[test]
fn an_uncontested_fold_awards_the_pot_at_once() {
    let mut t = new_table_from_cfg(&cfg(1));
    t.advance_street();
    assert_eq!(t.small_blind_index, 1);
    assert_eq!(t.big_blind_index, 0);
    assert_eq!(t.current_player_index, 1);
    assert_eq!(t.pot, 30);
    t.apply_action(1, TableAction::Fold, None);
    assert_eq!(t.stage, TableStage::Showdown);
    assert_eq!(t.players[0].chips, 1000 - 20 + 30);
    assert_eq!(t.players[1].chips, 990);
    assert!(t.bot_pending_index.is_none());
    assert_eq!(chips_sum(&t), 2000);
    let chips0 = t.players[0].chips;
    let pot = t.pot;
    t.apply_action(1, TableAction::Call, None);
    assert_eq!(t.players[0].chips, chips0);
    assert_eq!(t.pot, pot);
    assert_eq!(t.stage, TableStage::Showdown);
}

#[test]
fn a_settled_round_closes_exactly_once() {
    let mut t = new_table_from_cfg(&cfg(1));
    t.advance_street();
    assert_eq!(t.stage, TableStage::PreFlop);
    let sched = t.apply_action(1, TableAction::Call, None);
    assert!(!sched);
    assert_eq!(t.stage, TableStage::PreFlop);
    assert_eq!(t.current_player_index, 0);
    assert_eq!(t.players[1].bet, 20);
    t.apply_action(0, TableAction::Check, None);
    assert_eq!(t.stage, TableStage::Flop);
    assert_eq!(t.board.len(), 3);
    assert_eq!(t.burned.len(), 1);
    assert_eq!(t.current_bet, 0);
    assert!(t.players.iter().all(|p| p.bet == 0));
    assert!(t.last_raiser_index.is_none());
    assert_eq!(chips_sum(&t) + t.pot as u64, 2000);
}

#[test]
fn a_raise_never_closes_the_round_that_it_opens() {
    let mut t = new_table_from_cfg(&cfg(1));
    t.advance_street();
    t.apply_action(1, TableAction::Raise, Some(60));
    assert_eq!(t.stage, TableStage::PreFlop);
    assert_eq!(t.current_bet, 60);
    assert_eq!(t.last_raiser_index, Some(1));
    assert_eq!(t.current_player_index, 0);
    t.apply_action(0, TableAction::Call, None);
    assert_eq!(t.stage, TableStage::Flop);
    assert_eq!(chips_sum(&t) + t.pot as u64, 2000);
}

#[test]
fn a_tied_showdown_splits_the_pot_with_the_remainder_first() {
    let mut t = new_table_from_cfg(&cfg(3));
    t.stage = TableStage::River;
    t.pot = 100;
    t.board = vec![
        Card::new(Suit::Spades, Rank::A),
        Card::new(Suit::Diamonds, Rank::K),
        Card::new(Suit::Clubs, Rank::R8),
        Card::new(Suit::Hearts, Rank::R3),
        Card::new(Suit::Spades, Rank::R2),
    ];
    t.players[0].hole_cards = vec![
        Card::new(Suit::Hearts, Rank::R4),
        Card::new(Suit::Clubs, Rank::R5),
    ];
    t.players[1].hole_cards = vec![
        Card::new(Suit::Diamonds, Rank::R4),
        Card::new(Suit::Clubs, Rank::R6),
    ];
    t.players[2].hole_cards = vec![
        Card::new(Suit::Spades, Rank::R5),
        Card::new(Suit::Diamonds, Rank::R7),
    ];
    t.players[3].has_folded = true;
    do_showdown_award(&mut t);
    assert_eq!(t.players[0].chips, 1034);
    assert_eq!(t.players[1].chips, 1033);
    assert_eq!(t.players[2].chips, 1033);
    assert_eq!(t.players[3].chips, 1000);
}

#[test]
fn the_best_hand_takes_the_whole_pot() {
    let mut t = new_table_from_cfg(&cfg(2));
    t.stage = TableStage::River;
    t.pot = 90;
    t.board = vec![
        Card::new(Suit::Spades, Rank::R9),
        Card::new(Suit::Diamonds, Rank::R9),
        Card::new(Suit::Clubs, Rank::R4),
        Card::new(Suit::Hearts, Rank::J),
        Card::new(Suit::Spades, Rank::R2),
    ];
    t.players[0].hole_cards = vec![
        Card::new(Suit::Hearts, Rank::R9),
        Card::new(Suit::Clubs, Rank::R3),
    ];
    t.players[1].hole_cards = vec![
        Card::new(Suit::Diamonds, Rank::R5),
        Card::new(Suit::Clubs, Rank::R6),
    ];
    t.players[2].hole_cards = vec![
        Card::new(Suit::Spades, Rank::K),
        Card::new(Suit::Diamonds, Rank::Q),
    ];
    do_showdown_award(&mut t);
    assert_eq!(t.players[0].chips, 1090);
    assert_eq!(t.players[1].chips, 1000);
    assert_eq!(t.players[2].chips, 1000);
}

#[test]
fn reset_starts_the_next_hand_and_rotates_the_dealer() {
    let mut t = new_table_from_cfg(&cfg(2));
    t.advance_street();
    t.apply_action(t.current_player_index as usize, TableAction::Fold, None);
    let sum_before = chips_sum(&t);
    t.reset_hand();
    assert_eq!(t.stage, TableStage::DealerDraw);
    assert_eq!(t.hand_number, 2);
    assert_eq!(t.pot, 0);
    assert_eq!(t.current_bet, 0);
    assert_eq!(t.dealer_index, 1);
    assert_eq!(t.small_blind_index, -1);
    assert_eq!(t.big_blind_index, -1);
    assert_eq!(t.current_player_index, 0);
    assert_eq!(chips_sum(&t), sum_before);
    for p in &t.players {
        assert_eq!(p.bet, 0);
        assert!(!p.has_folded);
        assert!(p.hole_cards.is_empty());
    }
}

#[test]
fn a_full_hand_conserves_cards_and_chips() {
    let mut t = new_table_from_cfg(&cfg(1));
    t.advance_street();
    t.apply_action(1, TableAction::Call, None);
    t.apply_action(0, TableAction::Check, None);
    assert_eq!(t.stage, TableStage::Flop);
    for expected in [TableStage::Turn, TableStage::River, TableStage::Showdown] {
        t.apply_action(1, TableAction::Check, None);
        t.apply_action(0, TableAction::Check, None);
        assert_eq!(t.stage, expected);
    }
    assert_eq!(t.board.len(), 5);
    assert_eq!(t.burned.len(), 3);
    let mut all: Vec<Card> = t.deck.clone();
    all.extend(t.board.iter().cloned());
    all.extend(t.burned.iter().cloned());
    for p in &t.players {
        all.extend(p.hole_cards.iter().cloned());
    }
    assert_eq!(all.len(), 52);
    for suit in [Suit::Hearts, Suit::Diamonds, Suit::Clubs, Suit::Spades] {
        assert_eq!(all.iter().filter(|card| card.suit == suit).count(), 13);
    }
    assert_eq!(chips_sum(&t), 2000);
    assert!(t.bot_pending_index.is_none());
}

#[test]
fn players_are_found_by_identifier() {
    let t = new_table_from_cfg(&cfg(2));
    let id = t.players[1].id.clone();
    assert_eq!(t.find_player(&id), Some(1));
    assert_eq!(t.find_player(&String::from("missing")), None);
}

#[test]
fn category_strengths_are_ordered() {
    assert_eq!(hand_rank_value(&HandRank::HighCard), 1);
    assert_eq!(hand_rank_value(&HandRank::Pair), 2);
    assert_eq!(hand_rank_value(&HandRank::TwoPair), 3);
    assert_eq!(hand_rank_value(&HandRank::ThreeOfAKind), 4);
    assert_eq!(hand_rank_value(&HandRank::Straight), 5);
    assert_eq!(hand_rank_value(&HandRank::Flush), 6);
    assert_eq!(hand_rank_value(&HandRank::FullHouse), 7);
    assert_eq!(hand_rank_value(&HandRank::FourOfAKind), 8);
    assert_eq!(hand_rank_value(&HandRank::StraightFlush), 9);
    assert_eq!(hand_rank_value(&HandRank::RoyalFlush), 10);
}

#[test]
fn bot_delays_stay_inside_the_window() {
    for _ in 0..20 {
        let d = compute_bot_delay_ms(&Some(Difficulty::Hard), 15);
        assert!(d >= 900 && d <= 2200);
        let e = compute_bot_delay_ms(&Some(Difficulty::Easy), 15);
        assert!(e >= 250 && e <= 900);
        let m = compute_bot_delay_ms(&None, 15);
        assert!(m >= 700 && m <= 1600);
        let zero = compute_bot_delay_ms(&None, 0);
        assert_eq!(zero, 150);
    }
}

#[test]
fn an_easy_bot_checks_when_nothing_is_owed() {
    let mut t = new_table_from_cfg(&cfg(2));
    t.advance_street();
    t.current_bet = 0;
    for p in &mut t.players {
        p.bet = 0;
    }
    let (action, raise_to) = simple_bot_decision(&t, 1);
    assert_eq!(action, TableAction::Check);
    assert!(raise_to.is_none());
}

#[test]
fn a_short_stack_calls_rather_than_folds() {
    let mut t = new_table_from_cfg(&cfg(2));
    t.advance_street();
    t.pot = 500;
    t.current_bet = 500;
    t.players[1].bet = 0;
    t.players[1].chips = 5;
    let (action, raise_to) = simple_bot_decision(&t, 1);
    assert_eq!(action, TableAction::Call);
    assert!(raise_to.is_none());
}

#[test]
fn a_stale_bot_wake_changes_nothing() {
    let mut t = new_table_from_cfg(&cfg(2));
    t.advance_street();
    t.bot_pending_index = None;
    let pot = t.pot;
    let cur = t.current_player_index;
    let cont = t.bot_turn_step(1);
    assert!(!cont);
    assert_eq!(t.pot, pot);
    assert_eq!(t.current_player_index, cur);
}

#[test]
fn a_pending_easy_bot_calls_and_hands_the_turn_on() {
    let mut t = new_table_from_cfg(&cfg(1));
    t.advance_street();
    assert_eq!(t.current_player_index, 1);
    assert_eq!(t.bot_pending_index, Some(1));
    let cont = t.bot_turn_step(1);
    assert_eq!(t.players[1].bet, 20);
    assert_eq!(t.pot, 40);
    assert_eq!(t.current_player_index, 0);
    assert!(!cont);
    assert!(t.bot_pending_index.is_none());
    assert_eq!(chips_sum(&t) + t.pot as u64, 2000);
}

#[test]
fn a_bot_action_can_close_the_round() {
    let mut t = new_table_from_cfg(&cfg(2));
    t.advance_street();
    assert_eq!(t.current_player_index, 0);
    t.apply_action(0, TableAction::Call, None);
    assert_eq!(t.current_player_index, 1);
    assert_eq!(t.bot_pending_index, Some(1));
    let cont = t.bot_turn_step(1);
    assert!(cont);
    assert_eq!(t.stage, TableStage::PreFlop);
    assert_eq!(t.current_player_index, 2);
    assert_eq!(t.bot_pending_index, Some(2));
    let cont = t.bot_turn_step(2);
    assert!(!cont);
    assert_eq!(t.stage, TableStage::Flop);
    assert_eq!(t.board.len(), 3);
    assert_eq!(t.burned.len(), 1);
    assert_eq!(t.current_bet, 0);
    assert!(t.players.iter().all(|p| p.bet == 0));
    assert_eq!(t.current_player_index, 1);
    assert!(t.bot_pending_index.is_none());
    assert!(t.bot_decision_due_at.is_none());
    assert_eq!(chips_sum(&t) + t.pot as u64, 3000);
}

#[test]
fn the_bot_chain_skips_folded_seats() {
    let mut t = new_table_from_cfg(&cfg(2));
    t.advance_street();
    t.apply_action(0, TableAction::Call, None);
    assert_eq!(t.current_player_index, 1);
    t.players[2].has_folded = true;
    t.round_start_index = Some(1);
    let cont = t.bot_turn_step(1);
    assert!(!cont);
    assert_eq!(t.stage, TableStage::PreFlop);
    assert_eq!(t.current_player_index, 0);
    assert!(t.bot_pending_index.is_none());
}

#[test]
fn the_api_bot_raises_premium_pairs() {
    let req = BotDecisionRequest {
        hole_cards: vec![
            Card::new(Suit::Spades, Rank::A),
            Card::new(Suit::Hearts, Rank::A),
        ],
        board: vec![],
        stage: GameStage::PreFlop,
        pot: 0,
        to_call: 0,
        big_blind: 20,
        min_raise: 40,
    };
    let r: BotDecisionResponse = decide(&req);
    assert!(matches!(r.action, PlayerAction::Raise));
    assert_eq!(r.raise_to, Some(60));
}

#[test]
fn the_api_bot_folds_trash_facing_a_big_bet() {
    let req = BotDecisionRequest {
        hole_cards: vec![
            Card::new(Suit::Spades, Rank::R7),
            Card::new(Suit::Hearts, Rank::R2),
        ],
        board: vec![],
        stage: GameStage::PreFlop,
        pot: 100,
        to_call: 100,
        big_blind: 20,
        min_raise: 40,
    };
    let r = decide(&req);
    assert!(matches!(r.action, PlayerAction::Fold));
    let free = BotDecisionRequest {
        hole_cards: vec![
            Card::new(Suit::Spades, Rank::R7),
            Card::new(Suit::Hearts, Rank::R2),
        ],
        board: vec![],
        stage: GameStage::PreFlop,
        pot: 0,
        to_call: 0,
        big_blind: 20,
        min_raise: 40,
    };
    let rf = decide(&free);
    assert!(matches!(rf.action, PlayerAction::Call));
}

#[test]
fn an_empty_hole_request_folds() {
    let req = BotDecisionRequest {
        hole_cards: vec![],
        board: vec![],
        stage: GameStage::PreFlop,
        pot: 0,
        to_call: 0,
        big_blind: 20,
        min_raise: 40,
    };
    let r = decide(&req);
    assert!(matches!(r.action, PlayerAction::Fold));
}
