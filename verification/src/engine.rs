//! The simplified two-party auto-play engine: one hero hand against the
//! board, dealt straight through to showdown on a call or raise. It owns the
//! deck creation and shuffling that the multi-seat table reuses.

use vstd::prelude::*;
use vstd::string::StringExecFns;
use crate::cards::{
    Card, Rank, Suit, full_deck, rank_value_of, suit_of_index, rank_of_index,
    lemma_swap_multiset,
};
use crate::eval::{
    HandEvaluation, count_rank, count_suit, eval_ok, evaluate_best_hand,
};
use crate::platform::{new_id, now_time, random_seed, rng_from_seed, rng_next_u32};
use crate::text::u32_string;

verus! {

#[derive(Clone, Copy, Debug, PartialEq, Eq, Structural)]
pub enum GameStage {
    Deal,
    PreFlop,
    Flop,
    Turn,
    River,
    Showdown,
    Folded,
    GameOver,
}

#[derive(Clone, Copy, Debug, PartialEq, Eq, Structural)]
pub enum PlayerAction {
    Fold,
    Call,
    Raise,
}

#[derive(Clone, Copy, Debug, PartialEq, Eq, Structural)]
pub enum LogKind {
    Info,
    Action,
    Deal,
    Tip,
}

#[derive(Clone, Debug)]
pub struct LogEntry {
    pub message: String,
    pub stage: GameStage,
    pub kind: LogKind,
    pub time: String,
}

#[derive(Clone, Debug)]
pub struct GameState {
    pub game_id: String,
    pub deck: Vec<Card>,
    pub hole_cards: Vec<Card>,
    pub board: Vec<Card>,
    pub burned_cards: Vec<Card>,
    pub stage: GameStage,
    pub logs: Vec<LogEntry>,
    pub pot: u32,
    pub player_bet: u32,
    pub dealer_bet: u32,
    pub hand_evaluation: Option<HandEvaluation>,
}

/// Every card the game holds, wherever it lies.
pub open spec fn game_cards(g: GameState) -> Seq<Card> {
    g.deck@ + g.hole_cards@ + g.board@ + g.burned_cards@
}

/// All fields agree except the log.
pub open spec fn eq_except_logs(a: GameState, b: GameState) -> bool {
    &&& b.game_id == a.game_id
    &&& b.deck == a.deck
    &&& b.hole_cards == a.hole_cards
    &&& b.board == a.board
    &&& b.burned_cards == a.burned_cards
    &&& b.stage == a.stage
    &&& b.pot == a.pot
    &&& b.player_bet == a.player_bet
    &&& b.dealer_bet == a.dealer_bet
    &&& b.hand_evaluation == a.hand_evaluation
}

/// `b`'s log is `a`'s log plus one entry of the given kind and message,
/// stamped with `a`'s stage.
pub open spec fn log_appended(a: GameState, b: GameState, kind: LogKind, msg: Seq<char>) -> bool {
    &&& b.logs@.len() == a.logs@.len() + 1
    &&& forall|i: int| 0 <= i < a.logs@.len() ==> #[trigger] b.logs@[i] == a.logs@[i]
    &&& b.logs@.last().message@ == msg
    &&& b.logs@.last().kind == kind
    &&& b.logs@.last().stage == a.stage
}

/// `b`'s log extends `a`'s log.
pub open spec fn logs_grew(a: GameState, b: GameState) -> bool {
    &&& b.logs@.len() >= a.logs@.len()
    &&& forall|i: int| 0 <= i < a.logs@.len() ==> #[trigger] b.logs@[i] == a.logs@[i]
}

/// The tip chosen for a starting hand of two hole cards.
pub open spec fn hole_tip_msg(c1: Card, c2: Card) -> Seq<char> {
    if c1.rank == c2.rank {
        if c1.rank == Rank::A || c1.rank == Rank::K || c1.rank == Rank::Q || c1.rank == Rank::J {
            "💪 Excellent! You have a premium pair. Consider raising the bet."@
        } else if c1.rank == Rank::R10 || c1.rank == Rank::R9 || c1.rank == Rank::R8 {
            "👍 Good middle pair. You can play aggressively in early positions."@
        } else {
            "⚠️ Small pair. Play carefully, especially out of position."@
        }
    } else if c1.suit == c2.suit {
        if rank_value_of(c1.rank) >= 11 || rank_value_of(c2.rank) >= 11 {
            "🌟 Suited cards with high card. Good hand to see the flop."@
        } else {
            "💧 Suited cards but low. Play with caution."@
        }
    } else {
        let high = if rank_value_of(c1.rank) >= rank_value_of(c2.rank) {
            rank_value_of(c1.rank)
        } else {
            rank_value_of(c2.rank)
        };
        let low = if rank_value_of(c1.rank) >= rank_value_of(c2.rank) {
            rank_value_of(c2.rank)
        } else {
            rank_value_of(c1.rank)
        };
        if high >= 13 && low >= 10 {
            "🔥 Excellent hand! Two connected high cards. Play aggressively."@
        } else if high >= 12 {
            "✅ Good hand with high card. Consider seeing the flop."@
        } else {
            "🤔 Marginal hand. Evaluate your position before playing."@
        }
    }
}

/// The rank values of a hand, in order.
pub open spec fn rank_values(cs: Seq<Card>) -> Seq<u8> {
    Seq::new(cs.len(), |i: int| rank_value_of(cs[i].rank))
}

/// The values sorted ascending.
pub open spec fn sorted_vals(s: Seq<u8>) -> Seq<u8> {
    s.sort_by(u8_leq())
}

/// The length of the unbroken ascending run ending at index `i` of a sorted
/// value sequence; equal neighbours continue the run without lengthening it.
pub open spec fn run_score(s: Seq<u8>, i: int) -> nat
    decreases i,
{
    if i <= 0 {
        1
    } else if s[i] as int == s[i - 1] as int + 1 {
        run_score(s, i - 1) + 1
    } else if s[i] == s[i - 1] {
        run_score(s, i - 1)
    } else {
        1
    }
}

/// The largest rank-group size among values 2..=v.
pub open spec fn max_rank_count_from(cs: Seq<Card>, v: int) -> nat
    decreases v,
{
    if v < 2 {
        0
    } else {
        let rest = max_rank_count_from(cs, v - 1);
        if count_rank(cs, v) >= rest {
            count_rank(cs, v)
        } else {
            rest
        }
    }
}

pub open spec fn max_rank_count(cs: Seq<Card>) -> nat {
    max_rank_count_from(cs, 14)
}

/// The largest suit-group size.
pub open spec fn max_suit_count(cs: Seq<Card>) -> nat {
    let h = count_suit(cs, Suit::Hearts);
    let d = count_suit(cs, Suit::Diamonds);
    let c = count_suit(cs, Suit::Clubs);
    let s = count_suit(cs, Suit::Spades);
    let hd = if h >= d {
        h
    } else {
        d
    };
    let hdc = if hd >= c {
        hd
    } else {
        c
    };
    if hdc >= s {
        hdc
    } else {
        s
    }
}

/// The tip chosen after the flop, if any, over the five visible cards.
pub open spec fn flop_tip_msg(cs: Seq<Card>) -> Option<Seq<char>> {
    let sorted = sorted_vals(rank_values(cs));
    if run_score(sorted, sorted.len() - 1) >= 4 {
        Some("🎯 Straight opportunity! You have a very strong draw."@)
    } else if max_suit_count(cs) >= 4 {
        Some("💎 Flush draw! Very good opportunity to complete the flush."@)
    } else if max_rank_count(cs) >= 3 {
        Some("🎲 Three of a kind! Very strong, play aggressively."@)
    } else if max_rank_count(cs) == 2 {
        Some("👥 You have a pair. Evaluate if it's strong enough."@)
    } else {
        None
    }
}

/// The seven cards handed to the evaluator: two hole cards, five board cards.
pub open spec fn seven_cards(g: GameState) -> Seq<Card> {
    seq![
        g.hole_cards@[0],
        g.hole_cards@[1],
        g.board@[0],
        g.board@[1],
        g.board@[2],
        g.board@[3],
        g.board@[4],
    ]
}

impl GameState {
    /// A fresh game: a shuffled full deck, two hole cards dealt, stage
    /// pre-flop, no chips in play.
    pub fn new() -> (g: Self)
        ensures
            g.stage == GameStage::PreFlop,
            g.hole_cards@.len() == 2,
            g.board@.len() == 0,
            g.burned_cards@.len() == 0,
            g.deck@.len() == 50,
            g.pot == 0 && g.player_bet == 0 && g.dealer_bet == 0,
            g.hand_evaluation is None,
            game_cards(g).to_multiset() == full_deck().to_multiset(),
    {
        let mut deck = Self::create_deck();
        Self::shuffle_deck(&mut deck);
        let mut game = Self {
            game_id: new_id(),
            deck,
            hole_cards: Vec::new(),
            board: Vec::new(),
            burned_cards: Vec::new(),
            stage: GameStage::Deal,
            logs: Vec::new(),
            pot: 0,
            player_bet: 0,
            dealer_bet: 0,
            hand_evaluation: None,
        };
        game.add_log(LogKind::Info, String::from_str("Creating new game"));
        let ghost before = game;
        let dealt = game.deal_hole_cards();
        match dealt {
            Ok(_) => {
                game.add_log(
                    LogKind::Info,
                    String::from_str("Successfully dealt hole cards"),
                );
            },
            Err(_) => {
                // Unreachable: the fresh deck holds 52 cards.
                game.stage = GameStage::PreFlop;
                game.add_log(
                    LogKind::Info,
                    String::from_str("Manually set stage to PreFlop due to error"),
                );
            },
        }
        proof {
            broadcast use vstd::seq_lib::lemma_multiset_commutative;
            assert(game_cards(before).to_multiset() == full_deck().to_multiset());
        }
        game
    }

    /// The 52-card deck in creation order.
    pub fn create_deck() -> (deck: Vec<Card>)
        ensures
            deck@ == full_deck(),
    {
        let mut deck: Vec<Card> = Vec::new();
        let mut i: usize = 0;
        while i < 52
            invariant
                i <= 52,
                deck@ =~= full_deck().take(i as int),
            decreases 52 - i,
        {
            let suit = suit_from(i / 13);
            let rank = rank_from(i % 13);
            deck.push(Card::new(suit, rank));
            proof {
                assert(full_deck()[i as int] == (Card { suit, rank }));
                assert(deck@ =~= full_deck().take(i + 1));
            }
            i = i + 1;
        }
        proof {
            assert(full_deck().take(52) =~= full_deck());
        }
        deck
    }

    /// Fisher-Yates shuffle driven by a ChaCha20 generator seeded from the
    /// operating system. The deck keeps exactly the cards it had.
    pub fn shuffle_deck(deck: &mut Vec<Card>)
        ensures
            final(deck)@.len() == old(deck)@.len(),
            final(deck)@.to_multiset() == old(deck)@.to_multiset(),
    {
        let seed = random_seed();
        let mut rng = rng_from_seed(seed);
        let mut i: usize = deck.len();
        while i > 1
            invariant
                i <= deck@.len(),
                deck@.len() == old(deck)@.len(),
                deck@.to_multiset() == old(deck)@.to_multiset(),
            decreases i,
        {
            i = i - 1;
            let j = (rng_next_u32(&mut rng) as usize) % (i + 1);
            let a = deck[i];
            let b = deck[j];
            let ghost before = deck@;
            deck[i] = b;
            deck[j] = a;
            proof {
                lemma_swap_multiset(before, i as int, j as int);
            }
        }
    }

    /// Append one timestamped log entry; nothing else changes.
    pub fn add_log(&mut self, kind: LogKind, message: String)
        ensures
            eq_except_logs(*old(self), *final(self)),
            log_appended(*old(self), *final(self), kind, message@),
    {
        let time = now_time();
        let entry = LogEntry { message, stage: self.stage, kind, time };
        self.logs.push(entry);
        proof {
            assert(final(self).logs@.subrange(0, old(self).logs@.len() as int) =~= old(
                self,
            ).logs@);
        }
    }

    /// Deal two hole cards from the top of the deck and move to pre-flop.
    /// Fails, changing nothing, only when fewer than two cards remain.
    pub fn deal_hole_cards(&mut self) -> (r: Result<(), String>)
        ensures
            r is Err <==> old(self).deck@.len() < 2,
            r is Err ==> *final(self) == *old(self),
            r is Ok ==> {
                &&& final(self).deck@ == old(self).deck@.take(old(self).deck@.len() - 2)
                &&& final(self).hole_cards@ == seq![
                    old(self).deck@[old(self).deck@.len() - 1],
                    old(self).deck@[old(self).deck@.len() - 2],
                ]
                &&& final(self).stage == GameStage::PreFlop
                &&& final(self).board == old(self).board
                &&& final(self).burned_cards == old(self).burned_cards
                &&& final(self).pot == old(self).pot
                &&& final(self).player_bet == old(self).player_bet
                &&& final(self).dealer_bet == old(self).dealer_bet
                &&& final(self).hand_evaluation == old(self).hand_evaluation
                &&& final(self).game_id == old(self).game_id
                &&& logs_grew(*old(self), *final(self))
                &&& final(self).logs@.len() == old(self).logs@.len() + 2
                &&& final(self).logs@[old(self).logs@.len() as int].kind == LogKind::Deal
                &&& final(self).logs@[old(self).logs@.len() as int + 1].kind == LogKind::Tip
                &&& final(self).logs@[old(self).logs@.len() as int + 1].message@ == hole_tip_msg(
                    final(self).hole_cards@[0],
                    final(self).hole_cards@[1],
                )
            },
            r is Ok && old(self).hole_cards@.len() == 0 ==> game_cards(*final(self)).to_multiset()
                == game_cards(*old(self)).to_multiset(),
    {
        if self.deck.len() < 2 {
            return Err(String::from_str("Not enough cards in deck"));
        }
        let ghost at_start = *self;
        self.hole_cards.clear();
        let c1 = match self.deck.pop() {
            Some(c) => c,
            None => {
                return Err(String::from_str("Failed to deal card from deck"));
            },
        };
        self.hole_cards.push(c1);
        let c2 = match self.deck.pop() {
            Some(c) => c,
            None => {
                return Err(String::from_str("Failed to deal card from deck"));
            },
        };
        self.hole_cards.push(c2);
        self.stage = GameStage::PreFlop;
        proof {
            assert(self.deck@ =~= at_start.deck@.take(at_start.deck@.len() - 2));
            assert(self.hole_cards@ =~= seq![
                at_start.deck@[at_start.deck@.len() - 1],
                at_start.deck@[at_start.deck@.len() - 2],
            ]);
        }
        let first = self.hole_cards[0];
        let second = self.hole_cards[1];
        let mut msg = String::from_str("Start hand: ");
        let t1 = card_text(&first);
        msg.append(t1.as_str());
        msg.append(" and ");
        let t2 = card_text(&second);
        msg.append(t2.as_str());
        self.add_log(LogKind::Deal, msg);
        self.generate_hole_card_tip();
        proof {
            if at_start.hole_cards@.len() == 0 {
                broadcast use vstd::seq_lib::lemma_multiset_commutative;
                broadcast use vstd::seq_lib::group_to_multiset_ensures;

                let d = at_start.deck@;
                let n = d.len() as int;
                assert(d =~= d.take(n - 2).push(d[n - 2]).push(d[n - 1]));
                assert(game_cards(at_start).to_multiset() == game_cards(*self).to_multiset());
            }
        }
        Ok(())
    }

    /// Burn-free flop: replace the board with the first three deck cards.
    /// Fails, changing nothing, only when fewer than three cards remain.
    pub fn deal_flop(&mut self) -> (r: Result<(), String>)
        requires
            old(self).deck@.len() >= 3 ==> old(self).hole_cards@.len() >= 2,
        ensures
            r is Err <==> old(self).deck@.len() < 3,
            r is Err ==> *final(self) == *old(self),
            r is Ok ==> {
                &&& final(self).deck@ == old(self).deck@.skip(3)
                &&& final(self).board@ == old(self).deck@.take(3)
                &&& final(self).stage == GameStage::Flop
                &&& final(self).hole_cards == old(self).hole_cards
                &&& final(self).burned_cards == old(self).burned_cards
                &&& final(self).pot == old(self).pot
                &&& final(self).player_bet == old(self).player_bet
                &&& final(self).dealer_bet == old(self).dealer_bet
                &&& final(self).hand_evaluation == old(self).hand_evaluation
                &&& final(self).game_id == old(self).game_id
                &&& logs_grew(*old(self), *final(self))
            },
    {
        if self.deck.len() < 3 {
            return Err(String::from_str("Not enough cards in deck for flop"));
        }
        let ghost at_start = *self;
        let mut board: Vec<Card> = Vec::new();
        let f1 = self.deck.remove(0);
        board.push(f1);
        let f2 = self.deck.remove(0);
        board.push(f2);
        let f3 = self.deck.remove(0);
        board.push(f3);
        self.board = board;
        self.stage = GameStage::Flop;
        proof {
            assert(self.deck@ =~= at_start.deck@.skip(3));
            assert(self.board@ =~= at_start.deck@.take(3));
        }
        self.add_log(LogKind::Deal, String::from_str("Flop dealt"));
        self.generate_flop_tip();
        Ok(())
    }

    /// Deal the turn card from the front of the deck.
    pub fn deal_turn(&mut self) -> (r: Result<(), String>)
        requires
            old(self).board@.len() == 3,
        ensures
            r is Err <==> old(self).deck@.len() < 1,
            r is Err ==> *final(self) == *old(self),
            r is Ok ==> {
                &&& final(self).deck@ == old(self).deck@.skip(1)
                &&& final(self).board@ == old(self).board@.push(old(self).deck@[0])
                &&& final(self).stage == GameStage::Turn
                &&& final(self).hole_cards == old(self).hole_cards
                &&& final(self).burned_cards == old(self).burned_cards
                &&& final(self).pot == old(self).pot
                &&& final(self).player_bet == old(self).player_bet
                &&& final(self).dealer_bet == old(self).dealer_bet
                &&& final(self).hand_evaluation == old(self).hand_evaluation
                &&& final(self).game_id == old(self).game_id
                &&& logs_grew(*old(self), *final(self))
            },
    {
        if self.deck.len() < 1 {
            return Err(String::from_str("Not enough cards in deck"));
        }
        let c = self.deck.remove(0);
        self.board.push(c);
        self.stage = GameStage::Turn;
        self.add_log(LogKind::Deal, String::from_str("Turn dealt"));
        self.generate_turn_tip();
        Ok(())
    }

    /// Deal the river card from the front of the deck.
    pub fn deal_river(&mut self) -> (r: Result<(), String>)
        requires
            old(self).board@.len() == 4,
        ensures
            r is Err <==> old(self).deck@.len() < 1,
            r is Err ==> *final(self) == *old(self),
            r is Ok ==> {
                &&& final(self).deck@ == old(self).deck@.skip(1)
                &&& final(self).board@ == old(self).board@.push(old(self).deck@[0])
                &&& final(self).stage == GameStage::River
                &&& final(self).hole_cards == old(self).hole_cards
                &&& final(self).burned_cards == old(self).burned_cards
                &&& final(self).pot == old(self).pot
                &&& final(self).player_bet == old(self).player_bet
                &&& final(self).dealer_bet == old(self).dealer_bet
                &&& final(self).hand_evaluation == old(self).hand_evaluation
                &&& final(self).game_id == old(self).game_id
                &&& logs_grew(*old(self), *final(self))
            },
    {
        if self.deck.len() < 1 {
            return Err(String::from_str("Not enough cards in deck"));
        }
        let c = self.deck.remove(0);
        self.board.push(c);
        self.stage = GameStage::River;
        self.add_log(LogKind::Deal, String::from_str("River dealt"));
        self.generate_river_tip();
        Ok(())
    }

    /// Burn the first three deck cards. The cards stay in the game, so the
    /// card multiset is preserved.
    pub fn deal_burn_cards(&mut self) -> (r: Result<(), String>)
        ensures
            r is Err <==> old(self).deck@.len() < 3,
            r is Err ==> *final(self) == *old(self),
            r is Ok ==> {
                &&& final(self).deck@ == old(self).deck@.skip(3)
                &&& final(self).burned_cards@ == old(self).burned_cards@ + old(self).deck@.take(3)
                &&& final(self).board == old(self).board
                &&& final(self).hole_cards == old(self).hole_cards
                &&& final(self).stage == old(self).stage
                &&& final(self).pot == old(self).pot
                &&& final(self).player_bet == old(self).player_bet
                &&& final(self).dealer_bet == old(self).dealer_bet
                &&& final(self).hand_evaluation == old(self).hand_evaluation
                &&& final(self).game_id == old(self).game_id
                &&& logs_grew(*old(self), *final(self))
                &&& game_cards(*final(self)).to_multiset() == game_cards(
                    *old(self),
                ).to_multiset()
            },
    {
        if self.deck.len() < 3 {
            return Err(String::from_str("Not enough cards in deck for burn"));
        }
        let ghost at_start = *self;
        let b1 = self.deck.remove(0);
        self.burned_cards.push(b1);
        let b2 = self.deck.remove(0);
        self.burned_cards.push(b2);
        let b3 = self.deck.remove(0);
        self.burned_cards.push(b3);
        proof {
            assert(self.deck@ =~= at_start.deck@.skip(3));
            assert(self.burned_cards@ =~= at_start.burned_cards@ + at_start.deck@.take(3));
        }
        self.add_log(LogKind::Deal, String::from_str("Burned cards"));
        proof {
            lemma_game_cards_shift(at_start, *self);
        }
        Ok(())
    }

    /// Burn the five cards a complete hand would consume (three for the
    /// flop, one each for turn and river).
    pub fn deal_complete_hand_burn_cards(&mut self) -> (r: Result<(), String>)
        ensures
            r is Err <==> old(self).deck@.len() < 5,
            r is Ok ==> {
                &&& final(self).deck@ == old(self).deck@.skip(5)
                &&& final(self).burned_cards@ == old(self).burned_cards@ + old(self).deck@.take(5)
                &&& final(self).board == old(self).board
                &&& final(self).hole_cards == old(self).hole_cards
                &&& final(self).stage == old(self).stage
                &&& final(self).pot == old(self).pot
                &&& final(self).player_bet == old(self).player_bet
                &&& final(self).dealer_bet == old(self).dealer_bet
                &&& final(self).hand_evaluation == old(self).hand_evaluation
                &&& final(self).game_id == old(self).game_id
                &&& logs_grew(*old(self), *final(self))
                &&& game_cards(*final(self)).to_multiset() == game_cards(
                    *old(self),
                ).to_multiset()
            },
            r is Err && old(self).deck@.len() >= 3 ==> {
                &&& final(self).deck@.len() == 0
                &&& final(self).burned_cards@ == old(self).burned_cards@ + old(self).deck@
                &&& final(self).board == old(self).board
                &&& final(self).hole_cards == old(self).hole_cards
                &&& final(self).stage == old(self).stage
                &&& final(self).pot == old(self).pot
                &&& game_cards(*final(self)).to_multiset() == game_cards(
                    *old(self),
                ).to_multiset()
            },
            r is Err && old(self).deck@.len() < 3 ==> *final(self) == *old(self),
    {
        if self.deck.len() < 3 {
            return Err(String::from_str("Not enough cards in deck for flop burn"));
        }
        let ghost at_start = *self;
        let b1 = self.deck.remove(0);
        self.burned_cards.push(b1);
        let b2 = self.deck.remove(0);
        self.burned_cards.push(b2);
        let b3 = self.deck.remove(0);
        self.burned_cards.push(b3);
        proof {
            assert(self.deck@ =~= at_start.deck@.skip(3));
            assert(self.burned_cards@ =~= at_start.burned_cards@ + at_start.deck@.take(3));
        }
        if self.deck.len() < 1 {
            proof {
                assert(self.burned_cards@ =~= at_start.burned_cards@ + at_start.deck@);
                lemma_game_cards_shift(at_start, *self);
            }
            return Err(String::from_str("Not enough cards in deck for turn burn"));
        }
        let b4 = self.deck.remove(0);
        self.burned_cards.push(b4);
        if self.deck.len() < 1 {
            proof {
                assert(self.deck@ =~= at_start.deck@.skip(4));
                assert(self.burned_cards@ =~= at_start.burned_cards@ + at_start.deck@.take(4));
                assert(self.burned_cards@ =~= at_start.burned_cards@ + at_start.deck@);
                lemma_game_cards_shift(at_start, *self);
            }
            return Err(String::from_str("Not enough cards in deck for river burn"));
        }
        let b5 = self.deck.remove(0);
        self.burned_cards.push(b5);
        proof {
            assert(self.deck@ =~= at_start.deck@.skip(5));
            assert(self.burned_cards@ =~= at_start.burned_cards@ + at_start.deck@.take(5));
        }
        self.add_log(LogKind::Deal, String::from_str("Complete hand burn cards dealt"));
        proof {
            lemma_game_cards_shift(at_start, *self);
        }
        Ok(())
    }
}

/// Moving a deck prefix to the burn pile, leaving everything else in place,
/// preserves the multiset of cards in the game.
proof fn lemma_game_cards_shift(a: GameState, b: GameState)
    requires
        exists|k: int|
            0 <= k <= a.deck@.len() && b.deck@ == a.deck@.skip(k) && #[trigger] b.burned_cards@
                == a.burned_cards@ + a.deck@.take(k),
        b.hole_cards == a.hole_cards,
        b.board == a.board,
    ensures
        game_cards(b).to_multiset() == game_cards(a).to_multiset(),
{
    broadcast use vstd::seq_lib::lemma_multiset_commutative;

    let k = choose|k: int|
        0 <= k <= a.deck@.len() && b.deck@ == a.deck@.skip(k) && #[trigger] b.burned_cards@
            == a.burned_cards@ + a.deck@.take(k);
    assert(a.deck@ =~= a.deck@.take(k) + a.deck@.skip(k));
    assert(game_cards(a) == a.deck@ + a.hole_cards@ + a.board@ + a.burned_cards@);
    assert((a.deck@.take(k) + a.deck@.skip(k)).to_multiset() == a.deck@.take(k).to_multiset().add(
        a.deck@.skip(k).to_multiset(),
    ));
    assert(game_cards(b).to_multiset() =~= game_cards(a).to_multiset());
}

fn suit_from(k: usize) -> (s: Suit)
    requires
        k < 4,
    ensures
        s == suit_of_index(k as int),
{
    if k == 0 {
        Suit::Hearts
    } else if k == 1 {
        Suit::Diamonds
    } else if k == 2 {
        Suit::Clubs
    } else {
        Suit::Spades
    }
}

fn rank_from(k: usize) -> (r: Rank)
    requires
        k < 13,
    ensures
        r == rank_of_index(k as int),
{
    if k == 0 {
        Rank::A
    } else if k == 1 {
        Rank::R2
    } else if k == 2 {
        Rank::R3
    } else if k == 3 {
        Rank::R4
    } else if k == 4 {
        Rank::R5
    } else if k == 5 {
        Rank::R6
    } else if k == 6 {
        Rank::R7
    } else if k == 7 {
        Rank::R8
    } else if k == 8 {
        Rank::R9
    } else if k == 9 {
        Rank::R10
    } else if k == 10 {
        Rank::J
    } else if k == 11 {
        Rank::Q
    } else {
        Rank::K
    }
}

/// The ascending order on byte values used to sort rank values.
pub open spec fn u8_leq() -> spec_fn(u8, u8) -> bool {
    |a: u8, b: u8| a <= b
}

/// Count the cards of rank value `v`.
fn count_rank_in(cards: &Vec<Card>, v: u8) -> (n: usize)
    ensures
        n == count_rank(cards@, v as int),
{
    let ghost s = cards@;
    let mut n: usize = 0;
    proof {
        assert(s.take(0) =~= Seq::<Card>::empty());
        crate::eval::lemma_filter_empty(|c: Card| rank_value_of(c.rank) as int == v as int);
    }
    let mut i: usize = 0;
    while i < cards.len()
        invariant
            i <= s.len(),
            s == cards@,
            n <= i,
            n as nat == count_rank(s.take(i as int), v as int),
        decreases s.len() - i,
    {
        proof {
            crate::eval::lemma_filter_take_step(
                s,
                |c: Card| rank_value_of(c.rank) as int == v as int,
                i as int,
            );
        }
        if cards[i].rank_value() == v {
            n = n + 1;
        }
        i = i + 1;
    }
    proof {
        assert(s.take(s.len() as int) =~= s);
    }
    n
}

/// Count the cards of suit `u`.
fn count_suit_in(cards: &Vec<Card>, u: Suit) -> (n: usize)
    ensures
        n == count_suit(cards@, u),
{
    let ghost s = cards@;
    let mut n: usize = 0;
    proof {
        assert(s.take(0) =~= Seq::<Card>::empty());
        crate::eval::lemma_filter_empty(|c: Card| c.suit == u);
    }
    let mut i: usize = 0;
    while i < cards.len()
        invariant
            i <= s.len(),
            s == cards@,
            n <= i,
            n as nat == count_suit(s.take(i as int), u),
        decreases s.len() - i,
    {
        proof {
            crate::eval::lemma_filter_take_step(s, |c: Card| c.suit == u, i as int);
        }
        if cards[i].suit == u {
            n = n + 1;
        }
        i = i + 1;
    }
    proof {
        assert(s.take(s.len() as int) =~= s);
    }
    n
}

/// The largest rank-group size among the cards.
fn max_rank_count_exec(cards: &Vec<Card>) -> (m: usize)
    ensures
        m == max_rank_count(cards@),
{
    let mut m: usize = 0;
    let mut v: u8 = 2;
    while v <= 14
        invariant
            2 <= v <= 15,
            m as nat == max_rank_count_from(cards@, v - 1),
        decreases 15 - v,
    {
        let c = count_rank_in(cards, v);
        if c >= m {
            m = c;
        }
        v = v + 1;
    }
    m
}

/// The largest suit-group size among the cards.
fn max_suit_count_exec(cards: &Vec<Card>) -> (m: usize)
    ensures
        m == max_suit_count(cards@),
{
    let h = count_suit_in(cards, Suit::Hearts);
    let d = count_suit_in(cards, Suit::Diamonds);
    let c = count_suit_in(cards, Suit::Clubs);
    let s = count_suit_in(cards, Suit::Spades);
    let hd = if h >= d {
        h
    } else {
        d
    };
    let hdc = if hd >= c {
        hd
    } else {
        c
    };
    if hdc >= s {
        hdc
    } else {
        s
    }
}

/// Insertion sort on byte values.
fn sort_u8(v: &Vec<u8>) -> (out: Vec<u8>)
    ensures
        out@ == sorted_vals(v@),
        out@.len() == v@.len(),
{
    let mut out: Vec<u8> = Vec::new();
    proof {
        assert(v@.take(0) =~= Seq::<u8>::empty());
        assert(out@.to_multiset() =~= v@.take(0).to_multiset());
    }
    let mut i: usize = 0;
    while i < v.len()
        invariant
            i <= v@.len(),
            out@.len() == i,
            vstd::relations::sorted_by(out@, u8_leq()),
            out@.to_multiset() == v@.take(i as int).to_multiset(),
        decreases v@.len() - i,
    {
        let x = v[i];
        let mut p: usize = 0;
        while p < out.len() && out[p] <= x
            invariant
                p <= out@.len(),
                forall|j: int| 0 <= j < p ==> out@[j] <= x,
            decreases out@.len() - p,
        {
            p = p + 1;
        }
        let ghost before = out@;
        out.insert(p, x);
        proof {
            broadcast use vstd::seq_lib::group_to_multiset_ensures;

            before.insert_ensures(p as int, x);
            assert(v@.take(i + 1) =~= v@.take(i as int).push(v@[i as int]));
            vstd::seq_lib::to_multiset_insert(before, p as int, x);
            assert(out@.to_multiset() =~= v@.take(i + 1).to_multiset());
            assert forall|m: int, n: int|
                0 <= m < n < out@.len() implies u8_leq()(out@[m], out@[n]) by {
                if n < p {
                    assert(out@[m] == before[m] && out@[n] == before[n]);
                } else if m > p {
                    assert(out@[m] == before[m - 1] && out@[n] == before[n - 1]);
                } else if m == p {
                    assert(out@[m] == x);
                    assert(out@[n] == before[n - 1]);
                    assert(!(before[p as int] <= x));
                    assert(u8_leq()(before[p as int], before[n - 1]) || p == n - 1);
                } else if n == p {
                    assert(out@[m] == before[m] && out@[n] == x);
                    assert(before[m] <= x);
                } else {
                    assert(m < p && n > p);
                    assert(out@[m] == before[m] && out@[n] == before[n - 1]);
                    assert(before[m] <= x);
                    assert(!(before[p as int] <= x));
                    assert(u8_leq()(before[p as int], before[n - 1]) || p == n - 1);
                }
            }
            assert(vstd::relations::sorted_by(out@, u8_leq()));
        }
        i = i + 1;
    }
    proof {
        assert(v@.take(v@.len() as int) =~= v@);
        assert(vstd::relations::total_ordering(u8_leq()));
        v@.lemma_sort_by_ensures(u8_leq());
        vstd::seq_lib::lemma_sorted_unique(out@, v@.sort_by(u8_leq()), u8_leq());
        assert(out@ == v@.sort_by(u8_leq()));
        assert(out@.len() == v@.len());
    }
    out
}

/// A card as plain text, by rank value and suit name.
fn card_text(c: &Card) -> String {
    let mut s = u32_string(c.rank_value() as u32);
    let name: &str = match c.suit {
        Suit::Hearts => " of Hearts",
        Suit::Diamonds => " of Diamonds",
        Suit::Clubs => " of Clubs",
        Suit::Spades => " of Spades",
    };
    s.append(name);
    s
}

impl GameState {
    /// Advise on the starting hand; one tip entry is logged when two hole
    /// cards are present.
    fn generate_hole_card_tip(&mut self)
        ensures
            old(self).hole_cards@.len() != 2 ==> *final(self) == *old(self),
            old(self).hole_cards@.len() == 2 ==> {
                &&& eq_except_logs(*old(self), *final(self))
                &&& log_appended(
                    *old(self),
                    *final(self),
                    LogKind::Tip,
                    hole_tip_msg(old(self).hole_cards@[0], old(self).hole_cards@[1]),
                )
            },
    {
        if self.hole_cards.len() != 2 {
            return ;
        }
        let c1 = self.hole_cards[0];
        let c2 = self.hole_cards[1];
        if c1.rank == c2.rank {
            if c1.rank == Rank::A || c1.rank == Rank::K || c1.rank == Rank::Q || c1.rank
                == Rank::J {
                self.add_log(
                    LogKind::Tip,
                    String::from_str(
                        "💪 Excellent! You have a premium pair. Consider raising the bet.",
                    ),
                );
            } else if c1.rank == Rank::R10 || c1.rank == Rank::R9 || c1.rank == Rank::R8 {
                self.add_log(
                    LogKind::Tip,
                    String::from_str(
                        "👍 Good middle pair. You can play aggressively in early positions.",
                    ),
                );
            } else {
                self.add_log(
                    LogKind::Tip,
                    String::from_str(
                        "⚠️ Small pair. Play carefully, especially out of position.",
                    ),
                );
            }
            return ;
        }
        if c1.suit == c2.suit {
            if c1.rank_value() >= 11 || c2.rank_value() >= 11 {
                self.add_log(
                    LogKind::Tip,
                    String::from_str("🌟 Suited cards with high card. Good hand to see the flop."),
                );
            } else {
                self.add_log(
                    LogKind::Tip,
                    String::from_str("💧 Suited cards but low. Play with caution."),
                );
            }
            return ;
        }
        let v1 = c1.rank_value();
        let v2 = c2.rank_value();
        let high = if v1 >= v2 {
            v1
        } else {
            v2
        };
        let low = if v1 >= v2 {
            v2
        } else {
            v1
        };
        if high >= 13 && low >= 10 {
            self.add_log(
                LogKind::Tip,
                String::from_str(
                    "🔥 Excellent hand! Two connected high cards. Play aggressively.",
                ),
            );
        } else if high >= 12 {
            self.add_log(
                LogKind::Tip,
                String::from_str("✅ Good hand with high card. Consider seeing the flop."),
            );
        } else {
            self.add_log(
                LogKind::Tip,
                String::from_str("🤔 Marginal hand. Evaluate your position before playing."),
            );
        }
    }

    /// Advise after the flop from the five visible cards; at most one tip
    /// entry is logged.
    fn generate_flop_tip(&mut self)
        requires
            old(self).board@.len() == 3 ==> old(self).hole_cards@.len() >= 2,
        ensures
            old(self).board@.len() != 3 ==> *final(self) == *old(self),
            old(self).board@.len() == 3 ==> {
                let five = seq![
                    old(self).hole_cards@[0],
                    old(self).hole_cards@[1],
                    old(self).board@[0],
                    old(self).board@[1],
                    old(self).board@[2],
                ];
                match flop_tip_msg(five) {
                    Some(m) => eq_except_logs(*old(self), *final(self)) && log_appended(
                        *old(self),
                        *final(self),
                        LogKind::Tip,
                        m,
                    ),
                    None => *final(self) == *old(self),
                }
            },
    {
        if self.board.len() != 3 {
            return ;
        }
        let mut five: Vec<Card> = Vec::new();
        five.push(self.hole_cards[0]);
        five.push(self.hole_cards[1]);
        five.push(self.board[0]);
        five.push(self.board[1]);
        five.push(self.board[2]);
        let ghost fiveseq = seq![
            self.hole_cards@[0],
            self.hole_cards@[1],
            self.board@[0],
            self.board@[1],
            self.board@[2],
        ];
        proof {
            assert(five@ =~= fiveseq);
        }
        let mut vals: Vec<u8> = Vec::new();
        let mut i: usize = 0;
        while i < 5
            invariant
                i <= 5,
                five@.len() == 5,
                five@ == fiveseq,
                vals@.len() == i,
                forall|j: int| 0 <= j < i ==> vals@[j] == rank_value_of(five@[j].rank),
            decreases 5 - i,
        {
            vals.push(five[i].rank_value());
            i = i + 1;
        }
        proof {
            assert(vals@ =~= rank_values(five@));
        }
        let sorted = sort_u8(&vals);
        let mut sc: u8 = 1;
        let mut k: usize = 1;
        while k < 5
            invariant
                1 <= k <= 5,
                sorted@.len() == 5,
                sc as nat == run_score(sorted@, k - 1),
                sc <= k,
            decreases 5 - k,
        {
            let prev = sorted[k - 1];
            let cur = sorted[k];
            if (cur as u16) == (prev as u16) + 1 {
                sc = sc + 1;
            } else if cur == prev {
            } else {
                sc = 1;
            }
            k = k + 1;
        }
        if sc >= 4 {
            self.add_log(
                LogKind::Tip,
                String::from_str("🎯 Straight opportunity! You have a very strong draw."),
            );
            return ;
        }
        let msc = max_suit_count_exec(&five);
        if msc >= 4 {
            self.add_log(
                LogKind::Tip,
                String::from_str("💎 Flush draw! Very good opportunity to complete the flush."),
            );
            return ;
        }
        let mrc = max_rank_count_exec(&five);
        if mrc >= 3 {
            self.add_log(
                LogKind::Tip,
                String::from_str("🎲 Three of a kind! Very strong, play aggressively."),
            );
        } else if mrc == 2 {
            self.add_log(
                LogKind::Tip,
                String::from_str("👥 You have a pair. Evaluate if it's strong enough."),
            );
        }
    }

    fn generate_turn_tip(&mut self)
        ensures
            eq_except_logs(*old(self), *final(self)),
            log_appended(
                *old(self),
                *final(self),
                LogKind::Tip,
                "🔄 Turn completed. Evaluate your hand and consider the river odds."@,
            ),
    {
        self.add_log(
            LogKind::Tip,
            String::from_str("🔄 Turn completed. Evaluate your hand and consider the river odds."),
        );
    }

    fn generate_river_tip(&mut self)
        ensures
            eq_except_logs(*old(self), *final(self)),
            log_appended(
                *old(self),
                *final(self),
                LogKind::Tip,
                "🏁 River completed. Time to make your best play."@,
            ),
    {
        self.add_log(
            LogKind::Tip,
            String::from_str("🏁 River completed. Time to make your best play."),
        );
    }

    fn generate_fold_tip(&mut self)
        ensures
            eq_except_logs(*old(self), *final(self)),
            log_appended(
                *old(self),
                *final(self),
                LogKind::Tip,
                "🛡️ Sometimes folding is the best play. Don't worry, there are more hands."@,
            ),
    {
        self.add_log(
            LogKind::Tip,
            String::from_str(
                "🛡️ Sometimes folding is the best play. Don't worry, there are more hands.",
            ),
        );
    }

    fn generate_raise_tip(&mut self)
        ensures
            eq_except_logs(*old(self), *final(self)),
            log_appended(
                *old(self),
                *final(self),
                LogKind::Tip,
                "⚡ Raising the bet can be a good strategy to win the pot immediately."@,
            ),
    {
        self.add_log(
            LogKind::Tip,
            String::from_str(
                "⚡ Raising the bet can be a good strategy to win the pot immediately.",
            ),
        );
    }

    /// Evaluate the hero's best hand at showdown and remember it. A no-op
    /// unless two hole cards and five board cards are present.
    fn evaluate_hand(&mut self)
        ensures
            (old(self).hole_cards@.len() < 2 || old(self).board@.len() < 5) ==> *final(self)
                == *old(self),
            (old(self).hole_cards@.len() >= 2 && old(self).board@.len() >= 5) ==> {
                &&& final(self).hand_evaluation matches Some(ev) && eval_ok(
                    seven_cards(*old(self)),
                    ev,
                )
                &&& final(self).deck == old(self).deck
                &&& final(self).hole_cards == old(self).hole_cards
                &&& final(self).board == old(self).board
                &&& final(self).burned_cards == old(self).burned_cards
                &&& final(self).stage == old(self).stage
                &&& final(self).pot == old(self).pot
                &&& final(self).player_bet == old(self).player_bet
                &&& final(self).dealer_bet == old(self).dealer_bet
                &&& final(self).game_id == old(self).game_id
                &&& logs_grew(*old(self), *final(self))
            },
    {
        if self.hole_cards.len() < 2 || self.board.len() < 5 {
            return ;
        }
        let h0 = self.hole_cards[0];
        let h1 = self.hole_cards[1];
        let b0 = self.board[0];
        let b1 = self.board[1];
        let b2 = self.board[2];
        let b3 = self.board[3];
        let b4 = self.board[4];
        let arr: [&Card; 7] = [&h0, &h1, &b0, &b1, &b2, &b3, &b4];
        proof {
            assert(crate::eval::cards_of(arr@) =~= seven_cards(*self));
        }
        let ev = evaluate_best_hand(&arr);
        let mut m1 = String::from_str("🎯 Hand Evaluation: ");
        m1.append(ev.combination_type.as_str());
        self.add_log(LogKind::Info, m1);
        if !ev.highlighted_cards.is_empty() {
            self.add_log(LogKind::Tip, String::from_str("✨ Highlighted cards"));
        }
        let mut m2 = String::from_str("🏆 Your best hand: ");
        m2.append(ev.combination_type.as_str());
        self.add_log(LogKind::Tip, m2);
        self.hand_evaluation = Some(ev);
    }

    /// Evaluate any seven cards with the engine's evaluator.
    pub fn evaluate_best_hand_public(cards: [&Card; 7]) -> (ev: HandEvaluation)
        ensures
            eval_ok(crate::eval::cards_of(cards@), ev),
    {
        evaluate_best_hand(&cards)
    }

    /// Apply the hero's action. A fold ends the hand; a call or raise at
    /// pre-flop burns three cards and runs the board straight out to the
    /// river, then evaluates the hand at showdown. A call or raise at any
    /// other stage is rejected.
    pub fn player_action(&mut self, action: PlayerAction) -> (r: Result<(), String>)
        requires
            old(self).stage == GameStage::PreFlop && !(action is Fold) ==> old(
                self,
            ).hole_cards@.len() >= 2,
        ensures
            action is Fold ==> ((r is Err) <==> (old(self).stage == GameStage::Flop && old(
                self,
            ).deck@.len() < 5)),
            action is Fold && r is Ok ==> {
                &&& final(self).stage == GameStage::Folded
                &&& final(self).hole_cards == old(self).hole_cards
                &&& final(self).pot == old(self).pot
                &&& final(self).player_bet == old(self).player_bet
                &&& final(self).dealer_bet == old(self).dealer_bet
                &&& final(self).game_id == old(self).game_id
                &&& final(self).hand_evaluation == old(self).hand_evaluation
                &&& game_cards(*final(self)).to_multiset() == game_cards(
                    *old(self),
                ).to_multiset()
                &&& (old(self).stage != GameStage::Flop ==> final(self).deck == old(self).deck
                    && final(self).board == old(self).board && final(self).burned_cards == old(
                    self,
                ).burned_cards)
                &&& (old(self).stage == GameStage::Flop ==> final(self).deck@ == old(
                    self,
                ).deck@.skip(5) && final(self).burned_cards@ == old(self).burned_cards@ + old(
                    self,
                ).deck@.take(5) && final(self).board == old(self).board)
            },
            !(action is Fold) ==> ((r is Err) <==> (old(self).stage != GameStage::PreFlop || old(
                self,
            ).deck@.len() < 8)),
            !(action is Fold) && old(self).stage != GameStage::PreFlop ==> eq_except_logs(
                *old(self),
                *final(self),
            ),
            !(action is Fold) && r is Ok ==> {
                &&& final(self).stage == GameStage::Showdown
                &&& final(self).deck@ == old(self).deck@.skip(8)
                &&& final(self).burned_cards@ == old(self).burned_cards@ + old(self).deck@.take(3)
                &&& final(self).board@ == old(self).deck@.subrange(3, 6).push(
                    old(self).deck@[6],
                ).push(old(self).deck@[7])
                &&& final(self).hole_cards == old(self).hole_cards
                &&& final(self).pot == old(self).pot
                &&& final(self).player_bet == old(self).player_bet
                &&& final(self).dealer_bet == old(self).dealer_bet
                &&& final(self).game_id == old(self).game_id
                &&& (final(self).hand_evaluation matches Some(ev) && eval_ok(
                    seq![
                        old(self).hole_cards@[0],
                        old(self).hole_cards@[1],
                        old(self).deck@[3],
                        old(self).deck@[4],
                        old(self).deck@[5],
                        old(self).deck@[6],
                        old(self).deck@[7],
                    ],
                    ev,
                ))
                &&& (old(self).board@.len() == 0 ==> game_cards(*final(self)).to_multiset()
                    == game_cards(*old(self)).to_multiset())
            },
    {
        let ghost at_start = *self;
        match action {
            PlayerAction::Fold => {
                self.add_log(LogKind::Action, String::from_str("Action: Fold"));
                if self.stage == GameStage::Flop {
                    let burned = self.deal_complete_hand_burn_cards();
                    if let Err(e) = burned {
                        return Err(e);
                    }
                }
                self.stage = GameStage::Folded;
                self.add_log(LogKind::Info, String::from_str("Game ended"));
                self.generate_fold_tip();
                proof {
                    if at_start.stage != GameStage::Flop {
                        assert(game_cards(*self).to_multiset() == game_cards(
                            at_start,
                        ).to_multiset());
                    }
                }
                Ok(())
            },
            PlayerAction::Call | PlayerAction::Raise => {
                if action == PlayerAction::Call {
                    self.add_log(LogKind::Action, String::from_str("Action: Call"));
                } else {
                    self.add_log(LogKind::Action, String::from_str("Action: Raise"));
                }
                if self.stage != GameStage::PreFlop {
                    if action == PlayerAction::Call {
                        return Err(String::from_str("Call only available in PreFlop stage"));
                    }
                    return Err(String::from_str("Raise only available in PreFlop stage"));
                }
                let burned = self.deal_burn_cards();
                if let Err(e) = burned {
                    return Err(e);
                }
                let ghost s1 = *self;
                let flopped = self.deal_flop();
                if let Err(e) = flopped {
                    return Err(e);
                }
                let ghost s2 = *self;
                let turned = self.deal_turn();
                if let Err(e) = turned {
                    return Err(e);
                }
                let ghost s3 = *self;
                let rivered = self.deal_river();
                if let Err(e) = rivered {
                    return Err(e);
                }
                let ghost s4 = *self;
                self.stage = GameStage::Showdown;
                let ghost s5 = *self;
                self.evaluate_hand();
                proof {
                    let d = at_start.deck@;
                    assert(s2.deck@ =~= d.skip(6));
                    assert(s2.board@ =~= d.subrange(3, 6));
                    assert(s3.deck@ =~= d.skip(7));
                    assert(s3.board@[3] == d[6]);
                    assert(s4.deck@ =~= d.skip(8));
                    assert(s4.board@ =~= d.subrange(3, 6).push(d[6]).push(d[7]));
                    assert(seven_cards(s5) =~= seq![
                        at_start.hole_cards@[0],
                        at_start.hole_cards@[1],
                        d[3],
                        d[4],
                        d[5],
                        d[6],
                        d[7],
                    ]);
                    if at_start.board@.len() == 0 {
                        lemma_run_out_conserves(at_start, *self);
                    }
                }
                Ok(())
            },
        }
    }

    /// Start a new hand: fresh shuffled deck, cleared cards and chips, two
    /// new hole cards, stage pre-flop. The previous hand's evaluation is
    /// kept until the next showdown overwrites it.
    pub fn reset_game(&mut self)
        ensures
            final(self).stage == GameStage::PreFlop,
            final(self).hole_cards@.len() == 2,
            final(self).board@.len() == 0,
            final(self).burned_cards@.len() == 0,
            final(self).deck@.len() == 50,
            final(self).pot == 0,
            final(self).player_bet == 0,
            final(self).dealer_bet == 0,
            final(self).game_id == old(self).game_id,
            final(self).hand_evaluation == old(self).hand_evaluation,
            game_cards(*final(self)).to_multiset() == full_deck().to_multiset(),
            final(self).logs@.len() == 4,
            final(self).logs@[0].kind == LogKind::Info && final(self).logs@[0].message@
                == "New hand started"@,
            final(self).logs@[1].kind == LogKind::Deal,
            final(self).logs@[2].kind == LogKind::Tip && final(self).logs@[2].message@
                == hole_tip_msg(final(self).hole_cards@[0], final(self).hole_cards@[1]),
            final(self).logs@[3].kind == LogKind::Info && final(self).logs@[3].message@
                == "New hole cards dealt successfully"@,
    {
        let mut deck = Self::create_deck();
        Self::shuffle_deck(&mut deck);
        self.deck = deck;
        self.hole_cards.clear();
        self.board.clear();
        self.burned_cards.clear();
        self.stage = GameStage::Deal;
        self.logs.clear();
        self.pot = 0;
        self.player_bet = 0;
        self.dealer_bet = 0;
        self.add_log(LogKind::Info, String::from_str("New hand started"));
        let ghost before = *self;
        let dealt = self.deal_hole_cards();
        match dealt {
            Ok(_) => {
                self.add_log(
                    LogKind::Info,
                    String::from_str("New hole cards dealt successfully"),
                );
            },
            Err(_) => {
                // Unreachable: the fresh deck holds 52 cards.
                self.stage = GameStage::PreFlop;
                self.add_log(
                    LogKind::Info,
                    String::from_str("Manually set stage to PreFlop due to error"),
                );
            },
        }
        proof {
            broadcast use vstd::seq_lib::lemma_multiset_commutative;
            assert(game_cards(before).to_multiset() == full_deck().to_multiset());
        }
    }
}

/// Running the board out at pre-flop only moves cards between the deck, the
/// board and the burn pile.
proof fn lemma_run_out_conserves(a: GameState, b: GameState)
    requires
        a.deck@.len() >= 8,
        a.board@.len() == 0,
        b.deck@ == a.deck@.skip(8),
        b.board@ == a.deck@.subrange(3, 6).push(a.deck@[6]).push(a.deck@[7]),
        b.burned_cards@ == a.burned_cards@ + a.deck@.take(3),
        b.hole_cards == a.hole_cards,
    ensures
        game_cards(b).to_multiset() == game_cards(a).to_multiset(),
{
    broadcast use vstd::seq_lib::lemma_multiset_commutative;

    let d = a.deck@;
    assert(a.board@ =~= Seq::<Card>::empty());
    assert(d =~= d.take(3) + (d.subrange(3, 6).push(d[6]).push(d[7])) + d.skip(8));
    let p1 = d.take(3);
    let p2 = d.subrange(3, 6).push(d[6]).push(d[7]);
    let p3 = d.skip(8);
    assert(game_cards(a) == d + a.hole_cards@ + a.board@ + a.burned_cards@);
    assert(game_cards(b) == p3 + a.hole_cards@ + p2 + (a.burned_cards@ + p1));
    assert(game_cards(a).to_multiset() =~= p1.to_multiset().add(p2.to_multiset()).add(
        p3.to_multiset(),
    ).add(a.hole_cards@.to_multiset()).add(a.board@.to_multiset()).add(
        a.burned_cards@.to_multiset(),
    ));
    assert(game_cards(b).to_multiset() =~= p3.to_multiset().add(
        a.hole_cards@.to_multiset(),
    ).add(p2.to_multiset()).add(a.burned_cards@.to_multiset()).add(p1.to_multiset()));
    assert(game_cards(b).to_multiset() =~= game_cards(a).to_multiset());
}

} // verus!
