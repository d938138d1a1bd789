//! The stateless pre-flop heuristic: a single request with the visible
//! cards and betting quantities in, a single action out.

use vstd::prelude::*;
use crate::cards::{Card, rank_value_of};
use crate::engine::{GameStage, PlayerAction};

verus! {

pub struct BotDecisionRequest {
    pub hole_cards: Vec<Card>,
    pub board: Vec<Card>,
    pub stage: GameStage,
    pub pot: u32,
    pub to_call: u32,
    pub big_blind: u32,
    pub min_raise: u32,
}

pub struct BotDecisionResponse {
    pub action: PlayerAction,
    pub raise_to: Option<u32>,
}

/// The decision as a pure function of the hole cards, the stage and the
/// betting quantities. Pre-flop, premium holdings (a pair of tens or
/// better, ace-king or ace-queen, suited broadway) open to three big
/// blinds; playable holdings (pairs, suited cards, close connectors) call
/// up to two big blinds; anything else checks when free and folds
/// otherwise. Post-flop, bets up to one big blind are called and larger
/// ones folded.
pub open spec fn spec_api_decision(
    hole: Seq<Card>,
    stage: GameStage,
    to_call: int,
    big_blind: int,
) -> (PlayerAction, Option<u32>) {
    if hole.len() < 2 {
        (PlayerAction::Fold, None)
    } else {
        let av = rank_value_of(hole[0].rank) as int;
        let bv = rank_value_of(hole[1].rank) as int;
        let pair = av == bv;
        let suited = hole[0].suit == hole[1].suit;
        let gap: int = if av > bv {
            av - bv
        } else {
            bv - av
        };
        let highest: int = if av >= bv {
            av
        } else {
            bv
        };
        let lowest: int = if av >= bv {
            bv
        } else {
            av
        };
        let strong_pair = pair && highest >= 10;
        let big_ace = highest == 14 && lowest >= 12;
        let suited_broadway = suited && highest >= 12 && lowest >= 11;
        let connectors = gap <= 1 && highest >= 10;
        let bb: int = if big_blind >= 1 {
            big_blind
        } else {
            1
        };
        match stage {
            GameStage::PreFlop => {
                if strong_pair || big_ace || suited_broadway {
                    (PlayerAction::Raise, Some((bb * 3) as u32))
                } else if connectors || suited || pair {
                    if to_call == 0 {
                        (PlayerAction::Call, None)
                    } else if to_call <= bb * 2 {
                        (PlayerAction::Call, None)
                    } else {
                        (PlayerAction::Fold, None)
                    }
                } else if to_call == 0 {
                    (PlayerAction::Call, None)
                } else {
                    (PlayerAction::Fold, None)
                }
            },
            _ => {
                if to_call == 0 {
                    (PlayerAction::Call, None)
                } else if to_call <= bb {
                    (PlayerAction::Call, None)
                } else {
                    (PlayerAction::Fold, None)
                }
            },
        }
    }
}

/// Decide an action for the request. With fewer than two hole cards the
/// request folds; otherwise the decision follows `spec_api_decision`
/// exactly.
pub fn decide(req: &BotDecisionRequest) -> (r: BotDecisionResponse)
    requires
        3 * (req.big_blind as int) <= u32::MAX as int,
    ensures
        (r.action, r.raise_to) == spec_api_decision(
            req.hole_cards@,
            req.stage,
            req.to_call as int,
            req.big_blind as int,
        ),
{
    if req.hole_cards.len() < 2 {
        return BotDecisionResponse { action: PlayerAction::Fold, raise_to: None };
    }
    let a = req.hole_cards[0];
    let b = req.hole_cards[1];
    let av = a.rank_value();
    let bv = b.rank_value();
    let pair = av == bv;
    let suited = a.suit == b.suit;
    let gap = if av > bv {
        av - bv
    } else {
        bv - av
    };
    let highest = if av >= bv {
        av
    } else {
        bv
    };
    let lowest = if av >= bv {
        bv
    } else {
        av
    };
    let strong_pair = pair && highest >= 10;
    let big_ace = highest == 14 && lowest >= 12;
    let suited_broadway = suited && highest >= 12 && lowest >= 11;
    let connectors = gap <= 1 && highest >= 10;
    let to_call = req.to_call;
    let bb = if req.big_blind >= 1 {
        req.big_blind
    } else {
        1
    };
    match req.stage {
        GameStage::PreFlop => {
            if strong_pair || big_ace || suited_broadway {
                BotDecisionResponse { action: PlayerAction::Raise, raise_to: Some(bb * 3) }
            } else if connectors || suited || pair {
                if to_call == 0 {
                    BotDecisionResponse { action: PlayerAction::Call, raise_to: None }
                } else if to_call <= bb * 2 {
                    BotDecisionResponse { action: PlayerAction::Call, raise_to: None }
                } else {
                    BotDecisionResponse { action: PlayerAction::Fold, raise_to: None }
                }
            } else if to_call == 0 {
                BotDecisionResponse { action: PlayerAction::Call, raise_to: None }
            } else {
                BotDecisionResponse { action: PlayerAction::Fold, raise_to: None }
            }
        },
        _ => {
            if to_call == 0 {
                BotDecisionResponse { action: PlayerAction::Call, raise_to: None }
            } else if to_call <= bb {
                BotDecisionResponse { action: PlayerAction::Call, raise_to: None }
            } else {
                BotDecisionResponse { action: PlayerAction::Fold, raise_to: None }
            }
        },
    }
}

} // verus!
