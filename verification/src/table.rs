//! The multi-seat table engine: table state, the betting-round state
//! machine, showdown pot distribution, and the bot decision heuristic.
//!
//! One table is owned exclusively by its store; every mutation here assumes
//! that exclusive access and is a single atomic step from the caller's view.

use vstd::prelude::*;
use vstd::string::StringExecFns;
use crate::cards::{Card, full_deck};
use crate::engine::{GameState, LogKind};
use crate::eval::{HandRank, spec_eval_rank, cards_of, evaluate_best_hand};
use crate::platform::{new_id, now_time, now_plus_ms, rand_range_u64, percent_draw};
use crate::text::{dec_str, u32_string};

verus! {

#[derive(Clone, Copy, Debug, PartialEq, Eq, Structural)]
pub enum TableStage {
    DealerDraw,
    PreFlop,
    Flop,
    Turn,
    River,
    Showdown,
}

/// Bot strength, fixed per table.
#[derive(Clone, Copy, Debug, PartialEq, Eq, Structural)]
pub enum Difficulty {
    Easy,
    Medium,
    Hard,
}

#[derive(Clone, Debug)]
pub struct TablePlayer {
    pub id: String,
    pub name: String,
    pub is_bot: bool,
    pub is_hero: bool,
    pub chips: u32,
    pub bet: u32,
    pub hole_cards: Vec<Card>,
    pub has_folded: bool,
    pub seat_index: i32,
}

#[derive(Clone, Debug)]
pub struct TableLogEntry {
    pub message: String,
    pub time: String,
    pub kind: Option<LogKind>,
    pub stage: Option<TableStage>,
}

/// Chip-denomination breakdown of the pot; carried for the client, never
/// filled by the engine.
#[derive(Clone, Debug)]
pub struct PotStackBreakdown(pub Vec<(u32, u32)>);

#[derive(Clone, Debug)]
pub struct TableConfigRequest {
    pub small_blind: u32,
    pub big_blind: u32,
    pub num_bots: u32,
    pub starting_chips: u32,
    pub difficulty: Option<Difficulty>,
    pub time_limit_seconds: Option<u32>,
}

#[derive(Clone, Copy, Debug, PartialEq, Eq, Structural)]
pub enum TableAction {
    Fold,
    Call,
    Raise,
    Check,
    AllIn,
}

#[derive(Clone, Debug)]
pub struct TablePlayerActionRequest {
    pub player_id: String,
    pub action: TableAction,
    pub raise_to: Option<u32>,
}

#[derive(Clone, Debug)]
pub struct TableStateServer {
    pub table_id: String,
    pub deck: Vec<Card>,
    pub board: Vec<Card>,
    pub burned: Vec<Card>,
    pub players: Vec<TablePlayer>,
    pub dealer_index: i32,
    pub small_blind_index: i32,
    pub big_blind_index: i32,
    pub current_player_index: i32,
    pub pot: u32,
    pub pot_stack: PotStackBreakdown,
    pub small_blind: u32,
    pub big_blind: u32,
    pub hand_number: u32,
    pub current_bet: u32,
    pub stage: TableStage,
    pub logs: Vec<TableLogEntry>,
    pub last_raiser_index: Option<i32>,
    pub round_start_index: Option<i32>,
    pub bot_pending_index: Option<i32>,
    pub difficulty: Option<Difficulty>,
    pub dealer_draw_cards: Option<Vec<(String, Card)>>,
    pub dealer_draw_revealed: Option<bool>,
    pub dealer_draw_in_progress: Option<bool>,
    pub time_limit_seconds: u32,
    pub bot_decision_due_at: Option<String>,
}

/// Total chips held by the seats.
pub open spec fn sum_chips(ps: Seq<TablePlayer>) -> int
    decreases ps.len(),
{
    if ps.len() == 0 {
        0
    } else {
        ps[0].chips + sum_chips(ps.drop_first())
    }
}

/// Every hole card at the table, seat by seat.
pub open spec fn holes_of(ps: Seq<TablePlayer>) -> Seq<Card>
    decreases ps.len(),
{
    if ps.len() == 0 {
        Seq::empty()
    } else {
        ps[0].hole_cards@ + holes_of(ps.drop_first())
    }
}

/// Every card the table holds, wherever it lies.
pub open spec fn table_cards(t: TableStateServer) -> Seq<Card> {
    t.deck@ + t.board@ + t.burned@ + holes_of(t.players@)
}

/// The table still holds exactly the one full 52-card set.
pub open spec fn cards_ok(t: TableStateServer) -> bool {
    table_cards(t).to_multiset() == full_deck().to_multiset()
}

/// The chips that are still in play: the seats' stacks, plus the pot while
/// the hand is live. Once showdown has paid the pot out, the stale pot field
/// no longer counts.
pub open spec fn money(t: TableStateServer) -> int {
    sum_chips(t.players@) + if t.stage == TableStage::Showdown {
        0
    } else {
        t.pot as int
    }
}

pub open spec fn valid_seat(t: TableStateServer, i: int) -> bool {
    0 <= i < t.players@.len()
}

/// Structural soundness of a table: seat bounds on every index, seats
/// numbered in order, bets covered by the pot, and all chips in play
/// (plus raise headroom of four big blinds) fitting in a u32.
pub open spec fn wf_table(t: TableStateServer) -> bool {
    &&& 1 <= t.players@.len() <= 11
    &&& valid_seat(t, t.current_player_index as int)
    &&& (t.dealer_index == -1 || valid_seat(t, t.dealer_index as int))
    &&& (t.small_blind_index == -1 || valid_seat(t, t.small_blind_index as int))
    &&& (t.big_blind_index == -1 || valid_seat(t, t.big_blind_index as int))
    &&& (t.last_raiser_index matches Some(i) ==> valid_seat(t, i as int))
    &&& (t.round_start_index matches Some(i) ==> valid_seat(t, i as int))
    &&& (t.bot_pending_index matches Some(i) ==> valid_seat(t, i as int))
    &&& (forall|i: int|
        0 <= i < t.players@.len() ==> (#[trigger] t.players@[i]).seat_index == i)
    &&& (forall|i: int| 0 <= i < t.players@.len() ==> (#[trigger] t.players@[i]).bet <= t.pot)
    &&& t.current_bet <= t.pot
    &&& money(t) + 4 * (t.big_blind as int) <= u32::MAX as int
}

/// Replacing one seat shifts the chip total by the difference at that seat.
pub proof fn lemma_sum_chips_update(ps: Seq<TablePlayer>, i: int, p: TablePlayer)
    requires
        0 <= i < ps.len(),
    ensures
        sum_chips(ps.update(i, p)) == sum_chips(ps) - ps[i].chips + p.chips,
    decreases ps.len(),
{
    if i == 0 {
        assert(ps.update(0, p).drop_first() =~= ps.drop_first());
    } else {
        assert(ps.update(i, p).drop_first() =~= ps.drop_first().update(i - 1, p));
        lemma_sum_chips_update(ps.drop_first(), i - 1, p);
    }
}

/// Each seat's stack is at most the total.
pub proof fn lemma_sum_chips_elem(ps: Seq<TablePlayer>, i: int)
    requires
        0 <= i < ps.len(),
    ensures
        ps[i].chips <= sum_chips(ps),
        sum_chips(ps) >= 0,
    decreases ps.len(),
{
    lemma_sum_chips_nonneg(ps.drop_first());
    if i > 0 {
        lemma_sum_chips_elem(ps.drop_first(), i - 1);
    }
}

pub proof fn lemma_sum_chips_nonneg(ps: Seq<TablePlayer>)
    ensures
        sum_chips(ps) >= 0,
    decreases ps.len(),
{
    if ps.len() > 0 {
        lemma_sum_chips_nonneg(ps.drop_first());
    }
}

/// Replacing one seat with one holding the same hole cards leaves the
/// table's hole cards unchanged.
pub proof fn lemma_holes_update_same(ps: Seq<TablePlayer>, i: int, p: TablePlayer)
    requires
        0 <= i < ps.len(),
        p.hole_cards == ps[i].hole_cards,
    ensures
        holes_of(ps.update(i, p)) == holes_of(ps),
    decreases ps.len(),
{
    if i == 0 {
        assert(ps.update(0, p).drop_first() =~= ps.drop_first());
    } else {
        assert(ps.update(i, p).drop_first() =~= ps.drop_first().update(i - 1, p));
        lemma_holes_update_same(ps.drop_first(), i - 1, p);
    }
}

/// Giving one seat one more hole card inserts that card into the table's
/// hole-card multiset.
pub proof fn lemma_holes_update_push(ps: Seq<TablePlayer>, i: int, p: TablePlayer, c: Card)
    requires
        0 <= i < ps.len(),
        p.hole_cards@ == ps[i].hole_cards@.push(c),
    ensures
        holes_of(ps.update(i, p)).to_multiset() == holes_of(ps).to_multiset().insert(c),
    decreases ps.len(),
{
    broadcast use vstd::seq_lib::lemma_multiset_commutative;
    broadcast use vstd::seq_lib::group_to_multiset_ensures;
    broadcast use vstd::multiset::group_multiset_axioms;

    if i == 0 {
        assert(ps.update(0, p).drop_first() =~= ps.drop_first());
        assert(holes_of(ps.update(0, p)) == p.hole_cards@ + holes_of(ps.drop_first()));
        assert(p.hole_cards@.to_multiset() =~= ps[0].hole_cards@.to_multiset().insert(c));
        assert(holes_of(ps.update(0, p)).to_multiset() =~= holes_of(ps).to_multiset().insert(c));
    } else {
        assert(ps.update(i, p).drop_first() =~= ps.drop_first().update(i - 1, p));
        lemma_holes_update_push(ps.drop_first(), i - 1, p, c);
        assert(holes_of(ps.update(i, p)) == ps[0].hole_cards@ + holes_of(
            ps.drop_first().update(i - 1, p),
        ));
        assert(holes_of(ps.update(i, p)).to_multiset() =~= holes_of(ps).to_multiset().insert(c));
    }
}

/// A seat that may still act: not folded, with chips behind.
pub open spec fn is_live(p: TablePlayer) -> bool {
    !p.has_folded && p.chips > 0
}

/// The first live seat reached clockwise from `start` after skipping `step`
/// seats; falls back to `start % len` when a full lap finds none.
pub open spec fn spec_first_active_from(ps: Seq<TablePlayer>, start: int, step: int) -> int
    recommends
        ps.len() > 0,
        0 <= start,
        0 <= step <= ps.len(),
    decreases ps.len() - step,
{
    let n = ps.len() as int;
    if step >= n {
        start % n
    } else if is_live(ps[(start + step) % n]) {
        (start + step) % n
    } else {
        spec_first_active_from(ps, start, step + 1)
    }
}

/// Turn soundness: as long as any seat is live, the clockwise scan lands on
/// a live seat — never on one that is folded or out of chips. Street entries
/// seat the turn by this scan; mid-round turn passing skips only folded
/// seats, so there an all-in seat may still hold the turn.
pub proof fn lemma_first_active_is_live(ps: Seq<TablePlayer>, start: int)
    requires
        ps.len() > 0,
        0 <= start,
        exists|j: int| 0 <= j < ps.len() && is_live(#[trigger] ps[j]),
    ensures
        is_live(ps[spec_first_active_from(ps, start, 0)]),
{
    lemma_first_active_aux(ps, start, 0);
}

proof fn lemma_first_active_aux(ps: Seq<TablePlayer>, start: int, step: int)
    requires
        ps.len() > 0,
        0 <= start,
        0 <= step <= ps.len(),
        exists|j: int| 0 <= j < ps.len() && is_live(#[trigger] ps[j]),
        forall|k: int|
            0 <= k < step ==> !is_live(ps[(#[trigger] ((start + k) % (ps.len() as int)))]),
    ensures
        is_live(ps[spec_first_active_from(ps, start, step)]),
    decreases ps.len() - step,
{
    let n = ps.len() as int;
    if step >= n {
        let j = choose|j: int| 0 <= j < ps.len() && is_live(#[trigger] ps[j]);
        let k = (j - start) % n;
        assert(0 <= k < n) by {
            vstd::arithmetic::div_mod::lemma_mod_bound(j - start, n);
        }
        assert((start + k) % n == j) by {
            vstd::arithmetic::div_mod::lemma_add_mod_noop(start, (j - start) % n, n);
            vstd::arithmetic::div_mod::lemma_mod_twice(j - start, n);
            assert((start % n + ((j - start) % n) % n) % n == (start + (j - start) % n) % n);
            vstd::arithmetic::div_mod::lemma_add_mod_noop(start, j - start, n);
            assert((start + (j - start)) % n == j % n);
            vstd::arithmetic::div_mod::lemma_small_mod(j as nat, n as nat);
        }
        assert(!is_live(ps[j]));
        assert(false);
    } else if is_live(ps[(start + step) % n]) {
    } else {
        lemma_first_active_aux(ps, start, step + 1);
    }
}

/// The first seat clockwise from `start` that has not folded and still has
/// chips; `start` itself when a full lap finds none.
pub fn first_active_from(t: &TableStateServer, start: i32) -> (r: i32)
    requires
        t.players@.len() >= 1,
        0 <= start,
        start + t.players@.len() <= i32::MAX,
    ensures
        r as int == spec_first_active_from(t.players@, start as int, 0),
        0 <= r < t.players@.len(),
{
    let n = t.players.len() as i32;
    let mut step: i32 = 0;
    while step < n
        invariant
            t.players@.len() >= 1,
            n == t.players@.len(),
            0 <= start,
            start + n <= i32::MAX,
            0 <= step <= n,
            spec_first_active_from(t.players@, start as int, 0) == spec_first_active_from(
                t.players@,
                start as int,
                step as int,
            ),
        decreases n - step,
    {
        let idx = ((start + step) % n) as usize;
        let p = &t.players[idx];
        if !p.has_folded && p.chips > 0 {
            return (start + step) % n;
        }
        step = step + 1;
    }
    start % n
}

/// Appending a seat adds its stack to the total.
pub proof fn lemma_sum_chips_push(ps: Seq<TablePlayer>, p: TablePlayer)
    ensures
        sum_chips(ps.push(p)) == sum_chips(ps) + p.chips,
    decreases ps.len(),
{
    if ps.len() == 0 {
        assert(ps.push(p)[0] == p);
        assert(ps.push(p).drop_first() =~= Seq::<TablePlayer>::empty());
        assert(sum_chips(Seq::<TablePlayer>::empty()) == 0);
        assert(sum_chips(ps.push(p)) == p.chips + sum_chips(ps.push(p).drop_first()));
    } else {
        assert(ps.push(p)[0] == ps[0]);
        assert(ps.push(p).drop_first() =~= ps.drop_first().push(p));
        lemma_sum_chips_push(ps.drop_first(), p);
        assert(sum_chips(ps.push(p)) == ps[0].chips + sum_chips(ps.push(p).drop_first()));
    }
}

/// Appending a seat appends its hole cards.
pub proof fn lemma_holes_push(ps: Seq<TablePlayer>, p: TablePlayer)
    ensures
        holes_of(ps.push(p)) == holes_of(ps) + p.hole_cards@,
    decreases ps.len(),
{
    if ps.len() == 0 {
        assert(ps.push(p)[0] == p);
        assert(ps.push(p).drop_first() =~= Seq::<TablePlayer>::empty());
        assert(holes_of(Seq::<TablePlayer>::empty()) == Seq::<Card>::empty());
        assert(holes_of(ps.push(p)) == p.hole_cards@ + holes_of(ps.push(p).drop_first()));
        assert(holes_of(ps.push(p)) =~= holes_of(ps) + p.hole_cards@);
    } else {
        assert(ps.push(p)[0] == ps[0]);
        assert(ps.push(p).drop_first() =~= ps.drop_first().push(p));
        lemma_holes_push(ps.drop_first(), p);
        assert(holes_of(ps.push(p)) == ps[0].hole_cards@ + holes_of(ps.push(p).drop_first()));
        assert(holes_of(ps.push(p)) =~= holes_of(ps) + p.hole_cards@);
    }
}

/// All fields agree except the log.
pub open spec fn t_eq_except_logs(a: TableStateServer, b: TableStateServer) -> bool {
    &&& b.table_id == a.table_id
    &&& b.deck == a.deck
    &&& b.board == a.board
    &&& b.burned == a.burned
    &&& b.players == a.players
    &&& b.dealer_index == a.dealer_index
    &&& b.small_blind_index == a.small_blind_index
    &&& b.big_blind_index == a.big_blind_index
    &&& b.current_player_index == a.current_player_index
    &&& b.pot == a.pot
    &&& b.pot_stack == a.pot_stack
    &&& b.small_blind == a.small_blind
    &&& b.big_blind == a.big_blind
    &&& b.hand_number == a.hand_number
    &&& b.current_bet == a.current_bet
    &&& b.stage == a.stage
    &&& b.last_raiser_index == a.last_raiser_index
    &&& b.round_start_index == a.round_start_index
    &&& b.bot_pending_index == a.bot_pending_index
    &&& b.difficulty == a.difficulty
    &&& b.dealer_draw_cards == a.dealer_draw_cards
    &&& b.dealer_draw_revealed == a.dealer_draw_revealed
    &&& b.dealer_draw_in_progress == a.dealer_draw_in_progress
    &&& b.time_limit_seconds == a.time_limit_seconds
    &&& b.bot_decision_due_at == a.bot_decision_due_at
}

/// All fields agree except the bot-decision due timestamp; the log too.
pub open spec fn t_eq_except_due(a: TableStateServer, b: TableStateServer) -> bool {
    &&& b.table_id == a.table_id
    &&& b.deck == a.deck
    &&& b.board == a.board
    &&& b.burned == a.burned
    &&& b.players == a.players
    &&& b.dealer_index == a.dealer_index
    &&& b.small_blind_index == a.small_blind_index
    &&& b.big_blind_index == a.big_blind_index
    &&& b.current_player_index == a.current_player_index
    &&& b.pot == a.pot
    &&& b.pot_stack == a.pot_stack
    &&& b.small_blind == a.small_blind
    &&& b.big_blind == a.big_blind
    &&& b.hand_number == a.hand_number
    &&& b.current_bet == a.current_bet
    &&& b.stage == a.stage
    &&& b.logs == a.logs
    &&& b.last_raiser_index == a.last_raiser_index
    &&& b.round_start_index == a.round_start_index
    &&& b.bot_pending_index == a.bot_pending_index
    &&& b.difficulty == a.difficulty
    &&& b.dealer_draw_cards == a.dealer_draw_cards
    &&& b.dealer_draw_revealed == a.dealer_draw_revealed
    &&& b.dealer_draw_in_progress == a.dealer_draw_in_progress
    &&& b.time_limit_seconds == a.time_limit_seconds
}

/// `b`'s log is `a`'s log plus one entry with the given message, stamped
/// with `a`'s stage.
pub open spec fn t_log_appended(a: TableStateServer, b: TableStateServer, msg: Seq<char>) -> bool {
    &&& b.logs@.len() == a.logs@.len() + 1
    &&& forall|i: int| 0 <= i < a.logs@.len() ==> #[trigger] b.logs@[i] == a.logs@[i]
    &&& b.logs@.last().message@ == msg
    &&& b.logs@.last().kind is None
    &&& b.logs@.last().stage == Some(a.stage)
}

/// `b`'s log extends `a`'s log.
pub open spec fn t_logs_grew(a: TableStateServer, b: TableStateServer) -> bool {
    &&& b.logs@.len() >= a.logs@.len()
    &&& forall|i: int| 0 <= i < a.logs@.len() ==> #[trigger] b.logs@[i] == a.logs@[i]
}

/// How a player is named in the log: the hero as "You", anyone else by name.
pub open spec fn actor_label(p: TablePlayer) -> Seq<char> {
    if p.is_hero {
        "You"@
    } else {
        p.name@
    }
}

/// The exact effect of one betting action on the seats, the pot and the
/// table's current bet: a fold marks the seat; a check or call pays
/// min(owed, stack) into the pot; a raise pays up to the target and lifts
/// the current bet to the seat's new bet if that is higher. Everything is
/// clamped to the chips behind; nothing is ever rejected.
pub open spec fn bet_action_effect(
    a: TableStateServer,
    b: TableStateServer,
    idx: int,
    action: TableAction,
    raise_to: Option<u32>,
) -> bool {
    let p = a.players@[idx];
    match action {
        TableAction::Fold => {
            &&& b.players@ == a.players@.update(idx, (TablePlayer { has_folded: true, ..p }))
            &&& b.pot == a.pot
            &&& b.current_bet == a.current_bet
        },
        TableAction::Check | TableAction::Call => {
            let to_call: int = if a.current_bet >= p.bet {
                a.current_bet - p.bet
            } else {
                0
            };
            let pay: int = if to_call <= p.chips {
                to_call
            } else {
                p.chips as int
            };
            &&& b.players@ == a.players@.update(
                idx,
                (TablePlayer { chips: (p.chips - pay) as u32, bet: (p.bet + pay) as u32, ..p }),
            )
            &&& b.pot == a.pot + pay
            &&& b.current_bet == a.current_bet
        },
        TableAction::Raise | TableAction::AllIn => {
            let target: int = match raise_to {
                Some(x) => x as int,
                None => a.current_bet + a.big_blind,
            };
            let needed: int = if target >= p.bet {
                target - p.bet
            } else {
                0
            };
            let pay: int = if needed <= p.chips {
                needed
            } else {
                p.chips as int
            };
            let new_bet: int = p.bet + pay;
            &&& b.players@ == a.players@.update(
                idx,
                (TablePlayer { chips: (p.chips - pay) as u32, bet: new_bet as u32, ..p }),
            )
            &&& b.pot == a.pot + pay
            &&& b.current_bet == if a.current_bet >= new_bet {
                a.current_bet as int
            } else {
                new_bet
            }
        },
    }
}

impl TableStateServer {
    /// Append one timestamped log entry; nothing else changes.
    pub fn push_log(&mut self, message: String)
        ensures
            t_eq_except_logs(*old(self), *final(self)),
            t_log_appended(*old(self), *final(self), message@),
    {
        let time = now_time();
        let entry = TableLogEntry { message, time, kind: None, stage: Some(self.stage) };
        self.logs.push(entry);
    }
}

fn actor_name(p: &TablePlayer) -> (s: String)
    ensures
        s@ == actor_label(*p),
{
    if p.is_hero {
        String::from_str("You")
    } else {
        p.name.clone()
    }
}

/// Apply one betting action at seat `idx` exactly as `bet_action_effect`
/// states, and log it. Used by the bot path, which tracks no last raiser.
#[verifier::rlimit(100)]
pub fn apply_player_action_inline(
    t: &mut TableStateServer,
    idx: usize,
    action: TableAction,
    raise_to: Option<u32>,
)
    requires
        wf_table(*old(t)),
        idx < old(t).players@.len(),
        old(t).stage != TableStage::Showdown,
    ensures
        bet_action_effect(*old(t), *final(t), idx as int, action, raise_to),
        wf_table(*final(t)),
        final(t).pot + sum_chips(final(t).players@) == old(t).pot + sum_chips(old(t).players@),
        holes_of(final(t).players@) == holes_of(old(t).players@),
        final(t).deck == old(t).deck,
        final(t).board == old(t).board,
        final(t).burned == old(t).burned,
        final(t).stage == old(t).stage,
        final(t).dealer_index == old(t).dealer_index,
        final(t).small_blind_index == old(t).small_blind_index,
        final(t).big_blind_index == old(t).big_blind_index,
        final(t).current_player_index == old(t).current_player_index,
        final(t).last_raiser_index == old(t).last_raiser_index,
        final(t).round_start_index == old(t).round_start_index,
        final(t).bot_pending_index == old(t).bot_pending_index,
        final(t).big_blind == old(t).big_blind,
        final(t).small_blind == old(t).small_blind,
        final(t).hand_number == old(t).hand_number,
        final(t).table_id == old(t).table_id,
        final(t).difficulty == old(t).difficulty,
        final(t).time_limit_seconds == old(t).time_limit_seconds,
        final(t).bot_decision_due_at == old(t).bot_decision_due_at,
        final(t).players@.len() == old(t).players@.len(),
        final(t).players@[idx as int].id == old(t).players@[idx as int].id,
        forall|j: int|
            0 <= j < old(t).players@.len() && j != idx ==> final(t).players@[j] == old(t).players@[j],
        t_log_appended(
            *old(t),
            *final(t),
            bet_action_message(*old(t), idx as int, action, raise_to),
        ),
    {
        let ghost a = *t;
        proof {
            lemma_sum_chips_elem(t.players@, idx as int);
        }
        match action {
            TableAction::Fold => {
                {
                    let p = &mut t.players[idx];
                    p.has_folded = true;
                }
                proof {
                    assert(t.players@ =~= a.players@.update(
                        idx as int,
                        (TablePlayer { has_folded: true, ..a.players@[idx as int] }),
                    ));
                    lemma_sum_chips_update(
                        a.players@,
                        idx as int,
                        t.players@[idx as int],
                    );
                    lemma_holes_update_same(a.players@, idx as int, t.players@[idx as int]);
                }
                let mut m = actor_name(&t.players[idx]);
                m.append(" folded");
                t.push_log(m);
            },
            TableAction::Check | TableAction::Call => {
                let cur = t.players[idx].bet;
                let chips = t.players[idx].chips;
                let to_call = if t.current_bet >= cur {
                    t.current_bet - cur
                } else {
                    0
                };
                let pay = if to_call <= chips {
                    to_call
                } else {
                    chips
                };
                {
                    let p = &mut t.players[idx];
                    p.chips = p.chips - pay;
                    p.bet = p.bet + pay;
                }
                proof {
                    lemma_sum_chips_update(a.players@, idx as int, t.players@[idx as int]);
                    lemma_holes_update_same(a.players@, idx as int, t.players@[idx as int]);
                }
                t.pot = t.pot + pay;
                let mut m = actor_name(&t.players[idx]);
                if to_call == 0 {
                    m.append(" checked");
                } else {
                    m.append(" called ");
                    let amt = u32_string(pay);
                    m.append(amt.as_str());
                }
                t.push_log(m);
            },
            TableAction::Raise | TableAction::AllIn => {
                let cur = t.players[idx].bet;
                let chips = t.players[idx].chips;
                let target = match raise_to {
                    Some(x) => x,
                    None => t.current_bet + t.big_blind,
                };
                let needed = if target >= cur {
                    target - cur
                } else {
                    0
                };
                let pay = if needed <= chips {
                    needed
                } else {
                    chips
                };
                let new_bet = cur + pay;
                {
                    let p = &mut t.players[idx];
                    p.chips = p.chips - pay;
                    p.bet = p.bet + pay;
                }
                proof {
                    lemma_sum_chips_update(a.players@, idx as int, t.players@[idx as int]);
                    lemma_holes_update_same(a.players@, idx as int, t.players@[idx as int]);
                }
                t.pot = t.pot + pay;
                t.current_bet = if t.current_bet >= new_bet {
                    t.current_bet
                } else {
                    new_bet
                };
                let mut m = actor_name(&t.players[idx]);
                m.append(" raised to ");
                let amt = u32_string(new_bet);
                m.append(amt.as_str());
                t.push_log(m);
            },
        }
    }

/// The hero at seat 0 followed by up to ten bots, every stack at the
/// configured starting amount.
pub fn make_default_players(num_bots: u32, starting_chips: u32) -> (ps: Vec<TablePlayer>)
    ensures
        ps@.len() == 1 + (if num_bots < 10 {
            num_bots as int
        } else {
            10
        }),
        ps@[0].is_hero && !ps@[0].is_bot && ps@[0].name@ == "You"@,
        forall|j: int|
            1 <= j < ps@.len() ==> (#[trigger] ps@[j]).is_bot && !ps@[j].is_hero && ps@[j].name@
                == "Bot "@ + dec_str(j),
        forall|j: int|
            0 <= j < ps@.len() ==> {
                let p = #[trigger] ps@[j];
                &&& p.chips == starting_chips
                &&& p.bet == 0
                &&& p.hole_cards@.len() == 0
                &&& !p.has_folded
                &&& p.seat_index == j
            },
        sum_chips(ps@) == ps@.len() * starting_chips,
        holes_of(ps@) == Seq::<Card>::empty(),
{
    let mut players: Vec<TablePlayer> = Vec::new();
    let hero = TablePlayer {
        id: new_id(),
        name: String::from_str("You"),
        is_bot: false,
        is_hero: true,
        chips: starting_chips,
        bet: 0,
        hole_cards: Vec::new(),
        has_folded: false,
        seat_index: 0,
    };
    proof {
        lemma_sum_chips_push(players@, hero);
        lemma_holes_push(players@, hero);
    }
    players.push(hero);
    proof {
        assert(holes_of(players@) =~= Seq::<Card>::empty());
    }
    let n = if num_bots < 10 {
        num_bots
    } else {
        10
    };
    let mut i: u32 = 0;
    while i < n
        invariant
            n <= 10,
            i <= n,
            players@.len() == 1 + i,
            players@[0].is_hero && !players@[0].is_bot && players@[0].name@ == "You"@,
            forall|j: int|
                1 <= j < players@.len() ==> (#[trigger] players@[j]).is_bot
                    && !players@[j].is_hero && players@[j].name@ == "Bot "@ + dec_str(j),
            forall|j: int|
                0 <= j < players@.len() ==> {
                    let p = #[trigger] players@[j];
                    &&& p.chips == starting_chips
                    &&& p.bet == 0
                    &&& p.hole_cards@.len() == 0
                    &&& !p.has_folded
                    &&& p.seat_index == j
                },
            sum_chips(players@) == players@.len() * starting_chips,
            holes_of(players@) == Seq::<Card>::empty(),
        decreases n - i,
    {
        let mut name = String::from_str("Bot ");
        let num = u32_string(i + 1);
        name.append(num.as_str());
        let bot = TablePlayer {
            id: new_id(),
            name,
            is_bot: true,
            is_hero: false,
            chips: starting_chips,
            bet: 0,
            hole_cards: Vec::new(),
            has_folded: false,
            seat_index: (i as i32) + 1,
        };
        proof {
            lemma_sum_chips_push(players@, bot);
            lemma_holes_push(players@, bot);
            assert(holes_of(players@) + bot.hole_cards@ =~= Seq::<Card>::empty());
            assert((players@.len() + 1) * (starting_chips as int) == players@.len() * (
            starting_chips as int) + starting_chips) by (nonlinear_arith);
        }
        players.push(bot);
        i = i + 1;
    }
    players
}

/// A fresh table in the dealer-draw stage: a shuffled full deck, no blinds
/// posted yet, seat 0 to act, the pot empty.
pub fn new_table_from_cfg(cfg: &TableConfigRequest) -> (t: TableStateServer)
    requires
        (1 + (if cfg.num_bots < 10 {
            cfg.num_bots as int
        } else {
            10
        })) * cfg.starting_chips + 4 * (cfg.big_blind as int) <= u32::MAX as int,
    ensures
        wf_table(t),
        cards_ok(t),
        t.stage == TableStage::DealerDraw,
        t.pot == 0,
        t.current_bet == 0,
        t.hand_number == 1,
        t.dealer_index == -1,
        t.small_blind_index == -1,
        t.big_blind_index == -1,
        t.current_player_index == 0,
        t.small_blind == cfg.small_blind,
        t.big_blind == cfg.big_blind,
        t.difficulty == cfg.difficulty,
        t.time_limit_seconds == (match cfg.time_limit_seconds {
            Some(v) => v,
            None => 15u32,
        }),
        t.last_raiser_index is None,
        t.round_start_index is None,
        t.bot_pending_index is None,
        t.board@.len() == 0,
        t.burned@.len() == 0,
        t.deck@.len() == 52,
        t.players@.len() == 1 + (if cfg.num_bots < 10 {
            cfg.num_bots as int
        } else {
            10
        }),
        forall|j: int|
            0 <= j < t.players@.len() ==> {
                let p = #[trigger] t.players@[j];
                &&& p.chips == cfg.starting_chips
                &&& p.bet == 0
                &&& p.hole_cards@.len() == 0
                &&& !p.has_folded
                &&& p.seat_index == j
                &&& (p.is_bot <==> j >= 1)
            },
{
    let mut deck = GameState::create_deck();
    GameState::shuffle_deck(&mut deck);
    let mut logs: Vec<TableLogEntry> = Vec::new();
    let time = now_time();
    logs.push(
        TableLogEntry {
            message: String::from_str("Table created (Dealer draw)"),
            time,
            kind: None,
            stage: Some(TableStage::DealerDraw),
        },
    );
    let players = make_default_players(cfg.num_bots, cfg.starting_chips);
    let time_limit = match cfg.time_limit_seconds {
        Some(v) => v,
        None => 15,
    };
    let t = TableStateServer {
        table_id: new_id(),
        deck,
        board: Vec::new(),
        burned: Vec::new(),
        players,
        dealer_index: -1,
        small_blind_index: -1,
        big_blind_index: -1,
        current_player_index: 0,
        pot: 0,
        pot_stack: PotStackBreakdown(Vec::new()),
        small_blind: cfg.small_blind,
        big_blind: cfg.big_blind,
        hand_number: 1,
        current_bet: 0,
        stage: TableStage::DealerDraw,
        logs,
        last_raiser_index: None,
        round_start_index: None,
        bot_pending_index: None,
        difficulty: cfg.difficulty,
        dealer_draw_cards: Some(Vec::new()),
        dealer_draw_revealed: Some(false),
        dealer_draw_in_progress: Some(true),
        time_limit_seconds: time_limit,
        bot_decision_due_at: None,
    };
    proof {
        assert(table_cards(t) =~= t.deck@);
        assert(cards_ok(t));
        lemma_sum_chips_nonneg(t.players@);
    }
    t
}

/// The integer strength of a hand category, 1 (high card) through 10.
pub open spec fn spec_hand_rank_value(hr: HandRank) -> u8 {
    match hr {
        HandRank::HighCard => 1,
        HandRank::Pair => 2,
        HandRank::TwoPair => 3,
        HandRank::ThreeOfAKind => 4,
        HandRank::Straight => 5,
        HandRank::Flush => 6,
        HandRank::FullHouse => 7,
        HandRank::FourOfAKind => 8,
        HandRank::StraightFlush => 9,
        HandRank::RoyalFlush => 10,
    }
}

pub fn hand_rank_value(hr: &HandRank) -> (v: u8)
    ensures
        v == spec_hand_rank_value(*hr),
{
    match hr {
        HandRank::HighCard => 1,
        HandRank::Pair => 2,
        HandRank::TwoPair => 3,
        HandRank::ThreeOfAKind => 4,
        HandRank::Straight => 5,
        HandRank::Flush => 6,
        HandRank::FullHouse => 7,
        HandRank::FourOfAKind => 8,
        HandRank::StraightFlush => 9,
        HandRank::RoyalFlush => 10,
    }
}

/// The seats, in order, that have not folded, among seats 0..i.
pub open spec fn active_seats_upto(ps: Seq<TablePlayer>, i: int) -> Seq<int>
    decreases i,
{
    if i <= 0 {
        Seq::empty()
    } else {
        let w = active_seats_upto(ps, i - 1);
        if !ps[i - 1].has_folded {
            w.push(i - 1)
        } else {
            w
        }
    }
}

/// A seat whose hand can be evaluated at showdown: unfolded, with two hole
/// cards, on a complete board.
pub open spec fn eligible(t: TableStateServer, i: int) -> bool {
    &&& !t.players@[i].has_folded
    &&& t.players@[i].hole_cards@.len() >= 2
    &&& t.board@.len() >= 5
}

/// The seven cards seat `i` shows down: two hole cards and the board.
pub open spec fn seven_of(t: TableStateServer, i: int) -> Seq<Card> {
    seq![
        t.players@[i].hole_cards@[0],
        t.players@[i].hole_cards@[1],
        t.board@[0],
        t.board@[1],
        t.board@[2],
        t.board@[3],
        t.board@[4],
    ]
}

/// The category strength seat `i` shows down.
pub open spec fn score_of(t: TableStateServer, i: int) -> int {
    spec_hand_rank_value(spec_eval_rank(seven_of(t, i))) as int
}

/// The best strength among eligible seats 0..i, 0 when none.
pub open spec fn show_best_upto(t: TableStateServer, i: int) -> int
    decreases i,
{
    if i <= 0 {
        0
    } else {
        let b = show_best_upto(t, i - 1);
        if eligible(t, i - 1) && score_of(t, i - 1) > b {
            score_of(t, i - 1)
        } else {
            b
        }
    }
}

/// The seats among 0..i that hold the best strength seen so far, in the
/// order they were discovered (ascending seat order).
pub open spec fn show_winners_upto(t: TableStateServer, i: int) -> Seq<int>
    decreases i,
{
    if i <= 0 {
        Seq::empty()
    } else {
        let w = show_winners_upto(t, i - 1);
        if eligible(t, i - 1) {
            let s = score_of(t, i - 1);
            let b = show_best_upto(t, i - 1);
            if s > b {
                seq![i - 1]
            } else if s == b {
                w.push(i - 1)
            } else {
                w
            }
        } else {
            w
        }
    }
}

/// The discovered-winner list is strictly ascending and within bounds.
proof fn lemma_winners_shape(t: TableStateServer, i: int)
    ensures
        forall|k: int|
            0 <= k < show_winners_upto(t, i).len() ==> 0 <= #[trigger] show_winners_upto(t, i)[k]
                < i,
        forall|a: int, b: int|
            0 <= a < b < show_winners_upto(t, i).len() ==> #[trigger] show_winners_upto(t, i)[a]
                < #[trigger] show_winners_upto(t, i)[b],
    decreases i,
{
    if i > 0 {
        lemma_winners_shape(t, i - 1);
        let w0 = show_winners_upto(t, i - 1);
        let w = show_winners_upto(t, i);
        assert(w == w0 || w == w0.push(i - 1) || w == seq![i - 1]);
        assert forall|k: int| 0 <= k < w.len() implies 0 <= #[trigger] w[k] < i by {
            if w == w0.push(i - 1) && k < w0.len() {
                assert(w[k] == w0[k]);
            }
        }
        assert forall|a: int, b: int| 0 <= a < b < w.len() implies #[trigger] w[a]
            < #[trigger] w[b] by {
            if w == w0.push(i - 1) {
                if b < w0.len() {
                    assert(w[a] == w0[a] && w[b] == w0[b]);
                } else {
                    assert(w[b] == i - 1);
                    assert(w[a] == w0[a]);
                    assert(w0[a] < i - 1);
                }
            }
        }
    }
}

/// The active-seat list is strictly ascending and within bounds.
proof fn lemma_active_shape(ps: Seq<TablePlayer>, i: int)
    ensures
        forall|k: int|
            0 <= k < active_seats_upto(ps, i).len() ==> 0 <= #[trigger] active_seats_upto(ps, i)[k]
                < i,
        forall|a: int, b: int|
            0 <= a < b < active_seats_upto(ps, i).len() ==> #[trigger] active_seats_upto(ps, i)[a]
                < #[trigger] active_seats_upto(ps, i)[b],
    decreases i,
{
    if i > 0 {
        lemma_active_shape(ps, i - 1);
        let w0 = active_seats_upto(ps, i - 1);
        let w = active_seats_upto(ps, i);
        assert(w == w0 || w == w0.push(i - 1));
        assert forall|k: int| 0 <= k < w.len() implies 0 <= #[trigger] w[k] < i by {
            if w == w0.push(i - 1) && k < w0.len() {
                assert(w[k] == w0[k]);
            }
        }
        assert forall|a: int, b: int| 0 <= a < b < w.len() implies #[trigger] w[a]
            < #[trigger] w[b] by {
            if w == w0.push(i - 1) {
                if b < w0.len() {
                    assert(w[a] == w0[a] && w[b] == w0[b]);
                } else {
                    assert(w[b] == i - 1);
                    assert(w[a] == w0[a]);
                    assert(w0[a] < i - 1);
                }
            }
        }
    }
}

/// Seat by seat, only the chip stacks differ between `a` and `b`.
pub open spec fn chips_only_changed(a: Seq<TablePlayer>, b: Seq<TablePlayer>) -> bool {
    &&& b.len() == a.len()
    &&& forall|j: int|
        0 <= j < a.len() ==> #[trigger] b[j] == (TablePlayer { chips: b[j].chips, ..a[j] })
}

/// All table fields agree except the players and the log.
pub open spec fn t_eq_except_players_logs(a: TableStateServer, b: TableStateServer) -> bool {
    &&& b.table_id == a.table_id
    &&& b.deck == a.deck
    &&& b.board == a.board
    &&& b.burned == a.burned
    &&& b.dealer_index == a.dealer_index
    &&& b.small_blind_index == a.small_blind_index
    &&& b.big_blind_index == a.big_blind_index
    &&& b.current_player_index == a.current_player_index
    &&& b.pot == a.pot
    &&& b.pot_stack == a.pot_stack
    &&& b.small_blind == a.small_blind
    &&& b.big_blind == a.big_blind
    &&& b.hand_number == a.hand_number
    &&& b.current_bet == a.current_bet
    &&& b.stage == a.stage
    &&& b.last_raiser_index == a.last_raiser_index
    &&& b.round_start_index == a.round_start_index
    &&& b.bot_pending_index == a.bot_pending_index
    &&& b.difficulty == a.difficulty
    &&& b.dealer_draw_cards == a.dealer_draw_cards
    &&& b.dealer_draw_revealed == a.dealer_draw_revealed
    &&& b.dealer_draw_in_progress == a.dealer_draw_in_progress
    &&& b.time_limit_seconds == a.time_limit_seconds
    &&& b.bot_decision_due_at == a.bot_decision_due_at
}

/// Split the pot evenly over the listed seats: each gets pot / n, and the
/// first pot % n of them one extra chip. The pot field itself is not
/// cleared; the chips are added to the stacks.
fn distribute_pot(t: &mut TableStateServer, list: &Vec<usize>)
    requires
        list@.len() >= 1,
        forall|k: int| 0 <= k < list@.len() ==> #[trigger] list@[k] < old(t).players@.len(),
        forall|a: int, b: int| 0 <= a < b < list@.len() ==> list@[a] < list@[b],
        old(t).pot + sum_chips(old(t).players@) <= u32::MAX as int,
    ensures
        final(t).players@.len() == old(t).players@.len(),
        chips_only_changed(old(t).players@, final(t).players@),
        holes_of(final(t).players@) == holes_of(old(t).players@),
        forall|k: int|
            0 <= k < list@.len() ==> #[trigger] final(t).players@[list@[k] as int].chips == old(t).players@[list@[k] as int].chips + old(t).pot as int / list@.len() as int + (if k < old(t).pot as int % list@.len() as int {
                1int
            } else {
                0int
            }),
        forall|j: int|
            0 <= j < old(t).players@.len() && (forall|k: int|
                0 <= k < list@.len() ==> #[trigger] list@[k] != j) ==> final(t).players@[j] == old(t).players@[j],
        sum_chips(final(t).players@) == sum_chips(old(t).players@) + old(t).pot,
        t_eq_except_players_logs(*old(t), *final(t)),
        final(t).logs == old(t).logs,
{
    let ghost t0 = *t;
    let n = list.len() as u64;
    let share64 = (t.pot as u64) / n;
    let rem64 = (t.pot as u64) % n;
    proof {
        vstd::arithmetic::div_mod::lemma_fundamental_div_mod(t.pot as int, n as int);
        vstd::arithmetic::div_mod::lemma_mod_bound(t.pot as int, n as int);
        vstd::arithmetic::div_mod::lemma_mod_decreases(t.pot as nat, n as nat);
        assert(share64 <= t.pot) by (nonlinear_arith)
            requires
                n >= 1,
                share64 == (t.pot as u64) / n,
        ;
        assert(rem64 <= t.pot);
        assert(share64 as int == (t.pot as int) / (n as int));
        assert(rem64 as int == (t.pot as int) % (n as int));
        assert(t.pot as int == (n as int) * ((t.pot as int) / (n as int)) + (t.pot as int) % (
        n as int));
        assert(share64 as int * n as int + rem64 as int == t.pot as int) by (nonlinear_arith)
            requires
                share64 as int == (t.pot as int) / (n as int),
                rem64 as int == (t.pot as int) % (n as int),
                t.pot as int == (n as int) * ((t.pot as int) / (n as int)) + (t.pot as int) % (
                n as int),
        ;
    }
    let share = share64 as u32;
    let rem = rem64 as u32;
    let mut k: usize = 0;
    while k < list.len()
        invariant
            n == list@.len(),
            1 <= n,
            share as int == t0.pot as int / n as int,
            rem as int == t0.pot as int % n as int,
            rem64 == rem,
            share as int * n as int + rem == t0.pot as int,
            0 <= rem < n,
            k <= list@.len(),
            forall|m: int| 0 <= m < list@.len() ==> #[trigger] list@[m] < t0.players@.len(),
            forall|a: int, b: int| 0 <= a < b < list@.len() ==> list@[a] < list@[b],
            t0.pot + sum_chips(t0.players@) <= u32::MAX as int,
            t.players@.len() == t0.players@.len(),
            chips_only_changed(t0.players@, t.players@),
            holes_of(t.players@) == holes_of(t0.players@),
            forall|m: int|
                0 <= m < k ==> #[trigger] t.players@[list@[m] as int].chips
                    == t0.players@[list@[m] as int].chips + share + (if m < rem as int {
                    1int
                } else {
                    0int
                }),
            forall|j: int|
                0 <= j < t0.players@.len() && (forall|m: int|
                    0 <= m < k ==> #[trigger] list@[m] != j) ==> t.players@[j]
                    == t0.players@[j],
            sum_chips(t.players@) == sum_chips(t0.players@) + k * (share as int) + (if k
                <= rem as int {
                k as int
            } else {
                rem as int
            }),
            t_eq_except_players_logs(t0, *t),
            t.logs == t0.logs,
        decreases list@.len() - k,
    {
        let w = list[k];
        let extra: u32 = if (k as u64) < rem64 {
            1
        } else {
            0
        };
        proof {
            lemma_sum_chips_elem(t.players@, w as int);
            lemma_sum_chips_nonneg(t0.players@);
            assert((k + 1) * (share as int) == k * (share as int) + share) by (nonlinear_arith);
            assert((k + 1) * (share as int) + rem <= n as int * (share as int) + rem) by (
            nonlinear_arith)
                requires
                    k + 1 <= n as int,
                    share >= 0,
            ;
            let minq: int = if k <= rem as int {
                k as int
            } else {
                rem as int
            };
            assert(minq + extra <= rem as int || (extra == 1 && minq + 1 == k + 1 && k + 1
                <= rem as int));
            assert(t.players@[w as int].chips <= sum_chips(t.players@));
            assert(sum_chips(t.players@) == sum_chips(t0.players@) + k * (share as int) + minq);
            assert(k * (share as int) + minq + share + extra <= n as int * (share as int)
                + rem as int);
            assert(n as int * (share as int) + rem as int == t0.pot as int);
            assert(t.players@[w as int].chips + share + extra <= sum_chips(t0.players@)
                + t0.pot as int);
            assert(t.players@[w as int].chips + share + extra <= u32::MAX);
            assert(forall|m: int| 0 <= m < k ==> #[trigger] list@[m] != list@[k as int]);
        }
        let ghost before = t.players@;
        {
            let p = &mut t.players[w];
            p.chips = p.chips + share + extra;
        }
        proof {
            lemma_sum_chips_update(before, w as int, t.players@[w as int]);
            lemma_holes_update_same(before, w as int, t.players@[w as int]);
        }
        k = k + 1;
    }
    proof {
        assert(sum_chips(t.players@) == sum_chips(t0.players@) + n as int * (share as int)
            + rem);
    }
}

/// Showdown pot distribution: evaluate every eligible seat, find the best
/// category strength, and split the pot evenly among the seats that hold
/// it, the remainder going one chip at a time to the earliest discovered
/// winners. With one unfolded seat the whole pot goes there; with none the
/// table is only logged; with unfolded seats but no evaluable hand the pot
/// splits over all unfolded seats.
pub fn do_showdown_award(t: &mut TableStateServer)
    requires
        old(t).pot + sum_chips(old(t).players@) <= u32::MAX as int,
    ensures
        final(t).players@.len() == old(t).players@.len(),
        chips_only_changed(old(t).players@, final(t).players@),
        holes_of(final(t).players@) == holes_of(old(t).players@),
        t_eq_except_players_logs(*old(t), *final(t)),
        t_logs_grew(*old(t), *final(t)),
        forall|j: int|
            0 <= j < old(t).players@.len() ==> final(t).players@[j].chips >= old(t).players@[j].chips,
        ({
            let act = active_seats_upto(old(t).players@, old(t).players@.len() as int);
            &&& (act.len() == 0 ==> final(t).players == old(t).players)
            &&& (act.len() >= 1 ==> sum_chips(final(t).players@) == sum_chips(old(t).players@)
                + old(t).pot)
            &&& (act.len() == 1 ==> final(t).players@[act[0]].chips == old(t).players@[act[0]].chips + old(t).pot && (forall|j: int|
                0 <= j < old(t).players@.len() && j != act[0]
                    ==> final(t).players@[j] == old(t).players@[j]))
            &&& (act.len() >= 2 ==> {
                let w = show_winners_upto(*old(t), old(t).players@.len() as int);
                &&& (w.len() >= 1 ==> {
                    &&& (forall|k: int|
                        0 <= k < w.len() ==> #[trigger] final(t).players@[w[k]].chips == old(t).players@[w[k]].chips + old(t).pot as int / w.len() as int + (if k < old(t).pot as int % w.len() as int {
                            1int
                        } else {
                            0int
                        }))
                    &&& (forall|j: int|
                        0 <= j < old(t).players@.len() && !w.contains(j) ==> final(t).players@[j] == old(t).players@[j])
                })
                &&& (w.len() == 0 ==> (forall|k: int|
                    0 <= k < act.len() ==> #[trigger] final(t).players@[act[k]].chips == old(t).players@[act[k]].chips + old(t).pot as int / act.len() as int + (if k < old(t).pot as int % act.len() as int {
                        1int
                    } else {
                        0int
                    })))
                &&& (w.len() == 0 ==> (forall|j: int|
                    0 <= j < old(t).players@.len() && !act.contains(j)
                        ==> #[trigger] final(t).players@[j] == old(t).players@[j]))
            })
        }),
{
    let ghost t0 = *t;
    let n = t.players.len();
    let mut active: Vec<usize> = Vec::new();
    let mut i: usize = 0;
    while i < n
        invariant
            n == t.players@.len(),
            i <= n,
            *t == t0,
            active@.len() == active_seats_upto(t.players@, i as int).len(),
            forall|k: int|
                0 <= k < active@.len() ==> #[trigger] active@[k] as int == active_seats_upto(
                    t.players@,
                    i as int,
                )[k],
        decreases n - i,
    {
        if !t.players[i].has_folded {
            active.push(i);
        }
        i = i + 1;
    }
    proof {
        lemma_active_shape(t.players@, n as int);
    }
    if active.len() == 0 {
        t.push_log(String::from_str("No active players at showdown"));
        return ;
    }
    if active.len() == 1 {
        let w = active[0];
        proof {
            lemma_sum_chips_elem(t.players@, w as int);
        }
        let ghost before = t.players@;
        {
            let p = &mut t.players[w];
            p.chips = p.chips + t.pot;
        }
        proof {
            lemma_sum_chips_update(before, w as int, t.players@[w as int]);
            lemma_holes_update_same(before, w as int, t.players@[w as int]);
        }
        let mut m = actor_name(&t.players[w]);
        m.append(" won the pot at showdown (only active)");
        t.push_log(m);
        return ;
    }

    let mut best_score: u8 = 0;
    let mut winners: Vec<usize> = Vec::new();
    let mut i: usize = 0;
    while i < n
        invariant
            n == t.players@.len(),
            i <= n,
            *t == t0,
            best_score as int == show_best_upto(t0, i as int),
            winners@.len() == show_winners_upto(t0, i as int).len(),
            forall|k: int|
                0 <= k < winners@.len() ==> #[trigger] winners@[k] as int == show_winners_upto(
                    t0,
                    i as int,
                )[k],
        decreases n - i,
    {
        let p = &t.players[i];
        if !p.has_folded && p.hole_cards.len() >= 2 && t.board.len() >= 5 {
            let h0 = p.hole_cards[0];
            let h1 = p.hole_cards[1];
            let b0 = t.board[0];
            let b1 = t.board[1];
            let b2 = t.board[2];
            let b3 = t.board[3];
            let b4 = t.board[4];
            let arr: [&Card; 7] = [&h0, &h1, &b0, &b1, &b2, &b3, &b4];
            proof {
                assert(cards_of(arr@) =~= seven_of(t0, i as int));
            }
            let ev = evaluate_best_hand(&arr);
            let score = hand_rank_value(&ev.rank);
            proof {
                assert(score as int == score_of(t0, i as int));
            }
            if score > best_score {
                best_score = score;
                winners.clear();
                winners.push(i);
            } else if score == best_score {
                winners.push(i);
            }
        }
        i = i + 1;
    }

    if winners.len() == 0 {
        let ghost act = active_seats_upto(t0.players@, n as int);
        proof {
            assert forall|k: int| 0 <= k < active@.len() implies #[trigger] active@[k]
                < t0.players@.len() by {
                assert(active@[k] as int == act[k]);
            }
            assert forall|a: int, b: int| 0 <= a < b < active@.len() implies active@[a]
                < active@[b] by {
                assert(active@[a] as int == act[a] && active@[b] as int == act[b]);
            }
        }
        let ghost mid = *t;
        distribute_pot(t, &active);
        proof {
            assert forall|k: int| 0 <= k < act.len() implies #[trigger] t.players@[act[k]].chips
                == t0.players@[act[k]].chips + t0.pot as int / act.len() as int + (if k
                < t0.pot as int % act.len() as int {
                1int
            } else {
                0int
            }) by {
                assert(act[k] == active@[k] as int);
            }
        }
        t.push_log(String::from_str("Pot split among active players (no evaluated winners)"));
        return ;
    }
    let ghost w = show_winners_upto(t0, n as int);
    proof {
        lemma_winners_shape(t0, n as int);
        assert forall|k: int| 0 <= k < winners@.len() implies #[trigger] winners@[k]
            < t0.players@.len() by {
            assert(winners@[k] as int == w[k]);
        }
        assert forall|a: int, b: int| 0 <= a < b < winners@.len() implies winners@[a]
            < winners@[b] by {
            assert(winners@[a] as int == w[a] && winners@[b] as int == w[b]);
        }
    }
    distribute_pot(t, &winners);
    proof {
        assert forall|k: int| 0 <= k < w.len() implies #[trigger] t.players@[w[k]].chips
            == t0.players@[w[k]].chips + t0.pot as int / w.len() as int + (if k < t0.pot as int
            % w.len() as int {
            1int
        } else {
            0int
        }) by {
            assert(w[k] == winners@[k] as int);
        }
        assert forall|j: int| 0 <= j < t0.players@.len() && !w.contains(j) implies t.players@[j]
            == t0.players@[j] by {
            assert forall|m: int| 0 <= m < winners@.len() implies #[trigger] winners@[m] != j by {
                if winners@[m] as int == j {
                    assert(w[m] == j);
                    assert(w.contains(j));
                }
            }
        }
    }
    if winners.len() == 1 {
        let mut m = actor_name(&t.players[winners[0]]);
        m.append(" won the pot at showdown");
        t.push_log(m);
    } else {
        t.push_log(String::from_str("Split pot at showdown"));
    }
}

/// The chips one betting action moves from the actor's stack into the pot:
/// nothing on a fold; min(owed, stack) on a check or call; min(needed to
/// reach the target, stack) on a raise or all-in.
pub open spec fn pay_of(
    a: TableStateServer,
    idx: int,
    action: TableAction,
    raise_to: Option<u32>,
) -> int {
    let p = a.players@[idx];
    match action {
        TableAction::Fold => 0,
        TableAction::Check | TableAction::Call => {
            let to_call: int = if a.current_bet >= p.bet {
                a.current_bet - p.bet
            } else {
                0
            };
            if to_call <= p.chips {
                to_call
            } else {
                p.chips as int
            }
        },
        TableAction::Raise | TableAction::AllIn => {
            let target: int = match raise_to {
                Some(x) => x as int,
                None => a.current_bet + a.big_blind,
            };
            let needed: int = if target >= p.bet {
                target - p.bet
            } else {
                0
            };
            if needed <= p.chips {
                needed
            } else {
                p.chips as int
            }
        },
    }
}

/// The actor's seat after the action.
pub open spec fn mid_player(
    a: TableStateServer,
    idx: int,
    action: TableAction,
    raise_to: Option<u32>,
) -> TablePlayer {
    let p = a.players@[idx];
    let pay = pay_of(a, idx, action, raise_to);
    match action {
        TableAction::Fold => TablePlayer { has_folded: true, ..p },
        _ => TablePlayer { chips: (p.chips - pay) as u32, bet: (p.bet + pay) as u32, ..p },
    }
}

/// All seats after the action.
pub open spec fn mid_players(
    a: TableStateServer,
    idx: int,
    action: TableAction,
    raise_to: Option<u32>,
) -> Seq<TablePlayer> {
    a.players@.update(idx, mid_player(a, idx, action, raise_to))
}

/// The table's current bet after the action.
pub open spec fn cur_after(
    a: TableStateServer,
    idx: int,
    action: TableAction,
    raise_to: Option<u32>,
) -> int {
    match action {
        TableAction::Raise | TableAction::AllIn => {
            let nb = a.players@[idx].bet + pay_of(a, idx, action, raise_to);
            if a.current_bet >= nb {
                a.current_bet as int
            } else {
                nb
            }
        },
        _ => a.current_bet as int,
    }
}

/// The recorded last raiser after the action: the actor's seat when a
/// raise or all-in strictly lifted the current bet, otherwise unchanged.
pub open spec fn raiser_after(
    a: TableStateServer,
    idx: int,
    action: TableAction,
    raise_to: Option<u32>,
) -> Option<i32> {
    if (action == TableAction::Raise || action == TableAction::AllIn) && cur_after(
        a,
        idx,
        action,
        raise_to,
    ) > a.current_bet {
        Some(idx as i32)
    } else {
        a.last_raiser_index
    }
}

/// The log line one betting action appends: spec 4.2's labels — the actor
/// "checked" when nothing was owed, else "called N" with the amount paid;
/// "folded"; or "raised to N" with the seat's new bet.
pub open spec fn bet_action_message(
    a: TableStateServer,
    idx: int,
    action: TableAction,
    raise_to: Option<u32>,
) -> Seq<char> {
    let p = a.players@[idx];
    let pay = pay_of(a, idx, action, raise_to);
    match action {
        TableAction::Fold => actor_label(p) + " folded"@,
        TableAction::Check | TableAction::Call => {
            let owed: int = if a.current_bet >= p.bet {
                a.current_bet - p.bet
            } else {
                0
            };
            if owed == 0 {
                actor_label(p) + " checked"@
            } else {
                actor_label(p) + " called "@ + dec_str(pay)
            }
        },
        TableAction::Raise | TableAction::AllIn => actor_label(p) + " raised to "@ + dec_str(
            p.bet + pay,
        ),
    }
}

/// Every unfolded seat has matched the current bet or is out of chips.
pub open spec fn bets_matched(ps: Seq<TablePlayer>, cb: int) -> bool {
    forall|i: int|
        0 <= i < ps.len() && !(#[trigger] ps[i]).has_folded ==> (ps[i].bet == cb || ps[i].chips
            == 0)
}

/// The first unfolded seat at or clockwise after `from`, skipping `k` seats;
/// `from` itself when a full lap finds none.
pub open spec fn next_unfolded_from(ps: Seq<TablePlayer>, from: int, k: int) -> int
    recommends
        ps.len() > 0,
        0 <= from < ps.len(),
        0 <= k <= ps.len(),
    decreases ps.len() - k,
{
    let n = ps.len() as int;
    if k >= n {
        from
    } else if !ps[(from + k) % n].has_folded {
        (from + k) % n
    } else {
        next_unfolded_from(ps, from, k + 1)
    }
}

/// The stage a closing betting round moves to.
pub open spec fn close_next_stage(s: TableStage) -> TableStage {
    match s {
        TableStage::PreFlop => TableStage::Flop,
        TableStage::Flop => TableStage::Turn,
        TableStage::Turn => TableStage::River,
        TableStage::River => TableStage::Showdown,
        other => other,
    }
}

/// The seats with every per-street bet taken back to zero.
pub open spec fn zero_bets(ps: Seq<TablePlayer>) -> Seq<TablePlayer> {
    Seq::new(ps.len(), |i: int| TablePlayer { bet: 0, ..ps[i] })
}

/// Whether the betting round closes after this action: never on the action
/// that raised; otherwise when every unfolded seat has matched and the turn
/// would pass to the round's last raiser, or, with no raiser, to the seat
/// that opened the round.
pub open spec fn round_closes(
    a: TableStateServer,
    idx: int,
    action: TableAction,
    raise_to: Option<u32>,
) -> bool {
    let mp = mid_players(a, idx, action, raise_to);
    let cb = cur_after(a, idx, action, raise_to);
    let nxt = next_unfolded_from(mp, (a.current_player_index + 1) % (a.players@.len() as int), 0);
    let is_raise = (action == TableAction::Raise || action == TableAction::AllIn) && cb
        > a.current_bet;
    if is_raise {
        false
    } else {
        match a.last_raiser_index {
            Some(ri) => bets_matched(mp, cb) && nxt == ri,
            None => match a.round_start_index {
                Some(st) => bets_matched(mp, cb) && nxt == st,
                None => false,
            },
        }
    }
}

/// Zeroing bets touches neither folded flags nor chips, so the active-seat
/// list is unchanged.
proof fn lemma_active_same_folded(ps1: Seq<TablePlayer>, ps2: Seq<TablePlayer>, i: int)
    requires
        ps1.len() == ps2.len(),
        i <= ps1.len(),
        forall|j: int|
            0 <= j < ps1.len() ==> (#[trigger] ps2[j]).has_folded == ps1[j].has_folded,
    ensures
        active_seats_upto(ps2, i) == active_seats_upto(ps1, i),
    decreases i,
{
    if i > 0 {
        lemma_active_same_folded(ps1, ps2, i - 1);
        assert(ps2[i - 1].has_folded == ps1[i - 1].has_folded);
        if !ps1[i - 1].has_folded {
            assert(active_seats_upto(ps2, i) == active_seats_upto(ps2, i - 1).push(i - 1));
            assert(active_seats_upto(ps1, i) == active_seats_upto(ps1, i - 1).push(i - 1));
        }
    }
}

/// Moving the top deck card to the board or the burn pile keeps the
/// table's card multiset.
proof fn lemma_table_pop_move(a: TableStateServer, b: TableStateServer)
    requires
        a.deck@.len() > 0,
        b.deck@ == a.deck@.drop_last(),
        holes_of(b.players@) == holes_of(a.players@),
        (b.board@ == a.board@.push(a.deck@.last()) && b.burned == a.burned) || (b.burned@
            == a.burned@.push(a.deck@.last()) && b.board == a.board),
    ensures
        table_cards(b).to_multiset() == table_cards(a).to_multiset(),
{
    broadcast use vstd::seq_lib::lemma_multiset_commutative;
    broadcast use vstd::seq_lib::group_to_multiset_ensures;
    broadcast use vstd::multiset::group_multiset_axioms;

    let c = a.deck@.last();
    assert(a.deck@ =~= b.deck@.push(c));
    assert(a.deck@.to_multiset() =~= b.deck@.to_multiset().insert(c));
    assert(table_cards(a).to_multiset() =~= table_cards(b).to_multiset());
}

/// Everything `apply_action` promises once the action really applies (the
/// actor holds the turn and the hand has not reached showdown): the exact
/// bet effect, the uncontested award, the round-close effects with the
/// street-entry dealing, or the turn passing, together with the returned
/// scheduling flag. Shared by the human path and the bot path, which spec
/// 4.4 routes through the same action application.
pub open spec fn action_applied_effect(
    a: TableStateServer,
    b: TableStateServer,
    idx: int,
    action: TableAction,
    raise_to: Option<u32>,
    sched: bool,
) -> bool {
        let mp = mid_players(a, idx, action, raise_to);
        let pay = pay_of(a, idx, action, raise_to);
        let cb = cur_after(a, idx, action, raise_to);
        let act = active_seats_upto(mp, a.players@.len() as int);
        let n = a.players@.len() as int;
        let nxt = next_unfolded_from(mp, (a.current_player_index + 1) % n, 0);
        &&& (act.len() <= 1 ==> {
            &&& b.stage == TableStage::Showdown
            &&& b.bot_pending_index is None
            &&& b.bot_decision_due_at is None
            &&& b.pot == a.pot + pay
            &&& !sched
            &&& b.deck == a.deck
            &&& b.board == a.board
            &&& b.burned == a.burned
            &&& b.current_bet == cb
            &&& b.last_raiser_index == raiser_after(
                a,
                idx,
                action,
                raise_to,
            )
            &&& b.round_start_index == a.round_start_index
            &&& (act.len() == 1 ==> b.players@ == mp.update(
                act[0],
                (TablePlayer {
                    chips: (mp[act[0]].chips + a.pot + pay) as u32,
                    ..mp[act[0]]
                }),
            ) && sum_chips(b.players@) == sum_chips(a.players@) + a.pot)
            &&& (act.len() == 0 ==> b.players@ == mp)
        })
        &&& (act.len() >= 2 && !round_closes(a, idx, action, raise_to) ==> {
            &&& b.players@ == mp
            &&& b.pot == a.pot + pay
            &&& b.current_bet == cb
            &&& b.stage == a.stage
            &&& b.current_player_index == nxt
            &&& sched == b.players@[nxt].is_bot
            &&& (b.players@[nxt].is_bot ==> b.bot_pending_index
                == Some(nxt as i32))
            &&& (!b.players@[nxt].is_bot ==> b.bot_pending_index
                is None && b.bot_decision_due_at is None)
            &&& b.deck == a.deck
            &&& b.board == a.board
            &&& b.burned == a.burned
            &&& b.round_start_index == a.round_start_index
            &&& b.last_raiser_index == raiser_after(
                a,
                idx,
                action,
                raise_to,
            )
        })
        &&& (act.len() >= 2 && round_closes(a, idx, action, raise_to) ==> {
            let ns = close_next_stage(a.stage);
            &&& b.stage == ns
            &&& b.current_bet == 0
            &&& b.last_raiser_index is None
            &&& !sched
            &&& (forall|j: int|
                0 <= j < n ==> (#[trigger] b.players@[j]).bet == 0)
            &&& (ns != TableStage::Showdown ==> b.pot == a.pot + pay
                && sum_chips(b.players@) == sum_chips(mp) && b.players@ == zero_bets(mp) && (a.dealer_index >= 0 && ns != a.stage
                ==> b.current_player_index as int == spec_first_active_from(
                zero_bets(mp),
                a.dealer_index + 1,
                0,
            ) && b.round_start_index == Some(
                b.current_player_index,
            )))
            &&& (ns == TableStage::Showdown ==> sum_chips(b.players@)
                == sum_chips(a.players@) + a.pot && b.bot_pending_index is None
                && b.bot_decision_due_at is None)
            &&& (ns == TableStage::Flop && a.deck@.len() >= 4 ==> ({
                let dsq = a.deck@;
                let l = dsq.len() as int;
                &&& b.burned@ == a.burned@.push(dsq[l - 1])
                &&& b.board@ == a.board@ + seq![
                    dsq[l - 2],
                    dsq[l - 3],
                    dsq[l - 4],
                ]
                &&& b.deck@ == dsq.take(l - 4)
            }))
            &&& ((ns == TableStage::Turn || ns == TableStage::River) && a.deck@.len()
                >= 2 ==> ({
                let dsq = a.deck@;
                let l = dsq.len() as int;
                &&& b.burned@ == a.burned@.push(dsq[l - 1])
                &&& b.board@ == a.board@.push(dsq[l - 2])
                &&& b.deck@ == dsq.take(l - 2)
            }))
        })
}

impl TableStateServer {
    /// Move the top deck card to the burn pile (`burn` true) or the board.
    /// A no-op on an empty deck.
    fn deal_to(&mut self, burn: bool)
        ensures
            old(self).deck@.len() == 0 ==> final(self).deck@ == old(self).deck@ && final(self).board == old(self).board && final(self).burned == old(self).burned,
            old(self).deck@.len() > 0 ==> final(self).deck@ == old(self).deck@.drop_last() && (
            burn ==> final(self).burned@ == old(self).burned@.push(old(self).deck@.last())
                && final(self).board == old(self).board) && (!burn ==> final(self).board@ == old(self).board@.push(old(self).deck@.last()) && final(self).burned == old(self).burned),
            final(self).players == old(self).players,
            final(self).logs == old(self).logs,
            final(self).stage == old(self).stage,
            final(self).pot == old(self).pot,
            final(self).current_bet == old(self).current_bet,
            final(self).current_player_index == old(self).current_player_index,
            final(self).dealer_index == old(self).dealer_index,
            final(self).small_blind_index == old(self).small_blind_index,
            final(self).big_blind_index == old(self).big_blind_index,
            final(self).last_raiser_index == old(self).last_raiser_index,
            final(self).round_start_index == old(self).round_start_index,
            final(self).bot_pending_index == old(self).bot_pending_index,
            final(self).bot_decision_due_at == old(self).bot_decision_due_at,
            final(self).table_id == old(self).table_id,
            final(self).pot_stack == old(self).pot_stack,
            final(self).small_blind == old(self).small_blind,
            final(self).big_blind == old(self).big_blind,
            final(self).hand_number == old(self).hand_number,
            final(self).difficulty == old(self).difficulty,
            final(self).dealer_draw_cards == old(self).dealer_draw_cards,
            final(self).dealer_draw_revealed == old(self).dealer_draw_revealed,
            final(self).dealer_draw_in_progress == old(self).dealer_draw_in_progress,
            final(self).time_limit_seconds == old(self).time_limit_seconds,
            table_cards(*final(self)).to_multiset() == table_cards(*old(self)).to_multiset(),
    {
        let ghost a = *self;
        if let Some(card) = self.deck.pop() {
            if burn {
                self.burned.push(card);
            } else {
                self.board.push(card);
            }
            proof {
                lemma_table_pop_move(a, *self);
            }
        } else {
            proof {
                assert(table_cards(*self) =~= table_cards(a));
            }
        }
    }

    /// End the hand at once: award the whole pot to the given seat, if any,
    /// and force the stage to showdown, clearing any pending bot.
    fn award_uncontested(&mut self, winner: Option<usize>)
        requires
            match winner {
                Some(w) => w < old(self).players@.len() && old(self).pot + sum_chips(
                    old(self).players@,
                ) <= u32::MAX as int,
                None => true,
            },
        ensures
            final(self).stage == TableStage::Showdown,
            final(self).bot_pending_index is None,
            final(self).bot_decision_due_at is None,
            final(self).pot == old(self).pot,
            final(self).current_bet == old(self).current_bet,
            final(self).deck == old(self).deck,
            final(self).board == old(self).board,
            final(self).burned == old(self).burned,
            final(self).last_raiser_index == old(self).last_raiser_index,
            final(self).round_start_index == old(self).round_start_index,
            final(self).dealer_index == old(self).dealer_index,
            final(self).small_blind_index == old(self).small_blind_index,
            final(self).big_blind_index == old(self).big_blind_index,
            final(self).current_player_index == old(self).current_player_index,
            final(self).big_blind == old(self).big_blind,
            final(self).small_blind == old(self).small_blind,
            final(self).hand_number == old(self).hand_number,
            final(self).table_id == old(self).table_id,
            final(self).time_limit_seconds == old(self).time_limit_seconds,
            final(self).difficulty == old(self).difficulty,
            holes_of(final(self).players@) == holes_of(old(self).players@),
            match winner {
                Some(w) => final(self).players@ == old(self).players@.update(
                    w as int,
                    (TablePlayer {
                        chips: (old(self).players@[w as int].chips + old(self).pot) as u32,
                        ..old(self).players@[w as int]
                    }),
                ) && sum_chips(final(self).players@) == sum_chips(old(self).players@) + old(self).pot,
                None => final(self).players == old(self).players,
            },
    {
        let ghost a = *self;
        if let Some(w) = winner {
            proof {
                lemma_sum_chips_elem(self.players@, w as int);
            }
            {
                let p = &mut self.players[w];
                p.chips = p.chips + self.pot;
            }
            proof {
                lemma_sum_chips_update(a.players@, w as int, self.players@[w as int]);
                lemma_holes_update_same(a.players@, w as int, self.players@[w as int]);
            }
            let mut m = actor_name(&self.players[w]);
            m.append(" won the pot uncontested");
            self.push_log(m);
        }
        self.stage = TableStage::Showdown;
        self.bot_pending_index = None;
        self.bot_decision_due_at = None;
    }

    /// Close the betting round: zero every per-street bet and the current
    /// bet, forget the raiser, advance the stage one step, and perform the
    /// street-entry work — burn and deal for flop, turn and river with the
    /// first unfolded live seat left of the dealer to act, or the showdown
    /// award.
    #[verifier::rlimit(100)]
    fn advance_after_close(&mut self)
        requires
            wf_table(*old(self)),
            old(self).stage != TableStage::Showdown,
        ensures
            wf_table(*final(self)),
            table_cards(*final(self)).to_multiset() == table_cards(*old(self)).to_multiset(),
            money(*final(self)) <= money(*old(self)),
            final(self).players@.len() == old(self).players@.len(),
            final(self).stage == close_next_stage(old(self).stage),
            final(self).current_bet == 0,
            final(self).last_raiser_index is None,
            final(self).pot == old(self).pot,
            forall|j: int|
                0 <= j < old(self).players@.len() ==> (#[trigger] final(self).players@[j]).bet
                    == 0,
            close_next_stage(old(self).stage) != TableStage::Showdown ==> {
                &&& final(self).players@ == zero_bets(old(self).players@)
                &&& sum_chips(final(self).players@) == sum_chips(old(self).players@)
                &&& (old(self).dealer_index >= 0 && close_next_stage(old(self).stage) != old(self).stage ==> final(self).current_player_index as int == spec_first_active_from(
                    zero_bets(old(self).players@),
                    old(self).dealer_index + 1,
                    0,
                ) && final(self).round_start_index == Some(final(self).current_player_index))
            },
            close_next_stage(old(self).stage) == TableStage::Showdown ==> {
                &&& final(self).bot_pending_index is None
                &&& final(self).bot_decision_due_at is None
                &&& (active_seats_upto(old(self).players@, old(self).players@.len() as int).len()
                    >= 1 ==> sum_chips(final(self).players@) == sum_chips(old(self).players@)
                    + old(self).pot)
            },
            close_next_stage(old(self).stage) == TableStage::Flop && old(self).deck@.len() >= 4
                ==> ({
                let d = old(self).deck@;
                let l = d.len() as int;
                &&& final(self).burned@ == old(self).burned@.push(d[l - 1])
                &&& final(self).board@ == old(self).board@ + seq![d[l - 2], d[l - 3], d[l - 4]]
                &&& final(self).deck@ == d.take(l - 4)
            }),
            (close_next_stage(old(self).stage) == TableStage::Turn || close_next_stage(
                old(self).stage,
            ) == TableStage::River) && old(self).deck@.len() >= 2 ==> ({
                let d = old(self).deck@;
                let l = d.len() as int;
                &&& final(self).burned@ == old(self).burned@.push(d[l - 1])
                &&& final(self).board@ == old(self).board@.push(d[l - 2])
                &&& final(self).deck@ == d.take(l - 2)
            }),
    {
        let ghost t0 = *self;
        let n = self.players.len();
        let ghost before_zero = self.players@;
        let mut z: usize = 0;
        while z < n
            invariant
                n == self.players@.len(),
                z <= n,
                self.players@.len() == before_zero.len(),
                forall|m: int|
                    0 <= m < z ==> #[trigger] self.players@[m] == (TablePlayer {
                        bet: 0,
                        ..before_zero[m]
                    }),
                forall|m: int| z <= m < n ==> #[trigger] self.players@[m] == before_zero[m],
                t_eq_except_players_logs(t0, *self),
                self.logs == t0.logs,
            decreases n - z,
        {
            let p = &mut self.players[z];
            p.bet = 0;
            z = z + 1;
        }
        proof {
            assert(self.players@ =~= zero_bets(before_zero));
            lemma_zero_bets_props(before_zero);
            lemma_holes_zero_bets(before_zero);
        }
        self.current_bet = 0;
        self.last_raiser_index = None;
        let ns = match self.stage {
            TableStage::PreFlop => TableStage::Flop,
            TableStage::Flop => TableStage::Turn,
            TableStage::Turn => TableStage::River,
            TableStage::River => TableStage::Showdown,
            s => s,
        };
        self.stage = ns;
        match ns {
            TableStage::Flop => {
                self.deal_to(true);
                self.deal_to(false);
                self.deal_to(false);
                self.deal_to(false);
                proof {
                    if t0.deck@.len() >= 4 {
                        let d = t0.deck@;
                        let l = d.len() as int;
                        assert(self.board@ =~= t0.board@ + seq![d[l - 2], d[l - 3], d[l - 4]]);
                        assert(self.deck@ =~= d.take(l - 4));
                    }
                }
                self.push_log(String::from_str("Dealt Flop"));
                if self.dealer_index >= 0 {
                    let ni = first_active_from(self, self.dealer_index + 1);
                    self.current_player_index = ni;
                }
                self.round_start_index = Some(self.current_player_index);
            },
            TableStage::Turn => {
                self.deal_to(true);
                self.deal_to(false);
                proof {
                    if t0.deck@.len() >= 2 {
                        let d = t0.deck@;
                        let l = d.len() as int;
                        assert(self.board@ =~= t0.board@.push(d[l - 2]));
                        assert(self.deck@ =~= d.take(l - 2));
                    }
                }
                self.push_log(String::from_str("Dealt Turn"));
                if self.dealer_index >= 0 {
                    let ni = first_active_from(self, self.dealer_index + 1);
                    self.current_player_index = ni;
                }
                self.round_start_index = Some(self.current_player_index);
            },
            TableStage::River => {
                self.deal_to(true);
                self.deal_to(false);
                proof {
                    if t0.deck@.len() >= 2 {
                        let d = t0.deck@;
                        let l = d.len() as int;
                        assert(self.board@ =~= t0.board@.push(d[l - 2]));
                        assert(self.deck@ =~= d.take(l - 2));
                    }
                }
                self.push_log(String::from_str("Dealt River"));
                if self.dealer_index >= 0 {
                    let ni = first_active_from(self, self.dealer_index + 1);
                    self.current_player_index = ni;
                }
                self.round_start_index = Some(self.current_player_index);
            },
            TableStage::Showdown => {
                proof {
                    lemma_sum_chips_nonneg(self.players@);
                }
                do_showdown_award(self);
                proof {
                    lemma_active_same_folded(t0.players@, zero_bets(t0.players@), n as int);
                }
                self.bot_pending_index = None;
                self.bot_decision_due_at = None;
            },
            _ => {},
        }
        proof {
            lemma_sum_chips_nonneg(t0.players@);
        }
    }

    /// Apply one player action at seat `idx`, then run the round logic:
    /// award the pot at once if at most one seat is left unfolded; otherwise
    /// close the betting round when it is settled, dealing the next street
    /// or running the showdown; otherwise pass the turn to the next unfolded
    /// seat. Out-of-turn actions, and any action once the hand has reached
    /// showdown, change nothing. Returns whether a bot now has the turn and
    /// should be scheduled.
    ///
    /// Mid-round the turn passes to the next seat that has not folded, even
    /// when that seat is all-in (no chips behind); only street entries
    /// re-seat the turn on a live stack (see `first_active_from`).
    #[verifier::rlimit(100)]
    pub fn apply_action(&mut self, idx: usize, action: TableAction, raise_to: Option<u32>) -> (sched:
        bool)
        requires
            wf_table(*old(self)),
            idx < old(self).players@.len(),
        ensures
            wf_table(*final(self)),
            table_cards(*final(self)).to_multiset() == table_cards(*old(self)).to_multiset(),
            final(self).players@.len() == old(self).players@.len(),
            money(*final(self)) <= money(*old(self)),
            (idx as int != old(self).current_player_index as int || old(self).stage
                == TableStage::Showdown) ==> (*final(self) == *old(self) && !sched),
            (idx as int == old(self).current_player_index as int && old(self).stage
                != TableStage::Showdown) ==> action_applied_effect(
                *old(self),
                *final(self),
                idx as int,
                action,
                raise_to,
                sched,
            ),
    {
        if idx >= self.players.len() {
            return false;
        }
        let idx_i32 = idx as i32;
        if idx_i32 != self.current_player_index {
            return false;
        }
        if self.stage == TableStage::Showdown {
            return false;
        }
        let ghost t0 = *self;
        let n = self.players.len();
        let prev_current_bet = self.current_bet;

        apply_player_action_inline(self, idx, action, raise_to);
        let is_raise_action = match action {
            TableAction::Raise | TableAction::AllIn => true,
            _ => false,
        };
        let mut is_raise = false;
        if is_raise_action && self.current_bet > prev_current_bet {
            is_raise = true;
            self.last_raiser_index = Some(idx_i32);
        }
        let ghost tm = *self;
        proof {
            assert(tm.players@ =~= mid_players(t0, idx as int, action, raise_to));
            assert(tm.pot == t0.pot + pay_of(t0, idx as int, action, raise_to));
            assert(tm.current_bet == cur_after(t0, idx as int, action, raise_to));
            lemma_sum_chips_update(t0.players@, idx as int, tm.players@[idx as int]);
        }

        let mut active_count: usize = 0;
        let mut sole: usize = 0;
        let mut i: usize = 0;
        while i < n
            invariant
                n == self.players@.len(),
                i <= n,
                *self == tm,
                active_count == active_seats_upto(self.players@, i as int).len(),
                active_count >= 1 ==> sole as int == active_seats_upto(self.players@, i as int)[
                    active_count - 1],
                active_count <= i,
            decreases n - i,
        {
            if !self.players[i].has_folded {
                active_count = active_count + 1;
                sole = i;
            }
            i = i + 1;
        }

        if active_count <= 1 {
            if active_count == 1 {
                proof {
                    lemma_active_shape(self.players@, n as int);
                }
                self.award_uncontested(Some(sole));
            } else {
                self.award_uncontested(None);
            }
            return false;
        }

        let search_from = ((self.current_player_index + 1) as usize) % n;
        let next_idx = next_unfolded(self, search_from);

        let mut matched = true;
        let mut j: usize = 0;
        while j < n
            invariant
                n == self.players@.len(),
                j <= n,
                *self == tm,
                matched == (forall|m: int|
                    0 <= m < j && !(#[trigger] self.players@[m]).has_folded ==> (
                    self.players@[m].bet == self.current_bet || self.players@[m].chips == 0)),
            decreases n - j,
        {
            let p = &self.players[j];
            if !p.has_folded && p.bet != self.current_bet && p.chips != 0 {
                matched = false;
            }
            j = j + 1;
        }
        proof {
            assert(matched == bets_matched(tm.players@, tm.current_bet as int));
        }

        let mut close_round = false;
        if is_raise {
            close_round = false;
        } else if let Some(ri) = self.last_raiser_index {
            if matched && next_idx as i32 == ri {
                close_round = true;
            }
        } else if let Some(st) = self.round_start_index {
            if matched && next_idx as i32 == st {
                close_round = true;
            }
        }
        proof {
            if !is_raise {
                assert(tm.last_raiser_index == t0.last_raiser_index);
            }
            assert(close_round == round_closes(t0, idx as int, action, raise_to));
        }

        if close_round {
            self.advance_after_close();
            proof {
                lemma_active_same_folded(
                    tm.players@,
                    zero_bets(tm.players@),
                    n as int,
                );
            }
            return false;
        }

        self.current_player_index = next_idx as i32;
        let is_bot = self.players[next_idx].is_bot;
        if is_bot {
            self.bot_pending_index = Some(next_idx as i32);
            let due = now_time();
            self.bot_decision_due_at = Some(due);
        } else {
            self.bot_pending_index = None;
            self.bot_decision_due_at = None;
        }
        proof {
            lemma_holes_update_same(t0.players@, idx as int, tm.players@[idx as int]);
        }
        is_bot
    }
}

/// The first unfolded seat clockwise from `from` (inclusive); `from` itself
/// when all seats are folded.
fn next_unfolded(t: &TableStateServer, from: usize) -> (r: usize)
    requires
        t.players@.len() >= 1,
        t.players@.len() <= 0x7fff_ffff,
        from < t.players@.len(),
    ensures
        r as int == next_unfolded_from(t.players@, from as int, 0),
        r < t.players@.len(),
{
    let n = t.players.len();
    let mut k: usize = 0;
    while k < n
        invariant
            t.players@.len() >= 1,
            n == t.players@.len(),
            n <= 0x7fff_ffff,
            from < n,
            k <= n,
            next_unfolded_from(t.players@, from as int, 0) == next_unfolded_from(
                t.players@,
                from as int,
                k as int,
            ),
        decreases n - k,
    {
        let ui = (from + k) % n;
        if !t.players[ui].has_folded {
            return ui;
        }
        k = k + 1;
    }
    from
}

/// Zeroing bets leaves the hole cards alone.
proof fn lemma_holes_zero_bets(ps: Seq<TablePlayer>)
    ensures
        holes_of(zero_bets(ps)) == holes_of(ps),
    decreases ps.len(),
{
    if ps.len() > 0 {
        lemma_holes_zero_bets(ps.drop_first());
        assert(zero_bets(ps).drop_first() =~= zero_bets(ps.drop_first()));
        assert(holes_of(zero_bets(ps)) =~= holes_of(ps));
    } else {
        assert(zero_bets(ps) =~= ps);
    }
}

/// Zeroing bets keeps length, chips sum, folded flags and hole cards.
proof fn lemma_zero_bets_props(ps: Seq<TablePlayer>)
    ensures
        zero_bets(ps).len() == ps.len(),
        sum_chips(zero_bets(ps)) == sum_chips(ps),
        holes_of(zero_bets(ps)) == holes_of(ps),
        forall|j: int|
            0 <= j < ps.len() ==> (#[trigger] zero_bets(ps)[j]).has_folded == ps[j].has_folded
                && zero_bets(ps)[j].chips == ps[j].chips && zero_bets(ps)[j].is_bot
                == ps[j].is_bot && zero_bets(ps)[j].seat_index == ps[j].seat_index,
    decreases ps.len(),
{
    if ps.len() > 0 {
        lemma_zero_bets_props(ps.drop_first());
        assert(zero_bets(ps).drop_first() =~= zero_bets(ps.drop_first()));
        assert(zero_bets(ps)[0] == (TablePlayer { bet: 0, ..ps[0] }));
        assert(holes_of(zero_bets(ps)) =~= holes_of(ps));
    } else {
        assert(zero_bets(ps) =~= ps);
    }
}

/// The stage an operator-driven street advance moves to.
pub open spec fn street_next_stage(s: TableStage) -> TableStage {
    match s {
        TableStage::DealerDraw => TableStage::PreFlop,
        TableStage::PreFlop => TableStage::Flop,
        TableStage::Flop => TableStage::Turn,
        TableStage::Turn => TableStage::River,
        TableStage::River => TableStage::Showdown,
        TableStage::Showdown => TableStage::Showdown,
    }
}

/// Seat by seat, only the hole cards differ between `a` and `b`.
pub open spec fn holes_only_changed(a: Seq<TablePlayer>, b: Seq<TablePlayer>) -> bool {
    &&& b.len() == a.len()
    &&& forall|j: int|
        0 <= j < a.len() ==> #[trigger] b[j] == (TablePlayer { hole_cards: b[j].hole_cards, ..a[j] })
}

/// Chip totals agree whenever the stacks agree seat by seat.
proof fn lemma_sum_same_chips(ps1: Seq<TablePlayer>, ps2: Seq<TablePlayer>)
    requires
        ps1.len() == ps2.len(),
        forall|j: int| 0 <= j < ps1.len() ==> (#[trigger] ps2[j]).chips == ps1[j].chips,
    ensures
        sum_chips(ps2) == sum_chips(ps1),
    decreases ps1.len(),
{
    if ps1.len() > 0 {
        assert(ps2[0].chips == ps1[0].chips);
        assert forall|j: int| 0 <= j < ps1.drop_first().len() implies (#[trigger] ps2.drop_first(
        )[j]).chips == ps1.drop_first()[j].chips by {
            assert(ps2.drop_first()[j] == ps2[j + 1]);
            assert(ps1.drop_first()[j] == ps1[j + 1]);
        }
        lemma_sum_same_chips(ps1.drop_first(), ps2.drop_first());
    }
}

/// Within one dealing pass over `n` seats starting left of dealer `d`, the
/// seat visited at offset `s` is (d+1+s) % n, and no other seat shares that
/// offset: (j - d - 1) % n recovers a seat's offset uniquely.
proof fn lemma_deal_offset(d: int, n: int, s: int, idx: int, j: int)
    requires
        0 <= d < n,
        0 <= s < n,
        0 <= j < n,
        idx == (d + 1 + s) % n,
    ensures
        0 <= idx < n,
        (idx - (d + 1)) % n == s,
        j != idx ==> (j - (d + 1)) % n != s,
{
    vstd::arithmetic::div_mod::lemma_mod_bound(d + 1 + s, n);
    vstd::arithmetic::div_mod::lemma_sub_mod_noop(d + 1 + s, d + 1, n);
    vstd::arithmetic::div_mod::lemma_small_mod(s as nat, n as nat);
    vstd::arithmetic::div_mod::lemma_sub_mod_noop(idx, d + 1, n);
    vstd::arithmetic::div_mod::lemma_small_mod(idx as nat, n as nat);
    assert((idx - (d + 1)) % n == s);
    if j != idx && (j - (d + 1)) % n == s {
        vstd::arithmetic::div_mod::lemma_sub_mod_noop(j - (d + 1), idx - (d + 1), n);
        vstd::arithmetic::div_mod::lemma_small_mod(0 as nat, n as nat);
        assert((j - idx) % n == 0);
        if j > idx {
            vstd::arithmetic::div_mod::lemma_small_mod((j - idx) as nat, n as nat);
            assert(false);
        } else {
            vstd::arithmetic::div_mod::lemma_mod_multiples_vanish(1, j - idx, n);
            vstd::arithmetic::div_mod::lemma_small_mod((n + j - idx) as nat, n as nat);
            assert(false);
        }
    }
}

fn stage_name(s: TableStage) -> &'static str {
    match s {
        TableStage::DealerDraw => "DealerDraw",
        TableStage::PreFlop => "PreFlop",
        TableStage::Flop => "Flop",
        TableStage::Turn => "Turn",
        TableStage::River => "River",
        TableStage::Showdown => "Showdown",
    }
}

impl TableStateServer {
    /// Deal one hole card from the top of the deck to seat `i`; a no-op on
    /// an empty deck. Chips, bets and folded flags are untouched and the
    /// table's card multiset is preserved.
    fn deal_hole_to(&mut self, i: usize)
        requires
            i < old(self).players@.len(),
        ensures
            final(self).players@.len() == old(self).players@.len(),
            holes_only_changed(old(self).players@, final(self).players@),
            table_cards(*final(self)).to_multiset() == table_cards(*old(self)).to_multiset(),
            old(self).deck@.len() == 0 ==> final(self).deck@ == old(self).deck@ && final(self).players == old(self).players,
            old(self).deck@.len() > 0 ==> final(self).deck@ == old(self).deck@.drop_last()
                && final(self).players@ == old(self).players@.update(
                i as int,
                (TablePlayer {
                    hole_cards: final(self).players@[i as int].hole_cards,
                    ..old(self).players@[i as int]
                }),
            ) && final(self).players@[i as int].hole_cards@ == old(self).players@[i as int].hole_cards@.push(old(self).deck@.last()),
            final(self).board == old(self).board,
            final(self).burned == old(self).burned,
            final(self).logs == old(self).logs,
            final(self).pot == old(self).pot,
            final(self).current_bet == old(self).current_bet,
            final(self).stage == old(self).stage,
            final(self).dealer_index == old(self).dealer_index,
            final(self).small_blind_index == old(self).small_blind_index,
            final(self).big_blind_index == old(self).big_blind_index,
            final(self).current_player_index == old(self).current_player_index,
            final(self).last_raiser_index == old(self).last_raiser_index,
            final(self).round_start_index == old(self).round_start_index,
            final(self).bot_pending_index == old(self).bot_pending_index,
            final(self).bot_decision_due_at == old(self).bot_decision_due_at,
            final(self).table_id == old(self).table_id,
            final(self).pot_stack == old(self).pot_stack,
            final(self).small_blind == old(self).small_blind,
            final(self).big_blind == old(self).big_blind,
            final(self).hand_number == old(self).hand_number,
            final(self).difficulty == old(self).difficulty,
            final(self).dealer_draw_cards == old(self).dealer_draw_cards,
            final(self).dealer_draw_revealed == old(self).dealer_draw_revealed,
            final(self).dealer_draw_in_progress == old(self).dealer_draw_in_progress,
            final(self).time_limit_seconds == old(self).time_limit_seconds,
            final(self).logs == old(self).logs,
    {
        let ghost a = *self;
        if let Some(card) = self.deck.pop() {
            {
                let p = &mut self.players[i];
                p.hole_cards.push(card);
            }
            proof {
                broadcast use vstd::seq_lib::lemma_multiset_commutative;
                broadcast use vstd::seq_lib::group_to_multiset_ensures;
                broadcast use vstd::multiset::group_multiset_axioms;

                lemma_holes_update_push(a.players@, i as int, self.players@[i as int], card);
                assert(a.deck@ =~= self.deck@.push(card));
                assert(a.deck@.to_multiset() =~= self.deck@.to_multiset().insert(card));
                assert(table_cards(*self).to_multiset() =~= table_cards(a).to_multiset());
            }
        } else {
            proof {
                assert(table_cards(*self) =~= table_cards(a));
            }
        }
    }

    /// Advance the street by operator request: leave the dealer draw by
    /// assigning the dealer and blinds, dealing two hole cards around and
    /// posting the blinds; or close the current betting round as
    /// `advance_after_close` does. A table already at showdown is left
    /// untouched. Returns whether a bot now has the turn.
    /// Deal two rounds of hole cards, one card at a time, starting left of
    /// dealer `d`. A seat is skipped only when the deck runs dry; with at
    /// least two cards per seat available, every seat gains exactly two.
    /// Chips, bets and every other table field are untouched.
    fn deal_holes_around(&mut self, d: usize)
        requires
            1 <= old(self).players@.len() <= 11,
            d < old(self).players@.len(),
        ensures
            final(self).players@.len() == old(self).players@.len(),
            holes_only_changed(old(self).players@, final(self).players@),
            sum_chips(final(self).players@) == sum_chips(old(self).players@),
            table_cards(*final(self)).to_multiset() == table_cards(*old(self)).to_multiset(),
            final(self).deck@.len() == (if old(self).deck@.len() >= 2 * old(self).players@.len() {
                old(self).deck@.len() - 2 * old(self).players@.len()
            } else {
                0
            }),
            old(self).deck@.len() >= 2 * old(self).players@.len() ==> forall|j: int|
                0 <= j < old(self).players@.len() ==> (#[trigger] final(self).players@[j]).hole_cards@.len() == old(self).players@[j].hole_cards@.len() + 2,
            final(self).board == old(self).board,
            final(self).burned == old(self).burned,
            final(self).logs == old(self).logs,
            final(self).pot == old(self).pot,
            final(self).current_bet == old(self).current_bet,
            final(self).stage == old(self).stage,
            final(self).dealer_index == old(self).dealer_index,
            final(self).small_blind_index == old(self).small_blind_index,
            final(self).big_blind_index == old(self).big_blind_index,
            final(self).current_player_index == old(self).current_player_index,
            final(self).last_raiser_index == old(self).last_raiser_index,
            final(self).round_start_index == old(self).round_start_index,
            final(self).bot_pending_index == old(self).bot_pending_index,
            final(self).bot_decision_due_at == old(self).bot_decision_due_at,
            final(self).table_id == old(self).table_id,
            final(self).pot_stack == old(self).pot_stack,
            final(self).small_blind == old(self).small_blind,
            final(self).big_blind == old(self).big_blind,
            final(self).hand_number == old(self).hand_number,
            final(self).difficulty == old(self).difficulty,
            final(self).dealer_draw_cards == old(self).dealer_draw_cards,
            final(self).dealer_draw_revealed == old(self).dealer_draw_revealed,
            final(self).dealer_draw_in_progress == old(self).dealer_draw_in_progress,
            final(self).time_limit_seconds == old(self).time_limit_seconds,
    {
        let n = self.players.len();
        let ghost t1 = *self;
        let ghost deck0 = self.deck@;
        proof {
            vstd::arithmetic::div_mod::lemma_fundamental_div_mod_converse(0, n as int, 0, 0);
        }
        let mut c: usize = 0;
        while c < 2 * n
            invariant
                n == self.players@.len(),
                1 <= n <= 11,
                c <= 2 * n,
                d < n,
                deck0.len() >= 2 * n ==> forall|j: int|
                    0 <= j < n ==> (#[trigger] self.players@[j]).hole_cards@.len()
                        == t1.players@[j].hole_cards@.len() + (c as int) / (n as int) + (if (j - (
                    d as int) - 1) % (n as int) < (c as int) % (n as int) {
                        1int
                    } else {
                        0int
                    }),
                self.players@.len() == t1.players@.len(),
                holes_only_changed(t1.players@, self.players@),
                table_cards(*self).to_multiset() == table_cards(t1).to_multiset(),
                deck0 == t1.deck@,
                self.deck@.len() == (if deck0.len() >= c {
                    deck0.len() - c
                } else {
                    0
                }),
                self.board == t1.board,
                self.burned == t1.burned,
                self.logs == t1.logs,
                self.pot == t1.pot,
                self.current_bet == t1.current_bet,
                self.stage == t1.stage,
                self.dealer_index == t1.dealer_index,
                self.small_blind_index == t1.small_blind_index,
                self.big_blind_index == t1.big_blind_index,
                self.current_player_index == t1.current_player_index,
                self.last_raiser_index == t1.last_raiser_index,
                self.round_start_index == t1.round_start_index,
                self.bot_pending_index == t1.bot_pending_index,
                self.bot_decision_due_at == t1.bot_decision_due_at,
                self.table_id == t1.table_id,
                self.pot_stack == t1.pot_stack,
                self.small_blind == t1.small_blind,
                self.big_blind == t1.big_blind,
                self.hand_number == t1.hand_number,
                self.difficulty == t1.difficulty,
                self.dealer_draw_cards == t1.dealer_draw_cards,
                self.dealer_draw_revealed == t1.dealer_draw_revealed,
                self.dealer_draw_in_progress == t1.dealer_draw_in_progress,
                self.time_limit_seconds == t1.time_limit_seconds,
            decreases 2 * n - c,
        {
            let step = (c % n) + 1;
            let idx = (d + step) % n;
            let ghost before = *self;
            self.deal_hole_to(idx);
            proof {
                assert forall|j: int|
                    0 <= j < t1.players@.len() implies #[trigger] self.players@[j]
                    == (TablePlayer {
                    hole_cards: self.players@[j].hole_cards,
                    ..t1.players@[j]
                }) by {
                    assert(before.players@[j] == (TablePlayer {
                        hole_cards: before.players@[j].hole_cards,
                        ..t1.players@[j]
                    }));
                }
                if deck0.len() >= 2 * n {
                    let ni = n as int;
                    let di = d as int;
                    let ci = c as int;
                    let s = ci % ni;
                    let q = ci / ni;
                    vstd::arithmetic::div_mod::lemma_fundamental_div_mod(ci, ni);
                    vstd::arithmetic::div_mod::lemma_mod_bound(ci, ni);
                    assert(idx as int == (di + 1 + s) % ni);
                    assert(before.deck@.len() > 0);
                    if s < ni - 1 {
                        vstd::arithmetic::div_mod::lemma_fundamental_div_mod_converse(
                            ci + 1,
                            ni,
                            q,
                            s + 1,
                        );
                    } else {
                        assert((q + 1) * ni == q * ni + ni) by (nonlinear_arith);
                        vstd::arithmetic::div_mod::lemma_fundamental_div_mod_converse(
                            ci + 1,
                            ni,
                            q + 1,
                            0,
                        );
                    }
                    assert forall|j: int|
                        0 <= j < ni implies (#[trigger] self.players@[j]).hole_cards@.len()
                        == t1.players@[j].hole_cards@.len() + (ci + 1) / ni + (if (j - di - 1)
                        % ni < (ci + 1) % ni {
                        1int
                    } else {
                        0int
                    }) by {
                        lemma_deal_offset(di, ni, s, idx as int, j);
                        vstd::arithmetic::div_mod::lemma_mod_bound(j - di - 1, ni);
                        if j == idx as int {
                            assert(self.players@[j].hole_cards@.len()
                                == before.players@[j].hole_cards@.len() + 1);
                        } else {
                            assert(self.players@[j] == before.players@[j]);
                        }
                    }
                }
            }
            c = c + 1;
        }
        proof {
            lemma_sum_same_chips(t1.players@, self.players@);
            if deck0.len() >= 2 * n {
                vstd::arithmetic::div_mod::lemma_fundamental_div_mod_converse(
                    2 * (n as int),
                    n as int,
                    2,
                    0,
                );
                assert forall|j: int|
                    0 <= j < n implies (#[trigger] self.players@[j]).hole_cards@.len()
                    == t1.players@[j].hole_cards@.len() + 2 by {
                    vstd::arithmetic::div_mod::lemma_mod_bound(j - (d as int) - 1, n as int);
                }
            }
        }
    }

    /// Leave the dealer draw: assign the dealer (seat 0 when unset), set
    /// the blinds left of the dealer, deal two hole cards around starting
    /// left of the dealer, post both blinds, and hand the turn to the seat
    /// left of the big blind. Returns whether that seat is a bot.
    #[verifier::rlimit(100)]
    fn leave_dealer_draw(&mut self) -> (sched: bool)
        requires
            wf_table(*old(self)),
            old(self).stage == TableStage::DealerDraw,
        ensures
            wf_table(*final(self)),
            final(self).players@.len() == old(self).players@.len(),
            money(*final(self)) <= money(*old(self)),
            final(self).stage == TableStage::PreFlop,
            table_cards(*final(self)).to_multiset() == table_cards(*old(self)).to_multiset(),
            sched == final(self).players@[final(self).current_player_index as int].is_bot,
            ({
                let a = *old(self);
                let n = a.players@.len() as int;
                let d: int = if a.dealer_index >= 0 {
                    a.dealer_index as int
                } else {
                    0
                };
                let sb = (d + 1) % n;
                let bb = (d + 2) % n;
                &&& final(self).dealer_index == d
                &&& final(self).small_blind_index == sb
                &&& final(self).big_blind_index == bb
                &&& final(self).current_player_index == (bb + 1) % n
                &&& final(self).round_start_index == Some(final(self).current_player_index)
                &&& final(self).last_raiser_index is None
                &&& sum_chips(final(self).players@) + final(self).pot == sum_chips(a.players@)
                    + a.pot
                &&& (a.deck@.len() >= 2 * n ==> final(self).deck@.len() == a.deck@.len() - 2 * n)
                &&& (a.deck@.len() >= 2 * n ==> forall|j: int|
                    0 <= j < n ==> (#[trigger] final(self).players@[j]).hole_cards@.len()
                        == a.players@[j].hole_cards@.len() + 2)
                &&& (n >= 2 ==> {
                    let sb_chips = a.players@[sb].chips as int;
                    let bb_chips = a.players@[bb].chips as int;
                    let sb_pay: int = if a.small_blind <= sb_chips {
                        a.small_blind as int
                    } else {
                        sb_chips
                    };
                    let bb_pay: int = if a.big_blind <= bb_chips {
                        a.big_blind as int
                    } else {
                        bb_chips
                    };
                    &&& final(self).pot == a.pot + sb_pay + bb_pay
                    &&& final(self).current_bet == bb_pay
                    &&& final(self).players@[sb].chips == sb_chips - sb_pay
                    &&& final(self).players@[sb].bet == sb_pay
                    &&& final(self).players@[bb].chips == bb_chips - bb_pay
                    &&& final(self).players@[bb].bet == bb_pay
                    &&& (forall|j: int|
                        0 <= j < n && j != sb && j != bb ==> (#[trigger] final(self).players@[j]).chips == a.players@[j].chips && final(self).players@[j].bet
                            == 0)
                })
            }),
    {
        let ghost t0 = *self;
        let n = self.players.len();
        let ghost before_zero = self.players@;
        let mut z: usize = 0;
        while z < n
            invariant
                n == self.players@.len(),
                z <= n,
                self.players@.len() == before_zero.len(),
                forall|m: int|
                    0 <= m < z ==> #[trigger] self.players@[m] == (TablePlayer {
                        bet: 0,
                        ..before_zero[m]
                    }),
                forall|m: int| z <= m < n ==> #[trigger] self.players@[m] == before_zero[m],
                t_eq_except_players_logs(t0, *self),
                self.logs == t0.logs,
            decreases n - z,
        {
            let p = &mut self.players[z];
            p.bet = 0;
            z = z + 1;
        }
        proof {
            assert(self.players@ =~= zero_bets(before_zero));
            lemma_zero_bets_props(before_zero);
            lemma_holes_zero_bets(before_zero);
        }
        self.current_bet = 0;
        self.stage = TableStage::PreFlop;
        self.dealer_draw_in_progress = Some(false);
        self.dealer_draw_revealed = Some(false);
        self.dealer_draw_cards = Some(Vec::new());
        if self.dealer_index < 0 {
            self.dealer_index = 0;
        }
        let d = self.dealer_index as usize;
        let sb = (d + 1) % n;
        let bb = (d + 2) % n;
        self.small_blind_index = sb as i32;
        self.big_blind_index = bb as i32;
        proof {
            let nn = n as int;
            let dd = d as int;
            if nn >= 2 {
                if dd + 1 < nn {
                    vstd::arithmetic::div_mod::lemma_small_mod((dd + 1) as nat, nn as nat);
                } else {
                    vstd::arithmetic::div_mod::lemma_mod_self_0(nn);
                }
                if dd + 2 < nn {
                    vstd::arithmetic::div_mod::lemma_small_mod((dd + 2) as nat, nn as nat);
                } else {
                    vstd::arithmetic::div_mod::lemma_mod_multiples_vanish(
                        1,
                        dd + 2 - nn,
                        nn,
                    );
                    vstd::arithmetic::div_mod::lemma_small_mod(
                        (dd + 2 - nn) as nat,
                        nn as nat,
                    );
                }
                assert((dd + 1) % nn != (dd + 2) % nn);
            }
        }

        let ghost t1 = *self;
        self.deal_holes_around(d);
        proof {
            if t1.deck@.len() >= 2 * n {
                assert forall|j: int|
                    0 <= j < n implies (#[trigger] self.players@[j]).hole_cards@.len()
                    == t0.players@[j].hole_cards@.len() + 2 by {
                    assert(t1.players@[j].hole_cards == t0.players@[j].hole_cards);
                }
            }
        }

        let ghost t2 = *self;
        let sb_chips = self.players[sb].chips;
        let sb_pay = if self.small_blind <= sb_chips {
            self.small_blind
        } else {
            sb_chips
        };
        proof {
            lemma_sum_chips_elem(self.players@, sb as int);
        }
        {
            let p = &mut self.players[sb];
            p.chips = p.chips - sb_pay;
            p.bet = sb_pay;
        }
        proof {
            lemma_sum_chips_update(t2.players@, sb as int, self.players@[sb as int]);
            lemma_holes_update_same(t2.players@, sb as int, self.players@[sb as int]);
        }
        self.pot = self.pot + sb_pay;
        let mut msb = actor_name(&self.players[sb]);
        msb.append(" posted small blind ");
        let amt_sb = u32_string(sb_pay);
        msb.append(amt_sb.as_str());
        self.push_log(msb);

        let ghost t3 = *self;
        let bb_chips = self.players[bb].chips;
        let bb_pay = if self.big_blind <= bb_chips {
            self.big_blind
        } else {
            bb_chips
        };
        proof {
            lemma_sum_chips_elem(self.players@, bb as int);
        }
        {
            let p = &mut self.players[bb];
            p.chips = p.chips - bb_pay;
            p.bet = bb_pay;
        }
        proof {
            lemma_sum_chips_update(t3.players@, bb as int, self.players@[bb as int]);
            lemma_holes_update_same(t3.players@, bb as int, self.players@[bb as int]);
        }
        self.pot = self.pot + bb_pay;
        if self.current_bet < bb_pay {
            self.current_bet = bb_pay;
        }
        let mut mbb = actor_name(&self.players[bb]);
        mbb.append(" posted big blind ");
        let amt_bb = u32_string(bb_pay);
        mbb.append(amt_bb.as_str());
        self.push_log(mbb);

        self.current_player_index = ((bb + 1) % n) as i32;
        self.round_start_index = Some(self.current_player_index);
        self.last_raiser_index = None;
        self.push_log(String::from_str("Dealt preflop hole cards"));

        let cur = self.current_player_index as usize;
        let is_bot = self.players[cur].is_bot;
        if is_bot {
            self.bot_pending_index = Some(self.current_player_index);
            let due = now_time();
            self.bot_decision_due_at = Some(due);
        } else {
            self.bot_pending_index = None;
            self.bot_decision_due_at = None;
        }
        is_bot
    }

    #[verifier::rlimit(100)]
    pub fn advance_street(&mut self) -> (sched: bool)
        requires
            wf_table(*old(self)),
        ensures
            wf_table(*final(self)),
            final(self).players@.len() == old(self).players@.len(),
            money(*final(self)) <= money(*old(self)),
            old(self).stage == TableStage::Showdown ==> *final(self) == *old(self) && !sched,
            old(self).stage != TableStage::Showdown ==> final(self).stage == street_next_stage(
                old(self).stage,
            ),
            old(self).stage != TableStage::Showdown ==> table_cards(
                *final(self),
            ).to_multiset() == table_cards(*old(self)).to_multiset(),
            old(self).stage == TableStage::DealerDraw ==> ({
                let a = *old(self);
                let n = a.players@.len() as int;
                let d: int = if a.dealer_index >= 0 {
                    a.dealer_index as int
                } else {
                    0
                };
                let sb = (d + 1) % n;
                let bb = (d + 2) % n;
                &&& final(self).dealer_index == d
                &&& final(self).small_blind_index == sb
                &&& final(self).big_blind_index == bb
                &&& final(self).current_player_index == (bb + 1) % n
                &&& final(self).round_start_index == Some(final(self).current_player_index)
                &&& final(self).last_raiser_index is None
                &&& sum_chips(final(self).players@) + final(self).pot == sum_chips(a.players@)
                    + a.pot
                &&& (a.deck@.len() >= 2 * n ==> final(self).deck@.len() == a.deck@.len() - 2 * n)
                &&& (a.deck@.len() >= 2 * n ==> forall|j: int|
                    0 <= j < n ==> (#[trigger] final(self).players@[j]).hole_cards@.len()
                        == a.players@[j].hole_cards@.len() + 2)
                &&& (n >= 2 ==> {
                    let sb_chips = a.players@[sb].chips as int;
                    let bb_chips = a.players@[bb].chips as int;
                    let sb_pay: int = if a.small_blind <= sb_chips {
                        a.small_blind as int
                    } else {
                        sb_chips
                    };
                    let bb_pay: int = if a.big_blind <= bb_chips {
                        a.big_blind as int
                    } else {
                        bb_chips
                    };
                    &&& final(self).pot == a.pot + sb_pay + bb_pay
                    &&& final(self).current_bet == bb_pay
                    &&& final(self).players@[sb].chips == sb_chips - sb_pay
                    &&& final(self).players@[sb].bet == sb_pay
                    &&& final(self).players@[bb].chips == bb_chips - bb_pay
                    &&& final(self).players@[bb].bet == bb_pay
                    &&& (forall|j: int|
                        0 <= j < n && j != sb && j != bb ==> (#[trigger] final(self).players@[j]).chips == a.players@[j].chips && final(self).players@[j].bet
                            == 0)
                })
            }),
            (old(self).stage != TableStage::Showdown && old(self).stage != TableStage::DealerDraw)
                ==> ({
                let ns = street_next_stage(old(self).stage);
                &&& final(self).current_bet == 0
                &&& final(self).last_raiser_index is None
                &&& (forall|j: int|
                    0 <= j < old(self).players@.len() ==> (#[trigger] final(self).players@[j]).bet == 0)
                &&& (ns != TableStage::Showdown ==> sum_chips(final(self).players@) == sum_chips(
                    old(self).players@,
                ) && final(self).pot == old(self).pot && final(self).players@ == zero_bets(
                    old(self).players@,
                ) && (old(self).dealer_index >= 0 ==> final(self).current_player_index as int
                    == spec_first_active_from(
                    zero_bets(old(self).players@),
                    old(self).dealer_index + 1,
                    0,
                ) && final(self).round_start_index == Some(final(self).current_player_index)))
                &&& (ns == TableStage::Showdown ==> final(self).bot_pending_index is None
                    && final(self).bot_decision_due_at is None && (active_seats_upto(
                    old(self).players@,
                    old(self).players@.len() as int,
                ).len() >= 1 ==> sum_chips(final(self).players@) == sum_chips(old(self).players@)
                    + old(self).pot))
                &&& (ns == TableStage::Flop && old(self).deck@.len() >= 4 ==> ({
                    let dsq = old(self).deck@;
                    let l = dsq.len() as int;
                    &&& final(self).burned@ == old(self).burned@.push(dsq[l - 1])
                    &&& final(self).board@ == old(self).board@ + seq![
                        dsq[l - 2],
                        dsq[l - 3],
                        dsq[l - 4],
                    ]
                    &&& final(self).deck@ == dsq.take(l - 4)
                }))
                &&& ((ns == TableStage::Turn || ns == TableStage::River) && old(self).deck@.len() >= 2 ==> ({
                    let dsq = old(self).deck@;
                    let l = dsq.len() as int;
                    &&& final(self).burned@ == old(self).burned@.push(dsq[l - 1])
                    &&& final(self).board@ == old(self).board@.push(dsq[l - 2])
                    &&& final(self).deck@ == dsq.take(l - 2)
                }))
            }),
            final(self).stage != TableStage::Showdown ==> sched == final(self).players@[final(self).current_player_index as int].is_bot,
            final(self).stage == TableStage::Showdown && old(self).stage != TableStage::Showdown
                ==> !sched && final(self).bot_pending_index is None && final(self).bot_decision_due_at is None,
    {
        if self.stage == TableStage::Showdown {
            return false;
        }
        let ghost t0 = *self;
        let n = self.players.len();
        if self.stage == TableStage::DealerDraw {
            return self.leave_dealer_draw();
        }

        self.advance_after_close();
        let mut m = String::from_str("Moved to stage: ");
        m.append(stage_name(self.stage));
        self.push_log(m);
        if self.stage == TableStage::Showdown {
            proof {
                lemma_active_same_folded(t0.players@, zero_bets(t0.players@), n as int);
            }
            return false;
        }
        let cur = self.current_player_index as usize;
        let is_bot = self.players[cur].is_bot;
        if is_bot {
            self.bot_pending_index = Some(self.current_player_index);
            let due = now_time();
            self.bot_decision_due_at = Some(due);
        } else {
            self.bot_pending_index = None;
            self.bot_decision_due_at = None;
        }
        is_bot
    }

    /// Start a new hand: stage back to the dealer draw, pot and bets
    /// cleared, folded flags and hole cards cleared, the dealer button
    /// rotated one seat clockwise. Chip stacks persist; the deck is not
    /// replenished here, so the discarded hole cards leave play until an
    /// explicit reshuffle.
    pub fn reset_hand(&mut self)
        requires
            wf_table(*old(self)),
            old(self).hand_number < u32::MAX,
        ensures
            wf_table(*final(self)),
            final(self).stage == TableStage::DealerDraw,
            final(self).hand_number == old(self).hand_number + 1,
            final(self).pot == 0,
            final(self).current_bet == 0,
            final(self).small_blind_index == -1,
            final(self).big_blind_index == -1,
            final(self).current_player_index == 0,
            final(self).last_raiser_index is None,
            final(self).round_start_index is None,
            final(self).dealer_index as int == (if old(self).dealer_index >= 0 {
                (old(self).dealer_index + 1) % (old(self).players@.len() as int)
            } else {
                old(self).dealer_index as int
            }),
            final(self).players@.len() == old(self).players@.len(),
            forall|j: int|
                0 <= j < old(self).players@.len() ==> {
                    let p = #[trigger] final(self).players@[j];
                    &&& p.chips == old(self).players@[j].chips
                    &&& p.bet == 0
                    &&& !p.has_folded
                    &&& p.hole_cards@.len() == 0
                    &&& p.id == old(self).players@[j].id
                    &&& p.name == old(self).players@[j].name
                    &&& p.is_bot == old(self).players@[j].is_bot
                    &&& p.is_hero == old(self).players@[j].is_hero
                    &&& p.seat_index == old(self).players@[j].seat_index
                },
            sum_chips(final(self).players@) == sum_chips(old(self).players@),
            final(self).deck == old(self).deck,
            final(self).board == old(self).board,
            final(self).burned == old(self).burned,
            money(*final(self)) <= money(*old(self)),
    {
        let ghost t0 = *self;
        let n = self.players.len();
        let ghost before = self.players@;
        let mut z: usize = 0;
        while z < n
            invariant
                n == self.players@.len(),
                z <= n,
                self.players@.len() == before.len(),
                before == t0.players@,
                t_eq_except_players_logs(t0, *self),
                self.logs == t0.logs,
                forall|m: int|
                    0 <= m < z ==> #[trigger] self.players@[m] == (TablePlayer {
                        bet: 0,
                        has_folded: false,
                        hole_cards: self.players@[m].hole_cards,
                        ..before[m]
                    }) && self.players@[m].hole_cards@.len() == 0,
                forall|m: int| z <= m < n ==> #[trigger] self.players@[m] == before[m],
            decreases n - z,
        {
            let p = &mut self.players[z];
            p.bet = 0;
            p.has_folded = false;
            p.hole_cards = Vec::new();
            z = z + 1;
        }
        proof {
            lemma_sum_same_chips(before, self.players@);
            lemma_sum_chips_nonneg(self.players@);
        }
        self.hand_number = self.hand_number + 1;
        self.stage = TableStage::DealerDraw;
        self.pot = 0;
        self.pot_stack = PotStackBreakdown(Vec::new());
        self.current_bet = 0;
        if self.dealer_index >= 0 {
            self.dealer_index = ((self.dealer_index as usize + 1) % n) as i32;
        }
        self.small_blind_index = -1;
        self.big_blind_index = -1;
        self.current_player_index = 0;
        self.last_raiser_index = None;
        self.round_start_index = None;
        self.dealer_draw_in_progress = Some(false);
        self.dealer_draw_revealed = Some(false);
        self.dealer_draw_cards = Some(Vec::new());
        self.push_log(String::from_str("New hand (rotated dealer)"));
    }

    /// The seat whose player carries the given identifier, if any.
    pub fn find_player(&self, player_id: &String) -> (r: Option<usize>)
        ensures
            match r {
                Some(i) => i < self.players@.len() && self.players@[i as int].id@ == player_id@
                    && forall|j: int| 0 <= j < i ==> self.players@[j].id@ != player_id@,
                None => forall|j: int|
                    0 <= j < self.players@.len() ==> self.players@[j].id@ != player_id@,
            },
    {
        let mut i: usize = 0;
        while i < self.players.len()
            invariant
                i <= self.players@.len(),
                forall|j: int| 0 <= j < i ==> self.players@[j].id@ != player_id@,
            decreases self.players@.len() - i,
        {
            if self.players[i].id == *player_id {
                return Some(i);
            }
            i = i + 1;
        }
        None
    }
}

/// What the actor at seat `idx` still owes to match the current bet.
pub open spec fn owed_of(t: TableStateServer, idx: int) -> int {
    if t.current_bet >= t.players@[idx].bet {
        t.current_bet - t.players@[idx].bet
    } else {
        0
    }
}

/// The bot heuristic as a pure function of the table quantities and two
/// percentile draws in 0..100: with nothing owed, Hard opens 2x or 3x the
/// big blind 60% of the time and Medium 2x 30% of the time, else check;
/// facing an all-in-sized bet, call with any chips behind, else fold; a
/// small bet is called (Hard re-raises by two big blinds 25% of the time);
/// a bet over four big blinds is folded (Hard calls 30% of the time);
/// anything else is called.
pub open spec fn spec_bot_decision(
    diff: Option<Difficulty>,
    to_call: int,
    chips: int,
    bb: int,
    cb: int,
    d1: int,
    d2: int,
) -> (TableAction, Option<u32>) {
    if to_call == 0 {
        match diff {
            Some(Difficulty::Hard) => {
                if d1 < 60 {
                    let mult: int = if d2 < 50 {
                        2
                    } else {
                        3
                    };
                    let rt: int = if mult * bb >= 2 * bb {
                        mult * bb
                    } else {
                        2 * bb
                    };
                    (TableAction::Raise, Some(rt as u32))
                } else {
                    (TableAction::Check, None)
                }
            },
            Some(Difficulty::Easy) => (TableAction::Check, None),
            _ => {
                if d1 < 30 {
                    (TableAction::Raise, Some((2 * bb) as u32))
                } else {
                    (TableAction::Check, None)
                }
            },
        }
    } else if to_call >= chips {
        if chips > 0 {
            (TableAction::Call, None)
        } else {
            (TableAction::Fold, None)
        }
    } else if to_call <= bb {
        if diff == Some(Difficulty::Hard) && d1 < 25 {
            let rt: int = if cb + 2 * bb >= 2 * bb {
                cb + 2 * bb
            } else {
                2 * bb
            };
            (TableAction::Raise, Some(rt as u32))
        } else {
            (TableAction::Call, None)
        }
    } else if to_call > 4 * bb {
        if diff == Some(Difficulty::Hard) && d1 < 30 {
            (TableAction::Call, None)
        } else {
            (TableAction::Fold, None)
        }
    } else {
        (TableAction::Call, None)
    }
}

/// The deterministic core of the bot heuristic, verified for every pair of
/// draws the generator can hand back.
fn decide_from_draws(
    diff: Option<Difficulty>,
    to_call: u32,
    chips: u32,
    bb: u32,
    cb: u32,
    d1: u8,
    d2: u8,
) -> (r: (TableAction, Option<u32>))
    requires
        4 * (bb as int) <= u32::MAX as int,
        cb as int + 2 * (bb as int) <= u32::MAX as int,
    ensures
        r == spec_bot_decision(
            diff,
            to_call as int,
            chips as int,
            bb as int,
            cb as int,
            d1 as int,
            d2 as int,
        ),
{
    if to_call == 0 {
        match diff {
            Some(Difficulty::Hard) => {
                if d1 < 60 {
                    let mult: u32 = if d2 < 50 {
                        2
                    } else {
                        3
                    };
                    let base = mult * bb;
                    let floor = 2 * bb;
                    let rt = if base >= floor {
                        base
                    } else {
                        floor
                    };
                    (TableAction::Raise, Some(rt))
                } else {
                    (TableAction::Check, None)
                }
            },
            Some(Difficulty::Easy) => (TableAction::Check, None),
            _ => {
                if d1 < 30 {
                    (TableAction::Raise, Some(2 * bb))
                } else {
                    (TableAction::Check, None)
                }
            },
        }
    } else if to_call >= chips {
        if chips > 0 {
            (TableAction::Call, None)
        } else {
            (TableAction::Fold, None)
        }
    } else if to_call <= bb {
        let hard = match diff {
            Some(Difficulty::Hard) => true,
            _ => false,
        };
        if hard && d1 < 25 {
            let base = cb + 2 * bb;
            let floor = 2 * bb;
            let rt = if base >= floor {
                base
            } else {
                floor
            };
            (TableAction::Raise, Some(rt))
        } else {
            (TableAction::Call, None)
        }
    } else if to_call > 4 * bb {
        let hard = match diff {
            Some(Difficulty::Hard) => true,
            _ => false,
        };
        if hard && d1 < 30 {
            (TableAction::Call, None)
        } else {
            (TableAction::Fold, None)
        }
    } else {
        (TableAction::Call, None)
    }
}

/// Decide the pending bot's action: the pure heuristic applied to two fresh
/// percentile draws. Every outcome satisfies the heuristic for some pair of
/// draws.
pub fn simple_bot_decision(t: &TableStateServer, idx: usize) -> (r: (TableAction, Option<u32>))
    requires
        wf_table(*t),
        idx < t.players@.len(),
        t.stage != TableStage::Showdown,
    ensures
        exists|d1: int, d2: int|
            0 <= d1 < 100 && 0 <= d2 < 100 && r == spec_bot_decision(
                t.difficulty,
                owed_of(*t, idx as int),
                t.players@[idx as int].chips as int,
                t.big_blind as int,
                t.current_bet as int,
                d1,
                d2,
            ),
{
    let d1 = percent_draw();
    let d2 = percent_draw();
    let p = &t.players[idx];
    let to_call = if t.current_bet >= p.bet {
        t.current_bet - p.bet
    } else {
        0
    };
    proof {
        lemma_sum_chips_elem(t.players@, idx as int);
        lemma_sum_chips_nonneg(t.players@);
        assert(t.current_bet <= t.pot);
        assert(money(*t) == sum_chips(t.players@) + t.pot);
    }
    let r = decide_from_draws(t.difficulty, to_call, p.chips, t.big_blind, t.current_bet, d1, d2);
    proof {
        assert((d1 as int) < 100 && (d2 as int) < 100 && r == spec_bot_decision(
            t.difficulty,
            owed_of(*t, idx as int),
            t.players@[idx as int].chips as int,
            t.big_blind as int,
            t.current_bet as int,
            d1 as int,
            d2 as int,
        ));
    }
    r
}

impl TableStateServer {
    /// One woken step of the bot chain: if seat `idx` is still the pending
    /// bot with the turn, decide its action and apply it through the same
    /// `apply_action` path as human input — so a bot's action can close a
    /// betting round, deal the next street, or win an uncontested pot just
    /// as a human's would. Returns whether the new actor is again a bot
    /// (the chain continues); otherwise the pending-bot state is cleared
    /// and the chain stops. A stale wake — the pending seat or the turn
    /// changed while sleeping, or the hand has ended — changes nothing.
    pub fn bot_turn_step(&mut self, idx: usize) -> (cont: bool)
        requires
            wf_table(*old(self)),
        ensures
            wf_table(*final(self)),
            final(self).players@.len() == old(self).players@.len(),
            money(*final(self)) <= money(*old(self)),
            table_cards(*final(self)).to_multiset() == table_cards(*old(self)).to_multiset(),
            (old(self).bot_pending_index != Some(idx as i32) || idx >= old(self).players@.len()
                || idx as int != old(self).current_player_index as int || old(self).stage
                == TableStage::Showdown) ==> (*final(self) == *old(self) && !cont),
            (old(self).bot_pending_index == Some(idx as i32) && idx < old(self).players@.len()
                && idx as int == old(self).current_player_index as int && old(self).stage
                != TableStage::Showdown) ==> ({
                let a = *old(self);
                &&& exists|action: TableAction, rt: Option<u32>, d1: int, d2: int|
                    0 <= d1 < 100 && 0 <= d2 < 100 && (action, rt) == spec_bot_decision(
                        a.difficulty,
                        owed_of(a, idx as int),
                        a.players@[idx as int].chips as int,
                        a.big_blind as int,
                        a.current_bet as int,
                        d1,
                        d2,
                    ) && action_applied_effect(a, *final(self), idx as int, action, rt, cont)
                &&& (!cont ==> final(self).bot_pending_index is None && final(self).bot_decision_due_at is None)
            }),
    {
        if idx >= self.players.len() {
            return false;
        }
        let pending = match self.bot_pending_index {
            Some(p) => p == idx as i32,
            None => false,
        };
        if !pending {
            return false;
        }
        if idx as i32 != self.current_player_index {
            return false;
        }
        if self.stage == TableStage::Showdown {
            return false;
        }
        let ghost t0 = *self;
        let (action, rt) = simple_bot_decision(self, idx);
        let cont = self.apply_action(idx, action, rt);
        let ghost mid = *self;
        if !cont {
            self.bot_pending_index = None;
            self.bot_decision_due_at = None;
        }
        proof {
            let (d1, d2) = choose|d1: int, d2: int|
                0 <= d1 < 100 && 0 <= d2 < 100 && (action, rt) == spec_bot_decision(
                    t0.difficulty,
                    owed_of(t0, idx as int),
                    t0.players@[idx as int].chips as int,
                    t0.big_blind as int,
                    t0.current_bet as int,
                    d1,
                    d2,
                );
            assert(action_applied_effect(t0, mid, idx as int, action, rt, cont));
            assert(action_applied_effect(t0, *self, idx as int, action, rt, cont));
            assert(0 <= d1 < 100 && 0 <= d2 < 100 && (action, rt) == spec_bot_decision(
                t0.difficulty,
                owed_of(t0, idx as int),
                t0.players@[idx as int].chips as int,
                t0.big_blind as int,
                t0.current_bet as int,
                d1,
                d2,
            ) && action_applied_effect(t0, *self, idx as int, action, rt, cont));
        }
        cont
    }

    /// Record when the pending bot's decision is due, for the client's
    /// countdown; a no-op if seat `idx` is no longer the pending bot.
    /// Nothing but the due timestamp ever changes.
    pub fn note_bot_due(&mut self, idx: usize, delay_ms: u64)
        requires
            delay_ms <= 1_000_000_000,
        ensures
            old(self).bot_pending_index == Some(idx as i32) ==> final(self).bot_decision_due_at
                is Some && t_eq_except_due(*old(self), *final(self)),
            old(self).bot_pending_index != Some(idx as i32) ==> *final(self) == *old(self),
    {
        let matches_idx = match self.bot_pending_index {
            Some(p) => p == idx as i32,
            None => false,
        };
        if matches_idx {
            let due = now_plus_ms(delay_ms);
            self.bot_decision_due_at = Some(due);
        }
    }
}

/// The jitter window for a bot's thinking delay, per difficulty.
pub open spec fn delay_window(d: Option<Difficulty>) -> (int, int) {
    match d {
        Some(Difficulty::Hard) => (900, 2200),
        Some(Difficulty::Easy) => (250, 900),
        _ => (700, 1600),
    }
}

/// A randomized bot thinking delay: drawn from the difficulty's window,
/// capped by the table's time limit, and never under 150 ms.
pub fn compute_bot_delay_ms(difficulty: &Option<Difficulty>, time_limit_seconds: u32) -> (r: u64)
    ensures
        150 <= r,
        r as int <= if delay_window(*difficulty).1 <= time_limit_seconds as int * 1000 {
            if delay_window(*difficulty).1 >= 150 {
                delay_window(*difficulty).1
            } else {
                150
            }
        } else {
            if time_limit_seconds as int * 1000 >= 150 {
                time_limit_seconds as int * 1000
            } else {
                150
            }
        },
        r as int >= if delay_window(*difficulty).0 <= time_limit_seconds as int * 1000 {
            if delay_window(*difficulty).0 >= 150 {
                delay_window(*difficulty).0
            } else {
                150
            }
        } else {
            if time_limit_seconds as int * 1000 >= 150 {
                time_limit_seconds as int * 1000
            } else {
                150
            }
        },
{
    let max_limit = (time_limit_seconds as u64) * 1000;
    let (lo, hi): (u64, u64) = match difficulty {
        Some(Difficulty::Hard) => (900, 2200),
        Some(Difficulty::Easy) => (250, 900),
        _ => (700, 1600),
    };
    let ms = rand_range_u64(lo, hi);
    let capped = if ms <= max_limit {
        ms
    } else {
        max_limit
    };
    if capped >= 150 {
        capped
    } else {
        150
    }
}

/// Card conservation: a table whose cards are intact holds exactly the one
/// 52-card set — 52 cards in all, each (suit, rank) pair exactly once,
/// wherever each card lies (deck, board, burn pile or a seat's hand).
pub proof fn lemma_card_conservation(t: TableStateServer)
    requires
        cards_ok(t),
    ensures
        table_cards(t).len() == 52,
        forall|c: Card| #[trigger] table_cards(t).to_multiset().count(c) == 1,
{
    broadcast use vstd::seq_lib::group_to_multiset_ensures;

    crate::cards::lemma_full_deck_each_card_once();
    assert(table_cards(t).to_multiset().len() == 52);
}

} // verus!
