//! The game contract: a card catalogue, rounds that players create, join,
//! ready up for, play card by card and finalize, player statistics, roles
//! and milestone rewards.
use vstd::prelude::*;
use std::collections::HashMap;
use crate::errors::Error;
use crate::events::{
    Event, OwnershipTransferStarted, OwnershipTransferred, PlayerReady, RewardClaimed,
    RoleUpdated, RoundCancelled, RoundCompleted, RoundCreated, RoundJoined, RoundLeft,
    RoundStarted,
};
use crate::random::{get_random_numbers, random_selection};
use crate::scoring::{determine_round_winners, round_winners};
use crate::types::{Address, Answer, Card, Genre, Ledger, Milestone, PlayerStats, Role, Round};
use soroban_sdk::Env;

verus! {

broadcast use vstd::std_specs::hash::group_hash_axioms;

/// Bumped on every release that changes the contract's code.
pub const VERSION: u32 = 1;

/// How long a round runs once every player is ready.
pub const DEFAULT_ROUND_DURATION_SECONDS: u64 = 300;

/// Default cap on players per round when the owner hasn't set one.
pub const DEFAULT_MAX_PLAYERS: u32 = 8;

/// Seconds a player has to answer after a card is flipped. Later answers
/// are accepted but scored as wrong.
pub const CARD_ANSWER_WINDOW_SECONDS: u64 = 15;

/// Seconds after creation after which anyone may cancel a round that never
/// started.
pub const LOBBY_TIMEOUT_SECONDS: u64 = 600;

/// Upper bound on the page size of the paginated list views.
pub const MAX_PAGE_LIMIT: u32 = 50;

/// What is stored about one round, as mathematical values.
pub struct RoundState {
    pub round: Round,
    /// Players in joining order; the round admin is always among them.
    pub players: Seq<Address>,
    /// Card ids drawn for the round, in play order.
    pub cards: Seq<u64>,
    /// Correct answers of each player (same order as `players`).
    pub scores: Seq<u64>,
    /// Total answer time of each player (same order as `players`).
    pub answer_times: Seq<u64>,
    /// When each flipped card was flipped (same order as `cards`).
    pub card_started_at: Seq<u64>,
    /// The (player, card id) pairs that have been answered.
    pub answered: Seq<(Address, u64)>,
    /// Players that signalled ready.
    pub ready: Seq<Address>,
    pub finalized: bool,
    pub created_at: u64,
    /// Every answer recorded so far, oldest first.
    pub log: Seq<AnswerRecord>,
}

/// One recorded answer: who answered which card, the seconds it took, and
/// whether it counted as correct (what `submit_answer` returned).
pub struct AnswerRecord {
    pub player: Address,
    pub card_id: u64,
    pub time: u64,
    pub correct: bool,
}

/// Number of correct answers of `p` in `log`.
pub open spec fn correct_count(log: Seq<AnswerRecord>, p: Address) -> nat
    decreases log.len(),
{
    if log.len() == 0 {
        0
    } else {
        correct_count(log.drop_last(), p) + if log.last().player == p && log.last().correct { 1nat } else { 0nat }
    }
}

/// Total answer time of `p` in `log`.
pub open spec fn time_total(log: Seq<AnswerRecord>, p: Address) -> nat
    decreases log.len(),
{
    if log.len() == 0 {
        0
    } else {
        time_total(log.drop_last(), p) + if log.last().player == p { log.last().time as nat } else { 0nat }
    }
}

/// Appending a record changes only its player's counts.
pub proof fn lemma_log_push(log: Seq<AnswerRecord>, rec: AnswerRecord, p: Address)
    ensures
        correct_count(log.push(rec), p) == correct_count(log, p) + if rec.player == p && rec.correct { 1nat } else { 0nat },
        time_total(log.push(rec), p) == time_total(log, p) + if rec.player == p { rec.time as nat } else { 0nat },
{
    assert(log.push(rec).drop_last() =~= log);
}

/// The contract's storage, as mathematical values.
pub struct GameState {
    pub owner: Address,
    pub pending_owner: Option<Address>,
    /// Admin flag of each address (by handle).
    pub admins: Map<u64, bool>,
    /// Card `i + 1` is `cards[i]`.
    pub cards: Seq<Card>,
    pub cards_per_round: u32,
    pub max_players: Option<u32>,
    pub nft_contract: Option<Address>,
    /// Round `i + 1` is `rounds[i]`.
    pub rounds: Seq<RoundState>,
    /// Ids of the rounds that are created but neither started nor cancelled.
    pub open_rounds: Seq<u64>,
    /// Statistics of each address (by handle) that has any.
    pub stats: Map<u64, PlayerStats>,
    /// Milestones claimed, per player.
    pub claimed: Seq<(Address, Milestone)>,
    /// Published events, oldest first.
    pub events: Seq<Event>,
}

pub open spec fn increasing(s: Seq<u64>) -> bool {
    forall|i: int, j: int| 0 <= i < j < s.len() ==> s[i] < s[j]
}

pub open spec fn seq_distinct<T>(s: Seq<T>) -> bool {
    forall|i: int, j: int| 0 <= i < s.len() && 0 <= j < s.len() && i != j ==> s[i] != s[j]
}

impl RoundState {
    pub open spec fn wf(self, id: int, card_count: int) -> bool {
        &&& self.round.round_id == id
        &&& seq_distinct(self.players)
        &&& self.players.contains(self.round.admin)
        &&& self.players.len() <= u32::MAX
        &&& self.scores.len() == self.players.len()
        &&& self.answer_times.len() == self.players.len()
        &&& seq_distinct(self.cards)
        &&& self.cards.len() <= u32::MAX
        &&& forall|k: int| 0 <= k < self.cards.len() ==> 1 <= #[trigger] self.cards[k] <= card_count
        &&& self.round.next_card_index <= self.cards.len()
        &&& self.card_started_at.len() == self.round.next_card_index
        &&& seq_distinct(self.ready)
        &&& forall|k: int| 0 <= k < self.ready.len() ==> self.players.contains(#[trigger] self.ready[k])
        &&& self.round.is_started ==> self.ready.len() == self.players.len()
        &&& !self.round.is_started ==> self.log.len() == 0
        &&& self.answered.len() == self.log.len()
        &&& forall|k: int| 0 <= k < self.log.len() ==> #[trigger] self.answered[k] == (self.log[k].player, self.log[k].card_id)
        &&& forall|k: int| 0 <= k < self.answered.len() ==> self.players.contains(#[trigger] self.answered[k].0)
        &&& forall|i: int| 0 <= i < self.players.len() ==> #[trigger] self.scores[i] == correct_count(self.log, self.players[i])
        &&& forall|i: int| 0 <= i < self.players.len() ==> #[trigger] self.answer_times[i] == time_total(self.log, self.players[i])
    }

    /// `player` joins with no score and no answer time yet.
    pub open spec fn with_player(self, player: Address) -> RoundState {
        RoundState {
            players: self.players.push(player),
            scores: self.scores.push(0),
            answer_times: self.answer_times.push(0),
            ..self
        }
    }

    /// `player` (who is in the round) leaves it, and is no longer ready.
    pub open spec fn without_player(self, player: Address) -> RoundState {
        let i = self.players.index_of(player);
        RoundState {
            players: self.players.remove(i),
            scores: self.scores.remove(i),
            answer_times: self.answer_times.remove(i),
            ready: if self.ready.contains(player) { self.ready.remove(self.ready.index_of(player)) } else { self.ready },
            ..self
        }
    }

    /// Marks `player` ready and, when that makes every player ready, starts
    /// the round at `now`.
    pub open spec fn with_ready(self, player: Address, now: u64) -> RoundState {
        let ready = self.ready.push(player);
        if ready.len() == self.players.len() {
            RoundState {
                ready,
                round: Round {
                    start_time: now,
                    end_time: (now + DEFAULT_ROUND_DURATION_SECONDS) as u64,
                    is_started: true,
                    ..self.round
                },
                ..self
            }
        } else {
            RoundState { ready, ..self }
        }
    }

    /// The id of the card most recently flipped.
    pub open spec fn current_card(self) -> u64 {
        self.cards[self.round.next_card_index - 1]
    }

    /// Seconds between the flip of the current card and `now` (0 if `now`
    /// is earlier).
    pub open spec fn answer_time(self, now: u64) -> u64 {
        let started = self.card_started_at[self.round.next_card_index - 1];
        if now >= started { (now - started) as u64 } else { 0 }
    }

    /// Every player has answered every card of the round (and there are
    /// players and cards).
    pub open spec fn all_answered(self) -> bool {
        &&& self.players.len() > 0
        &&& self.cards.len() > 0
        &&& forall|i: int, j: int| 0 <= i < self.players.len() && 0 <= j < self.cards.len()
            ==> self.answered.contains((#[trigger] self.players[i], #[trigger] self.cards[j]))
    }

    /// The round may be finalized at `now`: every answer is in, or its
    /// deadline has passed.
    pub open spec fn finalizable(self, now: u64) -> bool {
        self.all_answered() || (self.round.end_time != 0 && now >= self.round.end_time)
    }

    pub open spec fn winners(self) -> Seq<Address> {
        round_winners(self.players, self.scores, self.answer_times)
    }

    /// Whether `player` signalling ready makes every player ready.
    pub open spec fn ready_completes(self, player: Address) -> bool {
        self.ready.len() + 1 == self.players.len()
    }
}

/// A new round: `admin` is its only player and nothing has been played.
pub open spec fn new_round_state(id: u64, admin: Address, genre: Genre, cards: Seq<u64>, now: u64) -> RoundState {
    RoundState {
        round: Round {
            round_id: id,
            admin,
            genre,
            wager_amount: 0,
            start_time: 0,
            is_started: false,
            is_completed: false,
            end_time: 0,
            next_card_index: 0,
            is_cancelled: false,
        },
        players: seq![admin],
        cards,
        scores: seq![0],
        answer_times: seq![0],
        card_started_at: Seq::empty(),
        answered: Seq::empty(),
        ready: Seq::empty(),
        finalized: false,
        created_at: now,
        log: Seq::empty(),
    }
}

proof fn lemma_create_round_wf(s: GameState, caller: Address, genre: Genre, cards: Seq<u64>, now: u64)
    requires
        s.wf(),
        s.rounds.len() < u64::MAX,
        seq_distinct(cards),
        cards.len() <= u32::MAX,
        forall|k: int| 0 <= k < cards.len() ==> 1 <= #[trigger] cards[k] <= s.cards.len(),
    ensures
        s.after_create_round(caller, genre, cards, now).wf(),
{
    let t = s.after_create_round(caller, genre, cards, now);
    let n = s.rounds.len();
    let round_id = (n + 1) as u64;
    assert forall|i: int| 0 <= i < t.rounds.len() implies (#[trigger] t.rounds[i]).wf(i + 1, t.cards.len() as int) by {
        if i < n {
            assert(s.rounds[i].wf(i + 1, s.cards.len() as int));
        } else {
            assert(seq![caller][0] == caller);
        }
    }
    assert forall|id: u64| #[trigger] t.open_rounds.contains(id) <==> (t.has_round(id)
        && !t.round_state(id).round.is_started && !t.round_state(id).round.is_cancelled) by {
        if id == round_id {
            assert(t.open_rounds[t.open_rounds.len() - 1] == id);
        } else {
            if t.open_rounds.contains(id) {
                let k = choose|k: int| 0 <= k < t.open_rounds.len() && t.open_rounds[k] == id;
                assert(s.open_rounds[k] == id);
            }
            if s.open_rounds.contains(id) {
                let k = choose|k: int| 0 <= k < s.open_rounds.len() && s.open_rounds[k] == id;
                assert(t.open_rounds[k] == id);
            }
        }
    }
    assert forall|i: int, j: int| 0 <= i < j < t.open_rounds.len() implies t.open_rounds[i] < t.open_rounds[j] by {
        if j == t.open_rounds.len() - 1 {
            assert(s.open_rounds.contains(t.open_rounds[i]));
        }
    }
}


/// Removing one id from a strictly increasing list keeps it strictly
/// increasing and drops exactly that id.
proof fn lemma_remove_sorted(s: Seq<u64>, id: u64)
    requires
        forall|i: int, j: int| 0 <= i < j < s.len() ==> s[i] < s[j],
        s.contains(id),
    ensures
        forall|i: int, j: int| 0 <= i < j < s.remove(s.index_of(id)).len()
            ==> s.remove(s.index_of(id))[i] < s.remove(s.index_of(id))[j],
        forall|x: u64| #[trigger] s.remove(s.index_of(id)).contains(x) <==> (s.contains(x) && x != id),
{
    let k = s.index_of(id);
    let t = s.remove(k);
    assert forall|i: int, j: int| 0 <= i < j < t.len() implies t[i] < t[j] by {
        let i2 = if i < k { i } else { i + 1 };
        let j2 = if j < k { j } else { j + 1 };
        assert(t[i] == s[i2]);
        assert(t[j] == s[j2]);
    }
    assert forall|x: u64| #[trigger] t.contains(x) <==> (s.contains(x) && x != id) by {
        if t.contains(x) {
            let i = choose|i: int| 0 <= i < t.len() && t[i] == x;
            let i2 = if i < k { i } else { i + 1 };
            assert(s[i2] == x);
            if x == id {
                if i2 < k {
                    assert(s[i2] < s[k]);
                } else {
                    assert(s[k] < s[i2]);
                }
            }
        }
        if s.contains(x) && x != id {
            let i = choose|i: int| 0 <= i < s.len() && s[i] == x;
            assert(i != k);
            let i2 = if i < k { i } else { i - 1 };
            assert(t[i2] == x);
        }
    }
}

/// Only round `id` changed, and its flags did not: the open list stays
/// right.
proof fn lemma_open_rounds_same_flags(s: GameState, t: GameState, id: u64)
    requires
        s.open_rounds_wf(),
        t.open_rounds == s.open_rounds,
        t.rounds.len() == s.rounds.len(),
        forall|i: int| 0 <= i < s.rounds.len() && i != id - 1 ==> t.rounds[i] == s.rounds[i],
        s.has_round(id) ==> t.round_state(id).round.is_started == s.round_state(id).round.is_started
            && t.round_state(id).round.is_cancelled == s.round_state(id).round.is_cancelled,
    ensures
        t.open_rounds_wf(),
{
    assert forall|x: u64| #[trigger] t.open_rounds.contains(x) <==> (t.has_round(x)
        && !t.round_state(x).round.is_started && !t.round_state(x).round.is_cancelled) by {
        assert(s.open_rounds.contains(x) <==> (s.has_round(x)
            && !s.round_state(x).round.is_started && !s.round_state(x).round.is_cancelled));
    }
}

/// Round `id` was open and is now started or cancelled, nothing else
/// changed about the rounds, and it left the open list.
proof fn lemma_open_rounds_closed(s: GameState, t: GameState, id: u64)
    requires
        s.open_rounds_wf(),
        s.open_rounds.contains(id),
        t.open_rounds == s.open_rounds.remove(s.open_rounds.index_of(id)),
        t.rounds.len() == s.rounds.len(),
        forall|i: int| 0 <= i < s.rounds.len() && i != id - 1 ==> t.rounds[i] == s.rounds[i],
        t.round_state(id).round.is_started || t.round_state(id).round.is_cancelled,
    ensures
        t.open_rounds_wf(),
{
    lemma_remove_sorted(s.open_rounds, id);
    assert forall|x: u64| #[trigger] t.open_rounds.contains(x) <==> (t.has_round(x)
        && !t.round_state(x).round.is_started && !t.round_state(x).round.is_cancelled) by {
        assert(s.open_rounds.contains(x) <==> (s.has_round(x)
            && !s.round_state(x).round.is_started && !s.round_state(x).round.is_cancelled));
    }
}

/// Every round but `id` is unchanged and round `id` is well formed: the
/// rounds are well formed.
proof fn lemma_rounds_wf(s: GameState, t: GameState, id: u64)
    requires
        s.wf(),
        s.has_round(id),
        t.cards == s.cards,
        t.rounds == s.rounds.update(id - 1, t.round_state(id)),
        t.round_state(id).wf(id as int, t.cards.len() as int),
    ensures
        forall|i: int| 0 <= i < t.rounds.len() ==> (#[trigger] t.rounds[i]).wf(i + 1, t.cards.len() as int),
{
    assert forall|i: int| 0 <= i < t.rounds.len() implies (#[trigger] t.rounds[i]).wf(i + 1, t.cards.len() as int) by {
        if i != id - 1 {
            assert(s.rounds[i].wf(i + 1, s.cards.len() as int));
        }
    }
}

proof fn lemma_leave_wf(s: GameState, id: u64, caller: Address)
    requires
        s.wf(),
        s.has_round(id),
        s.round_state(id).players.contains(caller),
        caller != s.round_state(id).round.admin,
        !s.round_state(id).round.is_started,
    ensures
        s.after_leave(id, caller).wf(),
{
    let rs = s.round_state(id);
    assert(rs.wf(id as int, s.cards.len() as int));
    let nrs = rs.without_player(caller);
    let i = rs.players.index_of(caller);
    assert(0 <= i < rs.players.len() && rs.players[i] == caller);
    assert(seq_distinct(nrs.players)) by {
        assert forall|a: int, b: int| 0 <= a < nrs.players.len() && 0 <= b < nrs.players.len() && a != b
            implies nrs.players[a] != nrs.players[b] by {
            let a2 = if a < i { a } else { a + 1 };
            let b2 = if b < i { b } else { b + 1 };
            assert(nrs.players[a] == rs.players[a2]);
            assert(nrs.players[b] == rs.players[b2]);
        }
    }
    assert forall|x: Address| rs.players.contains(x) && x != caller implies nrs.players.contains(x) by {
        let k = choose|k: int| 0 <= k < rs.players.len() && rs.players[k] == x;
        let k2 = if k < i { k } else { k - 1 };
        assert(nrs.players[k2] == x);
    }
    if rs.ready.contains(caller) {
        let j = rs.ready.index_of(caller);
        assert(seq_distinct(nrs.ready)) by {
            assert forall|a: int, b: int| 0 <= a < nrs.ready.len() && 0 <= b < nrs.ready.len() && a != b
                implies nrs.ready[a] != nrs.ready[b] by {
                let a2 = if a < j { a } else { a + 1 };
                let b2 = if b < j { b } else { b + 1 };
                assert(nrs.ready[a] == rs.ready[a2]);
                assert(nrs.ready[b] == rs.ready[b2]);
            }
        }
        assert forall|k: int| 0 <= k < nrs.ready.len() implies nrs.players.contains(#[trigger] nrs.ready[k]) by {
            let k2 = if k < j { k } else { k + 1 };
            assert(nrs.ready[k] == rs.ready[k2]);
            assert(rs.players.contains(rs.ready[k2]));
        }
    } else {
        assert forall|k: int| 0 <= k < nrs.ready.len() implies nrs.players.contains(#[trigger] nrs.ready[k]) by {
            assert(rs.players.contains(rs.ready[k]));
        }
    }
    assert(nrs.players.contains(nrs.round.admin));
    let t = s.after_leave(id, caller);
    lemma_rounds_wf(s, t, id);
    lemma_open_rounds_same_flags(s, t, id);
}

proof fn lemma_cancel_wf(s: GameState, id: u64, now: u64)
    requires
        s.wf(),
        s.has_round(id),
        !s.round_state(id).round.is_started,
        !s.round_state(id).round.is_cancelled,
    ensures
        s.after_cancel_state(id, now).wf(),
{
    let rs = s.round_state(id);
    assert(rs.wf(id as int, s.cards.len() as int));
    let mid = s.with_round(id, RoundState { round: Round { is_cancelled: true, end_time: now, ..rs.round }, ..rs });
    lemma_rounds_wf(s, mid, id);
    let t = s.after_cancel_state(id, now);
    lemma_open_rounds_closed(s, t, id);
}

proof fn lemma_bump_other(stats: Map<u64, PlayerStats>, players: Seq<Address>, a: Address)
    requires
        !players.contains(a),
    ensures
        bump_total_rounds(stats, players).contains_key(a.0) == stats.contains_key(a.0),
        stats.contains_key(a.0) ==> bump_total_rounds(stats, players)[a.0] == stats[a.0],
    decreases players.len(),
{
    if players.len() > 0 {
        assert(!players.drop_last().contains(a)) by {
            if players.drop_last().contains(a) {
                let k = choose|k: int| 0 <= k < players.drop_last().len() && players.drop_last()[k] == a;
                assert(players[k] == a);
            }
        }
        assert(players[players.len() - 1] != a);
        lemma_bump_other(stats, players.drop_last(), a);
    }
}

proof fn lemma_ready_wf(s: GameState, id: u64, caller: Address, now: u64)
    requires
        s.wf(),
        s.has_round(id),
        !s.round_state(id).round.is_cancelled,
        s.round_state(id).players.contains(caller),
        !s.round_state(id).ready.contains(caller),
    ensures
        s.after_ready(id, caller, now).wf(),
{
    let rs = s.round_state(id);
    assert(rs.wf(id as int, s.cards.len() as int));
    let nrs = rs.with_ready(caller, now);
    assert(!rs.round.is_started) by {
        if rs.round.is_started {
            // Every player is already ready.
            lemma_all_ready(rs.players, rs.ready, caller);
        }
    }
    assert(seq_distinct(nrs.ready)) by {
        assert forall|a: int, b: int| 0 <= a < nrs.ready.len() && 0 <= b < nrs.ready.len() && a != b
            implies nrs.ready[a] != nrs.ready[b] by {
            if a == rs.ready.len() {
                assert(rs.ready.contains(nrs.ready[b]) ==> nrs.ready[b] != caller);
                assert(nrs.ready[b] == rs.ready[b]);
            } else if b == rs.ready.len() {
                assert(nrs.ready[a] == rs.ready[a]);
            }
        }
    }
    assert forall|k: int| 0 <= k < nrs.ready.len() implies nrs.players.contains(#[trigger] nrs.ready[k]) by {
        if k < rs.ready.len() {
            assert(nrs.ready[k] == rs.ready[k]);
        }
    }
    assert(nrs.wf(id as int, s.cards.len() as int));
    let readied = s.with_round(id, nrs).with_event(
        Event::PlayerReady(PlayerReady { round_id: id, player: caller, ready_time: now }));
    lemma_rounds_wf(s, readied, id);
    if rs.ready_completes(caller) {
        let bumped = GameState { stats: bump_total_rounds(s.stats, rs.players), ..readied };
        lemma_open_rounds_closed(s, bumped.without_open_round(id), id);
    } else {
        lemma_open_rounds_same_flags(s, readied, id);
    }
}

/// Recording an answer keeps the round well formed: the new record is the
/// caller's, and only the caller's score and answer time follow it.
pub proof fn lemma_answer_wf(s: GameState, id: u64, caller: Address, answer: Answer, now: u64)
    requires
        s.wf(),
        s.answer_open(id, caller, now),
        s.answer_fits(id, caller, answer, now),
        !s.round_state(id).answered.contains((caller, s.round_state(id).current_card())),
    ensures
        s.after_answer(id, caller, answer, now).round_state(id).wf(id as int, s.cards.len() as int),
{
    let rs = s.round_state(id);
    assert(rs.wf(id as int, s.cards.len() as int));
    let i = rs.players.index_of(caller);
    let correct = s.answer_correct(id, answer, now);
    let rec = AnswerRecord { player: caller, card_id: rs.current_card(), time: rs.answer_time(now), correct };
    let nrs = s.after_answer(id, caller, answer, now).round_state(id);
    assert(nrs.log == rs.log.push(rec));
    assert forall|j: int| 0 <= j < nrs.players.len() implies #[trigger] nrs.scores[j] == correct_count(nrs.log, nrs.players[j]) by {
        lemma_log_push(rs.log, rec, rs.players[j]);
        assert(rs.scores[j] == correct_count(rs.log, rs.players[j]));
        if j != i {
            assert(rs.players[j] != rs.players[i]);
        }
    }
    assert forall|j: int| 0 <= j < nrs.players.len() implies #[trigger] nrs.answer_times[j] == time_total(nrs.log, nrs.players[j]) by {
        lemma_log_push(rs.log, rec, rs.players[j]);
        assert(rs.answer_times[j] == time_total(rs.log, rs.players[j]));
        if j != i {
            assert(rs.players[j] != rs.players[i]);
        }
    }
    assert forall|k: int| 0 <= k < nrs.log.len() implies #[trigger] nrs.answered[k] == (nrs.log[k].player, nrs.log[k].card_id) by {
        if k < rs.log.len() {
            assert(nrs.answered[k] == rs.answered[k]);
        }
    }
    assert forall|k: int| 0 <= k < nrs.answered.len() implies nrs.players.contains(#[trigger] nrs.answered[k].0) by {
        if k < rs.answered.len() {
            assert(nrs.answered[k] == rs.answered[k]);
        }
    }
}

/// A distinct list of ready players, all in a distinct list of as many
/// players, holds every player.
proof fn lemma_all_ready(players: Seq<Address>, ready: Seq<Address>, a: Address)
    requires
        seq_distinct(players),
        seq_distinct(ready),
        forall|k: int| 0 <= k < ready.len() ==> players.contains(#[trigger] ready[k]),
        ready.len() == players.len(),
        players.contains(a),
    ensures
        ready.contains(a),
{
    let rset = ready.to_set();
    let pset = players.to_set();
    assert(rset.subset_of(pset)) by {
        assert forall|x: Address| rset.contains(x) implies pset.contains(x) by {
            let k = choose|k: int| 0 <= k < ready.len() && ready[k] == x;
            assert(players.contains(ready[k]));
        }
    }
    assert(ready.no_duplicates());
    assert(players.no_duplicates());
    ready.unique_seq_to_set();
    players.unique_seq_to_set();
    vstd::seq_lib::seq_to_set_is_finite(players);
    assert(pset.contains(a));
    if !rset.contains(a) {
        assert(rset.subset_of(pset.remove(a)));
        vstd::set_lib::lemma_len_subset(rset, pset.remove(a));
    }
}

/// Whether `answer` names the attribute of `card` that it is about.
pub open spec fn answer_matches(answer: Answer, card: Card) -> bool {
    match answer {
        Answer::Artist(v) => v@ == card.artist@,
        Answer::Year(v) => v == card.year,
        Answer::Title(v) => v@ == card.title@,
    }
}

/// The streak counters after an answer.
pub open spec fn after_streak(st: PlayerStats, correct: bool) -> PlayerStats {
    if correct {
        let cs = (st.current_streak + 1) as u64;
        PlayerStats { current_streak: cs, max_streak: if cs > st.max_streak { cs } else { st.max_streak }, ..st }
    } else {
        PlayerStats { current_streak: 0, ..st }
    }
}

/// One more round won by each player in `players` that is among `winners`.
pub open spec fn bump_wins(stats: Map<u64, PlayerStats>, players: Seq<Address>, winners: Seq<Address>) -> Map<u64, PlayerStats>
    decreases players.len(),
{
    if players.len() == 0 {
        stats
    } else {
        let prev = bump_wins(stats, players.drop_last(), winners);
        let p = players.last();
        if winners.contains(p) {
            let st = if prev.contains_key(p.0) { prev[p.0] } else { PlayerStats::spec_zero() };
            prev.insert(p.0, PlayerStats { rounds_won: (st.rounds_won + 1) as u64, ..st })
        } else {
            prev
        }
    }
}

proof fn lemma_bump_wins_other(stats: Map<u64, PlayerStats>, players: Seq<Address>, winners: Seq<Address>, a: Address)
    requires
        !players.contains(a),
    ensures
        bump_wins(stats, players, winners).contains_key(a.0) == stats.contains_key(a.0),
        stats.contains_key(a.0) ==> bump_wins(stats, players, winners)[a.0] == stats[a.0],
    decreases players.len(),
{
    if players.len() > 0 {
        assert(!players.drop_last().contains(a)) by {
            if players.drop_last().contains(a) {
                let k = choose|k: int| 0 <= k < players.drop_last().len() && players.drop_last()[k] == a;
                assert(players[k] == a);
            }
        }
        assert(players[players.len() - 1] != a);
        lemma_bump_wins_other(stats, players.drop_last(), winners, a);
    }
}

/// One more round started for every player in `players`.
pub open spec fn bump_total_rounds(stats: Map<u64, PlayerStats>, players: Seq<Address>) -> Map<u64, PlayerStats>
    decreases players.len(),
{
    if players.len() == 0 {
        stats
    } else {
        let prev = bump_total_rounds(stats, players.drop_last());
        let p = players.last();
        let st = if prev.contains_key(p.0) { prev[p.0] } else { PlayerStats::spec_zero() };
        prev.insert(p.0, PlayerStats { total_rounds: (st.total_rounds + 1) as u64, ..st })
    }
}

impl GameState {
    pub open spec fn has_round(self, id: u64) -> bool {
        1 <= id <= self.rounds.len()
    }

    pub open spec fn round_state(self, id: u64) -> RoundState {
        self.rounds[id - 1]
    }

    pub open spec fn is_player(self, id: u64, a: Address) -> bool {
        self.has_round(id) && self.round_state(id).players.contains(a)
    }

    pub open spec fn stat_of(self, a: Address) -> PlayerStats {
        if self.stats.contains_key(a.0) {
            self.stats[a.0]
        } else {
            PlayerStats::spec_zero()
        }
    }

    pub open spec fn is_admin(self, a: Address) -> bool {
        self.admins.contains_key(a.0) && self.admins[a.0]
    }

    pub open spec fn max_players_value(self) -> u32 {
        match self.max_players {
            Some(v) => v,
            None => DEFAULT_MAX_PLAYERS,
        }
    }

    /// The open-round list holds exactly the rounds that are neither started
    /// nor cancelled, oldest first.
    pub open spec fn open_rounds_wf(self) -> bool {
        &&& increasing(self.open_rounds)
        &&& forall|id: u64| #[trigger] self.open_rounds.contains(id) <==> (self.has_round(id)
            && !self.round_state(id).round.is_started && !self.round_state(id).round.is_cancelled)
    }

    pub open spec fn with_cards_per_round(self, value: u32) -> GameState {
        GameState { cards_per_round: value, ..self }
    }

    pub open spec fn with_role(self, recipient: Address, role: Role, enabled: bool) -> GameState {
        GameState {
            admins: self.admins.insert(recipient.0, enabled),
            events: self.events.push(Event::RoleUpdated(RoleUpdated { address: recipient, role, enabled })),
            ..self
        }
    }

    pub open spec fn with_pending_owner(self, new_owner: Address) -> GameState {
        GameState {
            pending_owner: Some(new_owner),
            events: self.events.push(
                Event::OwnershipTransferStarted(OwnershipTransferStarted { owner: self.owner, pending_owner: new_owner }),
            ),
            ..self
        }
    }

    /// `new_owner` takes over, gains the admin role, and the transfer is
    /// no longer pending.
    pub open spec fn with_new_owner(self, new_owner: Address) -> GameState {
        GameState {
            owner: new_owner,
            pending_owner: None,
            admins: self.admins.insert(new_owner.0, true),
            events: self.events.push(
                Event::OwnershipTransferred(OwnershipTransferred { old_owner: self.owner, new_owner }),
            ),
            ..self
        }
    }

    pub open spec fn with_max_players(self, value: u32) -> GameState {
        GameState { max_players: Some(value), ..self }
    }

    pub open spec fn with_nft_contract(self, nft_contract: Address) -> GameState {
        GameState { nft_contract: Some(nft_contract), ..self }
    }

    pub open spec fn with_card(self, card: Card) -> GameState {
        GameState { cards: self.cards.push(card), ..self }
    }

    pub open spec fn with_round(self, id: u64, rs: RoundState) -> GameState {
        GameState { rounds: self.rounds.update(id - 1, rs), ..self }
    }

    pub open spec fn with_event(self, e: Event) -> GameState {
        GameState { events: self.events.push(e), ..self }
    }

    pub open spec fn without_open_round(self, id: u64) -> GameState {
        GameState { open_rounds: self.open_rounds.remove(self.open_rounds.index_of(id)), ..self }
    }

    pub open spec fn with_events(self, events: Seq<Event>) -> GameState {
        GameState { events, ..self }
    }

    /// Flipping the next card of round `id` at `now`.
    pub open spec fn after_next_card(self, id: u64, now: u64) -> GameState {
        let rs = self.round_state(id);
        self.with_round(id, RoundState {
            round: Round { next_card_index: (rs.round.next_card_index + 1) as u32, ..rs.round },
            card_started_at: rs.card_started_at.push(now),
            ..rs
        })
    }

    /// `submit_answer` reaches the answer bookkeeping: `caller` plays in
    /// round `id`, which is running at `now` and has a flipped card.
    pub open spec fn answer_open(self, id: u64, caller: Address, now: u64) -> bool {
        let rs = self.round_state(id);
        &&& self.is_player(id, caller)
        &&& rs.round.is_started
        &&& !rs.round.is_completed
        &&& now < rs.round.end_time
        &&& rs.round.next_card_index > 0
    }

    /// Whether `answer` from `caller` at `now` counts as correct: in time
    /// and naming the current card.
    pub open spec fn answer_correct(self, id: u64, answer: Answer, now: u64) -> bool {
        let rs = self.round_state(id);
        rs.answer_time(now) <= CARD_ANSWER_WINDOW_SECONDS && answer_matches(answer, self.cards[rs.current_card() - 1])
    }

    /// Records `caller`'s first answer to the current card of round `id`:
    /// the card counts as answered, the answer time adds to the player's
    /// total, a correct answer adds one to the score, and the streak
    /// counters follow.
    pub open spec fn after_answer(self, id: u64, caller: Address, answer: Answer, now: u64) -> GameState {
        let rs = self.round_state(id);
        let i = rs.players.index_of(caller);
        let correct = self.answer_correct(id, answer, now);
        let nrs = RoundState {
            answered: rs.answered.push((caller, rs.current_card())),
            log: rs.log.push(AnswerRecord { player: caller, card_id: rs.current_card(), time: rs.answer_time(now), correct }),
            answer_times: rs.answer_times.update(i, (rs.answer_times[i] + rs.answer_time(now)) as u64),
            scores: if correct { rs.scores.update(i, (rs.scores[i] + 1) as u64) } else { rs.scores },
            ..rs
        };
        GameState {
            stats: self.stats.insert(caller.0, after_streak(self.stat_of(caller), correct)),
            ..self.with_round(id, nrs)
        }
    }

    /// The counters an answer updates fit in a `u64`.
    pub open spec fn answer_fits(self, id: u64, caller: Address, answer: Answer, now: u64) -> bool {
        let rs = self.round_state(id);
        let i = rs.players.index_of(caller);
        self.answer_open(id, caller, now) && !rs.answered.contains((caller, rs.current_card())) ==> {
            &&& rs.answer_times[i] + rs.answer_time(now) <= u64::MAX
            &&& self.answer_correct(id, answer, now) ==> rs.scores[i] < u64::MAX && self.stat_of(caller).current_streak < u64::MAX
        }
    }

    /// Finalizing round `id` at `now`: it is completed (at `now` if every
    /// answer came in before the deadline), marked finalized, and every
    /// winner's `rounds_won` grows by one.
    pub open spec fn after_finalize_state(self, id: u64, now: u64) -> GameState {
        let rs = self.round_state(id);
        let past = rs.round.end_time != 0 && now >= rs.round.end_time;
        let nrs = RoundState {
            round: Round { is_completed: true, end_time: if past { rs.round.end_time } else { now }, ..rs.round },
            finalized: true,
            ..rs
        };
        GameState { stats: bump_wins(self.stats, rs.players, rs.winners()), ..self.with_round(id, nrs) }
    }

    pub open spec fn finalize_event_matches(self, id: u64, e: Event) -> bool {
        let rs = self.round_state(id);
        e matches Event::RoundCompleted(c) && c.round_id == id && c.winners@ == rs.winners()
            && c.scores@ == score_pairs(rs)
    }

    /// Every winner's `rounds_won` can grow by one within a `u64`.
    pub open spec fn finalize_fits(self, id: u64) -> bool {
        self.has_round(id) ==> forall|a: Address| #[trigger] self.round_state(id).winners().contains(a)
            ==> self.stat_of(a).rounds_won < u64::MAX
    }

    /// Whether `player`'s statistics reach `milestone`.
    pub open spec fn milestone_reached(self, player: Address, milestone: Milestone) -> bool {
        let st = self.stat_of(player);
        match milestone {
            Milestone::FirstWin => st.rounds_won >= 1,
            Milestone::Streak5 => st.max_streak >= 5,
            Milestone::TenWins => st.rounds_won >= 10,
        }
    }

    pub open spec fn with_claim(self, player: Address, milestone: Milestone) -> GameState {
        GameState { claimed: self.claimed.push((player, milestone)), ..self }
    }

    /// Cancelling round `id` without the admin checks the lobby deadline,
    /// which must fit in a `u64`.
    pub open spec fn lobby_deadline_fits(self, id: u64, caller: Address) -> bool {
        self.has_round(id) && caller != self.round_state(id).round.admin
            && !self.round_state(id).round.is_started && !self.round_state(id).round.is_cancelled
            ==> self.round_state(id).created_at + LOBBY_TIMEOUT_SECONDS <= u64::MAX
    }

    /// When `caller` signalling ready starts round `id`, its end time and
    /// every player's round count must fit in a `u64`.
    pub open spec fn start_fits(self, id: u64, caller: Address, now: u64) -> bool {
        let rs = self.round_state(id);
        self.has_round(id) && !rs.round.is_cancelled && rs.players.contains(caller)
            && !rs.ready.contains(caller) && rs.ready_completes(caller) ==> {
            &&& now + DEFAULT_ROUND_DURATION_SECONDS <= u64::MAX
            &&& forall|a: Address| rs.players.contains(a) ==> #[trigger] self.stat_of(a).total_rounds < u64::MAX
        }
    }

    /// A new round `rounds.len() + 1`, created by `caller` at `now` with the
    /// card ids `cards`, open for joining.
    pub open spec fn after_create_round(self, caller: Address, genre: Genre, cards: Seq<u64>, now: u64) -> GameState {
        let id = (self.rounds.len() + 1) as u64;
        GameState {
            rounds: self.rounds.push(new_round_state(id, caller, genre, cards, now)),
            open_rounds: self.open_rounds.push(id),
            events: self.events.push(Event::RoundCreated(RoundCreated { round_id: id, admin: caller, created_time: now })),
            ..self
        }
    }

    pub open spec fn after_join(self, id: u64, caller: Address, now: u64) -> GameState {
        self.with_round(id, self.round_state(id).with_player(caller)).with_event(
            Event::RoundJoined(RoundJoined { round_id: id, player: caller, joined_time: now }),
        )
    }

    pub open spec fn after_leave(self, id: u64, caller: Address) -> GameState {
        let rs = self.round_state(id);
        self.with_round(id, rs.without_player(caller)).with_event(
            Event::RoundLeft(RoundLeft { round_id: id, player: caller, refunded: rs.round.wager_amount }),
        )
    }

    /// The round is cancelled at `now` and leaves the open list; the event
    /// names every player as refunded with the round's wager.
    pub open spec fn cancel_event_matches(self, id: u64, caller: Address, e: Event) -> bool {
        let rs = self.round_state(id);
        e matches Event::RoundCancelled(c) && c.round_id == id && c.cancelled_by == caller
            && c.refunded_players@ == rs.players && c.refund_per_player == rs.round.wager_amount
    }

    pub open spec fn after_cancel_state(self, id: u64, now: u64) -> GameState {
        let rs = self.round_state(id);
        self.with_round(id, RoundState { round: Round { is_cancelled: true, end_time: now, ..rs.round }, ..rs })
            .without_open_round(id)
    }

    /// `caller` is ready; when every player is, the round starts: each
    /// player's `total_rounds` grows by one, the round runs for
    /// [`DEFAULT_ROUND_DURATION_SECONDS`] from `now`, and it leaves the open
    /// list.
    pub open spec fn after_ready(self, id: u64, caller: Address, now: u64) -> GameState {
        let rs = self.round_state(id);
        let ready_ev = Event::PlayerReady(PlayerReady { round_id: id, player: caller, ready_time: now });
        let readied = self.with_round(id, rs.with_ready(caller, now)).with_event(ready_ev);
        if rs.ready_completes(caller) {
            GameState { stats: bump_total_rounds(self.stats, rs.players), ..readied }
                .without_open_round(id)
                .with_event(Event::RoundStarted(RoundStarted { round_id: id, admin: rs.round.admin, start_time: now }))
        } else {
            readied
        }
    }

    pub open spec fn wf(self) -> bool {
        &&& self.cards.len() <= u32::MAX
        &&& forall|i: int| 0 <= i < self.rounds.len() ==> (#[trigger] self.rounds[i]).wf(i + 1, self.cards.len() as int)
        &&& self.open_rounds_wf()
    }
}

struct RoundEntry {
    round: Round,
    players: Vec<Address>,
    cards: Vec<u64>,
    scores: Vec<u64>,
    answer_times: Vec<u64>,
    card_started_at: Vec<u64>,
    answered: Vec<(Address, u64)>,
    ready: Vec<Address>,
    finalized: bool,
    created_at: u64,
    log: Ghost<Seq<AnswerRecord>>,
}

spec fn entry_view(e: RoundEntry) -> RoundState {
    RoundState {
        round: e.round,
        players: e.players@,
        cards: e.cards@,
        scores: e.scores@,
        answer_times: e.answer_times@,
        card_started_at: e.card_started_at@,
        answered: e.answered@,
        ready: e.ready@,
        finalized: e.finalized,
        created_at: e.created_at,
        log: e.log@,
    }
}

/// The game contract's state and entry points. Every entry point takes its
/// caller as already authenticated.
pub struct LyricsFlip {
    owner: Address,
    pending_owner: Option<Address>,
    admins: HashMap<u64, bool>,
    cards: Vec<Card>,
    cards_per_round: u32,
    max_players: Option<u32>,
    nft_contract: Option<Address>,
    rounds: Vec<RoundEntry>,
    open_rounds: Vec<u64>,
    stats: HashMap<u64, PlayerStats>,
    claimed: Vec<(Address, Milestone)>,
    events: Vec<Event>,
}

impl View for LyricsFlip {
    type V = GameState;

    closed spec fn view(&self) -> GameState {
        GameState {
            owner: self.owner,
            pending_owner: self.pending_owner,
            admins: self.admins@,
            cards: self.cards@,
            cards_per_round: self.cards_per_round,
            max_players: self.max_players,
            nft_contract: self.nft_contract,
            rounds: self.rounds@.map_values(|e: RoundEntry| entry_view(e)),
            open_rounds: self.open_rounds@,
            stats: self.stats@,
            claimed: self.claimed@,
            events: self.events@,
        }
    }
}

fn copy_u64s(v: &Vec<u64>) -> (r: Vec<u64>)
    ensures
        r@ == v@,
{
    let mut r: Vec<u64> = Vec::new();
    let mut i: usize = 0;
    while i < v.len()
        invariant
            0 <= i <= v@.len(),
            r@ == v@.take(i as int),
        decreases v@.len() - i,
    {
        r.push(v[i]);
        i += 1;
        assert(r@ =~= v@.take(i as int));
    }
    assert(v@.take(v@.len() as int) =~= v@);
    r
}

fn copy_addresses(v: &Vec<Address>) -> (r: Vec<Address>)
    ensures
        r@ == v@,
{
    let mut r: Vec<Address> = Vec::new();
    let mut i: usize = 0;
    while i < v.len()
        invariant
            0 <= i <= v@.len(),
            r@ == v@.take(i as int),
        decreases v@.len() - i,
    {
        r.push(v[i]);
        i += 1;
        assert(r@ =~= v@.take(i as int));
    }
    assert(v@.take(v@.len() as int) =~= v@);
    r
}

/// Refuses a round that is cancelled or already started.
fn assert_round_pending(round: &Round) -> (r: Result<(), Error>)
    ensures
        r == if round.is_cancelled {
            Err::<(), Error>(Error::RoundCancelled)
        } else if round.is_started {
            Err::<(), Error>(Error::RoundAlreadyStarted)
        } else {
            Ok(())
        },
{
    if round.is_cancelled {
        return Err(Error::RoundCancelled);
    }
    if round.is_started {
        return Err(Error::RoundAlreadyStarted);
    }
    Ok(())
}

/// Reports the wager refunded to a player leaving `round`. Wagers are not
/// escrowed, so this is the round's wager amount and moves no funds.
fn refund_wager(round: &Round, player: Address) -> (r: i128)
    ensures
        r == round.wager_amount,
{
    round.wager_amount
}

/// Index of the first occurrence of `a` in `v`.
fn index_of_address(v: &Vec<Address>, a: Address) -> (r: Option<usize>)
    ensures
        match r {
            Some(i) => i < v@.len() && v@[i as int] == a && forall|k: int| 0 <= k < i ==> v@[k] != a,
            None => !v@.contains(a),
        },
{
    let mut i: usize = 0;
    while i < v.len()
        invariant
            0 <= i <= v@.len(),
            forall|k: int| 0 <= k < i ==> v@[k] != a,
        decreases v@.len() - i,
    {
        if v[i] == a {
            return Some(i);
        }
        i += 1;
    }
    None
}

impl LyricsFlip {
    pub closed spec fn wf(&self) -> bool {
        &&& self@.wf()
        &&& self.rounds@.len() == self@.rounds.len()
    }

    /// A fresh contract owned by `owner`, who also gets the admin role.
    pub fn new(owner: Address) -> (c: LyricsFlip)
        ensures
            c.wf(),
            c@.owner == owner,
            c@.pending_owner is None,
            c@.admins == Map::<u64, bool>::empty().insert(owner.0, true),
            c@.cards.len() == 0,
            c@.cards_per_round == 0,
            c@.max_players is None,
            c@.nft_contract is None,
            c@.rounds.len() == 0,
            c@.open_rounds.len() == 0,
            c@.stats == Map::<u64, PlayerStats>::empty(),
            c@.claimed.len() == 0,
            c@.events.len() == 0,
    {
        let mut admins: HashMap<u64, bool> = HashMap::new();
        admins.insert(owner.0, true);
        let c = LyricsFlip {
            owner,
            pending_owner: None,
            admins,
            cards: Vec::new(),
            cards_per_round: 0,
            max_players: None,
            nft_contract: None,
            rounds: Vec::new(),
            open_rounds: Vec::new(),
            stats: HashMap::new(),
            claimed: Vec::new(),
            events: Vec::new(),
        };
        assert(c@.admins =~= Map::<u64, bool>::empty().insert(owner.0, true));
        assert(c@.stats =~= Map::<u64, PlayerStats>::empty());
        c
    }

    /// The contract's code version.
    pub fn version() -> (r: u32)
        ensures
            r == VERSION,
    {
        VERSION
    }

    pub fn owner(&self) -> (r: Address)
        ensures
            r == self@.owner,
    {
        self.owner
    }

    pub fn pending_owner(&self) -> (r: Option<Address>)
        ensures
            r == self@.pending_owner,
    {
        self.pending_owner
    }

    fn assert_owner(&self, address: Address) -> (r: Result<(), Error>)
        ensures
            r is Ok <==> address == self@.owner,
            r is Err ==> r == Err::<(), Error>(Error::NotAuthorized),
    {
        if address != self.owner {
            return Err(Error::NotAuthorized);
        }
        Ok(())
    }

    fn assert_admin(&self, address: Address) -> (r: Result<(), Error>)
        ensures
            r is Ok <==> self@.is_admin(address),
            r is Err ==> r == Err::<(), Error>(Error::NotAuthorized),
    {
        if !self.is_admin(Role::Admin, address) {
            return Err(Error::NotAuthorized);
        }
        Ok(())
    }

    /// Whether `address` holds `role`.
    pub fn is_admin(&self, role: Role, address: Address) -> (r: bool)
        ensures
            r == self@.is_admin(address),
    {
        let Role::Admin = role;
        match self.admins.get(&address.0) {
            Some(v) => *v,
            None => false,
        }
    }

    pub fn get_player_stat(&self, player: Address) -> (r: PlayerStats)
        ensures
            r == self@.stat_of(player),
    {
        match self.stats.get(&player.0) {
            Some(s) => *s,
            None => PlayerStats::zero(),
        }
    }

    /// Number of cards added.
    pub fn get_cards_count(&self) -> (r: u64)
        ensures
            r == self@.cards.len(),
    {
        self.cards.len() as u64
    }

    /// Number of rounds created.
    pub fn get_round_count(&self) -> (r: u64)
        ensures
            r == self@.rounds.len(),
    {
        self.rounds.len() as u64
    }

    pub fn get_cards_per_round(&self) -> (r: u32)
        ensures
            r == self@.cards_per_round,
    {
        self.cards_per_round
    }

    /// The cap on players per round ([`DEFAULT_MAX_PLAYERS`] until the owner
    /// sets one).
    pub fn get_max_players(&self) -> (r: u32)
        ensures
            r == self@.max_players_value(),
    {
        match self.max_players {
            Some(v) => v,
            None => DEFAULT_MAX_PLAYERS,
        }
    }

    pub fn get_nft_contract(&self) -> (r: Option<Address>)
        ensures
            r == self@.nft_contract,
    {
        self.nft_contract
    }

    pub fn is_milestone_claimed(&self, player: Address, milestone: Milestone) -> (r: bool)
        ensures
            r == self@.claimed.contains((player, milestone)),
    {
        let mut i: usize = 0;
        while i < self.claimed.len()
            invariant
                0 <= i <= self.claimed@.len(),
                forall|k: int| 0 <= k < i ==> self.claimed@[k] != (player, milestone),
            decreases self.claimed@.len() - i,
        {
            let (p, m) = self.claimed[i];
            if p == player && m == milestone {
                assert(self.claimed@[i as int] == (player, milestone));
                return true;
            }
            i += 1;
        }
        false
    }

    /// The card with id `card_id`.
    pub fn get_card(&self, card_id: u64) -> (r: Result<Card, Error>)
        ensures
            match r {
                Ok(c) => 1 <= card_id <= self@.cards.len() && c == self@.cards[card_id - 1],
                Err(e) => !(1 <= card_id <= self@.cards.len()) && e == Error::NonExistingCard,
            },
    {
        if card_id == 0 || card_id > self.cards.len() as u64 {
            return Err(Error::NonExistingCard);
        }
        Ok(self.cards[(card_id - 1) as usize].clone())
    }

    /// The round with id `round_id`.
    pub fn get_round(&self, round_id: u64) -> (r: Result<Round, Error>)
        requires
            self.wf(),
        ensures
            match r {
                Ok(round) => self@.has_round(round_id) && round == self@.round_state(round_id).round,
                Err(e) => !self@.has_round(round_id) && e == Error::NonExistingRound,
            },
    {
        if round_id == 0 || round_id > self.rounds.len() as u64 {
            return Err(Error::NonExistingRound);
        }
        assert(self@.rounds[round_id - 1] == entry_view(self.rounds@[round_id - 1]));
        Ok(self.rounds[(round_id - 1) as usize].round)
    }

    /// The card ids drawn for a round (empty for an unknown round).
    pub fn get_round_cards(&self, round_id: u64) -> (r: Vec<u64>)
        requires
            self.wf(),
        ensures
            r@ == if self@.has_round(round_id) { self@.round_state(round_id).cards } else { Seq::empty() },
    {
        if round_id == 0 || round_id > self.rounds.len() as u64 {
            return Vec::new();
        }
        assert(self@.rounds[round_id - 1] == entry_view(self.rounds@[round_id - 1]));
        copy_u64s(&self.rounds[(round_id - 1) as usize].cards)
    }

    /// The players of a round in joining order (empty for an unknown round).
    pub fn get_round_players(&self, round_id: u64) -> (r: Vec<Address>)
        requires
            self.wf(),
        ensures
            r@ == if self@.has_round(round_id) { self@.round_state(round_id).players } else { Seq::empty() },
    {
        if round_id == 0 || round_id > self.rounds.len() as u64 {
            return Vec::new();
        }
        assert(self@.rounds[round_id - 1] == entry_view(self.rounds@[round_id - 1]));
        copy_addresses(&self.rounds[(round_id - 1) as usize].players)
    }

    /// Number of players in a round (0 for an unknown round).
    pub fn get_players_round_count(&self, round_id: u64) -> (r: u32)
        requires
            self.wf(),
        ensures
            r == if self@.has_round(round_id) { self@.round_state(round_id).players.len() } else { 0 },
    {
        if round_id == 0 || round_id > self.rounds.len() as u64 {
            return 0;
        }
        assert(self@.rounds[round_id - 1] == entry_view(self.rounds@[round_id - 1]));
        assert(self@.rounds[round_id - 1].wf(round_id as int, self@.cards.len() as int));
        self.rounds[(round_id - 1) as usize].players.len() as u32
    }

    /// Every player's score in a round, in player order (a player without a
    /// correct answer has 0; empty for an unknown round).
    pub fn get_round_scores(&self, round_id: u64) -> (r: Vec<(Address, u64)>)
        requires
            self.wf(),
        ensures
            r@ == if self@.has_round(round_id) {
                score_pairs(self@.round_state(round_id))
            } else {
                Seq::empty()
            },
    {
        if round_id == 0 || round_id > self.rounds.len() as u64 {
            return Vec::new();
        }
        let ghost rs = self@.round_state(round_id);
        assert(self@.rounds[round_id - 1] == entry_view(self.rounds@[round_id - 1]));
        assert(self@.rounds[round_id - 1].wf(round_id as int, self@.cards.len() as int));
        let entry = &self.rounds[(round_id - 1) as usize];
        let mut r: Vec<(Address, u64)> = Vec::new();
        let mut i: usize = 0;
        while i < entry.players.len()
            invariant
                entry_view(*entry) == rs,
                rs.scores.len() == rs.players.len(),
                0 <= i <= rs.players.len(),
                r@ == score_pairs(rs).take(i as int),
            decreases rs.players.len() - i,
        {
            r.push((entry.players[i], entry.scores[i]));
            i += 1;
            assert(r@ =~= score_pairs(rs).take(i as int));
        }
        assert(score_pairs(rs).take(rs.players.len() as int) =~= score_pairs(rs));
        r
    }

    /// Number of cards of `genre`.
    pub fn get_genre_card_count(&self, genre: Genre) -> (r: u32)
        requires
            self.wf(),
        ensures
            r == card_ids_where(self@.cards, CardFilter::Genre(genre)).len(),
    {
        let ids = self.genre_card_ids(genre);
        proof {
            lemma_card_ids(self@.cards, CardFilter::Genre(genre), self@.cards.len() as int);
        }
        ids.len() as u32
    }

    fn genre_card_ids(&self, genre: Genre) -> (r: Vec<u64>)
        requires
            self@.cards.len() <= u32::MAX,
        ensures
            r@ == card_ids_where(self@.cards, CardFilter::Genre(genre)),
    {
        let ghost pred = CardFilter::Genre(genre);
        let mut r: Vec<u64> = Vec::new();
        let mut i: usize = 0;
        while i < self.cards.len()
            invariant
                0 <= i <= self@.cards.len(),
                self@.cards.len() <= u32::MAX,
                pred == CardFilter::Genre(genre),
                r@ == ids_where_upto(self@.cards, pred, i as int),
            decreases self@.cards.len() - i,
        {
            if self.cards[i].genre == genre {
                r.push((i + 1) as u64);
            }
            i += 1;
        }
        r
    }

    fn artist_card_ids(&self, artist: &String) -> (r: Vec<u64>)
        requires
            self@.cards.len() <= u32::MAX,
        ensures
            r@ == card_ids_where(self@.cards, CardFilter::Artist(artist@)),
    {
        let ghost pred = CardFilter::Artist(artist@);
        let mut r: Vec<u64> = Vec::new();
        let mut i: usize = 0;
        while i < self.cards.len()
            invariant
                0 <= i <= self@.cards.len(),
                self@.cards.len() <= u32::MAX,
                pred == CardFilter::Artist(artist@),
                r@ == ids_where_upto(self@.cards, pred, i as int),
            decreases self@.cards.len() - i,
        {
            if self.cards[i].artist == *artist {
                r.push((i + 1) as u64);
            }
            i += 1;
        }
        r
    }

    fn year_card_ids(&self, year: u64) -> (r: Vec<u64>)
        requires
            self@.cards.len() <= u32::MAX,
        ensures
            r@ == card_ids_where(self@.cards, CardFilter::Year(year)),
    {
        let ghost pred = CardFilter::Year(year);
        let mut r: Vec<u64> = Vec::new();
        let mut i: usize = 0;
        while i < self.cards.len()
            invariant
                0 <= i <= self@.cards.len(),
                self@.cards.len() <= u32::MAX,
                pred == CardFilter::Year(year),
                r@ == ids_where_upto(self@.cards, pred, i as int),
            decreases self@.cards.len() - i,
        {
            if self.cards[i].year == year {
                r.push((i + 1) as u64);
            }
            i += 1;
        }
        r
    }

    /// Up to `limit` rounds (clamped to [`MAX_PAGE_LIMIT`]) starting at
    /// round id `start` (0 counts as 1), in ascending id order; empty past
    /// the end.
    pub fn get_rounds(&self, start: u64, limit: u32) -> (r: Vec<Round>)
        requires
            self.wf(),
        ensures
            r@ == rounds_page(self@, start, limit),
    {
        let count = self.rounds.len();
        let lim: usize = if limit < MAX_PAGE_LIMIT { limit as usize } else { MAX_PAGE_LIMIT as usize };
        let first: u64 = if start < 1 { 1 } else { start };
        let mut rounds: Vec<Round> = Vec::new();
        if first > count as u64 {
            assert(rounds@ =~= rounds_page(self@, start, limit));
            return rounds;
        }
        let base: usize = (first - 1) as usize;
        let avail: usize = count - base;
        let n: usize = if avail < lim { avail } else { lim };
        let ghost page = rounds_page(self@, start, limit);
        assert(page.len() == n);
        let mut k: usize = 0;
        while k < n
            invariant
                count == self.rounds@.len(),
                self.rounds@.len() == self@.rounds.len(),
                base + n <= count,
                page == rounds_page(self@, start, limit),
                page.len() == n,
                base == first - 1,
                first == (if start < 1 { 1 } else { start }),
                0 <= k <= n,
                rounds@ == page.take(k as int),
            decreases n - k,
        {
            assert(self@.rounds[base + k] == entry_view(self.rounds@[base + k]));
            rounds.push(self.rounds[base + k].round);
            k += 1;
            assert(rounds@ =~= page.take(k as int));
        }
        assert(page.take(n as int) =~= page);
        rounds
    }

    /// Ids of the rounds that can still be joined, oldest first: the page of
    /// at most `limit` (clamped to [`MAX_PAGE_LIMIT`]) ids from offset
    /// `start`.
    pub fn get_open_rounds(&self, start: u32, limit: u32) -> (r: Vec<u64>)
        ensures
            r@ == open_rounds_page(self@, start, limit),
    {
        let lim: usize = if limit < MAX_PAGE_LIMIT { limit as usize } else { MAX_PAGE_LIMIT as usize };
        let len = self.open_rounds.len();
        let begin = start as usize;
        let end: usize = if begin <= len && len - begin >= lim { begin + lim } else { len };
        let mut r: Vec<u64> = Vec::new();
        if begin >= end {
            assert(r@ =~= open_rounds_page(self@, start, limit));
            return r;
        }
        let mut i = begin;
        while i < end
            invariant
                begin <= i <= end <= self.open_rounds@.len(),
                r@ == self.open_rounds@.subrange(begin as int, i as int),
            decreases end - i,
        {
            r.push(self.open_rounds[i]);
            i += 1;
            assert(r@ =~= self.open_rounds@.subrange(begin as int, i as int));
        }
        assert(r@ =~= open_rounds_page(self@, start, limit));
        r
    }

    // ---- Mutations ----

    /// Admin-only. Sets how many cards a new round draws; 0 is refused.
    pub fn set_cards_per_round(&mut self, caller: Address, value: u32) -> (r: Result<(), Error>)
        requires
            old(self).wf(),
        ensures
            final(self).wf(),
            !old(self)@.is_admin(caller) ==> r == Err::<(), Error>(Error::NotAuthorized),
            old(self)@.is_admin(caller) && value == 0 ==> r == Err::<(), Error>(Error::InvalidCardsPerRound),
            r is Ok <==> old(self)@.is_admin(caller) && value != 0,
            r is Ok ==> final(self)@ == old(self)@.with_cards_per_round(value),
            r is Err ==> final(self)@ == old(self)@,
    {
        self.assert_admin(caller)?;
        if value == 0 {
            return Err(Error::InvalidCardsPerRound);
        }
        self.cards_per_round = value;
        Ok(())
    }

    /// Owner-only. Grants or revokes `role` for `recipient`. The owner can
    /// manage roles even after revoking their own admin flag.
    pub fn set_role(&mut self, caller: Address, recipient: Address, role: Role, is_enable: bool) -> (r: Result<(), Error>)
        requires
            old(self).wf(),
        ensures
            final(self).wf(),
            r is Ok <==> caller == old(self)@.owner,
            r is Err ==> r == Err::<(), Error>(Error::NotAuthorized) && final(self)@ == old(self)@,
            r is Ok ==> final(self)@ == old(self)@.with_role(recipient, role, is_enable),
    {
        self.assert_owner(caller)?;
        let Role::Admin = role;
        self.admins.insert(recipient.0, is_enable);
        self.events.push(Event::RoleUpdated(RoleUpdated { address: recipient, role, enabled: is_enable }));
        Ok(())
    }

    /// Step one of an ownership transfer: `new_owner` must then call
    /// `accept_ownership`. Calling again replaces the pending owner.
    pub fn transfer_ownership(&mut self, caller: Address, new_owner: Address) -> (r: Result<(), Error>)
        requires
            old(self).wf(),
        ensures
            final(self).wf(),
            r is Ok <==> caller == old(self)@.owner,
            r is Err ==> r == Err::<(), Error>(Error::NotAuthorized) && final(self)@ == old(self)@,
            r is Ok ==> final(self)@ == old(self)@.with_pending_owner(new_owner),
    {
        self.assert_owner(caller)?;
        self.pending_owner = Some(new_owner);
        self.events.push(Event::OwnershipTransferStarted(OwnershipTransferStarted { owner: caller, pending_owner: new_owner }));
        Ok(())
    }

    /// Completes an ownership transfer and grants the new owner the admin
    /// role. The previous owner keeps any admin role they had.
    pub fn accept_ownership(&mut self, caller: Address) -> (r: Result<(), Error>)
        requires
            old(self).wf(),
        ensures
            final(self).wf(),
            r is Ok <==> old(self)@.pending_owner == Some(caller),
            r is Err ==> r == Err::<(), Error>(Error::NotPendingOwner) && final(self)@ == old(self)@,
            r is Ok ==> final(self)@ == old(self)@.with_new_owner(caller),
    {
        if self.pending_owner != Some(caller) {
            return Err(Error::NotPendingOwner);
        }
        let old_owner = self.owner;
        self.owner = caller;
        self.pending_owner = None;
        self.admins.insert(caller.0, true);
        self.events.push(Event::OwnershipTransferred(OwnershipTransferred { old_owner, new_owner: caller }));
        Ok(())
    }

    /// Owner-only gate for replacing the contract's code, which keeps all
    /// storage: on `Ok` the new code may be installed.
    pub fn upgrade(&self, caller: Address) -> (r: Result<(), Error>)
        ensures
            r is Ok <==> caller == self@.owner,
            r is Err ==> r == Err::<(), Error>(Error::NotAuthorized),
    {
        self.assert_owner(caller)
    }

    /// Owner-only. Sets the cap on players per round; below 2 is refused.
    pub fn set_max_players(&mut self, caller: Address, value: u32) -> (r: Result<(), Error>)
        requires
            old(self).wf(),
        ensures
            final(self).wf(),
            caller != old(self)@.owner ==> r == Err::<(), Error>(Error::NotAuthorized),
            caller == old(self)@.owner && value < 2 ==> r == Err::<(), Error>(Error::InvalidMaxPlayers),
            r is Ok <==> caller == old(self)@.owner && value >= 2,
            r is Ok ==> final(self)@ == old(self)@.with_max_players(value),
            r is Err ==> final(self)@ == old(self)@,
    {
        self.assert_owner(caller)?;
        if value < 2 {
            return Err(Error::InvalidMaxPlayers);
        }
        self.max_players = Some(value);
        Ok(())
    }

    /// Owner-only. Sets the NFT contract that mints milestone rewards.
    pub fn set_nft_contract(&mut self, caller: Address, nft_contract: Address) -> (r: Result<(), Error>)
        requires
            old(self).wf(),
        ensures
            final(self).wf(),
            r is Ok <==> caller == old(self)@.owner,
            r is Err ==> r == Err::<(), Error>(Error::NotAuthorized) && final(self)@ == old(self)@,
            r is Ok ==> final(self)@ == old(self)@.with_nft_contract(nft_contract),
    {
        self.assert_owner(caller)?;
        self.nft_contract = Some(nft_contract);
        Ok(())
    }

    /// Admin-only. Adds `card` to the catalogue as card number
    /// `get_cards_count() + 1`.
    pub fn add_card(&mut self, caller: Address, card: Card) -> (r: Result<(), Error>)
        requires
            old(self).wf(),
            old(self)@.cards.len() < u32::MAX,
        ensures
            final(self).wf(),
            r is Ok <==> old(self)@.is_admin(caller),
            r is Err ==> r == Err::<(), Error>(Error::NotAuthorized) && final(self)@ == old(self)@,
            r is Ok ==> final(self)@ == old(self)@.with_card(card),
    {
        self.assert_admin(caller)?;
        self.cards.push(card);
        proof {
            assert forall|i: int| 0 <= i < self@.rounds.len() implies (#[trigger] self@.rounds[i]).wf(i + 1, self@.cards.len() as int) by {
                assert(old(self)@.rounds[i].wf(i + 1, old(self)@.cards.len() as int));
            }
        }
        Ok(())
    }


    /// Creates a round in `genre` with `caller` as its admin and only
    /// player, drawing [`get_cards_per_round`](Self::get_cards_per_round)
    /// distinct card ids from the whole catalogue. Returns the new round id.
    #[verifier::spinoff_prover]
    #[verifier::rlimit(30)]
    pub fn create_round(&mut self, env: &Env, caller: Address, genre: Option<Genre>, seed: u64, ledger: Ledger) -> (r: Result<u64, Error>)
        requires
            old(self).wf(),
            old(self)@.rounds.len() < u64::MAX,
        ensures
            final(self).wf(),
            genre is None ==> r == Err::<u64, Error>(Error::NonExistingGenre),
            genre is Some && 0 < old(self)@.cards.len() && old(self)@.cards_per_round <= old(self)@.cards.len()
                ==> r == Ok::<u64, Error>((old(self)@.rounds.len() + 1) as u64)
                    && final(self)@ == old(self)@.after_create_round(caller, genre->0,
                        random_selection(seed, ledger, old(self)@.cards_per_round as u64, old(self)@.cards.len() as u64, false)->0,
                        ledger.timestamp),
            genre is Some && old(self)@.cards_per_round > old(self)@.cards.len() ==> r == Err::<u64, Error>(Error::AmountExceedsLimit),
            genre is Some && old(self)@.cards_per_round <= old(self)@.cards.len() && old(self)@.cards.len() == 0
                ==> r == Err::<u64, Error>(Error::LimitMustBeGreaterThanZero),
            r matches Err(e) ==> e == Error::NonExistingGenre || e == Error::AmountExceedsLimit
                || e == Error::LimitMustBeGreaterThanZero,
            r is Err ==> final(self)@ == old(self)@,
    {
        let genre = match genre {
            Some(g) => g,
            None => return Err(Error::NonExistingGenre),
        };
        let amount = self.cards_per_round as u64;
        let cards_count = self.cards.len() as u64;
        let cards = match get_random_numbers(env, seed, amount, cards_count, false, ledger) {
            Ok(v) => v,
            Err(e) => return Err(e),
        };
        let ghost sel = cards@;
        let round_id = self.rounds.len() as u64 + 1;
        let round = Round {
            round_id,
            admin: caller,
            genre,
            wager_amount: 0,
            start_time: 0,
            is_started: false,
            is_completed: false,
            end_time: 0,
            next_card_index: 0,
            is_cancelled: false,
        };
        let mut players: Vec<Address> = Vec::new();
        players.push(caller);
        let mut scores: Vec<u64> = Vec::new();
        scores.push(0);
        let mut answer_times: Vec<u64> = Vec::new();
        answer_times.push(0);
        let entry = RoundEntry {
            round,
            players,
            cards,
            scores,
            answer_times,
            card_started_at: Vec::new(),
            answered: Vec::new(),
            ready: Vec::new(),
            finalized: false,
            created_at: ledger.timestamp,
            log: Ghost(Seq::empty()),
        };
        let ghost old_rounds = self.rounds@;
        self.rounds.push(entry);
        self.open_rounds.push(round_id);
        self.events.push(Event::RoundCreated(RoundCreated { round_id, admin: caller, created_time: ledger.timestamp }));
        proof {
            assert(entry_view(entry) =~= new_round_state(round_id, caller, genre, sel, ledger.timestamp));
            let target = old(self)@.after_create_round(caller, genre, sel, ledger.timestamp);
            assert(self@.rounds =~= target.rounds);
            assert(self@.open_rounds =~= target.open_rounds);
            assert(self@.events =~= target.events);
            assert(self@ == target);
            lemma_create_round_wf(old(self)@, caller, genre, sel, ledger.timestamp);
        }
        Ok(round_id)
    }

    /// The state of a well-formed contract is well formed.
    pub proof fn lemma_view_wf(&self)
        requires
            self.wf(),
        ensures
            self@.wf(),
    {
    }

    proof fn lemma_round_view(&self, id: u64)
        requires
            self.wf(),
            self@.has_round(id),
        ensures
            id <= self.rounds.len(),
            self@.round_state(id) == entry_view(self.rounds@[id - 1]),
            self@.round_state(id).wf(id as int, self@.cards.len() as int),
    {
        assert(self@.rounds[id - 1].wf(id as int, self@.cards.len() as int));
    }

    /// `self` differs from `old` only in round `id`, whose entry changed
    /// in place.
    proof fn lemma_round_updated(&self, old: &LyricsFlip, id: u64)
        requires
            1 <= id <= old.rounds@.len(),
            self.rounds@ == old.rounds@.update(id - 1, self.rounds@[id - 1]),
        ensures
            self.rounds@.map_values(|e: RoundEntry| entry_view(e))
                == old.rounds@.map_values(|e: RoundEntry| entry_view(e)).update(id - 1, entry_view(self.rounds@[id - 1])),
    {
        assert(self.rounds@.map_values(|e: RoundEntry| entry_view(e))
            =~= old.rounds@.map_values(|e: RoundEntry| entry_view(e)).update(id - 1, entry_view(self.rounds@[id - 1])));
    }

    spec fn same_except_stats(&self, other: &LyricsFlip) -> bool {
        &&& self.owner == other.owner
        &&& self.pending_owner == other.pending_owner
        &&& self.admins@ == other.admins@
        &&& self.cards@ == other.cards@
        &&& self.cards_per_round == other.cards_per_round
        &&& self.max_players == other.max_players
        &&& self.nft_contract == other.nft_contract
        &&& self.rounds@ == other.rounds@
        &&& self.open_rounds@ == other.open_rounds@
        &&& self.claimed@ == other.claimed@
        &&& self.events@ == other.events@
    }

    fn is_round_player(&self, round_id: u64, player: Address) -> (r: bool)
        requires
            self.wf(),
        ensures
            r == self@.is_player(round_id, player),
    {
        if round_id == 0 || round_id > self.rounds.len() as u64 {
            return false;
        }
        proof { self.lemma_round_view(round_id); }
        index_of_address(&self.rounds[(round_id - 1) as usize].players, player).is_some()
    }

    fn remove_open_round(&mut self, round_id: u64)
        requires
            increasing(old(self)@.open_rounds),
            old(self)@.open_rounds.contains(round_id),
        ensures
            final(self)@ == old(self)@.without_open_round(round_id),
            final(self).rounds@ == old(self).rounds@,
    {
        let mut i: usize = 0;
        while i < self.open_rounds.len()
            invariant
                self.open_rounds@ == old(self).open_rounds@,
                *self == *old(self),
                increasing(old(self)@.open_rounds),
                old(self)@.open_rounds.contains(round_id),
                0 <= i <= self.open_rounds@.len(),
                forall|k: int| 0 <= k < i ==> self.open_rounds@[k] != round_id,
            decreases self.open_rounds@.len() - i,
        {
            if self.open_rounds[i] == round_id {
                proof {
                    let s = old(self)@.open_rounds;
                    let j = s.index_of(round_id);
                    assert(s[j] == round_id);
                    if j < i {
                        assert(s[j] < s[i as int]);
                    } else if j > i {
                        assert(s[i as int] < s[j]);
                    }
                }
                self.open_rounds.remove(i);
                return;
            }
            i += 1;
        }
    }

    /// Joins a round that has neither started nor been cancelled and is not
    /// full.
    pub fn join_round(&mut self, caller: Address, round_id: u64, ledger: Ledger) -> (r: Result<(), Error>)
        requires
            old(self).wf(),
        ensures
            final(self).wf(),
            !old(self)@.has_round(round_id) ==> r == Err::<(), Error>(Error::NonExistingRound),
            old(self)@.has_round(round_id) ==> {
                let rs = old(self)@.round_state(round_id);
                if rs.players.contains(caller) {
                    r == Err::<(), Error>(Error::RoundAlreadyJoined)
                } else if rs.round.is_cancelled {
                    r == Err::<(), Error>(Error::RoundCancelled)
                } else if rs.round.is_started {
                    r == Err::<(), Error>(Error::RoundAlreadyStarted)
                } else if rs.players.len() >= old(self)@.max_players_value() {
                    r == Err::<(), Error>(Error::RoundFull)
                } else {
                    r is Ok
                }
            },
            r is Ok ==> final(self)@ == old(self)@.after_join(round_id, caller, ledger.timestamp),
            r is Err ==> final(self)@ == old(self)@,
    {
        if round_id == 0 || round_id > self.rounds.len() as u64 {
            return Err(Error::NonExistingRound);
        }
        proof { self.lemma_round_view(round_id); }
        let idx = (round_id - 1) as usize;
        if self.is_round_player(round_id, caller) {
            return Err(Error::RoundAlreadyJoined);
        }
        assert_round_pending(&self.rounds[idx].round)?;
        let max = self.get_max_players();
        if self.rounds[idx].players.len() as u64 >= max as u64 {
            return Err(Error::RoundFull);
        }
        let ghost rs = old(self)@.round_state(round_id);
        self.rounds[idx].players.push(caller);
        self.rounds[idx].scores.push(0);
        self.rounds[idx].answer_times.push(0);
        self.events.push(Event::RoundJoined(RoundJoined { round_id, player: caller, joined_time: ledger.timestamp }));
        proof {
            assert(self.rounds@ =~= old(self).rounds@.update(idx as int, self.rounds@[idx as int]));
            self.lemma_round_updated(old(self), round_id);
            assert(entry_view(self.rounds@[idx as int]) =~= rs.with_player(caller));
            assert(self@ =~= old(self)@.after_join(round_id, caller, ledger.timestamp));
            let nrs = rs.with_player(caller);
            assert(nrs.players.contains(nrs.round.admin)) by {
                let k = choose|k: int| 0 <= k < rs.players.len() && rs.players[k] == rs.round.admin;
                assert(nrs.players[k] == rs.round.admin);
            }
            assert forall|k: int| 0 <= k < nrs.ready.len() implies nrs.players.contains(#[trigger] nrs.ready[k]) by {
                let j = choose|j: int| 0 <= j < rs.players.len() && rs.players[j] == rs.ready[k];
                assert(nrs.players[j] == rs.ready[k]);
            }
            assert(nrs.wf(round_id as int, self@.cards.len() as int));
            assert forall|i: int| 0 <= i < self@.rounds.len() implies (#[trigger] self@.rounds[i]).wf(i + 1, self@.cards.len() as int) by {
                if i != idx {
                    assert(old(self)@.rounds[i].wf(i + 1, self@.cards.len() as int));
                }
            }
            assert forall|id: u64| #[trigger] self@.open_rounds.contains(id) <==> (self@.has_round(id)
                && !self@.round_state(id).round.is_started && !self@.round_state(id).round.is_cancelled) by {
                assert(old(self)@.open_rounds.contains(id) <==> (old(self)@.has_round(id)
                && !old(self)@.round_state(id).round.is_started && !old(self)@.round_state(id).round.is_cancelled));
            }
        }
        Ok(())
    }


    /// Leaves a round that hasn't started and refunds the caller's wager
    /// (reported in the event). The round admin can't leave; they cancel
    /// the round instead.
    pub fn leave_round(&mut self, caller: Address, round_id: u64) -> (r: Result<(), Error>)
        requires
            old(self).wf(),
        ensures
            final(self).wf(),
            !old(self)@.has_round(round_id) ==> r == Err::<(), Error>(Error::NonExistingRound),
            old(self)@.has_round(round_id) ==> {
                let rs = old(self)@.round_state(round_id);
                if rs.round.is_cancelled {
                    r == Err::<(), Error>(Error::RoundCancelled)
                } else if rs.round.is_started {
                    r == Err::<(), Error>(Error::RoundAlreadyStarted)
                } else if rs.round.admin == caller {
                    r == Err::<(), Error>(Error::NotAuthorized)
                } else if !rs.players.contains(caller) {
                    r == Err::<(), Error>(Error::NotAParticipant)
                } else {
                    r is Ok
                }
            },
            r is Ok ==> final(self)@ == old(self)@.after_leave(round_id, caller),
            r is Err ==> final(self)@ == old(self)@,
    {
        if round_id == 0 || round_id > self.rounds.len() as u64 {
            return Err(Error::NonExistingRound);
        }
        proof { self.lemma_round_view(round_id); }
        let idx = (round_id - 1) as usize;
        let round = self.rounds[idx].round;
        assert_round_pending(&round)?;
        if round.admin == caller {
            return Err(Error::NotAuthorized);
        }
        let pos = match index_of_address(&self.rounds[idx].players, caller) {
            Some(p) => p,
            None => return Err(Error::NotAParticipant),
        };
        let ghost rs = old(self)@.round_state(round_id);
        proof {
            assert(rs.players.index_of(caller) == pos as int);
        }
        self.rounds[idx].players.remove(pos);
        self.rounds[idx].scores.remove(pos);
        self.rounds[idx].answer_times.remove(pos);
        match index_of_address(&self.rounds[idx].ready, caller) {
            Some(j) => {
                proof {
                    assert(rs.ready.index_of(caller) == j as int);
                }
                self.rounds[idx].ready.remove(j);
            },
            None => {},
        }
        let refunded = refund_wager(&round, caller);
        self.events.push(Event::RoundLeft(RoundLeft { round_id, player: caller, refunded }));
        proof {
            assert(self.rounds@ =~= old(self).rounds@.update(idx as int, self.rounds@[idx as int]));
            self.lemma_round_updated(old(self), round_id);
            assert(entry_view(self.rounds@[idx as int]) =~= rs.without_player(caller));
            let target = old(self)@.after_leave(round_id, caller);
            assert(self@.rounds =~= target.rounds);
            assert(self@.events =~= target.events);
            assert(self@ == target);
            lemma_leave_wf(old(self)@, round_id, caller);
        }
        Ok(())
    }

    /// Cancels a round that hasn't started and refunds every player.
    /// Callable by the round admin at any time before start, or by anyone
    /// once the lobby has been open for [`LOBBY_TIMEOUT_SECONDS`].
    pub fn cancel_round(&mut self, caller: Address, round_id: u64, ledger: Ledger) -> (r: Result<(), Error>)
        requires
            old(self).wf(),
            old(self)@.lobby_deadline_fits(round_id, caller),
        ensures
            final(self).wf(),
            !old(self)@.has_round(round_id) ==> r == Err::<(), Error>(Error::NonExistingRound),
            old(self)@.has_round(round_id) ==> {
                let rs = old(self)@.round_state(round_id);
                if rs.round.is_cancelled {
                    r == Err::<(), Error>(Error::RoundCancelled)
                } else if rs.round.is_started {
                    r == Err::<(), Error>(Error::RoundAlreadyStarted)
                } else if rs.round.admin != caller && ledger.timestamp < rs.created_at + LOBBY_TIMEOUT_SECONDS {
                    r == Err::<(), Error>(Error::NotAuthorized)
                } else {
                    r is Ok
                }
            },
            r is Ok ==> final(self)@.events.len() == old(self)@.events.len() + 1,
            r is Ok ==> final(self)@.events.drop_last() == old(self)@.after_cancel_state(round_id, ledger.timestamp).events,
            r is Ok ==> old(self)@.cancel_event_matches(round_id, caller, final(self)@.events.last()),
            r is Ok ==> final(self)@.with_events(old(self)@.events) == old(self)@.after_cancel_state(round_id, ledger.timestamp),
            r is Err ==> final(self)@ == old(self)@,
    {
        if round_id == 0 || round_id > self.rounds.len() as u64 {
            return Err(Error::NonExistingRound);
        }
        proof { self.lemma_round_view(round_id); }
        let idx = (round_id - 1) as usize;
        let round = self.rounds[idx].round;
        assert_round_pending(&round)?;
        if round.admin != caller {
            let created_at = self.rounds[idx].created_at;
            if ledger.timestamp < created_at + LOBBY_TIMEOUT_SECONDS {
                return Err(Error::NotAuthorized);
            }
        }
        let ghost rs = old(self)@.round_state(round_id);
        self.rounds[idx].round.is_cancelled = true;
        self.rounds[idx].round.end_time = ledger.timestamp;
        proof {
            assert(self.rounds@ =~= old(self).rounds@.update(idx as int, self.rounds@[idx as int]));
            self.lemma_round_updated(old(self), round_id);
            assert(old(self)@.open_rounds.contains(round_id));
        }
        let ghost mid = *self;
        self.remove_open_round(round_id);
        let players = copy_addresses(&self.rounds[idx].players);
        let mut refund_per_player: i128 = 0;
        let mut k: usize = 0;
        while k < players.len()
            invariant
                0 <= k <= players@.len(),
                players@.len() > 0 ==> k > 0 ==> refund_per_player == round.wager_amount,
            decreases players@.len() - k,
        {
            refund_per_player = refund_wager(&round, players[k]);
            k += 1;
        }
        proof {
            assert(rs.players.len() > 0) by {
                assert(rs.players.contains(rs.round.admin));
            }
        }
        self.events.push(Event::RoundCancelled(RoundCancelled {
            round_id,
            cancelled_by: caller,
            refunded_players: players,
            refund_per_player,
        }));
        proof {
            let target = old(self)@.after_cancel_state(round_id, ledger.timestamp);
            assert(entry_view(self.rounds@[idx as int]) =~= RoundState {
                round: Round { is_cancelled: true, end_time: ledger.timestamp, ..rs.round },
                ..rs
            });
            assert(self@.rounds =~= target.rounds);
            assert(self@.open_rounds =~= target.open_rounds);
            assert(self@.events.drop_last() =~= target.events);
            assert(self@.with_events(old(self)@.events) == target);
            lemma_cancel_wf(old(self)@, round_id, ledger.timestamp);
            assert(self@.wf()) by {
                assert(self@.rounds == target.rounds);
                assert(self@.open_rounds == target.open_rounds);
                assert(self@.cards == target.cards);
            }
        }
        Ok(())
    }

    /// Signals that `caller` (the round admin or a player) is ready. Once
    /// every player is ready the round starts: each player's
    /// `total_rounds` grows by one and the round runs for
    /// [`DEFAULT_ROUND_DURATION_SECONDS`].
    pub fn start_round(&mut self, caller: Address, round_id: u64, ledger: Ledger) -> (r: Result<(), Error>)
        requires
            old(self).wf(),
            old(self)@.start_fits(round_id, caller, ledger.timestamp),
        ensures
            final(self).wf(),
            !old(self)@.has_round(round_id) ==> r == Err::<(), Error>(Error::NonExistingRound),
            old(self)@.has_round(round_id) ==> {
                let rs = old(self)@.round_state(round_id);
                if rs.round.is_cancelled {
                    r == Err::<(), Error>(Error::RoundCancelled)
                } else if rs.round.admin != caller && !rs.players.contains(caller) {
                    r == Err::<(), Error>(Error::NotAuthorized)
                } else if rs.ready.contains(caller) {
                    r == Err::<(), Error>(Error::AlreadyReady)
                } else {
                    r is Ok
                }
            },
            r is Ok ==> final(self)@ == old(self)@.after_ready(round_id, caller, ledger.timestamp),
            r is Err ==> final(self)@ == old(self)@,
    {
        if round_id == 0 || round_id > self.rounds.len() as u64 {
            return Err(Error::NonExistingRound);
        }
        proof { self.lemma_round_view(round_id); }
        let idx = (round_id - 1) as usize;
        let round = self.rounds[idx].round;
        if round.is_cancelled {
            return Err(Error::RoundCancelled);
        }
        let is_round_admin = round.admin == caller;
        let is_participant = self.is_round_player(round_id, caller);
        if !is_round_admin && !is_participant {
            return Err(Error::NotAuthorized);
        }
        if index_of_address(&self.rounds[idx].ready, caller).is_some() {
            return Err(Error::AlreadyReady);
        }
        let ghost rs = old(self)@.round_state(round_id);
        let now = ledger.timestamp;
        self.rounds[idx].ready.push(caller);
        self.events.push(Event::PlayerReady(PlayerReady { round_id, player: caller, ready_time: now }));
        proof {
            assert(rs.players.contains(caller));
            assert(self.rounds@ =~= old(self).rounds@.update(idx as int, self.rounds@[idx as int]));
            self.lemma_round_updated(old(self), round_id);
        }
        if self.rounds[idx].ready.len() == self.rounds[idx].players.len() {
            let players = copy_addresses(&self.rounds[idx].players);
            let ghost stats0 = self.stats@;
            let ghost before = *self;
            proof {
                assert(rs.ready_completes(caller));
                assert(stats0 == old(self)@.stats);
            }
            let mut k: usize = 0;
            while k < players.len()
                invariant
                    players@ == rs.players,
                    seq_distinct(rs.players),
                    0 <= k <= players@.len(),
                    self.stats@ == bump_total_rounds(stats0, players@.take(k as int)),
                    stats0 == old(self)@.stats,
                    forall|a: Address| rs.players.contains(a) ==> #[trigger] old(self)@.stat_of(a).total_rounds < u64::MAX,
                    self.same_except_stats(&before),
                decreases players@.len() - k,
            {
                let p = players[k];
                proof {
                    assert(players@.take(k as int + 1).drop_last() =~= players@.take(k as int));
                    assert(!players@.take(k as int).contains(p)) by {
                        if players@.take(k as int).contains(p) {
                            let j = choose|j: int| 0 <= j < k && players@.take(k as int)[j] == p;
                            assert(players@[j] == players@[k as int]);
                        }
                    }
                    lemma_bump_other(stats0, players@.take(k as int), p);
                    assert(rs.players.contains(p)) by { assert(rs.players[k as int] == p); }
                    assert(old(self)@.stat_of(p).total_rounds < u64::MAX);
                }
                let st = match self.stats.get(&p.0) {
                    Some(v) => *v,
                    None => PlayerStats::zero(),
                };
                self.stats.insert(p.0, PlayerStats { total_rounds: st.total_rounds + 1, ..st });
                k += 1;
            }
            proof {
                assert(players@.take(players@.len() as int) =~= players@);
            }
            self.rounds[idx].round.start_time = now;
            self.rounds[idx].round.end_time = now + DEFAULT_ROUND_DURATION_SECONDS;
            self.rounds[idx].round.is_started = true;
            let ghost before_remove = *self;
            proof {
                assert(self.rounds@ =~= old(self).rounds@.update(idx as int, self.rounds@[idx as int]));
                self.lemma_round_updated(old(self), round_id);
                assert(old(self)@.open_rounds.contains(round_id));
            }
            self.remove_open_round(round_id);
            self.events.push(Event::RoundStarted(RoundStarted { round_id, admin: round.admin, start_time: now }));
        }
        proof {
            let target = old(self)@.after_ready(round_id, caller, now);
            assert(entry_view(self.rounds@[idx as int]) =~= rs.with_ready(caller, now));
            assert(self@.rounds =~= target.rounds);
            assert(self@.open_rounds =~= target.open_rounds);
            assert(self@.events =~= target.events);
            assert(self@.stats =~= target.stats);
            assert(self@ == target);
            lemma_ready_wf(old(self)@, round_id, caller, now);
        }
        Ok(())
    }


    /// Flips the next card of a started, unfinished round and returns it.
    pub fn next_card(&mut self, round_id: u64, ledger: Ledger) -> (r: Result<Card, Error>)
        requires
            old(self).wf(),
        ensures
            final(self).wf(),
            !old(self)@.has_round(round_id) ==> r == Err::<Card, Error>(Error::NonExistingRound),
            old(self)@.has_round(round_id) ==> {
                let rs = old(self)@.round_state(round_id);
                if !rs.round.is_started {
                    r == Err::<Card, Error>(Error::RoundNotStarted)
                } else if rs.round.is_completed || rs.round.next_card_index >= rs.cards.len() {
                    r == Err::<Card, Error>(Error::RoundCompleted)
                } else {
                    r == Ok::<Card, Error>(old(self)@.cards[rs.cards[rs.round.next_card_index as int] - 1])
                }
            },
            r is Ok ==> final(self)@ == old(self)@.after_next_card(round_id, ledger.timestamp),
            r is Err ==> final(self)@ == old(self)@,
    {
        if round_id == 0 || round_id > self.rounds.len() as u64 {
            return Err(Error::NonExistingRound);
        }
        proof { self.lemma_round_view(round_id); }
        let idx = (round_id - 1) as usize;
        let round = self.rounds[idx].round;
        if !round.is_started {
            return Err(Error::RoundNotStarted);
        }
        if round.is_completed {
            return Err(Error::RoundCompleted);
        }
        let index = round.next_card_index as usize;
        if index >= self.rounds[idx].cards.len() {
            return Err(Error::RoundCompleted);
        }
        let card_id = self.rounds[idx].cards[index];
        let card = match self.get_card(card_id) {
            Ok(c) => c,
            Err(e) => return Err(e),
        };
        let ghost rs = old(self)@.round_state(round_id);
        self.rounds[idx].card_started_at.push(ledger.timestamp);
        self.rounds[idx].round.next_card_index = round.next_card_index + 1;
        proof {
            assert(self.rounds@ =~= old(self).rounds@.update(idx as int, self.rounds@[idx as int]));
            self.lemma_round_updated(old(self), round_id);
            let target = old(self)@.after_next_card(round_id, ledger.timestamp);
            assert(self@.rounds =~= target.rounds);
            assert(self@ == target);
            lemma_rounds_wf(old(self)@, target, round_id);
            lemma_open_rounds_same_flags(old(self)@, target, round_id);
        }
        Ok(card)
    }

    fn has_answered(&self, idx: usize, player: Address, card_id: u64) -> (r: bool)
        requires
            idx < self.rounds@.len(),
        ensures
            r == self.rounds@[idx as int].answered@.contains((player, card_id)),
    {
        let answered = &self.rounds[idx].answered;
        assert(answered@ == self.rounds@[idx as int].answered@);
        let mut i: usize = 0;
        while i < answered.len()
            invariant
                answered@ == self.rounds@[idx as int].answered@,
                0 <= i <= answered@.len(),
                forall|k: int| 0 <= k < i ==> answered@[k] != (player, card_id),
            decreases answered@.len() - i,
        {
            let (p, c) = answered[i];
            if p == player && c == card_id {
                assert(answered@[i as int] == (player, card_id));
                return true;
            }
            i += 1;
        }
        false
    }

    /// Submits `caller`'s answer to the current card of a running round and
    /// reports whether it is correct: it must name the card's artist, year
    /// or title and arrive within [`CARD_ANSWER_WINDOW_SECONDS`] of the
    /// flip. A late answer is recorded but scored as wrong; a second answer
    /// to the same card changes nothing and reports `false`.
    pub fn submit_answer(&mut self, caller: Address, round_id: u64, answer: Answer, ledger: Ledger) -> (r: Result<bool, Error>)
        requires
            old(self).wf(),
            old(self)@.answer_fits(round_id, caller, answer, ledger.timestamp),
        ensures
            final(self).wf(),
            !old(self)@.is_player(round_id, caller) ==> r == Err::<bool, Error>(Error::NotAParticipant),
            old(self)@.is_player(round_id, caller) ==> {
                let rs = old(self)@.round_state(round_id);
                if !rs.round.is_started {
                    r == Err::<bool, Error>(Error::RoundNotStarted)
                } else if rs.round.is_completed || ledger.timestamp >= rs.round.end_time {
                    r == Err::<bool, Error>(Error::RoundCompleted)
                } else if rs.round.next_card_index == 0 {
                    r == Err::<bool, Error>(Error::RoundNotStarted)
                } else if rs.answered.contains((caller, rs.current_card())) {
                    r == Ok::<bool, Error>(false)
                } else {
                    r == Ok::<bool, Error>(old(self)@.answer_correct(round_id, answer, ledger.timestamp))
                }
            },
            old(self)@.answer_open(round_id, caller, ledger.timestamp)
                && !old(self)@.round_state(round_id).answered.contains((caller, old(self)@.round_state(round_id).current_card()))
                ==> final(self)@ == old(self)@.after_answer(round_id, caller, answer, ledger.timestamp),
            !(old(self)@.answer_open(round_id, caller, ledger.timestamp)
                && !old(self)@.round_state(round_id).answered.contains((caller, old(self)@.round_state(round_id).current_card())))
                ==> final(self)@ == old(self)@,
    {
        if !self.is_round_player(round_id, caller) {
            return Err(Error::NotAParticipant);
        }
        proof { self.lemma_round_view(round_id); }
        let idx = (round_id - 1) as usize;
        let round = self.rounds[idx].round;
        let ghost rs = old(self)@.round_state(round_id);
        assert(idx as int == round_id - 1);
        assert(entry_view(self.rounds@[idx as int]) == rs);
        assert(round == rs.round);
        let now = ledger.timestamp;
        if !round.is_started {
            return Err(Error::RoundNotStarted);
        }
        if round.is_completed || now >= round.end_time {
            return Err(Error::RoundCompleted);
        }
        if round.next_card_index == 0 {
            return Err(Error::RoundNotStarted);
        }
        let current_index = (round.next_card_index - 1) as usize;
        assert(self.rounds@[idx as int].cards@ == rs.cards);
        let current_card_id = self.rounds[idx].cards[current_index];
        proof {
            assert(1 <= current_card_id <= self@.cards.len());
        }
        let current_card = match self.get_card(current_card_id) {
            Ok(c) => c,
            Err(e) => return Err(e),
        };
        if self.has_answered(idx, caller, current_card_id) {
            return Ok(false);
        }
        let pos = match index_of_address(&self.rounds[idx].players, caller) {
            Some(p) => p,
            None => return Err(Error::NotAParticipant),
        };
        proof {
            assert(rs.players.index_of(caller) == pos as int);
        }
        let started_at = self.rounds[idx].card_started_at[current_index];
        let answer_time = now.saturating_sub(started_at);
        self.rounds[idx].answered.push((caller, current_card_id));
        let total_time = self.rounds[idx].answer_times[pos];
        self.rounds[idx].answer_times.set(pos, total_time + answer_time);
        let is_answer_correct = answer_time <= CARD_ANSWER_WINDOW_SECONDS && match answer {
            Answer::Artist(value) => value == current_card.artist,
            Answer::Year(value) => value == current_card.year,
            Answer::Title(value) => value == current_card.title,
        };
        if is_answer_correct {
            let score = self.rounds[idx].scores[pos];
            self.rounds[idx].scores.set(pos, score + 1);
        }
        let ghost rec = AnswerRecord { player: caller, card_id: current_card_id, time: answer_time, correct: is_answer_correct };
        let ghost old_log = self.rounds@[idx as int].log@;
        self.rounds[idx].log = Ghost(old_log.push(rec));
        let mut stats = self.get_player_stat(caller);
        if is_answer_correct {
            stats.current_streak = stats.current_streak + 1;
            if stats.current_streak > stats.max_streak {
                stats.max_streak = stats.current_streak;
            }
        } else {
            stats.current_streak = 0;
        }
        self.stats.insert(caller.0, stats);
        proof {
            assert(is_answer_correct == old(self)@.answer_correct(round_id, answer, now));
            assert(self.rounds@ =~= old(self).rounds@.update(idx as int, self.rounds@[idx as int]));
            self.lemma_round_updated(old(self), round_id);
            let target = old(self)@.after_answer(round_id, caller, answer, now);
            assert(entry_view(self.rounds@[idx as int]) =~= target.rounds[idx as int]);
            assert(self@.rounds =~= target.rounds);
            assert(self@.stats =~= target.stats);
            assert(self@ == target);
            lemma_answer_wf(old(self)@, round_id, caller, answer, now);
            lemma_rounds_wf(old(self)@, target, round_id);
            lemma_open_rounds_same_flags(old(self)@, target, round_id);
        }
        Ok(is_answer_correct)
    }

    fn are_all_required_answers_submitted(&self, idx: usize) -> (r: bool)
        requires
            idx < self.rounds@.len(),
        ensures
            r == entry_view(self.rounds@[idx as int]).all_answered(),
    {
        let ghost rs = entry_view(self.rounds@[idx as int]);
        let players = &self.rounds[idx].players;
        let cards = &self.rounds[idx].cards;
        if players.len() == 0 || cards.len() == 0 {
            return false;
        }
        let mut i: usize = 0;
        while i < players.len()
            invariant
                idx < self.rounds@.len(),
                rs == entry_view(self.rounds@[idx as int]),
                *players == self.rounds@[idx as int].players,
                *cards == self.rounds@[idx as int].cards,
                0 <= i <= players@.len(),
                forall|a: int, b: int| 0 <= a < i && 0 <= b < cards@.len() ==> rs.answered.contains((players@[a], cards@[b])),
            decreases players@.len() - i,
        {
            let mut j: usize = 0;
            while j < cards.len()
                invariant
                    idx < self.rounds@.len(),
                    rs == entry_view(self.rounds@[idx as int]),
                    *players == self.rounds@[idx as int].players,
                    *cards == self.rounds@[idx as int].cards,
                    0 <= i < players@.len(),
                    0 <= j <= cards@.len(),
                    forall|a: int, b: int| 0 <= a < i && 0 <= b < cards@.len() ==> rs.answered.contains((players@[a], cards@[b])),
                    forall|b: int| 0 <= b < j ==> rs.answered.contains((players@[i as int], cards@[b])),
                decreases cards@.len() - j,
            {
                if !self.has_answered(idx, players[i], cards[j]) {
                    return false;
                }
                j += 1;
            }
            i += 1;
        }
        true
    }

    /// Finalizes a round once every player has answered every card or its
    /// deadline has passed. Callable by any participant, once. Each winner
    /// (see [`round_winners`]) gains one `rounds_won`, and a `RoundCompleted`
    /// event reports the winners and every player's score.
    pub fn finalize_round(&mut self, caller: Address, round_id: u64, ledger: Ledger) -> (r: Result<(), Error>)
        requires
            old(self).wf(),
            old(self)@.finalize_fits(round_id),
        ensures
            final(self).wf(),
            !old(self)@.has_round(round_id) ==> r == Err::<(), Error>(Error::NonExistingRound),
            old(self)@.has_round(round_id) ==> {
                let rs = old(self)@.round_state(round_id);
                if !rs.players.contains(caller) {
                    r == Err::<(), Error>(Error::NotAParticipant)
                } else if rs.round.is_cancelled {
                    r == Err::<(), Error>(Error::RoundCancelled)
                } else if rs.finalized {
                    r == Err::<(), Error>(Error::RoundAlreadyFinalized)
                } else if !rs.finalizable(ledger.timestamp) {
                    r == Err::<(), Error>(Error::RoundNotReady)
                } else {
                    r is Ok
                }
            },
            r is Ok ==> final(self)@.events.len() == old(self)@.events.len() + 1,
            r is Ok ==> old(self)@.finalize_event_matches(round_id, final(self)@.events.last()),
            r is Ok ==> final(self)@.with_events(old(self)@.events) == old(self)@.after_finalize_state(round_id, ledger.timestamp),
            r is Err ==> final(self)@ == old(self)@,
    {
        if round_id == 0 || round_id > self.rounds.len() as u64 {
            return Err(Error::NonExistingRound);
        }
        proof { self.lemma_round_view(round_id); }
        let idx = (round_id - 1) as usize;
        let round = self.rounds[idx].round;
        if !self.is_round_player(round_id, caller) {
            return Err(Error::NotAParticipant);
        }
        if round.is_cancelled {
            return Err(Error::RoundCancelled);
        }
        if self.rounds[idx].finalized {
            return Err(Error::RoundAlreadyFinalized);
        }
        let now = ledger.timestamp;
        let is_all_cards_answered = self.are_all_required_answers_submitted(idx);
        let is_past_deadline = round.end_time != 0 && now >= round.end_time;
        if !is_all_cards_answered && !is_past_deadline {
            return Err(Error::RoundNotReady);
        }
        let ghost rs = old(self)@.round_state(round_id);
        let scores = self.get_round_scores(round_id);
        self.rounds[idx].round.is_completed = true;
        self.rounds[idx].round.end_time = if is_past_deadline { round.end_time } else { now };
        let winners = determine_round_winners(&self.rounds[idx].players, &self.rounds[idx].scores, &self.rounds[idx].answer_times);
        let players = copy_addresses(&self.rounds[idx].players);
        let ghost stats0 = self.stats@;
        let ghost before = *self;
        let mut k: usize = 0;
        while k < players.len()
            invariant
                players@ == rs.players,
                winners@ == rs.winners(),
                seq_distinct(rs.players),
                0 <= k <= players@.len(),
                stats0 == old(self)@.stats,
                self.stats@ == bump_wins(stats0, players@.take(k as int), winners@),
                forall|a: Address| #[trigger] rs.winners().contains(a) ==> old(self)@.stat_of(a).rounds_won < u64::MAX,
                self.same_except_stats(&before),
            decreases players@.len() - k,
        {
            let p = players[k];
            proof {
                assert(players@.take(k as int + 1).drop_last() =~= players@.take(k as int));
                assert(!players@.take(k as int).contains(p)) by {
                    if players@.take(k as int).contains(p) {
                        let j = choose|j: int| 0 <= j < k && players@.take(k as int)[j] == p;
                        assert(players@[j] == players@[k as int]);
                    }
                }
                lemma_bump_wins_other(stats0, players@.take(k as int), winners@, p);
            }
            if index_of_address(&winners, p).is_some() {
                proof {
                    assert(rs.winners().contains(p));
                    assert(old(self)@.stat_of(p).rounds_won < u64::MAX);
                }
                let st = match self.stats.get(&p.0) {
                    Some(v) => *v,
                    None => PlayerStats::zero(),
                };
                self.stats.insert(p.0, PlayerStats { rounds_won: st.rounds_won + 1, ..st });
            }
            k += 1;
        }
        proof {
            assert(players@.take(players@.len() as int) =~= players@);
        }
        self.rounds[idx].finalized = true;
        self.events.push(Event::RoundCompleted(RoundCompleted { round_id, winners, scores }));
        proof {
            assert(self.rounds@ =~= old(self).rounds@.update(idx as int, self.rounds@[idx as int]));
            self.lemma_round_updated(old(self), round_id);
            let target = old(self)@.after_finalize_state(round_id, now);
            assert(entry_view(self.rounds@[idx as int]) =~= target.rounds[idx as int]);
            assert(self@.rounds =~= target.rounds);
            assert(self@.events.drop_last() =~= old(self)@.events);
            assert(self@.with_events(old(self)@.events) == target);
            lemma_rounds_wf(old(self)@, target, round_id);
            lemma_open_rounds_same_flags(old(self)@, target, round_id);
            assert(self@.wf()) by {
                assert(self@.rounds == target.rounds);
                assert(self@.open_rounds == target.open_rounds);
                assert(self@.cards == target.cards);
            }
        }
        Ok(())
    }

    /// Records `caller`'s claim of `milestone`, once per player, if their
    /// statistics reach it, and returns the NFT contract through which the
    /// reward must be minted to `caller` (this contract being its minter).
    pub fn claim_reward(&mut self, caller: Address, milestone: Milestone) -> (r: Result<Address, Error>)
        requires
            old(self).wf(),
        ensures
            final(self).wf(),
            old(self)@.nft_contract is None ==> r == Err::<Address, Error>(Error::NftContractNotSet),
            old(self)@.nft_contract is Some && old(self)@.claimed.contains((caller, milestone))
                ==> r == Err::<Address, Error>(Error::MilestoneAlreadyClaimed),
            old(self)@.nft_contract is Some && !old(self)@.claimed.contains((caller, milestone))
                && !old(self)@.milestone_reached(caller, milestone) ==> r == Err::<Address, Error>(Error::MilestoneNotReached),
            r is Ok <==> old(self)@.nft_contract is Some && !old(self)@.claimed.contains((caller, milestone))
                && old(self)@.milestone_reached(caller, milestone),
            r matches Ok(a) ==> Some(a) == old(self)@.nft_contract
                && final(self)@ == old(self)@.with_claim(caller, milestone),
            r is Err ==> final(self)@ == old(self)@,
    {
        let nft_contract = match self.nft_contract {
            Some(a) => a,
            None => return Err(Error::NftContractNotSet),
        };
        if self.is_milestone_claimed(caller, milestone) {
            return Err(Error::MilestoneAlreadyClaimed);
        }
        let stats = self.get_player_stat(caller);
        let reached = match milestone {
            Milestone::FirstWin => stats.rounds_won >= 1,
            Milestone::Streak5 => stats.max_streak >= 5,
            Milestone::TenWins => stats.rounds_won >= 10,
        };
        if !reached {
            return Err(Error::MilestoneNotReached);
        }
        self.claimed.push((caller, milestone));
        Ok(nft_contract)
    }

    // ---- Arithmetic bounds of the entry points ----

    /// Whether [`cancel_round`](Self::cancel_round) can check `caller`'s
    /// lobby deadline for `round_id` without overflow.
    pub fn cancel_deadline_fits(&self, round_id: u64, caller: Address) -> (r: bool)
        requires
            self.wf(),
        ensures
            r == self@.lobby_deadline_fits(round_id, caller),
    {
        if round_id == 0 || round_id > self.rounds.len() as u64 {
            return true;
        }
        proof { self.lemma_round_view(round_id); }
        let entry = &self.rounds[(round_id - 1) as usize];
        if caller != entry.round.admin && !entry.round.is_started && !entry.round.is_cancelled {
            entry.created_at <= u64::MAX - LOBBY_TIMEOUT_SECONDS
        } else {
            true
        }
    }

    /// Whether [`start_round`](Self::start_round) for `caller` at `now`
    /// keeps the round's end time and every player's round count within a
    /// `u64`.
    pub fn start_fits(&self, round_id: u64, caller: Address, now: u64) -> (r: bool)
        requires
            self.wf(),
        ensures
            r == self@.start_fits(round_id, caller, now),
    {
        if round_id == 0 || round_id > self.rounds.len() as u64 {
            return true;
        }
        proof { self.lemma_round_view(round_id); }
        let ghost rs = self@.round_state(round_id);
        let entry = &self.rounds[(round_id - 1) as usize];
        if entry.round.is_cancelled || index_of_address(&entry.players, caller).is_none()
            || index_of_address(&entry.ready, caller).is_some() || entry.ready.len() >= entry.players.len()
            || entry.ready.len() + 1 != entry.players.len() {
            return true;
        }
        if now > u64::MAX - DEFAULT_ROUND_DURATION_SECONDS {
            return false;
        }
        let mut i: usize = 0;
        while i < entry.players.len()
            invariant
                entry.players@ == rs.players,
                self@.has_round(round_id),
                rs == self@.round_state(round_id),
                !rs.round.is_cancelled,
                rs.players.contains(caller),
                !rs.ready.contains(caller),
                rs.ready_completes(caller),
                now + DEFAULT_ROUND_DURATION_SECONDS <= u64::MAX,
                0 <= i <= rs.players.len(),
                forall|k: int| 0 <= k < i ==> #[trigger] self@.stat_of(rs.players[k]).total_rounds < u64::MAX,
            decreases rs.players.len() - i,
        {
            if self.get_player_stat(entry.players[i]).total_rounds == u64::MAX {
                proof {
                    let a = rs.players[i as int];
                    assert(rs.players.contains(a));
                    assert(!(self@.stat_of(a).total_rounds < u64::MAX));
                }
                return false;
            }
            i += 1;
        }
        assert forall|a: Address| rs.players.contains(a) implies #[trigger] self@.stat_of(a).total_rounds < u64::MAX by {
            let k = choose|k: int| 0 <= k < rs.players.len() && rs.players[k] == a;
            assert(self@.stat_of(rs.players[k]).total_rounds < u64::MAX);
        }
        true
    }

    /// Whether [`submit_answer`](Self::submit_answer) of `answer` by
    /// `caller` at `now` keeps the answer time, score and streak within a
    /// `u64`.
    pub fn answer_fits(&self, round_id: u64, caller: Address, answer: &Answer, now: u64) -> (r: bool)
        requires
            self.wf(),
        ensures
            r == self@.answer_fits(round_id, caller, *answer, now),
    {
        if !self.is_round_player(round_id, caller) {
            return true;
        }
        proof { self.lemma_round_view(round_id); }
        let ghost rs = self@.round_state(round_id);
        let idx = (round_id - 1) as usize;
        let entry = &self.rounds[idx];
        let round = entry.round;
        if !round.is_started || round.is_completed || now >= round.end_time || round.next_card_index == 0 {
            return true;
        }
        let current_index = (round.next_card_index - 1) as usize;
        let current_card_id = entry.cards[current_index];
        if self.has_answered(idx, caller, current_card_id) {
            return true;
        }
        let pos = match index_of_address(&entry.players, caller) {
            Some(p) => p,
            None => return true,
        };
        proof {
            assert(rs.players.index_of(caller) == pos as int);
            assert(1 <= current_card_id <= self@.cards.len());
        }
        let started_at = entry.card_started_at[current_index];
        let answer_time = now.saturating_sub(started_at);
        if entry.answer_times[pos] > u64::MAX - answer_time {
            return false;
        }
        let current_card = &self.cards[(current_card_id - 1) as usize];
        let is_answer_correct = answer_time <= CARD_ANSWER_WINDOW_SECONDS && match answer {
            Answer::Artist(value) => *value == current_card.artist,
            Answer::Year(value) => *value == current_card.year,
            Answer::Title(value) => *value == current_card.title,
        };
        if is_answer_correct {
            entry.scores[pos] < u64::MAX && self.get_player_stat(caller).current_streak < u64::MAX
        } else {
            true
        }
    }

    /// Whether [`finalize_round`](Self::finalize_round) can add a won round
    /// to every winner of `round_id` within a `u64`.
    pub fn finalize_fits(&self, round_id: u64) -> (r: bool)
        requires
            self.wf(),
        ensures
            r == self@.finalize_fits(round_id),
    {
        if round_id == 0 || round_id > self.rounds.len() as u64 {
            return true;
        }
        proof { self.lemma_round_view(round_id); }
        let ghost rs = self@.round_state(round_id);
        let entry = &self.rounds[(round_id - 1) as usize];
        let winners = determine_round_winners(&entry.players, &entry.scores, &entry.answer_times);
        let mut i: usize = 0;
        while i < winners.len()
            invariant
                winners@ == rs.winners(),
                self@.has_round(round_id),
                rs == self@.round_state(round_id),
                0 <= i <= winners@.len(),
                forall|k: int| 0 <= k < i ==> #[trigger] self@.stat_of(winners@[k]).rounds_won < u64::MAX,
            decreases winners@.len() - i,
        {
            if self.get_player_stat(winners[i]).rounds_won == u64::MAX {
                proof {
                    let a = winners@[i as int];
                    assert(rs.winners().contains(a));
                    assert(!(self@.stat_of(a).rounds_won < u64::MAX));
                }
                return false;
            }
            i += 1;
        }
        assert forall|a: Address| #[trigger] rs.winners().contains(a) implies self@.stat_of(a).rounds_won < u64::MAX by {
            let k = choose|k: int| 0 <= k < winners@.len() && winners@[k] == a;
            assert(self@.stat_of(winners@[k]).rounds_won < u64::MAX);
        }
        true
    }

    /// Publishes the `RewardClaimed` event for a reward minted with id
    /// `token_id`.
    pub fn reward_minted(&mut self, caller: Address, milestone: Milestone, token_id: u128)
        requires
            old(self).wf(),
        ensures
            final(self).wf(),
            final(self)@ == old(self)@.with_event(
                Event::RewardClaimed(RewardClaimed { player: caller, milestone, token_id }),
            ),
    {
        self.events.push(Event::RewardClaimed(RewardClaimed { player: caller, milestone, token_id }));
    }


    /// `cards_per_round` cards drawn at random (distinct positions) from
    /// the cards with ids `ids`.
    fn random_cards_from(&self, env: &Env, ids: &Vec<u64>, seed: u64, ledger: Ledger, empty_error: Error) -> (r: Result<Vec<Card>, Error>)
        requires
            self.wf(),
            forall|k: int| 0 <= k < ids@.len() ==> 1 <= #[trigger] ids@[k] <= self@.cards.len(),
        ensures
            ids@.len() == 0 ==> r == Err::<Vec<Card>, Error>(empty_error),
            ids@.len() > 0 && self@.cards_per_round > ids@.len() ==> r == Err::<Vec<Card>, Error>(Error::AmountExceedsLimit),
            ids@.len() > 0 && self@.cards_per_round <= ids@.len() ==> (r matches Ok(v) && v@ == cards_at(self@.cards, ids@,
                random_selection(seed, ledger, self@.cards_per_round as u64, ids@.len() as u64, true)->0)),
    {
        let limit = ids.len() as u64;
        if limit == 0 {
            return Err(empty_error);
        }
        let amount = self.cards_per_round as u64;
        let indices = match get_random_numbers(env, seed, amount, limit, true, ledger) {
            Ok(v) => v,
            Err(e) => return Err(e),
        };
        let mut cards: Vec<Card> = Vec::new();
        let mut k: usize = 0;
        while k < indices.len()
            invariant
                self.wf(),
                forall|j: int| 0 <= j < ids@.len() ==> 1 <= #[trigger] ids@[j] <= self@.cards.len(),
                forall|j: int| 0 <= j < indices@.len() ==> #[trigger] indices@[j] < limit,
                limit == ids@.len(),
                limit == ids.len(),
                0 <= k <= indices@.len(),
                cards@ == cards_at(self@.cards, ids@, indices@).take(k as int),
            decreases indices@.len() - k,
        {
            let idx = indices[k] as usize;
            let card_id = ids[idx];
            let card = match self.get_card(card_id) {
                Ok(c) => c,
                Err(e) => return Err(e),
            };
            cards.push(card);
            k += 1;
            assert(cards@ =~= cards_at(self@.cards, ids@, indices@).take(k as int));
        }
        assert(cards_at(self@.cards, ids@, indices@).take(indices@.len() as int) =~= cards_at(self@.cards, ids@, indices@));
        Ok(cards)
    }

    /// [`get_cards_per_round`](Self::get_cards_per_round) distinct cards of
    /// `genre`, chosen at random from `seed` and the ledger.
    pub fn get_cards_of_genre(&self, env: &Env, genre: Genre, seed: u64, ledger: Ledger) -> (r: Result<Vec<Card>, Error>)
        requires
            self.wf(),
        ensures
            ({
                let ids = card_ids_where(self@.cards, CardFilter::Genre(genre));
                &&& ids.len() == 0 ==> r == Err::<Vec<Card>, Error>(Error::EmptyGenreCards)
                &&& ids.len() > 0 ==> random_cards_outcome(self@, ids, seed, ledger, r)
            }),
    {
        let ids = self.genre_card_ids(genre);
        proof { lemma_card_ids(self@.cards, CardFilter::Genre(genre), self@.cards.len() as int); }
        self.random_cards_from(env, &ids, seed, ledger, Error::EmptyGenreCards)
    }

    /// [`get_cards_per_round`](Self::get_cards_per_round) distinct cards by
    /// `artist`, chosen at random from `seed` and the ledger.
    pub fn get_cards_of_artist(&self, env: &Env, artist: String, seed: u64, ledger: Ledger) -> (r: Result<Vec<Card>, Error>)
        requires
            self.wf(),
        ensures
            ({
                let ids = card_ids_where(self@.cards, CardFilter::Artist(artist@));
                &&& ids.len() == 0 ==> r == Err::<Vec<Card>, Error>(Error::ArtistCardsIsZero)
                &&& ids.len() > 0 ==> random_cards_outcome(self@, ids, seed, ledger, r)
            }),
    {
        let ids = self.artist_card_ids(&artist);
        proof { lemma_card_ids(self@.cards, CardFilter::Artist(artist@), self@.cards.len() as int); }
        self.random_cards_from(env, &ids, seed, ledger, Error::ArtistCardsIsZero)
    }

    /// [`get_cards_per_round`](Self::get_cards_per_round) distinct cards of
    /// `year`, chosen at random from `seed` and the ledger.
    pub fn get_cards_of_a_year(&self, env: &Env, year: u64, seed: u64, ledger: Ledger) -> (r: Result<Vec<Card>, Error>)
        requires
            self.wf(),
        ensures
            ({
                let ids = card_ids_where(self@.cards, CardFilter::Year(year));
                &&& ids.len() == 0 ==> r == Err::<Vec<Card>, Error>(Error::EmptyYearCards)
                &&& ids.len() > 0 ==> random_cards_outcome(self@, ids, seed, ledger, r)
            }),
    {
        let ids = self.year_card_ids(year);
        proof { lemma_card_ids(self@.cards, CardFilter::Year(year), self@.cards.len() as int); }
        self.random_cards_from(env, &ids, seed, ledger, Error::EmptyYearCards)
    }

    /// The events published so far, oldest first.
    pub fn events(&self) -> (r: &Vec<Event>)
        ensures
            r@ == self@.events,
    {
        &self.events
    }
}

/// Every player of a round with its score, in player order.
pub open spec fn score_pairs(rs: RoundState) -> Seq<(Address, u64)> {
    Seq::new(rs.players.len(), |i: int| (rs.players[i], rs.scores[i]))
}

/// A filter on the catalogue: by genre, by artist, or by year.
pub enum CardFilter {
    Genre(Genre),
    Artist(Seq<char>),
    Year(u64),
}

pub open spec fn card_matches(c: Card, f: CardFilter) -> bool {
    match f {
        CardFilter::Genre(g) => c.genre == g,
        CardFilter::Artist(a) => c.artist@ == a,
        CardFilter::Year(y) => c.year == y,
    }
}

/// Ids (1-based positions) of the first `n` cards that match `f`, in
/// catalogue order.
pub open spec fn ids_where_upto(cards: Seq<Card>, f: CardFilter, n: int) -> Seq<u64>
    decreases n,
{
    if n <= 0 {
        Seq::empty()
    } else if card_matches(cards[n - 1], f) {
        ids_where_upto(cards, f, n - 1).push(n as u64)
    } else {
        ids_where_upto(cards, f, n - 1)
    }
}

/// Ids of the cards that match `f`, in catalogue order.
pub open spec fn card_ids_where(cards: Seq<Card>, f: CardFilter) -> Seq<u64> {
    ids_where_upto(cards, f, cards.len() as int)
}

/// The matching ids are distinct card ids of matching cards.
pub proof fn lemma_card_ids(cards: Seq<Card>, f: CardFilter, n: int)
    requires
        0 <= n <= cards.len(),
        cards.len() <= u32::MAX,
    ensures
        ids_where_upto(cards, f, n).len() <= n,
        forall|k: int| 0 <= k < ids_where_upto(cards, f, n).len() ==> {
            let id = #[trigger] ids_where_upto(cards, f, n)[k];
            1 <= id <= n && card_matches(cards[id - 1], f)
        },
        forall|k: int, l: int| 0 <= k < l < ids_where_upto(cards, f, n).len()
            ==> ids_where_upto(cards, f, n)[k] < ids_where_upto(cards, f, n)[l],
    decreases n,
{
    if n > 0 {
        lemma_card_ids(cards, f, n - 1);
        let prev = ids_where_upto(cards, f, n - 1);
        let cur = ids_where_upto(cards, f, n);
        if card_matches(cards[n - 1], f) {
            assert forall|k: int| 0 <= k < cur.len() implies {
                let id = #[trigger] cur[k];
                1 <= id <= n && card_matches(cards[id - 1], f)
            } by {
                if k < prev.len() {
                    assert(cur[k] == prev[k]);
                }
            }
            assert forall|k: int, l: int| 0 <= k < l < cur.len() implies cur[k] < cur[l] by {
                assert(cur[k] == prev[k]);
                if l < prev.len() {
                    assert(cur[l] == prev[l]);
                }
            }
        }
    }
}

/// The cards whose ids stand at positions `indices` of `ids`.
pub open spec fn cards_at(cards: Seq<Card>, ids: Seq<u64>, indices: Seq<u64>) -> Seq<Card> {
    indices.map_values(|i: u64| cards[ids[i as int] - 1])
}

/// What a random card query over the (non-empty) id list `ids` returns:
/// the cards at the positions drawn from `seed` and the ledger, or
/// `AmountExceedsLimit` when more cards per round are asked for than the
/// list holds.
pub open spec fn random_cards_outcome(s: GameState, ids: Seq<u64>, seed: u64, ledger: Ledger, r: Result<Vec<Card>, Error>) -> bool {
    if s.cards_per_round > ids.len() {
        r == Err::<Vec<Card>, Error>(Error::AmountExceedsLimit)
    } else {
        r matches Ok(v) && v@ == cards_at(s.cards, ids,
            random_selection(seed, ledger, s.cards_per_round as u64, ids.len() as u64, true)->0)
    }
}

/// The page of rounds that `get_rounds(start, limit)` returns.
pub open spec fn rounds_page(s: GameState, start: u64, limit: u32) -> Seq<Round> {
    let first: int = if start < 1 { 1 } else { start as int };
    let lim: int = if limit < MAX_PAGE_LIMIT { limit as int } else { MAX_PAGE_LIMIT as int };
    let count = s.rounds.len() as int;
    let n: int = if first > count { 0 } else if count - first + 1 < lim { count - first + 1 } else { lim };
    Seq::new(n as nat, |k: int| s.rounds[first - 1 + k].round)
}

/// The page of open-round ids that `get_open_rounds(start, limit)` returns.
pub open spec fn open_rounds_page(s: GameState, start: u32, limit: u32) -> Seq<u64> {
    let lim: int = if limit < MAX_PAGE_LIMIT { limit as int } else { MAX_PAGE_LIMIT as int };
    let len = s.open_rounds.len() as int;
    let end: int = if start + lim < len { start + lim } else { len };
    if start >= end {
        Seq::empty()
    } else {
        s.open_rounds.subrange(start as int, end)
    }
}

} // verus!
