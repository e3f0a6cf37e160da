//! Properties of the game and NFT contracts that span several entry points
//! or hold of every state.
use vstd::prelude::*;
use crate::game::{
    bump_total_rounds, bump_wins, card_ids_where, correct_count, lemma_answer_wf, time_total, AnswerRecord, card_matches, ids_where_upto, open_rounds_page, rounds_page, CardFilter, seq_distinct, GameState, RoundState,
    CARD_ANSWER_WINDOW_SECONDS, MAX_PAGE_LIMIT,
};
use crate::nft::{lemma_owned_count_positive, lemma_owned_count_update, owned_count, NftEvent, NftState, Transfer};
use crate::scoring::{is_top, lemma_select_contains, round_winners};
use crate::types::{Address, Answer, Card, Milestone, PlayerStats};

verus! {

/// A player wins a round exactly when they have the highest score, that
/// score is positive, and no player with the same score answered faster in
/// total; ties on both make co-winners.
pub proof fn winners_are_fastest_top_scorers(players: Seq<Address>, scores: Seq<u64>, times: Seq<u64>, a: Address)
    requires
        scores.len() == players.len(),
        times.len() == players.len(),
    ensures
        round_winners(players, scores, times).contains(a) <==> exists|i: int|
            #![trigger players[i]]
            0 <= i < players.len() && players[i] == a && is_top(scores, times, players.len() as int, i),
{
    lemma_select_contains(players, |i: int| is_top(scores, times, players.len() as int, i), players.len() as int, a);
}

/// A round in which nobody answered correctly has no winner.
pub proof fn no_points_no_winner(players: Seq<Address>, scores: Seq<u64>, times: Seq<u64>)
    requires
        scores.len() == players.len(),
        times.len() == players.len(),
        forall|i: int| 0 <= i < scores.len() ==> scores[i] == 0,
    ensures
        round_winners(players, scores, times).len() == 0,
{
    if round_winners(players, scores, times).len() > 0 {
        let a = round_winners(players, scores, times)[0];
        assert(round_winners(players, scores, times).contains(a));
        winners_are_fastest_top_scorers(players, scores, times, a);
    }
}

proof fn lemma_bump_wins_at(stats: Map<u64, PlayerStats>, players: Seq<Address>, winners: Seq<Address>, a: Address)
    requires
        seq_distinct(players),
    ensures
        ({
            let before = if stats.contains_key(a.0) { stats[a.0] } else { PlayerStats::spec_zero() };
            let m = bump_wins(stats, players, winners);
            let after = if m.contains_key(a.0) { m[a.0] } else { PlayerStats::spec_zero() };
            after == if players.contains(a) && winners.contains(a) {
                PlayerStats { rounds_won: (before.rounds_won + 1) as u64, ..before }
            } else {
                before
            }
        }),
    decreases players.len(),
{
    if players.len() > 0 {
        let init = players.drop_last();
        assert(seq_distinct(init)) by {
            assert forall|i: int, j: int| 0 <= i < init.len() && 0 <= j < init.len() && i != j implies init[i] != init[j] by {
                assert(init[i] == players[i] && init[j] == players[j]);
            }
        }
        lemma_bump_wins_at(stats, init, winners, a);
        let p = players.last();
        if p == a {
            assert(!init.contains(a)) by {
                if init.contains(a) {
                    let k = choose|k: int| 0 <= k < init.len() && init[k] == a;
                    assert(players[k] == players[players.len() - 1]);
                }
            }
        }
        assert(players.contains(a) <==> (init.contains(a) || p == a)) by {
            if players.contains(a) {
                let k = choose|k: int| 0 <= k < players.len() && players[k] == a;
                if k < players.len() - 1 {
                    assert(init[k] == a);
                }
            }
            if init.contains(a) {
                let k = choose|k: int| 0 <= k < init.len() && init[k] == a;
                assert(players[k] == a);
            }
        }
    }
}

/// Finalizing a round adds exactly one won round to each winner and
/// changes no one else's statistics.
pub proof fn finalize_credits_each_winner_once(s: GameState, id: u64, now: u64, a: Address)
    requires
        s.wf(),
        s.has_round(id),
    ensures
        s.after_finalize_state(id, now).stat_of(a) == if s.round_state(id).winners().contains(a) {
            PlayerStats { rounds_won: (s.stat_of(a).rounds_won + 1) as u64, ..s.stat_of(a) }
        } else {
            s.stat_of(a)
        },
{
    let rs = s.round_state(id);
    assert(rs.wf(id as int, s.cards.len() as int));
    lemma_bump_wins_at(s.stats, rs.players, rs.winners(), a);
    if rs.winners().contains(a) {
        winners_are_fastest_top_scorers(rs.players, rs.scores, rs.answer_times, a);
    }
}

/// A finalized round stays finalized: a second `finalize_round` by any of
/// its players is refused with `RoundAlreadyFinalized` (and, being refused,
/// changes nothing).
pub proof fn finalize_happens_once(s: GameState, id: u64, now: u64)
    requires
        s.wf(),
        s.has_round(id),
    ensures
        s.after_finalize_state(id, now).round_state(id).finalized,
        s.after_finalize_state(id, now).round_state(id).players == s.round_state(id).players,
        s.after_finalize_state(id, now).round_state(id).round.is_cancelled == s.round_state(id).round.is_cancelled,
{
}

proof fn lemma_bump_total_at(stats: Map<u64, PlayerStats>, players: Seq<Address>, a: Address)
    requires
        seq_distinct(players),
    ensures
        ({
            let before = if stats.contains_key(a.0) { stats[a.0] } else { PlayerStats::spec_zero() };
            let m = bump_total_rounds(stats, players);
            let after = if m.contains_key(a.0) { m[a.0] } else { PlayerStats::spec_zero() };
            after == if players.contains(a) {
                PlayerStats { total_rounds: (before.total_rounds + 1) as u64, ..before }
            } else {
                before
            }
        }),
    decreases players.len(),
{
    if players.len() > 0 {
        let init = players.drop_last();
        assert(seq_distinct(init)) by {
            assert forall|i: int, j: int| 0 <= i < init.len() && 0 <= j < init.len() && i != j implies init[i] != init[j] by {
                assert(init[i] == players[i] && init[j] == players[j]);
            }
        }
        lemma_bump_total_at(stats, init, a);
        let p = players.last();
        if p == a {
            assert(!init.contains(a)) by {
                if init.contains(a) {
                    let k = choose|k: int| 0 <= k < init.len() && init[k] == a;
                    assert(players[k] == players[players.len() - 1]);
                }
            }
        }
        assert(players.contains(a) <==> (init.contains(a) || p == a)) by {
            if players.contains(a) {
                let k = choose|k: int| 0 <= k < players.len() && players[k] == a;
                if k < players.len() - 1 {
                    assert(init[k] == a);
                }
            }
            if init.contains(a) {
                let k = choose|k: int| 0 <= k < init.len() && init[k] == a;
                assert(players[k] == a);
            }
        }
    }
}

/// A player's `total_rounds` grows by one exactly when a round they play in
/// starts (its last player signals ready); a ready signal that does not
/// start the round changes no statistics.
pub proof fn total_rounds_count_started_rounds(s: GameState, id: u64, caller: Address, now: u64, a: Address)
    requires
        s.wf(),
        s.has_round(id),
    ensures
        s.after_ready(id, caller, now).stat_of(a) == if s.round_state(id).ready_completes(caller)
            && s.round_state(id).players.contains(a) {
            PlayerStats { total_rounds: (s.stat_of(a).total_rounds + 1) as u64, ..s.stat_of(a) }
        } else {
            s.stat_of(a)
        },
        s.round_state(id).ready_completes(caller) <==> s.after_ready(id, caller, now).round_state(id).ready.len()
            == s.round_state(id).players.len(),
{
    let rs = s.round_state(id);
    assert(rs.wf(id as int, s.cards.len() as int));
    lemma_bump_total_at(s.stats, rs.players, a);
}

/// In every reachable state the open-round list is exactly the rounds that
/// can still be joined (created, neither started nor cancelled), oldest
/// first, and every started round has all its players ready.
pub proof fn open_rounds_are_the_joinable_rounds(s: GameState, id: u64)
    requires
        s.wf(),
    ensures
        s.open_rounds.contains(id) <==> (s.has_round(id) && !s.round_state(id).round.is_started
            && !s.round_state(id).round.is_cancelled),
        forall|i: int, j: int| 0 <= i < j < s.open_rounds.len() ==> s.open_rounds[i] < s.open_rounds[j],
        s.has_round(id) && s.round_state(id).round.is_started ==> s.round_state(id).ready.len()
            == s.round_state(id).players.len(),
{
    if s.has_round(id) {
        assert(s.rounds[id - 1].wf(id as int, s.cards.len() as int));
    }
}

/// A page of rounds holds at most `min(limit, MAX_PAGE_LIMIT)` rounds, in
/// ascending id order from `max(start, 1)`, and is empty past the end.
pub proof fn round_pages_are_clamped(s: GameState, start: u64, limit: u32)
    requires
        s.wf(),
    ensures
        rounds_page(s, start, limit).len() <= limit,
        rounds_page(s, start, limit).len() <= MAX_PAGE_LIMIT,
        start > s.rounds.len() ==> rounds_page(s, start, limit).len() == 0,
        forall|k: int| 0 <= k < rounds_page(s, start, limit).len() ==>
            #[trigger] rounds_page(s, start, limit)[k].round_id == (if start < 1 { 1 } else { start as int }) + k,
{
    let first: int = if start < 1 { 1 } else { start as int };
    assert forall|k: int| 0 <= k < rounds_page(s, start, limit).len() implies
        #[trigger] rounds_page(s, start, limit)[k].round_id == first + k by {
        assert(s.rounds[first - 1 + k].wf(first + k, s.cards.len() as int));
    }
}

/// A page of open rounds holds at most `min(limit, MAX_PAGE_LIMIT)` ids,
/// each of a round that can still be joined, oldest first, and is empty
/// once `start` is past the end of the open list.
pub proof fn open_round_pages_are_clamped(s: GameState, start: u32, limit: u32)
    requires
        s.wf(),
    ensures
        open_rounds_page(s, start, limit).len() <= limit,
        open_rounds_page(s, start, limit).len() <= MAX_PAGE_LIMIT,
        start >= s.open_rounds.len() ==> open_rounds_page(s, start, limit).len() == 0,
        forall|k: int| 0 <= k < open_rounds_page(s, start, limit).len() ==> {
            let id = #[trigger] open_rounds_page(s, start, limit)[k];
            s.has_round(id) && !s.round_state(id).round.is_started && !s.round_state(id).round.is_cancelled
        },
        forall|i: int, j: int| 0 <= i < j < open_rounds_page(s, start, limit).len() ==>
            open_rounds_page(s, start, limit)[i] < open_rounds_page(s, start, limit)[j],
{
    let page = open_rounds_page(s, start, limit);
    assert forall|k: int| 0 <= k < page.len() implies {
        let id = #[trigger] page[k];
        s.has_round(id) && !s.round_state(id).round.is_started && !s.round_state(id).round.is_cancelled
    } by {
        assert(page[k] == s.open_rounds[start + k]);
        assert(s.open_rounds.contains(s.open_rounds[start + k]));
    }
    assert forall|i: int, j: int| 0 <= i < j < page.len() implies page[i] < page[j] by {
        assert(page[i] == s.open_rounds[start + i]);
        assert(page[j] == s.open_rounds[start + j]);
    }
}

/// An answer that arrives after the answer window never counts as correct.
pub proof fn late_answers_are_wrong(s: GameState, id: u64, answer: crate::types::Answer, now: u64)
    requires
        s.round_state(id).answer_time(now) > CARD_ANSWER_WINDOW_SECONDS,
    ensures
        !s.answer_correct(id, answer, now),
{
}

/// Each milestone is claimed at most once per player: a claim records the
/// (player, milestone) pair and keeps the NFT contract and the statistics,
/// so a second claim of the same milestone by the same player is refused
/// with `MilestoneAlreadyClaimed`.
pub proof fn milestone_claimed_once(s: GameState, player: Address, milestone: Milestone)
    ensures
        s.with_claim(player, milestone).claimed.contains((player, milestone)),
        s.with_claim(player, milestone).nft_contract == s.nft_contract,
        s.with_claim(player, milestone).stats == s.stats,
{
    let t = s.with_claim(player, milestone);
    assert(t.claimed[t.claimed.len() - 1] == (player, milestone));
}

/// Ownership moves in two steps: starting a transfer leaves the owner in
/// place, and accepting it makes the pending owner the owner, with the
/// admin role, and clears the pending transfer.
pub proof fn ownership_transfer_is_two_step(s: GameState, new_owner: Address)
    ensures
        s.with_pending_owner(new_owner).owner == s.owner,
        s.with_pending_owner(new_owner).pending_owner == Some(new_owner),
        s.with_pending_owner(new_owner).with_new_owner(new_owner).owner == new_owner,
        s.with_pending_owner(new_owner).with_new_owner(new_owner).is_admin(new_owner),
        s.with_pending_owner(new_owner).with_new_owner(new_owner).pending_owner is None,
{
}

/// A player who leaves frees their seat: they are no longer a player nor
/// ready, and the round has one player fewer.
pub proof fn leaving_frees_the_seat(s: GameState, id: u64, caller: Address)
    requires
        s.wf(),
        s.has_round(id),
        s.round_state(id).players.contains(caller),
    ensures
        s.after_leave(id, caller).round_state(id).players.len() + 1 == s.round_state(id).players.len(),
        !s.after_leave(id, caller).round_state(id).players.contains(caller),
        !s.after_leave(id, caller).round_state(id).ready.contains(caller),
{
    let rs = s.round_state(id);
    assert(rs.wf(id as int, s.cards.len() as int));
    let i = rs.players.index_of(caller);
    let t = rs.players.remove(i);
    if t.contains(caller) {
        let k = choose|k: int| 0 <= k < t.len() && t[k] == caller;
        let k2 = if k < i { k } else { k + 1 };
        assert(rs.players[k2] == caller);
    }
    if rs.ready.contains(caller) {
        let j = rs.ready.index_of(caller);
        let u = rs.ready.remove(j);
        if u.contains(caller) {
            let k = choose|k: int| 0 <= k < u.len() && u[k] == caller;
            let k2 = if k < j { k } else { k + 1 };
            assert(rs.ready[k2] == caller);
        }
    }
}

/// The NFT ledger is consistent in every reachable state: each address's
/// balance is the number of tokens it owns.
pub proof fn balances_count_owned_tokens(s: NftState, a: Address)
    requires
        s.wf(),
    ensures
        s.balance_of(a) == owned_count(s.token_owners, a),
{
}

/// Minting hands out the next token id, to the recipient, and a transfer
/// moves the token and clears its approval.
pub proof fn mint_and_transfer_move_tokens(s: NftState, recipient: Address, to: Address)
    requires
        s.wf(),
        s.token_count() < u64::MAX,
    ensures
        s.after_mint(recipient).exists_token((s.token_count() + 1) as u128),
        s.after_mint(recipient).owner_of((s.token_count() + 1) as u128) == recipient,
        s.after_mint(recipient).token_count() == s.token_count() + 1,
        s.after_mint(recipient).after_transfer(recipient, to, (s.token_count() + 1) as u128)
            .owner_of((s.token_count() + 1) as u128) == to,
        s.after_mint(recipient).after_transfer(recipient, to, (s.token_count() + 1) as u128)
            .approved_at((s.token_count() + 1) as u128, 0) is None,
{
}

/// A transfer between two addresses moves exactly one token: the recipient
/// owns it, it has no approval left, the sender's balance drops by one, the
/// recipient's grows by one, every other token keeps its owner, a
/// `Transfer` event is published, and every balance still counts the tokens
/// owned.
pub proof fn transfer_moves_one_token(s: NftState, from: Address, to: Address, token_id: u128, sequence: u32, other: u128)
    requires
        s.wf(),
        s.exists_token(token_id),
        s.owner_of(token_id) == from,
        from != to,
        s.balance_of(to) < u32::MAX,
    ensures
        s.after_transfer(from, to, token_id).owner_of(token_id) == to,
        s.after_transfer(from, to, token_id).approved_at(token_id, sequence) is None,
        s.after_transfer(from, to, token_id).balance_of(from) + 1 == s.balance_of(from),
        s.after_transfer(from, to, token_id).balance_of(to) == s.balance_of(to) + 1,
        s.after_transfer(from, to, token_id).token_count() == s.token_count(),
        other != token_id && s.exists_token(other)
            ==> s.after_transfer(from, to, token_id).owner_of(other) == s.owner_of(other),
        s.after_transfer(from, to, token_id).events == s.events.push(NftEvent::Transfer(Transfer { from, to, token_id })),
        s.after_transfer(from, to, token_id).wf(),
{
    lemma_owned_count_positive(s.token_owners, token_id - 1);
    assert(s.balance_of(from) == owned_count(s.token_owners, from));
    let t = s.after_transfer(from, to, token_id);
    assert forall|a: Address| #[trigger] t.balance_of(a) == owned_count(t.token_owners, a) by {
        lemma_owned_count_update(s.token_owners, token_id - 1, to, a);
        assert(s.balance_of(a) == owned_count(s.token_owners, a));
    }
}

proof fn lemma_ids_prefix(cards: Seq<Card>, card: Card, f: CardFilter, n: int)
    requires
        0 <= n <= cards.len(),
    ensures
        ids_where_upto(cards.push(card), f, n) == ids_where_upto(cards, f, n),
    decreases n,
{
    if n > 0 {
        lemma_ids_prefix(cards, card, f, n - 1);
        assert(cards.push(card)[n - 1] == cards[n - 1]);
    }
}

/// Adding a card appends it to the catalogue: it reads back as card number
/// `n + 1` (where `n` cards were there), the earlier cards are unchanged,
/// and its id `n + 1` joins exactly the genre, artist and year lists that it
/// matches, after the ids already there; nothing else changes.
pub proof fn added_card_reads_back(s: GameState, card: Card, f: CardFilter)
    ensures
        s.with_card(card).cards.len() == s.cards.len() + 1,
        s.with_card(card).cards[s.cards.len() as int] == card,
        forall|i: int| 0 <= i < s.cards.len() ==> #[trigger] s.with_card(card).cards[i] == s.cards[i],
        card_ids_where(s.with_card(card).cards, f) == if card_matches(card, f) {
            card_ids_where(s.cards, f).push((s.cards.len() + 1) as u64)
        } else {
            card_ids_where(s.cards, f)
        },
        s.with_card(card).rounds == s.rounds,
        s.with_card(card).stats == s.stats,
        s.with_card(card).events == s.events,
{
    let t = s.with_card(card).cards;
    let n = s.cards.len() as int;
    lemma_ids_prefix(s.cards, card, f, n);
    assert(t[n] == card);
}

/// In every reachable state each player's stored score is the number of
/// their recorded answers that counted as correct, and their stored answer
/// time is the sum of the times of their recorded answers; the answered
/// (player, card) pairs are exactly the records', and only players of the
/// round have answers.
pub proof fn scores_follow_the_answer_log(s: GameState, id: u64)
    requires
        s.wf(),
        s.has_round(id),
    ensures
        forall|i: int| 0 <= i < s.round_state(id).players.len() ==> #[trigger] s.round_state(id).scores[i]
            == correct_count(s.round_state(id).log, s.round_state(id).players[i]),
        forall|i: int| 0 <= i < s.round_state(id).players.len() ==> #[trigger] s.round_state(id).answer_times[i]
            == time_total(s.round_state(id).log, s.round_state(id).players[i]),
        s.round_state(id).answered.len() == s.round_state(id).log.len(),
        forall|k: int| 0 <= k < s.round_state(id).log.len() ==> #[trigger] s.round_state(id).answered[k]
            == (s.round_state(id).log[k].player, s.round_state(id).log[k].card_id),
        forall|k: int| 0 <= k < s.round_state(id).log.len() ==> s.round_state(id).players.contains(#[trigger] s.round_state(id).log[k].player),
{
    let rs = s.round_state(id);
    assert(rs.wf(id as int, s.cards.len() as int));
    assert forall|k: int| 0 <= k < rs.log.len() implies rs.players.contains(#[trigger] rs.log[k].player) by {
        assert(rs.answered[k] == (rs.log[k].player, rs.log[k].card_id));
        assert(rs.players.contains(rs.answered[k].0));
    }
}

/// A first answer to the current card appends one record, whose verdict is
/// what `submit_answer` returns; the caller's score grows by one exactly
/// when it is correct and their answer time by the record's time, every
/// other player's score and time stay, and the round stays well formed.
pub proof fn answer_extends_the_log(s: GameState, id: u64, caller: Address, answer: Answer, now: u64, j: int)
    requires
        s.wf(),
        s.answer_open(id, caller, now),
        s.answer_fits(id, caller, answer, now),
        !s.round_state(id).answered.contains((caller, s.round_state(id).current_card())),
        0 <= j < s.round_state(id).players.len(),
    ensures
        ({
            let rs = s.round_state(id);
            let nrs = s.after_answer(id, caller, answer, now).round_state(id);
            let correct = s.answer_correct(id, answer, now);
            &&& nrs.log == rs.log.push(AnswerRecord {
                player: caller,
                card_id: rs.current_card(),
                time: rs.answer_time(now),
                correct,
            })
            &&& nrs.players == rs.players
            &&& nrs.scores[j] == if rs.players[j] == caller && correct { rs.scores[j] + 1 } else { rs.scores[j] as int }
            &&& nrs.answer_times[j] == if rs.players[j] == caller { rs.answer_times[j] + rs.answer_time(now) } else { rs.answer_times[j] as int }
            &&& nrs.wf(id as int, s.cards.len() as int)
        }),
{
    let rs = s.round_state(id);
    assert(rs.wf(id as int, s.cards.len() as int));
    let nrs = s.after_answer(id, caller, answer, now).round_state(id);
    let i = rs.players.index_of(caller);
    if j != i {
        assert(rs.players[j] != rs.players[i]);
    }
    lemma_answer_wf(s, id, caller, answer, now);
    assert(nrs.wf(id as int, s.cards.len() as int));
}

/// A second answer to the same card is ignored: whoever has answered the
/// current card of a running round is one of its players and the round is
/// open to them, so `submit_answer` returns `false` and changes nothing
/// (its contract's repeated-answer case).
pub proof fn repeated_answer_is_ignored(s: GameState, id: u64, caller: Address, now: u64)
    requires
        s.wf(),
        s.has_round(id),
        s.round_state(id).round.is_started,
        !s.round_state(id).round.is_completed,
        now < s.round_state(id).round.end_time,
        s.round_state(id).round.next_card_index > 0,
        s.round_state(id).answered.contains((caller, s.round_state(id).current_card())),
    ensures
        s.is_player(id, caller),
        s.answer_open(id, caller, now),
{
    let rs = s.round_state(id);
    assert(rs.wf(id as int, s.cards.len() as int));
    let k = choose|k: int| 0 <= k < rs.answered.len() && rs.answered[k] == (caller, rs.current_card());
    assert(rs.players.contains(rs.answered[k].0));
}

/// After any answer the player's streaks follow the answer: a correct one
/// extends the current streak by one, a wrong one resets it to zero, and the
/// best streak never drops: it becomes the larger of the previous best and
/// the new current streak. The round counters stay.
pub proof fn streaks_follow_answers(s: GameState, id: u64, caller: Address, answer: Answer, now: u64)
    requires
        s.stat_of(caller).current_streak < u64::MAX,
    ensures
        ({
            let before = s.stat_of(caller);
            let after = s.after_answer(id, caller, answer, now).stat_of(caller);
            let correct = s.answer_correct(id, answer, now);
            &&& after.current_streak == if correct { before.current_streak + 1 } else { 0 }
            &&& after.max_streak >= before.max_streak
            &&& after.max_streak >= after.current_streak
            &&& (after.max_streak == before.max_streak || after.max_streak == after.current_streak)
            &&& after.total_rounds == before.total_rounds
            &&& after.rounds_won == before.rounds_won
        }),
{
}

/// A milestone reward is earned exactly by the statistics it names: the
/// first win by at least one round won, ten wins by at least ten, and a
/// streak of five by a best streak of at least five. So `claim_reward`
/// succeeds for no one who has not earned it, and ten wins imply the
/// first win.
pub proof fn rewards_are_earned(s: GameState, player: Address)
    ensures
        s.milestone_reached(player, Milestone::FirstWin) <==> s.stat_of(player).rounds_won >= 1,
        s.milestone_reached(player, Milestone::TenWins) <==> s.stat_of(player).rounds_won >= 10,
        s.milestone_reached(player, Milestone::Streak5) <==> s.stat_of(player).max_streak >= 5,
        s.milestone_reached(player, Milestone::TenWins) ==> s.milestone_reached(player, Milestone::FirstWin),
        s.stat_of(player).rounds_won == 0 ==> !s.milestone_reached(player, Milestone::FirstWin),
{
}

/// A page of rounds is as long as the limit allows: from round
/// `max(start, 1)` it holds `min(limit, MAX_PAGE_LIMIT)` rounds, or every
/// round up to the last when fewer remain, each the round with its id.
pub proof fn round_pages_are_full(s: GameState, start: u64, limit: u32)
    requires
        s.wf(),
    ensures
        ({
            let first: int = if start < 1 { 1 } else { start as int };
            let lim: int = if limit < MAX_PAGE_LIMIT { limit as int } else { MAX_PAGE_LIMIT as int };
            let remaining: int = s.rounds.len() - first + 1;
            let page = rounds_page(s, start, limit);
            &&& first <= s.rounds.len() ==> page.len() == if remaining < lim { remaining } else { lim }
            &&& first > s.rounds.len() ==> page.len() == 0
            &&& forall|k: int| 0 <= k < page.len() ==> #[trigger] page[k] == s.rounds[first - 1 + k].round
        }),
{
}

/// A page of open rounds is the slice of the open list from `start`, as
/// long as the limit allows: `min(limit, MAX_PAGE_LIMIT)` ids, or every id
/// to the end when fewer remain.
pub proof fn open_round_pages_are_full(s: GameState, start: u32, limit: u32)
    ensures
        ({
            let lim: int = if limit < MAX_PAGE_LIMIT { limit as int } else { MAX_PAGE_LIMIT as int };
            let remaining: int = s.open_rounds.len() - start;
            let page = open_rounds_page(s, start, limit);
            &&& start < s.open_rounds.len() ==> page.len() == if remaining < lim { remaining } else { lim }
            &&& start >= s.open_rounds.len() ==> page.len() == 0
            &&& forall|k: int| 0 <= k < page.len() ==> #[trigger] page[k] == s.open_rounds[start + k]
        }),
{
}

proof fn lemma_ids_complete(cards: Seq<Card>, f: CardFilter, n: int, i: int)
    requires
        0 <= i < n <= cards.len(),
        card_matches(cards[i], f),
    ensures
        ids_where_upto(cards, f, n).contains((i + 1) as u64),
    decreases n,
{
    if i < n - 1 {
        lemma_ids_complete(cards, f, n - 1, i);
        let prev = ids_where_upto(cards, f, n - 1);
        let k = choose|k: int| 0 <= k < prev.len() && prev[k] == (i + 1) as u64;
        if card_matches(cards[n - 1], f) {
            assert(ids_where_upto(cards, f, n)[k] == prev[k]);
        }
    } else {
        let cur = ids_where_upto(cards, f, n);
        assert(cur[cur.len() - 1] == n as u64);
    }
}

/// The cards that the genre, artist and year queries draw from are exactly
/// the cards of that genre, by that artist, or of that year: every listed id
/// is such a card, and every such card is listed. With none, the query
/// fails with its "empty" error.
pub proof fn card_lists_hold_exactly_the_matching_cards(cards: Seq<Card>, genre: crate::types::Genre, artist: Seq<char>, year: u64)
    requires
        cards.len() <= u32::MAX,
    ensures
        forall|k: int| 0 <= k < card_ids_where(cards, CardFilter::Year(year)).len() ==>
            cards[#[trigger] card_ids_where(cards, CardFilter::Year(year))[k] - 1].year == year,
        forall|i: int| 0 <= i < cards.len() && #[trigger] cards[i].year == year ==>
            card_ids_where(cards, CardFilter::Year(year)).contains((i + 1) as u64),
        forall|k: int| 0 <= k < card_ids_where(cards, CardFilter::Genre(genre)).len() ==>
            cards[#[trigger] card_ids_where(cards, CardFilter::Genre(genre))[k] - 1].genre == genre,
        forall|i: int| 0 <= i < cards.len() && #[trigger] cards[i].genre == genre ==>
            card_ids_where(cards, CardFilter::Genre(genre)).contains((i + 1) as u64),
        forall|k: int| 0 <= k < card_ids_where(cards, CardFilter::Artist(artist)).len() ==>
            cards[#[trigger] card_ids_where(cards, CardFilter::Artist(artist))[k] - 1].artist@ == artist,
        forall|i: int| 0 <= i < cards.len() && #[trigger] cards[i].artist@ == artist ==>
            card_ids_where(cards, CardFilter::Artist(artist)).contains((i + 1) as u64),
        (forall|i: int| 0 <= i < cards.len() ==> #[trigger] cards[i].year != year)
            ==> card_ids_where(cards, CardFilter::Year(year)).len() == 0,
{
    let n = cards.len() as int;
    crate::game::lemma_card_ids(cards, CardFilter::Year(year), n);
    crate::game::lemma_card_ids(cards, CardFilter::Genre(genre), n);
    crate::game::lemma_card_ids(cards, CardFilter::Artist(artist), n);
    assert forall|i: int| 0 <= i < cards.len() && #[trigger] cards[i].year == year implies
        card_ids_where(cards, CardFilter::Year(year)).contains((i + 1) as u64) by {
        lemma_ids_complete(cards, CardFilter::Year(year), n, i);
    }
    assert forall|i: int| 0 <= i < cards.len() && #[trigger] cards[i].genre == genre implies
        card_ids_where(cards, CardFilter::Genre(genre)).contains((i + 1) as u64) by {
        lemma_ids_complete(cards, CardFilter::Genre(genre), n, i);
    }
    assert forall|i: int| 0 <= i < cards.len() && #[trigger] cards[i].artist@ == artist implies
        card_ids_where(cards, CardFilter::Artist(artist)).contains((i + 1) as u64) by {
        lemma_ids_complete(cards, CardFilter::Artist(artist), n, i);
    }
    let ids = card_ids_where(cards, CardFilter::Year(year));
    if (forall|i: int| 0 <= i < cards.len() ==> #[trigger] cards[i].year != year) && ids.len() > 0 {
        let id = ids[0];
        assert(cards[id - 1].year == year);
    }
}

/// Every card that a year query returns is of that year (and likewise for
/// the genre and artist queries, which draw the same way from their lists).
pub proof fn year_queries_return_cards_of_that_year(s: GameState, year: u64, seed: u64, ledger: crate::types::Ledger,
    r: Result<Vec<Card>, crate::errors::Error>)
    requires
        s.wf(),
        card_ids_where(s.cards, CardFilter::Year(year)).len() > 0,
        crate::game::random_cards_outcome(s, card_ids_where(s.cards, CardFilter::Year(year)), seed, ledger, r),
    ensures
        r matches Ok(v) ==> forall|k: int| 0 <= k < v@.len() ==> (#[trigger] v@[k]).year == year,
{
    let ids = card_ids_where(s.cards, CardFilter::Year(year));
    card_lists_hold_exactly_the_matching_cards(s.cards, crate::types::Genre::Pop, Seq::empty(), year);
    crate::game::lemma_card_ids(s.cards, CardFilter::Year(year), s.cards.len() as int);
    assert(ids.len() <= u32::MAX);
    if s.cards_per_round <= ids.len() {
        crate::random::lemma_selection_range(seed, ledger, s.cards_per_round as u64, ids.len() as u64);
        let idx = crate::random::random_selection(seed, ledger, s.cards_per_round as u64, ids.len() as u64, true)->0;
        if r is Ok {
            let v = r->Ok_0;
            assert forall|k: int| 0 <= k < v@.len() implies (#[trigger] v@[k]).year == year by {
                assert(v@[k] == s.cards[ids[idx[k] as int] - 1]);
                assert(idx[k] < ids.len());
                let j = idx[k] as int;
                assert(s.cards[ids[j] - 1].year == year);
            }
        }
    }
}

} // verus!
