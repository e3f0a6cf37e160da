//! Winner selection at the end of a round.
use vstd::prelude::*;
use crate::types::Address;

verus! {

/// Player `i` (of the first `n`) is a winner among the first `n`: a positive
/// score that no one beats, and among the players with that score, a total
/// answer time that no one beats.
pub open spec fn is_top(scores: Seq<u64>, times: Seq<u64>, n: int, i: int) -> bool {
    &&& 0 <= i < n
    &&& scores[i] > 0
    &&& forall|j: int| 0 <= j < n ==> #[trigger] scores[j] <= scores[i]
    &&& forall|j: int| 0 <= j < n && scores[j] == scores[i] ==> times[i] <= #[trigger] times[j]
}

/// The players among the first `m` whose index satisfies `pred`, in order.
pub open spec fn select_players(players: Seq<Address>, pred: spec_fn(int) -> bool, m: int) -> Seq<Address>
    decreases m,
{
    if m <= 0 {
        Seq::empty()
    } else if pred(m - 1) {
        select_players(players, pred, m - 1).push(players[m - 1])
    } else {
        select_players(players, pred, m - 1)
    }
}

/// The winners of a round: in player order, every player with the highest
/// positive score and, among those, the lowest total answer time. Ties on
/// both make co-winners; a round where nobody scored has no winner.
pub open spec fn round_winners(players: Seq<Address>, scores: Seq<u64>, times: Seq<u64>) -> Seq<Address> {
    select_players(players, |i: int| is_top(scores, times, players.len() as int, i), players.len() as int)
}

proof fn lemma_select_ext(players: Seq<Address>, p: spec_fn(int) -> bool, q: spec_fn(int) -> bool, m: int)
    requires
        forall|i: int| 0 <= i < m ==> #[trigger] p(i) == q(i),
    ensures
        select_players(players, p, m) == select_players(players, q, m),
    decreases m,
{
    if m > 0 {
        lemma_select_ext(players, p, q, m - 1);
    }
}

proof fn lemma_select_none(players: Seq<Address>, p: spec_fn(int) -> bool, m: int)
    requires
        forall|i: int| 0 <= i < m ==> !#[trigger] p(i),
    ensures
        select_players(players, p, m) == Seq::<Address>::empty(),
    decreases m,
{
    if m > 0 {
        lemma_select_none(players, p, m - 1);
    }
}

/// A player is selected exactly when some index satisfying the predicate
/// holds it.
pub proof fn lemma_select_contains(players: Seq<Address>, p: spec_fn(int) -> bool, m: int, a: Address)
    requires
        m <= players.len(),
    ensures
        select_players(players, p, m).contains(a) <==> exists|i: int| 0 <= i < m && p(i) && players[i] == a,
    decreases m,
{
    if m > 0 {
        lemma_select_contains(players, p, m - 1, a);
        let s = select_players(players, p, m - 1);
        if p(m - 1) {
            let t = s.push(players[m - 1]);
            assert(t.contains(a) <==> (s.contains(a) || players[m - 1] == a)) by {
                if t.contains(a) {
                    let k = choose|k: int| 0 <= k < t.len() && t[k] == a;
                    if k < s.len() {
                        assert(s[k] == a);
                    }
                }
                if s.contains(a) {
                    let k = choose|k: int| 0 <= k < s.len() && s[k] == a;
                    assert(t[k] == a);
                }
                if players[m - 1] == a {
                    assert(t[s.len() as int] == a);
                }
            }
        }
        if exists|i: int| 0 <= i < m && p(i) && players[i] == a {
            let i = choose|i: int| 0 <= i < m && p(i) && players[i] == a;
            if i < m - 1 {
                assert(exists|i2: int| 0 <= i2 < m - 1 && p(i2) && players[i2] == a);
            }
        }
    }
}

/// Chooses the winners of a round from the players' scores and total answer
/// times (both listed in player order) in one pass.
pub fn determine_round_winners(players: &Vec<Address>, scores: &Vec<u64>, times: &Vec<u64>) -> (winners: Vec<Address>)
    requires
        scores@.len() == players@.len(),
        times@.len() == players@.len(),
    ensures
        winners@ == round_winners(players@, scores@, times@),
{
    let ghost sc = scores@;
    let ghost tm = times@;
    let mut winners: Vec<Address> = Vec::new();
    let mut max_score: u64 = 0;
    let mut best_time: Option<u64> = None;
    let n = players.len();
    let mut k: usize = 0;
    while k < n
        invariant
            n == players@.len(),
            sc == scores@,
            tm == times@,
            sc.len() == n,
            tm.len() == n,
            0 <= k <= n,
            forall|j: int| 0 <= j < k ==> sc[j] <= max_score,
            max_score > 0 ==> exists|j: int| 0 <= j < k && sc[j] == max_score,
            max_score > 0 ==> best_time is Some,
            max_score > 0 ==> (forall|j: int| 0 <= j < k && sc[j] == max_score ==> best_time->0 <= tm[j]),
            max_score > 0 ==> exists|j: int| 0 <= j < k && sc[j] == max_score && tm[j] == best_time->0,
            max_score == 0 ==> winners@.len() == 0,
            max_score == 0 ==> best_time is None,
            winners@ == select_players(players@, |i: int| is_top(sc, tm, k as int, i), k as int),
        decreases n - k,
    {
        let ghost kk = k as int;
        let ghost old_pred = |i: int| is_top(sc, tm, kk, i);
        let ghost new_pred = |i: int| is_top(sc, tm, kk + 1, i);
        let player = players[k];
        let score = scores[k];
        let time = times[k];
        if score == 0 && max_score == 0 && winners.len() == 0 {
            proof {
                assert forall|i: int| 0 <= i < kk + 1 implies !#[trigger] new_pred(i) by {
                    assert(sc[i] <= 0);
                }
                lemma_select_none(players@, new_pred, kk + 1);
                lemma_select_none(players@, new_pred, kk);
            }
            k += 1;
            continue;
        }
        if score > max_score {
            proof {
                assert forall|i: int| 0 <= i < kk implies !#[trigger] new_pred(i) by {
                    assert(sc[i] <= max_score);
                    assert(sc[kk] > sc[i]);
                }
                lemma_select_none(players@, new_pred, kk);
                assert(new_pred(kk));
            }
            max_score = score;
            winners = Vec::new();
            winners.push(player);
            best_time = Some(time);
            proof {
                assert(winners@ =~= select_players(players@, new_pred, kk).push(players@[kk]));
            }
            k += 1;
            continue;
        }
        if score != max_score {
            proof {
                assert forall|i: int| 0 <= i < kk implies #[trigger] old_pred(i) == new_pred(i) by {
                    if old_pred(i) {
                        assert(sc[i] == max_score) by {
                            let j = choose|j: int| 0 <= j < kk && sc[j] == max_score;
                            assert(sc[j] <= sc[i]);
                        }
                    }
                }
                lemma_select_ext(players@, old_pred, new_pred, kk);
                assert(!new_pred(kk)) by {
                    let j = choose|j: int| 0 <= j < kk && sc[j] == max_score;
                    assert(sc[j] > sc[kk]);
                }
            }
            k += 1;
            continue;
        }
        // Here score == max_score > 0.
        match best_time {
            Some(current_best) => {
                if time < current_best {
                    proof {
                        assert forall|i: int| 0 <= i < kk implies !#[trigger] new_pred(i) by {
                            if new_pred(i) {
                                assert(sc[i] >= sc[kk]);
                                assert(sc[i] == max_score);
                                assert(tm[i] <= tm[kk]);
                                assert(current_best <= tm[i]);
                            }
                        }
                        lemma_select_none(players@, new_pred, kk);
                        assert(new_pred(kk)) by {
                            assert forall|j: int| 0 <= j < kk + 1 && sc[j] == sc[kk] implies tm[kk] <= #[trigger] tm[j] by {
                                if j < kk {
                                    assert(current_best <= tm[j]);
                                }
                            }
                        }
                    }
                    winners = Vec::new();
                    winners.push(player);
                    best_time = Some(time);
                    proof {
                        assert(winners@ =~= select_players(players@, new_pred, kk).push(players@[kk]));
                    }
                } else if time == current_best {
                    proof {
                        assert forall|i: int| 0 <= i < kk implies #[trigger] old_pred(i) == new_pred(i) by {
                            if old_pred(i) {
                                let j = choose|j: int| 0 <= j < kk && sc[j] == max_score && tm[j] == current_best;
                                assert(sc[j] <= sc[i]);
                                assert(sc[i] == max_score);
                                assert(tm[i] <= tm[j]);
                            }
                        }
                        lemma_select_ext(players@, old_pred, new_pred, kk);
                        assert(new_pred(kk)) by {
                            assert forall|j: int| 0 <= j < kk + 1 && sc[j] == sc[kk] implies tm[kk] <= #[trigger] tm[j] by {
                                if j < kk {
                                    assert(current_best <= tm[j]);
                                }
                            }
                        }
                    }
                    winners.push(player);
                } else {
                    proof {
                        assert forall|i: int| 0 <= i < kk implies #[trigger] old_pred(i) == new_pred(i) by {
                            if old_pred(i) {
                                let j = choose|j: int| 0 <= j < kk && sc[j] == max_score && tm[j] == current_best;
                                assert(sc[j] <= sc[i]);
                                assert(sc[i] == max_score);
                                assert(tm[i] <= tm[j]);
                            }
                        }
                        lemma_select_ext(players@, old_pred, new_pred, kk);
                        assert(!new_pred(kk)) by {
                            let j = choose|j: int| 0 <= j < kk && sc[j] == max_score && tm[j] == current_best;
                            assert(tm[j] < tm[kk]);
                        }
                    }
                }
            },
            None => {
                // Unreachable: a positive maximum always has a best time.
                winners.push(player);
                best_time = Some(time);
            },
        }
        k += 1;
    }
    if max_score == 0 {
        proof {
            assert forall|i: int| 0 <= i < n implies !#[trigger] is_top(sc, tm, n as int, i) by {
                assert(sc[i] <= 0);
            }
            lemma_select_none(players@, |i: int| is_top(sc, tm, n as int, i), n as int);
        }
        winners = Vec::new();
    }
    proof {
        lemma_select_ext(players@, |i: int| is_top(sc, tm, n as int, i), |i: int| is_top(sc, tm, players@.len() as int, i), n as int);
    }
    winners
}

} // verus!
