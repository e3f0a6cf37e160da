//! Multiple-choice question cards: a card's lyric with four options, one
//! of them right.
use vstd::prelude::*;
use crate::errors::Error;
use crate::game::LyricsFlip;
use crate::random::{draw, get_random_numbers, lemma_single_selection, random_selection};
use crate::text::{contains_string, decimal, decimal_string, lemma_shuffled_permutes, shuffle_strings, shuffled};
use crate::types::{Card, Ledger, QuestionCard, QuestionKind};
use soroban_sdk::Env;

verus! {

/// The attribute of `c` that a question of `kind` is about, as text.
pub open spec fn option_value(kind: QuestionKind, c: Card) -> Seq<char> {
    match kind {
        QuestionKind::Title => c.title@,
        QuestionKind::Artist => c.artist@,
        QuestionKind::Year => decimal(c.year as nat),
    }
}

/// The text of each string.
pub open spec fn views(v: Seq<String>) -> Seq<Seq<char>> {
    v.map_values(|s: String| s@)
}

/// Goes through `cands` in order and keeps each one that differs from
/// `correct` and from those kept before, until three are kept.
pub open spec fn take_distractors(cands: Seq<Seq<char>>, correct: Seq<char>) -> Seq<Seq<char>>
    decreases cands.len(),
{
    if cands.len() == 0 {
        Seq::empty()
    } else {
        let prev = take_distractors(cands.drop_last(), correct);
        let c = cands.last();
        if prev.len() < 3 && c != correct && !prev.contains(c) { prev.push(c) } else { prev }
    }
}

/// One step of [`take_distractors`]: keep `c` if fewer than three are kept
/// and it differs from `correct` and from those kept.
pub open spec fn step_distractors(prev: Seq<Seq<char>>, c: Seq<char>, correct: Seq<char>) -> Seq<Seq<char>> {
    if prev.len() < 3 && c != correct && !prev.contains(c) { prev.push(c) } else { prev }
}

proof fn lemma_take_push(cands: Seq<Seq<char>>, c: Seq<char>, correct: Seq<char>)
    ensures
        take_distractors(cands.push(c), correct) == step_distractors(take_distractors(cands, correct), c, correct),
{
    assert(cands.push(c).drop_last() =~= cands);
}

/// The option value of every catalogue card.
pub open spec fn catalogue_values(cards: Seq<Card>, kind: QuestionKind) -> Seq<Seq<char>> {
    cards.map_values(|c: Card| option_value(kind, c))
}

/// The option values of the cards with ids `ids`.
pub open spec fn first_candidates(cards: Seq<Card>, kind: QuestionKind, ids: Seq<u64>) -> Seq<Seq<char>> {
    ids.map_values(|id: u64| option_value(kind, cards[id - 1]))
}

/// The option values of the single cards drawn with seeds `seed + 1`,
/// `seed + 2`, ..., `seed + n`.
pub open spec fn extra_candidates(cards: Seq<Card>, kind: QuestionKind, seed: u64, ledger: Ledger, n: nat) -> Seq<Seq<char>> {
    Seq::new(n, |k: int| option_value(kind, cards[draw((seed + 1 + k) as u64, ledger, cards.len() as u64, false, 0) - 1]))
}

/// The three wrong options of a question about `card`: taken first from
/// ten distinct cards drawn with `seed`, then from single cards drawn with
/// `seed + 1`, `seed + 2`, ... until three are found. `None` when the
/// catalogue holds fewer than ten cards, when it holds fewer than three
/// distinct wrong values, or when every later seed up to `u64::MAX` leaves
/// fewer than three.
pub open spec fn distractors(cards: Seq<Card>, card: Card, kind: QuestionKind, seed: u64, ledger: Ledger) -> Option<Seq<Seq<char>>> {
    let correct = option_value(kind, card);
    match random_selection(seed, ledger, 10, cards.len() as u64, false) {
        None => None,
        Some(ids) => {
            let first = first_candidates(cards, kind, ids);
            if take_distractors(first, correct).len() < 3 && take_distractors(catalogue_values(cards, kind), correct).len() < 3 {
                None
            } else if exists|n: nat| n <= u64::MAX - seed
                && #[trigger] take_distractors(first + extra_candidates(cards, kind, seed, ledger, n), correct).len() == 3 {
                let n = choose|n: nat| n <= u64::MAX - seed
                    && #[trigger] take_distractors(first + extra_candidates(cards, kind, seed, ledger, n), correct).len() == 3;
                Some(take_distractors(first + extra_candidates(cards, kind, seed, ledger, n), correct))
            } else {
                None
            }
        },
    }
}

/// The years within five of `year`, other than `year` itself, that fit in a
/// `u64`, in increasing order.
pub open spec fn near_years(year: u64) -> Seq<u64> {
    let below: nat = if year < 5 { year as nat } else { 5 };
    let above: nat = if u64::MAX - year < 5 { (u64::MAX - year) as nat } else { 5 };
    Seq::new(below, |k: int| (year - below + k) as u64) + Seq::new(above, |k: int| (year + 1 + k) as u64)
}

/// The three wrong years of a question about a card of `year`: three
/// consecutive entries (wrapping round) of [`near_years`], starting at the
/// one that `seed` selects.
pub open spec fn year_distractors(year: u64, seed: u64) -> Seq<u64> {
    let c = near_years(year);
    let n = c.len() as int;
    let s = (seed as int) % n;
    let s1 = if s + 1 < n { s + 1 } else { s + 1 - n };
    let s2 = if s + 2 < n { s + 2 } else { s + 2 - n };
    seq![c[s], c[s1], c[s2]]
}

/// The decimal texts of `years`.
pub open spec fn year_texts(years: Seq<u64>) -> Seq<Seq<char>> {
    years.map_values(|y: u64| decimal(y as nat))
}

/// The three wrong options of a question of `kind` about `card`: nearby
/// years for a year question, values of drawn cards otherwise.
pub open spec fn wrong_options(cards: Seq<Card>, card: Card, kind: QuestionKind, seed: u64, ledger: Ledger) -> Option<Seq<Seq<char>>> {
    match kind {
        QuestionKind::Year => Some(year_texts(year_distractors(card.year, seed))),
        _ => distractors(cards, card, kind, seed, ledger),
    }
}

/// At least five years lie near any year; they increase, and each differs
/// from it by one to five.
pub proof fn lemma_near_years(year: u64)
    ensures
        near_years(year).len() >= 5,
        forall|i: int, j: int| 0 <= i < j < near_years(year).len() ==> near_years(year)[i] < near_years(year)[j],
        forall|i: int| 0 <= i < near_years(year).len() ==> #[trigger] near_years(year)[i] != year
            && near_years(year)[i] + 5 >= year && near_years(year)[i] <= year + 5,
{
}

/// The three wrong years are distinct, differ from `year`, and lie within
/// five years of it.
pub proof fn lemma_year_distractors(year: u64, seed: u64)
    ensures
        year_distractors(year, seed).len() == 3,
        year_distractors(year, seed).no_duplicates(),
        forall|k: int| 0 <= k < 3 ==> #[trigger] year_distractors(year, seed)[k] != year
            && year_distractors(year, seed)[k] + 5 >= year && year_distractors(year, seed)[k] <= year + 5,
{
    lemma_near_years(year);
    let c = near_years(year);
    let n = c.len() as int;
    let s = (seed as int) % n;
    assert(0 <= s < n);
    let d = year_distractors(year, seed);
    assert forall|i: int, j: int| 0 <= i < d.len() && 0 <= j < d.len() && i != j implies d[i] != d[j] by {
        let s1 = if s + 1 < n { s + 1 } else { s + 1 - n };
        let s2 = if s + 2 < n { s + 2 } else { s + 2 - n };
        assert(c[s] != c[s1]) by { if s < s1 { assert(c[s] < c[s1]); } else { assert(c[s1] < c[s]); } }
        assert(c[s] != c[s2]) by { if s < s2 { assert(c[s] < c[s2]); } else { assert(c[s2] < c[s]); } }
        assert(c[s1] != c[s2]) by { if s1 < s2 { assert(c[s1] < c[s2]); } else { assert(c[s2] < c[s1]); } }
    }
    assert forall|k: int| 0 <= k < 3 implies #[trigger] d[k] != year && d[k] + 5 >= year && d[k] <= year + 5 by {
        let s1 = if s + 1 < n { s + 1 } else { s + 1 - n };
        let s2 = if s + 2 < n { s + 2 } else { s + 2 - n };
        assert(c[s] == d[0] && c[s1] == d[1] && c[s2] == d[2]);
    }
}

/// The texts of the wrong years are distinct and differ from the text of
/// `year`.
pub proof fn lemma_year_texts(year: u64, seed: u64)
    ensures
        year_texts(year_distractors(year, seed)).len() == 3,
        year_texts(year_distractors(year, seed)).no_duplicates(),
        !year_texts(year_distractors(year, seed)).contains(decimal(year as nat)),
{
    lemma_year_distractors(year, seed);
    let d = year_distractors(year, seed);
    let t = year_texts(d);
    assert forall|i: int, j: int| 0 <= i < t.len() && 0 <= j < t.len() && i != j implies t[i] != t[j] by {
        if t[i] == t[j] {
            crate::text::lemma_decimal_injective(d[i] as nat, d[j] as nat);
        }
    }
    if t.contains(decimal(year as nat)) {
        let k = choose|k: int| 0 <= k < t.len() && t[k] == decimal(year as nat);
        crate::text::lemma_decimal_injective(d[k] as nat, year as nat);
        assert(d[k] != year);
    }
}

/// The kept values are at most three, distinct, and all differ from
/// `correct`.
pub proof fn lemma_take_distractors(cands: Seq<Seq<char>>, correct: Seq<char>)
    ensures
        take_distractors(cands, correct).len() <= 3,
        take_distractors(cands, correct).no_duplicates(),
        !take_distractors(cands, correct).contains(correct),
    decreases cands.len(),
{
    if cands.len() > 0 {
        lemma_take_distractors(cands.drop_last(), correct);
        let prev = take_distractors(cands.drop_last(), correct);
        let c = cands.last();
        if prev.len() < 3 && c != correct && !prev.contains(c) {
            let t = prev.push(c);
            assert forall|i: int, j: int| 0 <= i < t.len() && 0 <= j < t.len() && i != j implies t[i] != t[j] by {
                if i == prev.len() {
                    assert(prev.contains(t[j]) || j == prev.len());
                } else if j == prev.len() {
                    assert(prev.contains(t[i]));
                }
            }
            if t.contains(correct) {
                let k = choose|k: int| 0 <= k < t.len() && t[k] == correct;
                if k < prev.len() {
                    assert(prev[k] == correct);
                }
            }
        }
    }
}

/// Once three are kept, further candidates change nothing; before that
/// the kept values only grow.
pub proof fn lemma_take_distractors_append(a: Seq<Seq<char>>, b: Seq<Seq<char>>, correct: Seq<char>)
    ensures
        take_distractors(a, correct).len() <= take_distractors(a + b, correct).len(),
        take_distractors(a, correct).len() == 3 ==> take_distractors(a + b, correct) == take_distractors(a, correct),
    decreases b.len(),
{
    lemma_take_distractors(a, correct);
    if b.len() == 0 {
        assert(a + b =~= a);
    } else {
        lemma_take_distractors_append(a, b.drop_last(), correct);
        assert((a + b).drop_last() =~= a + b.drop_last());
        lemma_take_distractors(a + b.drop_last(), correct);
    }
}

/// The extra candidates for `n + 1` seeds extend those for `n`.
pub proof fn lemma_extra_step(cards: Seq<Card>, kind: QuestionKind, seed: u64, ledger: Ledger, first: Seq<Seq<char>>, n: nat)
    ensures
        first + extra_candidates(cards, kind, seed, ledger, n + 1)
            == (first + extra_candidates(cards, kind, seed, ledger, n)).push(
                option_value(kind, cards[draw((seed + 1 + n) as u64, ledger, cards.len() as u64, false, 0) - 1])),
{
    assert(first + extra_candidates(cards, kind, seed, ledger, n + 1)
        =~= (first + extra_candidates(cards, kind, seed, ledger, n)).push(
            option_value(kind, cards[draw((seed + 1 + n) as u64, ledger, cards.len() as u64, false, 0) - 1])));
}

/// Fewer than three kept after `n` extra seeds means fewer than three kept
/// after any smaller number.
proof fn lemma_extra_exhausted(cards: Seq<Card>, kind: QuestionKind, seed: u64, ledger: Ledger, first: Seq<Seq<char>>, correct: Seq<char>, n: nat)
    requires
        take_distractors(first + extra_candidates(cards, kind, seed, ledger, n), correct).len() < 3,
    ensures
        forall|m: nat| m <= n ==> #[trigger] take_distractors(first + extra_candidates(cards, kind, seed, ledger, m), correct).len() != 3,
{
    assert forall|m: nat| m <= n implies
        #[trigger] take_distractors(first + extra_candidates(cards, kind, seed, ledger, m), correct).len() != 3 by {
        let base = first + extra_candidates(cards, kind, seed, ledger, m);
        let full = first + extra_candidates(cards, kind, seed, ledger, n);
        assert(full =~= base + full.skip(base.len() as int));
        lemma_take_distractors_append(base, full.skip(base.len() as int), correct);
    }
}

/// Shuffling then reading the text is reading the text then shuffling.
pub proof fn lemma_shuffled_views(v: Seq<String>, seed: u64, j: nat)
    requires
        j <= v.len(),
        j <= u64::MAX,
    ensures
        views(shuffled(v, seed, j)) == shuffled(views(v), seed, j),
    decreases j,
{
    if j > 1 {
        let k = (j - 1) as nat;
        let next = crate::text::lcg_step(seed);
        let r = (next % (j as u64)) as int;
        assert(0 <= r < j) by (nonlinear_arith)
            requires
                r == (next % (j as u64)) as int,
                j > 1,
                j <= u64::MAX;
        let sw = v.update(k as int, v[r]).update(r, v[k as int]);
        let w = views(v);
        assert(views(sw) =~= w.update(k as int, w[r]).update(r, w[k as int]));
        lemma_shuffled_views(sw, next, k);
    }
}

/// A reordering of distinct values is distinct and holds the same values.
proof fn lemma_permuted_distinct(a: Seq<Seq<char>>, b: Seq<Seq<char>>)
    requires
        a.no_duplicates(),
        a.to_multiset() == b.to_multiset(),
    ensures
        b.no_duplicates(),
        forall|x: Seq<char>| a.contains(x) <==> b.contains(x),
{
    a.lemma_multiset_has_no_duplicates();
    b.lemma_multiset_has_no_duplicates_conv();
    assert forall|x: Seq<char>| a.contains(x) <==> b.contains(x) by {
        vstd::seq_lib::to_multiset_contains(a, x);
        vstd::seq_lib::to_multiset_contains(b, x);
    }
}

/// The text of `c`'s attribute that a question of `kind` is about.
pub fn option_value_of(kind: QuestionKind, c: &Card) -> (r: String)
    ensures
        r@ == option_value(kind, *c),
{
    match kind {
        QuestionKind::Title => c.title.clone(),
        QuestionKind::Artist => c.artist.clone(),
        QuestionKind::Year => decimal_string(c.year as u128),
    }
}

/// Appends `candidate` to `acc` if fewer than three are kept and it differs
/// from `correct` and from those kept.
fn keep_distractor(acc: &mut Vec<String>, candidate: String, correct: &String)
    ensures
        views(final(acc)@) == step_distractors(views(old(acc)@), candidate@, correct@),
{
    proof {
        assert(views(acc@).contains(candidate@) <==> exists|i: int| 0 <= i < acc@.len() && acc@[i]@ == candidate@) by {
            if views(acc@).contains(candidate@) {
                let i = choose|i: int| 0 <= i < views(acc@).len() && views(acc@)[i] == candidate@;
                assert(acc@[i]@ == candidate@);
            }
            if exists|i: int| 0 <= i < acc@.len() && acc@[i]@ == candidate@ {
                let i = choose|i: int| 0 <= i < acc@.len() && acc@[i]@ == candidate@;
                assert(views(acc@)[i] == candidate@);
            }
        }
    }
    if acc.len() < 3 && candidate != *correct && !contains_string(acc, &candidate) {
        acc.push(candidate);
        assert(views(final(acc)@) =~= views(old(acc)@).push(candidate@));
    }
}

/// The years of [`near_years`]`(year)`.
#[verifier::spinoff_prover]
fn near_years_of(year: u64) -> (r: Vec<u64>)
    ensures
        r@ == near_years(year),
{
    let below: u64 = if year < 5 { year } else { 5 };
    let above: u64 = if u64::MAX - year < 5 { u64::MAX - year } else { 5 };
    let mut near: Vec<u64> = Vec::new();
    let mut k: u64 = 0;
    while k < below
        invariant
            below <= year,
            below <= 5,
            k <= below,
            near@ == Seq::new(k as nat, |j: int| (year - below + j) as u64),
        decreases below - k,
    {
        near.push(year - below + k);
        k += 1;
        assert(near@ =~= Seq::new(k as nat, |j: int| (year - below + j) as u64));
    }
    let ghost lower = near@;
    k = 0;
    while k < above
        invariant
            above <= u64::MAX - year,
            above <= 5,
            k <= above,
            lower == Seq::new(below as nat, |j: int| (year - below + j) as u64),
            near@ == lower + Seq::new(k as nat, |j: int| (year + 1 + j) as u64),
        decreases above - k,
    {
        near.push(year + 1 + k);
        k += 1;
        assert(near@ =~= lower + Seq::new(k as nat, |j: int| (year + 1 + j) as u64));
    }
    assert(near@ =~= near_years(year));
    near
}

/// The texts of [`year_distractors`]`(year, seed)`.
#[verifier::spinoff_prover]
fn year_distractor_texts(year: u64, seed: u64) -> (r: Vec<String>)
    ensures
        views(r@) == year_texts(year_distractors(year, seed)),
{
    let near = near_years_of(year);
    proof { lemma_near_years(year); }
    let n = near.len();
    let s = (seed % (n as u64)) as usize;
    let s1 = if s + 1 < n { s + 1 } else { s + 1 - n };
    let s2 = if s + 2 < n { s + 2 } else { s + 2 - n };
    let mut r: Vec<String> = Vec::new();
    r.push(decimal_string(near[s] as u128));
    r.push(decimal_string(near[s1] as u128));
    r.push(decimal_string(near[s2] as u128));
    assert(views(r@) =~= year_texts(year_distractors(year, seed)));
    r
}

impl LyricsFlip {
    /// The option value of the one card drawn with `seed`.
    fn single_draw_value(&self, env: &Env, seed: u64, kind: QuestionKind, ledger: Ledger) -> (r: Result<String, Error>)
        requires
            self@.cards.len() > 0,
        ensures
            r matches Ok(v) && v@ == option_value(kind, self@.cards[draw(seed, ledger, self@.cards.len() as u64, false, 0) - 1]),
    {
        let cards_count = self.get_cards_count();
        proof {
            lemma_single_selection(seed, ledger, cards_count, false);
        }
        let drawn = match get_random_numbers(env, seed, 1, cards_count, false, ledger) {
            Ok(v) => v,
            Err(e) => return Err(e),
        };
        assert(drawn@ =~= seq![draw(seed, ledger, cards_count, false, 0)]);
        let candidate_card = match self.get_card(drawn[0]) {
            Ok(c) => c,
            Err(e) => return Err(e),
        };
        Ok(option_value_of(kind, &candidate_card))
    }

    /// The wrong options of a question of `kind` about `card` drawn from
    /// the catalogue (see [`distractors`]); `correct` is `card`'s own value.
    fn drawn_distractors(&self, env: &Env, card: &Card, correct: &String, seed: u64, kind: QuestionKind, ledger: Ledger) -> (r: Result<Vec<String>, Error>)
        requires
            self.wf(),
            self@.cards.len() >= 10 ==> seed < u64::MAX,
            correct@ == option_value(kind, *card),
        ensures
            self@.cards.len() < 10 ==> r == Err::<Vec<String>, Error>(Error::AmountExceedsLimit),
            self@.cards.len() >= 10 ==> match distractors(self@.cards, *card, kind, seed, ledger) {
                Some(d) => r matches Ok(v) && views(v@) == d,
                None => r == Err::<Vec<String>, Error>(Error::AmountExceedsLimit),
            },
            r matches Ok(v) ==> views(v@).len() == 3 && views(v@).no_duplicates() && !views(v@).contains(correct@),
    {
        let cards_count = self.get_cards_count();
        let random_ids = match get_random_numbers(env, seed, 10, cards_count, false, ledger) {
            Ok(v) => v,
            Err(e) => return Err(e),
        };
        let ghost cards = self@.cards;
        let ghost ids = random_ids@;
        let ghost first = first_candidates(cards, kind, ids);
        let ghost correct_view = correct@;
        let mut false_answers: Vec<String> = Vec::new();
        let mut k: usize = 0;
        while k < random_ids.len()
            invariant
                cards == self@.cards,
                correct_view == correct@,
                ids == random_ids@,
                first == first_candidates(cards, kind, ids),
                forall|j: int| 0 <= j < ids.len() ==> 1 <= #[trigger] ids[j] <= cards.len(),
                0 <= k <= ids.len(),
                views(false_answers@) == take_distractors(first.take(k as int), correct_view),
            decreases ids.len() - k,
        {
            let candidate_card = match self.get_card(random_ids[k]) {
                Ok(c) => c,
                Err(e) => return Err(e),
            };
            let candidate = option_value_of(kind, &candidate_card);
            keep_distractor(&mut false_answers, candidate, correct);
            proof {
                assert(first.take(k as int + 1) =~= first.take(k as int).push(first[k as int]));
                lemma_take_push(first.take(k as int), first[k as int], correct_view);
            }
            k += 1;
        }
        proof {
            assert(first.take(ids.len() as int) =~= first);
            lemma_take_distractors(first, correct_view);
        }
        if false_answers.len() < 3 {
            // Without three distinct wrong values in the catalogue no draw
            // can complete the options.
            let mut all: Vec<String> = Vec::new();
            proof { self.lemma_view_wf(); }
            let mut i: u64 = 1;
            while i <= cards_count
                invariant
                    cards == self@.cards,
                    correct_view == correct@,
                    cards_count == cards.len(),
                    cards_count <= u32::MAX,
                    1 <= i <= cards_count + 1,
                    views(all@) == take_distractors(catalogue_values(cards, kind).take(i - 1), correct_view),
                decreases cards_count + 1 - i,
            {
                let c = match self.get_card(i) {
                    Ok(c) => c,
                    Err(e) => return Err(e),
                };
                let v = option_value_of(kind, &c);
                keep_distractor(&mut all, v, correct);
                proof {
                    let cv = catalogue_values(cards, kind);
                    assert(cv.take(i as int) =~= cv.take(i - 1).push(cv[i - 1]));
                    lemma_take_push(cv.take(i - 1), cv[i - 1], correct_view);
                }
                i += 1;
            }
            proof {
                assert(catalogue_values(cards, kind).take(cards_count as int) =~= catalogue_values(cards, kind));
            }
            if all.len() < 3 {
                return Err(Error::AmountExceedsLimit);
            }
        }
        let mut extra_seed = seed + 1;
        let ghost mut n: nat = 0;
        proof {
            assert(first + extra_candidates(cards, kind, seed, ledger, 0) =~= first);
        }
        while false_answers.len() < 3
            invariant
                cards == self@.cards,
                correct_view == correct@,
                cards_count == cards.len(),
                cards_count >= 10,
                random_selection(seed, ledger, 10, cards_count, false) == Some(ids),
                correct_view == option_value(kind, *card),
                first == first_candidates(cards, kind, ids),
                false_answers@.len() < 3 ==> extra_seed == seed + 1 + n,
                n <= u64::MAX - seed,
                seed < u64::MAX,
                views(false_answers@) == take_distractors(first + extra_candidates(cards, kind, seed, ledger, n), correct_view),
                false_answers@.len() <= 3,
            decreases 3 - false_answers@.len(), u64::MAX - extra_seed,
        {
            let candidate = match self.single_draw_value(env, extra_seed, kind, ledger) {
                Ok(v) => v,
                Err(e) => return Err(e),
            };
            keep_distractor(&mut false_answers, candidate, correct);
            let ghost before_len = false_answers@.len();
            proof {
                lemma_take_distractors(first + extra_candidates(cards, kind, seed, ledger, n + 1), correct_view);
                lemma_extra_step(cards, kind, seed, ledger, first, n);
                lemma_take_push(first + extra_candidates(cards, kind, seed, ledger, n),
                    option_value(kind, cards[draw(extra_seed, ledger, cards_count, false, 0) - 1]), correct_view);
                n = n + 1;
            }
            if false_answers.len() < 3 {
                if extra_seed == u64::MAX {
                    proof {
                        lemma_extra_exhausted(cards, kind, seed, ledger, first, correct_view, n);
                        assert(n == u64::MAX - seed);
                        assert(!(exists|m: nat| m <= u64::MAX - seed
                            && #[trigger] take_distractors(first + extra_candidates(cards, kind, seed, ledger, m), correct_view).len() == 3));
                    }
                    return Err(Error::AmountExceedsLimit);
                }
                extra_seed = extra_seed + 1;
            } else if extra_seed < u64::MAX {
                extra_seed = extra_seed + 1;
            }
        }
        proof {
            let c = choose|m: nat| m <= u64::MAX - seed
                && #[trigger] take_distractors(first + extra_candidates(cards, kind, seed, ledger, m), correct_view).len() == 3;
            let a = first + extra_candidates(cards, kind, seed, ledger, n);
            let b = first + extra_candidates(cards, kind, seed, ledger, c);
            if c <= n {
                assert(a =~= b + a.skip(b.len() as int));
                lemma_take_distractors_append(b, a.skip(b.len() as int), correct_view);
            } else {
                assert(b =~= a + b.skip(a.len() as int));
                lemma_take_distractors_append(a, b.skip(a.len() as int), correct_view);
            }
            lemma_take_distractors(a, correct_view);
        }
        Ok(false_answers)
    }

    /// A multiple-choice question about `card`: its lyric, and four
    /// distinct options of `kind` in shuffled order, one of them `card`'s
    /// own. For a year question the wrong options are three distinct years
    /// within five years of `card`'s (see [`year_distractors`]); otherwise
    /// they come from cards drawn at random (see [`distractors`]), and the
    /// catalogue must hold at least ten cards.
    pub fn build_question_card(&self, env: &Env, card: Card, seed: u64, kind: QuestionKind, ledger: Ledger) -> (r: Result<QuestionCard, Error>)
        requires
            self.wf(),
            kind != QuestionKind::Year && self@.cards.len() >= 10 ==> seed < u64::MAX,
        ensures
            kind != QuestionKind::Year && self@.cards.len() < 10 ==> r == Err::<QuestionCard, Error>(Error::AmountExceedsLimit),
            kind != QuestionKind::Year && self@.cards.len() >= 10 ==> match distractors(self@.cards, card, kind, seed, ledger) {
                Some(d) => r is Ok,
                None => r == Err::<QuestionCard, Error>(Error::AmountExceedsLimit),
            },
            kind == QuestionKind::Year ==> r is Ok,
            kind == QuestionKind::Year ==> forall|k: int| 0 <= k < 3 ==> {
                let y = #[trigger] year_distractors(card.year, seed)[k];
                y != card.year && y + 5 >= card.year && y <= card.year + 5
            },
            r matches Ok(q) ==> {
                let d = wrong_options(self@.cards, card, kind, seed, ledger)->0;
                let options = seq![q.option_one@, q.option_two@, q.option_three@, q.option_four@];
                &&& q.lyric@ == card.lyrics@
                &&& q.timestamp == ledger.timestamp
                &&& q.kind == kind
                &&& options == shuffled(seq![option_value(kind, card)] + d, seed, 4)
                &&& options.no_duplicates()
                &&& options.contains(option_value(kind, card))
            },
    {
        let correct = option_value_of(kind, &card);
        let ghost correct_view = correct@;
        let false_answers = match kind {
            QuestionKind::Year => {
                proof {
                    lemma_year_distractors(card.year, seed);
                    lemma_year_texts(card.year, seed);
                }
                year_distractor_texts(card.year, seed)
            },
            _ => match self.drawn_distractors(env, &card, &correct, seed, kind, ledger) {
                Ok(v) => v,
                Err(e) => return Err(e),
            },
        };
        let ghost d = views(false_answers@);
        assert(d == wrong_options(self@.cards, card, kind, seed, ledger)->0);
        assert(d.len() == 3 && d.no_duplicates() && !d.contains(correct_view));
        let ghost correct_text = correct_view;
        let mut options: Vec<String> = Vec::new();
        options.push(correct);
        options.push(false_answers[0].clone());
        options.push(false_answers[1].clone());
        options.push(false_answers[2].clone());
        assert(views(options@) =~= seq![correct_text] + d);
        let shuffled_options = shuffle_strings(options, seed);
        proof {
            lemma_shuffled_views(options@, seed, 4);
            lemma_shuffled_permutes(views(options@), seed, 4);
            let o = views(options@);
            assert(o.no_duplicates()) by {
                assert forall|x: int, y: int| 0 <= x < o.len() && 0 <= y < o.len() && x != y implies o[x] != o[y] by {
                    if x == 0 {
                        assert(d.contains(o[y]));
                    } else if y == 0 {
                        assert(d.contains(o[x]));
                    } else {
                        assert(o[x] == d[x - 1] && o[y] == d[y - 1]);
                    }
                }
            }
            lemma_permuted_distinct(o, shuffled(o, seed, 4));
            assert(o.contains(correct_view)) by { assert(o[0] == correct_view); }
        }
        let q = QuestionCard {
            lyric: card.lyrics.clone(),
            timestamp: ledger.timestamp,
            kind,
            option_one: shuffled_options[0].clone(),
            option_two: shuffled_options[1].clone(),
            option_three: shuffled_options[2].clone(),
            option_four: shuffled_options[3].clone(),
        };
        proof {
            let s = views(shuffled_options@);
            assert(seq![q.option_one@, q.option_two@, q.option_three@, q.option_four@] =~= s);
        }
        Ok(q)
    }
}

} // verus!
