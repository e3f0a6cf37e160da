use lyricsflip::errors::Error;
use lyricsflip::events::{Event, RoundCancelled, RoundCompleted, RoundLeft};
use lyricsflip::game::{
    LyricsFlip, CARD_ANSWER_WINDOW_SECONDS, DEFAULT_MAX_PLAYERS, LOBBY_TIMEOUT_SECONDS, MAX_PAGE_LIMIT,
};
use lyricsflip::nft::LyricsFlipNFT;
use soroban_sdk::Env;
use lyricsflip::types::{Address, Answer, Card, Genre, Ledger, Milestone, QuestionCard, QuestionKind, Role};

const OWNER: Address = Address(1);

fn setup() -> (LyricsFlip, Address) {
    (LyricsFlip::new(OWNER), OWNER)
}

fn at(timestamp: u64) -> Ledger {
    Ledger { timestamp, sequence: 0 }
}

fn card(genre: Genre, artist: &str, title: &str, year: u64) -> Card {
    Card {
        card_id: 0,
        genre,
        artist: String::from(artist),
        title: String::from(title),
        year,
        lyrics: String::from("sample lyric line"),
    }
}

/// `count` cards of `genre` with distinct artists ("Artist i"), titles
/// ("Title i") and years (2000 + i).
fn seed_cards_genre(client: &mut LyricsFlip, owner: Address, count: u64, genre: Genre) {
    for i in 0..count {
        let c = Card {
            card_id: 0,
            genre,
            artist: format!("Artist{}", i),
            title: format!("Title{}", i),
            year: 2000 + i,
            lyrics: String::from("sample lyric line"),
        };
        client.add_card(owner, c).unwrap();
    }
}

fn seed_cards(client: &mut LyricsFlip, owner: Address, count: u64) {
    seed_cards_genre(client, owner, count, Genre::Pop);
}

fn seed_diverse_cards(client: &mut LyricsFlip, owner: Address) {
    let data = [
        (Genre::Pop, "Drake", "God's Plan", 2018u64),
        (Genre::Pop, "Rihanna", "Umbrella", 2007),
        (Genre::Pop, "Adele", "Rolling in the Deep", 2010),
        (Genre::Pop, "Ed Sheeran", "Shape of You", 2017),
        (Genre::Pop, "Beyonce", "Crazy in Love", 2003),
        (Genre::Rock, "Nirvana", "Smells Like Teen Spirit", 1991),
        (Genre::Rock, "Queen", "Bohemian Rhapsody", 1975),
        (Genre::Rock, "The Beatles", "Let It Be", 1970),
        (Genre::HipHop, "Kendrick Lamar", "HUMBLE.", 2017),
        (Genre::HipHop, "Jay-Z", "Empire State of Mind", 2009),
    ];
    for (genre, artist, title, year) in data.iter() {
        let c = Card {
            card_id: 0,
            genre: *genre,
            artist: String::from(*artist),
            title: String::from(*title),
            year: *year,
            lyrics: String::from("na na na na"),
        };
        client.add_card(owner, c).unwrap();
    }
}

fn score_of(client: &LyricsFlip, round_id: u64, player: Address) -> Option<u64> {
    client.get_round_scores(round_id).into_iter().find(|(p, _)| *p == player).map(|(_, s)| s)
}

fn assert_four_unique_options_with_correct(q: &QuestionCard, correct: &str) {
    let opts = [
        q.option_one.clone(),
        q.option_two.clone(),
        q.option_three.clone(),
        q.option_four.clone(),
    ];
    for i in 0..4 {
        for j in (i + 1)..4 {
            assert_ne!(opts[i], opts[j], "options must be distinct");
        }
    }
    assert!(opts.iter().any(|o| o == correct), "correct answer not present in options");
}

// ---------------------------------------------------------------------------
// Constructor, cards, configuration
// ---------------------------------------------------------------------------

#[test]
fn constructor_grants_owner_admin() {
    let (client, owner) = setup();
    assert!(client.is_admin(Role::Admin, owner));
    assert_eq!(client.owner(), owner);
    assert_eq!(client.pending_owner(), None);
    assert_eq!(LyricsFlip::version(), 1);
}

#[test]
fn add_card_requires_admin() {
    let (mut client, _owner) = setup();
    let non_admin = Address(50);
    let result = client.add_card(non_admin, card(Genre::Pop, "Artist A", "Title A", 1999));
    assert_eq!(result, Err(Error::NotAuthorized));
    assert_eq!(client.get_cards_count(), 0);
}

#[test]
fn add_card_and_get_card_round_trip() {
    let (mut client, owner) = setup();
    let c = card(Genre::Pop, "Artist A", "Title A", 1999);
    client.add_card(owner, c.clone()).unwrap();

    let stored = client.get_card(1).unwrap();
    assert_eq!(stored.title, c.title);
    assert_eq!(stored.artist, c.artist);
    assert_eq!(stored.year, 1999);
    assert_eq!(stored, c);
}

#[test]
fn get_card_errors_for_nonexistent_id() {
    let (client, _owner) = setup();
    assert_eq!(client.get_card(999), Err(Error::NonExistingCard));
    assert_eq!(client.get_card(0), Err(Error::NonExistingCard));
}

#[test]
fn card_counts_track_adds() {
    let (mut client, owner) = setup();
    assert_eq!(client.get_cards_count(), 0);
    assert_eq!(client.get_genre_card_count(Genre::Pop), 0);

    seed_cards(&mut client, owner, 3);
    client.add_card(owner, card(Genre::Rock, "Artist B", "Title B", 1990)).unwrap();

    assert_eq!(client.get_cards_count(), 4);
    assert_eq!(client.get_genre_card_count(Genre::Pop), 3);
    assert_eq!(client.get_genre_card_count(Genre::Rock), 1);
    assert_eq!(client.get_genre_card_count(Genre::Jazz), 0);
}

#[test]
fn set_cards_per_round_rejects_zero() {
    let (mut client, owner) = setup();
    assert_eq!(client.set_cards_per_round(owner, 0), Err(Error::InvalidCardsPerRound));
    assert_eq!(client.set_cards_per_round(owner, 4), Ok(()));
    assert_eq!(client.get_cards_per_round(), 4);
}

#[test]
fn set_cards_per_round_requires_admin() {
    let (mut client, _owner) = setup();
    assert_eq!(client.set_cards_per_round(Address(50), 5), Err(Error::NotAuthorized));
}

#[test]
fn set_role_is_owner_gated_and_updates_is_admin() {
    let (mut client, owner) = setup();
    let new_admin = Address(20);
    assert!(!client.is_admin(Role::Admin, new_admin));

    client.set_role(owner, new_admin, Role::Admin, true).unwrap();
    assert!(client.is_admin(Role::Admin, new_admin));

    let outsider = Address(21);
    let result = client.set_role(outsider, new_admin, Role::Admin, false);
    assert_eq!(result, Err(Error::NotAuthorized), "only the owner may grant/revoke admin");

    // An admin that is not the owner may not manage roles either.
    assert_eq!(client.set_role(new_admin, outsider, Role::Admin, true), Err(Error::NotAuthorized));
    // The owner can revoke their own flag and still manage roles.
    client.set_role(owner, owner, Role::Admin, false).unwrap();
    assert!(!client.is_admin(Role::Admin, owner));
    client.set_role(owner, owner, Role::Admin, true).unwrap();
    assert!(client.is_admin(Role::Admin, owner));
}

#[test]
fn game_ownership_transfer_is_two_step() {
    let (mut client, owner) = setup();
    let new_owner = Address(30);
    assert_eq!(client.transfer_ownership(new_owner, new_owner), Err(Error::NotAuthorized));
    client.transfer_ownership(owner, new_owner).unwrap();
    assert_eq!(client.owner(), owner, "ownership does not move before acceptance");
    assert_eq!(client.pending_owner(), Some(new_owner));
    assert_eq!(client.accept_ownership(Address(31)), Err(Error::NotPendingOwner));
    client.accept_ownership(new_owner).unwrap();
    assert_eq!(client.owner(), new_owner);
    assert_eq!(client.pending_owner(), None);
    assert!(client.is_admin(Role::Admin, new_owner));
    assert_eq!(client.accept_ownership(new_owner), Err(Error::NotPendingOwner));
    assert_eq!(client.upgrade(owner), Err(Error::NotAuthorized));
    assert_eq!(client.upgrade(new_owner), Ok(()));
}

#[test]
fn set_nft_contract_is_owner_gated() {
    let (mut client, owner) = setup();
    assert_eq!(client.get_nft_contract(), None);
    assert_eq!(client.set_nft_contract(Address(5), Address(200)), Err(Error::NotAuthorized));
    client.set_nft_contract(owner, Address(200)).unwrap();
    assert_eq!(client.get_nft_contract(), Some(Address(200)));
}

// ---------------------------------------------------------------------------
// create_round / join_round / start_round
// ---------------------------------------------------------------------------

#[test]
fn create_round_requires_a_genre() {
    let env = Env::default();
    let (mut client, owner) = setup();
    assert_eq!(client.create_round(&env, owner, None, 1, at(0)), Err(Error::NonExistingGenre));
}

#[test]
fn create_round_reports_catalogue_errors() {
    let env = Env::default();
    let (mut client, owner) = setup();
    // No cards at all.
    assert_eq!(client.create_round(&env, owner, Some(Genre::Pop), 1, at(0)), Err(Error::LimitMustBeGreaterThanZero));
    seed_cards(&mut client, owner, 2);
    client.set_cards_per_round(owner, 3).unwrap();
    assert_eq!(client.create_round(&env, owner, Some(Genre::Pop), 1, at(0)), Err(Error::AmountExceedsLimit));
    assert_eq!(client.get_round_count(), 0);
}

#[test]
fn create_round_draws_distinct_cards() {
    let env = Env::default();
    let (mut client, owner) = setup();
    seed_cards(&mut client, owner, 2);
    client.set_cards_per_round(owner, 2).unwrap();
    let round_id = client.create_round(&env, owner, Some(Genre::Pop), 1, at(0)).unwrap();
    assert_eq!(round_id, 1);
    assert_eq!(client.get_round_cards(round_id), vec![2, 1]);
    assert_eq!(client.get_round_players(round_id), vec![owner]);
    let round = client.get_round(round_id).unwrap();
    assert_eq!(round.admin, owner);
    assert_eq!(round.genre, Genre::Pop);
    assert!(!round.is_started && !round.is_completed && !round.is_cancelled);
    assert_eq!(client.get_round(2), Err(Error::NonExistingRound));
    assert_eq!(client.get_round_cards(2), Vec::<u64>::new());
}

#[test]
fn round_count_tracks_creates() {
    let env = Env::default();
    let (mut client, owner) = setup();
    seed_cards(&mut client, owner, 5);
    client.set_cards_per_round(owner, 3).unwrap();
    assert_eq!(client.get_round_count(), 0);

    for seed in 0..3u64 {
        client.create_round(&env, owner, Some(Genre::Pop), seed, at(0)).unwrap();
    }
    assert_eq!(client.get_round_count(), 3);
}

#[test]
fn join_round_rejects_duplicate_join() {
    let env = Env::default();
    let (mut client, owner) = setup();
    seed_cards(&mut client, owner, 5);
    client.set_cards_per_round(owner, 3).unwrap();
    let round_id = client.create_round(&env, owner, Some(Genre::Pop), 1, at(0)).unwrap();

    let result = client.join_round(owner, round_id, at(0));
    assert_eq!(result, Err(Error::RoundAlreadyJoined), "the round creator is already a player");
    assert_eq!(client.join_round(Address(9), 77, at(0)), Err(Error::NonExistingRound));
}

#[test]
fn join_round_rejects_after_start() {
    let env = Env::default();
    let (mut client, owner) = setup();
    seed_cards(&mut client, owner, 5);
    client.set_cards_per_round(owner, 3).unwrap();
    let round_id = client.create_round(&env, owner, Some(Genre::Pop), 1, at(0)).unwrap();
    client.start_round(owner, round_id, at(0)).unwrap();

    let late_player = Address(40);
    assert_eq!(client.join_round(late_player, round_id, at(0)), Err(Error::RoundAlreadyStarted));
}

#[test]
fn round_requires_all_players_ready_before_starting() {
    let env = Env::default();
    let (mut client, owner) = setup();
    seed_cards(&mut client, owner, 5);
    client.set_cards_per_round(owner, 3).unwrap();

    let round_id = client.create_round(&env, owner, Some(Genre::Pop), 42, at(0)).unwrap();
    let player2 = Address(2);
    client.join_round(player2, round_id, at(0)).unwrap();

    client.start_round(owner, round_id, at(0)).unwrap();
    assert!(!client.get_round(round_id).unwrap().is_started, "round should not auto-start until every player is ready");

    client.start_round(player2, round_id, at(7)).unwrap();
    let round = client.get_round(round_id).unwrap();
    assert!(round.is_started, "round should start once all players signal ready");
    assert_eq!(round.start_time, 7);
    assert_eq!(round.end_time, 7 + 300);
}

#[test]
fn total_rounds_increments_once_per_player_when_three_player_round_starts() {
    let env = Env::default();
    let (mut client, owner) = setup();
    seed_cards(&mut client, owner, 5);
    client.set_cards_per_round(owner, 3).unwrap();

    let player2 = Address(2);
    let player3 = Address(3);
    let round_id = client.create_round(&env, owner, Some(Genre::Pop), 42, at(0)).unwrap();
    client.join_round(player2, round_id, at(0)).unwrap();
    client.join_round(player3, round_id, at(0)).unwrap();

    client.start_round(owner, round_id, at(0)).unwrap();
    client.start_round(player2, round_id, at(0)).unwrap();
    client.start_round(player3, round_id, at(0)).unwrap();

    assert!(client.get_round(round_id).unwrap().is_started, "round should start once all players are ready");
    assert_eq!(client.get_player_stat(owner).total_rounds, 1);
    assert_eq!(client.get_player_stat(player2).total_rounds, 1);
    assert_eq!(client.get_player_stat(player3).total_rounds, 1);
}

#[test]
fn total_rounds_unchanged_when_round_never_fully_starts() {
    let env = Env::default();
    let (mut client, owner) = setup();
    seed_cards(&mut client, owner, 5);
    client.set_cards_per_round(owner, 3).unwrap();

    let player2 = Address(2);
    let player3 = Address(3);
    let round_id = client.create_round(&env, owner, Some(Genre::Pop), 42, at(0)).unwrap();
    client.join_round(player2, round_id, at(0)).unwrap();
    client.join_round(player3, round_id, at(0)).unwrap();

    client.start_round(owner, round_id, at(0)).unwrap();
    client.start_round(player2, round_id, at(0)).unwrap();

    assert!(!client.get_round(round_id).unwrap().is_started, "round should not start until every player is ready");
    assert_eq!(client.get_player_stat(owner).total_rounds, 0);
    assert_eq!(client.get_player_stat(player2).total_rounds, 0);
    assert_eq!(client.get_player_stat(player3).total_rounds, 0);
}

#[test]
fn start_round_rejects_already_ready_player() {
    let env = Env::default();
    let (mut client, owner) = setup();
    seed_cards(&mut client, owner, 5);
    client.set_cards_per_round(owner, 3).unwrap();
    let round_id = client.create_round(&env, owner, Some(Genre::Pop), 1, at(0)).unwrap();
    client.join_round(Address(2), round_id, at(0)).unwrap();

    client.start_round(owner, round_id, at(0)).unwrap();
    assert_eq!(client.start_round(owner, round_id, at(0)), Err(Error::AlreadyReady));
}

#[test]
fn start_round_rejects_non_participant() {
    let env = Env::default();
    let (mut client, owner) = setup();
    seed_cards(&mut client, owner, 5);
    client.set_cards_per_round(owner, 3).unwrap();
    let round_id = client.create_round(&env, owner, Some(Genre::Pop), 1, at(0)).unwrap();

    assert_eq!(client.start_round(Address(66), round_id, at(0)), Err(Error::NotAuthorized));
}

#[test]
fn join_round_fails_with_round_full_past_max_players() {
    let env = Env::default();
    let (mut client, owner) = setup();
    seed_cards(&mut client, owner, 2);
    client.set_cards_per_round(owner, 2).unwrap();
    assert_eq!(client.get_max_players(), DEFAULT_MAX_PLAYERS);
    client.set_max_players(owner, 3).unwrap();
    assert_eq!(client.get_max_players(), 3);

    let round_id = client.create_round(&env, owner, Some(Genre::Pop), 1, at(0)).unwrap();
    client.join_round(Address(2), round_id, at(0)).unwrap();
    client.join_round(Address(3), round_id, at(0)).unwrap();
    assert_eq!(client.join_round(Address(4), round_id, at(0)), Err(Error::RoundFull));
    assert_eq!(client.set_max_players(owner, 1), Err(Error::InvalidMaxPlayers));
    assert_eq!(client.set_max_players(Address(2), 5), Err(Error::NotAuthorized));
}

// ---------------------------------------------------------------------------
// next_card / submit_answer
// ---------------------------------------------------------------------------

#[test]
fn next_card_advances_index_and_completes_round() {
    let env = Env::default();
    let (mut client, owner) = setup();
    seed_cards(&mut client, owner, 2);
    client.set_cards_per_round(owner, 2).unwrap();
    let round_id = client.create_round(&env, owner, Some(Genre::Pop), 1, at(0)).unwrap();
    client.start_round(owner, round_id, at(0)).unwrap();

    let c1 = client.next_card(round_id, at(1)).unwrap();
    let round = client.get_round(round_id).unwrap();
    assert_eq!(round.next_card_index, 1);
    assert!(!round.is_completed);
    assert_eq!(c1, client.get_card(client.get_round_cards(round_id)[0]).unwrap());

    let _c2 = client.next_card(round_id, at(2)).unwrap();
    let round = client.get_round(round_id).unwrap();
    assert_eq!(round.next_card_index, 2);
    // The round is completed by `finalize_round`, so the last card can
    // still be answered; there is no further card to flip.
    assert!(!round.is_completed);
    assert_eq!(client.next_card(round_id, at(3)), Err(Error::RoundCompleted));
}

#[test]
fn next_card_errors_when_round_not_started() {
    let env = Env::default();
    let (mut client, owner) = setup();
    seed_cards(&mut client, owner, 2);
    client.set_cards_per_round(owner, 2).unwrap();
    let round_id = client.create_round(&env, owner, Some(Genre::Pop), 1, at(0)).unwrap();

    assert_eq!(client.next_card(round_id, at(0)), Err(Error::RoundNotStarted));
}

#[test]
fn next_card_errors_when_round_completed() {
    let env = Env::default();
    let (mut client, owner) = setup();
    seed_cards(&mut client, owner, 1);
    client.set_cards_per_round(owner, 1).unwrap();
    let round_id = client.create_round(&env, owner, Some(Genre::Pop), 1, at(0)).unwrap();
    client.start_round(owner, round_id, at(0)).unwrap();
    client.next_card(round_id, at(0)).unwrap();

    assert_eq!(client.next_card(round_id, at(0)), Err(Error::RoundCompleted));
}

#[test]
fn submit_answer_updates_streak_and_reports_correctness() {
    let env = Env::default();
    let (mut client, owner) = setup();
    seed_cards(&mut client, owner, 3);
    client.set_cards_per_round(owner, 3).unwrap();
    let round_id = client.create_round(&env, owner, Some(Genre::Pop), 7, at(0)).unwrap();
    client.start_round(owner, round_id, at(0)).unwrap();
    assert!(client.get_round(round_id).unwrap().is_started);

    let c = client.next_card(round_id, at(0)).unwrap();
    assert_eq!(client.submit_answer(owner, round_id, Answer::Title(c.title.clone()), at(0)), Ok(true));

    let stats = client.get_player_stat(owner);
    assert_eq!(stats.current_streak, 1);
    assert_eq!(stats.max_streak, 1);

    client.next_card(round_id, at(0)).unwrap();
    let wrong = client.submit_answer(owner, round_id, Answer::Title(String::from("definitely not the title")), at(0));
    assert_eq!(wrong, Ok(false));
    let stats = client.get_player_stat(owner);
    assert_eq!(stats.current_streak, 0);
    assert_eq!(stats.max_streak, 1);
    assert_eq!(score_of(&client, round_id, owner), Some(1));
}

#[test]
fn submit_answer_artist_kind_accepted() {
    let env = Env::default();
    let (mut client, owner) = setup();
    seed_cards(&mut client, owner, 3);
    client.set_cards_per_round(owner, 1).unwrap();
    let round_id = client.create_round(&env, owner, Some(Genre::Pop), 5, at(0)).unwrap();
    client.start_round(owner, round_id, at(0)).unwrap();

    let c = client.next_card(round_id, at(0)).unwrap();
    assert_eq!(client.submit_answer(owner, round_id, Answer::Artist(c.artist.clone()), at(0)), Ok(true));
}

#[test]
fn submit_answer_year_kind_accepted() {
    let env = Env::default();
    let (mut client, owner) = setup();
    seed_cards(&mut client, owner, 3);
    client.set_cards_per_round(owner, 1).unwrap();
    let round_id = client.create_round(&env, owner, Some(Genre::Pop), 6, at(0)).unwrap();
    client.start_round(owner, round_id, at(0)).unwrap();

    let c = client.next_card(round_id, at(0)).unwrap();
    assert_eq!(client.submit_answer(owner, round_id, Answer::Year(c.year), at(0)), Ok(true));
}

#[test]
fn submit_answer_rejects_non_participant() {
    let env = Env::default();
    let (mut client, owner) = setup();
    seed_cards(&mut client, owner, 3);
    client.set_cards_per_round(owner, 1).unwrap();
    let round_id = client.create_round(&env, owner, Some(Genre::Pop), 8, at(0)).unwrap();
    client.start_round(owner, round_id, at(0)).unwrap();
    client.next_card(round_id, at(0)).unwrap();

    let result = client.submit_answer(Address(77), round_id, Answer::Title(String::from("x")), at(0));
    assert_eq!(result, Err(Error::NotAParticipant));
}

#[test]
fn submit_answer_rejects_on_unstarted_round() {
    let env = Env::default();
    let (mut client, owner) = setup();
    seed_cards(&mut client, owner, 3);
    client.set_cards_per_round(owner, 1).unwrap();
    let round_id = client.create_round(&env, owner, Some(Genre::Pop), 9, at(0)).unwrap();

    let result = client.submit_answer(owner, round_id, Answer::Title(String::from("x")), at(0));
    assert_eq!(result, Err(Error::RoundNotStarted));
}

/// Answers after the card window are accepted but scored as wrong, so the
/// player still completes the card.
#[test]
fn answer_after_card_window_is_scored_as_wrong() {
    let env = Env::default();
    let (mut client, owner) = setup();
    seed_cards(&mut client, owner, 1);
    client.set_cards_per_round(owner, 1).unwrap();
    let round_id = client.create_round(&env, owner, Some(Genre::Pop), 1, at(0)).unwrap();
    client.start_round(owner, round_id, at(0)).unwrap();

    let c = client.next_card(round_id, at(10)).unwrap();
    let late = at(10 + CARD_ANSWER_WINDOW_SECONDS + 1);
    assert_eq!(client.submit_answer(owner, round_id, Answer::Title(c.title.clone()), late), Ok(false));
    assert_eq!(score_of(&client, round_id, owner), Some(0));

    client.finalize_round(owner, round_id, late).unwrap();
    let round = client.get_round(round_id).unwrap();
    assert!(round.is_completed);
    assert_eq!(round.end_time, 10 + CARD_ANSWER_WINDOW_SECONDS + 1);
}

#[test]
fn answer_exactly_at_window_end_still_counts() {
    let env = Env::default();
    let (mut client, owner) = setup();
    seed_cards(&mut client, owner, 1);
    client.set_cards_per_round(owner, 1).unwrap();
    let round_id = client.create_round(&env, owner, Some(Genre::Pop), 1, at(0)).unwrap();
    client.start_round(owner, round_id, at(0)).unwrap();
    let c = client.next_card(round_id, at(10)).unwrap();
    let edge = at(10 + CARD_ANSWER_WINDOW_SECONDS);
    assert_eq!(client.submit_answer(owner, round_id, Answer::Title(c.title.clone()), edge), Ok(true));
    assert_eq!(score_of(&client, round_id, owner), Some(1));
}

// ---------------------------------------------------------------------------
// finalize_round
// ---------------------------------------------------------------------------

fn completed_event(client: &LyricsFlip, round_id: u64, winners: Vec<Address>) -> bool {
    let expected = Event::RoundCompleted(RoundCompleted {
        round_id,
        winners,
        scores: client.get_round_scores(round_id),
    });
    client.events().contains(&expected)
}

#[test]
fn finalize_round_e2e_single_winner_updates_stats_and_scores() {
    let env = Env::default();
    let (mut client, owner) = setup();
    seed_cards(&mut client, owner, 3);
    client.set_cards_per_round(owner, 2).unwrap();

    let round_id = client.create_round(&env, owner, Some(Genre::Pop), 42, at(0)).unwrap();
    let player2 = Address(2);
    client.join_round(player2, round_id, at(0)).unwrap();
    client.start_round(owner, round_id, at(0)).unwrap();
    client.start_round(player2, round_id, at(0)).unwrap();

    let first = client.next_card(round_id, at(95)).unwrap();
    assert_eq!(client.submit_answer(owner, round_id, Answer::Title(first.title.clone()), at(100)), Ok(true));
    assert_eq!(client.submit_answer(player2, round_id, Answer::Title(String::from("wrong-a")), at(130)), Ok(false));

    let second = client.next_card(round_id, at(195)).unwrap();
    assert_eq!(client.submit_answer(owner, round_id, Answer::Title(second.title.clone()), at(200)), Ok(true));
    assert_eq!(client.submit_answer(player2, round_id, Answer::Title(String::from("wrong-b")), at(240)), Ok(false));

    assert_eq!(client.get_round_scores(round_id), vec![(owner, 2u64), (player2, 0u64)]);

    client.finalize_round(owner, round_id, at(240)).unwrap();
    assert_eq!(client.get_player_stat(owner).rounds_won, 1);
    assert_eq!(client.get_player_stat(player2).rounds_won, 0);
    assert!(completed_event(&client, round_id, vec![owner]));

    let events_before = client.events().len();
    assert_eq!(client.finalize_round(owner, round_id, at(250)), Err(Error::RoundAlreadyFinalized));
    assert_eq!(client.events().len(), events_before);
    assert_eq!(client.get_player_stat(owner).rounds_won, 1);
}

#[test]
fn finalize_round_e2e_deadline_path_works_without_all_answers() {
    let env = Env::default();
    let (mut client, owner) = setup();
    seed_cards(&mut client, owner, 3);
    client.set_cards_per_round(owner, 2).unwrap();

    let round_id = client.create_round(&env, owner, Some(Genre::Pop), 99, at(0)).unwrap();
    let player2 = Address(2);
    client.join_round(player2, round_id, at(0)).unwrap();
    client.start_round(owner, round_id, at(0)).unwrap();
    client.start_round(player2, round_id, at(0)).unwrap();

    let c = client.next_card(round_id, at(45)).unwrap();
    assert_eq!(client.submit_answer(owner, round_id, Answer::Title(c.title.clone()), at(50)), Ok(true));
    assert_eq!(client.submit_answer(player2, round_id, Answer::Title(String::from("not-the-answer")), at(70)), Ok(false));

    let round = client.get_round(round_id).unwrap();
    assert_eq!(client.finalize_round(owner, round_id, at(round.end_time - 1)), Err(Error::RoundNotReady));
    client.finalize_round(owner, round_id, at(round.end_time + 1)).unwrap();

    assert_eq!(client.get_player_stat(owner).rounds_won, 1);
    assert_eq!(client.get_round(round_id).unwrap().end_time, round.end_time);
    assert!(completed_event(&client, round_id, vec![owner]));
}

#[test]
fn finalize_round_e2e_tie_breaks_by_total_answer_time() {
    let env = Env::default();
    let (mut client, owner) = setup();
    seed_cards(&mut client, owner, 3);
    client.set_cards_per_round(owner, 1).unwrap();

    let round_id = client.create_round(&env, owner, Some(Genre::Pop), 3, at(0)).unwrap();
    let player2 = Address(2);
    client.join_round(player2, round_id, at(0)).unwrap();
    client.start_round(owner, round_id, at(0)).unwrap();
    client.start_round(player2, round_id, at(0)).unwrap();

    let c = client.next_card(round_id, at(95)).unwrap();
    assert_eq!(client.submit_answer(owner, round_id, Answer::Title(c.title.clone()), at(100)), Ok(true));
    assert_eq!(client.submit_answer(player2, round_id, Answer::Title(c.title.clone()), at(104)), Ok(true));

    client.finalize_round(owner, round_id, at(104)).unwrap();
    assert_eq!(client.get_player_stat(owner).rounds_won, 1);
    assert_eq!(client.get_player_stat(player2).rounds_won, 0);
    assert!(completed_event(&client, round_id, vec![owner]));
}

#[test]
fn finalize_round_e2e_exact_score_and_time_tie_produces_co_winners() {
    let env = Env::default();
    let (mut client, owner) = setup();
    seed_cards(&mut client, owner, 3);
    client.set_cards_per_round(owner, 1).unwrap();

    let round_id = client.create_round(&env, owner, Some(Genre::Pop), 11, at(0)).unwrap();
    let player2 = Address(2);
    client.join_round(player2, round_id, at(0)).unwrap();
    client.start_round(owner, round_id, at(0)).unwrap();
    client.start_round(player2, round_id, at(0)).unwrap();

    let c = client.next_card(round_id, at(95)).unwrap();
    assert_eq!(client.submit_answer(owner, round_id, Answer::Title(c.title.clone()), at(100)), Ok(true));
    assert_eq!(client.submit_answer(player2, round_id, Answer::Title(c.title.clone()), at(100)), Ok(true));

    client.finalize_round(owner, round_id, at(100)).unwrap();
    assert_eq!(client.get_player_stat(owner).rounds_won, 1);
    assert_eq!(client.get_player_stat(player2).rounds_won, 1);
    assert!(completed_event(&client, round_id, vec![owner, player2]));
}

#[test]
fn finalize_round_rejects_early_and_non_participant() {
    let env = Env::default();
    let (mut client, owner) = setup();
    seed_cards(&mut client, owner, 3);
    client.set_cards_per_round(owner, 1).unwrap();

    let round_id = client.create_round(&env, owner, Some(Genre::Pop), 17, at(0)).unwrap();
    let player2 = Address(2);
    client.join_round(player2, round_id, at(0)).unwrap();
    client.start_round(owner, round_id, at(0)).unwrap();
    client.start_round(player2, round_id, at(0)).unwrap();

    let c = client.next_card(round_id, at(95)).unwrap();
    assert_eq!(client.submit_answer(owner, round_id, Answer::Title(c.title.clone()), at(100)), Ok(true));

    assert_eq!(client.finalize_round(owner, round_id, at(100)), Err(Error::RoundNotReady));
    assert_eq!(client.finalize_round(Address(88), round_id, at(100)), Err(Error::NotAParticipant));
    assert_eq!(client.finalize_round(owner, 99, at(100)), Err(Error::NonExistingRound));
}

#[test]
fn finalize_round_e2e_no_correct_answers_has_no_winners() {
    let env = Env::default();
    let (mut client, owner) = setup();
    seed_cards(&mut client, owner, 3);
    client.set_cards_per_round(owner, 1).unwrap();

    let round_id = client.create_round(&env, owner, Some(Genre::Pop), 17, at(0)).unwrap();
    let player2 = Address(2);
    client.join_round(player2, round_id, at(0)).unwrap();
    client.start_round(owner, round_id, at(0)).unwrap();
    client.start_round(player2, round_id, at(0)).unwrap();

    client.next_card(round_id, at(95)).unwrap();
    assert_eq!(client.submit_answer(owner, round_id, Answer::Title(String::from("wrong")), at(100)), Ok(false));
    assert_eq!(client.submit_answer(player2, round_id, Answer::Title(String::from("wrong-two")), at(150)), Ok(false));

    client.finalize_round(owner, round_id, at(150)).unwrap();
    assert_eq!(client.get_player_stat(owner).rounds_won, 0);
    assert_eq!(client.get_player_stat(player2).rounds_won, 0);
    assert_eq!(score_of(&client, round_id, owner), Some(0));
    assert_eq!(score_of(&client, round_id, player2), Some(0));
    assert!(completed_event(&client, round_id, vec![]));
}

// ---------------------------------------------------------------------------
// Card queries
// ---------------------------------------------------------------------------

#[test]
fn get_cards_of_genre_returns_requested_amount() {
    let env = Env::default();
    let (mut client, owner) = setup();
    seed_cards(&mut client, owner, 6);
    client.set_cards_per_round(owner, 4).unwrap();

    let cards = client.get_cards_of_genre(&env, Genre::Pop, 99, at(0)).unwrap();
    assert_eq!(cards.len(), 4);
    for i in 0..cards.len() {
        assert_eq!(cards[i].genre, Genre::Pop);
        for j in (i + 1)..cards.len() {
            assert_ne!(cards[i], cards[j]);
        }
    }
}

#[test]
fn get_cards_of_genre_errors_when_empty() {
    let env = Env::default();
    let (client, _owner) = setup();
    assert_eq!(client.get_cards_of_genre(&env, Genre::Jazz, 1, at(0)), Err(Error::EmptyGenreCards));
}

#[test]
fn get_cards_of_a_year_errors_when_empty() {
    let env = Env::default();
    let (client, _owner) = setup();
    assert_eq!(client.get_cards_of_a_year(&env, 1975, 1, at(0)), Err(Error::EmptyYearCards));
}

#[test]
fn get_cards_of_artist_errors_when_no_cards() {
    let env = Env::default();
    let (client, _owner) = setup();
    assert_eq!(client.get_cards_of_artist(&env, String::from("Nobody"), 1, at(0)), Err(Error::ArtistCardsIsZero));
}

#[test]
fn get_cards_of_artist_returns_requested_amount() {
    let env = Env::default();
    let (mut client, owner) = setup();
    for i in 0..4u64 {
        let c = Card {
            card_id: 0,
            genre: Genre::Rock,
            artist: String::from("The Same Artist"),
            title: format!("Song {}", i),
            year: 2000 + i,
            lyrics: String::from("lyric"),
        };
        client.add_card(owner, c).unwrap();
    }
    client.add_card(owner, card(Genre::Pop, "Other", "Other Song", 1990)).unwrap();
    client.set_cards_per_round(owner, 2).unwrap();

    let cards = client.get_cards_of_artist(&env, String::from("The Same Artist"), 3, at(0)).unwrap();
    assert_eq!(cards.len(), 2);
    assert!(cards.iter().all(|c| c.artist == "The Same Artist"));
    assert_ne!(cards[0], cards[1]);
}

#[test]
fn get_cards_of_year_returns_requested_amount() {
    let env = Env::default();
    let (mut client, owner) = setup();
    for i in 0..4u64 {
        let c = Card {
            card_id: 0,
            genre: Genre::Jazz,
            artist: format!("Artist {}", i),
            title: format!("Track {}", i),
            year: 1990,
            lyrics: String::from("lyric"),
        };
        client.add_card(owner, c).unwrap();
    }
    client.set_cards_per_round(owner, 2).unwrap();

    let cards = client.get_cards_of_a_year(&env, 1990, 55, at(0)).unwrap();
    assert_eq!(cards.len(), 2);
    assert!(cards.iter().all(|c| c.year == 1990));
}

#[test]
fn card_queries_refuse_more_cards_than_match() {
    let env = Env::default();
    let (mut client, owner) = setup();
    seed_cards(&mut client, owner, 2);
    client.set_cards_per_round(owner, 3).unwrap();
    assert_eq!(client.get_cards_of_genre(&env, Genre::Pop, 1, at(0)), Err(Error::AmountExceedsLimit));
}

#[test]
fn get_random_numbers_worst_case_amount_equals_limit() {
    let env = Env::default();
    let (mut client, owner) = setup();
    for i in 0..50u64 {
        let c = Card {
            card_id: 0,
            genre: Genre::Pop,
            artist: String::from("A"),
            title: String::from("T"),
            year: 2000 + i,
            lyrics: String::from("lyric"),
        };
        client.add_card(owner, c).unwrap();
    }
    client.set_cards_per_round(owner, 50).unwrap();

    let cards = client.get_cards_of_genre(&env, Genre::Pop, 12345, at(0)).unwrap();
    assert_eq!(cards.len(), 50, "expected exactly 50 cards back when amount == limit == 50");
    let mut years: Vec<u64> = cards.iter().map(|c| c.year).collect();
    years.sort();
    assert_eq!(years, (2000..2050).collect::<Vec<u64>>());
}

#[test]
fn get_random_numbers_returns_correct_count_for_various_inputs() {
    let env = Env::default();
    let (mut client, owner) = setup();
    for i in 0..20u64 {
        client.add_card(owner, card(Genre::Jazz, "Artist", "Title", 1970 + i)).unwrap();
    }

    for amount in [1u32, 5, 10, 15, 20] {
        client.set_cards_per_round(owner, amount).unwrap();
        let cards = client.get_cards_of_genre(&env, Genre::Jazz, amount as u64 * 7 + 3, at(0)).unwrap();
        assert_eq!(cards.len(), amount as usize, "expected {amount} cards, got {}", cards.len());
    }
}

#[test]
fn game_entries_survive_ledger_advance() {
    let env = Env::default();
    let (mut client, owner) = setup();
    seed_cards(&mut client, owner, 3);
    client.set_cards_per_round(owner, 2).unwrap();

    let round_id = client.create_round(&env, owner, Some(Genre::Pop), 77, at(0)).unwrap();
    client.start_round(owner, round_id, at(0)).unwrap();
    let c = client.next_card(round_id, at(0)).unwrap();
    assert_eq!(client.submit_answer(owner, round_id, Answer::Title(c.title.clone()), at(0)), Ok(true));

    let later = Ledger { timestamp: 0, sequence: 100_000 };
    assert!(client.get_round(round_id).is_ok());
    assert!(client.get_card(1).is_ok());
    let stats = client.get_player_stat(owner);
    assert_eq!(stats.total_rounds, 1);
    assert_eq!(stats.current_streak, 1);
    assert_eq!(client.get_cards_of_genre(&env, Genre::Pop, 999, later).unwrap().len(), 2);
}

// ---------------------------------------------------------------------------
// build_question_card
// ---------------------------------------------------------------------------

#[test]
fn build_question_card_title_kind_has_four_unique_options_with_correct_title() {
    let env = Env::default();
    let (mut client, owner) = setup();
    seed_diverse_cards(&mut client, owner);
    client.set_cards_per_round(owner, 5).unwrap();

    let c = client.get_card(1).unwrap();
    let q = client.build_question_card(&env, c.clone(), 42, QuestionKind::Title, at(1234)).unwrap();
    assert_eq!(q.kind, QuestionKind::Title);
    assert_eq!(q.lyric, c.lyrics);
    assert_eq!(q.timestamp, 1234);
    assert_four_unique_options_with_correct(&q, &c.title);
}

#[test]
fn build_question_card_artist_kind_has_four_unique_options_with_correct_artist() {
    let env = Env::default();
    let (mut client, owner) = setup();
    seed_diverse_cards(&mut client, owner);
    client.set_cards_per_round(owner, 5).unwrap();

    let c = client.get_card(1).unwrap();
    let q = client.build_question_card(&env, c.clone(), 99, QuestionKind::Artist, at(0)).unwrap();
    assert_eq!(q.kind, QuestionKind::Artist);
    assert_four_unique_options_with_correct(&q, &c.artist);
}

#[test]
fn build_question_card_year_kind_has_four_unique_options_with_correct_year() {
    let env = Env::default();
    let (mut client, owner) = setup();
    seed_diverse_cards(&mut client, owner);
    client.set_cards_per_round(owner, 5).unwrap();

    let c = client.get_card(1).unwrap();
    let q = client.build_question_card(&env, c.clone(), 7, QuestionKind::Year, at(0)).unwrap();
    assert_eq!(q.kind, QuestionKind::Year);
    assert_four_unique_options_with_correct(&q, "2018");
}

#[test]
fn build_question_card_year_distractors_are_close_to_correct_year() {
    let env = Env::default();
    let (mut client, owner) = setup();
    seed_diverse_cards(&mut client, owner);
    client.set_cards_per_round(owner, 5).unwrap();

    let c = client.get_card(1).unwrap(); // year = 2018
    let q = client.build_question_card(&env, c.clone(), 3, QuestionKind::Year, at(0)).unwrap();

    // All four options should be within 5 years of the correct year.
    for opt in [&q.option_one, &q.option_two, &q.option_three, &q.option_four] {
        let parsed: i64 = opt.parse().expect("year option should be a number");
        let diff = (parsed - c.year as i64).abs();
        assert!(diff <= 5, "distractor year {parsed} is more than 5 away from {}", c.year);
    }
    // Seed 3 picks 2016, 2017 and 2019 among 2013..=2023 without 2018;
    // the shuffle then orders the four options.
    let options = [q.option_one, q.option_two, q.option_three, q.option_four];
    assert_eq!(options, ["2016", "2019", "2018", "2017"].map(String::from));
}

#[test]
fn year_questions_near_small_and_large_years() {
    let env = Env::default();
    let (client, _owner) = setup();
    // No catalogue is needed for year questions.
    for (year, seed) in [(0u64, 0u64), (2, 7), (u64::MAX, 3), (u64::MAX - 1, 11), (1999, u64::MAX)] {
        let c = card(Genre::Pop, "A", "T", year);
        let q = client.build_question_card(&env, c, seed, QuestionKind::Year, at(0)).unwrap();
        assert_four_unique_options_with_correct(&q, &year.to_string());
        for opt in [&q.option_one, &q.option_two, &q.option_three, &q.option_four] {
            let y: u128 = opt.parse().unwrap();
            let diff = if y > year as u128 { y - year as u128 } else { year as u128 - y };
            assert!(diff <= 5);
        }
    }
}

#[test]
fn build_question_card_needs_ten_cards() {
    let env = Env::default();
    let (mut client, owner) = setup();
    seed_cards(&mut client, owner, 9);
    let c = client.get_card(1).unwrap();
    assert_eq!(client.build_question_card(&env, c, 1, QuestionKind::Title, at(0)), Err(Error::AmountExceedsLimit));
}

#[test]
fn build_question_card_needs_three_distinct_wrong_options() {
    let env = Env::default();
    let (mut client, owner) = setup();
    // Ten cards but only two distinct artists: no three wrong artists exist.
    for i in 0..10u64 {
        let artist = if i % 2 == 0 { "Even" } else { "Odd" };
        client.add_card(owner, card(Genre::Pop, artist, &format!("Song {}", i), 1990 + i)).unwrap();
    }
    let c = client.get_card(1).unwrap();
    assert_eq!(client.build_question_card(&env, c.clone(), 5, QuestionKind::Artist, at(0)), Err(Error::AmountExceedsLimit));
    // Titles are all distinct, so a title question works.
    let q = client.build_question_card(&env, c.clone(), 5, QuestionKind::Title, at(0)).unwrap();
    assert_four_unique_options_with_correct(&q, &c.title);
}

// ---------------------------------------------------------------------------
// Pagination
// ---------------------------------------------------------------------------

#[test]
fn get_rounds_paginates_and_respects_limit() {
    let env = Env::default();
    let (mut client, owner) = setup();
    seed_cards(&mut client, owner, 5);
    client.set_cards_per_round(owner, 3).unwrap();
    for seed in 0..5u64 {
        client.create_round(&env, owner, Some(Genre::Pop), seed, at(0)).unwrap();
    }

    let page = client.get_rounds(1, 2);
    assert_eq!(page.len(), 2);
    assert_eq!(page[0].round_id, 1);
    assert_eq!(page[1].round_id, 2);

    let page = client.get_rounds(4, 10);
    assert_eq!(page.len(), 2, "only rounds 4 and 5 remain");
    assert_eq!(page[0].round_id, 4);

    // Round ids start at 1, so start = 0 behaves like start = 1.
    assert_eq!(client.get_rounds(0, 1)[0].round_id, 1);
    assert_eq!(client.get_rounds(6, 10).len(), 0);
    assert_eq!(client.get_rounds(1, 0).len(), 0);
}

#[test]
fn get_rounds_clamps_limit_to_max() {
    let env = Env::default();
    let (mut client, owner) = setup();
    seed_cards(&mut client, owner, 3);
    client.set_cards_per_round(owner, 1).unwrap();
    let total = MAX_PAGE_LIMIT as u64 + 5;
    for seed in 0..total {
        client.create_round(&env, owner, Some(Genre::Pop), seed, at(0)).unwrap();
    }

    let page = client.get_rounds(1, u32::MAX);
    assert_eq!(page.len(), MAX_PAGE_LIMIT as usize);
    assert_eq!(client.get_open_rounds(0, u32::MAX).len(), MAX_PAGE_LIMIT as usize);
}

#[test]
fn open_rounds_drop_rounds_once_started() {
    let env = Env::default();
    let (mut client, owner) = setup();
    seed_cards(&mut client, owner, 5);
    client.set_cards_per_round(owner, 3).unwrap();
    let r1 = client.create_round(&env, owner, Some(Genre::Pop), 1, at(0)).unwrap();
    let r2 = client.create_round(&env, owner, Some(Genre::Pop), 2, at(0)).unwrap();
    let r3 = client.create_round(&env, owner, Some(Genre::Pop), 3, at(0)).unwrap();

    let open = client.get_open_rounds(0, 10);
    assert_eq!(open, vec![r1, r2, r3]);

    // A round with a second player stays open until everyone is ready.
    let player = Address(2);
    client.join_round(player, r2, at(0)).unwrap();
    client.start_round(owner, r2, at(0)).unwrap();
    assert_eq!(client.get_open_rounds(0, 10).len(), 3);
    client.start_round(player, r2, at(0)).unwrap();

    client.start_round(owner, r1, at(0)).unwrap();

    let open = client.get_open_rounds(0, 10);
    assert_eq!(open, vec![r3]);

    // Offset pagination.
    assert_eq!(client.get_open_rounds(1, 10).len(), 0);
    assert_eq!(client.get_open_rounds(5, 10).len(), 0);
}

// ---------------------------------------------------------------------------
// Lobby: leave, cancel
// ---------------------------------------------------------------------------

#[test]
fn leave_round_refunds_wager_and_frees_the_seat() {
    let env = Env::default();
    let (mut client, owner) = setup();
    seed_cards(&mut client, owner, 2);
    client.set_cards_per_round(owner, 2).unwrap();
    let round_id = client.create_round(&env, owner, Some(Genre::Pop), 1, at(0)).unwrap();
    let player2 = Address(2);
    client.join_round(player2, round_id, at(0)).unwrap();
    client.start_round(player2, round_id, at(0)).unwrap();

    client.leave_round(player2, round_id).unwrap();
    let expected = Event::RoundLeft(RoundLeft {
        round_id,
        player: player2,
        refunded: client.get_round(round_id).unwrap().wager_amount,
    });
    assert!(client.events().contains(&expected));

    assert_eq!(client.get_players_round_count(round_id), 1);
    // player2's ready flag is dropped, so the admin alone starts the round.
    client.start_round(owner, round_id, at(0)).unwrap();
    assert!(client.get_round(round_id).unwrap().is_started);
}

#[test]
fn leave_round_fails_after_start_and_for_admin() {
    let env = Env::default();
    let (mut client, owner) = setup();
    seed_cards(&mut client, owner, 2);
    client.set_cards_per_round(owner, 2).unwrap();
    let round_id = client.create_round(&env, owner, Some(Genre::Pop), 1, at(0)).unwrap();
    let player2 = Address(2);
    client.join_round(player2, round_id, at(0)).unwrap();

    assert_eq!(client.leave_round(owner, round_id), Err(Error::NotAuthorized));
    assert_eq!(client.leave_round(Address(9), round_id), Err(Error::NotAParticipant));
    client.start_round(owner, round_id, at(0)).unwrap();
    client.start_round(player2, round_id, at(0)).unwrap();
    assert_eq!(client.leave_round(player2, round_id), Err(Error::RoundAlreadyStarted));
}

#[test]
fn leaving_and_rejoining_restores_the_lobby() {
    let env = Env::default();
    let (mut client, owner) = setup();
    seed_cards(&mut client, owner, 2);
    client.set_cards_per_round(owner, 2).unwrap();
    client.set_max_players(owner, 2).unwrap();
    let round_id = client.create_round(&env, owner, Some(Genre::Pop), 1, at(0)).unwrap();
    client.join_round(Address(2), round_id, at(0)).unwrap();
    assert_eq!(client.join_round(Address(3), round_id, at(0)), Err(Error::RoundFull));
    client.leave_round(Address(2), round_id).unwrap();
    client.join_round(Address(3), round_id, at(0)).unwrap();
    assert_eq!(client.get_round_players(round_id), vec![owner, Address(3)]);
}

#[test]
fn cancel_round_refunds_everyone_and_blocks_join_and_start() {
    let env = Env::default();
    let (mut client, owner) = setup();
    seed_cards(&mut client, owner, 2);
    client.set_cards_per_round(owner, 2).unwrap();
    let round_id = client.create_round(&env, owner, Some(Genre::Pop), 1, at(0)).unwrap();
    let player2 = Address(2);
    client.join_round(player2, round_id, at(0)).unwrap();

    client.cancel_round(owner, round_id, at(0)).unwrap();
    let expected = Event::RoundCancelled(RoundCancelled {
        round_id,
        cancelled_by: owner,
        refunded_players: vec![owner, player2],
        refund_per_player: 0,
    });
    assert!(client.events().contains(&expected));

    assert!(client.get_round(round_id).unwrap().is_cancelled);
    assert_eq!(client.get_open_rounds(0, 10).len(), 0);
    assert_eq!(client.join_round(Address(3), round_id, at(0)), Err(Error::RoundCancelled));
    assert_eq!(client.start_round(player2, round_id, at(0)), Err(Error::RoundCancelled));
    assert_eq!(client.cancel_round(owner, round_id, at(0)), Err(Error::RoundCancelled));
}

#[test]
fn anyone_can_cancel_only_after_lobby_timeout() {
    let env = Env::default();
    let (mut client, owner) = setup();
    seed_cards(&mut client, owner, 2);
    client.set_cards_per_round(owner, 2).unwrap();
    let round_id = client.create_round(&env, owner, Some(Genre::Pop), 1, at(1_000)).unwrap();
    let stranger = Address(99);

    assert_eq!(client.cancel_round(stranger, round_id, at(1_000)), Err(Error::NotAuthorized));
    assert_eq!(
        client.cancel_round(stranger, round_id, at(1_000 + LOBBY_TIMEOUT_SECONDS - 1)),
        Err(Error::NotAuthorized)
    );
    client.cancel_round(stranger, round_id, at(1_000 + LOBBY_TIMEOUT_SECONDS)).unwrap();
    assert!(client.get_round(round_id).unwrap().is_cancelled);
}

#[test]
fn cancel_round_refused_once_started() {
    let env = Env::default();
    let (mut client, owner) = setup();
    seed_cards(&mut client, owner, 2);
    client.set_cards_per_round(owner, 2).unwrap();
    let round_id = client.create_round(&env, owner, Some(Genre::Pop), 1, at(0)).unwrap();
    client.start_round(owner, round_id, at(0)).unwrap();
    assert_eq!(client.cancel_round(owner, round_id, at(0)), Err(Error::RoundAlreadyStarted));
}

// ---------------------------------------------------------------------------
// Rewards
// ---------------------------------------------------------------------------

#[test]
fn winner_claims_nft_reward_via_cross_contract_mint() {
    let env = Env::default();
    let game_address = Address(100);
    let nft_address = Address(200);
    let (mut client, owner) = setup();
    let mut nft = LyricsFlipNFT::new(
        owner,
        game_address,
        String::from("LyricsFlip"),
        String::from("LFLIP"),
        String::from("https://example.com/metadata/"),
    );

    assert_eq!(client.claim_reward(owner, Milestone::FirstWin), Err(Error::NftContractNotSet));
    client.set_nft_contract(owner, nft_address).unwrap();
    assert_eq!(client.claim_reward(owner, Milestone::FirstWin), Err(Error::MilestoneNotReached));

    seed_cards(&mut client, owner, 1);
    client.set_cards_per_round(owner, 1).unwrap();
    let round_id = client.create_round(&env, owner, Some(Genre::Pop), 1, at(0)).unwrap();
    client.start_round(owner, round_id, at(0)).unwrap();
    let c = client.next_card(round_id, at(0)).unwrap();
    assert_eq!(client.submit_answer(owner, round_id, Answer::Title(c.title.clone()), at(0)), Ok(true));
    client.finalize_round(owner, round_id, at(0)).unwrap();

    // The game hands back the NFT contract; its minter (the game) mints.
    assert_eq!(client.claim_reward(owner, Milestone::FirstWin), Ok(nft_address));
    let token_id = nft.mint(game_address, owner).unwrap();
    client.reward_minted(owner, Milestone::FirstWin, token_id);
    assert_eq!(token_id, 1);
    assert_eq!(nft.owner_of(1), Ok(owner));
    assert!(client.is_milestone_claimed(owner, Milestone::FirstWin));
    assert_eq!(client.claim_reward(owner, Milestone::FirstWin), Err(Error::MilestoneAlreadyClaimed));
    assert_eq!(nft.token_count(), 1);
    assert!(!client.is_milestone_claimed(owner, Milestone::Streak5));
    assert_eq!(client.claim_reward(owner, Milestone::TenWins), Err(Error::MilestoneNotReached));
}

// ---------------------------------------------------------------------------
// Error codes
// ---------------------------------------------------------------------------

#[test]
fn game_error_codes_are_stable() {
    let expected = [
        (Error::AlreadyInitialized, 1u32),
        (Error::NonExistingRound, 2),
        (Error::RoundAlreadyStarted, 3),
        (Error::NonExistingGenre, 4),
        (Error::RoundAlreadyJoined, 5),
        (Error::InvalidCardsPerRound, 6),
        (Error::ArtistCardsIsZero, 7),
        (Error::EmptyYearCards, 8),
        (Error::EmptyGenreCards, 9),
        (Error::RoundNotStarted, 10),
        (Error::RoundCompleted, 11),
        (Error::NotAParticipant, 12),
        (Error::AlreadyReady, 13),
        (Error::NotAuthorized, 14),
        (Error::AmountExceedsLimit, 15),
        (Error::LimitMustBeGreaterThanZero, 16),
        (Error::NonExistingCard, 17),
        (Error::RoundNotReady, 18),
        (Error::RoundAlreadyFinalized, 19),
        (Error::RoundCancelled, 20),
        (Error::RoundFull, 21),
        (Error::InvalidMaxPlayers, 22),
        (Error::NftContractNotSet, 23),
        (Error::MilestoneNotReached, 24),
        (Error::MilestoneAlreadyClaimed, 25),
        (Error::NotPendingOwner, 26),
    ];
    for (variant, code) in expected {
        assert_eq!(variant.code(), code, "{:?} was renumbered", variant);
    }
}

// ---------------------------------------------------------------------------
// Calls made with a realistic catalogue
// ---------------------------------------------------------------------------

const CATALOGUE_SIZE: u64 = 500;

fn setup_catalogue() -> (LyricsFlip, Address, Ledger) {
    let ledger = at(1_780_000_000);
    let (mut client, owner) = setup();
    for i in 0..CATALOGUE_SIZE {
        let c = Card {
            card_id: 0,
            genre: Genre::Pop,
            artist: format!("Artist {}", i),
            title: format!("Title {}", i),
            year: 1950 + (i % 70),
            lyrics: String::from("sample lyric line"),
        };
        client.add_card(owner, c).unwrap();
    }
    (client, owner, ledger)
}

#[test]
fn create_round_budget() {
    let env = Env::default();
    let (mut client, owner, ledger) = setup_catalogue();
    let round_id = client.create_round(&env, owner, Some(Genre::Pop), 42, ledger).unwrap();
    assert_eq!(round_id, 1);
}

#[test]
fn start_round_budget() {
    let env = Env::default();
    let (mut client, owner, ledger) = setup_catalogue();
    let round_id = client.create_round(&env, owner, Some(Genre::Pop), 42, ledger).unwrap();
    let mut players = Vec::new();
    for k in 1..DEFAULT_MAX_PLAYERS as u64 {
        let player = Address(1000 + k);
        client.join_round(player, round_id, ledger).unwrap();
        players.push(player);
    }
    for player in players.iter() {
        client.start_round(*player, round_id, ledger).unwrap();
    }
    // The last ready-up starts the round for all 8 players.
    client.start_round(owner, round_id, ledger).unwrap();
    assert!(client.get_round(round_id).unwrap().is_started);
    assert_eq!(client.get_players_round_count(round_id), DEFAULT_MAX_PLAYERS);
}

#[test]
fn build_question_card_budget() {
    let env = Env::default();
    let (client, _owner, ledger) = setup_catalogue();
    let c = client.get_card(1).unwrap();
    for kind in [QuestionKind::Title, QuestionKind::Artist, QuestionKind::Year] {
        assert!(client.build_question_card(&env, c.clone(), 7, kind, ledger).is_ok());
    }
}

#[test]
fn repeated_answer_is_ignored() {
    let env = Env::default();
    let (mut client, owner) = setup();
    seed_cards(&mut client, owner, 2);
    client.set_cards_per_round(owner, 2).unwrap();
    let round_id = client.create_round(&env, owner, Some(Genre::Pop), 1, at(0)).unwrap();
    client.start_round(owner, round_id, at(0)).unwrap();
    let c = client.next_card(round_id, at(10)).unwrap();
    assert_eq!(client.submit_answer(owner, round_id, Answer::Title(String::from("wrong")), at(12)), Ok(false));
    let stats = client.get_player_stat(owner);
    let scores = client.get_round_scores(round_id);
    let events = client.events().len();
    // Even the right answer no longer counts for this card.
    assert_eq!(client.submit_answer(owner, round_id, Answer::Title(c.title.clone()), at(13)), Ok(false));
    assert_eq!(client.get_player_stat(owner), stats);
    assert_eq!(client.get_round_scores(round_id), scores);
    assert_eq!(client.events().len(), events);
}

#[test]
fn scores_count_correct_answers_over_a_round() {
    let env = Env::default();
    let (mut client, owner) = setup();
    seed_cards(&mut client, owner, 3);
    client.set_cards_per_round(owner, 3).unwrap();
    let round_id = client.create_round(&env, owner, Some(Genre::Pop), 5, at(0)).unwrap();
    let player2 = Address(2);
    client.join_round(player2, round_id, at(0)).unwrap();
    client.start_round(owner, round_id, at(0)).unwrap();
    client.start_round(player2, round_id, at(0)).unwrap();
    let mut expected = (0u64, 0u64);
    for (k, t) in [(0u64, 100u64), (1, 120), (2, 140)] {
        let c = client.next_card(round_id, at(t)).unwrap();
        let right = k != 1;
        let a = if right { Answer::Year(c.year) } else { Answer::Year(c.year + 1) };
        assert_eq!(client.submit_answer(owner, round_id, a, at(t + 3)), Ok(right));
        if right {
            expected.0 += 1;
        }
        assert_eq!(client.submit_answer(player2, round_id, Answer::Artist(c.artist.clone()), at(t + 20)), Ok(false));
    }
    expected.1 = 0;
    assert_eq!(client.get_round_scores(round_id), vec![(owner, expected.0), (player2, expected.1)]);
}

#[test]
fn added_card_joins_its_artist_and_year_lists() {
    let env = Env::default();
    let (mut client, owner) = setup();
    seed_cards(&mut client, owner, 3);
    client.set_cards_per_round(owner, 1).unwrap();
    let c = card(Genre::Jazz, "Nina", "Feeling Good", 1965);
    client.add_card(owner, c.clone()).unwrap();
    assert_eq!(client.get_cards_count(), 4);
    assert_eq!(client.get_card(4), Ok(c.clone()));
    assert_eq!(client.get_genre_card_count(Genre::Jazz), 1);
    assert_eq!(client.get_genre_card_count(Genre::Pop), 3);
    assert_eq!(client.get_cards_of_artist(&env, String::from("Nina"), 9, at(0)), Ok(vec![c.clone()]));
    assert_eq!(client.get_cards_of_a_year(&env, 1965, 9, at(0)), Ok(vec![c]));
}
