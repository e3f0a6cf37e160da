use lyricsflip::errors::Error;
use lyricsflip::question::option_value_of;
use lyricsflip::random::{draw_from_digest, get_random_numbers};
use lyricsflip::scoring::determine_round_winners;
use lyricsflip::text::{contains_string, decimal_string, push_decimal, shuffle_strings};
use lyricsflip::types::{Address, Card, Genre, Ledger, PlayerStats, QuestionKind};
use soroban_sdk::Env;

fn ledger(sequence: u32, timestamp: u64) -> Ledger {
    Ledger { timestamp, sequence }
}

fn strings(items: &[&str]) -> Vec<String> {
    items.iter().map(|s| String::from(*s)).collect()
}

#[test]
fn random_numbers_follow_the_sha256_draws() {
    let env = Env::default();
    // Draw i hashes seed, sequence, timestamp and i (eight big-endian bytes
    // each); step i of the shuffle swaps place i with place
    // i + (the first eight digest bytes modulo limit - i).
    assert_eq!(get_random_numbers(&env, 42, 3, 10, false, ledger(0, 0)), Ok(vec![7, 5, 3]));
    assert_eq!(get_random_numbers(&env, 42, 3, 10, true, ledger(0, 0)), Ok(vec![6, 4, 2]));
    assert_eq!(get_random_numbers(&env, 42, 3, 10, false, ledger(5, 1000)), Ok(vec![6, 1, 4]));
    assert_eq!(get_random_numbers(&env, 1, 2, 2, false, ledger(0, 0)), Ok(vec![2, 1]));
}

#[test]
fn random_numbers_cover_the_whole_range_when_asked() {
    let env = Env::default();
    assert_eq!(get_random_numbers(&env, 7, 5, 5, false, ledger(0, 0)), Ok(vec![1, 5, 4, 2, 3]));
    let all = get_random_numbers(&env, 12345, 50, 50, true, ledger(0, 0)).unwrap();
    let mut sorted = all.clone();
    sorted.sort();
    assert_eq!(sorted, (0..50).collect::<Vec<u64>>());
}

#[test]
fn random_numbers_refuse_impossible_requests() {
    let env = Env::default();
    assert_eq!(get_random_numbers(&env, 1, 3, 2, false, ledger(0, 0)), Err(Error::AmountExceedsLimit));
    assert_eq!(get_random_numbers(&env, 1, 0, 0, false, ledger(0, 0)), Err(Error::LimitMustBeGreaterThanZero));
    assert_eq!(get_random_numbers(&env, 1, 0, 4, false, ledger(0, 0)), Ok(vec![]));
}

#[test]
fn decimal_rendering() {
    assert_eq!(decimal_string(0), "0");
    assert_eq!(decimal_string(7), "7");
    assert_eq!(decimal_string(2018), "2018");
    assert_eq!(decimal_string(u128::MAX), u128::MAX.to_string());
    let mut s = String::from("ipfs://cid/");
    push_decimal(&mut s, 42);
    assert_eq!(s, "ipfs://cid/42");
}

#[test]
fn membership_of_strings() {
    let v = strings(&["a", "bb", "c"]);
    assert!(contains_string(&v, &String::from("bb")));
    assert!(!contains_string(&v, &String::from("b")));
    assert!(!contains_string(&Vec::new(), &String::from("a")));
}

#[test]
fn shuffle_follows_the_generator() {
    assert_eq!(shuffle_strings(strings(&["a", "b", "c", "d"]), 0), strings(&["b", "c", "a", "d"]));
    assert_eq!(shuffle_strings(strings(&["a", "b", "c", "d"]), 42), strings(&["c", "d", "a", "b"]));
    assert_eq!(shuffle_strings(strings(&["a", "b", "c", "d"]), u64::MAX), strings(&["a", "b", "d", "c"]));
    assert_eq!(shuffle_strings(strings(&["x"]), 5), strings(&["x"]));
    assert_eq!(shuffle_strings(Vec::new(), 5), Vec::<String>::new());
}

#[test]
fn winners_by_score_then_time() {
    let a = Address(1);
    let b = Address(2);
    let c = Address(3);
    let players = vec![a, b, c];
    // Highest score wins.
    assert_eq!(determine_round_winners(&players, &vec![2, 1, 0], &vec![9, 1, 1]), vec![a]);
    // Equal scores: the lower total answer time wins.
    assert_eq!(determine_round_winners(&players, &vec![2, 2, 1], &vec![9, 4, 1]), vec![b]);
    // Equal score and time: co-winners, in player order.
    assert_eq!(determine_round_winners(&players, &vec![2, 1, 2], &vec![5, 1, 5]), vec![a, c]);
    // Nobody scored: no winner.
    assert_eq!(determine_round_winners(&players, &vec![0, 0, 0], &vec![1, 2, 3]), Vec::<Address>::new());
    assert_eq!(determine_round_winners(&vec![], &vec![], &vec![]), Vec::<Address>::new());
}

#[test]
fn option_values_by_kind() {
    let c = Card {
        card_id: 3,
        genre: Genre::Rock,
        artist: String::from("Queen"),
        title: String::from("Bohemian Rhapsody"),
        year: 1975,
        lyrics: String::from("Is this the real life?"),
    };
    assert_eq!(option_value_of(QuestionKind::Title, &c), "Bohemian Rhapsody");
    assert_eq!(option_value_of(QuestionKind::Artist, &c), "Queen");
    assert_eq!(option_value_of(QuestionKind::Year, &c), "1975");
}

#[test]
fn fresh_statistics_are_zero() {
    let z = PlayerStats::zero();
    assert_eq!((z.total_rounds, z.rounds_won, z.current_streak, z.max_streak), (0, 0, 0, 0));
}

#[test]
fn draws_read_the_first_eight_digest_bytes() {
    let mut digest = vec![0u8; 32];
    digest[6] = 1; // the first eight bytes read 256
    digest[31] = 0xff; // bytes past the eighth are ignored
    assert_eq!(draw_from_digest(&digest, 7, true), 256 % 7);
    assert_eq!(draw_from_digest(&digest, 7, false), 256 % 7 + 1);
    let all = vec![0xffu8; 32];
    assert_eq!(draw_from_digest(&all, u64::MAX, true), 0);
    assert_eq!(draw_from_digest(&all, 10, false), u64::MAX % 10 + 1);
}
