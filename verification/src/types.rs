use vstd::prelude::*;

verus! {

/// An account, identified by an opaque numeric handle.
#[derive(Clone, Copy, Debug, PartialEq, Eq, Structural)]
pub struct Address(pub u64);

/// Ledger facts an entry point may read: the close time (seconds) and the
/// ledger sequence number.
#[derive(Clone, Copy, Debug, PartialEq, Eq, Structural)]
pub struct Ledger {
    pub timestamp: u64,
    pub sequence: u32,
}

#[derive(Clone, Copy, Debug, PartialEq, Eq, Structural)]
pub enum Genre {
    HipHop,
    Pop,
    Rock,
    RnB,
    Electronic,
    Classical,
    Jazz,
    Country,
    Blues,
    Reggae,
    Afrobeat,
    Gospel,
    Folk,
}

/// NFT reward milestones a player can claim once each via `claim_reward`.
#[derive(Clone, Copy, Debug, PartialEq, Eq, Structural)]
pub enum Milestone {
    /// At least one round won.
    FirstWin,
    /// A streak of at least 5 correct answers.
    Streak5,
    /// At least 10 rounds won.
    TenWins,
}

/// Which attribute the options of a `QuestionCard` represent.
#[derive(Clone, Copy, Debug, PartialEq, Eq, Structural)]
pub enum QuestionKind {
    Title,
    Artist,
    Year,
}

/// The single administrative role.
#[derive(Clone, Copy, Debug, PartialEq, Eq, Structural)]
pub enum Role {
    Admin,
}

#[derive(Clone, Copy, Debug, PartialEq, Eq, Structural)]
pub struct PlayerStats {
    pub total_rounds: u64,
    pub rounds_won: u64,
    pub current_streak: u64,
    pub max_streak: u64,
}

impl PlayerStats {
    pub open spec fn spec_zero() -> PlayerStats {
        PlayerStats { total_rounds: 0, rounds_won: 0, current_streak: 0, max_streak: 0 }
    }

    /// All counters at zero: the statistics of a player who never played.
    pub fn zero() -> (r: PlayerStats)
        ensures
            r == PlayerStats::spec_zero(),
    {
        PlayerStats { total_rounds: 0, rounds_won: 0, current_streak: 0, max_streak: 0 }
    }
}

#[derive(Clone, Copy, Debug, PartialEq, Eq, Structural)]
pub struct Round {
    pub round_id: u64,
    pub admin: Address,
    pub genre: Genre,
    pub wager_amount: i128,
    pub start_time: u64,
    pub is_started: bool,
    pub is_completed: bool,
    pub end_time: u64,
    pub next_card_index: u32,
    pub is_cancelled: bool,
}

#[derive(Debug, PartialEq, Eq)]
pub struct Card {
    pub card_id: u64,
    pub genre: Genre,
    pub artist: String,
    pub title: String,
    pub year: u64,
    pub lyrics: String,
}

impl Clone for Card {
    fn clone(&self) -> (r: Card)
        ensures
            r == *self,
    {
        Card {
            card_id: self.card_id,
            genre: self.genre,
            artist: self.artist.clone(),
            title: self.title.clone(),
            year: self.year,
            lyrics: self.lyrics.clone(),
        }
    }
}

/// A player's answer to the current card.
#[derive(Debug, PartialEq, Eq)]
pub enum Answer {
    Artist(String),
    Year(u64),
    Title(String),
}

#[derive(Debug, PartialEq, Eq)]
pub struct QuestionCard {
    pub lyric: String,
    pub timestamp: u64,
    /// Which attribute the options represent (Title / Artist / Year).
    pub kind: QuestionKind,
    pub option_one: String,
    pub option_two: String,
    pub option_three: String,
    pub option_four: String,
}

} // verus!
