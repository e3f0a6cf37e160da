use vstd::prelude::*;

verus! {

/// Errors of the game contract. Clients map on the numeric codes given by
/// [`Error::code`], which are part of the public ABI: never renumber or
/// reuse one.
#[derive(Clone, Copy, Debug, PartialEq, Eq, Structural)]
pub enum Error {
    /// Defensive only: a contract is initialized exactly once.
    AlreadyInitialized,
    NonExistingRound,
    RoundAlreadyStarted,
    NonExistingGenre,
    RoundAlreadyJoined,
    InvalidCardsPerRound,
    ArtistCardsIsZero,
    EmptyYearCards,
    EmptyGenreCards,
    RoundNotStarted,
    RoundCompleted,
    NotAParticipant,
    AlreadyReady,
    NotAuthorized,
    AmountExceedsLimit,
    LimitMustBeGreaterThanZero,
    RoundNotReady,
    RoundAlreadyFinalized,
    NonExistingCard,
    RoundCancelled,
    RoundFull,
    InvalidMaxPlayers,
    NftContractNotSet,
    MilestoneNotReached,
    MilestoneAlreadyClaimed,
    NotPendingOwner,
}

impl Error {
    pub open spec fn spec_code(self) -> u32 {
        match self {
            Error::AlreadyInitialized => 1,
            Error::NonExistingRound => 2,
            Error::RoundAlreadyStarted => 3,
            Error::NonExistingGenre => 4,
            Error::RoundAlreadyJoined => 5,
            Error::InvalidCardsPerRound => 6,
            Error::ArtistCardsIsZero => 7,
            Error::EmptyYearCards => 8,
            Error::EmptyGenreCards => 9,
            Error::RoundNotStarted => 10,
            Error::RoundCompleted => 11,
            Error::NotAParticipant => 12,
            Error::AlreadyReady => 13,
            Error::NotAuthorized => 14,
            Error::AmountExceedsLimit => 15,
            Error::LimitMustBeGreaterThanZero => 16,
            Error::NonExistingCard => 17,
            Error::RoundNotReady => 18,
            Error::RoundAlreadyFinalized => 19,
            Error::RoundCancelled => 20,
            Error::RoundFull => 21,
            Error::InvalidMaxPlayers => 22,
            Error::NftContractNotSet => 23,
            Error::MilestoneNotReached => 24,
            Error::MilestoneAlreadyClaimed => 25,
            Error::NotPendingOwner => 26,
        }
    }

    /// The stable numeric code of this error.
    pub fn code(&self) -> (r: u32)
        ensures
            r == self.spec_code(),
    {
        match self {
            Error::AlreadyInitialized => 1,
            Error::NonExistingRound => 2,
            Error::RoundAlreadyStarted => 3,
            Error::NonExistingGenre => 4,
            Error::RoundAlreadyJoined => 5,
            Error::InvalidCardsPerRound => 6,
            Error::ArtistCardsIsZero => 7,
            Error::EmptyYearCards => 8,
            Error::EmptyGenreCards => 9,
            Error::RoundNotStarted => 10,
            Error::RoundCompleted => 11,
            Error::NotAParticipant => 12,
            Error::AlreadyReady => 13,
            Error::NotAuthorized => 14,
            Error::AmountExceedsLimit => 15,
            Error::LimitMustBeGreaterThanZero => 16,
            Error::NonExistingCard => 17,
            Error::RoundNotReady => 18,
            Error::RoundAlreadyFinalized => 19,
            Error::RoundCancelled => 20,
            Error::RoundFull => 21,
            Error::InvalidMaxPlayers => 22,
            Error::NftContractNotSet => 23,
            Error::MilestoneNotReached => 24,
            Error::MilestoneAlreadyClaimed => 25,
            Error::NotPendingOwner => 26,
        }
    }
}

/// Distinct errors have distinct codes.
pub proof fn lemma_error_codes_distinct(a: Error, b: Error)
    ensures
        a.spec_code() == b.spec_code() ==> a == b,
{
}

} // verus!
