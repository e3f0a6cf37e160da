//! LyricsFlip: the rules of a lyric-guessing game (rounds, cards, answers,
//! scoring, rewards) and of its reward NFT, as verified state machines.
//!
//! Contract storage is modelled by plain values: an account is an
//! [`Address`] (an opaque numeric handle), ledger facts arrive as a
//! [`Ledger`] value, and every entry point returns `Result` with the
//! contract's own error codes in place of a host panic.

pub mod errors;
pub mod events;
pub mod game;
pub mod laws;
pub mod nft;
pub mod question;
pub mod random;
pub mod scoring;
pub mod text;
pub mod types;
pub mod upgrade_fixture;
