//! Events published by the game contract.
use vstd::prelude::*;
use crate::types::{Address, Milestone, Role};

verus! {

#[derive(Clone, Copy, Debug, PartialEq, Eq, Structural)]
pub struct RoundCreated {
    pub round_id: u64,
    pub admin: Address,
    pub created_time: u64,
}

#[derive(Clone, Copy, Debug, PartialEq, Eq, Structural)]
pub struct RoundStarted {
    pub round_id: u64,
    pub admin: Address,
    pub start_time: u64,
}

#[derive(Clone, Copy, Debug, PartialEq, Eq, Structural)]
pub struct RoundJoined {
    pub round_id: u64,
    pub player: Address,
    pub joined_time: u64,
}

#[derive(Clone, Copy, Debug, PartialEq, Eq, Structural)]
pub struct PlayerReady {
    pub round_id: u64,
    pub player: Address,
    pub ready_time: u64,
}

/// The finalized round: its winners, and every player's final score in
/// player order.
#[derive(Debug, PartialEq, Eq)]
pub struct RoundCompleted {
    pub round_id: u64,
    pub winners: Vec<Address>,
    pub scores: Vec<(Address, u64)>,
}

#[derive(Clone, Copy, Debug, PartialEq, Eq, Structural)]
pub struct RoundLeft {
    pub round_id: u64,
    pub player: Address,
    pub refunded: i128,
}

#[derive(Debug, PartialEq, Eq)]
pub struct RoundCancelled {
    pub round_id: u64,
    pub cancelled_by: Address,
    /// Players whose wager was refunded (everyone still in the round).
    pub refunded_players: Vec<Address>,
    pub refund_per_player: i128,
}

#[derive(Clone, Copy, Debug, PartialEq, Eq, Structural)]
pub struct RewardClaimed {
    pub player: Address,
    pub milestone: Milestone,
    pub token_id: u128,
}

#[derive(Clone, Copy, Debug, PartialEq, Eq, Structural)]
pub struct RoleUpdated {
    pub address: Address,
    pub role: Role,
    pub enabled: bool,
}

#[derive(Clone, Copy, Debug, PartialEq, Eq, Structural)]
pub struct OwnershipTransferStarted {
    pub owner: Address,
    pub pending_owner: Address,
}

#[derive(Clone, Copy, Debug, PartialEq, Eq, Structural)]
pub struct OwnershipTransferred {
    pub old_owner: Address,
    pub new_owner: Address,
}

/// Every event the game contract publishes, in publication order.
#[derive(Debug, PartialEq, Eq)]
pub enum Event {
    RoundCreated(RoundCreated),
    RoundStarted(RoundStarted),
    RoundJoined(RoundJoined),
    PlayerReady(PlayerReady),
    RoundCompleted(RoundCompleted),
    RoundLeft(RoundLeft),
    RoundCancelled(RoundCancelled),
    RewardClaimed(RewardClaimed),
    RoleUpdated(RoleUpdated),
    OwnershipTransferStarted(OwnershipTransferStarted),
    OwnershipTransferred(OwnershipTransferred),
}

} // verus!
