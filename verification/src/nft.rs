//! The reward NFT contract: minter-gated minting with increasing token ids,
//! ownership and balances, per-token and per-operator approvals that expire
//! with the ledger sequence, metadata URIs, and a two-step ownership
//! transfer.
use vstd::prelude::*;
use std::collections::HashMap;
use vstd::string::StringExecFns;
use crate::text::{decimal, push_decimal};
use crate::types::{Address, Ledger};

verus! {

broadcast use vstd::std_specs::hash::group_hash_axioms;

/// Bumped on every release that changes the contract's code.
pub const VERSION: u32 = 1;

/// Errors of the NFT contract. Clients map on the numeric codes given by
/// [`Error::code`]: never renumber or reuse one.
#[derive(Clone, Copy, Debug, PartialEq, Eq, Structural)]
pub enum Error {
    /// Defensive only: a contract is initialized exactly once.
    AlreadyInitialized,
    NotMinter,
    /// Defensive only: token ids come from a counter, so they never collide.
    TokenAlreadyExists,
    TokenDoesNotExist,
    /// `from` does not own the token.
    IncorrectOwner,
    /// The spender or approver is neither the owner nor an approved operator.
    InsufficientApproval,
    /// `live_until_ledger` is in the past (and not 0 for a revoke).
    InvalidLiveUntilLedger,
    NotOwner,
    NotPendingOwner,
    BaseUriTooLong,
}

impl Error {
    pub open spec fn spec_code(self) -> u32 {
        match self {
            Error::AlreadyInitialized => 1,
            Error::NotMinter => 2,
            Error::TokenAlreadyExists => 3,
            Error::TokenDoesNotExist => 4,
            Error::IncorrectOwner => 5,
            Error::InsufficientApproval => 6,
            Error::InvalidLiveUntilLedger => 7,
            Error::NotOwner => 8,
            Error::NotPendingOwner => 9,
            Error::BaseUriTooLong => 10,
        }
    }

    /// The stable numeric code of this error.
    pub fn code(&self) -> (r: u32)
        ensures
            r == self.spec_code(),
    {
        match self {
            Error::AlreadyInitialized => 1,
            Error::NotMinter => 2,
            Error::TokenAlreadyExists => 3,
            Error::TokenDoesNotExist => 4,
            Error::IncorrectOwner => 5,
            Error::InsufficientApproval => 6,
            Error::InvalidLiveUntilLedger => 7,
            Error::NotOwner => 8,
            Error::NotPendingOwner => 9,
            Error::BaseUriTooLong => 10,
        }
    }
}

/// Distinct errors have distinct codes.
pub proof fn lemma_nft_error_codes_distinct(a: Error, b: Error)
    ensures
        a.spec_code() == b.spec_code() ==> a == b,
{
}

#[derive(Clone, Copy, Debug, PartialEq, Eq, Structural)]
pub struct NftMinted {
    pub token_id: u128,
    pub recipient: Address,
}

/// Emitted by `transfer` and `transfer_from`.
#[derive(Clone, Copy, Debug, PartialEq, Eq, Structural)]
pub struct Transfer {
    pub from: Address,
    pub to: Address,
    pub token_id: u128,
}

#[derive(Clone, Copy, Debug, PartialEq, Eq, Structural)]
pub struct Approve {
    pub approver: Address,
    pub token_id: u128,
    pub approved: Address,
    pub live_until_ledger: u32,
}

/// A `live_until_ledger` of 0 revokes.
#[derive(Clone, Copy, Debug, PartialEq, Eq, Structural)]
pub struct ApproveForAll {
    pub owner: Address,
    pub operator: Address,
    pub live_until_ledger: u32,
}

/// Every event the NFT contract publishes.
#[derive(Clone, Copy, Debug, PartialEq, Eq, Structural)]
pub enum NftEvent {
    NftMinted(NftMinted),
    Transfer(Transfer),
    Approve(Approve),
    ApproveForAll(ApproveForAll),
}

/// An approval that is valid up to and including `live_until_ledger`.
#[derive(Clone, Copy, Debug, PartialEq, Eq, Structural)]
pub struct Approval {
    pub approved: Address,
    pub live_until_ledger: u32,
}

/// The NFT contract's storage, as mathematical values.
pub struct NftState {
    pub owner: Address,
    pub pending_owner: Option<Address>,
    pub minter: Address,
    pub token_name: Seq<char>,
    pub token_symbol: Seq<char>,
    pub base_uri: Seq<char>,
    /// Token `i + 1` belongs to `token_owners[i]`.
    pub token_owners: Seq<Address>,
    /// Stored balance of each address (by handle).
    pub balances: Map<u64, u32>,
    /// The approval of token `i + 1`, if any (same order as `token_owners`).
    pub approvals: Seq<Option<Approval>>,
    /// Expiry of each (owner, operator) approval, keyed by [`operator_key`].
    pub operators: Map<u128, u32>,
    pub events: Seq<NftEvent>,
}

/// The key of an (owner, operator) pair.
pub open spec fn operator_key(owner: Address, operator: Address) -> u128 {
    (owner.0 * 0x1_0000_0000_0000_0000 + operator.0) as u128
}

/// Number of tokens `a` owns.
pub open spec fn owned_count(owners: Seq<Address>, a: Address) -> nat
    decreases owners.len(),
{
    if owners.len() == 0 {
        0
    } else {
        owned_count(owners.drop_last(), a) + if owners.last() == a { 1nat } else { 0nat }
    }
}

impl NftState {
    pub open spec fn token_count(self) -> nat {
        self.token_owners.len()
    }

    pub open spec fn exists_token(self, token_id: u128) -> bool {
        1 <= token_id <= self.token_owners.len()
    }

    pub open spec fn owner_of(self, token_id: u128) -> Address {
        self.token_owners[token_id - 1]
    }

    pub open spec fn balance_of(self, a: Address) -> u32 {
        if self.balances.contains_key(a.0) { self.balances[a.0] } else { 0 }
    }

    /// The address approved for `token_id` at ledger `sequence`, if any.
    pub open spec fn approved_at(self, token_id: u128, sequence: u32) -> Option<Address> {
        if self.exists_token(token_id) {
            match self.approvals[token_id - 1] {
                Some(a) => if a.live_until_ledger >= sequence { Some(a.approved) } else { None },
                None => None,
            }
        } else {
            None
        }
    }

    /// Whether `operator` may act for all of `owner`'s tokens at ledger
    /// `sequence`.
    pub open spec fn operator_at(self, owner: Address, operator: Address, sequence: u32) -> bool {
        let k = operator_key(owner, operator);
        self.operators.contains_key(k) && self.operators[k] >= sequence
    }

    /// Every stored balance counts exactly the tokens owned.
    pub open spec fn wf(self) -> bool {
        &&& self.approvals.len() == self.token_owners.len()
        &&& forall|a: Address| #[trigger] self.balance_of(a) == owned_count(self.token_owners, a)
    }

    pub open spec fn after_mint(self, recipient: Address) -> NftState {
        let id = (self.token_owners.len() + 1) as u128;
        NftState {
            token_owners: self.token_owners.push(recipient),
            approvals: self.approvals.push(None),
            balances: self.balances.insert(recipient.0, (self.balance_of(recipient) + 1) as u32),
            events: self.events.push(NftEvent::NftMinted(NftMinted { token_id: id, recipient })),
            ..self
        }
    }

    /// Token `token_id` moves from `from` to `to`, losing its approval.
    pub open spec fn after_transfer(self, from: Address, to: Address, token_id: u128) -> NftState {
        let i = token_id - 1;
        let moved_from = self.balances.insert(from.0, (self.balance_of(from) - 1) as u32);
        let to_balance = if moved_from.contains_key(to.0) { moved_from[to.0] } else { 0 };
        NftState {
            token_owners: self.token_owners.update(i, to),
            approvals: self.approvals.update(i, None),
            balances: moved_from.insert(to.0, (to_balance + 1) as u32),
            events: self.events.push(NftEvent::Transfer(Transfer { from, to, token_id })),
            ..self
        }
    }

    pub open spec fn after_approve(self, approver: Address, approved: Address, token_id: u128, live_until_ledger: u32) -> NftState {
        NftState {
            approvals: self.approvals.update(token_id - 1,
                if live_until_ledger == 0 { None } else { Some(Approval { approved, live_until_ledger }) }),
            events: self.events.push(NftEvent::Approve(Approve { approver, token_id, approved, live_until_ledger })),
            ..self
        }
    }

    pub open spec fn after_approve_for_all(self, owner: Address, operator: Address, live_until_ledger: u32) -> NftState {
        let k = operator_key(owner, operator);
        NftState {
            operators: if live_until_ledger == 0 { self.operators.remove(k) } else { self.operators.insert(k, live_until_ledger) },
            events: self.events.push(NftEvent::ApproveForAll(ApproveForAll { owner, operator, live_until_ledger })),
            ..self
        }
    }
}

/// Tokens, balances and approvals untouched: still well formed.
proof fn lemma_wf_same_tokens(s: NftState, t: NftState)
    requires
        s.wf(),
        t.token_owners == s.token_owners,
        t.balances == s.balances,
        t.approvals.len() == s.approvals.len(),
    ensures
        t.wf(),
{
    assert forall|a: Address| #[trigger] t.balance_of(a) == owned_count(t.token_owners, a) by {
        assert(s.balance_of(a) == owned_count(s.token_owners, a));
    }
}

proof fn lemma_owned_count_push(owners: Seq<Address>, x: Address, a: Address)
    ensures
        owned_count(owners.push(x), a) == owned_count(owners, a) + if x == a { 1nat } else { 0nat },
{
    assert(owners.push(x).drop_last() =~= owners);
}

/// Replacing one owner moves one token between the two counts.
pub proof fn lemma_owned_count_update(owners: Seq<Address>, i: int, x: Address, a: Address)
    requires
        0 <= i < owners.len(),
    ensures
        owned_count(owners.update(i, x), a) + (if owners[i] == a { 1nat } else { 0nat })
            == owned_count(owners, a) + (if x == a { 1nat } else { 0nat }),
    decreases owners.len(),
{
    let u = owners.update(i, x);
    if i == owners.len() - 1 {
        assert(u.drop_last() =~= owners.drop_last());
    } else {
        assert(u.drop_last() =~= owners.drop_last().update(i, x));
        lemma_owned_count_update(owners.drop_last(), i, x, a);
    }
}

/// Whoever owns a token owns at least one.
pub proof fn lemma_owned_count_positive(owners: Seq<Address>, i: int)
    requires
        0 <= i < owners.len(),
    ensures
        owned_count(owners, owners[i]) >= 1,
    decreases owners.len(),
{
    if i < owners.len() - 1 {
        lemma_owned_count_positive(owners.drop_last(), i);
    }
}

/// The NFT contract's state and entry points. Every entry point takes its
/// caller as already authenticated.
pub struct LyricsFlipNFT {
    owner: Address,
    pending_owner: Option<Address>,
    minter: Address,
    token_name: String,
    token_symbol: String,
    base_uri: String,
    token_owners: Vec<Address>,
    balances: HashMap<u64, u32>,
    approvals: Vec<Option<Approval>>,
    operators: HashMap<u128, u32>,
    events: Vec<NftEvent>,
}

impl View for LyricsFlipNFT {
    type V = NftState;

    closed spec fn view(&self) -> NftState {
        NftState {
            owner: self.owner,
            pending_owner: self.pending_owner,
            minter: self.minter,
            token_name: self.token_name@,
            token_symbol: self.token_symbol@,
            base_uri: self.base_uri@,
            token_owners: self.token_owners@,
            balances: self.balances@,
            approvals: self.approvals@,
            operators: self.operators@,
            events: self.events@,
        }
    }
}

/// Refuses an expiry ledger that has already passed.
fn assert_live_until(live_until_ledger: u32, ledger: Ledger) -> (r: Result<(), Error>)
    ensures
        r == if live_until_ledger < ledger.sequence { Err::<(), Error>(Error::InvalidLiveUntilLedger) } else { Ok(()) },
{
    if live_until_ledger < ledger.sequence {
        return Err(Error::InvalidLiveUntilLedger);
    }
    Ok(())
}

fn operator_key_of(owner: Address, operator: Address) -> (r: u128)
    ensures
        r == operator_key(owner, operator),
{
    (owner.0 as u128) * 0x1_0000_0000_0000_0000 + (operator.0 as u128)
}

impl LyricsFlipNFT {
    pub closed spec fn wf(&self) -> bool {
        self@.wf()
    }

    /// A well-formed contract has a well-formed state: every balance counts
    /// the tokens owned (see `laws::balances_count_owned_tokens`).
    pub proof fn lemma_view_wf(&self)
        requires
            self.wf(),
        ensures
            self@.wf(),
    {
    }

    /// A fresh contract: `owner` manages it and `minter` alone may mint.
    pub fn new(owner: Address, minter: Address, token_name: String, token_symbol: String, base_uri: String) -> (c: LyricsFlipNFT)
        ensures
            c.wf(),
            c@.owner == owner,
            c@.pending_owner is None,
            c@.minter == minter,
            c@.token_name == token_name@,
            c@.token_symbol == token_symbol@,
            c@.base_uri == base_uri@,
            c@.token_owners.len() == 0,
            c@.balances == Map::<u64, u32>::empty(),
            c@.operators == Map::<u128, u32>::empty(),
            c@.events.len() == 0,
    {
        let c = LyricsFlipNFT {
            owner,
            pending_owner: None,
            minter,
            token_name,
            token_symbol,
            base_uri,
            token_owners: Vec::new(),
            balances: HashMap::new(),
            approvals: Vec::new(),
            operators: HashMap::new(),
            events: Vec::new(),
        };
        assert(c@.balances =~= Map::<u64, u32>::empty());
        assert(c@.operators =~= Map::<u128, u32>::empty());
        c
    }

    /// The contract's code version.
    pub fn version() -> (r: u32)
        ensures
            r == VERSION,
    {
        VERSION
    }

    /// Minter-only. Mints the next token (ids count up from 1) to
    /// `recipient` and returns its id.
    pub fn mint(&mut self, caller: Address, recipient: Address) -> (r: Result<u128, Error>)
        requires
            old(self).wf(),
            old(self)@.balance_of(recipient) < u32::MAX,
        ensures
            final(self).wf(),
            r is Ok <==> caller == old(self)@.minter,
            r is Err ==> r == Err::<u128, Error>(Error::NotMinter) && final(self)@ == old(self)@,
            r matches Ok(id) ==> id == old(self)@.token_count() + 1 && final(self)@ == old(self)@.after_mint(recipient),
    {
        if caller != self.minter {
            return Err(Error::NotMinter);
        }
        let count = self.token_owners.len() as u128;
        let token_id = count + 1;
        if self.exists_token(token_id) {
            return Err(Error::TokenAlreadyExists);
        }
        self.token_owners.push(recipient);
        self.approvals.push(None);
        self.add_balance(recipient, true);
        self.events.push(NftEvent::NftMinted(NftMinted { token_id, recipient }));
        proof {
            let t = old(self)@.after_mint(recipient);
            assert(self@ == t);
            assert forall|a: Address| #[trigger] t.balance_of(a) == owned_count(t.token_owners, a) by {
                lemma_owned_count_push(old(self)@.token_owners, recipient, a);
                assert(old(self)@.balance_of(a) == owned_count(old(self)@.token_owners, a));
            }
        }
        Ok(token_id)
    }

    fn exists_token(&self, token_id: u128) -> (r: bool)
        ensures
            r == self@.exists_token(token_id),
            r ==> token_id <= self.token_owners.len(),
    {
        1 <= token_id && token_id <= self.token_owners.len() as u128
    }

    /// Adds one to (`up`) or takes one from the stored balance of `owner`.
    fn add_balance(&mut self, owner: Address, up: bool)
        requires
            up ==> old(self)@.balance_of(owner) < u32::MAX,
            !up ==> old(self)@.balance_of(owner) > 0,
        ensures
            final(self)@ == (NftState {
                balances: old(self)@.balances.insert(owner.0,
                    (if up { old(self)@.balance_of(owner) + 1 } else { old(self)@.balance_of(owner) - 1 }) as u32),
                ..old(self)@
            }),
    {
        let balance = self.balance(owner);
        let next = if up { balance + 1 } else { balance - 1 };
        self.balances.insert(owner.0, next);
    }

    /// The owner of `token_id`.
    pub fn owner_of(&self, token_id: u128) -> (r: Result<Address, Error>)
        ensures
            match r {
                Ok(a) => self@.exists_token(token_id) && a == self@.owner_of(token_id),
                Err(e) => !self@.exists_token(token_id) && e == Error::TokenDoesNotExist,
            },
    {
        if !self.exists_token(token_id) {
            return Err(Error::TokenDoesNotExist);
        }
        Ok(self.token_owners[(token_id - 1) as usize])
    }

    /// Number of tokens `owner` holds.
    pub fn balance(&self, owner: Address) -> (r: u32)
        ensures
            r == self@.balance_of(owner),
    {
        match self.balances.get(&owner.0) {
            Some(b) => *b,
            None => 0,
        }
    }

    /// Moves `token_id` from `from`, who must own it, to `to`.
    pub fn transfer(&mut self, from: Address, to: Address, token_id: u128) -> (r: Result<(), Error>)
        requires
            old(self).wf(),
            from != to ==> old(self)@.balance_of(to) < u32::MAX,
        ensures
            final(self).wf(),
            !old(self)@.exists_token(token_id) ==> r == Err::<(), Error>(Error::TokenDoesNotExist),
            old(self)@.exists_token(token_id) && old(self)@.owner_of(token_id) != from ==> r == Err::<(), Error>(Error::IncorrectOwner),
            r is Ok <==> old(self)@.exists_token(token_id) && old(self)@.owner_of(token_id) == from,
            r is Ok ==> final(self)@ == old(self)@.after_transfer(from, to, token_id),
            r is Err ==> final(self)@ == old(self)@,
    {
        self.do_transfer(from, to, token_id)
    }

    /// Transfers on behalf of `from` by a `spender` that is `from`, or is
    /// approved for the token or for all of `from`'s tokens at the ledger's
    /// sequence.
    pub fn transfer_from(&mut self, spender: Address, from: Address, to: Address, token_id: u128, ledger: Ledger) -> (r: Result<(), Error>)
        requires
            old(self).wf(),
            from != to ==> old(self)@.balance_of(to) < u32::MAX,
        ensures
            final(self).wf(),
            ({
                let s = old(self)@;
                let allowed = spender == from || s.approved_at(token_id, ledger.sequence) == Some(spender)
                    || s.operator_at(from, spender, ledger.sequence);
                &&& !allowed ==> r == Err::<(), Error>(Error::InsufficientApproval)
                &&& allowed && !s.exists_token(token_id) ==> r == Err::<(), Error>(Error::TokenDoesNotExist)
                &&& allowed && s.exists_token(token_id) && s.owner_of(token_id) != from ==> r == Err::<(), Error>(Error::IncorrectOwner)
                &&& (r is Ok <==> allowed && s.exists_token(token_id) && s.owner_of(token_id) == from)
            }),
            r is Ok ==> final(self)@ == old(self)@.after_transfer(from, to, token_id),
            r is Err ==> final(self)@ == old(self)@,
    {
        let is_token_approved = match self.get_approved(token_id, ledger) {
            Some(a) => a == spender,
            None => false,
        };
        if spender != from && !is_token_approved && !self.is_approved_for_all(from, spender, ledger) {
            return Err(Error::InsufficientApproval);
        }
        self.do_transfer(from, to, token_id)
    }

    fn do_transfer(&mut self, from: Address, to: Address, token_id: u128) -> (r: Result<(), Error>)
        requires
            old(self).wf(),
            from != to ==> old(self)@.balance_of(to) < u32::MAX,
        ensures
            final(self).wf(),
            !old(self)@.exists_token(token_id) ==> r == Err::<(), Error>(Error::TokenDoesNotExist),
            old(self)@.exists_token(token_id) && old(self)@.owner_of(token_id) != from ==> r == Err::<(), Error>(Error::IncorrectOwner),
            r is Ok <==> old(self)@.exists_token(token_id) && old(self)@.owner_of(token_id) == from,
            r is Ok ==> final(self)@ == old(self)@.after_transfer(from, to, token_id),
            r is Err ==> final(self)@ == old(self)@,
    {
        if !self.exists_token(token_id) {
            return Err(Error::TokenDoesNotExist);
        }
        let i = (token_id - 1) as usize;
        let owner = self.token_owners[i];
        if owner != from {
            return Err(Error::IncorrectOwner);
        }
        let ghost s = old(self)@;
        proof {
            lemma_owned_count_positive(s.token_owners, i as int);
            assert(s.balance_of(from) == owned_count(s.token_owners, from));
        }
        self.approvals.set(i, None);
        self.token_owners.set(i, to);
        self.add_balance(from, false);
        proof {
            if from != to {
                assert(self@.balance_of(to) == s.balance_of(to));
            } else {
                assert(self@.balance_of(to) == s.balance_of(from) - 1);
            }
        }
        self.add_balance(to, true);
        self.events.push(NftEvent::Transfer(Transfer { from, to, token_id }));
        proof {
            let t = s.after_transfer(from, to, token_id);
            assert(self@.balances =~= t.balances);
            assert(self@ == t);
            assert forall|a: Address| #[trigger] t.balance_of(a) == owned_count(t.token_owners, a) by {
                lemma_owned_count_update(s.token_owners, i as int, to, a);
                assert(s.balance_of(a) == owned_count(s.token_owners, a));
            }
        }
        Ok(())
    }

    /// Approves `approved` to transfer `token_id` until `live_until_ledger`
    /// (0 revokes). `approver` must be the owner or an operator approved
    /// for all of the owner's tokens.
    pub fn approve(&mut self, approver: Address, approved: Address, token_id: u128, live_until_ledger: u32, ledger: Ledger) -> (r: Result<(), Error>)
        requires
            old(self).wf(),
        ensures
            final(self).wf(),
            ({
                let s = old(self)@;
                &&& !s.exists_token(token_id) ==> r == Err::<(), Error>(Error::TokenDoesNotExist)
                &&& s.exists_token(token_id) && approver != s.owner_of(token_id)
                    && !s.operator_at(s.owner_of(token_id), approver, ledger.sequence)
                    ==> r == Err::<(), Error>(Error::InsufficientApproval)
                &&& s.exists_token(token_id) && (approver == s.owner_of(token_id)
                    || s.operator_at(s.owner_of(token_id), approver, ledger.sequence))
                    ==> if live_until_ledger != 0 && live_until_ledger < ledger.sequence {
                        r == Err::<(), Error>(Error::InvalidLiveUntilLedger)
                    } else {
                        r is Ok
                    }
            }),
            r is Ok ==> final(self)@ == old(self)@.after_approve(approver, approved, token_id, live_until_ledger),
            r is Err ==> final(self)@ == old(self)@,
    {
        if !self.exists_token(token_id) {
            return Err(Error::TokenDoesNotExist);
        }
        let i = (token_id - 1) as usize;
        let owner = self.token_owners[i];
        if approver != owner && !self.is_approved_for_all(owner, approver, ledger) {
            return Err(Error::InsufficientApproval);
        }
        if live_until_ledger == 0 {
            self.approvals.set(i, None);
        } else {
            assert_live_until(live_until_ledger, ledger)?;
            self.approvals.set(i, Some(Approval { approved, live_until_ledger }));
        }
        self.events.push(NftEvent::Approve(Approve { approver, token_id, approved, live_until_ledger }));
        proof {
            let t = old(self)@.after_approve(approver, approved, token_id, live_until_ledger);
            assert(self@.approvals =~= t.approvals);
            assert(self@ == t);
            lemma_wf_same_tokens(old(self)@, t);
        }
        Ok(())
    }

    /// Approves `operator` for all of `owner`'s tokens until
    /// `live_until_ledger`; 0 revokes.
    pub fn approve_for_all(&mut self, owner: Address, operator: Address, live_until_ledger: u32, ledger: Ledger) -> (r: Result<(), Error>)
        requires
            old(self).wf(),
        ensures
            final(self).wf(),
            r is Err <==> live_until_ledger != 0 && live_until_ledger < ledger.sequence,
            r is Err ==> r == Err::<(), Error>(Error::InvalidLiveUntilLedger) && final(self)@ == old(self)@,
            r is Ok ==> final(self)@ == old(self)@.after_approve_for_all(owner, operator, live_until_ledger),
    {
        let key = operator_key_of(owner, operator);
        if live_until_ledger == 0 {
            self.operators.remove(&key);
        } else {
            assert_live_until(live_until_ledger, ledger)?;
            self.operators.insert(key, live_until_ledger);
        }
        self.events.push(NftEvent::ApproveForAll(ApproveForAll { owner, operator, live_until_ledger }));
        proof {
            let t = old(self)@.after_approve_for_all(owner, operator, live_until_ledger);
            assert(self@.operators =~= t.operators);
            assert(self@ == t);
            lemma_wf_same_tokens(old(self)@, t);
        }
        Ok(())
    }

    /// The address approved for `token_id` at the ledger's sequence, if
    /// any.
    pub fn get_approved(&self, token_id: u128, ledger: Ledger) -> (r: Option<Address>)
        requires
            self.wf(),
        ensures
            r == self@.approved_at(token_id, ledger.sequence),
    {
        if !self.exists_token(token_id) {
            return None;
        }
        match self.approvals[(token_id - 1) as usize] {
            Some(a) => if a.live_until_ledger >= ledger.sequence { Some(a.approved) } else { None },
            None => None,
        }
    }

    /// Whether `operator` may act for all of `owner`'s tokens at the
    /// ledger's sequence.
    pub fn is_approved_for_all(&self, owner: Address, operator: Address, ledger: Ledger) -> (r: bool)
        ensures
            r == self@.operator_at(owner, operator, ledger.sequence),
    {
        let key = operator_key_of(owner, operator);
        match self.operators.get(&key) {
            Some(live_until) => *live_until >= ledger.sequence,
            None => false,
        }
    }

    pub fn token_name(&self) -> (r: String)
        ensures
            r@ == self@.token_name,
    {
        self.token_name.clone()
    }

    pub fn token_symbol(&self) -> (r: String)
        ensures
            r@ == self@.token_symbol,
    {
        self.token_symbol.clone()
    }

    pub fn base_uri(&self) -> (r: String)
        ensures
            r@ == self@.base_uri,
    {
        self.base_uri.clone()
    }

    /// Number of tokens minted.
    pub fn token_count(&self) -> (r: u128)
        ensures
            r == self@.token_count(),
    {
        self.token_owners.len() as u128
    }

    /// The metadata URI of `token_id`: the base URI followed by the token id
    /// in decimal.
    pub fn token_uri(&self, token_id: u128) -> (r: Result<String, Error>)
        ensures
            match r {
                Ok(uri) => self@.exists_token(token_id) && uri@ == self@.base_uri + decimal(token_id as nat),
                Err(e) => !self@.exists_token(token_id) && e == Error::TokenDoesNotExist,
            },
    {
        if !self.exists_token(token_id) {
            return Err(Error::TokenDoesNotExist);
        }
        let mut uri = self.base_uri.clone();
        push_decimal(&mut uri, token_id);
        Ok(uri)
    }

    /// Owner-only. Replaces the base of every token's URI.
    pub fn set_base_uri(&mut self, caller: Address, base_uri: String) -> (r: Result<(), Error>)
        requires
            old(self).wf(),
        ensures
            final(self).wf(),
            r is Ok <==> caller == old(self)@.owner,
            r is Err ==> r == Err::<(), Error>(Error::NotOwner) && final(self)@ == old(self)@,
            r is Ok ==> final(self)@ == (NftState { base_uri: base_uri@, ..old(self)@ }),
    {
        if caller != self.owner {
            return Err(Error::NotOwner);
        }
        self.base_uri = base_uri;
        proof { lemma_wf_same_tokens(old(self)@, self@); }
        Ok(())
    }

    /// The address allowed to mint.
    pub fn minter(&self) -> (r: Address)
        ensures
            r == self@.minter,
    {
        self.minter
    }

    /// Owner-only. Hands the minting right to `minter`.
    pub fn set_minter(&mut self, caller: Address, minter: Address) -> (r: Result<(), Error>)
        requires
            old(self).wf(),
        ensures
            final(self).wf(),
            r is Ok <==> caller == old(self)@.owner,
            r is Err ==> r == Err::<(), Error>(Error::NotOwner) && final(self)@ == old(self)@,
            r is Ok ==> final(self)@ == (NftState { minter, ..old(self)@ }),
    {
        if caller != self.owner {
            return Err(Error::NotOwner);
        }
        self.minter = minter;
        proof { lemma_wf_same_tokens(old(self)@, self@); }
        Ok(())
    }

    pub fn owner(&self) -> (r: Address)
        ensures
            r == self@.owner,
    {
        self.owner
    }

    pub fn pending_owner(&self) -> (r: Option<Address>)
        ensures
            r == self@.pending_owner,
    {
        self.pending_owner
    }

    /// Step one of an ownership transfer: `new_owner` must then call
    /// `accept_ownership`.
    pub fn transfer_ownership(&mut self, caller: Address, new_owner: Address) -> (r: Result<(), Error>)
        requires
            old(self).wf(),
        ensures
            final(self).wf(),
            r is Ok <==> caller == old(self)@.owner,
            r is Err ==> r == Err::<(), Error>(Error::NotOwner) && final(self)@ == old(self)@,
            r is Ok ==> final(self)@ == (NftState { pending_owner: Some(new_owner), ..old(self)@ }),
    {
        if caller != self.owner {
            return Err(Error::NotOwner);
        }
        self.pending_owner = Some(new_owner);
        proof { lemma_wf_same_tokens(old(self)@, self@); }
        Ok(())
    }

    /// Completes an ownership transfer started by the owner.
    pub fn accept_ownership(&mut self, caller: Address) -> (r: Result<(), Error>)
        requires
            old(self).wf(),
        ensures
            final(self).wf(),
            r is Ok <==> old(self)@.pending_owner == Some(caller),
            r is Err ==> r == Err::<(), Error>(Error::NotPendingOwner) && final(self)@ == old(self)@,
            r is Ok ==> final(self)@ == (NftState { owner: caller, pending_owner: None, ..old(self)@ }),
    {
        if self.pending_owner != Some(caller) {
            return Err(Error::NotPendingOwner);
        }
        self.owner = caller;
        self.pending_owner = None;
        proof { lemma_wf_same_tokens(old(self)@, self@); }
        Ok(())
    }

    /// Owner-only gate for replacing the contract's code, which keeps all
    /// storage: on `Ok` the new code may be installed.
    pub fn upgrade(&self, caller: Address) -> (r: Result<(), Error>)
        ensures
            r is Ok <==> caller == self@.owner,
            r is Err ==> r == Err::<(), Error>(Error::NotOwner),
    {
        if caller != self.owner {
            return Err(Error::NotOwner);
        }
        Ok(())
    }

    /// The events published so far, oldest first.
    pub fn events(&self) -> (r: &Vec<NftEvent>)
        ensures
            r@ == self@.events,
    {
        &self.events
    }
}

} // verus!
