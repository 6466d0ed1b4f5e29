use vstd::prelude::*;

verus! {

/// Identifier of a property pool; pools are numbered densely from 0.
pub type PoolId = u32;

/// A Stellar address (account `G...` or contract `C...`) as a plain value: the
/// 56 ASCII characters of its strkey, packed big-endian into seven words.
#[derive(Clone, Copy, Debug, PartialEq, Eq, Structural, Hash)]
pub struct AddressKey(pub u64, pub u64, pub u64, pub u64, pub u64, pub u64, pub u64);

/// Errors an entry point can refuse a request with.
#[derive(Clone, Copy, Debug, PartialEq, Eq, Structural)]
pub enum Error {
    AlreadyInitialized,
    NotInitialized,
    InsufficientShares,
    NoSharesStaked,
    InvalidAmount,
    /// Kept for a stable numbering of the errors; no entry point returns it.
    /// An admin-only call without the admin's signature is aborted by the
    /// host when the admin's authorization is demanded.
    NotAdmin,
    ContractPaused,
    BelowMinimumDeposit,
    ExceedsMaxStake,
    CannotRecoverProtocolToken,
    StillLocked,
    InvalidFeeBps,
    FeeCollectorNotSet,
    ArithmeticOverflow,
    PoolNotFound,
    PoolPaused,
    PoolNotEmpty,
    TooManyPools,
}

/// One staker's holding in one pool.
#[derive(Clone, Copy, Debug, PartialEq, Eq, Structural)]
pub struct Position {
    pub shares: i128,
    pub reward_debt: i128,
}

/// One property pool: its tokens, its manager and its reward accounting.
#[derive(Clone, Copy, Debug, PartialEq, Eq, Structural)]
pub struct Pool {
    pub manager: AddressKey,
    pub share_token: AddressKey,
    pub reward_token: AddressKey,
    pub total_shares: i128,
    pub acc_reward_per_share: i128,
    pub paused: bool,
}

/// The contract-wide settings kept in instance storage, with the values they
/// read as when never written (`false`, `0`, `None`).
#[derive(Clone, Copy, Debug)]
pub struct Config {
    pub initialized: bool,
    pub admin: Option<AddressKey>,
    pub paused: bool,
    pub minimum_deposit: i128,
    pub lockup_duration: u64,
    pub management_fee_bps: u32,
    pub fee_collector: Option<AddressKey>,
    pub next_pool_id: PoolId,
}

/// Largest management fee: 10000 basis points, i.e. 100%.
pub const MAX_FEE_BPS: u32 = 10_000;

impl Config {
    /// What every reachable configuration satisfies: an admin exists exactly
    /// once the contract is initialized, the fee never exceeds 100%, the
    /// minimum deposit is not negative, and pools are only created once the
    /// contract is initialized, which creates pool 0.
    pub open spec fn wf(self) -> bool {
        &&& self.initialized <==> self.admin is Some
        &&& self.management_fee_bps <= MAX_FEE_BPS
        &&& self.minimum_deposit >= 0
        &&& self.initialized ==> self.next_pool_id >= 1
        &&& !self.initialized ==> self.next_pool_id == 0
    }
}

/// Events the contract publishes.
#[derive(Clone, Copy, Debug, PartialEq, Eq, Structural)]
pub enum Event {
    PoolCreated { pool_id: PoolId, manager: AddressKey },
    ManagerChanged { pool_id: PoolId, manager: AddressKey },
    PoolPauseChanged { pool_id: PoolId, paused: bool },
    ContractPaused { paused: bool },
    Deposited { pool_id: PoolId, user: AddressKey, amount: i128 },
    Distributed { pool_id: PoolId, sender: AddressKey, amount: i128 },
    Claimed { pool_id: PoolId, user: AddressKey, amount: i128 },
    Withdrawn { pool_id: PoolId, user: AddressKey, amount: i128 },
}

/// A host action an entry point performs, in order.
#[derive(Clone, Copy, Debug, PartialEq, Eq, Structural)]
pub enum Effect {
    /// The address must have authorized the invocation; the host aborts it otherwise.
    RequireAuth { address: AddressKey },
    /// Move `amount` of `token` from `from` to `to`; the host aborts on failure.
    Transfer { token: AddressKey, from: AddressKey, to: AddressKey, amount: i128 },
    /// Publish an event.
    Emit { event: Event },
}

/// What an entry point does: the host effects in the order it performs them,
/// then its result.  A refused request (`Err`) writes nothing: the host rolls
/// the invocation back, effects included.
pub struct Outcome<T> {
    pub effects: Vec<Effect>,
    pub result: Result<T, Error>,
}

impl<T> Outcome<T> {
    /// The outcome performs exactly `effects` and returns `result`.
    pub open spec fn is(self, effects: Seq<Effect>, result: Result<T, Error>) -> bool {
        self.effects@ == effects && self.result == result
    }
}

} // verus!
