use vstd::prelude::*;
use crate::math::{
    accumulated, accumulated_spec, fee_spec, fits_i128, pending, pending_spec, reward_increase,
    reward_increase_spec,
};
use crate::types::{AddressKey, Config, Effect, Error, Event, Outcome, Pool, PoolId, Position, MAX_FEE_BPS};

verus! {

/// The distribution contract.  Each associated function is one entry point:
/// it takes the stored values the entry point reads and its arguments, and
/// returns what the entry point does.
pub struct DistributionContract;

// ── Shared checks ────────────────────────────────────────────────

/// Loading a pool: refused before initialization and for a pool that does not exist.
pub open spec fn load_pool_spec(config: Config, stored: Option<Pool>) -> Result<Pool, Error> {
    if !config.initialized {
        Err(Error::NotInitialized)
    } else {
        match stored {
            Some(pool) => Ok(pool),
            None => Err(Error::PoolNotFound),
        }
    }
}

/// Claimable reward of a position in a pool; an empty position has none.
pub open spec fn pool_pending_spec(pool: Pool, position: Position) -> Result<i128, Error> {
    if position.shares == 0 {
        Ok(0)
    } else {
        pending_spec(
            position.shares as int,
            pool.acc_reward_per_share as int,
            position.reward_debt as int,
        )
    }
}

/// Claimable reward of a position in a stored pool: refused as loading the
/// pool is.
pub open spec fn get_pool_pending_spec(config: Config, stored: Option<Pool>, position: Position) -> Result<i128, Error> {
    match load_pool_spec(config, stored) {
        Ok(pool) => pool_pending_spec(pool, position),
        Err(e) => Err(e),
    }
}

/// The transfer that pays out `amount` of a pool's reward token to `user`,
/// when there is anything to pay.
pub open spec fn payout_effects(pool: Pool, this: AddressKey, user: AddressKey, amount: i128) -> Seq<Effect> {
    if amount > 0 {
        seq![Effect::Transfer { token: pool.reward_token, from: this, to: user, amount }]
    } else {
        seq![]
    }
}

// ── Deposit ──────────────────────────────────────────────────────

/// What a successful deposit writes.
#[derive(Clone, Copy, Debug)]
pub struct DepositWrites {
    pub pool: Pool,
    pub position: Position,
    /// The user's new unlock time, when a lockup is configured.
    pub unlock_at: Option<u64>,
}

/// The stake a user may hold in a pool: `None` stands for no cap.
pub open spec fn within_cap(shares: int, max_stake: Option<i128>) -> bool {
    match max_stake {
        Some(cap) => shares <= cap,
        None => true,
    }
}

/// Deposit of `amount` share tokens by `user` into pool `pool_id`.
/// `None` when the host aborts: the new unlock time `now + lockup` overflows.
pub open spec fn deposit_into_spec(
    config: Config,
    pool_id: PoolId,
    user: AddressKey,
    amount: i128,
    stored: Option<Pool>,
    position: Position,
    max_stake: Option<i128>,
    now: u64,
    this: AddressKey,
) -> Option<(Seq<Effect>, Result<DepositWrites, Error>)> {
    let auth = seq![Effect::RequireAuth { address: user }];
    let new_shares = position.shares + amount;
    if config.paused {
        Some((auth, Err(Error::ContractPaused)))
    } else if amount <= 0 {
        Some((auth, Err(Error::InvalidAmount)))
    } else if amount < config.minimum_deposit {
        Some((auth, Err(Error::BelowMinimumDeposit)))
    } else {
        match load_pool_spec(config, stored) {
            Err(e) => Some((auth, Err(e))),
            Ok(pool) => {
                if pool.paused {
                    Some((auth, Err(Error::PoolPaused)))
                } else if !fits_i128(new_shares) {
                    Some((auth, Err(Error::ArithmeticOverflow)))
                } else if !within_cap(new_shares, max_stake) {
                    Some((auth, Err(Error::ExceedsMaxStake)))
                } else {
                    match pool_pending_spec(pool, position) {
                        Err(e) => Some((auth, Err(e))),
                        Ok(pending) => {
                            let moved = auth + payout_effects(pool, this, user, pending) + seq![
                                Effect::Transfer { token: pool.share_token, from: user, to: this, amount },
                            ];
                            if !fits_i128(pool.total_shares + amount) {
                                Some((moved, Err(Error::ArithmeticOverflow)))
                            } else {
                                match accumulated_spec(new_shares, pool.acc_reward_per_share as int) {
                                    Err(e) => Some((moved, Err(e))),
                                    Ok(debt) => {
                                        let lockup = config.lockup_duration;
                                        if lockup > 0 && now + lockup > u64::MAX {
                                            None
                                        } else {
                                            Some((
                                                moved + seq![Effect::Emit { event: Event::Deposited { pool_id, user, amount } }],
                                                Ok(DepositWrites {
                                                    pool: Pool { total_shares: (pool.total_shares + amount) as i128, ..pool },
                                                    position: Position { shares: new_shares as i128, reward_debt: debt },
                                                    unlock_at: if lockup > 0 { Some((now + lockup) as u64) } else { None },
                                                }),
                                            ))
                                        }
                                    },
                                }
                            }
                        },
                    }
                }
            },
        }
    }
}

// ── Withdraw ─────────────────────────────────────────────────────

/// What a successful withdrawal writes: the pool, and the position, which is
/// removed (`None`) when no shares remain.
#[derive(Clone, Copy, Debug)]
pub struct WithdrawWrites {
    pub pool: Pool,
    pub position: Option<Position>,
}

/// Withdrawal of `amount` share tokens by `user` from pool `pool_id`, at
/// ledger time `now`, for a user whose stake unlocks at `unlock_at`.
pub open spec fn withdraw_from_spec(
    config: Config,
    pool_id: PoolId,
    user: AddressKey,
    amount: i128,
    stored: Option<Pool>,
    position: Position,
    unlock_at: u64,
    now: u64,
    this: AddressKey,
) -> (Seq<Effect>, Result<WithdrawWrites, Error>) {
    let auth = seq![Effect::RequireAuth { address: user }];
    if amount <= 0 {
        (auth, Err(Error::InvalidAmount))
    } else if now < unlock_at {
        (auth, Err(Error::StillLocked))
    } else {
        match load_pool_spec(config, stored) {
            Err(e) => (auth, Err(e)),
            Ok(pool) => {
                if position.shares < amount {
                    (auth, Err(Error::InsufficientShares))
                } else {
                    match pool_pending_spec(pool, position) {
                        Err(e) => (auth, Err(e)),
                        Ok(pending) => {
                            let moved = auth + payout_effects(pool, this, user, pending) + seq![
                                Effect::Transfer { token: pool.share_token, from: this, to: user, amount },
                            ];
                            let left = position.shares - amount;
                            let total = pool.total_shares - amount;
                            let done = moved + seq![Effect::Emit { event: Event::Withdrawn { pool_id, user, amount } }];
                            let new_pool = Pool { total_shares: total as i128, ..pool };
                            if !fits_i128(left) || !fits_i128(total) {
                                (moved, Err(Error::ArithmeticOverflow))
                            } else if left == 0 {
                                (done, Ok(WithdrawWrites { pool: new_pool, position: None }))
                            } else {
                                match accumulated_spec(left, pool.acc_reward_per_share as int) {
                                    Err(e) => (moved, Err(e)),
                                    Ok(debt) => (done, Ok(WithdrawWrites {
                                        pool: new_pool,
                                        position: Some(Position { shares: left as i128, reward_debt: debt }),
                                    })),
                                }
                            }
                        },
                    }
                }
            },
        }
    }
}

// ── Distribute ───────────────────────────────────────────────────

/// Distribution of `amount` reward tokens from `sender` over the stakers of
/// pool `pool_id`.  `None` when the host aborts the invocation because the fee
/// computation `amount * bps` overflows.
pub open spec fn distribute_to_spec(
    config: Config,
    pool_id: PoolId,
    sender: AddressKey,
    amount: i128,
    stored: Option<Pool>,
    this: AddressKey,
) -> Option<(Seq<Effect>, Result<Pool, Error>)> {
    let auth = seq![Effect::RequireAuth { address: sender }];
    if config.paused {
        Some((auth, Err(Error::ContractPaused)))
    } else if amount <= 0 {
        Some((auth, Err(Error::InvalidAmount)))
    } else {
        match load_pool_spec(config, stored) {
            Err(e) => Some((auth, Err(e))),
            Ok(pool) => {
                if pool.paused {
                    Some((auth, Err(Error::PoolPaused)))
                } else if pool.total_shares == 0 {
                    Some((auth, Err(Error::NoSharesStaked)))
                } else {
                    let pulled = auth + seq![
                        Effect::Transfer { token: pool.reward_token, from: sender, to: this, amount },
                    ];
                    let bps = config.management_fee_bps;
                    if bps > 0 && config.fee_collector is None {
                        Some((pulled, Err(Error::FeeCollectorNotSet)))
                    } else if bps > 0 && !fits_i128(amount * bps) {
                        None
                    } else {
                        let fee = if bps > 0 { fee_spec(amount as int, bps as int) } else { 0 };
                        let skimmed = if fee > 0 {
                            pulled + seq![Effect::Transfer {
                                token: pool.reward_token,
                                from: this,
                                to: config.fee_collector->0,
                                amount: fee as i128,
                            }]
                        } else {
                            pulled
                        };
                        let distributable = amount - fee;
                        match reward_increase_spec(distributable, pool.total_shares as int) {
                            Err(e) => Some((skimmed, Err(e))),
                            Ok(increase) => {
                                let acc = pool.acc_reward_per_share + increase;
                                if !fits_i128(acc) {
                                    Some((skimmed, Err(Error::ArithmeticOverflow)))
                                } else {
                                    Some((
                                        skimmed + seq![Effect::Emit {
                                            event: Event::Distributed { pool_id, sender, amount: distributable as i128 },
                                        }],
                                        Ok(Pool { acc_reward_per_share: acc as i128, ..pool }),
                                    ))
                                }
                            },
                        }
                    }
                }
            },
        }
    }
}

// ── Claim ────────────────────────────────────────────────────────

/// Claim by `user` in pool `pool_id`: the amount paid, and the position to
/// write (`None`: nothing is written when nothing was pending).
pub open spec fn claim_from_spec(
    config: Config,
    pool_id: PoolId,
    user: AddressKey,
    stored: Option<Pool>,
    position: Position,
    this: AddressKey,
) -> (Seq<Effect>, Result<(i128, Option<Position>), Error>) {
    let auth = seq![Effect::RequireAuth { address: user }];
    match load_pool_spec(config, stored) {
        Err(e) => (auth, Err(e)),
        Ok(pool) => match pool_pending_spec(pool, position) {
            Err(e) => (auth, Err(e)),
            Ok(pending) => {
                if pending <= 0 {
                    (auth, Ok((0i128, None)))
                } else {
                    match accumulated_spec(position.shares as int, pool.acc_reward_per_share as int) {
                        Err(e) => (auth, Err(e)),
                        Ok(debt) => (
                            auth + seq![
                                Effect::Transfer { token: pool.reward_token, from: this, to: user, amount: pending },
                                Effect::Emit { event: Event::Claimed { pool_id, user, amount: pending } },
                            ],
                            Ok((pending, Some(Position { reward_debt: debt, ..position }))),
                        ),
                    }
                }
            },
        },
    }
}

// ── Claim from many pools ────────────────────────────────────────

/// Most pools one `claim_many` invocation may name.
pub const MAX_CLAIM_POOLS: usize = 20;

/// The position a sequence of writes last stored for `pool_id`, if any.
pub open spec fn last_write(writes: Seq<(PoolId, Position)>, pool_id: PoolId) -> Option<Position>
    decreases writes.len(),
{
    if writes.len() == 0 {
        None
    } else if writes.last().0 == pool_id {
        Some(writes.last().1)
    } else {
        last_write(writes.drop_last(), pool_id)
    }
}

/// The claims of `claim_many` from the `i`-th named pool on, after `effects`
/// were performed, `writes` stored and `total` claimed.  Entry `i` of
/// `entries` holds what storage held for pool `pool_ids[i]` before the
/// invocation; a position written earlier in the invocation supersedes it.
pub open spec fn claim_many_from(
    config: Config,
    user: AddressKey,
    pool_ids: Seq<PoolId>,
    entries: Seq<(Option<Pool>, Position)>,
    this: AddressKey,
    i: int,
    effects: Seq<Effect>,
    writes: Seq<(PoolId, Position)>,
    total: int,
) -> (Seq<Effect>, Result<(i128, Seq<(PoolId, Position)>), Error>)
    decreases pool_ids.len() - i,
{
    if i < 0 || i >= pool_ids.len() {
        (effects, Ok((total as i128, writes)))
    } else {
        let pool_id = pool_ids[i];
        let position = match last_write(writes, pool_id) {
            Some(p) => p,
            None => entries[i].1,
        };
        match load_pool_spec(config, entries[i].0) {
            Err(e) => (effects, Err(e)),
            Ok(pool) => match pool_pending_spec(pool, position) {
                Err(e) => (effects, Err(e)),
                Ok(pending) => {
                    if pending > 0 {
                        match accumulated_spec(position.shares as int, pool.acc_reward_per_share as int) {
                            Err(e) => (effects, Err(e)),
                            Ok(debt) => {
                                let paid = effects + seq![
                                    Effect::Transfer { token: pool.reward_token, from: this, to: user, amount: pending },
                                    Effect::Emit { event: Event::Claimed { pool_id, user, amount: pending } },
                                ];
                                let written = writes.push((pool_id, Position { reward_debt: debt, ..position }));
                                if !fits_i128(total + pending) {
                                    (paid, Err(Error::ArithmeticOverflow))
                                } else {
                                    claim_many_from(config, user, pool_ids, entries, this, i + 1, paid, written, total + pending)
                                }
                            },
                        }
                    } else {
                        claim_many_from(config, user, pool_ids, entries, this, i + 1, effects, writes, total)
                    }
                },
            },
        }
    }
}

/// Claim by `user` from each of the pools `pool_ids`, in order: the total
/// paid, and the positions written, in order.
pub open spec fn claim_many_spec(
    config: Config,
    user: AddressKey,
    pool_ids: Seq<PoolId>,
    entries: Seq<(Option<Pool>, Position)>,
    this: AddressKey,
) -> (Seq<Effect>, Result<(i128, Seq<(PoolId, Position)>), Error>) {
    let auth = seq![Effect::RequireAuth { address: user }];
    if pool_ids.len() > MAX_CLAIM_POOLS {
        (auth, Err(Error::TooManyPools))
    } else {
        claim_many_from(config, user, pool_ids, entries, this, 0, auth, seq![], 0)
    }
}

// ── Initialization and pools ─────────────────────────────────────

/// The pool a manager opens: empty, with a zero accumulator, not paused.
pub open spec fn fresh_pool(manager: AddressKey, share_token: AddressKey, reward_token: AddressKey) -> Pool {
    Pool { manager, share_token, reward_token, total_shares: 0, acc_reward_per_share: 0, paused: false }
}

/// Initialization by `admin`: the new settings and pool 0, managed by the admin.
pub open spec fn initialize_spec(
    config: Config,
    admin: AddressKey,
    share_token: AddressKey,
    reward_token: AddressKey,
) -> (Seq<Effect>, Result<(Config, Pool), Error>) {
    let auth = seq![Effect::RequireAuth { address: admin }];
    if config.initialized {
        (auth, Err(Error::AlreadyInitialized))
    } else {
        (auth, Ok((
            Config { initialized: true, admin: Some(admin), next_pool_id: 1, ..config },
            fresh_pool(admin, share_token, reward_token),
        )))
    }
}

/// The admin's authorization, demanded by admin-only entry points.
pub open spec fn admin_auth(config: Config) -> Seq<Effect> {
    seq![Effect::RequireAuth { address: config.admin->0 }]
}

/// Creation of a new pool: its id, the pool, and the new settings.
pub open spec fn create_pool_spec(
    config: Config,
    manager: AddressKey,
    share_token: AddressKey,
    reward_token: AddressKey,
) -> (Seq<Effect>, Result<(PoolId, Pool, Config), Error>) {
    let pool_id = config.next_pool_id;
    if !config.initialized {
        (seq![], Err(Error::NotInitialized))
    } else if config.paused {
        (seq![], Err(Error::ContractPaused))
    } else if pool_id + 1 > u32::MAX {
        (admin_auth(config), Err(Error::ArithmeticOverflow))
    } else {
        (
            admin_auth(config) + seq![Effect::Emit { event: Event::PoolCreated { pool_id, manager } }],
            Ok((
                pool_id,
                fresh_pool(manager, share_token, reward_token),
                Config { next_pool_id: (pool_id + 1) as u32, ..config },
            )),
        )
    }
}

/// Rotation of a pool's manager, authorized by the current manager.
pub open spec fn set_pool_manager_spec(
    config: Config,
    pool_id: PoolId,
    stored: Option<Pool>,
    new_manager: AddressKey,
) -> (Seq<Effect>, Result<Pool, Error>) {
    match load_pool_spec(config, stored) {
        Err(e) => (seq![], Err(e)),
        Ok(pool) => (
            seq![
                Effect::RequireAuth { address: pool.manager },
                Effect::Emit { event: Event::ManagerChanged { pool_id, manager: new_manager } },
            ],
            Ok(Pool { manager: new_manager, ..pool }),
        ),
    }
}

/// Pausing or resuming one pool, authorized by its manager.
pub open spec fn set_pool_paused_spec(
    config: Config,
    pool_id: PoolId,
    stored: Option<Pool>,
    paused: bool,
) -> (Seq<Effect>, Result<Pool, Error>) {
    match load_pool_spec(config, stored) {
        Err(e) => (seq![], Err(e)),
        Ok(pool) => (
            seq![
                Effect::RequireAuth { address: pool.manager },
                Effect::Emit { event: Event::PoolPauseChanged { pool_id, paused } },
            ],
            Ok(Pool { paused, ..pool }),
        ),
    }
}

// ── Administration ───────────────────────────────────────────────

/// Global pause or resume by the admin.
pub open spec fn set_paused_spec(config: Config, paused: bool) -> (Seq<Effect>, Result<Config, Error>) {
    if !config.initialized {
        (seq![], Err(Error::NotInitialized))
    } else {
        (
            admin_auth(config) + seq![Effect::Emit { event: Event::ContractPaused { paused } }],
            Ok(Config { paused, ..config }),
        )
    }
}

/// A setting the admin changes after initialization, with no value to refuse:
/// `updated` is the new settings.  The admin's authorization is demanded of
/// the host, which aborts the call when it is missing; no error is returned
/// for a caller who is not the admin.
pub open spec fn admin_set_spec(config: Config, updated: Config) -> (Seq<Effect>, Result<Config, Error>) {
    if !config.initialized {
        (seq![], Err(Error::NotInitialized))
    } else {
        (admin_auth(config), Ok(updated))
    }
}

/// A setting the admin changes after initialization, refused when `invalid`
/// (with `error`); `updated` is the new settings.
pub open spec fn admin_update_spec(config: Config, invalid: bool, error: Error, updated: Config) -> (
    Seq<Effect>,
    Result<Config, Error>,
) {
    if !config.initialized {
        (seq![], Err(Error::NotInitialized))
    } else if invalid {
        (admin_auth(config), Err(error))
    } else {
        (admin_auth(config), Ok(updated))
    }
}

/// Whether `token` is the share or the reward token of a stored pool.
pub open spec fn is_token_of(stored: Option<Pool>, token: AddressKey) -> bool {
    match stored {
        Some(p) => p.share_token == token || p.reward_token == token,
        None => false,
    }
}

/// Whether `token` is the share or the reward token of one of the stored pools.
pub open spec fn is_protocol_token(pools: Seq<Option<Pool>>, token: AddressKey) -> bool {
    exists|i: int| 0 <= i < pools.len() && is_token_of(#[trigger] pools[i], token)
}

/// Recovery of `amount` of a foreign `token` to `to`; `pools` are the stored
/// pools, one per pool id.
pub open spec fn recover_token_spec(
    config: Config,
    token: AddressKey,
    to: AddressKey,
    amount: i128,
    pools: Seq<Option<Pool>>,
    this: AddressKey,
) -> (Seq<Effect>, Result<(), Error>) {
    let auth = admin_auth(config);
    if !config.initialized {
        (seq![], Err(Error::NotInitialized))
    } else if amount <= 0 {
        (auth, Err(Error::InvalidAmount))
    } else if is_protocol_token(pools, token) {
        (auth, Err(Error::CannotRecoverProtocolToken))
    } else {
        (auth + seq![Effect::Transfer { token, from: this, to, amount }], Ok(()))
    }
}

// ── Identity ─────────────────────────────────────────────────────

/// On-chain contract version, surfaced both in embedded wasm metadata and via
/// the `version()` entry point so tooling and clients agree on a single source.
pub const CONTRACT_VERSION: &'static str = "0.1.0";

/// The contract's name, as in its embedded metadata.
pub const CONTRACT_NAME: &'static str = "StellarFraction Distribution";

/// The contract's description, as in its embedded metadata.
pub const CONTRACT_DESCRIPTION: &'static str = "O(1) proportional rental-yield distribution for fractional real estate stakers";

/// Structured contract identity: name, version and description.
pub struct ContractMetadata {
    pub name: String,
    pub version: String,
    pub description: String,
}

impl DistributionContract {
    fn check_initialized(config: &Config) -> (r: Result<(), Error>)
        ensures
            r == (if config.initialized { Ok(()) } else { Err::<(), Error>(Error::NotInitialized) }),
    {
        if !config.initialized {
            return Err(Error::NotInitialized);
        }
        Ok(())
    }

    fn check_not_paused(config: &Config) -> (r: Result<(), Error>)
        ensures
            r == (if config.paused { Err::<(), Error>(Error::ContractPaused) } else { Ok(()) }),
    {
        if config.paused {
            return Err(Error::ContractPaused);
        }
        Ok(())
    }

    fn load_pool(config: &Config, stored: Option<Pool>) -> (r: Result<Pool, Error>)
        ensures
            r == load_pool_spec(*config, stored),
    {
        Self::check_initialized(config)?;
        match stored {
            Some(pool) => Ok(pool),
            None => Err(Error::PoolNotFound),
        }
    }

    fn calculate_pool_pending(pool: &Pool, position: &Position) -> (r: Result<i128, Error>)
        ensures
            r == pool_pending_spec(*pool, *position),
    {
        if position.shares == 0 {
            return Ok(0);
        }
        pending(position.shares, pool.acc_reward_per_share, position.reward_debt)
    }

    fn ensure_pool_active(pool: &Pool) -> (r: Result<(), Error>)
        ensures
            r == (if pool.paused { Err::<(), Error>(Error::PoolPaused) } else { Ok(()) }),
    {
        if pool.paused {
            return Err(Error::PoolPaused);
        }
        Ok(())
    }

    /// Read-only: returns claimable rewards in a selected property pool.
    pub fn get_pool_pending(config: &Config, stored: Option<Pool>, position: Position) -> (r: Result<i128, Error>)
        ensures
            r == get_pool_pending_spec(*config, stored, position),
    {
        let pool = Self::load_pool(config, stored)?;
        Self::calculate_pool_pending(&pool, &position)
    }

    /// Deposits share tokens into a selected property pool.
    ///
    /// Reads the pool, the user's position in it and the user's stake cap;
    /// auto-claims pending rewards, takes custody of the shares, resets the
    /// reward debt and, under a lockup, restarts the user's lock window.
    /// Returns `None` when the host aborts the invocation because the new
    /// unlock time overflows.
    pub fn deposit_into(
        config: &Config,
        pool_id: PoolId,
        user: AddressKey,
        amount: i128,
        stored: Option<Pool>,
        position: Position,
        max_stake: Option<i128>,
        now: u64,
        this: AddressKey,
    ) -> (r: Option<Outcome<DepositWrites>>)
        ensures
            match deposit_into_spec(*config, pool_id, user, amount, stored, position, max_stake, now, this) {
                None => r is None,
                Some((effects, result)) => r matches Some(o) && o.is(effects, result),
            },
    {
        let mut effects: Vec<Effect> = Vec::new();
        effects.push(Effect::RequireAuth { address: user });
        let ghost auth = effects@;
        if let Err(e) = Self::check_not_paused(config) {
            return Some(Outcome { effects, result: Err(e) });
        }
        if amount <= 0 {
            return Some(Outcome { effects, result: Err(Error::InvalidAmount) });
        }
        if amount < config.minimum_deposit {
            return Some(Outcome { effects, result: Err(Error::BelowMinimumDeposit) });
        }
        let mut pool = match Self::load_pool(config, stored) {
            Ok(p) => p,
            Err(e) => return Some(Outcome { effects, result: Err(e) }),
        };
        if let Err(e) = Self::ensure_pool_active(&pool) {
            return Some(Outcome { effects, result: Err(e) });
        }
        let new_shares = match position.shares.checked_add(amount) {
            Some(s) => s,
            None => return Some(Outcome { effects, result: Err(Error::ArithmeticOverflow) }),
        };
        let exceeds = match max_stake {
            Some(cap) => new_shares > cap,
            None => false,
        };
        if exceeds {
            return Some(Outcome { effects, result: Err(Error::ExceedsMaxStake) });
        }
        let pending_reward = match Self::calculate_pool_pending(&pool, &position) {
            Ok(p) => p,
            Err(e) => return Some(Outcome { effects, result: Err(e) }),
        };
        if pending_reward > 0 {
            effects.push(Effect::Transfer { token: pool.reward_token, from: this, to: user, amount: pending_reward });
        }
        effects.push(Effect::Transfer { token: pool.share_token, from: user, to: this, amount });
        assert(effects@ =~= auth + payout_effects(pool, this, user, pending_reward) + seq![
            Effect::Transfer { token: pool.share_token, from: user, to: this, amount },
        ]);
        let ghost moved = effects@;
        pool.total_shares = match pool.total_shares.checked_add(amount) {
            Some(t) => t,
            None => return Some(Outcome { effects, result: Err(Error::ArithmeticOverflow) }),
        };
        let debt = match accumulated(new_shares, pool.acc_reward_per_share) {
            Ok(d) => d,
            Err(e) => return Some(Outcome { effects, result: Err(e) }),
        };
        let new_position = Position { shares: new_shares, reward_debt: debt };
        let lockup = config.lockup_duration;
        let unlock_at = if lockup > 0 {
            match now.checked_add(lockup) {
                Some(t) => Some(t),
                None => return None,
            }
        } else {
            None
        };
        effects.push(Effect::Emit { event: Event::Deposited { pool_id, user, amount } });
        assert(effects@ =~= moved + seq![Effect::Emit { event: Event::Deposited { pool_id, user, amount } }]);
        Some(Outcome { effects, result: Ok(DepositWrites { pool, position: new_position, unlock_at }) })
    }
    /// Withdraws share tokens from a selected property pool.
    ///
    /// Refused while the user's stake is locked; auto-claims pending rewards,
    /// returns the shares, and removes the position once it is empty.
    pub fn withdraw_from(
        config: &Config,
        pool_id: PoolId,
        user: AddressKey,
        amount: i128,
        stored: Option<Pool>,
        position: Position,
        unlock_at: u64,
        now: u64,
        this: AddressKey,
    ) -> (r: Outcome<WithdrawWrites>)
        ensures
            r.is(
                withdraw_from_spec(*config, pool_id, user, amount, stored, position, unlock_at, now, this).0,
                withdraw_from_spec(*config, pool_id, user, amount, stored, position, unlock_at, now, this).1,
            ),
    {
        let mut effects: Vec<Effect> = Vec::new();
        effects.push(Effect::RequireAuth { address: user });
        let ghost auth = effects@;
        if amount <= 0 {
            return Outcome { effects, result: Err(Error::InvalidAmount) };
        }
        if now < unlock_at {
            return Outcome { effects, result: Err(Error::StillLocked) };
        }
        let mut pool = match Self::load_pool(config, stored) {
            Ok(p) => p,
            Err(e) => return Outcome { effects, result: Err(e) },
        };
        if position.shares < amount {
            return Outcome { effects, result: Err(Error::InsufficientShares) };
        }
        let pending_reward = match Self::calculate_pool_pending(&pool, &position) {
            Ok(p) => p,
            Err(e) => return Outcome { effects, result: Err(e) },
        };
        if pending_reward > 0 {
            effects.push(Effect::Transfer { token: pool.reward_token, from: this, to: user, amount: pending_reward });
        }
        effects.push(Effect::Transfer { token: pool.share_token, from: this, to: user, amount });
        assert(effects@ =~= auth + payout_effects(pool, this, user, pending_reward) + seq![
            Effect::Transfer { token: pool.share_token, from: this, to: user, amount },
        ]);
        let ghost moved = effects@;
        let left = match position.shares.checked_sub(amount) {
            Some(l) => l,
            None => return Outcome { effects, result: Err(Error::ArithmeticOverflow) },
        };
        pool.total_shares = match pool.total_shares.checked_sub(amount) {
            Some(t) => t,
            None => return Outcome { effects, result: Err(Error::ArithmeticOverflow) },
        };
        let new_position = if left == 0 {
            None
        } else {
            match accumulated(left, pool.acc_reward_per_share) {
                Ok(debt) => Some(Position { shares: left, reward_debt: debt }),
                Err(e) => return Outcome { effects, result: Err(e) },
            }
        };
        effects.push(Effect::Emit { event: Event::Withdrawn { pool_id, user, amount } });
        assert(effects@ =~= moved + seq![Effect::Emit { event: Event::Withdrawn { pool_id, user, amount } }]);
        Outcome { effects, result: Ok(WithdrawWrites { pool, position: new_position }) }
    }

    /// Funds and distributes rewards within a selected property pool.
    ///
    /// Pulls `amount` from the sender, skims the management fee (when one is
    /// configured) to the fee collector, and grows the pool's accumulator by
    /// the remainder shared over the staked shares.  Returns `None` when the
    /// host aborts the invocation because `amount * fee_bps` overflows.
    pub fn distribute_to(
        config: &Config,
        pool_id: PoolId,
        sender: AddressKey,
        amount: i128,
        stored: Option<Pool>,
        this: AddressKey,
    ) -> (r: Option<Outcome<Pool>>)
        ensures
            match distribute_to_spec(*config, pool_id, sender, amount, stored, this) {
                None => r is None,
                Some((effects, result)) => r matches Some(o) && o.is(effects, result),
            },
    {
        let mut effects: Vec<Effect> = Vec::new();
        effects.push(Effect::RequireAuth { address: sender });
        let ghost auth = effects@;
        if let Err(e) = Self::check_not_paused(config) {
            return Some(Outcome { effects, result: Err(e) });
        }
        if amount <= 0 {
            return Some(Outcome { effects, result: Err(Error::InvalidAmount) });
        }
        let mut pool = match Self::load_pool(config, stored) {
            Ok(p) => p,
            Err(e) => return Some(Outcome { effects, result: Err(e) }),
        };
        if let Err(e) = Self::ensure_pool_active(&pool) {
            return Some(Outcome { effects, result: Err(e) });
        }
        if pool.total_shares == 0 {
            return Some(Outcome { effects, result: Err(Error::NoSharesStaked) });
        }
        effects.push(Effect::Transfer { token: pool.reward_token, from: sender, to: this, amount });
        let ghost pulled = effects@;
        assert(pulled =~= auth + seq![Effect::Transfer { token: pool.reward_token, from: sender, to: this, amount }]);
        let fee_bps = config.management_fee_bps;
        let mut fee_amount: i128 = 0;
        if fee_bps > 0 {
            match config.fee_collector {
                Some(collector) => {
                    let product = match amount.checked_mul(fee_bps as i128) {
                        Some(p) => p,
                        None => return None,
                    };
                    fee_amount = product / 10_000;
                    assert(fee_amount == fee_spec(amount as int, fee_bps as int));
                    if fee_amount > 0 {
                        effects.push(Effect::Transfer { token: pool.reward_token, from: this, to: collector, amount: fee_amount });
                    }
                },
                None => return Some(Outcome { effects, result: Err(Error::FeeCollectorNotSet) }),
            }
        }
        let ghost skimmed = effects@;
        assert(fee_bps == 0 ==> fee_amount == 0 && skimmed == pulled);
        assert(fee_amount > 0 ==> skimmed =~= pulled + seq![Effect::Transfer {
            token: pool.reward_token,
            from: this,
            to: config.fee_collector->0,
            amount: fee_amount,
        }]);
        let distributable = amount - fee_amount;
        let increase = match reward_increase(distributable, pool.total_shares) {
            Ok(i) => i,
            Err(e) => return Some(Outcome { effects, result: Err(e) }),
        };
        pool.acc_reward_per_share = match pool.acc_reward_per_share.checked_add(increase) {
            Some(a) => a,
            None => return Some(Outcome { effects, result: Err(Error::ArithmeticOverflow) }),
        };
        effects.push(Effect::Emit { event: Event::Distributed { pool_id, sender, amount: distributable } });
        assert(effects@ =~= skimmed + seq![Effect::Emit {
            event: Event::Distributed { pool_id, sender, amount: distributable },
        }]);
        Some(Outcome { effects, result: Ok(pool) })
    }

    /// Claims rewards from a selected property pool.
    ///
    /// Returns the amount paid (0, with nothing written, when nothing is
    /// pending) and resets the position's reward debt.
    pub fn claim_from(
        config: &Config,
        pool_id: PoolId,
        user: AddressKey,
        stored: Option<Pool>,
        position: Position,
        this: AddressKey,
    ) -> (r: Outcome<(i128, Option<Position>)>)
        ensures
            r.is(
                claim_from_spec(*config, pool_id, user, stored, position, this).0,
                claim_from_spec(*config, pool_id, user, stored, position, this).1,
            ),
    {
        let mut effects: Vec<Effect> = Vec::new();
        effects.push(Effect::RequireAuth { address: user });
        let ghost auth = effects@;
        let pool = match Self::load_pool(config, stored) {
            Ok(p) => p,
            Err(e) => return Outcome { effects, result: Err(e) },
        };
        let pending_reward = match Self::calculate_pool_pending(&pool, &position) {
            Ok(p) => p,
            Err(e) => return Outcome { effects, result: Err(e) },
        };
        if pending_reward <= 0 {
            return Outcome { effects, result: Ok((0, None)) };
        }
        let debt = match accumulated(position.shares, pool.acc_reward_per_share) {
            Ok(d) => d,
            Err(e) => return Outcome { effects, result: Err(e) },
        };
        let new_position = Position { shares: position.shares, reward_debt: debt };
        effects.push(Effect::Transfer { token: pool.reward_token, from: this, to: user, amount: pending_reward });
        effects.push(Effect::Emit { event: Event::Claimed { pool_id, user, amount: pending_reward } });
        assert(effects@ =~= auth + seq![
            Effect::Transfer { token: pool.reward_token, from: this, to: user, amount: pending_reward },
            Effect::Emit { event: Event::Claimed { pool_id, user, amount: pending_reward } },
        ]);
        Outcome { effects, result: Ok((pending_reward, Some(new_position))) }
    }
    /// The position a sequence of writes last stored for `pool_id`, if any.
    fn find_last_write(writes: &Vec<(PoolId, Position)>, pool_id: PoolId) -> (r: Option<Position>)
        ensures
            r == last_write(writes@, pool_id),
    {
        let mut j = writes.len();
        assert(writes@.take(j as int) =~= writes@);
        while j > 0
            invariant
                j <= writes@.len(),
                last_write(writes@, pool_id) == last_write(writes@.take(j as int), pool_id),
            decreases j,
        {
            let (id, position) = writes[j - 1];
            assert(writes@.take(j as int).drop_last() =~= writes@.take(j - 1));
            if id == pool_id {
                return Some(position);
            }
            j = j - 1;
        }
        assert(writes@.take(0) =~= Seq::<(PoolId, Position)>::empty());
        None
    }

    /// Claims rewards from up to twenty property pools in one invocation.
    ///
    /// `entries[i]` holds the stored pool and the user's stored position for
    /// `pool_ids[i]` (the same for repeated ids).  Returns the total paid and
    /// the positions to write, in order.
    pub fn claim_many(
        config: &Config,
        user: AddressKey,
        pool_ids: &Vec<PoolId>,
        entries: &Vec<(Option<Pool>, Position)>,
        this: AddressKey,
    ) -> (r: Outcome<(i128, Vec<(PoolId, Position)>)>)
        requires
            entries@.len() == pool_ids@.len(),
        ensures
            r.effects@ == claim_many_spec(*config, user, pool_ids@, entries@, this).0,
            match claim_many_spec(*config, user, pool_ids@, entries@, this).1 {
                Ok((total, writes)) => r.result matches Ok((t, w)) && t == total && w@ == writes,
                Err(e) => r.result == Err::<(i128, Vec<(PoolId, Position)>), Error>(e),
            },
    {
        let mut effects: Vec<Effect> = Vec::new();
        effects.push(Effect::RequireAuth { address: user });
        if pool_ids.len() > MAX_CLAIM_POOLS {
            return Outcome { effects, result: Err(Error::TooManyPools) };
        }
        let ghost goal = claim_many_spec(*config, user, pool_ids@, entries@, this);
        let mut writes: Vec<(PoolId, Position)> = Vec::new();
        let mut total_claimed: i128 = 0;
        let mut i: usize = 0;
        assert(goal == claim_many_from(*config, user, pool_ids@, entries@, this, 0, effects@, writes@, 0));
        while i < pool_ids.len()
            invariant
                i <= pool_ids@.len(),
                entries@.len() == pool_ids@.len(),
                goal == claim_many_spec(*config, user, pool_ids@, entries@, this),
                goal == claim_many_from(*config, user, pool_ids@, entries@, this, i as int, effects@, writes@, total_claimed as int),
            decreases pool_ids@.len() - i,
        {
            let pool_id = pool_ids[i];
            let (stored, snapshot) = entries[i];
            let position = match Self::find_last_write(&writes, pool_id) {
                Some(p) => p,
                None => snapshot,
            };
            let pool = match Self::load_pool(config, stored) {
                Ok(p) => p,
                Err(e) => return Outcome { effects, result: Err(e) },
            };
            let pending_reward = match Self::calculate_pool_pending(&pool, &position) {
                Ok(p) => p,
                Err(e) => return Outcome { effects, result: Err(e) },
            };
            if pending_reward > 0 {
                let debt = match accumulated(position.shares, pool.acc_reward_per_share) {
                    Ok(d) => d,
                    Err(e) => return Outcome { effects, result: Err(e) },
                };
                let ghost before = effects@;
                writes.push((pool_id, Position { shares: position.shares, reward_debt: debt }));
                effects.push(Effect::Transfer { token: pool.reward_token, from: this, to: user, amount: pending_reward });
                effects.push(Effect::Emit { event: Event::Claimed { pool_id, user, amount: pending_reward } });
                assert(effects@ =~= before + seq![
                    Effect::Transfer { token: pool.reward_token, from: this, to: user, amount: pending_reward },
                    Effect::Emit { event: Event::Claimed { pool_id, user, amount: pending_reward } },
                ]);
                total_claimed = match total_claimed.checked_add(pending_reward) {
                    Some(t) => t,
                    None => return Outcome { effects, result: Err(Error::ArithmeticOverflow) },
                };
            }
            i = i + 1;
        }
        Outcome { effects, result: Ok((total_claimed, writes)) }
    }
    /// Initialize the contract with the admin, the property share token, and
    /// the rental yield token; opens pool 0, managed by the admin.
    pub fn initialize(
        config: &Config,
        admin: AddressKey,
        share_token: AddressKey,
        reward_token: AddressKey,
    ) -> (r: Outcome<(Config, Pool)>)
        ensures
            r.is(
                initialize_spec(*config, admin, share_token, reward_token).0,
                initialize_spec(*config, admin, share_token, reward_token).1,
            ),
    {
        let mut effects: Vec<Effect> = Vec::new();
        effects.push(Effect::RequireAuth { address: admin });
        if config.initialized {
            return Outcome { effects, result: Err(Error::AlreadyInitialized) };
        }
        let mut new_config = *config;
        new_config.initialized = true;
        new_config.admin = Some(admin);
        new_config.next_pool_id = 1;
        let pool = Pool {
            manager: admin,
            share_token,
            reward_token,
            total_shares: 0,
            acc_reward_per_share: 0,
            paused: false,
        };
        Outcome { effects, result: Ok((new_config, pool)) }
    }

    /// The stored admin, whose authorization admin-only entry points demand.
    fn admin_of(config: &Config) -> (r: AddressKey)
        requires
            config.admin is Some,
        ensures
            r == config.admin->0,
    {
        match config.admin {
            Some(a) => a,
            None => config.admin.unwrap(),
        }
    }

    /// Creates an isolated dividend pool for another tokenized property.
    /// Once initialized, the stored admin must exist: the host aborts otherwise.
    pub fn create_pool(
        config: &Config,
        manager: AddressKey,
        share_token: AddressKey,
        reward_token: AddressKey,
    ) -> (r: Outcome<(PoolId, Pool, Config)>)
        requires
            config.initialized ==> config.admin is Some,
        ensures
            r.is(
                create_pool_spec(*config, manager, share_token, reward_token).0,
                create_pool_spec(*config, manager, share_token, reward_token).1,
            ),
    {
        let mut effects: Vec<Effect> = Vec::new();
        if let Err(e) = Self::check_initialized(config) {
            return Outcome { effects, result: Err(e) };
        }
        if let Err(e) = Self::check_not_paused(config) {
            return Outcome { effects, result: Err(e) };
        }
        effects.push(Effect::RequireAuth { address: Self::admin_of(config) });
        let pool_id = config.next_pool_id;
        let next_pool_id = match pool_id.checked_add(1) {
            Some(n) => n,
            None => return Outcome { effects, result: Err(Error::ArithmeticOverflow) },
        };
        let pool = Pool {
            manager,
            share_token,
            reward_token,
            total_shares: 0,
            acc_reward_per_share: 0,
            paused: false,
        };
        let mut new_config = *config;
        new_config.next_pool_id = next_pool_id;
        effects.push(Effect::Emit { event: Event::PoolCreated { pool_id, manager } });
        assert(effects@ =~= admin_auth(*config) + seq![Effect::Emit { event: Event::PoolCreated { pool_id, manager } }]);
        Outcome { effects, result: Ok((pool_id, pool, new_config)) }
    }

    /// Rotates the manager authorized to administer a property pool.
    pub fn set_pool_manager(config: &Config, pool_id: PoolId, stored: Option<Pool>, new_manager: AddressKey) -> (r:
        Outcome<Pool>)
        ensures
            r.is(
                set_pool_manager_spec(*config, pool_id, stored, new_manager).0,
                set_pool_manager_spec(*config, pool_id, stored, new_manager).1,
            ),
    {
        let mut effects: Vec<Effect> = Vec::new();
        let mut pool = match Self::load_pool(config, stored) {
            Ok(p) => p,
            Err(e) => return Outcome { effects, result: Err(e) },
        };
        effects.push(Effect::RequireAuth { address: pool.manager });
        pool.manager = new_manager;
        effects.push(Effect::Emit { event: Event::ManagerChanged { pool_id, manager: new_manager } });
        assert(effects@ =~= seq![
            Effect::RequireAuth { address: stored->0.manager },
            Effect::Emit { event: Event::ManagerChanged { pool_id, manager: new_manager } },
        ]);
        Outcome { effects, result: Ok(pool) }
    }

    /// Pauses or resumes new deposits and distributions for a property pool.
    pub fn set_pool_paused(config: &Config, pool_id: PoolId, stored: Option<Pool>, paused: bool) -> (r: Outcome<
        Pool,
    >)
        ensures
            r.is(
                set_pool_paused_spec(*config, pool_id, stored, paused).0,
                set_pool_paused_spec(*config, pool_id, stored, paused).1,
            ),
    {
        let mut effects: Vec<Effect> = Vec::new();
        let mut pool = match Self::load_pool(config, stored) {
            Ok(p) => p,
            Err(e) => return Outcome { effects, result: Err(e) },
        };
        effects.push(Effect::RequireAuth { address: pool.manager });
        pool.paused = paused;
        effects.push(Effect::Emit { event: Event::PoolPauseChanged { pool_id, paused } });
        assert(effects@ =~= seq![
            Effect::RequireAuth { address: stored->0.manager },
            Effect::Emit { event: Event::PoolPauseChanged { pool_id, paused } },
        ]);
        Outcome { effects, result: Ok(pool) }
    }

    /// Global pause or resume, shared by `pause` and `unpause`.
    fn set_paused(config: &Config, paused: bool) -> (r: Outcome<Config>)
        requires
            config.initialized ==> config.admin is Some,
        ensures
            r.is(set_paused_spec(*config, paused).0, set_paused_spec(*config, paused).1),
    {
        let mut effects: Vec<Effect> = Vec::new();
        if let Err(e) = Self::check_initialized(config) {
            return Outcome { effects, result: Err(e) };
        }
        effects.push(Effect::RequireAuth { address: Self::admin_of(config) });
        let mut new_config = *config;
        new_config.paused = paused;
        effects.push(Effect::Emit { event: Event::ContractPaused { paused } });
        assert(effects@ =~= admin_auth(*config) + seq![Effect::Emit { event: Event::ContractPaused { paused } }]);
        Outcome { effects, result: Ok(new_config) }
    }

    /// Admin-only: pauses pool creation, deposits, and distributions globally.
    /// Once initialized, the stored admin must exist: the host aborts otherwise.
    pub fn pause(config: &Config) -> (r: Outcome<Config>)
        requires
            config.initialized ==> config.admin is Some,
        ensures
            r.is(set_paused_spec(*config, true).0, set_paused_spec(*config, true).1),
    {
        Self::set_paused(config, true)
    }

    /// Admin-only: resumes globally paused operations.
    /// Once initialized, the stored admin must exist: the host aborts otherwise.
    pub fn unpause(config: &Config) -> (r: Outcome<Config>)
        requires
            config.initialized ==> config.admin is Some,
        ensures
            r.is(set_paused_spec(*config, false).0, set_paused_spec(*config, false).1),
    {
        Self::set_paused(config, false)
    }

    /// Admin-only: sets the minimum amount accepted by a deposit operation.
    /// Once initialized, the stored admin must exist: the host aborts otherwise.
    pub fn set_minimum_deposit(config: &Config, amount: i128) -> (r: Outcome<Config>)
        requires
            config.initialized ==> config.admin is Some,
        ensures
            r.is(
                admin_update_spec(*config, amount < 0, Error::InvalidAmount, Config { minimum_deposit: amount, ..*config }).0,
                admin_update_spec(*config, amount < 0, Error::InvalidAmount, Config { minimum_deposit: amount, ..*config }).1,
            ),
    {
        let mut effects: Vec<Effect> = Vec::new();
        if let Err(e) = Self::check_initialized(config) {
            return Outcome { effects, result: Err(e) };
        }
        effects.push(Effect::RequireAuth { address: Self::admin_of(config) });
        if amount < 0 {
            return Outcome { effects, result: Err(Error::InvalidAmount) };
        }
        let mut new_config = *config;
        new_config.minimum_deposit = amount;
        Outcome { effects, result: Ok(new_config) }
    }

    /// Admin-only: sets the per-pool stake ceiling for an investor; returns
    /// the ceiling to store for `user`.
    /// Once initialized, the stored admin must exist: the host aborts otherwise.
    pub fn set_max_stake_per_user(config: &Config, user: AddressKey, limit: i128) -> (r: Outcome<i128>)
        requires
            config.initialized ==> config.admin is Some,
        ensures
            r.is(
                admin_update_spec(*config, limit < 0, Error::InvalidAmount, *config).0,
                match admin_update_spec(*config, limit < 0, Error::InvalidAmount, *config).1 {
                    Ok(_) => Ok(limit),
                    Err(e) => Err(e),
                },
            ),
    {
        let mut effects: Vec<Effect> = Vec::new();
        if let Err(e) = Self::check_initialized(config) {
            return Outcome { effects, result: Err(e) };
        }
        effects.push(Effect::RequireAuth { address: Self::admin_of(config) });
        if limit < 0 {
            return Outcome { effects, result: Err(Error::InvalidAmount) };
        }
        Outcome { effects, result: Ok(limit) }
    }

    /// Admin-only: transfers contract administration to a new address.
    /// Once initialized, the stored admin must exist: the host aborts otherwise.
    /// The current admin's authorization is demanded of the host, which aborts
    /// the call without it; `Error::NotAdmin` is never returned.
    pub fn transfer_admin(config: &Config, new_admin: AddressKey) -> (r: Outcome<Config>)
        requires
            config.initialized ==> config.admin is Some,
        ensures
            r.is(
                admin_set_spec(*config, Config { admin: Some(new_admin), ..*config }).0,
                admin_set_spec(*config, Config { admin: Some(new_admin), ..*config }).1,
            ),
    {
        let mut effects: Vec<Effect> = Vec::new();
        if let Err(e) = Self::check_initialized(config) {
            return Outcome { effects, result: Err(e) };
        }
        effects.push(Effect::RequireAuth { address: Self::admin_of(config) });
        let mut new_config = *config;
        new_config.admin = Some(new_admin);
        Outcome { effects, result: Ok(new_config) }
    }

    /// Admin-only: sets the staking lockup duration in seconds (0 disables
    /// lockups).  Once initialized, the stored admin must exist: the host
    /// aborts otherwise.
    pub fn set_lockup_duration(config: &Config, seconds: u64) -> (r: Outcome<Config>)
        requires
            config.initialized ==> config.admin is Some,
        ensures
            r.is(
                admin_set_spec(*config, Config { lockup_duration: seconds, ..*config }).0,
                admin_set_spec(*config, Config { lockup_duration: seconds, ..*config }).1,
            ),
    {
        let mut effects: Vec<Effect> = Vec::new();
        if let Err(e) = Self::check_initialized(config) {
            return Outcome { effects, result: Err(e) };
        }
        effects.push(Effect::RequireAuth { address: Self::admin_of(config) });
        let mut new_config = *config;
        new_config.lockup_duration = seconds;
        Outcome { effects, result: Ok(new_config) }
    }

    /// Admin-only: sets the management fee in basis points; refused above
    /// 10000 (100%).  Once initialized, the stored admin must exist: the host
    /// aborts otherwise.
    pub fn set_management_fee(config: &Config, bps: u32) -> (r: Outcome<Config>)
        requires
            config.initialized ==> config.admin is Some,
        ensures
            r.is(
                admin_update_spec(*config, bps > MAX_FEE_BPS, Error::InvalidFeeBps, Config { management_fee_bps: bps, ..*config }).0,
                admin_update_spec(*config, bps > MAX_FEE_BPS, Error::InvalidFeeBps, Config { management_fee_bps: bps, ..*config }).1,
            ),
    {
        let mut effects: Vec<Effect> = Vec::new();
        if let Err(e) = Self::check_initialized(config) {
            return Outcome { effects, result: Err(e) };
        }
        effects.push(Effect::RequireAuth { address: Self::admin_of(config) });
        if bps > MAX_FEE_BPS {
            return Outcome { effects, result: Err(Error::InvalidFeeBps) };
        }
        let mut new_config = *config;
        new_config.management_fee_bps = bps;
        Outcome { effects, result: Ok(new_config) }
    }

    /// Admin-only: sets the address that receives skimmed management fees.
    /// Once initialized, the stored admin must exist: the host aborts otherwise.
    pub fn set_fee_collector(config: &Config, collector: AddressKey) -> (r: Outcome<Config>)
        requires
            config.initialized ==> config.admin is Some,
        ensures
            r.is(
                admin_set_spec(*config, Config { fee_collector: Some(collector), ..*config }).0,
                admin_set_spec(*config, Config { fee_collector: Some(collector), ..*config }).1,
            ),
    {
        let mut effects: Vec<Effect> = Vec::new();
        if let Err(e) = Self::check_initialized(config) {
            return Outcome { effects, result: Err(e) };
        }
        effects.push(Effect::RequireAuth { address: Self::admin_of(config) });
        let mut new_config = *config;
        new_config.fee_collector = Some(collector);
        Outcome { effects, result: Ok(new_config) }
    }

    /// Admin-only: rescues tokens accidentally sent to the contract.
    ///
    /// `pools` holds the stored pool of every pool id below the pool count.
    /// Never moves the share or reward token of any pool.  Once initialized,
    /// the stored admin must exist: the host aborts otherwise.
    pub fn recover_token(
        config: &Config,
        token: AddressKey,
        to: AddressKey,
        amount: i128,
        pools: &Vec<Option<Pool>>,
        this: AddressKey,
    ) -> (r: Outcome<()>)
        requires
            config.initialized ==> config.admin is Some,
        ensures
            r.is(
                recover_token_spec(*config, token, to, amount, pools@, this).0,
                recover_token_spec(*config, token, to, amount, pools@, this).1,
            ),
    {
        let mut effects: Vec<Effect> = Vec::new();
        if let Err(e) = Self::check_initialized(config) {
            return Outcome { effects, result: Err(e) };
        }
        effects.push(Effect::RequireAuth { address: Self::admin_of(config) });
        if amount <= 0 {
            return Outcome { effects, result: Err(Error::InvalidAmount) };
        }
        assert(effects@ =~= admin_auth(*config));
        let mut i: usize = 0;
        while i < pools.len()
            invariant
                i <= pools@.len(),
                effects@ == admin_auth(*config),
                config.initialized,
                amount > 0,
                forall|k: int| 0 <= k < i ==> !is_token_of(#[trigger] pools@[k], token),
            decreases pools@.len() - i,
        {
            if let Some(pool) = pools[i] {
                if token == pool.share_token || token == pool.reward_token {
                    assert(is_token_of(pools@[i as int], token));
                    assert(is_protocol_token(pools@, token));
                    return Outcome { effects, result: Err(Error::CannotRecoverProtocolToken) };
                }
            }
            i = i + 1;
        }
        effects.push(Effect::Transfer { token, from: this, to, amount });
        assert(effects@ =~= admin_auth(*config) + seq![Effect::Transfer { token, from: this, to, amount }]);
        Outcome { effects, result: Ok(()) }
    }
    /// Read-only: returns one property's pool configuration and accounting state.
    pub fn get_pool(config: &Config, stored: Option<Pool>) -> (r: Result<Pool, Error>)
        ensures
            r == load_pool_spec(*config, stored),
    {
        Self::load_pool(config, stored)
    }

    /// Read-only: returns the number of pools created so far.
    pub fn get_pool_count(config: &Config) -> (r: PoolId)
        ensures
            r == config.next_pool_id,
    {
        config.next_pool_id
    }

    /// Read-only: returns an investor's position in a property pool.
    pub fn get_position(config: &Config, stored: Option<Pool>, position: Position) -> (r: Result<Position, Error>)
        ensures
            r == match load_pool_spec(*config, stored) {
                Ok(_) => Ok(position),
                Err(e) => Err(e),
            },
    {
        Self::load_pool(config, stored)?;
        Ok(position)
    }

    /// Deposits real estate share tokens into pool 0 to stake them and earn dividends.
    pub fn deposit(
        config: &Config,
        user: AddressKey,
        amount: i128,
        stored: Option<Pool>,
        position: Position,
        max_stake: Option<i128>,
        now: u64,
        this: AddressKey,
    ) -> (r: Option<Outcome<DepositWrites>>)
        ensures
            match deposit_into_spec(*config, 0, user, amount, stored, position, max_stake, now, this) {
                None => r is None,
                Some((effects, result)) => r matches Some(o) && o.is(effects, result),
            },
    {
        Self::deposit_into(config, 0, user, amount, stored, position, max_stake, now, this)
    }

    /// Withdraws real estate share tokens from pool 0, unstaking them.
    pub fn withdraw(
        config: &Config,
        user: AddressKey,
        amount: i128,
        stored: Option<Pool>,
        position: Position,
        unlock_at: u64,
        now: u64,
        this: AddressKey,
    ) -> (r: Outcome<WithdrawWrites>)
        ensures
            r.is(
                withdraw_from_spec(*config, 0, user, amount, stored, position, unlock_at, now, this).0,
                withdraw_from_spec(*config, 0, user, amount, stored, position, unlock_at, now, this).1,
            ),
    {
        Self::withdraw_from(config, 0, user, amount, stored, position, unlock_at, now, this)
    }

    /// Deposits a lump sum of rental yield and distributes it proportionally
    /// to the stakers of pool 0.
    pub fn distribute(config: &Config, sender: AddressKey, amount: i128, stored: Option<Pool>, this: AddressKey) -> (r:
        Option<Outcome<Pool>>)
        ensures
            match distribute_to_spec(*config, 0, sender, amount, stored, this) {
                None => r is None,
                Some((effects, result)) => r matches Some(o) && o.is(effects, result),
            },
    {
        Self::distribute_to(config, 0, sender, amount, stored, this)
    }

    /// Claims accumulated dividends of pool 0 for a user.
    pub fn claim(config: &Config, user: AddressKey, stored: Option<Pool>, position: Position, this: AddressKey) -> (r:
        Outcome<(i128, Option<Position>)>)
        ensures
            r.is(
                claim_from_spec(*config, 0, user, stored, position, this).0,
                claim_from_spec(*config, 0, user, stored, position, this).1,
            ),
    {
        Self::claim_from(config, 0, user, stored, position, this)
    }

    /// Read-only: the amount of deed tokens a position holds staked.
    pub fn get_shares(position: &Position) -> (r: i128)
        ensures
            r == position.shares,
    {
        position.shares
    }

    /// Read-only: the reward debt of a position.
    pub fn get_debt(position: &Position) -> (r: i128)
        ensures
            r == position.reward_debt,
    {
        position.reward_debt
    }

    /// Read-only: the claimable dividends of a position in pool 0.
    pub fn get_pending(config: &Config, stored: Option<Pool>, position: Position) -> (r: Result<i128, Error>)
        ensures
            r == get_pool_pending_spec(*config, stored, position),
    {
        Self::get_pool_pending(config, stored, position)
    }

    /// Read-only: contract configuration and the state of pool 0, as
    /// (admin, share_token, reward_token, total_shares, acc_reward_per_share).
    /// The contract must be initialized, with pool 0 stored: the host aborts
    /// otherwise.
    pub fn get_contract_info(config: &Config, stored: Option<Pool>) -> (r: (AddressKey, AddressKey, AddressKey, i128, i128))
        requires
            config.admin is Some,
            load_pool_spec(*config, stored) is Ok,
        ensures
            r == (
                config.admin->0,
                stored->0.share_token,
                stored->0.reward_token,
                stored->0.total_shares,
                stored->0.acc_reward_per_share,
            ),
    {
        let admin = Self::admin_of(config);
        let pool = match Self::load_pool(config, stored) {
            Ok(p) => p,
            Err(_) => stored.unwrap(),
        };
        (admin, pool.share_token, pool.reward_token, pool.total_shares, pool.acc_reward_per_share)
    }

    /// Read-only: whether the global emergency pause is active.
    pub fn is_paused(config: &Config) -> (r: bool)
        ensures
            r == config.paused,
    {
        config.paused
    }

    /// Read-only: the contract's semantic version string.
    pub fn version() -> (r: String)
        ensures
            r@ == CONTRACT_VERSION@,
    {
        CONTRACT_VERSION.to_owned()
    }

    /// Read-only: structured contract identity (name, version, description),
    /// mirroring the embedded wasm metadata.
    pub fn metadata() -> (r: ContractMetadata)
        ensures
            r.name@ == CONTRACT_NAME@,
            r.version@ == CONTRACT_VERSION@,
            r.description@ == CONTRACT_DESCRIPTION@,
    {
        ContractMetadata {
            name: CONTRACT_NAME.to_owned(),
            version: CONTRACT_VERSION.to_owned(),
            description: CONTRACT_DESCRIPTION.to_owned(),
        }
    }

    /// Read-only: the staking lockup duration in seconds (0 = disabled).
    pub fn get_lockup_duration(config: &Config) -> (r: u64)
        ensures
            r == config.lockup_duration,
    {
        config.lockup_duration
    }

    /// Read-only: the ledger timestamp at which a user's stake unlocks, from
    /// the stored one; 0 when none is stored (never deposited under a lockup).
    pub fn get_unlock_time(stored: Option<u64>) -> (r: u64)
        ensures
            r == match stored {
                Some(t) => t,
                None => 0,
            },
    {
        match stored {
            Some(t) => t,
            None => 0,
        }
    }

    /// Read-only: the management fee in basis points (0 = disabled).
    pub fn get_management_fee(config: &Config) -> (r: u32)
        ensures
            r == config.management_fee_bps,
    {
        config.management_fee_bps
    }

    /// Read-only: the configured fee collector, if any has been set.
    pub fn get_fee_collector(config: &Config) -> (r: Option<AddressKey>)
        ensures
            r == config.fee_collector,
    {
        config.fee_collector
    }

    /// Read-only: the full management-fee configuration as (fee_bps, collector).
    pub fn get_fee_config(config: &Config) -> (r: (u32, Option<AddressKey>))
        ensures
            r == (config.management_fee_bps, config.fee_collector),
    {
        (config.management_fee_bps, config.fee_collector)
    }
}

} // verus!