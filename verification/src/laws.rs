use vstd::prelude::*;
use crate::contract::{
    claim_from_spec, claim_many_from, claim_many_spec, create_pool_spec, deposit_into_spec, distribute_to_spec, get_pool_pending_spec, initialize_spec,
    is_token_of, last_write, load_pool_spec, pool_pending_spec, recover_token_spec, set_pool_paused_spec, withdraw_from_spec,
    MAX_CLAIM_POOLS,
};
use crate::custody::{moves, paid};
use crate::ledger::{lemma_writes_keep_pools, Call, Ledger};
use crate::math::{accumulated_spec, fits_i128, pending_spec, SCALE};
use crate::types::{AddressKey, Config, Effect, Error, Event, Pool, PoolId, Position};

verus! {

impl Ledger {
    /// What `user` could claim from pool `pool_id` now.
    pub open spec fn pending(self, pool_id: PoolId, user: AddressKey) -> Result<i128, Error> {
        get_pool_pending_spec(self.config, self.stored_pool(pool_id), self.position(pool_id, user))
    }
}

/// A position whose debt was just reset to what it has earned has nothing
/// pending.
proof fn lemma_reset_debt_settles(shares: i128, index: i128, debt: i128)
    requires
        accumulated_spec(shares as int, index as int) == Ok::<i128, Error>(debt),
    ensures
        pending_spec(shares as int, index as int, debt as int) == Ok::<i128, Error>(0),
{
}

/// A deposit settles the depositor: right after it, nothing is pending to
/// them in that pool (what was pending was paid out by the deposit).
pub proof fn lemma_deposit_settles(l: Ledger, pool_id: PoolId, user: AddressKey, amount: i128, now: u64, this: AddressKey)
    requires
        deposit_into_spec(
            l.config, pool_id, user, amount, l.stored_pool(pool_id), l.position(pool_id, user),
            l.stake_cap(user), now, this,
        ) matches Some((_, Ok(_))),
    ensures
        l.step(Call::DepositInto { pool_id, user, amount }, now, this).pending(pool_id, user) == Ok::<i128, Error>(0),
{
    if let Some((_, Ok(w))) = deposit_into_spec(
        l.config, pool_id, user, amount, l.stored_pool(pool_id), l.position(pool_id, user),
        l.stake_cap(user), now, this,
    ) {
        lemma_reset_debt_settles(w.position.shares, w.pool.acc_reward_per_share, w.position.reward_debt);
    }
}

/// A withdrawal settles the staker: right after it, nothing is pending to
/// them in that pool (what was pending was paid out by the withdrawal).
pub proof fn lemma_withdraw_settles(
    l: Ledger,
    pool_id: PoolId,
    user: AddressKey,
    amount: i128,
    now: u64,
    this: AddressKey,
)
    requires
        withdraw_from_spec(
            l.config, pool_id, user, amount, l.stored_pool(pool_id), l.position(pool_id, user),
            l.unlock_time(user), now, this,
        ).1 is Ok,
    ensures
        l.step(Call::WithdrawFrom { pool_id, user, amount }, now, this).pending(pool_id, user) == Ok::<i128, Error>(0),
{
    if let Ok(w) = withdraw_from_spec(
        l.config, pool_id, user, amount, l.stored_pool(pool_id), l.position(pool_id, user),
        l.unlock_time(user), now, this,
    ).1 {
        if let Some(p) = w.position {
            lemma_reset_debt_settles(p.shares, w.pool.acc_reward_per_share, p.reward_debt);
        }
    }
}

/// A claim pays exactly what was pending (nothing when nothing was), and is
/// refused exactly when reading the pending reward is refused, with the same
/// error.
pub proof fn lemma_claim_pays_pending(l: Ledger, pool_id: PoolId, user: AddressKey, this: AddressKey)
    ensures
        match l.pending(pool_id, user) {
            Ok(p) => claim_from_spec(l.config, pool_id, user, l.stored_pool(pool_id), l.position(pool_id, user), this).1
                matches Ok((paid, _)) && paid == (if p > 0 { p } else { 0 }),
            Err(e) => claim_from_spec(l.config, pool_id, user, l.stored_pool(pool_id), l.position(pool_id, user), this).1
                == Err::<(i128, Option<Position>), Error>(e),
        },
{
}

/// A claim settles the claimant: right after it, nothing positive is pending
/// to them in that pool.
pub proof fn lemma_claim_settles(l: Ledger, pool_id: PoolId, user: AddressKey, now: u64, this: AddressKey)
    requires
        claim_from_spec(l.config, pool_id, user, l.stored_pool(pool_id), l.position(pool_id, user), this).1 is Ok,
    ensures
        l.step(Call::ClaimFrom { pool_id, user }, now, this).pending(pool_id, user) matches Ok(p) && p <= 0,
{
    if let Ok((_, Some(p))) = claim_from_spec(
        l.config, pool_id, user, l.stored_pool(pool_id), l.position(pool_id, user), this,
    ).1 {
        lemma_reset_debt_settles(p.shares, l.pools[pool_id].acc_reward_per_share, p.reward_debt);
    }
}

/// The contract is initialized once: after a successful initialization, any
/// further one is refused with `AlreadyInitialized`.
pub proof fn lemma_initialize_once(
    l: Ledger,
    admin: AddressKey,
    share_token: AddressKey,
    reward_token: AddressKey,
    admin2: AddressKey,
    share_token2: AddressKey,
    reward_token2: AddressKey,
    now: u64,
    this: AddressKey,
)
    requires
        initialize_spec(l.config, admin, share_token, reward_token).1 is Ok,
    ensures
        initialize_spec(
            l.step(Call::Initialize { admin, share_token, reward_token }, now, this).config,
            admin2,
            share_token2,
            reward_token2,
        ).1 == Err::<(crate::types::Config, crate::types::Pool), Error>(Error::AlreadyInitialized),
{
}

/// The lockup holds: after a deposit under a lockup of `L` seconds at time
/// `now`, withdrawing before `now + L` is refused with `StillLocked`.
pub proof fn lemma_lockup_blocks_early_withdrawal(
    l: Ledger,
    pool_id: PoolId,
    user: AddressKey,
    amount: i128,
    now: u64,
    pool_id2: PoolId,
    amount2: i128,
    later: u64,
    this: AddressKey,
)
    requires
        deposit_into_spec(
            l.config, pool_id, user, amount, l.stored_pool(pool_id), l.position(pool_id, user),
            l.stake_cap(user), now, this,
        ) matches Some((_, Ok(_))),
        l.config.lockup_duration > 0,
        later < now + l.config.lockup_duration,
        amount2 > 0,
    ensures
        ({
            let l1 = l.step(Call::DepositInto { pool_id, user, amount }, now, this);
            withdraw_from_spec(
                l1.config, pool_id2, user, amount2, l1.stored_pool(pool_id2), l1.position(pool_id2, user),
                l1.unlock_time(user), later, this,
            ).1 == Err::<crate::contract::WithdrawWrites, Error>(Error::StillLocked)
        }),
{
}

/// Staking is reversible: withdrawing, once unlocked, what a deposit added
/// succeeds and restores the pool's total and the staker's shares, leaving
/// nothing pending.
pub proof fn lemma_deposit_then_withdraw_restores(
    l: Ledger,
    pool_id: PoolId,
    user: AddressKey,
    amount: i128,
    now: u64,
    later: u64,
    this: AddressKey,
)
    requires
        l.inv(),
        deposit_into_spec(
            l.config, pool_id, user, amount, l.stored_pool(pool_id), l.position(pool_id, user),
            l.stake_cap(user), now, this,
        ) matches Some((_, Ok(_))),
        later >= l.step(Call::DepositInto { pool_id, user, amount }, now, this).unlock_time(user),
    ensures
        ({
            let l1 = l.step(Call::DepositInto { pool_id, user, amount }, now, this);
            let l2 = l1.step(Call::WithdrawFrom { pool_id, user, amount }, later, this);
            &&& withdraw_from_spec(
                l1.config, pool_id, user, amount, l1.stored_pool(pool_id), l1.position(pool_id, user),
                l1.unlock_time(user), later, this,
            ).1 is Ok
            &&& l2.pools[pool_id].total_shares == l.pools[pool_id].total_shares
            &&& l2.position(pool_id, user).shares == l.position(pool_id, user).shares
            &&& l2.pending(pool_id, user) == Ok::<i128, Error>(0)
        }),
{
    let l1 = l.step(Call::DepositInto { pool_id, user, amount }, now, this);
    assert(l.pools.dom().contains(pool_id));
    assert(l.pool_balanced(pool_id));
    let s = l.position(pool_id, user).shares;
    assert(s >= 0);
    let pool = l.pools[pool_id];
    let acc = pool.acc_reward_per_share;
    if let Some((_, Ok(w))) = deposit_into_spec(
        l.config, pool_id, user, amount, l.stored_pool(pool_id), l.position(pool_id, user),
        l.stake_cap(user), now, this,
    ) {
        lemma_reset_debt_settles(w.position.shares, acc, w.position.reward_debt);
        assert(l1.position(pool_id, user) == w.position);
        assert(l1.pools[pool_id] == w.pool);
        let big = w.position.shares;
        assert(fits_i128(big * acc));
        assert(0 <= s * acc <= big * acc) by (nonlinear_arith)
            requires
                0 <= s <= big,
                acc >= 0,
        ;
        assert(fits_i128(s * acc));
        lemma_withdraw_settles(l1, pool_id, user, amount, later, this);
    }
}

/// Token recovery never touches stakers' funds: whatever is asked, it moves
/// neither the share token nor the reward token of any pool.
pub proof fn lemma_recover_spares_pool_tokens(
    l: Ledger,
    token: AddressKey,
    to: AddressKey,
    amount: i128,
    now: u64,
    this: AddressKey,
    pool_id: PoolId,
)
    requires
        l.inv(),
        l.pools.dom().contains(pool_id),
    ensures
        forall|k: int|
            0 <= k < l.committed(Call::RecoverToken { token, to, amount }, now, this).len() ==> {
                let e = #[trigger] l.committed(Call::RecoverToken { token, to, amount }, now, this)[k];
                !moves(e, l.pools[pool_id].share_token) && !moves(e, l.pools[pool_id].reward_token)
            },
{
    assert(l.all_pools()[pool_id as int] == l.stored_pool(pool_id));
    if recover_token_spec(l.config, token, to, amount, l.all_pools(), this).1 is Ok {
        assert(!is_token_of(l.all_pools()[pool_id as int], token));
    }
}

/// A global pause halts new stakes and distributions, and pool creation once
/// initialized: while paused they are refused with `ContractPaused`, and
/// nothing changes.
pub proof fn lemma_pause_halts(l: Ledger, call: Call, now: u64, this: AddressKey)
    requires
        l.config.paused,
        call is DepositInto || call is DistributeTo || (call is CreatePool && l.config.initialized),
    ensures
        l.step(call, now, this) == l,
        l.committed(call, now, this) == Seq::<Effect>::empty(),
        match call {
            Call::DepositInto { pool_id, user, amount } => deposit_into_spec(
                l.config, pool_id, user, amount, l.stored_pool(pool_id), l.position(pool_id, user),
                l.stake_cap(user), now, this,
            ) matches Some((_, Err(e))) && e == Error::ContractPaused,
            Call::DistributeTo { pool_id, sender, amount } => distribute_to_spec(
                l.config, pool_id, sender, amount, l.stored_pool(pool_id), this,
            ) matches Some((_, Err(e))) && e == Error::ContractPaused,
            Call::CreatePool { manager, share_token, reward_token } => create_pool_spec(
                l.config, manager, share_token, reward_token,
            ).1 == Err::<(PoolId, Pool, Config), Error>(Error::ContractPaused),
            _ => true,
        },
{
}

/// The claims by `user` from the pools `pool_ids[i..]`, made one after the
/// other from `l` with `claim_from`: their effects (without each claim's own
/// demand for the user's authorization), what they pay in total up to the
/// first refused one, and the state they leave, or that first refusal.
pub open spec fn claims_in_turn(l: Ledger, user: AddressKey, pool_ids: Seq<PoolId>, this: AddressKey, i: int) -> (
    Seq<Effect>,
    int,
    Result<Ledger, Error>,
)
    decreases pool_ids.len() - i,
{
    if i < 0 || i >= pool_ids.len() {
        (seq![], 0, Ok(l))
    } else {
        let pool_id = pool_ids[i];
        let (effects, result) = claim_from_spec(l.config, pool_id, user, l.stored_pool(pool_id), l.position(pool_id, user), this);
        match result {
            Err(e) => (effects.drop_first(), 0, Err(e)),
            Ok((amount, written)) => {
                let next = match written {
                    Some(p) => l.with_position(pool_id, user, Some(p)),
                    None => l,
                };
                let (rest, total, outcome) = claims_in_turn(next, user, pool_ids, this, i + 1);
                (effects.drop_first() + rest, amount + total, outcome)
            },
        }
    }
}

/// After a user's position writes, their position in a pool is the last one
/// written there, or the one stored before.
proof fn lemma_written_position(l: Ledger, user: AddressKey, writes: Seq<(PoolId, Position)>, pool_id: PoolId)
    ensures
        l.with_writes(user, writes).position(pool_id, user) == match last_write(writes, pool_id) {
            Some(p) => p,
            None => l.position(pool_id, user),
        },
    decreases writes.len(),
{
    if writes.len() > 0 {
        lemma_written_position(l, user, writes.drop_last(), pool_id);
    }
}

proof fn lemma_claims_in_turn(
    l: Ledger,
    user: AddressKey,
    pool_ids: Seq<PoolId>,
    this: AddressKey,
    i: int,
    effects: Seq<Effect>,
    writes: Seq<(PoolId, Position)>,
    total: int,
)
    requires
        0 <= i,
        0 <= total,
        fits_i128(total),
    ensures
        ({
            let (ce, cr) = claim_many_from(
                l.config, user, pool_ids, l.claim_entries(user, pool_ids), this, i, effects, writes, total,
            );
            let (se, st, sr) = claims_in_turn(l.with_writes(user, writes), user, pool_ids, this, i);
            &&& st >= 0
            &&& fits_i128(total + st) ==> {
                &&& ce == effects + se
                &&& match sr {
                    Err(e) => cr == Err::<(i128, Seq<(PoolId, Position)>), Error>(e),
                    Ok(lf) => cr matches Ok((t, w)) && t == total + st && l.with_writes(user, w) == lf,
                }
            }
        }),
    decreases pool_ids.len() - i,
{
    let entries = l.claim_entries(user, pool_ids);
    let lw = l.with_writes(user, writes);
    lemma_writes_keep_pools(l, user, writes);
    if i >= pool_ids.len() {
        assert(effects + Seq::<Effect>::empty() =~= effects);
    } else {
        let pool_id = pool_ids[i];
        lemma_written_position(l, user, writes, pool_id);
        assert(lw.stored_pool(pool_id) == entries[i].0);
        let position = match last_write(writes, pool_id) {
            Some(p) => p,
            None => entries[i].1,
        };
        assert(lw.position(pool_id, user) == position);
        let auth = seq![Effect::RequireAuth { address: user }];
        assert(auth.drop_first() =~= Seq::<Effect>::empty());
        if let Ok(pool) = load_pool_spec(l.config, entries[i].0) {
            if let Ok(pending) = pool_pending_spec(pool, position) {
                if pending > 0 {
                    if let Ok(debt) = accumulated_spec(position.shares as int, pool.acc_reward_per_share as int) {
                        let pair = seq![
                            Effect::Transfer { token: pool.reward_token, from: this, to: user, amount: pending },
                            Effect::Emit { event: Event::Claimed { pool_id, user, amount: pending } },
                        ];
                        assert((auth + pair).drop_first() =~= pair);
                        let p = Position { reward_debt: debt, ..position };
                        let written = writes.push((pool_id, p));
                        assert(written.drop_last() =~= writes);
                        assert(l.with_writes(user, written) == lw.with_position(pool_id, user, Some(p)));
                        if fits_i128(total + pending) {
                            lemma_claims_in_turn(l, user, pool_ids, this, i + 1, effects + pair, written, total + pending);
                            let se2 = claims_in_turn(l.with_writes(user, written), user, pool_ids, this, i + 1).0;
                            assert(effects + pair + se2 =~= effects + (pair + se2));
                        } else {
                            lemma_claims_in_turn(l, user, pool_ids, this, i + 1, effects + pair, written, 0);
                        }
                    } else {
                        assert(effects + Seq::<Effect>::empty() =~= effects);
                    }
                } else {
                    lemma_claims_in_turn(l, user, pool_ids, this, i + 1, effects, writes, total);
                    let se2 = claims_in_turn(lw, user, pool_ids, this, i + 1).0;
                    assert(Seq::<Effect>::empty() + se2 =~= se2);
                }
            } else {
                assert(effects + Seq::<Effect>::empty() =~= effects);
            }
        } else {
            assert(effects + Seq::<Effect>::empty() =~= effects);
        }
    }
}

/// Claiming from many pools at once is claiming from each of them in turn:
/// when what the claims pay adds up to an amount that fits, `claim_many`
/// performs, after demanding the user's authorization once, exactly the
/// transfers and events of the claims made one after the other with
/// `claim_from` (a pool named again pays nothing the second time), pays
/// their total, and leaves the state they leave; it is refused with the
/// first refusal among them.
pub proof fn lemma_claim_many_is_claims_in_turn(
    l: Ledger,
    user: AddressKey,
    pool_ids: Seq<PoolId>,
    now: u64,
    this: AddressKey,
)
    requires
        pool_ids.len() <= MAX_CLAIM_POOLS,
        fits_i128(claims_in_turn(l, user, pool_ids, this, 0).1),
    ensures
        ({
            let (ce, cr) = claim_many_spec(l.config, user, pool_ids, l.claim_entries(user, pool_ids), this);
            let (se, st, sr) = claims_in_turn(l, user, pool_ids, this, 0);
            &&& ce == seq![Effect::RequireAuth { address: user }] + se
            &&& match sr {
                Err(e) => cr == Err::<(i128, Seq<(PoolId, Position)>), Error>(e),
                Ok(lf) => cr matches Ok((t, _)) && t == st && l.step(Call::ClaimMany { user, pool_ids }, now, this) == lf,
            }
        }),
{
    assert(l.with_writes(user, Seq::<(PoolId, Position)>::empty()) == l);
    lemma_claims_in_turn(l, user, pool_ids, this, 0, seq![Effect::RequireAuth { address: user }], seq![], 0);
}

/// Deposits and withdrawals auto-claim: an accepted one first pays the
/// staker exactly what was pending to them (when anything was), in the
/// pool's reward token, so no position is overwritten with rewards unpaid.
pub proof fn lemma_stake_changes_pay_pending(l: Ledger, call: Call, now: u64, this: AddressKey)
    requires
        call is DepositInto || call is WithdrawFrom,
        l.committed(call, now, this).len() > 0,
    ensures
        match call {
            Call::DepositInto { pool_id, user, .. } => paid(l.pending(pool_id, user)) > 0 ==> l.committed(call, now, this)[1]
                == Effect::Transfer {
                    token: l.pools[pool_id].reward_token,
                    from: this,
                    to: user,
                    amount: paid(l.pending(pool_id, user)) as i128,
                },
            Call::WithdrawFrom { pool_id, user, .. } => paid(l.pending(pool_id, user)) > 0 ==> l.committed(call, now, this)[1]
                == Effect::Transfer {
                    token: l.pools[pool_id].reward_token,
                    from: this,
                    to: user,
                    amount: paid(l.pending(pool_id, user)) as i128,
                },
            _ => true,
        },
{
}

/// A full withdrawal clears the position: once all of a staker's shares are
/// withdrawn, no position of theirs remains stored in the pool.
pub proof fn lemma_full_withdrawal_clears_position(
    l: Ledger,
    pool_id: PoolId,
    user: AddressKey,
    now: u64,
    this: AddressKey,
)
    requires
        withdraw_from_spec(
            l.config, pool_id, user, l.position(pool_id, user).shares, l.stored_pool(pool_id), l.position(pool_id, user),
            l.unlock_time(user), now, this,
        ).1 is Ok,
    ensures
        !l.step(Call::WithdrawFrom { pool_id, user, amount: l.position(pool_id, user).shares }, now, this).stakers(
            pool_id,
        ).dom().contains(user),
{
}

/// Whose authorization a call needs: the admin for administration, a pool's
/// manager for that pool's settings, the acting staker or sender for
/// staking, claiming and funding, and the would-be admin for initialization.
pub open spec fn authorizer(l: Ledger, call: Call) -> AddressKey {
    match call {
        Call::Initialize { admin, .. } => admin,
        Call::SetPoolManager { pool_id, .. } => l.pools[pool_id].manager,
        Call::SetPoolPaused { pool_id, .. } => l.pools[pool_id].manager,
        Call::DepositInto { user, .. } => user,
        Call::WithdrawFrom { user, .. } => user,
        Call::ClaimFrom { user, .. } => user,
        Call::ClaimMany { user, .. } => user,
        Call::DistributeTo { sender, .. } => sender,
        _ => l.config.admin->0,
    }
}

proof fn lemma_claim_many_extends(
    l: Ledger,
    user: AddressKey,
    pool_ids: Seq<PoolId>,
    this: AddressKey,
    i: int,
    effects: Seq<Effect>,
    writes: Seq<(PoolId, Position)>,
    total: int,
)
    requires
        0 <= i,
    ensures
        ({
            let out = claim_many_from(l.config, user, pool_ids, l.claim_entries(user, pool_ids), this, i, effects, writes, total).0;
            out.len() >= effects.len() && forall|k: int| 0 <= k < effects.len() ==> out[k] == effects[k]
        }),
    decreases pool_ids.len() - i,
{
    let entries = l.claim_entries(user, pool_ids);
    if i < pool_ids.len() {
        let pool_id = pool_ids[i];
        let position = match last_write(writes, pool_id) {
            Some(p) => p,
            None => entries[i].1,
        };
        if let Ok(pool) = load_pool_spec(l.config, entries[i].0) {
            if let Ok(pending) = pool_pending_spec(pool, position) {
                if pending > 0 {
                    if let Ok(debt) = accumulated_spec(position.shares as int, pool.acc_reward_per_share as int) {
                        let added = seq![
                            Effect::Transfer { token: pool.reward_token, from: this, to: user, amount: pending },
                            Effect::Emit { event: Event::Claimed { pool_id, user, amount: pending } },
                        ];
                        let written = writes.push((pool_id, Position { reward_debt: debt, ..position }));
                        lemma_claim_many_extends(l, user, pool_ids, this, i + 1, effects + added, written, total + pending);
                    }
                } else {
                    lemma_claim_many_extends(l, user, pool_ids, this, i + 1, effects, writes, total);
                }
            }
        }
    }
}

/// Nothing happens without the right authorization: every accepted call
/// first demands the authorization of its authorizer (the host aborts the
/// call when it is missing).  In particular only the admin administers the
/// contract, only a pool's manager changes the pool's settings, and only a
/// staker moves their own stake and rewards.
pub proof fn lemma_accepted_calls_are_authorized(l: Ledger, call: Call, now: u64, this: AddressKey)
    requires
        l.inv(),
        l.committed(call, now, this).len() > 0,
    ensures
        l.committed(call, now, this)[0] == (Effect::RequireAuth { address: authorizer(l, call) }),
{
    match call {
        Call::ClaimMany { user, pool_ids } => {
            if pool_ids.len() <= MAX_CLAIM_POOLS {
                lemma_claim_many_extends(l, user, pool_ids, this, 0, seq![Effect::RequireAuth { address: user }], seq![], 0);
            }
        },
        Call::SetPoolManager { pool_id, .. } => {
            assert(l.pools.dom().contains(pool_id) ==> l.stored_pool(pool_id) == Some(l.pools[pool_id]));
        },
        Call::SetPoolPaused { pool_id, .. } => {
            assert(l.pools.dom().contains(pool_id) ==> l.stored_pool(pool_id) == Some(l.pools[pool_id]));
        },
        _ => {},
    }
}

/// The minimum deposit bounds the amount deposited, not the stake it makes:
/// while the contract is not paused, a deposit of a positive amount below
/// the minimum is refused with `BelowMinimumDeposit` (after demanding only
/// the staker's authorization), whatever the staker already holds, whatever
/// the pool and the staker's cap; and an accepted deposit is never of less
/// than the minimum.
pub proof fn lemma_minimum_deposit_bounds_the_amount(
    config: Config,
    pool_id: PoolId,
    user: AddressKey,
    amount: i128,
    stored: Option<Pool>,
    position: Position,
    max_stake: Option<i128>,
    now: u64,
    this: AddressKey,
)
    ensures
        !config.paused && 0 < amount < config.minimum_deposit ==> deposit_into_spec(
            config, pool_id, user, amount, stored, position, max_stake, now, this,
        ) == Some((seq![Effect::RequireAuth { address: user }], Err::<crate::contract::DepositWrites, Error>(Error::BelowMinimumDeposit))),
        deposit_into_spec(config, pool_id, user, amount, stored, position, max_stake, now, this) matches Some((_, Ok(w)))
            ==> amount >= config.minimum_deposit && amount > 0 && w.position.shares == position.shares + amount,
        deposit_into_spec(config, pool_id, user, amount, stored, position, max_stake, now, this) matches Some(
            (_, Err(Error::BelowMinimumDeposit)),
        ) ==> 0 < amount < config.minimum_deposit,
{
}

/// Pausing a pool stops deposits and distributions only: a withdrawal from a
/// paused pool performs the same effects and gives the same answer as from
/// the same pool not paused (the pool it writes back keeps its flag), so a
/// staker can always take their shares out of a paused pool.
pub proof fn lemma_withdraw_ignores_pool_pause(
    config: Config,
    pool_id: PoolId,
    user: AddressKey,
    amount: i128,
    pool: Pool,
    position: Position,
    unlock_at: u64,
    now: u64,
    this: AddressKey,
)
    ensures
        ({
            let paused = withdraw_from_spec(
                config, pool_id, user, amount, Some(Pool { paused: true, ..pool }), position, unlock_at, now, this,
            );
            let active = withdraw_from_spec(
                config, pool_id, user, amount, Some(Pool { paused: false, ..pool }), position, unlock_at, now, this,
            );
            &&& paused.0 == active.0
            &&& match (paused.1, active.1) {
                (Ok(a), Ok(b)) => a.position == b.position && a.pool == Pool { paused: true, ..b.pool },
                (Err(x), Err(y)) => x == y,
                _ => false,
            }
        }),
{
    let pp = Pool { paused: true, ..pool };
    let pa = Pool { paused: false, ..pool };
    assert(pool_pending_spec(pp, position) == pool_pending_spec(pa, position));
}

/// Pausing or resuming a pool sets its flag to what was asked and touches
/// nothing else of it; it is accepted exactly when the contract is
/// initialized and the pool exists.  So resuming a pool that its manager
/// paused gives back the pool as it was.
pub proof fn lemma_set_pool_paused_sets_the_flag(
    config: Config,
    pool_id: PoolId,
    pool: Pool,
    paused: bool,
)
    ensures
        set_pool_paused_spec(config, pool_id, Some(pool), paused).1 is Ok <==> config.initialized,
        set_pool_paused_spec(config, pool_id, None, paused).1 is Err,
        set_pool_paused_spec(config, pool_id, Some(pool), paused).1 matches Ok(p) ==> {
            &&& p.paused == paused
            &&& p.manager == pool.manager
            &&& p.share_token == pool.share_token
            &&& p.reward_token == pool.reward_token
            &&& p.total_shares == pool.total_shares
            &&& p.acc_reward_per_share == pool.acc_reward_per_share
        },
        config.initialized ==> set_pool_paused_spec(config, pool_id, Some(pool), paused).0 == seq![
            Effect::RequireAuth { address: pool.manager },
            Effect::Emit { event: Event::PoolPauseChanged { pool_id, paused } },
        ],
        !pool.paused && config.initialized ==> ({
            let stopped = set_pool_paused_spec(config, pool_id, Some(pool), true).1->Ok_0;
            set_pool_paused_spec(config, pool_id, Some(stopped), false).1 == Ok::<Pool, Error>(pool)
        }),
{
}

/// Initialization opens pool 0 managed by the admin who initialized the
/// contract, staking the given share token for the given reward token, empty
/// and not paused; afterwards the admin is the one whose authorization
/// pausing, resuming or handing over pool 0 demands.
pub proof fn lemma_initialize_gives_pool_zero_to_admin(
    l: Ledger,
    admin: AddressKey,
    share_token: AddressKey,
    reward_token: AddressKey,
    now: u64,
    this: AddressKey,
    paused: bool,
    new_manager: AddressKey,
)
    requires
        !l.config.initialized,
    ensures
        initialize_spec(l.config, admin, share_token, reward_token).1 matches Ok((c, p)) && {
            &&& p.manager == admin
            &&& p.share_token == share_token
            &&& p.reward_token == reward_token
            &&& p.total_shares == 0
            &&& p.acc_reward_per_share == 0
            &&& !p.paused
            &&& c.admin == Some(admin)
            &&& c.initialized
            &&& c.next_pool_id == 1
            &&& c.paused == l.config.paused
            &&& c.minimum_deposit == l.config.minimum_deposit
            &&& c.lockup_duration == l.config.lockup_duration
            &&& c.management_fee_bps == l.config.management_fee_bps
            &&& c.fee_collector == l.config.fee_collector
        },
        initialize_spec(l.config, admin, share_token, reward_token).0 == seq![Effect::RequireAuth { address: admin }],
        ({
            let l1 = l.step(Call::Initialize { admin, share_token, reward_token }, now, this);
            &&& l1.stored_pool(0) matches Some(p) && p.manager == admin
            &&& l1.committed(Call::SetPoolPaused { pool_id: 0, paused }, now, this)[0] == Effect::RequireAuth { address: admin }
            &&& l1.committed(Call::SetPoolManager { pool_id: 0, new_manager }, now, this)[0] == Effect::RequireAuth { address: admin }
        }),
{
}

/// What an accepted deposit is: the contract and the pool are active, the
/// amount is positive and at least the minimum, the new stake respects the
/// staker's cap; the pool's total and the staker's shares both grow by the
/// amount (nothing else of the pool changes), the staker's shares move into
/// the contract as the last transfer, and the lockup restarts from `now`.
/// A paused pool refuses deposits with `PoolPaused`.
pub proof fn lemma_accepted_deposit(
    config: Config,
    pool_id: PoolId,
    user: AddressKey,
    amount: i128,
    pool: Pool,
    position: Position,
    max_stake: Option<i128>,
    now: u64,
    this: AddressKey,
)
    ensures
        deposit_into_spec(config, pool_id, user, amount, Some(pool), position, max_stake, now, this) matches Some(
            (effects, Ok(w)),
        ) ==> {
            &&& config.initialized && !config.paused && !pool.paused
            &&& amount > 0 && amount >= config.minimum_deposit
            &&& match max_stake {
                Some(cap) => position.shares + amount <= cap,
                None => true,
            }
            &&& w.pool == Pool { total_shares: (pool.total_shares + amount) as i128, ..pool }
            &&& w.pool.total_shares == pool.total_shares + amount
            &&& w.position.shares == position.shares + amount
            &&& w.unlock_at == (if config.lockup_duration > 0 {
                Some((now + config.lockup_duration) as u64)
            } else {
                None::<u64>
            })
            &&& effects.len() >= 3
            &&& effects[0] == Effect::RequireAuth { address: user }
            &&& effects[effects.len() - 2] == Effect::Transfer { token: pool.share_token, from: user, to: this, amount }
            &&& effects.last() == Effect::Emit { event: Event::Deposited { pool_id, user, amount } }
        },
        config.initialized && !config.paused && amount > 0 && amount >= config.minimum_deposit && pool.paused
            ==> deposit_into_spec(config, pool_id, user, amount, Some(pool), position, max_stake, now, this)
            == Some((seq![Effect::RequireAuth { address: user }], Err::<crate::contract::DepositWrites, Error>(Error::PoolPaused))),
{
}

/// What an accepted withdrawal is: the amount is positive and at most the
/// staker's shares, the lockup has expired; the pool's total and the
/// staker's shares both shrink by the amount (nothing else of the pool
/// changes), the position is removed exactly when no shares remain, and the
/// shares go back to the staker as the last transfer.
pub proof fn lemma_accepted_withdrawal(
    config: Config,
    pool_id: PoolId,
    user: AddressKey,
    amount: i128,
    pool: Pool,
    position: Position,
    unlock_at: u64,
    now: u64,
    this: AddressKey,
)
    ensures
        withdraw_from_spec(config, pool_id, user, amount, Some(pool), position, unlock_at, now, this) matches (
            effects,
            Ok(w),
        ) ==> {
            &&& config.initialized
            &&& 0 < amount <= position.shares
            &&& now >= unlock_at
            &&& w.pool == Pool { total_shares: (pool.total_shares - amount) as i128, ..pool }
            &&& w.pool.total_shares == pool.total_shares - amount
            &&& (w.position is None <==> position.shares == amount)
            &&& (w.position matches Some(p) ==> p.shares == position.shares - amount)
            &&& effects.len() >= 3
            &&& effects[0] == Effect::RequireAuth { address: user }
            &&& effects[effects.len() - 2] == Effect::Transfer { token: pool.share_token, from: this, to: user, amount }
            &&& effects.last() == Effect::Emit { event: Event::Withdrawn { pool_id, user, amount } }
        },
{
}

} // verus!

