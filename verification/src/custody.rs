use vstd::prelude::*;
use crate::contract::{
    claim_from_spec, claim_many_from, claim_many_spec, create_pool_spec, deposit_into_spec, distribute_to_spec,
    is_token_of, last_write, load_pool_spec, payout_effects, pool_pending_spec, set_pool_manager_spec,
    set_pool_paused_spec, withdraw_from_spec, MAX_CLAIM_POOLS,
};
use crate::ledger::{lemma_writes_keep_pools, Call, Ledger};
use crate::math::{accumulated_spec, fee_spec};
use crate::types::{AddressKey, Effect, Error, Event, Pool, PoolId, Position};

verus! {

/// How much of `token` an effect moves into `this` (negative: out of it).
pub open spec fn flow(effect: Effect, token: AddressKey, this: AddressKey) -> int {
    match effect {
        Effect::Transfer { token: t, from, to, amount } => if t == token {
            (if to == this { amount as int } else { 0 }) - (if from == this { amount as int } else { 0 })
        } else {
            0
        },
        _ => 0,
    }
}

/// How much of `token` a sequence of effects moves into `this`, net.
pub open spec fn net_inflow(effects: Seq<Effect>, token: AddressKey, this: AddressKey) -> int
    decreases effects.len(),
{
    if effects.len() == 0 {
        0
    } else {
        net_inflow(effects.drop_last(), token, this) + flow(effects.last(), token, this)
    }
}

/// Whether an effect is a transfer of `token`.
pub open spec fn moves(effect: Effect, token: AddressKey) -> bool {
    effect matches Effect::Transfer { token: t, .. } && t == token
}

proof fn lemma_net_inflow_concat(a: Seq<Effect>, b: Seq<Effect>, token: AddressKey, this: AddressKey)
    ensures
        net_inflow(a + b, token, this) == net_inflow(a, token, this) + net_inflow(b, token, this),
    decreases b.len(),
{
    if b.len() == 0 {
        assert(a + b =~= a);
    } else {
        lemma_net_inflow_concat(a, b.drop_last(), token, this);
        assert((a + b).drop_last() =~= a + b.drop_last());
        assert((a + b).last() == b.last());
    }
}

proof fn lemma_net_inflow_untouched(effects: Seq<Effect>, token: AddressKey, this: AddressKey)
    requires
        forall|k: int| 0 <= k < effects.len() ==> !moves(#[trigger] effects[k], token),
    ensures
        net_inflow(effects, token, this) == 0,
    decreases effects.len(),
{
    if effects.len() > 0 {
        let prefix = effects.drop_last();
        assert forall|k: int| 0 <= k < prefix.len() implies !moves(#[trigger] prefix[k], token) by {
            assert(prefix[k] == effects[k]);
        }
        lemma_net_inflow_untouched(prefix, token, this);
        assert(!moves(effects[effects.len() - 1], token));
    }
}

/// The address on whose behalf a call moves tokens, if any.
pub open spec fn party(call: Call) -> Option<AddressKey> {
    match call {
        Call::DepositInto { user, .. } => Some(user),
        Call::WithdrawFrom { user, .. } => Some(user),
        Call::ClaimFrom { user, .. } => Some(user),
        Call::ClaimMany { user, .. } => Some(user),
        Call::DistributeTo { sender, .. } => Some(sender),
        _ => None,
    }
}

/// The claims of `claim_many` move no token other than the reward tokens of
/// the pools they load.
proof fn lemma_claim_many_moves_rewards(
    l: Ledger,
    user: AddressKey,
    pool_ids: Seq<PoolId>,
    this: AddressKey,
    i: int,
    effects: Seq<Effect>,
    writes: Seq<(PoolId, Position)>,
    total: int,
    token: AddressKey,
)
    requires
        0 <= i,
        forall|id: PoolId| #[trigger] l.pools.dom().contains(id) ==> l.pools[id].reward_token != token,
    ensures
        net_inflow(
            claim_many_from(l.config, user, pool_ids, l.claim_entries(user, pool_ids), this, i, effects, writes, total).0,
            token,
            this,
        ) == net_inflow(effects, token, this),
    decreases pool_ids.len() - i,
{
    let entries = l.claim_entries(user, pool_ids);
    if i < pool_ids.len() {
        let pool_id = pool_ids[i];
        let position = match last_write(writes, pool_id) {
            Some(p) => p,
            None => entries[i].1,
        };
        if let Ok(pool) = load_pool_spec(l.config, entries[i].0) {
            if let Ok(pending) = pool_pending_spec(pool, position) {
                if pending > 0 {
                    if let Ok(debt) = accumulated_spec(position.shares as int, pool.acc_reward_per_share as int) {
                        let added = seq![
                            Effect::Transfer { token: pool.reward_token, from: this, to: user, amount: pending },
                            Effect::Emit { event: Event::Claimed { pool_id, user, amount: pending } },
                        ];
                        assert(l.pools.dom().contains(pool_id));
                        lemma_net_inflow_untouched(added, token, this);
                        lemma_net_inflow_concat(effects, added, token, this);
                        let written = writes.push((pool_id, Position { reward_debt: debt, ..position }));
                        lemma_claim_many_moves_rewards(l, user, pool_ids, this, i + 1, effects + added, written, total + pending, token);
                    }
                } else {
                    lemma_claim_many_moves_rewards(l, user, pool_ids, this, i + 1, effects, writes, total, token);
                }
            }
        }
    }
}

proof fn lemma_single_flow(effect: Effect, token: AddressKey, this: AddressKey)
    ensures
        net_inflow(seq![effect], token, this) == flow(effect, token, this),
{
    assert(seq![effect].drop_last() =~= Seq::<Effect>::empty());
    assert(net_inflow(Seq::<Effect>::empty(), token, this) == 0);
    assert(seq![effect].last() == effect);
}

// ── Custody of share tokens ──────────────────────────────────────

/// What pool `id` contributes to the stake held in `token`: its total shares
/// when `token` is its share token.
pub open spec fn contribution(pools: Map<PoolId, Pool>, token: AddressKey, id: int) -> int {
    if 0 <= id <= u32::MAX && pools.dom().contains(id as PoolId) && pools[id as PoolId].share_token == token {
        pools[id as PoolId].total_shares as int
    } else {
        0
    }
}

/// The shares staked in `token` over the pools with ids below `n`.
pub open spec fn staked_below(pools: Map<PoolId, Pool>, token: AddressKey, n: int) -> int
    decreases n,
{
    if n <= 0 {
        0
    } else {
        staked_below(pools, token, n - 1) + contribution(pools, token, n - 1)
    }
}

/// The shares staked in `token`, over every pool that has it as share token.
pub open spec fn staked_in(l: Ledger, token: AddressKey) -> int {
    staked_below(l.pools, token, l.config.next_pool_id as int)
}

proof fn lemma_staked_agree(p1: Map<PoolId, Pool>, p2: Map<PoolId, Pool>, token: AddressKey, n: int)
    requires
        forall|id: int| 0 <= id < n ==> contribution(p1, token, id) == contribution(p2, token, id),
    ensures
        staked_below(p1, token, n) == staked_below(p2, token, n),
    decreases n,
{
    if n > 0 {
        lemma_staked_agree(p1, p2, token, n - 1);
        assert(contribution(p1, token, n - 1) == contribution(p2, token, n - 1));
    }
}

proof fn lemma_staked_update(pools: Map<PoolId, Pool>, token: AddressKey, n: int, p: PoolId, pool: Pool)
    requires
        pools.dom().contains(p),
        p < n,
        pool.share_token == pools[p].share_token,
    ensures
        staked_below(pools.insert(p, pool), token, n) == staked_below(pools, token, n) + (if pools[p].share_token
            == token {
            pool.total_shares - pools[p].total_shares
        } else {
            0
        }),
    decreases n,
{
    let ins = pools.insert(p, pool);
    if n - 1 == p {
        assert forall|id: int| 0 <= id < n - 1 implies contribution(ins, token, id) == contribution(pools, token, id) by {
            if 0 <= id <= u32::MAX {
                assert(id as PoolId != p);
            }
        }
        lemma_staked_agree(ins, pools, token, n - 1);
    } else {
        lemma_staked_update(pools, token, n - 1, p, pool);
        assert(contribution(ins, token, n - 1) == contribution(pools, token, n - 1)) by {
            if 0 <= n - 1 <= u32::MAX {
                assert((n - 1) as PoolId != p);
            }
        }
    }
}

/// Replacing a stored pool by one with the same share token and total keeps
/// the stake held in every token.
proof fn lemma_same_stake(l: Ledger, p: PoolId, pool: Pool, token: AddressKey)
    requires
        l.inv(),
        l.pools.dom().contains(p),
        pool.share_token == l.pools[p].share_token,
        pool.total_shares == l.pools[p].total_shares,
    ensures
        staked_in(l.with_pool(p, pool), token) == staked_in(l, token),
{
    lemma_staked_update(l.pools, token, l.config.next_pool_id as int, p, pool);
}

proof fn lemma_custody_deposit(l: Ledger, p: PoolId, user: AddressKey, amount: i128, now: u64, this: AddressKey, token: AddressKey)
    requires
        l.inv(),
        forall|id: PoolId| #[trigger] l.pools.dom().contains(id) ==> l.pools[id].reward_token != token,
        user != this,
    ensures
        net_inflow(l.committed(Call::DepositInto { pool_id: p, user, amount }, now, this), token, this)
            == staked_in(l.step(Call::DepositInto { pool_id: p, user, amount }, now, this), token) - staked_in(l, token),
{
    let effects = l.committed(Call::DepositInto { pool_id: p, user, amount }, now, this);
    if let Some((_, Ok(w))) = deposit_into_spec(
        l.config, p, user, amount, l.stored_pool(p), l.position(p, user), l.stake_cap(user), now, this,
    ) {
        assert(l.pools.dom().contains(p));
        let pool = l.pools[p];
        let pending = match pool_pending_spec(pool, l.position(p, user)) { Ok(x) => x, Err(_) => 0 };
        let auth = seq![Effect::RequireAuth { address: user }];
        let payout = payout_effects(pool, this, user, pending);
        let take = seq![Effect::Transfer { token: pool.share_token, from: user, to: this, amount }];
        let emit = seq![Effect::Emit { event: Event::Deposited { pool_id: p, user, amount } }];
        assert(effects == auth + payout + take + emit);
        lemma_net_inflow_untouched(auth, token, this);
        lemma_net_inflow_untouched(payout, token, this);
        lemma_net_inflow_untouched(emit, token, this);
        lemma_net_inflow_concat(auth, payout, token, this);
        lemma_net_inflow_concat(auth + payout, take, token, this);
        lemma_net_inflow_concat(auth + payout + take, emit, token, this);
        lemma_single_flow(take[0], token, this);
        assert(take =~= seq![take[0]]);
        lemma_staked_update(l.pools, token, l.config.next_pool_id as int, p, w.pool);
    } else {
        lemma_net_inflow_untouched(effects, token, this);
    }
}

proof fn lemma_custody_withdraw(l: Ledger, p: PoolId, user: AddressKey, amount: i128, now: u64, this: AddressKey, token: AddressKey)
    requires
        l.inv(),
        forall|id: PoolId| #[trigger] l.pools.dom().contains(id) ==> l.pools[id].reward_token != token,
        user != this,
    ensures
        net_inflow(l.committed(Call::WithdrawFrom { pool_id: p, user, amount }, now, this), token, this)
            == staked_in(l.step(Call::WithdrawFrom { pool_id: p, user, amount }, now, this), token) - staked_in(l, token),
{
    let effects = l.committed(Call::WithdrawFrom { pool_id: p, user, amount }, now, this);
    if let Ok(w) = withdraw_from_spec(
        l.config, p, user, amount, l.stored_pool(p), l.position(p, user), l.unlock_time(user), now, this,
    ).1 {
        assert(l.pools.dom().contains(p));
        let pool = l.pools[p];
        let pending = match pool_pending_spec(pool, l.position(p, user)) { Ok(x) => x, Err(_) => 0 };
        let auth = seq![Effect::RequireAuth { address: user }];
        let payout = payout_effects(pool, this, user, pending);
        let give = seq![Effect::Transfer { token: pool.share_token, from: this, to: user, amount }];
        let emit = seq![Effect::Emit { event: Event::Withdrawn { pool_id: p, user, amount } }];
        assert(effects == auth + payout + give + emit);
        lemma_net_inflow_untouched(auth, token, this);
        lemma_net_inflow_untouched(payout, token, this);
        lemma_net_inflow_untouched(emit, token, this);
        lemma_net_inflow_concat(auth, payout, token, this);
        lemma_net_inflow_concat(auth + payout, give, token, this);
        lemma_net_inflow_concat(auth + payout + give, emit, token, this);
        lemma_single_flow(give[0], token, this);
        assert(give =~= seq![give[0]]);
        lemma_staked_update(l.pools, token, l.config.next_pool_id as int, p, w.pool);
    } else {
        lemma_net_inflow_untouched(effects, token, this);
    }
}

/// Custody follows stake: whatever is called, the contract's holding of a
/// share token changes exactly as the shares staked in it, summed over every
/// pool that has it as share token (when it is no pool's reward token and
/// the contract does not act on its own behalf).  So if the contract held
/// exactly the staked shares before a call, it holds exactly them after it,
/// whether the call was accepted or refused.
pub proof fn lemma_custody_follows_stake(l: Ledger, call: Call, now: u64, this: AddressKey, token: AddressKey)
    requires
        l.inv(),
        exists|id: PoolId| #[trigger] l.pools.dom().contains(id) && l.pools[id].share_token == token,
        forall|id: PoolId| #[trigger] l.pools.dom().contains(id) ==> l.pools[id].reward_token != token,
        party(call) != Some(this),
    ensures
        net_inflow(l.committed(call, now, this), token, this) == staked_in(l.step(call, now, this), token)
            - staked_in(l, token),
{
    let effects = l.committed(call, now, this);
    let config = l.config;
    let q = choose|id: PoolId| #[trigger] l.pools.dom().contains(id) && l.pools[id].share_token == token;
    assert(config.initialized);
    match call {
        Call::DepositInto { pool_id: p, user, amount } => {
            lemma_custody_deposit(l, p, user, amount, now, this, token);
        },
        Call::WithdrawFrom { pool_id: p, user, amount } => {
            lemma_custody_withdraw(l, p, user, amount, now, this, token);
        },
        Call::ClaimMany { user, pool_ids } => {
            if pool_ids.len() <= MAX_CLAIM_POOLS {
                let auth = seq![Effect::RequireAuth { address: user }];
                lemma_net_inflow_untouched(auth, token, this);
                lemma_claim_many_moves_rewards(l, user, pool_ids, this, 0, auth, seq![], 0, token);
            } else {
                lemma_net_inflow_untouched(effects, token, this);
            }
            if let Ok((_, writes)) = claim_many_spec(config, user, pool_ids, l.claim_entries(user, pool_ids), this).1 {
                lemma_writes_keep_pools(l, user, writes);
            }
        },
        Call::RecoverToken { token: t, to, amount } => {
            assert(l.all_pools()[q as int] == l.stored_pool(q));
            assert(is_token_of(l.all_pools()[q as int], token));
            lemma_net_inflow_untouched(effects, token, this);
        },
        Call::ClaimFrom { pool_id: p, user } => {
            if claim_from_spec(config, p, user, l.stored_pool(p), l.position(p, user), this).1 is Ok {
                assert(l.pools.dom().contains(p));
            }
            lemma_net_inflow_untouched(effects, token, this);
        },
        Call::DistributeTo { pool_id: p, sender, amount } => {
            if let Some((_, Ok(pool))) = distribute_to_spec(config, p, sender, amount, l.stored_pool(p), this) {
                assert(l.pools.dom().contains(p));
                lemma_same_stake(l, p, pool, token);
            }
            lemma_net_inflow_untouched(effects, token, this);
        },
        Call::SetPoolManager { pool_id: p, new_manager } => {
            if let Ok(pool) = set_pool_manager_spec(config, p, l.stored_pool(p), new_manager).1 {
                lemma_same_stake(l, p, pool, token);
            }
            lemma_net_inflow_untouched(effects, token, this);
        },
        Call::SetPoolPaused { pool_id: p, paused } => {
            if let Ok(pool) = set_pool_paused_spec(config, p, l.stored_pool(p), paused).1 {
                lemma_same_stake(l, p, pool, token);
            }
            lemma_net_inflow_untouched(effects, token, this);
        },
        Call::CreatePool { manager, share_token, reward_token } => {
            if let Ok((pool_id, pool, c)) = create_pool_spec(config, manager, share_token, reward_token).1 {
                let ins = l.pools.insert(pool_id, pool);
                assert forall|id: int| 0 <= id < pool_id implies contribution(ins, token, id) == contribution(l.pools, token, id) by {
                    assert(id as PoolId != pool_id);
                }
                lemma_staked_agree(ins, l.pools, token, pool_id as int);
            }
            lemma_net_inflow_untouched(effects, token, this);
        },
        _ => {
            lemma_net_inflow_untouched(effects, token, this);
        },
    }
}

// ── Conservation of reward tokens ────────────────────────────────

/// What one claim pays when `pending` is what was pending.
pub open spec fn paid(pending: Result<i128, Error>) -> int {
    match pending {
        Ok(p) => if p > 0 { p as int } else { 0 },
        Err(_) => 0,
    }
}

/// What an event reports of the rewards in `token`: a distribution's net
/// amount (after the fee) is credited to the contract's holding, a claim
/// debited from it.
pub open spec fn credit(l: Ledger, effect: Effect, token: AddressKey) -> int {
    match effect {
        Effect::Emit { event: Event::Distributed { pool_id, amount, .. } } => {
            if l.pools.dom().contains(pool_id) && l.pools[pool_id].reward_token == token {
                amount as int
            } else {
                0
            }
        },
        Effect::Emit { event: Event::Claimed { pool_id, amount, .. } } => {
            if l.pools.dom().contains(pool_id) && l.pools[pool_id].reward_token == token {
                -amount
            } else {
                0
            }
        },
        _ => 0,
    }
}

/// The rewards in `token` that a sequence of effects reports: distributed
/// net of fees, minus claimed.
pub open spec fn reported(l: Ledger, effects: Seq<Effect>, token: AddressKey) -> int
    decreases effects.len(),
{
    if effects.len() == 0 {
        0
    } else {
        reported(l, effects.drop_last(), token) + credit(l, effects.last(), token)
    }
}

/// What a deposit or withdrawal pays out in `token` on its own, claiming
/// what was pending to the staker before it changes their stake.
pub open spec fn auto_claimed(l: Ledger, call: Call, now: u64, this: AddressKey, token: AddressKey) -> int {
    match call {
        Call::DepositInto { pool_id, user, .. } => if l.committed(call, now, this).len() > 0
            && l.pools[pool_id].reward_token == token {
            paid(l.pending(pool_id, user))
        } else {
            0
        },
        Call::WithdrawFrom { pool_id, user, .. } => if l.committed(call, now, this).len() > 0
            && l.pools[pool_id].reward_token == token {
            paid(l.pending(pool_id, user))
        } else {
            0
        },
        _ => 0,
    }
}

/// Where an effect's movement of `token` and what it reports differ.
pub open spec fn gap(l: Ledger, effect: Effect, token: AddressKey, this: AddressKey) -> int {
    flow(effect, token, this) - credit(l, effect, token)
}

pub open spec fn gap_sum(l: Ledger, effects: Seq<Effect>, token: AddressKey, this: AddressKey) -> int
    decreases effects.len(),
{
    if effects.len() == 0 {
        0
    } else {
        gap_sum(l, effects.drop_last(), token, this) + gap(l, effects.last(), token, this)
    }
}

proof fn lemma_gap_is_difference(l: Ledger, effects: Seq<Effect>, token: AddressKey, this: AddressKey)
    ensures
        gap_sum(l, effects, token, this) == net_inflow(effects, token, this) - reported(l, effects, token),
    decreases effects.len(),
{
    if effects.len() > 0 {
        lemma_gap_is_difference(l, effects.drop_last(), token, this);
    }
}

proof fn lemma_gap_concat(l: Ledger, a: Seq<Effect>, b: Seq<Effect>, token: AddressKey, this: AddressKey)
    ensures
        gap_sum(l, a + b, token, this) == gap_sum(l, a, token, this) + gap_sum(l, b, token, this),
    decreases b.len(),
{
    if b.len() == 0 {
        assert(a + b =~= a);
    } else {
        lemma_gap_concat(l, a, b.drop_last(), token, this);
        assert((a + b).drop_last() =~= a + b.drop_last());
        assert((a + b).last() == b.last());
    }
}

proof fn lemma_gap_zero(l: Ledger, effects: Seq<Effect>, token: AddressKey, this: AddressKey)
    requires
        forall|k: int| 0 <= k < effects.len() ==> gap(l, #[trigger] effects[k], token, this) == 0,
    ensures
        gap_sum(l, effects, token, this) == 0,
    decreases effects.len(),
{
    if effects.len() > 0 {
        let prefix = effects.drop_last();
        assert forall|k: int| 0 <= k < prefix.len() implies gap(l, #[trigger] prefix[k], token, this) == 0 by {
            assert(prefix[k] == effects[k]);
        }
        lemma_gap_zero(l, prefix, token, this);
        assert(gap(l, effects[effects.len() - 1], token, this) == 0);
    }
}

proof fn lemma_gap_single(l: Ledger, e: Effect, token: AddressKey, this: AddressKey)
    ensures
        gap_sum(l, seq![e], token, this) == gap(l, e, token, this),
{
    assert(seq![e].drop_last() =~= Seq::<Effect>::empty());
    assert(gap_sum(l, Seq::<Effect>::empty(), token, this) == 0);
    assert(seq![e].last() == e);
}

proof fn lemma_gap_pair(l: Ledger, e1: Effect, e2: Effect, token: AddressKey, this: AddressKey)
    ensures
        gap_sum(l, seq![e1, e2], token, this) == gap(l, e1, token, this) + gap(l, e2, token, this),
{
    lemma_gap_single(l, e1, token, this);
    lemma_gap_single(l, e2, token, this);
    lemma_gap_concat(l, seq![e1], seq![e2], token, this);
    assert(seq![e1] + seq![e2] =~= seq![e1, e2]);
}

/// The claims of `claim_many` move exactly the rewards they report.
proof fn lemma_claim_many_reports(
    l: Ledger,
    user: AddressKey,
    pool_ids: Seq<PoolId>,
    this: AddressKey,
    i: int,
    effects: Seq<Effect>,
    writes: Seq<(PoolId, Position)>,
    total: int,
    token: AddressKey,
)
    requires
        0 <= i,
        user != this,
    ensures
        gap_sum(
            l,
            claim_many_from(l.config, user, pool_ids, l.claim_entries(user, pool_ids), this, i, effects, writes, total).0,
            token,
            this,
        ) == gap_sum(l, effects, token, this),
    decreases pool_ids.len() - i,
{
    let entries = l.claim_entries(user, pool_ids);
    if i < pool_ids.len() {
        let pool_id = pool_ids[i];
        let position = match last_write(writes, pool_id) {
            Some(p) => p,
            None => entries[i].1,
        };
        if let Ok(pool) = load_pool_spec(l.config, entries[i].0) {
            if let Ok(pending) = pool_pending_spec(pool, position) {
                if pending > 0 {
                    if let Ok(debt) = accumulated_spec(position.shares as int, pool.acc_reward_per_share as int) {
                        let t = Effect::Transfer { token: pool.reward_token, from: this, to: user, amount: pending };
                        let c = Effect::Emit { event: Event::Claimed { pool_id, user, amount: pending } };
                        assert(l.pools.dom().contains(pool_id));
                        lemma_gap_pair(l, t, c, token, this);
                        lemma_gap_concat(l, effects, seq![t, c], token, this);
                        let written = writes.push((pool_id, Position { reward_debt: debt, ..position }));
                        lemma_claim_many_reports(l, user, pool_ids, this, i + 1, effects + seq![t, c], written, total + pending, token);
                    }
                } else {
                    lemma_claim_many_reports(l, user, pool_ids, this, i + 1, effects, writes, total, token);
                }
            }
        }
    }
}

proof fn lemma_stake_change_reports(l: Ledger, call: Call, now: u64, this: AddressKey, token: AddressKey)
    requires
        l.inv(),
        call is DepositInto || call is WithdrawFrom,
        party(call) != Some(this),
        forall|id: PoolId| #[trigger] l.pools.dom().contains(id) ==> l.pools[id].share_token != token,
    ensures
        gap_sum(l, l.committed(call, now, this), token, this) == -auto_claimed(l, call, now, this, token),
{
    let effects = l.committed(call, now, this);
    if effects.len() > 0 {
        let (p, user, amount, share_move) = match call {
            Call::DepositInto { pool_id, user, amount } => (pool_id, user, amount, seq![
                Effect::Transfer { token: l.pools[pool_id].share_token, from: user, to: this, amount },
                Effect::Emit { event: Event::Deposited { pool_id, user, amount } },
            ]),
            Call::WithdrawFrom { pool_id, user, amount } => (pool_id, user, amount, seq![
                Effect::Transfer { token: l.pools[pool_id].share_token, from: this, to: user, amount },
                Effect::Emit { event: Event::Withdrawn { pool_id, user, amount } },
            ]),
            _ => arbitrary(),
        };
        assert(l.pools.dom().contains(p));
        let pool = l.pools[p];
        let pending = match pool_pending_spec(pool, l.position(p, user)) { Ok(x) => x, Err(_) => 0 };
        let auth = seq![Effect::RequireAuth { address: user }];
        let payout = payout_effects(pool, this, user, pending);
        assert(effects =~= auth + payout + share_move);
        lemma_gap_single(l, auth[0], token, this);
        assert(auth =~= seq![auth[0]]);
        lemma_gap_pair(l, share_move[0], share_move[1], token, this);
        assert(share_move =~= seq![share_move[0], share_move[1]]);
        if pending > 0 {
            lemma_gap_single(l, payout[0], token, this);
            assert(payout =~= seq![payout[0]]);
        } else {
            assert(payout =~= Seq::<Effect>::empty());
        }
        lemma_gap_concat(l, auth, payout, token, this);
        lemma_gap_concat(l, auth + payout, share_move, token, this);
    }
}

/// Reward tokens are conserved: whatever is called, the contract's holding of
/// a pool's reward token changes exactly by the rewards reported distributed
/// (net of the fee, which goes to the collector) minus those reported claimed
/// and those paid out automatically by deposits and withdrawals.  Every unit
/// paid in is held or paid out; none is created or lost (when the token is no
/// pool's share token and neither the acting party nor the fee collector is
/// the contract itself).
pub proof fn lemma_rewards_conserved(l: Ledger, call: Call, now: u64, this: AddressKey, token: AddressKey)
    requires
        l.inv(),
        exists|id: PoolId| #[trigger] l.pools.dom().contains(id) && l.pools[id].reward_token == token,
        forall|id: PoolId| #[trigger] l.pools.dom().contains(id) ==> l.pools[id].share_token != token,
        party(call) != Some(this),
        l.config.fee_collector != Some(this),
    ensures
        net_inflow(l.committed(call, now, this), token, this) == reported(l, l.committed(call, now, this), token)
            - auto_claimed(l, call, now, this, token),
{
    let effects = l.committed(call, now, this);
    let config = l.config;
    lemma_gap_is_difference(l, effects, token, this);
    let q = choose|id: PoolId| #[trigger] l.pools.dom().contains(id) && l.pools[id].reward_token == token;
    match call {
        Call::DepositInto { .. } => {
            lemma_stake_change_reports(l, call, now, this, token);
        },
        Call::WithdrawFrom { .. } => {
            lemma_stake_change_reports(l, call, now, this, token);
        },
        Call::ClaimMany { user, pool_ids } => {
            if effects.len() > 0 {
                let auth = seq![Effect::RequireAuth { address: user }];
                lemma_gap_single(l, auth[0], token, this);
                lemma_claim_many_reports(l, user, pool_ids, this, 0, auth, seq![], 0, token);
            } else {
                lemma_gap_zero(l, effects, token, this);
            }
        },
        Call::ClaimFrom { pool_id: p, user } => {
            if effects.len() > 1 {
                assert(l.pools.dom().contains(p));
                let auth = seq![effects[0]];
                let rest = seq![effects[1], effects[2]];
                assert(effects =~= auth + rest);
                lemma_gap_single(l, effects[0], token, this);
                lemma_gap_pair(l, effects[1], effects[2], token, this);
                lemma_gap_concat(l, auth, rest, token, this);
            } else {
                lemma_gap_zero(l, effects, token, this);
            }
        },
        Call::DistributeTo { pool_id: p, sender, amount } => {
            if effects.len() > 0 {
                assert(l.pools.dom().contains(p));
                let pool = l.pools[p];
                let bps = config.management_fee_bps;
                let fee = if bps > 0 { fee_spec(amount as int, bps as int) } else { 0 };
                let auth = seq![Effect::RequireAuth { address: sender }];
                let pull = seq![Effect::Transfer { token: pool.reward_token, from: sender, to: this, amount }];
                let skim = if fee > 0 {
                    seq![Effect::Transfer { token: pool.reward_token, from: this, to: config.fee_collector->0, amount: fee as i128 }]
                } else {
                    Seq::<Effect>::empty()
                };
                let emit = seq![Effect::Emit { event: Event::Distributed { pool_id: p, sender, amount: (amount - fee) as i128 } }];
                assert(effects =~= auth + pull + skim + emit);
                lemma_gap_single(l, auth[0], token, this);
                assert(auth =~= seq![auth[0]]);
                lemma_gap_single(l, pull[0], token, this);
                assert(pull =~= seq![pull[0]]);
                lemma_gap_single(l, emit[0], token, this);
                assert(emit =~= seq![emit[0]]);
                if fee > 0 {
                    lemma_gap_single(l, skim[0], token, this);
                    assert(skim =~= seq![skim[0]]);
                } else {
                    lemma_gap_zero(l, skim, token, this);
                }
                lemma_gap_concat(l, auth, pull, token, this);
                lemma_gap_concat(l, auth + pull, skim, token, this);
                lemma_gap_concat(l, auth + pull + skim, emit, token, this);
            } else {
                lemma_gap_zero(l, effects, token, this);
            }
        },
        Call::RecoverToken { token: t, to, amount } => {
            assert(l.all_pools()[q as int] == l.stored_pool(q));
            assert(is_token_of(l.all_pools()[q as int], token));
            lemma_gap_zero(l, effects, token, this);
        },
        _ => {
            lemma_gap_zero(l, effects, token, this);
        },
    }
}

} // verus!
