use vstd::prelude::*;
use crate::contract::{
    admin_set_spec, admin_update_spec, claim_from_spec, claim_many_from, claim_many_spec, create_pool_spec,
    last_write, load_pool_spec, pool_pending_spec, MAX_CLAIM_POOLS,
    deposit_into_spec, distribute_to_spec, initialize_spec, set_paused_spec, set_pool_manager_spec,
    set_pool_paused_spec, withdraw_from_spec, recover_token_spec,
};
use crate::math::{accumulated_spec, fee_spec, lemma_fee_within_amount, lemma_reward_increase_nonnegative};
use crate::types::{AddressKey, Config, Effect, Error, Event, Pool, PoolId, Position, MAX_FEE_BPS};
use vstd::set::fold::{is_fun_commutative, lemma_fold_empty, lemma_fold_insert};

verus! {

/// Adds up the shares of the positions of a pool's stakers.
pub open spec fn share_adder(stakers: Map<AddressKey, Position>) -> spec_fn(int, AddressKey) -> int {
    |acc: int, user: AddressKey| acc + stakers[user].shares
}

/// The total of the shares held by a pool's stakers.
pub open spec fn share_sum(stakers: Map<AddressKey, Position>) -> int {
    stakers.dom().fold(0int, share_adder(stakers))
}

proof fn lemma_share_adder_commutative(stakers: Map<AddressKey, Position>)
    ensures
        is_fun_commutative(share_adder(stakers)),
{
    let f = share_adder(stakers);
    assert forall|a1: AddressKey, a2: AddressKey, b: int| #[trigger] f(f(b, a2), a1) == f(f(b, a1), a2) by {}
}

/// Folding the share adders of two maps over a set on which their shares
/// agree gives the same total.
proof fn lemma_fold_agrees(s: Set<AddressKey>, m1: Map<AddressKey, Position>, m2: Map<AddressKey, Position>)
    requires
        s.finite(),
        forall|u: AddressKey| s.contains(u) ==> m1[u].shares == m2[u].shares,
    ensures
        s.fold(0int, share_adder(m1)) == s.fold(0int, share_adder(m2)),
    decreases s.len(),
{
    lemma_share_adder_commutative(m1);
    lemma_share_adder_commutative(m2);
    if s.len() == 0 {
        assert(s =~= Set::<AddressKey>::empty());
        lemma_fold_empty(0int, share_adder(m1));
        lemma_fold_empty(0int, share_adder(m2));
    } else {
        let a = s.choose();
        let r = s.remove(a);
        lemma_fold_agrees(r, m1, m2);
        assert(r.insert(a) =~= s);
        lemma_fold_insert(r, 0int, share_adder(m1), a);
        lemma_fold_insert(r, 0int, share_adder(m2), a);
    }
}

/// The sum over a set with one element set apart.
proof fn lemma_fold_split(s: Set<AddressKey>, m: Map<AddressKey, Position>, u: AddressKey)
    requires
        s.finite(),
        s.contains(u),
    ensures
        s.fold(0int, share_adder(m)) == s.remove(u).fold(0int, share_adder(m)) + m[u].shares,
{
    lemma_share_adder_commutative(m);
    assert(s.remove(u).insert(u) =~= s);
    lemma_fold_insert(s.remove(u), 0int, share_adder(m), u);
}

/// Positive shares add up to a non-negative total.
proof fn lemma_fold_nonnegative(s: Set<AddressKey>, m: Map<AddressKey, Position>)
    requires
        s.finite(),
        forall|u: AddressKey| s.contains(u) ==> m[u].shares > 0,
    ensures
        s.fold(0int, share_adder(m)) >= 0,
        s.len() > 0 ==> s.fold(0int, share_adder(m)) > 0,
    decreases s.len(),
{
    lemma_share_adder_commutative(m);
    if s.len() == 0 {
        assert(s =~= Set::<AddressKey>::empty());
        lemma_fold_empty(0int, share_adder(m));
    } else {
        let a = s.choose();
        lemma_fold_nonnegative(s.remove(a), m);
        lemma_fold_split(s, m, a);
    }
}

/// The stakers of a pool whose positions all hold shares hold a
/// non-negative total, positive when there is any staker.
pub proof fn lemma_share_sum_nonnegative(stakers: Map<AddressKey, Position>)
    requires
        stakers.dom().finite(),
        forall|u: AddressKey| #[trigger] stakers.dom().contains(u) ==> stakers[u].shares > 0,
    ensures
        share_sum(stakers) >= 0,
{
    lemma_fold_nonnegative(stakers.dom(), stakers);
}

/// Storing a position changes the share total by the change of that position.
pub proof fn lemma_share_sum_insert(stakers: Map<AddressKey, Position>, user: AddressKey, position: Position)
    requires
        stakers.dom().finite(),
    ensures
        stakers.insert(user, position).dom().finite(),
        share_sum(stakers.insert(user, position)) == share_sum(stakers) - (if stakers.dom().contains(user) {
            stakers[user].shares as int
        } else {
            0
        }) + position.shares,
{
    let m2 = stakers.insert(user, position);
    let s = stakers.dom();
    let r = s.remove(user);
    assert(m2.dom() =~= s.insert(user));
    assert(m2.dom().remove(user) =~= r);
    lemma_fold_split(m2.dom(), m2, user);
    lemma_fold_agrees(r, stakers, m2);
    if s.contains(user) {
        lemma_fold_split(s, stakers, user);
    } else {
        assert(r =~= s);
    }
}

/// Removing a position lowers the share total by that position's shares.
pub proof fn lemma_share_sum_remove(stakers: Map<AddressKey, Position>, user: AddressKey)
    requires
        stakers.dom().finite(),
        stakers.dom().contains(user),
    ensures
        stakers.remove(user).dom().finite(),
        share_sum(stakers.remove(user)) == share_sum(stakers) - stakers[user].shares,
{
    let m2 = stakers.remove(user);
    let s = stakers.dom();
    assert(m2.dom() =~= s.remove(user));
    lemma_fold_split(s, stakers, user);
    lemma_fold_agrees(s.remove(user), stakers, m2);
}

/// Nobody staked in an empty pool.
pub proof fn lemma_share_sum_empty()
    ensures
        share_sum(Map::<AddressKey, Position>::empty()) == 0,
{
    assert(Map::<AddressKey, Position>::empty().dom() =~= Set::<AddressKey>::empty());
    lemma_fold_empty(0int, share_adder(Map::<AddressKey, Position>::empty()));
}


/// The whole contract state, as storage holds it.
pub struct Ledger {
    pub config: Config,
    /// Stored pools by id.
    pub pools: Map<PoolId, Pool>,
    /// Stored positions, by pool and then by staker.
    pub positions: Map<PoolId, Map<AddressKey, Position>>,
    /// Stake ceilings set for stakers.
    pub max_stake: Map<AddressKey, i128>,
    /// Unlock times of stakers under a lockup.
    pub unlock_at: Map<AddressKey, u64>,
}

/// An entry point invocation, with its arguments.
pub enum Call {
    Initialize { admin: AddressKey, share_token: AddressKey, reward_token: AddressKey },
    CreatePool { manager: AddressKey, share_token: AddressKey, reward_token: AddressKey },
    SetPoolManager { pool_id: PoolId, new_manager: AddressKey },
    SetPoolPaused { pool_id: PoolId, paused: bool },
    DepositInto { pool_id: PoolId, user: AddressKey, amount: i128 },
    DistributeTo { pool_id: PoolId, sender: AddressKey, amount: i128 },
    ClaimFrom { pool_id: PoolId, user: AddressKey },
    ClaimMany { user: AddressKey, pool_ids: Seq<PoolId> },
    WithdrawFrom { pool_id: PoolId, user: AddressKey, amount: i128 },
    Pause,
    Unpause,
    SetMinimumDeposit { amount: i128 },
    SetMaxStakePerUser { user: AddressKey, limit: i128 },
    TransferAdmin { new_admin: AddressKey },
    SetLockupDuration { seconds: u64 },
    SetManagementFee { bps: u32 },
    SetFeeCollector { collector: AddressKey },
    RecoverToken { token: AddressKey, to: AddressKey, amount: i128 },
}

impl Ledger {
    /// What storage holds for pool `pool_id`.
    pub open spec fn stored_pool(self, pool_id: PoolId) -> Option<Pool> {
        if self.pools.dom().contains(pool_id) {
            Some(self.pools[pool_id])
        } else {
            None
        }
    }

    /// The stakers of pool `pool_id` with their positions.
    pub open spec fn stakers(self, pool_id: PoolId) -> Map<AddressKey, Position> {
        if self.positions.dom().contains(pool_id) {
            self.positions[pool_id]
        } else {
            Map::empty()
        }
    }

    /// A staker's position in a pool; an empty one when none is stored.
    pub open spec fn position(self, pool_id: PoolId, user: AddressKey) -> Position {
        if self.stakers(pool_id).dom().contains(user) {
            self.stakers(pool_id)[user]
        } else {
            Position { shares: 0, reward_debt: 0 }
        }
    }

    /// A staker's stake ceiling; `None` when none was set.
    pub open spec fn stake_cap(self, user: AddressKey) -> Option<i128> {
        if self.max_stake.dom().contains(user) {
            Some(self.max_stake[user])
        } else {
            None
        }
    }

    /// A staker's unlock time; 0 when none was set.
    pub open spec fn unlock_time(self, user: AddressKey) -> u64 {
        if self.unlock_at.dom().contains(user) {
            self.unlock_at[user]
        } else {
            0
        }
    }

    /// The stored pool of every pool id below the pool count.
    pub open spec fn all_pools(self) -> Seq<Option<Pool>> {
        Seq::new(self.config.next_pool_id as nat, |i: int| self.stored_pool(i as PoolId))
    }

    /// The stored pool and the user's stored position for each named pool.
    pub open spec fn claim_entries(self, user: AddressKey, pool_ids: Seq<PoolId>) -> Seq<(Option<Pool>, Position)> {
        Seq::new(pool_ids.len(), |i: int| (self.stored_pool(pool_ids[i]), self.position(pool_ids[i], user)))
    }

    pub open spec fn with_config(self, config: Config) -> Ledger {
        Ledger { config, ..self }
    }

    pub open spec fn with_pool(self, pool_id: PoolId, pool: Pool) -> Ledger {
        Ledger { pools: self.pools.insert(pool_id, pool), ..self }
    }

    /// Stores (`Some`) or removes (`None`) a position.
    pub open spec fn with_position(self, pool_id: PoolId, user: AddressKey, position: Option<Position>) -> Ledger {
        let stakers = match position {
            Some(p) => self.stakers(pool_id).insert(user, p),
            None => self.stakers(pool_id).remove(user),
        };
        Ledger { positions: self.positions.insert(pool_id, stakers), ..self }
    }

    pub open spec fn with_unlock(self, user: AddressKey, unlock_at: Option<u64>) -> Ledger {
        match unlock_at {
            Some(t) => Ledger { unlock_at: self.unlock_at.insert(user, t), ..self },
            None => self,
        }
    }

    /// Stores a user's positions, in order.
    pub open spec fn with_writes(self, user: AddressKey, writes: Seq<(PoolId, Position)>) -> Ledger
        decreases writes.len(),
    {
        if writes.len() == 0 {
            self
        } else {
            self.with_writes(user, writes.drop_last()).with_position(writes.last().0, user, Some(writes.last().1))
        }
    }

    /// The state after `call` at ledger time `now`, for the contract at
    /// address `this`.  A refused or aborted call leaves it unchanged.  Each
    /// transition is built from the same spec function that the entry point's
    /// `ensures` equates its result with (`deposit_into_spec` for
    /// `DistributionContract::deposit_into`, and so on), fed the stored values
    /// the entry point reads; so every law proved over `step` and `committed`
    /// holds of the entry points themselves.
    pub open spec fn step(self, call: Call, now: u64, this: AddressKey) -> Ledger {
        let config = self.config;
        match call {
            Call::Initialize { admin, share_token, reward_token } => {
                match initialize_spec(config, admin, share_token, reward_token).1 {
                    Ok((c, pool)) => self.with_config(c).with_pool(0, pool),
                    Err(_) => self,
                }
            },
            Call::CreatePool { manager, share_token, reward_token } => {
                match create_pool_spec(config, manager, share_token, reward_token).1 {
                    Ok((pool_id, pool, c)) => self.with_config(c).with_pool(pool_id, pool),
                    Err(_) => self,
                }
            },
            Call::SetPoolManager { pool_id, new_manager } => {
                match set_pool_manager_spec(config, pool_id, self.stored_pool(pool_id), new_manager).1 {
                    Ok(pool) => self.with_pool(pool_id, pool),
                    Err(_) => self,
                }
            },
            Call::SetPoolPaused { pool_id, paused } => {
                match set_pool_paused_spec(config, pool_id, self.stored_pool(pool_id), paused).1 {
                    Ok(pool) => self.with_pool(pool_id, pool),
                    Err(_) => self,
                }
            },
            Call::DepositInto { pool_id, user, amount } => {
                match deposit_into_spec(
                    config, pool_id, user, amount, self.stored_pool(pool_id), self.position(pool_id, user),
                    self.stake_cap(user), now, this,
                ) {
                    Some((_, Ok(w))) => self.with_pool(pool_id, w.pool).with_position(pool_id, user, Some(w.position)).with_unlock(
                        user,
                        w.unlock_at,
                    ),
                    _ => self,
                }
            },
            Call::DistributeTo { pool_id, sender, amount } => {
                match distribute_to_spec(config, pool_id, sender, amount, self.stored_pool(pool_id), this) {
                    Some((_, Ok(pool))) => self.with_pool(pool_id, pool),
                    _ => self,
                }
            },
            Call::ClaimFrom { pool_id, user } => {
                match claim_from_spec(config, pool_id, user, self.stored_pool(pool_id), self.position(pool_id, user), this).1 {
                    Ok((_, Some(p))) => self.with_position(pool_id, user, Some(p)),
                    _ => self,
                }
            },
            Call::ClaimMany { user, pool_ids } => {
                match claim_many_spec(config, user, pool_ids, self.claim_entries(user, pool_ids), this).1 {
                    Ok((_, writes)) => self.with_writes(user, writes),
                    Err(_) => self,
                }
            },
            Call::WithdrawFrom { pool_id, user, amount } => {
                match withdraw_from_spec(
                    config, pool_id, user, amount, self.stored_pool(pool_id), self.position(pool_id, user),
                    self.unlock_time(user), now, this,
                ).1 {
                    Ok(w) => self.with_pool(pool_id, w.pool).with_position(pool_id, user, w.position),
                    Err(_) => self,
                }
            },
            Call::Pause => match set_paused_spec(config, true).1 {
                Ok(c) => self.with_config(c),
                Err(_) => self,
            },
            Call::Unpause => match set_paused_spec(config, false).1 {
                Ok(c) => self.with_config(c),
                Err(_) => self,
            },
            Call::SetMinimumDeposit { amount } => {
                match admin_update_spec(config, amount < 0, Error::InvalidAmount, Config { minimum_deposit: amount, ..config }).1 {
                    Ok(c) => self.with_config(c),
                    Err(_) => self,
                }
            },
            Call::SetMaxStakePerUser { user, limit } => {
                match admin_update_spec(config, limit < 0, Error::InvalidAmount, config).1 {
                    Ok(_) => Ledger { max_stake: self.max_stake.insert(user, limit), ..self },
                    Err(_) => self,
                }
            },
            Call::TransferAdmin { new_admin } => {
                match admin_set_spec(config, Config { admin: Some(new_admin), ..config }).1 {
                    Ok(c) => self.with_config(c),
                    Err(_) => self,
                }
            },
            Call::SetLockupDuration { seconds } => {
                match admin_set_spec(config, Config { lockup_duration: seconds, ..config }).1 {
                    Ok(c) => self.with_config(c),
                    Err(_) => self,
                }
            },
            Call::SetManagementFee { bps } => {
                match admin_update_spec(
                    config, bps > MAX_FEE_BPS, Error::InvalidFeeBps, Config { management_fee_bps: bps, ..config },
                ).1 {
                    Ok(c) => self.with_config(c),
                    Err(_) => self,
                }
            },
            Call::SetFeeCollector { collector } => {
                match admin_set_spec(config, Config { fee_collector: Some(collector), ..config }).1 {
                    Ok(c) => self.with_config(c),
                    Err(_) => self,
                }
            },
            Call::RecoverToken { .. } => self,
        }
    }

    /// The host effects of `call` that take hold: those of an accepted call;
    /// none for a refused or aborted one, which the host rolls back.
    pub open spec fn committed(self, call: Call, now: u64, this: AddressKey) -> Seq<Effect> {
        let config = self.config;
        match call {
            Call::Initialize { admin, share_token, reward_token } => kept(initialize_spec(config, admin, share_token, reward_token)),
            Call::CreatePool { manager, share_token, reward_token } => kept(create_pool_spec(config, manager, share_token, reward_token)),
            Call::SetPoolManager { pool_id, new_manager } => kept(set_pool_manager_spec(config, pool_id, self.stored_pool(pool_id), new_manager)),
            Call::SetPoolPaused { pool_id, paused } => kept(set_pool_paused_spec(config, pool_id, self.stored_pool(pool_id), paused)),
            Call::DepositInto { pool_id, user, amount } => {
                match deposit_into_spec(
                    config, pool_id, user, amount, self.stored_pool(pool_id), self.position(pool_id, user),
                    self.stake_cap(user), now, this,
                ) {
                    Some(o) => kept(o),
                    None => seq![],
                }
            },
            Call::DistributeTo { pool_id, sender, amount } => {
                match distribute_to_spec(config, pool_id, sender, amount, self.stored_pool(pool_id), this) {
                    Some(o) => kept(o),
                    None => seq![],
                }
            },
            Call::ClaimFrom { pool_id, user } => kept(claim_from_spec(config, pool_id, user, self.stored_pool(pool_id), self.position(pool_id, user), this)),
            Call::ClaimMany { user, pool_ids } => kept(claim_many_spec(config, user, pool_ids, self.claim_entries(user, pool_ids), this)),
            Call::WithdrawFrom { pool_id, user, amount } => kept(withdraw_from_spec(
                config, pool_id, user, amount, self.stored_pool(pool_id), self.position(pool_id, user),
                self.unlock_time(user), now, this,
            )),
            Call::Pause => kept(set_paused_spec(config, true)),
            Call::Unpause => kept(set_paused_spec(config, false)),
            Call::SetMinimumDeposit { amount } => kept(admin_update_spec(config, amount < 0, Error::InvalidAmount, Config { minimum_deposit: amount, ..config })),
            Call::SetMaxStakePerUser { user, limit } => kept(admin_update_spec(config, limit < 0, Error::InvalidAmount, config)),
            Call::TransferAdmin { new_admin } => kept(admin_set_spec(config, Config { admin: Some(new_admin), ..config })),
            Call::SetLockupDuration { seconds } => kept(admin_set_spec(config, Config { lockup_duration: seconds, ..config })),
            Call::SetManagementFee { bps } => kept(admin_update_spec(
                config, bps > MAX_FEE_BPS, Error::InvalidFeeBps, Config { management_fee_bps: bps, ..config },
            )),
            Call::SetFeeCollector { collector } => kept(admin_set_spec(config, Config { fee_collector: Some(collector), ..config })),
            Call::RecoverToken { token, to, amount } => kept(recover_token_spec(config, token, to, amount, self.all_pools(), this)),
        }
    }

    /// The shares of a pool's stakers add up to the pool's total, every
    /// stored position holds shares, and the pool's accumulator is not
    /// negative.
    pub open spec fn pool_balanced(self, pool_id: PoolId) -> bool {
        &&& self.stakers(pool_id).dom().finite()
        &&& self.pools[pool_id].total_shares == share_sum(self.stakers(pool_id))
        &&& self.pools[pool_id].acc_reward_per_share >= 0
        &&& forall|u: AddressKey| #[trigger] self.stakers(pool_id).dom().contains(u) ==> self.stakers(pool_id)[u].shares > 0
    }

    /// What every reachable state satisfies: valid settings, pools stored
    /// exactly for the ids below the pool count, positions only in stored
    /// pools, and every pool balanced.
    pub open spec fn inv(self) -> bool {
        &&& self.config.wf()
        &&& forall|id: PoolId| #[trigger] self.pools.dom().contains(id) <==> id < self.config.next_pool_id
        &&& forall|id: PoolId| #[trigger] self.positions.dom().contains(id) ==> self.pools.dom().contains(id)
        &&& forall|id: PoolId| #[trigger] self.pools.dom().contains(id) ==> self.pool_balanced(id)
    }
}

/// Replacing a pool by one with the same total keeps it balanced.
proof fn lemma_same_total_keeps_inv(l: Ledger, pool_id: PoolId, pool: Pool)
    requires
        l.inv(),
        l.pools.dom().contains(pool_id),
        pool.total_shares == l.pools[pool_id].total_shares,
        pool.acc_reward_per_share >= 0,
    ensures
        l.with_pool(pool_id, pool).inv(),
{
    let l2 = l.with_pool(pool_id, pool);
    assert forall|id: PoolId| #[trigger] l2.pools.dom().contains(id) implies l2.pool_balanced(id) by {
        assert(l.pool_balanced(id));
        assert(l2.stakers(id) == l.stakers(id));
    }
    assert forall|id: PoolId| #[trigger] l2.pools.dom().contains(id) <==> id < l2.config.next_pool_id by {
        assert(l.pools.dom().contains(pool_id));
    }
}

/// Storing (or removing) a position in a stored pool, and that pool's new
/// total, keeps the ledger balanced when the total moves with the shares.
proof fn lemma_position_write_keeps_inv(
    l: Ledger,
    pool_id: PoolId,
    user: AddressKey,
    pool: Pool,
    position: Option<Position>,
)
    requires
        l.inv(),
        l.pools.dom().contains(pool_id),
        pool.total_shares - l.pools[pool_id].total_shares == match position {
            Some(p) => p.shares - l.position(pool_id, user).shares,
            None => -l.position(pool_id, user).shares,
        },
        position matches Some(p) ==> p.shares > 0,
        pool.acc_reward_per_share >= 0,
    ensures
        l.with_pool(pool_id, pool).with_position(pool_id, user, position).inv(),
{
    let l1 = l.with_pool(pool_id, pool);
    let l2 = l1.with_position(pool_id, user, position);
    assert(l.pool_balanced(pool_id));
    let st = l.stakers(pool_id);
    assert(l1.stakers(pool_id) == st);
    match position {
        Some(p) => {
            lemma_share_sum_insert(st, user, p);
            assert(l2.stakers(pool_id) == st.insert(user, p));
        },
        None => {
            if st.dom().contains(user) {
                lemma_share_sum_remove(st, user);
            } else {
                assert(st.remove(user) =~= st);
            }
            assert(l2.stakers(pool_id) == st.remove(user));
        },
    }
    assert(l2.pool_balanced(pool_id));
    assert forall|id: PoolId| #[trigger] l2.pools.dom().contains(id) implies l2.pool_balanced(id) by {
        if id != pool_id {
            assert(l.pool_balanced(id));
            assert(l2.stakers(id) == l.stakers(id));
        }
    }
    assert forall|id: PoolId| #[trigger] l2.positions.dom().contains(id) implies l2.pools.dom().contains(id) by {
        if id != pool_id {
            assert(l.positions.dom().contains(id));
        }
    }
    assert forall|id: PoolId| #[trigger] l2.pools.dom().contains(id) <==> id < l2.config.next_pool_id by {
        assert(l.pools.dom().contains(pool_id));
    }
}

/// Changes outside the settings, pools and positions keep the invariant.
proof fn lemma_side_tables_keep_inv(l: Ledger, l2: Ledger)
    requires
        l.inv(),
        l2.config == l.config,
        l2.pools == l.pools,
        l2.positions == l.positions,
    ensures
        l2.inv(),
{
    assert forall|id: PoolId| #[trigger] l2.pools.dom().contains(id) implies l2.pool_balanced(id) by {
        assert(l.pool_balanced(id));
    }
}

/// New valid settings with the same pool count keep the invariant.
proof fn lemma_config_keeps_inv(l: Ledger, c: Config)
    requires
        l.inv(),
        c.wf(),
        c.next_pool_id == l.config.next_pool_id,
    ensures
        l.with_config(c).inv(),
{
    let l2 = l.with_config(c);
    assert forall|id: PoolId| #[trigger] l2.pools.dom().contains(id) implies l2.pool_balanced(id) by {
        assert(l.pool_balanced(id));
    }
}

/// Opening the next pool, empty, keeps the invariant.
proof fn lemma_new_pool_keeps_inv(l: Ledger, c: Config, pool: Pool)
    requires
        l.inv(),
        c.wf(),
        c.next_pool_id == l.config.next_pool_id + 1,
        pool.total_shares == 0,
        pool.acc_reward_per_share >= 0,
    ensures
        l.with_config(c).with_pool(l.config.next_pool_id, pool).inv(),
{
    let pool_id = l.config.next_pool_id;
    let l2 = l.with_config(c).with_pool(pool_id, pool);
    assert(!l.pools.dom().contains(pool_id));
    assert(!l.positions.dom().contains(pool_id));
    assert(l2.stakers(pool_id) == Map::<AddressKey, Position>::empty());
    lemma_share_sum_empty();
    assert(l2.pool_balanced(pool_id));
    assert forall|id: PoolId| #[trigger] l2.pools.dom().contains(id) implies l2.pool_balanced(id) by {
        if id != pool_id {
            assert(l.pool_balanced(id));
        }
    }
    assert forall|id: PoolId| #[trigger] l2.pools.dom().contains(id) <==> id < l2.config.next_pool_id by {
        if id < pool_id {
            assert(l.pools.dom().contains(id));
        }
    }
}

/// Writes of a user's positions that keep each position's shares, in pools
/// that exist, each holding shares.
pub open spec fn share_preserving(l: Ledger, user: AddressKey, writes: Seq<(PoolId, Position)>) -> bool {
    forall|k: int|
        0 <= k < writes.len() ==> {
            &&& l.pools.dom().contains(#[trigger] writes[k].0)
            &&& writes[k].1.shares == l.position(writes[k].0, user).shares
            &&& writes[k].1.shares != 0
        }
}

/// The last write for a pool is one of the writes.
proof fn lemma_last_write_is_a_write(writes: Seq<(PoolId, Position)>, pool_id: PoolId)
    requires
        last_write(writes, pool_id) is Some,
    ensures
        exists|k: int| 0 <= k < writes.len() && #[trigger] writes[k] == (pool_id, last_write(writes, pool_id)->0),
    decreases writes.len(),
{
    if writes.last().0 == pool_id {
        assert(writes[writes.len() - 1] == (pool_id, last_write(writes, pool_id)->0));
    } else {
        lemma_last_write_is_a_write(writes.drop_last(), pool_id);
        let k = choose|k: int| 0 <= k < writes.drop_last().len() && #[trigger] writes.drop_last()[k] == (pool_id, last_write(writes.drop_last(), pool_id)->0);
        assert(writes[k] == writes.drop_last()[k]);
    }
}

/// The positions `claim_many` writes keep their shares.
proof fn lemma_claim_many_writes(
    l: Ledger,
    user: AddressKey,
    pool_ids: Seq<PoolId>,
    this: AddressKey,
    i: int,
    effects: Seq<Effect>,
    writes: Seq<(PoolId, Position)>,
    total: int,
)
    requires
        l.inv(),
        0 <= i,
        share_preserving(l, user, writes),
    ensures
        claim_many_from(l.config, user, pool_ids, l.claim_entries(user, pool_ids), this, i, effects, writes, total).1 matches Ok((_, w)) ==> share_preserving(l, user, w),
    decreases pool_ids.len() - i,
{
    let entries = l.claim_entries(user, pool_ids);
    if i < pool_ids.len() {
        let pool_id = pool_ids[i];
        let position = match last_write(writes, pool_id) {
            Some(p) => p,
            None => entries[i].1,
        };
        if let Some(p) = last_write(writes, pool_id) {
            lemma_last_write_is_a_write(writes, pool_id);
            let k = choose|k: int| 0 <= k < writes.len() && #[trigger] writes[k] == (pool_id, p);
            assert(l.pools.dom().contains(writes[k].0));
        }
        assert(position.shares == l.position(pool_id, user).shares);
        if let Ok(pool) = load_pool_spec(l.config, entries[i].0) {
            if let Ok(pending) = pool_pending_spec(pool, position) {
                if pending > 0 {
                    if let Ok(debt) = accumulated_spec(position.shares as int, pool.acc_reward_per_share as int) {
                        let paid = effects + seq![
                            Effect::Transfer { token: pool.reward_token, from: this, to: user, amount: pending },
                            Effect::Emit { event: Event::Claimed { pool_id, user, amount: pending } },
                        ];
                        let written = writes.push((pool_id, Position { reward_debt: debt, ..position }));
                        assert(share_preserving(l, user, written)) by {
                            assert forall|k: int| 0 <= k < written.len() implies {
                                &&& l.pools.dom().contains(#[trigger] written[k].0)
                                &&& written[k].1.shares == l.position(written[k].0, user).shares
                                &&& written[k].1.shares != 0
                            } by {
                                if k < writes.len() {
                                    assert(written[k] == writes[k]);
                                }
                            }
                        }
                        lemma_claim_many_writes(l, user, pool_ids, this, i + 1, paid, written, total + pending);
                    }
                } else {
                    lemma_claim_many_writes(l, user, pool_ids, this, i + 1, effects, writes, total);
                }
            }
        }
    }
}

/// Share-preserving position writes keep the invariant, the pools and every
/// position's shares.
proof fn lemma_writes_keep_inv(l: Ledger, user: AddressKey, writes: Seq<(PoolId, Position)>)
    requires
        l.inv(),
        share_preserving(l, user, writes),
    ensures
        l.with_writes(user, writes).inv(),
        l.with_writes(user, writes).pools == l.pools,
        forall|id: PoolId| #[trigger] l.with_writes(user, writes).position(id, user).shares == l.position(id, user).shares,
    decreases writes.len(),
{
    if writes.len() > 0 {
        let prefix = writes.drop_last();
        assert(share_preserving(l, user, prefix)) by {
            assert forall|k: int| 0 <= k < prefix.len() implies {
                &&& l.pools.dom().contains(#[trigger] prefix[k].0)
                &&& prefix[k].1.shares == l.position(prefix[k].0, user).shares
                &&& prefix[k].1.shares != 0
            } by {
                assert(prefix[k] == writes[k]);
            }
        }
        lemma_writes_keep_inv(l, user, prefix);
        let l1 = l.with_writes(user, prefix);
        let (pool_id, p) = writes.last();
        assert(writes[writes.len() - 1] == writes.last());
        assert(l1.pools.dom().contains(pool_id));
        assert(l1.pool_balanced(pool_id));
        assert(l1.position(pool_id, user).shares == p.shares);
        assert(l1.stakers(pool_id).dom().contains(user));
        lemma_position_write_keeps_inv(l1, pool_id, user, l1.pools[pool_id], Some(p));
        assert(l1.with_pool(pool_id, l1.pools[pool_id]).pools =~= l1.pools);
        let l2 = l1.with_position(pool_id, user, Some(p));
        assert forall|id: PoolId| #[trigger] l2.position(id, user).shares == l.position(id, user).shares by {
            assert(l1.position(id, user).shares == l.position(id, user).shares);
        }
    }
}

/// Position writes leave the pools as they are.
pub proof fn lemma_writes_keep_pools(l: Ledger, user: AddressKey, writes: Seq<(PoolId, Position)>)
    ensures
        l.with_writes(user, writes).pools == l.pools,
        l.with_writes(user, writes).config == l.config,
    decreases writes.len(),
{
    if writes.len() > 0 {
        lemma_writes_keep_pools(l, user, writes.drop_last());
    }
}

/// Every entry point keeps the invariant: whatever is called, in any state
/// satisfying it, the settings stay valid, pools stay numbered densely, and
/// each pool's total shares stay equal to the sum of its stakers' shares.
pub proof fn lemma_step_keeps_invariant(l: Ledger, call: Call, now: u64, this: AddressKey)
    requires
        l.inv(),
    ensures
        l.step(call, now, this).inv(),
{
    let config = l.config;
    match call {
        Call::Initialize { admin, share_token, reward_token } => {
            if let Ok((c, pool)) = initialize_spec(config, admin, share_token, reward_token).1 {
                lemma_new_pool_keeps_inv(l, c, pool);
            }
        },
        Call::CreatePool { manager, share_token, reward_token } => {
            if let Ok((pool_id, pool, c)) = create_pool_spec(config, manager, share_token, reward_token).1 {
                lemma_new_pool_keeps_inv(l, c, pool);
            }
        },
        Call::SetPoolManager { pool_id, new_manager } => {
            if let Ok(pool) = set_pool_manager_spec(config, pool_id, l.stored_pool(pool_id), new_manager).1 {
                lemma_same_total_keeps_inv(l, pool_id, pool);
            }
        },
        Call::SetPoolPaused { pool_id, paused } => {
            if let Ok(pool) = set_pool_paused_spec(config, pool_id, l.stored_pool(pool_id), paused).1 {
                lemma_same_total_keeps_inv(l, pool_id, pool);
            }
        },
        Call::DepositInto { pool_id, user, amount } => {
            if let Some((_, Ok(w))) = deposit_into_spec(
                config, pool_id, user, amount, l.stored_pool(pool_id), l.position(pool_id, user),
                l.stake_cap(user), now, this,
            ) {
                lemma_position_write_keeps_inv(l, pool_id, user, w.pool, Some(w.position));
                let l2 = l.with_pool(pool_id, w.pool).with_position(pool_id, user, Some(w.position));
                lemma_side_tables_keep_inv(l2, l2.with_unlock(user, w.unlock_at));
            }
        },
        Call::DistributeTo { pool_id, sender, amount } => {
            if let Some((_, Ok(pool))) = distribute_to_spec(config, pool_id, sender, amount, l.stored_pool(pool_id), this) {
                let old = l.pools[pool_id];
                assert(l.pool_balanced(pool_id));
                lemma_share_sum_nonnegative(l.stakers(pool_id));
                let bps = config.management_fee_bps;
                let fee = if bps > 0 { fee_spec(amount as int, bps as int) } else { 0 };
                if bps > 0 {
                    lemma_fee_within_amount(amount as int, bps as int);
                }
                lemma_reward_increase_nonnegative(amount - fee, old.total_shares as int);
                lemma_same_total_keeps_inv(l, pool_id, pool);
            }
        },
        Call::ClaimFrom { pool_id, user } => {
            if let Ok((_, Some(p))) = claim_from_spec(
                config, pool_id, user, l.stored_pool(pool_id), l.position(pool_id, user), this,
            ).1 {
                assert(l.pool_balanced(pool_id));
                lemma_position_write_keeps_inv(l, pool_id, user, l.pools[pool_id], Some(p));
                assert(l.with_pool(pool_id, l.pools[pool_id]).pools =~= l.pools);
            }
        },
        Call::ClaimMany { user, pool_ids } => {
            let entries = l.claim_entries(user, pool_ids);
            if pool_ids.len() <= MAX_CLAIM_POOLS {
                lemma_claim_many_writes(l, user, pool_ids, this, 0, seq![Effect::RequireAuth { address: user }], seq![], 0);
            }
            if let Ok((_, writes)) = claim_many_spec(config, user, pool_ids, entries, this).1 {
                lemma_writes_keep_inv(l, user, writes);
            }
        },
        Call::WithdrawFrom { pool_id, user, amount } => {
            if let Ok(w) = withdraw_from_spec(
                config, pool_id, user, amount, l.stored_pool(pool_id), l.position(pool_id, user),
                l.unlock_time(user), now, this,
            ).1 {
                lemma_position_write_keeps_inv(l, pool_id, user, w.pool, w.position);
            }
        },
        Call::Pause => {
            if let Ok(c) = set_paused_spec(config, true).1 {
                lemma_config_keeps_inv(l, c);
            }
        },
        Call::Unpause => {
            if let Ok(c) = set_paused_spec(config, false).1 {
                lemma_config_keeps_inv(l, c);
            }
        },
        Call::SetMinimumDeposit { amount } => {
            if let Ok(c) = admin_update_spec(config, amount < 0, Error::InvalidAmount, Config { minimum_deposit: amount, ..config }).1 {
                lemma_config_keeps_inv(l, c);
            }
        },
        Call::SetMaxStakePerUser { user, limit } => {
            lemma_side_tables_keep_inv(l, l.step(call, now, this));
        },
        Call::TransferAdmin { new_admin } => {
            if let Ok(c) = admin_set_spec(config, Config { admin: Some(new_admin), ..config }).1 {
                lemma_config_keeps_inv(l, c);
            }
        },
        Call::SetLockupDuration { seconds } => {
            if let Ok(c) = admin_set_spec(config, Config { lockup_duration: seconds, ..config }).1 {
                lemma_config_keeps_inv(l, c);
            }
        },
        Call::SetManagementFee { bps } => {
            if let Ok(c) = admin_update_spec(
                config, bps > MAX_FEE_BPS, Error::InvalidFeeBps, Config { management_fee_bps: bps, ..config },
            ).1 {
                lemma_config_keeps_inv(l, c);
            }
        },
        Call::SetFeeCollector { collector } => {
            if let Ok(c) = admin_set_spec(config, Config { fee_collector: Some(collector), ..config }).1 {
                lemma_config_keeps_inv(l, c);
            }
        },
        Call::RecoverToken { .. } => {},
    }
}

/// The effects of an outcome that take hold: all of them when it is
/// accepted, none when it is refused.
pub open spec fn kept<T>(outcome: (Seq<Effect>, Result<T, Error>)) -> Seq<Effect> {
    if outcome.1 is Ok {
        outcome.0
    } else {
        seq![]
    }
}

/// The state before the contract's first invocation: nothing stored.
pub open spec fn empty_ledger() -> Ledger {
    Ledger {
        config: Config {
            initialized: false,
            admin: None,
            paused: false,
            minimum_deposit: 0,
            lockup_duration: 0,
            management_fee_bps: 0,
            fee_collector: None,
            next_pool_id: 0,
        },
        pools: Map::empty(),
        positions: Map::empty(),
        max_stake: Map::empty(),
        unlock_at: Map::empty(),
    }
}

/// The empty ledger satisfies the invariant.
pub proof fn lemma_empty_ledger_inv()
    ensures
        empty_ledger().inv(),
{
}


/// In every state satisfying the invariant, no pool holds a negative share
/// total and no staker a negative position: each pool's total is the sum of
/// its stakers' shares, and each of those is positive.
pub proof fn lemma_shares_never_negative(l: Ledger, pool_id: PoolId, user: AddressKey)
    requires
        l.inv(),
    ensures
        l.position(pool_id, user).shares >= 0,
        l.pools.dom().contains(pool_id) ==> l.pools[pool_id].total_shares >= 0,
        l.pools.dom().contains(pool_id) ==> l.position(pool_id, user).shares <= l.pools[pool_id].total_shares,
{
    if l.pools.dom().contains(pool_id) {
        assert(l.pool_balanced(pool_id));
        lemma_share_sum_nonnegative(l.stakers(pool_id));
        if l.stakers(pool_id).dom().contains(user) {
            lemma_share_sum_remove(l.stakers(pool_id), user);
            let rest = l.stakers(pool_id).remove(user);
            assert forall|u: AddressKey| #[trigger] rest.dom().contains(u) implies rest[u].shares > 0 by {
                assert(l.stakers(pool_id).dom().contains(u));
            }
            lemma_share_sum_nonnegative(rest);
        }
    } else {
        assert(!l.positions.dom().contains(pool_id));
    }
}

} // verus!

