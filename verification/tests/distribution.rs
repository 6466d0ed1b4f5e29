// Scenarios of the distribution contract, run on an in-memory host that
// performs each entry point's effects (authorization, token transfers) and
// storage writes, rolling back refused or aborted invocations.

use std::collections::{HashMap, HashSet};

use stellar_fraction::contract::DistributionContract;
use stellar_fraction::types::{AddressKey, Config, Effect, Error, Event, Outcome, Pool, PoolId, Position};

#[derive(Debug, PartialEq)]
enum Failure {
    Refused(Error),
    Aborted,
}

#[derive(Clone)]
struct Host {
    config: Config,
    pools: HashMap<PoolId, Pool>,
    positions: HashMap<(PoolId, AddressKey), Position>,
    max_stake: HashMap<AddressKey, i128>,
    unlock_at: HashMap<AddressKey, u64>,
    balances: HashMap<(AddressKey, AddressKey), i128>,
    events: Vec<Event>,
    authorized: Option<HashSet<AddressKey>>,
    this: AddressKey,
    now: u64,
    next_address: u64,
}

fn key(n: u64) -> AddressKey {
    AddressKey(n, 0, 0, 0, 0, 0, 0)
}

impl Host {
    fn new() -> Host {
        Host {
            config: Config {
                initialized: false,
                admin: None,
                paused: false,
                minimum_deposit: 0,
                lockup_duration: 0,
                management_fee_bps: 0,
                fee_collector: None,
                next_pool_id: 0,
            },
            pools: HashMap::new(),
            positions: HashMap::new(),
            max_stake: HashMap::new(),
            unlock_at: HashMap::new(),
            balances: HashMap::new(),
            events: Vec::new(),
            authorized: None,
            this: key(1),
            now: 1_000,
            next_address: 100,
        }
    }

    fn generate(&mut self) -> AddressKey {
        self.next_address += 1;
        key(self.next_address)
    }

    fn mint(&mut self, token: AddressKey, to: AddressKey, amount: i128) {
        *self.balances.entry((token, to)).or_insert(0) += amount;
    }

    fn balance(&self, token: AddressKey, holder: AddressKey) -> i128 {
        *self.balances.get(&(token, holder)).unwrap_or(&0)
    }

    fn transfer(&mut self, token: AddressKey, from: AddressKey, to: AddressKey, amount: i128) -> Result<(), Failure> {
        if amount < 0 || self.balance(token, from) < amount {
            return Err(Failure::Aborted);
        }
        *self.balances.entry((token, from)).or_insert(0) -= amount;
        *self.balances.entry((token, to)).or_insert(0) += amount;
        Ok(())
    }

    fn stored_pool(&self, pool_id: PoolId) -> Option<Pool> {
        self.pools.get(&pool_id).copied()
    }

    fn position(&self, pool_id: PoolId, user: AddressKey) -> Position {
        self.positions.get(&(pool_id, user)).copied().unwrap_or(Position { shares: 0, reward_debt: 0 })
    }

    fn unlock_time(&self, user: AddressKey) -> u64 {
        DistributionContract::get_unlock_time(self.unlock_at.get(&user).copied())
    }

    /// Performs an outcome's effects on a copy of the host, then applies its
    /// writes and keeps the copy when it was accepted.
    fn run<T>(&mut self, outcome: Option<Outcome<T>>, write: impl FnOnce(&mut Host, &T)) -> Result<T, Failure> {
        let outcome = match outcome {
            Some(o) => o,
            None => return Err(Failure::Aborted),
        };
        let mut next = self.clone();
        for effect in outcome.effects.iter() {
            match *effect {
                Effect::RequireAuth { address } => {
                    if let Some(set) = &next.authorized {
                        if !set.contains(&address) {
                            return Err(Failure::Aborted);
                        }
                    }
                },
                Effect::Transfer { token, from, to, amount } => next.transfer(token, from, to, amount)?,
                Effect::Emit { event } => next.events.push(event),
            }
        }
        match outcome.result {
            Ok(value) => {
                write(&mut next, &value);
                *self = next;
                Ok(value)
            },
            Err(e) => Err(Failure::Refused(e)),
        }
    }

    fn initialize(&mut self, admin: AddressKey, share: AddressKey, reward: AddressKey) -> Result<(), Failure> {
        let o = DistributionContract::initialize(&self.config, admin, share, reward);
        self.run(Some(o), |h, (c, pool)| {
            h.config = *c;
            h.pools.insert(0, *pool);
        })
        .map(|_| ())
    }

    fn create_pool(&mut self, manager: AddressKey, share: AddressKey, reward: AddressKey) -> Result<PoolId, Failure> {
        let o = DistributionContract::create_pool(&self.config, manager, share, reward);
        self.run(Some(o), |h, (id, pool, c)| {
            h.config = *c;
            h.pools.insert(*id, *pool);
        })
        .map(|(id, _, _)| id)
    }

    fn deposit_into(&mut self, pool_id: PoolId, user: AddressKey, amount: i128) -> Result<(), Failure> {
        let o = DistributionContract::deposit_into(
            &self.config,
            pool_id,
            user,
            amount,
            self.stored_pool(pool_id),
            self.position(pool_id, user),
            self.max_stake.get(&user).copied(),
            self.now,
            self.this,
        );
        self.run(o, |h, w| {
            h.pools.insert(pool_id, w.pool);
            h.positions.insert((pool_id, user), w.position);
            if let Some(t) = w.unlock_at {
                h.unlock_at.insert(user, t);
            }
        })
        .map(|_| ())
    }

    fn deposit(&mut self, user: AddressKey, amount: i128) -> Result<(), Failure> {
        self.deposit_into(0, user, amount)
    }

    fn withdraw_from(&mut self, pool_id: PoolId, user: AddressKey, amount: i128) -> Result<(), Failure> {
        let o = DistributionContract::withdraw_from(
            &self.config,
            pool_id,
            user,
            amount,
            self.stored_pool(pool_id),
            self.position(pool_id, user),
            self.unlock_time(user),
            self.now,
            self.this,
        );
        self.run(Some(o), |h, w| {
            h.pools.insert(pool_id, w.pool);
            match w.position {
                Some(p) => {
                    h.positions.insert((pool_id, user), p);
                },
                None => {
                    h.positions.remove(&(pool_id, user));
                },
            }
        })
        .map(|_| ())
    }

    fn withdraw(&mut self, user: AddressKey, amount: i128) -> Result<(), Failure> {
        self.withdraw_from(0, user, amount)
    }

    fn distribute_to(&mut self, pool_id: PoolId, sender: AddressKey, amount: i128) -> Result<(), Failure> {
        let o = DistributionContract::distribute_to(&self.config, pool_id, sender, amount, self.stored_pool(pool_id), self.this);
        self.run(o, |h, pool| {
            h.pools.insert(pool_id, *pool);
        })
        .map(|_| ())
    }

    fn distribute(&mut self, sender: AddressKey, amount: i128) -> Result<(), Failure> {
        self.distribute_to(0, sender, amount)
    }

    fn claim_from(&mut self, pool_id: PoolId, user: AddressKey) -> Result<i128, Failure> {
        let o = DistributionContract::claim_from(
            &self.config,
            pool_id,
            user,
            self.stored_pool(pool_id),
            self.position(pool_id, user),
            self.this,
        );
        self.run(Some(o), |h, (_, p)| {
            if let Some(p) = p {
                h.positions.insert((pool_id, user), *p);
            }
        })
        .map(|(amount, _)| amount)
    }

    fn claim(&mut self, user: AddressKey) -> Result<i128, Failure> {
        self.claim_from(0, user)
    }

    fn claim_many(&mut self, user: AddressKey, pool_ids: Vec<PoolId>) -> Result<i128, Failure> {
        let entries: Vec<(Option<Pool>, Position)> =
            pool_ids.iter().map(|id| (self.stored_pool(*id), self.position(*id, user))).collect();
        let o = DistributionContract::claim_many(&self.config, user, &pool_ids, &entries, self.this);
        self.run(Some(o), |h, (_, writes)| {
            for (id, p) in writes.iter() {
                h.positions.insert((*id, user), *p);
            }
        })
        .map(|(total, _)| total)
    }

    fn recover_token(&mut self, token: AddressKey, to: AddressKey, amount: i128) -> Result<(), Failure> {
        let pools: Vec<Option<Pool>> = (0..self.config.next_pool_id).map(|id| self.stored_pool(id)).collect();
        let o = DistributionContract::recover_token(&self.config, token, to, amount, &pools, self.this);
        self.run(Some(o), |_, _| {})
    }

    fn update_config(&mut self, o: Outcome<Config>) -> Result<(), Failure> {
        self.run(Some(o), |h, c| h.config = *c).map(|_| ())
    }

    fn get_shares(&self, user: AddressKey) -> i128 {
        DistributionContract::get_shares(&self.position(0, user))
    }

    fn get_debt(&self, user: AddressKey) -> i128 {
        DistributionContract::get_debt(&self.position(0, user))
    }

    fn get_pool_pending(&self, pool_id: PoolId, user: AddressKey) -> i128 {
        DistributionContract::get_pool_pending(&self.config, self.stored_pool(pool_id), self.position(pool_id, user))
            .unwrap()
    }

    fn get_pending(&self, user: AddressKey) -> i128 {
        DistributionContract::get_pending(&self.config, self.stored_pool(0), self.position(0, user)).unwrap()
    }

    fn total_shares(&self) -> i128 {
        DistributionContract::get_contract_info(&self.config, self.stored_pool(0)).3
    }
}

struct Harness {
    host: Host,
    admin: AddressKey,
    contract_id: AddressKey,
    share_id: AddressKey,
    reward_id: AddressKey,
}

fn setup() -> Harness {
    let mut host = Host::new();
    let admin = host.generate();
    let share_id = host.generate();
    let reward_id = host.generate();
    host.initialize(admin, share_id, reward_id).unwrap();
    let contract_id = host.this;
    Harness { host, admin, contract_id, share_id, reward_id }
}

#[test]
fn test_full_dividend_distribution_flow() {
    let mut h = Host::new();
    let admin = h.generate();
    let user_a = h.generate();
    let user_b = h.generate();
    let share_token = h.generate();
    let reward_token = h.generate();
    let contract_id = h.this;

    h.initialize(admin, share_token, reward_token).unwrap();

    h.mint(share_token, user_a, 1000);
    h.mint(share_token, user_b, 3000);
    h.mint(reward_token, admin, 50000);

    h.deposit(user_a, 1000).unwrap();
    h.deposit(user_b, 3000).unwrap();

    assert_eq!(h.get_shares(user_a), 1000);
    assert_eq!(h.get_shares(user_b), 3000);
    assert_eq!(h.balance(share_token, contract_id), 4000);
    assert_eq!(h.balance(share_token, user_a), 0);
    assert_eq!(h.balance(share_token, user_b), 0);

    h.distribute(admin, 4000).unwrap();
    assert_eq!(h.get_pending(user_a), 1000);
    assert_eq!(h.get_pending(user_b), 3000);

    let claimed_a = h.claim(user_a).unwrap();
    assert_eq!(claimed_a, 1000);
    assert_eq!(h.balance(reward_token, user_a), 1000);
    assert_eq!(h.get_pending(user_a), 0);

    h.distribute(admin, 8000).unwrap();
    assert_eq!(h.get_pending(user_a), 2000);
    assert_eq!(h.get_pending(user_b), 9000);

    h.withdraw(user_b, 1500).unwrap();
    assert_eq!(h.get_shares(user_b), 1500);
    assert_eq!(h.balance(reward_token, user_b), 9000);
    assert_eq!(h.balance(share_token, user_b), 1500);
    assert_eq!(h.get_pending(user_b), 0);
    assert_eq!(h.balance(share_token, contract_id), 2500);

    h.distribute(admin, 5000).unwrap();
    assert_eq!(h.get_pending(user_a), 4000);
    assert_eq!(h.get_pending(user_b), 3000);
}

#[test]
fn test_initialize_requires_admin_auth() {
    // Nobody authorized anything: initialization demands the admin's
    // authorization, so it must fail.
    let mut h = Host::new();
    h.authorized = Some(HashSet::new());
    let admin = h.generate();
    let share_token = h.generate();
    let reward_token = h.generate();
    let unauthenticated = h.initialize(admin, share_token, reward_token);
    assert!(unauthenticated.is_err());
}

#[test]
fn test_errors_and_boundaries() {
    let mut h = Host::new();
    let admin = h.generate();
    let user = h.generate();
    let share_token = h.generate();
    let reward_token = h.generate();

    let err_pre_init = h.deposit(user, 100);
    assert!(err_pre_init.is_err());

    h.initialize(admin, share_token, reward_token).unwrap();

    let err_re_init = h.initialize(admin, share_token, reward_token);
    assert!(err_re_init.is_err());

    let err_dist_zero = h.distribute(admin, 1000);
    assert!(err_dist_zero.is_err());

    let err_withdraw_insufficient = h.withdraw(user, 100);
    assert!(err_withdraw_insufficient.is_err());
}

#[test]
fn test_distribute_division_by_zero_safeguard() {
    let mut s = setup();
    let user = s.host.generate();
    s.host.mint(s.share_id, user, 1000);
    s.host.mint(s.reward_id, s.admin, 10_000);

    assert!(s.host.distribute(s.admin, 1000).is_err());

    s.host.deposit(user, 1000).unwrap();
    assert!(s.host.distribute(s.admin, 1000).is_ok());
    s.host.withdraw(user, 1000).unwrap();

    assert!(s.host.distribute(s.admin, 1000).is_err());
}

#[test]
fn test_reward_math_no_overflow_at_scale() {
    let mut s = setup();
    let whale = s.host.generate();

    let big_stake: i128 = 1_000_000_000 * 10_000_000;
    s.host.mint(s.share_id, whale, big_stake);
    s.host.mint(s.reward_id, s.admin, big_stake);

    s.host.deposit(whale, big_stake).unwrap();
    s.host.distribute(s.admin, big_stake).unwrap();
    assert_eq!(s.host.get_pending(whale), big_stake);

    s.host.mint(s.reward_id, s.admin, big_stake);
    s.host.distribute(s.admin, big_stake).unwrap();
    assert_eq!(s.host.get_pending(whale), big_stake * 2);
}

#[test]
fn test_precision_rounding_micro_investments() {
    let mut s = setup();
    let a = s.host.generate();
    let b = s.host.generate();
    let c = s.host.generate();
    for u in [a, b, c] {
        s.host.mint(s.share_id, u, 1);
        s.host.deposit(u, 1).unwrap();
    }
    s.host.mint(s.reward_id, s.admin, 100);

    s.host.distribute(s.admin, 2).unwrap();
    let pending_sum = s.host.get_pending(a) + s.host.get_pending(b) + s.host.get_pending(c);
    assert_eq!(pending_sum, 0, "rounding must never over-pay stakers");

    s.host.distribute(s.admin, 3).unwrap();
    assert_eq!(s.host.get_pending(a), 1);
    assert_eq!(s.host.get_pending(b), 1);
    assert_eq!(s.host.get_pending(c), 1);
}

#[test]
fn test_single_staker_deposit() {
    let mut s = setup();
    let user = s.host.generate();
    s.host.mint(s.share_id, user, 1000);

    s.host.deposit(user, 400).unwrap();
    assert_eq!(s.host.get_shares(user), 400);
    assert_eq!(s.host.balance(s.share_id, user), 600);
    assert_eq!(s.host.balance(s.share_id, s.contract_id), 400);
    assert_eq!(s.host.get_debt(user), 0);
    assert_eq!(s.host.get_pending(user), 0);

    s.host.deposit(user, 600).unwrap();
    assert_eq!(s.host.get_shares(user), 1000);
    assert_eq!(s.host.balance(s.share_id, user), 0);
    assert_eq!(s.host.balance(s.share_id, s.contract_id), 1000);

    assert_eq!(s.host.total_shares(), 1000);
}

#[test]
fn test_multiple_staker_distribution() {
    let mut s = setup();
    let a = s.host.generate();
    let b = s.host.generate();
    let c = s.host.generate();

    s.host.mint(s.share_id, a, 1000);
    s.host.mint(s.share_id, b, 3000);
    s.host.mint(s.share_id, c, 6000);
    s.host.mint(s.reward_id, s.admin, 50_000);

    s.host.deposit(a, 1000).unwrap();
    s.host.deposit(b, 3000).unwrap();

    s.host.distribute(s.admin, 4000).unwrap();
    assert_eq!(s.host.get_pending(a), 1000);
    assert_eq!(s.host.get_pending(b), 3000);
    assert_eq!(s.host.get_pending(c), 0);

    s.host.deposit(c, 6000).unwrap();

    s.host.distribute(s.admin, 10_000).unwrap();
    assert_eq!(s.host.get_pending(a), 1000 + 1000);
    assert_eq!(s.host.get_pending(b), 3000 + 3000);
    assert_eq!(s.host.get_pending(c), 6000);
}

#[test]
fn test_staker_share_withdrawals() {
    let mut s = setup();
    let user = s.host.generate();
    s.host.mint(s.share_id, user, 1000);
    s.host.mint(s.reward_id, s.admin, 10_000);

    s.host.deposit(user, 1000).unwrap();

    s.host.distribute(s.admin, 1000).unwrap();
    assert_eq!(s.host.get_pending(user), 1000);

    s.host.withdraw(user, 400).unwrap();
    assert_eq!(s.host.get_shares(user), 600);
    assert_eq!(s.host.balance(s.share_id, user), 400);
    assert_eq!(s.host.balance(s.reward_id, user), 1000);
    assert_eq!(s.host.get_pending(user), 0);
    assert_eq!(s.host.total_shares(), 600);

    s.host.distribute(s.admin, 600).unwrap();
    assert_eq!(s.host.get_pending(user), 600);

    s.host.withdraw(user, 600).unwrap();
    assert_eq!(s.host.get_shares(user), 0);
    assert_eq!(s.host.get_pending(user), 0);
    assert_eq!(s.host.balance(s.share_id, user), 1000);
    assert_eq!(s.host.balance(s.reward_id, user), 1600);
    assert_eq!(s.host.total_shares(), 0);
}

fn next_rand(state: &mut u64) -> u64 {
    let mut x = *state;
    x ^= x << 13;
    x ^= x >> 7;
    x ^= x << 17;
    *state = x;
    x
}

#[test]
fn test_fuzz_reward_pool_invariants() {
    let mut s = setup();
    let users = [s.host.generate(), s.host.generate(), s.host.generate(), s.host.generate()];

    for u in &users {
        s.host.mint(s.share_id, *u, 1_000_000);
    }
    s.host.mint(s.reward_id, s.admin, 10_000_000);

    let mut rng: u64 = 0x9E3779B97F4A7C15;
    let mut total_distributed: i128 = 0;

    for _ in 0..250 {
        let action = next_rand(&mut rng) % 4;
        let user = users[(next_rand(&mut rng) % users.len() as u64) as usize];
        let amount = ((next_rand(&mut rng) % 5000) + 1) as i128;

        match action {
            0 => {
                let free = s.host.balance(s.share_id, user);
                if amount <= free {
                    let _ = s.host.deposit(user, amount);
                }
            },
            1 => {
                let staked = s.host.get_shares(user);
                if amount <= staked {
                    let _ = s.host.withdraw(user, amount);
                }
            },
            2 => {
                let total_shares = s.host.total_shares();
                if total_shares > 0 && s.host.distribute(s.admin, amount).is_ok() {
                    total_distributed += amount;
                }
            },
            _ => {
                let _ = s.host.claim(user);
            },
        }

        let total_shares = s.host.total_shares();
        let summed: i128 = users.iter().map(|u| s.host.get_shares(*u)).sum();
        assert_eq!(total_shares, summed, "I1: total_shares desync");
        assert_eq!(s.host.balance(s.share_id, s.contract_id), total_shares, "I2: custody balance desync");

        let contract_reward = s.host.balance(s.reward_id, s.contract_id);
        let paid_out: i128 = users.iter().map(|u| s.host.balance(s.reward_id, *u)).sum();
        assert_eq!(
            contract_reward + paid_out,
            total_distributed,
            "I3: reward conservation broken (held {} + paid {} != distributed {})",
            contract_reward,
            paid_out,
            total_distributed
        );
    }
}

#[test]
fn test_recover_foreign_token_succeeds() {
    let mut s = setup();
    let stranger = s.host.generate();
    let recipient = s.host.generate();

    let foreign_id = s.host.generate();
    s.host.mint(foreign_id, stranger, 5000);
    s.host.transfer(foreign_id, stranger, s.contract_id, 5000).unwrap();
    assert_eq!(s.host.balance(foreign_id, s.contract_id), 5000);

    s.host.recover_token(foreign_id, recipient, 5000).unwrap();
    assert_eq!(s.host.balance(foreign_id, recipient), 5000);
    assert_eq!(s.host.balance(foreign_id, s.contract_id), 0);
}

#[test]
fn test_recover_rejects_share_token() {
    let mut s = setup();
    let user = s.host.generate();
    let recipient = s.host.generate();
    s.host.mint(s.share_id, user, 1000);
    s.host.deposit(user, 1000).unwrap();

    let res = s.host.recover_token(s.share_id, recipient, 1000);
    assert!(res.is_err(), "share-token recovery must be rejected");

    assert_eq!(s.host.balance(s.share_id, s.contract_id), 1000);
    s.host.withdraw(user, 1000).unwrap();
    assert_eq!(s.host.balance(s.share_id, user), 1000);
}

// ── Further scenarios ─────────────────────────────────────────────

#[test]
fn recover_rejects_reward_token_and_bad_amounts() {
    let mut s = setup();
    let recipient = s.host.generate();
    assert_eq!(
        s.host.recover_token(s.reward_id, recipient, 10),
        Err(Failure::Refused(Error::CannotRecoverProtocolToken))
    );
    let foreign = s.host.generate();
    assert_eq!(s.host.recover_token(foreign, recipient, 0), Err(Failure::Refused(Error::InvalidAmount)));
}

#[test]
fn recover_rejects_tokens_of_later_pools() {
    let mut s = setup();
    let manager = s.host.generate();
    let share2 = s.host.generate();
    let reward2 = s.host.generate();
    assert_eq!(s.host.create_pool(manager, share2, reward2), Ok(1));
    let recipient = s.host.generate();
    assert_eq!(
        s.host.recover_token(reward2, recipient, 1),
        Err(Failure::Refused(Error::CannotRecoverProtocolToken))
    );
}

#[test]
fn pause_blocks_deposits_distributions_and_pool_creation() {
    let mut s = setup();
    let user = s.host.generate();
    s.host.mint(s.share_id, user, 100);
    s.host.deposit(user, 50).unwrap();
    let o = DistributionContract::pause(&s.host.config);
    s.host.update_config(o).unwrap();
    assert!(DistributionContract::is_paused(&s.host.config));
    assert_eq!(s.host.deposit(user, 10), Err(Failure::Refused(Error::ContractPaused)));
    assert_eq!(s.host.distribute(s.admin, 10), Err(Failure::Refused(Error::ContractPaused)));
    let m = s.host.generate();
    assert_eq!(s.host.create_pool(m, s.share_id, s.reward_id), Err(Failure::Refused(Error::ContractPaused)));
    // Withdrawals stay open while paused.
    s.host.withdraw(user, 50).unwrap();
    let o = DistributionContract::unpause(&s.host.config);
    s.host.update_config(o).unwrap();
    assert!(!DistributionContract::is_paused(&s.host.config));
    assert!(s.host.deposit(user, 10).is_ok());
    assert_eq!(
        s.host.events.iter().filter(|e| matches!(e, Event::ContractPaused { .. })).count(),
        2
    );
}

#[test]
fn minimum_deposit_and_stake_cap() {
    let mut s = setup();
    let user = s.host.generate();
    s.host.mint(s.share_id, user, 1000);
    let o = DistributionContract::set_minimum_deposit(&s.host.config, 100);
    s.host.update_config(o).unwrap();
    assert_eq!(s.host.deposit(user, 99), Err(Failure::Refused(Error::BelowMinimumDeposit)));
    let o = DistributionContract::set_minimum_deposit(&s.host.config, -1);
    assert_eq!(s.host.update_config(o), Err(Failure::Refused(Error::InvalidAmount)));

    let o = DistributionContract::set_max_stake_per_user(&s.host.config, user, 300);
    let limit = s.host.run(Some(o), |_, _| {}).unwrap();
    s.host.max_stake.insert(user, limit);
    s.host.deposit(user, 200).unwrap();
    assert_eq!(s.host.deposit(user, 101), Err(Failure::Refused(Error::ExceedsMaxStake)));
    s.host.deposit(user, 100).unwrap();
    assert_eq!(s.host.get_shares(user), 300);
    let o = DistributionContract::set_max_stake_per_user(&s.host.config, user, -5);
    assert!(matches!(o.result, Err(Error::InvalidAmount)));
}

#[test]
fn invalid_amounts_are_refused() {
    let mut s = setup();
    let user = s.host.generate();
    assert_eq!(s.host.deposit(user, 0), Err(Failure::Refused(Error::InvalidAmount)));
    assert_eq!(s.host.withdraw(user, -1), Err(Failure::Refused(Error::InvalidAmount)));
    assert_eq!(s.host.distribute(s.admin, 0), Err(Failure::Refused(Error::InvalidAmount)));
}

#[test]
fn lockup_holds_stake_until_expiry() {
    let mut s = setup();
    let user = s.host.generate();
    s.host.mint(s.share_id, user, 1000);
    let o = DistributionContract::set_lockup_duration(&s.host.config, 500);
    s.host.update_config(o).unwrap();
    assert_eq!(DistributionContract::get_lockup_duration(&s.host.config), 500);

    s.host.now = 10_000;
    s.host.deposit(user, 100).unwrap();
    assert_eq!(s.host.unlock_time(user), 10_500);
    s.host.now = 10_499;
    assert_eq!(s.host.withdraw(user, 100), Err(Failure::Refused(Error::StillLocked)));
    s.host.now = 10_500;
    s.host.withdraw(user, 100).unwrap();
    assert_eq!(s.host.balance(s.share_id, user), 1000);
}

#[test]
fn lockup_overflow_aborts_deposit() {
    let mut s = setup();
    let user = s.host.generate();
    s.host.mint(s.share_id, user, 1000);
    let o = DistributionContract::set_lockup_duration(&s.host.config, u64::MAX);
    s.host.update_config(o).unwrap();
    assert_eq!(s.host.deposit(user, 100), Err(Failure::Aborted));
    assert_eq!(s.host.get_shares(user), 0);
}

#[test]
fn unlock_time_defaults_to_zero() {
    assert_eq!(DistributionContract::get_unlock_time(None), 0);
    assert_eq!(DistributionContract::get_unlock_time(Some(42)), 42);
}

#[test]
fn management_fee_is_skimmed_to_collector() {
    let mut s = setup();
    let user = s.host.generate();
    let collector = s.host.generate();
    s.host.mint(s.share_id, user, 1000);
    s.host.mint(s.reward_id, s.admin, 100_000);
    s.host.deposit(user, 1000).unwrap();

    let o = DistributionContract::set_management_fee(&s.host.config, 10_001);
    assert_eq!(s.host.update_config(o), Err(Failure::Refused(Error::InvalidFeeBps)));
    let o = DistributionContract::set_management_fee(&s.host.config, 250);
    s.host.update_config(o).unwrap();
    assert_eq!(DistributionContract::get_management_fee(&s.host.config), 250);

    // A fee without a collector is refused.
    assert_eq!(s.host.distribute(s.admin, 10_000), Err(Failure::Refused(Error::FeeCollectorNotSet)));

    let o = DistributionContract::set_fee_collector(&s.host.config, collector);
    s.host.update_config(o).unwrap();
    assert_eq!(DistributionContract::get_fee_collector(&s.host.config), Some(collector));
    assert_eq!(DistributionContract::get_fee_config(&s.host.config), (250, Some(collector)));

    // 2.5% of 10_000 is 250; the remaining 9_750 goes to the sole staker.
    s.host.distribute(s.admin, 10_000).unwrap();
    assert_eq!(s.host.balance(s.reward_id, collector), 250);
    assert_eq!(s.host.get_pending(user), 9_750);
    assert_eq!(
        s.host.events.last(),
        Some(&Event::Distributed { pool_id: 0, sender: s.admin, amount: 9_750 })
    );
}

#[test]
fn fee_overflow_aborts_distribution() {
    let mut s = setup();
    let user = s.host.generate();
    let collector = s.host.generate();
    s.host.mint(s.share_id, user, 10);
    s.host.deposit(user, 10).unwrap();
    let o = DistributionContract::set_management_fee(&s.host.config, 10_000);
    s.host.update_config(o).unwrap();
    let o = DistributionContract::set_fee_collector(&s.host.config, collector);
    s.host.update_config(o).unwrap();
    let huge = i128::MAX / 2;
    s.host.mint(s.reward_id, s.admin, huge);
    assert_eq!(s.host.distribute(s.admin, huge), Err(Failure::Aborted));
}

#[test]
fn pools_are_isolated() {
    let mut s = setup();
    let manager = s.host.generate();
    let share2 = s.host.generate();
    let reward2 = s.host.generate();
    let user = s.host.generate();
    let pool_id = s.host.create_pool(manager, share2, reward2).unwrap();
    assert_eq!(pool_id, 1);
    assert_eq!(DistributionContract::get_pool_count(&s.host.config), 2);

    s.host.mint(s.share_id, user, 100);
    s.host.mint(share2, user, 100);
    s.host.mint(s.reward_id, s.admin, 1000);
    s.host.mint(reward2, manager, 1000);
    s.host.deposit_into(0, user, 100).unwrap();
    s.host.deposit_into(1, user, 50).unwrap();
    s.host.distribute_to(1, manager, 500).unwrap();
    assert_eq!(s.host.get_pool_pending(0, user), 0);
    assert_eq!(s.host.get_pool_pending(1, user), 500);
    assert_eq!(s.host.balance(share2, s.contract_id), 50);
    assert_eq!(s.host.deposit_into(7, user, 1), Err(Failure::Refused(Error::PoolNotFound)));
}

#[test]
fn pool_manager_controls_its_pool() {
    let mut s = setup();
    let manager = s.host.generate();
    let new_manager = s.host.generate();
    let share2 = s.host.generate();
    let reward2 = s.host.generate();
    let user = s.host.generate();
    let id = s.host.create_pool(manager, share2, reward2).unwrap();

    let o = DistributionContract::set_pool_manager(&s.host.config, id, s.host.stored_pool(id), new_manager);
    assert_eq!(o.effects[0], Effect::RequireAuth { address: manager });
    let pool = s.host.run(Some(o), |h, p| {
        h.pools.insert(id, *p);
    });
    assert_eq!(pool.unwrap().manager, new_manager);

    let o = DistributionContract::set_pool_paused(&s.host.config, id, s.host.stored_pool(id), true);
    assert_eq!(o.effects[0], Effect::RequireAuth { address: new_manager });
    s.host.run(Some(o), |h, p| {
        h.pools.insert(id, *p);
    })
    .unwrap();
    s.host.mint(share2, user, 10);
    assert_eq!(s.host.deposit_into(id, user, 10), Err(Failure::Refused(Error::PoolPaused)));
    assert_eq!(DistributionContract::get_pool(&s.host.config, s.host.stored_pool(id)).unwrap().paused, true);
}

#[test]
fn claim_many_claims_each_pool_once() {
    let mut s = setup();
    let manager = s.host.generate();
    let share2 = s.host.generate();
    let reward2 = s.host.generate();
    let user = s.host.generate();
    let id = s.host.create_pool(manager, share2, reward2).unwrap();
    s.host.mint(s.share_id, user, 100);
    s.host.mint(share2, user, 100);
    s.host.mint(s.reward_id, s.admin, 1000);
    s.host.mint(reward2, manager, 1000);
    s.host.deposit_into(0, user, 100).unwrap();
    s.host.deposit_into(id, user, 100).unwrap();
    s.host.distribute_to(0, s.admin, 300).unwrap();
    s.host.distribute_to(id, manager, 200).unwrap();

    // Naming pool 0 twice pays it once.
    let total = s.host.claim_many(user, vec![0, id, 0]).unwrap();
    assert_eq!(total, 500);
    assert_eq!(s.host.balance(s.reward_id, user), 300);
    assert_eq!(s.host.balance(reward2, user), 200);
    assert_eq!(s.host.claim_many(user, vec![0, id]).unwrap(), 0);

    let too_many: Vec<PoolId> = vec![0; 21];
    assert_eq!(s.host.claim_many(user, too_many), Err(Failure::Refused(Error::TooManyPools)));
    assert_eq!(s.host.claim_many(user, vec![0, 9]), Err(Failure::Refused(Error::PoolNotFound)));
}

#[test]
fn claim_with_nothing_pending_pays_nothing() {
    let mut s = setup();
    let user = s.host.generate();
    assert_eq!(s.host.claim(user), Ok(0));
    let o = DistributionContract::claim(&s.host.config, user, s.host.stored_pool(0), s.host.position(0, user), s.host.this);
    assert_eq!(o.effects.len(), 1);
}

#[test]
fn admin_transfer_moves_admin_rights() {
    let mut s = setup();
    let new_admin = s.host.generate();
    let o = DistributionContract::transfer_admin(&s.host.config, new_admin);
    assert_eq!(o.effects[0], Effect::RequireAuth { address: s.admin });
    s.host.update_config(o).unwrap();
    let o = DistributionContract::pause(&s.host.config);
    assert_eq!(o.effects[0], Effect::RequireAuth { address: new_admin });
    let (admin, share, reward, total, acc) =
        DistributionContract::get_contract_info(&s.host.config, s.host.stored_pool(0));
    assert_eq!((admin, share, reward, total, acc), (new_admin, s.share_id, s.reward_id, 0, 0));
}

#[test]
fn operations_before_initialization_are_refused() {
    let mut h = Host::new();
    let m = h.generate();
    assert_eq!(h.create_pool(m, m, m), Err(Failure::Refused(Error::NotInitialized)));
    let o = DistributionContract::pause(&h.config);
    assert_eq!(h.update_config(o), Err(Failure::Refused(Error::NotInitialized)));
    assert_eq!(
        DistributionContract::get_position(&h.config, None, Position { shares: 0, reward_debt: 0 }),
        Err(Error::NotInitialized)
    );
}

#[test]
fn version_and_metadata() {
    assert_eq!(DistributionContract::version(), "0.1.0");
    let m = DistributionContract::metadata();
    assert_eq!(m.name, "StellarFraction Distribution");
    assert_eq!(m.version, "0.1.0");
    assert_eq!(
        m.description,
        "O(1) proportional rental-yield distribution for fractional real estate stakers"
    );
}

#[test]
fn deposit_then_withdraw_restores_stake() {
    let mut s = setup();
    let user = s.host.generate();
    let other = s.host.generate();
    s.host.mint(s.share_id, user, 1000);
    s.host.mint(s.share_id, other, 1000);
    s.host.mint(s.reward_id, s.admin, 1000);
    s.host.deposit(other, 300).unwrap();
    s.host.deposit(user, 200).unwrap();
    s.host.distribute(s.admin, 500).unwrap();
    let shares_before = s.host.get_shares(user);
    let total_before = s.host.total_shares();
    s.host.deposit(user, 250).unwrap();
    assert_eq!(s.host.get_pending(user), 0);
    s.host.withdraw(user, 250).unwrap();
    assert_eq!(s.host.get_shares(user), shares_before);
    assert_eq!(s.host.total_shares(), total_before);
    assert_eq!(s.host.get_pending(user), 0);
    // The 200 pending at the first top-up was paid out by it.
    assert_eq!(s.host.balance(s.reward_id, user), 200);
}

#[test]
fn full_withdrawal_clears_position() {
    let mut s = setup();
    let user = s.host.generate();
    s.host.mint(s.share_id, user, 100);
    s.host.deposit(user, 100).unwrap();
    assert!(s.host.positions.contains_key(&(0, user)));
    s.host.withdraw(user, 100).unwrap();
    assert!(!s.host.positions.contains_key(&(0, user)));
    assert_eq!(s.host.get_debt(user), 0);
}

#[test]
fn staking_calls_demand_the_stakers_authorization() {
    let mut s = setup();
    let user = s.host.generate();
    let intruder = s.host.generate();
    s.host.mint(s.share_id, user, 100);
    s.host.authorized = Some([intruder].into_iter().collect());
    assert_eq!(s.host.deposit(user, 100), Err(Failure::Aborted));
    s.host.authorized = Some([user].into_iter().collect());
    s.host.deposit(user, 100).unwrap();
    // Only the admin may pause.
    let o = DistributionContract::pause(&s.host.config);
    assert_eq!(s.host.update_config(o), Err(Failure::Aborted));
    assert!(!s.host.config.paused);
}

#[test]
fn settings_before_initialization_are_refused() {
    let h = Host::new();
    let someone = key(7);
    let o = DistributionContract::set_lockup_duration(&h.config, 5);
    assert!(o.effects.is_empty());
    assert_eq!(o.result.err(), Some(Error::NotInitialized));
    let o = DistributionContract::set_management_fee(&h.config, 100);
    assert!(o.effects.is_empty());
    assert_eq!(o.result.err(), Some(Error::NotInitialized));
    let o = DistributionContract::set_fee_collector(&h.config, someone);
    assert!(o.effects.is_empty());
    assert_eq!(o.result.err(), Some(Error::NotInitialized));
    let o = DistributionContract::recover_token(&h.config, someone, someone, 10, &Vec::new(), h.this);
    assert!(o.effects.is_empty());
    assert_eq!(o.result, Err(Error::NotInitialized));
}

#[test]
fn custody_of_a_shared_share_token_is_the_sum_of_its_pools() {
    let mut s = setup();
    let manager = s.host.generate();
    let other_reward = s.host.generate();
    let a = s.host.generate();
    let b = s.host.generate();
    // A second pool staking the same share token as pool 0.
    let id = s.host.create_pool(manager, s.share_id, other_reward).unwrap();
    s.host.mint(s.share_id, a, 500);
    s.host.mint(s.share_id, b, 500);
    s.host.deposit_into(0, a, 120).unwrap();
    s.host.deposit_into(id, a, 80).unwrap();
    s.host.deposit_into(id, b, 300).unwrap();
    let held = |h: &Host| h.balance(s.share_id, s.contract_id);
    let staked = |h: &Host| h.stored_pool(0).unwrap().total_shares + h.stored_pool(id).unwrap().total_shares;
    assert_eq!(held(&s.host), 500);
    assert_eq!(held(&s.host), staked(&s.host));
    s.host.withdraw_from(id, b, 100).unwrap();
    s.host.withdraw_from(0, a, 120).unwrap();
    assert_eq!(held(&s.host), 280);
    assert_eq!(held(&s.host), staked(&s.host));
    // A refused withdrawal moves nothing.
    assert_eq!(s.host.withdraw_from(0, a, 1), Err(Failure::Refused(Error::InsufficientShares)));
    assert_eq!(held(&s.host), staked(&s.host));
}

#[test]
fn claim_many_does_what_successive_claims_do() {
    let mut s = setup();
    let manager = s.host.generate();
    let share2 = s.host.generate();
    let reward2 = s.host.generate();
    let user = s.host.generate();
    let id = s.host.create_pool(manager, share2, reward2).unwrap();
    s.host.mint(s.share_id, user, 100);
    s.host.mint(share2, user, 100);
    s.host.mint(s.reward_id, s.admin, 1000);
    s.host.mint(reward2, manager, 1000);
    s.host.deposit_into(0, user, 100).unwrap();
    s.host.deposit_into(id, user, 100).unwrap();
    s.host.distribute_to(0, s.admin, 300).unwrap();
    s.host.distribute_to(id, manager, 200).unwrap();

    let mut one_by_one = s.host.clone();
    let mut together = s.host.clone();
    let first = one_by_one.claim_from(id, user).unwrap();
    let second = one_by_one.claim_from(0, user).unwrap();
    let third = one_by_one.claim_from(id, user).unwrap();
    assert_eq!((first, second, third), (200, 300, 0));
    assert_eq!(together.claim_many(user, vec![id, 0, id]).unwrap(), first + second + third);
    assert_eq!(together.events, one_by_one.events);
    assert_eq!(together.balances, one_by_one.balances);
    assert_eq!(together.positions, one_by_one.positions);
}
