# StellarFraction distribution contract, verified

A proportional rental-yield distribution contract for the Soroban platform:
stakers lock property share tokens in a pool and earn a pro-rata cut of the
reward token (e.g. USDC) paid into it, with O(1) accounting through a running
`acc_reward_per_share` accumulator scaled by 1e12 and a per-position reward
debt.

## Layout

- `src/` — the verified library (Verus).
  - `types.rs` — addresses as plain values, pools, positions, settings,
    errors, events, and the host effects an entry point performs.
  - `math.rs` — the fixed-point reward arithmetic, and the proof that
    rounding never pays stakers more than was distributed.
  - `contract.rs` — every entry point as a function from the stored values it
    reads and its arguments to its ordered effects (authorization demands,
    token transfers, events) and its result with the values it writes.
  - `ledger.rs` — the whole contract state as a model, each entry point as a
    transition of it, and the proof that every transition keeps each pool's
    total stake equal to the sum of its stakers' shares.
  - `custody.rs` — what the contract's token holdings do: its holding of a
    share token follows the shares staked in it over every pool that uses it,
    and reward tokens are conserved (paid in net of the fee, paid out as
    claims).
  - `laws.rs` — further properties across entry points: claims pay exactly
    what is pending and settle it, claiming several pools at once is claiming
    each in turn, deposits and withdrawals undo each other, the lockup holds,
    pause halts, recovery never touches pool tokens, nothing happens without
    the right authorization.
- `tests/` — scenarios run on an in-memory host that performs the effects.
- `app/` — the Soroban contract itself: storage, authorization, token
  transfers and events around the library.
