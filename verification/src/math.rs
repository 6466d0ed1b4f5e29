use vstd::prelude::*;
use crate::types::Error;
use vstd::arithmetic::div_mod::{
    lemma_div_by_multiple, lemma_div_is_ordered, lemma_div_pos_is_pos, lemma_fundamental_div_mod,
};
use vstd::arithmetic::mul::lemma_mul_inequality;

verus! {

/// Fixed-point scaling factor of the reward accumulator: 1e12.
pub const SCALE: i128 = 1_000_000_000_000;

/// Whether an integer fits in an `i128`.
pub open spec fn fits_i128(x: int) -> bool {
    i128::MIN <= x <= i128::MAX
}

/// Integer division as Rust performs it: the quotient rounded toward zero.
pub open spec fn div_toward_zero(x: int, d: int) -> int {
    if x >= 0 {
        if d > 0 { x / d } else { -(x / (-d)) }
    } else {
        if d > 0 { -((-x) / d) } else { (-x) / (-d) }
    }
}

/// `a * b / SCALE`, rounded toward zero, or an overflow error when `a * b`
/// does not fit in an `i128`.
pub open spec fn scaled_mul_spec(a: int, b: int) -> Result<i128, Error> {
    if fits_i128(a * b) {
        Ok(div_toward_zero(a * b, SCALE as int) as i128)
    } else {
        Err(Error::ArithmeticOverflow)
    }
}

/// Multiplies `a * b` then divides by SCALE, checking overflow at each step.
fn scale_mul_div(a: i128, b: i128) -> (r: Result<i128, Error>)
    ensures
        r == scaled_mul_spec(a as int, b as int),
{
    match a.checked_mul(b) {
        Some(p) => {
            match p.checked_div(SCALE) {
                Some(q) => Ok(q),
                None => Err(Error::ArithmeticOverflow),
            }
        },
        None => Err(Error::ArithmeticOverflow),
    }
}

/// `a * SCALE / b`, rounded toward zero; an overflow error when `a * SCALE`
/// or the quotient does not fit in an `i128`, or when `b` is zero.
pub open spec fn scaled_div_spec(a: int, b: int) -> Result<i128, Error> {
    if !fits_i128(a * SCALE) || b == 0 || !fits_i128(div_toward_zero(a * SCALE, b)) {
        Err(Error::ArithmeticOverflow)
    } else {
        Ok(div_toward_zero(a * SCALE, b) as i128)
    }
}

/// Divides `a` by `b` then multiplies by SCALE, checking overflow at each step.
fn scale_div_mul(a: i128, b: i128) -> (r: Result<i128, Error>)
    ensures
        r == scaled_div_spec(a as int, b as int),
{
    match a.checked_mul(SCALE) {
        Some(p) => {
            match p.checked_div(b) {
                Some(q) => Ok(q),
                None => Err(Error::ArithmeticOverflow),
            }
        },
        None => Err(Error::ArithmeticOverflow),
    }
}

/// What `shares` have earned at accumulator value `index`:
/// `shares * index / SCALE`, or an overflow error.
pub open spec fn accumulated_spec(shares: int, index: int) -> Result<i128, Error> {
    scaled_mul_spec(shares, index)
}

/// Claimable reward: what has been earned minus the recorded debt, or an
/// overflow error.
pub open spec fn pending_spec(shares: int, index: int, debt: int) -> Result<i128, Error> {
    match accumulated_spec(shares, index) {
        Ok(earned) => if fits_i128(earned - debt) {
            Ok((earned - debt) as i128)
        } else {
            Err(Error::ArithmeticOverflow)
        },
        Err(e) => Err(e),
    }
}

/// How much the accumulator grows when `amount` is shared over `total_shares`:
/// `amount * SCALE / total_shares`, or an overflow error.
pub open spec fn reward_increase_spec(amount: int, total_shares: int) -> Result<i128, Error> {
    scaled_div_spec(amount, total_shares)
}

/// Calculates accumulated rewards for a user's shares at the current index.
pub fn accumulated(shares: i128, index: i128) -> (r: Result<i128, Error>)
    ensures
        r == accumulated_spec(shares as int, index as int),
{
    scale_mul_div(shares, index)
}

/// Calculates pending rewards: accumulated rewards minus already-recorded debt.
pub fn pending(shares: i128, index: i128, debt: i128) -> (r: Result<i128, Error>)
    ensures
        r == pending_spec(shares as int, index as int, debt as int),
{
    match accumulated(shares, index) {
        Ok(earned) => match earned.checked_sub(debt) {
            Some(p) => Ok(p),
            None => Err(Error::ArithmeticOverflow),
        },
        Err(e) => Err(e),
    }
}

/// Calculates the index increase per share for a reward distribution.
pub fn reward_increase(amount: i128, total_shares: i128) -> (r: Result<i128, Error>)
    ensures
        r == reward_increase_spec(amount as int, total_shares as int),
{
    scale_div_mul(amount, total_shares)
}

/// The management fee skimmed off a distribution of `amount` at `bps` basis
/// points: `amount * bps / 10000`, rounded toward zero.
pub open spec fn fee_spec(amount: int, bps: int) -> int {
    div_toward_zero(amount * bps, 10_000)
}

/// A fee of at most 100% of a non-negative amount is neither negative nor
/// more than the amount: the distributable remainder is never negative.
pub proof fn lemma_fee_within_amount(amount: int, bps: int)
    requires
        amount >= 0,
        0 <= bps <= 10_000,
    ensures
        0 <= fee_spec(amount, bps) <= amount,
{
    lemma_mul_inequality(bps, 10_000, amount);
    assert(bps * amount == amount * bps) by (nonlinear_arith);
    assert(10_000 * amount == amount * 10_000) by (nonlinear_arith);
    assert(amount * bps >= 0) by (nonlinear_arith)
        requires
            amount >= 0,
            bps >= 0,
    ;
    lemma_div_is_ordered(amount * bps, amount * 10_000, 10_000);
    lemma_div_by_multiple(amount, 10_000);
    lemma_div_pos_is_pos(amount * bps, 10_000);
}

/// Sharing a non-negative amount over a positive number of shares never
/// lowers the accumulator.
pub proof fn lemma_reward_increase_nonnegative(amount: int, total_shares: int)
    requires
        amount >= 0,
        total_shares > 0,
    ensures
        reward_increase_spec(amount, total_shares) matches Ok(increase) ==> increase >= 0,
{
    assert(amount * SCALE >= 0) by (nonlinear_arith)
        requires
            amount >= 0,
    ;
    lemma_div_pos_is_pos(amount * SCALE, total_shares);
}

/// The sum of a sequence of amounts.
pub open spec fn total_of(amounts: Seq<i128>) -> int
    decreases amounts.len(),
{
    if amounts.len() == 0 {
        0
    } else {
        total_of(amounts.drop_last()) + amounts.last()
    }
}

/// The accumulator value reached from zero by distributing each of `amounts`
/// in turn over `total_shares` (a refused distribution adds nothing).
pub open spec fn index_after(amounts: Seq<i128>, total_shares: int) -> int
    decreases amounts.len(),
{
    if amounts.len() == 0 {
        0
    } else {
        index_after(amounts.drop_last(), total_shares) + match reward_increase_spec(amounts.last() as int, total_shares) {
            Ok(increase) => increase as int,
            Err(_) => 0,
        }
    }
}

/// What stakers holding `shares` have earned at accumulator value `index`
/// (a position whose reward overflows counts for nothing).
pub open spec fn entitlement(shares: Seq<i128>, index: int) -> int
    decreases shares.len(),
{
    if shares.len() == 0 {
        0
    } else {
        entitlement(shares.drop_last(), index) + match accumulated_spec(shares.last() as int, index) {
            Ok(earned) => earned as int,
            Err(_) => 0,
        }
    }
}

proof fn lemma_index_bound(amounts: Seq<i128>, total_shares: int)
    requires
        total_shares > 0,
        forall|k: int| 0 <= k < amounts.len() ==> #[trigger] amounts[k] >= 0,
    ensures
        index_after(amounts, total_shares) >= 0,
        index_after(amounts, total_shares) * total_shares <= total_of(amounts) * SCALE,
    decreases amounts.len(),
{
    if amounts.len() > 0 {
        let prefix = amounts.drop_last();
        assert forall|k: int| 0 <= k < prefix.len() implies #[trigger] prefix[k] >= 0 by {
            assert(prefix[k] == amounts[k]);
        }
        lemma_index_bound(prefix, total_shares);
        let a = amounts.last() as int;
        assert(amounts[amounts.len() - 1] >= 0);
        let x = a * SCALE;
        assert(x >= 0) by (nonlinear_arith)
            requires
                a >= 0,
                x == a * SCALE,
        ;
        lemma_fundamental_div_mod(x, total_shares);
        lemma_div_pos_is_pos(x, total_shares);
        let q = x / total_shares;
        assert(q * total_shares <= x) by (nonlinear_arith)
            requires
                x == total_shares * q + x % total_shares,
                x % total_shares >= 0,
        ;
        let i0 = index_after(prefix, total_shares);
        let inc = match reward_increase_spec(a, total_shares) {
            Ok(increase) => increase as int,
            Err(_) => 0,
        };
        assert(inc >= 0 && inc * total_shares <= x) by {
            if reward_increase_spec(a, total_shares) is Ok {
                assert(inc == q);
            } else {
                assert(inc * total_shares == 0) by (nonlinear_arith)
                    requires
                        inc == 0,
                ;
            }
        }
        assert((i0 + inc) * total_shares == i0 * total_shares + inc * total_shares) by (nonlinear_arith);
        assert((total_of(prefix) + a) * SCALE == total_of(prefix) * SCALE + a * SCALE) by (nonlinear_arith);
    }
}

proof fn lemma_entitlement_bound(shares: Seq<i128>, index: int)
    requires
        index >= 0,
        forall|i: int| 0 <= i < shares.len() ==> #[trigger] shares[i] >= 0,
    ensures
        entitlement(shares, index) >= 0,
        entitlement(shares, index) * SCALE <= total_of(shares) * index,
    decreases shares.len(),
{
    if shares.len() > 0 {
        let prefix = shares.drop_last();
        assert forall|i: int| 0 <= i < prefix.len() implies #[trigger] prefix[i] >= 0 by {
            assert(prefix[i] == shares[i]);
        }
        lemma_entitlement_bound(prefix, index);
        let s = shares.last() as int;
        assert(shares[shares.len() - 1] >= 0);
        let x = s * index;
        assert(x >= 0) by (nonlinear_arith)
            requires
                s >= 0,
                index >= 0,
                x == s * index,
        ;
        lemma_fundamental_div_mod(x, SCALE as int);
        lemma_div_pos_is_pos(x, SCALE as int);
        let sc = SCALE as int;
        let q = x / sc;
        assert(q * sc <= x) by (nonlinear_arith)
            requires
                x == sc * q + x % sc,
                x % sc >= 0,
        ;
        let e0 = entitlement(prefix, index);
        let earned = match accumulated_spec(s, index) {
            Ok(v) => v as int,
            Err(_) => 0,
        };
        assert(earned >= 0 && earned * SCALE <= x) by {
            if accumulated_spec(s, index) is Ok {
                assert(earned == q);
            }
        }
        assert((e0 + earned) * SCALE == e0 * SCALE + earned * SCALE) by (nonlinear_arith);
        assert((total_of(prefix) + s) * index == total_of(prefix) * index + s * index) by (nonlinear_arith);
    }
}

/// Rounding never over-pays.  With a fixed set of stakers holding `shares`
/// (and nothing else staked), whatever sequence of `amounts` is distributed
/// from a zero accumulator, the rewards the stakers are entitled to add up to
/// at most what was distributed.
pub proof fn lemma_rounding_never_overpays(shares: Seq<i128>, amounts: Seq<i128>)
    requires
        forall|i: int| 0 <= i < shares.len() ==> #[trigger] shares[i] >= 0,
        forall|k: int| 0 <= k < amounts.len() ==> #[trigger] amounts[k] >= 0,
        total_of(shares) > 0,
    ensures
        entitlement(shares, index_after(amounts, total_of(shares))) <= total_of(amounts),
{
    let t = total_of(shares);
    lemma_index_bound(amounts, t);
    let index = index_after(amounts, t);
    lemma_entitlement_bound(shares, index);
    let e = entitlement(shares, index);
    let d = total_of(amounts);
    assert(t * index == index * t) by (nonlinear_arith);
    assert(e <= d) by (nonlinear_arith)
        requires
            e * SCALE <= t * index,
            index * t <= d * SCALE,
            SCALE > 0,
    ;
}

} // verus!
