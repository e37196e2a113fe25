//! How many contracts to buy.

use crate::numeric::binary64;
use crate::numeric::binary64::Binary64;
use crate::numeric::laws;
use crate::numeric::rounding;
use vstd::arithmetic::div_mod::*;
use vstd::arithmetic::power2::*;
use vstd::prelude::*;

verus! {

/// The fractional Kelly bet: with the probability that the odds imply, raised by the edge, the
/// fraction of the bankroll that grows it fastest, held between zero and one and scaled.
pub open spec fn kelly(edge: Binary64, odds: Binary64, multiplier: Binary64) -> Binary64 {
    let one = Binary64::whole(1);
    let zero = Binary64::whole(0);
    if odds.at_most(one) {
        zero
    } else {
        let model_prob = one.quotient(odds).sum(edge);
        let net_odds = odds.difference(one);
        let fraction = model_prob.product(net_odds).difference(one.difference(model_prob)).quotient(
            net_odds,
        );
        fraction.held_between(zero, one).product(multiplier).greater_of(zero)
    }
}

/// The fractional Kelly bet.
///
/// `edge` is the probability that the model sees, less the one that the market implies; `odds` is
/// the gross payout, 100 over the price in cents.
pub fn kelly_fraction(edge: Binary64, odds: Binary64, kelly_multiplier: Binary64) -> (r: Binary64)
    ensures
        r == kelly(edge, odds, kelly_multiplier),
{
    let one: Binary64 = Binary64::from_u64(1);
    let zero: Binary64 = Binary64::from_u64(0);
    if odds.le(one) {
        return zero;
    }
    let implied_prob: Binary64 = one.div(odds);
    let model_prob: Binary64 = implied_prob.add(edge);
    let net_odds: Binary64 = odds.sub(one);
    let fraction: Binary64 = model_prob.mul(net_odds).sub(one.sub(model_prob)).div(net_odds);
    fraction.clamp(zero, one).mul(kelly_multiplier).max(zero)
}

/// The lesser of two numbers.
pub open spec fn lesser(a: int, b: int) -> int {
    if a <= b {
        a
    } else {
        b
    }
}

/// How many contracts a bet buys: as many as its share of the bankroll pays for, at most as many as
/// the position limit pays for, and at most the contract limit. None where a contract costs less
/// than a cent.
pub open spec fn contracts(
    kelly_fraction: Binary64,
    bankroll_cents: int,
    yes_price_cents: Binary64,
    max_position_cents: int,
    max_contracts: int,
) -> int {
    if !yes_price_cents.finite() || yes_price_cents.truncated() < 1 {
        0
    } else {
        let wanted = kelly_fraction.product(Binary64::whole(bankroll_cents)).quotient(
            yes_price_cents,
        ).truncated();
        lesser(lesser(wanted, yes_price_cents.goes_into(max_position_cents)), max_contracts)
    }
}

/// How many contracts to buy.
pub fn compute_contracts(
    kelly_fraction: Binary64,
    bankroll_cents: u64,
    yes_price_cents: Binary64,
    max_position_cents: u64,
    max_contracts: u64,
) -> (r: u64)
    ensures
        r == contracts(
            kelly_fraction,
            bankroll_cents as int,
            yes_price_cents,
            max_position_cents as int,
            max_contracts as int,
        ),
{
    if !yes_price_cents.is_finite() || yes_price_cents.to_u64() == 0 {
        return 0;
    }
    let raw_amount: Binary64 = kelly_fraction.mul(Binary64::from_u64(bankroll_cents));
    let wanted: u64 = raw_amount.div(yes_price_cents).to_u64();
    let affordable: u64 = yes_price_cents.times_in(max_position_cents);
    let capped: u64 = if wanted <= affordable {
        wanted
    } else {
        affordable
    };
    if capped <= max_contracts {
        capped
    } else {
        max_contracts
    }
}

/// What is bought never costs more than the position limit, and is never more than the contract
/// limit.
pub proof fn lemma_contracts_within_limits(
    kelly_fraction: Binary64,
    bankroll_cents: u64,
    yes_price_cents: Binary64,
    max_position_cents: u64,
    max_contracts: u64,
)
    ensures
        ({
            let n = contracts(
                kelly_fraction,
                bankroll_cents as int,
                yes_price_cents,
                max_position_cents as int,
                max_contracts as int,
            );
            &&& 0 <= n <= max_contracts
            &&& n > 0 ==> n * yes_price_cents.units() <= max_position_cents * binary64::one()
        }),
{
    let n = contracts(
        kelly_fraction,
        bankroll_cents as int,
        yes_price_cents,
        max_position_cents as int,
        max_contracts as int,
    );
    if yes_price_cents.finite() && yes_price_cents.truncated() >= 1 {
        let o = binary64::one();
        let u = binary64::magnitude_units(yes_price_cents.magnitude());
        lemma_pow2_pos(1074);
        lemma_pow2_pos(binary64::exponent(yes_price_cents.magnitude()));
        assert(u > 0) by {
            binary64::lemma_small_units(0);
            if yes_price_cents.magnitude() > 0 {
                binary64::lemma_units_increase(0, yes_price_cents.magnitude());
            } else {
                lemma_basic_div(0, o);
            }
        }
        let limit = max_position_cents * o;
        let q = limit / u;
        assert(0 <= limit) by (nonlinear_arith)
            requires
                limit == max_position_cents * o,
                0 <= max_position_cents,
                0 < o,
        ;
        lemma_fundamental_div_mod(limit, u);
        lemma_mod_bound(limit, u);
        lemma_div_pos_is_pos(limit, u);
        let wanted = kelly_fraction.product(Binary64::whole(bankroll_cents as int)).quotient(
            yes_price_cents,
        );
        laws::lemma_truncated_range(wanted);
        assert(n * u <= q * u) by (nonlinear_arith)
            requires
                0 <= n <= q,
                0 < u,
        ;
        assert(q * u <= limit) by (nonlinear_arith)
            requires
                limit == u * q + limit % u,
                0 <= limit % u,
        ;
    }
}

/// The bet is never negative, and for a finite multiplier that is not negative it is never more
/// than the multiplier.
pub proof fn lemma_kelly_within_multiplier(edge: Binary64, odds: Binary64, multiplier: Binary64)
    requires
        multiplier.finite(),
        !multiplier.negative(),
    ensures
        Binary64::whole(0).at_most(kelly(edge, odds, multiplier)),
        kelly(edge, odds, multiplier).at_most(multiplier),
{
    let one = Binary64::whole(1);
    let zero = Binary64::whole(0);
    laws::lemma_whole_exact(0);
    laws::lemma_whole_exact(1);
    let o = binary64::one();
    lemma_pow2_pos(1074);
    assert(zero.magnitude() == 0) by {
        assert(0 * o == 0);
        binary64::lemma_small_units(0);
        if zero.magnitude() > 0 {
            binary64::lemma_units_increase(0, zero.magnitude());
        }
    }
    if !odds.at_most(one) {
        let model_prob = one.quotient(odds).sum(edge);
        let net_odds = odds.difference(one);
        let fraction = model_prob.product(net_odds).difference(one.difference(model_prob)).quotient(
            net_odds,
        );
        let held = fraction.held_between(zero, one);
        if !held.nan() {
            let x = held.magnitude();
            let m = multiplier.magnitude();
            let ux = binary64::magnitude_units(x);
            let um = binary64::magnitude_units(m);
            if x < one.magnitude() {
                binary64::lemma_units_increase(x, one.magnitude());
            }
            binary64::lemma_small_units(0);
            if x > 0 {
                binary64::lemma_units_increase(0, x);
            }
            if m > 0 {
                binary64::lemma_units_increase(0, m);
            }
            assert(0 <= ux * um <= um * o) by (nonlinear_arith)
                requires
                    0 <= ux <= o,
                    0 <= um,
            ;
            laws::lemma_round_monotone(ux * um, um * o, o);
            rounding::lemma_round_scale(um, 1, o);
            laws::lemma_round_units(m);
            assert(1 * o == o);
        }
    }
}

} // verus!
