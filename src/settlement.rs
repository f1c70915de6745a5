use vstd::prelude::*;

use vstd::arithmetic::div_mod::lemma_fundamental_div_mod;

use crate::math::mul_ratio;
use crate::types::{BetView, ContractError, Direction, FinishedRound};

verus! {

/// Everything staked on a round, both sides.
pub open spec fn pool(r: FinishedRound) -> int {
    r.bull_amount + r.bear_amount
}

/// Everything staked on one side of a round.
pub open spec fn side_total(r: FinishedRound, d: Direction) -> int {
    match d {
        Direction::Bull => r.bull_amount as int,
        Direction::Bear => r.bear_amount as int,
    }
}

/// Which side a price move favours; none when the price did not move.
pub open spec fn winner_of(open_price: u128, close_price: u128) -> Option<Direction> {
    if close_price > open_price {
        Some(Direction::Bull)
    } else if close_price < open_price {
        Some(Direction::Bear)
    } else {
        None
    }
}

/// Whether a bet on this round is simply handed back: nobody took the other
/// side, or the price did not move.
pub open spec fn is_refund(r: FinishedRound) -> bool {
    r.bull_amount == 0 || r.bear_amount == 0 || r.winner is None
}

/// What a bet of `amount` on `d` is paid from round `r`: a refund, a
/// pari-mutuel share of the pool, or nothing.
pub open spec fn payout(r: FinishedRound, amount: int, d: Direction) -> int {
    if is_refund(r) {
        amount
    } else if r.winner == Some(d) {
        pool(r) * amount / side_total(r, d)
    } else {
        0
    }
}

/// Whether the payout of a bet can be computed in 128 bits.
pub open spec fn payout_fits(r: FinishedRound, amount: int, d: Direction) -> bool {
    is_refund(r) || r.winner != Some(d) || (pool(r) <= u128::MAX && payout(r, amount, d)
        <= u128::MAX)
}

/// The payout of a bet of `amount` on `direction` against `round`.
pub fn compute_payout(round: &FinishedRound, amount: u128, direction: Direction) -> (r: Result<
    u128,
    ContractError,
>)
    ensures
        r is Ok <==> payout_fits(*round, amount as int, direction),
        r is Ok ==> r->Ok_0 == payout(*round, amount as int, direction),
        r is Err ==> r->Err_0 == ContractError::Overflow,
{
    if round.bull_amount == 0 || round.bear_amount == 0 {
        return Ok(amount);
    }
    match round.winner {
        None => Ok(amount),
        Some(w) => {
            if w != direction {
                return Ok(0);
            }
            if round.bull_amount > u128::MAX - round.bear_amount {
                return Err(ContractError::Overflow);
            }
            let pool_shares = round.bull_amount + round.bear_amount;
            let side = match w {
                Direction::Bull => round.bull_amount,
                Direction::Bear => round.bear_amount,
            };
            mul_ratio(pool_shares, amount, side)
        },
    }
}

pub open spec fn sum_amounts(bets: Seq<BetView>) -> int
    decreases bets.len(),
{
    if bets.len() == 0 {
        0
    } else {
        sum_amounts(bets.drop_last()) + bets.last().amount
    }
}

pub open spec fn sum_payouts(r: FinishedRound, bets: Seq<BetView>) -> int
    decreases bets.len(),
{
    if bets.len() == 0 {
        0
    } else {
        sum_payouts(r, bets.drop_last()) + payout(r, bets.last().amount as int, bets.last().direction)
    }
}

proof fn lemma_share_bounds(p: int, s: int, a: int)
    requires
        p >= 0,
        s > 0,
        a >= 0,
    ensures
        s * (p * a / s) <= p * a,
        p * a < s * (p * a / s) + s,
{
    assert(p * a >= 0) by (nonlinear_arith)
        requires
            p >= 0,
            a >= 0,
    ;
    lemma_fundamental_div_mod(p * a, s);
}

proof fn lemma_winner_sums(r: FinishedRound, d: Direction, bets: Seq<BetView>)
    requires
        !is_refund(r),
        r.winner == Some(d),
        forall|i: int| 0 <= i < bets.len() ==> (#[trigger] bets[i]).direction == d,
    ensures
        side_total(r, d) * sum_payouts(r, bets) <= pool(r) * sum_amounts(bets),
        bets.len() > 0 ==> pool(r) * sum_amounts(bets) < side_total(r, d) * sum_payouts(r, bets)
            + bets.len() * side_total(r, d),
    decreases bets.len(),
{
    if bets.len() > 0 {
        let init = bets.drop_last();
        lemma_winner_sums(r, d, init);
        let s = side_total(r, d);
        let p = pool(r);
        let a = bets.last().amount as int;
        let q = p * a / s;
        lemma_share_bounds(p, s, a);
        assert(bets.last().direction == d);
        assert(payout(r, a, bets.last().direction) == q);
        let sp0 = sum_payouts(r, init);
        let sa0 = sum_amounts(init);
        assert(s * (sp0 + q) == s * sp0 + s * q) by (nonlinear_arith);
        assert(p * (sa0 + a) == p * sa0 + p * a) by (nonlinear_arith);
        assert((init.len() + 1) * s == init.len() * s + s) by (nonlinear_arith);
        if init.len() == 0 {
            assert(sp0 == 0 && sa0 == 0);
            assert(s * 0 == 0 && p * 0 == 0) by (nonlinear_arith);
        }
    }
}

proof fn lemma_refund_sums(r: FinishedRound, bets: Seq<BetView>)
    requires
        is_refund(r),
    ensures
        sum_payouts(r, bets) == sum_amounts(bets),
    decreases bets.len(),
{
    if bets.len() > 0 {
        lemma_refund_sums(r, bets.drop_last());
    }
}

/// Conservation: when a side won, the payouts of all the bets on that side
/// (which together make up the side's total) add up to the pool, less at most
/// one unit of rounding per bet beyond the first.
pub proof fn lemma_conservation(r: FinishedRound, d: Direction, bets: Seq<BetView>)
    requires
        r.winner == Some(d),
        side_total(r, d) > 0,
        forall|i: int| 0 <= i < bets.len() ==> (#[trigger] bets[i]).direction == d,
        sum_amounts(bets) == side_total(r, d),
    ensures
        pool(r) - (bets.len() - 1) <= sum_payouts(r, bets) <= pool(r),
{
    if bets.len() == 0 {
        assert(sum_amounts(bets) == 0);
    }
    if is_refund(r) {
        lemma_refund_sums(r, bets);
    } else {
        lemma_winner_sums(r, d, bets);
        let s = side_total(r, d);
        let p = pool(r);
        let sp = sum_payouts(r, bets);
        let n = bets.len() as int;
        assert(sp <= p) by (nonlinear_arith)
            requires
                s * sp <= p * s,
                s > 0,
        ;
        assert(p - (n - 1) <= sp) by (nonlinear_arith)
            requires
                p * s < s * sp + n * s,
                s > 0,
        ;
    }
}

/// A round nobody opposed, or whose price did not move, hands every bet back.
pub proof fn lemma_refund(r: FinishedRound, b: BetView)
    requires
        r.winner == winner_of(r.open_price, r.close_price),
        r.bull_amount == 0 || r.bear_amount == 0 || r.open_price == r.close_price,
    ensures
        payout(r, b.amount as int, b.direction) == b.amount,
{
}

} // verus!
