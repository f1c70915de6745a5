use vstd::prelude::*;

use crate::types::{ContractError, WalletInfo};

verus! {

/// Fees are a ratio over this precision, itself taken as a percentage.
pub const FEE_PRECISION: u128 = 100;

/// The atomics of the fixed-point decimal one.
pub const DECIMAL_ONE: u128 = 1_000_000_000_000_000_000;

#[verifier::external_type_specification]
#[verifier::external_body]
pub struct ExCheckedMultiplyRatioError(cosmwasm_std::CheckedMultiplyRatioError);

/// `a * num / den`, truncated, when the denominator is not zero and the
/// quotient fits in a `u128`.
pub open spec fn ratio_fits(a: int, num: int, den: int) -> bool {
    den != 0 && a * num / den <= u128::MAX
}

/// Relies on `cosmwasm_std::Uint128::checked_multiply_ratio`: it computes the
/// product in 256 bits and returns the floored quotient, or an error when the
/// denominator is zero or the quotient does not fit in 128 bits.
#[verifier::external_body]
fn checked_multiply_ratio(a: u128, num: u128, den: u128) -> (r: Result<
    u128,
    cosmwasm_std::CheckedMultiplyRatioError,
>)
    ensures
        r is Ok <==> ratio_fits(a as int, num as int, den as int),
        r is Ok ==> r->Ok_0 == (a as int) * (num as int) / (den as int),
{
    cosmwasm_std::Uint128::new(a).checked_multiply_ratio(num, den).map(|v| v.u128())
}

/// `a * num / den`, truncated; `Overflow` when it cannot be had.
pub fn mul_ratio(a: u128, num: u128, den: u128) -> (r: Result<u128, ContractError>)
    ensures
        match r {
            Ok(v) => ratio_fits(a as int, num as int, den as int) && v == (a as int) * (num as int) / (den as int),
            Err(e) => !ratio_fits(a as int, num as int, den as int) && e == ContractError::Overflow,
        },
{
    match checked_multiply_ratio(a, num, den) {
        Ok(v) => Ok(v),
        Err(_) => Err(ContractError::Overflow),
    }
}

/// The fee taken from a gross bet.
pub open spec fn gaming_fee_of(gaming_fee: u128, gross: u128) -> int {
    (gaming_fee as int) * (gross as int) / ((FEE_PRECISION as int) * 100)
}

/// The fee on a gross bet: `gross * gaming_fee / (FEE_PRECISION * 100)`.
pub fn compute_gaming_fee(gaming_fee: u128, gross: u128) -> (r: Result<u128, ContractError>)
    ensures
        match r {
            Ok(fee) => fee == gaming_fee_of(gaming_fee, gross),
            Err(e) => e == ContractError::Overflow && gaming_fee_of(gaming_fee, gross) > u128::MAX,
        },
{
    mul_ratio(gaming_fee, gross, FEE_PRECISION * 100)
}

pub open spec fn ratio_sum(ws: Seq<WalletInfo>) -> int
    decreases ws.len(),
{
    if ws.len() == 0 {
        0
    } else {
        ratio_sum(ws.drop_last()) + ws.last().ratio
    }
}

proof fn lemma_ratio_sum_monotone(ws: Seq<WalletInfo>, i: int)
    requires
        0 <= i <= ws.len(),
    ensures
        ratio_sum(ws.take(i)) <= ratio_sum(ws),
    decreases ws.len() - i,
{
    if i < ws.len() {
        lemma_ratio_sum_monotone(ws, i + 1);
        assert(ws.take(i + 1).drop_last() =~= ws.take(i));
    } else {
        assert(ws.take(i) =~= ws);
    }
}

/// Whether the wallet ratios sum to exactly one.
pub fn ratios_sum_to_one(ws: &Vec<WalletInfo>) -> (r: bool)
    ensures
        r == (ratio_sum(ws@) == DECIMAL_ONE),
{
    let mut total: u128 = 0;
    let mut i: usize = 0;
    while i < ws.len()
        invariant
            0 <= i <= ws.len(),
            total == ratio_sum(ws@.take(i as int)),
        decreases ws.len() - i,
    {
        assert(ws@.take(i + 1).drop_last() =~= ws@.take(i as int));
        if total > DECIMAL_ONE || ws[i].ratio > DECIMAL_ONE - total {
            proof {
                lemma_ratio_sum_monotone(ws@, i + 1);
            }
            return false;
        }
        total = total + ws[i].ratio;
        i = i + 1;
    }
    assert(ws@.take(i as int) =~= ws@);
    total == DECIMAL_ONE
}

/// One wallet's cut of the collected fee: `fee * ratio`, truncated.
pub open spec fn fee_share(fee: u128, ratio: u128) -> int {
    (fee as int) * (ratio as int) / (DECIMAL_ONE as int)
}

/// The transfers that pay out a collected fee: each wallet gets its cut.
pub fn fee_transfers(fee: u128, ws: &Vec<WalletInfo>) -> (r: Result<Vec<(String, u128)>, ContractError>)
    ensures
        match r {
            Ok(v) => v@.len() == ws@.len() && forall|k: int|
                0 <= k < ws@.len() ==> (#[trigger] v@[k]).0@ == ws@[k].address@ && v@[k].1
                    == fee_share(fee, ws@[k].ratio),
            Err(e) => e == ContractError::Overflow && exists|k: int|
                0 <= k < ws@.len() && fee_share(fee, #[trigger] ws@[k].ratio) > u128::MAX,
        },
{
    let mut out: Vec<(String, u128)> = Vec::new();
    let mut i: usize = 0;
    while i < ws.len()
        invariant
            0 <= i <= ws.len(),
            out@.len() == i,
            forall|k: int|
                0 <= k < i ==> (#[trigger] out@[k]).0@ == ws@[k].address@ && out@[k].1 == fee_share(
                    fee,
                    ws@[k].ratio,
                ),
        decreases ws.len() - i,
    {
        let share = mul_ratio(fee, ws[i].ratio, DECIMAL_ONE);
        match share {
            Ok(s) => {
                out.push((ws[i].address.clone(), s));
            },
            Err(e) => {
                return Err(e);
            },
        }
        i = i + 1;
    }
    Ok(out)
}

} // verus!
