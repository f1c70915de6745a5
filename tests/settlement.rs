use fuzio_option_trading::market::{compute_round_close, compute_round_open};
use fuzio_option_trading::math::{
    compute_gaming_fee, fee_transfers, mul_ratio, ratios_sum_to_one, DECIMAL_ONE,
};
use fuzio_option_trading::order::str_lt;
use fuzio_option_trading::settlement::compute_payout;
use fuzio_option_trading::types::{
    ContractError, Direction, FinishedRound, LiveRound, NextRound, WalletInfo,
};

fn finished(bull: u128, bear: u128, winner: Option<Direction>) -> FinishedRound {
    FinishedRound {
        id: 0,
        bid_time: 0,
        open_time: 600,
        close_time: 1200,
        open_price: 10,
        close_price: 10,
        winner,
        bull_amount: bull,
        bear_amount: bear,
    }
}

#[test]
fn mul_ratio_floors() {
    assert_eq!(mul_ratio(10, 3, 4), Ok(7));
    assert_eq!(mul_ratio(5, 99, 100), Ok(4));
    assert_eq!(mul_ratio(u128::MAX, 2, 2), Ok(u128::MAX));
    assert_eq!(mul_ratio(u128::MAX, 3, 2), Err(ContractError::Overflow));
    assert_eq!(mul_ratio(1, 1, 0), Err(ContractError::Overflow));
}

#[test]
fn gaming_fee_is_a_ratio_over_ten_thousand() {
    assert_eq!(compute_gaming_fee(200, 100), Ok(2));
    assert_eq!(compute_gaming_fee(200, 50), Ok(1));
    assert_eq!(compute_gaming_fee(200, 49), Ok(0));
    assert_eq!(compute_gaming_fee(0, 1000), Ok(0));
}

#[test]
fn payout_winner_share() {
    let r = finished(49, 98, Some(Direction::Bull));
    assert_eq!(compute_payout(&r, 49, Direction::Bull), Ok(147));
    assert_eq!(compute_payout(&r, 98, Direction::Bear), Ok(0));
}

#[test]
fn payout_conservation_with_rounding() {
    let r = finished(3, 7, Some(Direction::Bull));
    let paid: u128 = [1u128, 1, 1]
        .iter()
        .map(|a| compute_payout(&r, *a, Direction::Bull).unwrap())
        .sum();
    assert_eq!(paid, 9);
    assert!(paid <= 10 && paid >= 10 - 2);
}

#[test]
fn payout_refunds() {
    assert_eq!(compute_payout(&finished(0, 98, Some(Direction::Bull)), 98, Direction::Bear), Ok(98));
    assert_eq!(compute_payout(&finished(49, 0, Some(Direction::Bear)), 49, Direction::Bull), Ok(49));
    assert_eq!(compute_payout(&finished(49, 98, None), 98, Direction::Bear), Ok(98));
}

#[test]
fn payout_overflow_is_reported() {
    let r = finished(u128::MAX, 1, Some(Direction::Bull));
    assert_eq!(compute_payout(&r, 1, Direction::Bull), Err(ContractError::Overflow));
}

#[test]
fn ratios_and_fee_shares() {
    let ws = vec![
        WalletInfo { address: "a".to_string(), ratio: DECIMAL_ONE / 3 },
        WalletInfo { address: "b".to_string(), ratio: DECIMAL_ONE - DECIMAL_ONE / 3 },
    ];
    assert!(ratios_sum_to_one(&ws));
    assert!(!ratios_sum_to_one(&vec![]));
    let over = vec![
        WalletInfo { address: "a".to_string(), ratio: u128::MAX },
        WalletInfo { address: "b".to_string(), ratio: 5 },
    ];
    assert!(!ratios_sum_to_one(&over));
    let t = fee_transfers(100, &ws).unwrap();
    assert_eq!(t, vec![("a".to_string(), 33), ("b".to_string(), 66)]);
}

#[test]
fn winner_follows_price_move() {
    let live = LiveRound {
        id: 4,
        bid_time: 1,
        open_time: 2,
        close_time: 3,
        open_price: 100,
        bull_amount: 5,
        bear_amount: 6,
    };
    assert_eq!(compute_round_close(&live, 101).winner, Some(Direction::Bull));
    assert_eq!(compute_round_close(&live, 99).winner, Some(Direction::Bear));
    let f = compute_round_close(&live, 100);
    assert_eq!(f.winner, None);
    assert_eq!((f.id, f.bull_amount, f.bear_amount, f.close_price), (4, 5, 6, 100));
}

#[test]
fn round_opens_now() {
    let next = NextRound { id: 2, bid_time: 5, open_time: 600, close_time: 1200, bull_amount: 1, bear_amount: 2 };
    let l = compute_round_open(&next, 700, 55, 600).unwrap();
    assert_eq!((l.id, l.open_time, l.close_time, l.open_price, l.bid_time), (2, 700, 1300, 55, 5));
    assert_eq!(compute_round_open(&next, u64::MAX, 55, 1).err(), Some(ContractError::Overflow));
}

#[test]
fn string_order_is_lexicographic() {
    let s = |x: &str| x.to_string();
    assert!(str_lt(&s("alice"), &s("bob")));
    assert!(str_lt(&s("al"), &s("alice")));
    assert!(!str_lt(&s("alice"), &s("alice")));
    assert!(!str_lt(&s("b"), &s("alice")));
    assert!(str_lt(&s(""), &s("a")));
    assert!(str_lt(&s("Z"), &s("a")));
}

#[test]
fn direction_names() {
    assert_eq!(Direction::Bull.to_string(), "bull");
    assert_eq!(Direction::Bear.to_string(), "bear");
}
