use fuzio_option_trading::ledger::Ledger;
use fuzio_option_trading::market::from_parts;
use fuzio_option_trading::types::{BetInfo, FinishedRound, LiveRound, NextRound};
use fuzio_option_trading::collect::{
    execute_collect_winning_round, execute_collect_winnings, query_my_pending_reward,
    query_my_pending_reward_round, query_my_pending_reward_rounds,
};
use fuzio_option_trading::market::{
    execute_add_admin, execute_bet, execute_close_round, execute_modify_dev_wallets,
    execute_remove_admin, execute_update_config, execute_update_halt, get_current_price,
    instantiate, Market,
};
use fuzio_option_trading::math::DECIMAL_ONE;
use fuzio_option_trading::query::{
    query_claim_info_by_user, query_claim_info_per_round, query_finished_round, query_get_admins,
    query_my_current_position, query_my_games, query_my_games_without_limit, query_status,
    query_total_spent, query_users_per_round,
};
use fuzio_option_trading::types::{
    Coin, Config, ContractError, Direction, ExchangeRate, WalletInfo,
};

fn s(x: &str) -> String {
    x.to_string()
}

fn config(gaming_fee: u128) -> Config {
    Config {
        next_round_seconds: 600,
        minimum_bet: 1,
        gaming_fee,
        token_denom: s("token"),
        bet_token_denom: s("btc"),
        dev_wallet_list: vec![
            WalletInfo { address: s("dev1"), ratio: DECIMAL_ONE / 4 },
            WalletInfo { address: s("dev2"), ratio: DECIMAL_ONE / 4 * 3 },
        ],
    }
}

fn rates(price: u128) -> Vec<ExchangeRate> {
    vec![
        ExchangeRate { denom: s("eth"), rate: 7 },
        ExchangeRate { denom: s("btc"), rate: price },
    ]
}

fn coins(amount: u128) -> Vec<Coin> {
    vec![Coin { denom: s("token"), amount }]
}

fn bet(m: &mut Market, who: &str, now: u64, round: u128, dir: Direction, gross: u128) -> Result<u128, ContractError> {
    execute_bet(m, &s(who), &coins(gross), now, round, dir, gross)
}

/// A market at time 0 with bidding round 0 open until time 600.
fn opened(gaming_fee: u128) -> Market {
    let mut m = instantiate(config(gaming_fee), s("owner")).unwrap();
    let c = execute_close_round(&mut m, 0, &rates(1000)).unwrap();
    assert!(c.closed.is_none() && c.opened.is_none());
    let b = c.new_bidding.unwrap();
    assert_eq!((b.id, b.open_time, b.close_time), (0, 600, 1200));
    m
}

/// Scenario with player1 100 Bear and player2 50 Bull on round 0, then round
/// 0 goes live at `open` and closes at `close`.
fn two_bets(open: u128, close: u128) -> Market {
    let mut m = opened(200);
    assert_eq!(bet(&mut m, "player1", 10, 0, Direction::Bear, 100), Ok(98));
    assert_eq!(bet(&mut m, "player2", 20, 0, Direction::Bull, 50), Ok(49));
    let c = execute_close_round(&mut m, 600, &rates(open)).unwrap();
    let live = c.opened.unwrap();
    assert_eq!((live.id, live.open_price, live.bull_amount, live.bear_amount), (0, open, 49, 98));
    let c = execute_close_round(&mut m, 1200, &rates(close)).unwrap();
    assert_eq!(c.closed.unwrap().close_price, close);
    m
}

#[test]
fn scenario_a_bull_wins() {
    let mut m = two_bets(1000, 2000);
    let f = query_finished_round(&m, 0).unwrap();
    assert_eq!(f.winner, Some(Direction::Bull));
    assert_eq!(query_my_pending_reward_round(&m, 0, &s("player2")), Ok(147));
    assert_eq!(query_my_pending_reward_round(&m, 0, &s("player1")), Ok(0));
    assert_eq!(query_my_pending_reward(&m, &s("player2")), Ok(147));
    assert_eq!(execute_collect_winnings(&mut m, &s("player2")), Ok(147));
    assert_eq!(execute_collect_winnings(&mut m, &s("player1")), Err(ContractError::NothingToClaim));
}

#[test]
fn scenario_b_price_unchanged_refunds() {
    let mut m = two_bets(1000, 1000);
    assert_eq!(query_finished_round(&m, 0).unwrap().winner, None);
    assert_eq!(execute_collect_winnings(&mut m, &s("player1")), Ok(98));
    assert_eq!(execute_collect_winnings(&mut m, &s("player2")), Ok(49));
}

#[test]
fn scenario_c_one_sided_refund() {
    for close in [500u128, 1000, 1500] {
        let mut m = opened(0);
        assert_eq!(bet(&mut m, "player1", 10, 0, Direction::Bear, 100), Ok(100));
        execute_close_round(&mut m, 600, &rates(1000)).unwrap();
        execute_close_round(&mut m, 1200, &rates(close)).unwrap();
        assert_eq!(execute_collect_winnings(&mut m, &s("player1")), Ok(100));
    }
}

#[test]
fn one_sided_refund_returns_recorded_amount() {
    let mut m = opened(200);
    assert_eq!(bet(&mut m, "player1", 10, 0, Direction::Bear, 100), Ok(98));
    execute_close_round(&mut m, 600, &rates(1000)).unwrap();
    execute_close_round(&mut m, 1200, &rates(10)).unwrap();
    assert_eq!(query_finished_round(&m, 0).unwrap().winner, Some(Direction::Bear));
    assert_eq!(execute_collect_winnings(&mut m, &s("player1")), Ok(98));
}

#[test]
fn scenario_d_admin_guard() {
    let mut m = instantiate(config(200), s("owner")).unwrap();
    assert_eq!(
        execute_add_admin(&mut m, &s("stranger"), s("stranger")),
        Err(ContractError::Unauthorized)
    );
    assert_eq!(
        execute_remove_admin(&mut m, &s("owner"), &s("owner")),
        Err(ContractError::NeedOneAdmin)
    );
    assert_eq!(query_get_admins(&m).admins, vec![s("owner")]);
    assert_eq!(execute_add_admin(&mut m, &s("owner"), s("second")), Ok(()));
    assert_eq!(execute_remove_admin(&mut m, &s("second"), &s("owner")), Ok(()));
    assert_eq!(query_get_admins(&m).admins, vec![s("second")]);
}

#[test]
fn claim_exactly_once() {
    let mut m = two_bets(1000, 2000);
    assert_eq!(execute_collect_winnings(&mut m, &s("player2")), Ok(147));
    let claims = query_claim_info_by_user(&m, &s("player2"), None, None).claim_info;
    assert_eq!(claims.len(), 1);
    assert_eq!((claims[0].round_id, claims[0].claimed_amount), (0, 147));
    assert!(query_my_games_without_limit(&m, &s("player2")).my_game_list.is_empty());
    assert_eq!(execute_collect_winnings(&mut m, &s("player2")), Err(ContractError::NothingToClaim));
    assert_eq!(
        execute_collect_winning_round(&mut m, &s("player2"), 0),
        Err(ContractError::NothingToClaim)
    );
}

#[test]
fn collect_single_round() {
    let mut m = two_bets(2000, 1000);
    assert_eq!(execute_collect_winning_round(&mut m, &s("player2"), 0), Err(ContractError::NothingToClaim));
    assert_eq!(execute_collect_winning_round(&mut m, &s("player1"), 0), Ok(147));
    assert_eq!(execute_collect_winning_round(&mut m, &s("player1"), 7), Err(ContractError::NothingToClaim));
    let claims = query_claim_info_per_round(&m, 0, None, None).claim_info;
    assert_eq!(claims.len(), 1);
    assert_eq!(claims[0].player, s("player1"));
}

#[test]
fn collect_skips_live_and_unfinished_rounds() {
    let mut m = opened(0);
    bet(&mut m, "p", 10, 0, Direction::Bull, 10).unwrap();
    bet(&mut m, "q", 10, 0, Direction::Bear, 10).unwrap();
    execute_close_round(&mut m, 600, &rates(1000)).unwrap();
    bet(&mut m, "p", 700, 1, Direction::Bull, 5).unwrap();
    assert_eq!(execute_collect_winnings(&mut m, &s("p")), Err(ContractError::NothingToClaim));
    execute_close_round(&mut m, 1200, &rates(1001)).unwrap();
    assert_eq!(query_my_pending_reward_rounds(&m, &s("p")).map(|r| r.0), Ok(vec![(0, 20)]));
    assert_eq!(execute_collect_winnings(&mut m, &s("p")), Ok(20));
    let left = query_my_games_without_limit(&m, &s("p")).my_game_list;
    assert_eq!(left.len(), 1);
    assert_eq!(left[0].round_id, 1);
}

#[test]
fn duplicate_bet_rejected_without_change() {
    let mut m = opened(200);
    assert_eq!(bet(&mut m, "player2", 20, 0, Direction::Bull, 50), Ok(49));
    assert_eq!(
        bet(&mut m, "player2", 30, 0, Direction::Bear, 100),
        Err(ContractError::AlreadyBet { direction: Direction::Bull, amount: 49 })
    );
    let st = query_status(&m, 30);
    let b = st.bidding_round.unwrap();
    assert_eq!((b.bull_amount, b.bear_amount), (49, 0));
    assert_eq!(query_total_spent(&m, &s("player2")).total_spent, 50);
}

#[test]
fn bet_validation_errors() {
    let mut m = opened(200);
    assert_eq!(bet(&mut m, "p", 10, 1, Direction::Bull, 50), Err(ContractError::WrongRound { requested: 1, current: 0 }));
    assert_eq!(bet(&mut m, "p", 601, 0, Direction::Bull, 50), Err(ContractError::BiddingClosed { round_id: 0, seconds_ago: 1 }));
    assert_eq!(execute_bet(&mut m, &s("p"), &vec![], 10, 0, Direction::Bull, 50), Err(ContractError::NoFunds));
    assert_eq!(execute_bet(&mut m, &s("p"), &coins(0), 10, 0, Direction::Bull, 0), Err(ContractError::NoFunds));
    let two = vec![Coin { denom: s("token"), amount: 1 }, Coin { denom: s("other"), amount: 1 }];
    assert_eq!(execute_bet(&mut m, &s("p"), &two, 10, 0, Direction::Bull, 1), Err(ContractError::MultipleDenoms));
    let other = vec![Coin { denom: s("other"), amount: 50 }];
    assert_eq!(execute_bet(&mut m, &s("p"), &other, 10, 0, Direction::Bull, 50), Err(ContractError::InvalidFunds));
    assert_eq!(execute_bet(&mut m, &s("p"), &coins(40), 10, 0, Direction::Bull, 50), Err(ContractError::NotEnoughFunds));
    assert_eq!(bet(&mut m, "p", 600, 0, Direction::Bull, 50), Ok(49));
    assert_eq!(query_total_spent(&m, &s("p")).total_spent, 50);
    assert_eq!(query_total_spent(&m, &s("nobody")).total_spent, 0);
}

#[test]
fn no_bidding_round_before_first_advance() {
    let mut m = instantiate(config(200), s("owner")).unwrap();
    assert_eq!(bet(&mut m, "p", 0, 0, Direction::Bull, 50), Err(ContractError::NoBiddingRound));
    assert_eq!(query_my_current_position(&m, &s("p")).err(), Some(ContractError::Overflow));
}

#[test]
fn halted_market_refuses_bets_and_advances() {
    let mut m = opened(200);
    assert_eq!(execute_update_halt(&mut m, &s("player1"), true), Err(ContractError::Unauthorized));
    assert_eq!(execute_update_halt(&mut m, &s("owner"), true), Ok(()));
    assert_eq!(bet(&mut m, "p", 10, 0, Direction::Bull, 50), Err(ContractError::Halted));
    assert_eq!(execute_close_round(&mut m, 600, &rates(1)).err(), Some(ContractError::Halted));
    assert_eq!(execute_update_halt(&mut m, &s("owner"), false), Ok(()));
    assert_eq!(bet(&mut m, "p", 10, 0, Direction::Bull, 50), Ok(49));
}

#[test]
fn advance_is_idempotent_when_nothing_is_due() {
    let mut m = opened(200);
    let c = execute_close_round(&mut m, 100, &vec![]).unwrap();
    assert!(c.closed.is_none() && c.opened.is_none() && c.new_bidding.is_none());
    let st = query_status(&m, 100);
    assert!(st.live_round.is_none());
    assert_eq!(st.bidding_round.unwrap().id, 0);
}

#[test]
fn rounds_chain_back_to_back() {
    let mut m = opened(200);
    let c = execute_close_round(&mut m, 650, &rates(5)).unwrap();
    let live = c.opened.unwrap();
    assert_eq!((live.id, live.open_time, live.close_time), (0, 650, 1250));
    let next = c.new_bidding.unwrap();
    assert_eq!((next.id, next.open_time, next.close_time, next.bid_time), (1, 1250, 1850, 650));
    let st = query_status(&m, 650);
    assert_eq!(st.live_round.unwrap().id + 1, st.bidding_round.unwrap().id);
    let c = execute_close_round(&mut m, 1250, &rates(6)).unwrap();
    assert_eq!(c.closed.unwrap().id, 0);
    assert_eq!(c.opened.unwrap().id, 1);
    assert_eq!(c.new_bidding.unwrap().id, 2);
}

#[test]
fn missing_price_aborts_advance() {
    let mut m = opened(200);
    let no_btc = vec![ExchangeRate { denom: s("eth"), rate: 1 }];
    assert_eq!(execute_close_round(&mut m, 600, &no_btc).err(), Some(ContractError::PriceNotFoundInOracle));
    assert!(query_status(&m, 600).live_round.is_none());
    assert_eq!(get_current_price(&rates(42), &s("btc")), Ok(42));
    assert_eq!(get_current_price(&rates(42), &s("eth")), Ok(7));
}

#[test]
fn fee_is_split_at_close() {
    let mut m = opened(200);
    bet(&mut m, "a", 10, 0, Direction::Bull, 1000).unwrap();
    bet(&mut m, "b", 10, 0, Direction::Bear, 500).unwrap();
    assert_eq!(m.accumulated_fee, 30);
    let c = execute_close_round(&mut m, 600, &rates(1)).unwrap();
    assert!(c.fee_transfers.is_empty());
    let c = execute_close_round(&mut m, 1200, &rates(2)).unwrap();
    assert_eq!(c.fee_transfers, vec![(s("dev1"), 7), (s("dev2"), 22)]);
    assert_eq!(m.accumulated_fee, 0);
}

#[test]
fn wallet_ratios_must_sum_to_one() {
    let mut bad = config(200);
    bad.dev_wallet_list[0].ratio = 1;
    assert_eq!(instantiate(bad, s("owner")).err(), Some(ContractError::WrongRatio));
    let mut m = instantiate(config(200), s("owner")).unwrap();
    let half = vec![WalletInfo { address: s("x"), ratio: DECIMAL_ONE / 2 }];
    assert_eq!(execute_modify_dev_wallets(&mut m, &s("owner"), half), Err(ContractError::WrongRatio));
    let whole = vec![WalletInfo { address: s("x"), ratio: DECIMAL_ONE }];
    assert_eq!(execute_modify_dev_wallets(&mut m, &s("nobody"), whole), Err(ContractError::Unauthorized));
    let whole = vec![WalletInfo { address: s("x"), ratio: DECIMAL_ONE }];
    assert_eq!(execute_modify_dev_wallets(&mut m, &s("owner"), whole), Ok(()));
    assert_eq!(m.config.dev_wallet_list.len(), 1);
    let mut c = config(300);
    c.next_round_seconds = 60;
    assert_eq!(execute_update_config(&mut m, &s("owner"), c), Ok(()));
    assert_eq!(m.config.gaming_fee, 300);
}

#[test]
fn pages_follow_key_order() {
    let mut m = opened(0);
    for who in ["carol", "alice", "bob", "dave"] {
        bet(&mut m, who, 10, 0, Direction::Bull, 10).unwrap();
    }
    let names = |v: Vec<fuzio_option_trading::types::BetInfo>| v.into_iter().map(|b| b.player).collect::<Vec<_>>();
    assert_eq!(names(query_users_per_round(&m, 0, None, None).round_users), vec![s("alice"), s("bob"), s("carol"), s("dave")]);
    assert_eq!(names(query_users_per_round(&m, 0, Some(s("alice")), Some(2)).round_users), vec![s("bob"), s("carol")]);
    assert_eq!(names(query_users_per_round(&m, 0, Some(s("carol")), Some(2)).round_users), vec![s("dave")]);
    assert!(query_users_per_round(&m, 0, None, Some(0)).round_users.is_empty());
    assert!(query_users_per_round(&m, 3, None, None).round_users.is_empty());
}

#[test]
fn player_pages_ascend_by_round_and_cap_at_thirty() {
    let mut m = opened(0);
    let mut now: u64 = 0;
    for round in 0..35u128 {
        bet(&mut m, "p", now, round, Direction::Bear, 3).unwrap();
        now += 600;
        execute_close_round(&mut m, now, &rates(10)).unwrap();
    }
    let games = query_my_games(&m, &s("p"), None, Some(100)).my_game_list;
    assert_eq!(games.len(), 30);
    assert!(games.windows(2).all(|w| w[0].round_id < w[1].round_id));
    assert_eq!(games[0].round_id, 0);
    assert_eq!(query_my_games(&m, &s("p"), None, None).my_game_list.len(), 10);
    let rest = query_my_games(&m, &s("p"), Some(29), Some(30)).my_game_list;
    assert_eq!(rest.iter().map(|b| b.round_id).collect::<Vec<_>>(), vec![30, 31, 32, 33, 34]);
}

#[test]
fn current_position_reads_latest_two_rounds() {
    let mut m = opened(200);
    bet(&mut m, "p", 10, 0, Direction::Bear, 100).unwrap();
    let pos = query_my_current_position(&m, &s("p")).unwrap();
    assert_eq!((pos.next_bear_amount, pos.next_bull_amount, pos.live_bear_amount), (98, 0, 0));
    execute_close_round(&mut m, 600, &rates(1)).unwrap();
    bet(&mut m, "p", 700, 1, Direction::Bull, 50).unwrap();
    let pos = query_my_current_position(&m, &s("p")).unwrap();
    assert_eq!((pos.next_bull_amount, pos.live_bear_amount, pos.live_bull_amount), (49, 98, 0));
}

#[test]
fn test_bet() {
    let owner = s("owner");
    let user1 = s("user1");
    let user2 = s("user2");
    let default_config = Config {
        next_round_seconds: 600,
        minimum_bet: 1,
        gaming_fee: 200,
        token_denom: s("token"),
        bet_token_denom: s("fast_oracle"),
        dev_wallet_list: vec![WalletInfo { address: owner.clone(), ratio: DECIMAL_ONE }],
    };
    let oracle = |p: u128| vec![ExchangeRate { denom: s("fast_oracle"), rate: p }];
    let mut m = instantiate(default_config, owner.clone()).unwrap();
    execute_close_round(&mut m, 600, &oracle(1_000_000)).unwrap();
    execute_bet(&mut m, &user1, &coins(100), 600, 0, Direction::Bear, 100).unwrap();
    execute_bet(&mut m, &user2, &coins(50), 600, 0, Direction::Bull, 50).unwrap();
    let round_users = query_users_per_round(&m, 0, Some(user1.clone()), None).round_users;
    assert_eq!(round_users.len(), 1);
    assert_eq!(round_users[0].player, user2);
    execute_close_round(&mut m, 1200, &oracle(1_000_000)).unwrap();
    execute_close_round(&mut m, 1800, &oracle(50000)).unwrap();
    assert_eq!(query_my_pending_reward_round(&m, 0, &user1), Ok(147));
    assert_eq!(query_my_pending_reward_round(&m, 0, &user2), Ok(0));
    assert_eq!(execute_collect_winnings(&mut m, &user1), Ok(147));
    let claim_info = query_claim_info_by_user(&m, &user2, Some(0), None).claim_info;
    assert!(claim_info.is_empty());
}

#[test]
fn unarchived_round_is_not_found() {
    let mut m = opened(0);
    bet(&mut m, "p", 10, 0, Direction::Bull, 10).unwrap();
    execute_close_round(&mut m, 600, &rates(1000)).unwrap();
    assert_eq!(execute_collect_winning_round(&mut m, &s("p"), 0), Err(ContractError::RoundNotFound));
    assert_eq!(query_finished_round(&m, 0).err(), Some(ContractError::RoundNotFound));
    assert_eq!(query_my_pending_reward_round(&m, 0, &s("p")), Ok(0));
    assert_eq!(query_my_pending_reward(&m, &s("p")), Ok(0));
}

#[test]
fn listing_ascends_by_round_whatever_the_stored_order() {
    let rec = |r: u128, p: &str| BetInfo { player: s(p), round_id: r, amount: 1, direction: Direction::Bull };
    let l = Ledger::from_records(&vec![rec(5, "p"), rec(2, "q"), rec(1, "p"), rec(3, "p")]).ok().unwrap();
    let rounds: Vec<u128> = l.entries_of(&s("p")).into_iter().map(|b| b.round_id).collect();
    assert_eq!(rounds, vec![1, 3, 5]);
    assert!(Ledger::from_records(&vec![rec(1, "p"), rec(1, "p")]).is_err());
}

#[test]
fn pending_rounds_ascend() {
    let mut m = opened(0);
    let mut now: u64 = 0;
    for round in 0..3u128 {
        bet(&mut m, "p", now, round, Direction::Bull, 10).unwrap();
        bet(&mut m, "q", now, round, Direction::Bear, 10).unwrap();
        now += 600;
        execute_close_round(&mut m, now, &rates(10 + round)).unwrap();
    }
    execute_close_round(&mut m, now + 600, &rates(100)).unwrap();
    let (per_round, total) = query_my_pending_reward_rounds(&m, &s("p")).unwrap();
    assert_eq!(per_round, vec![(0, 20), (1, 20), (2, 20)]);
    assert_eq!(total, 60);
    assert_eq!(query_my_pending_reward(&m, &s("p")), Ok(60));
    assert_eq!(execute_collect_winnings(&mut m, &s("p")), Ok(60));
    assert_eq!(query_my_pending_reward(&m, &s("p")), Ok(0));
}

#[test]
fn rebuild_rejects_archive_ahead_of_live_round() {
    let live = LiveRound { id: 3, bid_time: 0, open_time: 0, close_time: 9, open_price: 1, bull_amount: 0, bear_amount: 0 };
    let next = NextRound { id: 4, bid_time: 0, open_time: 9, close_time: 18, bull_amount: 0, bear_amount: 0 };
    let f = |id: u128, winner: Option<Direction>| FinishedRound {
        id, bid_time: 0, open_time: 0, close_time: 0, open_price: 1, close_price: 1, winner,
        bull_amount: 0, bear_amount: 0,
    };
    let ok = from_parts(config(0), 5, Some(next), Some(live), vec![f(2, None)], &vec![], &vec![], vec![s("a")], vec![], false, 0);
    assert!(ok.is_some());
    let same_id = from_parts(config(0), 5, Some(next), Some(live), vec![f(3, None)], &vec![], &vec![], vec![s("a")], vec![], false, 0);
    assert!(same_id.is_none());
    let wrong_winner = from_parts(config(0), 5, Some(next), Some(live), vec![f(2, Some(Direction::Bull))], &vec![], &vec![], vec![s("a")], vec![], false, 0);
    assert!(wrong_winner.is_none());
}
