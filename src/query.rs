use vstd::prelude::*;

use crate::ledger::{is_page, view_all, LedgerEntry, LedgerKey, Scope};
use crate::market::{find_round, total_of, Market};
use crate::collect::find_finished;
use crate::types::{
    AdminsResponse, BetInfo, ClaimInfo, ClaimInfoResponse, Config, ContractError, Direction,
    FinishedRound, MyCurrentPositionResponse, MyGameResponse, RoundUsersResponse, StatusResponse,
    TotalSpentResponse,
};

verus! {

/// Page size when none is given.
pub const DEFAULT_QUERY_LIMIT: u32 = 10;

/// Largest page size.
pub const MAX_QUERY_LIMIT: u32 = 30;

pub open spec fn limit_of(limit: Option<u32>) -> nat {
    let l = match limit {
        Some(l) => l,
        None => DEFAULT_QUERY_LIMIT,
    };
    if l < MAX_QUERY_LIMIT {
        l as nat
    } else {
        MAX_QUERY_LIMIT as nat
    }
}

/// The page size: the one asked for, ten by default, thirty at most.
pub fn query_limit(limit: Option<u32>) -> (r: usize)
    ensures
        r == limit_of(limit),
{
    let l = match limit {
        Some(l) => l,
        None => DEFAULT_QUERY_LIMIT,
    };
    if l < MAX_QUERY_LIMIT {
        l as usize
    } else {
        MAX_QUERY_LIMIT as usize
    }
}

/// The primary key of a bet.
pub fn bet_info_key(round_id: u128, player: &String) -> (r: (u128, String))
    ensures
        r.0 == round_id && r.1@ == player@,
{
    (round_id, player.clone())
}

/// The primary key of a receipt.
pub fn claim_info_key(round_id: u128, player: &String) -> (r: (u128, String))
    ensures
        r.0 == round_id && r.1@ == player@,
{
    (round_id, player.clone())
}

pub fn query_config(m: &Market) -> (r: &Config)
    ensures
        *r == m.config,
{
    &m.config
}

pub fn query_status(m: &Market, now: u64) -> (r: StatusResponse)
    ensures
        r.bidding_round == m.next_round && r.live_round == m.live_round && r.current_time == now,
{
    StatusResponse { bidding_round: m.next_round, live_round: m.live_round, current_time: now }
}

pub fn query_finished_round(m: &Market, round_id: u128) -> (r: Result<FinishedRound, ContractError>)
    ensures
        match find_round(m.rounds@, round_id) {
            Some(f) => r == Ok::<FinishedRound, ContractError>(f),
            None => r == Err::<FinishedRound, ContractError>(ContractError::RoundNotFound),
        },
{
    match find_finished(&m.rounds, round_id) {
        Some(f) => Ok(f),
        None => Err(ContractError::RoundNotFound),
    }
}

/// A player's stake on each side of the round with key `k`: (bull, bear).
pub open spec fn stake_at(m: Market, k: LedgerKey) -> (u128, u128) {
    if m.bets@.contains_key(k) {
        match m.bets@[k].direction {
            Direction::Bull => (m.bets@[k].amount, 0),
            Direction::Bear => (0, m.bets@[k].amount),
        }
    } else {
        (0, 0)
    }
}

fn stake_of(m: &Market, round_id: u128, player: &String) -> (r: (u128, u128))
    requires
        m.wf(),
    ensures
        r == stake_at(*m, (round_id, player@)),
{
    match m.bets.get(round_id, player) {
        Some(b) => match b.direction {
            Direction::Bull => (b.amount, 0),
            Direction::Bear => (0, b.amount),
        },
        None => (0, 0),
    }
}

/// A player's stakes in the latest round handed out (`next`) and the one
/// before it (`live`). Fails with `Overflow` before any round exists.
pub fn query_my_current_position(m: &Market, address: &String) -> (r: Result<
    MyCurrentPositionResponse,
    ContractError,
>)
    requires
        m.wf(),
    ensures
        match r {
            Ok(p) => {
                let next = stake_at(*m, ((m.next_round_id - 1) as u128, address@));
                let live = if m.next_round_id > 1 {
                    stake_at(*m, ((m.next_round_id - 2) as u128, address@))
                } else {
                    (0u128, 0u128)
                };
                &&& m.next_round_id > 0
                &&& p.next_bull_amount == next.0 && p.next_bear_amount == next.1
                &&& p.live_bull_amount == live.0 && p.live_bear_amount == live.1
            },
            Err(e) => m.next_round_id == 0 && e == ContractError::Overflow,
        },
{
    if m.next_round_id == 0 {
        return Err(ContractError::Overflow);
    }
    let next = stake_of(m, m.next_round_id - 1, address);
    let mut live: (u128, u128) = (0, 0);
    if m.next_round_id > 1 {
        live = stake_of(m, m.next_round_id - 2, address);
    }
    Ok(
        MyCurrentPositionResponse {
            live_bear_amount: live.1,
            live_bull_amount: live.0,
            next_bear_amount: next.1,
            next_bull_amount: next.0,
        },
    )
}

/// A player's bets in ascending round order, after round `start_after`.
pub fn query_my_games(m: &Market, player: &String, start_after: Option<u128>, limit: Option<u32>) -> (r:
    MyGameResponse)
    requires
        m.wf(),
    ensures
        is_page::<BetInfo>(
            m.bets@,
            Scope::Player(*player),
            match start_after {
                Some(s) => Some((s, player@)),
                None => None,
            },
            limit_of(limit),
            view_all(r.my_game_list@),
        ),
{
    let l = query_limit(limit);
    let start = match start_after {
        Some(s) => Some(bet_info_key(s, player)),
        None => None,
    };
    let scope = Scope::Player(player.clone());
    let my_game_list = m.bets.page(&scope, &start, l);
    proof {
        assert(scope == Scope::Player(*player));
    }
    MyGameResponse { my_game_list }
}

/// The bettors of a round in ascending player order, after player `start_after`.
pub fn query_users_per_round(
    m: &Market,
    round_id: u128,
    start_after: Option<String>,
    limit: Option<u32>,
) -> (r: RoundUsersResponse)
    requires
        m.wf(),
    ensures
        is_page::<BetInfo>(
            m.bets@,
            Scope::Round(round_id),
            match start_after {
                Some(s) => Some((round_id, s@)),
                None => None,
            },
            limit_of(limit),
            view_all(r.round_users@),
        ),
{
    let l = query_limit(limit);
    let start = match start_after {
        Some(s) => Some(bet_info_key(round_id, &s)),
        None => None,
    };
    let round_users = m.bets.page(&Scope::Round(round_id), &start, l);
    RoundUsersResponse { round_users }
}

/// The receipts of a round in ascending player order, after player `start_after`.
pub fn query_claim_info_per_round(
    m: &Market,
    round_id: u128,
    start_after: Option<String>,
    limit: Option<u32>,
) -> (r: ClaimInfoResponse)
    requires
        m.wf(),
    ensures
        is_page::<ClaimInfo>(
            m.claims@,
            Scope::Round(round_id),
            match start_after {
                Some(s) => Some((round_id, s@)),
                None => None,
            },
            limit_of(limit),
            view_all(r.claim_info@),
        ),
{
    let l = query_limit(limit);
    let start = match start_after {
        Some(s) => Some(claim_info_key(round_id, &s)),
        None => None,
    };
    let claim_info = m.claims.page(&Scope::Round(round_id), &start, l);
    ClaimInfoResponse { claim_info }
}

/// A player's receipts in ascending round order, after round `start_after`.
pub fn query_claim_info_by_user(
    m: &Market,
    player: &String,
    start_after: Option<u128>,
    limit: Option<u32>,
) -> (r: ClaimInfoResponse)
    requires
        m.wf(),
    ensures
        is_page::<ClaimInfo>(
            m.claims@,
            Scope::Player(*player),
            match start_after {
                Some(s) => Some((s, player@)),
                None => None,
            },
            limit_of(limit),
            view_all(r.claim_info@),
        ),
{
    let l = query_limit(limit);
    let start = match start_after {
        Some(s) => Some(claim_info_key(s, player)),
        None => None,
    };
    let scope = Scope::Player(player.clone());
    let claim_info = m.claims.page(&scope, &start, l);
    proof {
        assert(scope == Scope::Player(*player));
    }
    ClaimInfoResponse { claim_info }
}

/// All of a player's outstanding bets.
pub fn query_my_games_without_limit(m: &Market, player: &String) -> (r: MyGameResponse)
    requires
        m.wf(),
    ensures
        view_all(r.my_game_list@) == m.bets.listing(player@),
        forall|j: int|
            0 <= j < r.my_game_list@.len() ==> (#[trigger] r.my_game_list@[j]).player@ == player@
                && m.bets@.contains_key((r.my_game_list@[j].round_id, player@)) && m.bets@[(
                r.my_game_list@[j].round_id,
                player@,
            )] == r.my_game_list@[j]@,
        forall|k: LedgerKey|
            #![trigger m.bets@.contains_key(k)]
            m.bets@.contains_key(k) && k.1 == player@ ==> exists|j: int|
                0 <= j < r.my_game_list@.len() && (#[trigger] r.my_game_list@[j]).round_id == k.0,
        forall|a: int, b: int|
            0 <= a < b < r.my_game_list@.len() ==> (#[trigger] r.my_game_list@[a]).round_id < (
            #[trigger] r.my_game_list@[b]).round_id,
{
    let my_game_list = m.bets.entries_of(player);
    proof {
        m.bets.lemma_listing(player@);
        let l = m.bets.listing(player@);
        assert forall|j: int| 0 <= j < my_game_list@.len() implies ((#[trigger] my_game_list@[j]).player@
            == player@ && m.bets@.contains_key((my_game_list@[j].round_id, player@)) && m.bets@[(
            my_game_list@[j].round_id,
            player@,
        )] == my_game_list@[j]@) by {
            assert(my_game_list@[j]@ == l[j]);
            assert(BetInfo::key_of(l[j]).1 == player@);
        }
        assert forall|k: LedgerKey|
            #![trigger m.bets@.contains_key(k)]
            m.bets@.contains_key(k) && k.1 == player@ implies exists|j: int|
                0 <= j < my_game_list@.len() && (#[trigger] my_game_list@[j]).round_id == k.0 by {
            let j = choose|j: int| 0 <= j < l.len() && BetInfo::key_of(#[trigger] l[j]) == k;
            assert(my_game_list@[j]@ == l[j]);
        }
        assert forall|a: int, b: int| 0 <= a < b < my_game_list@.len() implies (
        #[trigger] my_game_list@[a]).round_id < (#[trigger] my_game_list@[b]).round_id by {
            assert(my_game_list@[a]@ == l[a] && my_game_list@[b]@ == l[b]);
        }
    }
    MyGameResponse { my_game_list }
}

/// A player's lifetime gross stake.
pub fn query_total_spent(m: &Market, player: &String) -> (r: TotalSpentResponse)
    ensures
        r.total_spent == total_of(m.totals_spent@, player@),
{
    let mut j: usize = m.totals_spent.len();
    assert(m.totals_spent@.take(j as int) =~= m.totals_spent@);
    while j > 0
        invariant
            j <= m.totals_spent@.len(),
            total_of(m.totals_spent@, player@) == total_of(m.totals_spent@.take(j as int), player@),
        decreases j,
    {
        let ghost t = m.totals_spent@.take(j as int);
        assert(t.drop_last() =~= m.totals_spent@.take(j - 1));
        if m.totals_spent[j - 1].0 == *player {
            return TotalSpentResponse { total_spent: m.totals_spent[j - 1].1 };
        }
        j = j - 1;
    }
    assert(m.totals_spent@.take(0) =~= Seq::<(String, u128)>::empty());
    TotalSpentResponse { total_spent: 0 }
}

pub fn query_get_admins(m: &Market) -> (r: AdminsResponse)
    ensures
        r.admins@ == m.admins@,
{
    let mut admins: Vec<String> = Vec::new();
    let mut i: usize = 0;
    while i < m.admins.len()
        invariant
            0 <= i <= m.admins@.len(),
            admins@ == m.admins@.take(i as int),
        decreases m.admins@.len() - i,
    {
        admins.push(m.admins[i].clone());
        assert(admins@ =~= m.admins@.take(i + 1));
        i = i + 1;
    }
    assert(m.admins@.take(m.admins@.len() as int) =~= m.admins@);
    AdminsResponse { admins }
}

} // verus!
