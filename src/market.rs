use vstd::prelude::*;

use crate::ledger::{keys_unique, seq_to_map, view_all, Ledger};
use crate::math::{
    compute_gaming_fee, fee_share, fee_transfers, gaming_fee_of, ratio_sum, ratios_sum_to_one,
    DECIMAL_ONE,
};
use crate::settlement::winner_of;
use crate::types::{
    BetInfo, BetView, ClaimInfo, Coin, Config, ContractError, Direction, ExchangeRate, FinishedRound,
    LiveRound, NextRound, WalletInfo,
};

verus! {

/// The whole persisted state of the prediction market.
pub struct Market {
    pub config: Config,
    /// The id the next bidding round will get.
    pub next_round_id: u128,
    /// The round open for bets.
    pub next_round: Option<NextRound>,
    /// The round whose price window is running.
    pub live_round: Option<LiveRound>,
    /// Finished rounds, in the order they closed.
    pub rounds: Vec<FinishedRound>,
    pub bets: Ledger<BetInfo>,
    pub claims: Ledger<ClaimInfo>,
    pub admins: Vec<String>,
    /// Lifetime gross stake per player.
    pub totals_spent: Vec<(String, u128)>,
    pub is_halted: bool,
    /// Fees collected since the last distribution.
    pub accumulated_fee: u128,
}

/// The archived round with this id, if any (the latest one archived).
pub open spec fn find_round(rounds: Seq<FinishedRound>, id: u128) -> Option<FinishedRound>
    decreases rounds.len(),
{
    if rounds.len() == 0 {
        None
    } else if rounds.last().id == id {
        Some(rounds.last())
    } else {
        find_round(rounds.drop_last(), id)
    }
}

/// A player's lifetime stake: the latest entry for the player, else zero.
pub open spec fn total_of(totals: Seq<(String, u128)>, p: Seq<char>) -> u128
    decreases totals.len(),
{
    if totals.len() == 0 {
        0
    } else if totals.last().0@ == p {
        totals.last().1
    } else {
        total_of(totals.drop_last(), p)
    }
}

pub open spec fn admins_view(admins: Seq<String>) -> Seq<Seq<char>> {
    admins.map_values(|a: String| a@)
}

/// The admin list with every copy of `a` taken out.
pub open spec fn without(s: Seq<Seq<char>>, a: Seq<char>) -> Seq<Seq<char>>
    decreases s.len(),
{
    if s.len() == 0 {
        s
    } else if s.last() == a {
        without(s.drop_last(), a)
    } else {
        without(s.drop_last(), a).push(s.last())
    }
}

impl Market {
    /// The state invariant: at most one bidding and one live round (by
    /// construction); a live round is always followed by the bidding round
    /// whose id is one more; the bidding round holds the latest id handed out.
    pub open spec fn wf(&self) -> bool {
        &&& self.bets.wf()
        &&& self.claims.wf()
        &&& slots_consistent(self.next_round_id, self.next_round, self.live_round)
        &&& archive_consistent(self.rounds@, self.next_round_id, self.next_round, self.live_round)
    }

    /// The configuration, both ledgers, the admins, the stake totals and the
    /// halt flag are as in `o`.
    pub open spec fn same_books(&self, o: &Market) -> bool {
        &&& self.config == o.config
        &&& self.bets@ == o.bets@
        &&& self.claims@ == o.claims@
        &&& self.admins@ == o.admins@
        &&& self.totals_spent@ == o.totals_spent@
        &&& self.is_halted == o.is_halted
    }

    /// Everything but the admin list is as in `o`.
    pub open spec fn same_except_admins(&self, o: &Market) -> bool {
        &&& self.config == o.config
        &&& self.bets@ == o.bets@
        &&& self.claims@ == o.claims@
        &&& self.totals_spent@ == o.totals_spent@
        &&& self.is_halted == o.is_halted
        &&& self.next_round == o.next_round
        &&& self.live_round == o.live_round
        &&& self.rounds@ == o.rounds@
        &&& self.next_round_id == o.next_round_id
        &&& self.accumulated_fee == o.accumulated_fee
    }
}

/// Every archived round is older than the rounds still outstanding and than
/// the id counter, and its winner is the side its prices favour.
pub open spec fn archive_consistent(
    rounds: Seq<FinishedRound>,
    next_round_id: u128,
    next_round: Option<NextRound>,
    live_round: Option<LiveRound>,
) -> bool {
    forall|i: int|
        0 <= i < rounds.len() ==> {
            let f = #[trigger] rounds[i];
            &&& f.id < next_round_id
            &&& (next_round matches Some(n) ==> f.id < n.id)
            &&& (live_round matches Some(l) ==> f.id < l.id)
            &&& f.winner == winner_of(f.open_price, f.close_price)
        }
}

/// A live round is always followed by the bidding round whose id is one
/// more, and the bidding round holds the latest id handed out.
pub open spec fn slots_consistent(
    next_round_id: u128,
    next_round: Option<NextRound>,
    live_round: Option<LiveRound>,
) -> bool {
    &&& (next_round matches Some(n) ==> n.id + 1 == next_round_id)
    &&& (live_round matches Some(l) ==> next_round matches Some(n) && n.id == l.id + 1)
}

/// Whether the round slots and the id counter are consistent.
pub fn rounds_consistent(
    next_round_id: u128,
    next_round: Option<NextRound>,
    live_round: Option<LiveRound>,
) -> (r: bool)
    ensures
        r == slots_consistent(next_round_id, next_round, live_round),
{
    let next_ok = match next_round {
        Some(n) => n.id < u128::MAX && n.id + 1 == next_round_id,
        None => true,
    };
    let live_ok = match (live_round, next_round) {
        (Some(l), Some(n)) => l.id < u128::MAX && n.id == l.id + 1,
        (Some(_), None) => false,
        (None, _) => true,
    };
    next_ok && live_ok
}

/// Whether the archive is consistent with the outstanding rounds.
pub fn archive_checks(
    rounds: &Vec<FinishedRound>,
    next_round_id: u128,
    next_round: Option<NextRound>,
    live_round: Option<LiveRound>,
) -> (r: bool)
    ensures
        r == archive_consistent(rounds@, next_round_id, next_round, live_round),
{
    let mut i: usize = 0;
    while i < rounds.len()
        invariant
            0 <= i <= rounds@.len(),
            archive_consistent(rounds@.take(i as int), next_round_id, next_round, live_round),
        decreases rounds@.len() - i,
    {
        let f = rounds[i];
        let below_next = match next_round {
            Some(n) => f.id < n.id,
            None => true,
        };
        let below_live = match live_round {
            Some(l) => f.id < l.id,
            None => true,
        };
        let w = compute_round_close(
            &LiveRound {
                id: f.id,
                bid_time: f.bid_time,
                open_time: f.open_time,
                close_time: f.close_time,
                open_price: f.open_price,
                bull_amount: f.bull_amount,
                bear_amount: f.bear_amount,
            },
            f.close_price,
        ).winner;
        if !(f.id < next_round_id && below_next && below_live && w == f.winner) {
            assert(rounds@[i as int] == f);
            return false;
        }
        assert forall|j: int| 0 <= j < i + 1 implies {
            let g = #[trigger] rounds@.take(i + 1)[j];
            &&& g.id < next_round_id
            &&& (next_round matches Some(n) ==> g.id < n.id)
            &&& (live_round matches Some(l) ==> g.id < l.id)
            &&& g.winner == winner_of(g.open_price, g.close_price)
        } by {
            if j < i {
                assert(rounds@.take(i + 1)[j] == rounds@.take(i as int)[j]);
            }
        }
        i = i + 1;
    }
    assert(rounds@.take(i as int) =~= rounds@);
    true
}

/// Rebuilds a market from its persisted parts, or `None` when they break
/// the state invariant (a repeated ledger key, inconsistent round slots).
pub fn from_parts(
    config: Config,
    next_round_id: u128,
    next_round: Option<NextRound>,
    live_round: Option<LiveRound>,
    rounds: Vec<FinishedRound>,
    bets: &Vec<BetInfo>,
    claims: &Vec<ClaimInfo>,
    admins: Vec<String>,
    totals_spent: Vec<(String, u128)>,
    is_halted: bool,
    accumulated_fee: u128,
) -> (r: Option<Market>)
    ensures
        match r {
            Some(m) => {
                &&& m.wf()
                &&& m.bets@ == seq_to_map::<BetInfo>(view_all(bets@))
                &&& m.claims@ == seq_to_map::<ClaimInfo>(view_all(claims@))
                &&& m.config == config && m.next_round_id == next_round_id
                &&& m.next_round == next_round && m.live_round == live_round
                &&& m.rounds@ == rounds@ && m.admins@ == admins@
                &&& m.totals_spent@ == totals_spent@ && m.is_halted == is_halted
                &&& m.accumulated_fee == accumulated_fee
            },
            None => !keys_unique::<BetInfo>(view_all(bets@)) || !keys_unique::<ClaimInfo>(
                view_all(claims@),
            ) || !slots_consistent(next_round_id, next_round, live_round) || !archive_consistent(
                rounds@,
                next_round_id,
                next_round,
                live_round,
            ),
        },
{
    if !rounds_consistent(next_round_id, next_round, live_round) {
        return None;
    }
    if !archive_checks(&rounds, next_round_id, next_round, live_round) {
        return None;
    }
    let b = match Ledger::from_records(bets) {
        Ok(l) => l,
        Err(_) => {
            return None;
        },
    };
    let c = match Ledger::from_records(claims) {
        Ok(l) => l,
        Err(_) => {
            return None;
        },
    };
    Some(
        Market {
            config,
            next_round_id,
            next_round,
            live_round,
            rounds,
            bets: b,
            claims: c,
            admins,
            totals_spent,
            is_halted,
            accumulated_fee,
        },
    )
}

/// Sets up a market: the creator is the only admin, no round exists yet.
pub fn instantiate(config: Config, sender: String) -> (r: Result<Market, ContractError>)
    ensures
        match r {
            Ok(m) => ratio_sum(config.dev_wallet_list@) == DECIMAL_ONE && m.wf() && m.config == config
                && m.next_round_id == 0 && m.next_round is None && m.live_round is None
                && m.rounds@.len() == 0 && m.bets@ == Map::<(u128, Seq<char>), crate::types::BetView>::empty()
                && m.claims@ == Map::<(u128, Seq<char>), crate::types::ClaimView>::empty()
                && admins_view(m.admins@) == seq![sender@] && m.totals_spent@.len() == 0
                && !m.is_halted && m.accumulated_fee == 0,
            Err(e) => ratio_sum(config.dev_wallet_list@) != DECIMAL_ONE && e == ContractError::WrongRatio,
        },
{
    if !ratios_sum_to_one(&config.dev_wallet_list) {
        return Err(ContractError::WrongRatio);
    }
    let mut admins: Vec<String> = Vec::new();
    admins.push(sender);
    let m = Market {
        config,
        next_round_id: 0,
        next_round: None,
        live_round: None,
        rounds: Vec::new(),
        bets: Ledger::new(),
        claims: Ledger::new(),
        admins,
        totals_spent: Vec::new(),
        is_halted: false,
        accumulated_fee: 0,
    };
    assert(admins_view(m.admins@) =~= seq![sender@]);
    Ok(m)
}

/// Whether `sender` is on the admin list.
pub fn is_admin(m: &Market, sender: &String) -> (r: bool)
    ensures
        r == admins_view(m.admins@).contains(sender@),
{
    let mut i: usize = 0;
    while i < m.admins.len()
        invariant
            0 <= i <= m.admins@.len(),
            forall|j: int| 0 <= j < i ==> m.admins@[j]@ != sender@,
        decreases m.admins@.len() - i,
    {
        if m.admins[i] == *sender {
            assert(admins_view(m.admins@)[i as int] == sender@);
            return true;
        }
        i = i + 1;
    }
    proof {
        if admins_view(m.admins@).contains(sender@) {
            let j = choose|j: int| 0 <= j < m.admins@.len() && admins_view(m.admins@)[j] == sender@;
            assert(m.admins@[j]@ == sender@);
        }
    }
    false
}

/// Fails with `Unauthorized` unless `sender` is an admin.
pub fn assert_is_admin(m: &Market, sender: &String) -> (r: Result<(), ContractError>)
    ensures
        r is Ok <==> admins_view(m.admins@).contains(sender@),
        r is Err ==> r->Err_0 == ContractError::Unauthorized,
{
    if is_admin(m, sender) {
        Ok(())
    } else {
        Err(ContractError::Unauthorized)
    }
}

/// Fails with `Halted` when the market is halted.
pub fn assert_not_halted(m: &Market) -> (r: Result<(), ContractError>)
    ensures
        r is Ok <==> !m.is_halted,
        r is Err ==> r->Err_0 == ContractError::Halted,
{
    if m.is_halted {
        Err(ContractError::Halted)
    } else {
        Ok(())
    }
}

/// Replaces the configuration (admins only; the wallet ratios must sum to one).
pub fn execute_update_config(m: &mut Market, sender: &String, config: Config) -> (r: Result<
    (),
    ContractError,
>)
    requires
        old(m).wf(),
    ensures
        final(m).wf(),
        match r {
            Ok(()) => admins_view(old(m).admins@).contains(sender@) && ratio_sum(config.dev_wallet_list@)
                == DECIMAL_ONE && final(m).config == config && final(m).bets@ == old(m).bets@
                && final(m).claims@ == old(m).claims@ && final(m).admins@ == old(m).admins@
                && final(m).totals_spent@ == old(m).totals_spent@ && final(m).is_halted == old(m).is_halted
                && final(m).next_round == old(m).next_round && final(m).live_round == old(m).live_round
                && final(m).rounds@ == old(m).rounds@ && final(m).next_round_id == old(m).next_round_id
                && final(m).accumulated_fee == old(m).accumulated_fee,
            Err(e) => *final(m) == *old(m) && if !admins_view(old(m).admins@).contains(sender@) {
                e == ContractError::Unauthorized
            } else {
                ratio_sum(config.dev_wallet_list@) != DECIMAL_ONE && e == ContractError::WrongRatio
            },
        },
{
    assert_is_admin(m, sender)?;
    if !ratios_sum_to_one(&config.dev_wallet_list) {
        return Err(ContractError::WrongRatio);
    }
    m.config = config;
    Ok(())
}

/// Halts or resumes the market (admins only).
pub fn execute_update_halt(m: &mut Market, sender: &String, is_halted: bool) -> (r: Result<
    (),
    ContractError,
>)
    requires
        old(m).wf(),
    ensures
        final(m).wf(),
        match r {
            Ok(()) => admins_view(old(m).admins@).contains(sender@) && *final(m) == (Market {
                is_halted,
                ..*old(m)
            }),
            Err(e) => !admins_view(old(m).admins@).contains(sender@) && e == ContractError::Unauthorized
                && *final(m) == *old(m),
        },
{
    assert_is_admin(m, sender)?;
    m.is_halted = is_halted;
    Ok(())
}

/// Appends an admin (admins only).
pub fn execute_add_admin(m: &mut Market, sender: &String, new_admin: String) -> (r: Result<
    (),
    ContractError,
>)
    requires
        old(m).wf(),
    ensures
        final(m).wf(),
        match r {
            Ok(()) => admins_view(old(m).admins@).contains(sender@) && admins_view(final(m).admins@)
                == admins_view(old(m).admins@).push(new_admin@) && final(m).same_except_admins(
                old(m),
            ),
            Err(e) => !admins_view(old(m).admins@).contains(sender@) && e == ContractError::Unauthorized
                && *final(m) == *old(m),
        },
{
    assert_is_admin(m, sender)?;
    let ghost a0 = m.admins@;
    m.admins.push(new_admin);
    assert(admins_view(m.admins@) =~= admins_view(a0).push(new_admin@));
    Ok(())
}

/// Takes every copy of an admin off the list (admins only); the list may not
/// end up empty.
pub fn execute_remove_admin(m: &mut Market, sender: &String, old_admin: &String) -> (r: Result<
    (),
    ContractError,
>)
    requires
        old(m).wf(),
    ensures
        final(m).wf(),
        match r {
            Ok(()) => admins_view(old(m).admins@).contains(sender@) && without(
                admins_view(old(m).admins@),
                old_admin@,
            ).len() > 0 && admins_view(final(m).admins@) == without(
                admins_view(old(m).admins@),
                old_admin@,
            ) && final(m).same_except_admins(old(m)),
            Err(e) => *final(m) == *old(m) && if !admins_view(old(m).admins@).contains(sender@) {
                e == ContractError::Unauthorized
            } else {
                without(admins_view(old(m).admins@), old_admin@).len() == 0 && e
                    == ContractError::NeedOneAdmin
            },
        },
{
    assert_is_admin(m, sender)?;
    let ghost av = admins_view(m.admins@);
    let mut kept: Vec<String> = Vec::new();
    let mut i: usize = 0;
    while i < m.admins.len()
        invariant
            av == admins_view(m.admins@),
            0 <= i <= m.admins@.len(),
            admins_view(kept@) == without(av.take(i as int), old_admin@),
        decreases m.admins@.len() - i,
    {
        assert(av.take(i + 1).drop_last() =~= av.take(i as int));
        assert(av.take(i + 1).last() == m.admins@[i as int]@);
        let ghost k0 = kept@;
        if m.admins[i] != *old_admin {
            kept.push(m.admins[i].clone());
            assert(admins_view(kept@) =~= admins_view(k0).push(m.admins@[i as int]@));
        }
        i = i + 1;
    }
    assert(av.take(m.admins@.len() as int) =~= av);
    if kept.len() == 0 {
        return Err(ContractError::NeedOneAdmin);
    }
    m.admins = kept;
    Ok(())
}

/// Replaces the fee-distribution wallets (admins only; ratios must sum to one).
pub fn execute_modify_dev_wallets(m: &mut Market, sender: &String, new_wallets: Vec<WalletInfo>) -> (r:
    Result<(), ContractError>)
    requires
        old(m).wf(),
    ensures
        final(m).wf(),
        match r {
            Ok(()) => admins_view(old(m).admins@).contains(sender@) && ratio_sum(new_wallets@)
                == DECIMAL_ONE && final(m).config.dev_wallet_list@ == new_wallets@
                && final(m).config.next_round_seconds == old(m).config.next_round_seconds
                && final(m).config.gaming_fee == old(m).config.gaming_fee
                && final(m).config.minimum_bet == old(m).config.minimum_bet
                && final(m).config.token_denom == old(m).config.token_denom
                && final(m).config.bet_token_denom == old(m).config.bet_token_denom
                && final(m).bets@ == old(m).bets@ && final(m).claims@ == old(m).claims@
                && final(m).admins@ == old(m).admins@ && final(m).totals_spent@ == old(
                m,
            ).totals_spent@ && final(m).is_halted == old(m).is_halted && final(m).next_round
                == old(m).next_round && final(m).live_round == old(m).live_round
                && final(m).rounds@ == old(m).rounds@ && final(m).next_round_id == old(
                m,
            ).next_round_id && final(m).accumulated_fee == old(m).accumulated_fee,
            Err(e) => *final(m) == *old(m) && if !admins_view(old(m).admins@).contains(sender@) {
                e == ContractError::Unauthorized
            } else {
                ratio_sum(new_wallets@) != DECIMAL_ONE && e == ContractError::WrongRatio
            },
        },
{
    assert_is_admin(m, sender)?;
    if !ratios_sum_to_one(&new_wallets) {
        return Err(ContractError::WrongRatio);
    }
    m.config.dev_wallet_list = new_wallets;
    Ok(())
}

proof fn lemma_total_absent(s: Seq<(String, u128)>, p: Seq<char>)
    requires
        forall|k: int| 0 <= k < s.len() ==> (#[trigger] s[k]).0@ != p,
    ensures
        total_of(s, p) == 0,
    decreases s.len(),
{
    if s.len() > 0 {
        let s0 = s.drop_last();
        assert forall|k: int| 0 <= k < s0.len() implies (#[trigger] s0[k]).0@ != p by {
            assert(s0[k] == s[k]);
        }
        lemma_total_absent(s0, p);
    }
}

proof fn lemma_total_update(s: Seq<(String, u128)>, i: int, e: (String, u128), q: Seq<char>)
    requires
        0 <= i < s.len(),
        s[i].0@ == e.0@,
        forall|k: int| i < k < s.len() ==> (#[trigger] s[k]).0@ != e.0@,
    ensures
        total_of(s.update(i, e), q) == if q == e.0@ {
            e.1
        } else {
            total_of(s, q)
        },
    decreases s.len(),
{
    let t = s.update(i, e);
    let n = s.len() - 1;
    if i == n {
        assert(t.drop_last() =~= s.drop_last());
    } else {
        assert(t.last() == s.last());
        assert(t.drop_last() =~= s.drop_last().update(i, e));
        let s0 = s.drop_last();
        assert forall|k: int| i < k < s0.len() implies (#[trigger] s0[k]).0@ != e.0@ by {
            assert(s0[k] == s[k]);
        }
        assert(s[n].0@ != e.0@);
        lemma_total_update(s0, i, e, q);
    }
}

/// A player's lifetime stake.
fn spent_of(totals: &Vec<(String, u128)>, player: &String) -> (r: u128)
    ensures
        r == total_of(totals@, player@),
{
    let mut j: usize = totals.len();
    assert(totals@.take(j as int) =~= totals@);
    while j > 0
        invariant
            j <= totals@.len(),
            total_of(totals@, player@) == total_of(totals@.take(j as int), player@),
        decreases j,
    {
        let ghost t = totals@.take(j as int);
        assert(t.drop_last() =~= totals@.take(j - 1));
        if totals[j - 1].0 == *player {
            return totals[j - 1].1;
        }
        j = j - 1;
    }
    assert(totals@.take(0) =~= Seq::<(String, u128)>::empty());
    0
}

/// Sets a player's lifetime stake, leaving the others' as they are.
fn set_spent(totals: &mut Vec<(String, u128)>, player: &String, value: u128)
    ensures
        forall|q: Seq<char>|
            #[trigger] total_of(final(totals)@, q) == if q == player@ {
                value
            } else {
                total_of(old(totals)@, q)
            },
{
    let mut j: usize = totals.len();
    while j > 0
        invariant
            j <= totals@.len(),
            totals@ == old(totals)@,
            forall|k: int| j <= k < totals@.len() ==> (#[trigger] totals@[k]).0@ != player@,
        decreases j,
    {
        if totals[j - 1].0 == *player {
            let ghost s0 = totals@;
            let e = (player.clone(), value);
            totals.set(j - 1, e);
            proof {
                assert forall|q: Seq<char>|
                    #[trigger] total_of(totals@, q) == if q == player@ {
                        value
                    } else {
                        total_of(s0, q)
                    } by {
                    lemma_total_update(s0, j - 1, e, q);
                }
            }
            return;
        }
        j = j - 1;
    }
    proof {
        lemma_total_absent(totals@, player@);
    }
    totals.push((player.clone(), value));
    proof {
        assert forall|q: Seq<char>|
            #[trigger] total_of(totals@, q) == if q == player@ {
                value
            } else {
                total_of(old(totals)@, q)
            } by {
            assert(totals@.drop_last() =~= old(totals)@);
        }
    }
}

/// What `one_coin` makes of the attached deposits: the single non-zero
/// deposit, or why there is none.
pub open spec fn one_coin_spec(funds: Seq<Coin>) -> Result<(Seq<char>, u128), ContractError> {
    if funds.len() == 0 {
        Err(ContractError::NoFunds)
    } else if funds.len() > 1 {
        Err(ContractError::MultipleDenoms)
    } else if funds[0].amount == 0 {
        Err(ContractError::NoFunds)
    } else {
        Ok((funds[0].denom@, funds[0].amount))
    }
}

/// Requires exactly one non-zero deposit and returns its denom and amount.
pub fn one_coin(funds: &Vec<Coin>) -> (r: Result<(String, u128), ContractError>)
    ensures
        match (r, one_coin_spec(funds@)) {
            (Ok(c), Ok(d)) => c.0@ == d.0 && c.1 == d.1,
            (Err(e), Err(f)) => e == f,
            _ => false,
        },
{
    if funds.len() == 0 {
        Err(ContractError::NoFunds)
    } else if funds.len() > 1 {
        Err(ContractError::MultipleDenoms)
    } else if funds[0].amount == 0 {
        Err(ContractError::NoFunds)
    } else {
        Ok((funds[0].denom.clone(), funds[0].amount))
    }
}

/// The bidding round, if `round_id` names it.
pub fn assert_is_current_round(m: &Market, round_id: u128) -> (r: Result<NextRound, ContractError>)
    ensures
        match m.next_round {
            None => r == Err::<NextRound, ContractError>(ContractError::NoBiddingRound),
            Some(n) => if n.id == round_id {
                r == Ok::<NextRound, ContractError>(n)
            } else {
                r == Err::<NextRound, ContractError>(
                    ContractError::WrongRound { requested: round_id, current: n.id },
                )
            },
        },
{
    match m.next_round {
        None => Err(ContractError::NoBiddingRound),
        Some(n) => {
            if n.id == round_id {
                Ok(n)
            } else {
                Err(ContractError::WrongRound { requested: round_id, current: n.id })
            }
        },
    }
}

pub open spec fn side_amount(n: NextRound, d: Direction) -> u128 {
    match d {
        Direction::Bull => n.bull_amount,
        Direction::Bear => n.bear_amount,
    }
}

/// The bidding round with `amount` more on side `d`.
pub open spec fn add_to_side(n: NextRound, d: Direction, amount: u128) -> NextRound {
    match d {
        Direction::Bull => NextRound { bull_amount: (n.bull_amount + amount) as u128, ..n },
        Direction::Bear => NextRound { bear_amount: (n.bear_amount + amount) as u128, ..n },
    }
}

/// Whether a bet is taken, and with which fee; or the error that refuses it,
/// checked in this order.
pub open spec fn bet_check(
    m: Market,
    sender: Seq<char>,
    funds: Seq<Coin>,
    now: u64,
    round_id: u128,
    dir: Direction,
    gross: u128,
) -> Result<u128, ContractError> {
    if m.is_halted {
        Err(ContractError::Halted)
    } else if m.next_round is None {
        Err(ContractError::NoBiddingRound)
    } else if m.next_round->0.id != round_id {
        Err(ContractError::WrongRound { requested: round_id, current: m.next_round->0.id })
    } else if one_coin_spec(funds) is Err {
        Err(one_coin_spec(funds)->Err_0)
    } else if total_of(m.totals_spent@, sender) + one_coin_spec(funds)->Ok_0.1 > u128::MAX {
        Err(ContractError::Overflow)
    } else if one_coin_spec(funds)->Ok_0.0 != m.config.token_denom@ {
        Err(ContractError::InvalidFunds)
    } else if one_coin_spec(funds)->Ok_0.1 != gross {
        Err(ContractError::NotEnoughFunds)
    } else if now > m.next_round->0.open_time {
        Err(
            ContractError::BiddingClosed {
                round_id,
                seconds_ago: (now - m.next_round->0.open_time) as u64,
            },
        )
    } else if gaming_fee_of(m.config.gaming_fee, gross) > u128::MAX {
        Err(ContractError::Overflow)
    } else if m.accumulated_fee + gaming_fee_of(m.config.gaming_fee, gross) > u128::MAX {
        Err(ContractError::Overflow)
    } else if gaming_fee_of(m.config.gaming_fee, gross) > gross {
        Err(ContractError::Overflow)
    } else if m.bets@.contains_key((round_id, sender)) {
        Err(
            ContractError::AlreadyBet {
                direction: m.bets@[(round_id, sender)].direction,
                amount: m.bets@[(round_id, sender)].amount,
            },
        )
    } else if side_amount(m.next_round->0, dir) + (gross - gaming_fee_of(m.config.gaming_fee, gross))
        > u128::MAX {
        Err(ContractError::Overflow)
    } else {
        Ok(gaming_fee_of(m.config.gaming_fee, gross) as u128)
    }
}

/// Places a bet of `gross` on `dir` in the bidding round `round_id`, paid by
/// the single deposit in `funds`. The fee is kept aside and the rest is
/// recorded as the player's one bet on the round. Returns the recorded amount.
pub fn execute_bet(
    m: &mut Market,
    sender: &String,
    funds: &Vec<Coin>,
    now: u64,
    round_id: u128,
    dir: Direction,
    gross: u128,
) -> (r: Result<u128, ContractError>)
    requires
        old(m).wf(),
    ensures
        final(m).wf(),
        old(m).bets@.contains_key((round_id, sender@)) ==> r is Err && *final(m) == *old(m),
        match r {
            Ok(net) => {
                let fee = bet_check(*old(m), sender@, funds@, now, round_id, dir, gross)->Ok_0;
                &&& bet_check(*old(m), sender@, funds@, now, round_id, dir, gross) is Ok
                &&& fee <= gross && net == gross - fee
                &&& final(m).bets@ == old(m).bets@.insert(
                    (round_id, sender@),
                    BetView { player: sender@, round_id, amount: net, direction: dir },
                )
                &&& final(m).next_round == Some(add_to_side(old(m).next_round->0, dir, net))
                &&& final(m).accumulated_fee == old(m).accumulated_fee + fee
                &&& forall|q: Seq<char>|
                    #[trigger] total_of(final(m).totals_spent@, q) == if q == sender@ {
                        total_of(old(m).totals_spent@, q) + gross
                    } else {
                        total_of(old(m).totals_spent@, q) as int
                    }
                &&& final(m).config == old(m).config && final(m).claims@ == old(m).claims@
                &&& final(m).admins@ == old(m).admins@ && final(m).is_halted == old(m).is_halted
                &&& final(m).live_round == old(m).live_round && final(m).rounds@ == old(m).rounds@
                &&& final(m).next_round_id == old(m).next_round_id
            },
            Err(e) => bet_check(*old(m), sender@, funds@, now, round_id, dir, gross) == Err::<
                u128,
                ContractError,
            >(e) && *final(m) == *old(m),
        },
{
    assert_not_halted(m)?;
    let bet_round = assert_is_current_round(m, round_id)?;
    let coin = one_coin(funds)?;
    let spent = spent_of(&m.totals_spent, sender);
    if spent > u128::MAX - coin.1 {
        return Err(ContractError::Overflow);
    }
    if coin.0 != m.config.token_denom {
        return Err(ContractError::InvalidFunds);
    }
    if coin.1 != gross {
        return Err(ContractError::NotEnoughFunds);
    }
    if now > bet_round.open_time {
        return Err(
            ContractError::BiddingClosed { round_id, seconds_ago: now - bet_round.open_time },
        );
    }
    let fee = compute_gaming_fee(m.config.gaming_fee, gross)?;
    if m.accumulated_fee > u128::MAX - fee {
        return Err(ContractError::Overflow);
    }
    if fee > gross {
        return Err(ContractError::Overflow);
    }
    let net = gross - fee;
    let existing = m.bets.get(round_id, sender);
    match existing {
        Some(b) => {
            return Err(ContractError::AlreadyBet { direction: b.direction, amount: b.amount });
        },
        None => {},
    }
    let mut updated = bet_round;
    match dir {
        Direction::Bull => {
            if updated.bull_amount > u128::MAX - net {
                return Err(ContractError::Overflow);
            }
            updated.bull_amount = updated.bull_amount + net;
        },
        Direction::Bear => {
            if updated.bear_amount > u128::MAX - net {
                return Err(ContractError::Overflow);
            }
            updated.bear_amount = updated.bear_amount + net;
        },
    }
    set_spent(&mut m.totals_spent, sender, spent + gross);
    m.accumulated_fee = m.accumulated_fee + fee;
    let res = m.bets.insert_new(
        BetInfo { player: sender.clone(), round_id, amount: net, direction: dir },
    );
    assert(res is Ok);
    m.next_round = Some(updated);
    Ok(net)
}

/// The oracle's price for `denom`: the first entry that names it.
pub open spec fn price_in(rates: Seq<ExchangeRate>, denom: Seq<char>) -> Option<u128>
    decreases rates.len(),
{
    if rates.len() == 0 {
        None
    } else if rates[0].denom@ == denom {
        Some(rates[0].rate)
    } else {
        price_in(rates.drop_first(), denom)
    }
}

/// Looks up the price of `denom` in the oracle's answer.
pub fn get_current_price(rates: &Vec<ExchangeRate>, denom: &String) -> (r: Result<u128, ContractError>)
    ensures
        match price_in(rates@, denom@) {
            Some(p) => r == Ok::<u128, ContractError>(p),
            None => r == Err::<u128, ContractError>(ContractError::PriceNotFoundInOracle),
        },
{
    let mut i: usize = 0;
    assert(rates@.skip(0) =~= rates@);
    while i < rates.len()
        invariant
            0 <= i <= rates@.len(),
            price_in(rates@, denom@) == price_in(rates@.skip(i as int), denom@),
        decreases rates@.len() - i,
    {
        assert(rates@.skip(i as int).drop_first() =~= rates@.skip(i + 1));
        assert(rates@.skip(i as int)[0] == rates@[i as int]);
        if rates[i].denom == *denom {
            return Ok(rates[i].rate);
        }
        i = i + 1;
    }
    assert(rates@.skip(i as int).len() == 0);
    Err(ContractError::PriceNotFoundInOracle)
}

/// The archived form of a live round that closed at `close_price`.
pub open spec fn close_spec(l: LiveRound, close_price: u128) -> FinishedRound {
    FinishedRound {
        id: l.id,
        bid_time: l.bid_time,
        open_time: l.open_time,
        close_time: l.close_time,
        open_price: l.open_price,
        close_price,
        winner: winner_of(l.open_price, close_price),
        bull_amount: l.bull_amount,
        bear_amount: l.bear_amount,
    }
}

/// Finalizes a live round at the closing price; the winner is the side the
/// price moved towards.
pub fn compute_round_close(l: &LiveRound, close_price: u128) -> (r: FinishedRound)
    ensures
        r == close_spec(*l, close_price),
{
    let winner = if close_price > l.open_price {
        Some(Direction::Bull)
    } else if close_price < l.open_price {
        Some(Direction::Bear)
    } else {
        None
    };
    FinishedRound {
        id: l.id,
        bid_time: l.bid_time,
        open_time: l.open_time,
        close_time: l.close_time,
        open_price: l.open_price,
        close_price,
        winner,
        bull_amount: l.bull_amount,
        bear_amount: l.bear_amount,
    }
}

/// The live form of a bidding round that opens now at `open_price`.
pub open spec fn open_spec(n: NextRound, now: u64, open_price: u128, dur: u64) -> LiveRound {
    LiveRound {
        id: n.id,
        bid_time: n.bid_time,
        open_time: now,
        close_time: (now + dur) as u64,
        open_price,
        bull_amount: n.bull_amount,
        bear_amount: n.bear_amount,
    }
}

/// Starts the price window of a bidding round: it opens now and closes one
/// round duration later.
pub fn compute_round_open(n: &NextRound, now: u64, open_price: u128, dur: u64) -> (r: Result<
    LiveRound,
    ContractError,
>)
    ensures
        match r {
            Ok(l) => now + dur <= u64::MAX && l == open_spec(*n, now, open_price, dur),
            Err(e) => now + dur > u64::MAX && e == ContractError::Overflow,
        },
{
    if now > u64::MAX - dur {
        return Err(ContractError::Overflow);
    }
    Ok(
        LiveRound {
            id: n.id,
            bid_time: n.bid_time,
            open_time: now,
            close_time: now + dur,
            open_price,
            bull_amount: n.bull_amount,
            bear_amount: n.bear_amount,
        },
    )
}

/// A fresh bidding round with no stakes.
pub open spec fn new_bidding(id: u128, now: u64, open_time: int, dur: u64) -> NextRound {
    NextRound {
        id,
        bid_time: now,
        open_time: open_time as u64,
        close_time: (open_time + dur) as u64,
        bull_amount: 0,
        bear_amount: 0,
    }
}

/// Whether the live round is due to close.
pub open spec fn closes(m: Market, now: u64) -> bool {
    m.live_round matches Some(l) && now >= l.close_time
}

/// The live slot once a due live round has closed.
pub open spec fn live_after_close(m: Market, now: u64) -> Option<LiveRound> {
    if closes(m, now) {
        None
    } else {
        m.live_round
    }
}

/// Whether the bidding round is promoted to live.
pub open spec fn opens(m: Market, now: u64) -> bool {
    m.next_round matches Some(n) && live_after_close(m, now) is None && now >= n.open_time
}

/// The live slot, the bidding slot and the id counter after an advance at
/// `now` with oracle price `price`, or `Overflow` when a time or the id
/// counter leaves its range.
pub open spec fn slots_after(m: Market, now: u64, price: u128) -> Result<
    (Option<LiveRound>, Option<NextRound>, u128),
    ContractError,
> {
    let dur = m.config.next_round_seconds;
    let live1 = live_after_close(m, now);
    if opens(m, now) {
        if now + dur + dur > u64::MAX || m.next_round_id == u128::MAX {
            Err(ContractError::Overflow)
        } else {
            let l = open_spec(m.next_round->0, now, price, dur);
            Ok(
                (
                    Some(l),
                    Some(new_bidding(m.next_round_id, now, l.close_time as int, dur)),
                    (m.next_round_id + 1) as u128,
                ),
            )
        }
    } else if m.next_round is None {
        let open = match live1 {
            Some(l) => l.close_time as int,
            None => now + dur,
        };
        if open + dur > u64::MAX || m.next_round_id == u128::MAX {
            Err(ContractError::Overflow)
        } else {
            Ok(
                (
                    live1,
                    Some(new_bidding(m.next_round_id, now, open, dur)),
                    (m.next_round_id + 1) as u128,
                ),
            )
        }
    } else {
        Ok((live1, m.next_round, m.next_round_id))
    }
}

/// Whether an advance at `now` succeeds, or the error that stops it.
pub open spec fn close_round_check(m: Market, now: u64, rates: Seq<ExchangeRate>) -> Result<
    (),
    ContractError,
> {
    let price = price_in(rates, m.config.bet_token_denom@);
    if m.is_halted {
        Err(ContractError::Halted)
    } else if (closes(m, now) || opens(m, now)) && price is None {
        Err(ContractError::PriceNotFoundInOracle)
    } else if closes(m, now) && m.accumulated_fee != 0 && exists|k: int|
        0 <= k < m.config.dev_wallet_list@.len() && fee_share(
            m.accumulated_fee,
            #[trigger] m.config.dev_wallet_list@[k].ratio,
        ) > u128::MAX {
        Err(ContractError::Overflow)
    } else if slots_after(m, now, price.unwrap_or(0)) is Err {
        Err(ContractError::Overflow)
    } else {
        Ok(())
    }
}

/// What an advance did: the round it archived, the round it promoted to
/// live, the bidding round it opened, and the fee transfers to make.
pub struct RoundChanges {
    pub closed: Option<FinishedRound>,
    pub opened: Option<LiveRound>,
    pub new_bidding: Option<NextRound>,
    pub fee_transfers: Vec<(String, u128)>,
}

/// Advances the rounds at time `now`, given the oracle's current prices.
/// In order: a live round that is due closes and is archived, and the fee
/// collected so far is split across the dev wallets; a bidding round that is
/// due becomes live when no live round remains, and a new bidding round opens
/// right behind it; with no bidding round at all, one is opened. Calling it
/// when nothing is due changes nothing.
pub fn execute_close_round(m: &mut Market, now: u64, rates: &Vec<ExchangeRate>) -> (r: Result<
    RoundChanges,
    ContractError,
>)
    requires
        old(m).wf(),
    ensures
        final(m).wf(),
        match r {
            Ok(c) => {
                let price = price_in(rates@, old(m).config.bet_token_denom@).unwrap_or(0);
                let slots = slots_after(*old(m), now, price)->Ok_0;
                &&& close_round_check(*old(m), now, rates@) is Ok
                &&& (final(m).live_round, final(m).next_round, final(m).next_round_id) == slots
                &&& c.opened == (if opens(*old(m), now) {
                    slots.0
                } else {
                    None
                })
                &&& c.new_bidding == (if slots.2 != old(m).next_round_id {
                    slots.1
                } else {
                    None
                })
                &&& final(m).same_books(old(m))
                &&& if closes(*old(m), now) {
                    let f = close_spec(old(m).live_round->0, price);
                    &&& c.closed == Some(f)
                    &&& final(m).rounds@ == old(m).rounds@.push(f)
                    &&& final(m).accumulated_fee == 0
                    &&& if old(m).accumulated_fee == 0 {
                        c.fee_transfers@.len() == 0
                    } else {
                        c.fee_transfers@.len() == old(m).config.dev_wallet_list@.len() && forall|
                            k: int,
                        |
                            0 <= k < c.fee_transfers@.len() ==> (#[trigger] c.fee_transfers@[k]).0@
                                == old(m).config.dev_wallet_list@[k].address@
                                && c.fee_transfers@[k].1 == fee_share(
                                old(m).accumulated_fee,
                                old(m).config.dev_wallet_list@[k].ratio,
                            )
                    }
                } else {
                    &&& c.closed is None
                    &&& final(m).rounds@ == old(m).rounds@
                    &&& final(m).accumulated_fee == old(m).accumulated_fee
                    &&& c.fee_transfers@.len() == 0
                }
            },
            Err(e) => close_round_check(*old(m), now, rates@) == Err::<(), ContractError>(e)
                && *final(m) == *old(m),
        },
{
    assert_not_halted(m)?;
    let dur = m.config.next_round_seconds;
    let closing = match m.live_round {
        Some(l) => now >= l.close_time,
        None => false,
    };
    let live1 = if closing {
        None
    } else {
        m.live_round
    };
    let opening = match m.next_round {
        Some(n) => live1.is_none() && now >= n.open_time,
        None => false,
    };
    let mut price: u128 = 0;
    if closing || opening {
        price = get_current_price(rates, &m.config.bet_token_denom)?;
    }
    assert(closing || opening ==> price == price_in(rates@, m.config.bet_token_denom@).unwrap_or(0));
    let mut closed: Option<FinishedRound> = None;
    let mut transfers: Vec<(String, u128)> = Vec::new();
    if closing {
        match m.live_round {
            Some(l) => {
                closed = Some(compute_round_close(&l, price));
            },
            None => {},
        }
        if m.accumulated_fee != 0 {
            transfers = fee_transfers(m.accumulated_fee, &m.config.dev_wallet_list)?;
            assert forall|k: int| 0 <= k < m.config.dev_wallet_list@.len() implies fee_share(
                m.accumulated_fee,
                #[trigger] m.config.dev_wallet_list@[k].ratio,
            ) <= u128::MAX by {
                assert(transfers@[k].1 == fee_share(
                    m.accumulated_fee,
                    m.config.dev_wallet_list@[k].ratio,
                ));
            }
        }
    }
    let new_live: Option<LiveRound>;
    let new_next: Option<NextRound>;
    let new_id: u128;
    let mut opened: Option<LiveRound> = None;
    let mut started: Option<NextRound> = None;
    match (opening, m.next_round) {
        (true, Some(n)) => {
            let l = compute_round_open(&n, now, price, dur)?;
            if l.close_time > u64::MAX - dur || m.next_round_id == u128::MAX {
                return Err(ContractError::Overflow);
            }
            let b = NextRound {
                id: m.next_round_id,
                bid_time: now,
                open_time: l.close_time,
                close_time: l.close_time + dur,
                bull_amount: 0,
                bear_amount: 0,
            };
            new_live = Some(l);
            opened = Some(l);
            new_next = Some(b);
            started = Some(b);
            new_id = m.next_round_id + 1;
        },
        (_, None) => {
            let open: u64 = match live1 {
                Some(l) => l.close_time,
                None => {
                    if now > u64::MAX - dur {
                        return Err(ContractError::Overflow);
                    }
                    now + dur
                },
            };
            if open > u64::MAX - dur || m.next_round_id == u128::MAX {
                return Err(ContractError::Overflow);
            }
            let b = NextRound {
                id: m.next_round_id,
                bid_time: now,
                open_time: open,
                close_time: open + dur,
                bull_amount: 0,
                bear_amount: 0,
            };
            new_live = live1;
            new_next = Some(b);
            started = Some(b);
            new_id = m.next_round_id + 1;
        },
        (false, Some(n)) => {
            new_live = live1;
            new_next = Some(n);
            new_id = m.next_round_id;
        },
    }
    match closed {
        Some(f) => {
            m.rounds.push(f);
            m.accumulated_fee = 0;
        },
        None => {},
    }
    m.live_round = new_live;
    m.next_round = new_next;
    m.next_round_id = new_id;
    Ok(RoundChanges { closed, opened, new_bidding: started, fee_transfers: transfers })
}

} // verus!
