use vstd::prelude::*;

use crate::ledger::{view_all, LedgerKey};
use crate::market::{find_round, Market};
use crate::settlement::{
    compute_payout, lemma_conservation, lemma_refund, payout, payout_fits, pool, side_total,
    sum_amounts, sum_payouts,
};
use crate::types::Direction;
use crate::types::{BetInfo, BetView, ClaimInfo, ClaimView, ContractError, FinishedRound, LiveRound};

verus! {

/// The archived round with this id, if any.
pub fn find_finished(rounds: &Vec<FinishedRound>, id: u128) -> (r: Option<FinishedRound>)
    ensures
        r == find_round(rounds@, id),
{
    let mut j: usize = rounds.len();
    assert(rounds@.take(j as int) =~= rounds@);
    while j > 0
        invariant
            j <= rounds@.len(),
            find_round(rounds@, id) == find_round(rounds@.take(j as int), id),
        decreases j,
    {
        let ghost t = rounds@.take(j as int);
        assert(t.drop_last() =~= rounds@.take(j - 1));
        if rounds[j - 1].id == id {
            return Some(rounds[j - 1]);
        }
        j = j - 1;
    }
    assert(rounds@.take(0) =~= Seq::<FinishedRound>::empty());
    None
}

/// Whether a bet can be settled: its round is archived and is not the live one.
pub open spec fn settles(b: BetView, rounds: Seq<FinishedRound>, live: Option<LiveRound>) -> bool {
    !(live matches Some(l) && l.id == b.round_id) && find_round(rounds, b.round_id) is Some
}

/// What a settled bet pays.
pub open spec fn bet_payout(b: BetView, rounds: Seq<FinishedRound>) -> int {
    payout(find_round(rounds, b.round_id)->0, b.amount as int, b.direction)
}

/// The receipt for settling a bet.
pub open spec fn claim_for(b: BetView, rounds: Seq<FinishedRound>) -> ClaimView {
    ClaimView {
        player: b.player,
        round_id: b.round_id,
        claimed_amount: bet_payout(b, rounds) as u128,
    }
}

/// The total that the settleable bets among `list` pay.
pub open spec fn settle_sum(list: Seq<BetView>, rounds: Seq<FinishedRound>, live: Option<LiveRound>) -> int
    decreases list.len(),
{
    if list.len() == 0 {
        0
    } else {
        settle_sum(list.drop_last(), rounds, live) + if settles(list.last(), rounds, live) {
            bet_payout(list.last(), rounds)
        } else {
            0
        }
    }
}

/// Whether every payout and the running total fit in 128 bits.
pub open spec fn settle_fits(list: Seq<BetView>, rounds: Seq<FinishedRound>, live: Option<LiveRound>) -> bool
    decreases list.len(),
{
    if list.len() == 0 {
        true
    } else {
        settle_fits(list.drop_last(), rounds, live) && (settles(list.last(), rounds, live) ==> (
        payout_fits(find_round(rounds, list.last().round_id)->0, list.last().amount as int, list.last().direction)
            && settle_sum(list, rounds, live) <= u128::MAX))
    }
}

/// The receipts for the settleable bets among `list`, in order.
pub open spec fn claims_of(list: Seq<BetView>, rounds: Seq<FinishedRound>, live: Option<LiveRound>) -> Seq<
    ClaimView,
>
    decreases list.len(),
{
    if list.len() == 0 {
        Seq::empty()
    } else {
        let r = claims_of(list.drop_last(), rounds, live);
        if settles(list.last(), rounds, live) {
            r.push(claim_for(list.last(), rounds))
        } else {
            r
        }
    }
}

proof fn lemma_payout_nonneg(b: BetView, rounds: Seq<FinishedRound>)
    requires
        find_round(rounds, b.round_id) is Some,
    ensures
        bet_payout(b, rounds) >= 0,
{
    let r = find_round(rounds, b.round_id)->0;
    let p = r.bull_amount + r.bear_amount;
    assert(p * b.amount >= 0) by (nonlinear_arith)
        requires
            p >= 0,
            b.amount >= 0,
    ;
}

proof fn lemma_settle_sum_nonneg(list: Seq<BetView>, rounds: Seq<FinishedRound>, live: Option<LiveRound>)
    ensures
        settle_sum(list, rounds, live) >= 0,
    decreases list.len(),
{
    if list.len() > 0 {
        lemma_settle_sum_nonneg(list.drop_last(), rounds, live);
        if settles(list.last(), rounds, live) {
            lemma_payout_nonneg(list.last(), rounds);
        }
    }
}

/// Settles `list` against the archive: the total paid and the receipts, or
/// `Overflow` when a payout or the total does not fit.
pub fn settle_list(list: &Vec<BetInfo>, rounds: &Vec<FinishedRound>, live: Option<LiveRound>) -> (r:
    Result<(u128, Vec<ClaimInfo>), ContractError>)
    ensures
        match r {
            Ok((total, cs)) => settle_fits(view_all(list@), rounds@, live) && total == settle_sum(
                view_all(list@),
                rounds@,
                live,
            ) && view_all(cs@) == claims_of(view_all(list@), rounds@, live),
            Err(e) => !settle_fits(view_all(list@), rounds@, live) && e == ContractError::Overflow,
        },
{
    let ghost lv = view_all(list@);
    let mut total: u128 = 0;
    let mut cs: Vec<ClaimInfo> = Vec::new();
    let mut i: usize = 0;
    while i < list.len()
        invariant
            lv == view_all(list@),
            0 <= i <= list@.len(),
            settle_fits(lv.take(i as int), rounds@, live),
            total == settle_sum(lv.take(i as int), rounds@, live),
            view_all(cs@) == claims_of(lv.take(i as int), rounds@, live),
        decreases list@.len() - i,
    {
        let b = &list[i];
        let ghost pre = lv.take(i as int);
        let ghost cur = lv.take(i + 1);
        assert(cur.drop_last() =~= pre);
        assert(cur.last() == b@);
        let skip_live = match live {
            Some(l) => l.id == b.round_id,
            None => false,
        };
        if !skip_live {
            match find_finished(rounds, b.round_id) {
                None => {},
                Some(round) => {
                    let p = match compute_payout(&round, b.amount, b.direction) {
                        Ok(p) => p,
                        Err(e) => {
                            proof {
                                lemma_fits_prefix(lv, rounds@, live, i + 1);
                            }
                            return Err(e);
                        },
                    };
                    if total > u128::MAX - p {
                        proof {
                            lemma_fits_prefix(lv, rounds@, live, i + 1);
                        }
                        return Err(ContractError::Overflow);
                    }
                    total = total + p;
                    let ghost c0 = cs@;
                    cs.push(ClaimInfo { player: b.player.clone(), round_id: b.round_id, claimed_amount: p });
                    assert(view_all(cs@) =~= view_all(c0).push(claim_for(b@, rounds@)));
                },
            }
        }
        i = i + 1;
    }
    assert(lv.take(list@.len() as int) =~= lv);
    Ok((total, cs))
}

/// A prefix of a list whose settlement does not fit does not fit either
/// once extended.
proof fn lemma_fits_prefix(list: Seq<BetView>, rounds: Seq<FinishedRound>, live: Option<LiveRound>, i: int)
    requires
        0 <= i <= list.len(),
        !settle_fits(list.take(i), rounds, live),
    ensures
        !settle_fits(list, rounds, live),
    decreases list.len() - i,
{
    if i < list.len() {
        assert(list.take(i + 1).drop_last() =~= list.take(i));
        lemma_fits_prefix(list, rounds, live, i + 1);
    } else {
        assert(list.take(i) =~= list);
    }
}

pub open spec fn claim_key(c: ClaimView) -> LedgerKey {
    (c.round_id, c.player)
}

pub open spec fn bet_key(b: BetView) -> LedgerKey {
    (b.round_id, b.player)
}

/// `m` without the keys of the receipts `cs`.
spec fn remove_all(m: Map<LedgerKey, BetView>, cs: Seq<ClaimView>) -> Map<LedgerKey, BetView>
    decreases cs.len(),
{
    if cs.len() == 0 {
        m
    } else {
        remove_all(m, cs.drop_last()).remove(claim_key(cs.last()))
    }
}

/// `m` with the receipts `cs` stored in order.
spec fn save_all(m: Map<LedgerKey, ClaimView>, cs: Seq<ClaimView>) -> Map<LedgerKey, ClaimView>
    decreases cs.len(),
{
    if cs.len() == 0 {
        m
    } else {
        save_all(m, cs.drop_last()).insert(claim_key(cs.last()), cs.last())
    }
}

proof fn lemma_remove_all(m: Map<LedgerKey, BetView>, cs: Seq<ClaimView>, k: LedgerKey)
    ensures
        remove_all(m, cs).contains_key(k) <==> m.contains_key(k) && forall|j: int|
            0 <= j < cs.len() ==> claim_key(#[trigger] cs[j]) != k,
        remove_all(m, cs).contains_key(k) ==> remove_all(m, cs)[k] == m[k],
    decreases cs.len(),
{
    if cs.len() > 0 {
        let c0 = cs.drop_last();
        lemma_remove_all(m, c0, k);
        if remove_all(m, cs).contains_key(k) {
            assert forall|j: int| 0 <= j < cs.len() implies claim_key(#[trigger] cs[j]) != k by {
                if j < c0.len() {
                    assert(cs[j] == c0[j]);
                }
            }
        }
        if m.contains_key(k) && forall|j: int| 0 <= j < cs.len() ==> claim_key(#[trigger] cs[j]) != k {
            assert forall|j: int| 0 <= j < c0.len() implies claim_key(#[trigger] c0[j]) != k by {
                assert(cs[j] == c0[j]);
            }
            assert(claim_key(cs[cs.len() - 1]) != k);
        }
    }
}

proof fn lemma_save_all(m: Map<LedgerKey, ClaimView>, cs: Seq<ClaimView>, k: LedgerKey)
    requires
        forall|a: int, b: int|
            0 <= a < cs.len() && 0 <= b < cs.len() && a != b ==> claim_key(#[trigger] cs[a])
                != claim_key(#[trigger] cs[b]),
    ensures
        forall|j: int|
            0 <= j < cs.len() && claim_key(#[trigger] cs[j]) == k ==> save_all(m, cs).contains_key(k)
                && save_all(m, cs)[k] == cs[j],
        (forall|j: int| 0 <= j < cs.len() ==> claim_key(#[trigger] cs[j]) != k) ==> (save_all(
            m,
            cs,
        ).contains_key(k) == m.contains_key(k) && (m.contains_key(k) ==> save_all(m, cs)[k]
            == m[k])),
    decreases cs.len(),
{
    if cs.len() > 0 {
        let c0 = cs.drop_last();
        lemma_save_all(m, c0, k);
        assert forall|j: int|
            0 <= j < cs.len() && claim_key(#[trigger] cs[j]) == k implies save_all(m, cs).contains_key(k)
            && save_all(m, cs)[k] == cs[j] by {
            if j < c0.len() {
                assert(cs[j] == c0[j]);
                assert(claim_key(cs[cs.len() - 1]) != k);
            }
        }
        if forall|j: int| 0 <= j < cs.len() ==> claim_key(#[trigger] cs[j]) != k {
            assert forall|j: int| 0 <= j < c0.len() implies claim_key(#[trigger] c0[j]) != k by {
                assert(cs[j] == c0[j]);
            }
            assert(claim_key(cs[cs.len() - 1]) != k);
        }
    }
}

proof fn lemma_claims_of(list: Seq<BetView>, rounds: Seq<FinishedRound>, live: Option<LiveRound>)
    requires
        forall|a: int, b: int|
            0 <= a < list.len() && 0 <= b < list.len() && a != b ==> bet_key(#[trigger] list[a])
                != bet_key(#[trigger] list[b]),
    ensures
        forall|j: int|
            0 <= j < claims_of(list, rounds, live).len() ==> exists|i: int|
                0 <= i < list.len() && settles(list[i], rounds, live) && #[trigger] claims_of(
                    list,
                    rounds,
                    live,
                )[j] == claim_for(list[i], rounds),
        forall|i: int|
            0 <= i < list.len() && settles(#[trigger] list[i], rounds, live) ==> exists|j: int|
                0 <= j < claims_of(list, rounds, live).len() && claims_of(list, rounds, live)[j]
                    == claim_for(list[i], rounds),
        forall|a: int, b: int|
            0 <= a < claims_of(list, rounds, live).len() && 0 <= b < claims_of(list, rounds, live).len()
                && a != b ==> claim_key(#[trigger] claims_of(list, rounds, live)[a]) != claim_key(
                #[trigger] claims_of(list, rounds, live)[b],
            ),
    decreases list.len(),
{
    if list.len() > 0 {
        let l0 = list.drop_last();
        let n = list.len() - 1;
        assert forall|a: int, b: int|
            0 <= a < l0.len() && 0 <= b < l0.len() && a != b implies bet_key(#[trigger] l0[a])
            != bet_key(#[trigger] l0[b]) by {
            assert(l0[a] == list[a] && l0[b] == list[b]);
        }
        lemma_claims_of(l0, rounds, live);
        let c0 = claims_of(l0, rounds, live);
        let c = claims_of(list, rounds, live);
        assert forall|j: int| 0 <= j < c.len() implies exists|i: int|
            0 <= i < list.len() && settles(list[i], rounds, live) && #[trigger] c[j] == claim_for(
                list[i],
                rounds,
            ) by {
            if j < c0.len() {
                assert(c[j] == c0[j]);
                let i = choose|i: int|
                    0 <= i < l0.len() && settles(l0[i], rounds, live) && c0[j] == claim_for(
                        l0[i],
                        rounds,
                    );
                assert(list[i] == l0[i]);
            } else {
                assert(c[j] == claim_for(list[n], rounds));
            }
        }
        assert forall|i: int| 0 <= i < list.len() && settles(#[trigger] list[i], rounds, live) implies exists|
            j: int,
        | 0 <= j < c.len() && c[j] == claim_for(list[i], rounds) by {
            if i < n {
                assert(l0[i] == list[i]);
                let j = choose|j: int| 0 <= j < c0.len() && c0[j] == claim_for(l0[i], rounds);
                assert(c[j] == c0[j]);
            } else {
                assert(c[c.len() - 1] == claim_for(list[n], rounds));
            }
        }
        assert forall|a: int, b: int|
            0 <= a < c.len() && 0 <= b < c.len() && a != b implies claim_key(#[trigger] c[a])
            != claim_key(#[trigger] c[b]) by {
            if a < c0.len() && b < c0.len() {
                assert(c[a] == c0[a] && c[b] == c0[b]);
            } else if a < c0.len() {
                assert(c[a] == c0[a]);
                let i = choose|i: int|
                    0 <= i < l0.len() && settles(l0[i], rounds, live) && c0[a] == claim_for(
                        l0[i],
                        rounds,
                    );
                assert(list[i] == l0[i]);
                assert(c[b] == claim_for(list[n], rounds));
            } else {
                assert(c[b] == c0[b]);
                let i = choose|i: int|
                    0 <= i < l0.len() && settles(l0[i], rounds, live) && c0[b] == claim_for(
                        l0[i],
                        rounds,
                    );
                assert(list[i] == l0[i]);
                assert(c[a] == claim_for(list[n], rounds));
            }
        }
    }
}

/// Whether the bet under key `k` is one that collecting settles for `sender`.
pub open spec fn collected(m: Market, sender: Seq<char>, k: LedgerKey) -> bool {
    m.bets@.contains_key(k) && k.1 == sender && settles(m.bets@[k], m.rounds@, m.live_round)
}

/// Everything but the two ledgers is as in `o`.
pub open spec fn same_but_ledgers(m: Market, o: Market) -> bool {
    &&& m.config == o.config
    &&& m.next_round_id == o.next_round_id
    &&& m.next_round == o.next_round
    &&& m.live_round == o.live_round
    &&& m.rounds@ == o.rounds@
    &&& m.admins@ == o.admins@
    &&& m.totals_spent@ == o.totals_spent@
    &&& m.is_halted == o.is_halted
    &&& m.accumulated_fee == o.accumulated_fee
}

/// Settles every outstanding bet of `sender` whose round is archived and not
/// live: each such bet is deleted and a receipt with its payout is stored
/// under its key. Returns the total to pay out; fails with `NothingToClaim`
/// when that total is zero.
pub fn execute_collect_winnings(m: &mut Market, sender: &String) -> (r: Result<u128, ContractError>)
    requires
        old(m).wf(),
    ensures
        final(m).wf(),
        ({
            let list = old(m).bets.listing(sender@);
            let rounds = old(m).rounds@;
            let live = old(m).live_round;
            match r {
                Ok(total) => {
                    &&& settle_fits(list, rounds, live)
                    &&& total == settle_sum(list, rounds, live)
                    &&& total == settle_sum(list, rounds, None)
                    &&& total > 0
                    &&& same_but_ledgers(*final(m), *old(m))
                    &&& forall|k: LedgerKey| !#[trigger] collected(*final(m), sender@, k)
                    &&& forall|k: LedgerKey|
                        #[trigger] final(m).bets@.contains_key(k) <==> old(m).bets@.contains_key(k)
                            && !collected(*old(m), sender@, k)
                    &&& forall|k: LedgerKey|
                        #[trigger] final(m).bets@.contains_key(k) ==> final(m).bets@[k] == old(m).bets@[k]
                    &&& forall|k: LedgerKey|
                        #[trigger] collected(*old(m), sender@, k) ==> final(m).claims@.contains_key(k)
                            && final(m).claims@[k] == claim_for(old(m).bets@[k], rounds)
                    &&& forall|k: LedgerKey|
                        !collected(*old(m), sender@, k) ==> (#[trigger] final(m).claims@.contains_key(k)
                            == old(m).claims@.contains_key(k) && (old(m).claims@.contains_key(k)
                            ==> final(m).claims@[k] == old(m).claims@[k]))
                },
                Err(e) => *final(m) == *old(m) && if !settle_fits(list, rounds, live) {
                    e == ContractError::Overflow
                } else {
                    settle_sum(list, rounds, live) == 0 && e == ContractError::NothingToClaim
                },
            }
        }),
{
    let ghost m0 = *m;
    proof {
        lemma_live_not_archived(m0, m0.bets.listing(sender@));
    }
    let list = m.bets.entries_of(sender);
    let (total, cs) = settle_list(&list, &m.rounds, m.live_round)?;
    if total == 0 {
        return Err(ContractError::NothingToClaim);
    }
    let ghost lv = view_all(list@);
    let ghost cv = view_all(cs@);
    proof {
        m0.bets.lemma_listing(sender@);
        assert forall|a: int, b: int|
            0 <= a < lv.len() && 0 <= b < lv.len() && a != b implies bet_key(#[trigger] lv[a])
            != bet_key(#[trigger] lv[b]) by {}
        lemma_claims_of(lv, m0.rounds@, m0.live_round);
    }
    let mut j: usize = 0;
    while j < cs.len()
        invariant
            m.wf(),
            cv == view_all(cs@),
            0 <= j <= cs@.len(),
            same_but_ledgers(*m, m0),
            m.bets@ == remove_all(m0.bets@, cv.take(j as int)),
            m.claims@ == save_all(m0.claims@, cv.take(j as int)),
        decreases cs@.len() - j,
    {
        let c = &cs[j];
        assert(cv.take(j + 1).drop_last() =~= cv.take(j as int));
        assert(cv.take(j + 1).last() == c@);
        m.bets.remove(c.round_id, &c.player);
        m.claims.save(c.duplicate());
        j = j + 1;
    }
    proof {
        assert(cv.take(cs@.len() as int) =~= cv);
        let rounds = m0.rounds@;
        let live = m0.live_round;
        assert forall|k: LedgerKey| #[trigger] m.bets@.contains_key(k) <==> m0.bets@.contains_key(k)
            && !collected(m0, sender@, k) by {
            lemma_remove_all(m0.bets@, cv, k);
            if m0.bets@.contains_key(k) && k.1 == sender@ {
                let i = choose|i: int| 0 <= i < lv.len() && bet_key(#[trigger] lv[i]) == k;
                if collected(m0, sender@, k) {
                    let jj = choose|jj: int| 0 <= jj < cv.len() && cv[jj] == claim_for(lv[i], rounds);
                    assert(claim_key(cv[jj]) == k);
                } else if exists|jj: int| 0 <= jj < cv.len() && claim_key(#[trigger] cv[jj]) == k {
                    let jj = choose|jj: int| 0 <= jj < cv.len() && claim_key(#[trigger] cv[jj]) == k;
                    let i2 = choose|i2: int|
                        0 <= i2 < lv.len() && settles(lv[i2], rounds, live) && #[trigger] cv[jj]
                            == claim_for(lv[i2], rounds);
                    assert(bet_key(lv[i2]) == k);
                }
            } else if exists|jj: int| 0 <= jj < cv.len() && claim_key(#[trigger] cv[jj]) == k {
                let jj = choose|jj: int| 0 <= jj < cv.len() && claim_key(#[trigger] cv[jj]) == k;
                let i2 = choose|i2: int|
                    0 <= i2 < lv.len() && settles(lv[i2], rounds, live) && #[trigger] cv[jj]
                        == claim_for(lv[i2], rounds);
                assert(bet_key(lv[i2]) == k);
            }
        }
        assert forall|k: LedgerKey| #[trigger] m.bets@.contains_key(k) implies m.bets@[k] == m0.bets@[k] by {
            lemma_remove_all(m0.bets@, cv, k);
        }
        assert forall|k: LedgerKey| #[trigger] collected(m0, sender@, k) implies m.claims@.contains_key(k)
            && m.claims@[k] == claim_for(m0.bets@[k], rounds) by {
            lemma_save_all(m0.claims@, cv, k);
            let i = choose|i: int| 0 <= i < lv.len() && bet_key(#[trigger] lv[i]) == k;
            let jj = choose|jj: int| 0 <= jj < cv.len() && cv[jj] == claim_for(lv[i], rounds);
            assert(claim_key(cv[jj]) == k);
        }
        assert forall|k: LedgerKey| !collected(m0, sender@, k) implies (#[trigger] m.claims@.contains_key(k)
            == m0.claims@.contains_key(k) && (m0.claims@.contains_key(k) ==> m.claims@[k]
            == m0.claims@[k])) by {
            lemma_save_all(m0.claims@, cv, k);
            if exists|jj: int| 0 <= jj < cv.len() && claim_key(#[trigger] cv[jj]) == k {
                let jj = choose|jj: int| 0 <= jj < cv.len() && claim_key(#[trigger] cv[jj]) == k;
                let i2 = choose|i2: int|
                    0 <= i2 < lv.len() && settles(lv[i2], rounds, live) && #[trigger] cv[jj]
                        == claim_for(lv[i2], rounds);
                assert(bet_key(lv[i2]) == k);
            }
        }
        assert forall|k: LedgerKey| !#[trigger] collected(*m, sender@, k) by {
            if collected(*m, sender@, k) {
                assert(m.bets@.contains_key(k));
            }
        }
    }
    Ok(total)
}

proof fn lemma_nothing_settles(list: Seq<BetView>, rounds: Seq<FinishedRound>, live: Option<LiveRound>)
    requires
        forall|i: int| 0 <= i < list.len() ==> !settles(#[trigger] list[i], rounds, live),
    ensures
        settle_fits(list, rounds, live),
        settle_sum(list, rounds, live) == 0,
    decreases list.len(),
{
    if list.len() > 0 {
        let l0 = list.drop_last();
        assert forall|i: int| 0 <= i < l0.len() implies !settles(#[trigger] l0[i], rounds, live) by {
            assert(l0[i] == list[i]);
        }
        lemma_nothing_settles(l0, rounds, live);
        assert(!settles(list[list.len() - 1], rounds, live));
    }
}

proof fn lemma_find_round(rounds: Seq<FinishedRound>, id: u128)
    ensures
        find_round(rounds, id) matches Some(f) ==> f.id == id && exists|i: int|
            0 <= i < rounds.len() && rounds[i] == f,
    decreases rounds.len(),
{
    if rounds.len() > 0 {
        lemma_find_round(rounds.drop_last(), id);
        if let Some(f) = find_round(rounds.drop_last(), id) {
            if rounds.last().id != id {
                let i = choose|i: int| 0 <= i < rounds.drop_last().len() && rounds.drop_last()[i] == f;
                assert(rounds[i] == f);
            }
        }
        if rounds.last().id == id {
            assert(rounds[rounds.len() - 1] == rounds.last());
        }
    }
}

proof fn lemma_settle_same(
    list: Seq<BetView>,
    rounds: Seq<FinishedRound>,
    live: Option<LiveRound>,
)
    requires
        forall|i: int| 0 <= i < list.len() ==> settles(#[trigger] list[i], rounds, live) == settles(
            list[i],
            rounds,
            None,
        ),
    ensures
        settle_sum(list, rounds, live) == settle_sum(list, rounds, None),
        settle_fits(list, rounds, live) == settle_fits(list, rounds, None),
        claims_of(list, rounds, live) == claims_of(list, rounds, None),
    decreases list.len(),
{
    if list.len() > 0 {
        let l0 = list.drop_last();
        assert forall|i: int| 0 <= i < l0.len() implies settles(#[trigger] l0[i], rounds, live)
            == settles(l0[i], rounds, None) by {
            assert(l0[i] == list[i]);
        }
        lemma_settle_same(l0, rounds, live);
        assert(list.last() == list[list.len() - 1]);
    }
}

/// The live round is never archived, so skipping bets on it changes
/// nothing: settling against the archive alone gives the same totals and
/// receipts as the collect does.
pub proof fn lemma_live_not_archived(m: Market, list: Seq<BetView>)
    requires
        m.wf(),
    ensures
        settle_sum(list, m.rounds@, m.live_round) == settle_sum(list, m.rounds@, None),
        settle_fits(list, m.rounds@, m.live_round) == settle_fits(list, m.rounds@, None),
        claims_of(list, m.rounds@, m.live_round) == claims_of(list, m.rounds@, None),
{
    assert forall|i: int| 0 <= i < list.len() implies settles(#[trigger] list[i], m.rounds@, m.live_round)
        == settles(list[i], m.rounds@, None) by {
        lemma_find_round(m.rounds@, list[i].round_id);
        if let Some(l) = m.live_round {
            if l.id == list[i].round_id {
                if let Some(f) = find_round(m.rounds@, list[i].round_id) {
                    let j = choose|j: int| 0 <= j < m.rounds@.len() && m.rounds@[j] == f;
                    assert(m.rounds@[j].id < l.id);
                }
            }
        }
    }
    lemma_settle_same(list, m.rounds@, m.live_round);
}

/// A bet on an archived round that nobody opposed, or whose price did not
/// move, is paid back its recorded amount.
pub proof fn lemma_archived_refund(m: Market, b: BetView)
    requires
        m.wf(),
        find_round(m.rounds@, b.round_id) matches Some(r) && (r.bull_amount == 0 || r.bear_amount
            == 0 || r.open_price == r.close_price),
    ensures
        bet_payout(b, m.rounds@) == b.amount,
{
    lemma_find_round(m.rounds@, b.round_id);
    let r = find_round(m.rounds@, b.round_id)->0;
    let j = choose|j: int| 0 <= j < m.rounds@.len() && m.rounds@[j] == r;
    assert(m.rounds@[j] == r);
    lemma_refund(r, b);
}

/// Conservation within an archived round: the payouts of the bets on the
/// winning side, which make up that side's total, add up to the pool less
/// at most one unit per bet beyond the first.
pub proof fn lemma_round_conservation(m: Market, round_id: u128, d: Direction, bets: Seq<BetView>)
    requires
        find_round(m.rounds@, round_id) matches Some(r) && r.winner == Some(d) && side_total(r, d)
            > 0,
        forall|i: int|
            0 <= i < bets.len() ==> (#[trigger] bets[i]).direction == d && bets[i].round_id
                == round_id,
        sum_amounts(bets) == side_total(find_round(m.rounds@, round_id)->0, d),
    ensures
        ({
            let r = find_round(m.rounds@, round_id)->0;
            &&& forall|i: int|
                0 <= i < bets.len() ==> bet_payout(#[trigger] bets[i], m.rounds@) == payout(
                    r,
                    bets[i].amount as int,
                    d,
                )
            &&& pool(r) - (bets.len() - 1) <= sum_payouts(r, bets) <= pool(r)
        }),
{
    let r = find_round(m.rounds@, round_id)->0;
    lemma_conservation(r, d, bets);
}

/// Claiming happens once: when none of a player's outstanding bets can be
/// settled (as after a successful collect), their settleable total is zero,
/// so collecting again fails with `NothingToClaim`.
pub proof fn lemma_collect_again(m: Market, sender: Seq<char>)
    requires
        m.wf(),
        forall|k: LedgerKey| !#[trigger] collected(m, sender, k),
    ensures
        settle_fits(m.bets.listing(sender), m.rounds@, m.live_round),
        settle_sum(m.bets.listing(sender), m.rounds@, m.live_round) == 0,
        settle_fits(m.bets.listing(sender), m.rounds@, None),
        settle_sum(m.bets.listing(sender), m.rounds@, None) == 0,
{
    lemma_live_not_archived(m, m.bets.listing(sender));
    let list = m.bets.listing(sender);
    m.bets.lemma_listing(sender);
    assert forall|i: int| 0 <= i < list.len() implies !settles(#[trigger] list[i], m.rounds@, m.live_round) by {
        let k = bet_key(list[i]);
        assert(!collected(m, sender, k));
    }
    lemma_nothing_settles(list, m.rounds@, m.live_round);
}

/// Settles `sender`'s bet on one archived round: the bet is deleted and a
/// receipt with its payout is stored. Returns the payout.
pub fn execute_collect_winning_round(m: &mut Market, sender: &String, round_id: u128) -> (r: Result<
    u128,
    ContractError,
>)
    requires
        old(m).wf(),
    ensures
        final(m).wf(),
        ({
            let k = (round_id, sender@);
            let rounds = old(m).rounds@;
            let found = find_round(rounds, round_id);
            let b = old(m).bets@[k];
            match r {
                Ok(p) => {
                    &&& old(m).bets@.contains_key(k) && found is Some
                    &&& payout_fits(found->0, b.amount as int, b.direction)
                    &&& p == bet_payout(b, rounds) && p > 0
                    &&& final(m).bets@ == old(m).bets@.remove(k)
                    &&& final(m).claims@ == old(m).claims@.insert(k, claim_for(b, rounds))
                    &&& same_but_ledgers(*final(m), *old(m))
                },
                Err(e) => *final(m) == *old(m) && if !old(m).bets@.contains_key(k) {
                    e == ContractError::NothingToClaim
                } else if found is None {
                    e == ContractError::RoundNotFound
                } else if !payout_fits(found->0, b.amount as int, b.direction) {
                    e == ContractError::Overflow
                } else {
                    bet_payout(b, rounds) == 0 && e == ContractError::NothingToClaim
                },
            }
        }),
{
    let bet = match m.bets.get(round_id, sender) {
        Some(b) => b,
        None => {
            return Err(ContractError::NothingToClaim);
        },
    };
    let round = match find_finished(&m.rounds, round_id) {
        Some(r) => r,
        None => {
            return Err(ContractError::RoundNotFound);
        },
    };
    proof {
        m.bets.lemma_keys_match();
    }
    let p = compute_payout(&round, bet.amount, bet.direction)?;
    if p == 0 {
        return Err(ContractError::NothingToClaim);
    }
    m.bets.remove(round_id, sender);
    m.claims.save(ClaimInfo { player: sender.clone(), round_id, claimed_amount: p });
    Ok(p)
}

/// What all of `player`'s outstanding bets on archived rounds would pay now.
pub fn query_my_pending_reward(m: &Market, player: &String) -> (r: Result<u128, ContractError>)
    requires
        m.wf(),
    ensures
        match r {
            Ok(t) => settle_fits(m.bets.listing(player@), m.rounds@, None) && t == settle_sum(
                m.bets.listing(player@),
                m.rounds@,
                None,
            ),
            Err(e) => !settle_fits(m.bets.listing(player@), m.rounds@, None) && e
                == ContractError::Overflow,
        },
{
    let list = m.bets.entries_of(player);
    let (total, _) = settle_list(&list, &m.rounds, None)?;
    Ok(total)
}

/// The receipts among `cs` that pay something, as `(round id, amount)`.
pub open spec fn paying_rounds(cs: Seq<ClaimView>) -> Seq<(u128, u128)>
    decreases cs.len(),
{
    if cs.len() == 0 {
        Seq::empty()
    } else if cs.last().claimed_amount != 0 {
        paying_rounds(cs.drop_last()).push((cs.last().round_id, cs.last().claimed_amount))
    } else {
        paying_rounds(cs.drop_last())
    }
}

proof fn lemma_claims_ascending(list: Seq<BetView>, rounds: Seq<FinishedRound>, live: Option<LiveRound>)
    requires
        forall|a: int, b: int| 0 <= a < b < list.len() ==> (#[trigger] list[a]).round_id < (
        #[trigger] list[b]).round_id,
    ensures
        forall|a: int, b: int|
            0 <= a < b < claims_of(list, rounds, live).len() ==> (#[trigger] claims_of(
                list,
                rounds,
                live,
            )[a]).round_id < (#[trigger] claims_of(list, rounds, live)[b]).round_id,
        forall|j: int|
            0 <= j < claims_of(list, rounds, live).len() ==> exists|i: int|
                0 <= i < list.len() && (#[trigger] claims_of(list, rounds, live)[j]).round_id
                    == list[i].round_id,
    decreases list.len(),
{
    if list.len() > 0 {
        let l0 = list.drop_last();
        let n = list.len() - 1;
        assert forall|a: int, b: int| 0 <= a < b < l0.len() implies (#[trigger] l0[a]).round_id < (
        #[trigger] l0[b]).round_id by {
            assert(l0[a] == list[a] && l0[b] == list[b]);
        }
        lemma_claims_ascending(l0, rounds, live);
        let c0 = claims_of(l0, rounds, live);
        let c = claims_of(list, rounds, live);
        assert forall|j: int| 0 <= j < c.len() implies exists|i: int|
            0 <= i < list.len() && (#[trigger] c[j]).round_id == list[i].round_id by {
            if j < c0.len() {
                assert(c[j] == c0[j]);
                let i = choose|i: int| 0 <= i < l0.len() && c0[j].round_id == l0[i].round_id;
                assert(list[i] == l0[i]);
            } else {
                assert(c[j].round_id == list[n].round_id);
            }
        }
        assert forall|a: int, b: int| 0 <= a < b < c.len() implies (#[trigger] c[a]).round_id < (
        #[trigger] c[b]).round_id by {
            assert(c[a] == c0[a]);
            if b < c0.len() {
                assert(c[b] == c0[b]);
            } else {
                let i = choose|i: int| 0 <= i < l0.len() && c0[a].round_id == l0[i].round_id;
                assert(list[i] == l0[i]);
                assert(c[b].round_id == list[n].round_id);
            }
        }
    }
}

proof fn lemma_paying_ascending(cs: Seq<ClaimView>)
    requires
        forall|a: int, b: int| 0 <= a < b < cs.len() ==> (#[trigger] cs[a]).round_id < (
        #[trigger] cs[b]).round_id,
    ensures
        forall|a: int, b: int|
            0 <= a < b < paying_rounds(cs).len() ==> (#[trigger] paying_rounds(cs)[a]).0 < (
            #[trigger] paying_rounds(cs)[b]).0,
        forall|j: int|
            0 <= j < paying_rounds(cs).len() ==> exists|i: int|
                0 <= i < cs.len() && (#[trigger] paying_rounds(cs)[j]).0 == cs[i].round_id,
    decreases cs.len(),
{
    if cs.len() > 0 {
        let c0 = cs.drop_last();
        let n = cs.len() - 1;
        assert forall|a: int, b: int| 0 <= a < b < c0.len() implies (#[trigger] c0[a]).round_id < (
        #[trigger] c0[b]).round_id by {
            assert(c0[a] == cs[a] && c0[b] == cs[b]);
        }
        lemma_paying_ascending(c0);
        let p0 = paying_rounds(c0);
        let p = paying_rounds(cs);
        assert forall|j: int| 0 <= j < p.len() implies exists|i: int|
            0 <= i < cs.len() && (#[trigger] p[j]).0 == cs[i].round_id by {
            if j < p0.len() {
                assert(p[j] == p0[j]);
                let i = choose|i: int| 0 <= i < c0.len() && p0[j].0 == c0[i].round_id;
                assert(cs[i] == c0[i]);
            } else {
                assert(p[j].0 == cs[n].round_id);
            }
        }
        assert forall|a: int, b: int| 0 <= a < b < p.len() implies (#[trigger] p[a]).0 < (
        #[trigger] p[b]).0 by {
            assert(p[a] == p0[a]);
            if b < p0.len() {
                assert(p[b] == p0[b]);
            } else {
                let i = choose|i: int| 0 <= i < c0.len() && p0[a].0 == c0[i].round_id;
                assert(cs[i] == c0[i]);
                assert(p[b].0 == cs[n].round_id);
            }
        }
    }
}

/// The pending reward of `player` round by round (rounds that pay nothing
/// are left out), with the total.
pub fn query_my_pending_reward_rounds(m: &Market, player: &String) -> (r: Result<
    (Vec<(u128, u128)>, u128),
    ContractError,
>)
    requires
        m.wf(),
    ensures
        match r {
            Ok((per_round, t)) => settle_fits(m.bets.listing(player@), m.rounds@, None) && t
                == settle_sum(m.bets.listing(player@), m.rounds@, None) && per_round@ == paying_rounds(
                claims_of(m.bets.listing(player@), m.rounds@, None),
            ) && forall|a: int, b: int|
                0 <= a < b < per_round@.len() ==> (#[trigger] per_round@[a]).0 < (
                #[trigger] per_round@[b]).0,
            Err(e) => !settle_fits(m.bets.listing(player@), m.rounds@, None) && e
                == ContractError::Overflow,
        },
{
    let list = m.bets.entries_of(player);
    let (total, cs) = settle_list(&list, &m.rounds, None)?;
    let ghost cv = view_all(cs@);
    let mut out: Vec<(u128, u128)> = Vec::new();
    let mut i: usize = 0;
    while i < cs.len()
        invariant
            cv == view_all(cs@),
            0 <= i <= cs@.len(),
            out@ == paying_rounds(cv.take(i as int)),
        decreases cs@.len() - i,
    {
        assert(cv.take(i + 1).drop_last() =~= cv.take(i as int));
        assert(cv.take(i + 1).last() == cs@[i as int]@);
        if cs[i].claimed_amount != 0 {
            out.push((cs[i].round_id, cs[i].claimed_amount));
        }
        i = i + 1;
    }
    assert(cv.take(cs@.len() as int) =~= cv);
    proof {
        let lv = m.bets.listing(player@);
        m.bets.lemma_listing(player@);
        assert forall|a: int, b: int| 0 <= a < b < lv.len() implies (#[trigger] lv[a]).round_id < (
        #[trigger] lv[b]).round_id by {}
        lemma_claims_ascending(lv, m.rounds@, None);
        lemma_paying_ascending(cv);
    }
    Ok((out, total))
}

/// What `player`'s bet on round `round_id` would pay now: zero without a bet
/// or an archived round.
pub fn query_my_pending_reward_round(m: &Market, round_id: u128, player: &String) -> (r: Result<
    u128,
    ContractError,
>)
    requires
        m.wf(),
    ensures
        ({
            let k = (round_id, player@);
            let found = find_round(m.rounds@, round_id);
            let b = m.bets@[k];
            if !m.bets@.contains_key(k) || found is None {
                r == Ok::<u128, ContractError>(0)
            } else if !payout_fits(found->0, b.amount as int, b.direction) {
                r == Err::<u128, ContractError>(ContractError::Overflow)
            } else {
                r == Ok::<u128, ContractError>(bet_payout(b, m.rounds@) as u128)
            }
        }),
{
    let bet = match m.bets.get(round_id, player) {
        Some(b) => b,
        None => {
            return Ok(0);
        },
    };
    proof {
        m.bets.lemma_keys_match();
    }
    match find_finished(&m.rounds, bet.round_id) {
        None => Ok(0),
        Some(round) => compute_payout(&round, bet.amount, bet.direction),
    }
}

} // verus!
